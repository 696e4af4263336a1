//! What a client does with addresses and tokens, and what there is of a browser
//! outside of one.
use vstd::arithmetic::div_mod::lemma_fundamental_div_mod;
use vstd::prelude::*;
use vstd::string::StringExecFns;
use crate::text::{
    chars_of, has_prefix, is_blank, is_white_space, owned, prefixes_come_first, skip, starts_with,
    string_of, trim, trimmed, white_space_is_trimmed_off,
};

verus! {

/// The token in a URL fragment of the form `#t=TOKEN`, if there is one.
pub open spec fn fragment_token(hash: Seq<char>) -> Option<Seq<char>> {
    if has_prefix(hash, seq!['#', 't', '=']) && trimmed(hash.skip(3)).len() > 0 {
        Some(trimmed(hash.skip(3)))
    } else {
        None
    }
}

/// Extracts a token from a URL fragment in the form `#t=TOKEN`.
pub fn parse_fragment(hash: &str) -> (r: Option<String>)
    ensures
        match r {
            Some(token) => fragment_token(hash@) == Some(token@),
            None => fragment_token(hash@) is None,
        },
{
    let chars = chars_of(hash);
    let prefix: [char; 3] = ['#', 't', '='];
    assert(prefix@ =~= seq!['#', 't', '=']);
    if !starts_with(chars.as_slice(), &prefix) {
        return None;
    }
    let rest = skip(chars.as_slice(), 3);
    let rest = string_of(rest.as_slice());
    let token = trim(rest.as_str());
    if token.as_str().is_empty() {
        None
    } else {
        Some(token)
    }
}

/// Reads the token from the current URL fragment: there is none outside a browser.
pub fn token_from_url_fragment() -> (r: Option<String>)
    ensures
        r is None,
{
    None
}

/// Removes the current URL fragment: there is none outside a browser.
pub fn strip_url_fragment() {
}

/// Reads a previously persisted token: there is none outside a browser.
pub fn stored_token() -> (r: Option<String>)
    ensures
        r is None,
{
    None
}

/// Persists a token for subsequent visits: there are none outside a browser.
pub fn store_token(_token: &str) {
}

/// Removes the persisted token: there is none outside a browser.
pub fn clear_stored_token() {
}

/// Returns the browser origin used by the REST API: there is none outside a
/// browser.
pub fn current_origin() -> (r: String)
    ensures
        r@.len() == 0,
{
    String::new()
}

/// A text without the slashes at its end.
pub open spec fn without_last_slashes(s: Seq<char>) -> Seq<char>
    decreases s.len(),
{
    if s.len() > 0 && s.last() == '/' {
        without_last_slashes(s.drop_last())
    } else {
        s
    }
}

/// A text without the slashes at its start.
pub open spec fn without_first_slashes(s: Seq<char>) -> Seq<char>
    decreases s.len(),
{
    if s.len() > 0 && s[0] == '/' {
        without_first_slashes(s.drop_first())
    } else {
        s
    }
}

/// An HTTP origin as a WebSocket one.
pub open spec fn ws_origin(base: Seq<char>) -> Seq<char> {
    if has_prefix(base, "https://"@) {
        "wss://"@ + base.skip(8)
    } else if has_prefix(base, "http://"@) {
        "ws://"@ + base.skip(7)
    } else {
        base
    }
}

/// Converts an HTTP origin and path into a WebSocket URL.
pub fn ws_url(base: &str, path: &str) -> (r: String)
    ensures
        r@ == ws_origin(without_last_slashes(base@)) + "/"@ + without_first_slashes(path@),
{
    let chars = chars_of(base);
    let mut to: usize = chars.len();
    assert(base@.take(to as int) =~= base@);
    while to > 0 && chars[to - 1] == '/'
        invariant
            to <= chars@.len(),
            chars@ == base@,
            without_last_slashes(base@) == without_last_slashes(base@.take(to as int)),
        decreases to,
    {
        assert(base@.take(to as int).drop_last() =~= base@.take(to - 1));
        to -= 1;
    }
    let origin: &[char] = &chars.as_slice()[0..to];
    assert(origin@ =~= base@.take(to as int));
    let https: [char; 8] = ['h', 't', 't', 'p', 's', ':', '/', '/'];
    let http: [char; 7] = ['h', 't', 't', 'p', ':', '/', '/'];
    proof {
        reveal_strlit("https://");
        reveal_strlit("http://");
        assert(https@ =~= "https://"@);
        assert(http@ =~= "http://"@);
    }
    let mut url = if starts_with(origin, &https) {
        let rest = skip(origin, 8);
        let rest = string_of(rest.as_slice());
        let mut url = owned("wss://");
        url.append(rest.as_str());
        url
    } else if starts_with(origin, &http) {
        let rest = skip(origin, 7);
        let rest = string_of(rest.as_slice());
        let mut url = owned("ws://");
        url.append(rest.as_str());
        url
    } else {
        string_of(origin)
    };
    url.append("/");
    let chars = chars_of(path);
    let mut from: usize = 0;
    assert(path@.skip(0) =~= path@);
    while from < chars.len() && chars[from] == '/'
        invariant
            from <= chars@.len(),
            chars@ == path@,
            without_first_slashes(path@) == without_first_slashes(path@.skip(from as int)),
        decreases chars.len() - from,
    {
        assert(path@.skip(from as int).drop_first() =~= path@.skip(from + 1));
        from += 1;
    }
    let rest = skip(chars.as_slice(), from);
    let rest = string_of(rest.as_slice());
    url.append(rest.as_str());
    url
}

/// The jitter of a reconnect attempt below a maximum: from a random number where
/// there is one, else from the number of the attempt.
pub open spec fn jitter_of(random: Option<u32>, attempt: u32, maximum: u32) -> u32 {
    if maximum == 0 {
        0
    } else {
        match random {
            Some(number) => (number % maximum) as u32,
            None => (attempt.wrapping_mul(1_103_515_245).wrapping_add(12_345) % maximum) as u32,
        }
    }
}

/// Returns per-attempt reconnect jitter from a random number, if there is one.
pub fn jitter_ms(random: Option<u32>, attempt: u32, maximum: u32) -> (r: u32)
    ensures
        r == jitter_of(random, attempt, maximum),
        maximum > 0 ==> r < maximum,
{
    if maximum == 0 {
        return 0;
    }
    match random {
        Some(number) => number % maximum,
        None => attempt.wrapping_mul(1_103_515_245).wrapping_add(12_345) % maximum,
    }
}

/// Returns per-attempt reconnect jitter where there is no random source.
pub fn reconnect_jitter_ms(attempt: u32, maximum: u32) -> (r: u32)
    ensures
        r == jitter_of(None, attempt, maximum),
        maximum > 0 ==> r < maximum,
{
    jitter_ms(None, attempt, maximum)
}

/// Slashes alone.
pub open spec fn are_slashes(s: Seq<char>) -> bool {
    forall|i: int| 0 <= i < s.len() ==> #[trigger] s[i] == '/'
}

/// Slashes at the end of a text, or at its start, are taken off, all of them and nothing
/// else.
pub proof fn slashes_are_taken_off(s: Seq<char>, slashes: Seq<char>)
    requires
        are_slashes(slashes),
    ensures
        s.len() == 0 || s.last() != '/' ==> without_last_slashes(s + slashes) == s,
        s.len() == 0 || s[0] != '/' ==> without_first_slashes(slashes + s) == s,
    decreases slashes.len(),
{
    if slashes.len() == 0 {
        assert(s + slashes =~= s);
        assert(slashes + s =~= s);
    } else {
        let fewer = slashes.drop_last();
        slashes_are_taken_off(s, fewer);
        assert((s + slashes).drop_last() =~= s + fewer);
        assert((s + slashes).last() == slashes[slashes.len() - 1]);
        assert(slashes.drop_first() =~= fewer);
        assert((slashes + s).drop_first() =~= fewer + s);
        assert((slashes + s)[0] == slashes[0]);
    }
}

/// The address of the event stream has the scheme that belongs to the page's own, and
/// keeps the rest of its address.
pub proof fn streams_keep_the_address(base: Seq<char>, rest: Seq<char>)
    ensures
        ws_origin("https://"@ + rest) == "wss://"@ + rest,
        ws_origin("http://"@ + rest) == "ws://"@ + rest,
        !has_prefix(base, "https://"@) && !has_prefix(base, "http://"@) ==> ws_origin(base) == base,
{
    reveal_strlit("https://");
    reveal_strlit("http://");
    let secure = "https://"@ + rest;
    let plain = "http://"@ + rest;
    prefixes_come_first(secure, "https://"@, rest);
    prefixes_come_first(plain, "http://"@, rest);
    assert(secure.skip(8) =~= rest);
    assert(plain.skip(7) =~= rest);
    if has_prefix(plain, "https://"@) {
        assert(plain.take(8)[4] == ':');
        assert("https://"@[4] == 's');
    }
}

/// The token of a fragment is what follows `#t=`, without the white space around it.
pub proof fn fragments_hold_their_token(
    hash: Seq<char>,
    before: Seq<char>,
    token: Seq<char>,
    after: Seq<char>,
)
    requires
        is_blank(before),
        is_blank(after),
        token.len() > 0 ==> !is_white_space(token[0]) && !is_white_space(token.last()),
    ensures
        fragment_token(seq!['#', 't', '='] + (before + token + after)) == if token.len() > 0 {
            Some(token)
        } else {
            None
        },
        fragment_token(hash) is Some ==> hash == seq!['#', 't', '='] + hash.skip(3),
{
    let sign = seq!['#', 't', '='];
    let rest = before + token + after;
    white_space_is_trimmed_off(before, token, after);
    prefixes_come_first(hash, sign, rest);
    assert((sign + rest).skip(3) =~= rest);
}

/// A pause is put off by less than the maximum, and by what is left of the random number
/// when the maximum is taken from it as often as possible.
pub proof fn jitter_is_a_remainder(number: u32, attempt: u32, maximum: u32)
    requires
        maximum > 0,
    ensures
        jitter_of(Some(number), attempt, maximum) < maximum,
        exists|times: int|
            number == jitter_of(Some(number), attempt, maximum) + #[trigger] (times * maximum),
        jitter_of(None, attempt, maximum) < maximum,
        jitter_of(Some(number), attempt, 0) == 0,
        jitter_of(None, attempt, 0) == 0,
{
    let times = number as int / maximum as int;
    lemma_fundamental_div_mod(number as int, maximum as int);
    assert(maximum as int * times == times * maximum as int) by (nonlinear_arith);
    assert(number == jitter_of(Some(number), attempt, maximum) + times * maximum);
}

} // verus!
