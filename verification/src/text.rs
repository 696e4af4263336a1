//! Strings as sequences of characters: building, splitting and trimming.
use vstd::prelude::*;

verus! {

/// `String::push` appends one character at the end of the string.
pub assume_specification[ String::push ](s: &mut String, c: char)
    ensures
        final(s)@ == old(s)@.push(c),
;

/// The upper-case mapping of a character.
pub uninterp spec fn uppercase(c: char) -> Seq<char>;

/// `char::to_uppercase` maps a character to the characters of its Unicode
/// upper-case mapping; those of ASCII are the ASCII ones.
#[verifier::external_body]
pub(crate) fn upper_case(c: char) -> (r: Vec<char>)
    ensures
        r@ == uppercase(c),
        c as u32 <= 127 ==> r@ == seq![ascii_upper(c)],
{
    c.to_uppercase().collect()
}

/// A text in lower case.
pub uninterp spec fn lowercase(s: Seq<char>) -> Seq<char>;

/// `str::to_lowercase` maps a text to its Unicode lower-case equivalent; that of
/// ASCII text is the ASCII one.
#[verifier::external_body]
pub(crate) fn lower_case(s: &str) -> (r: String)
    ensures
        r@ == lowercase(s@),
        (forall|i: int| 0 <= i < s@.len() ==> s@[i] as u32 <= 127) ==> r@ == lower_text(s@),
{
    s.to_lowercase()
}

/// A text as `Debug` prints it: in quotes, with special characters escaped.
pub uninterp spec fn debug_text(s: Seq<char>) -> Seq<char>;

/// `Debug` of a string prints it in quotes, with special characters escaped.
#[verifier::external_body]
pub(crate) fn quoted(s: &str) -> (r: String)
    ensures
        r@ == debug_text(s@),
{
    format!("{s:?}")
}

/// The characters of a string, in order.
pub fn chars_of(s: &str) -> (v: Vec<char>)
    ensures
        v@ == s@,
{
    let mut v: Vec<char> = Vec::new();
    for c in it: s.chars()
        invariant
            v@ == s@.take(it.index() as int),
            it.seq() == s@,
    {
        v.push(c);
        assert(s@.take(it.index() as int + 1) =~= s@.take(it.index() as int).push(c));
    }
    assert(s@.take(s@.len() as int) =~= s@);
    v
}

/// The string made of the given characters.
pub fn string_of(chars: &[char]) -> (s: String)
    ensures
        s@ == chars@,
{
    let mut s = String::new();
    let mut i: usize = 0;
    while i < chars.len()
        invariant
            i <= chars@.len(),
            s@ == chars@.take(i as int),
        decreases chars.len() - i,
    {
        s.push(chars[i]);
        assert(chars@.take(i as int + 1) =~= chars@.take(i as int).push(chars@[i as int]));
        i += 1;
    }
    assert(chars@.take(chars@.len() as int) =~= chars@);
    s
}

/// An owned copy of a piece of text.
pub fn owned(s: &str) -> (r: String)
    ensures
        r@ == s@,
{
    s.to_owned()
}

/// Tells whether a string is a given text.
pub fn is_text(s: &String, text: &str) -> (r: bool)
    ensures
        r == (s@ == text@),
{
    *s == owned(text)
}

/// The decimal digit of a number below ten.
pub open spec fn digit_char(d: int) -> char {
    (('0' as u32) + d) as char
}

/// A natural number written in decimal, without leading zeros.
pub open spec fn decimal(n: nat) -> Seq<char>
    decreases n,
{
    if n < 10 {
        seq![digit_char(n as int)]
    } else {
        decimal(n / 10).push(digit_char((n % 10) as int))
    }
}

/// An integer written in decimal, with a minus sign where it is negative.
pub open spec fn signed_decimal(n: int) -> Seq<char> {
    if n < 0 {
        seq!['-'] + decimal((-n) as nat)
    } else {
        decimal(n as nat)
    }
}

/// Returns the decimal digit of a number below ten.
pub fn digit(d: u8) -> (c: char)
    requires
        d < 10,
    ensures
        c == digit_char(d as int),
{
    (48u8 + d) as char
}

/// Appends a number in decimal.
pub fn push_decimal(out: &mut String, n: u64)
    ensures
        final(out)@ == old(out)@ + decimal(n as nat),
    decreases n,
{
    if n < 10 {
        out.push(digit(n as u8));
        assert(out@ =~= old(out)@ + decimal(n as nat));
    } else {
        push_decimal(out, n / 10);
        out.push(digit((n % 10) as u8));
        assert(out@ =~= old(out)@ + decimal(n as nat));
    }
}

/// Appends an integer in decimal, with a minus sign where it is negative.
pub fn push_signed_decimal(out: &mut String, n: i64)
    ensures
        final(out)@ == old(out)@ + signed_decimal(n as int),
{
    if n < 0 {
        out.push('-');
        let ghost mid = out@;
        let size: u64 = (-(n as i128)) as u64;
        push_decimal(out, size);
        assert(out@ =~= old(out)@ + signed_decimal(n as int));
    } else {
        push_decimal(out, n as u64);
    }
}

/// An ASCII letter in upper case; every other character as it is.
pub open spec fn ascii_upper(c: char) -> char {
    if 'a' <= c <= 'z' {
        (c as u32 - 32) as char
    } else {
        c
    }
}

/// An ASCII letter in lower case; every other character as it is.
pub open spec fn ascii_lower(c: char) -> char {
    if 'A' <= c <= 'Z' {
        (c as u32 + 32) as char
    } else {
        c
    }
}

/// A text with its ASCII letters in upper case.
pub open spec fn upper_text(s: Seq<char>) -> Seq<char> {
    s.map_values(|c: char| ascii_upper(c))
}

/// A text with its ASCII letters in lower case.
pub open spec fn lower_text(s: Seq<char>) -> Seq<char> {
    s.map_values(|c: char| ascii_lower(c))
}

/// Appends characters to a text, with ASCII letters in upper case.
pub fn push_upper(out: &mut String, chars: &[char])
    ensures
        final(out)@ == old(out)@ + upper_text(chars@),
{
    let mut i: usize = 0;
    while i < chars.len()
        invariant
            i <= chars@.len(),
            out@ == old(out)@ + upper_text(chars@.take(i as int)),
        decreases chars.len() - i,
    {
        let c = chars[i];
        out.push(
            if 'a' <= c && c <= 'z' {
                (c as u8 - 32) as char
            } else {
                c
            },
        );
        assert(out@ =~= old(out)@ + upper_text(chars@.take(i + 1)));
        i += 1;
    }
    assert(chars@.take(i as int) =~= chars@);
}

/// Appends characters to a text, with ASCII letters in lower case.
pub fn push_lower(out: &mut String, chars: &[char])
    ensures
        final(out)@ == old(out)@ + lower_text(chars@),
{
    let mut i: usize = 0;
    while i < chars.len()
        invariant
            i <= chars@.len(),
            out@ == old(out)@ + lower_text(chars@.take(i as int)),
        decreases chars.len() - i,
    {
        let c = chars[i];
        out.push(
            if 'A' <= c && c <= 'Z' {
                (c as u8 + 32) as char
            } else {
                c
            },
        );
        assert(out@ =~= old(out)@ + lower_text(chars@.take(i + 1)));
        i += 1;
    }
    assert(chars@.take(i as int) =~= chars@);
}

/// The parts of a text between the occurrences of a separator.
pub open spec fn split(s: Seq<char>, separator: char) -> Seq<Seq<char>>
    decreases s.len(),
{
    if s.len() == 0 {
        seq![Seq::empty()]
    } else {
        let parts = split(s.drop_last(), separator);
        if s.last() == separator {
            parts.push(Seq::empty())
        } else {
            parts.drop_last().push(parts.last().push(s.last()))
        }
    }
}

/// There is always at least one part.
pub proof fn split_is_nonempty(s: Seq<char>, separator: char)
    ensures
        split(s, separator).len() > 0,
    decreases s.len(),
{
    if s.len() > 0 {
        split_is_nonempty(s.drop_last(), separator);
    }
}

/// The contents of the given parts.
pub open spec fn texts(parts: Seq<Vec<char>>) -> Seq<Seq<char>> {
    parts.map_values(|part: Vec<char>| part@)
}

/// Splits a text at every occurrence of a separator.
pub fn split_on(s: &[char], separator: char) -> (parts: Vec<Vec<char>>)
    ensures
        texts(parts@) == split(s@, separator),
        parts@.len() > 0,
{
    let mut parts: Vec<Vec<char>> = Vec::new();
    let mut current: Vec<char> = Vec::new();
    let mut i: usize = 0;
    assert(texts(parts@).push(current@) =~= split(s@.take(0), separator));
    while i < s.len()
        invariant
            i <= s@.len(),
            texts(parts@).push(current@) == split(s@.take(i as int), separator),
        decreases s.len() - i,
    {
        let c = s[i];
        let ghost before = split(s@.take(i as int), separator);
        proof {
            assert(s@.take(i + 1).drop_last() =~= s@.take(i as int));
            assert(before.drop_last() =~= texts(parts@));
        }
        if c == separator {
            parts.push(current);
            assert(texts(parts@) =~= before);
            current = Vec::new();
            assert(texts(parts@).push(current@) =~= split(s@.take(i + 1), separator));
        } else {
            current.push(c);
        }
        i += 1;
    }
    assert(s@.take(i as int) =~= s@);
    parts.push(current);
    assert(texts(parts@) =~= split(s@, separator));
    parts
}

/// The value of a digit in a radix up to sixteen, if it is one.
pub open spec fn digit_value(c: char, radix: int) -> Option<int> {
    let value = if '0' <= c <= '9' {
        c as u32 - 48
    } else if 'a' <= c <= 'f' {
        c as u32 - 87
    } else if 'A' <= c <= 'F' {
        c as u32 - 55
    } else {
        radix
    };
    if value < radix {
        Some(value)
    } else {
        None
    }
}

/// The number that a sequence of digits stands for, if all of them are digits.
pub open spec fn digits_value(s: Seq<char>, radix: int) -> Option<int>
    decreases s.len(),
{
    if s.len() == 0 {
        Some(0)
    } else {
        match (digits_value(s.drop_last(), radix), digit_value(s.last(), radix)) {
            (Some(high), Some(low)) => Some(high * radix + low),
            _ => None,
        }
    }
}

/// The number that a text stands for: an optional plus sign, then at least one
/// digit, and no more than the largest number that is wanted.
pub open spec fn number(s: Seq<char>, radix: int, max: int) -> Option<int> {
    let digits = if s.len() > 0 && s[0] == '+' {
        s.drop_first()
    } else {
        s
    };
    if digits.len() == 0 {
        None
    } else {
        match digits_value(digits, radix) {
            Some(value) => if value <= max {
                Some(value)
            } else {
                None
            },
            None => None,
        }
    }
}

proof fn prefix_of_digits(s: Seq<char>, radix: int, k: int)
    requires
        0 <= k <= s.len(),
        radix == 10 || radix == 16,
    ensures
        digits_value(s.take(k), radix) is None ==> digits_value(s, radix) is None,
        digits_value(s.take(k), radix) matches Some(low) ==> low >= 0 && (digits_value(
            s,
            radix,
        ) matches Some(high) ==> high >= low),
    decreases s.len() - k, s.len(),
{
    if k == s.len() {
        assert(s.take(k) =~= s);
        if k > 0 {
            prefix_of_digits(s.drop_last(), radix, k - 1);
        }
    } else {
        prefix_of_digits(s.take(k), radix, k);
        prefix_of_digits(s, radix, k + 1);
        assert(s.take(k + 1).drop_last() =~= s.take(k));
        assert(s.take(k).take(k) =~= s.take(k));
    }
}

/// Reads a number in a radix of ten or sixteen, up to a largest one: an optional
/// plus sign and then digits alone.
pub fn parse_number(s: &[char], radix: u64, max: u64) -> (r: Option<u64>)
    requires
        radix == 10 || radix == 16,
    ensures
        match r {
            Some(value) => number(s@, radix as int, max as int) == Some(value as int),
            None => number(s@, radix as int, max as int) is None,
        },
{
    let start: usize = if s.len() > 0 && s[0] == '+' {
        1
    } else {
        0
    };
    let ghost digits = s@.skip(start as int);
    assert(s@.skip(0) =~= s@);
    assert(s@.len() > 0 ==> s@.skip(1) =~= s@.drop_first());
    if start == s.len() {
        return None;
    }
    let mut value: u64 = 0;
    let mut i: usize = start;
    while i < s.len()
        invariant
            radix == 10 || radix == 16,
            start <= i <= s@.len(),
            digits == s@.skip(start as int),
            value <= max,
            digits_value(digits.take(i - start), radix as int) == Some(value as int),
            number(s@, radix as int, max as int) == match digits_value(digits, radix as int) {
                Some(all) => if all <= max {
                    Some(all)
                } else {
                    None
                },
                None => None,
            },
        decreases s.len() - i,
    {
        let c = s[i];
        let low: u64 = if '0' <= c && c <= '9' {
            c as u64 - 48
        } else if 'a' <= c && c <= 'f' {
            c as u64 - 87
        } else if 'A' <= c && c <= 'F' {
            c as u64 - 55
        } else {
            radix
        };
        proof {
            assert(digits.take(i - start + 1).drop_last() =~= digits.take(i - start));
            assert(digits.take(i - start + 1).last() == c);
            prefix_of_digits(digits, radix as int, i - start + 1);
        }
        if low >= radix {
            return None;
        }
        assert(value * radix <= 0xffff_ffff_ffff_ffff * 16) by (nonlinear_arith)
            requires
                value <= 0xffff_ffff_ffff_ffff,
                radix <= 16,
        ;
        let next: u128 = value as u128 * radix as u128 + low as u128;
        if next > max as u128 {
            return None;
        }
        value = next as u64;
        i += 1;
    }
    assert(digits.take(i - start) =~= digits);
    Some(value)
}

/// A character with the Unicode property White_Space.
pub open spec fn is_white_space(c: char) -> bool {
    let n = c as u32;
    ||| 0x9 <= n <= 0xd
    ||| n == 0x20
    ||| n == 0x85
    ||| n == 0xa0
    ||| n == 0x1680
    ||| 0x2000 <= n <= 0x200a
    ||| n == 0x2028
    ||| n == 0x2029
    ||| n == 0x202f
    ||| n == 0x205f
    ||| n == 0x3000
}

/// Tells whether a character has the Unicode property White_Space.
pub fn white_space(c: char) -> (r: bool)
    ensures
        r == is_white_space(c),
{
    let n: u32 = c as u32;
    (0x9 <= n && n <= 0xd) || n == 0x20 || n == 0x85 || n == 0xa0 || n == 0x1680 || (0x2000 <= n
        && n <= 0x200a) || n == 0x2028 || n == 0x2029 || n == 0x202f || n == 0x205f || n == 0x3000
}

/// A text without the white space at its start.
pub open spec fn trim_start(s: Seq<char>) -> Seq<char>
    decreases s.len(),
{
    if s.len() > 0 && is_white_space(s[0]) {
        trim_start(s.drop_first())
    } else {
        s
    }
}

/// A text without the white space at its end.
pub open spec fn trim_end(s: Seq<char>) -> Seq<char>
    decreases s.len(),
{
    if s.len() > 0 && is_white_space(s.last()) {
        trim_end(s.drop_last())
    } else {
        s
    }
}

/// A text without the white space at its ends.
pub open spec fn trimmed(s: Seq<char>) -> Seq<char> {
    trim_end(trim_start(s))
}

/// What is left of a trimmed text begins and ends with something else.
pub proof fn trimmed_ends(s: Seq<char>)
    ensures
        trimmed(s).len() <= s.len(),
        trimmed(s).len() > 0 ==> !is_white_space(trimmed(s)[0]) && !is_white_space(
            trimmed(s).last(),
        ),
{
    trim_start_ends(s);
    trim_end_ends(trim_start(s));
}

proof fn trim_start_ends(s: Seq<char>)
    ensures
        trim_start(s).len() <= s.len(),
        trim_start(s).len() > 0 ==> !is_white_space(trim_start(s)[0]),
    decreases s.len(),
{
    if s.len() > 0 && is_white_space(s[0]) {
        trim_start_ends(s.drop_first());
    }
}

proof fn trim_end_ends(s: Seq<char>)
    ensures
        trim_end(s).len() <= s.len(),
        trim_end(s).len() > 0 ==> trim_end(s)[0] == s[0] && !is_white_space(trim_end(s).last()),
    decreases s.len(),
{
    if s.len() > 0 && is_white_space(s.last()) {
        trim_end_ends(s.drop_last());
    }
}

/// Removes the white space at the ends of a text.
pub fn trim(s: &str) -> (r: String)
    ensures
        r@ == trimmed(s@),
{
    let chars = chars_of(s);
    let mut from: usize = 0;
    assert(s@.skip(0) =~= s@);
    while from < chars.len() && white_space(chars[from])
        invariant
            from <= chars@.len(),
            chars@ == s@,
            trim_start(s@) == trim_start(s@.skip(from as int)),
        decreases chars.len() - from,
    {
        assert(s@.skip(from as int).drop_first() =~= s@.skip(from + 1));
        from += 1;
    }
    let mut to: usize = chars.len();
    assert(s@.skip(from as int) =~= s@.subrange(from as int, to as int));
    while to > from && white_space(chars[to - 1])
        invariant
            from <= to <= chars@.len(),
            chars@ == s@,
            trimmed(s@) == trim_end(s@.subrange(from as int, to as int)),
        decreases to - from,
    {
        assert(s@.subrange(from as int, to as int).drop_last() =~= s@.subrange(
            from as int,
            to - 1,
        ));
        to -= 1;
    }
    string_of(&chars.as_slice()[from..to])
}

/// A number written in decimal is one or more digits, and is read back as itself.
pub proof fn decimal_reads_back(n: nat)
    ensures
        decimal(n).len() > 0,
        forall|i: int| 0 <= i < decimal(n).len() ==> '0' <= #[trigger] decimal(n)[i] <= '9',
        digits_value(decimal(n), 10) == Some(n as int),
    decreases n,
{
    if n >= 10 {
        decimal_reads_back(n / 10);
        assert(decimal(n).drop_last() =~= decimal(n / 10));
    } else {
        assert(decimal(n).drop_last() =~= Seq::<char>::empty());
        assert(digits_value(Seq::<char>::empty(), 10) == Some(0int));
    }
}

/// Different numbers are written differently.
pub proof fn decimals_differ(a: nat, b: nat)
    requires
        a != b,
    ensures
        decimal(a) != decimal(b),
{
    decimal_reads_back(a);
    decimal_reads_back(b);
}

/// A text occurs in another at a given place.
pub open spec fn occurs_at(s: Seq<char>, part: Seq<char>, at: int) -> bool {
    0 <= at <= s.len() - part.len() && s.subrange(at, at + part.len()) == part
}

/// A text occurs in another.
pub open spec fn occurs(s: Seq<char>, part: Seq<char>) -> bool {
    exists|at: int| #[trigger] occurs_at(s, part, at)
}

/// Tells whether a text occurs in another.
pub fn contains(s: &[char], part: &[char]) -> (r: bool)
    ensures
        r == occurs(s@, part@),
{
    if part.len() > s.len() {
        return false;
    }
    let total: usize = s.len();
    let last: usize = total - part.len();
    let mut at: usize = 0;
    loop
        invariant
            total == s@.len(),
            last == s@.len() - part@.len(),
            at <= last,
            forall|k: int| 0 <= k < at ==> !#[trigger] occurs_at(s@, part@, k),
        decreases last - at,
    {
        let mut i: usize = 0;
        while i < part.len() && s[at + i] == part[i]
            invariant
                total == s@.len(),
                last == s@.len() - part@.len(),
                at <= last,
                i <= part@.len(),
                forall|j: int| 0 <= j < i ==> s@[at + j] == #[trigger] part@[j],
            decreases part.len() - i,
        {
            i += 1;
        }
        if i == part.len() {
            assert(s@.subrange(at as int, at + part@.len()) =~= part@);
            assert(occurs_at(s@, part@, at as int));
            return true;
        }
        assert(!occurs_at(s@, part@, at as int)) by {
            if occurs_at(s@, part@, at as int) {
                assert(s@.subrange(at as int, at + part@.len())[i as int] == part@[i as int]);
            }
        }
        if at == last {
            return false;
        }
        at += 1;
    }
}

/// A text begins with another.
pub open spec fn has_prefix(s: Seq<char>, prefix: Seq<char>) -> bool {
    prefix.len() <= s.len() && s.take(prefix.len() as int) == prefix
}

/// Tells whether a text begins with another.
pub fn starts_with(s: &[char], prefix: &[char]) -> (r: bool)
    ensures
        r == has_prefix(s@, prefix@),
{
    if prefix.len() > s.len() {
        return false;
    }
    let mut i: usize = 0;
    while i < prefix.len()
        invariant
            i <= prefix@.len() <= s@.len(),
            s@.take(i as int) == prefix@.take(i as int),
        decreases prefix.len() - i,
    {
        if s[i] != prefix[i] {
            assert(s@.take(prefix@.len() as int)[i as int] != prefix@[i as int]);
            return false;
        }
        assert(s@.take(i + 1) =~= s@.take(i as int).push(s@[i as int]));
        assert(prefix@.take(i + 1) =~= prefix@.take(i as int).push(prefix@[i as int]));
        i += 1;
    }
    assert(prefix@.take(i as int) =~= prefix@);
    true
}

/// The characters from a position on.
pub fn skip(s: &[char], from: usize) -> (r: Vec<char>)
    requires
        from <= s@.len(),
    ensures
        r@ == s@.skip(from as int),
{
    let mut r: Vec<char> = Vec::new();
    let mut i: usize = from;
    while i < s.len()
        invariant
            from <= i <= s@.len(),
            r@ == s@.subrange(from as int, i as int),
        decreases s.len() - i,
    {
        r.push(s[i]);
        assert(s@.subrange(from as int, i + 1) =~= s@.subrange(from as int, i as int).push(
            s@[i as int],
        ));
        i += 1;
    }
    assert(r@ =~= s@.skip(from as int));
    r
}

/// The given parts one after another, with the separator between them.
pub open spec fn joined(parts: Seq<Seq<char>>, separator: char) -> Seq<char>
    decreases parts.len(),
{
    if parts.len() == 0 {
        Seq::empty()
    } else if parts.len() == 1 {
        parts[0]
    } else {
        joined(parts.drop_last(), separator).push(separator) + parts.last()
    }
}

/// The parts of a text hold no separator, and make up the text again where one is put
/// between them.
pub proof fn parts_make_up_the_text(s: Seq<char>, separator: char)
    ensures
        split(s, separator).len() > 0,
        joined(split(s, separator), separator) == s,
        forall|i: int, j: int|
            0 <= i < split(s, separator).len() && 0 <= j < split(s, separator)[i].len()
                ==> #[trigger] split(s, separator)[i][j] != separator,
    decreases s.len(),
{
    if s.len() == 0 {
        assert(joined(split(s, separator), separator) =~= s);
    } else {
        let before = s.drop_last();
        let parts = split(before, separator);
        parts_make_up_the_text(before, separator);
        let whole = split(s, separator);
        if s.last() == separator {
            assert(whole.drop_last() =~= parts);
            assert(joined(whole, separator) =~= s);
        } else {
            if parts.len() > 1 {
                assert(whole.drop_last() =~= parts.drop_last());
            }
            assert(joined(whole, separator) =~= joined(parts, separator).push(s.last()));
            assert(s =~= before.push(s.last()));
            assert forall|i: int, j: int|
                0 <= i < whole.len() && 0 <= j < whole[i].len() implies #[trigger] whole[i][j]
                != separator by {
                if i < whole.len() - 1 {
                    assert(parts[i][j] != separator);
                } else if j < whole[i].len() - 1 {
                    assert(parts[i][j] != separator);
                }
            }
        }
    }
}

/// White space alone.
pub open spec fn is_blank(s: Seq<char>) -> bool {
    forall|i: int| 0 <= i < s.len() ==> is_white_space(#[trigger] s[i])
}

proof fn blank_start(blank: Seq<char>, rest: Seq<char>)
    requires
        is_blank(blank),
        rest.len() > 0 ==> !is_white_space(rest[0]),
    ensures
        trim_start(blank + rest) == rest,
    decreases blank.len(),
{
    let whole = blank + rest;
    if blank.len() == 0 {
        assert(whole =~= rest);
    } else {
        assert(whole[0] == blank[0]);
        assert(whole.drop_first() =~= blank.drop_first() + rest);
        blank_start(blank.drop_first(), rest);
    }
}

proof fn blank_end(rest: Seq<char>, blank: Seq<char>)
    requires
        is_blank(blank),
        rest.len() > 0 ==> !is_white_space(rest.last()),
    ensures
        trim_end(rest + blank) == rest,
    decreases blank.len(),
{
    let whole = rest + blank;
    if blank.len() == 0 {
        assert(whole =~= rest);
    } else {
        assert(whole.last() == blank.last());
        assert(whole.drop_last() =~= rest + blank.drop_last());
        blank_end(rest, blank.drop_last());
    }
}

/// To trim a text takes the white space off its two ends, and nothing else.
pub proof fn white_space_is_trimmed_off(before: Seq<char>, middle: Seq<char>, after: Seq<char>)
    requires
        is_blank(before),
        is_blank(after),
        middle.len() > 0 ==> !is_white_space(middle[0]) && !is_white_space(middle.last()),
    ensures
        trimmed(before + middle + after) == middle,
{
    let whole = before + middle + after;
    if middle.len() == 0 {
        assert(whole =~= (before + after) + middle);
        assert(is_blank(before + after));
        blank_start(before + after, middle);
    } else {
        assert(whole =~= before + (middle + after));
        blank_start(before, middle + after);
        blank_end(middle, after);
    }
}

/// The characters that count as white space.
pub proof fn white_space_is_known(c: char)
    ensures
        is_white_space(c) <==> c == '\t' || c == '\n' || c == '\u{b}' || c == '\u{c}' || c == '\r'
            || c == ' ' || c == '\u{85}' || c == '\u{a0}' || c == '\u{1680}' || c == '\u{2000}' || c
            == '\u{2001}' || c == '\u{2002}' || c == '\u{2003}' || c == '\u{2004}' || c
            == '\u{2005}' || c == '\u{2006}' || c == '\u{2007}' || c == '\u{2008}' || c
            == '\u{2009}' || c == '\u{200a}' || c == '\u{2028}' || c == '\u{2029}' || c
            == '\u{202f}' || c == '\u{205f}' || c == '\u{3000}',
{
}

/// A text occurs wherever something stands before and after it.
pub proof fn parts_occur(before: Seq<char>, part: Seq<char>, after: Seq<char>)
    ensures
        occurs(before + part + after, part),
{
    let whole = before + part + after;
    assert(whole.subrange(before.len() as int, (before.len() + part.len()) as int) =~= part);
    assert(occurs_at(whole, part, before.len() as int));
}

/// What occurs in a text has something, or nothing, before and after it there.
pub proof fn what_occurs_is_a_part(s: Seq<char>, part: Seq<char>)
    requires
        occurs(s, part),
    ensures
        exists|before: Seq<char>, after: Seq<char>| s == #[trigger] (before + part + after),
{
    let at = choose|at: int| occurs_at(s, part, at);
    let before = s.take(at);
    let after = s.skip(at + part.len());
    assert(s =~= before + part + after) by {
        assert(s.subrange(at, at + part.len()) == part);
        assert forall|i: int| 0 <= i < s.len() implies s[i] == #[trigger] (before + part + after)[i] by {
            if at <= i < at + part.len() {
                assert(s.subrange(at, at + part.len())[i - at] == s[i]);
            }
        }
    }
}

/// A text has those prefixes that it begins with.
pub proof fn prefixes_come_first(s: Seq<char>, prefix: Seq<char>, rest: Seq<char>)
    ensures
        has_prefix(prefix + rest, prefix),
        has_prefix(s, prefix) ==> s == prefix + s.skip(prefix.len() as int),
{
    assert((prefix + rest).take(prefix.len() as int) =~= prefix);
    if has_prefix(s, prefix) {
        assert(s =~= s.take(prefix.len() as int) + s.skip(prefix.len() as int));
    }
}

/// A change of case keeps each letter's place in the alphabet, and every other character.
pub proof fn letters_change_their_case(s: Seq<char>, i: int)
    requires
        0 <= i < s.len(),
    ensures
        upper_text(s).len() == s.len(),
        lower_text(s).len() == s.len(),
        'a' <= s[i] <= 'z' ==> upper_text(s)[i] as u32 - 'A' as u32 == s[i] as u32 - 'a' as u32,
        !('a' <= s[i] <= 'z') ==> upper_text(s)[i] == s[i],
        'A' <= s[i] <= 'Z' ==> lower_text(s)[i] as u32 - 'a' as u32 == s[i] as u32 - 'A' as u32,
        !('A' <= s[i] <= 'Z') ==> lower_text(s)[i] == s[i],
{
}

proof fn zero_in_front(s: Seq<char>)
    ensures
        digits_value(seq!['0'] + s, 10) == digits_value(s, 10),
    decreases s.len(),
{
    let whole = seq!['0'] + s;
    if s.len() == 0 {
        assert(whole.drop_last() =~= Seq::<char>::empty());
        assert(digits_value(whole.drop_last(), 10) == Some(0int));
    } else {
        assert(whole.drop_last() =~= seq!['0'] + s.drop_last());
        assert(whole.last() == s.last());
        zero_in_front(s.drop_last());
    }
}

proof fn values_have_digits(s: Seq<char>)
    requires
        digits_value(s, 10) is Some,
    ensures
        forall|i: int| 0 <= i < s.len() ==> '0' <= #[trigger] s[i] <= '9',
    decreases s.len(),
{
    if s.len() > 0 {
        values_have_digits(s.drop_last());
        assert forall|i: int| 0 <= i < s.len() implies '0' <= #[trigger] s[i] <= '9' by {
            if i < s.len() - 1 {
                assert(s.drop_last()[i] == s[i]);
            }
        }
    }
}

/// A number is read from its digits, with or without a plus sign and zeros before them.
/// It must not be larger than allowed, and nothing else is a number.
pub proof fn numbers_are_read_from_their_digits(n: nat, s: Seq<char>, max: int)
    ensures
        number(decimal(n), 10, max) == if n <= max {
            Some(n as int)
        } else {
            None
        },
        number(seq!['+'] + decimal(n), 10, max) == number(decimal(n), 10, max),
        s.len() > 0 && s[0] != '+' ==> number(seq!['0'] + s, 10, max) == number(s, 10, max),
        number(s, 10, max) is Some ==> s.len() > 0 && (s[0] == '+' ==> s.len() > 1) && (forall|
            i: int,
        |
            0 <= i < s.len() ==> '0' <= #[trigger] s[i] <= '9' || (i == 0 && s[0] == '+')),
{
    decimal_reads_back(n);
    assert(decimal(n)[0] != '+');
    let signed = seq!['+'] + decimal(n);
    assert(signed[0] == '+');
    assert(signed.drop_first() =~= decimal(n));
    if s.len() > 0 && s[0] != '+' {
        zero_in_front(s);
        assert((seq!['0'] + s)[0] == '0');
    }
    if number(s, 10, max) is Some {
        if s[0] == '+' {
            values_have_digits(s.drop_first());
            assert forall|i: int| 0 < i < s.len() implies '0' <= #[trigger] s[i] <= '9' by {
                assert(s.drop_first()[i - 1] == s[i]);
            }
        } else {
            values_have_digits(s);
        }
    }
}

/// A negative number is written as its opposite after a minus sign, and other numbers
/// without a sign.
pub proof fn negative_numbers_have_a_sign(n: nat)
    ensures
        signed_decimal(n as int) == decimal(n),
        n > 0 ==> signed_decimal(-(n as int)) == "-"@ + decimal(n),
{
    reveal_strlit("-");
    assert("-"@ =~= seq!['-']);
}

} // verus!
