//! Tokens: making them, writing them down and checking them.
use vstd::prelude::*;
use vstd::utf8::encode_utf8_decode_utf8;
use rand::TryRngCore;
use subtle::ConstantTimeEq;
use crate::text::{chars_of, digit_value, skip, starts_with, string_of};

verus! {

/// `getrandom::fill` fills a buffer with random bytes or fails; which bytes they
/// are is up to the system. An empty buffer never fails. No buffer is longer than
/// what a `Vec` can hold.
#[verifier::external_body]
fn random_bytes(length: usize) -> (r: Option<Vec<u8>>)
    requires
        length <= isize::MAX,
    ensures
        length == 0 ==> r is Some,
        r matches Some(bytes) ==> bytes@.len() == length,
{
    let mut bytes = vec![0_u8; length];
    getrandom::fill(&mut bytes).ok().map(|()| bytes)
}

/// `OsRng::try_fill_bytes` fills a buffer with random bytes or fails; which bytes
/// they are is up to the operating system, and so are the words of the failure.
#[verifier::external_body]
fn random_key() -> (r: Result<[u8; 32], String>)
{
    let mut key = [0_u8; 32];
    match rand::rngs::OsRng.try_fill_bytes(&mut key) {
        Ok(()) => Ok(key),
        Err(error) => Err(error.to_string()),
    }
}

/// `ConstantTimeEq::ct_eq` of slices is true exactly for slices of the same length
/// with the same bytes.
#[verifier::external_body]
fn same_bytes(a: &[u8], b: &[u8]) -> (r: bool)
    ensures
        r == (a@ == b@),
{
    a.ct_eq(b).into()
}

/// A hexadecimal digit in lower case.
pub open spec fn hex_digit(d: int) -> char {
    if d < 10 {
        (48 + d) as char
    } else {
        (87 + d) as char
    }
}

/// Bytes in hexadecimal, two digits each.
pub open spec fn hex(bytes: Seq<u8>) -> Seq<char>
    decreases bytes.len(),
{
    if bytes.len() == 0 {
        Seq::empty()
    } else {
        hex(bytes.drop_last()).push(hex_digit(bytes.last() as int / 16)).push(
            hex_digit(bytes.last() as int % 16),
        )
    }
}

fn hex_char(d: u8) -> (r: char)
    requires
        d < 16,
    ensures
        r == hex_digit(d as int),
{
    if d < 10 {
        (48 + d) as char
    } else {
        (87 + d) as char
    }
}

/// Writes bytes in hexadecimal.
pub fn hex_text(bytes: &[u8]) -> (r: String)
    ensures
        r@ == hex(bytes@),
{
    let mut r = String::new();
    let mut i: usize = 0;
    assert(bytes@.take(0) =~= Seq::<u8>::empty());
    while i < bytes.len()
        invariant
            i <= bytes@.len(),
            r@ == hex(bytes@.take(i as int)),
        decreases bytes.len() - i,
    {
        assert(bytes@.take(i + 1).drop_last() =~= bytes@.take(i as int));
        r.push(hex_char(bytes[i] / 16));
        r.push(hex_char(bytes[i] % 16));
        i += 1;
    }
    assert(bytes@.take(i as int) =~= bytes@);
    r
}

/// Hexadecimal takes two digits for each byte, and different bytes are written
/// differently.
pub proof fn hex_is_faithful(a: Seq<u8>, b: Seq<u8>)
    ensures
        hex(a).len() == 2 * a.len(),
        hex(a) == hex(b) ==> a == b,
    decreases a.len(),
{
    if a.len() > 0 {
        hex_is_faithful(a.drop_last(), b.drop_last());
    }
    hex_length(b);
    if hex(a) == hex(b) {
        if a.len() > 0 {
            let n = hex(a).len() as int;
            assert(hex(a)[n - 1] == hex_digit(a.last() as int % 16));
            assert(hex(a)[n - 2] == hex_digit(a.last() as int / 16));
            assert(hex(b)[n - 1] == hex_digit(b.last() as int % 16));
            assert(hex(b)[n - 2] == hex_digit(b.last() as int / 16));
            assert(a.last() == b.last());
            assert(hex(a).drop_last().drop_last() =~= hex(a.drop_last()));
            assert(hex(b).drop_last().drop_last() =~= hex(b.drop_last()));
            assert(a =~= a.drop_last().push(a.last()));
            assert(b =~= b.drop_last().push(b.last()));
        } else {
            assert(a =~= b);
        }
    }
}

proof fn hex_length(a: Seq<u8>)
    ensures
        hex(a).len() == 2 * a.len(),
    decreases a.len(),
{
    if a.len() > 0 {
        hex_length(a.drop_last());
    }
}

/// Makes a random text of hexadecimal digits, two for each byte of the length.
/// There is none where the system's random generator fails.
pub fn random_hex(length: usize) -> (r: Option<String>)
    requires
        2 * length <= isize::MAX,
    ensures
        length == 0 ==> r is Some,
        r matches Some(text) ==> text@.len() == 2 * length && exists|bytes: Seq<u8>|
            bytes.len() == length && text@ == #[trigger] hex(bytes),
{
    match random_bytes(length) {
        Some(bytes) => {
            proof {
                hex_length(bytes@);
            }
            Some(hex_text(bytes.as_slice()))
        },
        None => None,
    }
}

/// A digit of the URL-safe base 64.
pub open spec fn base64_digit(d: int) -> char {
    if d < 26 {
        (65 + d) as char
    } else if d < 52 {
        (71 + d) as char
    } else if d < 62 {
        (d - 4) as char
    } else if d == 62 {
        '-'
    } else {
        '_'
    }
}

/// Bytes in the URL-safe base 64, without padding: four digits for every three
/// bytes, and two or three for one or two bytes that are left.
pub open spec fn base64(bytes: Seq<u8>) -> Seq<char>
    decreases bytes.len(),
{
    if bytes.len() == 0 {
        Seq::empty()
    } else if bytes.len() == 1 {
        let value = bytes[0] * 65536;
        seq![base64_digit(value / 262144), base64_digit(value / 4096 % 64)]
    } else if bytes.len() == 2 {
        let value = bytes[0] * 65536 + bytes[1] * 256;
        seq![
            base64_digit(value / 262144),
            base64_digit(value / 4096 % 64),
            base64_digit(value / 64 % 64),
        ]
    } else {
        let value = bytes[0] * 65536 + bytes[1] * 256 + bytes[2];
        seq![
            base64_digit(value / 262144),
            base64_digit(value / 4096 % 64),
            base64_digit(value / 64 % 64),
            base64_digit(value % 64),
        ] + base64(bytes.skip(3))
    }
}

fn base64_char(d: u32) -> (r: char)
    requires
        d < 64,
    ensures
        r == base64_digit(d as int),
{
    if d < 26 {
        (65 + d) as u8 as char
    } else if d < 52 {
        (71 + d) as u8 as char
    } else if d < 62 {
        (d - 4) as u8 as char
    } else if d == 62 {
        '-'
    } else {
        '_'
    }
}

/// Writes bytes in the URL-safe base 64, without padding.
pub fn base64url(bytes: &[u8]) -> (r: String)
    ensures
        r@ == base64(bytes@),
{
    let mut output = String::new();
    let mut i: usize = 0;
    let n: usize = bytes.len();
    assert(bytes@.skip(0) =~= bytes@);
    assert(output@ + base64(bytes@) =~= base64(bytes@));
    while n - i >= 3
        invariant
            i <= n,
            n == bytes@.len(),
            output@ + base64(bytes@.skip(i as int)) == base64(bytes@),
        decreases n - i,
    {
        let ghost rest = bytes@.skip(i as int);
        let ghost before = output@;
        let value: u32 = bytes[i] as u32 * 65536 + bytes[i + 1] as u32 * 256 + bytes[i + 2] as u32;
        output.push(base64_char(value / 262144));
        output.push(base64_char(value / 4096 % 64));
        output.push(base64_char(value / 64 % 64));
        output.push(base64_char(value % 64));
        proof {
            assert(rest.skip(3) =~= bytes@.skip(i + 3));
            assert(output@ + base64(rest.skip(3)) =~= before + base64(rest));
        }
        i += 3;
    }
    let ghost rest = bytes@.skip(i as int);
    let ghost before = output@;
    if n - i == 1 {
        let value: u32 = bytes[i] as u32 * 65536;
        output.push(base64_char(value / 262144));
        output.push(base64_char(value / 4096 % 64));
    } else if n - i == 2 {
        let value: u32 = bytes[i] as u32 * 65536 + bytes[i + 1] as u32 * 256;
        output.push(base64_char(value / 262144));
        output.push(base64_char(value / 4096 % 64));
        output.push(base64_char(value / 64 % 64));
    }
    assert(output@ =~= before + base64(rest));
    output
}

/// The characters of the URL-safe base 64; the sign for padding is none of them.
pub open spec fn is_base64_char(c: char) -> bool {
    ('A' <= c <= 'Z') || ('a' <= c <= 'z') || ('0' <= c <= '9') || c == '-' || c == '_'
}

/// Base 64 is safe in URLs and has no padding: it takes four digits for three
/// bytes, rounded up, and all of them are letters, digits, dashes or underscores.
pub proof fn base64_has_no_padding(bytes: Seq<u8>)
    ensures
        base64(bytes).len() == (4 * bytes.len() + 2) / 3,
        forall|i: int| 0 <= i < base64(bytes).len() ==> is_base64_char(#[trigger] base64(bytes)[i]),
    decreases bytes.len(),
{
    if bytes.len() >= 3 {
        let rest = bytes.skip(3);
        base64_has_no_padding(rest);
        let all = base64(bytes);
        assert forall|i: int| 0 <= i < all.len() implies is_base64_char(#[trigger] all[i]) by {
            if i >= 4 {
                assert(all[i] == base64(rest)[i - 4]);
            }
        }
    }
}

proof fn base64_digits_differ(a: int, b: int)
    requires
        0 <= a < 64,
        0 <= b < 64,
        base64_digit(a) == base64_digit(b),
    ensures
        a == b,
{
}

/// The number that three bytes make up.
spec fn group(x: int, y: int, z: int) -> int {
    x * 65536 + y * 256 + z
}

proof fn groups_differ(v: int, w: int)
    requires
        0 <= v < 0x1000000,
        0 <= w < 0x1000000,
        v / 262144 == w / 262144,
        v / 4096 % 64 == w / 4096 % 64,
    ensures
        v / 4096 == w / 4096,
        v / 64 % 64 == w / 64 % 64 ==> v / 64 == w / 64,
        v / 64 % 64 == w / 64 % 64 && v % 64 == w % 64 ==> v == w,
{
}

proof fn bytes_of_group(a: int, b: int, c: int, x: int, y: int, z: int)
    requires
        0 <= a < 256,
        0 <= b < 256,
        0 <= c < 256,
        0 <= x < 256,
        0 <= y < 256,
        0 <= z < 256,
    ensures
        0 <= group(a, b, c) < 0x1000000,
        group(a, b, c) == group(x, y, z) ==> a == x && b == y && c == z,
        c == 0 && z == 0 && group(a, b, c) / 64 == group(x, y, z) / 64 ==> a == x && b == y,
        b == 0 && y == 0 && c == 0 && z == 0 && group(a, b, c) / 4096 == group(x, y, z) / 4096 ==> a
            == x,
{
}

proof fn base64_begins(bytes: Seq<u8>, b: int, c: int)
    requires
        bytes.len() > 0,
        b == if bytes.len() > 1 {
            bytes[1] as int
        } else {
            0
        },
        c == if bytes.len() > 2 {
            bytes[2] as int
        } else {
            0
        },
    ensures
        ({
            let v = group(bytes[0] as int, b, c);
            let text = base64(bytes);
            &&& text.len() >= 2
            &&& text[0] == base64_digit(v / 262144)
            &&& text[1] == base64_digit(v / 4096 % 64)
            &&& bytes.len() > 1 ==> text.len() > 2 && text[2] == base64_digit(v / 64 % 64)
            &&& bytes.len() > 2 ==> text.len() > 3 && text[3] == base64_digit(v % 64) && text.skip(4)
                == base64(bytes.skip(3))
        }),
{
    if bytes.len() > 2 {
        assert(base64(bytes).skip(4) =~= base64(bytes.skip(3)));
    }
}

/// Different bytes are written differently in base 64.
pub proof fn base64_is_faithful(a: Seq<u8>, b: Seq<u8>)
    requires
        base64(a) == base64(b),
    ensures
        a == b,
    decreases a.len(),
{
    base64_has_no_padding(a);
    base64_has_no_padding(b);
    assert(a.len() == b.len());
    let n = a.len();
    if n > 0 {
        let a1 = if n > 1 {
            a[1] as int
        } else {
            0
        };
        let a2 = if n > 2 {
            a[2] as int
        } else {
            0
        };
        let b1 = if n > 1 {
            b[1] as int
        } else {
            0
        };
        let b2 = if n > 2 {
            b[2] as int
        } else {
            0
        };
        base64_begins(a, a1, a2);
        base64_begins(b, b1, b2);
        bytes_of_group(a[0] as int, a1, a2, b[0] as int, b1, b2);
        bytes_of_group(b[0] as int, b1, b2, a[0] as int, a1, a2);
        let v = group(a[0] as int, a1, a2);
        let w = group(b[0] as int, b1, b2);
        base64_digits_differ(v / 262144, w / 262144);
        base64_digits_differ(v / 4096 % 64, w / 4096 % 64);
        if n > 1 {
            base64_digits_differ(v / 64 % 64, w / 64 % 64);
        }
        if n > 2 {
            base64_digits_differ(v % 64, w % 64);
            base64_is_faithful(a.skip(3), b.skip(3));
        }
        groups_differ(v, w);
        assert forall|i: int| 0 <= i < n implies a[i] == b[i] by {
            if i >= 3 {
                assert(a.skip(3)[i - 3] == b.skip(3)[i - 3]);
            }
        }
    }
    assert(a =~= b);
}

/// The token for a key that was drawn, in base 64, or the words of the failure to
/// draw one.
pub fn token_for(key: Result<[u8; 32], String>) -> (r: Result<String, String>)
    ensures
        match key {
            Ok(bytes) => r matches Ok(token) && token@ == base64(bytes@) && token@.len() == 43,
            Err(words) => r matches Err(message) && message@ == words@,
        },
{
    match key {
        Ok(bytes) => {
            proof {
                base64_has_no_padding(bytes@);
            }
            Ok(base64url(&bytes))
        },
        Err(words) => Err(words),
    }
}

/// Makes a random token of 32 bytes in base 64, or returns the words of the
/// operating system's failure. Which bytes they are, and whether there are any, is
/// up to the operating system.
pub fn generate_token() -> (r: Result<String, String>)
    ensures
        r matches Ok(token) ==> token@.len() == 43 && exists|key: Seq<u8>|
            key.len() == 32 && token@ == #[trigger] base64(key),
{
    token_for(random_key())
}

/// A request with an authorization header, or without one, is allowed: it carries
/// the token, or none is required.
pub open spec fn is_authorized(
    required: bool,
    header: Option<Seq<char>>,
    token: Seq<char>,
) -> bool {
    !required || header == Some("Bearer "@ + token)
}

/// Tells whether a request with an authorization header, or without one, is
/// allowed.
pub fn authorized(required: bool, header: Option<&str>, token: &str) -> (r: bool)
    ensures
        r == is_authorized(
            required,
            match header {
                Some(text) => Some(text@),
                None => None,
            },
            token@,
        ),
{
    if !required {
        return true;
    }
    match header {
        Some(text) => {
            let chars = chars_of(text);
            let prefix: [char; 7] = ['B', 'e', 'a', 'r', 'e', 'r', ' '];
            proof {
                reveal_strlit("Bearer ");
                assert(prefix@ =~= "Bearer "@);
            }
            if !starts_with(chars.as_slice(), &prefix) {
                assert(text@ != "Bearer "@ + token@) by {
                    if text@ == "Bearer "@ + token@ {
                        assert(text@.take(7) =~= "Bearer "@);
                    }
                }
                return false;
            }
            let rest = skip(chars.as_slice(), 7);
            let given = string_of(rest.as_slice());
            proof {
                encode_utf8_decode_utf8(given@);
                encode_utf8_decode_utf8(token@);
                assert(text@ =~= "Bearer "@ + given@);
                assert(("Bearer "@ + token@).skip(7) =~= token@);
                assert(("Bearer "@ + given@).skip(7) =~= given@);
            }
            same_bytes(given.as_str().as_bytes(), token.as_bytes())
        },
        None => false,
    }
}

proof fn hex_of_place(bytes: Seq<u8>, i: int)
    requires
        0 <= i < bytes.len(),
    ensures
        hex(bytes).len() == 2 * bytes.len(),
        hex(bytes)[2 * i] == hex_digit(bytes[i] as int / 16),
        hex(bytes)[2 * i + 1] == hex_digit(bytes[i] as int % 16),
    decreases bytes.len(),
{
    hex_length(bytes);
    let rest = bytes.drop_last();
    hex_length(rest);
    if i < rest.len() {
        hex_of_place(rest, i);
    }
}

/// Each byte is written as two hexadecimal digits, the higher one first, in lower case.
pub proof fn bytes_are_written_as_two_digits(bytes: Seq<u8>, i: int)
    requires
        0 <= i < bytes.len(),
    ensures
        ({
            let high = hex(bytes)[2 * i];
            let low = hex(bytes)[2 * i + 1];
            &&& hex(bytes).len() == 2 * bytes.len()
            &&& !('A' <= high <= 'F') && !('A' <= low <= 'F')
            &&& digit_value(high, 16) matches Some(h) && digit_value(low, 16) matches Some(l)
                && bytes[i] == 16 * h + l
        }),
{
    hex_of_place(bytes, i);
}

/// The number that a character of the URL-safe alphabet stands for.
pub open spec fn sextet(c: char) -> int {
    if 'A' <= c <= 'Z' {
        c as u32 - 'A' as u32
    } else if 'a' <= c <= 'z' {
        26 + (c as u32 - 'a' as u32)
    } else if '0' <= c <= '9' {
        52 + (c as u32 - '0' as u32)
    } else if c == '-' {
        62
    } else {
        63
    }
}

proof fn sextet_of_digit(d: int)
    requires
        0 <= d < 64,
    ensures
        sextet(base64_digit(d)) == d,
{
}

proof fn six_bits(value: int)
    requires
        0 <= value < 16777216,
    ensures
        0 <= value / 262144 < 64,
        0 <= value / 4096 % 64 < 64,
        0 <= value / 64 % 64 < 64,
        0 <= value % 64 < 64,
        262144 * (value / 262144) + 4096 * (value / 4096 % 64) + 64 * (value / 64 % 64) + value % 64
            == value,
{
    let a = value / 64;
    let b = value / 4096;
    let c = value / 262144;
    assert(b == a / 64);
    assert(c == b / 64);
    assert(value == 64 * a + value % 64);
    assert(a == 64 * b + a % 64);
    assert(b == 64 * c + b % 64);
}

proof fn first_sextets(bytes: Seq<u8>)
    requires
        bytes.len() > 0,
    ensures
        ({
            let text = base64(bytes);
            &&& bytes.len() == 1 ==> text.len() == 2 && 64 * sextet(text[0]) + sextet(text[1])
                == 16 * bytes[0]
            &&& bytes.len() == 2 ==> text.len() == 3 && 4096 * sextet(text[0]) + 64 * sextet(
                text[1],
            ) + sextet(text[2]) == 4 * (256 * bytes[0] + bytes[1])
            &&& bytes.len() >= 3 ==> text.len() >= 4 && 262144 * sextet(text[0]) + 4096 * sextet(
                text[1],
            ) + 64 * sextet(text[2]) + sextet(text[3]) == 65536 * bytes[0] + 256 * bytes[1]
                + bytes[2]
        }),
{
    let value = if bytes.len() == 1 {
        bytes[0] * 65536
    } else if bytes.len() == 2 {
        bytes[0] * 65536 + bytes[1] * 256
    } else {
        bytes[0] * 65536 + bytes[1] * 256 + bytes[2]
    };
    six_bits(value);
    sextet_of_digit(value / 262144);
    sextet_of_digit(value / 4096 % 64);
    sextet_of_digit(value / 64 % 64);
    sextet_of_digit(value % 64);
}

/// Three bytes are written as four characters, six bits each, the highest first. One or two
/// bytes at the end are followed by as many zeros as fill the last character.
pub proof fn bytes_are_written_six_bits_at_a_time(bytes: Seq<u8>, k: int)
    requires
        0 <= k,
        3 * k < bytes.len(),
    ensures
        ({
            let text = base64(bytes);
            let left = bytes.len() - 3 * k;
            let first = bytes[3 * k];
            &&& left == 1 ==> text.len() == 4 * k + 2 && 64 * sextet(text[4 * k]) + sextet(
                text[4 * k + 1],
            ) == 16 * first
            &&& left == 2 ==> text.len() == 4 * k + 3 && 4096 * sextet(text[4 * k]) + 64 * sextet(
                text[4 * k + 1],
            ) + sextet(text[4 * k + 2]) == 4 * (256 * first + bytes[3 * k + 1])
            &&& left >= 3 ==> text.len() >= 4 * k + 4 && 262144 * sextet(text[4 * k]) + 4096
                * sextet(text[4 * k + 1]) + 64 * sextet(text[4 * k + 2]) + sextet(text[4 * k + 3])
                == 65536 * first + 256 * bytes[3 * k + 1] + bytes[3 * k + 2]
        }),
    decreases k,
{
    if k > 0 {
        let rest = bytes.skip(3);
        bytes_are_written_six_bits_at_a_time(rest, k - 1);
        let tail = base64(rest);
        assert(base64(bytes).len() == 4 + tail.len());
        assert forall|i: int| 4 <= i < base64(bytes).len() implies #[trigger] base64(bytes)[i]
            == tail[i - 4] by {}
        assert(rest[3 * (k - 1)] == bytes[3 * k]);
        if bytes.len() - 3 * k >= 2 {
            assert(rest[3 * (k - 1) + 1] == bytes[3 * k + 1]);
        }
        if bytes.len() - 3 * k >= 3 {
            assert(rest[3 * (k - 1) + 2] == bytes[3 * k + 2]);
        }
    } else {
        first_sextets(bytes);
    }
}

/// Where a token is required, a request is let in if and only if it bears that token, and
/// no request bears two. Where none is required, every request is.
pub proof fn requests_bear_their_token(
    header: Option<Seq<char>>,
    token: Seq<char>,
    other: Seq<char>,
)
    ensures
        is_authorized(false, header, token),
        !is_authorized(true, None, token),
        is_authorized(true, Some("Bearer "@ + token), token),
        is_authorized(true, header, token) && is_authorized(true, header, other) ==> token == other,
        token != other ==> !is_authorized(true, Some("Bearer "@ + other), token),
{
    let bearer = "Bearer "@;
    let n = bearer.len() as int;
    assert((bearer + token).skip(n) =~= token);
    assert((bearer + other).skip(n) =~= other);
}

} // verus!
