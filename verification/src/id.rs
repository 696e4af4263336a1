//! Stable identifiers of lights.
use vstd::prelude::*;
use vstd::string::StringExecFns;
use crate::text::{
    ascii_upper, chars_of, digit_value, digits_value, has_prefix, joined, lower_text, number, owned,
    parse_number, parts_make_up_the_text, prefixes_come_first, push_lower, push_upper, skip, split, split_is_nonempty, split_on, starts_with,
    string_of, texts, upper_text,
};

verus! {

/// An invalid platform light identifier.
#[derive(Clone, PartialEq, Eq, Debug)]
pub struct IdError {
    pub kind: &'static str,
    pub value: String,
}

/// The words for a value that is no identifier of some kind.
pub open spec fn fault_words(kind: Seq<char>, value: Seq<char>) -> Seq<char> {
    "invalid "@ + kind + " light identifier: "@ + value
}

impl IdError {
    /// The error for a value that is no identifier of some kind.
    pub open spec fn is(self, kind: Seq<char>, value: Seq<char>) -> bool {
        self.kind@ == kind && self.value@ == value
    }

    /// Describes the error in words.
    pub fn message(&self) -> (text: String)
        ensures
            text@ == fault_words(self.kind@, self.value@),
    {
        let mut text = owned("invalid ");
        text.append(self.kind);
        text.append(" light identifier: ");
        text.append(self.value.as_str());
        text
    }
}

/// A stable light identifier including its platform namespace.
#[derive(Debug, Eq, Hash, PartialOrd, Ord)]
pub struct LightId(pub(crate) String);

impl View for LightId {
    type V = Seq<char>;

    open(crate) spec fn view(&self) -> Seq<char> {
        self.0@
    }
}

impl Clone for LightId {
    fn clone(&self) -> (r: Self)
        ensures
            r == *self,
    {
        LightId(self.0.clone())
    }
}

impl PartialEq for LightId {
    fn eq(&self, other: &Self) -> (r: bool) {
        self.0 == other.0
    }
}

impl vstd::std_specs::cmp::PartialEqSpecImpl for LightId {
    open spec fn obeys_eq_spec() -> bool {
        true
    }

    open spec fn eq_spec(&self, other: &Self) -> bool {
        self@ == other@
    }
}

/// A hexadecimal digit.
pub open spec fn is_hex_digit(c: char) -> bool {
    ('0' <= c <= '9') || ('a' <= c <= 'f') || ('A' <= c <= 'F')
}

fn hex_digit(c: char) -> (r: bool)
    ensures
        r == is_hex_digit(c),
{
    ('0' <= c && c <= '9') || ('a' <= c && c <= 'f') || ('A' <= c && c <= 'F')
}

/// An octet as it is written: two hexadecimal digits.
pub open spec fn is_octet(part: Seq<char>) -> bool {
    part.len() == 2 && is_hex_digit(part[0]) && is_hex_digit(part[1])
}

/// A Bluetooth address: six octets between colons.
pub open spec fn is_mac(s: Seq<char>) -> bool {
    &&& split(s, ':').len() == 6
    &&& forall|i: int| 0 <= i < 6 ==> is_octet(#[trigger] split(s, ':')[i])
}

/// The place of a dash in a UUID.
pub open spec fn is_dash_place(i: int) -> bool {
    i == 8 || i == 13 || i == 18 || i == 23
}

/// A UUID in its dashed form.
pub open spec fn is_uuid(s: Seq<char>) -> bool {
    &&& s.len() == 36
    &&& forall|i: int|
        0 <= i < 36 ==> if is_dash_place(i) {
            #[trigger] s[i] == '-'
        } else {
            is_hex_digit(s[i])
        }
}

/// The octet that hexadecimal digits stand for, without a sign.
pub open spec fn octet(part: Seq<char>) -> Option<int> {
    if part.len() > 0 && part[0] == '+' {
        None
    } else {
        number(part, 16, 255)
    }
}

/// The octets of a Bluetooth address identifier: exactly six of them between
/// colons behind the namespace.
pub open spec fn octets_of(id: Seq<char>) -> Option<Seq<u8>> {
    let prefix = seq!['m', 'a', 'c', ':'];
    let parts = split(id.skip(4), ':');
    if has_prefix(id, prefix) && parts.len() == 6 && forall|i: int|
        0 <= i < 6 ==> octet(#[trigger] parts[i]) is Some {
        Some(Seq::new(6, |i: int| octet(parts[i])->0 as u8))
    } else {
        None
    }
}

/// The identifier that a namespaced text stands for, if it does.
pub open spec fn namespaced(s: Seq<char>) -> Option<Seq<char>> {
    if has_prefix(s, seq!['m', 'a', 'c', ':']) {
        if is_mac(s.skip(4)) {
            Some("mac:"@ + upper_text(s.skip(4)))
        } else {
            None
        }
    } else if has_prefix(s, seq!['c', 'b', ':']) {
        if is_uuid(s.skip(3)) {
            Some("cb:"@ + lower_text(s.skip(3)))
        } else {
            None
        }
    } else if has_prefix(s, seq!['s', 'i', 'm', ':']) {
        Some(s)
    } else {
        None
    }
}

/// The words for a text that is no identifier.
pub open spec fn id_fault(s: Seq<char>) -> Seq<char> {
    if has_prefix(s, seq!['m', 'a', 'c', ':']) {
        fault_words("MAC"@, s.skip(4))
    } else if has_prefix(s, seq!['c', 'b', ':']) {
        fault_words("CoreBluetooth UUID"@, s.skip(3))
    } else {
        fault_words("namespaced"@, s)
    }
}

impl LightId {
    /// Parses a complete identifier and normalizes it as its namespace does.
    pub fn parse(value: &str) -> (r: Result<Self, IdError>)
        ensures
            match r {
                Ok(id) => namespaced(value@) == Some(id@),
                Err(e) => namespaced(value@) is None && fault_words(e.kind@, e.value@) == id_fault(
                    value@,
                ),
            },
    {
        let chars = chars_of(value);
        let mac: [char; 4] = ['m', 'a', 'c', ':'];
        let cb: [char; 3] = ['c', 'b', ':'];
        let sim: [char; 4] = ['s', 'i', 'm', ':'];
        assert(mac@ =~= seq!['m', 'a', 'c', ':']);
        assert(cb@ =~= seq!['c', 'b', ':']);
        assert(sim@ =~= seq!['s', 'i', 'm', ':']);
        if starts_with(chars.as_slice(), &mac) {
            let rest = skip(chars.as_slice(), 4);
            let rest = string_of(rest.as_slice());
            LightId::mac(rest.as_str())
        } else if starts_with(chars.as_slice(), &cb) {
            let rest = skip(chars.as_slice(), 3);
            let rest = string_of(rest.as_slice());
            LightId::corebluetooth(rest.as_str())
        } else if starts_with(chars.as_slice(), &sim) {
            let rest = skip(chars.as_slice(), 4);
            let rest = string_of(rest.as_slice());
            proof {
                reveal_strlit("sim:");
                assert("sim:"@ =~= sim@);
                assert(value@ =~= value@.take(4) + value@.skip(4));
            }
            Ok(LightId::sim(rest.as_str()))
        } else {
            Err(IdError { kind: "namespaced", value: owned(value) })
        }
    }

    /// Tells whether two identifiers are the same.
    pub fn same(&self, other: &LightId) -> (r: bool)
        ensures
            r == (self@ == other@),
    {
        self.0 == other.0
    }

    /// Takes an identifier as it is written.
    pub fn verbatim(text: String) -> (r: Self)
        ensures
            r@ == text@,
    {
        LightId(text)
    }

    /// Parses and normalizes a six-octet Bluetooth MAC address.
    pub fn mac(value: &str) -> (r: Result<Self, IdError>)
        ensures
            match r {
                Ok(id) => is_mac(value@) && id@ == "mac:"@ + upper_text(value@),
                Err(e) => !is_mac(value@) && e.is("MAC"@, value@),
            },
    {
        let chars = chars_of(value);
        let parts = split_on(chars.as_slice(), ':');
        let mut valid = parts.len() == 6;
        let mut i: usize = 0;
        while i < parts.len()
            invariant
                i <= parts@.len(),
                texts(parts@) == split(value@, ':'),
                valid == (parts@.len() == 6 && forall|j: int|
                    0 <= j < i ==> is_octet(#[trigger] split(value@, ':')[j])),
            decreases parts.len() - i,
        {
            assert(split(value@, ':')[i as int] == parts@[i as int]@);
            let part = &parts[i];
            valid = valid && part.len() == 2 && hex_digit(part[0]) && hex_digit(part[1]);
            i += 1;
        }
        if !valid {
            return Err(IdError { kind: "MAC", value: owned(value) });
        }
        let mut text = owned("mac:");
        push_upper(&mut text, chars.as_slice());
        Ok(LightId(text))
    }

    /// Parses and normalizes a CoreBluetooth UUID.
    pub fn corebluetooth(value: &str) -> (r: Result<Self, IdError>)
        ensures
            match r {
                Ok(id) => is_uuid(value@) && id@ == "cb:"@ + lower_text(value@),
                Err(e) => !is_uuid(value@) && e.is("CoreBluetooth UUID"@, value@),
            },
    {
        let chars = chars_of(value);
        let mut valid = chars.len() == 36;
        let mut i: usize = 0;
        while i < chars.len()
            invariant
                i <= chars@.len(),
                chars@ == value@,
                valid == (chars@.len() == 36 && forall|j: int|
                    0 <= j < i ==> if is_dash_place(j) {
                        #[trigger] value@[j] == '-'
                    } else {
                        is_hex_digit(value@[j])
                    }),
            decreases chars.len() - i,
        {
            let c = chars[i];
            let fits = if i == 8 || i == 13 || i == 18 || i == 23 {
                c == '-'
            } else {
                hex_digit(c)
            };
            assert(value@[i as int] == c);
            valid = valid && fits;
            i += 1;
        }
        if !valid {
            return Err(IdError { kind: "CoreBluetooth UUID", value: owned(value) });
        }
        let mut text = owned("cb:");
        push_lower(&mut text, chars.as_slice());
        Ok(LightId(text))
    }

    /// Creates an identifier in the simulator namespace.
    pub fn sim(name: &str) -> (r: Self)
        ensures
            r@ == "sim:"@ + name@,
    {
        let mut text = owned("sim:");
        text.append(name);
        LightId(text)
    }

    /// Returns the complete namespaced identifier.
    pub fn as_str(&self) -> (r: &str)
        ensures
            r@ == self@,
    {
        self.0.as_str()
    }

    /// Returns MAC address bytes when this is a MAC identifier.
    pub fn mac_octets(&self) -> (r: Option<[u8; 6]>)
        ensures
            match r {
                Some(octets) => octets_of(self@) == Some(octets@),
                None => octets_of(self@) is None,
            },
    {
        let chars = chars_of(self.0.as_str());
        let prefix: [char; 4] = ['m', 'a', 'c', ':'];
        assert(prefix@ =~= seq!['m', 'a', 'c', ':']);
        if !starts_with(chars.as_slice(), &prefix) {
            return None;
        }
        let rest = skip(chars.as_slice(), 4);
        let parts = split_on(rest.as_slice(), ':');
        if parts.len() != 6 {
            return None;
        }
        let mut octets: [u8; 6] = [0, 0, 0, 0, 0, 0];
        let ghost wanted = split(self@.skip(4), ':');
        let mut i: usize = 0;
        while i < 6
            invariant
                i <= 6,
                parts@.len() == 6,
                texts(parts@) == wanted,
                wanted == split(self@.skip(4), ':'),
                has_prefix(self@, seq!['m', 'a', 'c', ':']),
                forall|j: int|
                    0 <= j < i ==> octet(#[trigger] wanted[j]) == Some(octets@[j] as int),
            decreases 6 - i,
        {
            assert(wanted[i as int] == parts@[i as int]@);
            if parts[i].len() > 0 && parts[i][0] == '+' {
                return None;
            }
            match parse_number(parts[i].as_slice(), 16, 255) {
                Some(octet) => {
                    octets[i] = octet as u8;
                },
                None => {
                    return None;
                },
            }
            i += 1;
        }
        assert(octets@ =~= Seq::new(6, |i: int| octet(wanted[i])->0 as u8));
        Some(octets)
    }
}

proof fn upper_keeps_parts(s: Seq<char>)
    ensures
        split(upper_text(s), ':').len() == split(s, ':').len(),
        forall|i: int|
            0 <= i < split(s, ':').len() ==> (#[trigger] split(upper_text(s), ':')[i])
                == upper_text(split(s, ':')[i]),
    decreases s.len(),
{
    if s.len() > 0 {
        let rest = s.drop_last();
        upper_keeps_parts(rest);
        split_is_nonempty(rest, ':');
        assert(upper_text(s).drop_last() =~= upper_text(rest));
        let a = split(s, ':');
        let b = split(upper_text(s), ':');
        let n = split(rest, ':').len() as int;
        assert forall|i: int| 0 <= i < a.len() implies (#[trigger] b[i]) == upper_text(a[i]) by {
            if s.last() == ':' {
                if i < n {
                    assert(b[i] == split(upper_text(rest), ':')[i]);
                    assert(a[i] == split(rest, ':')[i]);
                } else {
                    assert(b[i] =~= upper_text(a[i]));
                }
            } else if i < n - 1 {
                assert(b[i] == split(upper_text(rest), ':')[i]);
                assert(a[i] == split(rest, ':')[i]);
            } else {
                assert(b[i] == split(upper_text(rest), ':')[n - 1].push(ascii_upper(s.last())));
                assert(b[i] =~= upper_text(a[i]));
            }
        }
    } else {
        assert(upper_text(s) =~= s);
        assert(upper_text(split(s, ':')[0]) =~= split(s, ':')[0]);
    }
}

proof fn mac_prefix(s: Seq<char>)
    ensures
        has_prefix("mac:"@ + s, seq!['m', 'a', 'c', ':']),
        ("mac:"@ + s).skip(4) == s,
{
    reveal_strlit("mac:");
    assert("mac:"@ =~= seq!['m', 'a', 'c', ':']);
    assert(("mac:"@ + s).take(4) =~= seq!['m', 'a', 'c', ':']);
    assert(("mac:"@ + s).skip(4) =~= s);
}

/// A Bluetooth address is normalized once: its identifier is read as itself.
pub proof fn mac_identifiers_read_back(s: Seq<char>)
    requires
        is_mac(s),
    ensures
        namespaced("mac:"@ + upper_text(s)) == Some("mac:"@ + upper_text(s)),
{
    let id = "mac:"@ + upper_text(s);
    mac_prefix(upper_text(s));
    upper_keeps_parts(s);
    assert(upper_text(upper_text(s)) =~= upper_text(s));
    assert forall|i: int| 0 <= i < 6 implies is_octet(
        #[trigger] split(upper_text(s), ':')[i],
    ) by {
        assert(is_octet(split(s, ':')[i]));
    }
}

/// The number that two hexadecimal digits stand for.
pub open spec fn octet_value(part: Seq<char>) -> int {
    digit_value(part[0], 16)->0 * 16 + digit_value(part[1], 16)->0
}

proof fn octets_are_numbers(part: Seq<char>)
    requires
        is_octet(part),
    ensures
        octet(part) == Some(octet_value(part)),
        0 <= octet_value(part) <= 255,
{
    let first = part.drop_last();
    assert(first.drop_last() =~= Seq::<char>::empty());
    assert(digits_value(first.drop_last(), 16) == Some(0int));
    assert(first.last() == part[0]);
    assert(digits_value(first, 16) == digit_value(part[0], 16));
}

/// The octets of a Bluetooth address can be read from its identifier: they are
/// the numbers of its parts.
pub proof fn mac_identifiers_have_octets(s: Seq<char>, i: int)
    requires
        is_mac(s),
        0 <= i < 6,
    ensures
        octets_of("mac:"@ + upper_text(s)) matches Some(octets) && octets.len() == 6 && octets[i]
            == octet_value(split(s, ':')[i]),
{
    mac_prefix(upper_text(s));
    upper_keeps_parts(s);
    let parts = split(upper_text(s), ':');
    assert forall|j: int| 0 <= j < 6 implies octet(#[trigger] parts[j]) == Some(
        octet_value(split(s, ':')[j]),
    ) && 0 <= octet_value(split(s, ':')[j]) <= 255 by {
        assert(is_octet(split(s, ':')[j]));
        octets_are_numbers(split(s, ':')[j]);
        octets_are_numbers(parts[j]);
    }
}

proof fn last_part(s: Seq<char>, separator: char)
    requires
        s.len() > 0,
    ensures
        ({
            let parts = split(s, separator);
            let before = split(s.drop_last(), separator);
            &&& parts.len() > 1 || parts[0].len() > 0
            &&& before.len() > 0
            &&& before == before.drop_last().push(before.last())
            &&& if s.last() == separator {
                parts.drop_last() == before && parts.last().len() == 0
            } else {
                parts.drop_last() == before.drop_last() && parts.last() == before.last().push(
                    s.last(),
                )
            }
        }),
{
    let parts = split(s, separator);
    let before = split(s.drop_last(), separator);
    split_is_nonempty(s.drop_last(), separator);
    assert(before =~= before.drop_last().push(before.last()));
    if s.last() == separator {
        assert(parts == before.push(Seq::empty()));
        assert(parts.drop_last() =~= before);
    } else {
        assert(parts == before.drop_last().push(before.last().push(s.last())));
        assert(parts.drop_last() =~= before.drop_last());
        if parts.len() == 1 {
            assert(parts[0] == parts.last());
        }
    }
}

proof fn parts_make_the_text(a: Seq<char>, b: Seq<char>, separator: char)
    requires
        split(a, separator) == split(b, separator),
    ensures
        a == b,
    decreases a.len(),
{
    if a.len() > 0 {
        last_part(a, separator);
    }
    if b.len() > 0 {
        last_part(b, separator);
    }
    if a.len() == 0 || b.len() == 0 {
        assert(a.len() == b.len());
        assert(a =~= b);
    } else {
        let x = split(a.drop_last(), separator);
        let y = split(b.drop_last(), separator);
        assert((a.last() == separator) == (b.last() == separator));
        if a.last() != separator {
            let end = split(a, separator).last();
            assert(end.last() == a.last() && end.last() == b.last());
            assert(end.drop_last() =~= x.last());
            assert(end.drop_last() =~= y.last());
        }
        assert(x == y);
        parts_make_the_text(a.drop_last(), b.drop_last(), separator);
        assert(a =~= a.drop_last().push(a.last()));
        assert(b =~= b.drop_last().push(b.last()));
    }
}

/// A Bluetooth address has one identifier, however it is written: two texts with the
/// same octets give the same one.
pub proof fn mac_identifiers_are_unique(a: Seq<char>, b: Seq<char>)
    requires
        is_mac(a),
        is_mac(b),
        forall|i: int|
            0 <= i < 6 ==> octet_value(#[trigger] split(a, ':')[i]) == octet_value(
                split(b, ':')[i],
            ),
    ensures
        "mac:"@ + upper_text(a) == "mac:"@ + upper_text(b),
{
    upper_keeps_parts(a);
    upper_keeps_parts(b);
    let x = split(upper_text(a), ':');
    let y = split(upper_text(b), ':');
    assert forall|i: int| 0 <= i < 6 implies #[trigger] x[i] == y[i] by {
        let p = split(a, ':')[i];
        let q = split(b, ':')[i];
        assert(is_octet(p) && is_octet(q));
        assert(octet_value(p) == octet_value(q));
        assert(x[i] == upper_text(p) && y[i] == upper_text(q));
        assert(x[i] =~= y[i]);
    }
    assert(x =~= y);
    parts_make_the_text(upper_text(a), upper_text(b), ':');
}

/// A UUID is normalized once: its identifier is read as itself.
pub proof fn uuid_identifiers_read_back(s: Seq<char>)
    requires
        is_uuid(s),
    ensures
        namespaced("cb:"@ + lower_text(s)) == Some("cb:"@ + lower_text(s)),
{
    let id = "cb:"@ + lower_text(s);
    reveal_strlit("cb:");
    assert("cb:"@ =~= seq!['c', 'b', ':']);
    assert(id.take(3) =~= seq!['c', 'b', ':']);
    assert(id.skip(3) =~= lower_text(s));
    assert(id[0] == 'c');
    assert(!has_prefix(id, seq!['m', 'a', 'c', ':'])) by {
        if has_prefix(id, seq!['m', 'a', 'c', ':']) {
            assert(id.take(4)[0] == 'm');
        }
    }
    assert(lower_text(lower_text(s)) =~= lower_text(s));
    let t = lower_text(s);
    assert forall|i: int| 0 <= i < 36 implies if is_dash_place(i) {
        #[trigger] t[i] == '-'
    } else {
        is_hex_digit(t[i])
    } by {
        assert(s[i] == s[i]);
    }
}

proof fn split_before_last(before: Seq<char>, part: Seq<char>, separator: char)
    requires
        forall|i: int| 0 <= i < part.len() ==> #[trigger] part[i] != separator,
    ensures
        split(before.push(separator) + part, separator) == split(before, separator).push(part),
    decreases part.len(),
{
    let whole = before.push(separator) + part;
    if part.len() == 0 {
        assert(whole =~= before.push(separator));
        assert(whole.drop_last() =~= before);
        assert(part =~= Seq::<char>::empty());
    } else {
        let head = part.drop_last();
        assert(whole.drop_last() =~= before.push(separator) + head);
        assert(whole.last() == part[part.len() - 1]);
        assert forall|i: int| 0 <= i < head.len() implies #[trigger] head[i] != separator by {
            assert(part[i] != separator);
        }
        split_before_last(before, head, separator);
        let parts = split(whole.drop_last(), separator);
        assert(parts.drop_last() =~= split(before, separator));
        assert(parts.last().push(whole.last()) =~= part);
    }
}

proof fn split_of_one(part: Seq<char>, separator: char)
    requires
        forall|i: int| 0 <= i < part.len() ==> #[trigger] part[i] != separator,
    ensures
        split(part, separator) == seq![part],
    decreases part.len(),
{
    if part.len() > 0 {
        let head = part.drop_last();
        assert forall|i: int| 0 <= i < head.len() implies #[trigger] head[i] != separator by {
            assert(part[i] != separator);
        }
        split_of_one(head, separator);
        assert(part[part.len() - 1] != separator);
        assert(split(part, separator) =~= seq![head.push(part.last())]);
        assert(head.push(part.last()) =~= part);
    } else {
        assert(part =~= Seq::<char>::empty());
    }
}

/// A text has the form of an address: pairs of hexadecimal digits with a colon between two
/// of them.
pub open spec fn has_address_form(s: Seq<char>) -> bool {
    forall|i: int|
        0 <= i < s.len() ==> if i % 3 == 2 {
            #[trigger] s[i] == ':'
        } else {
            digit_value(s[i], 16) is Some
        }
}

proof fn pairs_of_form(s: Seq<char>, n: int)
    requires
        1 <= n <= 6,
        s.len() == 3 * n - 1,
        has_address_form(s),
    ensures
        split(s, ':').len() == n,
        forall|i: int| 0 <= i < n ==> is_octet(#[trigger] split(s, ':')[i]),
    decreases n,
{
    if n == 1 {
        assert(s[0] != ':' && s[1] != ':');
        split_of_one(s, ':');
    } else {
        let before = s.take(3 * n - 4);
        let part = s.skip(3 * n - 3);
        assert(s[3 * n - 4] == ':') by {
            assert((3 * n - 4) % 3 == 2);
        }
        assert(s =~= before.push(':') + part);
        assert((3 * n - 3) % 3 == 0 && (3 * n - 2) % 3 == 1);
        assert(part[0] == s[3 * n - 3] && part[1] == s[3 * n - 2]);
        assert forall|i: int| 0 <= i < before.len() implies if i % 3 == 2 {
            #[trigger] before[i] == ':'
        } else {
            digit_value(before[i], 16) is Some
        } by {
            assert(before[i] == s[i]);
        }
        pairs_of_form(before, n - 1);
        split_before_last(before, part, ':');
    }
}

proof fn form_of_pairs(parts: Seq<Seq<char>>)
    requires
        parts.len() > 0,
        forall|i: int| 0 <= i < parts.len() ==> is_octet(#[trigger] parts[i]),
    ensures
        joined(parts, ':').len() == 3 * parts.len() - 1,
        has_address_form(joined(parts, ':')),
    decreases parts.len(),
{
    let s = joined(parts, ':');
    assert(is_octet(parts[parts.len() - 1]));
    if parts.len() > 1 {
        let rest = parts.drop_last();
        assert forall|i: int| 0 <= i < rest.len() implies is_octet(#[trigger] rest[i]) by {
            assert(is_octet(parts[i]));
        }
        form_of_pairs(rest);
        let before = joined(rest, ':');
        let n = before.len() as int;
        assert(n % 3 == 2);
        assert forall|i: int| 0 <= i < s.len() implies if i % 3 == 2 {
            #[trigger] s[i] == ':'
        } else {
            digit_value(s[i], 16) is Some
        } by {
            if i < n {
                assert(before[i] == s[i]);
            } else if i == n {
            } else {
                assert(s[i] == parts.last()[i - n - 1]);
            }
        }
    }
}

/// A Bluetooth address is six pairs of hexadecimal digits with a colon between two of
/// them.
pub proof fn addresses_are_six_pairs_of_digits(s: Seq<char>)
    ensures
        is_mac(s) <==> s.len() == 17 && has_address_form(s),
{
    if is_mac(s) {
        parts_make_up_the_text(s, ':');
        form_of_pairs(split(s, ':'));
    }
    if s.len() == 17 && has_address_form(s) {
        pairs_of_form(s, 6);
    }
}

/// An identifier is read in one of three ways: an address after its prefix, in upper case;
/// a UUID after its prefix, in lower case; and any text after the prefix of a simulated
/// light, as it is. Nothing else is one, only the case of letters changes, and what was read
/// is read as itself.
pub proof fn identifiers_are_read_after_their_prefix(s: Seq<char>, rest: Seq<char>)
    ensures
        namespaced("mac:"@ + rest) == if is_mac(rest) {
            Some("mac:"@ + upper_text(rest))
        } else {
            None
        },
        namespaced("cb:"@ + rest) == if is_uuid(rest) {
            Some("cb:"@ + lower_text(rest))
        } else {
            None
        },
        namespaced("sim:"@ + rest) == Some("sim:"@ + rest),
        namespaced(s) is Some ==> s == "mac:"@ + s.skip(4) || s == "cb:"@ + s.skip(3) || s
            == "sim:"@ + s.skip(4),
        namespaced(s) matches Some(id) ==> namespaced(id) == Some(id),
{
    reveal_strlit("mac:");
    reveal_strlit("cb:");
    reveal_strlit("sim:");
    let mac = seq!['m', 'a', 'c', ':'];
    let cb = seq!['c', 'b', ':'];
    let sim = seq!['s', 'i', 'm', ':'];
    assert("mac:"@ =~= mac);
    assert("cb:"@ =~= cb);
    assert("sim:"@ =~= sim);
    prefixes_come_first(s, mac, rest);
    prefixes_come_first(s, cb, rest);
    prefixes_come_first(s, sim, rest);
    assert((mac + rest).skip(4) =~= rest);
    assert((cb + rest).skip(3) =~= rest);
    let in_cb = cb + rest;
    assert(in_cb[0] == 'c');
    if has_prefix(in_cb, mac) {
        assert(in_cb.take(4)[0] == in_cb[0]);
    }
    let in_sim = sim + rest;
    assert(in_sim[0] == 's');
    if has_prefix(in_sim, mac) {
        assert(in_sim.take(4)[0] == in_sim[0]);
    }
    if has_prefix(in_sim, cb) {
        assert(in_sim.take(3)[0] == in_sim[0]);
    }
    if namespaced(s) is Some {
        if has_prefix(s, mac) {
            mac_identifiers_read_back(s.skip(4));
        } else if has_prefix(s, cb) {
            uuid_identifiers_read_back(s.skip(3));
        }
    }
}

/// A UUID is thirty-two hexadecimal digits in five groups, with a dash between two groups.
pub proof fn uuids_are_five_groups_of_digits(s: Seq<char>)
    requires
        is_uuid(s),
    ensures
        ({
            let groups = split(s, '-');
            &&& groups.len() == 5
            &&& groups[0].len() == 8
            &&& groups[1].len() == 4
            &&& groups[2].len() == 4
            &&& groups[3].len() == 4
            &&& groups[4].len() == 12
            &&& forall|i: int|
                0 <= i < 36 && i != 8 && i != 13 && i != 18 && i != 23 ==> digit_value(
                    #[trigger] s[i],
                    16,
                ) is Some
        }),
{
    let a = s.subrange(0, 8);
    let b = s.subrange(9, 13);
    let c = s.subrange(14, 18);
    let d = s.subrange(19, 23);
    let e = s.subrange(24, 36);
    assert forall|i: int| 0 <= i < 36 && !is_dash_place(i) implies #[trigger] s[i] != '-'
        && digit_value(s[i], 16) is Some by {
        assert(is_hex_digit(s[i]));
    }
    assert(s[8] == '-' && s[13] == '-' && s[18] == '-' && s[23] == '-');
    split_of_one(a, '-');
    let ab = s.subrange(0, 13);
    assert(ab =~= a.push('-') + b);
    split_before_last(a, b, '-');
    let abc = s.subrange(0, 18);
    assert(abc =~= ab.push('-') + c);
    split_before_last(ab, c, '-');
    let abcd = s.subrange(0, 23);
    assert(abcd =~= abc.push('-') + d);
    split_before_last(abc, d, '-');
    assert(s =~= abcd.push('-') + e);
    split_before_last(abcd, e, '-');
}

/// Five groups of hexadecimal digits make a UUID where their lengths are eight, four, four,
/// four and twelve.
pub proof fn groups_of_digits_make_uuids(
    a: Seq<char>,
    b: Seq<char>,
    c: Seq<char>,
    d: Seq<char>,
    e: Seq<char>,
)
    requires
        a.len() == 8 && b.len() == 4 && c.len() == 4 && d.len() == 4 && e.len() == 12,
        forall|i: int| 0 <= i < 32 ==> digit_value(#[trigger] (a + b + c + d + e)[i], 16) is Some,
    ensures
        is_uuid(a + seq!['-'] + b + seq!['-'] + c + seq!['-'] + d + seq!['-'] + e),
{
    let digits = a + b + c + d + e;
    let s = a + seq!['-'] + b + seq!['-'] + c + seq!['-'] + d + seq!['-'] + e;
    assert forall|i: int| 0 <= i < 36 implies if is_dash_place(i) {
        #[trigger] s[i] == '-'
    } else {
        is_hex_digit(s[i])
    } by {
        if i < 8 {
            assert(s[i] == digits[i]);
        } else if 8 < i < 13 {
            assert(s[i] == digits[i - 1]);
        } else if 13 < i < 18 {
            assert(s[i] == digits[i - 2]);
        } else if 18 < i < 23 {
            assert(s[i] == digits[i - 3]);
        } else if 23 < i {
            assert(s[i] == digits[i - 4]);
        }
    }
}

} // verus!
