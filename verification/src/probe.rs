//! The hardware probe: its arguments, its choice of a light and its statistics.
use vstd::prelude::*;
use vstd::string::StringExecFns;
use crate::caps::Capabilities;
use crate::mode::{Kelvin, Mode, Percent};
use crate::text::{
    chars_of, contains, debug_text, decimal, is_text, lower_case, lowercase, number,
    numbers_are_read_from_their_digits, occurs, owned, parse_number, parts_occur, push_decimal,
    push_signed_decimal, quoted, signed_decimal, what_occurs_is_a_part,
};
use crate::transport::Discovered;
use crate::wire::{clamp_to_device, device_mode};

verus! {

/// What the probe is asked to do.
#[derive(Debug)]
pub enum Command {
    Scan { seconds: u64 },
    Blink { fragment: String, seconds: u64 },
    Bench { fragment: String, writes: usize },
}

/// What the probe is asked to do, in plain values.
#[verifier::ext_equal]
pub enum CommandModel {
    Scan { seconds: int },
    Blink { fragment: Seq<char>, seconds: int },
    Bench { fragment: Seq<char>, writes: int },
}

impl View for Command {
    type V = CommandModel;

    open spec fn view(&self) -> CommandModel {
        match *self {
            Command::Scan { seconds } => CommandModel::Scan { seconds: seconds as int },
            Command::Blink { fragment, seconds } => CommandModel::Blink {
                fragment: fragment@,
                seconds: seconds as int,
            },
            Command::Bench { fragment, writes } => CommandModel::Bench {
                fragment: fragment@,
                writes: writes as int,
            },
        }
    }
}

/// The number that an option sets, or its default; or what is wrong with the
/// arguments for it.
pub open spec fn option_value(
    args: Seq<String>,
    name: Seq<char>,
    default: int,
    max: int,
) -> Result<int, Seq<char>> {
    if args.len() == 0 {
        Ok(default)
    } else if args.len() != 2 {
        Err("expected "@ + name + " N"@)
    } else if args[0]@ != name {
        Err("unknown option "@ + debug_text(args[0]@))
    } else {
        match number(args[1]@, 10, max) {
            Some(value) => Ok(value),
            None => Err("invalid value "@ + debug_text(args[1]@) + " for "@ + name),
        }
    }
}

/// Reads the number that an option sets.
pub fn parse_option(args: &[String], name: &str, default: u64, max: u64) -> (r: Result<u64, String>)
    requires
        default <= max,
    ensures
        match r {
            Ok(value) => value <= max && option_value(args@, name@, default as int, max as int)
                == Ok::<int, Seq<char>>(value as int),
            Err(message) => option_value(args@, name@, default as int, max as int) == Err::<
                int,
                Seq<char>,
            >(message@),
        },
{
    if args.len() == 0 {
        return Ok(default);
    }
    if args.len() != 2 {
        let mut text = owned("expected ");
        text.append(name);
        text.append(" N");
        return Err(text);
    }
    if !is_text(&args[0], name) {
        let mut text = owned("unknown option ");
        let actual = quoted(args[0].as_str());
        text.append(actual.as_str());
        return Err(text);
    }
    let digits = chars_of(args[1].as_str());
    match parse_number(digits.as_slice(), 10, max) {
        Some(value) => Ok(value),
        None => {
            let mut text = owned("invalid value ");
            let value = quoted(args[1].as_str());
            text.append(value.as_str());
            text.append(" for ");
            text.append(name);
            Err(text)
        },
    }
}

/// The fragment that a command needs, or what is wrong with the arguments for it.
pub open spec fn fragment_of(args: Seq<String>, command: Seq<char>) -> Result<
    Seq<char>,
    Seq<char>,
> {
    if args.len() == 0 {
        Err(command + " requires an id or name fragment"@)
    } else if args[0]@.len() > 0 && args[0]@[0] == '-' {
        Err(command + " requires an id or name fragment before its options"@)
    } else {
        Ok(args[0]@)
    }
}

fn parse_fragment_argument(args: &[String], command: &str) -> (r: Result<String, String>)
    ensures
        match r {
            Ok(fragment) => fragment_of(args@, command@) == Ok::<Seq<char>, Seq<char>>(fragment@)
                && args@.len() > 0,
            Err(message) => fragment_of(args@, command@) == Err::<Seq<char>, Seq<char>>(message@),
        },
{
    if args.len() == 0 {
        let mut text = owned(command);
        text.append(" requires an id or name fragment");
        return Err(text);
    }
    let chars = chars_of(args[0].as_str());
    if chars.len() > 0 && chars[0] == '-' {
        let mut text = owned(command);
        text.append(" requires an id or name fragment before its options");
        return Err(text);
    }
    Ok(args[0].clone())
}

/// What the probe is asked to do by its arguments, or what is wrong with them.
pub open spec fn command_of(args: Seq<String>) -> Result<CommandModel, Seq<char>> {
    if args.len() < 2 {
        Err(Seq::empty())
    } else if args[0]@ != "probe"@ {
        Err("unknown command "@ + debug_text(args[0]@))
    } else if args[1]@ == "scan"@ {
        match option_value(args.skip(2), "--seconds"@, 10, u64::MAX as int) {
            Ok(seconds) => Ok(CommandModel::Scan { seconds }),
            Err(message) => Err(message),
        }
    } else if args[1]@ == "blink"@ {
        match fragment_of(args.skip(2), "blink"@) {
            Ok(fragment) => match option_value(args.skip(3), "--seconds"@, 6, u64::MAX as int) {
                Ok(seconds) => Ok(CommandModel::Blink { fragment, seconds }),
                Err(message) => Err(message),
            },
            Err(message) => Err(message),
        }
    } else if args[1]@ == "bench"@ {
        match fragment_of(args.skip(2), "bench"@) {
            Ok(fragment) => match option_value(args.skip(3), "--writes"@, 50, usize::MAX as int) {
                Ok(writes) => Ok(CommandModel::Bench { fragment, writes }),
                Err(message) => Err(message),
            },
            Err(message) => Err(message),
        }
    } else {
        Err("unknown probe command "@ + debug_text(args[1]@))
    }
}

/// Reads the probe's arguments.
pub fn parse_args(args: Vec<String>) -> (r: Result<Command, String>)
    ensures
        match r {
            Ok(command) => command_of(args@) == Ok::<CommandModel, Seq<char>>(command@),
            Err(message) => command_of(args@) == Err::<CommandModel, Seq<char>>(message@),
        },
{
    let n: usize = args.len();
    if n < 2 {
        let empty = String::new();
        assert(empty@ =~= Seq::<char>::empty());
        return Err(empty);
    }
    if !is_text(&args[0], "probe") {
        let mut text = owned("unknown command ");
        let name = quoted(args[0].as_str());
        text.append(name.as_str());
        return Err(text);
    }
    let rest: &[String] = &args.as_slice()[2..n];
    assert(rest@ =~= args@.skip(2));
    if is_text(&args[1], "scan") {
        match parse_option(rest, "--seconds", 10, u64::MAX) {
            Ok(seconds) => Ok(Command::Scan { seconds }),
            Err(message) => Err(message),
        }
    } else if is_text(&args[1], "blink") {
        proof {
            reveal_strlit("scan");
            reveal_strlit("blink");
        }
        let fragment = match parse_fragment_argument(rest, "blink") {
            Ok(fragment) => fragment,
            Err(message) => {
                return Err(message);
            },
        };
        let options: &[String] = &args.as_slice()[3..n];
        assert(options@ =~= args@.skip(3));
        match parse_option(options, "--seconds", 6, u64::MAX) {
            Ok(seconds) => Ok(Command::Blink { fragment, seconds }),
            Err(message) => Err(message),
        }
    } else if is_text(&args[1], "bench") {
        let fragment = match parse_fragment_argument(rest, "bench") {
            Ok(fragment) => fragment,
            Err(message) => {
                return Err(message);
            },
        };
        let options: &[String] = &args.as_slice()[3..n];
        assert(options@ =~= args@.skip(3));
        match parse_option(options, "--writes", 50, usize::MAX as u64) {
            Ok(writes) => Ok(Command::Bench { fragment, writes: writes as usize }),
            Err(message) => Err(message),
        }
    } else {
        let mut text = owned("unknown probe command ");
        let name = quoted(args[1].as_str());
        text.append(name.as_str());
        Err(text)
    }
}

/// The place of the first candidate with an identifier, or the number of them.
pub open spec fn find_candidate(candidates: Seq<Discovered>, id: Seq<char>) -> int
    decreases candidates.len(),
{
    if candidates.len() == 0 {
        0
    } else if candidates[0].id@ == id {
        0
    } else {
        1 + find_candidate(candidates.drop_first(), id)
    }
}

proof fn candidate_at(candidates: Seq<Discovered>, id: Seq<char>, i: int)
    requires
        0 <= i <= candidates.len(),
        i < candidates.len() ==> candidates[i].id@ == id,
        forall|j: int| 0 <= j < i ==> (#[trigger] candidates[j]).id@ != id,
    ensures
        find_candidate(candidates, id) == i,
    decreases candidates.len(),
{
    if i > 0 {
        let rest = candidates.drop_first();
        assert(candidates[0].id@ != id);
        assert forall|j: int| 0 <= j < i - 1 implies (#[trigger] rest[j]).id@ != id by {
            assert(rest[j] == candidates[j + 1]);
        }
        candidate_at(rest, id, i - 1);
    }
}

/// Takes note of a light that was found: the latest report about each counts.
pub fn note_candidate(candidates: &mut Vec<Discovered>, found: Discovered)
    ensures
        ({
            let i = find_candidate(old(candidates)@, found.id@);
            final(candidates)@ == if i < old(candidates)@.len() {
                old(candidates)@.update(i, found)
            } else {
                old(candidates)@.push(found)
            }
        }),
{
    let mut i: usize = 0;
    while i < candidates.len() && !candidates[i].id.same(&found.id)
        invariant
            i <= candidates@.len(),
            candidates@ == old(candidates)@,
            forall|j: int| 0 <= j < i ==> (#[trigger] candidates@[j]).id@ != found.id@,
        decreases candidates.len() - i,
    {
        i += 1;
    }
    proof {
        candidate_at(candidates@, found.id@, i as int);
    }
    if i < candidates.len() {
        candidates.set(i, found);
    } else {
        candidates.push(found);
    }
}

/// A light has a text in its identifier or in its name, in lower case.
pub open spec fn is_meant(candidate: Discovered, needle: Seq<char>) -> bool {
    occurs(lowercase(candidate.id@), needle) || (candidate.name matches Some(name) && occurs(
        lowercase(name@),
        needle,
    ))
}

/// The ones among the first `n` candidates that have a text.
pub open spec fn meant(candidates: Seq<Discovered>, needle: Seq<char>, n: int) -> Seq<Discovered>
    decreases n,
{
    if n <= 0 {
        Seq::empty()
    } else {
        let head = meant(candidates, needle, n - 1);
        if is_meant(candidates[n - 1], needle) {
            head.push(candidates[n - 1])
        } else {
            head
        }
    }
}

/// A light by its identifier and its name.
pub open spec fn candidate_words(candidate: Discovered) -> Seq<char> {
    candidate.id@ + " ("@ + match candidate.name {
        Some(name) => name@,
        None => "unknown name"@,
    } + ")"@
}

/// The first `n` candidates in words.
pub open spec fn listed(candidates: Seq<Discovered>, n: int) -> Seq<char>
    decreases n,
{
    if n <= 0 {
        Seq::empty()
    } else if n == 1 {
        candidate_words(candidates[0])
    } else {
        listed(candidates, n - 1) + ", "@ + candidate_words(candidates[n - 1])
    }
}

/// Candidates in words.
pub open spec fn candidates_words(candidates: Seq<Discovered>) -> Seq<char> {
    if candidates.len() == 0 {
        "none"@
    } else {
        listed(candidates, candidates.len() as int)
    }
}

fn push_candidate(text: &mut String, candidate: &Discovered)
    ensures
        final(text)@ == old(text)@ + candidate_words(*candidate),
{
    let ghost before = text@;
    text.append(candidate.id.as_str());
    text.append(" (");
    match &candidate.name {
        Some(name) => {
            text.append(name.as_str());
        },
        None => {
            text.append("unknown name");
        },
    }
    text.append(")");
    assert(text@ =~= before + candidate_words(*candidate));
}

/// Describes candidates in words.
pub fn candidate_list(candidates: &[Discovered]) -> (r: String)
    ensures
        r@ == candidates_words(candidates@),
{
    if candidates.len() == 0 {
        return owned("none");
    }
    let mut text = String::new();
    push_candidate(&mut text, &candidates[0]);
    assert(text@ =~= listed(candidates@, 1));
    let mut n: usize = 1;
    while n < candidates.len()
        invariant
            1 <= n <= candidates@.len(),
            text@ == listed(candidates@, n as int),
        decreases candidates.len() - n,
    {
        text.append(", ");
        push_candidate(&mut text, &candidates[n]);
        n += 1;
    }
    text
}

/// The light that a fragment means, or why it does not mean exactly one.
pub open spec fn choice(candidates: Seq<Discovered>, fragment: Seq<char>) -> Result<
    Discovered,
    Seq<char>,
> {
    let found = meant(candidates, lowercase(fragment), candidates.len() as int);
    if found.len() == 1 {
        Ok(found[0])
    } else if found.len() == 0 {
        Err("no matching light found. Candidates: "@ + candidates_words(candidates))
    } else {
        Err("fragment is ambiguous. Matches: "@ + candidates_words(found))
    }
}

/// Finds the one light that a fragment of an identifier or a name means,
/// whatever the case of its letters.
pub fn choose_light(candidates: &Vec<Discovered>, fragment: &str) -> (r: Result<Discovered, String>)
    ensures
        match r {
            Ok(light) => choice(candidates@, fragment@) == Ok::<Discovered, Seq<char>>(light),
            Err(message) => choice(candidates@, fragment@) == Err::<Discovered, Seq<char>>(
                message@,
            ),
        },
{
    let needle = lower_case(fragment);
    let needle = chars_of(needle.as_str());
    let mut found: Vec<Discovered> = Vec::new();
    let mut n: usize = 0;
    while n < candidates.len()
        invariant
            n <= candidates@.len(),
            needle@ == lowercase(fragment@),
            found@ == meant(candidates@, needle@, n as int),
        decreases candidates.len() - n,
    {
        let candidate = &candidates[n];
        let id = lower_case(candidate.id.as_str());
        let id = chars_of(id.as_str());
        let mut hit = contains(id.as_slice(), needle.as_slice());
        if let Some(name) = &candidate.name {
            let name = lower_case(name.as_str());
            let name = chars_of(name.as_str());
            hit = hit || contains(name.as_slice(), needle.as_slice());
        }
        if hit {
            found.push(candidate.clone());
        }
        n += 1;
    }
    if found.len() == 1 {
        Ok(found[0].clone())
    } else if found.len() == 0 {
        let mut text = owned("no matching light found. Candidates: ");
        let list = candidate_list(candidates.as_slice());
        text.append(list.as_str());
        Err(text)
    } else {
        let mut text = owned("fragment is ambiguous. Matches: ");
        let list = candidate_list(found.as_slice());
        text.append(list.as_str());
        Err(text)
    }
}

/// The line about a light that was found.
pub open spec fn discovered_words(found: Discovered, caps: Capabilities) -> Seq<char> {
    let rssi = match found.rssi {
        Some(rssi) => signed_decimal(rssi as int) + " dBm"@,
        None => "n/a"@,
    };
    match found.name {
        Some(name) => found.id@ + "  "@ + name@ + "  "@ + rssi + "  [CCT "@ + decimal(
            caps.cct_min@ as nat,
        ) + "-"@ + decimal(caps.cct_max@ as nat) + " K, RGB "@ + if caps.rgb {
            "yes"@
        } else {
            "no"@
        } + "]"@,
        None => found.id@ + "  "@ + "<unknown>"@ + "  "@ + rssi,
    }
}

/// Describes a light that was found, with the capabilities of its model where it
/// has a name.
pub fn discovered_line(found: &Discovered, caps: &Capabilities) -> (r: String)
    ensures
        r@ == discovered_words(*found, *caps),
{
    let mut rssi = String::new();
    match found.rssi {
        Some(strength) => {
            push_signed_decimal(&mut rssi, strength as i64);
            rssi.append(" dBm");
            assert(rssi@ =~= signed_decimal(strength as int) + " dBm"@);
        },
        None => {
            rssi = owned("n/a");
        },
    }
    let mut text = owned(found.id.as_str());
    text.append("  ");
    match &found.name {
        Some(name) => {
            text.append(name.as_str());
            text.append("  ");
            text.append(rssi.as_str());
            text.append("  [CCT ");
            push_decimal(&mut text, caps.cct_min.get() as u64);
            text.append("-");
            push_decimal(&mut text, caps.cct_max.get() as u64);
            text.append(" K, RGB ");
            if caps.rgb {
                text.append("yes");
            } else {
                text.append("no");
            }
            text.append("]");
        },
        None => {
            text.append("<unknown>");
            text.append("  ");
            text.append(rssi.as_str());
        },
    }
    text
}

/// The mode that a blinking light has in a second: on and off by turns, on first.
pub fn blink_mode(second: u64) -> (r: Mode)
    ensures
        r == if second % 2 == 0 {
            Mode::On
        } else {
            Mode::Off
        },
{
    if second % 2 == 0 {
        Mode::On
    } else {
        Mode::Off
    }
}

/// Checks how many writes a benchmark is to time.
pub fn check_writes(writes: usize) -> (r: Result<(), String>)
    ensures
        match r {
            Ok(_) => writes > 0,
            Err(message) => writes == 0 && message@ == "--writes must be greater than zero"@,
        },
{
    if writes == 0 {
        return Err(owned("--writes must be greater than zero"));
    }
    Ok(())
}

/// The mode that a benchmark writes, by turns warm and cool, as far as the light
/// allows.
pub fn bench_mode(index: usize, caps: &Capabilities) -> (r: Mode)
    requires
        caps.ordered(),
    ensures
        r == device_mode(
            Mode::Cct {
                temp: Kelvin::of(
                    if index % 2 == 0 {
                        3200
                    } else {
                        5600
                    },
                ),
                bri: Percent::of(50),
            },
            *caps,
        ),
{
    let temp = if index % 2 == 0 {
        Kelvin(3200)
    } else {
        Kelvin(5600)
    };
    clamp_to_device(Mode::Cct { temp, bri: Percent(50) }, caps).0
}

/// Numbers in ascending order.
pub open spec fn is_sorted(s: Seq<u64>) -> bool {
    forall|i: int, j: int| 0 <= i <= j < s.len() ==> #[trigger] s[i] <= #[trigger] s[j]
}

/// Sorts numbers.
pub fn sort(values: &[u64]) -> (r: Vec<u64>)
    ensures
        is_sorted(r@),
        r@.to_multiset() == values@.to_multiset(),
        r@.len() == values@.len(),
{
    let mut r: Vec<u64> = Vec::new();
    let mut i: usize = 0;
    assert(values@.take(0) =~= Seq::<u64>::empty());
    while i < values.len()
        invariant
            i <= values@.len(),
            r@.len() == i,
            is_sorted(r@),
            r@.to_multiset() == values@.take(i as int).to_multiset(),
        decreases values.len() - i,
    {
        let value: u64 = values[i];
        let mut place: usize = 0;
        while place < r.len() && r[place] <= value
            invariant
                place <= r@.len(),
                forall|j: int| 0 <= j < place ==> #[trigger] r@[j] <= value,
            decreases r.len() - place,
        {
            place += 1;
        }
        let ghost before = r@;
        r.insert(place, value);
        proof {
            let after = r@;
            assert(after == before.insert(place as int, value));
            assert(after.remove(place as int) =~= before);
            after.to_multiset_ensures();
            before.to_multiset_ensures();
            values@.take(i as int).to_multiset_ensures();
            assert(after[place as int] == value);
            assert(after.contains(value));
            assert(after.to_multiset() =~= before.to_multiset().insert(value));
            assert(values@.take(i + 1) =~= values@.take(i as int).push(value));
            assert forall|a: int, b: int| 0 <= a <= b < after.len() implies #[trigger] after[a]
                <= #[trigger] after[b] by {
                let x = if a <= place {
                    a
                } else {
                    a - 1
                };
                let y = if b <= place {
                    b
                } else {
                    b - 1
                };
                if b < place {
                    assert(after[a] == before[a] && after[b] == before[b]);
                } else if b == place {
                    if a < place {
                        assert(after[a] == before[a]);
                    }
                } else {
                    assert(after[b] == before[b - 1]);
                    if a < place {
                        assert(after[a] == before[a]);
                    } else if a > place {
                        assert(after[a] == before[a - 1]);
                    } else {
                        assert(before[place as int] <= before[b - 1]);
                    }
                }
            }
        }
        i += 1;
    }
    assert(values@.take(i as int) =~= values@);
    r
}

/// The sum of numbers.
pub open spec fn total(values: Seq<u64>) -> int
    decreases values.len(),
{
    if values.len() == 0 {
        0
    } else {
        total(values.drop_last()) + values.last()
    }
}

/// The place of a percentile among `n` values in order.
pub open spec fn percentile_place(n: int, percent: int) -> int {
    ((n - 1) * percent + 99) / 100
}

/// The timings of writes, in nanoseconds.
#[derive(Clone, Copy, Debug, PartialEq, Eq, Structural)]
pub struct Stats {
    pub min: u64,
    pub p50: u64,
    pub p95: u64,
    pub max: u64,
    pub mean: u64,
    pub total: u64,
}

/// Sums up the timings of writes.
pub fn stats(timings: &[u64]) -> (r: Stats)
    requires
        0 < timings@.len() <= u32::MAX,
        total(timings@) <= u64::MAX,
    ensures
        exists|sorted: Seq<u64>|
            {
                let n = sorted.len() as int;
                &&& #[trigger] is_sorted(sorted)
                &&& sorted.to_multiset() == timings@.to_multiset()
                &&& n == timings@.len()
                &&& r.min == sorted[0]
                &&& r.max == sorted[n - 1]
                &&& r.p50 == sorted[percentile_place(n, 50)]
                &&& r.p95 == sorted[percentile_place(n, 95)]
            },
        r.total == total(timings@),
        r.mean == total(timings@) / timings@.len() as int,
{
    let sorted = sort(timings);
    let n: usize = sorted.len();
    let mut sum: u64 = 0;
    let mut i: usize = 0;
    assert(timings@.take(0) =~= Seq::<u64>::empty());
    while i < timings.len()
        invariant
            i <= timings@.len(),
            sum == total(timings@.take(i as int)),
            total(timings@) <= u64::MAX,
        decreases timings.len() - i,
    {
        proof {
            assert(timings@.take(i + 1).drop_last() =~= timings@.take(i as int));
            prefix_total(timings@, i + 1);
        }
        sum = sum + timings[i];
        i += 1;
    }
    assert(timings@.take(i as int) =~= timings@);
    let p50: usize = (((n - 1) as u64 * 50 + 99) / 100) as usize;
    let p95: usize = (((n - 1) as u64 * 95 + 99) / 100) as usize;
    assert(is_sorted(sorted@));
    Stats {
        min: sorted[0],
        p50: sorted[p50],
        p95: sorted[p95],
        max: sorted[n - 1],
        mean: sum / n as u64,
        total: sum,
    }
}

proof fn prefix_total(values: Seq<u64>, n: int)
    requires
        0 <= n <= values.len(),
    ensures
        total(values.take(n)) <= total(values),
    decreases values.len(),
{
    if n < values.len() {
        prefix_total(values.drop_last(), n);
        assert(values.drop_last().take(n) =~= values.take(n));
    } else {
        assert(values.take(n) =~= values);
    }
}

/// The identifier or the name of a candidate holds a fragment, whatever the case of their
/// letters.
pub open spec fn holds_fragment(candidate: Discovered, fragment: Seq<char>) -> bool {
    ||| exists|head: Seq<char>, tail: Seq<char>|
        lowercase(candidate.id@) == #[trigger] (head + lowercase(fragment) + tail)
    ||| candidate.name matches Some(name) && exists|head: Seq<char>, tail: Seq<char>|
        lowercase(name@) == #[trigger] (head + lowercase(fragment) + tail)
}

proof fn occurrence(s: Seq<char>, part: Seq<char>)
    ensures
        occurs(s, part) <==> exists|head: Seq<char>, tail: Seq<char>|
            s == #[trigger] (head + part + tail),
{
    if occurs(s, part) {
        what_occurs_is_a_part(s, part);
    }
    if exists|head: Seq<char>, tail: Seq<char>| s == #[trigger] (head + part + tail) {
        let (head, tail) = choose|head: Seq<char>, tail: Seq<char>|
            s == #[trigger] (head + part + tail);
        parts_occur(head, part, tail);
    }
}

proof fn meant_is_held(candidate: Discovered, fragment: Seq<char>)
    ensures
        is_meant(candidate, lowercase(fragment)) <==> holds_fragment(candidate, fragment),
{
    occurrence(lowercase(candidate.id@), lowercase(fragment));
    if candidate.name is Some {
        occurrence(lowercase(candidate.name->0@), lowercase(fragment));
    }
}

proof fn meant_are_kept(candidates: Seq<Discovered>, needle: Seq<char>, n: int)
    requires
        0 <= n <= candidates.len(),
    ensures
        meant(candidates, needle, n).len() <= n,
        meant(candidates, needle, n).len() == 0 <==> forall|i: int|
            0 <= i < n ==> !is_meant(#[trigger] candidates[i], needle),
        forall|i: int|
            0 <= i < n && is_meant(#[trigger] candidates[i], needle) && (forall|j: int|
                0 <= j < n && j != i ==> !is_meant(#[trigger] candidates[j], needle)) ==> meant(
                candidates,
                needle,
                n,
            ) == seq![candidates[i]],
        forall|i: int, j: int|
            0 <= i < j < n && is_meant(#[trigger] candidates[i], needle) && is_meant(
                #[trigger] candidates[j],
                needle,
            ) ==> meant(candidates, needle, n).len() > 1,
    decreases n,
{
    if n > 0 {
        meant_are_kept(candidates, needle, n - 1);
        let head = meant(candidates, needle, n - 1);
        let last = n - 1;
        assert forall|i: int|
            0 <= i < n && is_meant(#[trigger] candidates[i], needle) && (forall|j: int|
                0 <= j < n && j != i ==> !is_meant(#[trigger] candidates[j], needle)) implies meant(
            candidates,
            needle,
            n,
        ) == seq![candidates[i]] by {
            if i < last {
                assert(!is_meant(candidates[last], needle));
            } else {
                assert(head.len() == 0);
                assert(head.push(candidates[last]) =~= seq![candidates[last]]);
            }
        }
        assert forall|i: int, j: int|
            0 <= i < j < n && is_meant(#[trigger] candidates[i], needle) && is_meant(
                #[trigger] candidates[j],
                needle,
            ) implies meant(candidates, needle, n).len() > 1 by {
            if j == last {
                assert(head.len() > 0);
            }
        }
    }
}

/// A fragment chooses the one candidate that holds it. Where none does, or more than one,
/// there is no choice.
pub proof fn fragments_choose_the_only_match(
    candidates: Seq<Discovered>,
    fragment: Seq<char>,
    i: int,
    j: int,
)
    ensures
        0 <= i < candidates.len() && holds_fragment(candidates[i], fragment) && (forall|k: int|
            0 <= k < candidates.len() && k != i ==> !holds_fragment(
                #[trigger] candidates[k],
                fragment,
            )) ==> choice(candidates, fragment) == Ok::<Discovered, Seq<char>>(candidates[i]),
        0 <= i < j < candidates.len() && holds_fragment(candidates[i], fragment) && holds_fragment(
            candidates[j],
            fragment,
        ) ==> choice(candidates, fragment) is Err,
        (forall|k: int|
            0 <= k < candidates.len() ==> !holds_fragment(#[trigger] candidates[k], fragment))
            ==> choice(candidates, fragment) == Err::<Discovered, Seq<char>>(
            "no matching light found. Candidates: "@ + candidates_words(candidates),
        ),
{
    let needle = lowercase(fragment);
    meant_are_kept(candidates, needle, candidates.len() as int);
    assert forall|k: int| 0 <= k < candidates.len() implies (is_meant(
        #[trigger] candidates[k],
        needle,
    ) <==> holds_fragment(candidates[k], fragment)) by {
        meant_is_held(candidates[k], fragment);
    }
    if 0 <= i < candidates.len() {
        meant_is_held(candidates[i], fragment);
    }
    if 0 <= j < candidates.len() {
        meant_is_held(candidates[j], fragment);
    }
}

/// The candidate with an identifier is found at its first place, and beyond the last where
/// there is none.
pub proof fn candidates_are_found_at_their_first_place(
    candidates: Seq<Discovered>,
    id: Seq<char>,
)
    ensures
        0 <= find_candidate(candidates, id) <= candidates.len(),
        find_candidate(candidates, id) < candidates.len() ==> candidates[find_candidate(
            candidates,
            id,
        )].id@ == id,
        forall|k: int|
            0 <= k < find_candidate(candidates, id) ==> (#[trigger] candidates[k]).id@ != id,
    decreases candidates.len(),
{
    if candidates.len() > 0 && candidates[0].id@ != id {
        let rest = candidates.drop_first();
        candidates_are_found_at_their_first_place(rest, id);
        assert forall|k: int| 0 <= k < find_candidate(candidates, id) implies (
        #[trigger] candidates[k]).id@ != id by {
            if k > 0 {
                assert(rest[k - 1] == candidates[k]);
            }
        }
    }
}

/// A percentile stands at the first place with at least that share of the way to the last
/// one before it.
pub proof fn percentiles_are_shares_of_the_way(n: int, percent: int)
    requires
        n > 0,
        0 <= percent <= 100,
    ensures
        0 <= percentile_place(n, percent) < n,
        100 * percentile_place(n, percent) >= (n - 1) * percent,
        100 * (percentile_place(n, percent) - 1) < (n - 1) * percent,
{
    let way = (n - 1) * percent;
    assert(0 <= way <= 100 * (n - 1)) by (nonlinear_arith)
        requires
            way == (n - 1) * percent,
            n > 0,
            0 <= percent <= 100,
    ;
}

/// The total is the sum of all values.
pub proof fn totals_are_sums(values: Seq<u64>)
    ensures
        total(values) == values.fold_left(0int, |sum: int, value: u64| sum + value),
    decreases values.len(),
{
    reveal(Seq::fold_left);
    if values.len() > 0 {
        totals_are_sums(values.drop_last());
    }
}

/// A command takes its option, and a fixed number without one; what is to be blinked or
/// measured is the fragment as it is written.
pub proof fn commands_take_what_is_written(args: Seq<String>, n: nat)
    requires
        args.len() >= 2,
        args[0]@ == "probe"@,
        n <= u32::MAX,
    ensures
        args[1]@ == "scan"@ && args.len() == 2 ==> command_of(args) == Ok::<
            CommandModel,
            Seq<char>,
        >(CommandModel::Scan { seconds: 10 }),
        args[1]@ == "scan"@ && args.len() == 4 && args[2]@ == "--seconds"@ && args[3]@ == decimal(n)
            ==> command_of(args) == Ok::<CommandModel, Seq<char>>(
            CommandModel::Scan { seconds: n as int },
        ),
        args[1]@ == "blink"@ && args.len() == 3 && !(args[2]@.len() > 0 && args[2]@[0] == '-')
            ==> command_of(args) == Ok::<CommandModel, Seq<char>>(
            CommandModel::Blink { fragment: args[2]@, seconds: 6 },
        ),
        args[1]@ == "blink"@ && args.len() == 5 && !(args[2]@.len() > 0 && args[2]@[0] == '-')
            && args[3]@ == "--seconds"@ && args[4]@ == decimal(n) ==> command_of(args) == Ok::<
            CommandModel,
            Seq<char>,
        >(CommandModel::Blink { fragment: args[2]@, seconds: n as int }),
        args[1]@ == "bench"@ && args.len() == 3 && !(args[2]@.len() > 0 && args[2]@[0] == '-')
            ==> command_of(args) == Ok::<CommandModel, Seq<char>>(
            CommandModel::Bench { fragment: args[2]@, writes: 50 },
        ),
        args[1]@ == "bench"@ && args.len() == 5 && !(args[2]@.len() > 0 && args[2]@[0] == '-')
            && args[3]@ == "--writes"@ && args[4]@ == decimal(n) ==> command_of(args) == Ok::<
            CommandModel,
            Seq<char>,
        >(CommandModel::Bench { fragment: args[2]@, writes: n as int }),
{
    reveal_strlit("scan");
    reveal_strlit("blink");
    reveal_strlit("bench");
    assert("blink"@[1] != "bench"@[1]);
    assert("scan"@.len() == 4);
    assert(u32::MAX <= usize::MAX);
    numbers_are_read_from_their_digits(n, Seq::empty(), u64::MAX as int);
    numbers_are_read_from_their_digits(n, Seq::empty(), usize::MAX as int);
}

/// Candidates are listed one after another, with a comma between two of them, each by its
/// identifier and its name, if it has one.
pub proof fn candidates_are_listed_with_commas(candidates: Seq<Discovered>, n: int)
    requires
        0 < n < candidates.len(),
    ensures
        listed(candidates, 1) == candidate_words(candidates[0]),
        listed(candidates, n + 1) == listed(candidates, n) + ", "@ + candidate_words(candidates[n]),
        candidates[n].name matches Some(name) ==> candidate_words(candidates[n])
            == candidates[n].id@ + " ("@ + name@ + ")"@,
        candidates[n].name is None ==> candidate_words(candidates[n]) == candidates[n].id@ + " ("@
            + "unknown name"@ + ")"@,
        candidates_words(candidates) == listed(candidates, candidates.len() as int),
        candidates_words(Seq::empty()) == "none"@,
{
}

} // verus!
