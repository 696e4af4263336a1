//! A deterministic simulation of lights.
use vstd::arithmetic::div_mod::{lemma_fundamental_div_mod, lemma_mod_multiples_basic};
use vstd::prelude::*;
use crate::id::LightId;
use crate::text::{decimal, owned, push_decimal};
use crate::transport::{Discovered, ScanFilter, TransportError};
use crate::wire::{decode, decoding, Decoded};

verus! {

/// Configuration for one simulated light.
#[derive(Clone, Debug)]
pub struct SimLightSpec {
    /// Stable identifier exposed by discovery and connection APIs.
    pub id: LightId,
    /// Device name emitted during discovery.
    pub advertised_name: String,
    /// Signal strength emitted during discovery.
    pub rssi: i16,
    /// Number of connection attempts that fail before one succeeds.
    pub connect_failures: u32,
}

/// One simulated light.
#[derive(Debug)]
pub struct SimLight {
    pub spec: SimLightSpec,
    /// Connection attempts that are still to fail.
    pub failures_left: u32,
    /// The number of the live connection, if there is one.
    pub active: Option<u64>,
    /// Accepted packets in arrival order with their acceptance times.
    pub timeline: Vec<(u64, Decoded)>,
}

/// What a simulated light has seen.
#[verifier::ext_equal]
pub struct SimState {
    pub failures_left: int,
    pub active: Option<u64>,
    pub timeline: Seq<(u64, Decoded)>,
}

impl View for SimLight {
    type V = SimState;

    open spec fn view(&self) -> SimState {
        SimState {
            failures_left: self.failures_left as int,
            active: self.active,
            timeline: self.timeline@,
        }
    }
}

/// The simulated lights of a transport.
#[derive(Debug)]
pub struct Simulator {
    pub lights: Vec<SimLight>,
    /// Inject a failure into every Nth write across all lights.
    pub fail_every_nth_write: Option<u32>,
    /// Writes that have been attempted.
    pub write_count: u64,
    /// The number of the next connection.
    pub next_connection: u64,
}

/// The place of the last light with an identifier among the first `n`, or -1.
pub open spec fn find_sim(lights: Seq<SimLight>, id: Seq<char>, n: int) -> int
    decreases n,
{
    if n <= 0 {
        -1
    } else if lights[n - 1].spec.id@ == id {
        n - 1
    } else {
        find_sim(lights, id, n - 1)
    }
}

/// What a light with a name and a signal strength is reported as.
pub open spec fn advertisement(light: SimLight) -> (Seq<char>, Seq<char>, i16) {
    (light.spec.id@, light.spec.advertised_name@, light.spec.rssi)
}

/// The reports about the first `n` lights that pass a filter.
pub open spec fn reports(lights: Seq<SimLight>, filter: ScanFilter, n: int) -> Seq<
    (Seq<char>, Seq<char>, i16),
>
    decreases n,
{
    if n <= 0 {
        Seq::empty()
    } else {
        let head = reports(lights, filter, n - 1);
        if filter.passes(Some(lights[n - 1].spec.advertised_name@)) {
            head.push(advertisement(lights[n - 1]))
        } else {
            head
        }
    }
}

/// A report is about an advertised light.
pub open spec fn matches_report(found: Discovered, report: (Seq<char>, Seq<char>, i16)) -> bool {
    &&& found.id@ == report.0
    &&& found.name matches Some(name) && name@ == report.1
    &&& found.rssi == Some(report.2)
}

/// A write is one that the simulation makes fail.
pub open spec fn is_injected_failure(nth: Option<u32>, attempt: u64) -> bool {
    nth matches Some(n) && n > 0 && attempt % n as u64 == 0
}

impl Simulator {
    /// The place of the light that a connection to an identifier leads to.
    pub open spec fn index(self, id: Seq<char>) -> int {
        find_sim(self.lights@, id, self.lights@.len() as int)
    }

    /// Every Nth write is every first one at least, and connections are numbered
    /// in the order in which they are made.
    pub open spec fn wf(self) -> bool {
        &&& self.fail_every_nth_write matches Some(n) ==> n > 0
        &&& forall|i: int|
            0 <= i < self.lights@.len() ==> ((#[trigger] self.lights@[i]).active matches Some(
                connection,
            ) ==> connection < self.next_connection)
    }

    /// A connection to a light is live.
    pub open spec fn live(self, id: Seq<char>, connection: u64) -> bool {
        self.index(id) >= 0 && self.lights@[self.index(id)].active == Some(connection)
    }

    /// Only one light has changed.
    pub open spec fn changed_only(self, before: Simulator, i: int, state: SimState) -> bool {
        &&& self.lights@.len() == before.lights@.len()
        &&& forall|j: int|
            0 <= j < self.lights@.len() ==> (#[trigger] self.lights@[j]).spec
                == before.lights@[j].spec && self.lights@[j]@ == if j == i {
                state
            } else {
                before.lights@[j]@
            }
        &&& self.fail_every_nth_write == before.fail_every_nth_write
    }

    /// Creates a simulation with the supplied deterministic behavior.
    pub fn new(specs: Vec<SimLightSpec>, fail_every_nth_write: Option<u32>) -> (r: Self)
        requires
            fail_every_nth_write matches Some(n) ==> n > 0,
        ensures
            r.wf(),
            r.fail_every_nth_write == fail_every_nth_write,
            r.write_count == 0,
            r.next_connection == 0,
            r.lights@.len() == specs@.len(),
            forall|i: int|
                0 <= i < specs@.len() ==> (#[trigger] r.lights@[i]).spec == specs@[i]
                    && r.lights@[i]@ == (SimState {
                    failures_left: specs@[i].connect_failures as int,
                    active: None,
                    timeline: Seq::empty(),
                }),
    {
        let mut specs = specs;
        let ghost all = specs@;
        let mut reversed: Vec<SimLight> = Vec::new();
        while specs.len() > 0
            invariant
                specs@ == all.take(specs@.len() as int),
                reversed@.len() == all.len() - specs@.len(),
                specs@.len() <= all.len(),
                forall|i: int|
                    0 <= i < reversed@.len() ==> {
                        let light = #[trigger] reversed@[i];
                        let spec = all[all.len() - 1 - i];
                        light.spec == spec && light@ == (SimState {
                            failures_left: spec.connect_failures as int,
                            active: None,
                            timeline: Seq::empty(),
                        }) && light.active is None
                    },
            decreases specs.len(),
        {
            let ghost n = specs@.len();
            let spec = specs.pop().unwrap();
            assert(spec == all[n - 1]);
            assert(specs@ =~= all.take(specs@.len() as int));
            let failures_left: u32 = spec.connect_failures;
            let light = SimLight { spec, failures_left, active: None, timeline: Vec::new() };
            assert(light@ =~= SimState {
                failures_left: failures_left as int,
                active: None,
                timeline: Seq::empty(),
            });
            reversed.push(light);
        }
        let mut lights: Vec<SimLight> = Vec::new();
        while reversed.len() > 0
            invariant
                reversed@.len() + lights@.len() == all.len(),
                forall|i: int|
                    0 <= i < reversed@.len() ==> {
                        let light = #[trigger] reversed@[i];
                        let spec = all[all.len() - 1 - i];
                        light.spec == spec && light@ == (SimState {
                            failures_left: spec.connect_failures as int,
                            active: None,
                            timeline: Seq::empty(),
                        }) && light.active is None
                    },
                forall|i: int|
                    0 <= i < lights@.len() ==> {
                        let light = #[trigger] lights@[i];
                        light.spec == all[i] && light@ == (SimState {
                            failures_left: all[i].connect_failures as int,
                            active: None,
                            timeline: Seq::empty(),
                        }) && light.active is None
                    },
            decreases reversed.len(),
        {
            let light = reversed.pop().unwrap();
            lights.push(light);
        }
        Simulator { lights, fail_every_nth_write, write_count: 0, next_connection: 0 }
    }

    fn find(&self, id: &LightId) -> (r: Option<usize>)
        ensures
            match r {
                Some(i) => i == self.index(id@) && i < self.lights@.len(),
                None => self.index(id@) == -1,
            },
    {
        let mut n: usize = self.lights.len();
        while n > 0
            invariant
                n <= self.lights@.len(),
                find_sim(self.lights@, id@, self.lights@.len() as int) == find_sim(
                    self.lights@,
                    id@,
                    n as int,
                ),
            decreases n,
        {
            if self.lights[n - 1].spec.id.same(id) {
                return Some(n - 1);
            }
            n -= 1;
        }
        None
    }

    /// Reports each light that passes the filter, once and in order.
    pub fn scan(&self, filter: &ScanFilter) -> (r: Vec<Discovered>)
        ensures
            ({
                let expected = reports(self.lights@, *filter, self.lights@.len() as int);
                &&& r@.len() == expected.len()
                &&& forall|i: int|
                    0 <= i < r@.len() ==> matches_report(#[trigger] r@[i], expected[i])
            }),
    {
        let mut r: Vec<Discovered> = Vec::new();
        let mut n: usize = 0;
        while n < self.lights.len()
            invariant
                n <= self.lights@.len(),
                r@.len() == reports(self.lights@, *filter, n as int).len(),
                forall|i: int|
                    0 <= i < r@.len() ==> matches_report(
                        #[trigger] r@[i],
                        reports(self.lights@, *filter, n as int)[i],
                    ),
            decreases self.lights.len() - n,
        {
            let light = &self.lights[n];
            if filter.admits(Some(light.spec.advertised_name.as_str())) {
                let found = Discovered {
                    id: light.spec.id.clone(),
                    name: Some(light.spec.advertised_name.clone()),
                    rssi: Some(light.spec.rssi),
                };
                assert(matches_report(found, advertisement(self.lights@[n as int])));
                r.push(found);
            }
            n += 1;
        }
        r
    }

    /// Connects to a light. Attempts fail while failures are left; a connection
    /// replaces the one before it. Returns the number of the connection.
    pub fn connect(&mut self, id: &LightId) -> (r: Result<u64, TransportError>)
        requires
            old(self).wf(),
            old(self).next_connection < u64::MAX,
        ensures
            final(self).wf(),
            final(self).write_count == old(self).write_count,
            ({
                let i = old(self).index(id@);
                let before = old(self).lights@[i]@;
                match r {
                    Ok(connection) => {
                        &&& i >= 0
                        &&& before.failures_left == 0
                        &&& connection == old(self).next_connection
                        &&& final(self).next_connection == connection + 1
                        &&& final(self).changed_only(
                            *old(self),
                            i,
                            SimState { active: Some(connection), ..before },
                        )
                    },
                    Err(TransportError::ConnectFailed { id: failed }) => {
                        &&& i >= 0
                        &&& failed@ == id@
                        &&& before.failures_left > 0
                        &&& final(self).next_connection == old(self).next_connection
                        &&& final(self).changed_only(
                            *old(self),
                            i,
                            SimState { failures_left: before.failures_left - 1, ..before },
                        )
                    },
                    Err(TransportError::NotFound { id: missing }) => {
                        &&& i < 0
                        &&& missing@ == id@
                        &&& *final(self) == *old(self)
                    },
                    Err(_) => false,
                }
            }),
    {
        let i = match self.find(id) {
            Some(i) => i,
            None => {
                return Err(TransportError::NotFound { id: id.clone() });
            },
        };
        let ghost before = self.lights@;
        if self.lights[i].failures_left > 0 {
            let left: u32 = self.lights[i].failures_left - 1;
            self.lights[i].failures_left = left;
            assert(self.lights@[i as int]@ =~= SimState {
                failures_left: before[i as int]@.failures_left - 1,
                ..before[i as int]@
            });
            return Err(TransportError::ConnectFailed { id: id.clone() });
        }
        let connection: u64 = self.next_connection;
        self.next_connection = connection + 1;
        self.lights[i].active = Some(connection);
        assert(self.lights@[i as int]@ =~= SimState {
            active: Some(connection),
            ..before[i as int]@
        });
        Ok(connection)
    }

    /// Tells whether a connection to a light is live.
    pub fn is_connected(&self, id: &LightId, connection: u64) -> (r: bool)
        ensures
            r == self.live(id@, connection),
    {
        match self.find(id) {
            Some(i) => match self.lights[i].active {
                Some(active) => active == connection,
                None => false,
            },
            None => false,
        }
    }

    /// Tells whether a light has a live connection.
    pub fn has_link(&self, id: &LightId) -> (r: bool)
        ensures
            r == (self.index(id@) >= 0 && self.lights@[self.index(id@)].active is Some),
    {
        match self.find(id) {
            Some(i) => self.lights[i].active.is_some(),
            None => false,
        }
    }

    /// Begins a write and counts it, over a live connection only. Returns the
    /// number of the attempt.
    pub fn begin_write(&mut self, id: &LightId, connection: u64) -> (r: Result<u64, TransportError>)
        requires
            old(self).wf(),
            old(self).write_count < u64::MAX,
        ensures
            final(self).wf(),
            final(self).lights@ == old(self).lights@,
            final(self).next_connection == old(self).next_connection,
            final(self).fail_every_nth_write == old(self).fail_every_nth_write,
            match r {
                Ok(attempt) => {
                    &&& old(self).live(id@, connection)
                    &&& attempt == old(self).write_count + 1
                    &&& final(self).write_count == attempt
                },
                Err(TransportError::Disconnected { id: gone }) => {
                    &&& !old(self).live(id@, connection)
                    &&& gone@ == id@
                    &&& final(self).write_count == old(self).write_count
                },
                Err(_) => false,
            },
    {
        if !self.is_connected(id, connection) {
            return Err(TransportError::Disconnected { id: id.clone() });
        }
        self.write_count = self.write_count + 1;
        Ok(self.write_count)
    }

    /// Ends a write: over a connection that is still live, an attempt that is not
    /// made to fail, with a packet that lights understand, is recorded.
    pub fn finish_write(
        &mut self,
        id: &LightId,
        connection: u64,
        attempt: u64,
        payload: &[u8],
        now: u64,
    ) -> (r: Result<(), TransportError>)
        requires
            old(self).wf(),
        ensures
            final(self).wf(),
            final(self).write_count == old(self).write_count,
            final(self).next_connection == old(self).next_connection,
            ({
                let i = old(self).index(id@);
                let failing = is_injected_failure(old(self).fail_every_nth_write, attempt);
                if !old(self).live(id@, connection) {
                    &&& r matches Err(TransportError::Disconnected { id: gone }) && gone@ == id@
                    &&& *final(self) == *old(self)
                } else if failing {
                    &&& r matches Err(TransportError::WriteFailed { id: light, message })
                        && light@ == id@ && message@ == "injected simulator failure"@
                    &&& *final(self) == *old(self)
                } else {
                    match decoding(payload@) {
                        Ok(decoded) => {
                            let before = old(self).lights@[i]@;
                            &&& r is Ok
                            &&& final(self).changed_only(
                                *old(self),
                                i,
                                SimState { timeline: before.timeline.push((now, decoded)), ..before },
                            )
                        },
                        Err(error) => {
                            &&& r matches Err(TransportError::WriteFailed { id: light, message })
                                && light@ == id@ && message@ == error.words()
                            &&& *final(self) == *old(self)
                        },
                    }
                }
            }),
    {
        if !self.is_connected(id, connection) {
            return Err(TransportError::Disconnected { id: id.clone() });
        }
        let failing = match self.fail_every_nth_write {
            Some(n) => attempt % n as u64 == 0,
            None => false,
        };
        if failing {
            return Err(
                TransportError::WriteFailed {
                    id: id.clone(),
                    message: owned("injected simulator failure"),
                },
            );
        }
        match decode(payload) {
            Ok(decoded) => {
                let ghost before = self.lights@;
                if let Some(i) = self.find(id) {
                    self.lights[i].timeline.push((now, decoded));
                    assert(self.lights@[i as int]@ =~= SimState {
                        timeline: before[i as int]@.timeline.push((now, decoded)),
                        ..before[i as int]@
                    });
                }
                Ok(())
            },
            Err(error) => Err(
                TransportError::WriteFailed { id: id.clone(), message: error.message() },
            ),
        }
    }

    /// Closes a connection, if it is the live one of its light.
    pub fn disconnect(&mut self, id: &LightId, connection: u64)
        requires
            old(self).wf(),
        ensures
            final(self).wf(),
            final(self).write_count == old(self).write_count,
            final(self).next_connection == old(self).next_connection,
            !final(self).live(id@, connection),
            if old(self).live(id@, connection) {
                let i = old(self).index(id@);
                final(self).changed_only(
                    *old(self),
                    i,
                    SimState { active: None, ..old(self).lights@[i]@ },
                )
            } else {
                *final(self) == *old(self)
            },
    {
        if self.is_connected(id, connection) {
            self.force_disconnect(id);
        }
    }

    /// Forcefully closes a light's live connection.
    pub fn force_disconnect(&mut self, id: &LightId)
        requires
            old(self).wf(),
        ensures
            final(self).wf(),
            final(self).write_count == old(self).write_count,
            final(self).next_connection == old(self).next_connection,
            forall|connection: u64| !(#[trigger] final(self).live(id@, connection)),
            ({
                let i = old(self).index(id@);
                if i >= 0 {
                    final(self).changed_only(
                        *old(self),
                        i,
                        SimState { active: None, ..old(self).lights@[i]@ },
                    )
                } else {
                    *final(self) == *old(self)
                }
            }),
    {
        let ghost before = *self;
        if let Some(i) = self.find(id) {
            self.lights[i].active = None;
            assert(self.lights@[i as int]@ =~= SimState {
                active: None,
                ..before.lights@[i as int]@
            });
            proof {
                same_places(before.lights@, self.lights@, id@, self.lights@.len() as int);
            }
        }
    }
}

proof fn same_places(a: Seq<SimLight>, b: Seq<SimLight>, id: Seq<char>, n: int)
    requires
        a.len() == b.len(),
        0 <= n <= a.len(),
        forall|i: int| 0 <= i < a.len() ==> (#[trigger] b[i]).spec == a[i].spec,
    ensures
        find_sim(a, id, n) == find_sim(b, id, n),
    decreases n,
{
    if n > 0 {
        same_places(a, b, id, n - 1);
        assert(b[n - 1].spec == a[n - 1].spec);
    }
}

/// The names of the lights of a demonstration.
pub open spec fn demo_name(i: int) -> Seq<char> {
    if i == 0 {
        "NEEWER-RGB660 PRO"@
    } else if i == 1 {
        "NEEWER-SNL660"@
    } else if i == 2 {
        "NEEWER-RGB176"@
    } else {
        "NEEWER-SL80"@
    }
}

/// The four lights of a demonstration.
pub fn demo_lights() -> (r: Vec<SimLightSpec>)
    ensures
        r@.len() == 4,
        forall|i: int|
            0 <= i < 4 ==> {
                let spec = #[trigger] r@[i];
                &&& spec.id@ == "sim:"@ + decimal((i + 1) as nat)
                &&& spec.advertised_name@ == demo_name(i)
                &&& spec.rssi == -40 - i
                &&& spec.connect_failures == 0
            },
{
    let mut r: Vec<SimLightSpec> = Vec::new();
    let mut i: usize = 0;
    while i < 4
        invariant
            i <= 4,
            r@.len() == i,
            forall|j: int|
                0 <= j < i ==> {
                    let spec = #[trigger] r@[j];
                    &&& spec.id@ == "sim:"@ + decimal((j + 1) as nat)
                    &&& spec.advertised_name@ == demo_name(j)
                    &&& spec.rssi == -40 - j
                    &&& spec.connect_failures == 0
                },
        decreases 4 - i,
    {
        let mut number = String::new();
        push_decimal(&mut number, (i + 1) as u64);
        assert(number@ =~= decimal((i + 1) as nat));
        let name = if i == 0 {
            owned("NEEWER-RGB660 PRO")
        } else if i == 1 {
            owned("NEEWER-SNL660")
        } else if i == 2 {
            owned("NEEWER-RGB176")
        } else {
            owned("NEEWER-SL80")
        };
        r.push(
            SimLightSpec {
                id: LightId::sim(number.as_str()),
                advertised_name: name,
                rssi: -40 - i as i16,
                connect_failures: 0,
            },
        );
        i += 1;
    }
    r
}

/// What a connection does to a light: a second connection replaces the first.
pub proof fn second_connection_replaces_first(
    simulator: Simulator,
    id: Seq<char>,
    first: u64,
    second: u64,
)
    requires
        simulator.live(id, second),
        first != second,
    ensures
        !simulator.live(id, first),
{
}

/// The simulated light with an identifier is the last one that has it.
pub proof fn simulated_lights_are_known_by_identifier(lights: Seq<SimLight>, id: Seq<char>, n: int)
    requires
        0 <= n <= lights.len(),
    ensures
        -1 <= find_sim(lights, id, n) < n,
        find_sim(lights, id, n) >= 0 ==> lights[find_sim(lights, id, n)].spec.id@ == id,
        forall|k: int|
            find_sim(lights, id, n) < k < n ==> (#[trigger] lights[k]).spec.id@ != id,
    decreases n,
{
    if n > 0 {
        simulated_lights_are_known_by_identifier(lights, id, n - 1);
    }
}

/// A scan reports the lights whose name passes the filter, in their order, as they
/// advertise themselves.
pub proof fn scans_report_the_lights_that_pass(
    lights: Seq<SimLight>,
    filter: ScanFilter,
    n: int,
)
    requires
        0 <= n <= lights.len(),
    ensures
        reports(lights, filter, n) == lights.take(n).filter(
            |light: SimLight| filter.passes(Some(light.spec.advertised_name@)),
        ).map_values(
            |light: SimLight| (light.spec.id@, light.spec.advertised_name@, light.spec.rssi),
        ),
    decreases n,
{
    reveal(Seq::filter);
    let told = |light: SimLight| (light.spec.id@, light.spec.advertised_name@, light.spec.rssi);
    let passing = |light: SimLight| filter.passes(Some(light.spec.advertised_name@));
    if n > 0 {
        scans_report_the_lights_that_pass(lights, filter, n - 1);
        let first = lights.take(n - 1);
        assert(lights.take(n).drop_last() =~= first);
        assert(first.filter(passing).push(lights[n - 1]).map_values(told) =~= first.filter(
            passing,
        ).map_values(told).push(told(lights[n - 1])));
    }
    assert(reports(lights, filter, n) =~= lights.take(n).filter(passing).map_values(told));
}

/// The writes that are made to fail are those whose number is a multiple of the given one.
pub proof fn writes_fail_at_every_multiple(n: u32, attempt: u64)
    ensures
        !is_injected_failure(None, attempt),
        !is_injected_failure(Some(0), attempt),
        n > 0 ==> (is_injected_failure(Some(n), attempt) <==> exists|times: int|
            attempt == #[trigger] (times * n)),
{
    if n > 0 {
        let times = attempt as int / n as int;
        lemma_fundamental_div_mod(attempt as int, n as int);
        assert(n as int * times == times * n as int) by (nonlinear_arith);
        if is_injected_failure(Some(n), attempt) {
            assert(attempt == times * n);
        }
        if exists|times: int| attempt == #[trigger] (times * n) {
            let k = choose|times: int| attempt == #[trigger] (times * n);
            lemma_mod_multiples_basic(k, n as int);
        }
    }
}

/// A connection is live if and only if it is the one that its light has: of several lights
/// with one identifier, the last.
pub proof fn live_connections_belong_to_their_light(
    simulator: Simulator,
    id: Seq<char>,
    connection: u64,
    i: int,
)
    ensures
        0 <= i < simulator.lights@.len() && simulator.lights@[i].spec.id@ == id && (forall|k: int|
            i < k < simulator.lights@.len() ==> (#[trigger] simulator.lights@[k]).spec.id@ != id)
            ==> (simulator.live(id, connection) <==> simulator.lights@[i].active == Some(
            connection,
        )),
        (forall|k: int|
            0 <= k < simulator.lights@.len() ==> (#[trigger] simulator.lights@[k]).spec.id@ != id)
            ==> !simulator.live(id, connection),
{
    simulated_lights_are_known_by_identifier(
        simulator.lights@,
        id,
        simulator.lights@.len() as int,
    );
}

/// A report tells the identifier, the name and the signal strength that a light advertises.
pub proof fn reports_tell_what_is_advertised(found: Discovered, light: SimLight)
    requires
        matches_report(found, advertisement(light)),
    ensures
        found.id@ == light.spec.id@,
        found.name is Some && found.name->0@ == light.spec.advertised_name@,
        found.rssi == Some(light.spec.rssi),
{
}

} // verus!
