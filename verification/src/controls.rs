//! What the controls of lights show and send.
use vstd::prelude::*;
use crate::id::LightId;
use crate::mode::{Hue, Kelvin, Mode, Percent};
use crate::playback::current_mode;
use crate::registry::{has_id, leased_by};
use crate::state::{CommandRequest, LightSnapshot};
use crate::selector::Selector;
use crate::wire::clamped;

verus! {

/// The kinds of color that controls set.
#[derive(Clone, Copy, Debug, PartialEq, Eq, Structural)]
pub enum Tab {
    Cct,
    Hsi,
}

/// Fields the light is known to hold right now, derived from the newest snapshot
/// on every render.
#[derive(Clone, Copy, Debug, PartialEq, Eq, Structural)]
pub struct Known {
    pub cct_temp: Option<i32>,
    pub cct_bri: Option<i32>,
    pub hsi_hue: Option<i32>,
    pub hsi_sat: Option<i32>,
    pub hsi_bri: Option<i32>,
}

/// The fields that a mode sets.
pub open spec fn fields_of(mode: Option<Mode>) -> Known {
    match mode {
        Some(Mode::Cct { temp, bri }) => Known {
            cct_temp: Some(temp@ as i32),
            cct_bri: Some(bri@ as i32),
            hsi_hue: None,
            hsi_sat: None,
            hsi_bri: None,
        },
        Some(Mode::Hsi { hue, sat, bri }) => Known {
            cct_temp: None,
            cct_bri: None,
            hsi_hue: Some(hue@ as i32),
            hsi_sat: Some(sat@ as i32),
            hsi_bri: Some(bri@ as i32),
        },
        _ => Known {
            cct_temp: None,
            cct_bri: None,
            hsi_hue: None,
            hsi_sat: None,
            hsi_bri: None,
        },
    }
}

/// Finds the fields that a mode sets.
pub fn known_from_mode(mode: Option<Mode>) -> (r: Known)
    ensures
        r == fields_of(mode),
{
    let mut known = Known {
        cct_temp: None,
        cct_bri: None,
        hsi_hue: None,
        hsi_sat: None,
        hsi_bri: None,
    };
    match mode {
        Some(Mode::Cct { temp, bri }) => {
            known.cct_temp = Some(temp.get() as i32);
            known.cct_bri = Some(bri.get() as i32);
        },
        Some(Mode::Hsi { hue, sat, bri }) => {
            known.hsi_hue = Some(hue.get() as i32);
            known.hsi_sat = Some(sat.get() as i32);
            known.hsi_bri = Some(bri.get() as i32);
        },
        _ => {},
    }
    known
}

/// What a field shows: what the user set, else what the light is known to hold,
/// else a default.
pub open spec fn effective(touched: Option<i32>, known: Option<i32>, default: i32) -> i32 {
    match touched {
        Some(value) => value,
        None => match known {
            Some(value) => value,
            None => default,
        },
    }
}

fn effect(touched: Option<i32>, known: Option<i32>, default: i32) -> (r: i32)
    ensures
        r == effective(touched, known, default),
{
    match touched {
        Some(value) => value,
        None => match known {
            Some(value) => value,
            None => default,
        },
    }
}

fn clamp(value: i32, min: i32, max: i32) -> (r: i32)
    ensures
        r == clamped(value as int, min as int, max as int),
{
    if value < min {
        min
    } else if value > max {
        max
    } else {
        value
    }
}

/// A temperature mode from two slider values, held within what lights can have.
pub open(crate) spec fn slider_cct(temp: int, bri: int) -> Mode {
    Mode::Cct {
        temp: Kelvin::of(clamped(temp, 2500, 10000)),
        bri: Percent::of(clamped(bri, 0, 100)),
    }
}

/// A color mode from three slider values, wrapped and held within their ranges.
pub open(crate) spec fn slider_hsi(hue: int, sat: int, bri: int) -> Mode {
    Mode::Hsi {
        hue: Hue::of(hue % 360),
        sat: Percent::of(clamped(sat, 0, 100)),
        bri: Percent::of(clamped(bri, 0, 100)),
    }
}

/// Makes a temperature mode from two slider values.
pub fn cct_mode(temp: i32, bri: i32) -> (r: Mode)
    ensures
        r == slider_cct(temp as int, bri as int),
{
    Mode::Cct {
        temp: Kelvin(clamp(temp, 2500, 10000) as u16),
        bri: Percent(clamp(bri, 0, 100) as u8),
    }
}

/// Makes a color mode from three slider values.
pub fn hsi_mode(hue: i32, sat: i32, bri: i32) -> (r: Mode)
    ensures
        r == slider_hsi(hue as int, sat as int, bri as int),
{
    Mode::Hsi {
        hue: Hue::wrapping(hue),
        sat: Percent(clamp(sat, 0, 100) as u8),
        bri: Percent(clamp(bri, 0, 100) as u8),
    }
}

/// What the drawer of one light shows.
///
/// Every field the user has not touched tracks the live snapshot, so a preset or
/// another client changing the light updates the sliders, and a later drag of one
/// slider never resurrects a stale value for the others. Touched fields belong to
/// the user until the drawer is closed.
#[derive(Clone, Copy, Debug, PartialEq, Eq, Structural)]
pub struct Drawer {
    pub tab: Tab,
    pub touched: Known,
}

/// The slider that a user moved.
#[derive(Clone, Copy, Debug, PartialEq, Eq, Structural)]
pub enum Slider {
    CctTemp,
    CctBri,
    HsiHue,
    HsiSat,
    HsiBri,
}

/// The values that the sliders of a drawer show.
#[derive(Clone, Copy, Debug, PartialEq, Eq, Structural)]
pub struct Shown {
    pub cct_temp: i32,
    pub cct_bri: i32,
    pub hsi_hue: i32,
    pub hsi_sat: i32,
    pub hsi_bri: i32,
}

/// The values that sliders show for a light.
pub open spec fn shown_by(touched: Known, light: LightSnapshot) -> Shown {
    let known = fields_of(current_mode(light));
    Shown {
        cct_temp: clamped(
            effective(touched.cct_temp, known.cct_temp, 5600) as int,
            light.caps.cct_min@,
            light.caps.cct_max@,
        ) as i32,
        cct_bri: effective(touched.cct_bri, known.cct_bri, 100),
        hsi_hue: effective(touched.hsi_hue, known.hsi_hue, 240),
        hsi_sat: effective(touched.hsi_sat, known.hsi_sat, 100),
        hsi_bri: effective(touched.hsi_bri, known.hsi_bri, 100),
    }
}

fn light_mode(light: &LightSnapshot) -> (r: Option<Mode>)
    ensures
        r == current_mode(*light),
{
    match light.confirmed {
        Some(mode) => Some(mode),
        None => light.desired,
    }
}

impl Drawer {
    /// Opens a drawer: on color where the light does color and shows one, else on
    /// temperature.
    pub fn open(light: &LightSnapshot) -> (r: Self)
        ensures
            r.touched == fields_of(None),
            r.tab == if light.caps.rgb && current_mode(*light) is Some && current_mode(*light)->0
                is Hsi {
                Tab::Hsi
            } else {
                Tab::Cct
            },
    {
        let known = known_from_mode(light_mode(light));
        Drawer {
            tab: if light.caps.rgb && known.hsi_hue.is_some() {
                Tab::Hsi
            } else {
                Tab::Cct
            },
            touched: known_from_mode(None),
        }
    }

    /// The pane that is shown: temperature where the light does no color.
    pub fn pane(&self, rgb: bool) -> (r: Tab)
        ensures
            r == if rgb {
                self.tab
            } else {
                Tab::Cct
            },
    {
        if rgb {
            self.tab
        } else {
            Tab::Cct
        }
    }

    /// The values that the sliders show.
    pub fn shown(&self, light: &LightSnapshot) -> (r: Shown)
        requires
            light.caps.ordered(),
        ensures
            r == shown_by(self.touched, *light),
    {
        let known = known_from_mode(light_mode(light));
        let min: i32 = light.caps.cct_min.get() as i32;
        let max: i32 = light.caps.cct_max.get() as i32;
        Shown {
            cct_temp: clamp(effect(self.touched.cct_temp, known.cct_temp, 5600), min, max),
            cct_bri: effect(self.touched.cct_bri, known.cct_bri, 100),
            hsi_hue: effect(self.touched.hsi_hue, known.hsi_hue, 240),
            hsi_sat: effect(self.touched.hsi_sat, known.hsi_sat, 100),
            hsi_bri: effect(self.touched.hsi_bri, known.hsi_bri, 100),
        }
    }

    /// The user moved a slider: its value is the user's from now on, and the mode
    /// to send has it, with what the other sliders show.
    pub fn slide(&mut self, slider: Slider, value: i32, light: &LightSnapshot) -> (r: Mode)
        requires
            light.caps.ordered(),
        ensures
            final(self).tab == old(self).tab,
            ({
                let shown = shown_by(old(self).touched, *light);
                let before = old(self).touched;
                match slider {
                    Slider::CctTemp => {
                        let held = clamped(
                            value as int,
                            light.caps.cct_min@,
                            light.caps.cct_max@,
                        );
                        &&& final(self).touched == (Known {
                            cct_temp: Some(held as i32),
                            ..before
                        })
                        &&& r == slider_cct(held, shown.cct_bri as int)
                    },
                    Slider::CctBri => {
                        &&& final(self).touched == (Known { cct_bri: Some(value), ..before })
                        &&& r == slider_cct(shown.cct_temp as int, value as int)
                    },
                    Slider::HsiHue => {
                        &&& final(self).touched == (Known { hsi_hue: Some(value), ..before })
                        &&& r == slider_hsi(
                            value as int,
                            shown.hsi_sat as int,
                            shown.hsi_bri as int,
                        )
                    },
                    Slider::HsiSat => {
                        &&& final(self).touched == (Known { hsi_sat: Some(value), ..before })
                        &&& r == slider_hsi(
                            shown.hsi_hue as int,
                            value as int,
                            shown.hsi_bri as int,
                        )
                    },
                    Slider::HsiBri => {
                        &&& final(self).touched == (Known { hsi_bri: Some(value), ..before })
                        &&& r == slider_hsi(
                            shown.hsi_hue as int,
                            shown.hsi_sat as int,
                            value as int,
                        )
                    },
                }
            }),
    {
        let shown = self.shown(light);
        match slider {
            Slider::CctTemp => {
                let min: i32 = light.caps.cct_min.get() as i32;
                let max: i32 = light.caps.cct_max.get() as i32;
                let held: i32 = clamp(value, min, max);
                self.touched.cct_temp = Some(held);
                cct_mode(held, shown.cct_bri)
            },
            Slider::CctBri => {
                self.touched.cct_bri = Some(value);
                cct_mode(shown.cct_temp, value)
            },
            Slider::HsiHue => {
                self.touched.hsi_hue = Some(value);
                hsi_mode(value, shown.hsi_sat, shown.hsi_bri)
            },
            Slider::HsiSat => {
                self.touched.hsi_sat = Some(value);
                hsi_mode(shown.hsi_hue, value, shown.hsi_bri)
            },
            Slider::HsiBri => {
                self.touched.hsi_bri = Some(value);
                hsi_mode(shown.hsi_hue, shown.hsi_sat, value)
            },
        }
    }
}

/// A field that the user has not touched shows what the light holds, the temperature
/// within the light's limits: a change of the light shows in it, whatever was there
/// before. A touched one shows what the user chose, whatever the light does.
pub proof fn untouched_fields_follow_the_light(touched: Known, light: LightSnapshot)
    requires
        light.caps.ordered(),
    ensures
        ({
            let shown = shown_by(touched, light);
            let held = |temp: int| clamped(temp, light.caps.cct_min@, light.caps.cct_max@);
            &&& match current_mode(light) {
                Some(Mode::Cct { temp, bri }) => {
                    &&& touched.cct_temp is None ==> shown.cct_temp == held(temp@)
                    &&& touched.cct_bri is None ==> shown.cct_bri == bri@
                },
                Some(Mode::Hsi { hue, sat, bri }) => {
                    &&& touched.hsi_hue is None ==> shown.hsi_hue == hue@
                    &&& touched.hsi_sat is None ==> shown.hsi_sat == sat@
                    &&& touched.hsi_bri is None ==> shown.hsi_bri == bri@
                },
                _ => true,
            }
            &&& touched.cct_temp matches Some(temp) ==> shown.cct_temp == held(temp as int)
            &&& touched.cct_bri matches Some(bri) ==> shown.cct_bri == bri
            &&& touched.hsi_hue matches Some(hue) ==> shown.hsi_hue == hue
            &&& touched.hsi_sat matches Some(sat) ==> shown.hsi_sat == sat
            &&& touched.hsi_bri matches Some(bri) ==> shown.hsi_bri == bri
        }),
{
}

/// The lights that are selected.
pub open spec fn chosen(lights: Seq<LightSnapshot>, selection: Seq<LightId>, n: int) -> Seq<
    LightSnapshot,
>
    decreases n,
{
    if n <= 0 {
        Seq::empty()
    } else {
        let head = chosen(lights, selection, n - 1);
        if leased_by(selection, lights[n - 1].id@) {
            head.push(lights[n - 1])
        } else {
            head
        }
    }
}

/// The highest of the lights' lowest temperatures, or a number where there are no
/// lights.
pub open spec fn highest_min(lights: Seq<LightSnapshot>) -> Option<int>
    decreases lights.len(),
{
    if lights.len() == 0 {
        None
    } else {
        let own = lights.last().caps.cct_min@;
        match highest_min(lights.drop_last()) {
            Some(other) => Some(
                if other < own {
                    own
                } else {
                    other
                },
            ),
            None => Some(own),
        }
    }
}

/// The lowest of the lights' highest temperatures.
pub open spec fn lowest_max(lights: Seq<LightSnapshot>) -> Option<int>
    decreases lights.len(),
{
    if lights.len() == 0 {
        None
    } else {
        let own = lights.last().caps.cct_max@;
        match lowest_max(lights.drop_last()) {
            Some(other) => Some(
                if own < other {
                    own
                } else {
                    other
                },
            ),
            None => Some(own),
        }
    }
}

/// One of the lights does color.
pub open spec fn any_color(lights: Seq<LightSnapshot>) -> bool {
    exists|i: int| 0 <= i < lights.len() && (#[trigger] lights[i]).caps.rgb
}

/// What the selected lights can do together: color where one of them does it or
/// none is selected, and the temperatures that each of them has; where there are
/// none of those, all temperatures.
#[derive(Clone, Copy, Debug, PartialEq, Eq, Structural)]
pub struct Envelope {
    pub any_rgb: bool,
    pub cct_min: i32,
    pub cct_max: i32,
}

/// What lights can do together.
pub open spec fn envelope_of(lights: Seq<LightSnapshot>) -> Envelope {
    let min = match highest_min(lights) {
        Some(value) => value,
        None => 2500,
    };
    let max = match lowest_max(lights) {
        Some(value) => value,
        None => 10000,
    };
    Envelope {
        any_rgb: lights.len() == 0 || any_color(lights),
        cct_min: if min < max {
            min as i32
        } else {
            2500
        },
        cct_max: if min < max {
            max as i32
        } else {
            10000
        },
    }
}

/// Finds out what the selected lights can do together.
pub fn envelope(lights: &[LightSnapshot], selection: &Vec<LightId>) -> (r: Envelope)
    ensures
        r == envelope_of(chosen(lights@, selection@, lights@.len() as int)),
        r.cct_min < r.cct_max,
{
    let mut count: usize = 0;
    let mut any_rgb = false;
    let mut min: Option<u16> = None;
    let mut max: Option<u16> = None;
    let mut n: usize = 0;
    while n < lights.len()
        invariant
            n <= lights@.len(),
            count <= n,
            ({
                let now = chosen(lights@, selection@, n as int);
                &&& count == now.len()
                &&& any_rgb == any_color(now)
                &&& match min {
                    Some(value) => highest_min(now) == Some(value as int),
                    None => highest_min(now) is None,
                }
                &&& match max {
                    Some(value) => lowest_max(now) == Some(value as int),
                    None => lowest_max(now) is None,
                }
            }),
        decreases lights.len() - n,
    {
        let light = &lights[n];
        let ghost before = chosen(lights@, selection@, n as int);
        if has_id(selection, &light.id) {
            let low: u16 = light.caps.cct_min.get();
            let high: u16 = light.caps.cct_max.get();
            proof {
                let after = before.push(*light);
                assert(after.drop_last() =~= before);
                if any_color(before) {
                    let i = choose|i: int| 0 <= i < before.len() && (#[trigger] before[i]).caps.rgb;
                    assert(after[i].caps.rgb);
                }
                if light.caps.rgb {
                    assert(after[before.len() as int].caps.rgb);
                }
                if any_color(after) && !light.caps.rgb {
                    let i = choose|i: int| 0 <= i < after.len() && (#[trigger] after[i]).caps.rgb;
                    assert(before[i].caps.rgb);
                }
            }
            count += 1;
            any_rgb = any_rgb || light.caps.rgb;
            min = Some(
                match min {
                    Some(other) => if other < low {
                        low
                    } else {
                        other
                    },
                    None => low,
                },
            );
            max = Some(
                match max {
                    Some(other) => if high < other {
                        high
                    } else {
                        other
                    },
                    None => high,
                },
            );
        }
        n += 1;
    }
    let low: i32 = match min {
        Some(value) => value as i32,
        None => 2500,
    };
    let high: i32 = match max {
        Some(value) => value as i32,
        None => 10000,
    };
    if low < high {
        Envelope { any_rgb: count == 0 || any_rgb, cct_min: low, cct_max: high }
    } else {
        Envelope { any_rgb: count == 0 || any_rgb, cct_min: 2500, cct_max: 10000 }
    }
}

/// The values of the sliders that set all selected lights.
#[derive(Clone, Copy, Debug, PartialEq, Eq, Structural)]
pub struct Panel {
    pub tab: Tab,
    pub values: Shown,
}

/// A value that a slider can have.
pub open spec fn on_slider(slider: Slider, value: int) -> bool {
    match slider {
        Slider::CctTemp => true,
        Slider::HsiHue => 0 <= value <= 359,
        _ => 0 <= value <= 100,
    }
}

impl Panel {
    /// Every slider has a value that it can have.
    pub open spec fn wf(self) -> bool {
        &&& on_slider(Slider::CctBri, self.values.cct_bri as int)
        &&& on_slider(Slider::HsiHue, self.values.hsi_hue as int)
        &&& on_slider(Slider::HsiSat, self.values.hsi_sat as int)
        &&& on_slider(Slider::HsiBri, self.values.hsi_bri as int)
    }

    /// Starts on temperature, with values of its own.
    pub fn new() -> (r: Self)
        ensures
            r.wf(),
            r == (Panel {
                tab: Tab::Cct,
                values: Shown {
                    cct_temp: 5600,
                    cct_bri: 100,
                    hsi_hue: 240,
                    hsi_sat: 100,
                    hsi_bri: 100,
                },
            }),
    {
        Panel {
            tab: Tab::Cct,
            values: Shown {
                cct_temp: 5600,
                cct_bri: 100,
                hsi_hue: 240,
                hsi_sat: 100,
                hsi_bri: 100,
            },
        }
    }

    /// The pane that is shown: temperature where no selected light does color.
    pub fn pane(&self, envelope: &Envelope) -> (r: Tab)
        ensures
            r == if envelope.any_rgb {
                self.tab
            } else {
                Tab::Cct
            },
    {
        if envelope.any_rgb {
            self.tab
        } else {
            Tab::Cct
        }
    }

    /// The temperature that the slider shows.
    pub fn shown_temp(&self, envelope: &Envelope) -> (r: i32)
        requires
            envelope.cct_min <= envelope.cct_max,
        ensures
            r == clamped(
                self.values.cct_temp as int,
                envelope.cct_min as int,
                envelope.cct_max as int,
            ),
    {
        clamp(self.values.cct_temp, envelope.cct_min, envelope.cct_max)
    }

    /// The user moved a slider: the mode to send has its value, with those of the
    /// other sliders.
    pub fn slide(&mut self, slider: Slider, value: i32) -> (r: Mode)
        requires
            old(self).wf(),
            on_slider(slider, value as int),
        ensures
            final(self).wf(),
            final(self).tab == old(self).tab,
            ({
                let before = old(self).values;
                let after = match slider {
                    Slider::CctTemp => Shown { cct_temp: value, ..before },
                    Slider::CctBri => Shown { cct_bri: value, ..before },
                    Slider::HsiHue => Shown { hsi_hue: value, ..before },
                    Slider::HsiSat => Shown { hsi_sat: value, ..before },
                    Slider::HsiBri => Shown { hsi_bri: value, ..before },
                };
                &&& final(self).values == after
                &&& r == match slider {
                    Slider::CctTemp | Slider::CctBri => slider_cct(
                        after.cct_temp as int,
                        after.cct_bri as int,
                    ),
                    _ => slider_hsi(
                        after.hsi_hue as int,
                        after.hsi_sat as int,
                        after.hsi_bri as int,
                    ),
                }
            }),
    {
        match slider {
            Slider::CctTemp => {
                self.values.cct_temp = value;
                cct_mode(value, self.values.cct_bri)
            },
            Slider::CctBri => {
                self.values.cct_bri = value;
                cct_mode(self.values.cct_temp, value)
            },
            Slider::HsiHue => {
                self.values.hsi_hue = value;
                hsi_mode(value, self.values.hsi_sat, self.values.hsi_bri)
            },
            Slider::HsiSat => {
                self.values.hsi_sat = value;
                hsi_mode(self.values.hsi_hue, value, self.values.hsi_bri)
            },
            Slider::HsiBri => {
                self.values.hsi_bri = value;
                hsi_mode(self.values.hsi_hue, self.values.hsi_sat, value)
            },
        }
    }
}

/// The request that sets one light, without waiting for the outcome.
pub fn light_command(id: &LightId, mode: Mode) -> (r: CommandRequest)
    ensures
        r.mode == mode,
        !r.wait,
        r.selector matches Selector::Ids { ids } && ids@ == seq![*id],
{
    let mut ids: Vec<LightId> = Vec::new();
    ids.push(id.clone());
    assert(ids@ =~= seq![*id]);
    CommandRequest { selector: Selector::Ids { ids }, mode, wait: false }
}

proof fn common_limits(lights: Seq<LightSnapshot>)
    requires
        lights.len() > 0,
    ensures
        highest_min(lights) matches Some(min) && (forall|i: int|
            0 <= i < lights.len() ==> (#[trigger] lights[i]).caps.cct_min@ <= min) && (exists|i: int|
            0 <= i < lights.len() && (#[trigger] lights[i]).caps.cct_min@ == min),
        lowest_max(lights) matches Some(max) && (forall|i: int|
            0 <= i < lights.len() ==> max <= (#[trigger] lights[i]).caps.cct_max@) && (exists|i: int|
            0 <= i < lights.len() && (#[trigger] lights[i]).caps.cct_max@ == max),
    decreases lights.len(),
{
    let rest = lights.drop_last();
    let last = lights.len() - 1;
    if rest.len() == 0 {
        assert(highest_min(rest) is None);
        assert(lowest_max(rest) is None);
        assert(lights[last].caps.cct_min@ == highest_min(lights)->0);
        assert(lights[last].caps.cct_max@ == lowest_max(lights)->0);
    } else {
        common_limits(rest);
        let min = highest_min(lights)->0;
        let max = lowest_max(lights)->0;
        assert forall|i: int| 0 <= i < lights.len() implies (
        #[trigger] lights[i]).caps.cct_min@ <= min && max <= lights[i].caps.cct_max@ by {
            if i < last {
                assert(rest[i] == lights[i]);
            }
        }
        if min == highest_min(rest)->0 {
            let i = choose|i: int| 0 <= i < rest.len() && (#[trigger] rest[i]).caps.cct_min@ == min;
            assert(lights[i].caps.cct_min@ == min);
        } else {
            assert(lights[last].caps.cct_min@ == min);
        }
        if max == lowest_max(rest)->0 {
            let i = choose|i: int| 0 <= i < rest.len() && (#[trigger] rest[i]).caps.cct_max@ == max;
            assert(lights[i].caps.cct_max@ == max);
        } else {
            assert(lights[last].caps.cct_max@ == max);
        }
    }
}

/// Every light can show some of the temperatures that any other can show.
pub open spec fn have_common_temperatures(lights: Seq<LightSnapshot>) -> bool {
    forall|i: int, j: int|
        0 <= i < lights.len() && 0 <= j < lights.len() ==> (#[trigger] lights[i]).caps.cct_min@ < (
        #[trigger] lights[j]).caps.cct_max@
}

/// The controls of several lights offer the temperatures that all of them can show, and
/// no fewer. Where there are none, or no lights, they offer every temperature. They offer
/// colors where some light has them, or there is no light.
pub proof fn envelopes_suit_every_light(lights: Seq<LightSnapshot>)
    ensures
        ({
            let envelope = envelope_of(lights);
            &&& envelope.any_rgb <==> lights.len() == 0 || exists|i: int|
                0 <= i < lights.len() && (#[trigger] lights[i]).caps.rgb
            &&& lights.len() == 0 || !have_common_temperatures(lights) ==> envelope.cct_min == 2500
                && envelope.cct_max == 10000
            &&& lights.len() > 0 && have_common_temperatures(lights) ==> {
                &&& forall|i: int|
                    0 <= i < lights.len() ==> (#[trigger] lights[i]).caps.cct_min@
                        <= envelope.cct_min && envelope.cct_max <= lights[i].caps.cct_max@
                &&& exists|i: int|
                    0 <= i < lights.len() && (#[trigger] lights[i]).caps.cct_min@
                        == envelope.cct_min
                &&& exists|i: int|
                    0 <= i < lights.len() && (#[trigger] lights[i]).caps.cct_max@
                        == envelope.cct_max
            }
        }),
{
    if lights.len() > 0 {
        common_limits(lights);
        let min = highest_min(lights)->0;
        let max = lowest_max(lights)->0;
        let i = choose|i: int| 0 <= i < lights.len() && (#[trigger] lights[i]).caps.cct_min@ == min;
        let j = choose|j: int| 0 <= j < lights.len() && (#[trigger] lights[j]).caps.cct_max@ == max;
        assert(lights[i].caps.cct_min@ == min && lights[j].caps.cct_max@ == max);
        if min < max {
            assert(have_common_temperatures(lights));
        }
    }
}

/// Sliders set the value that they stand at. A temperature or a percentage beyond what a
/// light can be sent is set to the nearest that can be, and a hue goes round the circle.
pub proof fn sliders_set_what_they_show(temp: int, hue: int, sat: int, bri: int)
    ensures
        slider_cct(temp, bri) matches Mode::Cct { temp: set, bri: level } && 2500 <= set@ <= 10000
            && (2500 <= temp <= 10000 ==> set@ == temp) && (temp < 2500 ==> set@ == 2500) && (temp
            > 10000 ==> set@ == 10000) && 0 <= level@ <= 100 && (0 <= bri <= 100 ==> level@ == bri)
            && (bri < 0 ==> level@ == 0) && (bri > 100 ==> level@ == 100),
        slider_hsi(hue, sat, bri) matches Mode::Hsi { hue: angle, sat: depth, bri: level } && 0
            <= angle@ < 360 && (exists|turns: int| hue == angle@ + #[trigger] (360 * turns)) && 0
            <= depth@ <= 100 && (0 <= sat <= 100 ==> depth@ == sat) && (sat < 0 ==> depth@ == 0) && (
        sat > 100 ==> depth@ == 100) && 0 <= level@ <= 100 && (0 <= bri <= 100 ==> level@ == bri)
            && (bri < 0 ==> level@ == 0) && (bri > 100 ==> level@ == 100),
{
    let turns = hue / 360;
    assert(hue == hue % 360 + 360 * turns);
}

/// What nobody touched and the light does not tell is shown at a fixed place.
pub proof fn untold_fields_are_shown_at_their_place(light: LightSnapshot, touched: Known)
    requires
        light.caps.ordered(),
    ensures
        ({
            let shown = shown_by(touched, light);
            &&& touched.cct_temp is None && !(current_mode(light) matches Some(Mode::Cct { .. }))
                ==> (light.caps.cct_min@ <= 5600 <= light.caps.cct_max@ ==> shown.cct_temp == 5600)
                && (light.caps.cct_max@ < 5600 ==> shown.cct_temp == light.caps.cct_max@) && (5600
                < light.caps.cct_min@ ==> shown.cct_temp == light.caps.cct_min@)
            &&& touched.cct_bri is None && !(current_mode(light) matches Some(Mode::Cct { .. }))
                ==> shown.cct_bri == 100
            &&& touched.hsi_hue is None && !(current_mode(light) matches Some(Mode::Hsi { .. }))
                ==> shown.hsi_hue == 240
            &&& touched.hsi_sat is None && !(current_mode(light) matches Some(Mode::Hsi { .. }))
                ==> shown.hsi_sat == 100
            &&& touched.hsi_bri is None && !(current_mode(light) matches Some(Mode::Hsi { .. }))
                ==> shown.hsi_bri == 100
        }),
{
}

/// The lights chosen are those of the selection, in the order of the lights.
pub proof fn selections_choose_their_lights(
    lights: Seq<LightSnapshot>,
    selection: Seq<LightId>,
    n: int,
)
    requires
        0 <= n <= lights.len(),
    ensures
        chosen(lights, selection, n) == lights.take(n).filter(
            |light: LightSnapshot|
                exists|k: int| 0 <= k < selection.len() && (#[trigger] selection[k])@ == light.id@,
        ),
    decreases n,
{
    reveal(Seq::filter);
    if n > 0 {
        selections_choose_their_lights(lights, selection, n - 1);
        assert(lights.take(n).drop_last() =~= lights.take(n - 1));
    }
}

} // verus!
