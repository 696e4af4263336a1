//! Validated numeric settings and the operating modes of a light.
use vstd::prelude::*;
use vstd::string::StringExecFns;
use crate::text::{push_signed_decimal, signed_decimal};

verus! {

/// An error caused by a numeric value outside its type's permitted range.
#[derive(Copy, Clone, PartialEq, Eq, Debug)]
pub struct RangeError {
    pub field: &'static str,
    pub value: i64,
    pub min: i64,
    pub max: i64,
}

impl RangeError {
    /// The error that a value outside `min..=max` gives for a field.
    pub open spec fn is(self, field: Seq<char>, value: int, min: int, max: int) -> bool {
        &&& self.field@ == field
        &&& self.value == value
        &&& self.min == min
        &&& self.max == max
    }

    /// The error in words.
    pub open spec fn words(self) -> Seq<char> {
        self.field@ + " value "@ + signed_decimal(self.value as int)
            + " is outside the allowed range "@ + signed_decimal(self.min as int) + "..="@
            + signed_decimal(self.max as int)
    }

    /// Describes the error in words.
    pub fn message(&self) -> (text: String)
        ensures
            text@ == self.words(),
    {
        let mut text = self.field.to_owned();
        text.append(" value ");
        push_signed_decimal(&mut text, self.value);
        text.append(" is outside the allowed range ");
        push_signed_decimal(&mut text, self.min);
        text.append("..=");
        push_signed_decimal(&mut text, self.max);
        text
    }
}

/// A validated percent value.
#[derive(Clone, Copy, PartialEq, Eq, Structural, Debug, PartialOrd, Ord, Hash)]
pub struct Percent(pub(crate) u8);

impl View for Percent {
    type V = int;

    open(crate) spec fn view(&self) -> int {
        self.0 as int
    }
}

impl Percent {
    /// A percent value lies between 0 and 100.
    #[verifier::type_invariant]
    pub open(crate) spec fn wf(self) -> bool {
        0 <= self@ <= 100
    }

    /// The percent value of a number in range.
    pub open(crate) spec fn of(n: int) -> Percent {
        Percent(n as u8)
    }

    /// Constructs a value after validating its range.
    pub fn new(value: u8) -> (r: Result<Self, RangeError>)
        ensures
            match r {
                Ok(v) => v == Self::of(value as int) && v@ == value && value <= 100,
                Err(e) => !(value <= 100) && e.is("percent"@, value as int, 0, 100),
            },
    {
        Self::try_from(value as u16)
    }

    /// Constructs a value from a wider integer after validating its range.
    pub fn try_from(value: u16) -> (r: Result<Self, RangeError>)
        ensures
            match r {
                Ok(v) => v == Self::of(value as int) && v@ == value && value <= 100,
                Err(e) => !(value <= 100) && e.is("percent"@, value as int, 0, 100),
            },
    {
        if value > 100 {
            Err(RangeError { field: "percent", value: value as i64, min: 0, max: 100 })
        } else {
            Ok(Percent(value as u8))
        }
    }

    /// Returns the underlying numeric value.
    pub fn get(self) -> (value: u8)
        ensures
            value == self@,
            0 <= value <= 100,
    {
        proof {
            use_type_invariant(&self);
        }
        self.0
    }
}

/// A validated hue value.
#[derive(Clone, Copy, PartialEq, Eq, Structural, Debug)]
pub struct Hue(pub(crate) u16);

impl View for Hue {
    type V = int;

    open(crate) spec fn view(&self) -> int {
        self.0 as int
    }
}

impl Hue {
    /// A hue value lies between 0 and 359.
    #[verifier::type_invariant]
    pub open(crate) spec fn wf(self) -> bool {
        0 <= self@ <= 359
    }

    /// The hue value of a number in range.
    pub open(crate) spec fn of(n: int) -> Hue {
        Hue(n as u16)
    }

    /// Constructs a value after validating its range.
    pub fn new(value: u16) -> (r: Result<Self, RangeError>)
        ensures
            match r {
                Ok(v) => v == Self::of(value as int) && v@ == value && value <= 359,
                Err(e) => !(value <= 359) && e.is("hue"@, value as int, 0, 359),
            },
    {
        Self::try_from(value as i32)
    }

    /// Constructs a value from a wider integer after validating its range.
    pub fn try_from(value: i32) -> (r: Result<Self, RangeError>)
        ensures
            match r {
                Ok(v) => v == Self::of(value as int) && v@ == value && 0 <= value <= 359,
                Err(e) => !(0 <= value <= 359) && e.is("hue"@, value as int, 0, 359),
            },
    {
        if value < 0 || value > 359 {
            Err(RangeError { field: "hue", value: value as i64, min: 0, max: 359 })
        } else {
            Ok(Hue(value as u16))
        }
    }

    /// Returns the underlying numeric value.
    pub fn get(self) -> (value: u16)
        ensures
            value == self@,
            0 <= value <= 359,
    {
        proof {
            use_type_invariant(&self);
        }
        self.0
    }
}

/// A validated kelvin value.
#[derive(Clone, Copy, PartialEq, Eq, Structural, Debug, PartialOrd, Ord, Hash)]
pub struct Kelvin(pub(crate) u16);

impl View for Kelvin {
    type V = int;

    open(crate) spec fn view(&self) -> int {
        self.0 as int
    }
}

impl Kelvin {
    /// A kelvin value lies between 2500 and 10000.
    #[verifier::type_invariant]
    pub open(crate) spec fn wf(self) -> bool {
        2500 <= self@ <= 10000
    }

    /// The kelvin value of a number in range.
    pub open(crate) spec fn of(n: int) -> Kelvin {
        Kelvin(n as u16)
    }

    /// Constructs a value after validating its range.
    pub fn new(value: u16) -> (r: Result<Self, RangeError>)
        ensures
            match r {
                Ok(v) => v == Self::of(value as int) && v@ == value && 2500 <= value <= 10000,
                Err(e) => !(2500 <= value <= 10000) && e.is("kelvin"@, value as int, 2500, 10000),
            },
    {
        Self::try_from(value as i32)
    }

    /// Constructs a value from a wider integer after validating its range.
    pub fn try_from(value: i32) -> (r: Result<Self, RangeError>)
        ensures
            match r {
                Ok(v) => v == Self::of(value as int) && v@ == value && 2500 <= value <= 10000,
                Err(e) => !(2500 <= value <= 10000) && e.is("kelvin"@, value as int, 2500, 10000),
            },
    {
        if value < 2500 || value > 10000 {
            Err(RangeError { field: "kelvin", value: value as i64, min: 2500, max: 10000 })
        } else {
            Ok(Kelvin(value as u16))
        }
    }

    /// Returns the underlying numeric value.
    pub fn get(self) -> (value: u16)
        ensures
            value == self@,
            2500 <= value <= 10000,
    {
        proof {
            use_type_invariant(&self);
        }
        self.0
    }
}

/// A validated scene value.
#[derive(Clone, Copy, PartialEq, Eq, Structural, Debug)]
pub struct SceneId(pub(crate) u8);

impl View for SceneId {
    type V = int;

    open(crate) spec fn view(&self) -> int {
        self.0 as int
    }
}

impl SceneId {
    /// A scene value lies between 1 and 9.
    #[verifier::type_invariant]
    pub open(crate) spec fn wf(self) -> bool {
        1 <= self@ <= 9
    }

    /// The scene value of a number in range.
    pub open(crate) spec fn of(n: int) -> SceneId {
        SceneId(n as u8)
    }

    /// Constructs a value after validating its range.
    pub fn new(value: u8) -> (r: Result<Self, RangeError>)
        ensures
            match r {
                Ok(v) => v == Self::of(value as int) && v@ == value && 1 <= value <= 9,
                Err(e) => !(1 <= value <= 9) && e.is("scene"@, value as int, 1, 9),
            },
    {
        Self::try_from(value as i32)
    }

    /// Constructs a value from a wider integer after validating its range.
    pub fn try_from(value: i32) -> (r: Result<Self, RangeError>)
        ensures
            match r {
                Ok(v) => v == Self::of(value as int) && v@ == value && 1 <= value <= 9,
                Err(e) => !(1 <= value <= 9) && e.is("scene"@, value as int, 1, 9),
            },
    {
        if value < 1 || value > 9 {
            Err(RangeError { field: "scene", value: value as i64, min: 1, max: 9 })
        } else {
            Ok(SceneId(value as u8))
        }
    }

    /// Returns the underlying numeric value.
    pub fn get(self) -> (value: u8)
        ensures
            value == self@,
            1 <= value <= 9,
    {
        proof {
            use_type_invariant(&self);
        }
        self.0
    }
}

impl Hue {
    /// Wraps any integer angle into the range 0 through 359 degrees.
    pub fn wrapping(value: i32) -> (r: Self)
        ensures
            r == Self::of(value as int % 360),
            r@ == value as int % 360,
    {
        let angle: i32 = value.checked_rem_euclid(360).unwrap();
        Hue(angle as u16)
    }
}

/// A requested operating mode for a light.
#[derive(Clone, Copy, PartialEq, Eq, Structural, Debug)]
pub enum Mode {
    Off,
    On,
    Cct { temp: Kelvin, bri: Percent },
    Hsi { hue: Hue, sat: Percent, bri: Percent },
    Scene { scene: SceneId, bri: Percent },
}

impl Mode {
    /// Every setting of the mode is in range.
    pub open spec fn wf(self) -> bool {
        match self {
            Mode::Off | Mode::On => true,
            Mode::Cct { temp, bri } => temp.wf() && bri.wf(),
            Mode::Hsi { hue, sat, bri } => hue.wf() && sat.wf() && bri.wf(),
            Mode::Scene { scene, bri } => scene.wf() && bri.wf(),
        }
    }
}

} // verus!
