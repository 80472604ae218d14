//! The units in which samples are given.

use crate::formatting::{Format, GIB, KIB, MIB, PIB, TIB};
use vstd::prelude::*;

verus! {

/// A unit of time or of size.
#[derive(Clone, Copy, Debug, PartialEq, Eq, Structural)]
pub enum Unit {
    Nanoseconds,
    Microseconds,
    Milliseconds,
    Seconds,
    Bytes,
    Kilobytes,
    Megabytes,
    Gigabytes,
    Terabytes,
    Petabytes,
    Kibibytes,
    Mebibytes,
    Gibibytes,
    Tebibytes,
    Pebibytes,
}

impl Unit {
    /// Whether the unit measures time.
    pub open spec fn is_time(&self) -> bool {
        matches!(self, Unit::Nanoseconds | Unit::Microseconds | Unit::Milliseconds | Unit::Seconds)
    }

    /// How many base units one unit holds. The base unit of time is the
    /// nanosecond, the base unit of size the byte.
    pub open spec fn spec_scale(&self) -> u64 {
        match self {
            Unit::Nanoseconds => 1,
            Unit::Microseconds => 1_000,
            Unit::Milliseconds => 1_000_000,
            Unit::Seconds => 1_000_000_000,
            Unit::Bytes => 1,
            Unit::Kilobytes => 1_000,
            Unit::Megabytes => 1_000_000,
            Unit::Gigabytes => 1_000_000_000,
            Unit::Terabytes => 1_000_000_000_000,
            Unit::Petabytes => 1_000_000_000_000_000,
            Unit::Kibibytes => KIB,
            Unit::Mebibytes => MIB,
            Unit::Gibibytes => GIB,
            Unit::Tebibytes => TIB,
            Unit::Pebibytes => PIB,
        }
    }

    /// The factor that turns a value in this unit into base units.
    #[verifier::when_used_as_spec(spec_scale)]
    pub fn scale(&self) -> (factor: u64)
        ensures
            factor == self.spec_scale(),
            0 < factor < 0x20_0000_0000_0000,
    {
        match self {
            Unit::Nanoseconds => 1,
            Unit::Microseconds => 1_000,
            Unit::Milliseconds => 1_000_000,
            Unit::Seconds => 1_000_000_000,
            Unit::Bytes => 1,
            Unit::Kilobytes => 1_000,
            Unit::Megabytes => 1_000_000,
            Unit::Gigabytes => 1_000_000_000,
            Unit::Terabytes => 1_000_000_000_000,
            Unit::Petabytes => 1_000_000_000_000_000,
            Unit::Kibibytes => KIB,
            Unit::Mebibytes => MIB,
            Unit::Gibibytes => GIB,
            Unit::Tebibytes => TIB,
            Unit::Pebibytes => PIB,
        }
    }

    /// The format that suits the unit: durations for units of time, sizes
    /// for the others.
    pub fn default_format(&self) -> (format: Format)
        ensures
            format == if self.is_time() {
                Format::Time
            } else {
                Format::Bytes
            },
    {
        match self {
            Unit::Nanoseconds | Unit::Microseconds | Unit::Milliseconds | Unit::Seconds => {
                Format::Time
            },
            _ => Format::Bytes,
        }
    }
}

} // verus!
