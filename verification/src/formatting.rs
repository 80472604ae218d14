//! Output formats and the unit in which a value is best shown.

use crate::double::{lemma_whole_value, unit, Double};
use vstd::arithmetic::power2::{lemma2_to64, lemma2_to64_rest};
use vstd::prelude::*;

verus! {

/// How a value is written out.
#[derive(Clone, Copy, Debug, PartialEq, Eq, Structural)]
pub enum Format {
    /// A plain number.
    Float,
    /// A hexadecimal integer.
    Hex,
    /// A duration, given in nanoseconds.
    Time,
    /// A size, given in bytes.
    Bytes,
}

/// The bytes of a kibibyte.
pub const KIB: u64 = 1024;

/// The bytes of a mebibyte.
pub const MIB: u64 = 1_048_576;

/// The bytes of a gibibyte.
pub const GIB: u64 = 1_073_741_824;

/// The bytes of a tebibyte.
pub const TIB: u64 = 1_099_511_627_776;

/// The bytes of a pebibyte.
pub const PIB: u64 = 1_125_899_906_842_624;

/// The double 1000.
pub open spec fn thousand() -> Double {
    Double { bits: 0x408F_4000_0000_0000 }
}

/// The double 1,000,000.
pub open spec fn million() -> Double {
    Double { bits: 0x412E_8480_0000_0000 }
}

/// The double 1,000,000,000.
pub open spec fn billion() -> Double {
    Double { bits: 0x41CD_CD65_0000_0000 }
}

/// The double 60,000,000,000: the nanoseconds of a minute.
pub open spec fn minute() -> Double {
    Double { bits: 0x422B_F08E_B000_0000 }
}

/// The double 3,600,000,000,000: the nanoseconds of an hour.
pub open spec fn hour() -> Double {
    Double { bits: 0x428A_3185_C500_0000 }
}

/// The double 1024.
pub open spec fn kibi() -> Double {
    Double { bits: 0x4090_0000_0000_0000 }
}

/// The double 1024 squared.
pub open spec fn mebi() -> Double {
    Double { bits: 0x4130_0000_0000_0000 }
}

/// The double 1024 cubed.
pub open spec fn gibi() -> Double {
    Double { bits: 0x41D0_0000_0000_0000 }
}

/// The double 1024 to the fourth power.
pub open spec fn tebi() -> Double {
    Double { bits: 0x4270_0000_0000_0000 }
}

/// The double 1024 to the fifth power.
pub open spec fn pebi() -> Double {
    Double { bits: 0x4310_0000_0000_0000 }
}

/// The thresholds are the whole numbers that their names say.
pub proof fn lemma_threshold_values()
    ensures
        thousand().scaled() == 1_000 * unit(),
        million().scaled() == 1_000_000 * unit(),
        billion().scaled() == 1_000_000_000 * unit(),
        minute().scaled() == 60_000_000_000 * unit(),
        hour().scaled() == 3_600_000_000_000 * unit(),
        kibi().scaled() == KIB * unit(),
        mebi().scaled() == MIB * unit(),
        gibi().scaled() == GIB * unit(),
        tebi().scaled() == TIB * unit(),
        pebi().scaled() == PIB * unit(),
{
    lemma2_to64();
    lemma2_to64_rest();
    lemma_whole_value(thousand(), 1_000, 43);
    lemma_whole_value(million(), 1_000_000, 33);
    lemma_whole_value(billion(), 1_000_000_000, 23);
    lemma_whole_value(minute(), 60_000_000_000, 17);
    lemma_whole_value(hour(), 3_600_000_000_000, 11);
    lemma_whole_value(kibi(), KIB as int, 42);
    lemma_whole_value(mebi(), MIB as int, 32);
    lemma_whole_value(gibi(), GIB as int, 22);
    lemma_whole_value(tebi(), TIB as int, 12);
    lemma_whole_value(pebi(), PIB as int, 2);
}

/// The factor and the name of the unit in which values up to `max_value`
/// are best shown: the greatest unit of the format that `max_value`
/// reaches, and the smallest one where it reaches none. A plain number and
/// a hexadecimal integer have no unit.
pub open spec fn display_scale(max_value: Double, format: Format) -> (u64, Seq<char>) {
    match format {
        Format::Time => {
            if max_value.lt(thousand()) {
                (1, "ns"@)
            } else if max_value.lt(million()) {
                (1_000, "µs"@)
            } else if max_value.lt(billion()) {
                (1_000_000, "ms"@)
            } else {
                (1_000_000_000, "s"@)
            }
        },
        Format::Bytes => {
            if max_value.lt(kibi()) {
                (1, "B"@)
            } else if max_value.lt(mebi()) {
                (KIB, "KiB"@)
            } else if max_value.lt(gibi()) {
                (MIB, "MiB"@)
            } else if max_value.lt(tebi()) {
                (GIB, "GiB"@)
            } else if max_value.lt(pebi()) {
                (TIB, "TiB"@)
            } else {
                (PIB, "PiB"@)
            }
        },
        Format::Float => (1, ""@),
        Format::Hex => (1, ""@),
    }
}

/// Picks the unit in which values up to `max_value` are shown.
pub fn get_display_scale(max_value: Double, format: Format) -> (r: (u64, &'static str))
    ensures
        (r.0, r.1@) == display_scale(max_value, format),
{
    match format {
        Format::Time => {
            if max_value.lt(Double::from_bits(0x408F_4000_0000_0000)) {
                (1, "ns")
            } else if max_value.lt(Double::from_bits(0x412E_8480_0000_0000)) {
                (1_000, "µs")
            } else if max_value.lt(Double::from_bits(0x41CD_CD65_0000_0000)) {
                (1_000_000, "ms")
            } else {
                (1_000_000_000, "s")
            }
        },
        Format::Bytes => {
            if max_value.lt(Double::from_bits(0x4090_0000_0000_0000)) {
                (1, "B")
            } else if max_value.lt(Double::from_bits(0x4130_0000_0000_0000)) {
                (KIB, "KiB")
            } else if max_value.lt(Double::from_bits(0x41D0_0000_0000_0000)) {
                (MIB, "MiB")
            } else if max_value.lt(Double::from_bits(0x4270_0000_0000_0000)) {
                (GIB, "GiB")
            } else if max_value.lt(Double::from_bits(0x4310_0000_0000_0000)) {
                (TIB, "TiB")
            } else {
                (PIB, "PiB")
            }
        },
        Format::Float => (1, ""),
        Format::Hex => (1, ""),
    }
}

/// The unit in which a duration is written out.
#[derive(Clone, Copy, Debug, PartialEq, Eq, Structural)]
pub enum DurationUnit {
    Nanoseconds,
    Microseconds,
    Milliseconds,
    Seconds,
    /// Minutes, with the seconds that are left.
    Minutes,
    /// Hours, with the minutes and the seconds that are left.
    Hours,
}

/// The unit in which a duration of `ns` nanoseconds is written: the
/// smallest unit whose next unit the duration does not reach.
pub open spec fn duration_unit_of(ns: Double) -> DurationUnit {
    if ns.lt(thousand()) {
        DurationUnit::Nanoseconds
    } else if ns.lt(million()) {
        DurationUnit::Microseconds
    } else if ns.lt(billion()) {
        DurationUnit::Milliseconds
    } else if ns.lt(minute()) {
        DurationUnit::Seconds
    } else if ns.lt(hour()) {
        DurationUnit::Minutes
    } else {
        DurationUnit::Hours
    }
}

/// Picks the unit in which a duration is written out.
pub fn duration_unit(ns: Double) -> (unit: DurationUnit)
    ensures
        unit == duration_unit_of(ns),
{
    if ns.lt(Double::from_bits(0x408F_4000_0000_0000)) {
        DurationUnit::Nanoseconds
    } else if ns.lt(Double::from_bits(0x412E_8480_0000_0000)) {
        DurationUnit::Microseconds
    } else if ns.lt(Double::from_bits(0x41CD_CD65_0000_0000)) {
        DurationUnit::Milliseconds
    } else if ns.lt(Double::from_bits(0x422B_F08E_B000_0000)) {
        DurationUnit::Seconds
    } else if ns.lt(Double::from_bits(0x428A_3185_C500_0000)) {
        DurationUnit::Minutes
    } else {
        DurationUnit::Hours
    }
}

/// How many times a size can be divided by 1024 before it falls below
/// 1024, up to five times: 0 for bytes, 1 for kibibytes, and so on up to 5
/// for pebibytes.
pub open spec fn byte_unit_of(bytes: Double) -> int {
    if !kibi().le(bytes) {
        0
    } else if !mebi().le(bytes) {
        1
    } else if !gibi().le(bytes) {
        2
    } else if !tebi().le(bytes) {
        3
    } else if !pebi().le(bytes) {
        4
    } else {
        5
    }
}

/// Picks the unit in which a size is written out.
pub fn byte_unit(bytes: Double) -> (index: usize)
    ensures
        index == byte_unit_of(bytes),
{
    if !Double::from_bits(0x4090_0000_0000_0000).le(bytes) {
        0
    } else if !Double::from_bits(0x4130_0000_0000_0000).le(bytes) {
        1
    } else if !Double::from_bits(0x41D0_0000_0000_0000).le(bytes) {
        2
    } else if !Double::from_bits(0x4270_0000_0000_0000).le(bytes) {
        3
    } else if !Double::from_bits(0x4310_0000_0000_0000).le(bytes) {
        4
    } else {
        5
    }
}

} // verus!
