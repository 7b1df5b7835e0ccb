use vstd::prelude::*;

verus! {

/// Quality of a GPS position fix, as reported in field 6 of a GGA sentence.
#[derive(Clone, Copy, Debug, PartialEq, Eq, Structural)]
pub enum GpsFix {
    NoFix,
    /// Standard GPS fix.
    Standard,
    /// Differential GPS (more accurate).
    Dgps,
    /// Precise Positioning Service.
    Pps,
    /// Real-Time Kinematic, integer solution (highest accuracy).
    RtkInteger,
    RtkFloat,
    Estimated,
    Manual,
    Simulation,
    /// Safety fallback for corrupted data.
    Unknown,
}

/// The numeric code of a fix quality: the GGA code for the nine known
/// qualities, and 9 for `Unknown`.
pub open spec fn fix_code(f: GpsFix) -> int {
    match f {
        GpsFix::NoFix => 0,
        GpsFix::Standard => 1,
        GpsFix::Dgps => 2,
        GpsFix::Pps => 3,
        GpsFix::RtkInteger => 4,
        GpsFix::RtkFloat => 5,
        GpsFix::Estimated => 6,
        GpsFix::Manual => 7,
        GpsFix::Simulation => 8,
        GpsFix::Unknown => 9,
    }
}

/// True of the qualities under which a position is usable and gets logged.
pub open spec fn is_usable_fix(f: GpsFix) -> bool {
    f != GpsFix::NoFix && f != GpsFix::Unknown
}

/// The fix quality that a raw GGA quality code stands for.
pub open spec fn fix_from_code(val: u8) -> GpsFix {
    if val == 0 {
        GpsFix::NoFix
    } else if val == 1 {
        GpsFix::Standard
    } else if val == 2 {
        GpsFix::Dgps
    } else if val == 3 {
        GpsFix::Pps
    } else if val == 4 {
        GpsFix::RtkInteger
    } else if val == 5 {
        GpsFix::RtkFloat
    } else if val == 6 {
        GpsFix::Estimated
    } else if val == 7 {
        GpsFix::Manual
    } else if val == 8 {
        GpsFix::Simulation
    } else {
        GpsFix::Unknown
    }
}

impl GpsFix {
    /// Converts the raw GGA quality code into a fix quality: codes 0 to 8
    /// name their quality, every other code is `Unknown`.
    pub fn from_u8(val: u8) -> (fix: Self)
        ensures
            fix == fix_from_code(val),
            val <= 8 ==> fix_code(fix) == val,
            val > 8 ==> fix == GpsFix::Unknown,
    {
        match val {
            0 => GpsFix::NoFix,
            1 => GpsFix::Standard,
            2 => GpsFix::Dgps,
            3 => GpsFix::Pps,
            4 => GpsFix::RtkInteger,
            5 => GpsFix::RtkFloat,
            6 => GpsFix::Estimated,
            7 => GpsFix::Manual,
            8 => GpsFix::Simulation,
            _ => GpsFix::Unknown,
        }
    }
}

/// The qualities under which a position is usable are exactly those with
/// the codes 1 to 8: only `NoFix` (code 0) and `Unknown` (code 9) are not.
pub proof fn lemma_usable_fix_codes(f: GpsFix)
    ensures
        is_usable_fix(f) <==> 1 <= fix_code(f) <= 8,
{
}

/// Reading a code back: a code from 0 to 8 names the quality with that
/// code, and every larger code names `Unknown`.
pub proof fn lemma_fix_from_code_roundtrip(c: u8)
    ensures
        c <= 8 ==> fix_code(fix_from_code(c)) == c,
        c > 8 ==> fix_from_code(c) == GpsFix::Unknown,
{
}

} // verus!
