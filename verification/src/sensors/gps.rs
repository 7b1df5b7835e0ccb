//! GPS receiver logic: picking the GGA sentences out of a UART burst and
//! reading a sentence's fix quality, UTC time and position fields.
//!
//! The textual numbers (seconds, coordinates, altitude) are handed over as
//! bytes; turning them into floating-point values is left to the caller.
use vstd::prelude::*;
use crate::sensors::nmea::{
    copy_range, field_or, field_or_default, find_byte, first_index_of, nmea_field, nth_field,
    parse_u8_range, parse_u8_spec,
};
use crate::telemetry::data::{fix_code, fix_from_code, is_usable_fix, GpsFix};

verus! {

/// `\n`, which ends a line.
pub const NEWLINE: u8 = 10;

/// `\r`, which may precede the `\n` of a line ending.
pub const CARRIAGE_RETURN: u8 = 13;

/// `core::str::from_utf8`: whether `bytes` are well-formed UTF-8.
#[verifier::external_body]
fn utf8_is_valid(bytes: &[u8]) -> (valid: bool)
    ensures
        valid == vstd::utf8::valid_utf8(bytes@),
{
    core::str::from_utf8(bytes).is_ok()
}

/// A line without its line ending: a `\r` that stood before the `\n`
/// goes with the ending.
pub open spec fn strip_cr(line: Seq<u8>) -> Seq<u8> {
    if line.len() > 0 && line.last() == CARRIAGE_RETURN {
        line.drop_last()
    } else {
        line
    }
}

/// True of a line that starts with `$GNGGA` or `$GPGGA`.
pub open spec fn is_gga(line: Seq<u8>) -> bool {
    &&& line.len() >= 6
    &&& line[0] == 36
    &&& line[1] == 71
    &&& (line[2] == 78 || line[2] == 80)
    &&& line[3] == 71
    &&& line[4] == 71
    &&& line[5] == 65
}

/// The GGA sentences of a text, in order: its lines, split at `\n` or
/// `\r\n` with the final line ending optional, that start with `$GNGGA`
/// or `$GPGGA`.
pub open spec fn gga_lines(s: Seq<u8>) -> Seq<Seq<u8>>
    decreases s.len(),
{
    if s.len() == 0 {
        Seq::empty()
    } else {
        let k = first_index_of(s, NEWLINE);
        if k < s.len() {
            let line = strip_cr(s.take(k as int));
            (if is_gga(line) { seq![line] } else { Seq::empty() }) + gga_lines(s.skip(k + 1 as int))
        } else {
            if is_gga(s) { seq![s] } else { Seq::empty() }
        }
    }
}

/// `$GNGGA`.
pub open spec fn gngga() -> Seq<u8> {
    seq![36u8, 71, 78, 71, 71, 65]
}

/// `$GPGGA`.
pub open spec fn gpgga() -> Seq<u8> {
    seq![36u8, 71, 80, 71, 71, 65]
}

proof fn lemma_is_gga_prefix(l: Seq<u8>)
    ensures
        is_gga(l) <==> l.len() >= 6 && (l.take(6) == gngga() || l.take(6) == gpgga()),
{
    if l.len() >= 6 {
        if is_gga(l) {
            if l[2] == 78 {
                assert(l.take(6) =~= gngga());
            } else {
                assert(l.take(6) =~= gpgga());
            }
        }
        if l.take(6) == gngga() {
            assert(l.take(6)[2] == 78);
        }
        if l.take(6) == gpgga() {
            assert(l.take(6)[2] == 80);
        }
    }
}

/// A burst is read line by line, whatever the lengths of its lines: a line
/// `l` ended by `\n` or `\r\n` contributes `l` to the GGA sentences
/// exactly when it starts with `$GNGGA` or `$GPGGA`, ahead of the sentences
/// of the rest `t` of the burst.
pub proof fn lemma_gga_lines_line_by_line(l: Seq<u8>, t: Seq<u8>, crlf: bool)
    requires
        forall|i: int| 0 <= i < l.len() ==> l[i] != NEWLINE,
        l.len() == 0 || l.last() != CARRIAGE_RETURN,
    ensures
        gga_lines(l + (if crlf { seq![CARRIAGE_RETURN, NEWLINE] } else { seq![NEWLINE] }) + t)
            == (if l.len() >= 6 && (l.take(6) == gngga() || l.take(6) == gpgga()) { seq![l] } else { Seq::<Seq<u8>>::empty() })
            + gga_lines(t),
{
    let end: Seq<u8> = if crlf { seq![CARRIAGE_RETURN, NEWLINE] } else { seq![NEWLINE] };
    let s = l + end + t;
    let k = l.len() + end.len() - 1;
    assert forall|i: int| 0 <= i < k implies s[i] != NEWLINE by {
        if i < l.len() {
            assert(s[i] == l[i]);
        } else {
            assert(s[i] == CARRIAGE_RETURN);
        }
    }
    assert(s[k] == NEWLINE);
    crate::sensors::nmea::lemma_first_index_of_unique(s, NEWLINE, k);
    if crlf {
        assert(s.take(k) =~= l.push(CARRIAGE_RETURN));
        assert(s.take(k).drop_last() =~= l);
    } else {
        assert(s.take(k) =~= l);
    }
    assert(strip_cr(s.take(k)) == l);
    assert(s.skip(k + 1) =~= t);
    lemma_is_gga_prefix(l);
}

/// The last line of a burst, with no line ending after it, is one of its
/// GGA sentences exactly when it starts with `$GNGGA` or `$GPGGA`,
/// whatever its length.
pub proof fn lemma_gga_lines_last_line(l: Seq<u8>)
    requires
        l.len() > 0,
        forall|i: int| 0 <= i < l.len() ==> l[i] != NEWLINE,
    ensures
        gga_lines(l) == if l.len() >= 6 && (l.take(6) == gngga() || l.take(6) == gpgga()) {
            seq![l]
        } else {
            Seq::<Seq<u8>>::empty()
        },
{
    crate::sensors::nmea::lemma_first_index_of_unique(l, NEWLINE, l.len() as int);
    lemma_is_gga_prefix(l);
}

/// Every sentence picked out of a burst starts with `$GNGGA` or `$GPGGA`
/// and holds no line break; an empty burst holds none.
pub proof fn lemma_gga_lines_are_gga(s: Seq<u8>)
    ensures
        s.len() == 0 ==> gga_lines(s).len() == 0,
        forall|i: int| 0 <= i < gga_lines(s).len() ==> {
            let l = #[trigger] gga_lines(s)[i];
            &&& l.len() >= 6
            &&& l.take(6) == gngga() || l.take(6) == gpgga()
            &&& forall|j: int| 0 <= j < l.len() ==> l[j] != NEWLINE
        },
    decreases s.len(),
{
    if s.len() > 0 {
        crate::sensors::nmea::lemma_first_index_of(s, NEWLINE);
        let k = first_index_of(s, NEWLINE);
        if k < s.len() {
            let line = strip_cr(s.take(k as int));
            let rest = s.skip(k + 1 as int);
            lemma_gga_lines_are_gga(rest);
            lemma_is_gga_prefix(line);
            let here: Seq<Seq<u8>> = if is_gga(line) { seq![line] } else { Seq::empty() };
            assert(gga_lines(s) == here + gga_lines(rest));
            assert forall|j: int| 0 <= j < line.len() implies line[j] != NEWLINE by {
                assert(line[j] == s[j]);
            }
            assert forall|i: int| 0 <= i < gga_lines(s).len() implies {
                let l = #[trigger] gga_lines(s)[i];
                &&& l.len() >= 6
                &&& l.take(6) == gngga() || l.take(6) == gpgga()
                &&& forall|j: int| 0 <= j < l.len() ==> l[j] != NEWLINE
            } by {
                if i < here.len() {
                    assert(gga_lines(s)[i] == line);
                } else {
                    assert(gga_lines(s)[i] == gga_lines(rest)[i - here.len()]);
                }
            }
        } else {
            lemma_is_gga_prefix(s);
        }
    }
}

/// True when `s[from..to]` starts with `$GNGGA` or `$GPGGA`.
fn is_gga_range(s: &[u8], from: usize, to: usize) -> (r: bool)
    requires
        from <= to <= s@.len(),
    ensures
        r == is_gga(s@.subrange(from as int, to as int)),
{
    if to - from < 6 {
        return false;
    }
    s[from] == 36 && s[from + 1] == 71 && (s[from + 2] == 78 || s[from + 2] == 80) && s[from + 3]
        == 71 && s[from + 4] == 71 && s[from + 5] == 65
}

/// The GGA sentences of a burst of text, as the positions of their first
/// byte and of the byte after their last, in order.
pub fn gga_sentences(burst: &[u8]) -> (spans: Vec<(usize, usize)>)
    ensures
        spans@.len() == gga_lines(burst@).len(),
        forall|i: int| 0 <= i < spans@.len() ==> {
            let (a, b) = #[trigger] spans@[i];
            &&& a <= b <= burst@.len()
            &&& burst@.subrange(a as int, b as int) == gga_lines(burst@)[i]
        },
        forall|i: int| 0 <= i < spans@.len() - 1 ==> (#[trigger] spans@[i]).1 < spans@[i + 1].0,
{
    let mut spans: Vec<(usize, usize)> = Vec::new();
    let ghost mut found: Seq<Seq<u8>> = Seq::empty();
    let mut pos: usize = 0;
    assert(burst@.skip(0) =~= burst@);
    assert(found + gga_lines(burst@.skip(0)) =~= gga_lines(burst@));
    while pos < burst.len()
        invariant
            pos <= burst@.len(),
            spans@.len() == found.len(),
            forall|i: int| 0 <= i < spans@.len() ==> {
                let (a, b) = #[trigger] spans@[i];
                &&& a <= b <= burst@.len()
                &&& burst@.subrange(a as int, b as int) == found[i]
            },
            gga_lines(burst@) == found + gga_lines(burst@.skip(pos as int)),
            forall|i: int| 0 <= i < spans@.len() - 1 ==> (#[trigger] spans@[i]).1 < spans@[i + 1].0,
            forall|i: int| 0 <= i < spans@.len() ==> (#[trigger] spans@[i]).1 <= pos,
            spans@.len() > 0 && pos < burst@.len() ==> spans@[spans@.len() - 1].1 < pos,
        decreases burst@.len() - pos,
    {
        let ghost t = burst@.skip(pos as int);
        let j = find_byte(burst, pos, NEWLINE);
        let mut end = j;
        if j < burst.len() && j > pos && burst[j - 1] == CARRIAGE_RETURN {
            end = j - 1;
        }
        proof {
            assert(t.take(j - pos) =~= burst@.subrange(pos as int, j as int));
            if j < burst@.len() {
                assert(strip_cr(t.take(j - pos)) =~= burst@.subrange(pos as int, end as int));
                assert(t.skip(j - pos + 1) =~= burst@.skip(j + 1));
            } else {
                assert(t =~= burst@.subrange(pos as int, end as int));
            }
        }
        let ghost line = burst@.subrange(pos as int, end as int);
        let ghost before = found;
        if is_gga_range(burst, pos, end) {
            spans.push((pos, end));
            proof {
                found = found.push(line);
            }
        }
        let next = if j < burst.len() { j + 1 } else { burst.len() };
        proof {
            let rest = burst@.skip(next as int);
            if j >= burst@.len() {
                assert(rest =~= Seq::<u8>::empty());
            }
            let here: Seq<Seq<u8>> = if is_gga(line) { seq![line] } else { Seq::empty() };
            assert(gga_lines(t) == here + gga_lines(rest));
            assert(found =~= before + here);
            assert(before + (here + gga_lines(rest)) =~= found + gga_lines(rest));
        }
        pos = next;
    }
    proof {
        assert(burst@.skip(pos as int) =~= Seq::<u8>::empty());
        assert(found + gga_lines(burst@.skip(pos as int)) =~= found);
    }
    spans
}

/// The GGA sentences of a burst read from the receiver: none when the
/// burst is not well-formed UTF-8, otherwise those of `gga_sentences`.
pub fn gps_burst_sentences(burst: &[u8]) -> (spans: Vec<(usize, usize)>)
    ensures
        !vstd::utf8::valid_utf8(burst@) ==> spans@.len() == 0,
        vstd::utf8::valid_utf8(burst@) ==> {
            &&& spans@.len() == gga_lines(burst@).len()
            &&& forall|i: int| 0 <= i < spans@.len() ==> {
                let (a, b) = #[trigger] spans@[i];
                &&& a <= b <= burst@.len()
                &&& burst@.subrange(a as int, b as int) == gga_lines(burst@)[i]
            }
            &&& forall|i: int| 0 <= i < spans@.len() - 1 ==> (#[trigger] spans@[i]).1 < spans@[i + 1].0
        },
{
    if utf8_is_valid(burst) {
        gga_sentences(burst)
    } else {
        Vec::new()
    }
}

/// The parts of a GGA UTC time field `HHMMSS.SS`.
pub struct UtcParts {
    pub hours: u8,
    pub minutes: u8,
    /// The text of the seconds, `SS.SS`; empty when the field is too short
    /// to hold them.
    pub seconds: Vec<u8>,
}

/// A number read from a field, or 0 when the field does not hold one.
pub open spec fn u8_or_zero(s: Seq<u8>) -> u8 {
    match parse_u8_spec(s) {
        Some(v) => v,
        None => 0,
    }
}

/// Hours of a time field: its first two bytes as a number, or 0; 0 for a
/// field shorter than six bytes.
pub open spec fn utc_hours(raw: Seq<u8>) -> u8 {
    if raw.len() >= 6 { u8_or_zero(raw.take(2)) } else { 0 }
}

/// Minutes of a time field: its third and fourth bytes as a number, or 0;
/// 0 for a field shorter than six bytes.
pub open spec fn utc_minutes(raw: Seq<u8>) -> u8 {
    if raw.len() >= 6 { u8_or_zero(raw.subrange(2, 4)) } else { 0 }
}

/// Seconds text of a time field: everything after the fourth byte; empty
/// for a field shorter than six bytes.
pub open spec fn utc_seconds(raw: Seq<u8>) -> Seq<u8> {
    if raw.len() >= 6 { raw.skip(4) } else { Seq::empty() }
}

/// Two ASCII digits read as their two-digit decimal value, leading zero or
/// not.
proof fn lemma_two_digits_read(d: Seq<u8>)
    requires
        d.len() == 2,
        48 <= d[0] <= 57,
        48 <= d[1] <= 57,
    ensures
        u8_or_zero(d) == 10 * (d[0] - 48) + (d[1] - 48),
{
    assert(d =~= seq![d[0], d[1]]);
    crate::sensors::nmea::lemma_digits_value_positional(Seq::empty(), d[0], d[1]);
    crate::sensors::nmea::lemma_parse_u8_reads_digits(d);
}

/// A time field that starts with four ASCII digits `HHMM` gives the hours
/// `HH` and the minutes `MM` as two-digit decimal numbers, leading zeros
/// included; the seconds are the text after them.
pub proof fn lemma_utc_time_reads_digits(raw: Seq<u8>)
    ensures
        raw.len() >= 6 && (forall|i: int| 0 <= i < 4 ==> 48 <= #[trigger] raw[i] <= 57) ==> {
            &&& utc_hours(raw) == 10 * (raw[0] - 48) + (raw[1] - 48)
            &&& utc_minutes(raw) == 10 * (raw[2] - 48) + (raw[3] - 48)
            &&& utc_seconds(raw) == raw.subrange(4, raw.len() as int)
        },
{
    if raw.len() >= 6 && (forall|i: int| 0 <= i < 4 ==> 48 <= #[trigger] raw[i] <= 57) {
        assert(48 <= raw[0] <= 57 && 48 <= raw[1] <= 57 && 48 <= raw[2] <= 57 && 48 <= raw[3] <= 57);
        let h = raw.take(2);
        let m = raw.subrange(2, 4);
        assert(h[0] == raw[0] && h[1] == raw[1]);
        assert(m[0] == raw[2] && m[1] == raw[3]);
        lemma_two_digits_read(h);
        lemma_two_digits_read(m);
        assert(raw.skip(4) =~= raw.subrange(4, raw.len() as int));
    }
}

/// Splits a GGA time field `HHMMSS.SS` into hours, minutes and the text of
/// the seconds. A field shorter than six bytes is corrupted and reads as
/// midnight; hours or minutes that are not numbers read as 0.
///
/// On well-formed UTF-8 text this matches slicing the field as a string at
/// byte offsets 2 and 4: the slice fails only where the bytes around the
/// offset are not ASCII, and then the number would not parse either.
pub fn parse_utc_time(raw: &[u8]) -> (t: UtcParts)
    ensures
        t.hours == utc_hours(raw@),
        t.minutes == utc_minutes(raw@),
        t.seconds@ == utc_seconds(raw@),
        raw@.len() >= 6 && (forall|i: int| 0 <= i < 4 ==> 48 <= #[trigger] raw@[i] <= 57) ==> {
            &&& t.hours == 10 * (raw@[0] - 48) + (raw@[1] - 48)
            &&& t.minutes == 10 * (raw@[2] - 48) + (raw@[3] - 48)
        },
        raw@.len() < 6 ==> t.hours == 0 && t.minutes == 0 && t.seconds@.len() == 0,
        raw@.len() >= 6 ==> t.seconds@ == raw@.subrange(4, raw@.len() as int),
        raw@.len() >= 6 ==> (parse_u8_spec(raw@.subrange(0, 2)) matches Some(h) ==> t.hours == h),
        raw@.len() >= 6 ==> (parse_u8_spec(raw@.subrange(0, 2)) is None ==> t.hours == 0),
        raw@.len() >= 6 ==> (parse_u8_spec(raw@.subrange(2, 4)) matches Some(m) ==> t.minutes == m),
        raw@.len() >= 6 ==> (parse_u8_spec(raw@.subrange(2, 4)) is None ==> t.minutes == 0),
{
    proof {
        lemma_utc_time_reads_digits(raw@);
    }
    if raw.len() >= 6 {
        let hours = match parse_u8_range(raw, 0, 2) {
            Some(v) => v,
            None => 0,
        };
        let minutes = match parse_u8_range(raw, 2, 4) {
            Some(v) => v,
            None => 0,
        };
        assert(raw@.subrange(0, 2) =~= raw@.take(2));
        assert(raw@.subrange(4, raw@.len() as int) =~= raw@.skip(4));
        UtcParts { hours, minutes, seconds: copy_range(raw, 4, raw.len()) }
    } else {
        UtcParts { hours: 0, minutes: 0, seconds: Vec::new() }
    }
}

/// `000000.00`, the time used when a sentence has no time field.
pub open spec fn default_time() -> Seq<u8> {
    seq![48u8, 48, 48, 48, 48, 48, 46, 48, 48]
}

/// `0.0`, the coordinate or altitude used when a sentence lacks the field.
pub open spec fn default_number() -> Seq<u8> {
    seq![48u8, 46, 48]
}

/// `0`, the quality code used when a sentence lacks the field.
pub open spec fn default_quality() -> Seq<u8> {
    seq![48u8]
}

/// `N`, the latitude hemisphere used when a sentence lacks the field.
pub open spec fn default_north() -> Seq<u8> {
    seq![78u8]
}

/// `E`, the longitude hemisphere used when a sentence lacks the field.
pub open spec fn default_east() -> Seq<u8> {
    seq![69u8]
}

/// The fix quality a GGA sentence reports: field 6 read as a number, with
/// a missing or unreadable field counting as code 0.
pub open spec fn gga_fix(line: Seq<u8>) -> GpsFix {
    fix_from_code(u8_or_zero(field_or(line, 6, default_quality())))
}

/// The fix quality of a GGA sentence whose field 6 is a string of ASCII
/// digits worth `v` (at most 255): the quality with code `v` when `v` is 0
/// to 8, `Unknown` above; the sentence is usable exactly when `v` is 1 to 8.
/// A sentence without a field 6 reports `NoFix`.
pub proof fn lemma_gga_fix_reads_field_six(line: Seq<u8>, d: Seq<u8>)
    ensures
        nth_field(line, 6) == Some(d) && d.len() > 0 && (forall|i: int| 0 <= i < d.len() ==> 48 <= #[trigger] d[i] <= 57)
            && crate::sensors::nmea::digits_value(d) <= 255 ==> {
            let v = crate::sensors::nmea::digits_value(d);
            &&& v <= 8 ==> fix_code(gga_fix(line)) == v
            &&& v > 8 ==> gga_fix(line) == GpsFix::Unknown
            &&& is_usable_fix(gga_fix(line)) <==> 1 <= v <= 8
        },
        nth_field(line, 6) is None ==> gga_fix(line) == GpsFix::NoFix,
{
    if nth_field(line, 6) == Some(d) && d.len() > 0 && (forall|i: int| 0 <= i < d.len() ==> 48 <= #[trigger] d[i] <= 57)
        && crate::sensors::nmea::digits_value(d) <= 255 {
        crate::sensors::nmea::lemma_parse_u8_reads_digits(d);
        crate::telemetry::data::lemma_usable_fix_codes(gga_fix(line));
    }
    if nth_field(line, 6) is None {
        reveal_with_fuel(crate::sensors::nmea::digits_value, 2);
        assert(crate::sensors::nmea::unsigned_digits(default_quality()) =~= default_quality());
        assert(default_quality().drop_last() =~= Seq::<u8>::empty());
    }
}

/// The fields of a GGA sentence that reports a usable fix.
pub struct GgaFields {
    pub fix: GpsFix,
    /// Field 1, the UTC time.
    pub time: UtcParts,
    /// Field 2, latitude as `DDMM.MMMM`.
    pub latitude: Vec<u8>,
    /// Field 3, `N` or `S`.
    pub lat_dir: Vec<u8>,
    /// Field 4, longitude as `DDDMM.MMMM`.
    pub longitude: Vec<u8>,
    /// Field 5, `E` or `W`.
    pub lon_dir: Vec<u8>,
    /// Field 9, altitude above mean sea level in metres.
    pub altitude: Vec<u8>,
}

/// Reads a GGA sentence. Sentences whose fix quality is `NoFix` or
/// `Unknown` carry no usable position and give `None`; otherwise the
/// quality, the split time and the text of the position fields, each
/// replaced by its default when the sentence is too short to hold it.
pub fn parse_gga(line: &[u8]) -> (r: Option<GgaFields>)
    ensures
        r is Some <==> is_usable_fix(gga_fix(line@)),
        r is Some <==> 1 <= fix_code(gga_fix(line@)) <= 8,
        nth_field(line@, 6) is None ==> r is None,
        nth_field(line@, 6) matches Some(d) && parse_u8_spec(d) is None ==> r is None,
        nth_field(line@, 6) matches Some(d) ==> (parse_u8_spec(d) matches Some(c) ==> {
            &&& r is Some <==> 1 <= c <= 8
            &&& r matches Some(g) ==> fix_code(g.fix) == c
        }),
        r matches Some(g) ==> {
            let time = field_or(line@, 1, seq![48u8, 48, 48, 48, 48, 48, 46, 48, 48]);
            &&& g.fix == gga_fix(line@)
            &&& g.time.hours == utc_hours(time)
            &&& g.time.minutes == utc_minutes(time)
            &&& g.time.seconds@ == utc_seconds(time)
            &&& g.latitude@ == field_or(line@, 2, seq![48u8, 46, 48])
            &&& g.lat_dir@ == field_or(line@, 3, seq![78u8])
            &&& g.longitude@ == field_or(line@, 4, seq![48u8, 46, 48])
            &&& g.lon_dir@ == field_or(line@, 5, seq![69u8])
            &&& g.altitude@ == field_or(line@, 9, seq![48u8, 46, 48])
        },
{
    let raw_fix = match nmea_field(line, 6) {
        Some((a, b)) => match parse_u8_range(line, a, b) {
            Some(v) => v,
            None => 0,
        },
        None => {
            proof {
                reveal_with_fuel(crate::sensors::nmea::digits_value, 2);
                assert(crate::sensors::nmea::unsigned_digits(default_quality()) =~= default_quality());
                assert(crate::sensors::nmea::digits_value(default_quality()) == 0) by {
                    assert(default_quality().drop_last() =~= Seq::<u8>::empty());
                }
            }
            0
        },
    };
    let fix = GpsFix::from_u8(raw_fix);
    proof {
        crate::telemetry::data::lemma_usable_fix_codes(fix);
        crate::telemetry::data::lemma_fix_from_code_roundtrip(raw_fix);
    }
    if fix == GpsFix::NoFix || fix == GpsFix::Unknown {
        return None;
    }
    let raw_time = field_or_default(line, 1, vec![48u8, 48, 48, 48, 48, 48, 46, 48, 48]);
    let time = parse_utc_time(raw_time.as_slice());
    let latitude = field_or_default(line, 2, vec![48u8, 46, 48]);
    let lat_dir = field_or_default(line, 3, vec![78u8]);
    let longitude = field_or_default(line, 4, vec![48u8, 46, 48]);
    let lon_dir = field_or_default(line, 5, vec![69u8]);
    let altitude = field_or_default(line, 9, vec![48u8, 46, 48]);
    Some(GgaFields { fix, time, latitude, lat_dir, longitude, lon_dir, altitude })
}

/// True of the hemisphere fields `S` and `W`, whose coordinates are
/// negative.
pub open spec fn is_negative_hemisphere_spec(dir: Seq<u8>) -> bool {
    dir == seq![83u8] || dir == seq![87u8]
}

/// Whether a hemisphere field makes its coordinate negative: `S` and `W`
/// do, anything else does not.
pub fn is_negative_hemisphere(dir: &[u8]) -> (neg: bool)
    ensures
        neg == is_negative_hemisphere_spec(dir@),
        neg <==> (dir@ == seq![83u8] || dir@ == seq![87u8]),
{
    if dir.len() == 1 && (dir[0] == 83 || dir[0] == 87) {
        assert(dir@ =~= seq![dir[0]]);
        true
    } else {
        false
    }
}

} // verus!
