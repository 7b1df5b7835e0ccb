//! File naming and the two decisions the logger takes while it talks to the
//! card: which file number a new session uses, and when to stop retrying
//! to open a file.
use vstd::prelude::*;
use vstd::string::StringSliceAdditionalSpecFns;
use crate::storage::sd_card::LogStream;
use crate::fixed_buffers::{
    name_bytes, name_new, name_push_ascii, name_push_str, FILE_NAME_CAPACITY,
};

verus! {

/// Every file number from the first to the last slot is already taken.
#[derive(Debug)]
pub struct MaxAttemptsReached;

/// The ASCII decimal digits of `n`, without leading zeros.
pub open spec fn decimal(n: nat) -> Seq<u8>
    decreases n,
{
    if n < 10 {
        seq![(48 + n) as u8]
    } else {
        decimal(n / 10).push((48 + n % 10) as u8)
    }
}

/// The ASCII digit character for `d`, which is below ten.
fn digit_char(d: u8) -> (c: char)
    requires
        d < 10,
    ensures
        (c as u32) < 128,
        c as u8 == 48 + d,
{
    match d {
        0 => '0',
        1 => '1',
        2 => '2',
        3 => '3',
        4 => '4',
        5 => '5',
        6 => '6',
        7 => '7',
        8 => '8',
        _ => '9',
    }
}

/// Appends the decimal digits of `n` to `name`. Succeeds, and appends them
/// all, exactly when they fit; on failure what is left in `name` is not
/// specified.
fn push_decimal(name: &mut heapless::String<FILE_NAME_CAPACITY>, n: u8) -> (ok: bool)
    ensures
        ok == (name_bytes(*old(name)).len() + decimal(n as nat).len() <= FILE_NAME_CAPACITY),
        ok ==> name_bytes(*final(name)) == name_bytes(*old(name)) + decimal(n as nat),
{
    proof {
        reveal_with_fuel(decimal, 3);
    }
    let ghost start = name_bytes(*name);
    if n >= 100 {
        assert(decimal(n as nat) == seq![(48 + n / 100) as u8, (48 + (n / 10) % 10) as u8, (48 + n % 10) as u8]);
        if name_push_ascii(name, digit_char(n / 100)).is_err() {
            return false;
        }
        if name_push_ascii(name, digit_char((n / 10) % 10)).is_err() {
            return false;
        }
        if name_push_ascii(name, digit_char(n % 10)).is_err() {
            return false;
        }
        assert(name_bytes(*name) =~= start + decimal(n as nat));
    } else if n >= 10 {
        assert(decimal(n as nat) == seq![(48 + n / 10) as u8, (48 + n % 10) as u8]);
        if name_push_ascii(name, digit_char(n / 10)).is_err() {
            return false;
        }
        if name_push_ascii(name, digit_char(n % 10)).is_err() {
            return false;
        }
        assert(name_bytes(*name) =~= start + decimal(n as nat));
    } else {
        assert(decimal(n as nat) == seq![(48 + n) as u8]);
        if name_push_ascii(name, digit_char(n)).is_err() {
            return false;
        }
        assert(name_bytes(*name) =~= start + decimal(n as nat));
    }
    true
}

/// The name `prefix` followed by the decimal digits of `n`, when it fits
/// in a file name; `None` when it is longer than `FILE_NAME_CAPACITY`
/// bytes.
pub fn numbered_file_name(prefix: &str, n: u8) -> (name: Option<heapless::String<FILE_NAME_CAPACITY>>)
    ensures
        name is Some <==> prefix.spec_bytes().len() + decimal(n as nat).len() <= FILE_NAME_CAPACITY,
        name matches Some(s) ==> name_bytes(s) == prefix.spec_bytes() + decimal(n as nat),
{
    let mut name = name_new();
    if name_push_str(&mut name, prefix).is_err() {
        return None;
    }
    assert(name_bytes(name) =~= prefix.spec_bytes());
    if push_decimal(&mut name, n) {
        Some(name)
    } else {
        None
    }
}

/// The first session number.
pub const FIRST_SLOT: u8 = 1;

/// The last session number.
pub const LAST_SLOT: u8 = 100;

/// What asking the card for one file found.
#[derive(Clone, Copy, Debug, PartialEq, Eq, Structural)]
pub enum SlotProbe {
    /// The file exists.
    Taken,
    /// The card reported that no file has that name.
    Free,
    /// The card failed to answer.
    Failed,
}

/// Where the search for an unused session number stands.
#[derive(Clone, Copy, Debug, PartialEq, Eq, Structural)]
pub enum SlotSearch {
    /// Ask the card for the file that this stream has in this session.
    Probe(u8, LogStream),
    /// No file of this session exists: the new session uses its number.
    Found(u8),
    /// Every number from `FIRST_SLOT` to `LAST_SLOT` has some file of its
    /// session on the card, or the card did not answer for one.
    Exhausted,
}

/// Position of a stream in the order its files are probed.
pub open spec fn stream_order(s: LogStream) -> int {
    match s {
        LogStream::Imu => 0,
        LogStream::Baro => 1,
        LogStream::Gps => 2,
        LogStream::Mag => 3,
    }
}

/// The stream probed after `s`; `None` after the last one.
pub open spec fn next_stream(s: LogStream) -> Option<LogStream> {
    match s {
        LogStream::Imu => Some(LogStream::Baro),
        LogStream::Baro => Some(LogStream::Gps),
        LogStream::Gps => Some(LogStream::Mag),
        LogStream::Mag => None,
    }
}

/// The step after the card answered `probe` for the file of `stream` in
/// session `n`.
pub open spec fn slot_step(n: u8, stream: LogStream, probe: SlotProbe) -> SlotSearch {
    if probe == SlotProbe::Free {
        match next_stream(stream) {
            Some(t) => SlotSearch::Probe(n, t),
            None => SlotSearch::Found(n),
        }
    } else if n >= LAST_SLOT {
        SlotSearch::Exhausted
    } else {
        SlotSearch::Probe((n + 1) as u8, LogStream::Imu)
    }
}

/// Decides what follows the card's answer for the file of `stream` in
/// session `n`: when that file is absent, the next stream's file of the
/// same session, and the session itself once all four are absent; when
/// the file exists or the card fails, the next session, until the last one
/// has been tried.
pub fn next_slot_step(n: u8, stream: LogStream, probe: SlotProbe) -> (next: SlotSearch)
    requires
        FIRST_SLOT <= n <= LAST_SLOT,
    ensures
        next == slot_step(n, stream, probe),
{
    match probe {
        SlotProbe::Free => match stream {
            LogStream::Imu => SlotSearch::Probe(n, LogStream::Baro),
            LogStream::Baro => SlotSearch::Probe(n, LogStream::Gps),
            LogStream::Gps => SlotSearch::Probe(n, LogStream::Mag),
            LogStream::Mag => SlotSearch::Found(n),
        },
        _ => {
            if n >= LAST_SLOT {
                SlotSearch::Exhausted
            } else {
                SlotSearch::Probe(n + 1, LogStream::Imu)
            }
        },
    }
}

/// True when the card reported every file of session `n` absent, where
/// `answers(n, s)` is its answer for `session_file_name(s, n)`.
pub open spec fn session_unused(answers: spec_fn(u8, LogStream) -> SlotProbe, n: u8) -> bool {
    &&& answers(n, LogStream::Imu) == SlotProbe::Free
    &&& answers(n, LogStream::Baro) == SlotProbe::Free
    &&& answers(n, LogStream::Gps) == SlotProbe::Free
    &&& answers(n, LogStream::Mag) == SlotProbe::Free
}

/// The search run from the file of `stream` in session `n` on, where the
/// card answers `answers(k, s)` for the file of stream `s` in session `k`.
pub open spec fn slot_search_from(answers: spec_fn(u8, LogStream) -> SlotProbe, n: u8, stream: LogStream) -> SlotSearch
    decreases LAST_SLOT - n, 3 - stream_order(stream),
{
    if FIRST_SLOT <= n <= LAST_SLOT {
        match slot_step(n, stream, answers(n, stream)) {
            SlotSearch::Probe(m, t) => slot_search_from(answers, m, t),
            other => other,
        }
    } else {
        SlotSearch::Exhausted
    }
}

proof fn lemma_slot_search_from(answers: spec_fn(u8, LogStream) -> SlotProbe, n: u8, stream: LogStream)
    requires
        FIRST_SLOT <= n <= LAST_SLOT,
        forall|t: LogStream| stream_order(t) < stream_order(stream) ==> answers(n, t) == SlotProbe::Free,
    ensures
        match slot_search_from(answers, n, stream) {
            SlotSearch::Found(k) => n <= k <= LAST_SLOT && session_unused(answers, k)
                && forall|j: u8| n <= j < k ==> !session_unused(answers, j),
            SlotSearch::Exhausted => forall|j: u8| n <= j <= LAST_SLOT ==> !session_unused(answers, j),
            SlotSearch::Probe(_, _) => false,
        },
    decreases LAST_SLOT - n, 3 - stream_order(stream),
{
    if answers(n, stream) == SlotProbe::Free {
        match next_stream(stream) {
            Some(t) => {
                assert forall|u: LogStream| stream_order(u) < stream_order(t) implies answers(n, u) == SlotProbe::Free by {
                    if u != stream {
                        assert(stream_order(u) < stream_order(stream));
                    }
                }
                lemma_slot_search_from(answers, n, t);
            },
            None => {
                assert(stream == LogStream::Mag);
                assert(stream_order(LogStream::Imu) < stream_order(stream));
                assert(stream_order(LogStream::Baro) < stream_order(stream));
                assert(stream_order(LogStream::Gps) < stream_order(stream));
                assert(answers(n, LogStream::Imu) == SlotProbe::Free);
                assert(answers(n, LogStream::Baro) == SlotProbe::Free);
                assert(answers(n, LogStream::Gps) == SlotProbe::Free);
            },
        }
    } else {
        assert(!session_unused(answers, n));
        if n < LAST_SLOT {
            lemma_slot_search_from(answers, (n + 1) as u8, LogStream::Imu);
        }
    }
}

/// The search for a new session's number, asking the card in turn for each
/// file `session_file_name(s, k)` that session `k` would write, ends on the
/// smallest number from `FIRST_SLOT` to `LAST_SLOT` for which the card
/// reported all four files absent, and reports exhaustion only when every
/// number has a file that the card reported present or failed to answer
/// for. So, as far as the card's answers go, a new session writes only to
/// files that did not exist, and takes the next number after the sessions
/// on the card.
pub proof fn lemma_slot_search_finds_first_unused(answers: spec_fn(u8, LogStream) -> SlotProbe)
    ensures
        match slot_search_from(answers, FIRST_SLOT, LogStream::Imu) {
            SlotSearch::Found(k) => FIRST_SLOT <= k <= LAST_SLOT && session_unused(answers, k)
                && forall|j: u8| FIRST_SLOT <= j < k ==> !session_unused(answers, j),
            SlotSearch::Exhausted => forall|j: u8| FIRST_SLOT <= j <= LAST_SLOT ==> !session_unused(answers, j),
            SlotSearch::Probe(_, _) => false,
        },
{
    lemma_slot_search_from(answers, FIRST_SLOT, LogStream::Imu);
}

/// How many times a file is tried before the last error is given back.
pub const MAX_OPEN_ATTEMPTS: u8 = 5;

/// What follows a failed attempt to open a file.
#[derive(Clone, Copy, Debug, PartialEq, Eq, Structural)]
pub enum OpenRetry {
    /// Try again; this is the number of the next attempt.
    Retry(u8),
    /// Stop and hand back the error of this attempt.
    GiveUp,
}

/// The step after failed attempt number `attempt`.
pub open spec fn retry_step(attempt: u8) -> OpenRetry {
    if attempt >= MAX_OPEN_ATTEMPTS {
        OpenRetry::GiveUp
    } else {
        OpenRetry::Retry((attempt + 1) as u8)
    }
}

/// Decides what follows failed attempt number `attempt` to open a file:
/// another attempt, until `MAX_OPEN_ATTEMPTS` of them have failed.
pub fn after_failed_open(attempt: u8) -> (next: OpenRetry)
    requires
        1 <= attempt <= MAX_OPEN_ATTEMPTS,
    ensures
        next == retry_step(attempt),
{
    if attempt >= MAX_OPEN_ATTEMPTS {
        OpenRetry::GiveUp
    } else {
        OpenRetry::Retry(attempt + 1)
    }
}

/// The number of the attempt after which a file that never opens is given
/// up, counting from attempt `attempt`.
pub open spec fn last_attempt_from(attempt: u8) -> u8
    decreases MAX_OPEN_ATTEMPTS - attempt,
{
    if 1 <= attempt < MAX_OPEN_ATTEMPTS {
        match retry_step(attempt) {
            OpenRetry::Retry(next) => last_attempt_from(next),
            OpenRetry::GiveUp => attempt,
        }
    } else {
        attempt
    }
}

/// A file that never opens is tried exactly `MAX_OPEN_ATTEMPTS` times, each
/// attempt numbered one more than the last, before its error is handed back.
pub proof fn lemma_open_gives_up_after_max_attempts()
    ensures
        last_attempt_from(1) == MAX_OPEN_ATTEMPTS,
        forall|a: u8| 1 <= a < MAX_OPEN_ATTEMPTS ==> retry_step(a) == OpenRetry::Retry((a + 1) as u8),
        retry_step(MAX_OPEN_ATTEMPTS) == OpenRetry::GiveUp,
{
    reveal_with_fuel(last_attempt_from, 6);
}

} // verus!
