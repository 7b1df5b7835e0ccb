//! Buffered binary logging: encoded records are gathered in a RAM block and
//! written to the card one block at a time.
use vstd::prelude::*;
use vstd::string::StringSliceAdditionalSpecFns;
use crate::fixed_buffers::{
    block_as_slice, block_bytes, block_extend, block_new, name_as_str, name_bytes,
    FILE_NAME_CAPACITY, LOG_BLOCK_CAPACITY,
};
use crate::storage::sd_card_utils::{decimal, numbered_file_name};

verus! {

/// What logging one record does to a block that holds `block`: the block
/// written out first, if any, and what the block holds afterwards.
///
/// A record that does not fit behind the current contents sends the block
/// out and starts a fresh one; a record longer than a whole block is
/// dropped after that.
pub open spec fn log_step(block: Seq<u8>, record: Seq<u8>) -> (Option<Seq<u8>>, Seq<u8>) {
    if block.len() + record.len() > LOG_BLOCK_CAPACITY {
        (Some(block), if record.len() <= LOG_BLOCK_CAPACITY { record } else { Seq::empty() })
    } else {
        (None, block + record)
    }
}

/// A RAM block of at most `LOG_BLOCK_CAPACITY` bytes that gathers encoded
/// records before they go to a file.
pub struct LogBuffer {
    block: heapless::Vec<u8, LOG_BLOCK_CAPACITY>,
}

impl View for LogBuffer {
    type V = Seq<u8>;

    closed spec fn view(&self) -> Seq<u8> {
        block_bytes(self.block)
    }
}

impl LogBuffer {
    #[verifier::type_invariant]
    closed spec fn fits(self) -> bool {
        block_bytes(self.block).len() <= LOG_BLOCK_CAPACITY
    }

    /// An empty buffer.
    pub fn new() -> (b: Self)
        ensures
            b@ == Seq::<u8>::empty(),
    {
        LogBuffer { block: block_new() }
    }

    /// Number of bytes buffered.
    pub fn len(&self) -> (n: usize)
        ensures
            n == self@.len(),
            n <= LOG_BLOCK_CAPACITY,
    {
        proof { use_type_invariant(self); }
        block_as_slice(&self.block).len()
    }

    /// The buffered bytes.
    pub fn as_slice(&self) -> (s: &[u8])
        ensures
            s@ == self@,
    {
        block_as_slice(&self.block)
    }

    /// Logs one encoded record. When it does not fit behind what is
    /// buffered, the full block is handed back to be written out and the
    /// buffer starts over; the record is then appended, unless it is longer
    /// than a whole block.
    pub fn push_record(&mut self, record: &[u8]) -> (flushed: Option<heapless::Vec<u8, LOG_BLOCK_CAPACITY>>)
        ensures
            final(self)@ == log_step(old(self)@, record@).1,
            match flushed {
                Some(b) => log_step(old(self)@, record@).0 == Some(block_bytes(b)),
                None => log_step(old(self)@, record@).0 is None,
            },
    {
        proof { use_type_invariant(&*self); }
        let len = block_as_slice(&self.block).len();
        let mut block = block_new();
        core::mem::swap(&mut self.block, &mut block);
        if record.len() > LOG_BLOCK_CAPACITY - len {
            let mut fresh = block_new();
            let _ = block_extend(&mut fresh, record);
            self.block = fresh;
            Some(block)
        } else {
            let _ = block_extend(&mut block, record);
            self.block = block;
            None
        }
    }
}

/// Logging a record loses nothing: what is written out, followed by what
/// stays buffered, is what was buffered followed by the record, for every
/// record no longer than a block; and the buffer never outgrows a block.
pub proof fn lemma_log_step_lossless(block: Seq<u8>, record: Seq<u8>)
    requires
        block.len() <= LOG_BLOCK_CAPACITY,
        record.len() <= LOG_BLOCK_CAPACITY,
    ensures
        ({
            let (out, rest) = log_step(block, record);
            &&& rest.len() <= LOG_BLOCK_CAPACITY
            &&& match out {
                Some(b) => b + rest == block + record,
                None => rest == block + record,
            }
        }),
{
}

/// Logging `records` one after another into an empty buffer: the blocks
/// written out, in order, and what stays buffered at the end.
pub open spec fn log_run(records: Seq<Seq<u8>>) -> (Seq<Seq<u8>>, Seq<u8>)
    decreases records.len(),
{
    if records.len() == 0 {
        (Seq::empty(), Seq::empty())
    } else {
        let (written, block) = log_run(records.drop_last());
        let (out, rest) = log_step(block, records.last());
        (
            match out {
                Some(b) => written.push(b),
                None => written,
            },
            rest,
        )
    }
}

/// Buffered logging is lossless and keeps the order: for any stream of
/// records no longer than a block each, the blocks written out followed by
/// what stays buffered are exactly the records laid end to end; no block
/// written out, and never the buffer, holds more than `LOG_BLOCK_CAPACITY`
/// bytes.
pub proof fn lemma_log_run_lossless(records: Seq<Seq<u8>>)
    requires
        forall|i: int| 0 <= i < records.len() ==> (#[trigger] records[i]).len() <= LOG_BLOCK_CAPACITY,
    ensures
        ({
            let (written, block) = log_run(records);
            &&& written.flatten_alt() + block == records.flatten_alt()
            &&& block.len() <= LOG_BLOCK_CAPACITY
            &&& forall|i: int| 0 <= i < written.len() ==> (#[trigger] written[i]).len() <= LOG_BLOCK_CAPACITY
        }),
    decreases records.len(),
{
    if records.len() == 0 {
        assert(log_run(records).0.flatten_alt() + log_run(records).1 =~= records.flatten_alt());
    } else {
        let prev = records.drop_last();
        assert forall|i: int| 0 <= i < prev.len() implies (#[trigger] prev[i]).len() <= LOG_BLOCK_CAPACITY by {
            assert(prev[i] == records[i]);
        }
        lemma_log_run_lossless(prev);
        let (written, block) = log_run(prev);
        let rec = records.last();
        assert(rec == records[records.len() - 1]);
        lemma_log_step_lossless(block, rec);
        let (out, rest) = log_step(block, rec);
        match out {
            Some(b) => {
                let w2 = written.push(b);
                assert(w2.drop_last() =~= written);
                assert(w2.flatten_alt() == written.flatten_alt() + b);
                assert(w2.flatten_alt() + rest =~= records.flatten_alt());
                assert forall|i: int| 0 <= i < w2.len() implies (#[trigger] w2[i]).len() <= LOG_BLOCK_CAPACITY by {
                    if i < written.len() {
                        assert(w2[i] == written[i]);
                    }
                }
            },
            None => {
                assert(written.flatten_alt() + rest =~= records.flatten_alt());
            },
        }
    }
}

/// The positions in `records` where the blocks written out by `log_run`
/// start, followed by the position where what stays buffered starts.
pub open spec fn log_run_cuts(records: Seq<Seq<u8>>) -> Seq<nat>
    decreases records.len(),
{
    if records.len() == 0 {
        seq![0nat]
    } else {
        let cuts = log_run_cuts(records.drop_last());
        if log_step(log_run(records.drop_last()).1, records.last()).0 is Some {
            cuts.push((records.len() - 1) as nat)
        } else {
            cuts
        }
    }
}

proof fn lemma_flatten_alt_push(rs: Seq<Seq<u8>>, a: int, b: int)
    requires
        0 <= a <= b < rs.len(),
    ensures
        rs.subrange(a, b + 1).flatten_alt() == rs.subrange(a, b).flatten_alt() + rs[b],
{
    assert(rs.subrange(a, b + 1).drop_last() =~= rs.subrange(a, b));
}

/// Block `i` of `written` is exactly the records from cut `i` up to cut
/// `i + 1`, laid end to end, with at least one record in that run, and is
/// neither empty nor longer than `LOG_BLOCK_CAPACITY`; and it is written
/// out only because the record after it would not fit behind it.
pub open spec fn block_is_record_run(records: Seq<Seq<u8>>, written: Seq<Seq<u8>>, cuts: Seq<nat>, i: int) -> bool {
    &&& cuts[i] < cuts[i + 1]
    &&& written[i] == records.subrange(cuts[i] as int, cuts[i + 1] as int).flatten_alt()
    &&& 0 < written[i].len() <= LOG_BLOCK_CAPACITY
    &&& cuts[i + 1] < records.len() ==> written[i].len() + records[cuts[i + 1] as int].len() > LOG_BLOCK_CAPACITY
}

/// `written` and `block` split `records` at `cuts` into whole records: the
/// cuts start at 0 and never go back, each block written out is the run of
/// records between two successive cuts, and what stays buffered is the
/// records after the last cut.
pub open spec fn whole_record_blocks(records: Seq<Seq<u8>>, written: Seq<Seq<u8>>, block: Seq<u8>, cuts: Seq<nat>) -> bool {
    &&& cuts.len() == written.len() + 1
    &&& cuts[0] == 0
    &&& cuts.last() <= records.len()
    &&& written.len() > 0 ==> cuts.last() < records.len()
    &&& forall|i: int, j: int| 0 <= i <= j < cuts.len() ==> cuts[i] <= cuts[j]
    &&& block == records.subrange(cuts.last() as int, records.len() as int).flatten_alt()
    &&& forall|i: int| 0 <= i < written.len() ==> #[trigger] block_is_record_run(records, written, cuts, i)
}

/// Every block written out holds whole records, in order: successive blocks
/// cover adjacent runs of records starting from the first, none of them is
/// empty or longer than a block, and what stays buffered is the rest; for
/// every stream of records no longer than a block each.
#[verifier::spinoff_prover]
pub proof fn lemma_log_run_blocks_are_whole_records(records: Seq<Seq<u8>>)
    requires
        forall|i: int| 0 <= i < records.len() ==> (#[trigger] records[i]).len() <= LOG_BLOCK_CAPACITY,
    ensures
        whole_record_blocks(records, log_run(records).0, log_run(records).1, log_run_cuts(records)),
    decreases records.len(),
{
    if records.len() == 0 {
        assert(records.subrange(0, 0) =~= Seq::<Seq<u8>>::empty());
        assert(log_run_cuts(records) == seq![0nat]);
    } else {
        let prev = records.drop_last();
        let n = records.len() - 1;
        assert forall|i: int| 0 <= i < prev.len() implies (#[trigger] prev[i]).len() <= LOG_BLOCK_CAPACITY by {
            assert(prev[i] == records[i]);
        }
        lemma_log_run_blocks_are_whole_records(prev);
        lemma_log_run_lossless(prev);
        let written = log_run(prev).0;
        let block = log_run(prev).1;
        let cuts = log_run_cuts(prev);
        let rec = records.last();
        assert(rec == records[n]);
        let c = cuts.last();
        assert(prev.subrange(c as int, n) =~= records.subrange(c as int, n));
        assert(block == records.subrange(c as int, n).flatten_alt());
        lemma_flatten_alt_push(records, c as int, n);
        // The blocks already written keep their runs.
        assert forall|i: int| 0 <= i < written.len() implies #[trigger] block_is_record_run(records, written, cuts, i) by {
            assert(block_is_record_run(prev, written, cuts, i));
            assert(cuts[i + 1] <= c);
            assert(c < n);
            assert(prev[cuts[i + 1] as int] == records[cuts[i + 1] as int]);
            assert(prev.subrange(cuts[i] as int, cuts[i + 1] as int) =~= records.subrange(cuts[i] as int, cuts[i + 1] as int));
        }
        if log_step(block, rec).0 is Some {
            let w2 = written.push(block);
            let c2 = cuts.push(n as nat);
            if c as int == n {
                assert(records.subrange(c as int, n) =~= Seq::<Seq<u8>>::empty());
            }
            assert(c < n);
            lemma_flatten_alt_push(records, n, n);
            assert(records.subrange(n, n) =~= Seq::<Seq<u8>>::empty());
            assert(log_run(records).0 == w2);
            assert(log_run_cuts(records) == c2);
            assert(log_run(records).1 == rec);
            assert forall|i: int, j: int| 0 <= i <= j < c2.len() implies c2[i] <= c2[j] by {
                if j < cuts.len() {
                    assert(c2[i] == cuts[i] && c2[j] == cuts[j]);
                } else if i < cuts.len() {
                    assert(c2[i] == cuts[i]);
                    assert(cuts[i] <= cuts[cuts.len() - 1]);
                }
            }
            assert forall|i: int| 0 <= i < w2.len() implies #[trigger] block_is_record_run(records, w2, c2, i) by {
                if i < written.len() {
                    assert(block_is_record_run(records, written, cuts, i));
                    assert(w2[i] == written[i]);
                    assert(c2[i] == cuts[i]);
                    assert(c2[i + 1] == cuts[i + 1]);
                } else {
                    assert(w2[i] == block);
                    assert(c2[i] == c);
                    assert(c2[i + 1] == n);
                }
            }
        } else {
            assert(log_run(records).0 == written);
            assert(log_run_cuts(records) == cuts);
            assert(log_run(records).1 == block + rec);
        }
    }
}

/// The kinds of record a session logs, each to a file of its own.
#[derive(Clone, Copy, Debug, PartialEq, Eq, Structural)]
pub enum LogStream {
    Imu,
    Baro,
    Gps,
    Mag,
}

/// The name prefix of each stream's file; the session number follows it.
pub open spec fn stream_prefix(stream: LogStream) -> Seq<u8> {
    match stream {
        LogStream::Imu => seq![73u8, 77, 85, 95],
        LogStream::Baro => seq![66u8, 65, 82, 79, 95],
        LogStream::Gps => seq![71u8, 80, 83, 95],
        LogStream::Mag => seq![77u8, 65, 71, 95],
    }
}

/// The name prefix of a stream's file: `IMU_`, `BARO_`, `GPS_` or `MAG_`.
pub fn stream_file_prefix(stream: LogStream) -> (prefix: &'static str)
    ensures
        prefix.spec_bytes() == stream_prefix(stream),
{
    match stream {
        LogStream::Imu => {
            let p = "IMU_";
            proof {
                reveal_strlit("IMU_");
                assert(vstd::string::is_ascii(p));
                assert(p.spec_bytes() =~= stream_prefix(stream));
            }
            p
        },
        LogStream::Baro => {
            let p = "BARO_";
            proof {
                reveal_strlit("BARO_");
                assert(vstd::string::is_ascii(p));
                assert(p.spec_bytes() =~= stream_prefix(stream));
            }
            p
        },
        LogStream::Gps => {
            let p = "GPS_";
            proof {
                reveal_strlit("GPS_");
                assert(vstd::string::is_ascii(p));
                assert(p.spec_bytes() =~= stream_prefix(stream));
            }
            p
        },
        LogStream::Mag => {
            let p = "MAG_";
            proof {
                reveal_strlit("MAG_");
                assert(vstd::string::is_ascii(p));
                assert(p.spec_bytes() =~= stream_prefix(stream));
            }
            p
        },
    }
}

/// The file name that session number `run` uses for a stream.
pub open spec fn session_file_name(stream: LogStream, run: u8) -> Seq<u8> {
    stream_prefix(stream) + decimal(run as nat)
}

/// The name of the file that session number `run` writes `stream` to,
/// such as `GPS_12`. The search for a free session number asks the card for
/// exactly these names.
pub fn session_stream_name(stream: LogStream, run: u8) -> (name: heapless::String<FILE_NAME_CAPACITY>)
    ensures
        name_bytes(name) == session_file_name(stream, run),
{
    proof {
        reveal_with_fuel(decimal, 3);
    }
    numbered_file_name(stream_file_prefix(stream), run).unwrap()
}

/// A logged record: the stream it belongs to and its encoding.
pub type LogRecord = (LogStream, Seq<u8>);

/// The encodings of the records of `stream` among `events`, in order.
pub open spec fn records_of(events: Seq<LogRecord>, stream: LogStream) -> Seq<Seq<u8>>
    decreases events.len(),
{
    if events.len() == 0 {
        Seq::empty()
    } else {
        let before = records_of(events.drop_last(), stream);
        if events.last().0 == stream {
            before.push(events.last().1)
        } else {
            before
        }
    }
}

/// What a session holds buffered for `stream` after logging `events`.
pub open spec fn session_buffer(events: Seq<LogRecord>, stream: LogStream) -> Seq<u8>
    decreases events.len(),
{
    if events.len() == 0 {
        Seq::empty()
    } else {
        let before = session_buffer(events.drop_last(), stream);
        if events.last().0 == stream {
            log_step(before, events.last().1).1
        } else {
            before
        }
    }
}

/// The blocks a session writes out while logging `events`, in order, each
/// with the stream whose file it goes to.
pub open spec fn session_written(events: Seq<LogRecord>) -> Seq<LogRecord>
    decreases events.len(),
{
    if events.len() == 0 {
        Seq::empty()
    } else {
        let before = session_written(events.drop_last());
        let (stream, rec) = events.last();
        match log_step(session_buffer(events.drop_last(), stream), rec).0 {
            Some(b) => before.push((stream, b)),
            None => before,
        }
    }
}

/// The blocks among `written` that go to the file of `stream`, in order.
pub open spec fn blocks_of(written: Seq<LogRecord>, stream: LogStream) -> Seq<Seq<u8>> {
    records_of(written, stream)
}

proof fn lemma_session_matches_log_run(events: Seq<LogRecord>, stream: LogStream)
    ensures
        blocks_of(session_written(events), stream) == log_run(records_of(events, stream)).0,
        session_buffer(events, stream) == log_run(records_of(events, stream)).1,
    decreases events.len(),
{
    if events.len() > 0 {
        let prev = events.drop_last();
        lemma_session_matches_log_run(prev, stream);
        let (t, rec) = events.last();
        let w = session_written(prev);
        match log_step(session_buffer(prev, t), rec).0 {
            Some(b) => {
                assert(w.push((t, b)).drop_last() =~= w);
            },
            None => {},
        }
        if t == stream {
            assert(records_of(events, stream).drop_last() =~= records_of(prev, stream));
        }
    }
}

/// Logging an interleaved stream of records of all four kinds loses
/// nothing, keeps the order and mixes no kinds: for each stream, the blocks
/// the session writes to that stream's file, followed by what it still
/// holds buffered for it, are exactly the encodings of that stream's
/// records, in the order they were logged; every block written out is a
/// run of whole consecutive records of that stream, neither empty nor
/// longer than `LOG_BLOCK_CAPACITY`, and what stays buffered is never
/// longer than `LOG_BLOCK_CAPACITY` either; for every record no longer
/// than a block.
pub proof fn lemma_session_logging_is_lossless(events: Seq<LogRecord>, stream: LogStream)
    requires
        forall|i: int| 0 <= i < events.len() ==> (#[trigger] events[i]).1.len() <= LOG_BLOCK_CAPACITY,
    ensures
        blocks_of(session_written(events), stream).flatten_alt() + session_buffer(events, stream)
            == records_of(events, stream).flatten_alt(),
        session_buffer(events, stream).len() <= LOG_BLOCK_CAPACITY,
        whole_record_blocks(
            records_of(events, stream),
            blocks_of(session_written(events), stream),
            session_buffer(events, stream),
            log_run_cuts(records_of(events, stream)),
        ),
{
    lemma_records_of_fit(events, stream);
    lemma_session_matches_log_run(events, stream);
    lemma_log_run_lossless(records_of(events, stream));
    lemma_log_run_blocks_are_whole_records(records_of(events, stream));
}

proof fn lemma_records_of_fit(events: Seq<LogRecord>, stream: LogStream)
    requires
        forall|i: int| 0 <= i < events.len() ==> (#[trigger] events[i]).1.len() <= LOG_BLOCK_CAPACITY,
    ensures
        forall|i: int| 0 <= i < records_of(events, stream).len() ==> (#[trigger] records_of(events, stream)[i]).len() <= LOG_BLOCK_CAPACITY,
    decreases events.len(),
{
    if events.len() > 0 {
        let prev = events.drop_last();
        assert forall|i: int| 0 <= i < prev.len() implies (#[trigger] prev[i]).1.len() <= LOG_BLOCK_CAPACITY by {
            assert(prev[i] == events[i]);
        }
        lemma_records_of_fit(prev, stream);
        assert(events.last() == events[events.len() - 1]);
        let before = records_of(prev, stream);
        let now = records_of(events, stream);
        assert forall|i: int| 0 <= i < now.len() implies (#[trigger] now[i]).len() <= LOG_BLOCK_CAPACITY by {
            if i < before.len() {
                assert(now[i] == before[i]);
            } else {
                assert(now[i] == events.last().1);
            }
        }
    }
}

/// One logging session: the four stream files of session number `run`,
/// each with its block buffer.
pub struct SessionLog {
    run: u8,
    imu_name: heapless::String<FILE_NAME_CAPACITY>,
    baro_name: heapless::String<FILE_NAME_CAPACITY>,
    gps_name: heapless::String<FILE_NAME_CAPACITY>,
    mag_name: heapless::String<FILE_NAME_CAPACITY>,
    imu: LogBuffer,
    baro: LogBuffer,
    gps: LogBuffer,
    mag: LogBuffer,
    logged: Ghost<Seq<LogRecord>>,
}

impl SessionLog {
    /// The records logged so far, in order, each with its stream.
    pub closed spec fn logged(self) -> Seq<LogRecord> {
        self.logged@
    }

    /// What is buffered for each stream is what logging `logged()` leaves
    /// buffered for it.
    pub closed spec fn wf(self) -> bool {
        forall|s: LogStream| #[trigger] self.buffered(s) == session_buffer(self.logged(), s)
    }

    /// The session number.
    pub closed spec fn run_number(self) -> u8 {
        self.run
    }

    /// The bytes of the file name the session uses for `stream`.
    pub closed spec fn name_of(self, stream: LogStream) -> Seq<u8> {
        match stream {
            LogStream::Imu => name_bytes(self.imu_name),
            LogStream::Baro => name_bytes(self.baro_name),
            LogStream::Gps => name_bytes(self.gps_name),
            LogStream::Mag => name_bytes(self.mag_name),
        }
    }

    /// What is buffered for `stream` and not yet written out.
    pub closed spec fn buffered(self, stream: LogStream) -> Seq<u8> {
        match stream {
            LogStream::Imu => self.imu@,
            LogStream::Baro => self.baro@,
            LogStream::Gps => self.gps@,
            LogStream::Mag => self.mag@,
        }
    }

    /// Opens session number `run`: each stream gets the file named by its
    /// prefix and the session number, and starts with an empty buffer.
    pub fn new(run: u8) -> (log: Self)
        ensures
            log.run_number() == run,
            forall|s: LogStream| #[trigger] log.name_of(s) == session_file_name(s, run),
            forall|s: LogStream| #[trigger] log.buffered(s) == Seq::<u8>::empty(),
            log.logged() == Seq::<LogRecord>::empty(),
            log.wf(),
    {
        proof {
            reveal_with_fuel(decimal, 3);
        }
        let imu_name = session_stream_name(LogStream::Imu, run);
        let baro_name = session_stream_name(LogStream::Baro, run);
        let gps_name = session_stream_name(LogStream::Gps, run);
        let mag_name = session_stream_name(LogStream::Mag, run);
        let log = SessionLog {
            run,
            imu_name,
            baro_name,
            gps_name,
            mag_name,
            imu: LogBuffer::new(),
            baro: LogBuffer::new(),
            gps: LogBuffer::new(),
            mag: LogBuffer::new(),
            logged: Ghost(Seq::empty()),
        };
        assert forall|s: LogStream| #[trigger] log.name_of(s) == session_file_name(s, run) by {
            match s {
                LogStream::Imu => {},
                LogStream::Baro => {},
                LogStream::Gps => {},
                LogStream::Mag => {},
            }
        }
        log
    }

    /// The session number.
    pub fn run(&self) -> (run: u8)
        ensures
            run == self.run_number(),
    {
        self.run
    }

    /// The name of the file the session writes `stream` to.
    pub fn file_name(&self, stream: LogStream) -> (name: &str)
        ensures
            name.spec_bytes() == self.name_of(stream),
    {
        match stream {
            LogStream::Imu => name_as_str(&self.imu_name),
            LogStream::Baro => name_as_str(&self.baro_name),
            LogStream::Gps => name_as_str(&self.gps_name),
            LogStream::Mag => name_as_str(&self.mag_name),
        }
    }

    /// What is buffered for `stream`.
    pub fn buffered_bytes(&self, stream: LogStream) -> (bytes: &[u8])
        ensures
            bytes@ == self.buffered(stream),
    {
        match stream {
            LogStream::Imu => self.imu.as_slice(),
            LogStream::Baro => self.baro.as_slice(),
            LogStream::Gps => self.gps.as_slice(),
            LogStream::Mag => self.mag.as_slice(),
        }
    }

    /// Logs one encoded record of `stream`. The block handed back, if any,
    /// is to be written to `file_name(stream)`: it is the block that
    /// `session_written` adds for this record. The other streams and all
    /// names are left as they were.
    pub fn record(&mut self, stream: LogStream, encoded: &[u8]) -> (flushed: Option<heapless::Vec<u8, LOG_BLOCK_CAPACITY>>)
        requires
            old(self).wf(),
        ensures
            final(self).wf(),
            final(self).logged() == old(self).logged().push((stream, encoded@)),
            session_written(final(self).logged()) == match flushed {
                Some(b) => session_written(old(self).logged()).push((stream, block_bytes(b))),
                None => session_written(old(self).logged()),
            },
            final(self).run_number() == old(self).run_number(),
            forall|s: LogStream| #[trigger] final(self).name_of(s) == old(self).name_of(s),
            forall|s: LogStream| s != stream ==> #[trigger] final(self).buffered(s) == old(self).buffered(s),
            final(self).buffered(stream) == log_step(old(self).buffered(stream), encoded@).1,
            match flushed {
                Some(b) => log_step(old(self).buffered(stream), encoded@).0 == Some(block_bytes(b)),
                None => log_step(old(self).buffered(stream), encoded@).0 is None,
            },
    {
        let ghost before = self.logged@;
        let flushed = match stream {
            LogStream::Imu => self.imu.push_record(encoded),
            LogStream::Baro => self.baro.push_record(encoded),
            LogStream::Gps => self.gps.push_record(encoded),
            LogStream::Mag => self.mag.push_record(encoded),
        };
        self.logged = Ghost(before.push((stream, encoded@)));
        proof {
            let after = self.logged@;
            assert(after.drop_last() =~= before);
            assert forall|s: LogStream| #[trigger] self.buffered(s) == session_buffer(after, s) by {
                assert(old(self).buffered(s) == session_buffer(before, s));
            }
            assert(old(self).buffered(stream) == session_buffer(before, stream));
        }
        flushed
    }
}

} // verus!
