use r_d_inclita_sofware::fixed_buffers::LOG_BLOCK_CAPACITY;
use r_d_inclita_sofware::storage::sd_card::{
    session_stream_name, stream_file_prefix, LogBuffer, LogStream, SessionLog,
};
use r_d_inclita_sofware::storage::sd_card_utils::{
    after_failed_open, next_slot_step, numbered_file_name, MaxAttemptsReached, OpenRetry,
    SlotProbe, SlotSearch, FIRST_SLOT, LAST_SLOT, MAX_OPEN_ATTEMPTS,
};

#[test]
fn buffer_gathers_records_until_full() {
    let mut b = LogBuffer::new();
    assert_eq!(b.len(), 0);
    assert!(b.push_record(&[1, 2, 3]).is_none());
    assert!(b.push_record(&[4, 5]).is_none());
    assert_eq!(b.as_slice(), &[1, 2, 3, 4, 5]);
}

#[test]
fn buffer_flushes_full_block_and_keeps_new_record() {
    let mut b = LogBuffer::new();
    let first = [7u8; 500];
    assert!(b.push_record(&first).is_none());
    assert!(b.push_record(&[9u8; 12]).is_none());
    assert_eq!(b.len(), LOG_BLOCK_CAPACITY);
    let flushed = b.push_record(&[1, 2]).expect("a full block is written out");
    let out = flushed.as_slice();
    assert_eq!(out.len(), 512);
    assert_eq!(&out[..500], &first[..]);
    assert_eq!(&out[500..], &[9u8; 12][..]);
    assert_eq!(b.as_slice(), &[1, 2]);
}

#[test]
fn buffer_drops_record_longer_than_a_block() {
    let mut b = LogBuffer::new();
    assert!(b.push_record(&[5, 6]).is_none());
    let big = [0u8; 600];
    let flushed = b.push_record(&big).expect("the block goes out first");
    assert_eq!(flushed.as_slice(), &[5, 6]);
    assert_eq!(b.len(), 0);
}

#[test]
fn buffer_is_lossless_over_many_records() {
    let mut b = LogBuffer::new();
    let mut written: Vec<u8> = Vec::new();
    let mut expected: Vec<u8> = Vec::new();
    for i in 0..200u32 {
        let rec: Vec<u8> = (0..(i % 37 + 1)).map(|k| (i + k) as u8).collect();
        expected.extend_from_slice(&rec);
        if let Some(block) = b.push_record(&rec) {
            assert!(block.as_slice().len() <= LOG_BLOCK_CAPACITY);
            written.extend_from_slice(block.as_slice());
        }
        assert!(b.len() <= LOG_BLOCK_CAPACITY);
    }
    written.extend_from_slice(b.as_slice());
    assert_eq!(written, expected);
}

#[test]
fn session_names_share_the_run_number() {
    let log = SessionLog::new(7);
    assert_eq!(log.run(), 7);
    assert_eq!(log.file_name(LogStream::Imu), "IMU_7");
    assert_eq!(log.file_name(LogStream::Baro), "BARO_7");
    assert_eq!(log.file_name(LogStream::Gps), "GPS_7");
    assert_eq!(log.file_name(LogStream::Mag), "MAG_7");
    let log = SessionLog::new(100);
    assert_eq!(log.file_name(LogStream::Baro), "BARO_100");
    let log = SessionLog::new(255);
    assert_eq!(log.file_name(LogStream::Mag), "MAG_255");
}

#[test]
fn session_records_go_to_their_own_stream() {
    let mut log = SessionLog::new(3);
    assert!(log.record(LogStream::Gps, &[1, 2]).is_none());
    assert!(log.record(LogStream::Imu, &[3]).is_none());
    assert!(log.record(LogStream::Gps, &[4]).is_none());
    assert_eq!(log.buffered_bytes(LogStream::Gps), &[1, 2, 4]);
    assert_eq!(log.buffered_bytes(LogStream::Imu), &[3]);
    assert!(log.buffered_bytes(LogStream::Baro).is_empty());
    assert!(log.buffered_bytes(LogStream::Mag).is_empty());
}

#[test]
fn stream_prefixes() {
    assert_eq!(stream_file_prefix(LogStream::Imu), "IMU_");
    assert_eq!(stream_file_prefix(LogStream::Baro), "BARO_");
    assert_eq!(stream_file_prefix(LogStream::Gps), "GPS_");
    assert_eq!(stream_file_prefix(LogStream::Mag), "MAG_");
}

#[test]
fn numbered_names() {
    let n = numbered_file_name("IMU", 1).unwrap();
    assert_eq!(n.as_str(), "IMU1");
    let n = numbered_file_name("IMU", 42).unwrap();
    assert_eq!(n.as_str(), "IMU42");
    let n = numbered_file_name("", 0).unwrap();
    assert_eq!(n.as_str(), "0");
    let long = "ABCDEFGHIJKLMNOPQRSTUVWXYZABCD";
    assert_eq!(long.len(), 30);
    assert_eq!(numbered_file_name(long, 99).unwrap().as_str(), "ABCDEFGHIJKLMNOPQRSTUVWXYZABCD99");
    assert!(numbered_file_name(long, 100).is_none());
    assert!(numbered_file_name("ABCDEFGHIJKLMNOPQRSTUVWXYZABCDEFG", 1).is_none());
}

#[test]
fn slot_search_steps() {
    assert_eq!(next_slot_step(FIRST_SLOT, LogStream::Imu, SlotProbe::Free), SlotSearch::Probe(1, LogStream::Baro));
    assert_eq!(next_slot_step(1, LogStream::Baro, SlotProbe::Free), SlotSearch::Probe(1, LogStream::Gps));
    assert_eq!(next_slot_step(1, LogStream::Gps, SlotProbe::Free), SlotSearch::Probe(1, LogStream::Mag));
    assert_eq!(next_slot_step(1, LogStream::Mag, SlotProbe::Free), SlotSearch::Found(1));
    assert_eq!(next_slot_step(1, LogStream::Imu, SlotProbe::Taken), SlotSearch::Probe(2, LogStream::Imu));
    assert_eq!(next_slot_step(7, LogStream::Gps, SlotProbe::Taken), SlotSearch::Probe(8, LogStream::Imu));
    assert_eq!(next_slot_step(50, LogStream::Mag, SlotProbe::Failed), SlotSearch::Probe(51, LogStream::Imu));
    assert_eq!(next_slot_step(LAST_SLOT, LogStream::Imu, SlotProbe::Taken), SlotSearch::Exhausted);
    assert_eq!(next_slot_step(LAST_SLOT, LogStream::Baro, SlotProbe::Failed), SlotSearch::Exhausted);
    assert_eq!(next_slot_step(LAST_SLOT, LogStream::Mag, SlotProbe::Free), SlotSearch::Found(100));
}

/// Runs the search against a card holding the files named in `card`.
fn run_search(card: &[&str]) -> (Result<u8, MaxAttemptsReached>, Vec<String>) {
    let mut asked = Vec::new();
    let mut step = SlotSearch::Probe(FIRST_SLOT, LogStream::Imu);
    loop {
        match step {
            SlotSearch::Probe(n, stream) => {
                let name = session_stream_name(stream, n);
                asked.push(name.as_str().to_string());
                let probe = if card.contains(&name.as_str()) { SlotProbe::Taken } else { SlotProbe::Free };
                step = next_slot_step(n, stream, probe);
            }
            SlotSearch::Found(n) => return (Ok(n), asked),
            SlotSearch::Exhausted => return (Err(MaxAttemptsReached), asked),
        }
    }
}

#[test]
fn slot_search_on_empty_card_uses_session_one() {
    let (r, asked) = run_search(&[]);
    assert_eq!(r.unwrap(), 1);
    assert_eq!(asked, vec!["IMU_1", "BARO_1", "GPS_1", "MAG_1"]);
}

#[test]
fn slot_search_skips_sessions_with_any_file() {
    // Session 1 logged everything; session 2 flushed only GPS data.
    let card = ["IMU_1", "BARO_1", "GPS_1", "MAG_1", "GPS_2"];
    let (r, asked) = run_search(&card);
    assert_eq!(r.unwrap(), 3);
    assert_eq!(
        asked,
        vec!["IMU_1", "IMU_2", "BARO_2", "GPS_2", "IMU_3", "BARO_3", "GPS_3", "MAG_3"]
    );
}

#[test]
fn slot_search_exhausted_when_every_session_is_used() {
    let names: Vec<String> = (1..=100u32).map(|n| format!("MAG_{}", n)).collect();
    let card: Vec<&str> = names.iter().map(|s| s.as_str()).collect();
    let (r, asked) = run_search(&card);
    assert!(r.is_err());
    assert_eq!(asked.len(), 400);
}

#[test]
fn session_stream_names() {
    assert_eq!(session_stream_name(LogStream::Imu, 1).as_str(), "IMU_1");
    assert_eq!(session_stream_name(LogStream::Baro, 42).as_str(), "BARO_42");
    assert_eq!(session_stream_name(LogStream::Gps, 100).as_str(), "GPS_100");
    assert_eq!(session_stream_name(LogStream::Mag, 0).as_str(), "MAG_0");
}

#[test]
fn interleaved_session_is_lossless_per_stream() {
    let mut log = SessionLog::new(9);
    let mut written: Vec<(LogStream, Vec<u8>)> = Vec::new();
    let mut expected: Vec<(LogStream, Vec<u8>)> = vec![
        (LogStream::Imu, Vec::new()),
        (LogStream::Baro, Vec::new()),
        (LogStream::Gps, Vec::new()),
        (LogStream::Mag, Vec::new()),
    ];
    let streams = [LogStream::Imu, LogStream::Gps, LogStream::Imu, LogStream::Baro, LogStream::Mag];
    for i in 0..500u32 {
        let stream = streams[(i as usize * 7) % streams.len()];
        let rec: Vec<u8> = (0..(i % 61 + 1)).map(|k| (i * 3 + k) as u8).collect();
        expected.iter_mut().find(|(s, _)| *s == stream).unwrap().1.extend_from_slice(&rec);
        if let Some(block) = log.record(stream, &rec) {
            let bytes = block.as_slice().to_vec();
            assert!(!bytes.is_empty() && bytes.len() <= LOG_BLOCK_CAPACITY);
            written.push((stream, bytes));
        }
    }
    for (stream, all) in expected {
        let mut got: Vec<u8> = Vec::new();
        for (s, b) in &written {
            if *s == stream {
                got.extend_from_slice(b);
            }
        }
        got.extend_from_slice(log.buffered_bytes(stream));
        assert_eq!(got, all);
    }
}

#[test]
fn open_retries_five_times() {
    let mut attempts = 1u8;
    loop {
        match after_failed_open(attempts) {
            OpenRetry::Retry(next) => {
                assert_eq!(next, attempts + 1);
                attempts = next;
            }
            OpenRetry::GiveUp => break,
        }
    }
    assert_eq!(attempts, MAX_OPEN_ATTEMPTS);
    assert_eq!(after_failed_open(5), OpenRetry::GiveUp);
    assert_eq!(after_failed_open(1), OpenRetry::Retry(2));
}
