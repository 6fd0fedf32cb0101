use gas::io::format::{u32_from_le, u32_to_le, BODY_START, GAS_FILE_VERSION, INDEX_REGION_BYTES};
use gas::io::v1::check_read_range;
use gas::io::{GasError, GasFileReader, GasFileWriter, Locations};

#[test]
fn it_works() {
    let result = gas::add(2, 2);
    assert_eq!(result, 4);
}

/// Writes payloads of the given lengths one after the other and returns the
/// flushes that came back.
fn write_seq(w: &mut GasFileWriter, lens: &[u64]) -> Vec<(u64, Vec<u8>)> {
    let mut flushes = Vec::new();
    for &len in lens {
        let at = w.allocate(len);
        if let Some(f) = w.record(at, len) {
            flushes.push(f);
        }
    }
    flushes
}

fn finalize_and_load(w: GasFileWriter, threads: usize) -> GasFileReader {
    let patch = w.finalize().unwrap();
    let mut file = GasFileWriter::header_bytes();
    file.truncate(4);
    file.extend_from_slice(&patch);
    let n = GasFileReader::index_len(&file).unwrap();
    let mut r = GasFileReader::new_reader(&file, threads).unwrap();
    r.load_index(&file[8..8 + n]).unwrap();
    r
}

#[test]
fn header_is_version_then_zero_length() {
    assert_eq!(GasFileWriter::header_bytes(), vec![1, 0, 0, 0, 0, 0, 0, 0]);
    assert_eq!(u32_to_le(0x0403_0201), vec![1, 2, 3, 4]);
    assert_eq!(u32_from_le(&[9, 1, 2, 3, 4], 1), 0x0403_0201);
}

#[test]
fn body_starts_after_index_region() {
    assert_eq!(BODY_START, 8 + INDEX_REGION_BYTES);
    assert_eq!(INDEX_REGION_BYTES, 2_097_152);
    let mut w = GasFileWriter::new_writer(1);
    assert_eq!(w.allocate(10), 2_097_160);
    assert_eq!(w.allocate(5), 2_097_170);
    assert_eq!(w.cur_position(), 2_097_175);
}

#[test]
fn start_spawns_workers_once() {
    let mut w = GasFileWriter::new_writer(4);
    assert_eq!(w.start_write_worker(), 4);
    assert_eq!(w.start_write_worker(), 0);
    assert_eq!(w.threads(), 4);
}

#[test]
fn no_flush_below_a_thousand_writes() {
    let mut w = GasFileWriter::new_writer(1);
    let flushes = write_seq(&mut w, &vec![7u64; 999]);
    assert!(flushes.is_empty());
    assert_eq!(w.pending_len(), 999);
}

#[test]
fn one_flush_at_a_thousand_writes() {
    let mut w = GasFileWriter::new_writer(1);
    let flushes = write_seq(&mut w, &vec![7u64; 1000]);
    assert_eq!(flushes.len(), 1);
    assert_eq!(w.pending_len(), 0);
    // The fragment lands right after the thousandth payload.
    assert_eq!(flushes[0].0, BODY_START + 7000);
    assert_eq!(w.cur_position(), BODY_START + 7000 + flushes[0].1.len() as u64);
}

#[test]
fn two_flushes_at_two_thousand_writes() {
    let mut w = GasFileWriter::new_writer(1);
    let flushes = write_seq(&mut w, &vec![3u64; 2000]);
    assert_eq!(flushes.len(), 2);
    let r = finalize_and_load(w, 1);
    assert_eq!(r.fragment_entries().len(), 2);
    assert_eq!(r.payload_entries().len(), 2000);
}

#[test]
fn fragment_bytes_are_varint_offsets() {
    let mut w = GasFileWriter::new_writer(1);
    let flushes = write_seq(&mut w, &vec![1u64; 1000]);
    let blob = &flushes[0].1;
    // 1000 offsets: 251 then 1000 as two little-endian bytes.
    assert_eq!(&blob[..3], &[251, 0xe8, 0x03]);
    // 2_097_160 = 0x0020_0008: 252 then four little-endian bytes.
    assert_eq!(&blob[3..8], &[252, 0x08, 0x00, 0x20, 0x00]);
    assert_eq!(blob.len(), 3 + 1000 * 5);
}

#[test]
fn finalize_writes_length_then_index() {
    let mut w = GasFileWriter::new_writer(2);
    write_seq(&mut w, &[300]);
    let patch = w.finalize().unwrap();
    // One entry: count 1; offset 252 + 4 bytes; length 251 + 2 bytes; tag 0.
    let index = vec![1, 252, 0x08, 0x00, 0x20, 0x00, 251, 0x2c, 0x01, 0];
    let mut expected = (index.len() as u32).to_le_bytes().to_vec();
    expected.extend_from_slice(&index);
    assert_eq!(patch, expected);
}

#[test]
fn empty_writer_finalizes_to_empty_index() {
    let w = GasFileWriter::new_writer(1);
    assert_eq!(w.finalize().unwrap(), vec![1, 0, 0, 0, 0]);
}

#[test]
fn index_over_capacity_is_refused() {
    let mut w = GasFileWriter::new_writer(1);
    // Each entry takes seven bytes: 2 MiB needs about 300 000 of them.
    write_seq(&mut w, &vec![100u64; 310_000]);
    assert_eq!(w.finalize(), Err(GasError::IndexOverflow));
}

#[test]
fn index_under_capacity_is_kept() {
    let mut w = GasFileWriter::new_writer(1);
    write_seq(&mut w, &vec![100u64; 290_000]);
    let patch = w.finalize().unwrap();
    assert!(patch.len() - 4 <= INDEX_REGION_BYTES as usize);
}

#[test]
fn five_thousand_payloads_round_trip_through_index() {
    let mut w = GasFileWriter::new_writer(4);
    assert_eq!(w.start_write_worker(), 4);
    let flushes = write_seq(&mut w, &vec![100u64; 5000]);
    assert_eq!(flushes.len(), 5);
    let r = finalize_and_load(w, 4);
    let payloads = r.payload_entries();
    assert_eq!(payloads.len(), 5000);
    assert_eq!(r.fragment_entries().len(), 5);
    assert!(payloads.iter().all(|p| p.1 == 100));
    let mut dealt = 0;
    for k in 0..4 {
        let mine = r.worker_entries(k);
        assert_eq!(mine.len(), 1250);
        assert_eq!(mine[0], payloads[k]);
        dealt += mine.len();
    }
    assert_eq!(dealt, 5000);
}

#[test]
fn interleaved_writers_get_disjoint_ranges() {
    let mut l = Locations::new(BODY_START);
    let a = l.allocate(10);
    let b = l.allocate(20);
    let c = l.allocate(0);
    assert!(l.record_and_maybe_flush(b, 20).is_none());
    let d = l.allocate(5);
    assert!(l.record_and_maybe_flush(a, 10).is_none());
    assert!(l.record_and_maybe_flush(d, 5).is_none());
    assert!(l.record_and_maybe_flush(c, 0).is_none());
    // The empty payload still takes a byte, so no two offsets coincide.
    assert_eq!((a, b, c, d), (BODY_START, BODY_START + 10, BODY_START + 30, BODY_START + 31));
    let e = l.entries();
    assert_eq!(
        e,
        &vec![(b, 20, false), (a, 10, false), (d, 5, false), (c, 0, false)]
    );
    let total: u64 = e.iter().map(|x| x.1.max(1)).sum();
    assert_eq!(total, l.cur_position() - BODY_START);
}

#[test]
fn empty_payloads_get_distinct_offsets() {
    let mut w = GasFileWriter::new_writer(1);
    let a = w.allocate(0);
    let b = w.allocate(0);
    let c = w.allocate(5);
    assert_eq!((a, b, c), (BODY_START, BODY_START + 1, BODY_START + 2));
    assert_eq!(w.cur_position(), BODY_START + 7);
}

#[test]
fn allocations_past_a_thousand_flush_exactly_a_thousand() {
    let mut l = Locations::new(BODY_START);
    let mut offs = Vec::new();
    for _ in 0..1005 {
        offs.push(l.allocate(1));
    }
    assert_eq!(l.pending_len(), 1005);
    let f = l.record_and_maybe_flush(offs[0], 1).unwrap();
    // 1000 offsets, each 252 then four bytes.
    assert_eq!(&f.1[..3], &[251, 0xe8, 0x03]);
    assert_eq!(f.1.len(), 3 + 1000 * 5);
    assert_eq!(&f.1[f.1.len() - 5..], &[252, 0xef, 0x03, 0x20, 0x00]);
    assert_eq!(l.pending_len(), 5);
    for &o in &offs[1..] {
        assert!(l.record_and_maybe_flush(o, 1).is_none());
    }
    assert_eq!(l.pending_len(), 5);
    let frags = l.entries().iter().filter(|e| e.2).count();
    let payloads = l.entries().iter().filter(|e| !e.2).count();
    assert_eq!((frags, payloads), (1, 1005));
}

#[test]
fn flush_entry_holds_fragment_range() {
    let mut l = Locations::new(BODY_START);
    let mut offs = Vec::new();
    for _ in 0..1000 {
        offs.push(l.allocate(2));
    }
    let f = l.record_and_maybe_flush(offs[0], 2).unwrap();
    let e = l.entries();
    assert_eq!(e[0], (f.0, f.1.len() as u64, true));
    assert_eq!(e[1], (offs[0], 2, false));
    assert_eq!(f.0, BODY_START + 2000);
}

#[test]
fn reader_accepts_supported_version() {
    let r = GasFileReader::new_reader(&[1, 0, 0, 0, 9, 9], 3).unwrap();
    assert_eq!(r.threads(), 3);
    assert!(r.payload_entries().is_empty());
    assert_eq!(GAS_FILE_VERSION, 1);
}

#[test]
fn reader_rejects_other_version() {
    assert_eq!(
        GasFileReader::new_reader(&[2, 0, 0, 0], 1).err(),
        Some(GasError::VersionMismatch(2))
    );
    assert_eq!(
        GasFileReader::new_reader(&[0, 1, 0, 0], 1).err(),
        Some(GasError::VersionMismatch(256))
    );
}

#[test]
fn reader_rejects_short_header() {
    assert_eq!(GasFileReader::new_reader(&[1, 0], 1).err(), Some(GasError::IoFailure));
    assert_eq!(GasFileReader::index_len(&[1, 0, 0, 0, 5]), Err(GasError::IoFailure));
}

#[test]
fn index_length_is_bounded_by_region() {
    assert_eq!(GasFileReader::index_len(&[1, 0, 0, 0, 5, 0, 0, 0]), Ok(5));
    assert_eq!(GasFileReader::index_len(&[1, 0, 0, 0, 0, 0, 0x20, 0]), Ok(2_097_152));
    assert_eq!(
        GasFileReader::index_len(&[1, 0, 0, 0, 1, 0, 0x20, 0]),
        Err(GasError::CorruptIndex)
    );
}

#[test]
fn corrupt_index_is_refused() {
    let mut r = GasFileReader::new_reader(&[1, 0, 0, 0], 1).unwrap();
    // Truncated: announces one entry, holds none.
    assert_eq!(r.load_index(&[1]), Err(GasError::CorruptIndex));
    // A tag that is neither 0 nor 1.
    assert_eq!(r.load_index(&[1, 5, 5, 7]), Err(GasError::CorruptIndex));
    // Trailing bytes after the index.
    assert_eq!(r.load_index(&[0, 0]), Err(GasError::CorruptIndex));
    // A count written wider than it needs.
    assert_eq!(r.load_index(&[251, 0, 0]), Err(GasError::CorruptIndex));
    // A count far larger than the bytes that follow could hold.
    assert_eq!(
        r.load_index(&[253, 0, 0, 0, 0, 0, 0, 0, 0x10]),
        Err(GasError::CorruptIndex)
    );
    assert_eq!(
        r.load_index(&[252, 0xff, 0xff, 0xff, 0x0f, 0, 0, 0]),
        Err(GasError::CorruptIndex)
    );
    // More bytes than the reserved region holds.
    assert_eq!(r.load_index(&vec![0u8; 2_097_153]), Err(GasError::CorruptIndex));
    assert_eq!(r.load_index(&[1, 5, 6, 1]), Ok(()));
    assert_eq!(r.fragment_entries(), vec![(5, 6)]);
    assert!(r.payload_entries().is_empty());
}

#[test]
fn read_range_must_fit_in_file() {
    assert_eq!(check_read_range(10, 5, 15), Ok(()));
    assert_eq!(check_read_range(10, 6, 15), Err(GasError::OutOfRangeRead));
    assert_eq!(check_read_range(u64::MAX, 1, u64::MAX), Err(GasError::OutOfRangeRead));
    assert_eq!(check_read_range(0, 0, 0), Ok(()));
}

#[test]
fn reader_threads_share_every_payload_once() {
    let mut w = GasFileWriter::new_writer(1);
    let lens: Vec<u64> = (1..=11).collect();
    write_seq(&mut w, &lens);
    let r = finalize_and_load(w, 3);
    let mut all: Vec<(u64, u64)> = Vec::new();
    for k in 0..3 {
        all.extend(r.worker_entries(k));
    }
    assert_eq!(r.worker_entries(0).len(), 4);
    assert_eq!(r.worker_entries(2).len(), 3);
    all.sort();
    let mut payloads = r.payload_entries();
    payloads.sort();
    assert_eq!(all, payloads);
    assert_eq!(payloads.len(), 11);
}
