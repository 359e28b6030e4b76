use anise::almanac::{BPCSummaryRecord, Epoch};
use anise::daf::{
    parse_file_record, read_word, summaries, whole_from_bits, DAFError, DafKind, Endian, RawSummary,
};
use anise::ephemerides::SPKSummaryRecord;

fn put(buf: &mut [u8], off: usize, bytes: &[u8]) {
    buf[off..off + bytes.len()].copy_from_slice(bytes);
}

fn put_i32(buf: &mut [u8], off: usize, v: i32, big: bool) {
    put(buf, off, &if big { v.to_be_bytes() } else { v.to_le_bytes() });
}

fn put_f64(buf: &mut [u8], off: usize, v: f64, big: bool) {
    put(buf, off, &if big { v.to_be_bytes() } else { v.to_le_bytes() });
}

/// A file with one summary record (record 2) holding the given summaries of ND = 2, NI = 6.
fn spk_file(big: bool, segs: &[(f64, f64, [i32; 6])], next: f64) -> Vec<u8> {
    let mut buf = vec![0u8; 3 * 1024];
    put(&mut buf, 0, b"DAF/SPK ");
    put_i32(&mut buf, 8, 2, big);
    put_i32(&mut buf, 12, 6, big);
    put_i32(&mut buf, 76, 2, big);
    put_i32(&mut buf, 80, 2, big);
    put_i32(&mut buf, 84, 4000, big);
    put(&mut buf, 88, if big { b"BIG-IEEE" } else { b"LTL-IEEE" });
    let rec = 1024;
    put_f64(&mut buf, rec, next, big);
    put_f64(&mut buf, rec + 8, 0.0, big);
    put_f64(&mut buf, rec + 16, segs.len() as f64, big);
    for (j, (start, end, ints)) in segs.iter().enumerate() {
        let base = rec + 24 + j * 40;
        put_f64(&mut buf, base, *start, big);
        put_f64(&mut buf, base + 8, *end, big);
        for (k, v) in ints.iter().enumerate() {
            put_i32(&mut buf, base + 16 + 4 * k, *v, big);
        }
    }
    buf
}

fn epoch_of_bits(bits: u64) -> Epoch {
    Epoch { et_nanoseconds: (f64::from_bits(bits) * 1e9) as i128 }
}

#[test]
fn words_in_both_orders() {
    let b = [0x01u8, 0x02, 0x03, 0x04];
    assert_eq!(read_word(&b, 0, 4, Endian::Little), Some(0x04030201));
    assert_eq!(read_word(&b, 0, 4, Endian::Big), Some(0x01020304));
    assert_eq!(read_word(&b, 1, 4, Endian::Big), None);
}

#[test]
fn whole_numbers_of_doubles() {
    assert_eq!(whole_from_bits(0.0f64.to_bits()), Some(0));
    assert_eq!(whole_from_bits(1.0f64.to_bits()), Some(1));
    assert_eq!(whole_from_bits(17.0f64.to_bits()), Some(17));
    assert_eq!(whole_from_bits(4096.0f64.to_bits()), Some(4096));
    assert_eq!(whole_from_bits(2.5f64.to_bits()), None);
    assert_eq!(whole_from_bits((-3.0f64).to_bits()), None);
}

#[test]
fn little_endian_file_record_and_summaries() {
    let segs = [
        (-100.0, 100.0, [399, 3, 1, 2, 641, 4000]),
        (0.0, 50.5, [301, 3, 1, 3, 4001, 9000]),
    ];
    let buf = spk_file(false, &segs, 0.0);
    let fr = parse_file_record(&buf).unwrap();
    assert_eq!(fr.kind, DafKind::Spk);
    assert_eq!(fr.endian, Endian::Little);
    assert_eq!((fr.nd, fr.ni, fr.fwrd_idx, fr.bwrd_idx, fr.free_addr), (2, 6, 2, 2, 4000));
    let all = summaries(&buf, &fr).unwrap();
    assert_eq!(all.len(), 2);
    assert_eq!(all[0].ints, vec![399, 3, 1, 2, 641, 4000]);
    assert_eq!(all[1].doubles, vec![0.0f64.to_bits(), 50.5f64.to_bits()]);
    let s = SPKSummaryRecord::from_raw(
        &all[0],
        epoch_of_bits(all[0].doubles[0]),
        epoch_of_bits(all[0].doubles[1]),
    )
    .unwrap();
    assert_eq!((s.target_id, s.center_id, s.data_type_i), (399, 3, 2));
    assert_eq!(s.start_epoch.et_nanoseconds, -100_000_000_000);
}

#[test]
fn big_endian_file_reads_the_same() {
    let segs = [(1.0, 2.0, [-10, 399, 1, 13, 1, 60])];
    let le = spk_file(false, &segs, 0.0);
    let be = spk_file(true, &segs, 0.0);
    let fr_le = parse_file_record(&le).unwrap();
    let fr_be = parse_file_record(&be).unwrap();
    assert_eq!(fr_be.endian, Endian::Big);
    assert_eq!((fr_be.nd, fr_be.ni), (fr_le.nd, fr_le.ni));
    assert_eq!(summaries(&le, &fr_le).unwrap(), summaries(&be, &fr_be).unwrap());
}

#[test]
fn malformed_files() {
    let segs = [(1.0, 2.0, [-10, 399, 1, 13, 1, 60])];
    let mut bad_tag = spk_file(false, &segs, 0.0);
    put(&mut bad_tag, 0, b"NAIF/DAF");
    assert_eq!(parse_file_record(&bad_tag), Err(DAFError::MalformedFile));
    let mut bad_fmt = spk_file(false, &segs, 0.0);
    put(&mut bad_fmt, 88, b"VAX-GFLT");
    assert_eq!(parse_file_record(&bad_fmt), Err(DAFError::MalformedFile));
    assert_eq!(parse_file_record(&bad_fmt[..1000]), Err(DAFError::MalformedFile));
    // a record that links to itself never ends
    let looped = spk_file(false, &segs, 2.0);
    let fr = parse_file_record(&looped).unwrap();
    assert_eq!(summaries(&looped, &fr), Err(DAFError::MalformedFile));
    // a link past the end of the file
    let past = spk_file(false, &segs, 9.0);
    assert_eq!(summaries(&past, &fr), Err(DAFError::MalformedFile));
    // more summaries than a record holds
    let mut crowded = spk_file(false, &segs, 0.0);
    put_f64(&mut crowded, 1024 + 16, 30.0, false);
    assert_eq!(summaries(&crowded, &fr), Err(DAFError::MalformedFile));
}

#[test]
fn summaries_that_describe_no_segment() {
    let raw = RawSummary { doubles: vec![0, 0], ints: vec![3000, 1, 2, 10] };
    let t0 = Epoch { et_nanoseconds: 0 };
    let t1 = Epoch { et_nanoseconds: 10 };
    assert_eq!(BPCSummaryRecord::from_raw(&raw, t0, t1), Err(DAFError::MalformedSummary));
    let raw = RawSummary { doubles: vec![0, 0], ints: vec![3000, 1, 2, 10, 20] };
    assert_eq!(BPCSummaryRecord::from_raw(&raw, t1, t0), Err(DAFError::MalformedSummary));
    let s = BPCSummaryRecord::from_raw(&raw, t0, t1).unwrap();
    assert_eq!((s.frame_id, s.inertial_frame_id, s.start_idx, s.end_idx), (3000, 1, 10, 20));
    let reversed = RawSummary { doubles: vec![0, 0], ints: vec![3000, 1, 2, 20, 10] };
    assert_eq!(BPCSummaryRecord::from_raw(&reversed, t0, t1), Err(DAFError::MalformedSummary));
}
