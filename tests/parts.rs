use needle_scan::emit::format_line;
use needle_scan::fingerprint::{fingerprint, roll};
use needle_scan::reader::{ReadError, SequenceReader};
use needle_scan::scan::Matcher;
use needle_scan::table::Table256bit;

fn pattern(v: u32, m: usize) -> Vec<u8> {
    (0..m).map(|j| if (v >> j) & 1 == 1 { b'1' } else { b'0' }).collect()
}

#[test]
fn fingerprint_packs_bits_low_first() {
    assert_eq!(fingerprint(b"0110", 0, 4), 6);
    assert_eq!(fingerprint(b"1", 0, 1), 1);
    assert_eq!(fingerprint(b"xx0110", 2, 4), 6);
    assert_eq!(fingerprint(b"10000000000000000001", 0, 20), 1 + (1 << 19));
    assert_eq!(fingerprint("1".repeat(32).as_bytes(), 0, 32), u32::MAX);
    assert_eq!(fingerprint("0".repeat(32).as_bytes(), 0, 32), 0);
}

#[test]
fn roll_shifts_in_the_next_character() {
    assert_eq!(roll(6, 4, b'1'), 11);
    assert_eq!(roll(6, 4, b'0'), 3);
    assert_eq!(roll(u32::MAX, 32, b'1'), u32::MAX);
    assert_eq!(roll(1, 32, b'0'), 0);
}

#[test]
fn rolling_matches_direct_encoding() {
    for m in 1..=32usize {
        let hay: Vec<u8> = (0..m + 40).map(|i| if (i * 7 + m) % 3 == 0 { b'1' } else { b'0' }).collect();
        let mut num = fingerprint(&hay, 0, m);
        for p in 0..hay.len() - m {
            num = roll(num, m, hay[p + m]);
            assert_eq!(num, fingerprint(&hay, p + 1, m));
        }
    }
}

#[test]
fn fingerprints_are_injective_for_small_widths() {
    for m in 1..=12usize {
        let mut seen = std::collections::HashSet::new();
        for v in 0..(1u32 << m) {
            assert!(seen.insert(fingerprint(&pattern(v, m), 0, m)));
        }
    }
}

#[test]
fn table_finds_what_was_inserted() {
    let mut t = Table256bit::new(4);
    t.insert(7, 1);
    t.insert(23, 2);
    assert_eq!(t.search(7), Some(1));
    assert_eq!(t.search(23), Some(2));
    assert_eq!(t.search(8), None);
}

#[test]
fn table_keeps_the_latest_value() {
    let mut t = Table256bit::new(2);
    t.insert(5, 1);
    t.insert(5, 9);
    assert_eq!(t.search(5), Some(9));
}

#[test]
fn table_holds_the_all_ones_key() {
    let mut t = Table256bit::new(1);
    assert_eq!(t.search(u32::MAX), None);
    t.insert(u32::MAX, 3);
    assert_eq!(t.search(u32::MAX), Some(3));
}

#[test]
fn table_probes_past_colliding_keys() {
    let n = 200u32;
    let mut t = Table256bit::new(n as usize);
    for i in 0..n {
        t.insert(i * 4096, i + 1);
    }
    for i in 0..n {
        assert_eq!(t.search(i * 4096), Some(i + 1));
    }
    assert_eq!(t.search(n * 4096), None);
    assert_eq!(t.search(1), None);
}

#[test]
fn table_built_from_entries_keeps_last_values() {
    let entries = vec![(1u32, 10u32), (2, 20), (1, 30), (99, 40)];
    let t = Table256bit::build(&entries);
    assert_eq!(t.search(1), Some(30));
    assert_eq!(t.search(2), Some(20));
    assert_eq!(t.search(99), Some(40));
    assert_eq!(t.search(3), None);
}

#[test]
fn empty_table_finds_nothing() {
    let t = Table256bit::new(0);
    assert_eq!(t.search(0), None);
    assert_eq!(t.search(12345), None);
}

#[test]
fn format_line_joins_with_spaces() {
    assert_eq!(format_line(&vec![]), b"OK".to_vec());
    assert_eq!(format_line(&vec![1, 2, 3]), b"1 2 3".to_vec());
    assert_eq!(format_line(&vec![10, 205, 4000000000]), b"10 205 4000000000".to_vec());
    assert_eq!(format_line(&vec![0]), b"0".to_vec());
}

#[test]
fn matcher_scans_and_resets_between_haystacks() {
    let needles = vec![b"01".to_vec(), b"10".to_vec(), b"11".to_vec()];
    let mut mt = Matcher::new(2, &needles);
    assert_eq!(mt.scan(b"0110"), vec![1, 3, 2].into_iter().fold(Vec::new(), |mut v, x| {
        v.push(x);
        v.sort();
        v
    }));
    assert_eq!(mt.scan(b"00"), Vec::<u32>::new());
    assert_eq!(mt.scan(b"1"), Vec::<u32>::new());
    assert_eq!(mt.scan(b"111"), vec![3]);
}

#[test]
fn matcher_with_duplicates_reports_later_only() {
    let needles = vec![b"00".to_vec(), b"00".to_vec()];
    let mut mt = Matcher::new(2, &needles);
    assert_eq!(mt.scan(b"000"), vec![2]);
}

#[test]
fn reader_reads_the_whole_format() {
    let mut rd = SequenceReader::new(b"2 3\n101\n011\n2\n4\n1010\n0\n\n".to_vec()).unwrap();
    assert_eq!(rd.get_k(), 2);
    assert_eq!(rd.get_m(), 3);
    assert_eq!(rd.read_needles(), Ok(vec![b"101".to_vec(), b"011".to_vec()]));
    assert_eq!(rd.read_n(), Ok(2));
    assert_eq!(rd.next(), Ok(b"1010".to_vec()));
    assert_eq!(rd.next(), Ok(Vec::new()));
    assert_eq!(rd.next(), Err(ReadError::EndOfStream));
}

#[test]
fn reader_errors() {
    assert_eq!(SequenceReader::new(Vec::new()).err(), Some(ReadError::EndOfStream));
    assert_eq!(SequenceReader::new(b"1  2\n".to_vec()).err(), Some(ReadError::Parse));
    assert_eq!(SequenceReader::new(b"99999999999999999999999 2\n".to_vec()).err(), Some(ReadError::Parse));
    assert_eq!(SequenceReader::new(b"268435456 2\n".to_vec()).err(), Some(ReadError::Parse));
    let mut rd = SequenceReader::new(b"1 2\n01\nx\n".to_vec()).unwrap();
    assert!(rd.read_needles().is_ok());
    assert_eq!(rd.read_n(), Err(ReadError::Parse));
    let mut rd = SequenceReader::new(b"0 2\n1\n3\n01\n".to_vec()).unwrap();
    assert_eq!(rd.read_needles(), Ok(Vec::new()));
    assert_eq!(rd.read_n(), Ok(1));
    assert_eq!(rd.next(), Err(ReadError::Parse));
}
