use stria::index::digest::{content_digest, hex_of};
use stria::index::schema::{
    is_count_overflow, pack_flags, pack_line_nos, unpack_count, unpack_is_def, unpack_line_nos,
    unpack_zone_int, COUNT_OVERFLOW,
};
use stria::search::hits::{
    candidate_count, cluster_count, flags_in, hit_quarters, prefix_pattern, read_hit, searches_inside,
    substring_pattern, unpack_first_line, weighs_definitions, Hit, LineSets,
};

#[test]
fn flags_come_out_as_they_went_in() {
    for is_def in -1..=2 {
        for zone in 0..=1 {
            for count in 0..=40u32 {
                let f = pack_flags(is_def, zone, count)[0];
                assert_eq!(unpack_is_def(f), is_def);
                assert_eq!(unpack_zone_int(f), zone);
                assert_eq!(unpack_count(f), if count <= 30 { count } else { 31 });
                assert_eq!(is_count_overflow(f), count > 30);
            }
        }
    }
    assert_eq!(COUNT_OVERFLOW, 31);
}

#[test]
fn flags_byte_is_exact() {
    assert_eq!(pack_flags(1, 0, 3), [0b0001_1010]);
    assert_eq!(pack_flags(-1, 1, 0), [0b0000_0100]);
    assert_eq!(pack_flags(2, 1, 31), [0xff]);
}

#[test]
fn lines_keep_sixteen_bits() {
    assert_eq!(pack_line_nos(0x1234), [0x34, 0x12]);
    assert_eq!(unpack_line_nos(&pack_line_nos(65535)), 65535);
    assert_eq!(unpack_line_nos(&pack_line_nos(65536 + 7)), 7);
    assert_eq!(unpack_line_nos(&[5]), 0);
    assert_eq!(unpack_line_nos(&[]), 0);
    assert_eq!(unpack_line_nos(&[1, 2, 3]), 513);
}

#[test]
fn wide_lines_are_signed() {
    assert_eq!(unpack_first_line(&[1, 0, 0]), None);
    assert_eq!(unpack_first_line(&[1, 2, 0, 0]), Some(513));
    assert_eq!(unpack_first_line(&(-5i32).to_le_bytes()), Some(-5));
    assert_eq!(unpack_first_line(&i32::MIN.to_le_bytes()), Some(i32::MIN));
    assert_eq!(unpack_first_line(&i32::MAX.to_le_bytes()), Some(i32::MAX));
    assert_eq!(unpack_first_line(&[1, 0, 0, 0, 9]), Some(1));
}

#[test]
fn hits_read_back_any_count() {
    for count in [1u32, 30, 31, 32, 5000] {
        let flags = pack_flags(2, 0, count);
        let line = pack_line_nos(70_000);
        let overflow = if count > 30 { count } else { 1 };
        assert_eq!(
            read_hit(&flags, &line, overflow),
            Hit { count, is_def: 2, zone: 0, first_line: 70_000 - 65_536 }
        );
    }
    assert_eq!(read_hit(&[], &[], 9), Hit { count: 0, is_def: -1, zone: 0, first_line: 0 });
    assert_eq!(flags_in(&[]), 0);
    assert_eq!(flags_in(&[7, 8]), 7);
}

#[test]
fn weights_of_hits() {
    assert_eq!(hit_quarters(0, 2), 64);
    assert_eq!(hit_quarters(0, 1), 40);
    assert_eq!(hit_quarters(0, -1), 16);
    assert_eq!(hit_quarters(0, 0), 8);
    assert_eq!(hit_quarters(1, 2), 8);
    assert_eq!(hit_quarters(1, 0), 1);
    assert!(weighs_definitions(1, 2));
    assert!(!weighs_definitions(0, 2));
    assert!(!weighs_definitions(1, 0));
}

#[test]
fn patterns_of_terms() {
    assert_eq!(prefix_pattern("gen"), "gen%");
    assert_eq!(substring_pattern("gen"), "%gen%");
    assert!(!searches_inside("gen"));
    assert!(searches_inside("gens"));
    assert!(searches_inside("\u{fc}\u{fc}"));
    assert_eq!(candidate_count(10, 1000), 50);
    assert_eq!(candidate_count(10, 7), 7);
    assert_eq!(cluster_count(50), 20);
    assert_eq!(cluster_count(3), 3);
}

#[test]
fn line_sets_by_term() {
    let mut l = LineSets::new();
    l.record(1, 0, 12);
    l.record(2, 0, 40);
    l.record(1, 2, 14);
    l.record(1, 1, 0);
    l.record(1, 2, 20);
    assert_eq!(l.lines_in(1, 3), vec![vec![12], vec![14, 20]]);
    assert_eq!(l.lines_in(2, 3), vec![vec![40]]);
    assert_eq!(l.lines_in(3, 3), Vec::<Vec<i32>>::new());
}

#[test]
fn digests_are_sha256_in_hex() {
    assert_eq!(
        content_digest(b"abc"),
        "ba7816bf8f01cfea414140de5dae2223b00361a396177a9cb410ff61f20015ad"
    );
    assert_eq!(
        content_digest(b""),
        "e3b0c44298fc1c149afbf4c8996fb92427ae41e4649b934ca495991b7852b855"
    );
    assert_eq!(hex_of(&[0, 0x0f, 0xa0, 0xff]), "000fa0ff");
}
