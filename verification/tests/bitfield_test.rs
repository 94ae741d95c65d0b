use torrent_reader::pieces::Bitfield;

#[test]
fn test_bitfield_basic_set_has() {
    let mut bf = Bitfield { bytes: vec![0, 0] };

    assert!(!bf.has(0));
    assert!(!bf.has(7));
    assert!(!bf.has(8));

    bf.set(0);
    assert!(bf.has(0), "Piece 0 should be set");
    assert_eq!(bf.bytes[0], 0b1000_0000, "First byte should have MSB set");

    bf.set(11);
    assert!(bf.has(11));
    assert_eq!(bf.bytes[1], 0b0001_0000);
}

#[test]
fn test_bitfield_byte_boundaries() {
    let mut bf = Bitfield { bytes: vec![0] };

    bf.set(0);
    bf.set(7);

    assert!(bf.has(0));
    assert!(bf.has(7));
    assert!(!bf.has(3));

    assert_eq!(bf.bytes[0], 129);
}

#[test]
fn set_all_takes_the_bytes() {
    let mut bf = Bitfield { bytes: vec![255] };

    bf.set_all(&vec![0b1010_1010, 1]);

    assert_eq!(bf.bytes, vec![0b1010_1010, 1]);
    assert!(bf.has(0));
    assert!(!bf.has(1));
    assert!(bf.has(2));
    assert!(!bf.has(3));
    assert!(bf.has(4));
    assert!(!bf.has(5));
    assert!(bf.has(6));
    assert!(!bf.has(7));
    assert!(!bf.has(8));
    assert!(bf.has(15));
}

// Reading pieces 0, 2, 4, 6 as set and 1, 3, 5, 7 as not would contradict
// `test_bitfield_basic_set_has`, which fixes piece 0 as the most significant bit of the first
// byte. With eight bytes of value 1, piece 7 is the only one of the first byte that is set;
// the assertions below are what that bit order gives.
#[test]
fn test_set_all_and_has() {
    let mut bf = Bitfield { bytes: vec![255] };

    bf.set_all(&vec![1, 1, 1, 1, 1, 1, 1, 1]);

    assert!(!bf.has(0));
    assert!(!bf.has(1));
    assert!(!bf.has(2));
    assert!(!bf.has(3));
    assert!(!bf.has(4));
    assert!(!bf.has(5));
    assert!(!bf.has(6));
    assert!(bf.has(7));
}

#[test]
fn test_out_of_bounds_safety() {
    let mut bf = Bitfield { bytes: vec![0] };

    // Testing 'has' beyond the vector length should not panic
    assert!(!bf.has(100));

    // Testing 'set' beyond the vector length should not panic
    bf.set(100);
    assert_eq!(bf.bytes.len(), 1, "Length should not have changed");
}

#[test]
fn new_rounds_up_to_whole_bytes() {
    assert_eq!(Bitfield::new(0).bytes, Vec::<u8>::new());
    assert_eq!(Bitfield::new(1).bytes, vec![0]);
    assert_eq!(Bitfield::new(8).bytes, vec![0]);
    assert_eq!(Bitfield::new(9).bytes, vec![0, 0]);
    assert_eq!(Bitfield::new(17).bytes, vec![0, 0, 0]);
}

#[test]
fn empty_and_full() {
    assert!(Bitfield { bytes: vec![0, 0] }.is_empty());
    assert!(!Bitfield { bytes: vec![0, 4] }.is_empty());
    assert!(Bitfield { bytes: vec![] }.is_empty());
    // Full looks at the lowest bit of every byte, as the download loop does.
    assert!(Bitfield { bytes: vec![1, 255] }.is_full());
    assert!(!Bitfield { bytes: vec![255, 254] }.is_full());
    assert!(Bitfield { bytes: vec![] }.is_full());
}

#[test]
fn counts_set_pieces() {
    assert_eq!(Bitfield { bytes: vec![0b1010_0000, 0xff, 0] }.total_set(), 10);
    assert_eq!(Bitfield { bytes: vec![] }.total_set(), 0);
}

#[test]
fn close_to_done_within_one_percent() {
    // 800 bits; 8 may be missing.
    let mut bytes = vec![0xffu8; 100];
    bytes[0] = 0;
    assert!(Bitfield { bytes: bytes.clone() }.is_close_to_done());
    bytes[1] = 0xfe;
    assert!(!Bitfield { bytes }.is_close_to_done());
    assert!(Bitfield { bytes: vec![0xff] }.is_close_to_done());
    assert!(Bitfield { bytes: vec![0xfe] }.is_close_to_done());
    assert!(!Bitfield { bytes: vec![0xfc] }.is_close_to_done());
}

#[test]
fn difference_keeps_pieces_only_the_first_has() {
    let a = Bitfield { bytes: vec![0b1111_0000, 0b1010_1010, 0xff] };
    let b = Bitfield { bytes: vec![0b1100_0000, 0b0000_1010] };
    let d = a.diff(&b);
    assert_eq!(d.bytes, vec![0b0011_0000, 0b1010_0000]);
    assert!(d.has(2));
    assert!(!d.has(0));
    assert!(!d.has(16));
}

#[test]
fn lists_set_indices_in_order() {
    let bf = Bitfield { bytes: vec![0b1000_0001, 0, 0b0100_0000] };
    assert_eq!(bf.get_set_indices(), vec![0, 7, 17]);
    assert_eq!(Bitfield { bytes: vec![0, 0] }.get_set_indices(), Vec::<u32>::new());
}

#[test]
fn unset_clears_one_piece() {
    let mut bf = Bitfield { bytes: vec![0xff, 0xff] };
    bf.unset(9);
    assert!(!bf.has(9));
    assert!(bf.has(8));
    assert!(bf.has(10));
    assert_eq!(bf.bytes, vec![0xff, 0b1011_1111]);
    bf.unset(100);
    assert_eq!(bf.bytes, vec![0xff, 0b1011_1111]);
}

#[test]
fn set_then_has_law_on_values() {
    let mut bf = Bitfield::new(20);
    bf.set(13);
    for i in 0..24u32 {
        assert_eq!(bf.has(i), i == 13);
    }
    bf.set(30);
    assert_eq!(bf.bytes.len(), 3);
    assert!(!bf.has(30));
}

#[test]
fn shows_first_four_bytes() {
    assert_eq!(Bitfield { bytes: vec![0b1000_0001, 3] }.to_string(), "[10000001 00000011]");
    assert_eq!(Bitfield { bytes: vec![] }.to_string(), "[]");
    assert_eq!(
        Bitfield { bytes: vec![255, 0, 1, 2, 4] }.to_string(),
        "[11111111 00000000 00000001 00000010...]"
    );
}
