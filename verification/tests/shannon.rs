use entropy::bitvec::BitVec;
use entropy::compress::Code;
use entropy::shannon::ShannonCode;

fn bits_of(mut b: BitVec) -> Vec<bool> {
    let mut v: Vec<bool> = Vec::new();
    while let Some(x) = b.pop() {
        v.push(x);
    }
    v.reverse();
    v
}

#[test]
fn lib_frequency_test() {
    let data = b"AAAAAAAAAABBBBCCCCCCCDDEEE";
    let code = ShannonCode::from_data(data);

    assert_eq!(code.encode(b"A"), Some(BitVec::from_block(0b00000000, 0)));
    assert_eq!(code.encode(b"B"), Some(BitVec::from_block(0b11000000, 2)));
    assert_eq!(code.encode(b"C"), Some(BitVec::from_block(0b10000000, 1)));
    assert_eq!(code.encode(b"D"), Some(BitVec::from_block(0b11110000, 3)));
    assert_eq!(code.encode(b"E"), Some(BitVec::from_block(0b11100000, 3)));
}

#[test]
fn shannon_first_split() {
    // Frequencies 40, 35, 20, 5: the first split must separate the first
    // element (|40 - 60| = 20 beats |75 - 25| = 50 and |95 - 5| = 90), and
    // the recursion then peels one symbol per level.
    let mut data: Vec<u8> = Vec::new();
    for _ in 0..40 {
        data.push(b'A');
    }
    for _ in 0..35 {
        data.push(b'B');
    }
    for _ in 0..20 {
        data.push(b'C');
    }
    for _ in 0..5 {
        data.push(b'D');
    }
    let code = ShannonCode::from_data(&data);
    assert_eq!(bits_of(code.encode(b"A").unwrap()), vec![false]);
    assert_eq!(bits_of(code.encode(b"B").unwrap()), vec![true, false]);
    assert_eq!(bits_of(code.encode(b"C").unwrap()), vec![true, true, false]);
    assert_eq!(bits_of(code.encode(b"D").unwrap()), vec![true, true, true]);
}

#[test]
fn shannon_round_trip() {
    let data = b"AAAAAAAAAABBBBCCCCCCCDDEEE";
    let code = ShannonCode::from_data(data);
    let msg = b"EDCBAABCDEBBC";
    let buffer = code.encode(msg).unwrap();
    let back = code.decode(&buffer, msg.len()).unwrap();
    assert_eq!(back, msg.to_vec());
}

#[test]
fn shannon_unknown_symbol() {
    let data = b"AAAAAAAAAABBBBCCCCCCCDDEEE";
    let code = ShannonCode::from_data(data);
    assert_eq!(code.encode(b"F"), None);
}
