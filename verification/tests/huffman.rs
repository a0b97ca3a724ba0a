use entropy::bitvec::BitVec;
use entropy::compress::Code;
use entropy::huffman::HuffmanCode;

fn bits_of(mut b: BitVec) -> Vec<bool> {
    let mut v: Vec<bool> = Vec::new();
    while let Some(x) = b.pop() {
        v.push(x);
    }
    v.reverse();
    v
}

#[test]
fn frequency_test() {
    let data = b"AAAAAAAAAABBBBCCCCCCCDDEEE";
    let code = HuffmanCode::from_data(data);

    assert_eq!(code.encode(b"A"), Some(BitVec::from_block(0b00000000, 0)));
    assert_eq!(code.encode(b"B"), Some(BitVec::from_block(0b11000000, 2)));
    assert_eq!(code.encode(b"C"), Some(BitVec::from_block(0b10000000, 1)));
    assert_eq!(code.encode(b"D"), Some(BitVec::from_block(0b11100000, 3)));
    assert_eq!(code.encode(b"E"), Some(BitVec::from_block(0b11110000, 3)));
}

#[test]
fn huffman_round_trip() {
    let data = b"AAAAAAAAAABBBBCCCCCCCDDEEE";
    let code = HuffmanCode::from_data(data);
    let msg = b"ABCDEEDCBAACE";
    let buffer = code.encode(msg).unwrap();
    let back = code.decode(&buffer, msg.len()).unwrap();
    assert_eq!(back, msg.to_vec());
}

#[test]
fn huffman_unknown_symbol() {
    let data = b"AAAAAAAAAABBBBCCCCCCCDDEEE";
    let code = HuffmanCode::from_data(data);
    assert_eq!(code.encode(b"AXA"), None);
}

#[test]
fn huffman_prefix_free() {
    let data = b"AAAAAAAAAABBBBCCCCCCCDDEEE";
    let code = HuffmanCode::from_data(data);
    let symbols = b"ABCDE";
    let codes: Vec<Vec<bool>> = symbols
        .iter()
        .map(|s| bits_of(code.encode(&[*s]).unwrap()))
        .collect();
    for i in 0..codes.len() {
        for j in 0..codes.len() {
            if i != j {
                let a = &codes[i];
                let b = &codes[j];
                assert!(a.len() > b.len() || a[..] != b[..a.len()]);
            }
        }
    }
}

#[test]
fn huffman_single_symbol() {
    let data = b"ZZZZ";
    let code = HuffmanCode::from_data(data);
    let buffer = code.encode(b"Z").unwrap();
    assert!(buffer.is_empty());
    let back = code.decode(&buffer, 3).unwrap();
    assert_eq!(back, b"ZZZ".to_vec());
}
