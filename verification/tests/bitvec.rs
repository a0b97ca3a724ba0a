use entropy::bitvec::BitVec;

fn bits_of(mut b: BitVec) -> Vec<bool> {
    let mut v: Vec<bool> = Vec::new();
    while let Some(x) = b.pop() {
        v.push(x);
    }
    v.reverse();
    v
}

#[test]
fn debug() {
    let mut a = BitVec::new();

    assert_eq!("[ ]", a.debug_string());

    a.push(true);
    a.push(false);
    a.push(true);
    a.push(false);
    a.push(true);

    assert_eq!("[ 10101 ]", a.debug_string());

    a.push(true);
    a.push(true);
    a.push(true);
    a.push(true);

    assert_eq!("[ 10101111 1 ]", a.debug_string());
}

#[test]
fn push() {
    let mut bec = BitVec::new();
    let mut vec = Vec::new();

    bec.push(true);
    vec.push(true);

    assert_eq!(bec.pop(), vec.pop());
}

#[test]
fn concat() {
    // a = 10101
    let mut a = BitVec::new();
    a.push(true);
    a.push(false);
    a.push(true);
    a.push(false);
    a.push(true);

    // c = 1 11110101
    let mut c = a.clone();
    c.push(true);
    c.push(true);
    c.push(true);
    c.push(true);

    // b = 1111
    let mut b = BitVec::new();
    b.push(true);
    b.push(true);
    b.push(true);
    b.push(true);

    // a = 1 11110101
    a.concat(b);
    assert_eq!(a, c);
}

#[test]
fn concat_complete() {
    // a = 0101
    let mut a = BitVec::new();
    a.push(true);
    a.push(false);
    a.push(true);
    a.push(false);

    // c = 11110101
    let mut c = a.clone();
    c.push(true);
    c.push(true);
    c.push(true);
    c.push(true);

    // b = 1111
    let mut b = BitVec::new();
    b.push(true);
    b.push(true);
    b.push(true);
    b.push(true);

    // a = 11110101
    a.concat(b);
    assert_eq!(a, c);
}

#[test]
fn concat_from_empty() {
    let mut a = BitVec::new();
    let c = a.clone();
    let b = BitVec::new();
    a.concat(b);
    assert_eq!(a, c);
}

#[test]
fn concat_to_empty() {
    let mut a = BitVec::new();
    let mut b = BitVec::new();

    b.push(true);
    b.push(false);
    b.push(true);
    b.push(false);
    b.push(true);

    let c = b.clone();
    a.concat(b);
    assert_eq!(a, c);
}

#[test]
fn concat_both_aligned() {
    let mut a = BitVec::new();
    let mut b = BitVec::new();
    let mut expect: Vec<bool> = Vec::new();
    for i in 0..8 {
        let bit = i % 2 == 0;
        a.push(bit);
        expect.push(bit);
    }
    for i in 0..16 {
        let bit = i % 3 == 0;
        b.push(bit);
        expect.push(bit);
    }
    assert!(a.is_aligned());
    assert!(b.is_aligned());
    a.concat(b);
    assert_eq!(bits_of(a), expect);
}

#[test]
fn concat_long_misaligned() {
    // Both operands misaligned, with several full blocks crossing the seam.
    let mut a = BitVec::new();
    let mut b = BitVec::new();
    let mut expect: Vec<bool> = Vec::new();
    for i in 0..13 {
        let bit = (i * 5) % 7 < 3;
        a.push(bit);
        expect.push(bit);
    }
    for i in 0..21 {
        let bit = (i * 3) % 5 < 2;
        b.push(bit);
        expect.push(bit);
    }
    a.concat(b);
    assert_eq!(bits_of(a), expect);
}

#[test]
fn push_increments_len() {
    let mut a = BitVec::new();
    for i in 0..20 {
        assert_eq!(a.len(), i);
        a.push(i % 2 == 0);
        assert_eq!(a.len(), i + 1);
    }
}

#[test]
fn pop_empty() {
    let mut a = BitVec::new();
    assert_eq!(a.pop(), None);
    assert!(a.is_empty());
    assert_eq!(a.len(), 0);
}

#[test]
fn pop_then_push_restores() {
    let mut a = BitVec::new();
    a.push(true);
    a.push(false);
    a.push(true);
    let c = a.clone();
    let bit = a.pop().unwrap();
    a.push(bit);
    assert_eq!(a, c);
}

#[test]
fn from_block_matches_pushes() {
    let mut a = BitVec::new();
    a.push(true);
    a.push(true);
    a.push(false);
    assert_eq!(a, BitVec::from_block(0b11000000, 2));
}

#[test]
fn from_bytes_strips_trailing_zeros() {
    let v = BitVec::from_bytes(vec![0b10100000, 0b00000000]);
    let mut expect = BitVec::new();
    expect.push(true);
    expect.push(false);
    expect.push(true);
    assert_eq!(v, expect);

    assert_eq!(BitVec::from_bytes(Vec::new()), BitVec::new());
    assert_eq!(BitVec::from_bytes(vec![0, 0, 0]), BitVec::new());

    let w = BitVec::from_bytes(vec![0b10101111, 0b10000000]);
    assert_eq!("[ 10101111 1 ]", w.debug_string());
}

#[test]
fn alignment() {
    let mut a = BitVec::new();
    assert!(a.is_aligned());
    for _ in 0..7 {
        a.push(true);
        assert!(!a.is_aligned());
    }
    a.push(false);
    assert!(a.is_aligned());
    assert_eq!(a.len(), 8);
}
