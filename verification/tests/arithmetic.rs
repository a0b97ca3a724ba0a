use entropy::arithmetic::{ArithmeticCode, RANGE_MAX};

#[test]
fn foo() {
    let data = b"A_DEAD_DAD_CEDED_A_BAD_BABE_A_BEADED_ABACA_BED";
    let msg = b"A_DEAD_DAD_";
    let code = ArithmeticCode::from_data(data);
    let comp = code.transform(msg).unwrap();
    println!("{:?} -> {:0x}", (String::from_utf8(msg.to_vec())), comp);
    println!(
        "{:?}",
        String::from_utf8(code.recover(comp, msg.len()).unwrap())
    );
}

#[test]
fn arithmetic_round_trip() {
    let data = b"A_DEAD_DAD_CEDED_A_BAD_BABE_A_BEADED_ABACA_BED";
    let msg = b"A_DEAD_DAD_";
    let code = ArithmeticCode::from_data(data);
    let comp = code.transform(msg).unwrap();
    let back = code.recover(comp, msg.len()).unwrap();
    assert_eq!(back, msg.to_vec());
}

#[test]
fn arithmetic_unknown_symbol() {
    let data = b"A_DEAD_DAD_CEDED_A_BAD_BABE_A_BEADED_ABACA_BED";
    let code = ArithmeticCode::from_data(data);
    assert_eq!(code.transform(b"QUD"), None);
}

#[test]
fn arithmetic_value_out_of_range() {
    let data = b"ABAB";
    let code = ArithmeticCode::from_data(data);
    // RANGE_MAX itself lies outside every half-open slice of the space.
    assert_eq!(code.recover(RANGE_MAX, 1), None);
}

#[test]
fn arithmetic_empty_message() {
    let data = b"ABAB";
    let code = ArithmeticCode::from_data(data);
    let comp = code.transform(b"").unwrap();
    let back = code.recover(comp, 0).unwrap();
    assert_eq!(back, Vec::<u8>::new());
}
