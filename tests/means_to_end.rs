use protohackers::means_to_end::{decode_int32, decode_message, Account, DecodeError, Deposit, Message, Query};

#[test]
fn decodes_big_endian_integers() {
    assert_eq!(decode_int32(&[0, 0, 0x30, 0x39]), Ok(12345));
    assert_eq!(decode_int32(&[0xff, 0xff, 0xff, 0xff]), Ok(-1));
    assert_eq!(decode_int32(&[0x80, 0, 0, 0]), Ok(i32::MIN));
    assert_eq!(decode_int32(&[0x7f, 0xff, 0xff, 0xff]), Ok(i32::MAX));
    assert_eq!(decode_int32(&[1, 2, 3]), Err(DecodeError::WrongLength));
}

#[test]
fn decodes_messages() {
    let insert = [0x49, 0x00, 0x00, 0x30, 0x39, 0x00, 0x00, 0x00, 0x65];
    assert_eq!(
        decode_message(&insert),
        Ok(Message::Insert(Deposit { timestamp: 12345, price: 101 }))
    );
    let query = [0x51, 0x00, 0x00, 0x03, 0xe8, 0x00, 0x01, 0x86, 0xa0];
    assert_eq!(decode_message(&query), Ok(Message::Query(Query { min_time: 1000, max_time: 100000 })));
    let other = [0x58, 0, 0, 0, 0, 0, 0, 0, 0];
    assert_eq!(decode_message(&other), Err(DecodeError::NotSupported));
}

#[test]
fn query_takes_mean_in_window() {
    let mut account = Account::new();
    account.deposit(Deposit { timestamp: 12345, price: 101 });
    account.deposit(Deposit { timestamp: 12346, price: 102 });
    account.deposit(Deposit { timestamp: 12347, price: 100 });
    account.deposit(Deposit { timestamp: 40960, price: 5 });
    assert_eq!(account.query(12288, 16384), 101);
    assert_eq!(account.query(0, 1), 0);
    assert_eq!(account.query(16384, 12288), 0);
}

#[test]
fn query_rounds_toward_zero_and_handles_extremes() {
    let mut account = Account::new();
    account.deposit(Deposit { timestamp: 1, price: -3 });
    account.deposit(Deposit { timestamp: 2, price: -4 });
    assert_eq!(account.query(1, 2), -3);
    let mut big = Account::new();
    big.deposit(Deposit { timestamp: 0, price: i32::MAX });
    big.deposit(Deposit { timestamp: 0, price: i32::MAX });
    assert_eq!(big.query(i32::MIN, i32::MAX), i32::MAX);
    assert_eq!(big.apply(Message::Query(Query { min_time: 0, max_time: 0 })), Some(i32::MAX));
    assert_eq!(big.apply(Message::Insert(Deposit { timestamp: 5, price: 1 })), None);
    assert_eq!(big.query(5, 5), 1);
}
