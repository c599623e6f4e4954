use parser_lib::bin_format::{parse, serialize, MAGIC};
use parser_lib::{ParseError, Result, Status, Transaction, TxType};

fn sample_transactions() -> Vec<Transaction> {
    vec![
        Transaction {
            tx_id: 1001,
            tx_type: TxType::Deposit,
            from_user_id: 0,
            to_user_id: 501,
            amount: 50000,
            timestamp: 1672531200000,
            status: Status::Success,
            description: "Initial funding".to_string(),
        },
        Transaction {
            tx_id: 1002,
            tx_type: TxType::Transfer,
            from_user_id: 501,
            to_user_id: 502,
            amount: 15000,
            timestamp: 1672534800000,
            status: Status::Failure,
            description: "Transfer".to_string(),
        },
        Transaction {
            tx_id: 1003,
            tx_type: TxType::Withdrawal,
            from_user_id: 502,
            to_user_id: 0,
            amount: 1000,
            timestamp: 1672538400000,
            status: Status::Pending,
            description: "ATM".to_string(),
        },
    ]
}

#[test]
fn bin_format_test_round_trip() -> Result<()> {
    let original = sample_transactions();

    let mut buf = Vec::new();
    serialize(&original, &mut buf);

    let parsed = parse(&buf)?;
    assert_eq!(original, parsed);
    Ok(())
}

#[test]
fn test_magic_bytes_present() -> Result<()> {
    let tx = sample_transactions();
    let mut buf = Vec::new();
    serialize(&tx, &mut buf);

    assert_eq!(&buf[0..4], &MAGIC);
    Ok(())
}

#[test]
fn test_invalid_magic() {
    let data = b"\x00\x00\x00\x00\x00\x00\x00\x08garbage!";
    let result = parse(data.as_ref());
    assert!(matches!(result, Err(ParseError::InvalidMagic)));
}

#[test]
fn test_empty_description() -> Result<()> {
    let original = vec![Transaction {
        tx_id: 1,
        tx_type: TxType::Deposit,
        from_user_id: 0,
        to_user_id: 1,
        amount: 100,
        timestamp: 1000000,
        status: Status::Success,
        description: String::new(),
    }];

    let mut buf = Vec::new();
    serialize(&original, &mut buf);

    let parsed = parse(&buf)?;
    assert_eq!(original, parsed);
    Ok(())
}

/// The bytes of one record written out by hand: a deposit of 50000 cents to
/// account 501, with the description `"Initial funding"` in quotes.
fn example_file() -> Vec<u8> {
    let desc = b"\"Initial funding\"";
    let mut body = Vec::new();
    body.extend_from_slice(&1001u64.to_be_bytes());
    body.push(0);
    body.extend_from_slice(&0u64.to_be_bytes());
    body.extend_from_slice(&501u64.to_be_bytes());
    body.extend_from_slice(&50000i64.to_be_bytes());
    body.extend_from_slice(&1672531200000u64.to_be_bytes());
    body.push(0);
    body.extend_from_slice(&(desc.len() as u32).to_be_bytes());
    body.extend_from_slice(desc);
    let mut file = b"YPBN".to_vec();
    file.extend_from_slice(&(body.len() as u32).to_be_bytes());
    file.extend_from_slice(&body);
    file
}

#[test]
fn test_parse_example_file() -> Result<()> {
    let data = example_file();
    let records = parse(&data)?;
    assert!(!records.is_empty());
    Ok(())
}

#[test]
fn bin_example_file_fields() {
    let records = parse(&example_file()).unwrap();
    assert_eq!(records.len(), 1);
    assert_eq!(records[0].tx_id, 1001);
    assert_eq!(records[0].tx_type, TxType::Deposit);
    assert_eq!(records[0].to_user_id, 501);
    assert_eq!(records[0].amount, 50000);
    assert_eq!(records[0].status, Status::Success);
    // The quotes around the description are taken off.
    assert_eq!(records[0].description, "Initial funding");
}

#[test]
fn bin_empty_input_is_no_records() {
    assert_eq!(parse(&[]).unwrap(), Vec::<Transaction>::new());
}

#[test]
fn bin_exact_bytes_of_one_record() {
    let tx = Transaction {
        tx_id: 1,
        tx_type: TxType::Transfer,
        from_user_id: 2,
        to_user_id: 3,
        amount: 4,
        timestamp: 5,
        status: Status::Pending,
        description: "ab".to_string(),
    };
    let mut buf = vec![0xAA];
    serialize(&[tx], &mut buf);
    let mut expected = vec![0xAA, b'Y', b'P', b'B', b'N', 0, 0, 0, 48];
    expected.extend_from_slice(&[0, 0, 0, 0, 0, 0, 0, 1]);
    expected.push(1);
    expected.extend_from_slice(&[0, 0, 0, 0, 0, 0, 0, 2]);
    expected.extend_from_slice(&[0, 0, 0, 0, 0, 0, 0, 3]);
    expected.extend_from_slice(&[0, 0, 0, 0, 0, 0, 0, 4]);
    expected.extend_from_slice(&[0, 0, 0, 0, 0, 0, 0, 5]);
    expected.push(2);
    expected.extend_from_slice(&[0, 0, 0, 2]);
    expected.extend_from_slice(b"ab");
    assert_eq!(buf, expected);
}

#[test]
fn bin_truncated_header_is_io_error() {
    let result = parse(b"YP");
    match result {
        Err(ParseError::InvalidIo(msg)) => assert_eq!(msg, "failed to fill whole buffer"),
        other => panic!("unexpected {:?}", other),
    }
    assert!(matches!(parse(b"YPBN\x00\x00"), Err(ParseError::InvalidIo(_))));
    assert!(matches!(parse(b"YPBN\x00\x00\x00\x05abc"), Err(ParseError::InvalidIo(_))));
}

#[test]
fn bin_short_body_reports_missing_field() {
    let result = parse(b"YPBN\x00\x00\x00\x03abc");
    assert!(matches!(result, Err(ParseError::MissingField("TX_ID"))));
    let mut body = vec![0u8; 8];
    body.push(7);
    let mut data = b"YPBN".to_vec();
    data.extend_from_slice(&(body.len() as u32).to_be_bytes());
    data.extend_from_slice(&body);
    match parse(&data) {
        Err(ParseError::InvalidField { field, value }) => {
            assert_eq!(field, "TX_TYPE");
            assert_eq!(value, "7");
        }
        other => panic!("unexpected {:?}", other),
    }
}

#[test]
fn bin_bad_status_and_missing_description() {
    let tx = Transaction {
        tx_id: 9,
        tx_type: TxType::Deposit,
        from_user_id: 0,
        to_user_id: 1,
        amount: 1,
        timestamp: 2,
        status: Status::Success,
        description: "xyz".to_string(),
    };
    let mut buf = Vec::new();
    serialize(&[tx], &mut buf);
    let mut bad_status = buf.clone();
    bad_status[8 + 41] = 200;
    match parse(&bad_status) {
        Err(ParseError::InvalidField { field, value }) => {
            assert_eq!(field, "STATUS");
            assert_eq!(value, "200");
        }
        other => panic!("unexpected {:?}", other),
    }
    // Claim a longer description than the body holds.
    let mut long_desc = buf.clone();
    long_desc[8 + 45] = 9;
    assert!(matches!(parse(&long_desc), Err(ParseError::MissingField("DESCRIPTION"))));
}

#[test]
fn bin_invalid_utf8_description() {
    let tx = Transaction {
        tx_id: 9,
        tx_type: TxType::Deposit,
        from_user_id: 0,
        to_user_id: 1,
        amount: 1,
        timestamp: 2,
        status: Status::Success,
        description: "xy".to_string(),
    };
    let mut buf = Vec::new();
    serialize(&[tx], &mut buf);
    let n = buf.len();
    buf[n - 1] = 0xFF;
    assert!(matches!(parse(&buf), Err(ParseError::IsNotUtf8(_))));
}

#[test]
fn bin_amount_is_magnitude_of_signed_field() {
    let tx = Transaction {
        tx_id: 1,
        tx_type: TxType::Deposit,
        from_user_id: 0,
        to_user_id: 1,
        amount: u64::MAX,
        timestamp: 0,
        status: Status::Success,
        description: "  \"quoted\"  ".to_string(),
    };
    let mut buf = Vec::new();
    serialize(&[tx], &mut buf);
    let parsed = parse(&buf).unwrap();
    // u64::MAX has the bits of -1 as an i64.
    assert_eq!(parsed[0].amount, 1);
    // The description is trimmed and its quotes are taken off.
    assert_eq!(parsed[0].description, "quoted");
}

#[test]
fn bin_all_fit_on_ordinary_records() {
    assert!(parser_lib::bin_format::all_fit(&sample_transactions()));
}
