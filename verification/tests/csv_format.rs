use parser_lib::csv_format::{parse, serialize};
use parser_lib::{ParseError, Result, Status, Transaction, TxType};

fn sample_transactions() -> Vec<Transaction> {
    vec![
        Transaction {
            tx_id: 1001,
            tx_type: TxType::Deposit,
            from_user_id: 0,
            to_user_id: 501,
            amount: 50000,
            timestamp: 1672531200000,
            status: Status::Success,
            description: "Initial account funding".to_string(),
        },
        Transaction {
            tx_id: 1002,
            tx_type: TxType::Transfer,
            from_user_id: 501,
            to_user_id: 502,
            amount: 15000,
            timestamp: 1672534800000,
            status: Status::Failure,
            description: "Payment for services, invoice #123".to_string(),
        },
        Transaction {
            tx_id: 1003,
            tx_type: TxType::Withdrawal,
            from_user_id: 502,
            to_user_id: 0,
            amount: 1000,
            timestamp: 1672538400000,
            status: Status::Pending,
            description: "ATM withdrawal".to_string(),
        },
    ]
}

#[test]
fn csv_format_test_round_trip() -> Result<()> {
    let original = sample_transactions();

    let mut buf = Vec::new();
    serialize(&original, &mut buf);

    let parsed = parse(&buf)?;

    assert_eq!(original, parsed);
    Ok(())
}

#[test]
fn test_description_with_commas() -> Result<()> {
    let original = vec![Transaction {
        tx_id: 1002,
        tx_type: TxType::Transfer,
        from_user_id: 501,
        to_user_id: 502,
        amount: 15000,
        timestamp: 1672534800000,
        status: Status::Failure,
        description: "Payment for services, invoice #123".to_string(),
    }];

    let mut buf = Vec::new();
    serialize(&original, &mut buf);

    let parsed = parse(&buf)?;
    assert_eq!(original[0].description, parsed[0].description);
    Ok(())
}

#[test]
fn test_invalid_header() {
    let data = b"WRONG_HEADER\n1001,DEPOSIT,0,501,50000,1672531200000,SUCCESS,\"desc\"\n";
    let result = parse(data.as_ref());
    assert!(matches!(
        result,
        Err(ParseError::InvalidField {
            field: "header",
            ..
        })
    ));
}

#[test]
fn test_empty_lines_ignored() -> Result<()> {
    let data =
        b"TX_ID,TX_TYPE,FROM_USER_ID,TO_USER_ID,AMOUNT,TIMESTAMP,STATUS,DESCRIPTION\n\n1001,DEPOSIT,0,501,50000,1672531200000,SUCCESS,\"desc\"\n\n";
    let parsed = parse(data.as_ref())?;
    assert_eq!(parsed.len(), 1);
    Ok(())
}

#[test]
fn csv_exact_text() {
    let tx = Transaction {
        tx_id: 7,
        tx_type: TxType::Withdrawal,
        from_user_id: 12,
        to_user_id: 0,
        amount: 300,
        timestamp: 99,
        status: Status::Pending,
        description: "Café".to_string(),
    };
    let mut buf = Vec::new();
    serialize(&[tx], &mut buf);
    assert_eq!(
        String::from_utf8(buf).unwrap(),
        "TX_ID,TX_TYPE,FROM_USER_ID,TO_USER_ID,AMOUNT,TIMESTAMP,STATUS,DESCRIPTION\n7,WITHDRAWAL,12,0,300,99,PENDING,\"Café\"\n"
    );
}

#[test]
fn csv_empty_input_misses_header() {
    assert!(matches!(parse(b""), Err(ParseError::MissingField("CSV header"))));
}

#[test]
fn csv_header_only_is_no_records() {
    let parsed = parse(b"  TX_ID,TX_TYPE,FROM_USER_ID,TO_USER_ID,AMOUNT,TIMESTAMP,STATUS,DESCRIPTION \r\n").unwrap();
    assert!(parsed.is_empty());
}

#[test]
fn csv_fields_are_trimmed_and_plus_accepted() {
    let data = b"TX_ID,TX_TYPE,FROM_USER_ID,TO_USER_ID,AMOUNT,TIMESTAMP,STATUS,DESCRIPTION\r\n +5 , TRANSFER ,1,2,3,4, FAILURE , \"a, b\" \r\n";
    let parsed = parse(data.as_ref()).unwrap();
    assert_eq!(parsed.len(), 1);
    assert_eq!(parsed[0].tx_id, 5);
    assert_eq!(parsed[0].tx_type, TxType::Transfer);
    assert_eq!(parsed[0].status, Status::Failure);
    assert_eq!(parsed[0].description, "a, b");
}

#[test]
fn csv_errors_name_the_field() {
    let header = "TX_ID,TX_TYPE,FROM_USER_ID,TO_USER_ID,AMOUNT,TIMESTAMP,STATUS,DESCRIPTION\n";
    let cases: [(&str, &str, &str); 7] = [
        ("1,DEPOSIT,0,1,2,3,SUCCESS", "CSV record", "1,DEPOSIT,0,1,2,3,SUCCESS"),
        ("x1,DEPOSIT,0,1,2,3,SUCCESS,\"d\"", "TX_ID", "x1"),
        ("1,LOAN,0,1,2,3,SUCCESS,\"d\"", "TX_TYPE", "LOAN"),
        ("1,DEPOSIT, -1 ,1,2,3,SUCCESS,\"d\"", "FROM_USER_ID", " -1 "),
        ("1,DEPOSIT,0,1,18446744073709551616,3,SUCCESS,\"d\"", "AMOUNT", "18446744073709551616"),
        ("1,DEPOSIT,0,1,2,3,DONE,\"d\"", "STATUS", "DONE"),
        ("1,DEPOSIT,0,1,2,3,SUCCESS,d", "DESCRIPTION", "d"),
    ];
    for (line, field, value) in cases {
        let data = format!("{header}{line}\n");
        match parse(data.as_bytes()) {
            Err(ParseError::InvalidField { field: f, value: v }) => {
                assert_eq!(f, field);
                assert_eq!(v, value);
            }
            other => panic!("unexpected {:?} for {line}", other),
        }
    }
}

#[test]
fn csv_invalid_utf8_line_is_io_error() {
    let mut data = b"TX_ID,TX_TYPE,FROM_USER_ID,TO_USER_ID,AMOUNT,TIMESTAMP,STATUS,DESCRIPTION\n".to_vec();
    data.extend_from_slice(&[0xC3, 0x28, b'\n']);
    match parse(&data) {
        Err(ParseError::InvalidIo(msg)) => assert_eq!(msg, "stream did not contain valid UTF-8"),
        other => panic!("unexpected {:?}", other),
    }
}

#[test]
fn csv_largest_amount_round_trips() {
    let tx = Transaction {
        tx_id: u64::MAX,
        tx_type: TxType::Deposit,
        from_user_id: 0,
        to_user_id: 1,
        amount: u64::MAX,
        timestamp: 0,
        status: Status::Success,
        description: "  spaced \"inner\"  ".to_string(),
    };
    let mut buf = Vec::new();
    serialize(&[tx.clone()], &mut buf);
    assert_eq!(parse(&buf).unwrap(), vec![tx]);
}
