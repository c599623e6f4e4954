use parser_lib::txt_format::{parse, serialize};
use parser_lib::{ParseError, Result, Status, Transaction, TxType};

fn sample_transactions() -> Vec<Transaction> {
    vec![
        Transaction {
            tx_id: 1234567890123456,
            tx_type: TxType::Deposit,
            from_user_id: 0,
            to_user_id: 9876543210987654,
            amount: 10000,
            timestamp: 1633036800000,
            status: Status::Success,
            description: "Terminal deposit".to_string(),
        },
        Transaction {
            tx_id: 2312321321321321,
            tx_type: TxType::Transfer,
            from_user_id: 1231231231231231,
            to_user_id: 9876543210987654,
            amount: 1000,
            timestamp: 1633056800000,
            status: Status::Failure,
            description: "User transfer".to_string(),
        },
    ]
}

#[test]
fn txt_format_test_round_trip() -> Result<()> {
    let original = sample_transactions();

    let mut buf = Vec::new();
    serialize(&original, &mut buf);

    let parsed = parse(&buf)?;
    assert_eq!(original, parsed);
    Ok(())
}

#[test]
fn test_arbitrary_field_order() -> Result<()> {
    let data = b"\
TX_TYPE: DEPOSIT
AMOUNT: 10000
TX_ID: 1234567890123456
STATUS: SUCCESS
TO_USER_ID: 9876543210987654
FROM_USER_ID: 0
TIMESTAMP: 1633036800000
DESCRIPTION: \"Terminal deposit\"
";
    let parsed = parse(data.as_ref())?;
    assert_eq!(parsed.len(), 1);
    assert_eq!(parsed[0].tx_id, 1234567890123456);
    assert_eq!(parsed[0].amount, 10000);
    Ok(())
}

#[test]
fn test_comments_ignored() -> Result<()> {
    let data = b"\
# This is a comment
TX_ID: 1
# Another comment
TX_TYPE: DEPOSIT
FROM_USER_ID: 0
TO_USER_ID: 2
AMOUNT: 100
TIMESTAMP: 1000000
STATUS: SUCCESS
DESCRIPTION: \"desc\"
";
    let parsed = parse(data.as_ref())?;
    assert_eq!(parsed.len(), 1);
    assert_eq!(parsed[0].tx_id, 1);
    Ok(())
}

#[test]
fn test_last_block_without_trailing_newline() -> Result<()> {
    let data = b"TX_ID: 1\nTX_TYPE: DEPOSIT\nFROM_USER_ID: 0\nTO_USER_ID: 2\nAMOUNT: 100\nTIMESTAMP: 1000000\nSTATUS: SUCCESS\nDESCRIPTION: \"desc\"";
    let parsed = parse(data.as_ref())?;
    assert_eq!(parsed.len(), 1);
    Ok(())
}

#[test]
fn test_missing_field_error() {
    let data = b"TX_ID: 1\nTX_TYPE: DEPOSIT\nFROM_USER_ID: 0\nTO_USER_ID: 2\nAMOUNT: 100\nTIMESTAMP: 1000000\nSTATUS: SUCCESS\n";
    let result = parse(data.as_ref());
    assert!(matches!(
        result,
        Err(ParseError::MissingField("DESCRIPTION"))
    ));
}

#[test]
fn txt_exact_text() {
    let txs = vec![
        Transaction {
            tx_id: 1,
            tx_type: TxType::Deposit,
            from_user_id: 0,
            to_user_id: 2,
            amount: 100,
            timestamp: 1000000,
            status: Status::Success,
            description: "desc".to_string(),
        },
        Transaction {
            tx_id: 2,
            tx_type: TxType::Withdrawal,
            from_user_id: 2,
            to_user_id: 0,
            amount: 5,
            timestamp: 6,
            status: Status::Pending,
            description: String::new(),
        },
    ];
    let mut buf = Vec::new();
    serialize(&txs, &mut buf);
    assert_eq!(
        String::from_utf8(buf).unwrap(),
        "TX_ID: 1\nTX_TYPE: DEPOSIT\nFROM_USER_ID: 0\nTO_USER_ID: 2\nAMOUNT: 100\nTIMESTAMP: 1000000\nSTATUS: SUCCESS\nDESCRIPTION: \"desc\"\n\nTX_ID: 2\nTX_TYPE: WITHDRAWAL\nFROM_USER_ID: 2\nTO_USER_ID: 0\nAMOUNT: 5\nTIMESTAMP: 6\nSTATUS: PENDING\nDESCRIPTION: \"\"\n"
    );
    assert_eq!(parse(
        b"TX_ID: 1\nTX_TYPE: DEPOSIT\nFROM_USER_ID: 0\nTO_USER_ID: 2\nAMOUNT: 100\nTIMESTAMP: 1000000\nSTATUS: SUCCESS\nDESCRIPTION: \"desc\"\n\nTX_ID: 2\nTX_TYPE: WITHDRAWAL\nFROM_USER_ID: 2\nTO_USER_ID: 0\nAMOUNT: 5\nTIMESTAMP: 6\nSTATUS: PENDING\nDESCRIPTION: \"\"\n"
    ).unwrap(), txs);
}

#[test]
fn txt_empty_input_is_no_records() {
    assert!(parse(b"").unwrap().is_empty());
    assert!(parse(b"\n\n# only a comment\n  \n").unwrap().is_empty());
}

#[test]
fn txt_later_field_wins() {
    let data = b"TX_ID: 1\nTX_TYPE: DEPOSIT\nFROM_USER_ID: 0\nTO_USER_ID: 2\nAMOUNT: 100\nTIMESTAMP: 1000000\nSTATUS: SUCCESS\nDESCRIPTION: \"desc\"\nTX_ID: 42\n";
    assert_eq!(parse(data.as_ref()).unwrap()[0].tx_id, 42);
}

#[test]
fn txt_errors() {
    match parse(b"TX_ID 1\n") {
        Err(ParseError::InvalidField { field, value }) => {
            assert_eq!(field, "key-value pair");
            assert_eq!(value, "TX_ID 1");
        }
        other => panic!("unexpected {:?}", other),
    }
    match parse(b"TX_ID: one\n") {
        Err(ParseError::InvalidField { field, value }) => {
            assert_eq!(field, "TX_ID");
            assert_eq!(value, "one");
        }
        other => panic!("unexpected {:?}", other),
    }
    assert!(matches!(parse(b"TX_ID: 1\n"), Err(ParseError::MissingField("TX_TYPE"))));
    match parse(b"TX_ID: 1\nTX_TYPE: deposit\n") {
        Err(ParseError::InvalidField { field, value }) => {
            assert_eq!(field, "TX_TYPE");
            assert_eq!(value, "deposit");
        }
        other => panic!("unexpected {:?}", other),
    }
    let no_quotes = b"TX_ID: 1\nTX_TYPE: DEPOSIT\nFROM_USER_ID: 0\nTO_USER_ID: 2\nAMOUNT: 100\nTIMESTAMP: 1000000\nSTATUS: SUCCESS\nDESCRIPTION: desc\n";
    match parse(no_quotes.as_ref()) {
        Err(ParseError::InvalidField { field, value }) => {
            assert_eq!(field, "DESCRIPTION");
            assert_eq!(value, "desc");
        }
        other => panic!("unexpected {:?}", other),
    }
    assert!(matches!(parse(&[b'T', 0xFF, b'\n']), Err(ParseError::InvalidIo(_))));
}
