use parser_lib::compare::{compare_transactions, transactions_equal, Difference};
use parser_lib::formats::{all_writable, parse_input, serialize_output, Format};
use parser_lib::{ParseError, Status, Transaction, TxType};

fn tx(id: u64, description: &str) -> Transaction {
    Transaction {
        tx_id: id,
        tx_type: TxType::Transfer,
        from_user_id: 3,
        to_user_id: 4,
        amount: 250,
        timestamp: 1700000000000,
        status: Status::Success,
        description: description.to_string(),
    }
}

#[test]
fn compare_equal_lists() {
    let a = vec![tx(1, "a"), tx(2, "b")];
    assert_eq!(compare_transactions(&a, &a.clone()), None);
    assert_eq!(compare_transactions(&[], &[]), None);
}

#[test]
fn compare_different_lengths() {
    let a = vec![tx(1, "a"), tx(2, "b")];
    assert_eq!(
        compare_transactions(&a, &a[..1]),
        Some(Difference::CountMismatch { left: 2, right: 1 })
    );
}

#[test]
fn compare_first_mismatch() {
    let a = vec![tx(1, "a"), tx(2, "b"), tx(3, "c")];
    let b = vec![tx(1, "a"), tx(2, "B"), tx(9, "c")];
    assert_eq!(compare_transactions(&a, &b), Some(Difference::FirstMismatch { index: 1 }));
    assert!(!transactions_equal(&a[1], &b[1]));
    assert!(transactions_equal(&a[0], &b[0]));
}

#[test]
fn formats_convert_every_pair() {
    let original = vec![tx(1, "first"), tx(2, "second, with comma")];
    for from in [Format::Bin, Format::Csv, Format::Txt] {
        for to in [Format::Bin, Format::Csv, Format::Txt] {
            assert!(all_writable(&from, &original));
            let mut buf = Vec::new();
            serialize_output(&from, &original, &mut buf);
            let middle = parse_input(&from, &buf).unwrap();
            let mut buf2 = Vec::new();
            serialize_output(&to, &middle, &mut buf2);
            assert_eq!(parse_input(&to, &buf2).unwrap(), original);
        }
    }
}

#[test]
fn text_formats_drop_line_feed_descriptions() {
    // A description with a line feed cannot be carried by the text formats.
    let original = vec![tx(1, "two\nlines")];
    let mut buf = Vec::new();
    serialize_output(&Format::Csv, &original, &mut buf);
    assert!(parse_input(&Format::Csv, &buf).is_err());
}

#[test]
fn error_messages() {
    assert_eq!(ParseError::InvalidMagic.message(), "invalid magic bytes in binary record header");
    assert_eq!(
        ParseError::InvalidField { field: "TX_ID", value: "x".to_string() }.message(),
        "invalid value for field 'TX_ID': 'x'"
    );
    assert_eq!(
        ParseError::MissingField("STATUS").message(),
        "missing required field 'STATUS'"
    );
    assert_eq!(ParseError::InvalidIo("boom".to_string()).message(), "IO error: boom");
    let bad = vec![0xFFu8];
    let e = std::str::from_utf8(&bad).unwrap_err();
    let m = ParseError::from(e).message();
    assert!(m.starts_with("UTF-8 error: "));
}
