use vstd::prelude::*;
use vstd::string::*;
use vstd::utf8::*;

use crate::error::{
    invalid, invalid_line_data, lemma_prepend_assoc, list_result, missing, not_utf8_text, prepend,
    tx_result, ParseError, ParseErrorModel, Result,
};
use crate::lines::{
    decode_line, join_lines, lemma_final_line_feed, lemma_final_line_feed_dropped,
    lemma_split_joined, line_text, plain_line,
    split_lines, LineReader,
};
use crate::text::{
    append_decimal, append_utf8, chars_equal_str, dec_chars, decimal_string, is_quoted, is_space,
    join_fields, lacks, lemma_dec_chars_parse, lemma_join_fields_lacks, lemma_join_fields_push,
    lemma_lacks_concat, lemma_parse_dec, lemma_quoted, lemma_split_join_fields,
    lemma_trim_unchanged, parse_u64_chars, parse_u64_spec, split_commas, split_fields, string_of,
    string_push, trim, trim_range, unquote,
};
use crate::transaction::{
    lemma_status_codes, lemma_status_name_plain, lemma_tx_type_codes, lemma_tx_type_name_plain,
    models, status_name, status_of_name, status_to_str, text_safe, tx_type_name, tx_type_of_name,
    tx_type_to_str, Status, Transaction, TransactionModel, TxType,
};

verus! {

/// The header line that opens every CSV input.
pub const HEADER: &'static str = "TX_ID,TX_TYPE,FROM_USER_ID,TO_USER_ID,AMOUNT,TIMESTAMP,STATUS,DESCRIPTION";

/// The text of the header line.
pub open spec fn header_text() -> Seq<char> {
    HEADER@
}

// ---------------------------------------------------------------------
// The format
// ---------------------------------------------------------------------

/// A numeric field: the number its trimmed text spells; the untrimmed text
/// is reported when it spells none.
pub open spec fn u64_field(part: Seq<char>, field: Seq<char>) -> core::result::Result<
    u64,
    ParseErrorModel,
> {
    match parse_u64_spec(trim(part)) {
        Some(v) => Ok(v),
        None => Err(invalid(field, part)),
    }
}

/// The transaction-kind field.
pub open spec fn tx_type_field(part: Seq<char>) -> core::result::Result<
    TxType,
    ParseErrorModel,
> {
    match tx_type_of_name(trim(part)) {
        Some(t) => Ok(t),
        None => Err(invalid("TX_TYPE"@, trim(part))),
    }
}

/// The status field.
pub open spec fn status_field(part: Seq<char>) -> core::result::Result<Status, ParseErrorModel> {
    match status_of_name(trim(part)) {
        Some(s) => Ok(s),
        None => Err(invalid("STATUS"@, trim(part))),
    }
}

/// The description field: its trimmed text must be in double quotes, which
/// are taken off.
pub open spec fn description_field(part: Seq<char>) -> core::result::Result<
    Seq<char>,
    ParseErrorModel,
> {
    if is_quoted(trim(part)) {
        Ok(unquote(trim(part)))
    } else {
        Err(invalid("DESCRIPTION"@, trim(part)))
    }
}

/// What reading one trimmed, non-empty record line gives. The line is cut at
/// its first seven commas; the fields are read in order and the first that
/// fails gives the error.
pub open spec fn line_spec(line: Seq<char>) -> core::result::Result<
    TransactionModel,
    ParseErrorModel,
> {
    let p = split_fields(line, 8);
    if p.len() != 8 {
        Err(invalid("CSV record"@, line))
    } else {
        match u64_field(p[0], "TX_ID"@) {
            Err(e) => Err(e),
            Ok(tx_id) => match tx_type_field(p[1]) {
                Err(e) => Err(e),
                Ok(tx_type) => match u64_field(p[2], "FROM_USER_ID"@) {
                    Err(e) => Err(e),
                    Ok(from_user_id) => match u64_field(p[3], "TO_USER_ID"@) {
                        Err(e) => Err(e),
                        Ok(to_user_id) => match u64_field(p[4], "AMOUNT"@) {
                            Err(e) => Err(e),
                            Ok(amount) => match u64_field(p[5], "TIMESTAMP"@) {
                                Err(e) => Err(e),
                                Ok(timestamp) => match status_field(p[6]) {
                                    Err(e) => Err(e),
                                    Ok(status) => match description_field(p[7]) {
                                        Err(e) => Err(e),
                                        Ok(description) => Ok(
                                            TransactionModel {
                                                tx_id,
                                                tx_type,
                                                from_user_id,
                                                to_user_id,
                                                amount,
                                                timestamp,
                                                status,
                                                description,
                                            },
                                        ),
                                    },
                                },
                            },
                        },
                    },
                },
            },
        }
    }
}

/// What reading the record lines `lines` gives: lines that are blank once
/// trimmed are skipped, the others are records.
pub open spec fn records_spec(lines: Seq<Seq<u8>>) -> core::result::Result<
    Seq<TransactionModel>,
    ParseErrorModel,
>
    decreases lines.len(),
{
    if lines.len() == 0 {
        Ok(seq![])
    } else {
        match line_text(lines[0]) {
            None => Err(ParseErrorModel::InvalidIo(not_utf8_text())),
            Some(l) => if trim(l).len() == 0 {
                records_spec(lines.drop_first())
            } else {
                match line_spec(trim(l)) {
                    Err(e) => Err(e),
                    Ok(t) => prepend(seq![t], records_spec(lines.drop_first())),
                }
            },
        }
    }
}

/// What reading a CSV input gives: the first line must be the header, the
/// other lines are records.
pub open spec fn parse_spec(input: Seq<u8>) -> core::result::Result<
    Seq<TransactionModel>,
    ParseErrorModel,
> {
    let lines = split_lines(input);
    if lines.len() == 0 {
        Err(missing("CSV header"@))
    } else {
        match line_text(lines[0]) {
            None => Err(ParseErrorModel::InvalidIo(not_utf8_text())),
            Some(h) => if trim(h) != header_text() {
                Err(invalid("header"@, h))
            } else {
                records_spec(lines.drop_first())
            },
        }
    }
}

/// The fields of the record line of `t`, in order.
pub open spec fn record_fields(t: TransactionModel) -> Seq<Seq<char>> {
    seq![
        dec_chars(t.tx_id as nat),
        tx_type_name(t.tx_type),
        dec_chars(t.from_user_id as nat),
        dec_chars(t.to_user_id as nat),
        dec_chars(t.amount as nat),
        dec_chars(t.timestamp as nat),
        status_name(t.status),
        seq!['"'] + t.description + seq!['"'],
    ]
}

/// The record line of `t`: its fields joined by commas, the description in
/// double quotes.
pub open spec fn record_text(t: TransactionModel) -> Seq<char> {
    join_fields(record_fields(t))
}

/// The lines that [`serialize`] writes for `txs`: the header, then one line
/// per transaction.
pub open spec fn text_lines(txs: Seq<TransactionModel>) -> Seq<Seq<char>> {
    seq![header_text()] + txs.map_values(|t: TransactionModel| record_text(t))
}

/// The text that [`serialize`] writes for `txs`.
pub open spec fn text_spec(txs: Seq<TransactionModel>) -> Seq<char> {
    join_lines(text_lines(txs))
}

// ---------------------------------------------------------------------
// Reading
// ---------------------------------------------------------------------

/// Parses the transactions of a YPBankCsv input.
///
/// The first line must be the header. Blank lines are skipped.
pub fn parse(input: &[u8]) -> (r: Result<Vec<Transaction>>)
    ensures
        list_result(r) == parse_spec(input@),
{
    let mut reader = LineReader::new(input);
    let header = match reader.next_line() {
        Some(h) => h,
        None => return Err(ParseError::MissingField("CSV header")),
    };
    let header = match decode_line(&header) {
        Some(t) => t,
        None => return Err(invalid_line_data()),
    };
    assert(header@.subrange(0, header@.len() as int) =~= header@);
    let (a, b) = trim_range(&header, 0, header.len());
    if !chars_equal_str(&header, a, b, HEADER) {
        return Err(
            ParseError::InvalidField { field: "header", value: string_of(&header, 0, header.len()) },
        );
    }
    let mut transactions: Vec<Transaction> = Vec::new();
    assert(models(transactions@) =~= Seq::<TransactionModel>::empty());
    assert(Seq::<TransactionModel>::empty() + Seq::<TransactionModel>::empty() =~= Seq::<
        TransactionModel,
    >::empty());
    loop
        invariant
            reader.wf(),
            parse_spec(input@) == prepend(models(transactions@), records_spec(reader.rest())),
        ensures
            reader.rest().len() == 0,
            parse_spec(input@) == prepend(models(transactions@), records_spec(reader.rest())),
        decreases reader.rest().len(),
    {
        let ghost lines = reader.rest();
        let line = match reader.next_line() {
            Some(l) => l,
            None => {
                break ;
            },
        };
        let line = match decode_line(&line) {
            Some(t) => t,
            None => return Err(invalid_line_data()),
        };
        assert(line@.subrange(0, line@.len() as int) =~= line@);
        let (a, b) = trim_range(&line, 0, line.len());
        if a == b {
            continue ;
        }
        match parse_line(&line, a, b) {
            Ok(tx) => {
                let ghost before = transactions@;
                transactions.push(tx);
                assert(models(transactions@) =~= models(before) + seq![tx@]);
                proof {
                    lemma_prepend_assoc(models(before), seq![tx@], records_spec(reader.rest()));
                }
            },
            Err(e) => return Err(e),
        }
    }
    assert(models(transactions@) + Seq::<TransactionModel>::empty() =~= models(transactions@));
    Ok(transactions)
}

/// Reads the record in `line[lo..hi]`, a trimmed non-empty line.
fn parse_line(line: &[char], lo: usize, hi: usize) -> (r: Result<Transaction>)
    requires
        lo <= hi <= line@.len(),
    ensures
        tx_result(r) == line_spec(line@.subrange(lo as int, hi as int)),
{
    let parts = split_commas(line, lo, hi, 8);
    let ghost p = split_fields(line@.subrange(lo as int, hi as int), 8);
    if parts.len() != 8 {
        return Err(ParseError::InvalidField { field: "CSV record", value: string_of(line, lo, hi) });
    }
    assert(forall|i: int| 0 <= i < 8 ==> line@.subrange(parts@[i].0 as int, parts@[i].1 as int)
        == #[trigger] p[i]);
    let tx_id = match parse_u64(line, parts[0], "TX_ID") {
        Ok(v) => v,
        Err(e) => return Err(e),
    };
    let tx_type = match parse_tx_type(line, parts[1]) {
        Ok(v) => v,
        Err(e) => return Err(e),
    };
    let from_user_id = match parse_u64(line, parts[2], "FROM_USER_ID") {
        Ok(v) => v,
        Err(e) => return Err(e),
    };
    let to_user_id = match parse_u64(line, parts[3], "TO_USER_ID") {
        Ok(v) => v,
        Err(e) => return Err(e),
    };
    let amount = match parse_u64(line, parts[4], "AMOUNT") {
        Ok(v) => v,
        Err(e) => return Err(e),
    };
    let timestamp = match parse_u64(line, parts[5], "TIMESTAMP") {
        Ok(v) => v,
        Err(e) => return Err(e),
    };
    let status = match parse_status(line, parts[6]) {
        Ok(v) => v,
        Err(e) => return Err(e),
    };
    let description = match parse_description(line, parts[7]) {
        Ok(v) => v,
        Err(e) => return Err(e),
    };
    Ok(
        Transaction {
            tx_id,
            tx_type,
            from_user_id,
            to_user_id,
            amount,
            timestamp,
            status,
            description,
        },
    )
}

fn parse_u64(s: &[char], part: (usize, usize), field: &'static str) -> (r: Result<u64>)
    requires
        part.0 <= part.1 <= s@.len(),
    ensures
        match u64_field(s@.subrange(part.0 as int, part.1 as int), field@) {
            Ok(v) => r matches Ok(x) && x == v,
            Err(e) => r matches Err(x) && x@ == e,
        },
{
    let (a, b) = trim_range(s, part.0, part.1);
    match parse_u64_chars(s, a, b) {
        Some(v) => Ok(v),
        None => Err(ParseError::InvalidField { field, value: string_of(s, part.0, part.1) }),
    }
}

fn parse_tx_type(s: &[char], part: (usize, usize)) -> (r: Result<TxType>)
    requires
        part.0 <= part.1 <= s@.len(),
    ensures
        match tx_type_field(s@.subrange(part.0 as int, part.1 as int)) {
            Ok(v) => r matches Ok(x) && x == v,
            Err(e) => r matches Err(x) && x@ == e,
        },
{
    let (a, b) = trim_range(s, part.0, part.1);
    if chars_equal_str(s, a, b, "DEPOSIT") {
        Ok(TxType::Deposit)
    } else if chars_equal_str(s, a, b, "TRANSFER") {
        Ok(TxType::Transfer)
    } else if chars_equal_str(s, a, b, "WITHDRAWAL") {
        Ok(TxType::Withdrawal)
    } else {
        Err(ParseError::InvalidField { field: "TX_TYPE", value: string_of(s, a, b) })
    }
}

fn parse_status(s: &[char], part: (usize, usize)) -> (r: Result<Status>)
    requires
        part.0 <= part.1 <= s@.len(),
    ensures
        match status_field(s@.subrange(part.0 as int, part.1 as int)) {
            Ok(v) => r matches Ok(x) && x == v,
            Err(e) => r matches Err(x) && x@ == e,
        },
{
    let (a, b) = trim_range(s, part.0, part.1);
    if chars_equal_str(s, a, b, "SUCCESS") {
        Ok(Status::Success)
    } else if chars_equal_str(s, a, b, "FAILURE") {
        Ok(Status::Failure)
    } else if chars_equal_str(s, a, b, "PENDING") {
        Ok(Status::Pending)
    } else {
        Err(ParseError::InvalidField { field: "STATUS", value: string_of(s, a, b) })
    }
}

fn parse_description(s: &[char], part: (usize, usize)) -> (r: Result<String>)
    requires
        part.0 <= part.1 <= s@.len(),
    ensures
        match description_field(s@.subrange(part.0 as int, part.1 as int)) {
            Ok(v) => r matches Ok(x) && x@ == v,
            Err(e) => r matches Err(x) && x@ == e,
        },
{
    let (a, b) = trim_range(s, part.0, part.1);
    if b - a >= 2 && s[a] == '"' && s[b - 1] == '"' {
        assert(s@.subrange(a + 1, b - 1) =~= unquote(s@.subrange(a as int, b as int)));
        Ok(string_of(s, a + 1, b - 1))
    } else {
        Err(ParseError::InvalidField { field: "DESCRIPTION", value: string_of(s, a, b) })
    }
}

// ---------------------------------------------------------------------
// Writing
// ---------------------------------------------------------------------

/// Appends the YPBankCsv text of `records`, header first, to `out` as UTF-8.
pub fn serialize(records: &[Transaction], out: &mut Vec<u8>)
    ensures
        final(out)@ == old(out)@ + encode_utf8(text_spec(models(records@))),
{
    let mut text = String::from_str(HEADER);
    string_push(&mut text, '\n');
    proof {
        assert(text_lines(models(records@.take(0))) =~= seq![header_text()]);
        crate::lines::lemma_join_lines_push(Seq::<Seq<char>>::empty(), header_text());
        assert(Seq::<Seq<char>>::empty().push(header_text()) =~= seq![header_text()]);
        assert(join_lines(Seq::<Seq<char>>::empty()) =~= Seq::<char>::empty());
        assert(text@ =~= join_lines(seq![header_text()]));
    }
    let n = records.len();
    for i in 0..n
        invariant
            n == records@.len(),
            text@ == join_lines(text_lines(models(records@.take(i as int)))),
    {
        let ghost before = text@;
        append_record(&mut text, &records[i]);
        proof {
            let ls = text_lines(models(records@.take(i as int)));
            crate::lines::lemma_join_lines_push(ls, record_text(records@[i as int]@));
            assert(ls.push(record_text(records@[i as int]@)) =~= text_lines(
                models(records@.take(i + 1)),
            ));
        }
    }
    assert(records@.take(n as int) =~= records@);
    append_utf8(out, text.as_str());
}

fn append_record(text: &mut String, tx: &Transaction)
    ensures
        final(text)@ == old(text)@ + record_text(tx@) + seq!['\n'],
{
    let mut rec = decimal_string(tx.tx_id);
    rec.append(",");
    rec.append(tx_type_to_str(&tx.tx_type));
    rec.append(",");
    append_decimal(&mut rec, tx.from_user_id);
    rec.append(",");
    append_decimal(&mut rec, tx.to_user_id);
    rec.append(",");
    append_decimal(&mut rec, tx.amount);
    rec.append(",");
    append_decimal(&mut rec, tx.timestamp);
    rec.append(",");
    rec.append(status_to_str(&tx.status));
    rec.append(",");
    rec.append("\"");
    rec.append(tx.description.as_str());
    rec.append("\"");
    proof {
        reveal_strlit(",");
        reveal_strlit("\"");
        assert(","@ =~= seq![',']);
        assert("\""@ =~= seq!['"']);
        lemma_record_text(tx@);
    }
    text.append(rec.as_str());
    string_push(text, '\n');
}

/// The record line of `t`, spelt out piece by piece.
proof fn lemma_record_text(t: TransactionModel)
    ensures
        record_text(t) == dec_chars(t.tx_id as nat) + seq![','] + tx_type_name(t.tx_type) + seq![
            ',',
        ] + dec_chars(t.from_user_id as nat) + seq![','] + dec_chars(t.to_user_id as nat) + seq![
            ',',
        ] + dec_chars(t.amount as nat) + seq![','] + dec_chars(t.timestamp as nat) + seq![',']
            + status_name(t.status) + seq![','] + seq!['"'] + t.description + seq!['"'],
{
    let a = dec_chars(t.tx_id as nat);
    let b = tx_type_name(t.tx_type);
    let c = dec_chars(t.from_user_id as nat);
    let d = dec_chars(t.to_user_id as nat);
    let e = dec_chars(t.amount as nat);
    let f = dec_chars(t.timestamp as nat);
    let g = status_name(t.status);
    let h = seq!['"'] + t.description + seq!['"'];
    assert(join_fields(seq![a]) == a);
    lemma_join_fields_push(seq![a], b);
    assert(seq![a].push(b) =~= seq![a, b]);
    lemma_join_fields_push(seq![a, b], c);
    assert(seq![a, b].push(c) =~= seq![a, b, c]);
    lemma_join_fields_push(seq![a, b, c], d);
    assert(seq![a, b, c].push(d) =~= seq![a, b, c, d]);
    lemma_join_fields_push(seq![a, b, c, d], e);
    assert(seq![a, b, c, d].push(e) =~= seq![a, b, c, d, e]);
    lemma_join_fields_push(seq![a, b, c, d, e], f);
    assert(seq![a, b, c, d, e].push(f) =~= seq![a, b, c, d, e, f]);
    lemma_join_fields_push(seq![a, b, c, d, e, f], g);
    assert(seq![a, b, c, d, e, f].push(g) =~= seq![a, b, c, d, e, f, g]);
    lemma_join_fields_push(seq![a, b, c, d, e, f, g], h);
    assert(seq![a, b, c, d, e, f, g].push(h) =~= record_fields(t));
    let x = a + seq![','] + b + seq![','] + c + seq![','] + d + seq![','] + e + seq![','] + f
        + seq![','] + g + seq![','];
    assert(x + h =~= x + seq!['"'] + t.description + seq!['"']);
}

// ---------------------------------------------------------------------
// Laws
// ---------------------------------------------------------------------

proof fn lemma_record_fields(t: TransactionModel)
    requires
        text_safe(t),
    ensures
        forall|i: int| 0 <= i < 8 ==> lacks(#[trigger] record_fields(t)[i], '\n'),
        forall|i: int, j: int|
            0 <= i < 7 && 0 <= j < record_fields(t)[i].len() ==> #[trigger] record_fields(t)[i][j]
                != ',',
        record_fields(t).len() == 8,
{
    let fs = record_fields(t);
    lemma_dec_chars_parse(t.tx_id as nat);
    lemma_dec_chars_parse(t.from_user_id as nat);
    lemma_dec_chars_parse(t.to_user_id as nat);
    lemma_dec_chars_parse(t.amount as nat);
    lemma_dec_chars_parse(t.timestamp as nat);
    lemma_tx_type_name_plain(t.tx_type);
    lemma_status_name_plain(t.status);
    lemma_lacks_concat(seq!['"'], t.description, '\n');
    lemma_lacks_concat(seq!['"'] + t.description, seq!['"'], '\n');
    assert forall|i: int, j: int|
        0 <= i < 7 && 0 <= j < fs[i].len() implies #[trigger] fs[i][j] != ',' by {
        assert(lacks(fs[i], ','));
    }
}

proof fn lemma_record_line(t: TransactionModel)
    requires
        text_safe(t),
    ensures
        plain_line(record_text(t)),
        trim(record_text(t)) == record_text(t),
        record_text(t).len() > 0,
        record_text(t)[0] != '#',
{
    let r = record_text(t);
    let a = dec_chars(t.tx_id as nat);
    lemma_record_fields(t);
    lemma_join_fields_lacks(record_fields(t), '\n');
    lemma_record_text(t);
    lemma_dec_chars_parse(t.tx_id as nat);
    assert(r.last() == '"');
    assert(r[0] == a[0]);
    assert(crate::text::is_digit(a[0]));
    assert(!is_space('"'));
    lemma_trim_unchanged(r);
}

proof fn lemma_line_roundtrip(t: TransactionModel)
    requires
        text_safe(t),
    ensures
        line_spec(record_text(t)) == Ok::<TransactionModel, ParseErrorModel>(t),
{
    let fs = record_fields(t);
    lemma_record_fields(t);
    lemma_split_join_fields(fs);
    let p = split_fields(record_text(t), 8);
    assert(p == fs);
    lemma_dec_chars_parse(t.tx_id as nat);
    lemma_dec_chars_parse(t.from_user_id as nat);
    lemma_dec_chars_parse(t.to_user_id as nat);
    lemma_dec_chars_parse(t.amount as nat);
    lemma_dec_chars_parse(t.timestamp as nat);
    lemma_trim_unchanged(dec_chars(t.tx_id as nat));
    lemma_trim_unchanged(dec_chars(t.from_user_id as nat));
    lemma_trim_unchanged(dec_chars(t.to_user_id as nat));
    lemma_trim_unchanged(dec_chars(t.amount as nat));
    lemma_trim_unchanged(dec_chars(t.timestamp as nat));
    lemma_parse_dec(t.tx_id);
    lemma_parse_dec(t.from_user_id);
    lemma_parse_dec(t.to_user_id);
    lemma_parse_dec(t.amount);
    lemma_parse_dec(t.timestamp);
    lemma_tx_type_name_plain(t.tx_type);
    lemma_status_name_plain(t.status);
    lemma_trim_unchanged(tx_type_name(t.tx_type));
    lemma_trim_unchanged(status_name(t.status));
    lemma_tx_type_codes(t.tx_type);
    lemma_status_codes(t.status);
    lemma_quoted(t.description);
}

proof fn lemma_records_roundtrip(txs: Seq<TransactionModel>)
    requires
        forall|i: int| 0 <= i < txs.len() ==> text_safe(#[trigger] txs[i]),
    ensures
        records_spec(txs.map_values(|t: TransactionModel| encode_utf8(record_text(t)))) == Ok::<
            Seq<TransactionModel>,
            ParseErrorModel,
        >(txs),
    decreases txs.len(),
{
    let lines = txs.map_values(|t: TransactionModel| encode_utf8(record_text(t)));
    if txs.len() == 0 {
        assert(lines.len() == 0);
        assert(txs =~= Seq::<TransactionModel>::empty());
    } else {
        let t = txs[0];
        let rest = txs.drop_first();
        assert(text_safe(t));
        assert forall|i: int| 0 <= i < rest.len() implies text_safe(#[trigger] rest[i]) by {
            assert(rest[i] == txs[i + 1]);
        }
        lemma_records_roundtrip(rest);
        assert(lines.drop_first() =~= rest.map_values(
            |t: TransactionModel| encode_utf8(record_text(t)),
        ));
        assert(lines[0] == encode_utf8(record_text(t)));
        encode_utf8_valid_utf8(record_text(t));
        encode_utf8_decode_utf8(record_text(t));
        lemma_record_line(t);
        lemma_line_roundtrip(t);
        assert(seq![t] + rest =~= txs);
    }
}

proof fn lemma_header_line()
    ensures
        plain_line(header_text()),
        trim(header_text()) == header_text(),
        lacks(header_text(), ':'),
        header_text().len() > 0,
        header_text()[0] != '#',
{
    reveal_strlit("TX_ID,TX_TYPE,FROM_USER_ID,TO_USER_ID,AMOUNT,TIMESTAMP,STATUS,DESCRIPTION");
    assert(header_text().len() == 73);
    assert(header_text()[0] == 'T');
    assert(header_text()[72] == 'N');
    lemma_trim_unchanged(header_text());
}

/// Writing transactions whose descriptions hold no line feed and reading the
/// text back gives the same transactions.
pub proof fn lemma_roundtrip(txs: Seq<TransactionModel>)
    requires
        forall|i: int| 0 <= i < txs.len() ==> text_safe(#[trigger] txs[i]),
    ensures
        parse_spec(encode_utf8(text_spec(txs))) == Ok::<Seq<TransactionModel>, ParseErrorModel>(
            txs,
        ),
{
    let ls = text_lines(txs);
    lemma_header_line();
    assert forall|i: int| 0 <= i < ls.len() implies plain_line(#[trigger] ls[i]) by {
        if i > 0 {
            assert(ls[i] == record_text(txs[i - 1]));
            lemma_record_line(txs[i - 1]);
        }
    }
    lemma_split_joined(ls);
    let lines = split_lines(encode_utf8(text_spec(txs)));
    assert(lines[0] == encode_utf8(header_text()));
    encode_utf8_valid_utf8(header_text());
    encode_utf8_decode_utf8(header_text());
    assert(lines.drop_first() =~= txs.map_values(
        |t: TransactionModel| encode_utf8(record_text(t)),
    ));
    lemma_records_roundtrip(txs);
}

/// A line that is blank once trimmed is skipped wherever it stands among the
/// record lines.
pub proof fn lemma_blank_lines_skipped(
    before: Seq<Seq<u8>>,
    blank: Seq<u8>,
    after: Seq<Seq<u8>>,
)
    requires
        line_text(blank) matches Some(t) && trim(t).len() == 0,
    ensures
        records_spec(before + seq![blank] + after) == records_spec(before + after),
    decreases before.len(),
{
    let with = before + seq![blank] + after;
    let without = before + after;
    if before.len() == 0 {
        assert(with[0] == blank);
        assert(with.drop_first() =~= after);
        assert(without =~= after);
    } else {
        assert(with[0] == before[0]);
        assert(without[0] == before[0]);
        assert(with.drop_first() =~= before.drop_first() + seq![blank] + after);
        assert(without.drop_first() =~= before.drop_first() + after);
        lemma_blank_lines_skipped(before.drop_first(), blank, after);
    }
}

/// The last line needs no line feed: input whose last line is not ended by
/// one reads the same as that input with a line feed added, so an
/// unterminated last record line is a record like the others.
pub proof fn lemma_final_line_feed_optional(input: Seq<u8>)
    requires
        input.len() > 0,
        input.last() != 10,
        input.last() != 13,
    ensures
        parse_spec(input + seq![10u8]) == parse_spec(input),
{
    lemma_final_line_feed(input);
}

/// The lines of what [`serialize`] writes: the header and one line per
/// transaction, each read back as itself; none is blank or starts with `#`,
/// and the header holds no colon.
pub proof fn lemma_written_lines(txs: Seq<TransactionModel>)
    requires
        forall|i: int| 0 <= i < txs.len() ==> text_safe(#[trigger] txs[i]),
    ensures
        split_lines(encode_utf8(text_spec(txs))) == text_lines(txs).map_values(
            |l: Seq<char>| encode_utf8(l),
        ),
        forall|i: int|
            0 <= i < text_lines(txs).len() ==> {
                &&& plain_line(#[trigger] text_lines(txs)[i])
                &&& trim(text_lines(txs)[i]) == text_lines(txs)[i]
                &&& text_lines(txs)[i].len() > 0
                &&& text_lines(txs)[i][0] != '#'
            },
        text_lines(txs)[0] == header_text(),
        lacks(header_text(), ':'),
{
    let ls = text_lines(txs);
    lemma_header_line();
    assert forall|i: int| 0 <= i < ls.len() implies {
        &&& plain_line(#[trigger] ls[i])
        &&& trim(ls[i]) == ls[i]
        &&& ls[i].len() > 0
        &&& ls[i][0] != '#'
    } by {
        if i > 0 {
            assert(ls[i] == record_text(txs[i - 1]));
            lemma_record_line(txs[i - 1]);
        }
    }
    lemma_split_joined(ls);
}

/// What [`serialize`] writes reads back the same without its final line
/// feed: the last line needs none to be read.
pub proof fn lemma_roundtrip_unterminated(txs: Seq<TransactionModel>)
    requires
        forall|i: int| 0 <= i < txs.len() ==> text_safe(#[trigger] txs[i]),
    ensures
        encode_utf8(text_spec(txs)).len() > 0,
        parse_spec(encode_utf8(text_spec(txs)).drop_last()) == Ok::<
            Seq<TransactionModel>,
            ParseErrorModel,
        >(txs),
{
    let ls = text_lines(txs);
    lemma_written_lines(txs);
    assert(ls.last() == ls[ls.len() - 1]);
    lemma_final_line_feed_dropped(ls);
    lemma_roundtrip(txs);
}

} // verus!
