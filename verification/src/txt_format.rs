use vstd::prelude::*;
use vstd::slice::{slice_subrange, slice_to_vec};
use vstd::string::*;
use vstd::utf8::*;

use crate::error::{
    invalid, invalid_line_data, lemma_prepend_assoc, list_result, missing, not_utf8_text, prepend,
    tx_result, ParseError, ParseErrorModel, Result,
};
use crate::field_map::{lookup, FieldMap};
use crate::lines::{
    decode_line, join_lines, lemma_final_line_feed, lemma_final_line_feed_dropped,
    lemma_join_lines_concat, lemma_join_lines_push,
    lemma_split_joined, lemma_split_lines_concat, lemma_split_lines_first, line_text, plain_line,
    split_lines, strip_cr, LineReader,
};
use crate::text::{
    append_utf8, chars_equal_str, chars_of, dec_chars, decimal_string, is_quoted, is_space, lacks,
    lemma_dec_chars_parse, lemma_lacks_concat, lemma_parse_dec, lemma_quoted, lemma_trim_unchanged,
    parse_u64_chars, parse_u64_spec, string_of, string_push, trim, trim_range, unquote,
};
use crate::transaction::{
    lemma_status_codes, lemma_status_name_plain, lemma_tx_type_codes, lemma_tx_type_name_plain,
    models, status_name, status_of_name, status_to_str, text_safe, tx_type_name, tx_type_of_name,
    tx_type_to_str, Status, Transaction, TransactionModel, TxType,
};

verus! {

// ---------------------------------------------------------------------
// The format
// ---------------------------------------------------------------------

/// The position of the first `": "` in `s`, if any.
pub open spec fn separator_index(s: Seq<char>) -> Option<int>
    decreases s.len(),
{
    if s.len() < 2 {
        None
    } else if s[0] == ':' && s[1] == ' ' {
        Some(0)
    } else {
        match separator_index(s.drop_first()) {
            Some(i) => Some(i + 1),
            None => None,
        }
    }
}

/// The key and value of a field line: the text before the first `": "` and
/// the trimmed text after it.
pub open spec fn parse_kv_spec(line: Seq<char>) -> core::result::Result<
    (Seq<char>, Seq<char>),
    ParseErrorModel,
> {
    match separator_index(line) {
        None => Err(invalid("key-value pair"@, line)),
        Some(p) => Ok((line.take(p), trim(line.skip(p + 2)))),
    }
}

/// The key-value pairs of the lines of a block, in order; the first line
/// that is not a field line gives the error.
pub open spec fn kv_pairs(block: Seq<Seq<char>>) -> core::result::Result<
    Seq<(Seq<char>, Seq<char>)>,
    ParseErrorModel,
>
    decreases block.len(),
{
    if block.len() == 0 {
        Ok(seq![])
    } else {
        match parse_kv_spec(block[0]) {
            Err(e) => Err(e),
            Ok(kv) => match kv_pairs(block.drop_first()) {
                Err(e) => Err(e),
                Ok(ps) => Ok(seq![kv] + ps),
            },
        }
    }
}

/// A numeric field, looked up by name; its trimmed value must spell a number.
pub open spec fn get_u64_spec(ps: Seq<(Seq<char>, Seq<char>)>, field: Seq<char>) -> core::result::Result<
    u64,
    ParseErrorModel,
> {
    match lookup(ps, field) {
        None => Err(missing(field)),
        Some(v) => match parse_u64_spec(trim(v)) {
            Some(n) => Ok(n),
            None => Err(invalid(field, v)),
        },
    }
}

/// The transaction-kind field.
pub open spec fn get_tx_type_spec(ps: Seq<(Seq<char>, Seq<char>)>) -> core::result::Result<
    TxType,
    ParseErrorModel,
> {
    match lookup(ps, "TX_TYPE"@) {
        None => Err(missing("TX_TYPE"@)),
        Some(v) => match tx_type_of_name(v) {
            Some(t) => Ok(t),
            None => Err(invalid("TX_TYPE"@, v)),
        },
    }
}

/// The status field.
pub open spec fn get_status_spec(ps: Seq<(Seq<char>, Seq<char>)>) -> core::result::Result<
    Status,
    ParseErrorModel,
> {
    match lookup(ps, "STATUS"@) {
        None => Err(missing("STATUS"@)),
        Some(v) => match status_of_name(v) {
            Some(s) => Ok(s),
            None => Err(invalid("STATUS"@, v)),
        },
    }
}

/// The description field: its trimmed value must be in double quotes, which
/// are taken off.
pub open spec fn get_description_spec(ps: Seq<(Seq<char>, Seq<char>)>) -> core::result::Result<
    Seq<char>,
    ParseErrorModel,
> {
    match lookup(ps, "DESCRIPTION"@) {
        None => Err(missing("DESCRIPTION"@)),
        Some(v) => if is_quoted(trim(v)) {
            Ok(unquote(trim(v)))
        } else {
            Err(invalid("DESCRIPTION"@, trim(v)))
        },
    }
}

/// The transaction that the fields `ps` describe; the fields are read in a
/// fixed order and the first that fails gives the error.
pub open spec fn record_spec(ps: Seq<(Seq<char>, Seq<char>)>) -> core::result::Result<
    TransactionModel,
    ParseErrorModel,
> {
    match get_u64_spec(ps, "TX_ID"@) {
        Err(e) => Err(e),
        Ok(tx_id) => match get_tx_type_spec(ps) {
            Err(e) => Err(e),
            Ok(tx_type) => match get_u64_spec(ps, "FROM_USER_ID"@) {
                Err(e) => Err(e),
                Ok(from_user_id) => match get_u64_spec(ps, "TO_USER_ID"@) {
                    Err(e) => Err(e),
                    Ok(to_user_id) => match get_u64_spec(ps, "AMOUNT"@) {
                        Err(e) => Err(e),
                        Ok(amount) => match get_u64_spec(ps, "TIMESTAMP"@) {
                            Err(e) => Err(e),
                            Ok(timestamp) => match get_status_spec(ps) {
                                Err(e) => Err(e),
                                Ok(status) => match get_description_spec(ps) {
                                    Err(e) => Err(e),
                                    Ok(description) => Ok(
                                        TransactionModel {
                                            tx_id,
                                            tx_type,
                                            from_user_id,
                                            to_user_id,
                                            amount,
                                            timestamp,
                                            status,
                                            description,
                                        },
                                    ),
                                },
                            },
                        },
                    },
                },
            },
        },
    }
}

/// What reading one block of trimmed field lines gives.
pub open spec fn block_spec(block: Seq<Seq<char>>) -> core::result::Result<
    TransactionModel,
    ParseErrorModel,
> {
    match kv_pairs(block) {
        Err(e) => Err(e),
        Ok(ps) => record_spec(ps),
    }
}

/// What reading the lines `lines` gives when the trimmed lines `block` have
/// been gathered for the current record. Lines starting with `#` are
/// skipped; a blank line ends the current record, if there is one; other
/// lines join the current record; the last record needs no blank line.
pub open spec fn lines_spec(lines: Seq<Seq<u8>>, block: Seq<Seq<char>>) -> core::result::Result<
    Seq<TransactionModel>,
    ParseErrorModel,
>
    decreases lines.len(),
{
    if lines.len() == 0 {
        if block.len() == 0 {
            Ok(seq![])
        } else {
            match block_spec(block) {
                Err(e) => Err(e),
                Ok(t) => Ok(seq![t]),
            }
        }
    } else {
        match line_text(lines[0]) {
            None => Err(ParseErrorModel::InvalidIo(not_utf8_text())),
            Some(l) => {
                let t = trim(l);
                if t.len() > 0 && t[0] == '#' {
                    lines_spec(lines.drop_first(), block)
                } else if t.len() == 0 {
                    if block.len() == 0 {
                        lines_spec(lines.drop_first(), block)
                    } else {
                        match block_spec(block) {
                            Err(e) => Err(e),
                            Ok(tx) => prepend(seq![tx], lines_spec(lines.drop_first(), seq![])),
                        }
                    }
                } else {
                    lines_spec(lines.drop_first(), block.push(t))
                }
            },
        }
    }
}

/// What reading a YPBankText input gives.
pub open spec fn parse_spec(input: Seq<u8>) -> core::result::Result<
    Seq<TransactionModel>,
    ParseErrorModel,
> {
    lines_spec(split_lines(input), seq![])
}

/// A field line: the key, `": "`, the value.
pub open spec fn field_line(key: Seq<char>, value: Seq<char>) -> Seq<char> {
    key + seq![':', ' '] + value
}

/// The lines of the record of `t`.
pub open spec fn record_lines(t: TransactionModel) -> Seq<Seq<char>> {
    seq![
        field_line("TX_ID"@, dec_chars(t.tx_id as nat)),
        field_line("TX_TYPE"@, tx_type_name(t.tx_type)),
        field_line("FROM_USER_ID"@, dec_chars(t.from_user_id as nat)),
        field_line("TO_USER_ID"@, dec_chars(t.to_user_id as nat)),
        field_line("AMOUNT"@, dec_chars(t.amount as nat)),
        field_line("TIMESTAMP"@, dec_chars(t.timestamp as nat)),
        field_line("STATUS"@, status_name(t.status)),
        field_line("DESCRIPTION"@, seq!['"'] + t.description + seq!['"']),
    ]
}

/// The lines that [`serialize`] writes for `txs`: the records, one blank line
/// between two records.
pub open spec fn all_lines(txs: Seq<TransactionModel>) -> Seq<Seq<char>>
    decreases txs.len(),
{
    if txs.len() == 0 {
        seq![]
    } else if txs.len() == 1 {
        record_lines(txs[0])
    } else {
        all_lines(txs.drop_last()) + seq![Seq::<char>::empty()] + record_lines(txs.last())
    }
}

/// The text that [`serialize`] writes for `txs`.
pub open spec fn text_spec(txs: Seq<TransactionModel>) -> Seq<char> {
    join_lines(all_lines(txs))
}

/// The characters of the lines of a block.
pub open spec fn block_view(block: Seq<Vec<char>>) -> Seq<Seq<char>> {
    block.map_values(|l: Vec<char>| l@)
}

// ---------------------------------------------------------------------
// Reading
// ---------------------------------------------------------------------

/// Parses the transactions of a YPBankText input.
///
/// Records are separated by blank lines. Lines starting with `#` are skipped.
/// The fields of a record may come in any order.
pub fn parse(input: &[u8]) -> (r: Result<Vec<Transaction>>)
    ensures
        list_result(r) == parse_spec(input@),
{
    let mut reader = LineReader::new(input);
    let mut transactions: Vec<Transaction> = Vec::new();
    let mut block: Vec<Vec<char>> = Vec::new();
    assert(models(transactions@) =~= Seq::<TransactionModel>::empty());
    assert(block_view(block@) =~= Seq::<Seq<char>>::empty());
    proof {
        lemma_prepend_empty(lines_spec(split_lines(input@), seq![]));
    }
    loop
        invariant
            reader.wf(),
            parse_spec(input@) == prepend(
                models(transactions@),
                lines_spec(reader.rest(), block_view(block@)),
            ),
        ensures
            reader.rest().len() == 0,
            parse_spec(input@) == prepend(
                models(transactions@),
                lines_spec(reader.rest(), block_view(block@)),
            ),
        decreases reader.rest().len(),
    {
        let line = match reader.next_line() {
            Some(l) => l,
            None => {
                break ;
            },
        };
        let line = match decode_line(&line) {
            Some(t) => t,
            None => return Err(invalid_line_data()),
        };
        assert(line@.subrange(0, line@.len() as int) =~= line@);
        let (a, b) = trim_range(&line, 0, line.len());
        if b > a && line[a] == '#' {
            continue ;
        }
        if a == b {
            if block.len() > 0 {
                let tx = match parse_block(&block) {
                    Ok(tx) => tx,
                    Err(e) => return Err(e),
                };
                let ghost before = transactions@;
                transactions.push(tx);
                assert(models(transactions@) =~= models(before) + seq![tx@]);
                block = Vec::new();
                assert(block_view(block@) =~= Seq::<Seq<char>>::empty());
                proof {
                    lemma_prepend_assoc(models(before), seq![tx@], lines_spec(reader.rest(), seq![]));
                }
            }
        } else {
            let ghost before = block_view(block@);
            let trimmed = slice_to_vec(slice_subrange(&line, a, b));
            block.push(trimmed);
            assert(block_view(block@) =~= before.push(line@.subrange(a as int, b as int)));
        }
    }
    if block.len() > 0 {
        let tx = match parse_block(&block) {
            Ok(tx) => tx,
            Err(e) => return Err(e),
        };
        let ghost before = transactions@;
        transactions.push(tx);
        assert(models(transactions@) =~= models(before) + seq![tx@]);
    } else {
        assert(models(transactions@) + Seq::<TransactionModel>::empty() =~= models(transactions@));
    }
    Ok(transactions)
}

proof fn lemma_prepend_empty(r: core::result::Result<Seq<TransactionModel>, ParseErrorModel>)
    ensures
        prepend(Seq::<TransactionModel>::empty(), r) == r,
{
    match r {
        Ok(t) => {
            assert(Seq::<TransactionModel>::empty() + t =~= t);
        },
        Err(_) => {},
    }
}

/// The pairs `ps` in front of the pairs of `r`.
pub open spec fn prepend_pairs(
    ps: Seq<(Seq<char>, Seq<char>)>,
    r: core::result::Result<Seq<(Seq<char>, Seq<char>)>, ParseErrorModel>,
) -> core::result::Result<Seq<(Seq<char>, Seq<char>)>, ParseErrorModel> {
    match r {
        Ok(qs) => Ok(ps + qs),
        Err(e) => Err(e),
    }
}

/// Reads one record from its trimmed lines.
fn parse_block(block: &[Vec<char>]) -> (r: Result<Transaction>)
    ensures
        tx_result(r) == block_spec(block_view(block@)),
{
    let ghost bv = block_view(block@);
    let mut map = FieldMap::new();
    let n = block.len();
    assert(bv.skip(0) =~= bv);
    proof {
        match kv_pairs(bv) {
            Ok(qs) => {
                assert(Seq::<(Seq<char>, Seq<char>)>::empty() + qs =~= qs);
            },
            Err(_) => {},
        }
    }
    for i in 0..n
        invariant
            n == block@.len(),
            bv == block_view(block@),
            kv_pairs(bv) == prepend_pairs(map.pairs(), kv_pairs(bv.skip(i as int))),
    {
        assert(bv.skip(i as int)[0] == block@[i as int]@);
        assert(bv.skip(i as int).drop_first() =~= bv.skip(i + 1));
        let (key, value) = match parse_kv(&block[i]) {
            Ok(kv) => kv,
            Err(e) => return Err(e),
        };
        let ghost before = map.pairs();
        map.insert(key, value);
        proof {
            match kv_pairs(bv.skip(i + 1)) {
                Ok(qs) => {
                    assert(before + (seq![(key@, value@)] + qs) =~= before.push((key@, value@))
                        + qs);
                },
                Err(_) => {},
            }
        }
    }
    assert(bv.skip(n as int) =~= Seq::<Seq<char>>::empty());
    assert(map.pairs() + Seq::<(Seq<char>, Seq<char>)>::empty() =~= map.pairs());
    let tx_id = match get_u64(&map, "TX_ID") {
        Ok(v) => v,
        Err(e) => return Err(e),
    };
    let tx_type = match get_tx_type(&map) {
        Ok(v) => v,
        Err(e) => return Err(e),
    };
    let from_user_id = match get_u64(&map, "FROM_USER_ID") {
        Ok(v) => v,
        Err(e) => return Err(e),
    };
    let to_user_id = match get_u64(&map, "TO_USER_ID") {
        Ok(v) => v,
        Err(e) => return Err(e),
    };
    let amount = match get_u64(&map, "AMOUNT") {
        Ok(v) => v,
        Err(e) => return Err(e),
    };
    let timestamp = match get_u64(&map, "TIMESTAMP") {
        Ok(v) => v,
        Err(e) => return Err(e),
    };
    let status = match get_status(&map) {
        Ok(v) => v,
        Err(e) => return Err(e),
    };
    let description = match get_description(&map) {
        Ok(v) => v,
        Err(e) => return Err(e),
    };
    Ok(
        Transaction {
            tx_id,
            tx_type,
            from_user_id,
            to_user_id,
            amount,
            timestamp,
            status,
            description,
        },
    )
}

/// Whether `": "` starts at position `j` of `s`.
pub open spec fn separator_at(s: Seq<char>, j: int) -> bool {
    0 <= j && j + 1 < s.len() && s[j] == ':' && s[j + 1] == ' '
}

proof fn lemma_separator_index(s: Seq<char>)
    ensures
        match separator_index(s) {
            Some(k) => separator_at(s, k) && forall|j: int|
                0 <= j < k ==> !#[trigger] separator_at(s, j),
            None => forall|j: int| !#[trigger] separator_at(s, j),
        },
    decreases s.len(),
{
    if s.len() >= 2 && !(s[0] == ':' && s[1] == ' ') {
        let d = s.drop_first();
        lemma_separator_index(d);
        assert forall|j: int| 1 <= j implies #[trigger] separator_at(s, j) == separator_at(
            d,
            j - 1,
        ) by {}
        match separator_index(d) {
            Some(k) => {
                assert forall|j: int| 0 <= j < k + 1 implies !#[trigger] separator_at(s, j) by {
                    if j >= 1 {
                        assert(separator_at(s, j) == separator_at(d, j - 1));
                    }
                }
            },
            None => {
                assert forall|j: int| !#[trigger] separator_at(s, j) by {
                    if j >= 1 {
                        assert(separator_at(s, j) == separator_at(d, j - 1));
                    }
                }
            },
        }
    } else if s.len() < 2 {
        assert forall|j: int| !#[trigger] separator_at(s, j) by {}
    }
}

/// The position of the first `": "` in `s`.
fn find_separator(s: &[char]) -> (r: Option<usize>)
    ensures
        match separator_index(s@) {
            Some(k) => r matches Some(j) && j == k,
            None => r is None,
        },
{
    let n = s.len();
    let mut j: usize = 0;
    while n > 0 && j < n - 1
        invariant
            n == s@.len(),
            j <= n,
            forall|i: int| 0 <= i < j ==> !#[trigger] separator_at(s@, i),
        decreases n - j,
    {
        if s[j] == ':' && s[j + 1] == ' ' {
            proof {
                lemma_separator_index(s@);
                assert(separator_at(s@, j as int));
                match separator_index(s@) {
                    Some(k) => {
                        if k < j {
                            assert(!separator_at(s@, k));
                        }
                        if k > j {
                            assert(!separator_at(s@, j as int));
                        }
                    },
                    None => {},
                }
            }
            return Some(j);
        }
        assert(!separator_at(s@, j as int));
        j = j + 1;
    }
    proof {
        lemma_separator_index(s@);
        match separator_index(s@) {
            Some(k) => {
                assert(separator_at(s@, k));
                assert(k < j);
            },
            None => {},
        }
    }
    None
}

/// Cuts a field line into its key and its trimmed value.
fn parse_kv(line: &[char]) -> (r: Result<(String, String)>)
    ensures
        match parse_kv_spec(line@) {
            Ok(kv) => r matches Ok(p) && p.0@ == kv.0 && p.1@ == kv.1,
            Err(e) => r matches Err(x) && x@ == e,
        },
{
    proof {
        lemma_separator_index(line@);
    }
    match find_separator(line) {
        None => {
            assert(line@.subrange(0, line@.len() as int) =~= line@);
            Err(
                ParseError::InvalidField {
                    field: "key-value pair",
                    value: string_of(line, 0, line.len()),
                },
            )
        },
        Some(p) => {
            proof {
                match separator_index(line@) {
                    Some(k) => {
                        assert(separator_at(line@, k));
                        assert(k == p as int);
                    },
                    None => {},
                }
            }
            assert(separator_at(line@, p as int));
            let n = line.len();
            let (a, b) = trim_range(line, p + 2, n);
            assert(line@.subrange(p + 2, line@.len() as int) =~= line@.skip(p + 2));
            assert(line@.subrange(0, p as int) =~= line@.take(p as int));
            Ok((string_of(line, 0, p), string_of(line, a, b)))
        },
    }
}

fn get_u64(map: &FieldMap, field: &'static str) -> (r: Result<u64>)
    ensures
        match get_u64_spec(map.pairs(), field@) {
            Ok(v) => r matches Ok(x) && x == v,
            Err(e) => r matches Err(x) && x@ == e,
        },
{
    let val = match map.get(field) {
        Some(v) => v,
        None => return Err(ParseError::MissingField(field)),
    };
    let chars = chars_of(val.as_str());
    let (a, b) = trim_range(&chars, 0, chars.len());
    assert(chars@.subrange(0, chars@.len() as int) =~= chars@);
    match parse_u64_chars(&chars, a, b) {
        Some(v) => Ok(v),
        None => Err(ParseError::InvalidField { field, value: val.clone() }),
    }
}

fn get_tx_type(map: &FieldMap) -> (r: Result<TxType>)
    ensures
        match get_tx_type_spec(map.pairs()) {
            Ok(v) => r matches Ok(x) && x == v,
            Err(e) => r matches Err(x) && x@ == e,
        },
{
    let val = match map.get("TX_TYPE") {
        Some(v) => v,
        None => return Err(ParseError::MissingField("TX_TYPE")),
    };
    let chars = chars_of(val.as_str());
    let n = chars.len();
    assert(chars@.subrange(0, n as int) =~= chars@);
    if chars_equal_str(&chars, 0, n, "DEPOSIT") {
        Ok(TxType::Deposit)
    } else if chars_equal_str(&chars, 0, n, "TRANSFER") {
        Ok(TxType::Transfer)
    } else if chars_equal_str(&chars, 0, n, "WITHDRAWAL") {
        Ok(TxType::Withdrawal)
    } else {
        Err(ParseError::InvalidField { field: "TX_TYPE", value: val.clone() })
    }
}

fn get_status(map: &FieldMap) -> (r: Result<Status>)
    ensures
        match get_status_spec(map.pairs()) {
            Ok(v) => r matches Ok(x) && x == v,
            Err(e) => r matches Err(x) && x@ == e,
        },
{
    let val = match map.get("STATUS") {
        Some(v) => v,
        None => return Err(ParseError::MissingField("STATUS")),
    };
    let chars = chars_of(val.as_str());
    let n = chars.len();
    assert(chars@.subrange(0, n as int) =~= chars@);
    if chars_equal_str(&chars, 0, n, "SUCCESS") {
        Ok(Status::Success)
    } else if chars_equal_str(&chars, 0, n, "FAILURE") {
        Ok(Status::Failure)
    } else if chars_equal_str(&chars, 0, n, "PENDING") {
        Ok(Status::Pending)
    } else {
        Err(ParseError::InvalidField { field: "STATUS", value: val.clone() })
    }
}

fn get_description(map: &FieldMap) -> (r: Result<String>)
    ensures
        match get_description_spec(map.pairs()) {
            Ok(v) => r matches Ok(x) && x@ == v,
            Err(e) => r matches Err(x) && x@ == e,
        },
{
    let val = match map.get("DESCRIPTION") {
        Some(v) => v,
        None => return Err(ParseError::MissingField("DESCRIPTION")),
    };
    let chars = chars_of(val.as_str());
    assert(chars@.subrange(0, chars@.len() as int) =~= chars@);
    let (a, b) = trim_range(&chars, 0, chars.len());
    if b - a >= 2 && chars[a] == '"' && chars[b - 1] == '"' {
        assert(chars@.subrange(a + 1, b - 1) =~= unquote(chars@.subrange(a as int, b as int)));
        Ok(string_of(&chars, a + 1, b - 1))
    } else {
        Err(ParseError::InvalidField { field: "DESCRIPTION", value: string_of(&chars, a, b) })
    }
}

// ---------------------------------------------------------------------
// Writing
// ---------------------------------------------------------------------

/// Appends the YPBankText text of `records` to `out` as UTF-8.
///
/// Records are separated by a blank line.
pub fn serialize(records: &[Transaction], out: &mut Vec<u8>)
    ensures
        final(out)@ == old(out)@ + encode_utf8(text_spec(models(records@))),
{
    let mut text = String::new();
    let n = records.len();
    assert(models(records@.take(0)) =~= Seq::<TransactionModel>::empty());
    assert(join_lines(Seq::<Seq<char>>::empty()) =~= Seq::<char>::empty());
    for i in 0..n
        invariant
            n == records@.len(),
            text@ == join_lines(all_lines(models(records@.take(i as int)))),
    {
        let ghost prev = models(records@.take(i as int));
        let ghost ms = models(records@.take(i + 1));
        assert(ms.drop_last() =~= prev);
        assert(ms.last() == records@[i as int]@);
        if i > 0 {
            string_push(&mut text, '\n');
        }
        let ghost before = text@;
        append_record(&mut text, &records[i]);
        proof {
            let rl = record_lines(records@[i as int]@);
            if i == 0 {
                assert(ms.len() == 1);
                assert(ms[0] == ms.last());
                assert(text@ =~= join_lines(rl));
            } else {
                let e = seq![Seq::<char>::empty()];
                lemma_join_lines_concat(all_lines(prev) + e, rl);
                lemma_join_lines_concat(all_lines(prev), e);
                assert(e.drop_first() =~= Seq::<Seq<char>>::empty());
                assert(join_lines(e.drop_first()) =~= Seq::<char>::empty());
                assert(e[0] =~= Seq::<char>::empty());
                assert(join_lines(e) =~= seq!['\n']);
                assert(all_lines(ms) == all_lines(prev) + e + rl);
            }
        }
    }
    assert(records@.take(n as int) =~= records@);
    append_utf8(out, text.as_str());
}

/// Adding the line `l` after the lines `ps` of a text that starts with
/// `start`.
proof fn lemma_extend(start: Seq<char>, ps: Seq<Seq<char>>, l: Seq<char>)
    ensures
        start + join_lines(ps) + l + seq!['\n'] == start + join_lines(ps.push(l)),
{
    lemma_join_lines_push(ps, l);
    assert(start + join_lines(ps) + l + seq!['\n'] =~= start + (join_lines(ps) + l + seq!['\n']));
}

fn append_record(text: &mut String, tx: &Transaction)
    ensures
        final(text)@ == old(text)@ + join_lines(record_lines(tx@)),
{
    let ghost t = tx@;
    let ghost start = text@;
    let ghost rl = record_lines(t);
    assert(start + join_lines(Seq::<Seq<char>>::empty()) =~= start);
    append_field_line(text, "TX_ID", decimal_string(tx.tx_id).as_str());
    proof {
        lemma_extend(start, Seq::<Seq<char>>::empty(), rl[0]);
        assert(Seq::<Seq<char>>::empty().push(rl[0]) =~= rl.take(1));
    }
    append_field_line(text, "TX_TYPE", tx_type_to_str(&tx.tx_type));
    proof {
        lemma_extend(start, rl.take(1), rl[1]);
        assert(rl.take(1).push(rl[1]) =~= rl.take(2));
    }
    append_field_line(text, "FROM_USER_ID", decimal_string(tx.from_user_id).as_str());
    proof {
        lemma_extend(start, rl.take(2), rl[2]);
        assert(rl.take(2).push(rl[2]) =~= rl.take(3));
    }
    append_field_line(text, "TO_USER_ID", decimal_string(tx.to_user_id).as_str());
    proof {
        lemma_extend(start, rl.take(3), rl[3]);
        assert(rl.take(3).push(rl[3]) =~= rl.take(4));
    }
    append_field_line(text, "AMOUNT", decimal_string(tx.amount).as_str());
    proof {
        lemma_extend(start, rl.take(4), rl[4]);
        assert(rl.take(4).push(rl[4]) =~= rl.take(5));
    }
    append_field_line(text, "TIMESTAMP", decimal_string(tx.timestamp).as_str());
    proof {
        lemma_extend(start, rl.take(5), rl[5]);
        assert(rl.take(5).push(rl[5]) =~= rl.take(6));
    }
    append_field_line(text, "STATUS", status_to_str(&tx.status));
    proof {
        lemma_extend(start, rl.take(6), rl[6]);
        assert(rl.take(6).push(rl[6]) =~= rl.take(7));
    }
    let mut quoted = String::from_str("\"");
    quoted.append(tx.description.as_str());
    quoted.append("\"");
    proof {
        reveal_strlit("\"");
        assert("\""@ =~= seq!['"']);
    }
    append_field_line(text, "DESCRIPTION", quoted.as_str());
    proof {
        lemma_extend(start, rl.take(7), rl[7]);
        assert(rl.take(7).push(rl[7]) =~= rl);
    }
}

fn append_field_line(text: &mut String, key: &str, value: &str)
    ensures
        final(text)@ == old(text)@ + field_line(key@, value@) + seq!['\n'],
{
    text.append(key);
    text.append(": ");
    text.append(value);
    string_push(text, '\n');
    proof {
        reveal_strlit(": ");
        assert(": "@ =~= seq![':', ' ']);
        assert(text@ =~= old(text)@ + field_line(key@, value@) + seq!['\n']);
    }
}

// ---------------------------------------------------------------------
// Laws
// ---------------------------------------------------------------------

/// Whether `k` can be the key of a field line that reads back: not empty,
/// without colon or line feed, starting with neither whitespace nor `#`.
pub open spec fn key_word(k: Seq<char>) -> bool {
    &&& k.len() > 0
    &&& lacks(k, ':')
    &&& lacks(k, '\n')
    &&& !is_space(k[0])
    &&& k[0] != '#'
}

/// Whether `v` can be the value of a field line that reads back: not empty,
/// without line feed, without whitespace at either end.
pub open spec fn plain_value(v: Seq<char>) -> bool {
    &&& v.len() > 0
    &&& lacks(v, '\n')
    &&& !is_space(v[0])
    &&& !is_space(v.last())
}

/// Whether a line joins the current record when read: it reads back as
/// itself, is not blank and does not start with `#`.
pub open spec fn content_line(l: Seq<char>) -> bool {
    &&& plain_line(l)
    &&& trim(l) == l
    &&& l.len() > 0
    &&& l[0] != '#'
}

proof fn lemma_separator_after(k: Seq<char>, v: Seq<char>)
    requires
        lacks(k, ':'),
    ensures
        separator_index(k + seq![':', ' '] + v) == Some(k.len() as int),
{
    let s = k + seq![':', ' '] + v;
    lemma_separator_index(s);
    assert(separator_at(s, k.len() as int));
    match separator_index(s) {
        Some(j) => {
            if j < k.len() {
                assert(s[j] == k[j]);
            }
            if j > k.len() {
                assert(!separator_at(s, k.len() as int));
            }
        },
        None => {},
    }
}

proof fn lemma_field_line(k: Seq<char>, v: Seq<char>)
    requires
        key_word(k),
        plain_value(v),
    ensures
        content_line(field_line(k, v)),
        parse_kv_spec(field_line(k, v)) == Ok::<(Seq<char>, Seq<char>), ParseErrorModel>((k, v)),
{
    let l = field_line(k, v);
    let sep = seq![':', ' '];
    assert(is_space('\r'));
    lemma_lacks_concat(k, sep, '\n');
    lemma_lacks_concat(k + sep, v, '\n');
    assert(l[0] == k[0]);
    assert(l.last() == v.last());
    lemma_trim_unchanged(l);
    lemma_trim_unchanged(v);
    lemma_separator_after(k, v);
    assert(l.take(k.len() as int) =~= k);
    assert(l.skip(k.len() as int + 2) =~= v);
}

proof fn lemma_keys()
    ensures
        key_word("TX_ID"@),
        key_word("TX_TYPE"@),
        key_word("FROM_USER_ID"@),
        key_word("TO_USER_ID"@),
        key_word("AMOUNT"@),
        key_word("TIMESTAMP"@),
        key_word("STATUS"@),
        key_word("DESCRIPTION"@),
        forall|i: int, j: int|
            0 <= i < 8 && 0 <= j < 8 && i != j ==> #[trigger] record_keys()[i] != #[trigger] record_keys()[j],
{
    reveal_strlit("TX_ID");
    reveal_strlit("TX_TYPE");
    reveal_strlit("FROM_USER_ID");
    reveal_strlit("TO_USER_ID");
    reveal_strlit("AMOUNT");
    reveal_strlit("TIMESTAMP");
    reveal_strlit("STATUS");
    reveal_strlit("DESCRIPTION");
    let ks = record_keys();
    assert(ks[0].len() == 5);
    assert(ks[1].len() == 7);
    assert(ks[2].len() == 12);
    assert(ks[3].len() == 10);
    assert(ks[4].len() == 6);
    assert(ks[5].len() == 9);
    assert(ks[6].len() == 6);
    assert(ks[7].len() == 11);
    assert(ks[4][0] != ks[6][0]);
}

/// The keys of a record's lines, in order.
pub open spec fn record_keys() -> Seq<Seq<char>> {
    seq![
        "TX_ID"@,
        "TX_TYPE"@,
        "FROM_USER_ID"@,
        "TO_USER_ID"@,
        "AMOUNT"@,
        "TIMESTAMP"@,
        "STATUS"@,
        "DESCRIPTION"@,
    ]
}

/// The values of a record's lines, in order.
pub open spec fn record_values(t: TransactionModel) -> Seq<Seq<char>> {
    seq![
        dec_chars(t.tx_id as nat),
        tx_type_name(t.tx_type),
        dec_chars(t.from_user_id as nat),
        dec_chars(t.to_user_id as nat),
        dec_chars(t.amount as nat),
        dec_chars(t.timestamp as nat),
        status_name(t.status),
        seq!['"'] + t.description + seq!['"'],
    ]
}

/// The key-value pairs of a record, in order.
pub open spec fn record_pairs(t: TransactionModel) -> Seq<(Seq<char>, Seq<char>)> {
    Seq::new(8, |i: int| (record_keys()[i], record_values(t)[i]))
}

proof fn lemma_record_values(t: TransactionModel)
    requires
        text_safe(t),
    ensures
        forall|i: int| 0 <= i < 8 ==> plain_value(#[trigger] record_values(t)[i]),
        forall|i: int| 0 <= i < 8 ==> key_word(#[trigger] record_keys()[i]),
        forall|i: int|
            0 <= i < 8 ==> #[trigger] record_lines(t)[i] == field_line(
                record_keys()[i],
                record_values(t)[i],
            ),
        record_lines(t).len() == 8,
{
    lemma_keys();
    lemma_dec_chars_parse(t.tx_id as nat);
    lemma_dec_chars_parse(t.from_user_id as nat);
    lemma_dec_chars_parse(t.to_user_id as nat);
    lemma_dec_chars_parse(t.amount as nat);
    lemma_dec_chars_parse(t.timestamp as nat);
    lemma_tx_type_name_plain(t.tx_type);
    lemma_status_name_plain(t.status);
    lemma_quoted(t.description);
    lemma_lacks_concat(seq!['"'], t.description, '\n');
    lemma_lacks_concat(seq!['"'] + t.description, seq!['"'], '\n');
    assert(!is_space('"'));
}

proof fn lemma_kv_pairs_of(block: Seq<Seq<char>>, ps: Seq<(Seq<char>, Seq<char>)>)
    requires
        block.len() == ps.len(),
        forall|i: int|
            0 <= i < block.len() ==> parse_kv_spec(#[trigger] block[i]) == Ok::<
                (Seq<char>, Seq<char>),
                ParseErrorModel,
            >(ps[i]),
    ensures
        kv_pairs(block) == Ok::<Seq<(Seq<char>, Seq<char>)>, ParseErrorModel>(ps),
    decreases block.len(),
{
    if block.len() == 0 {
        assert(ps =~= Seq::<(Seq<char>, Seq<char>)>::empty());
    } else {
        let b = block.drop_first();
        let q = ps.drop_first();
        assert forall|i: int| 0 <= i < b.len() implies parse_kv_spec(#[trigger] b[i]) == Ok::<
            (Seq<char>, Seq<char>),
            ParseErrorModel,
        >(q[i]) by {
            assert(b[i] == block[i + 1]);
        }
        lemma_kv_pairs_of(b, q);
        assert(parse_kv_spec(block[0]) == Ok::<(Seq<char>, Seq<char>), ParseErrorModel>(ps[0]));
        assert(seq![ps[0]] + q =~= ps);
    }
}

proof fn lemma_lookup_distinct(ps: Seq<(Seq<char>, Seq<char>)>, i: int)
    requires
        0 <= i < ps.len(),
        forall|a: int, b: int| 0 <= a < ps.len() && 0 <= b < ps.len() && a != b ==> ps[a].0 != ps[b].0,
    ensures
        lookup(ps, ps[i].0) == Some(ps[i].1),
    decreases ps.len(),
{
    if i < ps.len() - 1 {
        let d = ps.drop_last();
        assert(ps.last().0 != ps[i].0);
        assert(d[i] == ps[i]);
        lemma_lookup_distinct(d, i);
    }
}

proof fn lemma_block_roundtrip(t: TransactionModel)
    requires
        text_safe(t),
    ensures
        block_spec(record_lines(t)) == Ok::<TransactionModel, ParseErrorModel>(t),
{
    let rl = record_lines(t);
    let ps = record_pairs(t);
    let ks = record_keys();
    let vs = record_values(t);
    lemma_record_values(t);
    lemma_keys();
    assert forall|i: int| 0 <= i < rl.len() implies parse_kv_spec(#[trigger] rl[i]) == Ok::<
        (Seq<char>, Seq<char>),
        ParseErrorModel,
    >(ps[i]) by {
        lemma_field_line(ks[i], vs[i]);
    }
    lemma_kv_pairs_of(rl, ps);
    assert forall|a: int, b: int|
        0 <= a < ps.len() && 0 <= b < ps.len() && a != b implies ps[a].0 != ps[b].0 by {
        assert(ks[a] != ks[b]);
    }
    lemma_lookup_distinct(ps, 0);
    lemma_lookup_distinct(ps, 1);
    lemma_lookup_distinct(ps, 2);
    lemma_lookup_distinct(ps, 3);
    lemma_lookup_distinct(ps, 4);
    lemma_lookup_distinct(ps, 5);
    lemma_lookup_distinct(ps, 6);
    lemma_lookup_distinct(ps, 7);
    lemma_dec_chars_parse(t.tx_id as nat);
    lemma_dec_chars_parse(t.from_user_id as nat);
    lemma_dec_chars_parse(t.to_user_id as nat);
    lemma_dec_chars_parse(t.amount as nat);
    lemma_dec_chars_parse(t.timestamp as nat);
    lemma_trim_unchanged(dec_chars(t.tx_id as nat));
    lemma_trim_unchanged(dec_chars(t.from_user_id as nat));
    lemma_trim_unchanged(dec_chars(t.to_user_id as nat));
    lemma_trim_unchanged(dec_chars(t.amount as nat));
    lemma_trim_unchanged(dec_chars(t.timestamp as nat));
    lemma_parse_dec(t.tx_id);
    lemma_parse_dec(t.from_user_id);
    lemma_parse_dec(t.to_user_id);
    lemma_parse_dec(t.amount);
    lemma_parse_dec(t.timestamp);
    lemma_tx_type_codes(t.tx_type);
    lemma_status_codes(t.status);
    lemma_quoted(t.description);
}

/// Content lines, read while the lines `blk` are gathered for the current
/// record, join that record one after the other.
pub proof fn lemma_content_lines(ls: Seq<Seq<char>>, more: Seq<Seq<u8>>, blk: Seq<Seq<char>>)
    requires
        forall|i: int| 0 <= i < ls.len() ==> content_line(#[trigger] ls[i]),
    ensures
        lines_spec(ls.map_values(|l: Seq<char>| encode_utf8(l)) + more, blk) == lines_spec(
            more,
            blk + ls,
        ),
    decreases ls.len(),
{
    let enc = ls.map_values(|l: Seq<char>| encode_utf8(l));
    if ls.len() == 0 {
        assert(enc + more =~= more);
        assert(blk + ls =~= blk);
    } else {
        let l = ls[0];
        let rest = ls.drop_first();
        assert(content_line(l));
        assert forall|i: int| 0 <= i < rest.len() implies content_line(#[trigger] rest[i]) by {
            assert(rest[i] == ls[i + 1]);
        }
        lemma_content_lines(rest, more, blk.push(l));
        let all = enc + more;
        assert(all[0] == encode_utf8(l));
        assert(all.drop_first() =~= rest.map_values(|l: Seq<char>| encode_utf8(l)) + more);
        encode_utf8_valid_utf8(l);
        encode_utf8_decode_utf8(l);
        assert(blk.push(l) + rest =~= blk + ls);
    }
}

proof fn lemma_all_lines_front(txs: Seq<TransactionModel>)
    requires
        txs.len() >= 2,
    ensures
        all_lines(txs) == record_lines(txs[0]) + seq![Seq::<char>::empty()] + all_lines(
            txs.drop_first(),
        ),
    decreases txs.len(),
{
    let e = seq![Seq::<char>::empty()];
    if txs.len() == 2 {
        assert(txs.drop_last().len() == 1);
        assert(txs.drop_last()[0] == txs[0]);
        assert(txs.drop_first().len() == 1);
        assert(txs.drop_first()[0] == txs.last());
        assert(all_lines(txs.drop_last()) == record_lines(txs[0]));
        assert(all_lines(txs.drop_first()) == record_lines(txs.last()));
    } else {
        lemma_all_lines_front(txs.drop_last());
        assert(txs.drop_last().drop_first() =~= txs.drop_first().drop_last());
        assert(txs.drop_first().last() == txs.last());
        assert(txs.drop_last()[0] == txs[0]);
        let a = record_lines(txs[0]);
        let m = all_lines(txs.drop_first().drop_last());
        let z = record_lines(txs.last());
        assert(all_lines(txs.drop_first()) == m + e + z);
        assert(a + e + m + e + z =~= a + e + (m + e + z));
    }
}

proof fn lemma_all_lines_plain(txs: Seq<TransactionModel>)
    requires
        forall|i: int| 0 <= i < txs.len() ==> text_safe(#[trigger] txs[i]),
    ensures
        forall|i: int| 0 <= i < all_lines(txs).len() ==> plain_line(#[trigger] all_lines(txs)[i]),
    decreases txs.len(),
{
    if txs.len() > 0 {
        let rl = record_lines(txs.last());
        assert(text_safe(txs.last()));
        lemma_record_values(txs.last());
        assert forall|i: int| 0 <= i < rl.len() implies plain_line(#[trigger] rl[i]) by {
            lemma_field_line(record_keys()[i], record_values(txs.last())[i]);
        }
        if txs.len() > 1 {
            let d = txs.drop_last();
            assert forall|i: int| 0 <= i < d.len() implies text_safe(#[trigger] d[i]) by {
                assert(d[i] == txs[i]);
            }
            lemma_all_lines_plain(d);
            let a = all_lines(d);
            let e = seq![Seq::<char>::empty()];
            let all = a + e + rl;
            assert forall|i: int| 0 <= i < all.len() implies plain_line(#[trigger] all[i]) by {
                if i < a.len() {
                    assert(all[i] == a[i]);
                } else if i == a.len() {
                    assert(all[i] == Seq::<char>::empty());
                } else {
                    assert(all[i] == rl[i - a.len() - 1]);
                }
            }
        } else {
            assert(all_lines(txs) == rl);
        }
    }
}

proof fn lemma_records_roundtrip(txs: Seq<TransactionModel>)
    requires
        forall|i: int| 0 <= i < txs.len() ==> text_safe(#[trigger] txs[i]),
    ensures
        lines_spec(all_lines(txs).map_values(|l: Seq<char>| encode_utf8(l)), seq![]) == Ok::<
            Seq<TransactionModel>,
            ParseErrorModel,
        >(txs),
    decreases txs.len(),
{
    let empty_block = Seq::<Seq<char>>::empty();
    let no_lines = Seq::<Seq<u8>>::empty();
    if txs.len() == 0 {
        assert(all_lines(txs).map_values(|l: Seq<char>| encode_utf8(l)) =~= no_lines);
        assert(txs =~= Seq::<TransactionModel>::empty());
    } else {
        let t = txs[0];
        let rl = record_lines(t);
        assert(text_safe(t));
        lemma_record_values(t);
        assert forall|i: int| 0 <= i < rl.len() implies content_line(#[trigger] rl[i]) by {
            lemma_field_line(record_keys()[i], record_values(t)[i]);
        }
        lemma_block_roundtrip(t);
        let enc_rl = rl.map_values(|l: Seq<char>| encode_utf8(l));
        assert(empty_block + rl =~= rl);
        if txs.len() == 1 {
            assert(all_lines(txs) == rl);
            assert(all_lines(txs).map_values(|l: Seq<char>| encode_utf8(l)) =~= enc_rl + no_lines);
            lemma_content_lines(rl, no_lines, empty_block);
            assert(seq![t] =~= txs);
        } else {
            let rest = txs.drop_first();
            assert forall|i: int| 0 <= i < rest.len() implies text_safe(#[trigger] rest[i]) by {
                assert(rest[i] == txs[i + 1]);
            }
            lemma_records_roundtrip(rest);
            lemma_all_lines_front(txs);
            let tail = all_lines(rest).map_values(|l: Seq<char>| encode_utf8(l));
            let blank = encode_utf8(Seq::<char>::empty());
            assert(blank =~= Seq::<u8>::empty());
            let more = seq![blank] + tail;
            assert(all_lines(txs).map_values(|l: Seq<char>| encode_utf8(l)) =~= enc_rl + more);
            lemma_content_lines(rl, more, empty_block);
            assert(more[0] == blank);
            assert(more.drop_first() =~= tail);
            encode_utf8_valid_utf8(Seq::<char>::empty());
            encode_utf8_decode_utf8(Seq::<char>::empty());
            assert(trim(Seq::<char>::empty()) =~= Seq::<char>::empty());
            assert(seq![t] + rest =~= txs);
        }
    }
}

/// Writing transactions whose descriptions hold no line feed and reading the
/// text back gives the same transactions.
pub proof fn lemma_roundtrip(txs: Seq<TransactionModel>)
    requires
        forall|i: int| 0 <= i < txs.len() ==> text_safe(#[trigger] txs[i]),
    ensures
        parse_spec(encode_utf8(text_spec(txs))) == Ok::<Seq<TransactionModel>, ParseErrorModel>(
            txs,
        ),
{
    lemma_all_lines_plain(txs);
    lemma_split_joined(all_lines(txs));
    lemma_records_roundtrip(txs);
}

/// A line that starts with `#` once trimmed is skipped wherever it stands,
/// inside a record or between records.
pub proof fn lemma_comment_lines_skipped(
    before: Seq<Seq<u8>>,
    comment: Seq<u8>,
    after: Seq<Seq<u8>>,
    block: Seq<Seq<char>>,
)
    requires
        line_text(comment) matches Some(t) && trim(t).len() > 0 && trim(t)[0] == '#',
    ensures
        lines_spec(before + seq![comment] + after, block) == lines_spec(before + after, block),
    decreases before.len(),
{
    let with = before + seq![comment] + after;
    let without = before + after;
    if before.len() == 0 {
        assert(with[0] == comment);
        assert(with.drop_first() =~= after);
        assert(without =~= after);
    } else {
        assert(with[0] == before[0]);
        assert(without[0] == before[0]);
        assert(with.drop_first() =~= before.drop_first() + seq![comment] + after);
        assert(without.drop_first() =~= before.drop_first() + after);
        match line_text(before[0]) {
            None => {},
            Some(l) => {
                let t = trim(l);
                lemma_comment_lines_skipped(before.drop_first(), comment, after, block);
                lemma_comment_lines_skipped(before.drop_first(), comment, after, seq![]);
                lemma_comment_lines_skipped(before.drop_first(), comment, after, block.push(t));
            },
        }
    }
}

/// The last line needs no line feed: input whose last line is not ended by
/// one reads the same as that input with a line feed added.
pub proof fn lemma_final_line_feed_optional(input: Seq<u8>)
    requires
        input.len() > 0,
        input.last() != 10,
        input.last() != 13,
    ensures
        parse_spec(input + seq![10u8]) == parse_spec(input),
{
    lemma_final_line_feed(input);
}

/// A blank line read while no record is open is skipped.
pub proof fn lemma_blank_line_outside_record(blank: Seq<u8>, after: Seq<Seq<u8>>)
    requires
        line_text(blank) matches Some(t) && trim(t).len() == 0,
    ensures
        lines_spec(seq![blank] + after, seq![]) == lines_spec(after, seq![]),
{
    let with = seq![blank] + after;
    assert(with[0] == blank);
    assert(with.drop_first() =~= after);
}

/// A blank line that follows a blank line changes nothing, wherever the two
/// stand: the first one has already ended the record, if one was open.
pub proof fn lemma_blank_after_blank(
    before: Seq<Seq<u8>>,
    blank: Seq<u8>,
    after: Seq<Seq<u8>>,
    block: Seq<Seq<char>>,
)
    requires
        line_text(blank) matches Some(t) && trim(t).len() == 0,
    ensures
        lines_spec(before + seq![blank, blank] + after, block) == lines_spec(
            before + seq![blank] + after,
            block,
        ),
    decreases before.len(),
{
    let with = before + seq![blank, blank] + after;
    let without = before + seq![blank] + after;
    if before.len() == 0 {
        assert(with[0] == blank);
        assert(without[0] == blank);
        assert(with.drop_first() =~= without);
        assert(without.drop_first() =~= after);
        lemma_blank_line_outside_record(blank, after);
    } else {
        assert(with[0] == before[0]);
        assert(without[0] == before[0]);
        assert(with.drop_first() =~= before.drop_first() + seq![blank, blank] + after);
        assert(without.drop_first() =~= before.drop_first() + seq![blank] + after);
        match line_text(before[0]) {
            None => {},
            Some(l) => {
                let t = trim(l);
                lemma_blank_after_blank(before.drop_first(), blank, after, block);
                lemma_blank_after_blank(before.drop_first(), blank, after, seq![]);
                lemma_blank_after_blank(before.drop_first(), blank, after, block.push(t));
            },
        }
    }
}

proof fn lemma_empty_line_blank()
    ensures
        line_text(Seq::<u8>::empty()) == Some(Seq::<char>::empty()),
        trim(Seq::<char>::empty()).len() == 0,
{
    assert(encode_utf8(Seq::<char>::empty()) =~= Seq::<u8>::empty());
    encode_utf8_valid_utf8(Seq::<char>::empty());
    encode_utf8_decode_utf8(Seq::<char>::empty());
    assert(trim(Seq::<char>::empty()) =~= Seq::<char>::empty());
}

/// Blank lines before the first record are skipped: a line feed at the start
/// of the input changes nothing.
pub proof fn lemma_leading_blank_line(input: Seq<u8>)
    ensures
        parse_spec(seq![10u8] + input) == parse_spec(input),
{
    let e = Seq::<u8>::empty();
    lemma_split_lines_first(e, input);
    assert(e + seq![10u8] + input =~= seq![10u8] + input);
    assert(strip_cr(e) =~= e);
    lemma_empty_line_blank();
    lemma_blank_line_outside_record(e, split_lines(input));
}

/// Extra blank lines between records change nothing: three line feeds in a
/// row read as two.
pub proof fn lemma_extra_blank_line(front: Seq<u8>, back: Seq<u8>)
    ensures
        parse_spec(front + seq![10u8, 10u8, 10u8] + back) == parse_spec(
            front + seq![10u8, 10u8] + back,
        ),
{
    let e = Seq::<u8>::empty();
    let r3 = seq![10u8, 10u8] + back;
    let r2 = seq![10u8] + back;
    assert(front + seq![10u8, 10u8, 10u8] + back =~= front + seq![10u8] + r3);
    assert(front + seq![10u8, 10u8] + back =~= front + seq![10u8] + r2);
    lemma_split_lines_concat(front, r3);
    lemma_split_lines_concat(front, r2);
    lemma_split_lines_first(e, r2);
    assert(e + seq![10u8] + r2 =~= r3);
    lemma_split_lines_first(e, back);
    assert(e + seq![10u8] + back =~= r2);
    assert(strip_cr(e) =~= e);
    let s = split_lines(front + seq![10u8]);
    let l = split_lines(back);
    assert(s + (seq![e] + (seq![e] + l)) =~= s + seq![e, e] + l);
    assert(s + (seq![e] + l) =~= s + seq![e] + l);
    lemma_empty_line_blank();
    lemma_blank_after_blank(s, e, l, seq![]);
}

/// A line without a colon is no field line.
pub proof fn lemma_no_separator(s: Seq<char>)
    requires
        lacks(s, ':'),
    ensures
        separator_index(s) is None,
{
    lemma_separator_index(s);
    match separator_index(s) {
        Some(k) => {
            assert(s[k] == ':');
        },
        None => {},
    }
}

/// The first line of what [`serialize`] writes for transactions is the
/// `TX_ID` field line of the first one, which reads back as itself.
pub proof fn lemma_written_first_line(txs: Seq<TransactionModel>)
    requires
        txs.len() > 0,
        forall|i: int| 0 <= i < txs.len() ==> text_safe(#[trigger] txs[i]),
    ensures
        split_lines(encode_utf8(text_spec(txs))).len() > 0,
        split_lines(encode_utf8(text_spec(txs)))[0] == encode_utf8(
            field_line("TX_ID"@, dec_chars(txs[0].tx_id as nat)),
        ),
        content_line(field_line("TX_ID"@, dec_chars(txs[0].tx_id as nat))),
{
    let fl = field_line("TX_ID"@, dec_chars(txs[0].tx_id as nat));
    lemma_all_lines_plain(txs);
    lemma_split_joined(all_lines(txs));
    if txs.len() == 1 {
        assert(all_lines(txs) == record_lines(txs[0]));
    } else {
        lemma_all_lines_front(txs);
        assert(all_lines(txs)[0] == record_lines(txs[0])[0]);
    }
    assert(all_lines(txs)[0] == fl);
    lemma_keys();
    lemma_dec_chars_parse(txs[0].tx_id as nat);
    lemma_field_line("TX_ID"@, dec_chars(txs[0].tx_id as nat));
}

/// What [`serialize`] writes reads back the same without its final line
/// feed: the last record needs no line feed to end it.
pub proof fn lemma_roundtrip_unterminated(txs: Seq<TransactionModel>)
    requires
        txs.len() > 0,
        forall|i: int| 0 <= i < txs.len() ==> text_safe(#[trigger] txs[i]),
    ensures
        encode_utf8(text_spec(txs)).len() > 0,
        parse_spec(encode_utf8(text_spec(txs)).drop_last()) == Ok::<
            Seq<TransactionModel>,
            ParseErrorModel,
        >(txs),
{
    let ls = all_lines(txs);
    lemma_all_lines_plain(txs);
    if txs.len() == 1 {
        assert(ls == record_lines(txs[0]));
        assert(txs.last() == txs[0]);
    }
    assert(ls.last() == record_lines(txs.last())[7]);
    lemma_final_line_feed_dropped(ls);
    lemma_roundtrip(txs);
}

/// Whether no key occurs twice among the pairs `ps`.
pub open spec fn distinct_keys(ps: Seq<(Seq<char>, Seq<char>)>) -> bool {
    forall|a: int, b: int| 0 <= a < ps.len() && 0 <= b < ps.len() && a != b ==> ps[a].0 != ps[b].0
}

proof fn lemma_lookup_absent(ps: Seq<(Seq<char>, Seq<char>)>, k: Seq<char>)
    requires
        forall|i: int| 0 <= i < ps.len() ==> ps[i].0 != k,
    ensures
        lookup(ps, k) is None,
    decreases ps.len(),
{
    if ps.len() > 0 {
        let d = ps.drop_last();
        assert forall|i: int| 0 <= i < d.len() implies d[i].0 != k by {
            assert(d[i] == ps[i]);
        }
        lemma_lookup_absent(d, k);
    }
}

proof fn lemma_lookup_found(ps: Seq<(Seq<char>, Seq<char>)>, k: Seq<char>)
    ensures
        lookup(ps, k) matches Some(v) ==> ps.contains((k, v)),
    decreases ps.len(),
{
    if ps.len() > 0 && ps.last().0 != k {
        let d = ps.drop_last();
        lemma_lookup_found(d, k);
        if let Some(v) = lookup(d, k) {
            let i = choose|i: int| 0 <= i < d.len() && d[i] == (k, v);
            assert(ps[i] == (k, v));
        }
    } else if ps.len() > 0 {
        assert(ps[ps.len() - 1] == ps.last());
    }
}

proof fn lemma_lookup_same(
    p1: Seq<(Seq<char>, Seq<char>)>,
    p2: Seq<(Seq<char>, Seq<char>)>,
    k: Seq<char>,
)
    requires
        distinct_keys(p1),
        distinct_keys(p2),
        forall|x: (Seq<char>, Seq<char>)| p1.contains(x) <==> p2.contains(x),
    ensures
        lookup(p1, k) == lookup(p2, k),
{
    lemma_lookup_found(p1, k);
    lemma_lookup_found(p2, k);
    match lookup(p1, k) {
        Some(v) => {
            assert(p2.contains((k, v)));
            let i = choose|i: int| 0 <= i < p2.len() && p2[i] == (k, v);
            lemma_lookup_distinct(p2, i);
        },
        None => {
            match lookup(p2, k) {
                Some(v) => {
                    assert(p1.contains((k, v)));
                    let i = choose|i: int| 0 <= i < p1.len() && p1[i] == (k, v);
                    lemma_lookup_distinct(p1, i);
                },
                None => {},
            }
        },
    }
}

/// The fields of a record may come in any order: two sets of fields with the
/// same key-value pairs, no key given twice, describe the same record.
pub proof fn lemma_field_order(p1: Seq<(Seq<char>, Seq<char>)>, p2: Seq<(Seq<char>, Seq<char>)>)
    requires
        distinct_keys(p1),
        distinct_keys(p2),
        forall|x: (Seq<char>, Seq<char>)| p1.contains(x) <==> p2.contains(x),
    ensures
        record_spec(p1) == record_spec(p2),
{
    lemma_lookup_same(p1, p2, "TX_ID"@);
    lemma_lookup_same(p1, p2, "TX_TYPE"@);
    lemma_lookup_same(p1, p2, "FROM_USER_ID"@);
    lemma_lookup_same(p1, p2, "TO_USER_ID"@);
    lemma_lookup_same(p1, p2, "AMOUNT"@);
    lemma_lookup_same(p1, p2, "TIMESTAMP"@);
    lemma_lookup_same(p1, p2, "STATUS"@);
    lemma_lookup_same(p1, p2, "DESCRIPTION"@);
}

/// Reordering the lines of a block whose lines are all field lines with
/// distinct keys does not change the record it describes.
pub proof fn lemma_block_field_order(b1: Seq<Seq<char>>, b2: Seq<Seq<char>>)
    requires
        kv_pairs(b1) is Ok,
        kv_pairs(b2) is Ok,
        distinct_keys(kv_pairs(b1)->Ok_0),
        distinct_keys(kv_pairs(b2)->Ok_0),
        forall|x: (Seq<char>, Seq<char>)|
            (kv_pairs(b1)->Ok_0).contains(x) <==> (kv_pairs(b2)->Ok_0).contains(x),
    ensures
        block_spec(b1) == block_spec(b2),
{
    lemma_field_order(kv_pairs(b1)->Ok_0, kv_pairs(b2)->Ok_0);
}

} // verus!
