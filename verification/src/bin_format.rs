use vstd::prelude::*;
use vstd::slice::slice_subrange;
use vstd::utf8::*;

use crate::be::{
    be_u32_at, be_u32_bytes, be_u32_value, be_u64_at, be_u64_bytes, be_u64_value, push_be_u32,
    push_be_u64,
};
use crate::error::{
    eof_text, invalid, lemma_prepend_assoc, list_result, missing, prepend, tx_result,
    unexpected_eof, ParseError, ParseErrorModel, Result,
};
use crate::text::{
    chars_of, dec_chars, decimal_string, str_from_utf8, string_of, strip_quotes, trim, trim_range,
};
use crate::transaction::{
    models, status_byte, status_code, status_of_code, tx_type_byte, tx_type_code, tx_type_of_code,
    Status, Transaction, TransactionModel, TxType,
};

verus! {

/// The bytes `YPBN` that open every record.
pub const MAGIC: [u8; 4] = [0x59, 0x50, 0x42, 0x4E];

/// The bytes `YPBN` that open every record.
pub open spec fn magic() -> Seq<u8> {
    seq![0x59u8, 0x50u8, 0x42u8, 0x4Eu8]
}

// ---------------------------------------------------------------------
// The format
// ---------------------------------------------------------------------

/// The UTF-8 bytes of a transaction's description.
pub open spec fn desc_bytes(t: TransactionModel) -> Seq<u8> {
    encode_utf8(t.description)
}

/// Whether the record of `t` fits the format: its body length must fit the
/// four-byte size field.
pub open spec fn fits(t: TransactionModel) -> bool {
    desc_bytes(t).len() + 46 <= u32::MAX
}

/// The body of the record of `t`: the fixed-size fields in order, the
/// description's length and the description's bytes. The amount is written
/// as the `i64` of the same bits.
#[verifier::opaque]
pub open spec fn body_bytes(t: TransactionModel) -> Seq<u8> {
    be_u64_bytes(t.tx_id) + seq![tx_type_code(t.tx_type)] + be_u64_bytes(t.from_user_id)
        + be_u64_bytes(t.to_user_id) + be_u64_bytes(t.amount) + be_u64_bytes(t.timestamp) + seq![
        status_code(t.status),
    ] + be_u32_bytes(desc_bytes(t).len() as u32) + desc_bytes(t)
}

/// The record of `t`: magic bytes, body size, body.
pub open spec fn record_bytes(t: TransactionModel) -> Seq<u8> {
    magic() + be_u32_bytes(body_bytes(t).len() as u32) + body_bytes(t)
}

/// The records of `txs`, one after the other.
pub open spec fn records_bytes(txs: Seq<TransactionModel>) -> Seq<u8>
    decreases txs.len(),
{
    if txs.len() == 0 {
        seq![]
    } else {
        records_bytes(txs.drop_last()) + record_bytes(txs.last())
    }
}

/// The amount read from the eight amount bytes whose big-endian value is
/// `raw`: the magnitude of the `i64` with those bits.
pub open spec fn amount_of_raw(raw: u64) -> u64 {
    if raw < 0x8000_0000_0000_0000 {
        raw
    } else {
        (0x1_0000_0000_0000_0000 - raw) as u64
    }
}

/// What reading the body `b` of one record gives.
#[verifier::opaque]
pub open spec fn parse_body_spec(b: Seq<u8>) -> core::result::Result<
    TransactionModel,
    ParseErrorModel,
> {
    if b.len() < 8 {
        Err(missing("TX_ID"@))
    } else if b.len() < 9 {
        Err(missing("TX_TYPE"@))
    } else if tx_type_of_code(b[8]) is None {
        Err(invalid("TX_TYPE"@, dec_chars(b[8] as nat)))
    } else if b.len() < 17 {
        Err(missing("FROM_USER_ID"@))
    } else if b.len() < 25 {
        Err(missing("TO_USER_ID"@))
    } else if b.len() < 33 {
        Err(missing("AMOUNT"@))
    } else if b.len() < 41 {
        Err(missing("TIMESTAMP"@))
    } else if b.len() < 42 {
        Err(missing("STATUS"@))
    } else if status_of_code(b[41]) is None {
        Err(invalid("STATUS"@, dec_chars(b[41] as nat)))
    } else if b.len() < 46 {
        Err(missing("DESC_LEN"@))
    } else {
        let n = be_u32_value(b.subrange(42, 46)) as int;
        if b.len() < 46 + n {
            Err(missing("DESCRIPTION"@))
        } else if !valid_utf8(b.subrange(46, 46 + n)) {
            Err(ParseErrorModel::IsNotUtf8)
        } else {
            Ok(
                TransactionModel {
                    tx_id: be_u64_value(b.subrange(0, 8)),
                    tx_type: tx_type_of_code(b[8]).unwrap(),
                    from_user_id: be_u64_value(b.subrange(9, 17)),
                    to_user_id: be_u64_value(b.subrange(17, 25)),
                    amount: amount_of_raw(be_u64_value(b.subrange(25, 33))),
                    timestamp: be_u64_value(b.subrange(33, 41)),
                    status: status_of_code(b[41]).unwrap(),
                    description: strip_quotes(trim(decode_utf8(b.subrange(46, 46 + n)))),
                },
            )
        }
    }
}

/// What reading the records in `b` gives: records follow one another to the
/// end of the input; input that ends inside a record's header or body is an
/// I/O error, a record that does not start with the magic bytes is refused.
#[verifier::opaque]
pub open spec fn parse_spec(b: Seq<u8>) -> core::result::Result<
    Seq<TransactionModel>,
    ParseErrorModel,
>
    decreases b.len(),
{
    if b.len() == 0 {
        Ok(seq![])
    } else if b.len() < 4 {
        Err(ParseErrorModel::InvalidIo(eof_text()))
    } else if b.subrange(0, 4) != magic() {
        Err(ParseErrorModel::InvalidMagic)
    } else if b.len() < 8 {
        Err(ParseErrorModel::InvalidIo(eof_text()))
    } else {
        let n = be_u32_value(b.subrange(4, 8)) as int;
        if b.len() < 8 + n {
            Err(ParseErrorModel::InvalidIo(eof_text()))
        } else {
            match parse_body_spec(b.subrange(8, 8 + n)) {
                Err(e) => Err(e),
                Ok(t) => prepend(seq![t], parse_spec(b.skip(8 + n))),
            }
        }
    }
}

// ---------------------------------------------------------------------
// Reading
// ---------------------------------------------------------------------

/// Parses the transactions of a YPBankBin input.
///
/// Each record starts with the magic bytes `YPBN`, then the size of its body
/// and the body. All numbers are big-endian.
pub fn parse(input: &[u8]) -> (r: Result<Vec<Transaction>>)
    ensures
        list_result(r) == parse_spec(input@),
{
    let mut transactions: Vec<Transaction> = Vec::new();
    let n = input.len();
    let mut pos: usize = 0;
    assert(input@.skip(0) =~= input@);
    assert(models(transactions@) =~= Seq::<TransactionModel>::empty());
    while pos < n
        invariant
            pos <= n == input@.len(),
            parse_spec(input@) == prepend(
                models(transactions@),
                parse_spec(input@.skip(pos as int)),
            ),
        decreases n - pos,
    {
        let ghost rest = input@.skip(pos as int);
        proof {
            reveal(parse_spec);
        }
        if n - pos < 4 {
            return Err(unexpected_eof());
        }
        if !(input[pos] == 0x59 && input[pos + 1] == 0x50 && input[pos + 2] == 0x42 && input[pos
            + 3] == 0x4E) {
            assert(rest.subrange(0, 4) != magic()) by {
                assert(rest.subrange(0, 4)[0] == input@[pos as int]);
                assert(rest.subrange(0, 4)[1] == input@[pos + 1]);
                assert(rest.subrange(0, 4)[2] == input@[pos + 2]);
                assert(rest.subrange(0, 4)[3] == input@[pos + 3]);
            }
            return Err(ParseError::InvalidMagic);
        }
        assert(rest.subrange(0, 4) =~= magic());
        if n - pos < 8 {
            return Err(unexpected_eof());
        }
        let size = be_u32_at(input, pos + 4) as usize;
        assert(rest.subrange(4, 8) =~= input@.subrange(pos + 4, pos + 8));
        if n - pos - 8 < size {
            return Err(unexpected_eof());
        }
        let body = slice_subrange(input, pos + 8, pos + 8 + size);
        assert(body@ =~= rest.subrange(8, 8 + size));
        let tx = match parse_body(body) {
            Ok(tx) => tx,
            Err(e) => {
                proof {
                    lemma_parse_step(rest, size as int);
                }
                return Err(e);
            },
        };
        proof {
            lemma_parse_step(rest, size as int);
            assert(rest.skip(8 + size) =~= input@.skip(pos + 8 + size));
            lemma_prepend_assoc(models(transactions@), seq![tx@], parse_spec(rest.skip(8 + size)));
        }
        let ghost before = transactions@;
        transactions.push(tx);
        assert(models(transactions@) =~= models(before) + seq![tx@]);
        pos = pos + 8 + size;
    }
    assert(input@.skip(pos as int) =~= Seq::<u8>::empty());
    reveal(parse_spec);
    assert(models(transactions@) + Seq::<TransactionModel>::empty() =~= models(transactions@));
    Ok(transactions)
}

fn parse_body(body: &[u8]) -> (r: Result<Transaction>)
    ensures
        tx_result(r) == parse_body_spec(body@),
{
    reveal(parse_body_spec);
    let mut pos: usize = 0;
    let tx_id = match read_u64(body, &mut pos, "TX_ID") {
        Ok(v) => v,
        Err(e) => return Err(e),
    };
    let tx_type = match read_tx_type(body, &mut pos) {
        Ok(v) => v,
        Err(e) => return Err(e),
    };
    let from_user_id = match read_u64(body, &mut pos, "FROM_USER_ID") {
        Ok(v) => v,
        Err(e) => return Err(e),
    };
    let to_user_id = match read_u64(body, &mut pos, "TO_USER_ID") {
        Ok(v) => v,
        Err(e) => return Err(e),
    };
    let amount = match read_amount(body, &mut pos) {
        Ok(v) => v,
        Err(e) => return Err(e),
    };
    let timestamp = match read_u64(body, &mut pos, "TIMESTAMP") {
        Ok(v) => v,
        Err(e) => return Err(e),
    };
    let status = match read_status(body, &mut pos) {
        Ok(v) => v,
        Err(e) => return Err(e),
    };
    let desc_len = match read_u32(body, &mut pos, "DESC_LEN") {
        Ok(v) => v as usize,
        Err(e) => return Err(e),
    };
    let description = match read_string(body, &mut pos, desc_len) {
        Ok(v) => v,
        Err(e) => return Err(e),
    };
    Ok(
        Transaction {
            tx_id,
            tx_type,
            from_user_id,
            to_user_id,
            amount,
            timestamp,
            status,
            description,
        },
    )
}

fn read_u64(body: &[u8], pos: &mut usize, field: &'static str) -> (r: Result<u64>)
    requires
        *old(pos) <= body@.len(),
    ensures
        *old(pos) + 8 <= body@.len() ==> (r matches Ok(v) && v == be_u64_value(
            body@.subrange(*old(pos) as int, *old(pos) + 8),
        ) && *final(pos) == *old(pos) + 8),
        *old(pos) + 8 > body@.len() ==> (r matches Err(e) && e@ == missing(field@)),
{
    if body.len() - *pos < 8 {
        return Err(ParseError::MissingField(field));
    }
    let v = be_u64_at(body, *pos);
    *pos = *pos + 8;
    Ok(v)
}

fn read_u32(body: &[u8], pos: &mut usize, field: &'static str) -> (r: Result<u32>)
    requires
        *old(pos) <= body@.len(),
    ensures
        *old(pos) + 4 <= body@.len() ==> (r matches Ok(v) && v == be_u32_value(
            body@.subrange(*old(pos) as int, *old(pos) + 4),
        ) && *final(pos) == *old(pos) + 4),
        *old(pos) + 4 > body@.len() ==> (r matches Err(e) && e@ == missing(field@)),
{
    if body.len() - *pos < 4 {
        return Err(ParseError::MissingField(field));
    }
    let v = be_u32_at(body, *pos);
    *pos = *pos + 4;
    Ok(v)
}

fn read_amount(body: &[u8], pos: &mut usize) -> (r: Result<u64>)
    requires
        *old(pos) <= body@.len(),
    ensures
        *old(pos) + 8 <= body@.len() ==> (r matches Ok(v) && v == amount_of_raw(
            be_u64_value(body@.subrange(*old(pos) as int, *old(pos) + 8)),
        ) && *final(pos) == *old(pos) + 8),
        *old(pos) + 8 > body@.len() ==> (r matches Err(e) && e@ == missing("AMOUNT"@)),
{
    match read_u64(body, pos, "AMOUNT") {
        Ok(raw) => {
            // The field is an `i64`; the amount is its magnitude.
            if raw < 0x8000_0000_0000_0000 {
                Ok(raw)
            } else {
                Ok((u64::MAX - raw) + 1)
            }
        },
        Err(e) => Err(e),
    }
}

fn read_tx_type(body: &[u8], pos: &mut usize) -> (r: Result<TxType>)
    requires
        *old(pos) <= body@.len(),
    ensures
        *old(pos) < body@.len() ==> match tx_type_of_code(body@[*old(pos) as int]) {
            Some(t) => r matches Ok(v) && v == t && *final(pos) == *old(pos) + 1,
            None => r matches Err(e) && e@ == invalid(
                "TX_TYPE"@,
                dec_chars(body@[*old(pos) as int] as nat),
            ),
        },
        *old(pos) >= body@.len() ==> (r matches Err(e) && e@ == missing("TX_TYPE"@)),
{
    if *pos >= body.len() {
        return Err(ParseError::MissingField("TX_TYPE"));
    }
    let byte = body[*pos];
    *pos = *pos + 1;
    match byte {
        0 => Ok(TxType::Deposit),
        1 => Ok(TxType::Transfer),
        2 => Ok(TxType::Withdrawal),
        other => Err(ParseError::InvalidField { field: "TX_TYPE", value: decimal_string(other as u64) }),
    }
}

fn read_status(body: &[u8], pos: &mut usize) -> (r: Result<Status>)
    requires
        *old(pos) <= body@.len(),
    ensures
        *old(pos) < body@.len() ==> match status_of_code(body@[*old(pos) as int]) {
            Some(s) => r matches Ok(v) && v == s && *final(pos) == *old(pos) + 1,
            None => r matches Err(e) && e@ == invalid(
                "STATUS"@,
                dec_chars(body@[*old(pos) as int] as nat),
            ),
        },
        *old(pos) >= body@.len() ==> (r matches Err(e) && e@ == missing("STATUS"@)),
{
    if *pos >= body.len() {
        return Err(ParseError::MissingField("STATUS"));
    }
    let byte = body[*pos];
    *pos = *pos + 1;
    match byte {
        0 => Ok(Status::Success),
        1 => Ok(Status::Failure),
        2 => Ok(Status::Pending),
        other => Err(ParseError::InvalidField { field: "STATUS", value: decimal_string(other as u64) }),
    }
}

fn read_string(body: &[u8], pos: &mut usize, len: usize) -> (r: Result<String>)
    requires
        *old(pos) <= body@.len(),
    ensures
        *old(pos) + len > body@.len() ==> (r matches Err(e) && e@ == missing("DESCRIPTION"@)),
        *old(pos) + len <= body@.len() ==> {
            let d = body@.subrange(*old(pos) as int, *old(pos) + len);
            if valid_utf8(d) {
                r matches Ok(s) && s@ == strip_quotes(trim(decode_utf8(d)))
            } else {
                r matches Err(e) && e@ == ParseErrorModel::IsNotUtf8
            }
        },
{
    if len > body.len() - *pos {
        return Err(ParseError::MissingField("DESCRIPTION"));
    }
    let end = *pos + len;
    let bytes = slice_subrange(body, *pos, end);
    let s = match str_from_utf8(bytes) {
        Ok(s) => s,
        Err(e) => return Err(ParseError::IsNotUtf8(e)),
    };
    *pos = end;
    let chars = chars_of(s);
    let (lo, hi) = strip_description_quotes(&chars);
    Ok(string_of(&chars, lo, hi))
}

/// The bounds of `s` once trimmed and stripped of surrounding quotes.
fn strip_description_quotes(s: &[char]) -> (r: (usize, usize))
    ensures
        r.0 <= r.1 <= s@.len(),
        s@.subrange(r.0 as int, r.1 as int) == strip_quotes(trim(s@)),
{
    assert(s@.subrange(0, s@.len() as int) =~= s@);
    let (lo, hi) = trim_range(s, 0, s.len());
    if hi - lo >= 2 && s[lo] == '"' && s[hi - 1] == '"' {
        assert(s@.subrange(lo + 1, hi - 1) =~= s@.subrange(lo as int, hi as int).subrange(
            1,
            (hi - lo) - 1,
        ));
        (lo + 1, hi - 1)
    } else {
        (lo, hi)
    }
}

proof fn lemma_parse_step(rest: Seq<u8>, size: int)
    requires
        rest.len() >= 8,
        rest.subrange(0, 4) == magic(),
        size == be_u32_value(rest.subrange(4, 8)),
        rest.len() >= 8 + size,
    ensures
        parse_spec(rest) == match parse_body_spec(rest.subrange(8, 8 + size)) {
            Err(e) => Err(e),
            Ok(t) => prepend(seq![t], parse_spec(rest.skip(8 + size))),
        },
{
    reveal(parse_spec);
}

// ---------------------------------------------------------------------
// Writing
// ---------------------------------------------------------------------

/// Appends the YPBankBin records of `records` to `out`.
///
/// Each record is preceded by the magic bytes `YPBN` and the body size.
pub fn serialize(records: &[Transaction], out: &mut Vec<u8>)
    requires
        forall|i: int| 0 <= i < records@.len() ==> fits(#[trigger] records@[i]@),
    ensures
        final(out)@ == old(out)@ + records_bytes(models(records@)),
{
    let n = records.len();
    assert(models(records@.take(0)) =~= Seq::<TransactionModel>::empty());
    assert(old(out)@ + Seq::<u8>::empty() =~= old(out)@);
    for i in 0..n
        invariant
            n == records@.len(),
            forall|j: int| 0 <= j < records@.len() ==> fits(#[trigger] records@[j]@),
            out@ == old(out)@ + records_bytes(models(records@.take(i as int))),
    {
        let tx = &records[i];
        assert(fits(records@[i as int]@));
        let body = build_body(tx);
        let ghost before = out@;
        out.push(0x59);
        out.push(0x50);
        out.push(0x42);
        out.push(0x4E);
        push_be_u32(out, body.len() as u32);
        let mut k: usize = 0;
        let ghost head = out@;
        while k < body.len()
            invariant
                k <= body@.len(),
                out@ == head + body@.take(k as int),
            decreases body@.len() - k,
        {
            out.push(body[k]);
            assert(body@.take(k + 1) =~= body@.take(k as int).push(body@[k as int]));
            k = k + 1;
        }
        assert(body@.take(k as int) =~= body@);
        proof {
            let ms = models(records@.take(i + 1));
            assert(ms.drop_last() =~= models(records@.take(i as int)));
            assert(ms.last() == tx@);
            assert(out@ =~= before + record_bytes(tx@));
        }
    }
    assert(records@.take(n as int) =~= records@);
}

/// Whether every record of `records` fits the format.
pub fn all_fit(records: &[Transaction]) -> (r: bool)
    ensures
        r == forall|i: int| 0 <= i < records@.len() ==> fits(#[trigger] records@[i]@),
{
    let n = records.len();
    for i in 0..n
        invariant
            n == records@.len(),
            forall|j: int| 0 <= j < i ==> fits(#[trigger] records@[j]@),
    {
        let len = records[i].description.as_str().as_bytes().len();
        if len > 0xFFFF_FFFF - 46 {
            assert(!fits(records@[i as int]@));
            return false;
        }
    }
    true
}

fn build_body(tx: &Transaction) -> (body: Vec<u8>)
    requires
        fits(tx@),
    ensures
        body@ == body_bytes(tx@),
        body@.len() <= u32::MAX,
{
    let desc = tx.description.as_str().as_bytes();
    let mut body: Vec<u8> = Vec::new();
    push_be_u64(&mut body, tx.tx_id);
    body.push(tx_type_byte(&tx.tx_type));
    push_be_u64(&mut body, tx.from_user_id);
    push_be_u64(&mut body, tx.to_user_id);
    push_be_u64(&mut body, tx.amount);
    push_be_u64(&mut body, tx.timestamp);
    body.push(status_byte(&tx.status));
    push_be_u32(&mut body, desc.len() as u32);
    let ghost head = body@;
    let mut k: usize = 0;
    while k < desc.len()
        invariant
            k <= desc@.len(),
            body@ == head + desc@.take(k as int),
        decreases desc@.len() - k,
    {
        body.push(desc[k]);
        assert(desc@.take(k + 1) =~= desc@.take(k as int).push(desc@[k as int]));
        k = k + 1;
    }
    assert(desc@.take(k as int) =~= desc@);
    reveal(body_bytes);
    assert(body@ =~= body_bytes(tx@));
    body
}

// ---------------------------------------------------------------------
// Laws
// ---------------------------------------------------------------------

/// The transaction that reading back the record of `t` gives: the amount
/// becomes the magnitude of the `i64` with its bits, the description is
/// trimmed and loses its surrounding double quotes.
pub open spec fn read_back(t: TransactionModel) -> TransactionModel {
    TransactionModel {
        tx_id: t.tx_id,
        tx_type: t.tx_type,
        from_user_id: t.from_user_id,
        to_user_id: t.to_user_id,
        amount: amount_of_raw(t.amount),
        timestamp: t.timestamp,
        status: t.status,
        description: strip_quotes(trim(t.description)),
    }
}

/// Whether reading back the record of `t` gives `t` itself: the amount is at
/// most 2^63 and the description is already trimmed and not quoted.
pub open spec fn canonical(t: TransactionModel) -> bool {
    t.amount <= 0x8000_0000_0000_0000 && strip_quotes(trim(t.description)) == t.description
}

proof fn lemma_records_bytes_front(txs: Seq<TransactionModel>)
    requires
        txs.len() > 0,
    ensures
        records_bytes(txs) == record_bytes(txs[0]) + records_bytes(txs.drop_first()),
    decreases txs.len(),
{
    if txs.len() == 1 {
        assert(txs.drop_last() =~= Seq::<TransactionModel>::empty());
        assert(txs.drop_first() =~= Seq::<TransactionModel>::empty());
        assert(records_bytes(txs.drop_last()) =~= Seq::<u8>::empty());
        assert(records_bytes(txs.drop_first()) =~= Seq::<u8>::empty());
        assert(record_bytes(txs[0]) + Seq::<u8>::empty() =~= record_bytes(txs[0]));
        assert(Seq::<u8>::empty() + record_bytes(txs[0]) =~= record_bytes(txs[0]));
    } else {
        lemma_records_bytes_front(txs.drop_last());
        assert(txs.drop_last().drop_first() =~= txs.drop_first().drop_last());
        assert(txs.drop_first().last() == txs.last());
        assert(txs.drop_last()[0] == txs[0]);
        let a = record_bytes(txs[0]);
        let m = records_bytes(txs.drop_first().drop_last());
        let z = record_bytes(txs.last());
        assert(a + m + z =~= a + (m + z));
    }
}

proof fn lemma_parse_body_roundtrip(t: TransactionModel)
    requires
        fits(t),
    ensures
        parse_body_spec(body_bytes(t)) == Ok::<TransactionModel, ParseErrorModel>(read_back(t)),
        body_bytes(t).len() == 46 + desc_bytes(t).len(),
{
    reveal(body_bytes);
    reveal(parse_body_spec);
    let b = body_bytes(t);
    let d = desc_bytes(t);
    let n = d.len() as u32;
    assert(b.len() == 46 + d.len() as int);
    assert(b.subrange(0, 8) =~= be_u64_bytes(t.tx_id));
    assert(b[8] == tx_type_code(t.tx_type));
    assert(b.subrange(9, 17) =~= be_u64_bytes(t.from_user_id));
    assert(b.subrange(17, 25) =~= be_u64_bytes(t.to_user_id));
    assert(b.subrange(25, 33) =~= be_u64_bytes(t.amount));
    assert(b.subrange(33, 41) =~= be_u64_bytes(t.timestamp));
    assert(b[41] == status_code(t.status));
    assert(b.subrange(42, 46) =~= be_u32_bytes(n));
    assert(b.subrange(46, 46 + d.len() as int) =~= d);
    crate::be::lemma_be_u64_roundtrip(t.tx_id);
    crate::be::lemma_be_u64_roundtrip(t.from_user_id);
    crate::be::lemma_be_u64_roundtrip(t.to_user_id);
    crate::be::lemma_be_u64_roundtrip(t.amount);
    crate::be::lemma_be_u64_roundtrip(t.timestamp);
    crate::be::lemma_be_u32_roundtrip(n);
    crate::transaction::lemma_tx_type_codes(t.tx_type);
    crate::transaction::lemma_status_codes(t.status);
    encode_utf8_valid_utf8(t.description);
    encode_utf8_decode_utf8(t.description);
}

proof fn lemma_parse_record(t: TransactionModel, rest: Seq<u8>)
    requires
        fits(t),
    ensures
        parse_spec(record_bytes(t) + rest) == prepend(seq![read_back(t)], parse_spec(rest)),
{
    reveal(parse_spec);
    lemma_parse_body_roundtrip(t);
    let body = body_bytes(t);
    let b = record_bytes(t) + rest;
    let n = body.len() as u32;
    assert(b.subrange(0, 4) =~= magic());
    assert(b.subrange(4, 8) =~= be_u32_bytes(n));
    crate::be::lemma_be_u32_roundtrip(n);
    assert(b.subrange(8, 8 + body.len() as int) =~= body);
    assert(b.skip(8 + body.len() as int) =~= rest);
    lemma_parse_body_roundtrip(t);
}

/// Writing transactions and reading the bytes back gives each transaction
/// as [`read_back`] describes it, in the same order.
pub proof fn lemma_roundtrip(txs: Seq<TransactionModel>)
    requires
        forall|i: int| 0 <= i < txs.len() ==> fits(#[trigger] txs[i]),
    ensures
        parse_spec(records_bytes(txs)) == Ok::<Seq<TransactionModel>, ParseErrorModel>(
            txs.map_values(|t: TransactionModel| read_back(t)),
        ),
    decreases txs.len(),
{
    if txs.len() == 0 {
        reveal(parse_spec);
        assert(records_bytes(txs) =~= Seq::<u8>::empty());
        assert(txs.map_values(|t: TransactionModel| read_back(t)) =~= Seq::<
            TransactionModel,
        >::empty());
    } else {
        lemma_records_bytes_front(txs);
        assert(fits(txs[0]));
        let rest = txs.drop_first();
        assert forall|i: int| 0 <= i < rest.len() implies fits(#[trigger] rest[i]) by {
            assert(rest[i] == txs[i + 1]);
        }
        lemma_roundtrip(rest);
        lemma_parse_record(txs[0], records_bytes(rest));
        assert(seq![read_back(txs[0])] + rest.map_values(|t: TransactionModel| read_back(t))
            =~= txs.map_values(|t: TransactionModel| read_back(t)));
    }
}

/// Transactions whose amounts are at most 2^63 and whose descriptions are
/// trimmed and unquoted are read back exactly as they were written.
pub proof fn lemma_roundtrip_exact(txs: Seq<TransactionModel>)
    requires
        forall|i: int| 0 <= i < txs.len() ==> fits(#[trigger] txs[i]),
        forall|i: int| 0 <= i < txs.len() ==> canonical(#[trigger] txs[i]),
    ensures
        parse_spec(records_bytes(txs)) == Ok::<Seq<TransactionModel>, ParseErrorModel>(txs),
{
    lemma_roundtrip(txs);
    assert(txs.map_values(|t: TransactionModel| read_back(t)) =~= txs) by {
        assert forall|i: int| 0 <= i < txs.len() implies #[trigger] read_back(txs[i]) == txs[i] by {
            assert(canonical(txs[i]));
        }
    }
}

/// Every record that [`serialize`] writes starts with the magic bytes.
pub proof fn lemma_records_start_with_magic(txs: Seq<TransactionModel>)
    requires
        txs.len() > 0,
    ensures
        records_bytes(txs).subrange(0, 4) == magic(),
{
    lemma_records_bytes_front(txs);
    assert(records_bytes(txs).subrange(0, 4) =~= magic());
}

/// The body that [`serialize`] writes for `t` puts every field at its fixed
/// place, whatever the kind of transaction: the id in bytes 0..8, the kind
/// in byte 8, the sender in bytes 9..17, the receiver in bytes 17..25, the
/// amount in 25..33, the timestamp in 33..41, the status in byte 41, the
/// description's length in 42..46 and the description after it.
pub proof fn lemma_body_bytes_layout(t: TransactionModel)
    ensures
        body_bytes(t).len() == 46 + desc_bytes(t).len(),
        body_bytes(t).subrange(0, 8) == be_u64_bytes(t.tx_id),
        body_bytes(t)[8] == tx_type_code(t.tx_type),
        body_bytes(t).subrange(9, 17) == be_u64_bytes(t.from_user_id),
        body_bytes(t).subrange(17, 25) == be_u64_bytes(t.to_user_id),
        body_bytes(t).subrange(25, 33) == be_u64_bytes(t.amount),
        body_bytes(t).subrange(33, 41) == be_u64_bytes(t.timestamp),
        body_bytes(t)[41] == status_code(t.status),
        body_bytes(t).subrange(42, 46) == be_u32_bytes(desc_bytes(t).len() as u32),
        body_bytes(t).subrange(46, body_bytes(t).len() as int) == desc_bytes(t),
{
    reveal(body_bytes);
    let b = body_bytes(t);
    let d = desc_bytes(t);
    assert(b.len() == 46 + d.len());
    assert(b.subrange(0, 8) =~= be_u64_bytes(t.tx_id));
    assert(b.subrange(9, 17) =~= be_u64_bytes(t.from_user_id));
    assert(b.subrange(17, 25) =~= be_u64_bytes(t.to_user_id));
    assert(b.subrange(25, 33) =~= be_u64_bytes(t.amount));
    assert(b.subrange(33, 41) =~= be_u64_bytes(t.timestamp));
    assert(b.subrange(42, 46) =~= be_u32_bytes(d.len() as u32));
    assert(b.subrange(46, b.len() as int) =~= d);
}

/// A record that [`serialize`] writes for `t` is the magic bytes, the body's
/// length in four big-endian bytes, and the body.
pub proof fn lemma_record_layout(t: TransactionModel)
    ensures
        record_bytes(t).len() == 54 + desc_bytes(t).len(),
        record_bytes(t).subrange(0, 4) == magic(),
        record_bytes(t).subrange(4, 8) == be_u32_bytes((46 + desc_bytes(t).len()) as u32),
        record_bytes(t).subrange(8, record_bytes(t).len() as int) == body_bytes(t),
{
    lemma_body_bytes_layout(t);
    let r = record_bytes(t);
    assert(r.subrange(0, 4) =~= magic());
    assert(r.subrange(4, 8) =~= be_u32_bytes(body_bytes(t).len() as u32));
    assert(r.subrange(8, r.len() as int) =~= body_bytes(t));
}

/// Reading a record body takes every field from its fixed place, whatever
/// the kind of transaction: the id from bytes 0..8, the kind from byte 8,
/// the sender from bytes 9..17, the receiver from bytes 17..25, the amount
/// from 25..33, the timestamp from 33..41 and the status from byte 41, all
/// big-endian.
pub proof fn lemma_body_layout(b: Seq<u8>)
    ensures
        parse_body_spec(b) matches Ok(t) ==> {
            &&& b.len() >= 46
            &&& t.tx_id == be_u64_value(b.subrange(0, 8))
            &&& tx_type_code(t.tx_type) == b[8]
            &&& t.from_user_id == be_u64_value(b.subrange(9, 17))
            &&& t.to_user_id == be_u64_value(b.subrange(17, 25))
            &&& t.amount == amount_of_raw(be_u64_value(b.subrange(25, 33)))
            &&& t.timestamp == be_u64_value(b.subrange(33, 41))
            &&& status_code(t.status) == b[41]
        },
{
    reveal(parse_body_spec);
}

/// The kind of a transaction changes one byte of its body and nothing else:
/// two transactions that differ only in their kind are written as bodies of
/// the same length that differ only at byte 8.
pub proof fn lemma_kind_changes_one_byte(t1: TransactionModel, t2: TransactionModel)
    requires
        t1.tx_id == t2.tx_id,
        t1.from_user_id == t2.from_user_id,
        t1.to_user_id == t2.to_user_id,
        t1.amount == t2.amount,
        t1.timestamp == t2.timestamp,
        t1.status == t2.status,
        t1.description == t2.description,
    ensures
        body_bytes(t1).len() == body_bytes(t2).len(),
        forall|i: int|
            0 <= i < body_bytes(t1).len() && i != 8 ==> body_bytes(t1)[i] == body_bytes(t2)[i],
{
    reveal(body_bytes);
    let b1 = body_bytes(t1);
    let b2 = body_bytes(t2);
    assert(b1.subrange(9, b1.len() as int) =~= b2.subrange(9, b2.len() as int));
    assert forall|i: int| 0 <= i < b1.len() && i != 8 implies b1[i] == b2[i] by {
        if i < 8 {
            assert(b1[i] == be_u64_bytes(t1.tx_id)[i]);
            assert(b2[i] == be_u64_bytes(t2.tx_id)[i]);
        } else {
            assert(b1[i] == b1.subrange(9, b1.len() as int)[i - 9]);
            assert(b2[i] == b2.subrange(9, b2.len() as int)[i - 9]);
        }
    }
}

/// Reading two bodies that differ only in the kind byte gives the same
/// transaction but for its kind, when both are read.
pub proof fn lemma_kind_byte_only(b1: Seq<u8>, b2: Seq<u8>)
    requires
        b1.len() == b2.len(),
        forall|i: int| 0 <= i < b1.len() && i != 8 ==> b1[i] == b2[i],
        parse_body_spec(b1) is Ok,
        parse_body_spec(b2) is Ok,
    ensures
        ({
            let t1 = parse_body_spec(b1)->Ok_0;
            let t2 = parse_body_spec(b2)->Ok_0;
            &&& t1.tx_id == t2.tx_id
            &&& t1.from_user_id == t2.from_user_id
            &&& t1.to_user_id == t2.to_user_id
            &&& t1.amount == t2.amount
            &&& t1.timestamp == t2.timestamp
            &&& t1.status == t2.status
            &&& t1.description == t2.description
        }),
{
    reveal(parse_body_spec);
    assert(b1.subrange(0, 8) =~= b2.subrange(0, 8));
    assert(b1.subrange(9, 17) =~= b2.subrange(9, 17));
    assert(b1.subrange(17, 25) =~= b2.subrange(17, 25));
    assert(b1.subrange(25, 33) =~= b2.subrange(25, 33));
    assert(b1.subrange(33, 41) =~= b2.subrange(33, 41));
    assert(b1[41] == b2[41]);
    assert(b1.subrange(42, 46) =~= b2.subrange(42, 46));
    let n = be_u32_value(b1.subrange(42, 46)) as int;
    assert(b1.subrange(46, 46 + n) =~= b2.subrange(46, 46 + n));
}

} // verus!
