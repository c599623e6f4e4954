use vstd::prelude::*;
use vstd::string::*;
use vstd::utf8::*;

use crate::bin_format;
use crate::csv_format;
use crate::error::{invalid, list_result, ParseErrorModel, Result};
use crate::text::dec_chars;
use crate::transaction::{models, text_safe, Transaction, TransactionModel};
use crate::txt_format;

verus! {

/// The three formats of bank records.
#[derive(Debug, Clone, Copy, PartialEq, Eq, Structural)]
pub enum Format {
    /// YPBankBin: binary records.
    Bin,
    /// YPBankCsv: a table with a header line.
    Csv,
    /// YPBankText: key-value lines, records separated by blank lines.
    Txt,
}

/// What reading `input` in format `f` gives.
pub open spec fn parse_format_spec(f: Format, input: Seq<u8>) -> core::result::Result<
    Seq<TransactionModel>,
    ParseErrorModel,
> {
    match f {
        Format::Bin => bin_format::parse_spec(input),
        Format::Csv => csv_format::parse_spec(input),
        Format::Txt => txt_format::parse_spec(input),
    }
}

/// The bytes that writing `txs` in format `f` gives.
pub open spec fn write_spec(f: Format, txs: Seq<TransactionModel>) -> Seq<u8> {
    match f {
        Format::Bin => bin_format::records_bytes(txs),
        Format::Csv => encode_utf8(csv_format::text_spec(txs)),
        Format::Txt => encode_utf8(txt_format::text_spec(txs)),
    }
}

/// Whether format `f` can write `t` at all: the binary format needs the body
/// length to fit in its size field.
pub open spec fn writable(f: Format, t: TransactionModel) -> bool {
    f == Format::Bin ==> bin_format::fits(t)
}

/// Whether format `f` writes `t` so that it reads back unchanged.
pub open spec fn carries(f: Format, t: TransactionModel) -> bool {
    match f {
        Format::Bin => bin_format::fits(t) && bin_format::canonical(t),
        Format::Csv => text_safe(t),
        Format::Txt => text_safe(t),
    }
}

/// Parses `input` in the given format.
pub fn parse_input(format: &Format, input: &[u8]) -> (r: Result<Vec<Transaction>>)
    ensures
        list_result(r) == parse_format_spec(*format, input@),
{
    match format {
        Format::Bin => bin_format::parse(input),
        Format::Csv => csv_format::parse(input),
        Format::Txt => txt_format::parse(input),
    }
}

/// Appends `transactions`, written in the given format, to `out`.
pub fn serialize_output(format: &Format, transactions: &[Transaction], out: &mut Vec<u8>)
    requires
        forall|i: int|
            0 <= i < transactions@.len() ==> writable(*format, #[trigger] transactions@[i]@),
    ensures
        final(out)@ == old(out)@ + write_spec(*format, models(transactions@)),
{
    match format {
        Format::Bin => bin_format::serialize(transactions, out),
        Format::Csv => csv_format::serialize(transactions, out),
        Format::Txt => txt_format::serialize(transactions, out),
    }
}

/// Whether every transaction can be written in the given format.
pub fn all_writable(format: &Format, transactions: &[Transaction]) -> (r: bool)
    ensures
        r == forall|i: int|
            0 <= i < transactions@.len() ==> writable(*format, #[trigger] transactions@[i]@),
{
    match format {
        Format::Bin => bin_format::all_fit(transactions),
        _ => true,
    }
}

/// Each format reads back what it writes of the transactions it carries.
pub proof fn lemma_format_roundtrip(f: Format, txs: Seq<TransactionModel>)
    requires
        forall|i: int| 0 <= i < txs.len() ==> carries(f, #[trigger] txs[i]),
    ensures
        parse_format_spec(f, write_spec(f, txs)) == Ok::<Seq<TransactionModel>, ParseErrorModel>(
            txs,
        ),
{
    match f {
        Format::Bin => {
            assert forall|i: int| 0 <= i < txs.len() implies bin_format::fits(#[trigger] txs[i]) by {
                assert(carries(f, txs[i]));
            }
            assert forall|i: int| 0 <= i < txs.len() implies bin_format::canonical(
                #[trigger] txs[i],
            ) by {
                assert(carries(f, txs[i]));
            }
            bin_format::lemma_roundtrip_exact(txs);
        },
        Format::Csv => {
            assert forall|i: int| 0 <= i < txs.len() implies text_safe(#[trigger] txs[i]) by {
                assert(carries(f, txs[i]));
            }
            csv_format::lemma_roundtrip(txs);
        },
        Format::Txt => {
            assert forall|i: int| 0 <= i < txs.len() implies text_safe(#[trigger] txs[i]) by {
                assert(carries(f, txs[i]));
            }
            txt_format::lemma_roundtrip(txs);
        },
    }
}

/// Converting transactions that both formats carry, from format `a` to
/// format `b`, gives them back unchanged: reading what `a` wrote gives the
/// transactions, and reading what `b` writes of those gives them again.
pub proof fn lemma_conversion(a: Format, b: Format, txs: Seq<TransactionModel>)
    requires
        forall|i: int| 0 <= i < txs.len() ==> carries(a, #[trigger] txs[i]),
        forall|i: int| 0 <= i < txs.len() ==> carries(b, #[trigger] txs[i]),
    ensures
        parse_format_spec(a, write_spec(a, txs)) == Ok::<Seq<TransactionModel>, ParseErrorModel>(
            txs,
        ),
        parse_format_spec(b, write_spec(b, txs)) == Ok::<Seq<TransactionModel>, ParseErrorModel>(
            txs,
        ),
{
    lemma_format_roundtrip(a, txs);
    lemma_format_roundtrip(b, txs);
}

/// Each format is read and written by its own module: the binary format by
/// `bin_format`, CSV by `csv_format`, key-value text by `txt_format`.
pub proof fn lemma_dispatch(input: Seq<u8>, txs: Seq<TransactionModel>)
    ensures
        parse_format_spec(Format::Bin, input) == bin_format::parse_spec(input),
        parse_format_spec(Format::Csv, input) == csv_format::parse_spec(input),
        parse_format_spec(Format::Txt, input) == txt_format::parse_spec(input),
        write_spec(Format::Bin, txs) == bin_format::records_bytes(txs),
        write_spec(Format::Csv, txs) == encode_utf8(csv_format::text_spec(txs)),
        write_spec(Format::Txt, txs) == encode_utf8(txt_format::text_spec(txs)),
{
}

/// CSV output is not key-value text: read as such, its header line is
/// refused as a key-value pair.
pub proof fn lemma_csv_output_not_txt(txs: Seq<TransactionModel>)
    requires
        forall|i: int| 0 <= i < txs.len() ==> text_safe(#[trigger] txs[i]),
    ensures
        parse_format_spec(Format::Txt, write_spec(Format::Csv, txs)) == Err::<
            Seq<TransactionModel>,
            ParseErrorModel,
        >(invalid("key-value pair"@, csv_format::header_text())),
{
    let ls = csv_format::text_lines(txs);
    let enc = ls.map_values(|l: Seq<char>| encode_utf8(l));
    csv_format::lemma_written_lines(txs);
    assert forall|i: int| 0 <= i < ls.len() implies txt_format::content_line(#[trigger] ls[i]) by {
        assert(ls[i] == csv_format::text_lines(txs)[i]);
    }
    let none = Seq::<Seq<u8>>::empty();
    let empty = Seq::<Seq<char>>::empty();
    txt_format::lemma_content_lines(ls, none, empty);
    assert(enc + none =~= enc);
    assert(empty + ls =~= ls);
    txt_format::lemma_no_separator(csv_format::header_text());
    assert(ls[0] == csv_format::header_text());
}

/// Key-value text is not CSV: read as such, its first line, the `TX_ID`
/// field line of the first transaction, is refused as the header.
pub proof fn lemma_txt_output_not_csv(txs: Seq<TransactionModel>)
    requires
        txs.len() > 0,
        forall|i: int| 0 <= i < txs.len() ==> text_safe(#[trigger] txs[i]),
    ensures
        parse_format_spec(Format::Csv, write_spec(Format::Txt, txs)) == Err::<
            Seq<TransactionModel>,
            ParseErrorModel,
        >(invalid("header"@, txt_format::field_line("TX_ID"@, dec_chars(txs[0].tx_id as nat)))),
{
    let fl = txt_format::field_line("TX_ID"@, dec_chars(txs[0].tx_id as nat));
    txt_format::lemma_written_first_line(txs);
    encode_utf8_valid_utf8(fl);
    encode_utf8_decode_utf8(fl);
    reveal_strlit("TX_ID");
    reveal_strlit("TX_ID,TX_TYPE,FROM_USER_ID,TO_USER_ID,AMOUNT,TIMESTAMP,STATUS,DESCRIPTION");
    assert(fl[5] == ':');
    assert(csv_format::header_text()[5] == ',');
    assert(fl != csv_format::header_text());
}

} // verus!
