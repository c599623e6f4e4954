# parser_lib

Reading and writing YPBank bank transactions in three formats, with every
parser and writer verified by Verus against an exact specification.

- **YPBankBin** (`bin_format`): binary records, each `YPBN`, a big-endian
  body size and the body; all numbers big-endian.
- **YPBankCsv** (`csv_format`): a header line, then one comma-separated line
  per transaction with the description in double quotes.
- **YPBankText** (`txt_format`): `KEY: value` lines, records separated by
  blank lines, `#` lines ignored, fields in any order.

Each format module holds spec functions that say what reading a byte string
gives (`parse_spec`) and which bytes writing gives, the executable `parse` and
`serialize` proved against them, and proofs that writing and reading back
returns the transactions (`lemma_roundtrip`). `formats` dispatches on a
format and proves conversions between formats; `compare` finds where two
lists of transactions first differ.

The library works on bytes in memory; `app/` is the command-line program
(`ypbank convert` and `ypbank compare`) that reads files and writes to stdout.
