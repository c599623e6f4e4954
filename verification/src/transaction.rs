use vstd::prelude::*;

use crate::text::{is_space, lacks};

verus! {

/// Kind of a bank transaction.
#[derive(Debug, Clone, Copy, PartialEq, Eq, Structural)]
pub enum TxType {
    /// Money paid into an account.
    Deposit,
    /// Money moved between two accounts.
    Transfer,
    /// Money taken out of an account.
    Withdrawal,
}

/// Outcome of a transaction.
#[derive(Debug, Clone, Copy, PartialEq, Eq, Structural)]
pub enum Status {
    /// The transaction went through.
    Success,
    /// The transaction failed.
    Failure,
    /// The transaction is waiting to be processed.
    Pending,
}

/// A bank transaction.
#[derive(Debug, Clone, PartialEq)]
pub struct Transaction {
    /// Unique transaction id.
    pub tx_id: u64,
    /// Kind of the transaction.
    pub tx_type: TxType,
    /// Account the money comes from; `0` for a deposit.
    pub from_user_id: u64,
    /// Account the money goes to; `0` for a withdrawal.
    pub to_user_id: u64,
    /// Amount in the smallest currency unit (cents); never negative.
    pub amount: u64,
    /// Milliseconds since the Unix epoch.
    pub timestamp: u64,
    /// Outcome of the transaction.
    pub status: Status,
    /// Free-form description.
    pub description: String,
}

/// The mathematical value of a [`Transaction`]: its fields, with the
/// description taken as a sequence of characters.
pub struct TransactionModel {
    pub tx_id: u64,
    pub tx_type: TxType,
    pub from_user_id: u64,
    pub to_user_id: u64,
    pub amount: u64,
    pub timestamp: u64,
    pub status: Status,
    pub description: Seq<char>,
}

impl View for Transaction {
    type V = TransactionModel;

    open spec fn view(&self) -> TransactionModel {
        TransactionModel {
            tx_id: self.tx_id,
            tx_type: self.tx_type,
            from_user_id: self.from_user_id,
            to_user_id: self.to_user_id,
            amount: self.amount,
            timestamp: self.timestamp,
            status: self.status,
            description: self.description@,
        }
    }
}

/// The models of a sequence of transactions, one for one.
pub open spec fn models(txs: Seq<Transaction>) -> Seq<TransactionModel> {
    txs.map_values(|t: Transaction| t@)
}

/// The byte that stands for a transaction kind in the binary format.
pub open spec fn tx_type_code(t: TxType) -> u8 {
    match t {
        TxType::Deposit => 0,
        TxType::Transfer => 1,
        TxType::Withdrawal => 2,
    }
}

/// The transaction kind that a byte of the binary format stands for.
pub open spec fn tx_type_of_code(b: u8) -> Option<TxType> {
    if b == 0 {
        Some(TxType::Deposit)
    } else if b == 1 {
        Some(TxType::Transfer)
    } else if b == 2 {
        Some(TxType::Withdrawal)
    } else {
        None
    }
}

/// The byte that stands for a status in the binary format.
pub open spec fn status_code(s: Status) -> u8 {
    match s {
        Status::Success => 0,
        Status::Failure => 1,
        Status::Pending => 2,
    }
}

/// The status that a byte of the binary format stands for.
pub open spec fn status_of_code(b: u8) -> Option<Status> {
    if b == 0 {
        Some(Status::Success)
    } else if b == 1 {
        Some(Status::Failure)
    } else if b == 2 {
        Some(Status::Pending)
    } else {
        None
    }
}

/// The name of a transaction kind in the text formats.
pub open spec fn tx_type_name(t: TxType) -> Seq<char> {
    match t {
        TxType::Deposit => "DEPOSIT"@,
        TxType::Transfer => "TRANSFER"@,
        TxType::Withdrawal => "WITHDRAWAL"@,
    }
}

/// The transaction kind that a name of the text formats stands for.
pub open spec fn tx_type_of_name(s: Seq<char>) -> Option<TxType> {
    if s == "DEPOSIT"@ {
        Some(TxType::Deposit)
    } else if s == "TRANSFER"@ {
        Some(TxType::Transfer)
    } else if s == "WITHDRAWAL"@ {
        Some(TxType::Withdrawal)
    } else {
        None
    }
}

/// The name of a status in the text formats.
pub open spec fn status_name(s: Status) -> Seq<char> {
    match s {
        Status::Success => "SUCCESS"@,
        Status::Failure => "FAILURE"@,
        Status::Pending => "PENDING"@,
    }
}

/// The status that a name of the text formats stands for.
pub open spec fn status_of_name(s: Seq<char>) -> Option<Status> {
    if s == "SUCCESS"@ {
        Some(Status::Success)
    } else if s == "FAILURE"@ {
        Some(Status::Failure)
    } else if s == "PENDING"@ {
        Some(Status::Pending)
    } else {
        None
    }
}

/// Each kind's code and name lead back to the kind.
pub proof fn lemma_tx_type_codes(t: TxType)
    ensures
        tx_type_of_code(tx_type_code(t)) == Some(t),
        tx_type_of_name(tx_type_name(t)) == Some(t),
{
    reveal_strlit("DEPOSIT");
    reveal_strlit("TRANSFER");
    reveal_strlit("WITHDRAWAL");
    assert("DEPOSIT"@.len() == 7);
    assert("TRANSFER"@.len() == 8);
    assert("WITHDRAWAL"@.len() == 10);
}

/// Each status's code and name lead back to the status.
pub proof fn lemma_status_codes(s: Status)
    ensures
        status_of_code(status_code(s)) == Some(s),
        status_of_name(status_name(s)) == Some(s),
{
    reveal_strlit("SUCCESS");
    reveal_strlit("FAILURE");
    reveal_strlit("PENDING");
    assert("SUCCESS"@[0] == 'S');
    assert("FAILURE"@[0] == 'F');
    assert("PENDING"@[0] == 'P');
}

/// Whether the text formats can carry `t` unchanged: its description holds no
/// line feed.
pub open spec fn text_safe(t: TransactionModel) -> bool {
    lacks(t.description, '\n')
}

/// Whether a name of the text formats is a plain word: not empty, free of
/// commas, colons and line breaks, without whitespace at either end.
pub open spec fn plain_word(s: Seq<char>) -> bool {
    &&& s.len() > 0
    &&& lacks(s, ',')
    &&& lacks(s, '\n')
    &&& lacks(s, ':')
    &&& !is_space(s[0])
    &&& !is_space(s.last())
}

/// The names of transaction kinds are plain words.
pub proof fn lemma_tx_type_name_plain(t: TxType)
    ensures
        plain_word(tx_type_name(t)),
{
    reveal_strlit("DEPOSIT");
    reveal_strlit("TRANSFER");
    reveal_strlit("WITHDRAWAL");
}

/// The names of statuses are plain words.
pub proof fn lemma_status_name_plain(s: Status)
    ensures
        plain_word(status_name(s)),
{
    reveal_strlit("SUCCESS");
    reveal_strlit("FAILURE");
    reveal_strlit("PENDING");
}

/// The byte for a transaction kind in the binary format.
pub fn tx_type_byte(tx_type: &TxType) -> (b: u8)
    ensures
        b == tx_type_code(*tx_type),
{
    match tx_type {
        TxType::Deposit => 0,
        TxType::Transfer => 1,
        TxType::Withdrawal => 2,
    }
}

/// The byte for a status in the binary format.
pub fn status_byte(status: &Status) -> (b: u8)
    ensures
        b == status_code(*status),
{
    match status {
        Status::Success => 0,
        Status::Failure => 1,
        Status::Pending => 2,
    }
}

/// The name of a transaction kind in the text formats.
pub fn tx_type_to_str(tx_type: &TxType) -> (s: &'static str)
    ensures
        s@ == tx_type_name(*tx_type),
{
    match tx_type {
        TxType::Deposit => "DEPOSIT",
        TxType::Transfer => "TRANSFER",
        TxType::Withdrawal => "WITHDRAWAL",
    }
}

/// The name of a status in the text formats.
pub fn status_to_str(status: &Status) -> (s: &'static str)
    ensures
        s@ == status_name(*status),
{
    match status {
        Status::Success => "SUCCESS",
        Status::Failure => "FAILURE",
        Status::Pending => "PENDING",
    }
}

} // verus!
