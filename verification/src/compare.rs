use vstd::prelude::*;

use crate::transaction::{models, Transaction};

verus! {

/// How two lists of transactions first differ.
#[derive(Debug, Clone, Copy, PartialEq, Eq, Structural)]
pub enum Difference {
    /// The lists have different lengths.
    CountMismatch { left: usize, right: usize },
    /// The lists have the same length and first differ at `index`.
    FirstMismatch { index: usize },
}

/// Whether two transactions are equal in every field.
pub fn transactions_equal(a: &Transaction, b: &Transaction) -> (r: bool)
    ensures
        r == (a@ == b@),
{
    a.tx_id == b.tx_id && a.tx_type == b.tx_type && a.from_user_id == b.from_user_id
        && a.to_user_id == b.to_user_id && a.amount == b.amount && a.timestamp == b.timestamp
        && a.status == b.status && a.description == b.description
}

/// Compares two lists of transactions: `None` when they are equal, otherwise
/// how they first differ.
pub fn compare_transactions(a: &[Transaction], b: &[Transaction]) -> (r: Option<Difference>)
    ensures
        a@.len() != b@.len() ==> r == Some(
            Difference::CountMismatch { left: a@.len() as usize, right: b@.len() as usize },
        ),
        a@.len() == b@.len() ==> match r {
            None => models(a@) == models(b@),
            Some(Difference::FirstMismatch { index }) => index < a@.len() && a@[index as int]@
                != b@[index as int]@ && forall|j: int|
                0 <= j < index ==> #[trigger] a@[j]@ == b@[j]@,
            Some(Difference::CountMismatch { .. }) => false,
        },
{
    if a.len() != b.len() {
        return Some(Difference::CountMismatch { left: a.len(), right: b.len() });
    }
    let n = a.len();
    for idx in 0..n
        invariant
            n == a@.len() == b@.len(),
            forall|j: int| 0 <= j < idx ==> #[trigger] a@[j]@ == b@[j]@,
    {
        if !transactions_equal(&a[idx], &b[idx]) {
            return Some(Difference::FirstMismatch { index: idx });
        }
    }
    assert(models(a@) =~= models(b@)) by {
        assert forall|j: int| 0 <= j < n implies models(a@)[j] == models(b@)[j] by {
            assert(a@[j]@ == b@[j]@);
        }
    }
    None
}

} // verus!
