use vstd::prelude::*;
use vstd::string::StrSliceExecFns;
use crate::amount::{amount_units, units_in_i64};

verus! {

/// The five kinds of event that the ledger accepts.
#[derive(Debug, Clone, Copy, PartialEq, Eq, Structural)]
pub enum TransactionType {
    Deposit,
    Withdrawal,
    Dispute,
    Resolve,
    Chargeback,
}

/// The lowercase token that names a transaction kind in an event stream.
pub open spec fn token(t: TransactionType) -> Seq<char> {
    match t {
        TransactionType::Deposit => "deposit"@,
        TransactionType::Withdrawal => "withdrawal"@,
        TransactionType::Dispute => "dispute"@,
        TransactionType::Resolve => "resolve"@,
        TransactionType::Chargeback => "chargeback"@,
    }
}

/// The kind named by a token, if any.
pub open spec fn parse_token(s: Seq<char>) -> Option<TransactionType> {
    if s == "deposit"@ {
        Some(TransactionType::Deposit)
    } else if s == "withdrawal"@ {
        Some(TransactionType::Withdrawal)
    } else if s == "dispute"@ {
        Some(TransactionType::Dispute)
    } else if s == "resolve"@ {
        Some(TransactionType::Resolve)
    } else if s == "chargeback"@ {
        Some(TransactionType::Chargeback)
    } else {
        None
    }
}

/// Character-wise equality of two string slices.
fn str_equals(a: &str, b: &str) -> (r: bool)
    ensures
        r == (a@ == b@),
{
    let n = a.unicode_len();
    if n != b.unicode_len() {
        return false;
    }
    let mut i: usize = 0;
    while i < n
        invariant
            n == a@.len(),
            n == b@.len(),
            i <= n,
            forall|j: int| 0 <= j < i ==> a@[j] == b@[j],
        decreases n - i,
    {
        if a.get_char(i) != b.get_char(i) {
            return false;
        }
        i = i + 1;
    }
    assert(a@ =~= b@);
    true
}

impl TransactionType {
    pub fn to_str(&self) -> (r: &'static str)
        ensures
            r@ == token(*self),
    {
        match self {
            TransactionType::Deposit => "deposit",
            TransactionType::Withdrawal => "withdrawal",
            TransactionType::Dispute => "dispute",
            TransactionType::Resolve => "resolve",
            TransactionType::Chargeback => "chargeback",
        }
    }

    pub fn from_str(t: &str) -> (r: Option<Self>)
        ensures
            r == parse_token(t@),
    {
        if str_equals(t, "deposit") {
            Some(TransactionType::Deposit)
        } else if str_equals(t, "withdrawal") {
            Some(TransactionType::Withdrawal)
        } else if str_equals(t, "dispute") {
            Some(TransactionType::Dispute)
        } else if str_equals(t, "resolve") {
            Some(TransactionType::Resolve)
        } else if str_equals(t, "chargeback") {
            Some(TransactionType::Chargeback)
        } else {
            None
        }
    }

    /// Deposits and withdrawals move funds and are recorded; the other kinds
    /// refer to a recorded transaction.
    pub open spec fn is_recorded_kind(self) -> bool {
        self is Deposit || self is Withdrawal
    }
}

/// Reading back the token of a kind gives that kind again.
pub proof fn lemma_token_round_trip(t: TransactionType)
    ensures
        parse_token(token(t)) == Some(t),
{
    reveal_strlit("deposit");
    reveal_strlit("withdrawal");
    reveal_strlit("dispute");
    reveal_strlit("resolve");
    reveal_strlit("chargeback");
    assert("deposit"@[2] != "dispute"@[2]);
    assert("deposit"@.len() != "withdrawal"@.len());
    assert("deposit"@.len() != "chargeback"@.len());
    assert("deposit"@[0] != "resolve"@[0]);
    assert("dispute"@.len() != "withdrawal"@.len());
    assert("dispute"@[0] != "resolve"@[0]);
    assert("dispute"@.len() != "chargeback"@.len());
    assert("withdrawal"@.len() != "resolve"@.len());
    assert("withdrawal"@[0] != "chargeback"@[0]);
    assert("resolve"@.len() != "chargeback"@.len());
}

/// One event of the stream. Amounts are in units of one ten-thousandth.
#[derive(Debug, Clone, Copy, PartialEq, Eq, Structural)]
pub struct Transaction {
    pub id: u32,
    pub transaction_type: TransactionType,
    pub client_id: u16,
    pub amount: Option<i64>,
}

/// Why a row of the event stream does not make an event.
#[derive(Debug, Clone, Copy, PartialEq, Eq, Structural)]
pub enum RecordError {
    /// The type token names no transaction kind.
    UnknownType,
    /// The amount has a non-zero digit past the fourth fractional place or
    /// is out of range.
    InexactAmount,
}

/// The event that a row describes, given its type token, its ids and its
/// amount as a decimal mantissa and scale.
pub open spec fn event_of_fields(
    kind: Seq<char>,
    client_id: u16,
    id: u32,
    amount: Option<(i128, u32)>,
) -> Result<Transaction, RecordError> {
    match parse_token(kind) {
        None => Err(RecordError::UnknownType),
        Some(k) => match amount {
            None => Ok(Transaction { id, transaction_type: k, client_id, amount: None }),
            Some((m, sc)) => match units_in_i64(m as int, sc as nat) {
                None => Err(RecordError::InexactAmount),
                Some(u) => Ok(Transaction { id, transaction_type: k, client_id, amount: Some(u) }),
            },
        },
    }
}

impl Transaction {
    /// Builds an event from the fields of one row.
    pub fn from_fields(kind: &str, client_id: u16, id: u32, amount: Option<(i128, u32)>) -> (r:
        Result<Transaction, RecordError>)
        ensures
            r == event_of_fields(kind@, client_id, id, amount),
    {
        let transaction_type = match TransactionType::from_str(kind) {
            Some(k) => k,
            None => {
                return Err(RecordError::UnknownType);
            },
        };
        let amount = match amount {
            None => None,
            Some((m, sc)) => match amount_units(m, sc) {
                Some(u) => Some(u),
                None => {
                    return Err(RecordError::InexactAmount);
                },
            },
        };
        Ok(Transaction { id, transaction_type, client_id, amount })
    }
}

} // verus!
