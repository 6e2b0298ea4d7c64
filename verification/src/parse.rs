//! Turning one row of raw text fields into a structured record.
//!
//! Each field may be surrounded by whitespace, which is trimmed. The type
//! must be one of the five lowercase record names; client and transaction
//! ids are decimal integers (one leading `+` tolerated, as the textual
//! integer parser accepts); the amount is parsed by the fixed-point codec,
//! an empty field meaning zero. A row that fails any of these is dropped
//! by the caller with a diagnostic and charges nothing.

use crate::amount::{all_digits, digits_val, is_digit, sign_skipped, spec_encode, encode};
use crate::transaction::{Transaction, TransactionType};
use vstd::prelude::*;
use vstd::string::StrSliceExecFns;

verus! {

/// Why a raw row was dropped.
#[derive(Clone, Copy, Debug, PartialEq, Eq, Structural)]
pub enum ParseError {
    /// The type field names no known record type.
    InvalidType,
    /// The client field is not a decimal number fitting 16 bits.
    InvalidClient,
    /// The transaction-id field is not a decimal number fitting 32 bits.
    InvalidTx,
    /// The amount field is not a valid fixed-point amount.
    InvalidAmount,
}

/// The whitespace that surrounds a field and is trimmed away: space, tab,
/// line feed, form feed, carriage return.
pub open spec fn is_space(c: char) -> bool {
    c as int == 32 || c as int == 9 || c as int == 10 || c as int == 12 || c as int == 13
}

pub open spec fn trim_front(s: Seq<char>) -> Seq<char>
    decreases s.len(),
{
    if s.len() > 0 && is_space(s[0]) {
        trim_front(s.drop_first())
    } else {
        s
    }
}

pub open spec fn trim_back(s: Seq<char>) -> Seq<char>
    decreases s.len(),
{
    if s.len() > 0 && is_space(s.last()) {
        trim_back(s.drop_last())
    } else {
        s
    }
}

/// A field with its surrounding whitespace removed.
pub open spec fn trimmed(s: Seq<char>) -> Seq<char> {
    trim_back(trim_front(s))
}

proof fn lemma_trim_front_at(s: Seq<char>, j: int)
    requires
        0 <= j <= s.len(),
        forall|i: int| 0 <= i < j ==> is_space(#[trigger] s[i]),
        j < s.len() ==> !is_space(s[j]),
    ensures
        trim_front(s) == s.skip(j),
    decreases j,
{
    if j == 0 {
        assert(s.skip(0) =~= s);
    } else {
        assert(is_space(s[0]));
        lemma_trim_front_at(s.drop_first(), j - 1);
        assert(s.drop_first().skip(j - 1) =~= s.skip(j));
    }
}

proof fn lemma_trim_back_at(s: Seq<char>, h: int)
    requires
        0 <= h <= s.len(),
        forall|i: int| h <= i < s.len() ==> is_space(#[trigger] s[i]),
        h > 0 ==> !is_space(s[h - 1]),
    ensures
        trim_back(s) == s.take(h),
    decreases s.len(),
{
    if h == s.len() {
        assert(s.take(h) =~= s);
    } else {
        assert(is_space(s.last()));
        lemma_trim_back_at(s.drop_last(), h);
        assert(s.drop_last().take(h) =~= s.take(h));
    }
}

fn is_space_char(c: char) -> (r: bool)
    ensures
        r == is_space(c),
{
    let v = c as u32;
    v == 32 || v == 9 || v == 10 || v == 12 || v == 13
}

/// Remove the whitespace around a field.
pub fn trim(s: &str) -> (r: &str)
    ensures
        r@ == trimmed(s@),
{
    let ghost sq = s@;
    let n = s.unicode_len();
    let mut lo: usize = 0;
    while lo < n && is_space_char(s.get_char(lo))
        invariant
            0 <= lo <= n,
            n == sq.len(),
            s@ == sq,
            forall|i: int| 0 <= i < lo ==> is_space(#[trigger] sq[i]),
        decreases n - lo,
    {
        lo = lo + 1;
    }
    let mut hi: usize = n;
    while hi > lo && is_space_char(s.get_char(hi - 1))
        invariant
            lo <= hi <= n,
            n == sq.len(),
            s@ == sq,
            forall|i: int| hi <= i < n ==> is_space(#[trigger] sq[i]),
        decreases hi,
    {
        hi = hi - 1;
    }
    proof {
        lemma_trim_front_at(sq, lo as int);
        let t = sq.skip(lo as int);
        assert(forall|i: int| hi - lo <= i < t.len() ==> is_space(#[trigger] t[i]));
        lemma_trim_back_at(t, hi - lo);
        assert(t.take(hi - lo) =~= sq.subrange(lo as int, hi as int));
    }
    s.substring_char(lo, hi)
}

/// Whether two strings spell the same characters.
fn str_eq(a: &str, b: &str) -> (r: bool)
    ensures
        r == (a@ == b@),
{
    let na = a.unicode_len();
    let nb = b.unicode_len();
    if na != nb {
        return false;
    }
    let mut i: usize = 0;
    while i < na
        invariant
            0 <= i <= na,
            na == a@.len(),
            na == b@.len(),
            forall|k: int| 0 <= k < i ==> a@[k] == b@[k],
        decreases na - i,
    {
        if a.get_char(i) != b.get_char(i) {
            return false;
        }
        i = i + 1;
    }
    proof {
        assert(a@ =~= b@);
    }
    true
}

/// The record type a (trimmed) type field names, if any.
pub open spec fn spec_parse_type(s: Seq<char>) -> Option<TransactionType> {
    if s == "deposit"@ {
        Some(TransactionType::Deposit)
    } else if s == "withdrawal"@ {
        Some(TransactionType::Withdrawal)
    } else if s == "dispute"@ {
        Some(TransactionType::Dispute)
    } else if s == "resolve"@ {
        Some(TransactionType::Resolve)
    } else if s == "chargeback"@ {
        Some(TransactionType::Chargeback)
    } else {
        None
    }
}

fn parse_type(s: &str) -> (r: Option<TransactionType>)
    ensures
        r == spec_parse_type(s@),
{
    if str_eq(s, "deposit") {
        Some(TransactionType::Deposit)
    } else if str_eq(s, "withdrawal") {
        Some(TransactionType::Withdrawal)
    } else if str_eq(s, "dispute") {
        Some(TransactionType::Dispute)
    } else if str_eq(s, "resolve") {
        Some(TransactionType::Resolve)
    } else if str_eq(s, "chargeback") {
        Some(TransactionType::Chargeback)
    } else {
        None
    }
}

/// A (trimmed) decimal id field: one leading `+` tolerated, at least one
/// digit, value within the bound.
pub open spec fn spec_parse_uint(s: Seq<char>, max: int) -> Option<u64> {
    let ds = sign_skipped(s);
    if ds.len() > 0 && all_digits(ds) && digits_val(ds) <= max {
        Some((digits_val(ds) as u64))
    } else {
        None
    }
}

fn parse_uint(s: &str, max: u64) -> (r: Option<u64>)
    ensures
        r == spec_parse_uint(s@, max as int),
{
    let ghost sq = s@;
    let ghost ds = sign_skipped(sq);
    let n = s.unicode_len();
    let start: usize = if n > 0 && s.get_char(0) == '+' {
        1
    } else {
        0
    };
    proof {
        assert(ds =~= sq.subrange(start as int, n as int));
    }
    if start == n {
        proof {
            assert(ds.len() == 0);
        }
        return None;
    }
    let mut val: u64 = 0;
    let mut i: usize = start;
    while i < n
        invariant
            start <= i <= n,
            n == sq.len(),
            s@ == sq,
            ds == sign_skipped(sq),
            ds =~= sq.subrange(start as int, n as int),
            all_digits(sq.subrange(start as int, i as int)),
            val == digits_val(sq.subrange(start as int, i as int)),
        decreases n - i,
    {
        let c = s.get_char(i);
        let cv = c as u32;
        if cv < 48 || cv > 57 {
            proof {
                assert(ds[i - start] == sq[i as int]);
                assert(!is_digit(ds[i - start]));
                assert(!all_digits(ds));
            }
            return None;
        }
        let dv = (cv - 48) as u64;
        proof {
            let pre = sq.subrange(start as int, i as int);
            let post = sq.subrange(start as int, i as int + 1);
            assert(post.drop_last() =~= pre);
            assert(post.last() == sq[i as int]);
            assert(digits_val(post) == digits_val(pre) * 10 + (sq[i as int] as int - 48));
        }
        let stepped = match val.checked_mul(10) {
            Some(x) => x.checked_add(dv),
            None => None,
        };
        match stepped {
            Some(y) => {
                val = y;
            },
            None => {
                // the value already exceeds `u64::MAX`, so it cannot fit
                // under any bound this parser is given
                proof {
                    let k = i - start + 1;
                    let post = sq.subrange(start as int, i as int + 1);
                    assert(ds.take(k) =~= post);
                    assert(digits_val(post) > u64::MAX);
                    if all_digits(ds) {
                        crate::amount::lemma_digits_val_prefix(ds, k);
                    }
                }
                return None;
            },
        }
        i = i + 1;
    }
    proof {
        assert(sq.subrange(start as int, n as int) =~= ds);
    }
    if val > max {
        None
    } else {
        Some(val)
    }
}

/// What [`parse_record`] returns for the four raw fields of one row.
pub open spec fn spec_parse_record(t: Seq<char>, c: Seq<char>, x: Seq<char>, a: Seq<char>) -> Result<
    Transaction,
    ParseError,
> {
    match spec_parse_type(trimmed(t)) {
        None => Err(ParseError::InvalidType),
        Some(tt) => match spec_parse_uint(trimmed(c), u16::MAX as int) {
            None => Err(ParseError::InvalidClient),
            Some(cv) => match spec_parse_uint(trimmed(x), u32::MAX as int) {
                None => Err(ParseError::InvalidTx),
                Some(xv) => match spec_encode(trimmed(a)) {
                    Err(_) => Err(ParseError::InvalidAmount),
                    Ok(av) => Ok(
                        Transaction {
                            tx_type: tt,
                            client: cv as u16,
                            tx: xv as u32,
                            amount: av,
                        },
                    ),
                },
            },
        },
    }
}

/// Build a structured record from the four raw text fields of one row,
/// trimming each; exactly [`spec_parse_record`] of the fields.
pub fn parse_record(tx_type: &str, client: &str, tx: &str, amount: &str) -> (r: Result<
    Transaction,
    ParseError,
>)
    ensures
        r == spec_parse_record(tx_type@, client@, tx@, amount@),
{
    let tt = match parse_type(trim(tx_type)) {
        None => {
            return Err(ParseError::InvalidType);
        },
        Some(tt) => tt,
    };
    let client_id = match parse_uint(trim(client), 65535) {
        None => {
            return Err(ParseError::InvalidClient);
        },
        Some(v) => v as u16,
    };
    let tx_id = match parse_uint(trim(tx), 4294967295) {
        None => {
            return Err(ParseError::InvalidTx);
        },
        Some(v) => v as u32,
    };
    let amnt = match encode(trim(amount)) {
        Err(_) => {
            return Err(ParseError::InvalidAmount);
        },
        Ok(v) => v,
    };
    Ok(Transaction { tx_type: tt, client: client_id, tx: tx_id, amount: amnt })
}

} // verus!
