//! Input records and ticker normalization.

use vstd::prelude::*;

verus! {

/// One insider-sale transaction, as handed over by the ingestion layer.
///
/// The ticker symbol is a byte string; `shares_sold` and `value_usd` are
/// fixed-point micro-units; dates are day numbers. Optional attributes are
/// carried through untouched. Immutable once constructed.
#[derive(Clone, Debug)]
pub struct InsiderSellRecord {
    pub ticker: Vec<u8>,
    pub company_name: Option<String>,
    pub insider_name: Option<String>,
    pub role: Option<String>,
    /// Calendar day number of the transaction (required).
    pub transaction_date: i64,
    /// Calendar day number of the regulatory filing, if known.
    pub filing_date: Option<i64>,
    /// Shares sold, non-negative, in micro-units.
    pub shares_sold: i64,
    /// Dollar value of the sale in micro-units, if known.
    pub value_usd: Option<i64>,
    pub source: String,
}

/// ASCII upper-casing of one byte: lower-case letters are shifted, every
/// other byte is kept.
pub open spec fn upper_byte(b: u8) -> u8 {
    if 97 <= b <= 122 {
        (b - 32) as u8
    } else {
        b
    }
}

/// ASCII upper-casing of a byte string.
pub open spec fn upper_bytes(s: Seq<u8>) -> Seq<u8> {
    s.map_values(|b: u8| upper_byte(b))
}

/// Upper-case a ticker symbol, so that case variants of the same security
/// share one grouping key.
pub fn upper_ascii(s: &Vec<u8>) -> (r: Vec<u8>)
    ensures
        r@ == upper_bytes(s@),
{
    let mut r: Vec<u8> = Vec::new();
    let mut i: usize = 0;
    while i < s.len()
        invariant
            i <= s.len(),
            r@ == upper_bytes(s@.take(i as int)),
        decreases s.len() - i,
    {
        let b: u8 = s[i];
        if 97 <= b && b <= 122 {
            r.push(b - 32);
        } else {
            r.push(b);
        }
        proof {
            assert(upper_bytes(s@.take(i + 1)) =~= upper_bytes(s@.take(i as int)).push(
                upper_byte(s@[i as int]),
            ));
        }
        i = i + 1;
    }
    proof {
        assert(s@.take(s@.len() as int) =~= s@);
    }
    r
}

/// Copy of a byte string.
pub fn clone_bytes(s: &Vec<u8>) -> (r: Vec<u8>)
    ensures
        r@ == s@,
{
    let mut r: Vec<u8> = Vec::new();
    let mut i: usize = 0;
    while i < s.len()
        invariant
            i <= s@.len(),
            r@ == s@.take(i as int),
        decreases s.len() - i,
    {
        proof {
            assert(s@.take(i + 1) =~= s@.take(i as int).push(s@[i as int]));
        }
        r.push(s[i]);
        i = i + 1;
    }
    proof {
        assert(s@.take(s@.len() as int) =~= s@);
    }
    r
}

/// Byte-string equality.
pub fn bytes_eq(a: &Vec<u8>, b: &Vec<u8>) -> (r: bool)
    ensures
        r == (a@ == b@),
{
    if a.len() != b.len() {
        proof {
            assert(a@ != b@);
        }
        return false;
    }
    let mut i: usize = 0;
    while i < a.len()
        invariant
            a@.len() == b@.len(),
            i <= a@.len(),
            forall|j: int| 0 <= j < i ==> a@[j] == b@[j],
        decreases a.len() - i,
    {
        if a[i] != b[i] {
            proof {
                assert(a@ != b@);
            }
            return false;
        }
        i = i + 1;
    }
    proof {
        assert(a@ =~= b@);
    }
    true
}

} // verus!
