//! Decimal integers as byte strings: parsing and formatting with exact value
//! semantics, shared by the three file-format parsers.

use vstd::prelude::*;

verus! {

/// An ASCII decimal digit.
pub open spec fn is_digit(b: u8) -> bool {
    48 <= b <= 57
}

/// `s` is a non-empty run of ASCII decimal digits.
pub open spec fn all_digits(s: Seq<u8>) -> bool {
    s.len() > 0 && (forall|i: int| 0 <= i < s.len() ==> is_digit(#[trigger] s[i]))
}

/// The numeric value of a digit string, most significant digit first.
pub open spec fn digits_val(s: Seq<u8>) -> int
    decreases s.len(),
{
    if s.len() == 0 {
        0
    } else {
        digits_val(s.drop_last()) * 10 + (s.last() - 48)
    }
}

/// What a byte string denotes as a non-negative decimal integer: the digits'
/// value when it is a pure digit run, nothing otherwise.
pub open spec fn dec_value(s: Seq<u8>) -> Option<int> {
    if all_digits(s) {
        Some(digits_val(s))
    } else {
        None
    }
}

/// A field read as a machine-sized count: its value must fit in `usize`.
pub open spec fn usize_field(s: Seq<u8>) -> Option<int> {
    match dec_value(s) {
        Some(v) => if v <= usize::MAX {
            Some(v)
        } else {
            None
        },
        None => None,
    }
}

/// A field read as a 32-bit coordinate: its value must fit in `u32`.
pub open spec fn u32_field(s: Seq<u8>) -> Option<int> {
    match dec_value(s) {
        Some(v) => if v <= u32::MAX {
            Some(v)
        } else {
            None
        },
        None => None,
    }
}

pub proof fn lemma_digits_val_nonneg(s: Seq<u8>)
    requires
        forall|i: int| 0 <= i < s.len() ==> is_digit(#[trigger] s[i]),
    ensures
        digits_val(s) >= 0,
    decreases s.len(),
{
    if s.len() > 0 {
        lemma_digits_val_nonneg(s.drop_last());
    }
}

/// Extending a digit prefix by one digit multiplies its value by ten and adds
/// the digit.
pub proof fn lemma_digits_val_snoc(s: Seq<u8>, i: int)
    requires
        0 <= i < s.len(),
    ensures
        digits_val(s.subrange(0, i + 1)) == digits_val(s.subrange(0, i)) * 10 + (s[i] - 48),
{
    let t = s.subrange(0, i + 1);
    assert(t.drop_last() =~= s.subrange(0, i));
    assert(t.last() == s[i]);
}

/// A prefix of a digit string never exceeds the whole string's value.
pub proof fn lemma_digits_val_prefix_le(s: Seq<u8>, i: int)
    requires
        0 <= i <= s.len(),
        forall|j: int| 0 <= j < s.len() ==> is_digit(#[trigger] s[j]),
    ensures
        digits_val(s.subrange(0, i)) <= digits_val(s),
    decreases s.len() - i,
{
    if i == s.len() {
        assert(s.subrange(0, i) =~= s);
    } else {
        lemma_digits_val_snoc(s, i);
        lemma_digits_val_nonneg(s.subrange(0, i));
        lemma_digits_val_prefix_le(s, i + 1);
    }
}

/// Parse a whole byte string as a decimal `usize`.
pub fn parse_usize(s: &[u8]) -> (r: Option<usize>)
    ensures
        match r {
            Some(v) => usize_field(s@) == Some(v as int),
            None => usize_field(s@) is None,
        },
{
    if s.len() == 0 {
        return None;
    }
    let mut acc: usize = 0;
    let mut i: usize = 0;
    while i < s.len()
        invariant
            0 < s@.len(),
            i <= s@.len(),
            forall|j: int| 0 <= j < i ==> is_digit(#[trigger] s@[j]),
            acc == digits_val(s@.subrange(0, i as int)),
        decreases s@.len() - i,
    {
        let b = s[i];
        if b < 48 || b > 57 {
            assert(!all_digits(s@));
            return None;
        }
        let d = (b - 48) as usize;
        proof {
            lemma_digits_val_snoc(s@, i as int);
        }
        let shifted = match acc.checked_mul(10) {
            Some(m) => m.checked_add(d),
            None => None,
        };
        match shifted {
            Some(v) => {
                acc = v;
            }
            None => {
                proof {
                    if all_digits(s@) {
                        lemma_digits_val_prefix_le(s@, i as int + 1);
                    }
                }
                return None;
            }
        }
        i = i + 1;
    }
    proof {
        assert(s@.subrange(0, s@.len() as int) =~= s@);
    }
    Some(acc)
}

/// Parse a whole byte string as a decimal `u32`.
pub fn parse_u32(s: &[u8]) -> (r: Option<u32>)
    ensures
        match r {
            Some(v) => u32_field(s@) == Some(v as int),
            None => u32_field(s@) is None,
        },
{
    match parse_usize(s) {
        Some(v) => if v <= u32::MAX as usize {
            Some(v as u32)
        } else {
            None
        },
        None => None,
    }
}

/// The decimal digit string of a non-negative integer.
pub open spec fn dec_digits(n: nat) -> Seq<u8>
    decreases n,
{
    if n < 10 {
        seq![(48 + n) as u8]
    } else {
        dec_digits(n / 10) + seq![(48 + n % 10) as u8]
    }
}

/// A formatted integer is a pure digit run denoting the integer itself.
pub proof fn lemma_dec_digits_ok(n: nat)
    ensures
        all_digits(dec_digits(n)),
        digits_val(dec_digits(n)) == n,
    decreases n,
{
    if n < 10 {
        let s = dec_digits(n);
        assert(s =~= seq![(48 + n) as u8]);
        assert(s.last() == (48 + n) as u8);
        assert(s.drop_last() =~= Seq::<u8>::empty());
        assert(digits_val(Seq::<u8>::empty()) == 0);
        assert(digits_val(s) == digits_val(s.drop_last()) * 10 + (s.last() - 48));
        assert(digits_val(s) == n);
    } else {
        lemma_dec_digits_ok(n / 10);
        let a = dec_digits(n / 10);
        let d = (48 + n % 10) as u8;
        let s = a + seq![d];
        assert(s.drop_last() =~= a);
        assert(s.last() == d);
        assert((n / 10) * 10 + n % 10 == n) by (nonlinear_arith);
        assert forall|i: int| 0 <= i < s.len() implies is_digit(#[trigger] s[i]) by {
            if i < a.len() {
                assert(s[i] == a[i]);
            }
        }
    }
}

/// A formatted count parses back to itself.
pub proof fn lemma_dec_digits_usize_field(n: nat)
    requires
        n <= usize::MAX,
    ensures
        usize_field(dec_digits(n)) == Some(n as int),
{
    lemma_dec_digits_ok(n);
}

/// Decimal text of `n`, most significant digit first.
pub fn fmt_usize(n: usize) -> (r: Vec<u8>)
    ensures
        r@ == dec_digits(n as nat),
    decreases n,
{
    if n < 10 {
        let mut v: Vec<u8> = Vec::new();
        v.push(48 + n as u8);
        proof {
            assert(v@ =~= dec_digits(n as nat));
        }
        v
    } else {
        let mut v = fmt_usize(n / 10);
        v.push(48 + (n % 10) as u8);
        proof {
            assert(v@ =~= dec_digits(n as nat));
        }
        v
    }
}

} // verus!
