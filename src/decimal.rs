use vstd::prelude::*;

use crate::geo::{dec_value, digit_value, is_digit, lemma_dec_push, pow10};

verus! {

/// `k` zero digits.
pub open spec fn zeros(k: nat) -> Seq<char> {
    Seq::new(k, |i: int| '0')
}

/// The digits of a fraction followed by zeros up to `n` places.
pub open spec fn padded(f: Seq<char>, n: nat) -> Seq<char> {
    f + zeros((n - f.len()) as nat)
}

/// The digit of a padded fraction at place `k`.
pub open spec fn padded_digit(f: Seq<char>, k: int) -> nat {
    if k < f.len() { digit_value(f[k]) } else { 0 }
}

/// A power of ten is positive.
pub proof fn lemma_pow10_pos(k: nat)
    ensures
        pow10(k) > 0,
    decreases k,
{
    if k > 0 {
        lemma_pow10_pos((k - 1) as nat);
    }
}

/// The value of `k` digits is below `10^k`.
pub proof fn lemma_dec_bound(s: Seq<char>)
    ensures
        dec_value(s) < pow10(s.len()),
    decreases s.len(),
{
    if s.len() > 0 {
        let d = s.drop_last();
        lemma_dec_bound(d);
        assert(digit_value(s.last()) <= 9);
        assert(pow10(s.len()) == 10 * pow10(d.len()));
    }
}

/// The value of two digit strings one after the other.
pub proof fn lemma_dec_concat(a: Seq<char>, b: Seq<char>)
    ensures
        dec_value(a + b) == dec_value(a) * pow10(b.len()) + dec_value(b),
    decreases b.len(),
{
    if b.len() == 0 {
        assert(a + b =~= a);
        assert(pow10(0) == 1);
        assert(dec_value(b) == 0);
    } else {
        let b1 = b.drop_last();
        lemma_dec_concat(a, b1);
        assert((a + b).drop_last() =~= a + b1);
        assert((a + b).last() == b.last());
        let x = dec_value(a);
        let p = pow10(b1.len());
        let y = dec_value(b1);
        assert(dec_value(a + b) == 10 * (x * p + y) + digit_value(b.last()));
        assert(pow10(b.len()) == 10 * p);
        assert(dec_value(b) == 10 * y + digit_value(b.last()));
        assert(10 * (x * p + y) == x * (10 * p) + 10 * y) by (nonlinear_arith);
    }
}

/// A value is zero exactly when every digit is.
pub proof fn lemma_dec_zero(s: Seq<char>)
    ensures
        (dec_value(s) == 0) <==> (forall|j: int| 0 <= j < s.len() ==> digit_value(#[trigger] s[j]) == 0),
    decreases s.len(),
{
    if s.len() > 0 {
        let d = s.drop_last();
        lemma_dec_zero(d);
        if dec_value(s) == 0 {
            assert forall|j: int| 0 <= j < s.len() implies digit_value(#[trigger] s[j]) == 0 by {
                if j < d.len() {
                    assert(s[j] == d[j]);
                }
            }
        }
        if forall|j: int| 0 <= j < s.len() ==> digit_value(#[trigger] s[j]) == 0 {
            assert forall|j: int| 0 <= j < d.len() implies digit_value(#[trigger] d[j]) == 0 by {
                assert(s[j] == d[j]);
            }
            assert(digit_value(s[s.len() - 1]) == 0);
        }
    }
}

/// Zeros are worth nothing.
pub proof fn lemma_zeros(k: nat)
    ensures
        dec_value(zeros(k)) == 0,
{
    lemma_dec_zero(zeros(k));
}

/// Padding a fraction scales its value.
pub proof fn lemma_padded(f: Seq<char>, n: nat)
    requires
        f.len() <= n,
    ensures
        padded(f, n).len() == n,
        dec_value(padded(f, n)) == dec_value(f) * pow10((n - f.len()) as nat),
        forall|k: int| 0 <= k < n ==> digit_value(#[trigger] padded(f, n)[k]) == padded_digit(f, k),
{
    lemma_dec_concat(f, zeros((n - f.len()) as nat));
    lemma_zeros((n - f.len()) as nat);
    assert forall|k: int| 0 <= k < n implies digit_value(#[trigger] padded(f, n)[k]) == padded_digit(f, k) by {
        if k >= f.len() {
            assert(padded(f, n)[k] == '0');
        }
    }
}

/// Digit strings whose digits have the same values have the same value.
pub proof fn lemma_dec_same(a: Seq<char>, b: Seq<char>)
    requires
        a.len() == b.len(),
        forall|j: int| 0 <= j < a.len() ==> digit_value(#[trigger] a[j]) == digit_value(b[j]),
    ensures
        dec_value(a) == dec_value(b),
    decreases a.len(),
{
    if a.len() > 0 {
        let a1 = a.drop_last();
        let b1 = b.drop_last();
        assert forall|j: int| 0 <= j < a1.len() implies digit_value(#[trigger] a1[j]) == digit_value(b1[j]) by {
            assert(a1[j] == a[j] && b1[j] == b[j]);
        }
        lemma_dec_same(a1, b1);
        assert(digit_value(a[a.len() - 1]) == digit_value(b[b.len() - 1]));
    }
}

/// Of two digit strings of one length, the first place where their digits
/// differ decides which value is smaller.
pub proof fn lemma_dec_first_difference(a: Seq<char>, b: Seq<char>, k: int)
    requires
        a.len() == b.len(),
        0 <= k < a.len(),
        forall|j: int| 0 <= j < k ==> digit_value(#[trigger] a[j]) == digit_value(b[j]),
        digit_value(a[k]) < digit_value(b[k]),
    ensures
        dec_value(a) < dec_value(b),
{
    let n = a.len();
    let m = (n - k - 1) as nat;
    let ha = a.subrange(0, k + 1);
    let hb = b.subrange(0, k + 1);
    let ta = a.subrange(k + 1, n as int);
    let tb = b.subrange(k + 1, n as int);
    assert(a =~= ha + ta);
    assert(b =~= hb + tb);
    lemma_dec_concat(ha, ta);
    lemma_dec_concat(hb, tb);
    let pa = a.subrange(0, k);
    let pb = b.subrange(0, k);
    assert(ha.drop_last() =~= pa);
    assert(hb.drop_last() =~= pb);
    assert forall|j: int| 0 <= j < pa.len() implies digit_value(#[trigger] pa[j]) == digit_value(pb[j]) by {
        assert(pa[j] == a[j] && pb[j] == b[j]);
    }
    lemma_dec_same(pa, pb);
    let x = dec_value(ha);
    let y = dec_value(hb);
    assert(x + 1 <= y);
    lemma_dec_bound(ta);
    let p = pow10(m);
    assert(ta.len() == m && tb.len() == m);
    let ra = dec_value(ta);
    let rb = dec_value(tb);
    assert(x * p + ra < y * p + rb) by (nonlinear_arith)
        requires
            x + 1 <= y,
            ra < p,
            rb >= 0,
    ;
}

} // verus!
