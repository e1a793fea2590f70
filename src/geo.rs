use vstd::prelude::*;

use crate::decimal::{padded, padded_digit};

verus! {

pub open spec fn is_digit(c: char) -> bool {
    '0' <= c <= '9'
}

pub open spec fn digit_value(c: char) -> nat {
    if is_digit(c) { (c as int - '0' as int) as nat } else { 0 }
}

/// The value of a string of decimal digits.
pub open spec fn dec_value(s: Seq<char>) -> nat
    decreases s.len(),
{
    if s.len() == 0 {
        0
    } else {
        10 * dec_value(s.drop_last()) + digit_value(s.last())
    }
}

/// The end of the run of digits that starts at `i`.
pub open spec fn digit_run(t: Seq<char>, i: int) -> int
    decreases t.len() - i,
{
    if 0 <= i < t.len() && is_digit(t[i]) {
        digit_run(t, i + 1)
    } else {
        i
    }
}

/// The first six digits of a fraction, padded with zeros: its value in whole
/// millionths.
pub open spec fn frac_six(f: Seq<char>) -> nat {
    if f.len() >= 6 {
        dec_value(f.take(6))
    } else {
        dec_value(f + Seq::new((6 - f.len()) as nat, |k: int| '0'))
    }
}

/// A fraction in millionths, rounded to the nearest (a seventh digit of five
/// or more rounds up).
pub open spec fn frac_micro(f: Seq<char>) -> nat {
    frac_six(f) + if f.len() > 6 && digit_value(f[6]) >= 5 { 1nat } else { 0nat }
}

/// The number that starts at `i` (`-?\d+(\.\d*)?`, as long as it goes), as its
/// value in millionths, rounded to the nearest, and the index where it ends.
pub open spec fn scan_number(t: Seq<char>, i: int) -> Option<(int, int)> {
    let neg = 0 <= i < t.len() && t[i] == '-';
    let s = if neg { i + 1 } else { i };
    let p = digit_run(t, s);
    if p == s {
        None
    } else {
        let whole = dec_value(t.subrange(s, p));
        let (frac, end) = if p < t.len() && t[p] == '.' {
            let e = digit_run(t, p + 1);
            (frac_micro(t.subrange(p + 1, e)), e)
        } else {
            (0nat, p)
        };
        let mag = whole * 1000000 + frac;
        Some((if neg { -mag } else { mag as int }, end))
    }
}

/// A number followed by `|`: its value, and the index after the separator.
pub open spec fn scan_field(t: Seq<char>, i: int) -> Option<(int, int)> {
    match scan_number(t, i) {
        Some((v, e)) => if e < t.len() && t[e] == '|' {
            Some((v, e + 1))
        } else {
            None
        },
        None => None,
    }
}

/// The four numbers `left|bottom|right|top` at the start of a text (anything may
/// follow them), in millionths of a degree.
pub open spec fn bbox_fields(t: Seq<char>) -> Option<(int, int, int, int)> {
    match scan_field(t, 0) {
        Some((left, i1)) => match scan_field(t, i1) {
            Some((bottom, i2)) => match scan_field(t, i2) {
                Some((right, i3)) => match scan_number(t, i3) {
                    Some((top, _e)) => Some((left, bottom, right, top)),
                    None => None,
                },
                None => None,
            },
            None => None,
        },
        None => None,
    }
}

/// A number as written: its sign, its integer digits and its fraction digits.
pub type NumberText = (bool, Seq<char>, Seq<char>);

/// The parts of the number at `i`, as `scan_number` reads it, and the index
/// where it ends.
pub open spec fn number_parts(t: Seq<char>, i: int) -> Option<(NumberText, int)> {
    let neg = 0 <= i < t.len() && t[i] == '-';
    let s = if neg { i + 1 } else { i };
    let p = digit_run(t, s);
    if p == s {
        None
    } else if p < t.len() && t[p] == '.' {
        let e = digit_run(t, p + 1);
        Some(((neg, t.subrange(s, p), t.subrange(p + 1, e)), e))
    } else {
        Some(((neg, t.subrange(s, p), Seq::empty()), p))
    }
}

/// A number followed by `|`: its parts, and the index after the separator.
pub open spec fn field_parts(t: Seq<char>, i: int) -> Option<(NumberText, int)> {
    match number_parts(t, i) {
        Some((x, e)) => if e < t.len() && t[e] == '|' {
            Some((x, e + 1))
        } else {
            None
        },
        None => None,
    }
}

/// The four numbers at the start of a text, as written.
pub open spec fn bbox_parts(t: Seq<char>) -> Option<(NumberText, NumberText, NumberText, NumberText)> {
    match field_parts(t, 0) {
        Some((left, i1)) => match field_parts(t, i1) {
            Some((bottom, i2)) => match field_parts(t, i2) {
                Some((right, i3)) => match number_parts(t, i3) {
                    Some((top, _e)) => Some((left, bottom, right, top)),
                    None => None,
                },
                None => None,
            },
            None => None,
        },
        None => None,
    }
}

/// The exact absolute value of a number times `10^n`, for `n` at least its
/// number of decimals.
pub open spec fn magnitude(x: NumberText, n: nat) -> int {
    (dec_value(x.1) * pow10(n) + dec_value(padded(x.2, n))) as int
}

/// The exact value of a number times `10^n`.
pub open spec fn scaled(x: NumberText, n: nat) -> int {
    if x.0 { -magnitude(x, n) } else { magnitude(x, n) }
}

/// The number lies in `[-m, m]`, exactly.
pub open spec fn within(x: NumberText, m: int) -> bool {
    -m * pow10(x.2.len()) <= scaled(x, x.2.len()) <= m * pow10(x.2.len())
}

/// The first number is at most the second, exactly.
pub open spec fn at_most(x: NumberText, y: NumberText) -> bool {
    let n = if x.2.len() >= y.2.len() { x.2.len() } else { y.2.len() };
    scaled(x, n) <= scaled(y, n)
}

/// The sides, exactly as written, are in range and the box is not upside down.
pub open spec fn valid_box(left: NumberText, bottom: NumberText, right: NumberText, top: NumberText) -> bool {
    &&& within(left, 180)
    &&& within(right, 180)
    &&& within(bottom, 90)
    &&& within(top, 90)
    &&& at_most(bottom, top)
}

/// A geographic box, its sides in microdegrees. When `left > right` the box
/// spans the antimeridian.
#[derive(Clone, Copy, Debug, PartialEq, Eq, Structural)]
pub struct BoundingBox {
    pub left: i32,
    pub bottom: i32,
    pub right: i32,
    pub top: i32,
}

/// The box that a text describes, as `BoundingBox::try_parse` reads it.
/// The range and order checks read the numbers exactly; the sides are kept in
/// microdegrees, rounded to the nearest.
pub open spec fn bbox_spec(t: Seq<char>) -> Option<BoundingBox> {
    match (bbox_fields(t), bbox_parts(t)) {
        (Some((left, bottom, right, top)), Some((pl, pb, pr, pt))) => if valid_box(pl, pb, pr, pt) {
            Some(BoundingBox { left: left as i32, bottom: bottom as i32, right: right as i32, top: top as i32 })
        } else {
            None
        },
        _ => None,
    }
}

impl BoundingBox {
    /// Whether a point, in microdegrees, lies in the box, edges included.
    pub open spec fn contains_spec(&self, longitude: int, latitude: int) -> bool {
        &&& self.bottom <= latitude <= self.top
        &&& if self.left > self.right {
            longitude >= self.left || longitude <= self.right
        } else {
            self.left <= longitude <= self.right
        }
    }

    /// Reads `left|bottom|right|top` in decimal degrees; `None` where the text
    /// does not start with four such numbers, or where the box is out of range
    /// or upside down.
    pub fn try_parse(text: &str) -> (r: Option<BoundingBox>)
        ensures
            r == bbox_spec(text@),
    {
        let n = text.unicode_len();
        let (left, i1) = match scan_exec_field(text, n, 0) {
            Some(x) => x,
            None => return None,
        };
        let (bottom, i2) = match scan_exec_field(text, n, i1) {
            Some(x) => x,
            None => return None,
        };
        let (right, i3) = match scan_exec_field(text, n, i2) {
            Some(x) => x,
            None => return None,
        };
        let (top, _e) = match scan_exec_number(text, n, i3) {
            Some(x) => x,
            None => return None,
        };
        if !(within_exec(text, &left, 180) && within_exec(text, &right, 180) && within_exec(text, &bottom, 90)
            && within_exec(text, &top, 90)) {
            return None;
        }
        if !at_most_exec(text, &bottom, &top) {
            return None;
        }
        Some(BoundingBox {
            left: left.micro as i32,
            bottom: bottom.micro as i32,
            right: right.micro as i32,
            top: top.micro as i32,
        })
    }

    /// Whether the point (`longitude`, `latitude`), in microdegrees, lies in the box.
    pub fn contains(&self, longitude: i32, latitude: i32) -> (r: bool)
        ensures
            r == self.contains_spec(longitude as int, latitude as int),
    {
        latitude <= self.top && latitude >= self.bottom && (if self.left > self.right {
            longitude >= self.left || longitude <= self.right
        } else {
            longitude >= self.left && longitude <= self.right
        })
    }
}

/// Bound above which a scanned value is only known to be large.
pub const BIG: i64 = 1000000000000;

/// Either the exact value, or both beyond `BIG` with the same sign.
pub open spec fn near(v: int, exact: int) -> bool {
    v == exact || (v > BIG && exact > BIG) || (v < -BIG && exact < -BIG)
}

/// One more digit multiplies the value by ten and adds the digit.
pub proof fn lemma_dec_push(s: Seq<char>, c: char)
    ensures
        dec_value(s.push(c)) == 10 * dec_value(s) + digit_value(c),
{
    assert(s.push(c).drop_last() =~= s);
}

fn is_digit_exec(c: char) -> (r: bool)
    ensures
        r == is_digit(c),
{
    '0' <= c && c <= '9'
}

/// Scans a run of digits from `i`; its value, exact up to a million.
fn scan_digits(t: &str, n: usize, i: usize) -> (r: (u64, usize))
    requires
        n == t@.len(),
        i <= n,
    ensures
        r.1 == digit_run(t@, i as int),
        dec_value(t@.subrange(i as int, r.1 as int)) <= 1000000 ==> r.0 == dec_value(
            t@.subrange(i as int, r.1 as int),
        ),
        dec_value(t@.subrange(i as int, r.1 as int)) > 1000000 ==> 1000000 < r.0 <= 10000009,
{
    let mut j: usize = i;
    let mut acc: u64 = 0;
    assert(t@.subrange(i as int, i as int) =~= Seq::<char>::empty());
    while j < n && is_digit_exec(t.get_char(j))
        invariant
            n == t@.len(),
            i <= j <= n,
            digit_run(t@, j as int) == digit_run(t@, i as int),
            dec_value(t@.subrange(i as int, j as int)) <= 1000000 ==> acc == dec_value(
                t@.subrange(i as int, j as int),
            ),
            dec_value(t@.subrange(i as int, j as int)) > 1000000 ==> 1000000 < acc <= 10000009,
        decreases n - j,
    {
        let c = t.get_char(j);
        let old_sub = Ghost(t@.subrange(i as int, j as int));
        assert(t@.subrange(i as int, j + 1) =~= old_sub@.push(c));
        proof {
            lemma_dec_push(old_sub@, c);
        }
        if acc <= 1000000 {
            acc = acc * 10 + (c as u64 - 48);
        }
        j = j + 1;
    }
    (acc, j)
}

/// Scans the digits after a decimal point from `i`: the first six, padded, in
/// millionths.
fn scan_fraction(t: &str, n: usize, i: usize) -> (r: (u64, usize))
    requires
        n == t@.len(),
        i <= n,
    ensures
        r.1 == digit_run(t@, i as int),
        r.0 == frac_six(t@.subrange(i as int, r.1 as int)),
        r.0 < 1000000,
{
    let mut j: usize = i;
    let mut acc: u64 = 0;
    let mut k: u64 = 0;
    proof {
        lemma_pow10_small();
    }
    assert(t@.subrange(i as int, i as int) =~= Seq::<char>::empty());
    while j < n && is_digit_exec(t.get_char(j))
        invariant
            n == t@.len(),
            i <= j <= n,
            digit_run(t@, j as int) == digit_run(t@, i as int),
            k <= 6,
            k == (if j - i < 6 { j - i } else { 6 }),
            pow10(0) == 1 && pow10(1) == 10 && pow10(2) == 100 && pow10(3) == 1000,
            pow10(4) == 10000 && pow10(5) == 100000 && pow10(6) == 1000000,
            acc == dec_value(t@.subrange(i as int, i + k)),
            acc < pow10(k as nat),
        decreases n - j,
    {
        let c = t.get_char(j);
        if k < 6 {
            let old_sub = Ghost(t@.subrange(i as int, i + k));
            assert(t@.subrange(i as int, i + k + 1) =~= old_sub@.push(c));
            proof {
                lemma_dec_push(old_sub@, c);
            }
            acc = acc * 10 + (c as u64 - 48);
            k = k + 1;
        }
        j = j + 1;
    }
    let ghost f = t@.subrange(i as int, j as int);
    let mut out: u64 = acc;
    let mut m: u64 = k;
    let ghost zeros = Seq::new((6 - k) as nat, |q: int| '0');
    while m < 6
        invariant
            k <= m <= 6,
            n == t@.len(),
            i + k <= n,
            pow10(0) == 1 && pow10(1) == 10 && pow10(2) == 100 && pow10(3) == 1000,
            pow10(4) == 10000 && pow10(5) == 100000 && pow10(6) == 1000000,
            out == dec_value(t@.subrange(i as int, i + k) + Seq::new((m - k) as nat, |q: int| '0')),
            out < pow10(m as nat),
        decreases 6 - m,
    {
        let ghost before = t@.subrange(i as int, i + k) + Seq::new((m - k) as nat, |q: int| '0');
        proof {
            lemma_dec_push(before, '0');
            assert(before.push('0') =~= t@.subrange(i as int, i + k) + Seq::new(
                (m + 1 - k) as nat,
                |q: int| '0',
            ));
        }
        out = out * 10;
        m = m + 1;
    }
    proof {
        if f.len() >= 6 {
            assert(f.take(6) =~= t@.subrange(i as int, i + k));
            assert(t@.subrange(i as int, i + k) + Seq::new(0, |q: int| '0') =~= t@.subrange(
                i as int,
                i + k,
            ));
        } else {
            assert(t@.subrange(i as int, i + k) =~= f);
        }
    }
    (out, j)
}

pub open spec fn pow10(k: nat) -> nat
    decreases k,
{
    if k == 0 { 1 } else { 10 * pow10((k - 1) as nat) }
}

/// The powers of ten up to a million.
pub proof fn lemma_pow10_small()
    ensures
        pow10(0) == 1,
        pow10(1) == 10,
        pow10(2) == 100,
        pow10(3) == 1000,
        pow10(4) == 10000,
        pow10(5) == 100000,
        pow10(6) == 1000000,
{
    assert(pow10(0) == 1);
    assert(pow10(1) == 10);
    assert(pow10(2) == 100);
    assert(pow10(3) == 1000);
    assert(pow10(4) == 10000);
    assert(pow10(5) == 100000);
    assert(pow10(6) == 1000000);
}

/// A number read from a text: its value in millionths (rounded to the
/// nearest), its sign, its integer part (exact up to a million), and
/// where its integer and fraction digits stand.
struct Decimal {
    micro: i64,
    neg: bool,
    whole: u64,
    fraction: u64,
    whole_start: usize,
    whole_end: usize,
    frac_start: usize,
    frac_end: usize,
}

/// The number as written.
spec fn text_of(t: Seq<char>, d: Decimal) -> NumberText {
    (d.neg, t.subrange(d.whole_start as int, d.whole_end as int), t.subrange(d.frac_start as int, d.frac_end as int))
}

/// The digits stand where `d` says, and its values match them.
spec fn decimal_ok(t: Seq<char>, d: Decimal) -> bool {
    let w = dec_value(t.subrange(d.whole_start as int, d.whole_end as int));
    &&& d.whole_start <= d.whole_end <= t.len()
    &&& d.frac_start <= d.frac_end <= t.len()
    &&& forall|j: int| d.frac_start <= j < d.frac_end ==> is_digit(#[trigger] t[j])
    &&& w <= 1000000 ==> d.whole == w
    &&& w > 1000000 ==> d.whole > 1000000
    &&& d.whole <= 10000009
    &&& d.fraction <= 1000000
    &&& d.micro == (if d.neg { -(d.whole * 1000000 + d.fraction) } else { d.whole * 1000000 + d.fraction })
}

/// Every character of a run of digits is a digit.
proof fn lemma_digit_run(t: Seq<char>, i: int)
    requires
        0 <= i,
    ensures
        i <= digit_run(t, i),
        digit_run(t, i) <= t.len() || digit_run(t, i) == i,
        forall|j: int| i <= j < digit_run(t, i) ==> is_digit(#[trigger] t[j]),
    decreases t.len() - i,
{
    if 0 <= i < t.len() && is_digit(t[i]) {
        lemma_digit_run(t, i + 1);
    }
}

/// Scans a number at `i`, as `scan_number` and `number_parts` read it.
fn scan_exec_number(t: &str, n: usize, i: usize) -> (r: Option<(Decimal, usize)>)
    requires
        n == t@.len(),
        i <= n,
    ensures
        match (scan_number(t@, i as int), number_parts(t@, i as int)) {
            (Some((v, e)), Some((x, e2))) => r matches Some((d, f)) && f == e && e2 == e && f <= n && near(d.micro as int, v)
                && decimal_ok(t@, d) && text_of(t@, d) == x,
            (None, None) => r is None,
            _ => false,
        },
{
    let neg = i < n && t.get_char(i) == '-';
    let s: usize = if neg { i + 1 } else { i };
    let (whole, p) = scan_digits(t, n, s);
    proof {
        lemma_digit_run(t@, s as int);
    }
    if p == s {
        return None;
    }
    let dot = p < n && t.get_char(p) == '.';
    let (six, end) = if dot {
        scan_fraction(t, n, p + 1)
    } else {
        (0u64, p)
    };
    proof {
        if dot {
            lemma_digit_run(t@, p + 1);
        }
    }
    let up = dot && end - (p + 1) > 6 && t.get_char(p + 7) >= '5';
    assert(dot ==> t@.subrange(p + 1, end as int).len() == end - (p + 1));
    assert(dot && end - (p + 1) > 6 ==> t@.subrange(p + 1, end as int)[6] == t@[p + 7]);
    let frac: u64 = if up { six + 1 } else { six };
    let mag: i64 = (whole * 1000000 + frac) as i64;
    let v: i64 = if neg { -mag } else { mag };
    proof {
        let exact_whole = dec_value(t@.subrange(s as int, p as int));
        if exact_whole > 1000000 {
            assert(exact_whole * 1000000 > BIG) by (nonlinear_arith)
                requires exact_whole > 1000000;
            assert(whole * 1000000 > BIG) by (nonlinear_arith)
                requires whole > 1000000;
        }
        assert(whole * 1000000 <= 10000009 * 1000000) by (nonlinear_arith)
            requires whole <= 10000009;
    }
    let d = Decimal {
        micro: v,
        neg,
        whole,
        fraction: frac,
        whole_start: s,
        whole_end: p,
        frac_start: if dot { p + 1 } else { p },
        frac_end: end,
    };
    assert(!dot ==> t@.subrange(p as int, p as int) =~= Seq::<char>::empty());
    Some((d, end))
}

/// Scans a number at `i` and the `|` after it.
fn scan_exec_field(t: &str, n: usize, i: usize) -> (r: Option<(Decimal, usize)>)
    requires
        n == t@.len(),
        i <= n,
    ensures
        match (scan_field(t@, i as int), field_parts(t@, i as int)) {
            (Some((v, e)), Some((x, e2))) => r matches Some((d, f)) && f == e && e2 == e && f <= n && near(d.micro as int, v)
                && decimal_ok(t@, d) && text_of(t@, d) == x,
            (None, None) => r is None,
            _ => false,
        },
{
    match scan_exec_number(t, n, i) {
        Some((d, e)) => {
            if e < n && t.get_char(e) == '|' {
                Some((d, e + 1))
            } else {
                None
            }
        },
        None => None,
    }
}

/// Whether the digits in `[from, to)` are all zeros.
fn all_zero(t: &str, from: usize, to: usize) -> (r: bool)
    requires
        from <= to <= t@.len(),
        forall|j: int| from <= j < to ==> is_digit(#[trigger] t@[j]),
    ensures
        r == (dec_value(t@.subrange(from as int, to as int)) == 0),
{
    let ghost f = t@.subrange(from as int, to as int);
    proof {
        crate::decimal::lemma_dec_zero(f);
    }
    let mut k: usize = from;
    while k < to
        invariant
            from <= k <= to <= t@.len(),
            f == t@.subrange(from as int, to as int),
            forall|j: int| from <= j < to ==> is_digit(#[trigger] t@[j]),
            forall|j: int| from <= j < k ==> digit_value(#[trigger] t@[j]) == 0,
            (dec_value(f) == 0) <==> (forall|j: int| 0 <= j < f.len() ==> digit_value(#[trigger] f[j]) == 0),
        decreases to - k,
    {
        if t.get_char(k) != '0' {
            assert(digit_value(f[k - from]) != 0);
            return false;
        }
        k = k + 1;
    }
    assert forall|j: int| 0 <= j < f.len() implies digit_value(#[trigger] f[j]) == 0 by {
        assert(f[j] == t@[j + from]);
    }
    true
}

/// Whether the number lies in `[-m, m]`, exactly.
fn within_exec(t: &str, d: &Decimal, m: u64) -> (r: bool)
    requires
        decimal_ok(t@, *d),
        m <= 1000,
    ensures
        r == within(text_of(t@, *d), m as int),
        r ==> d.whole <= m,
{
    let ghost x = text_of(t@, *d);
    let ghost f = x.2;
    let ghost k = f.len();
    let ghost w = dec_value(x.1);
    let ghost p = pow10(k);
    proof {
        crate::decimal::lemma_padded(f, k);
        assert(padded(f, k) =~= f);
        crate::decimal::lemma_dec_bound(f);
        crate::decimal::lemma_pow10_pos(k);
        assert(magnitude(x, k) == w * p + dec_value(f));
        assert((-(m as int)) * p == -(m * p)) by (nonlinear_arith);
    }
    if d.whole > m {
        proof {
            assert(w >= m + 1);
            assert(w * p + dec_value(f) > m * p) by (nonlinear_arith)
                requires w >= m + 1, p > 0, dec_value(f) >= 0;
        }
        false
    } else if d.whole < m {
        proof {
            assert(w + 1 <= m);
            assert(w * p + dec_value(f) < m * p) by (nonlinear_arith)
                requires w + 1 <= m, dec_value(f) < p;
            assert(w * p + dec_value(f) >= 0) by (nonlinear_arith)
                requires w >= 0, p > 0, dec_value(f) >= 0;
        }
        true
    } else {
        let z = all_zero(t, d.frac_start, d.frac_end);
        proof {
            assert(w == m);
            assert(w * p + dec_value(f) >= 0) by (nonlinear_arith)
                requires w >= 0, p > 0, dec_value(f) >= 0;
        }
        z
    }
}

/// The digit at place `k` of the fraction in `[from, to)`, padded with zeros.
fn padded_digit_exec(t: &str, from: usize, to: usize, k: usize) -> (r: u64)
    requires
        from <= to <= t@.len(),
        forall|j: int| from <= j < to ==> is_digit(#[trigger] t@[j]),
    ensures
        r == padded_digit(t@.subrange(from as int, to as int), k as int),
{
    if k < to - from {
        let c = t.get_char(from + k);
        assert(t@.subrange(from as int, to as int)[k as int] == c);
        (c as u32 - 48) as u64
    } else {
        0
    }
}

/// Compares two fractions, both padded to `n` places: -1, 0 or 1.
fn compare_fractions(t: &str, a: &Decimal, b: &Decimal, n: usize) -> (r: i8)
    requires
        decimal_ok(t@, *a),
        decimal_ok(t@, *b),
        text_of(t@, *a).2.len() <= n,
        text_of(t@, *b).2.len() <= n,
    ensures
        r == -1 <==> dec_value(padded(text_of(t@, *a).2, n as nat)) < dec_value(padded(text_of(t@, *b).2, n as nat)),
        r == 0 <==> dec_value(padded(text_of(t@, *a).2, n as nat)) == dec_value(padded(text_of(t@, *b).2, n as nat)),
        r == 1 <==> dec_value(padded(text_of(t@, *a).2, n as nat)) > dec_value(padded(text_of(t@, *b).2, n as nat)),
{
    let ghost fa = text_of(t@, *a).2;
    let ghost fb = text_of(t@, *b).2;
    let ghost pa = padded(fa, n as nat);
    let ghost pb = padded(fb, n as nat);
    proof {
        crate::decimal::lemma_padded(fa, n as nat);
        crate::decimal::lemma_padded(fb, n as nat);
    }
    let mut k: usize = 0;
    while k < n
        invariant
            0 <= k <= n,
            pa.len() == n && pb.len() == n,
            decimal_ok(t@, *a),
            decimal_ok(t@, *b),
            fa == text_of(t@, *a).2,
            fb == text_of(t@, *b).2,
            pa == padded(fa, n as nat),
            pb == padded(fb, n as nat),
            forall|j: int| 0 <= j < n ==> digit_value(#[trigger] pa[j]) == padded_digit(fa, j),
            forall|j: int| 0 <= j < n ==> digit_value(#[trigger] pb[j]) == padded_digit(fb, j),
            forall|j: int| 0 <= j < k ==> digit_value(#[trigger] pa[j]) == digit_value(pb[j]),
        decreases n - k,
    {
        let x = padded_digit_exec(t, a.frac_start, a.frac_end, k);
        let y = padded_digit_exec(t, b.frac_start, b.frac_end, k);
        if x < y {
            proof {
                crate::decimal::lemma_dec_first_difference(pa, pb, k as int);
            }
            return -1;
        }
        if x > y {
            proof {
                assert forall|j: int| 0 <= j < k implies digit_value(#[trigger] pb[j]) == digit_value(pa[j]) by {}
                crate::decimal::lemma_dec_first_difference(pb, pa, k as int);
            }
            return 1;
        }
        k = k + 1;
    }
    proof {
        crate::decimal::lemma_dec_same(pa, pb);
    }
    0
}

/// Whether the first number is at most the second, exactly; both lie in
/// `[-90, 90]`.
#[verifier::rlimit(40)]
fn at_most_exec(t: &str, a: &Decimal, b: &Decimal) -> (r: bool)
    requires
        decimal_ok(t@, *a),
        decimal_ok(t@, *b),
        within(text_of(t@, *a), 90),
        within(text_of(t@, *b), 90),
        a.whole <= 90,
        b.whole <= 90,
    ensures
        r == at_most(text_of(t@, *a), text_of(t@, *b)),
{
    let ghost xa = text_of(t@, *a);
    let ghost xb = text_of(t@, *b);
    let na = a.frac_end - a.frac_start;
    let nb = b.frac_end - b.frac_start;
    let n: usize = if na >= nb { na } else { nb };
    let ghost p = pow10(n as nat);
    let ghost da = dec_value(padded(xa.2, n as nat));
    let ghost db = dec_value(padded(xb.2, n as nat));
    proof {
        crate::decimal::lemma_padded(xa.2, n as nat);
        crate::decimal::lemma_padded(xb.2, n as nat);
        crate::decimal::lemma_dec_bound(padded(xa.2, n as nat));
        crate::decimal::lemma_dec_bound(padded(xb.2, n as nat));
        crate::decimal::lemma_pow10_pos(n as nat);
        crate::decimal::lemma_pow10_pos((n - na) as nat);
        crate::decimal::lemma_pow10_pos((n - nb) as nat);
        assert(dec_value(xa.1) == a.whole && dec_value(xb.1) == b.whole);
        assert(magnitude(xa, n as nat) == a.whole * p + da);
        assert(magnitude(xb, n as nat) == b.whole * p + db);
        assert(a.whole * p + da >= 0 && b.whole * p + db >= 0) by (nonlinear_arith)
            requires p > 0, da >= 0, db >= 0;
    }
    // compare the absolute values
    let c: i8 = if a.whole < b.whole {
        proof {
            assert(a.whole * p + da < b.whole * p + db) by (nonlinear_arith)
                requires a.whole + 1 <= b.whole, da < p, db >= 0;
        }
        -1
    } else if a.whole > b.whole {
        proof {
            assert(a.whole * p + da > b.whole * p + db) by (nonlinear_arith)
                requires b.whole + 1 <= a.whole, db < p, da >= 0;
        }
        1
    } else {
        compare_fractions(t, a, b, n)
    };
    // whether each is zero
    let za = a.whole == 0 && all_zero(t, a.frac_start, a.frac_end);
    let zb = b.whole == 0 && all_zero(t, b.frac_start, b.frac_end);
    proof {
        let qa = pow10((n - na) as nat);
        let qb = pow10((n - nb) as nat);
        assert(da == dec_value(xa.2) * qa);
        assert(db == dec_value(xb.2) * qb);
        assert((da == 0) <==> (dec_value(xa.2) == 0)) by (nonlinear_arith)
            requires da == dec_value(xa.2) * qa, qa > 0, dec_value(xa.2) >= 0;
        assert((db == 0) <==> (dec_value(xb.2) == 0)) by (nonlinear_arith)
            requires db == dec_value(xb.2) * qb, qb > 0, dec_value(xb.2) >= 0;
        assert((a.whole * p + da == 0) <==> (a.whole == 0 && da == 0)) by (nonlinear_arith)
            requires p > 0, da >= 0, a.whole >= 0;
        assert((b.whole * p + db == 0) <==> (b.whole == 0 && db == 0)) by (nonlinear_arith)
            requires p > 0, db >= 0, b.whole >= 0;
    }
    if !a.neg && !b.neg {
        c <= 0
    } else if a.neg && b.neg {
        c >= 0
    } else if a.neg {
        true
    } else {
        za && zb
    }
}

} // verus!
