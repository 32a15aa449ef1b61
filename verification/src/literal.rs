//! Decimal literals, kept as the digits that were written.
use vstd::prelude::*;
use vstd::string::*;
use crate::grammar::digits_value;

verus! {

/// A decimal literal `whole.fraction`, held as its two digit strings.
#[derive(Debug)]
pub struct Decimal {
    pub whole: String,
    pub fraction: String,
}

/// The model of a decimal literal: its two digit sequences.
pub struct SpecDecimal {
    pub whole: Seq<char>,
    pub fraction: Seq<char>,
}

impl View for Decimal {
    type V = SpecDecimal;

    open spec fn view(&self) -> SpecDecimal {
        SpecDecimal { whole: self.whole@, fraction: self.fraction@ }
    }
}

impl Decimal {
    pub fn new(whole: &str, fraction: &str) -> (r: Decimal)
        ensures
            r.whole@ == whole@,
            r.fraction@ == fraction@,
    {
        Decimal { whole: whole.to_owned(), fraction: fraction.to_owned() }
    }

    pub fn copy(&self) -> (r: Decimal)
        ensures
            r@ == self@,
    {
        Decimal { whole: self.whole.clone(), fraction: self.fraction.clone() }
    }
}

impl Clone for Decimal {
    fn clone(&self) -> (r: Decimal)
        ensures
            r@ == self@,
    {
        self.copy()
    }
}


/// The digits without the zeros that lead them.
pub open spec fn trim_lead(s: Seq<char>) -> Seq<char>
    decreases s.len(),
{
    if s.len() > 0 && s[0] == '0' {
        trim_lead(s.drop_first())
    } else {
        s
    }
}

/// The digits without the zeros that trail them.
pub open spec fn trim_trail(s: Seq<char>) -> Seq<char>
    decreases s.len(),
{
    if s.len() > 0 && s.last() == '0' {
        trim_trail(s.drop_last())
    } else {
        s
    }
}

/// Whether two decimal literals denote the same number: the whole parts agree
/// but for leading zeros, the fractions but for trailing zeros.
pub open spec fn same_number(a: SpecDecimal, b: SpecDecimal) -> bool {
    trim_lead(a.whole) == trim_lead(b.whole) && trim_trail(a.fraction) == trim_trail(b.fraction)
}

proof fn lemma_trim_lead(s: Seq<char>, k: int)
    requires
        0 <= k <= s.len(),
        forall|i: int| 0 <= i < k ==> s[i] == '0',
        k == s.len() || s[k] != '0',
    ensures
        trim_lead(s) == s.subrange(k, s.len() as int),
    decreases k,
{
    if k == 0 {
        assert(s.subrange(0, s.len() as int) =~= s);
    } else {
        let t = s.drop_first();
        assert forall|i: int| 0 <= i < k - 1 implies t[i] == '0' by {
            assert(t[i] == s[i + 1]);
        }
        if k - 1 < t.len() {
            assert(t[k - 1] == s[k]);
        }
        lemma_trim_lead(t, k - 1);
        assert(t.subrange(k - 1, t.len() as int) =~= s.subrange(k, s.len() as int));
    }
}

proof fn lemma_trim_trail(s: Seq<char>, k: int)
    requires
        0 <= k <= s.len(),
        forall|i: int| k <= i < s.len() ==> s[i] == '0',
        k == 0 || s[k - 1] != '0',
    ensures
        trim_trail(s) == s.subrange(0, k),
    decreases s.len() - k,
{
    if k == s.len() {
        assert(s.subrange(0, k) =~= s);
    } else {
        let t = s.drop_last();
        lemma_trim_trail(t, k);
        assert(t.subrange(0, k) =~= s.subrange(0, k));
    }
}

/// Whether the characters of `a` from `i` up to `j` are those of `b` from `k` up to `l`.
fn same_chars(a: &str, i: usize, j: usize, b: &str, k: usize, l: usize) -> (r: bool)
    requires
        i <= j <= a@.len(),
        k <= l <= b@.len(),
    ensures
        r == (a@.subrange(i as int, j as int) == b@.subrange(k as int, l as int)),
{
    if j - i != l - k {
        proof {
            if a@.subrange(i as int, j as int) == b@.subrange(k as int, l as int) {
                assert(a@.subrange(i as int, j as int).len() == b@.subrange(k as int, l as int).len());
            }
        }
        return false;
    }
    let mut m: usize = 0;
    while m < j - i
        invariant
            i <= j <= a@.len(),
            k <= l <= b@.len(),
            j - i == l - k,
            m <= j - i,
            forall|n: int| 0 <= n < m ==> a@.subrange(i as int, j as int)[n] == #[trigger] b@.subrange(k as int, l as int)[n],
        decreases j - i - m,
    {
        if a.get_char(i + m) != b.get_char(k + m) {
            proof {
                if a@.subrange(i as int, j as int) == b@.subrange(k as int, l as int) {
                    assert(a@.subrange(i as int, j as int)[m as int] == b@.subrange(k as int, l as int)[m as int]);
                }
            }
            return false;
        }
        m = m + 1;
    }
    assert(a@.subrange(i as int, j as int) =~= b@.subrange(k as int, l as int));
    true
}

/// Where the leading zeros of `s` end.
fn lead_end(s: &str) -> (r: usize)
    ensures
        r <= s@.len(),
        trim_lead(s@) == s@.subrange(r as int, s@.len() as int),
{
    let n = s.unicode_len();
    let mut k: usize = 0;
    while k < n && s.get_char(k) == '0'
        invariant
            k <= n,
            n == s@.len(),
            forall|i: int| 0 <= i < k ==> s@[i] == '0',
        decreases n - k,
    {
        k = k + 1;
    }
    proof {
        lemma_trim_lead(s@, k as int);
    }
    k
}

/// Where the trailing zeros of `s` begin.
fn trail_start(s: &str) -> (r: usize)
    ensures
        r <= s@.len(),
        trim_trail(s@) == s@.subrange(0, r as int),
{
    let n = s.unicode_len();
    let mut k: usize = n;
    while k > 0 && s.get_char(k - 1) == '0'
        invariant
            k <= n,
            n == s@.len(),
            forall|i: int| k <= i < n ==> s@[i] == '0',
        decreases k,
    {
        k = k - 1;
    }
    proof {
        lemma_trim_trail(s@, k as int);
    }
    k
}

impl Decimal {
    /// Whether the two literals denote the same number (see [`same_number`]).
    pub fn same_number(&self, other: &Decimal) -> (r: bool)
        ensures
            r == same_number(self@, other@),
    {
        let a = self.whole.as_str();
        let b = other.whole.as_str();
        let c = self.fraction.as_str();
        let d = other.fraction.as_str();
        let ia = lead_end(a);
        let ib = lead_end(b);
        let jc = trail_start(c);
        let jd = trail_start(d);
        same_chars(a, ia, a.unicode_len(), b, ib, b.unicode_len()) && same_chars(c, 0, jc, d, 0, jd)
    }
}


/// Law: denoting the same number is an equivalence between decimal literals.
pub proof fn lemma_same_number_equivalence(a: SpecDecimal, b: SpecDecimal, c: SpecDecimal)
    ensures
        same_number(a, a),
        same_number(a, b) ==> same_number(b, a),
        same_number(a, b) && same_number(b, c) ==> same_number(a, c),
{
}


/// Ten to the power `n`.
pub open spec fn pow10(n: nat) -> nat
    decreases n,
{
    if n == 0 {
        1
    } else {
        10 * pow10((n - 1) as nat)
    }
}

proof fn lemma_pow10_add(a: nat, b: nat)
    ensures
        pow10(a) * pow10(b) == pow10(a + b),
    decreases a,
{
    if a > 0 {
        lemma_pow10_add((a - 1) as nat, b);
        assert(pow10(a) == 10 * pow10((a - 1) as nat));
        assert(pow10(a) * pow10(b) == 10 * (pow10((a - 1) as nat) * pow10(b))) by (nonlinear_arith)
            requires
                pow10(a) == 10 * pow10((a - 1) as nat),
        ;
        assert(pow10(a + b) == 10 * pow10((a + b - 1) as nat));
        assert((a - 1) as nat + b == (a + b - 1) as nat);
    } else {
        assert(pow10(0) == 1);
        assert(pow10(0) * pow10(b) == pow10(b)) by (nonlinear_arith)
            requires
                pow10(0) == 1,
        ;
    }
}

/// A leading zero does not change the number that digits denote.
proof fn lemma_digits_value_lead_zero(t: Seq<char>)
    ensures
        digits_value(seq!['0'] + t) == digits_value(t),
    decreases t.len(),
{
    let z = seq!['0'] + t;
    assert(z.len() > 0);
    if t.len() == 0 {
        assert(z.drop_last() =~= Seq::<char>::empty());
        assert(z.last() == '0');
        assert(digits_value(z) == digits_value(z.drop_last()) * 10 + (z.last() as int - '0' as int));
        assert(digits_value(Seq::<char>::empty()) == 0);
    } else {
        lemma_digits_value_lead_zero(t.drop_last());
        assert(z.drop_last() =~= seq!['0'] + t.drop_last());
        assert(z.last() == t.last());
        assert(digits_value(z) == digits_value(z.drop_last()) * 10 + (z.last() as int - '0' as int));
        assert(digits_value(t) == digits_value(t.drop_last()) * 10 + (t.last() as int - '0' as int));
    }
}

/// Leading zeros do not change the number that digits denote.
proof fn lemma_digits_value_trim_lead(s: Seq<char>)
    ensures
        digits_value(trim_lead(s)) == digits_value(s),
    decreases s.len(),
{
    if s.len() > 0 && s[0] == '0' {
        lemma_digits_value_trim_lead(s.drop_first());
        assert(seq!['0'] + s.drop_first() =~= s);
        lemma_digits_value_lead_zero(s.drop_first());
    }
}

/// Trailing zeros multiply the number that digits denote by ten each.
proof fn lemma_digits_value_trim_trail(s: Seq<char>)
    ensures
        trim_trail(s).len() <= s.len(),
        digits_value(s) == digits_value(trim_trail(s)) * pow10((s.len() - trim_trail(s).len()) as nat),
    decreases s.len(),
{
    if s.len() > 0 && s.last() == '0' {
        let t = s.drop_last();
        lemma_digits_value_trim_trail(t);
        assert(trim_trail(s) == trim_trail(t));
        let k = (t.len() - trim_trail(t).len()) as nat;
        assert(pow10(k + 1) == 10 * pow10(k));
        assert((s.len() - trim_trail(s).len()) as nat == k + 1);
        assert(digits_value(s) == digits_value(t) * 10);
        let v = digits_value(trim_trail(t));
        assert(v * pow10(k) * 10 == v * pow10(k + 1)) by (nonlinear_arith)
            requires
                pow10(k + 1) == 10 * pow10(k),
        ;
    } else {
        assert(pow10(0) == 1);
        assert((s.len() - trim_trail(s).len()) as nat == 0);
        assert(digits_value(s) * pow10(0) == digits_value(s)) by (nonlinear_arith)
            requires
                pow10(0) == 1,
        ;
    }
}

/// Law: literals that denote the same number have whole parts of the same
/// value and fractions of the same value (`f` over `10^len(f)`), so that
/// `1.5` and `01.50` are the same number and `1.5` and `1.05` are not.
pub proof fn lemma_same_number_values(a: SpecDecimal, b: SpecDecimal)
    requires
        same_number(a, b),
    ensures
        digits_value(a.whole) == digits_value(b.whole),
        digits_value(a.fraction) * pow10(b.fraction.len()) == digits_value(b.fraction) * pow10(a.fraction.len()),
{
    lemma_digits_value_trim_lead(a.whole);
    lemma_digits_value_trim_lead(b.whole);
    lemma_digits_value_trim_trail(a.fraction);
    lemma_digits_value_trim_trail(b.fraction);
    let t = trim_trail(a.fraction);
    let v = digits_value(t);
    let p = (a.fraction.len() - t.len()) as nat;
    let q = (b.fraction.len() - t.len()) as nat;
    lemma_pow10_add(p, b.fraction.len());
    lemma_pow10_add(q, a.fraction.len());
    assert(p + b.fraction.len() == q + a.fraction.len());
    assert(v * pow10(p) * pow10(b.fraction.len()) == v * (pow10(p) * pow10(b.fraction.len()))) by (nonlinear_arith);
    assert(v * pow10(q) * pow10(a.fraction.len()) == v * (pow10(q) * pow10(a.fraction.len()))) by (nonlinear_arith);
}

/// Law: a leading zero before the whole part and a trailing zero after the
/// fraction do not change the number that a literal denotes.
pub proof fn lemma_same_number_padding(a: SpecDecimal)
    ensures
        same_number(a, SpecDecimal { whole: seq!['0'] + a.whole, fraction: a.fraction + seq!['0'] }),
{
    let w = seq!['0'] + a.whole;
    let f = a.fraction + seq!['0'];
    assert(w[0] == '0');
    assert(w.drop_first() =~= a.whole);
    assert(f.last() == '0');
    assert(f.drop_last() =~= a.fraction);
}

} // verus!
