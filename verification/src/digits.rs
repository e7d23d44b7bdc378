//! Digit-sequence model: the mathematical value of a big-endian sequence of
//! decimal digits, and the exec primitives (add, subtract, compare) that the
//! arithmetic kernels build on.

use vstd::prelude::*;

verus! {

/// `10^e`.
pub open spec fn pow10(e: nat) -> nat
    decreases e,
{
    if e == 0 {
        1
    } else {
        10 * pow10((e - 1) as nat)
    }
}

/// Every element of `m` is a decimal digit value (0..=9).
pub open spec fn all_digits(m: Seq<u8>) -> bool {
    forall|i: int| 0 <= i < m.len() ==> m[i] <= 9
}

/// The natural number written by `m`, most significant digit first.
pub open spec fn mant_val(m: Seq<u8>) -> nat
    decreases m.len(),
{
    if m.len() == 0 {
        0
    } else {
        (m[0] as nat) * pow10((m.len() - 1) as nat) + mant_val(m.subrange(1, m.len() as int))
    }
}

/// The natural number written by `m`, least significant digit first.
pub open spec fn lval(m: Seq<u8>) -> nat
    decreases m.len(),
{
    if m.len() == 0 {
        0
    } else {
        (m[0] as nat) + 10 * lval(m.subrange(1, m.len() as int))
    }
}

/// `m` reversed.
pub open spec fn seq_rev(m: Seq<u8>) -> Seq<u8> {
    Seq::new(m.len(), |i: int| m[m.len() - 1 - i])
}

pub proof fn lemma_pow10_pos(e: nat)
    ensures
        pow10(e) >= 1,
    decreases e,
{
    if e > 0 {
        lemma_pow10_pos((e - 1) as nat);
    }
}

pub proof fn lemma_pow10_adds(a: nat, b: nat)
    ensures
        pow10(a + b) == pow10(a) * pow10(b),
    decreases a,
{
    if a == 0 {
        assert(pow10(0) == 1);
        assert(a + b == b);
        assert(pow10(a) * pow10(b) == pow10(b)) by (nonlinear_arith)
            requires pow10(a) == 1;
    } else {
        lemma_pow10_adds((a - 1) as nat, b);
        assert(pow10((a - 1) as nat + b) == pow10((a - 1) as nat) * pow10(b));
        assert((a - 1) as nat + b == (a + b - 1) as nat);
        assert(pow10(a) == 10 * pow10((a - 1) as nat));
        assert(pow10(a + b) == 10 * pow10((a + b - 1) as nat));
        assert(10 * (pow10((a - 1) as nat) * pow10(b)) == (10 * pow10((a - 1) as nat)) * pow10(b))
            by (nonlinear_arith);
    }
}

pub proof fn lemma_pow10_increases(a: nat, b: nat)
    requires
        a <= b,
    ensures
        pow10(a) <= pow10(b),
    decreases b,
{
    if a < b {
        lemma_pow10_increases(a, (b - 1) as nat);
        lemma_pow10_pos((b - 1) as nat);
    }
}

/// Concatenation: the head digits are scaled by `10^|y|`.
pub proof fn lemma_mant_val_concat(x: Seq<u8>, y: Seq<u8>)
    ensures
        mant_val(x + y) == mant_val(x) * pow10(y.len()) + mant_val(y),
    decreases x.len(),
{
    if x.len() == 0 {
        assert(x + y =~= y);
        assert(mant_val(x) == 0);
        assert(mant_val(x) * pow10(y.len()) == 0) by (nonlinear_arith)
            requires mant_val(x) == 0;
    } else {
        let t = x + y;
        let xr = x.subrange(1, x.len() as int);
        assert(t.subrange(1, t.len() as int) =~= xr + y);
        lemma_mant_val_concat(xr, y);
        lemma_pow10_adds((x.len() - 1) as nat, y.len());
        assert(t[0] == x[0]);
        assert(mant_val(t) == (t[0] as nat) * pow10((t.len() - 1) as nat) + mant_val(
            t.subrange(1, t.len() as int),
        ));
        assert(pow10((t.len() - 1) as nat) == pow10((x.len() - 1) as nat) * pow10(y.len()));
        assert(mant_val(x) == (x[0] as nat) * pow10((x.len() - 1) as nat) + mant_val(xr));
        assert((x[0] as nat) * (pow10((x.len() - 1) as nat) * pow10(y.len())) + mant_val(xr)
            * pow10(y.len()) == ((x[0] as nat) * pow10((x.len() - 1) as nat) + mant_val(xr))
            * pow10(y.len())) by (nonlinear_arith);
        assert(mant_val(t.subrange(1, t.len() as int)) == mant_val(xr) * pow10(y.len())
            + mant_val(y));
        assert((x[0] as nat) * pow10((t.len() - 1) as nat) == (x[0] as nat) * (pow10(
            (x.len() - 1) as nat,
        ) * pow10(y.len())));
        assert(mant_val(t) == ((x[0] as nat) * pow10((x.len() - 1) as nat) + mant_val(xr)) * pow10(
            y.len(),
        ) + mant_val(y));
        assert(mant_val(x + y) == mant_val(x) * pow10(y.len()) + mant_val(y));
    }
}

/// Appending one digit multiplies the value by ten and adds the digit.
pub proof fn lemma_mant_val_push(m: Seq<u8>, d: u8)
    ensures
        mant_val(m.push(d)) == 10 * mant_val(m) + d,
{
    let y = seq![d];
    assert(m.push(d) =~= m + y);
    assert(y.subrange(1, 1) =~= Seq::<u8>::empty());
    assert(mant_val(Seq::<u8>::empty()) == 0);
    assert(pow10(0) == 1);
    assert(pow10(1) == 10);
    assert(mant_val(y) == (d as nat) * 1 + 0);
    lemma_mant_val_concat(m, y);
}

/// A digit sequence of length `n` denotes a value below `10^n`.
pub proof fn lemma_mant_val_bound(m: Seq<u8>)
    requires
        all_digits(m),
    ensures
        mant_val(m) < pow10(m.len()),
    decreases m.len(),
{
    if m.len() == 0 {
    } else {
        lemma_mant_val_bound(m.subrange(1, m.len() as int));
        assert((m[0] as nat) * pow10((m.len() - 1) as nat) <= 9 * pow10((m.len() - 1) as nat))
            by (nonlinear_arith)
            requires m[0] <= 9;
    }
}

/// A sequence with a non-zero leading digit denotes at least `10^(n-1)`.
pub proof fn lemma_mant_val_first(m: Seq<u8>)
    requires
        m.len() > 0,
        m[0] >= 1,
    ensures
        mant_val(m) >= pow10((m.len() - 1) as nat),
{
    assert((m[0] as nat) * pow10((m.len() - 1) as nat) >= pow10((m.len() - 1) as nat))
        by (nonlinear_arith)
        requires m[0] >= 1;
}

/// A digit sequence denotes zero exactly when all its digits are zero.
pub proof fn lemma_mant_val_zero(m: Seq<u8>)
    ensures
        mant_val(m) == 0 <==> (forall|i: int| 0 <= i < m.len() ==> m[i] == 0),
    decreases m.len(),
{
    if m.len() > 0 {
        let rest = m.subrange(1, m.len() as int);
        lemma_mant_val_zero(rest);
        lemma_pow10_pos((m.len() - 1) as nat);
        if m[0] == 0 && mant_val(rest) == 0 {
            assert(forall|i: int| 0 <= i < m.len() ==> m[i] == 0) by {
                assert(forall|i: int| 1 <= i < m.len() ==> m[i] == rest[i - 1]);
            }
        }
        if mant_val(m) == 0 {
            assert((m[0] as nat) * pow10((m.len() - 1) as nat) == 0);
            assert(m[0] == 0) by (nonlinear_arith)
                requires
                    (m[0] as nat) * pow10((m.len() - 1) as nat) == 0,
                    pow10((m.len() - 1) as nat) >= 1,
            ;
        }
    }
}

/// The last digit is the value modulo ten.
pub proof fn lemma_mant_val_last(m: Seq<u8>)
    requires
        m.len() > 0,
        m[m.len() - 1] <= 9,
    ensures
        mant_val(m) % 10 == m[m.len() - 1] as nat,
{
    let head = m.subrange(0, m.len() - 1);
    let d = m[m.len() - 1];
    assert(m =~= head.push(d));
    lemma_mant_val_push(head, d);
    assert((10 * mant_val(head) + d) % 10 == d as nat) by (nonlinear_arith)
        requires d <= 9;
}

/// Equal-length digit sequences with the same value are identical.
pub proof fn lemma_mant_val_injective(a: Seq<u8>, b: Seq<u8>)
    requires
        all_digits(a),
        all_digits(b),
        a.len() == b.len(),
        mant_val(a) == mant_val(b),
    ensures
        a =~= b,
    decreases a.len(),
{
    if a.len() > 0 {
        let ar = a.subrange(1, a.len() as int);
        let br = b.subrange(1, b.len() as int);
        lemma_mant_val_bound(ar);
        lemma_mant_val_bound(br);
        let p = pow10((a.len() - 1) as nat);
        assert(a[0] == b[0]) by (nonlinear_arith)
            requires
                (a[0] as nat) * p + mant_val(ar) == (b[0] as nat) * p + mant_val(br),
                mant_val(ar) < p,
                mant_val(br) < p,
        ;
        lemma_mant_val_injective(ar, br);
        assert(forall|i: int| 1 <= i < a.len() ==> a[i] == ar[i - 1] && b[i] == br[i - 1]);
    }
}

/// Value order on equal-length digit sequences is lexicographic order.
pub proof fn lemma_mant_val_lex(a: Seq<u8>, b: Seq<u8>, i: int)
    requires
        all_digits(a),
        all_digits(b),
        a.len() == b.len(),
        0 <= i < a.len(),
        forall|j: int| 0 <= j < i ==> a[j] == b[j],
        a[i] < b[i],
    ensures
        mant_val(a) < mant_val(b),
    decreases i,
{
    if i == 0 {
        let ar = a.subrange(1, a.len() as int);
        let br = b.subrange(1, b.len() as int);
        lemma_mant_val_bound(ar);
        lemma_mant_val_bound(br);
        let p = pow10((a.len() - 1) as nat);
        assert(mant_val(a) < mant_val(b)) by (nonlinear_arith)
            requires
                mant_val(a) == (a[0] as nat) * p + mant_val(ar),
                mant_val(b) == (b[0] as nat) * p + mant_val(br),
                mant_val(ar) < p,
                (a[0] as nat) < (b[0] as nat),
        ;
    } else {
        let ar = a.subrange(1, a.len() as int);
        let br = b.subrange(1, b.len() as int);
        lemma_mant_val_lex(ar, br, i - 1);
        assert(a[0] == b[0]);
    }
}

/// Little-endian value of the reversal is the big-endian value.
pub proof fn lemma_lval_rev(m: Seq<u8>)
    ensures
        lval(seq_rev(m)) == mant_val(m),
    decreases m.len(),
{
    if m.len() == 0 {
        assert(seq_rev(m) =~= Seq::<u8>::empty());
    } else {
        let r = seq_rev(m);
        let head = m.subrange(0, m.len() - 1);
        let d = m[m.len() - 1];
        assert(r[0] == d);
        assert(r.subrange(1, r.len() as int) =~= seq_rev(head));
        lemma_lval_rev(head);
        assert(m =~= head.push(d));
        lemma_mant_val_push(head, d);
    }
}

/// Reverse a digit vector.
pub fn reverse_digits(v: &Vec<u8>) -> (r: Vec<u8>)
    ensures
        r@ == seq_rev(v@),
{
    let n = v.len();
    let mut r: Vec<u8> = Vec::new();
    let mut i: usize = 0;
    while i < n
        invariant
            i <= n,
            n == v@.len(),
            r@.len() == i,
            forall|j: int| 0 <= j < i ==> r@[j] == v@[n - 1 - j],
        decreases n - i,
    {
        r.push(v[n - 1 - i]);
        i += 1;
    }
    proof {
        assert(r@ =~= seq_rev(v@));
    }
    r
}

/// Add two equal-length digit vectors; the result has one more digit.
pub fn add_aligned(a: &Vec<u8>, b: &Vec<u8>) -> (r: Vec<u8>)
    requires
        a@.len() == b@.len(),
        all_digits(a@),
        all_digits(b@),
    ensures
        r@.len() == a@.len() + 1,
        all_digits(r@),
        mant_val(r@) == mant_val(a@) + mant_val(b@),
{
    let n = a.len();
    let mut rev: Vec<u8> = Vec::new();
    let mut carry: u8 = 0;
    let mut k: usize = 0;
    while k < n
        invariant
            k <= n,
            n == a@.len() == b@.len(),
            all_digits(a@),
            all_digits(b@),
            carry <= 1,
            rev@.len() == k,
            all_digits(rev@),
            lval(rev@) + (carry as nat) * pow10(k as nat) == mant_val(
                a@.subrange(n - k, n as int),
            ) + mant_val(b@.subrange(n - k, n as int)),
        decreases n - k,
    {
        let idx = n - 1 - k;
        let s = a[idx] + b[idx] + carry;
        let digit = s % 10;
        let new_carry = s / 10;
        proof {
            let p = pow10(k as nat);
            let ad = a@[idx as int];
            let bd = b@[idx as int];
            let asub = a@.subrange(n - k, n as int);
            let bsub = b@.subrange(n - k, n as int);
            let asub2 = a@.subrange(idx as int, n as int);
            let bsub2 = b@.subrange(idx as int, n as int);
            assert(asub2.subrange(1, asub2.len() as int) =~= asub);
            assert(bsub2.subrange(1, bsub2.len() as int) =~= bsub);
            assert(mant_val(asub2) == (ad as nat) * p + mant_val(asub));
            assert(mant_val(bsub2) == (bd as nat) * p + mant_val(bsub));
            lemma_lval_push(rev@, digit);
            assert(pow10((k + 1) as nat) == 10 * p);
            assert((digit as nat) * p + (new_carry as nat) * (10 * p) == (s as nat) * p)
                by (nonlinear_arith)
                requires s == 10 * new_carry + digit;
            assert((s as nat) * p == (ad as nat) * p + (bd as nat) * p + (carry as nat) * p)
                by (nonlinear_arith)
                requires s == ad + bd + carry;
        }
        rev.push(digit);
        carry = new_carry;
        k += 1;
    }
    proof {
        assert(a@.subrange(0, n as int) =~= a@);
        assert(b@.subrange(0, n as int) =~= b@);
    }
    let ghost prev = rev@;
    rev.push(carry);
    proof {
        lemma_lval_push(prev, carry);
        assert(all_digits(rev@));
    }
    let r = reverse_digits(&rev);
    proof {
        lemma_lval_rev(r@);
        assert(seq_rev(r@) =~= rev@);
    }
    r
}

/// Ten to the fortieth power exceeds every 128-bit magnitude.
pub proof fn lemma_pow10_40()
    ensures
        pow10(40) > 0xffff_ffff_ffff_ffff_ffff_ffff_ffff_ffff,
{
    assert(pow10(0) == 1);
    assert(pow10(1) == 10);
    assert(pow10(2) == 100);
    assert(pow10(3) == 1000);
    assert(pow10(4) == 10000);
    assert(pow10(5) == 100000);
    lemma_pow10_adds(5, 5);
    assert(pow10(10) == 10000000000);
    lemma_pow10_adds(10, 10);
    assert(pow10(20) == 100000000000000000000);
    lemma_pow10_adds(20, 20);
    assert(pow10(40) == 10000000000000000000000000000000000000000);
}

/// A sequence of `n` zero digits.
pub open spec fn zeros(n: nat) -> Seq<u8> {
    Seq::new(n, |i: int| 0u8)
}

pub proof fn lemma_zeros_val(n: nat)
    ensures
        all_digits(zeros(n)),
        mant_val(zeros(n)) == 0,
{
    lemma_mant_val_zero(zeros(n));
}

/// Dropping a leading run of zero digits keeps the value.
pub proof fn lemma_strip_leading_zeros(m: Seq<u8>, i: int)
    requires
        0 <= i <= m.len(),
        forall|j: int| 0 <= j < i ==> m[j] == 0,
    ensures
        mant_val(m.subrange(i, m.len() as int)) == mant_val(m),
{
    let head = m.subrange(0, i);
    let tail = m.subrange(i, m.len() as int);
    assert(m =~= head + tail);
    lemma_mant_val_concat(head, tail);
    lemma_mant_val_zero(head);
}

/// Dropping a trailing run of zero digits divides the value by the matching power of ten.
pub proof fn lemma_strip_trailing_zeros(m: Seq<u8>, j: int)
    requires
        0 <= j <= m.len(),
        forall|k: int| j <= k < m.len() ==> m[k] == 0,
    ensures
        mant_val(m) == mant_val(m.subrange(0, j)) * pow10((m.len() - j) as nat),
{
    let head = m.subrange(0, j);
    let tail = m.subrange(j, m.len() as int);
    assert(m =~= head + tail);
    lemma_mant_val_concat(head, tail);
    lemma_mant_val_zero(tail);
}

/// A sequence whose last digit is non-zero has a non-zero value.
pub proof fn lemma_last_nonzero_val(m: Seq<u8>)
    requires
        m.len() > 0,
        m[m.len() - 1] != 0,
    ensures
        mant_val(m) > 0,
{
    lemma_mant_val_zero(m);
}

/// Digit-count bound from a value bound, for sequences without a leading zero.
pub proof fn lemma_len_from_bound(m: Seq<u8>, k: nat)
    requires
        all_digits(m),
        m.len() > 0 ==> m[0] != 0,
        mant_val(m) < pow10(k),
    ensures
        m.len() <= k,
{
    if m.len() > k {
        lemma_mant_val_first(m);
        lemma_pow10_increases(k, (m.len() - 1) as nat);
    }
}

/// Remove every leading zero digit.
pub fn trim_leading(v: &Vec<u8>) -> (r: Vec<u8>)
    requires
        all_digits(v@),
    ensures
        all_digits(r@),
        r@.len() <= v@.len(),
        mant_val(r@) == mant_val(v@),
        r@.len() > 0 ==> r@[0] != 0,
{
    let len = v.len();
    let mut first: usize = 0;
    while first < len && v[first] == 0
        invariant
            first <= len,
            len == v@.len(),
            forall|j: int| 0 <= j < first ==> v@[j] == 0,
        decreases len - first,
    {
        first += 1;
    }
    let mut r: Vec<u8> = Vec::new();
    let mut i: usize = first;
    while i < len
        invariant
            first <= i <= len,
            len == v@.len(),
            r@ == v@.subrange(first as int, i as int),
        decreases len - i,
    {
        r.push(v[i]);
        proof {
            assert(r@ =~= v@.subrange(first as int, i + 1));
        }
        i += 1;
    }
    proof {
        lemma_strip_leading_zeros(v@, first as int);
        assert(r@ =~= v@.subrange(first as int, len as int));
    }
    r
}

/// Subtract two equal-length digit vectors; requires the first to be at least the second.
pub fn sub_aligned(a: &Vec<u8>, b: &Vec<u8>) -> (r: Vec<u8>)
    requires
        a@.len() == b@.len(),
        all_digits(a@),
        all_digits(b@),
        mant_val(b@) <= mant_val(a@),
    ensures
        r@.len() == a@.len(),
        all_digits(r@),
        mant_val(r@) == mant_val(a@) - mant_val(b@),
{
    let n = a.len();
    let mut rev: Vec<u8> = Vec::new();
    let mut borrow: u8 = 0;
    let mut k: usize = 0;
    while k < n
        invariant
            k <= n,
            n == a@.len() == b@.len(),
            all_digits(a@),
            all_digits(b@),
            borrow <= 1,
            rev@.len() == k,
            all_digits(rev@),
            lval(rev@) + mant_val(b@.subrange(n - k, n as int)) == mant_val(
                a@.subrange(n - k, n as int),
            ) + (borrow as nat) * pow10(k as nat),
        decreases n - k,
    {
        let idx = n - 1 - k;
        let ad = a[idx];
        let bd = b[idx];
        let need = bd + borrow;
        let (digit, new_borrow): (u8, u8) = if ad >= need {
            (ad - need, 0)
        } else {
            (ad + 10 - need, 1)
        };
        proof {
            let p = pow10(k as nat);
            let asub = a@.subrange(n - k, n as int);
            let bsub = b@.subrange(n - k, n as int);
            let asub2 = a@.subrange(idx as int, n as int);
            let bsub2 = b@.subrange(idx as int, n as int);
            assert(asub2.subrange(1, asub2.len() as int) =~= asub);
            assert(bsub2.subrange(1, bsub2.len() as int) =~= bsub);
            assert(mant_val(asub2) == (ad as nat) * p + mant_val(asub));
            assert(mant_val(bsub2) == (bd as nat) * p + mant_val(bsub));
            lemma_lval_push(rev@, digit);
            assert(pow10((k + 1) as nat) == 10 * p);
            assert((digit as nat) * p + (bd as nat) * p + (borrow as nat) * p == (ad as nat) * p
                + (new_borrow as nat) * (10 * p)) by (nonlinear_arith)
                requires digit + bd + borrow == ad + 10 * new_borrow;
        }
        rev.push(digit);
        borrow = new_borrow;
        k += 1;
    }
    proof {
        assert(a@.subrange(0, n as int) =~= a@);
        assert(b@.subrange(0, n as int) =~= b@);
    }
    let r = reverse_digits(&rev);
    proof {
        lemma_lval_rev(r@);
        assert(seq_rev(r@) =~= rev@);
        assert(all_digits(r@));
        lemma_mant_val_bound(r@);
        if borrow == 1 {
            assert(false);
        }
    }
    r
}

/// Whether one digit vector is at least another, by value; both must be free
/// of leading zeros.
pub fn ge_digits(a: &Vec<u8>, b: &Vec<u8>) -> (r: bool)
    requires
        all_digits(a@),
        all_digits(b@),
        a@.len() > 0 ==> a@[0] != 0,
        b@.len() > 0 ==> b@[0] != 0,
    ensures
        r == (mant_val(a@) >= mant_val(b@)),
{
    let la = a.len();
    let lb = b.len();
    if la != lb {
        proof {
            if la > lb {
                lemma_mant_val_first(a@);
                lemma_mant_val_bound(b@);
                lemma_pow10_increases(lb as nat, (la - 1) as nat);
            } else {
                lemma_mant_val_first(b@);
                lemma_mant_val_bound(a@);
                lemma_pow10_increases(la as nat, (lb - 1) as nat);
            }
        }
        return la > lb;
    }
    let mut i: usize = 0;
    while i < la
        invariant
            i <= la,
            la == a@.len() == b@.len(),
            all_digits(a@),
            all_digits(b@),
            forall|j: int| 0 <= j < i ==> a@[j] == b@[j],
        decreases la - i,
    {
        if a[i] != b[i] {
            proof {
                if a@[i as int] < b@[i as int] {
                    lemma_mant_val_lex(a@, b@, i as int);
                } else {
                    lemma_mant_val_lex(b@, a@, i as int);
                }
            }
            return a[i] > b[i];
        }
        i += 1;
    }
    proof {
        assert(a@ =~= b@);
    }
    true
}

/// Multiply a digit vector by a single digit; the result has one more digit.
pub fn mul_digit(a: &Vec<u8>, d: u8) -> (r: Vec<u8>)
    requires
        all_digits(a@),
        d <= 9,
    ensures
        r@.len() == a@.len() + 1,
        all_digits(r@),
        mant_val(r@) == (d as nat) * mant_val(a@),
{
    let n = a.len();
    let mut rev: Vec<u8> = Vec::new();
    let mut carry: u8 = 0;
    let mut k: usize = 0;
    proof {
        assert(a@.subrange(n as int, n as int) =~= Seq::<u8>::empty());
        assert((d as nat) * 0 == 0) by (nonlinear_arith);
        assert((0 as nat) * pow10(0) == 0) by (nonlinear_arith);
    }
    while k < n
        invariant
            k <= n,
            n == a@.len(),
            all_digits(a@),
            d <= 9,
            carry <= 8,
            rev@.len() == k,
            all_digits(rev@),
            lval(rev@) + (carry as nat) * pow10(k as nat) == (d as nat) * mant_val(
                a@.subrange(n - k, n as int),
            ),
        decreases n - k,
    {
        let idx = n - 1 - k;
        let ad = a[idx];
        proof {
            assert(ad <= 9);
            assert(ad * d <= 81) by (nonlinear_arith)
                requires ad <= 9 && d <= 9;
        }
        let s = ad * d + carry;
        let digit = s % 10;
        let new_carry = s / 10;
        proof {
            let p = pow10(k as nat);
            let asub = a@.subrange(n - k, n as int);
            let asub2 = a@.subrange(idx as int, n as int);
            assert(asub2.subrange(1, asub2.len() as int) =~= asub);
            assert(mant_val(asub2) == (ad as nat) * p + mant_val(asub));
            lemma_lval_push(rev@, digit);
            assert(pow10((k + 1) as nat) == 10 * p);
            assert((digit as nat) * p + (new_carry as nat) * (10 * p) == (s as nat) * p)
                by (nonlinear_arith)
                requires s == 10 * new_carry + digit;
            assert((s as nat) * p == (d as nat) * ((ad as nat) * p) + (carry as nat) * p)
                by (nonlinear_arith)
                requires s == ad * d + carry;
            assert((d as nat) * mant_val(asub2) == (d as nat) * ((ad as nat) * p) + (d as nat)
                * mant_val(asub)) by (nonlinear_arith)
                requires mant_val(asub2) == (ad as nat) * p + mant_val(asub);
        }
        rev.push(digit);
        carry = new_carry;
        k += 1;
    }
    proof {
        assert(a@.subrange(0, n as int) =~= a@);
    }
    let ghost prev = rev@;
    rev.push(carry);
    proof {
        lemma_lval_push(prev, carry);
        assert(all_digits(rev@));
    }
    let r = reverse_digits(&rev);
    proof {
        lemma_lval_rev(r@);
        assert(seq_rev(r@) =~= rev@);
    }
    r
}

/// Compare two canonical mantissas as if left-aligned (padded on the right
/// with zeros to a common length), i.e. by value scaled to a common exponent.
pub fn cmp_mantissa(a: &Vec<u8>, b: &Vec<u8>) -> (r: core::cmp::Ordering)
    requires
        all_digits(a@),
        all_digits(b@),
        a@.len() > 0,
        b@.len() > 0,
        a@[a@.len() - 1] != 0,
        b@[b@.len() - 1] != 0,
    ensures
        ({
            let n = if a@.len() >= b@.len() { a@.len() } else { b@.len() };
            let av = mant_val(a@) * pow10((n - a@.len()) as nat);
            let bv = mant_val(b@) * pow10((n - b@.len()) as nat);
            &&& (r == core::cmp::Ordering::Less <==> av < bv)
            &&& (r == core::cmp::Ordering::Equal <==> av == bv)
            &&& (r == core::cmp::Ordering::Greater <==> av > bv)
        }),
{
    let la = a.len();
    let lb = b.len();
    let ghost n: nat = if la >= lb { la as nat } else { lb as nat };
    let ghost pa = a@ + zeros((n - la) as nat);
    let ghost pb = b@ + zeros((n - lb) as nat);
    proof {
        lemma_zeros_val((n - la) as nat);
        lemma_zeros_val((n - lb) as nat);
        lemma_mant_val_concat(a@, zeros((n - la) as nat));
        lemma_mant_val_concat(b@, zeros((n - lb) as nat));
        assert(mant_val(pa) == mant_val(a@) * pow10((n - la) as nat));
        assert(mant_val(pb) == mant_val(b@) * pow10((n - lb) as nat));
        assert(all_digits(pa));
        assert(all_digits(pb));
    }
    let m = if la <= lb { la } else { lb };
    let mut i: usize = 0;
    while i < m
        invariant
            i <= m,
            m == if la <= lb { la } else { lb },
            la == a@.len(),
            lb == b@.len(),
            n == if la >= lb { la as nat } else { lb as nat },
            pa == a@ + zeros((n - la) as nat),
            pb == b@ + zeros((n - lb) as nat),
            pa.len() == n && pb.len() == n,
            all_digits(pa),
            all_digits(pb),
            mant_val(pa) == mant_val(a@) * pow10((n - la) as nat),
            mant_val(pb) == mant_val(b@) * pow10((n - lb) as nat),
            forall|j: int| 0 <= j < i ==> a@[j] == b@[j],
        decreases m - i,
    {
        if a[i] != b[i] {
            proof {
                assert(pa[i as int] == a@[i as int]);
                assert(pb[i as int] == b@[i as int]);
                assert(forall|j: int| 0 <= j < i ==> pa[j] == pb[j]);
                if a@[i as int] < b@[i as int] {
                    lemma_mant_val_lex(pa, pb, i as int);
                } else {
                    lemma_mant_val_lex(pb, pa, i as int);
                }
            }
            if a[i] < b[i] {
                return core::cmp::Ordering::Less;
            } else {
                return core::cmp::Ordering::Greater;
            }
        }
        i += 1;
    }
    proof {
        let pre = a@.subrange(0, m as int);
        assert(pre =~= b@.subrange(0, m as int));
        assert(pa =~= pre + pa.subrange(m as int, n as int));
        assert(pb =~= pre + pb.subrange(m as int, n as int));
        lemma_mant_val_concat(pre, pa.subrange(m as int, n as int));
        lemma_mant_val_concat(pre, pb.subrange(m as int, n as int));
        if la < lb {
            assert(pa.subrange(m as int, n as int) =~= zeros((n - la) as nat));
            lemma_zeros_val((n - la) as nat);
            assert(pb.subrange(m as int, n as int) =~= b@.subrange(la as int, lb as int));
            lemma_last_nonzero_val(b@.subrange(la as int, lb as int));
        } else if lb < la {
            assert(pb.subrange(m as int, n as int) =~= zeros((n - lb) as nat));
            lemma_zeros_val((n - lb) as nat);
            assert(pa.subrange(m as int, n as int) =~= a@.subrange(lb as int, la as int));
            lemma_last_nonzero_val(a@.subrange(lb as int, la as int));
        } else {
            assert(pa =~= pb);
        }
    }
    if la < lb {
        core::cmp::Ordering::Less
    } else if lb < la {
        core::cmp::Ordering::Greater
    } else {
        core::cmp::Ordering::Equal
    }
}

/// Appending a digit in little-endian order scales it by `10^len`.
pub proof fn lemma_lval_push(m: Seq<u8>, d: u8)
    ensures
        lval(m.push(d)) == lval(m) + (d as nat) * pow10(m.len()),
    decreases m.len(),
{
    if m.len() == 0 {
        let p = m.push(d);
        assert(p.subrange(1, 1) =~= Seq::<u8>::empty());
        assert(lval(Seq::<u8>::empty()) == 0);
        assert(pow10(0) == 1);
        assert(lval(p) == (d as nat) + 10 * 0);
        assert(lval(m) == 0);
        assert((d as nat) * 1 == d as nat);
    } else {
        let p = m.push(d);
        assert(p.subrange(1, p.len() as int) =~= m.subrange(1, m.len() as int).push(d));
        lemma_lval_push(m.subrange(1, m.len() as int), d);
        assert((d as nat) * pow10(m.len()) == 10 * ((d as nat) * pow10((m.len() - 1) as nat)))
            by (nonlinear_arith)
            requires pow10(m.len()) == 10 * pow10((m.len() - 1) as nat);
    }
}

} // verus!
