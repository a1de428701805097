//! Dense vectors and matrices of fixed-point values: dot product, matrix
//! columns, affine maps and a stable argmax. A matrix is a `Vec` of rows of
//! equal length.

use vstd::prelude::*;
use crate::fixed::ONE;
use crate::fixed::VMAX;
use crate::fixed::in_range;
use crate::fixed::fadd_s;
use crate::fixed::fmul_s;
use crate::fixed::fadd;
use crate::fixed::fmul;

verus! {

/// Every entry has magnitude at most `VMAX`.
pub open spec fn vec_in_range(s: Seq<i64>) -> bool {
    forall|i: int| 0 <= i < s.len() ==> in_range(#[trigger] s[i])
}

/// The mathematical view of a matrix: a sequence of row sequences.
pub open spec fn mat(m: Seq<Vec<i64>>) -> Seq<Seq<i64>> {
    Seq::new(m.len(), |i: int| m[i]@)
}

/// A well-formed `rows x cols` matrix: every row has length `cols` and every
/// entry is in range.
pub open spec fn mat_wf(m: Seq<Seq<i64>>, rows: int, cols: int) -> bool {
    &&& m.len() == rows
    &&& forall|i: int| 0 <= i < rows ==> (#[trigger] m[i]).len() == cols
    &&& forall|i: int| 0 <= i < rows ==> vec_in_range(#[trigger] m[i])
}

/// Column `j` of a matrix.
pub open spec fn col_s(m: Seq<Seq<i64>>, j: int) -> Seq<i64> {
    Seq::new(m.len(), |i: int| m[i][j])
}

/// Saturating fixed-point dot product, folded from the left.
pub open spec fn dot_s(a: Seq<i64>, b: Seq<i64>) -> i64
    decreases a.len(),
{
    if a.len() == 0 {
        0
    } else {
        fadd_s(dot_s(a.drop_last(), b.drop_last()), fmul_s(a.last(), b.last()))
    }
}

proof fn lemma_dot_step(a: Seq<i64>, b: Seq<i64>, k: int)
    requires
        0 < k <= a.len(),
        k <= b.len(),
    ensures
        dot_s(a.take(k), b.take(k)) == fadd_s(
            dot_s(a.take(k - 1), b.take(k - 1)),
            fmul_s(a[k - 1], b[k - 1]),
        ),
{
    assert(a.take(k).drop_last() =~= a.take(k - 1));
    assert(b.take(k).drop_last() =~= b.take(k - 1));
    assert(a.take(k).last() == a[k - 1]);
    assert(b.take(k).last() == b[k - 1]);
}

/// Saturating dot product of two equally long vectors.
#[verifier::loop_isolation(false)]
pub fn dot(a: &Vec<i64>, b: &Vec<i64>) -> (r: i64)
    requires
        a@.len() == b@.len(),
        vec_in_range(a@),
        vec_in_range(b@),
    ensures
        r == dot_s(a@, b@),
        in_range(r),
{
    let n = a.len();
    let mut acc: i64 = 0;
    assert(a@.take(0) =~= Seq::<i64>::empty());
    for i in 0..n
        invariant
            acc == dot_s(a@.take(i as int), b@.take(i as int)),
            in_range(acc),
    {
        let t = fmul(a[i], b[i]);
        acc = fadd(acc, t);
        proof {
            lemma_dot_step(a@, b@, i + 1);
        }
    }
    proof {
        assert(a@.take(n as int) =~= a@);
        assert(b@.take(n as int) =~= b@);
    }
    acc
}

/// Column `j` of a matrix, as a fresh vector.
#[verifier::loop_isolation(false)]
pub fn column(m: &Vec<Vec<i64>>, j: usize) -> (r: Vec<i64>)
    requires
        forall|i: int| 0 <= i < m@.len() ==> (j as int) < (#[trigger] m@[i])@.len(),
    ensures
        r@ == col_s(mat(m@), j as int),
{
    let n = m.len();
    let mut r: Vec<i64> = Vec::new();
    for i in 0..n
        invariant
            r@ =~= col_s(mat(m@), j as int).take(i as int),
    {
        r.push(m[i][j]);
    }
    proof {
        assert(col_s(mat(m@), j as int).take(n as int) =~= col_s(mat(m@), j as int));
    }
    r
}

/// Affine map `x . w + b`: entry `j` is the dot product of `x` with column
/// `j` of `w`, plus `b[j]`, in saturating arithmetic.
pub open spec fn affine_s(x: Seq<i64>, w: Seq<Seq<i64>>, b: Seq<i64>) -> Seq<i64> {
    Seq::new(b.len(), |j: int| fadd_s(dot_s(x, col_s(w, j)), b[j]))
}

/// Affine map `x . w + b` for a `x.len() x b.len()` matrix `w`.
#[verifier::loop_isolation(false)]
pub fn affine(x: &Vec<i64>, w: &Vec<Vec<i64>>, b: &Vec<i64>) -> (r: Vec<i64>)
    requires
        mat_wf(mat(w@), x@.len() as int, b@.len() as int),
        vec_in_range(x@),
        vec_in_range(b@),
    ensures
        r@ == affine_s(x@, mat(w@), b@),
        r@.len() == b@.len(),
        vec_in_range(r@),
{
    let n = b.len();
    let mut r: Vec<i64> = Vec::new();
    for j in 0..n
        invariant
            r@ =~= affine_s(x@, mat(w@), b@).take(j as int),
            vec_in_range(r@),
    {
        proof {
            assert forall|i: int| 0 <= i < w@.len() implies (j as int) < (#[trigger] w@[i])@.len() by {
                assert(mat(w@)[i].len() == b@.len());
            }
        }
        let c = column(w, j);
        assert(c@.len() == x@.len());
        assert(vec_in_range(c@)) by {
            assert(forall|i: int|
                0 <= i < c@.len() ==> #[trigger] c@[i] == mat(w@)[i][j as int]);
        }
        let d = dot(x, &c);
        let e = fadd(d, b[j]);
        r.push(e);
    }
    proof {
        assert(affine_s(x@, mat(w@), b@).take(n as int) =~= affine_s(x@, mat(w@), b@));
    }
    r
}

/// Index of the first maximum of a nonempty sequence.
pub open spec fn argmax_s(v: Seq<i64>) -> int
    decreases v.len(),
{
    if v.len() <= 1 {
        0
    } else {
        let r = argmax_s(v.drop_last());
        if v.last() > v[r] {
            v.len() - 1
        } else {
            r
        }
    }
}

/// The first maximum is a maximum, and every earlier entry is strictly
/// smaller.
pub proof fn lemma_argmax_first_max(v: Seq<i64>)
    requires
        v.len() >= 1,
    ensures
        0 <= argmax_s(v) < v.len(),
        forall|j: int| 0 <= j < v.len() ==> #[trigger] v[j] <= v[argmax_s(v)],
        forall|j: int| 0 <= j < argmax_s(v) ==> #[trigger] v[j] < v[argmax_s(v)],
    decreases v.len(),
{
    if v.len() > 1 {
        lemma_argmax_first_max(v.drop_last());
        assert(forall|j: int| 0 <= j < v.len() - 1 ==> v[j] == v.drop_last()[j]);
    }
}

proof fn lemma_argmax_step(v: Seq<i64>, k: int)
    requires
        1 < k <= v.len(),
    ensures
        argmax_s(v.take(k)) == (if v[k - 1] > v[argmax_s(v.take(k - 1))] {
            k - 1
        } else {
            argmax_s(v.take(k - 1))
        }),
{
    assert(v.take(k).drop_last() =~= v.take(k - 1));
    assert(v.take(k).last() == v[k - 1]);
    lemma_argmax_first_max(v.take(k - 1));
}

/// Index of the first maximum entry (stable argmax).
#[verifier::loop_isolation(false)]
pub fn argmax(v: &Vec<i64>) -> (r: usize)
    requires
        v@.len() >= 1,
    ensures
        r as int == argmax_s(v@),
        r < v@.len(),
        forall|j: int| 0 <= j < v@.len() ==> #[trigger] v@[j] <= v@[r as int],
        forall|j: int| 0 <= j < r as int ==> #[trigger] v@[j] < v@[r as int],
{
    let n = v.len();
    let mut best: usize = 0;
    assert(v@.take(1) =~= seq![v@[0]]);
    for i in 1..n
        invariant
            1 <= i <= n,
            best < i,
            best as int == argmax_s(v@.take(i as int)),
    {
        proof {
            lemma_argmax_step(v@, i + 1);
        }
        if v[i] > v[best] {
            best = i;
        }
    }
    proof {
        assert(v@.take(n as int) =~= v@);
        lemma_argmax_first_max(v@);
    }
    best
}

} // verus!
