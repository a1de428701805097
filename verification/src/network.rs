//! The two-layer feedforward network: construction, forward pass,
//! prediction, training by per-sample stochastic gradient descent, and
//! evaluation. All values are fixed-point numbers scaled by `ONE`.

use vstd::prelude::*;
use crate::fixed::ONE;
use crate::fixed::VMAX;
use crate::fixed::in_range;
use crate::fixed::fsub_s;
use crate::fixed::fmul_s;
use crate::fixed::fsub;
use crate::fixed::fmul;
use crate::linalg::vec_in_range;
use crate::linalg::mat;
use crate::linalg::mat_wf;
use crate::linalg::dot_s;
use crate::linalg::dot;
use crate::linalg::affine_s;
use crate::linalg::affine;
use crate::linalg::argmax_s;
use crate::linalg::argmax;
use crate::softmax::seq_max_s;
use crate::softmax::exps_s;
use crate::softmax::sum_s;
use crate::softmax::softmax_s;
use crate::softmax::lemma_sum_take_step;
use crate::softmax::lemma_sum_lower;
use crate::softmax::lemma_div_entry_bounds;
use crate::transcend::exp_s;
use crate::transcend::exp_fixed;
use crate::transcend::neg_ln_s;
use crate::transcend::neg_ln_fixed;
use crate::transcend::DEGEN_LOSS;
use crate::transcend::lemma_exp_bounds;
use crate::rng::gen_range_i64;
use vstd::arithmetic::div_mod::lemma_div_is_ordered;
use vstd::arithmetic::div_mod::lemma_div_multiples_vanish;
use vstd::arithmetic::div_mod::lemma_div_nonincreasing;
use vstd::arithmetic::div_mod::lemma_div_pos_is_pos;
use vstd::arithmetic::mul::lemma_mul_inequality;

verus! {

/// Bound on the magnitude of an initial weight: `0.1 * ONE`.
pub const WINIT: i64 = 104857;

/// Largest accepted layer width: keeps the softmax denominator within `i64`.
pub const MAX_DIM: usize = 1000000;

/// Largest accepted number of samples: keeps an epoch's total loss within
/// `i64`.
pub const MAX_SAMPLES: usize = 100000000;

/// The error taxonomy of the network.
#[derive(Clone, Copy, Debug, PartialEq, Eq, Structural)]
pub enum NetError {
    /// A constructor was given a zero or inconsistent dimension.
    Construction,
    /// A sample's feature vector has the wrong length, or its label is out
    /// of range; `index` is the first offending sample.
    ShapeMismatch { index: usize },
    /// An evaluation over zero samples, whose accuracy is undefined.
    NumericDegeneracy,
}

/// What one training epoch reports: the average loss over the epoch's
/// samples, and how many samples had a zero true-class probability, where
/// the cross-entropy is undefined and the loss was taken as `DEGEN_LOSS`.
#[derive(Clone, Copy, Debug, PartialEq, Eq, Structural)]
pub struct EpochReport {
    pub avg_loss: i64,
    pub degenerate: usize,
}

/// The mathematical view of a network: dimensions, weight matrices and bias
/// vectors.
pub ghost struct NetG {
    pub input_size: int,
    pub hidden_size: int,
    pub output_size: int,
    pub w1: Seq<Seq<i64>>,
    pub b1: Seq<i64>,
    pub w2: Seq<Seq<i64>>,
    pub b2: Seq<i64>,
}

/// Well-formedness: positive dimensions, consistent shapes, entries in
/// range.
pub open spec fn net_wf(n: NetG) -> bool {
    &&& 1 <= n.input_size
    &&& 1 <= n.hidden_size
    &&& 1 <= n.output_size <= MAX_DIM as int
    &&& mat_wf(n.w1, n.input_size, n.hidden_size)
    &&& n.b1.len() == n.hidden_size
    &&& vec_in_range(n.b1)
    &&& mat_wf(n.w2, n.hidden_size, n.output_size)
    &&& n.b2.len() == n.output_size
    &&& vec_in_range(n.b2)
}

/// A two-layer feedforward network: `input_size x hidden_size` weights `w1`
/// with biases `b1`, ReLU, `hidden_size x output_size` weights `w2` with
/// biases `b2`, softmax.
pub struct NeuralNetwork {
    input_size: usize,
    hidden_size: usize,
    output_size: usize,
    w1: Vec<Vec<i64>>,
    b1: Vec<i64>,
    w2: Vec<Vec<i64>>,
    b2: Vec<i64>,
}

impl View for NeuralNetwork {
    type V = NetG;

    closed spec fn view(&self) -> NetG {
        NetG {
            input_size: self.input_size as int,
            hidden_size: self.hidden_size as int,
            output_size: self.output_size as int,
            w1: mat(self.w1@),
            b1: self.b1@,
            w2: mat(self.w2@),
            b2: self.b2@,
        }
    }
}

/// Elementwise `max(v, 0)`.
pub open spec fn relu_s(v: Seq<i64>) -> Seq<i64> {
    Seq::new(v.len(), |i: int| if v[i] < 0 { 0i64 } else { v[i] })
}

/// Elementwise ReLU subgradient: `ONE` where the entry is strictly
/// positive, 0 elsewhere (0 at 0).
pub open spec fn relu_mask_s(v: Seq<i64>) -> Seq<i64> {
    Seq::new(v.len(), |i: int| if v[i] > 0 { ONE } else { 0i64 })
}

/// Output-layer delta: `a2 - y_true`, with the one-hot target of `label`.
pub open spec fn delta_s(a2: Seq<i64>, label: int) -> Seq<i64> {
    Seq::new(a2.len(), |j: int| fsub_s(a2[j], if j == label { ONE } else { 0i64 }))
}

/// The output distribution of the forward pass on input `x`.
pub open spec fn forward_a2_s(n: NetG, x: Seq<i64>) -> Seq<i64> {
    softmax_s(affine_s(relu_s(affine_s(x, n.w1, n.b1)), n.w2, n.b2))
}

/// The predicted class: first index of the maximum output activation.
pub open spec fn predict_s(n: NetG, x: Seq<i64>) -> int {
    argmax_s(forward_a2_s(n, x))
}

/// The forward pass of a well-formed network yields a probability
/// distribution over the classes: entries in `[0, ONE]` whose sum falls
/// short of `ONE` by less than one truncation unit per class.
pub proof fn lemma_forward_distribution(n: NetG, x: Seq<i64>)
    requires
        net_wf(n),
        x.len() == n.input_size,
        vec_in_range(x),
    ensures
        forward_a2_s(n, x).len() == n.output_size,
        (ONE as int) - n.output_size <= sum_s(forward_a2_s(n, x)) <= ONE as int,
        forall|i: int| 0 <= i < n.output_size ==> 0 <= #[trigger] forward_a2_s(n, x)[i] <= ONE,
{
    let z1 = affine_s(x, n.w1, n.b1);
    let a1 = relu_s(z1);
    let z2 = affine_s(a1, n.w2, n.b2);
    assert(z2.len() == n.output_size);
    assert(forall|i: int| 0 <= i < z2.len() ==> in_range(#[trigger] z2[i]));
    crate::softmax::lemma_softmax_sum_to_one(z2);
}

/// All entries are zero.
pub open spec fn all_zero(v: Seq<i64>) -> bool {
    forall|i: int| 0 <= i < v.len() ==> #[trigger] v[i] == 0
}

/// All entries have magnitude at most `bound`.
pub open spec fn mat_bounded(m: Seq<Seq<i64>>, bound: i64) -> bool {
    forall|i: int, j: int|
        0 <= i < m.len() && 0 <= j < m[i].len() ==> -bound <= #[trigger] m[i][j] <= bound
}

/// A vector of `len` zeros.
#[verifier::loop_isolation(false)]
fn zero_vec(len: usize) -> (r: Vec<i64>)
    ensures
        r@.len() == len,
        all_zero(r@),
        vec_in_range(r@),
{
    let mut r: Vec<i64> = Vec::new();
    for _i in 0..len
        invariant
            r@.len() == _i,
            all_zero(r@),
            vec_in_range(r@),
    {
        r.push(0);
    }
    r
}

/// A `rows x cols` matrix of independent draws from `[-WINIT, WINIT]`.
#[verifier::loop_isolation(false)]
fn random_matrix(rows: usize, cols: usize, rng: &mut rand::rngs::StdRng) -> (r: Vec<Vec<i64>>)
    ensures
        mat_wf(mat(r@), rows as int, cols as int),
        mat_bounded(mat(r@), WINIT),
{
    let mut m: Vec<Vec<i64>> = Vec::new();
    for i in 0..rows
        invariant
            m@.len() == i,
            forall|k: int| 0 <= k < i as int ==> (#[trigger] mat(m@)[k]).len() == cols as int,
            forall|k: int| 0 <= k < i as int ==> vec_in_range(#[trigger] mat(m@)[k]),
            mat_bounded(mat(m@), WINIT),
    {
        let mut row: Vec<i64> = Vec::new();
        for j in 0..cols
            invariant
                row@.len() == j,
                forall|k: int| 0 <= k < j as int ==> -WINIT <= #[trigger] row@[k] <= WINIT,
        {
            let w = gen_range_i64(rng, -WINIT, WINIT);
            row.push(w);
        }
        let ghost pre = m@;
        m.push(row);
        proof {
            assert forall|k: int|
                0 <= k < m@.len() implies (#[trigger] mat(m@)[k]).len() == cols as int
                && vec_in_range(mat(m@)[k]) by {
                if k < m@.len() - 1 {
                    assert(mat(m@)[k] == m@[k]@);
                    assert(m@[k] == pre[k]);
                    assert(mat(pre)[k] == pre[k]@);
                } else {
                    assert(mat(m@)[k] == row@);
                    assert forall|c: int| 0 <= c < row@.len() implies in_range(
                        #[trigger] row@[c],
                    ) by {}
                }
            }
            assert forall|k: int, c: int|
                0 <= k < mat(m@).len() && 0 <= c < mat(m@)[k].len() implies -WINIT
                <= #[trigger] mat(m@)[k][c] <= WINIT by {
                if k < m@.len() - 1 {
                    assert(mat(m@)[k] == m@[k]@);
                    assert(m@[k] == pre[k]);
                    assert(mat(pre)[k][c] == pre[k]@[c]);
                } else {
                    assert(mat(m@)[k] == row@);
                }
            }
        }
    }
    m
}

impl NeuralNetwork {
    /// Well-formedness of the live network.
    pub open spec fn wf(&self) -> bool {
        net_wf(self@)
    }

    /// Elementwise ReLU: every entry of the result is non-negative, and
    /// entries that were already non-negative are kept as they are.
    #[verifier::loop_isolation(false)]
    pub fn relu(x: &Vec<i64>) -> (r: Vec<i64>)
        ensures
            r@ == relu_s(x@),
            r@.len() == x@.len(),
            forall|i: int| 0 <= i < r@.len() ==> #[trigger] r@[i] >= 0,
            forall|i: int| 0 <= i < x@.len() ==> (#[trigger] x@[i] >= 0 ==> r@[i] == x@[i]),
            vec_in_range(x@) ==> vec_in_range(r@),
    {
        let n = x.len();
        let mut r: Vec<i64> = Vec::new();
        for i in 0..n
            invariant
                r@ =~= relu_s(x@).take(i as int),
        {
            let v = x[i];
            r.push(if v < 0 { 0 } else { v });
        }
        proof {
            assert(relu_s(x@).take(n as int) =~= relu_s(x@));
        }
        r
    }

    /// Elementwise ReLU subgradient: `ONE` where the entry is strictly
    /// positive, 0 elsewhere.
    #[verifier::loop_isolation(false)]
    pub fn relu_derivative(x: &Vec<i64>) -> (r: Vec<i64>)
        ensures
            r@ == relu_mask_s(x@),
            r@.len() == x@.len(),
    {
        let n = x.len();
        let mut r: Vec<i64> = Vec::new();
        for i in 0..n
            invariant
                r@ =~= relu_mask_s(x@).take(i as int),
        {
            let v = x[i];
            r.push(if v > 0 { ONE } else { 0 });
        }
        proof {
            assert(relu_mask_s(x@).take(n as int) =~= relu_mask_s(x@));
        }
        r
    }

    /// Softmax: exponentials of the entries shifted by their maximum, each
    /// divided by their sum. Entries of the result lie in `[0, ONE]` and sum
    /// to `ONE` up to one truncation unit per entry.
    #[verifier::loop_isolation(false)]
    pub fn softmax(x: &Vec<i64>) -> (r: Vec<i64>)
        requires
            1 <= x@.len() <= MAX_DIM,
            vec_in_range(x@),
        ensures
            r@ == softmax_s(x@),
            r@.len() == x@.len(),
            forall|i: int| 0 <= i < r@.len() ==> 0 <= #[trigger] r@[i] <= ONE,
            vec_in_range(r@),
    {
        let n = x.len();
        let mi = argmax(x);
        let m = x[mi];
        assert(m == seq_max_s(x@));
        let ghost es = exps_s(x@, m);
        let mut e: Vec<i64> = Vec::new();
        for i in 0..n
            invariant
                e@ =~= es.take(i as int),
                forall|k: int| 0 <= k < e@.len() ==> 0 <= #[trigger] e@[k] <= ONE,
        {
            let d = x[i] - m;
            assert(d <= 0);
            let v = exp_fixed(d);
            proof {
                assert(es[i as int] == exp_s(d));
            }
            e.push(v);
        }
        proof {
            assert(es.take(n as int) =~= es);
        }
        let mut s: i64 = 0;
        for i in 0..n
            invariant
                s == sum_s(e@.take(i as int)),
                0 <= s <= (i as int) * (ONE as int),
        {
            proof {
                lemma_sum_take_step(e@, i as int + 1);
            }
            s = s + e[i];
        }
        proof {
            assert(e@.take(n as int) =~= e@);
            lemma_exp_bounds((x@[mi as int] - m) as i64);
            assert(e@[mi as int] == ONE);
            lemma_sum_lower(e@, mi as int);
            assert(s >= ONE);
        }
        let ghost ss = s as int;
        let mut r: Vec<i64> = Vec::new();
        for i in 0..n
            invariant
                r@ =~= softmax_s(x@).take(i as int),
                forall|k: int| 0 <= k < r@.len() ==> 0 <= #[trigger] r@[k] <= ONE,
        {
            proof {
                lemma_div_entry_bounds(e@[i as int], ss);
            }
            let q: u64 = ((e[i] as u64) * (ONE as u64)) / (s as u64);
            let v: i64 = q as i64;
            proof {
                assert(softmax_s(x@)[i as int] == (((e@[i as int] as int) * (ONE as int))
                    / ss) as i64);
            }
            r.push(v);
        }
        proof {
            assert(softmax_s(x@).take(n as int) =~= softmax_s(x@));
        }
        r
    }

    /// Output-layer delta of backpropagation: exactly `a2 - y_true`, where
    /// `y_true` is the one-hot vector of `label`. This is the closed-form
    /// gradient of softmax followed by cross-entropy.
    #[verifier::loop_isolation(false)]
    pub fn output_delta(a2: &Vec<i64>, label: usize) -> (r: Vec<i64>)
        requires
            forall|i: int| 0 <= i < a2@.len() ==> 0 <= #[trigger] a2@[i] <= ONE,
        ensures
            r@ == delta_s(a2@, label as int),
            r@.len() == a2@.len(),
            forall|j: int|
                0 <= j < a2@.len() ==> #[trigger] r@[j] == a2@[j] - (if j == label as int {
                    ONE as int
                } else {
                    0
                }),
            vec_in_range(r@),
    {
        let n = a2.len();
        let mut r: Vec<i64> = Vec::new();
        for j in 0..n
            invariant
                r@ =~= delta_s(a2@, label as int).take(j as int),
                forall|k: int| 0 <= k < r@.len() ==> -ONE <= #[trigger] r@[k] <= ONE,
        {
            let t = if j == label {
                ONE
            } else {
                0
            };
            let v = fsub(a2[j], t);
            r.push(v);
        }
        proof {
            assert(delta_s(a2@, label as int).take(n as int) =~= delta_s(a2@, label as int));
        }
        r
    }

    /// The forward pass: the output probability distribution for input `x`.
    pub fn forward(&self, x: &Vec<i64>) -> (r: Vec<i64>)
        requires
            self.wf(),
            x@.len() == self@.input_size,
            vec_in_range(x@),
        ensures
            r@ == forward_a2_s(self@, x@),
            r@.len() == self@.output_size,
            forall|i: int| 0 <= i < r@.len() ==> 0 <= #[trigger] r@[i] <= ONE,
    {
        let z1 = affine(x, &self.w1, &self.b1);
        let a1 = Self::relu(&z1);
        let z2 = affine(&a1, &self.w2, &self.b2);
        Self::softmax(&z2)
    }

    /// The predicted class for input `x`: the first index of the maximum
    /// output activation, so prediction is deterministic and ties go to the
    /// lower index.
    pub fn predict(&self, x: &Vec<i64>) -> (r: usize)
        requires
            self.wf(),
            x@.len() == self@.input_size,
            vec_in_range(x@),
        ensures
            r as int == predict_s(self@, x@),
            r < self@.output_size,
            forall|j: int|
                0 <= j < forward_a2_s(self@, x@).len() ==> #[trigger] forward_a2_s(self@, x@)[j]
                    <= forward_a2_s(self@, x@)[r as int],
            forall|j: int|
                0 <= j < r as int ==> #[trigger] forward_a2_s(self@, x@)[j] < forward_a2_s(
                    self@,
                    x@,
                )[r as int],
    {
        let a2 = self.forward(x);
        argmax(&a2)
    }

    /// A fresh network: weights drawn independently and uniformly from
    /// `[-WINIT, WINIT]`, biases zero. Fails with `Construction` exactly
    /// when one of the sizes is zero.
    pub fn new(
        input_size: usize,
        hidden_size: usize,
        output_size: usize,
        rng: &mut rand::rngs::StdRng,
    ) -> (r: Result<NeuralNetwork, NetError>)
        requires
            output_size <= MAX_DIM,
        ensures
            match r {
                Ok(net) => {
                    &&& input_size >= 1
                    &&& hidden_size >= 1
                    &&& output_size >= 1
                    &&& net.wf()
                    &&& net@.input_size == input_size
                    &&& net@.hidden_size == hidden_size
                    &&& net@.output_size == output_size
                    &&& mat_bounded(net@.w1, WINIT)
                    &&& mat_bounded(net@.w2, WINIT)
                    &&& all_zero(net@.b1)
                    &&& all_zero(net@.b2)
                },
                Err(e) => {
                    &&& e == NetError::Construction
                    &&& (input_size == 0 || hidden_size == 0 || output_size == 0)
                },
            },
    {
        if input_size == 0 || hidden_size == 0 || output_size == 0 {
            return Err(NetError::Construction);
        }
        let w1 = random_matrix(input_size, hidden_size, rng);
        let w2 = random_matrix(hidden_size, output_size, rng);
        let b1 = zero_vec(hidden_size);
        let b2 = zero_vec(output_size);
        Ok(
            NeuralNetwork {
                input_size,
                hidden_size,
                output_size,
                w1,
                b1,
                w2,
                b2,
            },
        )
    }

    /// The input dimension.
    pub fn input_size(&self) -> (r: usize)
        ensures
            r as int == self@.input_size,
    {
        self.input_size
    }

    /// The hidden dimension.
    pub fn hidden_size(&self) -> (r: usize)
        ensures
            r as int == self@.hidden_size,
    {
        self.hidden_size
    }

    /// The output dimension: the number of classes.
    pub fn output_size(&self) -> (r: usize)
        ensures
            r as int == self@.output_size,
    {
        self.output_size
    }

    /// The first-layer weights.
    pub fn w1(&self) -> (r: &Vec<Vec<i64>>)
        ensures
            mat(r@) == self@.w1,
    {
        &self.w1
    }

    /// The first-layer biases.
    pub fn b1(&self) -> (r: &Vec<i64>)
        ensures
            r@ == self@.b1,
    {
        &self.b1
    }

    /// The second-layer weights.
    pub fn w2(&self) -> (r: &Vec<Vec<i64>>)
        ensures
            mat(r@) == self@.w2,
    {
        &self.w2
    }

    /// The second-layer biases.
    pub fn b2(&self) -> (r: &Vec<i64>)
        ensures
            r@ == self@.b2,
    {
        &self.b2
    }
}

/// Hidden-layer delta of backpropagation: entry `i` is
/// `(dz2 . w2[i]) * mask[i]`, the error signal pulled back through the
/// second layer and gated by the ReLU subgradient.
pub open spec fn dz1_s(dz2: Seq<i64>, w2: Seq<Seq<i64>>, mask: Seq<i64>) -> Seq<i64> {
    Seq::new(mask.len(), |i: int| fmul_s(dot_s(dz2, w2[i]), mask[i]))
}

/// Weight update: `w[i][j] - lr * (u[i] * v[j])`, the outer-product gradient
/// scaled by the learning rate.
pub open spec fn upd_w_s(w: Seq<Seq<i64>>, u: Seq<i64>, v: Seq<i64>, lr: i64) -> Seq<Seq<i64>> {
    Seq::new(
        w.len(),
        |i: int| Seq::new(w[i].len(), |j: int| fsub_s(w[i][j], fmul_s(lr, fmul_s(u[i], v[j])))),
    )
}

/// Bias update: `b[j] - lr * d[j]`.
pub open spec fn upd_b_s(b: Seq<i64>, d: Seq<i64>, lr: i64) -> Seq<i64> {
    Seq::new(b.len(), |j: int| fsub_s(b[j], fmul_s(lr, d[j])))
}

/// One stochastic gradient step on sample `(x, label)` with rate `lr`.
pub open spec fn step_s(n: NetG, x: Seq<i64>, label: int, lr: i64) -> NetG {
    let z1 = affine_s(x, n.w1, n.b1);
    let a1 = relu_s(z1);
    let z2 = affine_s(a1, n.w2, n.b2);
    let a2 = softmax_s(z2);
    let dz2 = delta_s(a2, label);
    let dz1 = dz1_s(dz2, n.w2, relu_mask_s(z1));
    NetG {
        input_size: n.input_size,
        hidden_size: n.hidden_size,
        output_size: n.output_size,
        w1: upd_w_s(n.w1, x, dz1, lr),
        b1: upd_b_s(n.b1, dz1, lr),
        w2: upd_w_s(n.w2, a1, dz2, lr),
        b2: upd_b_s(n.b2, dz2, lr),
    }
}

/// The cross-entropy loss of the sample, on the state before the step:
/// `-ln` of the true-class probability, or `DEGEN_LOSS` where that
/// probability is zero.
pub open spec fn step_loss_s(n: NetG, x: Seq<i64>, label: int) -> i64 {
    let a2 = forward_a2_s(n, x);
    if 0 <= label < a2.len() {
        neg_ln_s(a2[label])
    } else {
        DEGEN_LOSS
    }
}

/// Whether the sample's true-class probability is zero, so its
/// cross-entropy is undefined.
pub open spec fn step_degen_s(n: NetG, x: Seq<i64>, label: int) -> bool {
    let a2 = forward_a2_s(n, x);
    !(0 <= label < a2.len() && a2[label] >= 1)
}

/// The network after steps on the first `k` samples, in dataset order.
pub open spec fn run_samples_s(n: NetG, xs: Seq<Seq<i64>>, ls: Seq<u8>, lr: i64, k: int) -> NetG
    decreases k,
{
    if k <= 0 {
        n
    } else {
        step_s(run_samples_s(n, xs, ls, lr, k - 1), xs[k - 1], ls[k - 1] as int, lr)
    }
}

/// Total loss over the first `k` samples of one epoch starting from `n`,
/// each sample's loss taken on the state it was stepped from.
pub open spec fn epoch_total_s(n: NetG, xs: Seq<Seq<i64>>, ls: Seq<u8>, lr: i64, k: int) -> int
    decreases k,
{
    if k <= 0 {
        0
    } else {
        epoch_total_s(n, xs, ls, lr, k - 1) + step_loss_s(
            run_samples_s(n, xs, ls, lr, k - 1),
            xs[k - 1],
            ls[k - 1] as int,
        )
    }
}

/// How many of the first `k` samples of one epoch had an undefined loss.
pub open spec fn epoch_degen_s(n: NetG, xs: Seq<Seq<i64>>, ls: Seq<u8>, lr: i64, k: int) -> int
    decreases k,
{
    if k <= 0 {
        0
    } else {
        epoch_degen_s(n, xs, ls, lr, k - 1) + if step_degen_s(
            run_samples_s(n, xs, ls, lr, k - 1),
            xs[k - 1],
            ls[k - 1] as int,
        ) {
            1int
        } else {
            0int
        }
    }
}

/// The average loss of one epoch: total loss divided by the number of
/// samples, truncated; 0 for an empty dataset.
pub open spec fn epoch_avg_s(n: NetG, xs: Seq<Seq<i64>>, ls: Seq<u8>, lr: i64) -> i64 {
    if xs.len() == 0 {
        0
    } else {
        (epoch_total_s(n, xs, ls, lr, xs.len() as int) / (xs.len() as int)) as i64
    }
}

/// The report of one epoch starting from `n`.
pub open spec fn epoch_report_s(n: NetG, xs: Seq<Seq<i64>>, ls: Seq<u8>, lr: i64) -> EpochReport {
    EpochReport {
        avg_loss: epoch_avg_s(n, xs, ls, lr),
        degenerate: epoch_degen_s(n, xs, ls, lr, xs.len() as int) as usize,
    }
}

/// The network after `e` full epochs over the dataset.
pub open spec fn train_net_s(n: NetG, xs: Seq<Seq<i64>>, ls: Seq<u8>, lr: i64, e: int) -> NetG
    decreases e,
{
    if e <= 0 {
        n
    } else {
        run_samples_s(train_net_s(n, xs, ls, lr, e - 1), xs, ls, lr, xs.len() as int)
    }
}

/// The reports of `e` epochs, in order.
pub open spec fn reports_s(n: NetG, xs: Seq<Seq<i64>>, ls: Seq<u8>, lr: i64, e: int) -> Seq<
    EpochReport,
>
    decreases e,
{
    if e <= 0 {
        Seq::empty()
    } else {
        reports_s(n, xs, ls, lr, e - 1).push(
            epoch_report_s(train_net_s(n, xs, ls, lr, e - 1), xs, ls, lr),
        )
    }
}

/// Sample `i` fits the network: right feature length, entries in range,
/// label below the number of classes.
pub open spec fn sample_ok_s(xs: Seq<Seq<i64>>, ls: Seq<u8>, i: int, isz: int, osz: int) -> bool {
    &&& xs[i].len() == isz
    &&& vec_in_range(xs[i])
    &&& (ls[i] as int) < osz
}

/// The first index at or after `i` whose sample does not fit, or the length
/// when all fit.
pub open spec fn first_bad_from(
    xs: Seq<Seq<i64>>,
    ls: Seq<u8>,
    isz: int,
    osz: int,
    i: int,
) -> int
    decreases xs.len() - i,
{
    if i < 0 || i >= xs.len() {
        xs.len() as int
    } else if !sample_ok_s(xs, ls, i, isz, osz) {
        i
    } else {
        first_bad_from(xs, ls, isz, osz, i + 1)
    }
}

/// Scanning from 0 equals scanning from `i` when the first `i` samples fit.
proof fn lemma_first_bad_prefix(xs: Seq<Seq<i64>>, ls: Seq<u8>, isz: int, osz: int, i: int)
    requires
        0 <= i <= xs.len(),
        forall|j: int| 0 <= j < i ==> sample_ok_s(xs, ls, j, isz, osz),
    ensures
        first_bad_from(xs, ls, isz, osz, 0) == first_bad_from(xs, ls, isz, osz, i),
    decreases i,
{
    if i > 0 {
        lemma_first_bad_prefix(xs, ls, isz, osz, i - 1);
    }
}

/// When the scan reports the length, every sample fits.
proof fn lemma_first_bad_all_ok(xs: Seq<Seq<i64>>, ls: Seq<u8>, isz: int, osz: int, i: int)
    requires
        0 <= i < xs.len(),
        first_bad_from(xs, ls, isz, osz, 0) == xs.len(),
    ensures
        sample_ok_s(xs, ls, i, isz, osz),
    decreases i,
{
    if first_bad_from(xs, ls, isz, osz, 0) == xs.len() {
        if i == 0 {
            assert(first_bad_from(xs, ls, isz, osz, 0) != 0);
        } else {
            lemma_first_bad_shift(xs, ls, isz, osz, 0, i);
        }
    }
}

/// When the scan from `j` reports the length, sample `i >= j` fits.
proof fn lemma_first_bad_shift(xs: Seq<Seq<i64>>, ls: Seq<u8>, isz: int, osz: int, j: int, i: int)
    requires
        0 <= j <= i < xs.len(),
        first_bad_from(xs, ls, isz, osz, j) == xs.len(),
    ensures
        sample_ok_s(xs, ls, i, isz, osz),
    decreases i - j,
{
    assert(sample_ok_s(xs, ls, j, isz, osz));
    if j < i {
        lemma_first_bad_shift(xs, ls, isz, osz, j + 1, i);
    }
}

/// Does `v` have length `len` with every entry in range?
#[verifier::loop_isolation(false)]
fn vec_ok(v: &Vec<i64>, len: usize) -> (r: bool)
    ensures
        r == (v@.len() == len && vec_in_range(v@)),
{
    if v.len() != len {
        return false;
    }
    let n = v.len();
    for i in 0..n
        invariant
            forall|k: int| 0 <= k < i as int ==> in_range(#[trigger] v@[k]),
    {
        if v[i] > VMAX || v[i] < -VMAX {
            return false;
        }
    }
    true
}

/// Is `m` a well-formed `rows x cols` matrix?
#[verifier::loop_isolation(false)]
fn mat_ok(m: &Vec<Vec<i64>>, rows: usize, cols: usize) -> (r: bool)
    ensures
        r == mat_wf(mat(m@), rows as int, cols as int),
{
    if m.len() != rows {
        return false;
    }
    for i in 0..rows
        invariant
            forall|k: int| 0 <= k < i as int ==> (#[trigger] mat(m@)[k]).len() == cols as int,
            forall|k: int| 0 <= k < i as int ==> vec_in_range(#[trigger] mat(m@)[k]),
    {
        let ok = vec_ok(&m[i], cols);
        proof {
            assert(mat(m@)[i as int] == m@[i as int]@);
        }
        if !ok {
            return false;
        }
    }
    true
}

/// Hidden-layer delta: `r@ == dz1_s(dz2@, mat(w2@), mask@)`.
#[verifier::loop_isolation(false)]
fn hidden_delta(dz2: &Vec<i64>, w2: &Vec<Vec<i64>>, mask: &Vec<i64>) -> (r: Vec<i64>)
    requires
        mat_wf(mat(w2@), mask@.len() as int, dz2@.len() as int),
        vec_in_range(dz2@),
        vec_in_range(mask@),
    ensures
        r@ == dz1_s(dz2@, mat(w2@), mask@),
        r@.len() == mask@.len(),
        vec_in_range(r@),
{
    let n = mask.len();
    let mut r: Vec<i64> = Vec::new();
    for i in 0..n
        invariant
            r@ =~= dz1_s(dz2@, mat(w2@), mask@).take(i as int),
            vec_in_range(r@),
    {
        proof {
            assert(mat(w2@)[i as int] == w2@[i as int]@);
        }
        let d = dot(dz2, &w2[i]);
        let v = fmul(d, mask[i]);
        r.push(v);
    }
    proof {
        assert(dz1_s(dz2@, mat(w2@), mask@).take(n as int) =~= dz1_s(dz2@, mat(w2@), mask@));
    }
    r
}

/// Weight update: `mat(r@) == upd_w_s(mat(w@), u@, v@, lr)`.
#[verifier::loop_isolation(false)]
fn updated_weights(w: &Vec<Vec<i64>>, u: &Vec<i64>, v: &Vec<i64>, lr: i64) -> (r: Vec<Vec<i64>>)
    requires
        mat_wf(mat(w@), u@.len() as int, v@.len() as int),
        vec_in_range(u@),
        vec_in_range(v@),
        in_range(lr),
    ensures
        mat(r@) == upd_w_s(mat(w@), u@, v@, lr),
        mat_wf(mat(r@), u@.len() as int, v@.len() as int),
{
    let rows = u.len();
    let cols = v.len();
    let ghost target = upd_w_s(mat(w@), u@, v@, lr);
    let mut r: Vec<Vec<i64>> = Vec::new();
    for i in 0..rows
        invariant
            r@.len() == i,
            forall|k: int| 0 <= k < i as int ==> #[trigger] mat(r@)[k] == target[k],
            forall|k: int| 0 <= k < i as int ==> vec_in_range(#[trigger] mat(r@)[k]),
    {
        let mut row: Vec<i64> = Vec::new();
        proof {
            assert(mat(w@)[i as int] == w@[i as int]@);
            assert(target[i as int].len() == cols as int);
        }
        for j in 0..cols
            invariant
                row@ =~= target[i as int].take(j as int),
                vec_in_range(row@),
        {
            let g = fmul(u[i], v[j]);
            let d = fmul(lr, g);
            let nv = fsub(w[i][j], d);
            proof {
                assert(target[i as int][j as int] == fsub_s(
                    mat(w@)[i as int][j as int],
                    fmul_s(lr, fmul_s(u@[i as int], v@[j as int])),
                ));
            }
            row.push(nv);
        }
        proof {
            assert(target[i as int].take(cols as int) =~= target[i as int]);
        }
        let ghost pre = r@;
        r.push(row);
        proof {
            assert forall|k: int| 0 <= k < r@.len() implies #[trigger] mat(r@)[k] == target[k]
                && vec_in_range(mat(r@)[k]) by {
                if k < r@.len() - 1 {
                    assert(mat(r@)[k] == r@[k]@);
                    assert(r@[k] == pre[k]);
                    assert(mat(pre)[k] == pre[k]@);
                } else {
                    assert(mat(r@)[k] == row@);
                }
            }
        }
    }
    proof {
        assert(mat(r@) =~= target);
    }
    r
}

/// Bias update: `r@ == upd_b_s(b@, d@, lr)`.
#[verifier::loop_isolation(false)]
fn updated_bias(b: &Vec<i64>, d: &Vec<i64>, lr: i64) -> (r: Vec<i64>)
    requires
        b@.len() == d@.len(),
        vec_in_range(b@),
        vec_in_range(d@),
        in_range(lr),
    ensures
        r@ == upd_b_s(b@, d@, lr),
        r@.len() == b@.len(),
        vec_in_range(r@),
{
    let n = b.len();
    let mut r: Vec<i64> = Vec::new();
    for j in 0..n
        invariant
            r@ =~= upd_b_s(b@, d@, lr).take(j as int),
            vec_in_range(r@),
    {
        let v = fsub(b[j], fmul(lr, d[j]));
        r.push(v);
    }
    proof {
        assert(upd_b_s(b@, d@, lr).take(n as int) =~= upd_b_s(b@, d@, lr));
    }
    r
}

/// How many of the first `k` samples the network classifies correctly.
pub open spec fn correct_count_s(n: NetG, xs: Seq<Seq<i64>>, ls: Seq<u8>, k: int) -> int
    decreases k,
{
    if k <= 0 {
        0
    } else {
        correct_count_s(n, xs, ls, k - 1) + if predict_s(n, xs[k - 1]) == ls[k - 1] as int {
            1int
        } else {
            0int
        }
    }
}

/// The parameters form a consistent network.
pub open spec fn params_wf(w1: Seq<Seq<i64>>, b1: Seq<i64>, w2: Seq<Seq<i64>>, b2: Seq<i64>) -> bool {
    net_wf(
        NetG {
            input_size: w1.len() as int,
            hidden_size: b1.len() as int,
            output_size: b2.len() as int,
            w1: w1,
            b1: b1,
            w2: w2,
            b2: b2,
        },
    )
}

impl NeuralNetwork {
    /// A network with the given parameters: `w1` of shape
    /// `input_size x hidden_size`, `w2` of `hidden_size x output_size`, and
    /// the two bias vectors. Fails with `Construction` exactly when the
    /// shapes are inconsistent, a dimension is zero or too large, or an
    /// entry is out of range.
    pub fn from_params(w1: Vec<Vec<i64>>, b1: Vec<i64>, w2: Vec<Vec<i64>>, b2: Vec<i64>) -> (r:
        Result<NeuralNetwork, NetError>)
        ensures
            match r {
                Ok(net) => {
                    &&& params_wf(mat(w1@), b1@, mat(w2@), b2@)
                    &&& net.wf()
                    &&& net@.input_size == w1@.len()
                    &&& net@.hidden_size == b1@.len()
                    &&& net@.output_size == b2@.len()
                    &&& net@.w1 == mat(w1@)
                    &&& net@.b1 == b1@
                    &&& net@.w2 == mat(w2@)
                    &&& net@.b2 == b2@
                },
                Err(e) => {
                    &&& e == NetError::Construction
                    &&& !params_wf(mat(w1@), b1@, mat(w2@), b2@)
                },
            },
    {
        let isz = w1.len();
        let hsz = b1.len();
        let osz = b2.len();
        if isz == 0 || hsz == 0 || osz == 0 || osz > MAX_DIM {
            return Err(NetError::Construction);
        }
        if !mat_ok(&w1, isz, hsz) || !vec_ok(&b1, hsz) || !mat_ok(&w2, hsz, osz) || !vec_ok(
            &b2,
            osz,
        ) {
            return Err(NetError::Construction);
        }
        Ok(
            NeuralNetwork {
                input_size: isz,
                hidden_size: hsz,
                output_size: osz,
                w1,
                b1,
                w2,
                b2,
            },
        )
    }

    /// One stochastic gradient step on sample `(x, label)`: runs the forward
    /// pass, backpropagates, and updates all parameters in place. Returns
    /// the sample's loss and whether it was degenerate.
    pub fn train_step(&mut self, x: &Vec<i64>, label: usize, lr: i64) -> (out: (i64, bool))
        requires
            old(self).wf(),
            x@.len() == old(self)@.input_size,
            vec_in_range(x@),
            (label as int) < old(self)@.output_size,
            in_range(lr),
        ensures
            final(self)@ == step_s(old(self)@, x@, label as int, lr),
            final(self).wf(),
            out.0 == step_loss_s(old(self)@, x@, label as int),
            out.1 == step_degen_s(old(self)@, x@, label as int),
            0 <= out.0 <= DEGEN_LOSS,
    {
        let z1 = affine(x, &self.w1, &self.b1);
        let a1 = Self::relu(&z1);
        let z2 = affine(&a1, &self.w2, &self.b2);
        let a2 = Self::softmax(&z2);
        let p = a2[label];
        let loss: i64;
        let degen: bool;
        if p < 1 {
            loss = DEGEN_LOSS;
            degen = true;
        } else {
            loss = neg_ln_fixed(p);
            degen = false;
        }
        let dz2 = Self::output_delta(&a2, label);
        let mask = Self::relu_derivative(&z1);
        let dz1 = hidden_delta(&dz2, &self.w2, &mask);
        let nw2 = updated_weights(&self.w2, &a1, &dz2, lr);
        let nb2 = updated_bias(&self.b2, &dz2, lr);
        let nw1 = updated_weights(&self.w1, x, &dz1, lr);
        let nb1 = updated_bias(&self.b1, &dz1, lr);
        self.w1 = nw1;
        self.b1 = nb1;
        self.w2 = nw2;
        self.b2 = nb2;
        (loss, degen)
    }

    /// Train for `epochs` full passes over the dataset, stepping once per
    /// sample in the dataset's order, and report each epoch's average loss
    /// and its count of degenerate samples. A dataset whose row count and
    /// label count differ, and the first sample that does not fit the
    /// network, are reported as `ShapeMismatch` with the offending index;
    /// the misfit is found when the sample is first used, after the earlier
    /// samples of the first epoch have already been stepped on.
    #[verifier::loop_isolation(false)]
    pub fn train(
        &mut self,
        features: &Vec<Vec<i64>>,
        labels: &Vec<u8>,
        epochs: usize,
        learning_rate: i64,
    ) -> (r: Result<Vec<EpochReport>, NetError>)
        requires
            old(self).wf(),
            in_range(learning_rate),
            features@.len() <= MAX_SAMPLES,
        ensures
            final(self).wf(),
            final(self)@.input_size == old(self)@.input_size,
            final(self)@.hidden_size == old(self)@.hidden_size,
            final(self)@.output_size == old(self)@.output_size,
            ({
                let xs = mat(features@);
                let ls = labels@;
                let isz = old(self)@.input_size;
                let osz = old(self)@.output_size;
                match r {
                    Ok(reports) => {
                        &&& features@.len() == labels@.len()
                        &&& (epochs == 0 || first_bad_from(xs, ls, isz, osz, 0) == xs.len())
                        &&& final(self)@ == train_net_s(
                            old(self)@,
                            xs,
                            ls,
                            learning_rate,
                            epochs as int,
                        )
                        &&& reports@ == reports_s(old(self)@, xs, ls, learning_rate, epochs as int)
                        &&& reports@.len() == epochs
                    },
                    Err(e) => {
                        if features@.len() != labels@.len() {
                            &&& e == (NetError::ShapeMismatch {
                                index: (if features@.len() < labels@.len() {
                                    features@.len()
                                } else {
                                    labels@.len()
                                }) as usize,
                            })
                            &&& final(self)@ == old(self)@
                        } else {
                            let bad = first_bad_from(xs, ls, isz, osz, 0);
                            &&& epochs >= 1
                            &&& 0 <= bad < xs.len()
                            &&& e == (NetError::ShapeMismatch { index: bad as usize })
                            &&& final(self)@ == run_samples_s(old(self)@, xs, ls, learning_rate, bad)
                        }
                    },
                }
            }),
    {
        let flen = features.len();
        let llen = labels.len();
        if flen != llen {
            let ix = if flen < llen {
                flen
            } else {
                llen
            };
            return Err(NetError::ShapeMismatch { index: ix });
        }
        let n = flen;
        let ghost xs = mat(features@);
        let ghost ls = labels@;
        let ghost net0 = self@;
        let ghost isz = self@.input_size;
        let ghost osz = self@.output_size;
        let mut reports: Vec<EpochReport> = Vec::new();
        let mut ep: usize = 0;
        while ep < epochs
            invariant
                self.wf(),
                self@.input_size == isz,
                self@.hidden_size == net0.hidden_size,
                self@.output_size == osz,
                ep <= epochs,
                self@ == train_net_s(net0, xs, ls, learning_rate, ep as int),
                reports@ == reports_s(net0, xs, ls, learning_rate, ep as int),
                reports@.len() == ep,
                ep >= 1 ==> first_bad_from(xs, ls, isz, osz, 0) == n as int,
            decreases epochs - ep,
        {
            let ghost epnet = self@;
            let mut total: i64 = 0;
            let mut degen: usize = 0;
            let mut i: usize = 0;
            while i < n
                invariant
                    self.wf(),
                    self@.input_size == isz,
                    self@.hidden_size == net0.hidden_size,
                    self@.output_size == osz,
                    i <= n,
                    ep < epochs,
                    self@ == run_samples_s(epnet, xs, ls, learning_rate, i as int),
                    total == epoch_total_s(epnet, xs, ls, learning_rate, i as int),
                    0 <= total <= (i as int) * (DEGEN_LOSS as int),
                    degen as int == epoch_degen_s(epnet, xs, ls, learning_rate, i as int),
                    degen <= i,
                    forall|j: int| 0 <= j < i as int ==> sample_ok_s(xs, ls, j, isz, osz),
                    ep >= 1 ==> first_bad_from(xs, ls, isz, osz, 0) == n as int,
                    epnet == train_net_s(net0, xs, ls, learning_rate, ep as int),
                decreases n - i,
            {
                let x = &features[i];
                let y = labels[i];
                proof {
                    assert(xs[i as int] == features@[i as int]@);
                }
                let ok = vec_ok(x, self.input_size);
                if !ok || (y as usize) >= self.output_size {
                    proof {
                        assert(!sample_ok_s(xs, ls, i as int, isz, osz));
                        if ep == 0 {
                            lemma_first_bad_prefix(xs, ls, isz, osz, i as int);
                            assert(first_bad_from(xs, ls, isz, osz, 0) == i as int);
                        } else {
                            lemma_first_bad_all_ok(xs, ls, isz, osz, i as int);
                            assert(false);
                        }
                    }
                    return Err(NetError::ShapeMismatch { index: i });
                }
                let (loss, dg) = self.train_step(x, y as usize, learning_rate);
                total = total + loss;
                if dg {
                    degen = degen + 1;
                }
                i = i + 1;
            }
            let avg: i64;
            if n == 0 {
                avg = 0;
            } else {
                proof {
                    lemma_div_pos_is_pos(total as int, n as int);
                    lemma_div_nonincreasing(total as int, n as int);
                }
                avg = ((total as u64) / (n as u64)) as i64;
            }
            proof {
                assert(avg == epoch_avg_s(epnet, xs, ls, learning_rate));
                assert(epoch_report_s(epnet, xs, ls, learning_rate) == (EpochReport {
                    avg_loss: avg,
                    degenerate: degen,
                }));
                if n > 0 {
                    lemma_first_bad_prefix(xs, ls, isz, osz, n as int);
                }
            }
            reports.push(EpochReport { avg_loss: avg, degenerate: degen });
            ep = ep + 1;
        }
        Ok(reports)
    }

    /// Evaluate the network: the fraction of samples whose prediction equals
    /// their label, as a fixed-point value in `[0, ONE]`. An empty dataset
    /// has no defined accuracy and is reported as `NumericDegeneracy`;
    /// mismatched lengths and the first sample that does not fit are
    /// reported as `ShapeMismatch`.
    #[verifier::loop_isolation(false)]
    pub fn test(&self, features: &Vec<Vec<i64>>, labels: &Vec<u8>) -> (r: Result<i64, NetError>)
        requires
            self.wf(),
            features@.len() <= MAX_SAMPLES,
        ensures
            ({
                let xs = mat(features@);
                let ls = labels@;
                let isz = self@.input_size;
                let osz = self@.output_size;
                match r {
                    Ok(acc) => {
                        &&& features@.len() == labels@.len()
                        &&& features@.len() >= 1
                        &&& first_bad_from(xs, ls, isz, osz, 0) == xs.len()
                        &&& acc as int == (correct_count_s(self@, xs, ls, xs.len() as int) * (
                        ONE as int)) / (xs.len() as int)
                        &&& 0 <= acc <= ONE
                    },
                    Err(e) => {
                        if features@.len() != labels@.len() {
                            e == (NetError::ShapeMismatch {
                                index: (if features@.len() < labels@.len() {
                                    features@.len()
                                } else {
                                    labels@.len()
                                }) as usize,
                            })
                        } else if features@.len() == 0 {
                            e == NetError::NumericDegeneracy
                        } else {
                            let bad = first_bad_from(xs, ls, isz, osz, 0);
                            &&& 0 <= bad < xs.len()
                            &&& e == (NetError::ShapeMismatch { index: bad as usize })
                        }
                    },
                }
            }),
    {
        let flen = features.len();
        let llen = labels.len();
        if flen != llen {
            let ix = if flen < llen {
                flen
            } else {
                llen
            };
            return Err(NetError::ShapeMismatch { index: ix });
        }
        if flen == 0 {
            return Err(NetError::NumericDegeneracy);
        }
        let n = flen;
        let ghost xs = mat(features@);
        let ghost ls = labels@;
        let ghost isz = self@.input_size;
        let ghost osz = self@.output_size;
        let mut correct: usize = 0;
        let mut i: usize = 0;
        while i < n
            invariant
                i <= n,
                correct as int == correct_count_s(self@, xs, ls, i as int),
                correct <= i,
                forall|j: int| 0 <= j < i as int ==> sample_ok_s(xs, ls, j, isz, osz),
            decreases n - i,
        {
            let x = &features[i];
            let y = labels[i];
            proof {
                assert(xs[i as int] == features@[i as int]@);
            }
            let ok = vec_ok(x, self.input_size);
            if !ok || (y as usize) >= self.output_size {
                proof {
                    assert(!sample_ok_s(xs, ls, i as int, isz, osz));
                    lemma_first_bad_prefix(xs, ls, isz, osz, i as int);
                }
                return Err(NetError::ShapeMismatch { index: i });
            }
            let p = self.predict(x);
            if p == y as usize {
                correct = correct + 1;
            }
            i = i + 1;
        }
        proof {
            lemma_first_bad_prefix(xs, ls, isz, osz, n as int);
            let c = correct_count_s(self@, xs, ls, n as int);
            lemma_div_pos_is_pos(c * (ONE as int), n as int);
            lemma_mul_inequality(c, n as int, ONE as int);
            lemma_div_is_ordered(c * (ONE as int), (n as int) * (ONE as int), n as int);
            lemma_div_multiples_vanish(ONE as int, n as int);
        }
        let acc: i64 = (((correct as u64) * (ONE as u64)) / (n as u64)) as i64;
        Ok(acc)
    }
}

} // verus!
