use vstd::prelude::*;

use crate::array::{Array, IndexType};
use crate::error::NetError;
use crate::func::{Activation, Cost};
use crate::linalg::{LinAlg, LinAlgGen, LinAlgMul, Matrix, Vector};
use crate::mat::{
    argmax, difference, filled, hadamard, lemma_same_grid, mapped, product, product_t1, product_t2,
    scaled, sum, Mat,
};
use crate::num::{Num, Real};

verus! {

/// Default number of samples per gradient application.
pub const BATCH_SIZE: usize = 32;

/// The grids held by a sequence of matrices or vectors.
pub open spec fn mats<N: Num, T: LinAlgGen<N>>(s: Seq<T>) -> Seq<Mat<N>> {
    Seq::new(s.len(), |i: int| s[i].mat())
}

/// `m` with the activation applied to every entry.
pub open spec fn activate<N: Real>(act: Activation, m: Mat<N>) -> Mat<N> {
    mapped(m, |x: N| act.act_spec(x))
}

/// `m` with the activation's derivative applied to every entry.
pub open spec fn d_activate<N: Real>(act: Activation, m: Mat<N>) -> Mat<N> {
    mapped(m, |x: N| act.d_act_spec(x))
}

/// The activations of layer `l` for input `x`: `x` itself for `l = 0`, then
/// `act(ws[l-1] · a + bs[l-1])` for the activations `a` of the layer before.
pub open spec fn forward_acts<N: Real>(
    ws: Seq<Mat<N>>,
    bs: Seq<Mat<N>>,
    act: Activation,
    x: Mat<N>,
    l: nat,
) -> Mat<N>
    decreases l, 0nat,
{
    if l == 0 {
        x
    } else {
        activate(act, forward_sum(ws, bs, act, x, (l - 1) as nat))
    }
}

/// The pre-activation `ws[l] · a + bs[l]` of layer `l + 1`, `a` the
/// activations of layer `l`.
pub open spec fn forward_sum<N: Real>(
    ws: Seq<Mat<N>>,
    bs: Seq<Mat<N>>,
    act: Activation,
    x: Mat<N>,
    l: nat,
) -> Mat<N>
    decreases l, 1nat,
{
    sum(product(ws[l as int], forward_acts(ws, bs, act, x, l)), bs[l as int])
}

/// The parameters fit the layer widths `form`: `ws[l]` is `form[l+1]` by
/// `form[l]` and `bs[l]` is a column of `form[l+1]` entries.
pub open spec fn shaped<N>(form: Seq<usize>, ws: Seq<Mat<N>>, bs: Seq<Mat<N>>) -> bool {
    &&& form.len() >= 1
    &&& ws.len() == form.len() - 1
    &&& bs.len() == form.len() - 1
    &&& forall|l: int|
        0 <= l < ws.len() ==> {
            &&& (#[trigger] ws[l]).wf()
            &&& ws[l].rows == form[l + 1]
            &&& ws[l].cols == form[l]
        }
    &&& forall|l: int|
        0 <= l < bs.len() ==> {
            &&& (#[trigger] bs[l]).wf()
            &&& bs[l].rows == form[l + 1]
            &&& bs[l].cols == 1
        }
}

/// The settings a network is built from.
pub struct HyperData<N, const L: usize> {
    /// Layer widths, input first.
    pub form: Vec<usize>,
    /// Samples per gradient application.
    pub batch_size: usize,
    /// Base learning rate, divided by the number of samples in a batch.
    pub learn_rate: N,
    /// Activation of every layer after the input.
    pub act: Activation,
    /// Cost applied to the output residual.
    pub cost: Cost,
    /// Where the model is saved.
    pub dir: String,
    /// Whether training reports each epoch.
    pub stat_epoch: bool,
    /// Whether training reports the accuracy after each epoch.
    pub stat_error: bool,
}

/// The value of a [`HyperData`].
pub struct Hyper<N> {
    pub form: Seq<usize>,
    pub batch_size: usize,
    pub learn_rate: N,
    pub act: Activation,
    pub cost: Cost,
    pub dir: Seq<char>,
    pub stat_epoch: bool,
    pub stat_error: bool,
}

impl<N, const L: usize> View for HyperData<N, L> {
    type V = Hyper<N>;

    open spec fn view(&self) -> Hyper<N> {
        Hyper {
            form: self.form@,
            batch_size: self.batch_size,
            learn_rate: self.learn_rate,
            act: self.act,
            cost: self.cost,
            dir: self.dir@,
            stat_epoch: self.stat_epoch,
            stat_error: self.stat_error,
        }
    }
}

impl<N: Real, const L: usize> HyperData<N, L> {
    /// The default learning rate, one hundredth.
    pub open spec fn default_rate() -> N {
        N::over_spec(N::from_usize_spec(1), N::from_usize_spec(100))
    }

    /// Settings for the layer widths `form`, every other option at its
    /// default: batches of 32, learning rate 0.01, sigmoid activation,
    /// quadratic cost, empty save path, no reports.
    pub fn from_form(form: [usize; L]) -> (r: Self)
        ensures
            r@ == (Hyper {
                form: form@,
                batch_size: BATCH_SIZE,
                learn_rate: Self::default_rate(),
                act: Activation::Sig,
                cost: Cost::Quad,
                dir: Seq::<char>::empty(),
                stat_epoch: false,
                stat_error: false,
            }),
    {
        let mut v: Vec<usize> = Vec::with_capacity(L);
        let mut i: usize = 0;
        while i < L
            invariant
                i <= L,
                v@ == form@.subrange(0, i as int),
            decreases L - i,
        {
            v.push(form[i]);
            i = i + 1;
            proof {
                assert(v@ =~= form@.subrange(0, i as int));
            }
        }
        proof {
            assert(v@ =~= form@);
        }
        let dir = String::new();
        proof {
            assert(dir@ =~= Seq::<char>::empty());
        }
        HyperData {
            form: v,
            batch_size: BATCH_SIZE,
            learn_rate: N::from_usize(1).over(N::from_usize(100)),
            act: Activation::Sig,
            cost: Cost::Quad,
            dir,
            stat_epoch: false,
            stat_error: false,
        }
    }

    /// A copy of these settings.
    pub fn copy(&self) -> (r: Self)
        ensures
            r@ == self@,
    {
        let n = self.form.len();
        let mut v: Vec<usize> = Vec::with_capacity(n);
        let mut i: usize = 0;
        while i < n
            invariant
                i <= n,
                n == self.form@.len(),
                v@ == self.form@.subrange(0, i as int),
            decreases n - i,
        {
            v.push(self.form[i]);
            i = i + 1;
            proof {
                assert(v@ =~= self.form@.subrange(0, i as int));
            }
        }
        proof {
            assert(v@ =~= self.form@);
        }
        HyperData {
            form: v,
            batch_size: self.batch_size,
            learn_rate: self.learn_rate,
            act: self.act,
            cost: self.cost,
            dir: self.dir.clone(),
            stat_epoch: self.stat_epoch,
            stat_error: self.stat_error,
        }
    }

    pub fn with_batch_size(&mut self, size: usize) -> (r: &mut Self)
        ensures
            r@ == (Hyper { batch_size: size, ..old(self)@ }),
            final(self)@ == final(r)@,
    {
        self.batch_size = size;
        self
    }

    pub fn with_learn_rate(&mut self, rate: N) -> (r: &mut Self)
        ensures
            r@ == (Hyper { learn_rate: rate, ..old(self)@ }),
            final(self)@ == final(r)@,
    {
        self.learn_rate = rate;
        self
    }

    pub fn with_act(&mut self, act: Activation) -> (r: &mut Self)
        ensures
            r@ == (Hyper { act: act, ..old(self)@ }),
            final(self)@ == final(r)@,
    {
        self.act = act;
        self
    }

    pub fn with_cost(&mut self, cost: Cost) -> (r: &mut Self)
        ensures
            r@ == (Hyper { cost: cost, ..old(self)@ }),
            final(self)@ == final(r)@,
    {
        self.cost = cost;
        self
    }

    pub fn with_dir(&mut self, dir: &str) -> (r: &mut Self)
        ensures
            r@ == (Hyper { dir: dir@, ..old(self)@ }),
            final(self)@ == final(r)@,
    {
        self.dir = dir.to_owned();
        self
    }

    pub fn with_epoch_stats(&mut self, state: bool) -> (r: &mut Self)
        ensures
            r@ == (Hyper { stat_epoch: state, ..old(self)@ }),
            final(self)@ == final(r)@,
    {
        self.stat_epoch = state;
        self
    }

    pub fn with_error_stats(&mut self, state: bool) -> (r: &mut Self)
        ensures
            r@ == (Hyper { stat_error: state, ..old(self)@ }),
            final(self)@ == final(r)@,
    {
        self.stat_error = state;
        self
    }
}

/// The pre-activations of every layer after the input, for input `x`.
pub open spec fn forward_sums<N: Real>(ws: Seq<Mat<N>>, bs: Seq<Mat<N>>, act: Activation, x: Mat<N>) -> Seq<Mat<N>> {
    Seq::new(ws.len(), |k: int| forward_sum(ws, bs, act, x, k as nat))
}

/// The output layer's error for target `y`, output `a` and pre-activation
/// `z`: `cost'(y - a) ⊙ act'(z)`.
pub open spec fn output_err<N: Real>(act: Activation, cost: Cost, y: Mat<N>, a: Mat<N>, z: Mat<N>) -> Mat<N> {
    hadamard(mapped(difference(y, a), |d: N| cost.d_cost_spec(d)), d_activate(act, z))
}

/// The error of layer `k`, propagated back from the error `top` of layer `n`:
/// `(ws[k+1]ᵀ · e) ⊙ act'(zs[k])`, `e` the error of layer `k + 1`.
pub open spec fn layer_err<N: Real>(
    ws: Seq<Mat<N>>,
    zs: Seq<Mat<N>>,
    act: Activation,
    top: Mat<N>,
    n: int,
    k: int,
) -> Mat<N>
    decreases n - k,
{
    if k >= n {
        top
    } else {
        hadamard(product_t1(ws[k + 1], layer_err(ws, zs, act, top, n, k + 1)), d_activate(act, zs[k]))
    }
}

/// The bias gradient of every layer for one sample `(x, y)`.
pub open spec fn sample_errs<N: Real>(
    ws: Seq<Mat<N>>,
    bs: Seq<Mat<N>>,
    act: Activation,
    cost: Cost,
    x: Mat<N>,
    y: Mat<N>,
) -> Seq<Mat<N>> {
    let n = ws.len() - 1;
    let zs = forward_sums(ws, bs, act, x);
    let top = output_err(act, cost, y, forward_acts(ws, bs, act, x, ws.len()), zs[n]);
    Seq::new(ws.len(), |k: int| layer_err(ws, zs, act, top, n, k))
}

/// The weight gradient of every layer for one sample `(x, y)`: the layer's
/// error times the transpose of its input activations.
pub open spec fn sample_w_errs<N: Real>(
    ws: Seq<Mat<N>>,
    bs: Seq<Mat<N>>,
    act: Activation,
    cost: Cost,
    x: Mat<N>,
    y: Mat<N>,
) -> Seq<Mat<N>> {
    Seq::new(
        ws.len(),
        |k: int| product_t2(sample_errs(ws, bs, act, cost, x, y)[k], forward_acts(ws, bs, act, x, k as nat)),
    )
}

/// `a[k] + b[k]` for every layer `k`.
pub open spec fn plus_all<N: Num>(a: Seq<Mat<N>>, b: Seq<Mat<N>>) -> Seq<Mat<N>> {
    Seq::new(a.len(), |k: int| sum(a[k], b[k]))
}

/// `p[k] + g[k]·s` for every layer `k`.
pub open spec fn step_all<N: Num>(p: Seq<Mat<N>>, g: Seq<Mat<N>>, s: N) -> Seq<Mat<N>> {
    Seq::new(p.len(), |k: int| sum(p[k], scaled(g[k], s)))
}

/// The state that training changes: parameters, accumulated gradients and
/// the number of samples accumulated.
pub struct Train<N> {
    pub ws: Seq<Mat<N>>,
    pub bs: Seq<Mat<N>>,
    pub ae: Seq<Mat<N>>,
    pub aw: Seq<Mat<N>>,
    pub count: nat,
}

/// The accumulators emptied.
pub open spec fn reset<N: Num>(t: Train<N>) -> Train<N> {
    Train { ae: zeros_like(t.ae), aw: zeros_like(t.aw), count: 0, ..t }
}

/// One gradient application over `n` samples: every parameter moves by its
/// accumulated gradient times `rate / n`, then the accumulators are emptied.
pub open spec fn applied<N: Real>(t: Train<N>, rate: N, n: usize) -> Train<N> {
    let s = N::over_spec(rate, N::from_usize_spec(n));
    reset(Train { ws: step_all(t.ws, t.aw, s), bs: step_all(t.bs, t.ae, s), ..t })
}

/// One sample: its gradients are accumulated, and a full batch is applied.
pub open spec fn sample_step<N: Real>(t: Train<N>, h: Hyper<N>, x: Mat<N>, y: Mat<N>) -> Train<N> {
    let u = Train {
        ae: plus_all(t.ae, sample_errs(t.ws, t.bs, h.act, h.cost, x, y)),
        aw: plus_all(t.aw, sample_w_errs(t.ws, t.bs, h.act, h.cost, x, y)),
        count: t.count + 1,
        ..t
    };
    if u.count == h.batch_size {
        applied(u, h.learn_rate, h.batch_size)
    } else {
        u
    }
}

/// The state after the first `i` samples of an epoch.
pub open spec fn epoch_prefix<N: Real>(
    t: Train<N>,
    h: Hyper<N>,
    xs: Seq<Mat<N>>,
    ys: Seq<Mat<N>>,
    i: nat,
) -> Train<N>
    decreases i,
{
    if i == 0 {
        reset(t)
    } else {
        sample_step(epoch_prefix(t, h, xs, ys, (i - 1) as nat), h, xs[i - 1], ys[i - 1])
    }
}

/// One epoch: every sample in order, then the partial last batch applied.
pub open spec fn epoch<N: Real>(t: Train<N>, h: Hyper<N>, xs: Seq<Mat<N>>, ys: Seq<Mat<N>>) -> Train<N> {
    let u = epoch_prefix(t, h, xs, ys, xs.len());
    if u.count != 0 {
        applied(u, h.learn_rate, u.count as usize)
    } else {
        u
    }
}

/// `e` epochs in a row.
pub open spec fn epoch_run<N: Real>(t: Train<N>, h: Hyper<N>, xs: Seq<Mat<N>>, ys: Seq<Mat<N>>, e: nat) -> Train<N>
    decreases e,
{
    if e == 0 {
        t
    } else {
        epoch(epoch_run(t, h, xs, ys, (e - 1) as nat), h, xs, ys)
    }
}

/// Every input has `n_in` entries and every target `n_out`.
pub open spec fn samples_fit<N: Num>(xs: Seq<Vector<N>>, ys: Seq<Vector<N>>, n_in: nat, n_out: nat) -> bool {
    &&& xs.len() == ys.len()
    &&& forall|i: int| 0 <= i < xs.len() ==> (#[trigger] xs[i]).wf() && xs[i].mat().rows == n_in
    &&& forall|i: int| 0 <= i < ys.len() ==> (#[trigger] ys[i]).wf() && ys[i].mat().rows == n_out
}

/// As many targets as inputs, and every input has `n_in` entries.
pub open spec fn inputs_fit<N: Num>(xs: Seq<Vector<N>>, ys: Seq<Vector<N>>, n_in: nat) -> bool {
    &&& xs.len() == ys.len()
    &&& forall|i: int| 0 <= i < xs.len() ==> (#[trigger] xs[i]).wf() && xs[i].mat().rows == n_in
}

/// How many of the first `i` samples the network `n` classifies right: the
/// index of the largest output equals the index of the largest target entry.
pub open spec fn hits<N: Real, const L: usize>(n: Net<N, L>, xs: Seq<Mat<N>>, ys: Seq<Mat<N>>, i: nat) -> nat
    decreases i,
{
    if i == 0 {
        0
    } else {
        let out = n.predict(xs[i - 1]);
        hits(n, xs, ys, (i - 1) as nat) + if argmax(out.column(0), out.rows) == argmax(
            ys[i - 1].column(0),
            ys[i - 1].rows,
        ) {
            1nat
        } else {
            0nat
        }
    }
}

/// Each `a[l]` is a well-formed column of `form[l + off]` entries.
pub open spec fn vectors_fit<N: Num>(a: Seq<Vector<N>>, form: Seq<usize>, off: int) -> bool {
    forall|l: int|
        0 <= l < a.len() ==> {
            &&& (#[trigger] a[l]).wf()
            &&& a[l].mat().rows == form[l + off]
            &&& a[l].mat().cols == 1
        }
}

/// Each `a[l]` is a well-formed `form[l+1]` by `form[l]` matrix.
pub open spec fn matrices_fit<N: Num>(a: Seq<Matrix<N>>, form: Seq<usize>) -> bool {
    forall|l: int|
        0 <= l < a.len() ==> {
            &&& (#[trigger] a[l]).wf()
            &&& a[l].mat().rows == form[l + 1]
            &&& a[l].mat().cols == form[l]
        }
}

/// Each `ms[l]` is a well-formed column of `form[l + off]` entries.
pub open spec fn columns_fit<N>(ms: Seq<Mat<N>>, form: Seq<usize>, off: int) -> bool {
    forall|l: int|
        0 <= l < ms.len() ==> {
            &&& (#[trigger] ms[l]).wf()
            &&& ms[l].rows == form[l + off]
            &&& ms[l].cols == 1
        }
}

/// Each `ms[l]` is a well-formed `form[l+1]` by `form[l]` grid.
pub open spec fn grids_fit<N>(ms: Seq<Mat<N>>, form: Seq<usize>) -> bool {
    forall|l: int|
        0 <= l < ms.len() ==> {
            &&& (#[trigger] ms[l]).wf()
            &&& ms[l].rows == form[l + 1]
            &&& ms[l].cols == form[l]
        }
}

/// Columns of zeros, the `l`-th of `form[l + off]` entries.
pub open spec fn zero_columns<N: Num>(form: Seq<usize>, off: int) -> Seq<Mat<N>> {
    Seq::new((form.len() - off) as nat, |l: int| filled(form[l + off] as nat, 1, N::zero_spec()))
}

/// Grids of zeros, the `l`-th `form[l+1]` by `form[l]`.
pub open spec fn zero_grids<N: Num>(form: Seq<usize>) -> Seq<Mat<N>> {
    Seq::new((form.len() - 1) as nat, |l: int| filled(form[l + 1] as nat, form[l] as nat, N::zero_spec()))
}

/// Zero grids of the shapes of `ms`.
pub open spec fn zeros_like<N: Num>(ms: Seq<Mat<N>>) -> Seq<Mat<N>> {
    Seq::new(ms.len(), |i: int| filled(ms[i].rows, ms[i].cols, N::zero_spec()))
}

/// Columns of zeros of widths `form[off..]`.
fn zero_vectors<N: Num>(form: &Vec<usize>, off: usize) -> (r: Array<Vector<N>>)
    requires
        off <= form@.len(),
    ensures
        r@.len() == form@.len() - off,
        vectors_fit(r@, form@, off as int),
        forall|l: int|
            0 <= l < r@.len() ==> (#[trigger] r@[l]).mat() == filled(
                form@[l + off] as nat,
                1,
                N::zero_spec(),
            ),
{
    let n = form.len();
    let mut buf: Vec<Vector<N>> = Vec::with_capacity(n - off);
    let mut i: usize = off;
    while i < n
        invariant
            off <= i <= n,
            n == form@.len(),
            buf@.len() == i - off,
            vectors_fit(buf@, form@, off as int),
            forall|l: int|
                0 <= l < buf@.len() ==> (#[trigger] buf@[l]).mat() == filled(
                    form@[l + off] as nat,
                    1,
                    N::zero_spec(),
                ),
        decreases n - i,
    {
        let v: Vector<N> = Vector::from_zeros(form[i], 1);
        buf.push(v);
        i = i + 1;
    }
    Array::from_buf(buf)
}

/// Matrices of zeros, the `l`-th of shape `form[l+1]` by `form[l]`.
fn zero_matrices<N: Num>(form: &Vec<usize>) -> (r: Array<Matrix<N>>)
    requires
        form@.len() >= 1,
        forall|l: int| 0 <= l < form@.len() - 1 ==> form@[l + 1] * #[trigger] form@[l] <= usize::MAX,
    ensures
        r@.len() == form@.len() - 1,
        matrices_fit(r@, form@),
        forall|l: int|
            0 <= l < r@.len() ==> (#[trigger] r@[l]).mat() == filled(
                form@[l + 1] as nat,
                form@[l] as nat,
                N::zero_spec(),
            ),
{
    let n = form.len() - 1;
    let mut buf: Vec<Matrix<N>> = Vec::with_capacity(n);
    let mut i: usize = 0;
    while i < n
        invariant
            i <= n,
            n == form@.len() - 1,
            buf@.len() == i,
            forall|l: int| 0 <= l < form@.len() - 1 ==> form@[l + 1] * #[trigger] form@[l] <= usize::MAX,
            matrices_fit(buf@, form@),
            forall|l: int|
                0 <= l < buf@.len() ==> (#[trigger] buf@[l]).mat() == filled(
                    form@[l + 1] as nat,
                    form@[l] as nat,
                    N::zero_spec(),
                ),
        decreases n - i,
    {
        let m: Matrix<N> = Matrix::from_zeros(form[i + 1], form[i]);
        buf.push(m);
        i = i + 1;
    }
    Array::from_buf(buf)
}

/// A feed-forward network of `L` layers over the scalar `N`, with every
/// buffer that training needs.
pub struct Net<N, const L: usize> {
    weights: Array<Matrix<N>>,
    biases: Array<Vector<N>>,
    /// activations of the last forward pass, input first
    acts: Array<Vector<N>>,
    /// pre-activations of the last forward pass
    sums: Array<Vector<N>>,
    /// bias gradient of the last sample
    err: Array<Vector<N>>,
    /// bias gradient accumulated over the current batch
    acc_err: Array<Vector<N>>,
    /// weight gradient of the last sample
    w_err: Array<Matrix<N>>,
    /// weight gradient accumulated over the current batch
    acc_w_err: Array<Matrix<N>>,
    /// samples accumulated since the last gradient application
    acc_samples: usize,
    data: HyperData<N, L>,
}

impl<N: Real, const L: usize> Net<N, L> {
    pub closed spec fn ws(&self) -> Seq<Mat<N>> {
        mats(self.weights@)
    }

    pub closed spec fn bs(&self) -> Seq<Mat<N>> {
        mats(self.biases@)
    }

    pub closed spec fn activations(&self) -> Seq<Mat<N>> {
        mats(self.acts@)
    }

    pub closed spec fn pre_acts(&self) -> Seq<Mat<N>> {
        mats(self.sums@)
    }

    pub closed spec fn errors(&self) -> Seq<Mat<N>> {
        mats(self.err@)
    }

    pub closed spec fn weight_errors(&self) -> Seq<Mat<N>> {
        mats(self.w_err@)
    }

    pub closed spec fn acc_errors(&self) -> Seq<Mat<N>> {
        mats(self.acc_err@)
    }

    pub closed spec fn acc_weight_errors(&self) -> Seq<Mat<N>> {
        mats(self.acc_w_err@)
    }

    pub closed spec fn samples(&self) -> nat {
        self.acc_samples as nat
    }

    pub closed spec fn hyper(&self) -> Hyper<N> {
        self.data@
    }

    /// Every buffer has the shape the layer widths demand.
    pub closed spec fn wf(&self) -> bool {
        let form = self.data.form@;
        &&& L >= 3
        &&& form.len() == L
        &&& self.weights@.len() == L - 1
        &&& self.w_err@.len() == L - 1
        &&& self.acc_w_err@.len() == L - 1
        &&& self.biases@.len() == L - 1
        &&& self.sums@.len() == L - 1
        &&& self.err@.len() == L - 1
        &&& self.acc_err@.len() == L - 1
        &&& self.acts@.len() == L
        &&& matrices_fit(self.weights@, form)
        &&& matrices_fit(self.w_err@, form)
        &&& matrices_fit(self.acc_w_err@, form)
        &&& vectors_fit(self.biases@, form, 1)
        &&& vectors_fit(self.sums@, form, 1)
        &&& vectors_fit(self.err@, form, 1)
        &&& vectors_fit(self.acc_err@, form, 1)
        &&& vectors_fit(self.acts@, form, 0)
    }

    /// The output of the network on input `x`.
    pub open spec fn predict(&self, x: Mat<N>) -> Mat<N> {
        forward_acts(self.ws(), self.bs(), self.hyper().act, x, (L - 1) as nat)
    }

    /// Same weights, biases and settings.
    pub open spec fn same_model(&self, o: &Self) -> bool {
        &&& self.ws() == o.ws()
        &&& self.bs() == o.bs()
        &&& self.hyper() == o.hyper()
    }

    /// Same accumulated gradients and sample count.
    pub open spec fn same_acc(&self, o: &Self) -> bool {
        &&& self.acc_errors() == o.acc_errors()
        &&& self.acc_weight_errors() == o.acc_weight_errors()
        &&& self.samples() == o.samples()
    }

    /// Every buffer has the shape the layer widths demand: activations have
    /// `form[l]` entries; pre-activations, errors and biases `form[l+1]`;
    /// weights and weight gradients are `form[l+1]` by `form[l]`.
    pub proof fn lemma_shaped(&self)
        requires
            self.wf(),
        ensures
            shaped(self.hyper().form, self.ws(), self.bs()),
            L >= 3,
            columns_fit(self.activations(), self.hyper().form, 0),
            columns_fit(self.pre_acts(), self.hyper().form, 1),
            columns_fit(self.errors(), self.hyper().form, 1),
            columns_fit(self.acc_errors(), self.hyper().form, 1),
            grids_fit(self.weight_errors(), self.hyper().form),
            grids_fit(self.acc_weight_errors(), self.hyper().form),
            self.hyper().form.len() == L,
            self.ws().len() == L - 1,
            self.bs().len() == L - 1,
            self.activations().len() == L,
            self.pre_acts().len() == L - 1,
            self.errors().len() == L - 1,
            self.weight_errors().len() == L - 1,
            self.acc_errors().len() == L - 1,
            self.acc_weight_errors().len() == L - 1,
    {
        assert forall|l: int| 0 <= l < L - 1 implies (#[trigger] self.ws()[l]).wf() by {
            self.weights@[l].lemma_wf();
        }
        assert forall|l: int| 0 <= l < L - 1 implies (#[trigger] self.bs()[l]).wf() by {
            self.biases@[l].lemma_wf();
        }
        assert forall|l: int| 0 <= l < L implies (#[trigger] self.activations()[l]).wf() by {
            self.acts@[l].lemma_wf();
        }
        assert forall|l: int| 0 <= l < L - 1 implies (#[trigger] self.pre_acts()[l]).wf() by {
            self.sums@[l].lemma_wf();
        }
        assert forall|l: int| 0 <= l < L - 1 implies (#[trigger] self.errors()[l]).wf() by {
            self.err@[l].lemma_wf();
        }
        assert forall|l: int| 0 <= l < L - 1 implies (#[trigger] self.acc_errors()[l]).wf() by {
            self.acc_err@[l].lemma_wf();
        }
        assert forall|l: int| 0 <= l < L - 1 implies (#[trigger] self.weight_errors()[l]).wf() by {
            self.w_err@[l].lemma_wf();
        }
        assert forall|l: int| 0 <= l < L - 1 implies (#[trigger] self.acc_weight_errors()[l]).wf() by {
            self.acc_w_err@[l].lemma_wf();
        }
    }

    /// A network with the settings `data` and the weights `weights`; biases
    /// and every other buffer start at zero.
    pub fn from_parts(data: HyperData<N, L>, weights: Array<Matrix<N>>) -> (r: Result<Self, NetError>)
        requires
            weights.all_wf(),
        ensures
            (L < 3 || data.form@.len() != L) ==> r == Err::<Self, NetError>(NetError::InvalidDepth),
            (L >= 3 && data.form@.len() == L) ==> (r is Ok <==> (weights@.len() == L - 1
                && matrices_fit(weights@, data.form@))),
            (L >= 3 && data.form@.len() == L && r is Err) ==> r == Err::<Self, NetError>(
                NetError::ShapeMismatch,
            ),
            r matches Ok(n) ==> {
                &&& n.wf()
                &&& n.hyper() == data@
                &&& n.ws() == mats(weights@)
                &&& n.bs() == zero_columns::<N>(data.form@, 1)
                &&& n.acc_errors() == zero_columns::<N>(data.form@, 1)
                &&& n.acc_weight_errors() == zero_grids::<N>(data.form@)
                &&& n.activations() == zero_columns::<N>(data.form@, 0)
                &&& n.pre_acts() == zero_columns::<N>(data.form@, 1)
                &&& n.errors() == zero_columns::<N>(data.form@, 1)
                &&& n.weight_errors() == zero_grids::<N>(data.form@)
                &&& n.samples() == 0
            },
    {
        if L < 3 || data.form.len() != L {
            return Err(NetError::InvalidDepth);
        }
        if weights.len() != L - 1 {
            return Err(NetError::ShapeMismatch);
        }
        let mut l: usize = 0;
        while l < L - 1
            invariant
                L >= 3,
                data.form@.len() == L,
                weights@.len() == L - 1,
                weights.all_wf(),
                l <= L - 1,
                forall|k: int|
                    0 <= k < l ==> {
                        &&& (#[trigger] weights@[k]).mat().rows == data.form@[k + 1]
                        &&& weights@[k].mat().cols == data.form@[k]
                    },
            decreases L - 1 - l,
        {
            let w = weights.get(IndexType::Front(l));
            if w.row() != data.form[l + 1] || w.col() != data.form[l] {
                return Err(NetError::ShapeMismatch);
            }
            l = l + 1;
        }
        proof {
            assert forall|k: int| 0 <= k < L - 1 implies data.form@[k + 1] * #[trigger] data.form@[k] <= usize::MAX by {
                weights@[k].lemma_wf();
            }
        }
        let acts = zero_vectors(&data.form, 0);
        let sums = zero_vectors(&data.form, 1);
        let err = zero_vectors(&data.form, 1);
        let acc_err = zero_vectors(&data.form, 1);
        let biases = zero_vectors(&data.form, 1);
        let w_err = zero_matrices(&data.form);
        let acc_w_err = zero_matrices(&data.form);
        let n = Net { weights, biases, acts, sums, err, acc_err, w_err, acc_w_err, acc_samples: 0, data };
        proof {
            assert(n.bs() =~= zero_columns::<N>(n.data.form@, 1));
            assert(n.acc_errors() =~= zero_columns::<N>(n.data.form@, 1));
            assert(n.acc_weight_errors() =~= zero_grids::<N>(n.data.form@));
            assert(n.activations() =~= zero_columns::<N>(n.data.form@, 0));
            assert(n.pre_acts() =~= zero_columns::<N>(n.data.form@, 1));
            assert(n.errors() =~= zero_columns::<N>(n.data.form@, 1));
            assert(n.weight_errors() =~= zero_grids::<N>(n.data.form@));
        }
        Ok(n)
    }
}

impl<N: Real, const L: usize> Net<N, L> {
    /// Runs `x` through the network: `acts[0] = x`, then for each layer
    /// `sums[l] = weights[l] · acts[l] + biases[l]` and `acts[l+1] = act(sums[l])`.
    /// Returns the last activations. `x` must have `form[0]` entries.
    pub fn forward_prop(&mut self, input: &Vector<N>) -> (r: Result<&Vector<N>, NetError>)
        requires
            old(self).wf(),
            input.wf(),
        ensures
            final(self).wf(),
            final(self).same_model(old(self)),
            final(self).same_acc(old(self)),
            r is Ok <==> input.mat().rows == old(self).hyper().form[0],
            r is Err ==> r == Err::<&Vector<N>, NetError>(NetError::ShapeMismatch) && *final(self) == *old(self),
            r matches Ok(v) ==> v.wf() && v.mat() == old(self).predict(input.mat()) && v.mat().rows
                == old(self).hyper().form[L - 1],
            r is Ok ==> final(self).forwarded(input.mat()),
            final(self).errors() == old(self).errors(),
            final(self).weight_errors() == old(self).weight_errors(),
    {
        if input.row() != self.data.form[0] {
            return Err(NetError::ShapeMismatch);
        }
        self.forward(input);
        proof {
            self.lemma_shaped();
            assert(self.activations()[L - 1] == self.predict(input.mat()));
        }
        Ok(self.acts.get(IndexType::Back(0)))
    }

    /// One sample's gradients: a forward pass on `input`, then the output
    /// error against `target`, propagated back to the first layer. `input`
    /// must have `form[0]` entries and `target` `form[L-1]`.
    pub fn back_prop(&mut self, input: &Vector<N>, target: &Vector<N>) -> (r: Result<(), NetError>)
        requires
            old(self).wf(),
            input.wf(),
            target.wf(),
        ensures
            final(self).wf(),
            final(self).same_model(old(self)),
            final(self).same_acc(old(self)),
            r is Ok <==> (input.mat().rows == old(self).hyper().form[0] && target.mat().rows
                == old(self).hyper().form[L - 1]),
            r is Err ==> r == Err::<(), NetError>(NetError::ShapeMismatch) && *final(self) == *old(self),
            r is Ok ==> final(self).errors() == sample_errs(
                old(self).ws(),
                old(self).bs(),
                old(self).hyper().act,
                old(self).hyper().cost,
                input.mat(),
                target.mat(),
            ),
            r is Ok ==> final(self).forwarded(input.mat()),
            r is Ok ==> final(self).weight_errors() == sample_w_errs(
                old(self).ws(),
                old(self).bs(),
                old(self).hyper().act,
                old(self).hyper().cost,
                input.mat(),
                target.mat(),
            ),
    {
        if input.row() != self.data.form[0] || target.row() != self.data.form[L - 1] {
            return Err(NetError::ShapeMismatch);
        }
        self.forward(input);
        let ghost x = input.mat();
        let ghost y = target.mat();
        let ghost ws = self.ws();
        let ghost bs = self.bs();
        let act = self.data.act;
        let cost = self.data.cost;
        let ghost zs = forward_sums(ws, bs, act, x);
        let ghost es = sample_errs(ws, bs, act, cost, x, y);
        let ghost wes = sample_w_errs(ws, bs, act, cost, x, y);
        let ghost top = (L - 2) as int;
        proof {
            self.lemma_shaped();
            target.lemma_wf();
            assert(self.pre_acts() =~= zs);
        }
        let ghost a_out = self.activations()[L - 1];
        let ghost z_out = self.pre_acts()[L - 2];
        let ghost err0 = self.err@;
        {
            let e = self.err.get_mut(IndexType::Back(0));
            let copy = |p: N, q: N| -> (v: N)
                ensures
                    v == q,
                { q };
            let _ = e.zip_eq(target, copy);
            let ghost e1 = e.mat();
            let a = self.acts.get(IndexType::Back(0));
            let f = |p: N, q: N| -> (v: N)
                ensures
                    v == cost.d_cost_spec(N::minus_spec(p, q)),
                { cost.d_cost(p.minus(q)) };
            let _ = e.zip_eq(a, f);
            let ghost e2 = e.mat();
            let z = self.sums.get(IndexType::Back(0));
            let g = |p: N, q: N| -> (v: N)
                ensures
                    v == N::times_spec(p, act.d_act_spec(q)),
                { p.times(act.d_act(q)) };
            let _ = e.zip_eq(z, g);
            proof {
                e.lemma_wf();
                a.lemma_wf();
                z.lemma_wf();
                assert(a.mat() == a_out);
                assert(z.mat() == z_out);
                let o = output_err(act, cost, y, a_out, z_out);
                assert forall|i: int, j: int| 0 <= i < o.rows && 0 <= j < o.cols implies #[trigger] e.mat().at(i, j)
                    == o.at(i, j) by {
                    assert(e1.at(i, j) == y.at(i, j));
                }
                lemma_same_grid(e.mat(), o);
            }
        }
        proof {
            assert(es[top] == output_err(act, cost, y, a_out, z_out));
            assert(self.errors()[top] == es[top]);
        }
        let mut l: usize = 0;
        while l < L - 1
            invariant
                self.wf(),
                self.same_model(old(self)),
                self.same_acc(old(self)),
                self.forwarded(x),
                ws == self.ws(),
                bs == self.bs(),
                act == self.hyper().act,
                cost == self.hyper().cost,
                x == input.mat(),
                y == target.mat(),
                zs == forward_sums(ws, bs, act, x),
                es == sample_errs(ws, bs, act, cost, x, y),
                wes == sample_w_errs(ws, bs, act, cost, x, y),
                top == L - 2,
                l <= L - 1,
                forall|j: int| 0 <= j <= top && j >= top - l ==> #[trigger] self.errors()[j] == es[j],
                forall|j: int| 0 <= j <= top && j > top - l ==> #[trigger] self.weight_errors()[j] == wes[j],
            decreases L - 1 - l,
        {
            let ghost k = top - l;
            let ghost ev0 = self.errors();
            let ghost wv0 = self.weight_errors();
            let ghost wer0 = self.w_err@;
            let ghost er0 = self.err@;
            proof {
                self.lemma_shaped();
                assert(ev0[k] == es[k]);
                assert(self.activations()[k] == forward_acts(ws, bs, act, x, k as nat));
                if k >= 1 {
                    assert(self.pre_acts()[k - 1] == forward_sum(ws, bs, act, x, (k - 1) as nat));
                }
            }
            {
                let e = self.err.get(IndexType::Back(l));
                let a = self.acts.get(IndexType::Back(l + 1));
                proof {
                    assert(e.mat() == es[k]);
                    assert(a.mat() == forward_acts(ws, bs, act, x, k as nat));
                }
                let we = self.w_err.get_mut(IndexType::Back(l));
                let r1 = e.mul_t2_to(a, we);
                assert(r1 is Ok);
                assert(we.mat() == wes[k]);
            }
            proof {
                assert forall|j: int| 0 <= j <= top && j > top - (l + 1) implies #[trigger] self.weight_errors()[j]
                    == wes[j] by {
                    if j != k {
                        assert(self.w_err@[j] == wer0[j]);
                        assert(wv0[j] == wer0[j].mat());
                    }
                }
            }
            let ghost wv1 = self.weight_errors();
            if l < L - 2 {
                let ghost zk = zs[k - 1];
                let wk = self.weights.get(IndexType::Back(l));
                let z = self.sums.get(IndexType::Back(l + 1));
                proof {
                    assert(wk.mat() == ws[k]);
                    assert(z.mat() == zk);
                }
                let g = |p: N, q: N| -> (v: N)
                    ensures
                        v == N::times_spec(p, act.d_act_spec(q)),
                    { p.times(act.d_act(q)) };
                match self.err.indices_mut(IndexType::Back(l), IndexType::Back(l + 1)) {
                    Ok((e, prev)) => {
                        let r2 = wk.mul_t1_to(e, prev);
                        let ghost p1 = prev.mat();
                        let r3 = prev.zip_eq(z, g);
                        proof {
                            prev.lemma_wf();
                            z.lemma_wf();
                            let t = layer_err(ws, zs, act, es[top], top, k - 1);
                            assert(es[k - 1] == t);
                            assert(es[k] == layer_err(ws, zs, act, es[top], top, k));
                            assert(r2 is Ok);
                            assert(p1 == product_t1(ws[k], es[k]));
                            assert forall|i: int, j: int|
                                0 <= i < t.rows && 0 <= j < t.cols implies #[trigger] prev.mat().at(i, j) == t.at(
                                i,
                                j,
                            ) by {}
                            lemma_same_grid(prev.mat(), t);
                        }
                    },
                    Err(_) => {},
                }
                proof {
                    assert forall|j: int| 0 <= j <= top && j >= top - (l + 1) implies #[trigger] self.errors()[j]
                        == es[j] by {
                        if j != k - 1 {
                            assert(self.err@[j] == er0[j]);
                            assert(ev0[j] == er0[j].mat());
                        }
                    }
                }
            }
            assert(self.weight_errors() == wv1);
            l = l + 1;
        }
        proof {
            assert(self.errors() =~= es);
            assert(self.weight_errors() =~= wes);
        }
        Ok(())
    }

    /// Parameters, accumulated gradients and sample count.
    pub open spec fn state(&self) -> Train<N> {
        Train {
            ws: self.ws(),
            bs: self.bs(),
            ae: self.acc_errors(),
            aw: self.acc_weight_errors(),
            count: self.samples(),
        }
    }

    /// Zeroes the activation, pre-activation and per-sample gradient buffers.
    pub fn clear_propagation_data(&mut self)
        requires
            old(self).wf(),
        ensures
            final(self).wf(),
            final(self).same_model(old(self)),
            final(self).same_acc(old(self)),
            final(self).activations() == zeros_like(old(self).activations()),
            final(self).pre_acts() == zeros_like(old(self).pre_acts()),
            final(self).errors() == zeros_like(old(self).errors()),
            final(self).weight_errors() == zeros_like(old(self).weight_errors()),
    {
        proof {
            self.lemma_shaped();
        }
        self.acts.zero();
        self.sums.zero();
        self.err.zero();
        self.w_err.zero();
        proof {
            assert(self.activations() =~= zeros_like(old(self).activations()));
            assert(self.pre_acts() =~= zeros_like(old(self).pre_acts()));
            assert(self.errors() =~= zeros_like(old(self).errors()));
            assert(self.weight_errors() =~= zeros_like(old(self).weight_errors()));
        }
    }

    /// Empties the gradient accumulators.
    pub fn clear_accumulation_data(&mut self)
        requires
            old(self).wf(),
        ensures
            final(self).wf(),
            final(self).same_model(old(self)),
            final(self).state() == reset(old(self).state()),
            final(self).errors() == old(self).errors(),
            final(self).weight_errors() == old(self).weight_errors(),
            final(self).activations() == old(self).activations(),
            final(self).pre_acts() == old(self).pre_acts(),
    {
        proof {
            self.lemma_shaped();
        }
        self.acc_err.zero();
        self.acc_w_err.zero();
        self.acc_samples = 0;
        proof {
            assert(self.acc_errors() =~= zeros_like(old(self).acc_errors()));
            assert(self.acc_weight_errors() =~= zeros_like(old(self).acc_weight_errors()));
        }
    }

    /// Adds the last sample's gradients to the accumulators.
    pub fn accumulate_error(&mut self)
        requires
            old(self).wf(),
            old(self).samples() < usize::MAX,
        ensures
            final(self).wf(),
            final(self).same_model(old(self)),
            final(self).acc_errors() == plus_all(old(self).acc_errors(), old(self).errors()),
            final(self).acc_weight_errors() == plus_all(old(self).acc_weight_errors(), old(self).weight_errors()),
            final(self).samples() == old(self).samples() + 1,
            final(self).errors() == old(self).errors(),
            final(self).weight_errors() == old(self).weight_errors(),
            final(self).activations() == old(self).activations(),
            final(self).pre_acts() == old(self).pre_acts(),
    {
        proof {
            self.lemma_shaped();
        }
        let n = self.err.len();
        let mut i: usize = 0;
        while i < n
            invariant
                self.wf(),
                self.same_model(old(self)),
                self.samples() == old(self).samples(),
                self.errors() == old(self).errors(),
                self.weight_errors() == old(self).weight_errors(),
                self.activations() == old(self).activations(),
                self.pre_acts() == old(self).pre_acts(),
                n == L - 1,
                i <= n,
                forall|k: int| 0 <= k < i ==> #[trigger] self.acc_errors()[k] == sum(old(self).acc_errors()[k], old(self).errors()[k]),
                forall|k: int| i <= k < n ==> #[trigger] self.acc_errors()[k] == old(self).acc_errors()[k],
                forall|k: int|
                    0 <= k < i ==> #[trigger] self.acc_weight_errors()[k] == sum(
                        old(self).acc_weight_errors()[k],
                        old(self).weight_errors()[k],
                    ),
                forall|k: int| i <= k < n ==> #[trigger] self.acc_weight_errors()[k] == old(self).acc_weight_errors()[k],
            decreases n - i,
        {
            proof {
                self.lemma_shaped();
            }
            let ghost ae0 = self.acc_err@;
            let ghost aw0 = self.acc_w_err@;
            let ghost av = self.acc_errors();
            let ghost awv = self.acc_weight_errors();
            let ghost ev = self.errors();
            let ghost wev = self.weight_errors();
            {
                let e = self.err.get(IndexType::Front(i));
                proof {
                    assert(e.mat() == ev[i as int]);
                    assert(ae0[i as int].mat() == av[i as int]);
                }
                let a = self.acc_err.get_mut(IndexType::Front(i));
                let r = a.add_eq(e);
                assert(r is Ok);
                assert(a.mat() == sum(av[i as int], ev[i as int]));
            }
            {
                let e = self.w_err.get(IndexType::Front(i));
                proof {
                    assert(e.mat() == wev[i as int]);
                    assert(aw0[i as int].mat() == awv[i as int]);
                }
                let a = self.acc_w_err.get_mut(IndexType::Front(i));
                let r = a.add_eq(e);
                assert(r is Ok);
                assert(a.mat() == sum(awv[i as int], wev[i as int]));
            }
            proof {
                assert forall|k: int| 0 <= k < n && k != i implies #[trigger] self.acc_errors()[k] == av[k] by {
                    assert(self.acc_err@[k] == ae0[k]);
                }
                assert forall|k: int| 0 <= k < n && k != i implies #[trigger] self.acc_weight_errors()[k] == awv[k] by {
                    assert(self.acc_w_err@[k] == aw0[k]);
                }
                assert(self.acc_errors()[i as int] == sum(av[i as int], ev[i as int]));
                assert(self.acc_weight_errors()[i as int] == sum(awv[i as int], wev[i as int]));
            }
            i = i + 1;
        }
        proof {
            assert(self.acc_errors() =~= plus_all(old(self).acc_errors(), old(self).errors()));
            assert(self.acc_weight_errors() =~= plus_all(old(self).acc_weight_errors(), old(self).weight_errors()));
        }
        self.acc_samples = self.acc_samples + 1;
    }

    /// Moves every weight and bias by its accumulated gradient times
    /// `learn_rate / sample_size`, then empties the accumulators.
    pub fn apply_gradient(&mut self, sample_size: usize)
        requires
            old(self).wf(),
        ensures
            final(self).wf(),
            final(self).hyper() == old(self).hyper(),
            final(self).state() == applied(old(self).state(), old(self).hyper().learn_rate, sample_size),
            final(self).errors() == old(self).errors(),
            final(self).weight_errors() == old(self).weight_errors(),
            final(self).activations() == old(self).activations(),
            final(self).pre_acts() == old(self).pre_acts(),
    {
        proof {
            self.lemma_shaped();
        }
        let ghost s0 = self.state();
        let rate = self.data.learn_rate.over(N::from_usize(sample_size));
        let n = self.err.len();
        let mut j: usize = 0;
        while j < n
            invariant
                self.wf(),
                self.hyper() == old(self).hyper(),
                self.same_acc(old(self)),
                self.errors() == old(self).errors(),
                self.weight_errors() == old(self).weight_errors(),
                self.activations() == old(self).activations(),
                self.pre_acts() == old(self).pre_acts(),
                s0 == old(self).state(),
                rate == N::over_spec(old(self).hyper().learn_rate, N::from_usize_spec(sample_size)),
                n == L - 1,
                j <= n,
                forall|k: int| 0 <= k < j ==> #[trigger] self.bs()[k] == sum(s0.bs[k], scaled(s0.ae[k], rate)),
                forall|k: int| j <= k < n ==> #[trigger] self.bs()[k] == s0.bs[k],
                forall|k: int| 0 <= k < j ==> #[trigger] self.ws()[k] == sum(s0.ws[k], scaled(s0.aw[k], rate)),
                forall|k: int| j <= k < n ==> #[trigger] self.ws()[k] == s0.ws[k],
            decreases n - j,
        {
            proof {
                self.lemma_shaped();
            }
            let ghost b0 = self.biases@;
            let ghost w0 = self.weights@;
            let ghost bv = self.bs();
            let ghost wv = self.ws();
            let f = |p: N, q: N| -> (v: N)
                ensures
                    v == N::plus_spec(p, N::times_spec(q, rate)),
                { p.plus(q.times(rate)) };
            proof {
                assert(self.bs()[j as int] == s0.bs[j as int]);
                assert(self.ws()[j as int] == s0.ws[j as int]);
                assert(self.acc_errors()[j as int] == s0.ae[j as int]);
                assert(self.acc_weight_errors()[j as int] == s0.aw[j as int]);
            }
            {
                let e = self.acc_err.get(IndexType::Front(j));
                let b = self.biases.get_mut(IndexType::Front(j));
                let ghost bm = b.mat();
                let ghost em = e.mat();
                let r = b.zip_eq(e, f);
                assert(r is Ok);
                proof {
                    b.lemma_wf();
                    lemma_same_grid(b.mat(), sum(bm, scaled(em, rate)));
                }
            }
            {
                let e = self.acc_w_err.get(IndexType::Front(j));
                let w = self.weights.get_mut(IndexType::Front(j));
                let ghost wm = w.mat();
                let ghost em = e.mat();
                let r = w.zip_eq(e, f);
                assert(r is Ok);
                proof {
                    w.lemma_wf();
                    lemma_same_grid(w.mat(), sum(wm, scaled(em, rate)));
                }
            }
            proof {
                assert forall|k: int| 0 <= k < n && k != j implies #[trigger] self.bs()[k] == bv[k] by {
                    assert(self.biases@[k] == b0[k]);
                }
                assert forall|k: int| 0 <= k < n && k != j implies #[trigger] self.ws()[k] == wv[k] by {
                    assert(self.weights@[k] == w0[k]);
                }
            }
            j = j + 1;
        }
        proof {
            assert(self.bs() =~= step_all(s0.bs, s0.ae, rate));
            assert(self.ws() =~= step_all(s0.ws, s0.aw, rate));
        }
        self.clear_accumulation_data();
    }

    /// Default settings for the layer widths `form`, to adjust and then build.
    pub fn new(form: [usize; L]) -> (r: HyperData<N, L>)
        ensures
            r@ == (Hyper {
                form: form@,
                batch_size: BATCH_SIZE,
                learn_rate: HyperData::<N, L>::default_rate(),
                act: Activation::Sig,
                cost: Cost::Quad,
                dir: Seq::<char>::empty(),
                stat_epoch: false,
                stat_error: false,
            }),
    {
        HyperData::from_form(form)
    }

    /// The settings.
    pub fn stats(&self) -> (r: &HyperData<N, L>)
        ensures
            r@ == self.hyper(),
    {
        &self.data
    }

    /// Whether every input has `form[0]` entries, every target `form[L-1]`,
    /// and there are as many targets as inputs.
    pub fn fits_samples(&self, inputs: &[Vector<N>], targets: &[Vector<N>]) -> (r: bool)
        requires
            self.wf(),
            forall|i: int| 0 <= i < inputs@.len() ==> (#[trigger] inputs@[i]).wf(),
            forall|i: int| 0 <= i < targets@.len() ==> (#[trigger] targets@[i]).wf(),
        ensures
            r == samples_fit(inputs@, targets@, self.hyper().form[0] as nat, self.hyper().form[L - 1] as nat),
    {
        if inputs.len() != targets.len() {
            return false;
        }
        let n = inputs.len();
        let mut i: usize = 0;
        while i < n
            invariant
                self.wf(),
                n == inputs@.len(),
                n == targets@.len(),
                i <= n,
                forall|k: int| 0 <= k < inputs@.len() ==> (#[trigger] inputs@[k]).wf(),
                forall|k: int| 0 <= k < targets@.len() ==> (#[trigger] targets@[k]).wf(),
                forall|k: int| 0 <= k < i ==> (#[trigger] inputs@[k]).mat().rows == self.hyper().form[0],
                forall|k: int| 0 <= k < i ==> (#[trigger] targets@[k]).mat().rows == self.hyper().form[L - 1],
            decreases n - i,
        {
            if inputs[i].row() != self.data.form[0] || targets[i].row() != self.data.form[L - 1] {
                return false;
            }
            i = i + 1;
        }
        true
    }

    /// Whether there are as many targets as inputs and every input has
    /// `form[0]` entries.
    pub fn fits_inputs(&self, inputs: &[Vector<N>], targets: &[Vector<N>]) -> (r: bool)
        requires
            self.wf(),
            forall|i: int| 0 <= i < inputs@.len() ==> (#[trigger] inputs@[i]).wf(),
        ensures
            r == inputs_fit(inputs@, targets@, self.hyper().form[0] as nat),
    {
        if inputs.len() != targets.len() {
            return false;
        }
        let n = inputs.len();
        let mut i: usize = 0;
        while i < n
            invariant
                self.wf(),
                n == inputs@.len(),
                n == targets@.len(),
                i <= n,
                forall|k: int| 0 <= k < inputs@.len() ==> (#[trigger] inputs@[k]).wf(),
                forall|k: int| 0 <= k < i ==> (#[trigger] inputs@[k]).mat().rows == self.hyper().form[0],
            decreases n - i,
        {
            if inputs[i].row() != self.data.form[0] {
                return false;
            }
            i = i + 1;
        }
        true
    }

    /// One epoch over the samples, in order: back-propagate each, accumulate,
    /// apply after every `batch_size` samples, then apply the partial last
    /// batch. Samples of the wrong shape are refused and nothing changes.
    pub fn train_epoch(&mut self, inputs: &[Vector<N>], targets: &[Vector<N>]) -> (r: Result<(), NetError>)
        requires
            old(self).wf(),
            forall|i: int| 0 <= i < inputs@.len() ==> (#[trigger] inputs@[i]).wf(),
            forall|i: int| 0 <= i < targets@.len() ==> (#[trigger] targets@[i]).wf(),
        ensures
            final(self).wf(),
            final(self).hyper() == old(self).hyper(),
            r is Ok <==> samples_fit(
                inputs@,
                targets@,
                old(self).hyper().form[0] as nat,
                old(self).hyper().form[L - 1] as nat,
            ),
            r is Err ==> r == Err::<(), NetError>(NetError::ShapeMismatch) && *final(self) == *old(self),
            r is Ok ==> final(self).state() == epoch(
                old(self).state(),
                old(self).hyper(),
                mats(inputs@),
                mats(targets@),
            ),
    {
        if !self.fits_samples(inputs, targets) {
            return Err(NetError::ShapeMismatch);
        }
        let ghost t0 = self.state();
        let ghost h = self.hyper();
        let ghost xs = mats(inputs@);
        let ghost ys = mats(targets@);
        self.clear_accumulation_data();
        let n = inputs.len();
        let mut i: usize = 0;
        while i < n
            invariant
                self.wf(),
                self.hyper() == h,
                h == old(self).hyper(),
                t0 == old(self).state(),
                xs == mats(inputs@),
                ys == mats(targets@),
                samples_fit(inputs@, targets@, h.form[0] as nat, h.form[L - 1] as nat),
                n == inputs@.len(),
                i <= n,
                self.samples() <= i,
                self.state() == epoch_prefix(t0, h, xs, ys, i as nat),
            decreases n - i,
        {
            let ghost t1 = self.state();
            let r = self.back_prop(&inputs[i], &targets[i]);
            assert(r is Ok);
            self.accumulate_error();
            if self.acc_samples == self.data.batch_size {
                self.apply_gradient(self.data.batch_size);
            }
            proof {
                assert(xs[i as int] == inputs@[i as int].mat());
                assert(ys[i as int] == targets@[i as int].mat());
                assert(self.state() == sample_step(t1, h, xs[i as int], ys[i as int]));
            }
            i = i + 1;
        }
        if self.acc_samples != 0 {
            self.apply_gradient(self.acc_samples);
        }
        Ok(())
    }

    /// `epochs` epochs over the samples. Samples of the wrong shape are refused
    /// and nothing changes.
    pub fn train(&mut self, inputs: &[Vector<N>], targets: &[Vector<N>], epochs: usize) -> (r: Result<(), NetError>)
        requires
            old(self).wf(),
            forall|i: int| 0 <= i < inputs@.len() ==> (#[trigger] inputs@[i]).wf(),
            forall|i: int| 0 <= i < targets@.len() ==> (#[trigger] targets@[i]).wf(),
        ensures
            final(self).wf(),
            final(self).hyper() == old(self).hyper(),
            r is Ok <==> samples_fit(
                inputs@,
                targets@,
                old(self).hyper().form[0] as nat,
                old(self).hyper().form[L - 1] as nat,
            ),
            r is Err ==> r == Err::<(), NetError>(NetError::ShapeMismatch) && *final(self) == *old(self),
            r is Ok ==> final(self).state() == epoch_run(
                old(self).state(),
                old(self).hyper(),
                mats(inputs@),
                mats(targets@),
                epochs as nat,
            ),
    {
        if !self.fits_samples(inputs, targets) {
            return Err(NetError::ShapeMismatch);
        }
        let mut e: usize = 0;
        while e < epochs
            invariant
                self.wf(),
                self.hyper() == old(self).hyper(),
                samples_fit(
                    inputs@,
                    targets@,
                    old(self).hyper().form[0] as nat,
                    old(self).hyper().form[L - 1] as nat,
                ),
                forall|i: int| 0 <= i < inputs@.len() ==> (#[trigger] inputs@[i]).wf(),
                forall|i: int| 0 <= i < targets@.len() ==> (#[trigger] targets@[i]).wf(),
                e <= epochs,
                self.state() == epoch_run(
                    old(self).state(),
                    old(self).hyper(),
                    mats(inputs@),
                    mats(targets@),
                    e as nat,
                ),
            decreases epochs - e,
        {
            let r = self.train_epoch(inputs, targets);
            assert(r is Ok);
            e = e + 1;
        }
        Ok(())
    }

    /// The share of samples whose largest output is at the index of the
    /// largest target entry: `hits / count`, divided in `N`. Unequal counts of
    /// inputs and targets, or inputs of the wrong width, are refused.
    pub fn accuracy(&mut self, inputs: &[Vector<N>], outs: &[Vector<N>]) -> (r: Result<N, NetError>)
        requires
            old(self).wf(),
            forall|i: int| 0 <= i < inputs@.len() ==> (#[trigger] inputs@[i]).wf(),
            forall|i: int| 0 <= i < outs@.len() ==> (#[trigger] outs@[i]).wf(),
        ensures
            final(self).wf(),
            final(self).same_model(old(self)),
            final(self).same_acc(old(self)),
            r is Ok <==> inputs_fit(inputs@, outs@, old(self).hyper().form[0] as nat),
            r is Err ==> r == Err::<N, NetError>(NetError::ShapeMismatch),
            r matches Ok(a) ==> a == N::over_spec(
                N::from_usize_spec(hits(*old(self), mats(inputs@), mats(outs@), inputs@.len()) as usize),
                N::from_usize_spec(inputs@.len() as usize),
            ),
    {
        if !self.fits_inputs(inputs, outs) {
            return Err(NetError::ShapeMismatch);
        }
        let ghost n0 = *self;
        let ghost xs = mats(inputs@);
        let ghost ys = mats(outs@);
        let n = inputs.len();
        let mut correct: usize = 0;
        let mut i: usize = 0;
        while i < n
            invariant
                self.wf(),
                self.same_model(&n0),
                self.same_acc(&n0),
                n0 == *old(self),
                xs == mats(inputs@),
                ys == mats(outs@),
                inputs_fit(inputs@, outs@, n0.hyper().form[0] as nat),
                forall|k: int| 0 <= k < outs@.len() ==> (#[trigger] outs@[k]).wf(),
                n == inputs@.len(),
                i <= n,
                correct <= i,
                correct == hits(n0, xs, ys, i as nat),
            decreases n - i,
        {
            let t = outs[i].hot();
            let out = self.forward_prop(&inputs[i]);
            match out {
                Ok(v) => {
                    let h = v.hot();
                    proof {
                        assert(xs[i as int] == inputs@[i as int].mat());
                        assert(ys[i as int] == outs@[i as int].mat());
                    }
                    if h == t {
                        correct = correct + 1;
                    }
                },
                Err(_) => {},
            }
            i = i + 1;
        }
        Ok(N::from_usize(correct).over(N::from_usize(n)))
    }

    /// The weights, one matrix per layer after the input.
    pub fn weights(&self) -> (r: &Array<Matrix<N>>)
        requires
            self.wf(),
        ensures
            mats(r@) == self.ws(),
            r.all_wf(),
    {
        &self.weights
    }

    /// The biases, one column per layer after the input.
    pub fn biases(&self) -> (r: &Array<Vector<N>>)
        requires
            self.wf(),
        ensures
            mats(r@) == self.bs(),
            r.all_wf(),
    {
        &self.biases
    }

    /// The last sample's bias gradients.
    pub fn err(&self) -> (r: &Array<Vector<N>>)
        requires
            self.wf(),
        ensures
            mats(r@) == self.errors(),
            r.all_wf(),
    {
        &self.err
    }

    /// The last sample's weight gradients.
    pub fn w_err(&self) -> (r: &Array<Matrix<N>>)
        requires
            self.wf(),
        ensures
            mats(r@) == self.weight_errors(),
            r.all_wf(),
    {
        &self.w_err
    }

    /// The accumulated bias gradients.
    pub fn acc_err(&self) -> (r: &Array<Vector<N>>)
        requires
            self.wf(),
        ensures
            mats(r@) == self.acc_errors(),
            r.all_wf(),
    {
        &self.acc_err
    }

    /// The accumulated weight gradients.
    pub fn acc_w_err(&self) -> (r: &Array<Matrix<N>>)
        requires
            self.wf(),
        ensures
            mats(r@) == self.acc_weight_errors(),
            r.all_wf(),
    {
        &self.acc_w_err
    }

    /// The number of samples accumulated since the last gradient application.
    pub fn acc_samples(&self) -> (r: usize)
        ensures
            r == self.samples(),
    {
        self.acc_samples
    }

    /// A network rebuilt from saved state: settings, weights, biases and
    /// accumulators. The scratch buffers start at zero. Parts whose shapes do
    /// not fit the layer widths are refused with `CorruptModel`.
    pub fn from_saved(
        data: HyperData<N, L>,
        weights: Array<Matrix<N>>,
        biases: Array<Vector<N>>,
        acc_err: Array<Vector<N>>,
        acc_w_err: Array<Matrix<N>>,
        acc_samples: usize,
    ) -> (r: Result<Self, NetError>)
        requires
            weights.all_wf(),
            biases.all_wf(),
            acc_err.all_wf(),
            acc_w_err.all_wf(),
        ensures
            r is Ok <==> {
                &&& L >= 3
                &&& data.form@.len() == L
                &&& weights@.len() == L - 1
                &&& biases@.len() == L - 1
                &&& acc_err@.len() == L - 1
                &&& acc_w_err@.len() == L - 1
                &&& matrices_fit(weights@, data.form@)
                &&& matrices_fit(acc_w_err@, data.form@)
                &&& vectors_fit(biases@, data.form@, 1)
                &&& vectors_fit(acc_err@, data.form@, 1)
            },
            r is Err ==> r == Err::<Self, NetError>(NetError::CorruptModel),
            r matches Ok(n) ==> {
                &&& n.wf()
                &&& n.hyper() == data@
                &&& n.ws() == mats(weights@)
                &&& n.bs() == mats(biases@)
                &&& n.acc_errors() == mats(acc_err@)
                &&& n.acc_weight_errors() == mats(acc_w_err@)
                &&& n.samples() == acc_samples
                &&& n.activations() == zero_columns::<N>(data.form@, 0)
                &&& n.pre_acts() == zero_columns::<N>(data.form@, 1)
                &&& n.errors() == zero_columns::<N>(data.form@, 1)
                &&& n.weight_errors() == zero_grids::<N>(data.form@)
            },
    {
        if L < 3 || data.form.len() != L || weights.len() != L - 1 || biases.len() != L - 1 || acc_err.len()
            != L - 1 || acc_w_err.len() != L - 1 {
            return Err(NetError::CorruptModel);
        }
        let mut l: usize = 0;
        while l < L - 1
            invariant
                L >= 3,
                data.form@.len() == L,
                weights@.len() == L - 1,
                biases@.len() == L - 1,
                acc_err@.len() == L - 1,
                acc_w_err@.len() == L - 1,
                weights.all_wf(),
                biases.all_wf(),
                acc_err.all_wf(),
                acc_w_err.all_wf(),
                l <= L - 1,
                forall|k: int|
                    0 <= k < l ==> {
                        &&& (#[trigger] weights@[k]).mat().rows == data.form@[k + 1]
                        &&& weights@[k].mat().cols == data.form@[k]
                    },
                forall|k: int|
                    0 <= k < l ==> {
                        &&& (#[trigger] acc_w_err@[k]).mat().rows == data.form@[k + 1]
                        &&& acc_w_err@[k].mat().cols == data.form@[k]
                    },
                forall|k: int| 0 <= k < l ==> (#[trigger] biases@[k]).mat().rows == data.form@[k + 1],
                forall|k: int| 0 <= k < l ==> (#[trigger] acc_err@[k]).mat().rows == data.form@[k + 1],
            decreases L - 1 - l,
        {
            let w = weights.get(IndexType::Front(l));
            let aw = acc_w_err.get(IndexType::Front(l));
            let b = biases.get(IndexType::Front(l));
            let ae = acc_err.get(IndexType::Front(l));
            let rows = data.form[l + 1];
            let cols = data.form[l];
            if w.row() != rows || w.col() != cols || aw.row() != rows || aw.col() != cols || b.row() != rows
                || ae.row() != rows {
                return Err(NetError::CorruptModel);
            }
            l = l + 1;
        }
        proof {
            assert forall|k: int| 0 <= k < L - 1 implies data.form@[k + 1] * #[trigger] data.form@[k] <= usize::MAX by {
                weights@[k].lemma_wf();
            }
            assert forall|k: int| 0 <= k < L - 1 implies (#[trigger] biases@[k]).mat().cols == 1 by {
                biases@[k].lemma_wf();
            }
            assert forall|k: int| 0 <= k < L - 1 implies (#[trigger] acc_err@[k]).mat().cols == 1 by {
                acc_err@[k].lemma_wf();
            }
            assert(matrices_fit(weights@, data.form@));
            assert(matrices_fit(acc_w_err@, data.form@));
            assert(vectors_fit(biases@, data.form@, 1));
            assert(vectors_fit(acc_err@, data.form@, 1));
        }
        let acts = zero_vectors(&data.form, 0);
        let sums = zero_vectors(&data.form, 1);
        let err = zero_vectors(&data.form, 1);
        let w_err = zero_matrices(&data.form);
        let n = Net { weights, biases, acts, sums, err, acc_err, w_err, acc_w_err, acc_samples, data };
        proof {
            assert(n.activations() =~= zero_columns::<N>(n.data.form@, 0));
            assert(n.pre_acts() =~= zero_columns::<N>(n.data.form@, 1));
            assert(n.errors() =~= zero_columns::<N>(n.data.form@, 1));
            assert(n.weight_errors() =~= zero_grids::<N>(n.data.form@));
        }
        Ok(n)
    }

    /// The activations and pre-activations are those of a forward pass on `x`.
    pub open spec fn forwarded(&self, x: Mat<N>) -> bool {
        &&& forall|k: int|
            0 <= k < L ==> #[trigger] self.activations()[k] == forward_acts(
                self.ws(),
                self.bs(),
                self.hyper().act,
                x,
                k as nat,
            )
        &&& forall|k: int|
            0 <= k < L - 1 ==> #[trigger] self.pre_acts()[k] == forward_sum(
                self.ws(),
                self.bs(),
                self.hyper().act,
                x,
                k as nat,
            )
    }

    fn forward(&mut self, input: &Vector<N>)
        requires
            old(self).wf(),
            input.wf(),
            input.mat().rows == old(self).hyper().form[0],
        ensures
            final(self).wf(),
            final(self).same_model(old(self)),
            final(self).same_acc(old(self)),
            final(self).forwarded(input.mat()),
            final(self).errors() == old(self).errors(),
            final(self).weight_errors() == old(self).weight_errors(),
    {
        let ghost x = input.mat();
        let ghost ws = self.ws();
        let ghost bs = self.bs();
        let act = self.data.act;
        proof {
            self.lemma_shaped();
            input.lemma_wf();
        }
        {
            let a0 = self.acts.get_mut(IndexType::Front(0));
            let copy = |p: N, q: N| -> (v: N)
                ensures
                    v == q,
                { q };
            let _ = a0.zip_eq(input, copy);
            proof {
                a0.lemma_wf();
                lemma_same_grid(a0.mat(), x);
            }
        }
        proof {
            assert(self.activations()[0] == forward_acts(ws, bs, act, x, 0));
        }
        let mut l: usize = 0;
        while l < L - 1
            invariant
                self.wf(),
                self.same_model(old(self)),
                self.same_acc(old(self)),
                self.errors() == old(self).errors(),
                self.weight_errors() == old(self).weight_errors(),
                ws == self.ws(),
                bs == self.bs(),
                act == self.hyper().act,
                x == input.mat(),
                l <= L - 1,
                forall|k: int| 0 <= k <= l ==> #[trigger] self.activations()[k] == forward_acts(ws, bs, act, x, k as nat),
                forall|k: int| 0 <= k < l ==> #[trigger] self.pre_acts()[k] == forward_sum(ws, bs, act, x, k as nat),
            decreases L - 1 - l,
        {
            proof {
                self.lemma_shaped();
            }
            let ghost fs = forward_sum(ws, bs, act, x, l as nat);
            let ghost sums0 = self.sums@;
            let ghost acts0 = self.acts@;
            let ghost av0 = self.activations();
            let ghost pv0 = self.pre_acts();
            {
                let w = self.weights.get(IndexType::Front(l));
                let a = self.acts.get(IndexType::Front(l));
                let b = self.biases.get(IndexType::Front(l));
                proof {
                    assert(a.mat() == self.activations()[l as int]);
                    assert(w.mat() == ws[l as int]);
                    assert(b.mat() == bs[l as int]);
                }
                let s = self.sums.get_mut(IndexType::Front(l));
                let r1 = w.mul_to(a, s);
                assert(r1 is Ok);
                let r2 = s.add_eq(b);
                assert(r2 is Ok);
                assert(s.mat() == fs);
            }
            assert(self.pre_acts()[l as int] == fs);
            {
                let s = self.sums.get(IndexType::Front(l));
                let a1 = self.acts.get_mut(IndexType::Front(l + 1));
                let f = |p: N, q: N| -> (v: N)
                    ensures
                        v == act.act_spec(q),
                    { act.act(q) };
                let ghost sm = s.mat();
                let _ = a1.zip_eq(s, f);
                proof {
                    a1.lemma_wf();
                    s.lemma_wf();
                    lemma_same_grid(a1.mat(), activate(act, sm));
                    assert(sm == fs);
                }
            }
            assert(forward_acts(ws, bs, act, x, (l + 1) as nat) == activate(act, fs));
            assert(self.activations()[l + 1] == activate(act, fs));
            proof {
                assert forall|k: int| 0 <= k < L - 1 && k != l implies self.sums@[k] == sums0[k] by {}
                assert forall|k: int| 0 <= k < L && k != l + 1 implies self.acts@[k] == acts0[k] by {}
                assert forall|k: int| 0 <= k <= l + 1 implies #[trigger] self.activations()[k] == forward_acts(
                    ws,
                    bs,
                    act,
                    x,
                    k as nat,
                ) by {
                    if k != l + 1 {
                        assert(self.acts@[k] == acts0[k]);
                        assert(av0[k] == acts0[k].mat());
                        assert(av0[k] == forward_acts(ws, bs, act, x, k as nat));
                    }
                }
                assert forall|k: int| 0 <= k < l + 1 implies #[trigger] self.pre_acts()[k] == forward_sum(
                    ws,
                    bs,
                    act,
                    x,
                    k as nat,
                ) by {
                    if k != l {
                        assert(self.sums@[k] == sums0[k]);
                        assert(pv0[k] == sums0[k].mat());
                        assert(pv0[k] == forward_sum(ws, bs, act, x, k as nat));
                    }
                }
            }
            l = l + 1;
        }
    }
}

impl<N: Real, const L: usize> HyperData<N, L> {
    /// A network with these settings and the weights `weights`.
    pub fn build(&self, weights: Array<Matrix<N>>) -> (r: Result<Net<N, L>, NetError>)
        requires
            weights.all_wf(),
        ensures
            (L < 3 || self.form@.len() != L) ==> r == Err::<Net<N, L>, NetError>(NetError::InvalidDepth),
            (L >= 3 && self.form@.len() == L) ==> (r is Ok <==> (weights@.len() == L - 1
                && matrices_fit(weights@, self.form@))),
            (L >= 3 && self.form@.len() == L && r is Err) ==> r == Err::<Net<N, L>, NetError>(
                NetError::ShapeMismatch,
            ),
            r matches Ok(n) ==> {
                &&& n.wf()
                &&& n.hyper() == self@
                &&& n.ws() == mats(weights@)
                &&& n.bs() == zero_columns::<N>(self.form@, 1)
                &&& n.acc_errors() == zero_columns::<N>(self.form@, 1)
                &&& n.acc_weight_errors() == zero_grids::<N>(self.form@)
                &&& n.activations() == zero_columns::<N>(self.form@, 0)
                &&& n.pre_acts() == zero_columns::<N>(self.form@, 1)
                &&& n.errors() == zero_columns::<N>(self.form@, 1)
                &&& n.weight_errors() == zero_grids::<N>(self.form@)
                &&& n.samples() == 0
            },
    {
        Net::from_parts(self.copy(), weights)
    }
}

/// Forward passes are repeatable: a pass leaves weights, biases and settings
/// as they were, and the output depends on those and the input alone, so a
/// second pass on the same input gives the same output as the first.
pub proof fn lemma_forward_repeatable<N: Real, const L: usize>(
    before: Net<N, L>,
    between: Net<N, L>,
    after: Net<N, L>,
    x: Mat<N>,
)
    requires
        between.same_model(&before),
        after.same_model(&between),
    ensures
        after.predict(x) == before.predict(x),
        between.predict(x) == before.predict(x),
{
}

/// A network rebuilt by `from_saved` from the weights, biases and settings that
/// another exposes computes the same output as that network on every input.
pub proof fn lemma_saved_round_trip<N: Real, const L: usize>(source: Net<N, L>, restored: Net<N, L>, x: Mat<N>)
    requires
        restored.hyper() == source.hyper(),
        restored.ws() == source.ws(),
        restored.bs() == source.bs(),
    ensures
        restored.predict(x) == source.predict(x),
{
}

} // verus!
