use vstd::prelude::*;

use crate::num::{Num, Real};

verus! {

/// A scalar function together with its derivative.
pub trait NumeralFn<N> {
    spec fn value_spec(&self, x: N) -> N;

    spec fn deriv_spec(&self, x: N) -> N;

    fn value(&self, x: N) -> (r: N)
        ensures
            r == self.value_spec(x),
    ;

    fn deriv(&self, x: N) -> (r: N)
        ensures
            r == self.deriv_spec(x),
    ;
}

/// The network's activation function.
#[derive(Clone, Copy, Debug, PartialEq, Eq, Structural)]
pub enum Activation {
    Sig,
    Tanh,
    Lin,
}

/// The network's cost function, applied to the residual `target - output`.
#[derive(Clone, Copy, Debug, PartialEq, Eq, Structural)]
pub enum Cost {
    Quad,
}

impl Activation {
    pub open spec fn act_spec<N: Real>(self, x: N) -> N {
        match self {
            Activation::Sig => N::sigmoid_spec(x),
            Activation::Tanh => N::tanh_spec(x),
            Activation::Lin => x,
        }
    }

    pub open spec fn d_act_spec<N: Real>(self, x: N) -> N {
        match self {
            Activation::Sig => N::sigmoid_deriv_spec(x),
            Activation::Tanh => N::minus_spec(N::one_spec(), N::times_spec(N::tanh_spec(x), N::tanh_spec(x))),
            Activation::Lin => N::one_spec(),
        }
    }

    /// sigmoid `1 / (1 + e^-x)`, `tanh x`, or `x` itself.
    pub fn act<N: Real>(&self, x: N) -> (r: N)
        ensures
            r == self.act_spec(x),
    {
        match self {
            Activation::Sig => x.sigmoid(),
            Activation::Tanh => x.tanh(),
            Activation::Lin => x,
        }
    }

    /// `1 / (2 + e^x + e^-x)`, `1 - tanh² x`, or one.
    pub fn d_act<N: Real>(&self, x: N) -> (r: N)
        ensures
            r == self.d_act_spec(x),
    {
        match self {
            Activation::Sig => x.sigmoid_deriv(),
            Activation::Tanh => {
                let t = x.tanh();
                N::one().minus(t.times(t))
            },
            Activation::Lin => N::one(),
        }
    }
}

impl<N: Real> NumeralFn<N> for Activation {
    open spec fn value_spec(&self, x: N) -> N {
        self.act_spec(x)
    }

    open spec fn deriv_spec(&self, x: N) -> N {
        self.d_act_spec(x)
    }

    fn value(&self, x: N) -> (r: N) {
        self.act(x)
    }

    fn deriv(&self, x: N) -> (r: N) {
        self.d_act(x)
    }
}

impl Cost {
    pub open spec fn cost_spec<N: Num>(self, d: N) -> N {
        match self {
            Cost::Quad => N::times_spec(d, d),
        }
    }

    pub open spec fn d_cost_spec<N: Num>(self, d: N) -> N {
        match self {
            Cost::Quad => N::times_spec(N::plus_spec(N::one_spec(), N::one_spec()), d),
        }
    }

    /// `d²`.
    pub fn cost<N: Num>(&self, d: N) -> (r: N)
        ensures
            r == self.cost_spec(d),
    {
        match self {
            Cost::Quad => d.times(d),
        }
    }

    /// `2·d`.
    pub fn d_cost<N: Num>(&self, d: N) -> (r: N)
        ensures
            r == self.d_cost_spec(d),
    {
        match self {
            Cost::Quad => N::one().plus(N::one()).times(d),
        }
    }
}

impl<N: Num> NumeralFn<N> for Cost {
    open spec fn value_spec(&self, x: N) -> N {
        self.cost_spec(x)
    }

    open spec fn deriv_spec(&self, x: N) -> N {
        self.d_cost_spec(x)
    }

    fn value(&self, x: N) -> (r: N) {
        self.cost(x)
    }

    fn deriv(&self, x: N) -> (r: N) {
        self.d_cost(x)
    }
}

} // verus!
