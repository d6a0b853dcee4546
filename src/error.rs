use vstd::prelude::*;

verus! {

/// The ways an operation of this crate can be refused.
#[derive(Clone, Copy, Debug, PartialEq, Eq, Structural)]
pub enum NetError {
    /// Operand shapes are incompatible, or a conversion's dimension rule fails.
    ShapeMismatch,
    /// A network was asked for with fewer than three layers.
    InvalidDepth,
    /// Two mutable references to the same layer were asked for.
    Aliased,
    /// A buffer's length disagrees with the shape declared for it.
    BadBufferLength,
    /// A stored model does not have the shapes its form demands.
    CorruptModel,
    /// A dataset file fails its magic-number or length checks.
    CorruptDataset,
}

} // verus!
