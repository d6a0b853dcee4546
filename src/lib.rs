//! A feed-forward neural network trained by mini-batch gradient descent,
//! with its dense linear-algebra kernel and layer containers.
//!
//! Every computation is generic over the scalar type and is stated over the
//! scalar's own operations, so the contracts describe exactly which sums and
//! products are formed, and in which order.

pub mod array;
pub mod canvas;
pub mod error;
pub mod func;
pub mod linalg;
pub mod mat;
pub mod mnist;
pub mod net;
pub mod num;
