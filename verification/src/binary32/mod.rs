//! IEEE 754 single precision arithmetic on integers.
//!
//! `num` says what the numbers are and what each operation means, `rounding`
//! proves the facts about rounding that the operations need, and `single` is the
//! executable type. `error` bounds what rounding takes from the exact results, and
//! `order` says that it keeps them in order.

pub mod error;
pub mod num;
pub mod order;
pub mod rounding;
pub mod root;
pub mod single;
pub mod whole;
