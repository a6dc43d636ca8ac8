//! Composable utility programming: objects are scored by `Utility`, produced by
//! `Generator` and changed reversibly by `Modifier`; `ModifyOptimizer` searches for
//! changes that raise the utility of an object, and is itself a `Modifier`.
pub mod generator;
pub mod modifier;
pub mod optimizer;
pub mod random;
pub mod utility;

pub use generator::Generator;
pub use modifier::Modifier;
pub use optimizer::ModifyOptimizer;
pub use utility::Utility;
