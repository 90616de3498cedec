//! Rules, and the tables they are filed in.

pub mod builder;
pub mod tree;

pub use builder::{LocalCidrSpec, PortSpec, Rule, RuleError, RuleSetBuilder, RuleWarning};
pub use tree::RuleSet;
