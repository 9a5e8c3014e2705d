//! A generational, allocation-reusing handle-based object store (an arena),
//! a layered tree/forest structure built on top of it, and a pull-driven
//! merge protocol that folds one instance into another while remapping every
//! internal reference.

pub mod arena;
pub mod dll;
pub mod forest;
pub mod merge;
pub mod sorted;
