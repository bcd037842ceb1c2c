//! Precision-critical function identification and context strategies for a
//! context-sensitive pointer analysis.
//!
//! A per-function pointer flow graph records how pointers move between the
//! locals of a function; solving reachability on it tells which parameters
//! flow to the result and through which callsites. A worklist over the call
//! graph then finds the precision-critical functions, and the context
//! strategies use that information to build calling contexts.

pub mod ids;
pub mod graph;
pub mod pfg;
pub mod reach;
pub mod roots;
pub mod prec_crit;
pub mod keys;
pub mod context;
pub mod strategies;
pub mod provenance;
pub mod sets;
pub mod merge;
pub mod mir;
pub mod flow;
pub mod analysis;
