//! Data engine of a requirements-traceability tool: artifact names and their
//! family, the clean intermediate form and its identity hash, completion
//! contributions, the modification protocol and project assembly.

pub mod name;
pub mod order;
pub mod sort;
pub mod names;
pub mod family;
pub mod text;
pub mod im;
pub mod raw;
pub mod implemented;
pub mod subnames;
pub mod project;
pub mod ops;
pub mod ls;
pub mod cmdline;
pub mod fmt;
