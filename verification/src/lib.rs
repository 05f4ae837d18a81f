//! Attribution of per-molecule benchmark values to force-field parameters.
//!
//! A force field assigns parameters to the chemical environments of a
//! molecule: each parameter has a pattern, and a search reports the atom
//! tuples that a pattern matches. This library labels molecules from what
//! the search found, and answers from the labels which parameters a
//! benchmark value is to be blamed on, how often each parameter is used, and
//! which environments change their parameter from one force field to
//! another.

pub mod assignment;
pub mod assoc;
pub mod attribution;
pub mod coverage;
pub mod dataset;
pub mod environment;
pub mod moved;
pub mod parameter_map;
pub mod record;
pub mod string_set;
pub mod subset;
pub mod terms;
pub mod text;

pub use crate::dataset::{load_dataset, Dataset, Entry};
pub use crate::parameter_map::label_molecule;
pub use crate::record::Record;
pub use crate::text::load_csv;

use vstd::prelude::*;

verus! {

/// The identifier of a parameter.
pub type Pid = String;

/// A molecule in a linear notation.
pub type Smiles = String;

} // verus!
