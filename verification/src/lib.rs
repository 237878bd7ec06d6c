//! Learning translation rules from a text, its translation and a dictionary
//! of parts of speech, with the matching, spreading and deduction of rules
//! proved against their specifications.
use vstd::prelude::*;

pub mod table;
pub mod phrase;
pub mod assemble;
pub mod deduce;
pub mod text;
pub mod learn;

verus! {

} // verus!
