//! A tiny module of its own, to show one crate item calling another
//! through a path.

use vstd::prelude::*;
use vstd::string::StringExecFns;

verus! {

/// Places the standard order and hands back the message for the caller to
/// display.
pub fn order_food() -> (msg: String)
    ensures
        msg@ == "One order of pasta, coming right up!"@,
{
    String::from_str("One order of pasta, coming right up!")
}

} // verus!
