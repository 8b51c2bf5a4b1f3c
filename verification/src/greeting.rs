//! The one command the application shell exposes besides the proof
//! service.

use vstd::prelude::*;
use vstd::string::StringExecFns;

verus! {

/// Builds the greeting line for a name: `"Hello, "`, the name, `"!"`.
/// It succeeds for every string, the empty one included.
pub fn greet(name: &str) -> (r: String)
    ensures
        r@ == "Hello, "@ + name@ + "!"@,
{
    let mut s = String::from_str("Hello, ");
    s.append(name);
    s.append("!");
    s
}

} // verus!
