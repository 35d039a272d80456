//! The control-file vocabulary.
//!
//! The client steers the transfer by editing a plain-text file of lines
//! `<filename> <KEYWORD>`. The keywords map to the weights of the
//! priority vector: `NORMAL` is 1, `HIGH` is 4, `CRITICAL` is 10; any
//! other keyword is not recognized and leaves the slot untouched.

use vstd::prelude::*;
use vstd::string::StringExecFns;

verus! {

/// The weight a control-file keyword stands for, if any.
pub open spec fn weight_of_keyword(s: Seq<char>) -> Option<u8> {
    if s == "NORMAL"@ {
        Some(1u8)
    } else if s == "HIGH"@ {
        Some(4u8)
    } else if s == "CRITICAL"@ {
        Some(10u8)
    } else {
        None
    }
}

/// Map a control-file keyword to its weight; `None` for a keyword the
/// vocabulary does not know.
pub fn priority_of_keyword(keyword: &str) -> (r: Option<u8>)
    ensures
        r == weight_of_keyword(keyword@),
{
    let k = keyword.to_owned();
    if k == String::from_str("NORMAL") {
        Some(1)
    } else if k == String::from_str("HIGH") {
        Some(4)
    } else if k == String::from_str("CRITICAL") {
        Some(10)
    } else {
        None
    }
}

} // verus!
