//! A friendly greeting, the placeholder text of the demo shell.

use vstd::prelude::*;

use crate::text::push_str;

verus! {

/// `"Hello, {name}!"`.
pub fn greeting(name: &str) -> (s: String)
    ensures
        s@ == "Hello, "@ + name@ + "!"@,
{
    let mut s = String::new();
    push_str(&mut s, "Hello, ");
    push_str(&mut s, name);
    push_str(&mut s, "!");
    s
}

} // verus!
