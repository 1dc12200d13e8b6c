//! Cave passages: caves are named nodes; big caves (upper-case names) may
//! be revisited, and `start` and `end` bound every path.
use vstd::prelude::*;

verus! {

use crate::parse::str_eq;

/// A cave, identified by its name.
#[derive(Debug, Hash, Clone, PartialEq, Eq)]
pub struct Cave {
    pub name: String,
}

/// A big cave may be visited any number of times: its name is entirely
/// upper-case ASCII.
pub open spec fn is_big_name(name: Seq<char>) -> bool {
    forall|k: int| 0 <= k < name.len() ==> 65 <= (#[trigger] name[k]) as u32 <= 90
}

impl Cave {
    pub fn new(name: &str) -> (c: Cave)
        ensures
            c.name@ == name@,
    {
        Cave { name: name.to_owned() }
    }

    /// Whether this cave may be revisited.
    pub fn is_big(&self) -> (r: bool)
        ensures
            r == is_big_name(self.name@),
    {
        let s = self.name.as_str();
        let n = s.unicode_len();
        let mut k: usize = 0;
        while k < n
            invariant
                0 <= k <= n,
                n == s@.len(),
                s@ == self.name@,
                forall|j: int| 0 <= j < k ==> 65 <= (#[trigger] s@[j]) as u32 <= 90,
            decreases n - k,
        {
            let c = s.get_char(k);
            let v = c as u32;
            if v < 65 || v > 90 {
                return false;
            }
            k = k + 1;
        }
        true
    }

    pub fn is_start(&self) -> (r: bool)
        ensures
            r == (self.name@ == "start"@),
    {
        str_eq(self.name.as_str(), "start")
    }

    pub fn is_end(&self) -> (r: bool)
        ensures
            r == (self.name@ == "end"@),
    {
        str_eq(self.name.as_str(), "end")
    }

    /// The cave every path leaves from.
    pub fn start() -> (c: Cave)
        ensures
            c.name@ == "start"@,
    {
        Cave::new("start")
    }

    /// The cave every path ends in.
    pub fn end() -> (c: Cave)
        ensures
            c.name@ == "end"@,
    {
        Cave::new("end")
    }
}

} // verus!
