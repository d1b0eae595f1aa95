use vstd::prelude::*;

verus! {

/// The diff base of a file from a run of `jj file show` on the parent revision:
/// what it printed when it succeeded, and nothing when it failed (the file did not
/// exist there).
pub fn diff_base_from_show(ok: bool, stdout: Vec<u8>) -> (base: Vec<u8>)
    ensures
        base@ == if ok { stdout@ } else { Seq::empty() },
{
    if ok {
        stdout
    } else {
        Vec::new()
    }
}

} // verus!
