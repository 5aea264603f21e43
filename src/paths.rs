use vstd::prelude::*;

verus! {

/// The separator between the segments of a remote or local path.
pub open spec fn sep() -> Seq<char> {
    seq!['/']
}

/// `base` and `name` joined by one separator.
pub open spec fn joined(base: Seq<char>, name: Seq<char>) -> Seq<char> {
    base + sep() + name
}

/// Joins `base` and `name` with a `/` between them.
pub fn join_path(base: &str, name: &str) -> (r: String)
    ensures
        r@ == joined(base@, name@),
{
    let mut r = String::from_str(base);
    r.append("/");
    r.append(name);
    proof {
        reveal_strlit("/");
    }
    r
}

} // verus!
