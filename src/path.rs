use vstd::prelude::*;
use vstd::string::*;

verus! {

/// Text placed between the segments of a field path.
pub const PATH_SEPARATOR: &'static str = ".";

/// The segments of a path joined with the separator.
pub open spec fn joined(segments: Seq<String>) -> Seq<char>
    decreases segments.len(),
{
    if segments.len() == 0 {
        Seq::empty()
    } else if segments.len() == 1 {
        segments[0]@
    } else {
        joined(segments.drop_last()) + PATH_SEPARATOR@ + segments.last()@
    }
}

/// The key of the field at the end of `segments`.
pub fn join_path(segments: &Vec<String>) -> (r: String)
    ensures
        r@ == joined(segments@),
{
    let mut r = String::new();
    let mut i: usize = 0;
    while i < segments.len()
        invariant
            0 <= i <= segments@.len(),
            r@ == joined(segments@.take(i as int)),
        decreases segments@.len() - i,
    {
        assert(segments@.take(i + 1).drop_last() =~= segments@.take(i as int));
        if i > 0 {
            r.append(PATH_SEPARATOR);
        }
        r.append(segments[i].as_str());
        i = i + 1;
    }
    assert(segments@.take(segments@.len() as int) =~= segments@);
    r
}

} // verus!
