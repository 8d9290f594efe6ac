//! Framing of resolved paths into output records.
use vstd::prelude::*;
use crate::normalize::{append_bytes, views};

verus! {

/// The byte that ends a record by default: a newline.
pub const NEWLINE: u8 = 10;

/// The byte that ends a record in zero-separated output.
pub const NUL: u8 = 0;

/// Each path followed by `terminator`, in order.
pub open spec fn records(paths: Seq<Seq<u8>>, terminator: u8) -> Seq<u8>
    decreases paths.len(),
{
    if paths.len() == 0 {
        Seq::empty()
    } else {
        records(paths.drop_last(), terminator) + paths.last().push(terminator)
    }
}

/// The output for `paths`: each path, in order, followed by `terminator`.
pub fn print_results_real(paths: &Vec<Vec<u8>>, terminator: u8) -> (r: Vec<u8>)
    ensures
        r@ == records(views(paths@), terminator),
{
    let ghost ps = views(paths@);
    let mut out: Vec<u8> = Vec::new();
    let mut i: usize = 0;
    assert(ps.take(0) =~= Seq::<Seq<u8>>::empty());
    while i < paths.len()
        invariant
            i <= paths@.len(),
            ps == views(paths@),
            out@ == records(ps.take(i as int), terminator),
        decreases paths@.len() - i,
    {
        let ghost t = ps.take(i + 1);
        assert(t.drop_last() =~= ps.take(i as int));
        assert(t.last() == paths@[i as int]@);
        append_bytes(&mut out, paths[i].as_slice());
        out.push(terminator);
        assert(out@ =~= records(t, terminator));
        i = i + 1;
    }
    assert(ps.take(i as int) =~= ps);
    out
}

/// The output for `paths`: one record per path, in order, each ended by a
/// NUL byte when `zero` holds and by a newline otherwise.
pub fn print_results(paths: &Vec<Vec<u8>>, zero: bool) -> (r: Vec<u8>)
    ensures
        r@ == records(views(paths@), if zero { NUL } else { NEWLINE }),
{
    if zero {
        print_results_real(paths, NUL)
    } else {
        print_results_real(paths, NEWLINE)
    }
}

} // verus!
