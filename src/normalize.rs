//! Lexical path normalization over byte strings.
use vstd::prelude::*;

verus! {

/// The path separator `/`.
pub const SEP: u8 = 47;

/// The byte `.`.
pub const DOT: u8 = 46;

/// The pieces of `p` between separators, empty ones included: `"/a//b"` has
/// the pieces `""`, `"a"`, `""`, `"b"`.
pub open spec fn pieces(p: Seq<u8>) -> Seq<Seq<u8>>
    decreases p.len(),
{
    if p.len() == 0 {
        seq![Seq::empty()]
    } else {
        let s = pieces(p.drop_last());
        if p.last() == SEP {
            s.push(Seq::empty())
        } else {
            s.update(s.len() - 1, s.last().push(p.last()))
        }
    }
}

/// The current-directory marker `.`.
pub open spec fn cur_dir() -> Seq<u8> {
    seq![DOT]
}

/// The parent-directory marker `..`.
pub open spec fn parent_dir() -> Seq<u8> {
    seq![DOT, DOT]
}

/// A named segment: not empty, not `.` or `..`, and free of separators.
pub open spec fn is_name(s: Seq<u8>) -> bool {
    &&& s.len() > 0
    &&& s != cur_dir()
    &&& s != parent_dir()
    &&& forall|i: int| 0 <= i < s.len() ==> s[i] != SEP
}

/// Every segment of `segs` is a name.
pub open spec fn all_names(segs: Seq<Seq<u8>>) -> bool {
    forall|i: int| 0 <= i < segs.len() ==> is_name(#[trigger] segs[i])
}

/// What one piece does to the segments gathered so far: an empty piece and
/// `.` add nothing, `..` drops the last segment (never going above the
/// start), and anything else is appended.
pub open spec fn apply(acc: Seq<Seq<u8>>, piece: Seq<u8>) -> Seq<Seq<u8>> {
    if piece.len() == 0 || piece == cur_dir() {
        acc
    } else if piece == parent_dir() {
        if acc.len() == 0 {
            acc
        } else {
            acc.drop_last()
        }
    } else {
        acc.push(piece)
    }
}

/// The segments left after applying `ps` in order, left to right, to `acc`.
pub open spec fn clean_from(acc: Seq<Seq<u8>>, ps: Seq<Seq<u8>>) -> Seq<Seq<u8>>
    decreases ps.len(),
{
    if ps.len() == 0 {
        acc
    } else {
        apply(clean_from(acc, ps.drop_last()), ps.last())
    }
}

/// The segments of `ps` once `.`, `..` and empty pieces are resolved.
pub open spec fn clean(ps: Seq<Seq<u8>>) -> Seq<Seq<u8>> {
    clean_from(Seq::empty(), ps)
}

/// A path is absolute when it starts with the separator.
pub open spec fn is_absolute(p: Seq<u8>) -> bool {
    p.len() > 0 && p[0] == SEP
}

/// The segments joined by single separators.
pub open spec fn join(segs: Seq<Seq<u8>>) -> Seq<u8>
    decreases segs.len(),
{
    if segs.len() == 0 {
        Seq::empty()
    } else if segs.len() == 1 {
        segs[0]
    } else {
        join(segs.drop_last()).push(SEP) + segs.last()
    }
}

/// The path spelled by `segs`, with a leading separator when `absolute`:
/// the root alone is `"/"`, the empty relative path is `""`.
pub open spec fn render(absolute: bool, segs: Seq<Seq<u8>>) -> Seq<u8> {
    if absolute {
        seq![SEP] + join(segs)
    } else {
        join(segs)
    }
}

/// The normal form of `p`: as absolute as it was, with no `.`, `..` or
/// empty segments.
pub open spec fn normalized(p: Seq<u8>) -> Seq<u8> {
    render(is_absolute(p), clean(pieces(p)))
}

/// The byte views of a sequence of byte vectors.
pub open spec fn views(v: Seq<Vec<u8>>) -> Seq<Seq<u8>> {
    v.map_values(|x: Vec<u8>| x@)
}

/// Applies one piece to `acc`.
fn apply_piece(acc: &mut Vec<Vec<u8>>, piece: Vec<u8>)
    ensures
        views(final(acc)@) == apply(views(old(acc)@), piece@),
{
    let n = piece.len();
    if n == 0 || (n == 1 && piece[0] == DOT) {
        assert(n == 1 ==> piece@ =~= cur_dir());
    } else if n == 2 && piece[0] == DOT && piece[1] == DOT {
        assert(piece@ =~= parent_dir());
        if acc.len() > 0 {
            acc.pop();
            assert(views(acc@) =~= views(old(acc)@).drop_last());
        }
    } else {
        assert(piece@ != cur_dir() && piece@ != parent_dir()) by {
            if piece@ == cur_dir() {
                assert(piece@.len() == 1);
            }
            if piece@ == parent_dir() {
                assert(piece@.len() == 2 && piece@[0] == DOT && piece@[1] == DOT);
            }
        }
        let ghost v = piece@;
        acc.push(piece);
        assert(views(acc@) =~= views(old(acc)@).push(v));
    }
}

/// Applies the pieces of `p`, left to right, to `acc`.
pub(crate) fn apply_path(acc: &mut Vec<Vec<u8>>, p: &[u8])
    ensures
        views(final(acc)@) == clean_from(views(old(acc)@), pieces(p@)),
{
    let mut cur: Vec<u8> = Vec::new();
    let mut i: usize = 0;
    proof {
        assert(p@.take(0) =~= Seq::<u8>::empty());
    }
    while i < p.len()
        invariant
            i <= p@.len(),
            pieces(p@.take(i as int)).len() >= 1,
            cur@ == pieces(p@.take(i as int)).last(),
            views(acc@) == clean_from(views(old(acc)@), pieces(p@.take(i as int)).drop_last()),
        decreases p@.len() - i,
    {
        let ghost before = p@.take(i as int);
        let ghost after = p@.take(i + 1);
        assert(after.drop_last() =~= before);
        assert(after.last() == p@[i as int]);
        if p[i] == SEP {
            let ghost ps = pieces(before);
            apply_piece(acc, cur);
            cur = Vec::new();
            assert(pieces(after).drop_last() =~= ps);
            assert(pieces(after).last() =~= cur@);
        } else {
            cur.push(p[i]);
            assert(pieces(after).drop_last() =~= pieces(before).drop_last());
        }
        i = i + 1;
    }
    assert(p@.take(i as int) =~= p@);
    let ghost ps = pieces(p@);
    apply_piece(acc, cur);
    assert(ps =~= ps.drop_last().push(ps.last()));
}

/// Appends the bytes of `b` to `out`.
pub fn append_bytes(out: &mut Vec<u8>, b: &[u8])
    ensures
        final(out)@ == old(out)@ + b@,
{
    let mut i: usize = 0;
    while i < b.len()
        invariant
            i <= b@.len(),
            out@ == old(out)@ + b@.take(i as int),
        decreases b@.len() - i,
    {
        out.push(b[i]);
        i = i + 1;
        assert(out@ =~= old(out)@ + b@.take(i as int));
    }
    assert(b@.take(i as int) =~= b@);
}

/// Spells out the path made of `segs`, with a leading separator when
/// `absolute`.
pub fn render_path(absolute: bool, segs: &Vec<Vec<u8>>) -> (r: Vec<u8>)
    ensures
        r@ == render(absolute, views(segs@)),
{
    let mut out: Vec<u8> = Vec::new();
    if absolute {
        out.push(SEP);
    }
    let ghost vs = views(segs@);
    proof {
        assert(vs.take(0) =~= Seq::<Seq<u8>>::empty());
        assert(out@ =~= render(absolute, vs.take(0)));
    }
    let mut k: usize = 0;
    while k < segs.len()
        invariant
            k <= segs@.len(),
            vs == views(segs@),
            out@ == render(absolute, vs.take(k as int)),
        decreases segs@.len() - k,
    {
        let ghost t = vs.take(k + 1);
        assert(t.drop_last() =~= vs.take(k as int));
        assert(t.last() == segs@[k as int]@);
        if k > 0 {
            out.push(SEP);
        }
        append_bytes(&mut out, segs[k].as_slice());
        if k == 0 {
            assert(t =~= seq![segs@[0]@]);
            assert(join(t) == t[0]);
        }
        assert(out@ =~= render(absolute, t));
        k = k + 1;
    }
    assert(vs.take(k as int) =~= vs);
    out
}

/// Removes every `.` and `..` segment from `path` lexically: `.` is dropped
/// and `..` takes away the segment before it, or nothing at the root. The
/// result is absolute exactly when `path` is.
pub fn strip_rel(path: &[u8]) -> (r: Vec<u8>)
    ensures
        r@ == normalized(path@),
{
    let mut segs: Vec<Vec<u8>> = Vec::new();
    assert(views(segs@) =~= Seq::<Seq<u8>>::empty());
    apply_path(&mut segs, path);
    let absolute = path.len() > 0 && path[0] == SEP;
    render_path(absolute, &segs)
}

/// The path that `path` names when the working directory is `cwd`.
pub open spec fn anchored(path: Seq<u8>, cwd: Seq<u8>) -> Seq<u8> {
    if is_absolute(path) {
        path
    } else {
        cwd.push(SEP) + path
    }
}

/// Makes `path` absolute against the working directory `cwd` (unless it is
/// absolute already) and normalizes it.
pub fn make_absolute(path: &[u8], cwd: &[u8]) -> (r: Vec<u8>)
    ensures
        r@ == normalized(anchored(path@, cwd@)),
{
    if path.len() > 0 && path[0] == SEP {
        strip_rel(path)
    } else {
        let mut full: Vec<u8> = Vec::new();
        append_bytes(&mut full, cwd);
        full.push(SEP);
        append_bytes(&mut full, path);
        assert(full@ =~= cwd@.push(SEP) + path@);
        strip_rel(full.as_slice())
    }
}

} // verus!
