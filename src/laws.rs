//! Facts about path pieces and normalization, and the laws that follow.
use vstd::prelude::*;
use crate::normalize::{
    all_names, apply, clean, clean_from, cur_dir, is_absolute, is_name, join, normalized,
    parent_dir, pieces, render, anchored, DOT, SEP,
};
use crate::output::{records, NEWLINE, NUL};
use crate::resolve::{target_segs, ActionView, ProbeView, ResolveError, ResolverView};

verus! {

/// `s` holds no separator.
pub open spec fn no_sep(s: Seq<u8>) -> bool {
    forall|i: int| 0 <= i < s.len() ==> s[i] != SEP
}

pub proof fn lemma_pieces_len(p: Seq<u8>)
    ensures
        pieces(p).len() >= 1,
    decreases p.len(),
{
    if p.len() > 0 {
        lemma_pieces_len(p.drop_last());
    }
}

/// No piece holds a separator.
pub proof fn lemma_pieces_no_sep(p: Seq<u8>)
    ensures
        forall|i: int| 0 <= i < pieces(p).len() ==> no_sep(#[trigger] pieces(p)[i]),
    decreases p.len(),
{
    if p.len() > 0 {
        lemma_pieces_no_sep(p.drop_last());
        lemma_pieces_len(p.drop_last());
        let s = pieces(p.drop_last());
        if p.last() != SEP {
            let l = s.last().push(p.last());
            assert(no_sep(l)) by {
                assert forall|i: int| 0 <= i < l.len() implies l[i] != SEP by {
                    if i < s.last().len() {
                        assert(no_sep(s[s.len() - 1]));
                    }
                }
            }
        }
    }
}

/// A separator splits the pieces in two.
pub proof fn lemma_pieces_split(a: Seq<u8>, b: Seq<u8>)
    ensures
        pieces(a.push(SEP) + b) == pieces(a) + pieces(b),
    decreases b.len(),
{
    let x = a.push(SEP) + b;
    if b.len() == 0 {
        assert(x =~= a.push(SEP));
        assert(x.drop_last() =~= a);
        assert(pieces(a) + pieces(b) =~= pieces(a).push(Seq::empty()));
    } else {
        assert(x.drop_last() =~= a.push(SEP) + b.drop_last());
        lemma_pieces_split(a, b.drop_last());
        lemma_pieces_len(b.drop_last());
        lemma_pieces_len(a);
        let s = pieces(a) + pieces(b.drop_last());
        if b.last() == SEP {
            assert(pieces(x) =~= pieces(a) + pieces(b));
        } else {
            let t = pieces(b.drop_last());
            assert(s.last() == t.last());
            assert(pieces(b) == t.update(t.len() - 1, t.last().push(b.last())));
            assert(pieces(x) =~= pieces(a) + pieces(b));
        }
    }
}

/// A piece without separators is its own single piece.
pub proof fn lemma_pieces_single(x: Seq<u8>)
    requires
        no_sep(x),
    ensures
        pieces(x) == seq![x],
    decreases x.len(),
{
    if x.len() == 0 {
        assert(x =~= Seq::<u8>::empty());
    } else {
        lemma_pieces_single(x.drop_last());
        assert(x.drop_last().push(x.last()) =~= x);
        assert(pieces(x) =~= seq![x]);
    }
}

/// Joining segments without separators and splitting again gives them back.
pub proof fn lemma_pieces_join(segs: Seq<Seq<u8>>)
    requires
        segs.len() >= 1,
        forall|i: int| 0 <= i < segs.len() ==> no_sep(#[trigger] segs[i]),
    ensures
        pieces(join(segs)) == segs,
    decreases segs.len(),
{
    if segs.len() == 1 {
        lemma_pieces_single(segs[0]);
        assert(segs =~= seq![segs[0]]);
    } else {
        let init = segs.drop_last();
        assert forall|i: int| 0 <= i < init.len() implies no_sep(#[trigger] init[i]) by {
            assert(init[i] == segs[i]);
        }
        lemma_pieces_join(init);
        lemma_pieces_split(join(init), segs.last());
        lemma_pieces_single(segs.last());
        assert(segs =~= init + seq![segs.last()]);
    }
}

/// Applying `a` then `b` is applying `a + b`.
pub proof fn lemma_clean_append(acc: Seq<Seq<u8>>, a: Seq<Seq<u8>>, b: Seq<Seq<u8>>)
    ensures
        clean_from(acc, a + b) == clean_from(clean_from(acc, a), b),
    decreases b.len(),
{
    if b.len() == 0 {
        assert(a + b =~= a);
    } else {
        assert((a + b).drop_last() =~= a + b.drop_last());
        lemma_clean_append(acc, a, b.drop_last());
    }
}

/// One piece applied on its own.
pub proof fn lemma_clean_one(acc: Seq<Seq<u8>>, p: Seq<u8>)
    ensures
        clean_from(acc, seq![p]) == apply(acc, p),
{
    assert(seq![p].drop_last() =~= Seq::<Seq<u8>>::empty());
    assert(seq![p].last() == p);
    assert(clean_from(acc, Seq::<Seq<u8>>::empty()) == acc);
    assert(clean_from(acc, seq![p]) == apply(clean_from(acc, seq![p].drop_last()), p));
}

/// Names are appended as they are.
pub proof fn lemma_clean_names(acc: Seq<Seq<u8>>, ps: Seq<Seq<u8>>)
    requires
        all_names(ps),
    ensures
        clean_from(acc, ps) == acc + ps,
    decreases ps.len(),
{
    if ps.len() == 0 {
        assert(acc + ps =~= acc);
    } else {
        assert(ps.drop_last().len() < ps.len());
        assert(all_names(ps.drop_last())) by {
            assert forall|i: int| 0 <= i < ps.drop_last().len() implies is_name(
                #[trigger] ps.drop_last()[i],
            ) by {
                assert(ps.drop_last()[i] == ps[i]);
            }
        }
        lemma_clean_names(acc, ps.drop_last());
        assert(is_name(ps[ps.len() - 1]));
        assert(acc + ps =~= (acc + ps.drop_last()).push(ps.last()));
    }
}

/// Applying pieces without separators keeps a sequence of names one.
pub proof fn lemma_clean_keeps_names(acc: Seq<Seq<u8>>, ps: Seq<Seq<u8>>)
    requires
        all_names(acc),
        forall|i: int| 0 <= i < ps.len() ==> no_sep(#[trigger] ps[i]),
    ensures
        all_names(clean_from(acc, ps)),
    decreases ps.len(),
{
    if ps.len() > 0 {
        let init = ps.drop_last();
        assert forall|i: int| 0 <= i < init.len() implies no_sep(#[trigger] init[i]) by {
            assert(init[i] == ps[i]);
        }
        lemma_clean_keeps_names(acc, init);
        let c = clean_from(acc, init);
        let piece = ps.last();
        assert(no_sep(ps[ps.len() - 1]));
        let r = apply(c, piece);
        assert forall|i: int| 0 <= i < r.len() implies is_name(#[trigger] r[i]) by {
            if piece.len() == 0 || piece == cur_dir() {
            } else if piece == parent_dir() {
                if c.len() > 0 {
                    assert(r[i] == c[i]);
                }
            } else {
                if i < c.len() {
                    assert(r[i] == c[i]);
                }
            }
        }
    }
}

/// The segments of any normal form are names.
pub proof fn lemma_clean_pieces_names(p: Seq<u8>)
    ensures
        all_names(clean(pieces(p))),
{
    lemma_pieces_no_sep(p);
    lemma_clean_keeps_names(Seq::empty(), pieces(p));
}

/// The pieces of an absolute rendering: the empty piece before the root
/// separator, then the segments.
pub proof fn lemma_clean_render_abs(segs: Seq<Seq<u8>>)
    requires
        all_names(segs),
    ensures
        clean(pieces(render(true, segs))) == segs,
{
    let e = Seq::<u8>::empty();
    assert(render(true, segs) =~= e.push(SEP) + join(segs));
    lemma_pieces_split(e, join(segs));
    assert(pieces(e) == seq![e]);
    if segs.len() == 0 {
        assert(pieces(join(segs)) == seq![e]);
        assert(pieces(render(true, segs)) =~= seq![e, e]);
        lemma_clean_append(Seq::empty(), seq![e], seq![e]);
        assert(seq![e] + seq![e] =~= seq![e, e]);
        lemma_clean_one(Seq::empty(), e);
        lemma_clean_one(Seq::empty(), e);
        assert(segs =~= Seq::<Seq<u8>>::empty());
    } else {
        assert forall|i: int| 0 <= i < segs.len() implies no_sep(#[trigger] segs[i]) by {
            assert(is_name(segs[i]));
        }
        lemma_pieces_join(segs);
        lemma_clean_append(Seq::empty(), seq![e], segs);
        lemma_clean_one(Seq::empty(), e);
        lemma_clean_names(Seq::empty(), segs);
        assert(Seq::<Seq<u8>>::empty() + segs =~= segs);
    }
}

/// Normalizing an absolute path that is already in normal form (a root
/// followed by names) returns it unchanged.
pub proof fn lemma_normal_form_unchanged(segs: Seq<Seq<u8>>)
    requires
        all_names(segs),
    ensures
        normalized(render(true, segs)) == render(true, segs),
{
    lemma_clean_render_abs(segs);
}

/// A join of segments starts with the first byte of the first segment.
pub proof fn lemma_join_first(segs: Seq<Seq<u8>>)
    requires
        segs.len() >= 1,
        segs[0].len() > 0,
    ensures
        join(segs).len() > 0,
        join(segs)[0] == segs[0][0],
    decreases segs.len(),
{
    if segs.len() > 1 {
        let init = segs.drop_last();
        assert(init[0] == segs[0]);
        lemma_join_first(init);
    }
}

/// Normalizing twice is normalizing once.
pub proof fn lemma_normalize_idempotent(p: Seq<u8>)
    ensures
        normalized(normalized(p)) == normalized(p),
{
    let segs = clean(pieces(p));
    lemma_clean_pieces_names(p);
    if is_absolute(p) {
        lemma_normal_form_unchanged(segs);
    } else if segs.len() == 0 {
        let e = Seq::<u8>::empty();
        assert(normalized(p) == e);
        assert(pieces(e) == seq![e]);
        lemma_clean_one(Seq::empty(), e);
    } else {
        assert(is_name(segs[0]));
        lemma_join_first(segs);
        assert forall|i: int| 0 <= i < segs.len() implies no_sep(#[trigger] segs[i]) by {
            assert(is_name(segs[i]));
        }
        lemma_pieces_join(segs);
        lemma_clean_names(Seq::empty(), segs);
        assert(Seq::<Seq<u8>>::empty() + segs =~= segs);
    }
}

/// The pieces of `/..` are the empty piece and `..`.
proof fn lemma_pieces_root_parent()
    ensures
        pieces(seq![SEP, DOT, DOT]) == seq![Seq::<u8>::empty(), parent_dir()],
{
    let e = Seq::<u8>::empty();
    lemma_pieces_split(e, seq![DOT, DOT]);
    assert(e.push(SEP) + seq![DOT, DOT] =~= seq![SEP, DOT, DOT]);
    lemma_pieces_single(seq![DOT, DOT]);
    assert(pieces(e) == seq![e]);
    assert(seq![e] + seq![parent_dir()] =~= seq![e, parent_dir()]);
}

/// `..` right after the root stays at the root: `/../b` normalizes as `/b`.
pub proof fn lemma_parent_at_root(b: Seq<u8>)
    ensures
        normalized(seq![SEP, DOT, DOT, SEP] + b) == normalized(seq![SEP] + b),
{
    let e = Seq::<u8>::empty();
    let es = Seq::<Seq<u8>>::empty();
    let x = seq![SEP, DOT, DOT, SEP] + b;
    let y = seq![SEP] + b;
    assert(x =~= seq![SEP, DOT, DOT].push(SEP) + b);
    assert(y =~= e.push(SEP) + b);
    lemma_pieces_split(seq![SEP, DOT, DOT], b);
    lemma_pieces_split(e, b);
    lemma_pieces_root_parent();
    assert(pieces(e) == seq![e]);
    lemma_clean_append(es, seq![e, parent_dir()], pieces(b));
    lemma_clean_append(es, seq![e], pieces(b));
    lemma_clean_append(es, seq![e], seq![parent_dir()]);
    assert(seq![e] + seq![parent_dir()] =~= seq![e, parent_dir()]);
    lemma_clean_one(es, e);
    lemma_clean_one(es, parent_dir());
    assert(is_absolute(x) && is_absolute(y));
}

/// A `.` segment is dropped and the segments around it keep their order:
/// `a/./b` normalizes as `a/b`.
pub proof fn lemma_cur_dir_dropped(a: Seq<u8>, b: Seq<u8>)
    ensures
        normalized(a + seq![SEP, DOT, SEP] + b) == normalized(a + seq![SEP] + b),
{
    let x = a + seq![SEP, DOT, SEP] + b;
    let y = a + seq![SEP] + b;
    assert(x =~= a.push(SEP) + (seq![DOT].push(SEP) + b));
    assert(y =~= a.push(SEP) + b);
    lemma_pieces_split(a, seq![DOT].push(SEP) + b);
    lemma_pieces_split(seq![DOT], b);
    lemma_pieces_split(a, b);
    lemma_pieces_single(seq![DOT]);
    assert(seq![DOT] =~= cur_dir());
    let pa = pieces(a);
    let pb = pieces(b);
    assert(pieces(x) =~= (pa + seq![cur_dir()]) + pb);
    lemma_clean_append(Seq::empty(), pa + seq![cur_dir()], pb);
    lemma_clean_append(Seq::empty(), pa, seq![cur_dir()]);
    lemma_clean_one(clean(pa), cur_dir());
    lemma_clean_append(Seq::empty(), pa, pb);
    assert(is_absolute(x) == is_absolute(y)) by {
        if a.len() == 0 {
            assert(x[0] == SEP && y[0] == SEP);
        } else {
            assert(x[0] == a[0] && y[0] == a[0]);
        }
    }
}

/// The state reached from `s` when the candidate turns out to be a link to
/// `ts[0]`, whose candidate then is a link to `ts[1]`, and so on.
pub open spec fn follow_links(s: ResolverView, ts: Seq<Seq<u8>>) -> ResolverView
    decreases ts.len(),
{
    if ts.len() == 0 {
        s
    } else {
        follow_links(s.after(ProbeView::Link(ts[0])), ts.drop_first())
    }
}

/// A component that stays a link, as in a cycle of links, ends the
/// resolution with a depth failure once the allowed number of dereferences
/// is spent, and never sooner.
pub proof fn lemma_link_cycle_fails(s: ResolverView, ts: Seq<Seq<u8>>)
    requires
        s.action() is Inspect,
        ts.len() == s.max_depth - s.links,
    ensures
        follow_links(s, ts).action() == ActionView::Failed(ResolveError::DepthExceeded),
        forall|k: int|
            0 <= k < ts.len() ==> #[trigger] follow_links(s, ts.take(k)).action() is Inspect,
    decreases ts.len(),
{
    let n = s.after(ProbeView::Link(ts[0]));
    assert(ts.take(0) =~= Seq::<Seq<u8>>::empty());
    assert(follow_links(s, ts) == follow_links(n, ts.drop_first()));
    if ts.len() == 1 {
        assert(ts.drop_first() =~= Seq::<Seq<u8>>::empty());
        assert(follow_links(n, ts.drop_first()) == n);
        assert(n.links == s.max_depth);
    } else {
        lemma_link_cycle_fails(n, ts.drop_first());
        assert forall|k: int| 0 <= k < ts.len() implies #[trigger] follow_links(
            s,
            ts.take(k),
        ).action() is Inspect by {
            if k > 0 {
                assert(ts.take(k)[0] == ts[0]);
                assert(ts.take(k).drop_first() =~= ts.drop_first().take(k - 1));
                assert(follow_links(s, ts.take(k)) == follow_links(n, ts.take(k).drop_first()));
                assert(follow_links(n, ts.drop_first().take(k - 1)).action() is Inspect);
            } else {
                assert(follow_links(s, ts.take(0)) == s);
            }
        }
    }
}

/// A relative link target is taken from the directory that holds the link,
/// not from any working directory: for a link at `dir/c`, the next path
/// asked about is the normal form of `dir/target`.
pub proof fn lemma_relative_target(s: ResolverView, c: Seq<u8>, t: Seq<u8>)
    requires
        s.wf(),
        s.action() is Inspect,
        s.links + 1 < s.max_depth,
        s.test == s.ret.push(c),
        !is_absolute(t),
    ensures
        s.after(ProbeView::Link(t)).action() == ActionView::Inspect(
            normalized(anchored(t, render(true, s.ret))),
        ),
{
    let dir = render(true, s.ret);
    lemma_pieces_split(dir, t);
    lemma_clean_append(Seq::empty(), pieces(dir), pieces(t));
    lemma_clean_render_abs(s.ret);
    assert(dir.push(SEP) + t == anchored(t, dir));
    assert(is_absolute(anchored(t, dir))) by {
        assert(anchored(t, dir)[0] == dir[0]);
    }
    assert(target_segs(s.ret, t) == clean(pieces(anchored(t, dir))));
}

/// An absolute link target discards the resolved prefix: the next path
/// asked about is the normal form of the target itself.
pub proof fn lemma_absolute_target(s: ResolverView, t: Seq<u8>)
    requires
        s.action() is Inspect,
        s.links + 1 < s.max_depth,
        is_absolute(t),
    ensures
        s.after(ProbeView::Link(t)).action() == ActionView::Inspect(normalized(t)),
{
}

/// Zero-separated output ends each record with a NUL byte and adds no
/// newline: it holds a newline only where a path does, and when there is
/// a record its last byte is NUL.
pub proof fn lemma_zero_records(ps: Seq<Seq<u8>>)
    ensures
        ps.len() > 0 ==> records(ps, NUL).last() == NUL,
        (forall|j: int, i: int|
            0 <= j < ps.len() && 0 <= i < ps[j].len() ==> #[trigger] ps[j][i] != NEWLINE)
            ==> forall|i: int|
            0 <= i < records(ps, NUL).len() ==> #[trigger] records(ps, NUL)[i] != NEWLINE,
    decreases ps.len(),
{
    if ps.len() > 0 {
        let init = ps.drop_last();
        lemma_zero_records(init);
        let r = records(ps, NUL);
        let a = records(init, NUL);
        let l = ps.last();
        if forall|j: int, i: int|
            0 <= j < ps.len() && 0 <= i < ps[j].len() ==> #[trigger] ps[j][i] != NEWLINE {
            assert forall|j: int, i: int|
                0 <= j < init.len() && 0 <= i < init[j].len() implies #[trigger] init[j][i]
                != NEWLINE by {
                assert(init[j] == ps[j]);
            }
            assert forall|i: int| 0 <= i < r.len() implies #[trigger] r[i] != NEWLINE by {
                if i < a.len() {
                    assert(r[i] == a[i]);
                } else if i < a.len() + l.len() {
                    assert(r[i] == ps[ps.len() - 1][i - a.len()]);
                }
            }
        }
    }
}

} // verus!
