//! Component-by-component symbolic link resolution, as a state machine. The
//! machine asks what the filesystem holds at one path at a time; its caller
//! answers each question, so the machine itself does no I/O.
use vstd::prelude::*;
use crate::normalize::{
    all_names, is_name, append_bytes, apply_path, clean, clean_from, is_absolute, pieces, render,
    render_path, views, SEP,
};

verus! {

/// The largest number of link dereferences allowed for one component by
/// default.
pub const MAX_DEPTH: usize = 256;

/// Why a resolution failed.
#[derive(Clone, Copy, Debug, PartialEq, Eq, Structural)]
pub enum ResolveError {
    /// The metadata of a path could not be read (it is missing, or not
    /// accessible).
    Metadata,
    /// A symbolic link's target could not be read.
    ReadLink,
    /// One component was dereferenced as many times as allowed and was still
    /// a link: most likely a cycle of links.
    DepthExceeded,
}

/// What the filesystem holds at the path that was asked about, read without
/// following a link there.
pub enum Probe {
    /// Something that is not a symbolic link.
    NotLink,
    /// A symbolic link, with its stored target.
    Link(Vec<u8>),
    /// Reading the metadata failed.
    MetadataFailed,
    /// The entry is a link, but reading its target failed.
    ReadLinkFailed,
}

/// The mathematical form of a [`Probe`].
pub ghost enum ProbeView {
    NotLink,
    Link(Seq<u8>),
    MetadataFailed,
    ReadLinkFailed,
}

impl View for Probe {
    type V = ProbeView;

    open spec fn view(&self) -> ProbeView {
        match self {
            Probe::NotLink => ProbeView::NotLink,
            Probe::Link(t) => ProbeView::Link(t@),
            Probe::MetadataFailed => ProbeView::MetadataFailed,
            Probe::ReadLinkFailed => ProbeView::ReadLinkFailed,
        }
    }
}

/// What the resolver needs next.
pub enum Action {
    /// Tell whether this path is a symbolic link, and if so its target.
    Inspect(Vec<u8>),
    /// Resolution is complete: this is the resolved path.
    Finished(Vec<u8>),
    /// Resolution failed.
    Failed(ResolveError),
}

/// The mathematical form of an [`Action`].
pub ghost enum ActionView {
    Inspect(Seq<u8>),
    Finished(Seq<u8>),
    Failed(ResolveError),
}

impl View for Action {
    type V = ActionView;

    open spec fn view(&self) -> ActionView {
        match self {
            Action::Inspect(p) => ActionView::Inspect(p@),
            Action::Finished(p) => ActionView::Finished(p@),
            Action::Failed(e) => ActionView::Failed(*e),
        }
    }
}

/// The segments that a link target leads to: an absolute target starts
/// again from the root, a relative one goes on from the resolved prefix
/// `base`, the directory that holds the link.
pub open spec fn target_segs(base: Seq<Seq<u8>>, target: Seq<u8>) -> Seq<Seq<u8>> {
    if is_absolute(target) {
        clean(pieces(target))
    } else {
        clean_from(base, pieces(target))
    }
}

/// The state of a resolution.
pub ghost struct ResolverView {
    /// The most dereferences allowed for one component.
    pub max_depth: nat,
    /// The segments of the path being resolved.
    pub parts: Seq<Seq<u8>>,
    /// How many of `parts` are resolved.
    pub pos: nat,
    /// The resolved prefix: a path free of links, as segments under the root.
    pub ret: Seq<Seq<u8>>,
    /// The candidate for the component at `pos`.
    pub test: Seq<Seq<u8>>,
    /// How many links were dereferenced for the component at `pos`.
    pub links: nat,
    /// Set once resolution has failed.
    pub failure: Option<ResolveError>,
}

impl ResolverView {
    pub open spec fn wf(self) -> bool {
        &&& all_names(self.parts)
        &&& all_names(self.ret)
        &&& all_names(self.test)
        &&& self.pos <= self.parts.len()
        &&& self.links <= self.max_depth
    }

    /// Starts on the component at `pos`: the candidate is the resolved
    /// prefix with that component appended.
    pub open spec fn enter(self) -> ResolverView {
        if self.pos < self.parts.len() {
            ResolverView { test: self.ret.push(self.parts[self.pos as int]), links: 0, ..self }
        } else {
            self
        }
    }

    /// The state in which a resolution of `path` starts.
    pub open spec fn start(path: Seq<u8>, max_depth: nat) -> ResolverView {
        ResolverView {
            max_depth,
            parts: clean(pieces(path)),
            pos: 0,
            ret: Seq::empty(),
            test: Seq::empty(),
            links: 0,
            failure: None,
        }.enter()
    }

    /// What the resolver needs next.
    pub open spec fn action(self) -> ActionView {
        match self.failure {
            Some(e) => ActionView::Failed(e),
            None => if self.pos >= self.parts.len() {
                ActionView::Finished(render(true, self.ret))
            } else if self.links >= self.max_depth {
                ActionView::Failed(ResolveError::DepthExceeded)
            } else {
                ActionView::Inspect(render(true, self.test))
            },
        }
    }

    /// The state once the filesystem answered `probe` about the candidate.
    pub open spec fn after(self, probe: ProbeView) -> ResolverView {
        match probe {
            ProbeView::NotLink => ResolverView {
                ret: self.test,
                pos: self.pos + 1,
                links: 0,
                ..self
            }.enter(),
            ProbeView::Link(t) => ResolverView {
                test: target_segs(self.ret, t),
                links: self.links + 1,
                ..self
            },
            ProbeView::MetadataFailed => ResolverView {
                failure: Some(ResolveError::Metadata),
                ..self
            },
            ProbeView::ReadLinkFailed => ResolverView {
                failure: Some(ResolveError::ReadLink),
                ..self
            },
        }
    }

    /// A bound on the questions still to be asked: each answer that does not
    /// end the resolution lowers it.
    pub open spec fn remaining(self) -> int {
        (self.parts.len() - self.pos) * (self.max_depth + 1) - self.links
    }
}

/// Resolves the symbolic links in a path one component at a time, from the
/// root. For each component it asks about the candidate path until that is
/// not a link, dereferencing at most a bounded number of links on the way.
pub struct Resolver {
    max_depth: usize,
    parts: Vec<Vec<u8>>,
    pos: usize,
    ret: Vec<Vec<u8>>,
    test: Vec<Vec<u8>>,
    links: usize,
    failure: Option<ResolveError>,
}

impl View for Resolver {
    type V = ResolverView;

    closed spec fn view(&self) -> ResolverView {
        ResolverView {
            max_depth: self.max_depth as nat,
            parts: views(self.parts@),
            pos: self.pos as nat,
            ret: views(self.ret@),
            test: views(self.test@),
            links: self.links as nat,
            failure: self.failure,
        }
    }
}

/// A copy of the bytes of `b`.
fn copy_bytes(b: &[u8]) -> (r: Vec<u8>)
    ensures
        r@ == b@,
{
    let mut r: Vec<u8> = Vec::new();
    append_bytes(&mut r, b);
    assert(r@ =~= b@);
    r
}

/// A copy of the segments `v`.
fn copy_segs(v: &Vec<Vec<u8>>) -> (r: Vec<Vec<u8>>)
    ensures
        views(r@) == views(v@),
{
    let mut r: Vec<Vec<u8>> = Vec::new();
    let mut i: usize = 0;
    while i < v.len()
        invariant
            i <= v@.len(),
            views(r@) == views(v@).take(i as int),
        decreases v@.len() - i,
    {
        let s = copy_bytes(v[i].as_slice());
        let ghost before = r@;
        r.push(s);
        assert(s@ == views(v@)[i as int]);
        assert(views(r@) =~= views(before).push(s@));
        assert(views(r@) =~= views(v@).take(i + 1));
        i = i + 1;
    }
    assert(views(v@).take(i as int) =~= views(v@));
    r
}

impl Resolver {
    /// Starts on the component at `pos`, if there is one.
    fn enter(&mut self)
        ensures
            final(self)@ == old(self)@.enter(),
    {
        if self.pos < self.parts.len() {
            let mut t = copy_segs(&self.ret);
            let c = copy_bytes(self.parts[self.pos].as_slice());
            let ghost before = t@;
            t.push(c);
            assert(views(t@) =~= views(before).push(c@));
            self.test = t;
            self.links = 0;
            assert(self@ =~= old(self)@.enter());
        }
    }

    proof fn lemma_enter_names(v: ResolverView)
        requires
            all_names(v.parts),
            all_names(v.ret),
            all_names(v.test),
        ensures
            all_names(v.enter().test),
            all_names(v.enter().ret),
    {
        if v.pos < v.parts.len() {
            let t = v.ret.push(v.parts[v.pos as int]);
            assert forall|i: int| 0 <= i < t.len() implies is_name(#[trigger] t[i]) by {
                if i < v.ret.len() {
                    assert(t[i] == v.ret[i]);
                }
            }
        }
    }

    /// A resolver for `path`, which may dereference up to `max_depth` links
    /// for each component. The path is read as absolute, its `.` and `..`
    /// segments resolved lexically.
    pub fn new(path: &[u8], max_depth: usize) -> (r: Resolver)
        ensures
            r@ == ResolverView::start(path@, max_depth as nat),
            r@.wf(),
    {
        let mut parts: Vec<Vec<u8>> = Vec::new();
        assert(views(parts@) =~= Seq::<Seq<u8>>::empty());
        apply_path(&mut parts, path);
        let mut r = Resolver {
            max_depth,
            parts,
            pos: 0,
            ret: Vec::new(),
            test: Vec::new(),
            links: 0,
            failure: None,
        };
        assert(views(r.ret@) =~= Seq::<Seq<u8>>::empty());
        proof {
            crate::laws::lemma_clean_pieces_names(path@);
            Resolver::lemma_enter_names(r@);
        }
        r.enter();
        r
    }

    /// What the resolver needs next.
    pub fn next_action(&self) -> (a: Action)
        ensures
            a@ == self@.action(),
    {
        match self.failure {
            Some(e) => Action::Failed(e),
            None => {
                if self.pos >= self.parts.len() {
                    Action::Finished(render_path(true, &self.ret))
                } else if self.links >= self.max_depth {
                    Action::Failed(ResolveError::DepthExceeded)
                } else {
                    Action::Inspect(render_path(true, &self.test))
                }
            },
        }
    }

    /// Takes the answer about the path that [`Resolver::next_action`] asked
    /// to inspect.
    pub fn feed(&mut self, probe: Probe)
        requires
            old(self)@.wf(),
            old(self)@.action() is Inspect,
        ensures
            final(self)@ == old(self)@.after(probe@),
            final(self)@.wf(),
            final(self)@.failure is Some || final(self)@.remaining() < old(self)@.remaining(),
            0 <= final(self)@.remaining(),
    {
        assert(self@.parts.len() == self.parts@.len());
        match probe {
            Probe::NotLink => {
                let n = self.parts.len();
                assert(self.pos < n);
                self.ret = copy_segs(&self.test);
                self.pos = self.pos + 1;
                self.links = 0;
                self.enter();
            },
            Probe::Link(target) => {
                let mut t: Vec<Vec<u8>> = if target.len() > 0 && target[0] == SEP {
                    Vec::new()
                } else {
                    copy_segs(&self.ret)
                };
                proof {
                    if is_absolute(target@) {
                        assert(views(t@) =~= Seq::<Seq<u8>>::empty());
                    }
                }
                apply_path(&mut t, target.as_slice());
                self.test = t;
                self.links = self.links + 1;
            },
            Probe::MetadataFailed => {
                self.failure = Some(ResolveError::Metadata);
            },
            Probe::ReadLinkFailed => {
                self.failure = Some(ResolveError::ReadLink);
            },
        }
        proof {
            let o = old(self)@;
            let n = self@;
            assert(n =~= o.after(probe@));
            match probe@ {
                ProbeView::NotLink => {
                    Resolver::lemma_enter_names(ResolverView { ret: o.test, pos: o.pos + 1, links: 0, ..o });
                },
                ProbeView::Link(t) => {
                    crate::laws::lemma_pieces_no_sep(t);
                    crate::laws::lemma_clean_keeps_names(Seq::empty(), pieces(t));
                    crate::laws::lemma_clean_keeps_names(o.ret, pieces(t));
                },
                _ => {},
            }
            let m = o.max_depth + 1;
            let k = o.parts.len() - o.pos;
            assert(k * m - o.links >= 0) by (nonlinear_arith)
                requires k >= 1, m >= 1, o.links < m;
            if probe@ is Link {
                assert(k * m - (o.links + 1) >= 0) by (nonlinear_arith)
                    requires k >= 1, m >= 1, o.links + 1 < m;
            }
            if probe@ is NotLink {
                assert((k - 1) * m < k * m - o.links) by (nonlinear_arith)
                    requires k >= 1, m >= 1, o.links < m;
                assert((k - 1) * m >= 0) by (nonlinear_arith)
                    requires k >= 1, m >= 1;
            }
        }
    }
}

} // verus!
