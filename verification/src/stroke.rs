//! Stroke-to-fill expansion: assembly of the output outline.
//!
//! The geometry of stroking — tangents, normals, offset-curve flattening,
//! join and cap point computation — runs on floating point and is supplied
//! by a backend implementing [`Lowering`].  What this module verifies is
//! everything the backend cannot break by mere bad arithmetic: every path
//! built here is a contiguous chain of primitives (each primitive starts
//! where the previous one ended), cusp regions are wrapped in the
//! evolute / reversed-parallel / evolute order, and finished subpaths close
//! up exactly.

use vstd::prelude::*;

verus! {

/// A lowered primitive: a backend's output element (a straight line, or a
/// circular arc), together with the operations the assembly machine needs.
///
/// Implementations outside this crate carry the numeric work; the contracts
/// here state only the endpoint discipline that the assembly relies on.
pub trait Lowering: Sized + Copy {
    /// The point type of primitive endpoints.
    type Pt: Copy;

    /// The curve-segment type the backend flattens.
    type Seg;

    /// The scalar type of parameters, offsets and tolerances.
    type Sc: Copy;

    /// Where the primitive starts.
    spec fn s_start(self) -> Self::Pt;

    /// Where the primitive ends.
    spec fn s_end(self) -> Self::Pt;

    /// A straight primitive from `p0` to `p1`.
    fn line(p0: Self::Pt, p1: Self::Pt) -> (r: Self)
        ensures
            r.s_start() == p0,
            r.s_end() == p1,
    ;

    /// Lower the arc from `p0` to `p1` with signed turn `k` onto `segs`:
    /// append at least one primitive, leave what was there alone, and make
    /// the appended run a chain from `p0` to `p1`.
    fn lower_arc(p0: Self::Pt, p1: Self::Pt, k: Self::Sc, segs: &mut Vec<Self>, tol: Self::Sc)
        ensures
            final(segs)@.len() > old(segs)@.len(),
            final(segs)@.subrange(0, old(segs)@.len() as int) == old(segs)@,
            final(segs)@[old(segs)@.len() as int].s_start() == p0,
            final(segs)@[final(segs)@.len() - 1].s_end() == p1,
            forall|i: int|
                old(segs)@.len() < i < final(segs)@.len() ==> (#[trigger] final(segs)@[i]).s_start()
                    == final(segs)@[i - 1].s_end(),
    ;

    /// Flatten the parallel curve of `seg` at distance `dist` over the
    /// parameter range `[t0, t1]` and append it to `path`, continuing from
    /// the path's current point.
    fn lower_espc(
        seg: &Self::Seg,
        path: &mut LoweredPath<Self, Self::Pt>,
        t0: Self::Sc,
        t1: Self::Sc,
        dist: Self::Sc,
        tol: Self::Sc,
    )
        requires
            old(path).has_cursor(),
        ensures
            final(path).has_cursor(),
            final(path).prims().len() > old(path).prims().len(),
            final(path).prims().subrange(0, old(path).prims().len() as int) == old(path).prims(),
            final(path).prims()[old(path).prims().len() as int].s_start() == old(path).end_pt(),
            final(path).end_pt() == final(path).prims()[final(path).prims().len() - 1].s_end(),
            forall|i: int|
                old(path).prims().len() < i < final(path).prims().len() ==> (
                #[trigger] final(path).prims()[i]).s_start() == final(path).prims()[i - 1].s_end(),
    ;

    /// Flatten the evolute of `seg` over the parameter range `[t0, t1]` and
    /// append it to `path`, continuing from the path's current point.
    fn lower_es_evolute(
        seg: &Self::Seg,
        path: &mut LoweredPath<Self, Self::Pt>,
        t0: Self::Sc,
        t1: Self::Sc,
        tol: Self::Sc,
    )
        requires
            old(path).has_cursor(),
        ensures
            final(path).has_cursor(),
            final(path).prims().len() > old(path).prims().len(),
            final(path).prims().subrange(0, old(path).prims().len() as int) == old(path).prims(),
            final(path).prims()[old(path).prims().len() as int].s_start() == old(path).end_pt(),
            final(path).end_pt() == final(path).prims()[final(path).prims().len() - 1].s_end(),
            forall|i: int|
                old(path).prims().len() < i < final(path).prims().len() ==> (
                #[trigger] final(path).prims()[i]).s_start() == final(path).prims()[i - 1].s_end(),
    ;

    /// The same primitive traversed the other way.
    fn reverse(self) -> (r: Self)
        ensures
            r.s_start() == self.s_end(),
            r.s_end() == self.s_start(),
    ;

    /// The end point of the primitive.
    fn end_point(self) -> (r: Self::Pt)
        ensures
            r == self.s_end(),
    ;
}

/// Every primitive after the first starts where its predecessor ended.
pub open spec fn is_chain<L: Lowering>(s: Seq<L>) -> bool {
    forall|i: int| #![trigger s[i]] 0 < i < s.len() ==> s[i].s_start() == s[i - 1].s_end()
}

/// A non-empty chain that returns to its starting point.
pub open spec fn is_closed_chain<L: Lowering>(s: Seq<L>) -> bool {
    s.len() > 0 && is_chain(s) && s[s.len() - 1].s_end() == s[0].s_start()
}

/// Gluing a chain that picks up where `s` ends onto `s` yields a chain.
pub proof fn lemma_chain_glue<L: Lowering>(s: Seq<L>, t: Seq<L>)
    requires
        is_chain(s),
        is_chain(t),
        s.len() > 0 && t.len() > 0 ==> t[0].s_start() == s[s.len() - 1].s_end(),
    ensures
        is_chain(s + t),
{
    let u = s + t;
    assert forall|i: int| 0 < i < u.len() implies u[i].s_start() == u[i - 1].s_end() by {
        if i < s.len() {
            assert(u[i] == s[i]);
            assert(u[i - 1] == s[i - 1]);
        } else if i == s.len() {
            assert(u[i] == t[0]);
            assert(u[i - 1] == s[i - 1]);
        } else {
            assert(u[i] == t[i - s.len()]);
            assert(u[i - 1] == t[i - s.len() - 1]);
        }
    }
}

/// A sequence of primitives under construction, with the current point.
///
/// The invariant [`LoweredPath::chain_wf`] is the contiguity guarantee: the
/// builder alone keeps it, a caller never has to re-establish it.
pub struct LoweredPath<L, P> {
    path: Vec<L>,
    last_pt: Option<P>,
}

impl<L, P> LoweredPath<L, P> {
    /// The primitives emitted so far.
    pub closed spec fn prims(&self) -> Seq<L> {
        self.path@
    }

    /// Whether a current point has been set.
    pub closed spec fn has_cursor(&self) -> bool {
        self.last_pt is Some
    }

    /// The current point (meaningful only when `has_cursor`).
    pub closed spec fn end_pt(&self) -> P {
        self.last_pt->0
    }
}

impl<L: Lowering> LoweredPath<L, L::Pt> {

    /// The current point sits at the end of the last primitive, and the
    /// primitives form a chain.
    pub open spec fn chain_wf(&self) -> bool {
        is_chain(self.prims()) && (self.prims().len() > 0 ==> self.has_cursor() && self.end_pt()
            == self.prims()[self.prims().len() - 1].s_end())
    }

    /// Where the path begins: its first primitive's start, or, while it is
    /// still empty, its current point.
    pub open spec fn starts_at(&self, p: L::Pt) -> bool {
        if self.prims().len() > 0 {
            self.prims()[0].s_start() == p
        } else {
            self.has_cursor() && self.end_pt() == p
        }
    }

    /// An empty path with no current point.
    pub fn new() -> (r: LoweredPath<L, L::Pt>)
        ensures
            r.prims().len() == 0,
            !r.has_cursor(),
            r.chain_wf(),
    {
        LoweredPath { path: Vec::new(), last_pt: None }
    }

    /// Set the current point of a still-empty path.
    pub fn move_to(&mut self, p: L::Pt)
        requires
            old(self).prims().len() == 0,
        ensures
            final(self).prims().len() == 0,
            final(self).has_cursor(),
            final(self).end_pt() == p,
            final(self).chain_wf(),
    {
        self.last_pt = Some(p);
    }

    /// Append a straight primitive from the current point to `p`.
    pub fn line_to(&mut self, p: L::Pt)
        requires
            old(self).chain_wf(),
            old(self).has_cursor(),
        ensures
            final(self).chain_wf(),
            final(self).has_cursor(),
            final(self).end_pt() == p,
            final(self).prims().len() == old(self).prims().len() + 1,
            final(self).prims().subrange(0, old(self).prims().len() as int) == old(self).prims(),
            final(self).prims()[old(self).prims().len() as int].s_start() == old(self).end_pt(),
            final(self).prims()[old(self).prims().len() as int].s_end() == p,
            path_extends(*final(self), *old(self)),
    {
        let q = self.last_pt.unwrap();
        let l = L::line(q, p);
        proof {
            lemma_chain_glue(self.path@, seq![l]);
        }
        self.path.push(l);
        self.last_pt = Some(p);
        proof {
            assert(self.path@ =~= old(self).prims() + seq![l]);
            assert(self.path@.subrange(0, old(self).prims().len() as int) =~= old(self).prims());
        }
    }

    /// Append one primitive that continues from the current point.
    pub fn push_prim(&mut self, l: L)
        requires
            old(self).chain_wf(),
            old(self).has_cursor(),
            l.s_start() == old(self).end_pt(),
        ensures
            final(self).chain_wf(),
            final(self).has_cursor(),
            final(self).end_pt() == l.s_end(),
            final(self).prims() == old(self).prims().push(l),
            path_extends(*final(self), *old(self)),
    {
        proof {
            lemma_chain_glue(self.path@, seq![l]);
        }
        let e = l.end_point();
        self.path.push(l);
        self.last_pt = Some(e);
        proof {
            assert(self.path@ =~= old(self).prims() + seq![l]);
            assert(self.path@.subrange(0, old(self).prims().len() as int) =~= old(self).prims());
        }
    }

    /// Append an arc from the current point to `p1` with signed turn `k`,
    /// letting the backend choose how finely to subdivide it.
    pub fn append_arc(&mut self, p1: L::Pt, k: L::Sc, tol: L::Sc)
        requires
            old(self).chain_wf(),
            old(self).has_cursor(),
        ensures
            final(self).chain_wf(),
            final(self).has_cursor(),
            final(self).end_pt() == p1,
            final(self).prims().len() > old(self).prims().len(),
            final(self).prims().subrange(0, old(self).prims().len() as int) == old(self).prims(),
            final(self).prims()[old(self).prims().len() as int].s_start() == old(self).end_pt(),
            path_extends(*final(self), *old(self)),
    {
        let p0 = self.last_pt.unwrap();
        L::lower_arc(p0, p1, k, &mut self.path, tol);
        self.last_pt = Some(p1);
        proof {
            lemma_extended_chain_wf(*old(self), *self);
        }
    }

    /// The number of primitives emitted so far.
    pub fn len(&self) -> (r: usize)
        ensures
            r == self.prims().len(),
    {
        self.path.len()
    }

    /// The current point.
    pub fn last_point(&self) -> (r: L::Pt)
        requires
            self.has_cursor(),
        ensures
            r == self.end_pt(),
    {
        self.last_pt.unwrap()
    }

    /// Read one primitive.
    pub fn get(&self, i: usize) -> (r: L)
        requires
            i < self.prims().len(),
        ensures
            r == self.prims()[i as int],
    {
        self.path[i]
    }

    /// Append a copy of `other`'s primitives, which must pick up at the
    /// current point when both paths already hold primitives.
    pub fn extend(&mut self, other: &LoweredPath<L, L::Pt>)
        requires
            old(self).chain_wf(),
            other.chain_wf(),
            old(self).prims().len() > 0 && other.prims().len() > 0 ==> other.prims()[0].s_start()
                == old(self).end_pt(),
        ensures
            final(self).chain_wf(),
            final(self).prims() == old(self).prims() + other.prims(),
            other.prims().len() > 0 ==> final(self).has_cursor() && final(self).end_pt()
                == other.prims()[other.prims().len() - 1].s_end(),
            other.prims().len() == 0 ==> final(self).has_cursor() == old(self).has_cursor() && (old(self).has_cursor() ==> final(self).end_pt() == old(self).end_pt()),
    {
        if other.path.len() == 0 {
            proof {
                assert(self.path@ =~= old(self).prims() + other.prims());
            }
            return ;
        }
        let ghost base = self.path@;
        let ghost lp0 = self.last_pt;
        let mut i: usize = 0;
        while i < other.path.len()
            invariant
                0 <= i as int <= other.prims().len(),
                self.path@ == base + other.prims().subrange(0, i as int),
                self.last_pt == lp0,
            decreases other.prims().len() - i as int,
        {
            let l = other.path[i];
            self.path.push(l);
            proof {
                assert(self.path@ =~= base + other.prims().subrange(0, i as int + 1));
            }
            i += 1;
        }
        proof {
            assert(other.prims().subrange(0, other.prims().len() as int) =~= other.prims());
        }
        let e = other.last_point();
        self.last_pt = Some(e);
        proof {
            lemma_chain_glue(base, other.prims());
        }
    }

    /// Append `other`'s primitives reversed: each primitive turned around,
    /// in back-to-front order.  `other` must end at the current point when
    /// both paths already hold primitives.
    pub fn extend_rev(&mut self, other: &LoweredPath<L, L::Pt>)
        requires
            old(self).chain_wf(),
            other.chain_wf(),
            old(self).prims().len() > 0 && other.prims().len() > 0 ==> other.prims()[other.prims().len() - 1].s_end()
                == old(self).end_pt(),
        ensures
            final(self).chain_wf(),
            final(self).prims().len() == old(self).prims().len() + other.prims().len(),
            final(self).prims().subrange(0, old(self).prims().len() as int) == old(self).prims(),
            forall|j: int|
                0 <= j < other.prims().len() ==> {
                    &&& (#[trigger] final(self).prims()[old(self).prims().len() + j]).s_start()
                        == other.prims()[other.prims().len() - 1 - j].s_end()
                    &&& final(self).prims()[old(self).prims().len() + j].s_end()
                        == other.prims()[other.prims().len() - 1 - j].s_start()
                },
            other.prims().len() > 0 ==> final(self).has_cursor() && final(self).end_pt()
                == other.prims()[0].s_start(),
            other.prims().len() == 0 ==> final(self).has_cursor() == old(self).has_cursor() && (old(self).has_cursor() ==> final(self).end_pt() == old(self).end_pt()),
    {
        if other.path.len() == 0 {
            proof {
                assert(self.path@.subrange(0, old(self).prims().len() as int) =~= old(self).prims());
            }
            return ;
        }
        let n = other.path.len();
        let ghost base = self.path@;
        let ghost lp0 = self.last_pt;
        let mut i: usize = 0;
        while i < n
            invariant
                0 <= i <= n,
                n == other.prims().len(),
                other.chain_wf(),
                self.path@.len() == base.len() + i as int,
                self.path@.subrange(0, base.len() as int) == base,
                self.last_pt == lp0,
                forall|j: int|
                    0 <= j < i as int ==> {
                        &&& (#[trigger] self.path@[base.len() + j]).s_start() == other.prims()[n
                            - 1 - j].s_end()
                        &&& self.path@[base.len() + j].s_end() == other.prims()[n - 1
                            - j].s_start()
                    },
            decreases n - i,
        {
            let l = other.path[n - 1 - i];
            let r = l.reverse();
            self.path.push(r);
            proof {
                assert(self.path@.subrange(0, base.len() as int) =~= base);
            }
            i += 1;
        }
        let e0 = other.get(0);
        let r0 = e0.reverse();
        let e = r0.end_point();
        self.last_pt = Some(e);
        proof {
            let s = self.path@;
            let bn = base.len() as int;
            assert forall|i2: int| 0 < i2 < s.len() implies s[i2].s_start() == s[i2 - 1].s_end() by {
                if i2 < bn {
                    assert(s[i2] == s.subrange(0, bn)[i2]);
                    assert(s[i2 - 1] == s.subrange(0, bn)[i2 - 1]);
                } else if i2 == bn {
                    assert(self.path@[bn + 0].s_start() == other.prims()[n - 1 - 0].s_end());
                    assert(s[i2 - 1] == s.subrange(0, bn)[i2 - 1]);
                } else {
                    let j = i2 - bn;
                    assert(self.path@[bn + j].s_start() == other.prims()[n - 1 - j].s_end());
                    assert(self.path@[bn + (j - 1)].s_end() == other.prims()[n - 1 - (j
                        - 1)].s_start());
                    assert(other.prims()[n - j].s_start() == other.prims()[n - j - 1].s_end());
                    assert(s[i2] == self.path@[bn + j]);
                    assert(s[i2 - 1] == self.path@[bn + (j - 1)]);
                }
            }
            let nn = n as int;
            assert(self.path@[bn + (nn - 1)].s_end() == other.prims()[nn - 1 - (nn
                - 1)].s_start());
        }
    }

}

/// A path grown by a backend flattening call keeps the chain invariant:
/// the appended run picks up at the old current point, links internally,
/// and leaves the cursor on its last primitive's end.
pub proof fn lemma_extended_chain_wf<L: Lowering>(oldp: LoweredPath<L, L::Pt>, newp: LoweredPath<L, L::Pt>)
    requires
        oldp.chain_wf(),
        oldp.has_cursor(),
        newp.has_cursor(),
        newp.prims().len() >= oldp.prims().len(),
        newp.prims().subrange(0, oldp.prims().len() as int) == oldp.prims(),
        newp.prims().len() == oldp.prims().len() ==> newp.end_pt() == oldp.end_pt(),
        newp.prims().len() > oldp.prims().len() ==> newp.prims()[oldp.prims().len() as int].s_start()
            == oldp.end_pt() && newp.end_pt() == newp.prims()[newp.prims().len() - 1].s_end(),
        forall|i: int|
            oldp.prims().len() < i < newp.prims().len() ==> (#[trigger] newp.prims()[i]).s_start()
                == newp.prims()[i - 1].s_end(),
    ensures
        newp.chain_wf(),
        path_extends(newp, oldp),
{
    let n = oldp.prims().len() as int;
    assert forall|j: int| 0 <= j < n implies newp.prims()[j] == oldp.prims()[j] by {
        assert(newp.prims().subrange(0, n)[j] == newp.prims()[j]);
    }
    assert forall|i: int| 0 < i < newp.prims().len() implies (#[trigger] newp.prims()[i]).s_start()
        == newp.prims()[i - 1].s_end() by {
        if i < n {
        } else if i == n {
            assert(newp.prims()[i].s_start() == oldp.end_pt());
            assert(oldp.end_pt() == oldp.prims()[n - 1].s_end());
        } else {
        }
    }
}

impl<L, P> Default for LoweredPath<L, P> {
    /// An empty path with no current point.
    fn default() -> (r: LoweredPath<L, P>)
        ensures
            r.prims().len() == 0,
            !r.has_cursor(),
    {
        LoweredPath { path: Vec::new(), last_pt: None }
    }
}

/// `new` extends `old`: same prefix, and whatever was appended picks up at
/// the old current point.
pub open spec fn path_extends<L: Lowering>(new: LoweredPath<L, L::Pt>, old: LoweredPath<L, L::Pt>) -> bool {
    &&& new.prims().len() >= old.prims().len()
    &&& new.prims().subrange(0, old.prims().len() as int) == old.prims()
    &&& (old.prims().len() == 0 && new.prims().len() > 0 ==> new.prims()[0].s_start()
        == old.end_pt())
}

/// Growing a path never moves where it starts.
pub proof fn lemma_keeps_start<L: Lowering>(oldp: LoweredPath<L, L::Pt>, newp: LoweredPath<L, L::Pt>)
    requires
        newp.prims().len() >= oldp.prims().len(),
        newp.prims().subrange(0, oldp.prims().len() as int) == oldp.prims(),
        oldp.prims().len() == 0 && newp.prims().len() > 0 ==> newp.prims()[0].s_start()
            == oldp.end_pt(),
        oldp.prims().len() == 0 && newp.prims().len() == 0 ==> newp.has_cursor()
            == oldp.has_cursor() && (oldp.has_cursor() ==> newp.end_pt() == oldp.end_pt()),
    ensures
        forall|p: L::Pt| #[trigger] oldp.starts_at(p) ==> newp.starts_at(p),
{
    assert forall|p: L::Pt| #[trigger] oldp.starts_at(p) implies newp.starts_at(p) by {
        if oldp.prims().len() > 0 {
            assert(newp.prims()[0] == newp.prims().subrange(0, oldp.prims().len() as int)[0]);
        }
    }
}

/// How one spiral segment meets the cusp condition of its offset curve, as
/// classified by the backend: the parallel curve folds back where the sign
/// of `curvature * offset + chord` changes, and the cusp parameter `t` is
/// the linear root of that sign change.
pub enum CuspPlan<T, P> {
    /// The sign stays non-negative: flatten `[t0, t1]` directly.
    Whole { t0: T, t1: T },
    /// Non-negative at first, changing sign at `t`: flatten `[t0, t]`, then
    /// wrap the cusp over `[t, t1]`.
    SplitAfter { t0: T, t: T, t1: T },
    /// Negative throughout: wrap the whole of `[t0, t1]`, entering the
    /// evolute at `evolute_start`.
    Inverted { t0: T, t1: T, evolute_start: P },
    /// Negative at first, changing sign at `t`: wrap `[t0, t]` from
    /// `evolute_start`, then flatten `[t, t1]`.
    SplitBefore { t0: T, t: T, t1: T, evolute_start: P },
}

/// The run `finalize` appends past a cusp: the evolute path with a closing
/// line to the parallel path's end, the parallel path reversed, and the
/// same evolute run again, wrapping the cusp without leaving a gap.
pub open spec fn cusp_wrap_shape<L: Lowering>(
    added: Seq<L>,
    ev: Seq<L>,
    rp: Seq<L>,
    rp_end: L::Pt,
) -> bool {
    let en = ev.len() as int;
    let rn = rp.len() as int;
    &&& added.len() == 2 * (en + 1) + rn
    &&& added.subrange(0, en) == ev
    &&& added[en].s_end() == rp_end
    &&& (forall|j: int|
        0 <= j < rn ==> (#[trigger] added[en + 1 + j]).s_start() == rp[rn - 1 - j].s_end()
            && added[en + 1 + j].s_end() == rp[rn - 1 - j].s_start())
    &&& added.subrange(en + 1 + rn, added.len() as int) == added.subrange(0, en + 1)
}


/// The exact shape that flushing a cusp appends: gluing the evolute path
/// (with its closing line), the reversed parallel path, and the evolute
/// path again onto `base` leaves the base prefix alone and produces the
/// wrap shape.
proof fn lemma_finalize_shape<L: Lowering>(
    base: LoweredPath<L, L::Pt>,
    ev0: LoweredPath<L, L::Pt>,
    ev1: LoweredPath<L, L::Pt>,
    rp0: LoweredPath<L, L::Pt>,
    m1: LoweredPath<L, L::Pt>,
    m2: LoweredPath<L, L::Pt>,
    m3: LoweredPath<L, L::Pt>,
    rp_end: L::Pt,
)
    requires
        ev1.prims().len() == ev0.prims().len() + 1,
        ev1.prims().subrange(0, ev0.prims().len() as int) == ev0.prims(),
        ev1.prims()[ev0.prims().len() as int].s_end() == rp_end,
        m1.prims() == base.prims() + ev1.prims(),
        m2.prims().len() == m1.prims().len() + rp0.prims().len(),
        m2.prims().subrange(0, m1.prims().len() as int) == m1.prims(),
        forall|j: int|
            0 <= j < rp0.prims().len() ==> (#[trigger] m2.prims()[m1.prims().len() + j]).s_start()
                == rp0.prims()[rp0.prims().len() - 1 - j].s_end() && m2.prims()[m1.prims().len()
                + j].s_end() == rp0.prims()[rp0.prims().len() - 1 - j].s_start(),
        m3.prims() == m2.prims() + ev1.prims(),
    ensures
        m3.prims().len() == base.prims().len() + 2 * (ev0.prims().len() + 1) + rp0.prims().len(),
        m3.prims().subrange(0, base.prims().len() as int) == base.prims(),
        cusp_wrap_shape(
            m3.prims().subrange(base.prims().len() as int, m3.prims().len() as int),
            ev0.prims(),
            rp0.prims(),
            rp_end,
        ),
{
    let bn = base.prims().len() as int;
    let en = ev0.prims().len() as int;
    let rn = rp0.prims().len() as int;
    let all = m3.prims();
    let added = all.subrange(bn, all.len() as int);
    assert forall|j: int| 0 <= j < m2.prims().len() implies #[trigger] all[j] == m2.prims()[j] by {}
    assert forall|j: int| 0 <= j < m1.prims().len() implies #[trigger] m2.prims()[j] == m1.prims()[j] by {
        assert(m2.prims().subrange(0, m1.prims().len() as int)[j] == m2.prims()[j]);
    }
    assert(all.subrange(0, bn) =~= base.prims());
    assert(added.subrange(0, en) =~= ev0.prims()) by {
        assert forall|j: int| 0 <= j < en implies #[trigger] added[j] == ev0.prims()[j] by {
            assert(all[bn + j] == m1.prims()[bn + j]);
            assert(m1.prims()[bn + j] == ev1.prims()[j]);
            assert(ev1.prims().subrange(0, en)[j] == ev1.prims()[j]);
        }
    }
    assert(added[en] == ev1.prims()[en]) by {
        assert(all[bn + en] == m1.prims()[bn + en]);
    }
    assert forall|j: int| 0 <= j < rn implies (#[trigger] added[en + 1 + j]).s_start()
        == rp0.prims()[rn - 1 - j].s_end() && added[en + 1 + j].s_end() == rp0.prims()[rn - 1
        - j].s_start() by {
        assert(added[en + 1 + j] == all[bn + en + 1 + j]);
        assert(all[bn + en + 1 + j] == m2.prims()[bn + en + 1 + j]);
        assert(m2.prims()[m1.prims().len() + j] == m2.prims()[bn + en + 1 + j]);
    }
    assert(added.subrange(en + 1 + rn, added.len() as int) =~= added.subrange(0, en + 1)) by {
        assert forall|j: int| 0 <= j < en + 1 implies #[trigger] added[en + 1 + rn + j] == added[j] by {
            assert(added[en + 1 + rn + j] == all[bn + en + 1 + rn + j]);
            assert(all[bn + en + 1 + rn + j] == ev1.prims()[j]);
            assert(added[j] == all[bn + j]);
            assert(all[bn + j] == m2.prims()[bn + j]);
            assert(m2.prims()[bn + j] == m1.prims()[bn + j]);
            assert(m1.prims()[bn + j] == ev1.prims()[j]);
        }
    }
}

/// The length of a pending cusp wrap once flushed: the evolute path and
/// its closing line, the reversed parallel path, and the evolute run again.
pub open spec fn pending_wrap_len<L: Lowering>(c: StrokeContour<L>) -> int {
    2 * (c.ev().prims().len() as int + 1) + c.rp().prims().len() as int
}

/// How long the contour is once any pending wrap is flushed.
pub open spec fn flushed_len<L: Lowering>(c: StrokeContour<L>) -> int {
    c.contour().prims().len() + if c.in_cusp() {
        pending_wrap_len(c)
    } else {
        0int
    }
}

/// `s` is the contour `c` with any pending cusp wrap flushed behind it:
/// the contour's own primitives followed by the exact wrap shape.
pub open spec fn flushed_shape<L: Lowering>(c: StrokeContour<L>, s: Seq<L>) -> bool {
    &&& s.len() == flushed_len(c)
    &&& s.subrange(0, c.contour().prims().len() as int) == c.contour().prims()
    &&& (c.in_cusp() ==> cusp_wrap_shape(
        s.subrange(c.contour().prims().len() as int, s.len() as int),
        c.ev().prims(),
        c.rp().prims(),
        c.rp().end_pt(),
    ))
}

/// The effect of one join chord on a contour: any pending wrap is flushed,
/// then exactly one chord runs from the flushed end to `p` — nothing else.
pub open spec fn chord_step<L: Lowering>(
    oldc: StrokeContour<L>,
    newc: StrokeContour<L>,
    p: L::Pt,
) -> bool {
    let f = flushed_len(oldc);
    &&& !newc.in_cusp()
    &&& newc.contour().prims().len() == f + 1
    &&& flushed_shape(oldc, newc.contour().prims().subrange(0, f))
    &&& newc.contour().prims()[f].s_start() == oldc.outline_end()
    &&& newc.contour().prims()[f].s_end() == p
    &&& newc.contour().end_pt() == p
}

/// The effect of a within-limit miter on its outer contour: the wrap
/// flushed, a chord to the miter apex, and a chord on to `p`.
pub open spec fn miter_step<L: Lowering>(
    oldc: StrokeContour<L>,
    newc: StrokeContour<L>,
    apex: L::Pt,
    p: L::Pt,
) -> bool {
    let f = flushed_len(oldc);
    &&& !newc.in_cusp()
    &&& newc.contour().prims().len() == f + 2
    &&& flushed_shape(oldc, newc.contour().prims().subrange(0, f))
    &&& newc.contour().prims()[f].s_start() == oldc.outline_end()
    &&& newc.contour().prims()[f].s_end() == apex
    &&& newc.contour().prims()[f + 1].s_start() == apex
    &&& newc.contour().prims()[f + 1].s_end() == p
    &&& newc.contour().end_pt() == p
}

/// The effect of a round join or cap on a contour: the wrap flushed, then
/// a backend-subdivided arc run from the flushed end to `p`.
pub open spec fn arc_step<L: Lowering>(
    oldc: StrokeContour<L>,
    newc: StrokeContour<L>,
    p: L::Pt,
) -> bool {
    let f = flushed_len(oldc);
    &&& !newc.in_cusp()
    &&& newc.contour().prims().len() > f
    &&& flushed_shape(oldc, newc.contour().prims().subrange(0, f))
    &&& newc.contour().prims()[f].s_start() == oldc.outline_end()
    &&& newc.contour().prims()[newc.contour().prims().len() - 1].s_end() == p
    &&& newc.contour().end_pt() == p
    &&& (forall|i: int|
        f < i < newc.contour().prims().len() ==> (#[trigger] newc.contour().prims()[i]).s_start()
            == newc.contour().prims()[i - 1].s_end())
}

/// The effect of running one spiral segment through a contour, by plan.
/// A flushing plan appends any pending wrap, then the new flattening; a
/// wrapping plan leaves the contour alone and grows the pending paths.
pub open spec fn euler_seg_effect<L: Lowering>(
    oldc: StrokeContour<L>,
    newc: StrokeContour<L>,
    plan: CuspPlan<L::Sc, L::Pt>,
) -> bool {
    let n = oldc.contour().prims().len() as int;
    let f = flushed_len(oldc);
    &&& (plan matches CuspPlan::Whole { .. } ==> {
        &&& !newc.in_cusp()
        &&& newc.contour().prims().len() > f
        &&& flushed_shape(oldc, newc.contour().prims().subrange(0, f))
        &&& newc.contour().prims()[f].s_start() == oldc.outline_end()
        &&& (forall|i: int|
            f < i < newc.contour().prims().len() ==> (#[trigger] newc.contour().prims()[
                i
            ]).s_start() == newc.contour().prims()[i - 1].s_end())
    })
    &&& (plan matches CuspPlan::SplitAfter { .. } ==> {
        &&& newc.in_cusp()
        &&& newc.contour().prims().len() > f
        &&& flushed_shape(oldc, newc.contour().prims().subrange(0, f))
        &&& newc.contour().prims()[f].s_start() == oldc.outline_end()
        &&& newc.ev().prims().len() >= 1
        &&& newc.rp().prims().len() >= 1
        &&& newc.ev().starts_at(newc.contour().end_pt())
        &&& newc.rp().starts_at(newc.contour().end_pt())
    })
    &&& (plan matches CuspPlan::Inverted { t0: _, t1: _, evolute_start } ==> {
        &&& newc.in_cusp()
        &&& newc.contour() == oldc.contour()
        &&& (oldc.in_cusp() ==> {
            &&& newc.ev().prims().len() > oldc.ev().prims().len() + 1
            &&& newc.ev().prims().subrange(0, oldc.ev().prims().len() as int)
                == oldc.ev().prims()
            &&& newc.ev().prims()[oldc.ev().prims().len() as int].s_start()
                == oldc.ev().end_pt()
            &&& newc.ev().prims()[oldc.ev().prims().len() as int].s_end() == evolute_start
            &&& newc.rp().prims().len() > oldc.rp().prims().len()
            &&& newc.rp().prims().subrange(0, oldc.rp().prims().len() as int)
                == oldc.rp().prims()
        })
        &&& (!oldc.in_cusp() ==> {
            &&& newc.ev().prims().len() >= 2
            &&& newc.ev().prims()[0].s_start() == oldc.contour().end_pt()
            &&& newc.ev().prims()[0].s_end() == evolute_start
            &&& newc.rp().prims().len() >= 1
            &&& newc.rp().prims()[0].s_start() == oldc.contour().end_pt()
        })
    })
    &&& (plan matches CuspPlan::SplitBefore { t0: _, t: _, t1: _, evolute_start } ==> {
        &&& !newc.in_cusp()
        &&& newc.contour().prims().subrange(0, n) == oldc.contour().prims()
        &&& exists|evp: Seq<L>, rpp: Seq<L>, rpe: L::Pt| {
            let w = 2 * (evp.len() as int + 1) + rpp.len() as int;
            &&& #[trigger] cusp_wrap_shape(
                newc.contour().prims().subrange(
                    n,
                    n + 2 * (evp.len() as int + 1) + rpp.len() as int,
                ),
                evp,
                rpp,
                rpe,
            )
            &&& (oldc.in_cusp() ==> evp.subrange(0, oldc.ev().prims().len() as int)
                == oldc.ev().prims() && evp.len() > oldc.ev().prims().len() + 1 && evp[
                oldc.ev().prims().len() as int
            ].s_end() == evolute_start && rpp.len() > oldc.rp().prims().len() && rpp.subrange(
                0,
                oldc.rp().prims().len() as int,
            ) == oldc.rp().prims())
            &&& (!oldc.in_cusp() ==> evp.len() >= 2 && evp[0].s_start()
                == oldc.contour().end_pt() && evp[0].s_end() == evolute_start && rpp.len() >= 1
                && rpp[0].s_start() == oldc.contour().end_pt())
            &&& newc.contour().prims().len() > n + w
            &&& newc.contour().prims()[n + w].s_start() == rpe
            &&& (forall|i: int|
                n + w < i < newc.contour().prims().len() ==> (#[trigger] newc.contour().prims()[
                    i
                ]).s_start() == newc.contour().prims()[i - 1].s_end())
        }
    })
}

/// One side of a stroke outline under construction: the contour so far,
/// and, while the offset curve is past a cusp, the two pending paths (the
/// evolute and the raw parallel continuation) that will wrap it.
pub struct StrokeContour<L: Lowering> {
    main_path: LoweredPath<L, L::Pt>,
    rev_parallel: Option<LoweredPath<L, L::Pt>>,
    evolute: Option<LoweredPath<L, L::Pt>>,
}

impl<L: Lowering> StrokeContour<L> {
    /// The contour assembled so far.
    pub closed spec fn contour(&self) -> LoweredPath<L, L::Pt> {
        self.main_path
    }

    /// Whether a cusp region is pending.
    pub closed spec fn in_cusp(&self) -> bool {
        self.evolute is Some
    }

    /// The pending evolute path (meaningful only while `in_cusp`).
    pub closed spec fn ev(&self) -> LoweredPath<L, L::Pt> {
        self.evolute->0
    }

    /// The pending reverse-parallel path (meaningful only while `in_cusp`).
    pub closed spec fn rp(&self) -> LoweredPath<L, L::Pt> {
        self.rev_parallel->0
    }

    /// The two pending paths exist together.
    pub closed spec fn cusp_state_ok(&self) -> bool {
        (self.evolute is Some) == (self.rev_parallel is Some)
    }

    /// The contour is a chain, and any pending cusp paths are chains that
    /// set out from the contour's current point.
    pub open spec fn wf(&self) -> bool {
        &&& self.cusp_state_ok()
        &&& self.contour().chain_wf()
        &&& self.in_cusp() ==> {
            &&& self.contour().has_cursor()
            &&& self.ev().chain_wf() && self.ev().has_cursor()
            &&& self.rp().chain_wf() && self.rp().has_cursor()
            &&& self.ev().starts_at(self.contour().end_pt())
            &&& self.rp().starts_at(self.contour().end_pt())
        }
    }

    /// An empty contour.
    pub fn new() -> (r: StrokeContour<L>)
        ensures
            r.wf(),
            !r.in_cusp(),
            r.contour().prims().len() == 0,
            !r.contour().has_cursor(),
    {
        StrokeContour { main_path: LoweredPath::new(), rev_parallel: None, evolute: None }
    }

    /// Whether nothing has been emitted yet.
    pub fn is_empty(&self) -> (r: bool)
        ensures
            r == (self.contour().prims().len() == 0),
    {
        self.main_path.len() == 0
    }

    /// The contour's current point.
    pub fn last_point(&self) -> (r: L::Pt)
        requires
            self.contour().has_cursor(),
        ensures
            r == self.contour().end_pt(),
    {
        self.main_path.last_point()
    }

    /// Set the start point of a still-empty contour.
    pub fn move_to(&mut self, p: L::Pt)
        requires
            old(self).wf(),
            !old(self).in_cusp(),
            old(self).contour().prims().len() == 0,
        ensures
            final(self).wf(),
            !final(self).in_cusp(),
            final(self).contour().prims().len() == 0,
            final(self).contour().has_cursor(),
            final(self).contour().end_pt() == p,
            final(self).contour().starts_at(p),
    {
        self.main_path.move_to(p);
    }

    /// Flush any pending cusp paths, then draw a line to `p`.
    pub fn line_to(&mut self, p: L::Pt)
        requires
            old(self).wf(),
            old(self).contour().has_cursor(),
        ensures
            final(self).wf(),
            !final(self).in_cusp(),
            final(self).contour().has_cursor(),
            final(self).contour().end_pt() == p,
            final(self).contour().prims().len() > old(self).contour().prims().len(),
            final(self).contour().prims().subrange(0, old(self).contour().prims().len() as int) == old(self).contour().prims(),
            final(self).contour().prims()[final(self).contour().prims().len() - 1].s_end() == p,
            !old(self).in_cusp() ==> final(self).contour().prims().len() == old(self).contour().prims().len() + 1 && final(self).contour().prims()[old(self).contour().prims().len() as int].s_start() == old(self).contour().end_pt(),
            chord_step(*old(self), *final(self), p),
            forall|q: L::Pt| #[trigger]
                old(self).contour().starts_at(q) ==> final(self).contour().starts_at(q),
    {
        self.finalize();
        let ghost mid = self.main_path;
        self.main_path.line_to(p);
        proof {
            lemma_keeps_start(mid, self.main_path);
            assert(final(self).contour().prims().subrange(0, old(self).contour().prims().len() as int)
                =~= mid.prims().subrange(0, old(self).contour().prims().len() as int));
            assert(self.main_path.prims().subrange(0, flushed_len(*old(self))) =~= mid.prims());
        }
    }

    /// Flush a pending cusp region into the contour: the evolute forward, a
    /// line across to the parallel path's end, the parallel path backwards,
    /// and the evolute again.
    #[verifier::rlimit(50)]
    pub fn finalize(&mut self)
        requires
            old(self).wf(),
        ensures
            final(self).wf(),
            !final(self).in_cusp(),
            final(self).contour().prims().len() >= old(self).contour().prims().len(),
            final(self).contour().prims().subrange(0, old(self).contour().prims().len() as int) == old(self).contour().prims(),
            final(self).contour().has_cursor() == (old(self).contour().has_cursor() || old(self).in_cusp()),
            !old(self).in_cusp() ==> final(self).contour() == old(self).contour(),
            old(self).in_cusp() ==> final(self).contour().has_cursor() && final(self).contour().end_pt()
                == old(self).rp().end_pt() && cusp_wrap_shape(
                final(self).contour().prims().subrange(
                    old(self).contour().prims().len() as int,
                    final(self).contour().prims().len() as int,
                ),
                old(self).ev().prims(),
                old(self).rp().prims(),
                old(self).rp().end_pt(),
            ),
            forall|q: L::Pt| #[trigger]
                old(self).contour().starts_at(q) ==> final(self).contour().starts_at(q),
    {
        let rp_last = match &self.rev_parallel {
            Some(rp) => rp.last_point(),
            None => {
                proof {
                    assert(self.main_path.prims().subrange(
                        0,
                        self.main_path.prims().len() as int,
                    ) =~= self.main_path.prims());
                }
                return ;
            },
        };
        let ghost base = self.main_path;
        let ghost ev0 = self.evolute->0;
        let ghost rp0 = self.rev_parallel->0;
        match &mut self.evolute {
            Some(ev) => {
                ev.line_to(rp_last);
            },
            None => {},
        }
        let ghost ev1 = self.evolute->0;
        if let Some(ev) = &self.evolute {
            self.main_path.extend(ev);
        }
        let ghost m1 = self.main_path;
        if let Some(rp) = &self.rev_parallel {
            self.main_path.extend_rev(rp);
        }
        let ghost m2 = self.main_path;
        if let Some(ev) = &self.evolute {
            self.main_path.extend(ev);
        }
        self.evolute = None;
        self.rev_parallel = None;
        proof {
            lemma_finalize_shape(base, ev0, ev1, rp0, m1, m2, self.main_path, rp_last);
            lemma_keeps_start(base, self.main_path);
        }
    }

    /// Run one spiral segment's offset through the contour, routing around
    /// a cusp according to `plan`.
    pub fn do_euler_seg(&mut self, seg: &L::Seg, plan: CuspPlan<L::Sc, L::Pt>, h: L::Sc, tolerance: L::Sc)
        requires
            old(self).wf(),
            old(self).contour().has_cursor(),
        ensures
            final(self).wf(),
            final(self).contour().has_cursor(),
            final(self).contour().prims().len() >= old(self).contour().prims().len(),
            final(self).contour().prims().subrange(0, old(self).contour().prims().len() as int) == old(self).contour().prims(),
            forall|q: L::Pt| #[trigger]
                old(self).contour().starts_at(q) ==> final(self).contour().starts_at(q),
            euler_seg_effect(*old(self), *final(self), plan),
    {
        match plan {
            CuspPlan::Whole { t0, t1 } => {
                self.seg_whole(seg, t0, t1, h, tolerance);
            },
            CuspPlan::SplitAfter { t0, t, t1 } => {
                self.seg_split_after(seg, t0, t, t1, h, tolerance);
            },
            CuspPlan::Inverted { t0, t1, evolute_start } => {
                self.seg_inverted(seg, t0, t1, evolute_start, h, tolerance);
            },
            CuspPlan::SplitBefore { t0, t, t1, evolute_start } => {
                self.seg_split_before(seg, t0, t, t1, evolute_start, h, tolerance);
            },
        }
    }

    /// No cusp in range: flush any pending wrap, then flatten the whole
    /// span straight into the contour.
    fn seg_whole(&mut self, seg: &L::Seg, t0: L::Sc, t1: L::Sc, h: L::Sc, tolerance: L::Sc)
        requires
            old(self).wf(),
            old(self).contour().has_cursor(),
        ensures
            final(self).wf(),
            final(self).contour().has_cursor(),
            final(self).contour().prims().subrange(0, old(self).contour().prims().len() as int) == old(self).contour().prims(),
            forall|q: L::Pt| #[trigger]
                old(self).contour().starts_at(q) ==> final(self).contour().starts_at(q),
            !final(self).in_cusp(),
            final(self).contour().prims().len() > flushed_len(*old(self)),
            flushed_shape(*old(self), final(self).contour().prims().subrange(0, flushed_len(*old(self)))),
            final(self).contour().prims()[flushed_len(*old(self))].s_start() == old(self).outline_end(),
            forall|i: int|
                flushed_len(*old(self)) < i < final(self).contour().prims().len() ==> (
                #[trigger] final(self).contour().prims()[i]).s_start() == final(self).contour().prims()[i - 1].s_end(),
    {
        self.finalize();
        let ghost mid = self.main_path;
        L::lower_espc(seg, &mut self.main_path, t0, t1, h, tolerance);
        proof {
            lemma_extended_chain_wf(mid, self.main_path);
            lemma_keeps_start(mid, self.main_path);
            assert(self.main_path.prims().subrange(
                0,
                old(self).contour().prims().len() as int,
            ) =~= mid.prims().subrange(0, old(self).contour().prims().len() as int));
            assert(self.main_path.prims().subrange(0, flushed_len(*old(self))) =~= mid.prims());
        }
    }

    /// Sign change at `t`: flatten up to the cusp, then open the pending
    /// evolute and reverse-parallel paths over the rest of the range.
    fn seg_split_after(&mut self, seg: &L::Seg, t0: L::Sc, t: L::Sc, t1: L::Sc, h: L::Sc, tolerance: L::Sc)
        requires
            old(self).wf(),
            old(self).contour().has_cursor(),
        ensures
            final(self).wf(),
            final(self).contour().has_cursor(),
            final(self).contour().prims().subrange(0, old(self).contour().prims().len() as int) == old(self).contour().prims(),
            forall|q: L::Pt| #[trigger]
                old(self).contour().starts_at(q) ==> final(self).contour().starts_at(q),
            final(self).in_cusp(),
            final(self).contour().prims().len() > flushed_len(*old(self)),
            flushed_shape(*old(self), final(self).contour().prims().subrange(0, flushed_len(*old(self)))),
            final(self).contour().prims()[flushed_len(*old(self))].s_start() == old(self).outline_end(),
            final(self).ev().prims().len() >= 1,
            final(self).rp().prims().len() >= 1,
            final(self).ev().starts_at(final(self).contour().end_pt()),
            final(self).rp().starts_at(final(self).contour().end_pt()),
    {
        self.finalize();
        let ghost mid = self.main_path;
        L::lower_espc(seg, &mut self.main_path, t0, t, h, tolerance);
        proof {
            lemma_extended_chain_wf(mid, self.main_path);
            lemma_keeps_start(mid, self.main_path);
            assert(self.main_path.prims().subrange(
                0,
                old(self).contour().prims().len() as int,
            ) =~= mid.prims().subrange(0, old(self).contour().prims().len() as int));
            assert(self.main_path.prims().subrange(0, flushed_len(*old(self))) =~= mid.prims());
        }
        self.start_cusp();
        self.cusp_evolute(seg, t, t1, tolerance);
        self.cusp_parallel(seg, t, t1, h, tolerance);
    }

    /// Negative sign throughout: the contour waits while the pending
    /// evolute (entered at `evolute_start`) and parallel paths grow.
    fn seg_inverted(&mut self, seg: &L::Seg, t0: L::Sc, t1: L::Sc, evolute_start: L::Pt, h: L::Sc, tolerance: L::Sc)
        requires
            old(self).wf(),
            old(self).contour().has_cursor(),
        ensures
            final(self).wf(),
            final(self).contour().has_cursor(),
            final(self).in_cusp(),
            final(self).contour() == old(self).contour(),
            old(self).in_cusp() ==> final(self).ev().prims().len() > old(self).ev().prims().len()
                + 1 && final(self).ev().prims().subrange(0, old(self).ev().prims().len() as int)
                == old(self).ev().prims() && final(self).ev().prims()[old(self).ev().prims().len() as int].s_start()
                == old(self).ev().end_pt() && final(self).ev().prims()[old(self).ev().prims().len() as int].s_end()
                == evolute_start && final(self).rp().prims().len() > old(self).rp().prims().len()
                && final(self).rp().prims().subrange(0, old(self).rp().prims().len() as int)
                == old(self).rp().prims(),
            !old(self).in_cusp() ==> final(self).ev().prims().len() >= 2 && final(self).ev().prims()[0].s_start()
                == old(self).contour().end_pt() && final(self).ev().prims()[0].s_end()
                == evolute_start && final(self).rp().prims().len() >= 1 && final(self).rp().prims()[0].s_start()
                == old(self).contour().end_pt(),
    {
        self.start_cusp();
        self.cusp_evolute_line(evolute_start);
        let ghost c2 = *self;
        self.cusp_evolute(seg, t0, t1, tolerance);
        self.cusp_parallel(seg, t0, t1, h, tolerance);
        proof {
            let en0 = old(self).ev().prims().len() as int;
            if old(self).in_cusp() {
                assert(self.evolute->0.prims().subrange(0, en0) =~= c2.ev().prims().subrange(
                    0,
                    en0,
                ));
                assert(self.evolute->0.prims()[en0] == c2.ev().prims()[en0]) by {
                    assert(self.evolute->0.prims().subrange(0, c2.ev().prims().len() as int)[en0]
                        == self.evolute->0.prims()[en0]);
                }
            } else {
                assert(self.evolute->0.prims()[0] == c2.ev().prims()[0]) by {
                    assert(self.evolute->0.prims().subrange(0, c2.ev().prims().len() as int)[0]
                        == self.evolute->0.prims()[0]);
                }
            }
        }
    }

    /// Negative sign first, changing at `t`: wrap `[t0, t]` through the
    /// pending paths, flush the wrap, then flatten `[t, t1]` normally.
    fn seg_split_before(&mut self, seg: &L::Seg, t0: L::Sc, t: L::Sc, t1: L::Sc, evolute_start: L::Pt, h: L::Sc, tolerance: L::Sc)
        requires
            old(self).wf(),
            old(self).contour().has_cursor(),
        ensures
            final(self).wf(),
            final(self).contour().has_cursor(),
            final(self).contour().prims().subrange(0, old(self).contour().prims().len() as int) == old(self).contour().prims(),
            forall|q: L::Pt| #[trigger]
                old(self).contour().starts_at(q) ==> final(self).contour().starts_at(q),
            !final(self).in_cusp(),
            exists|evp: Seq<L>, rpp: Seq<L>, rpe: L::Pt| {
                let n = old(self).contour().prims().len() as int;
                let w = 2 * (evp.len() as int + 1) + rpp.len() as int;
                &&& #[trigger] cusp_wrap_shape(
                    final(self).contour().prims().subrange(
                        old(self).contour().prims().len() as int,
                        old(self).contour().prims().len() as int + 2 * (evp.len() as int + 1)
                            + rpp.len() as int,
                    ),
                    evp,
                    rpp,
                    rpe,
                )
                &&& (old(self).in_cusp() ==> evp.subrange(0, old(self).ev().prims().len() as int)
                    == old(self).ev().prims() && evp.len() > old(self).ev().prims().len() + 1
                    && evp[old(self).ev().prims().len() as int].s_end() == evolute_start
                    && rpp.len() > old(self).rp().prims().len() && rpp.subrange(
                    0,
                    old(self).rp().prims().len() as int,
                ) == old(self).rp().prims())
                &&& (!old(self).in_cusp() ==> evp.len() >= 2 && evp[0].s_start()
                    == old(self).contour().end_pt() && evp[0].s_end() == evolute_start
                    && rpp.len() >= 1 && rpp[0].s_start() == old(self).contour().end_pt())
                &&& final(self).contour().prims().len() > n + w
                &&& final(self).contour().prims()[n + w].s_start() == rpe
                &&& (forall|i: int|
                    n + w < i < final(self).contour().prims().len() ==> (
                    #[trigger] final(self).contour().prims()[i]).s_start() == final(self).contour().prims()[i - 1].s_end())
            },
    {
        self.seg_inverted(seg, t0, t, evolute_start, h, tolerance);
        let ghost midc = *self;
        self.seg_flush_tail(seg, t, t1, h, tolerance);
        proof {
            let n = old(self).contour().prims().len() as int;
            let evp = midc.ev().prims();
            let rpp = midc.rp().prims();
            let rpe = midc.rp().end_pt();
            let w = 2 * (evp.len() as int + 1) + rpp.len() as int;
            assert(w == pending_wrap_len(midc));
            assert({
                &&& cusp_wrap_shape(
                    self.main_path.prims().subrange(
                        n,
                        n + 2 * (evp.len() as int + 1) + rpp.len() as int,
                    ),
                    evp,
                    rpp,
                    rpe,
                )
                &&& (old(self).in_cusp() ==> evp.subrange(0, old(self).ev().prims().len() as int)
                    == old(self).ev().prims() && evp.len() > old(self).ev().prims().len() + 1
                    && evp[old(self).ev().prims().len() as int].s_end() == evolute_start
                    && rpp.len() > old(self).rp().prims().len() && rpp.subrange(
                    0,
                    old(self).rp().prims().len() as int,
                ) == old(self).rp().prims())
                &&& (!old(self).in_cusp() ==> evp.len() >= 2 && evp[0].s_start()
                    == old(self).contour().end_pt() && evp[0].s_end() == evolute_start
                    && rpp.len() >= 1 && rpp[0].s_start() == old(self).contour().end_pt())
                &&& self.main_path.prims().len() > n + w
                &&& self.main_path.prims()[n + w].s_start() == rpe
                &&& (forall|i: int|
                    n + w < i < self.main_path.prims().len() ==> (
                    #[trigger] self.main_path.prims()[i]).s_start() == self.main_path.prims()[i
                        - 1].s_end())
            });
        }
    }

    /// Flush the pending wrap, then keep flattening `[t0, t1]` into the
    /// contour: the wrap's exact shape stands first, the new flattening
    /// picks up at the wrap's landing point.
    fn seg_flush_tail(&mut self, seg: &L::Seg, t0: L::Sc, t1: L::Sc, h: L::Sc, tolerance: L::Sc)
        requires
            old(self).wf(),
            old(self).in_cusp(),
        ensures
            final(self).wf(),
            final(self).contour().has_cursor(),
            !final(self).in_cusp(),
            final(self).contour().prims().subrange(0, old(self).contour().prims().len() as int) == old(self).contour().prims(),
            forall|q: L::Pt| #[trigger]
                old(self).contour().starts_at(q) ==> final(self).contour().starts_at(q),
            final(self).contour().prims().len() > old(self).contour().prims().len()
                + pending_wrap_len(*old(self)),
            cusp_wrap_shape(
                final(self).contour().prims().subrange(
                    old(self).contour().prims().len() as int,
                    old(self).contour().prims().len() as int + pending_wrap_len(*old(self)),
                ),
                old(self).ev().prims(),
                old(self).rp().prims(),
                old(self).rp().end_pt(),
            ),
            final(self).contour().prims()[old(self).contour().prims().len() as int
                + pending_wrap_len(*old(self))].s_start() == old(self).rp().end_pt(),
            forall|i: int|
                old(self).contour().prims().len() + pending_wrap_len(*old(self)) < i < final(self).contour().prims().len() ==> (#[trigger] final(self).contour().prims()[i]).s_start()
                    == final(self).contour().prims()[i - 1].s_end(),
    {
        self.finalize();
        let ghost mid = self.main_path;
        L::lower_espc(seg, &mut self.main_path, t0, t1, h, tolerance);
        proof {
            lemma_extended_chain_wf(mid, self.main_path);
            lemma_keeps_start(mid, self.main_path);
            let n = old(self).contour().prims().len() as int;
            let w = pending_wrap_len(*old(self));
            assert(self.main_path.prims().subrange(0, n) =~= mid.prims().subrange(0, n));
            assert(self.main_path.prims().subrange(n, n + w) =~= mid.prims().subrange(n, n + w));
        }
    }

    /// Whether a cusp region is pending.
    pub fn in_cusp_now(&self) -> (r: bool)
        ensures
            r == self.in_cusp(),
    {
        self.evolute.is_some()
    }

    /// The point where the contour's outline currently ends: the pending
    /// parallel path's end while a cusp is open, the contour's end
    /// otherwise.
    pub open spec fn outline_end(&self) -> L::Pt {
        if self.in_cusp() {
            self.rp().end_pt()
        } else {
            self.contour().end_pt()
        }
    }

    /// Read the outline's current end point.
    pub fn outline_end_point(&self) -> (r: L::Pt)
        requires
            self.wf(),
            self.in_cusp() || self.contour().has_cursor(),
        ensures
            r == self.outline_end(),
    {
        match &self.rev_parallel {
            Some(rp) => rp.last_point(),
            None => self.main_path.last_point(),
        }
    }

    /// Move the assembled contour out, leaving the contour empty.
    pub fn take_path(&mut self) -> (r: LoweredPath<L, L::Pt>)
        requires
            old(self).wf(),
            !old(self).in_cusp(),
        ensures
            r == old(self).contour(),
            final(self).wf(),
            !final(self).in_cusp(),
            final(self).contour().prims().len() == 0,
            !final(self).contour().has_cursor(),
    {
        let mut r: LoweredPath<L, L::Pt> = LoweredPath::new();
        core::mem::swap(&mut r, &mut self.main_path);
        r
    }

    /// Flush any pending cusp paths, then draw an arc of turn `k` to `p`.
    pub fn round_arc_to(&mut self, p: L::Pt, k: L::Sc, tol: L::Sc)
        requires
            old(self).wf(),
            old(self).contour().has_cursor(),
        ensures
            final(self).wf(),
            !final(self).in_cusp(),
            final(self).contour().has_cursor(),
            final(self).contour().end_pt() == p,
            final(self).contour().prims().len() > old(self).contour().prims().len(),
            final(self).contour().prims().subrange(0, old(self).contour().prims().len() as int)
                == old(self).contour().prims(),
            final(self).contour().prims()[final(self).contour().prims().len() - 1].s_end() == p,
            arc_step(*old(self), *final(self), p),
            forall|q: L::Pt| #[trigger]
                old(self).contour().starts_at(q) ==> final(self).contour().starts_at(q),
    {
        self.finalize();
        let ghost mid = self.main_path;
        self.main_path.append_arc(p, k, tol);
        proof {
            lemma_keeps_start(mid, self.main_path);
            assert(final(self).contour().prims().subrange(0, old(self).contour().prims().len() as int)
                =~= mid.prims().subrange(0, old(self).contour().prims().len() as int));
            assert(self.main_path.prims().subrange(0, flushed_len(*old(self))) =~= mid.prims());
        }
    }

    /// Open the pending cusp paths, both anchored at the contour's current
    /// point, if they are not already open.
    fn start_cusp(&mut self)
        requires
            old(self).wf(),
            old(self).contour().has_cursor(),
        ensures
            final(self).wf(),
            final(self).in_cusp(),
            final(self).contour() == old(self).contour(),
            old(self).in_cusp() ==> final(self).ev() == old(self).ev() && final(self).rp()
                == old(self).rp(),
            !old(self).in_cusp() ==> final(self).ev().prims().len() == 0 && final(self).ev().end_pt() == old(self).contour().end_pt() && final(self).rp().prims().len() == 0
                && final(self).rp().end_pt() == old(self).contour().end_pt(),
    {
        if self.rev_parallel.is_none() {
            let anchor = self.main_path.last_point();
            let mut ev: LoweredPath<L, L::Pt> = LoweredPath::new();
            ev.move_to(anchor);
            let mut rp: LoweredPath<L, L::Pt> = LoweredPath::new();
            rp.move_to(anchor);
            self.evolute = Some(ev);
            self.rev_parallel = Some(rp);
        }
    }

    /// Draw a line inside the pending evolute path.
    fn cusp_evolute_line(&mut self, p: L::Pt)
        requires
            old(self).wf(),
            old(self).in_cusp(),
        ensures
            final(self).wf(),
            final(self).in_cusp(),
            final(self).contour() == old(self).contour(),
            final(self).rp() == old(self).rp(),
            final(self).ev().prims().len() == old(self).ev().prims().len() + 1,
            final(self).ev().prims().subrange(0, old(self).ev().prims().len() as int) == old(self).ev().prims(),
            final(self).ev().prims()[old(self).ev().prims().len() as int].s_start() == old(self).ev().end_pt(),
            final(self).ev().prims()[old(self).ev().prims().len() as int].s_end() == p,
            final(self).ev().end_pt() == p,
    {
        match &mut self.evolute {
            Some(ev) => {
                let ghost e0 = *ev;
                ev.line_to(p);
                proof {
                    lemma_keeps_start(e0, *ev);
                }
            },
            None => {},
        }
    }

    /// Flatten one evolute span onto the pending evolute path.
    fn cusp_evolute(&mut self, seg: &L::Seg, t0: L::Sc, t1: L::Sc, tolerance: L::Sc)
        requires
            old(self).wf(),
            old(self).in_cusp(),
        ensures
            final(self).wf(),
            final(self).in_cusp(),
            final(self).contour() == old(self).contour(),
            final(self).rp() == old(self).rp(),
            final(self).ev().prims().len() > old(self).ev().prims().len(),
            final(self).ev().prims().subrange(0, old(self).ev().prims().len() as int) == old(self).ev().prims(),
            final(self).ev().prims()[old(self).ev().prims().len() as int].s_start() == old(self).ev().end_pt(),
    {
        match &mut self.evolute {
            Some(ev) => {
                let ghost e0 = *ev;
                L::lower_es_evolute(seg, ev, t0, t1, tolerance);
                proof {
                    lemma_extended_chain_wf(e0, *ev);
                    lemma_keeps_start(e0, *ev);
                }
            },
            None => {},
        }
    }

    /// Flatten one offset span onto the pending reverse-parallel path.
    fn cusp_parallel(&mut self, seg: &L::Seg, t0: L::Sc, t1: L::Sc, h: L::Sc, tolerance: L::Sc)
        requires
            old(self).wf(),
            old(self).in_cusp(),
        ensures
            final(self).wf(),
            final(self).in_cusp(),
            final(self).contour() == old(self).contour(),
            final(self).ev() == old(self).ev(),
            final(self).rp().prims().len() > old(self).rp().prims().len(),
            final(self).rp().prims().subrange(0, old(self).rp().prims().len() as int) == old(self).rp().prims(),
            final(self).rp().prims()[old(self).rp().prims().len() as int].s_start() == old(self).rp().end_pt(),
    {
        match &mut self.rev_parallel {
            Some(rp) => {
                let ghost r0 = *rp;
                L::lower_espc(seg, rp, t0, t1, h, tolerance);
                proof {
                    lemma_extended_chain_wf(r0, *rp);
                    lemma_keeps_start(r0, *rp);
                }
            },
            None => {},
        }
    }
}

impl<L: Lowering> Default for StrokeContour<L> {
    /// An empty contour.
    fn default() -> (r: StrokeContour<L>)
        ensures
            r.wf(),
            !r.in_cusp(),
            r.contour().prims().len() == 0,
            !r.contour().has_cursor(),
    {
        StrokeContour::new()
    }
}

/// Which side of the stroke a miter point lands on: the sign of the cross
/// product of the adjoining tangents.
pub enum MiterSide {
    Forward,
    Backward,
    Degenerate,
}

/// A join, as the backend's geometry worked it out: the elision test, the
/// offset points on both sides, and the join style's own data.
pub enum JoinPlan<T, P> {
    /// The turn is below the width- and tolerance-relative threshold:
    /// emit nothing.
    Skip,
    /// A direct chord on both sides.
    Bevel { fw: P, bw: P },
    /// A miter: when `within_limit` fails the miter point is dropped and
    /// the join degrades to exactly the bevel.
    Miter { within_limit: bool, side: MiterSide, miter: P, fw: P, bw: P },
    /// A round join turning towards the forward side.
    RoundForward { k: T, tol: T, fw: P, bw: P },
    /// A round join turning towards the backward side.
    RoundBackward { k: T, tol: T, fw: P, bw: P },
}

/// A cap, as the backend's geometry worked it out.  The cap's target point
/// is not here: the machine itself closes each cap onto the stored contour
/// endpoint, which is what makes the finished loop provably closed.
pub enum CapPlan<T, P> {
    /// A straight line to the target.
    Butt,
    /// An arc of turn `k` to the target.
    Round { k: T, tol: T },
    /// Two corner points, then a line to the target.
    Square { q0: P, q1: P },
}

/// The run a cap appends: a non-empty chain ending on the cap's target;
/// a butt cap is exactly one chord, a square cap exactly three, through
/// its two corner points.
pub open spec fn cap_run_shape<L: Lowering>(
    run: Seq<L>,
    plan: CapPlan<L::Sc, L::Pt>,
    target: L::Pt,
) -> bool {
    &&& run.len() >= 1
    &&& run[run.len() - 1].s_end() == target
    &&& (forall|i: int| 0 < i < run.len() ==> (#[trigger] run[i]).s_start() == run[i - 1].s_end())
    &&& (plan matches CapPlan::Butt ==> run.len() == 1)
    &&& (plan matches CapPlan::Square { q0, q1 } ==> run.len() == 3 && run[0].s_end() == q0
        && run[1].s_end() == q1)
}

/// Reading a window of a concatenation past the first part reads the
/// second part.
proof fn lemma_concat_subrange<T>(a: Seq<T>, b: Seq<T>, x: int, y: int)
    requires
        0 <= x <= y <= b.len(),
    ensures
        (a + b).subrange(a.len() + x, a.len() + y) == b.subrange(x, y),
{
    assert((a + b).subrange(a.len() + x, a.len() + y) =~= b.subrange(x, y));
}

/// A window of a sequence is unchanged by extending the sequence.
proof fn lemma_window_trans<T>(a: Seq<T>, b: Seq<T>, x: int, y: int)
    requires
        a.len() <= b.len(),
        b.subrange(0, a.len() as int) == a,
        0 <= x <= y <= a.len(),
    ensures
        b.subrange(x, y) == a.subrange(x, y),
{
    assert forall|i: int| 0 <= i < y - x implies #[trigger] b.subrange(x, y)[i] == a.subrange(
        x,
        y,
    )[i] by {
        assert(b.subrange(0, a.len() as int)[x + i] == b[x + i]);
    }
    assert(b.subrange(x, y) =~= a.subrange(x, y));
}

/// What one growth step leaves in its appended window: a chain that ends
/// on the new current point.
proof fn lemma_cap_region<L: Lowering>(oldp: LoweredPath<L, L::Pt>, newp: LoweredPath<L, L::Pt>)
    requires
        newp.chain_wf(),
        newp.has_cursor(),
        newp.prims().len() > oldp.prims().len(),
        newp.prims().subrange(0, oldp.prims().len() as int) == oldp.prims(),
    ensures
        ({
            let run = newp.prims().subrange(
                oldp.prims().len() as int,
                newp.prims().len() as int,
            );
            &&& run.len() >= 1
            &&& run[run.len() - 1].s_end() == newp.end_pt()
            &&& (forall|i: int|
                0 < i < run.len() ==> (#[trigger] run[i]).s_start() == run[i - 1].s_end())
        }),
{
    let n = oldp.prims().len() as int;
    let run = newp.prims().subrange(n, newp.prims().len() as int);
    assert(run[run.len() - 1] == newp.prims()[newp.prims().len() - 1]);
    assert forall|i: int| 0 < i < run.len() implies (#[trigger] run[i]).s_start() == run[i
        - 1].s_end() by {
        assert(run[i] == newp.prims()[n + i]);
        assert(run[i - 1] == newp.prims()[n + i - 1]);
    }
}

/// The output decomposes into closed loops at the recorded boundaries:
/// `b` climbs from zero to the length of `s`, and each stretch between
/// neighbouring boundaries is a closed chain.
pub open spec fn loops_wf<L: Lowering>(s: Seq<L>, b: Seq<int>) -> bool {
    &&& b.len() >= 1
    &&& b[0] == 0
    &&& b[b.len() - 1] == s.len()
    &&& (forall|k: int| 0 <= k < b.len() ==> 0 <= #[trigger] b[k] <= s.len())
    &&& (forall|k: int| 0 <= k < b.len() - 1 ==> #[trigger] b[k] < b[k + 1])
    &&& (forall|k: int|
        0 <= k < b.len() - 1 ==> is_closed_chain(#[trigger] s.subrange(b[k], b[k + 1])))
}

/// Contiguity of the output: within any one recorded loop, every
/// primitive starts exactly where its predecessor ended.
pub proof fn lemma_output_contiguity<L: Lowering>(s: Seq<L>, b: Seq<int>, k: int, i: int)
    requires
        loops_wf(s, b),
        0 <= k < b.len() - 1,
        b[k] < i < b[k + 1],
    ensures
        s[i].s_start() == s[i - 1].s_end(),
{
    let piece = s.subrange(b[k], b[k + 1]);
    assert(piece[i - b[k]].s_start() == piece[i - b[k] - 1].s_end());
    assert(piece[i - b[k]] == s[i]);
    assert(piece[i - b[k] - 1] == s[i - 1]);
}

/// Closure of the output: every recorded loop's last primitive ends
/// exactly where the loop's first primitive started.
pub proof fn lemma_output_closure<L: Lowering>(s: Seq<L>, b: Seq<int>, k: int)
    requires
        loops_wf(s, b),
        0 <= k < b.len() - 1,
    ensures
        s[b[k + 1] - 1].s_end() == s[b[k]].s_start(),
{
    let piece = s.subrange(b[k], b[k + 1]);
    assert(piece[piece.len() - 1] == s[b[k + 1] - 1]);
    assert(piece[0] == s[b[k]]);
}

/// Appending one more closed loop keeps the loop decomposition.
proof fn lemma_loops_push<L: Lowering>(s: Seq<L>, b: Seq<int>, piece: Seq<L>)
    requires
        loops_wf(s, b),
        piece.len() > 0,
        is_chain(piece),
        piece[piece.len() - 1].s_end() == piece[0].s_start(),
    ensures
        loops_wf(s + piece, b.push(s.len() + piece.len() as int)),
{
    let s2 = s + piece;
    let b2 = b.push(s2.len() as int);
    assert forall|k: int| 0 <= k < b2.len() - 1 implies is_closed_chain(
        #[trigger] s2.subrange(b2[k], b2[k + 1]),
    ) by {
        if k < b.len() - 1 {
            assert(b2[k] == b[k]);
            assert(b2[k + 1] == b[k + 1]);
            assert(s2.subrange(b2[k], b2[k + 1]) =~= s.subrange(b[k], b[k + 1]));
        } else {
            assert(b2[k] == b[b.len() - 1]);
            assert(s2.subrange(b2[k], b2[k + 1]) =~= piece);
        }
    }
}

/// Two successive chords compose into a miter: flush-and-chord to the
/// apex, then one more chord on to the offset point.
proof fn lemma_miter_compose<L: Lowering>(
    oldc: StrokeContour<L>,
    midc: StrokeContour<L>,
    newc: StrokeContour<L>,
    apex: L::Pt,
    p: L::Pt,
)
    requires
        chord_step(oldc, midc, apex),
        chord_step(midc, newc, p),
    ensures
        miter_step(oldc, newc, apex, p),
{
    let f = flushed_len(oldc);
    let m = flushed_len(midc);
    let x = newc.contour().prims().subrange(0, m);
    assert(x.subrange(0, midc.contour().prims().len() as int) =~= x);
    assert(x =~= midc.contour().prims());
    assert(newc.contour().prims().subrange(0, f) =~= midc.contour().prims().subrange(0, f));
    assert(newc.contour().prims()[f] == midc.contour().prims()[f]) by {
        assert(x[f] == newc.contour().prims()[f]);
    }
    assert(newc.contour().prims()[f + 1].s_start() == midc.outline_end());
}

/// Carries an assembled loop's window facts over into the output it was
/// appended to.
#[verifier::rlimit(100)]
proof fn lemma_open_loop_transfer<L: Lowering>(
    out0: Seq<L>,
    piece: LoweredPath<L, L::Pt>,
    out1: Seq<L>,
    fc: StrokeContour<L>,
    bc: StrokeContour<L>,
    end_cap: CapPlan<L::Sc, L::Pt>,
    start_cap: CapPlan<L::Sc, L::Pt>,
    startpt: L::Pt,
)
    requires
        out1 == out0 + piece.prims(),
        exists|c1: int| {
            let fl = flushed_len(fc);
            let bl = flushed_len(bc);
            let total = piece.prims().len() as int;
            &&& 1 <= c1
            &&& fl + c1 + bl < total
            &&& flushed_shape(fc, piece.prims().subrange(0, fl))
            &&& #[trigger] cap_run_shape(
                piece.prims().subrange(flushed_len(fc), flushed_len(fc) + c1),
                end_cap,
                bc.outline_end(),
            )
            &&& (forall|j: int|
                0 <= j < bc.contour().prims().len() ==> (#[trigger] piece.prims()[fl + c1 + (bl
                    - 1 - j)]).s_start() == bc.contour().prims()[j].s_end() && piece.prims()[fl
                    + c1 + (bl - 1 - j)].s_end() == bc.contour().prims()[j].s_start())
            &&& cap_run_shape(piece.prims().subrange(fl + c1 + bl, total), start_cap, startpt)
        },
    ensures
        exists|c1: int| {
            let o0 = out0.len() as int;
            let fl = flushed_len(fc);
            let bl = flushed_len(bc);
            let total = out1.len() as int;
            &&& 1 <= c1
            &&& o0 + fl + c1 + bl < total
            &&& flushed_shape(fc, out1.subrange(o0, o0 + fl))
            &&& #[trigger] cap_run_shape(
                out1.subrange(
                    out0.len() as int + flushed_len(fc),
                    out0.len() as int + flushed_len(fc) + c1,
                ),
                end_cap,
                bc.outline_end(),
            )
            &&& (forall|j: int|
                0 <= j < bc.contour().prims().len() ==> (#[trigger] out1[o0 + fl + c1 + (bl - 1
                    - j)]).s_start() == bc.contour().prims()[j].s_end() && out1[o0 + fl + c1 + (
                bl - 1 - j)].s_end() == bc.contour().prims()[j].s_start())
            &&& cap_run_shape(out1.subrange(o0 + fl + c1 + bl, total), start_cap, startpt)
        },
{
    let o0 = out0.len() as int;
    let fl = flushed_len(fc);
    let bl = flushed_len(bc);
    let total = out1.len() as int;
    let c1 = choose|c1: int| {
        let flq = flushed_len(fc);
        let blq = flushed_len(bc);
        let totalq = piece.prims().len() as int;
        &&& 1 <= c1
        &&& flq + c1 + blq < totalq
        &&& flushed_shape(fc, piece.prims().subrange(0, flq))
        &&& #[trigger] cap_run_shape(
            piece.prims().subrange(flushed_len(fc), flushed_len(fc) + c1),
            end_cap,
            bc.outline_end(),
        )
        &&& (forall|j: int|
            0 <= j < bc.contour().prims().len() ==> (#[trigger] piece.prims()[flq + c1 + (blq - 1
                - j)]).s_start() == bc.contour().prims()[j].s_end() && piece.prims()[flq + c1 + (
            blq - 1 - j)].s_end() == bc.contour().prims()[j].s_start())
        &&& cap_run_shape(piece.prims().subrange(flq + c1 + blq, totalq), start_cap, startpt)
    };
    lemma_concat_subrange(out0, piece.prims(), 0, fl);
    lemma_concat_subrange(out0, piece.prims(), fl, fl + c1);
    lemma_concat_subrange(out0, piece.prims(), fl + c1 + bl, piece.prims().len() as int);
    assert forall|j: int| 0 <= j < bc.contour().prims().len() implies (#[trigger] out1[o0 + fl
        + c1 + (bl - 1 - j)]).s_start() == bc.contour().prims()[j].s_end() && out1[o0 + fl + c1
        + (bl - 1 - j)].s_end() == bc.contour().prims()[j].s_start() by {
        assert(out1[o0 + (fl + c1 + (bl - 1 - j))] == piece.prims()[fl + c1 + (bl - 1 - j)]);
    }
    assert({
        &&& 1 <= c1
        &&& o0 + fl + c1 + bl < total
        &&& flushed_shape(fc, out1.subrange(o0, o0 + fl))
        &&& cap_run_shape(
            out1.subrange(
                out0.len() as int + flushed_len(fc),
                out0.len() as int + flushed_len(fc) + c1,
            ),
            end_cap,
            bc.outline_end(),
        )
        &&& cap_run_shape(out1.subrange(o0 + fl + c1 + bl, total), start_cap, startpt)
    });
}

/// The stroke-expansion machine: the finished output loops, the two
/// contours of the open subpath, and the stored contour start points that
/// each finished subpath is closed back onto.
pub struct StrokeCtx<L: Lowering> {
    output: Vec<L>,
    loop_bounds: Ghost<Seq<int>>,
    forward_path: StrokeContour<L>,
    backward_path: StrokeContour<L>,
    fw_start: Option<L::Pt>,
    bw_start: Option<L::Pt>,
}

impl<L: Lowering> StrokeCtx<L> {
    /// The finished output primitives.
    pub closed spec fn out(&self) -> Seq<L> {
        self.output@
    }

    /// The recorded loop boundaries of the output.
    pub closed spec fn bounds(&self) -> Seq<int> {
        self.loop_bounds@
    }

    /// The forward contour.
    pub closed spec fn forward(&self) -> StrokeContour<L> {
        self.forward_path
    }

    /// The backward contour.
    pub closed spec fn backward(&self) -> StrokeContour<L> {
        self.backward_path
    }

    /// Whether a subpath is open.
    pub closed spec fn opened(&self) -> bool {
        self.fw_start is Some && self.bw_start is Some
    }

    /// The forward contour's start point.
    pub closed spec fn fw_start_pt(&self) -> L::Pt {
        self.fw_start->0
    }

    /// The backward contour's start point.
    pub closed spec fn bw_start_pt(&self) -> L::Pt {
        self.bw_start->0
    }

    /// The machine's invariant: the output is a row of closed loops, the
    /// contours are well formed, and an open subpath's contours run from
    /// their stored start points.
    pub open spec fn wf(&self) -> bool {
        &&& loops_wf(self.out(), self.bounds())
        &&& self.forward().wf()
        &&& self.backward().wf()
        &&& self.opened() ==> {
            &&& self.forward().contour().has_cursor()
            &&& self.backward().contour().has_cursor()
            &&& self.forward().contour().starts_at(self.fw_start_pt())
            &&& self.backward().contour().starts_at(self.bw_start_pt())
        }
        &&& !self.opened() ==> {
            &&& !self.forward().in_cusp()
            &&& !self.backward().in_cusp()
            &&& self.forward().contour().prims().len() == 0
            &&& self.backward().contour().prims().len() == 0
        }
    }

    /// A fresh machine with no output and no open subpath.
    pub fn new() -> (r: StrokeCtx<L>)
        ensures
            r.wf(),
            !r.opened(),
            r.out().len() == 0,
    {
        let ghost b: Seq<int> = seq![0int];
        StrokeCtx {
            output: Vec::new(),
            loop_bounds: Ghost(b),
            forward_path: StrokeContour::new(),
            backward_path: StrokeContour::new(),
            fw_start: None,
            bw_start: None,
        }
    }

    /// Open a subpath: the two contours set out from the first segment's
    /// two offset points.
    pub fn open_contour(&mut self, fw0: L::Pt, bw0: L::Pt)
        requires
            old(self).wf(),
            !old(self).opened(),
        ensures
            final(self).wf(),
            final(self).opened(),
            final(self).out() == old(self).out(),
            final(self).fw_start_pt() == fw0,
            final(self).bw_start_pt() == bw0,
            final(self).forward().contour().prims().len() == 0,
            final(self).backward().contour().prims().len() == 0,
    {
        self.forward_path.move_to(fw0);
        self.backward_path.move_to(bw0);
        self.fw_start = Some(fw0);
        self.bw_start = Some(bw0);
    }

    /// Apply one join.  A miter whose limit test failed emits exactly what
    /// a bevel would: one chord on each side and nothing else.
    #[verifier::rlimit(60)]
    pub fn do_join(&mut self, plan: JoinPlan<L::Sc, L::Pt>)
        requires
            old(self).wf(),
            old(self).opened(),
        ensures
            final(self).wf(),
            final(self).opened(),
            final(self).out() == old(self).out(),
            final(self).fw_start_pt() == old(self).fw_start_pt(),
            final(self).bw_start_pt() == old(self).bw_start_pt(),
            plan matches JoinPlan::Bevel { fw, bw } ==> chord_step(
                old(self).forward(),
                final(self).forward(),
                fw,
            ) && chord_step(old(self).backward(), final(self).backward(), bw),
            plan matches JoinPlan::Miter { within_limit: false, side: _, miter: _, fw, bw }
                ==> chord_step(old(self).forward(), final(self).forward(), fw) && chord_step(
                old(self).backward(),
                final(self).backward(),
                bw,
            ),
            plan matches JoinPlan::Miter { within_limit: true, side: MiterSide::Forward, miter, fw, bw }
                ==> miter_step(old(self).forward(), final(self).forward(), miter, fw)
                && chord_step(old(self).backward(), final(self).backward(), bw),
            plan matches JoinPlan::Miter { within_limit: true, side: MiterSide::Backward, miter, fw, bw }
                ==> chord_step(old(self).forward(), final(self).forward(), fw) && miter_step(
                old(self).backward(),
                final(self).backward(),
                miter,
                bw,
            ),
            plan matches JoinPlan::Miter { within_limit: true, side: MiterSide::Degenerate, miter: _, fw, bw }
                ==> chord_step(old(self).forward(), final(self).forward(), fw) && chord_step(
                old(self).backward(),
                final(self).backward(),
                bw,
            ),
            plan matches JoinPlan::RoundForward { k: _, tol: _, fw, bw } ==> arc_step(
                old(self).forward(),
                final(self).forward(),
                fw,
            ) && chord_step(old(self).backward(), final(self).backward(), bw),
            plan matches JoinPlan::RoundBackward { k: _, tol: _, fw, bw } ==> chord_step(
                old(self).forward(),
                final(self).forward(),
                fw,
            ) && arc_step(old(self).backward(), final(self).backward(), bw),
            final(self).forward().contour().prims().len() >= old(self).forward().contour().prims().len(),
            final(self).backward().contour().prims().len() >= old(self).backward().contour().prims().len(),
            plan matches JoinPlan::Skip ==> final(self).forward() == old(self).forward() && final(self).backward() == old(self).backward(),
            !(plan matches JoinPlan::Skip) ==> final(self).forward().contour().prims().len() > old(self).forward().contour().prims().len() && final(self).backward().contour().prims().len() > old(self).backward().contour().prims().len(),
    {
        match plan {
            JoinPlan::Skip => {},
            JoinPlan::Bevel { fw, bw } => {
                self.forward_path.line_to(fw);
                self.backward_path.line_to(bw);
            },
            JoinPlan::Miter { within_limit, side, miter, fw, bw } => {
                if within_limit {
                    match side {
                        MiterSide::Forward => {
                            self.forward_path.line_to(miter);
                            let ghost midf = self.forward_path;
                            self.forward_path.line_to(fw);
                            self.backward_path.line_to(bw);
                            proof {
                                lemma_miter_compose(
                                    old(self).forward(),
                                    midf,
                                    self.forward_path,
                                    miter,
                                    fw,
                                );
                            }
                        },
                        MiterSide::Backward => {
                            self.backward_path.line_to(miter);
                            let ghost midb = self.backward_path;
                            self.forward_path.line_to(fw);
                            self.backward_path.line_to(bw);
                            proof {
                                lemma_miter_compose(
                                    old(self).backward(),
                                    midb,
                                    self.backward_path,
                                    miter,
                                    bw,
                                );
                            }
                        },
                        MiterSide::Degenerate => {
                            self.forward_path.line_to(fw);
                            self.backward_path.line_to(bw);
                        },
                    }
                } else {
                    self.forward_path.line_to(fw);
                    self.backward_path.line_to(bw);
                }
            },
            JoinPlan::RoundForward { k, tol, fw, bw } => {
                self.backward_path.line_to(bw);
                self.forward_path.round_arc_to(fw, k, tol);
            },
            JoinPlan::RoundBackward { k, tol, fw, bw } => {
                self.forward_path.line_to(fw);
                self.backward_path.round_arc_to(bw, k, tol);
            },
        }
    }

    /// Draw one straight segment's two offset lines.
    pub fn do_line(&mut self, fw1: L::Pt, bw1: L::Pt)
        requires
            old(self).wf(),
            old(self).opened(),
        ensures
            final(self).wf(),
            final(self).opened(),
            final(self).out() == old(self).out(),
            final(self).fw_start_pt() == old(self).fw_start_pt(),
            final(self).bw_start_pt() == old(self).bw_start_pt(),
            final(self).forward().contour().prims().len() > old(self).forward().contour().prims().len(),
            final(self).backward().contour().prims().len() > old(self).backward().contour().prims().len(),
            final(self).forward().contour().end_pt() == fw1,
            final(self).backward().contour().end_pt() == bw1,
            chord_step(old(self).forward(), final(self).forward(), fw1),
            chord_step(old(self).backward(), final(self).backward(), bw1),
    {
        self.forward_path.line_to(fw1);
        self.backward_path.line_to(bw1);
    }

    /// Run one fitted spiral segment through both contours, each with its
    /// own offset and cusp classification.
    pub fn do_euler_seg(
        &mut self,
        seg: &L::Seg,
        fw_plan: CuspPlan<L::Sc, L::Pt>,
        fw_h: L::Sc,
        bw_plan: CuspPlan<L::Sc, L::Pt>,
        bw_h: L::Sc,
        tolerance: L::Sc,
    )
        requires
            old(self).wf(),
            old(self).opened(),
        ensures
            final(self).wf(),
            final(self).opened(),
            final(self).out() == old(self).out(),
            final(self).fw_start_pt() == old(self).fw_start_pt(),
            final(self).bw_start_pt() == old(self).bw_start_pt(),
            final(self).forward().contour().prims().len() >= old(self).forward().contour().prims().len(),
            final(self).backward().contour().prims().len() >= old(self).backward().contour().prims().len(),
            euler_seg_effect(old(self).forward(), final(self).forward(), fw_plan),
            euler_seg_effect(old(self).backward(), final(self).backward(), bw_plan),
    {
        self.forward_path.do_euler_seg(seg, fw_plan, fw_h, tolerance);
        self.backward_path.do_euler_seg(seg, bw_plan, bw_h, tolerance);
    }

    /// The point where the forward contour's outline currently ends.
    pub fn forward_end_point(&self) -> (r: L::Pt)
        requires
            self.wf(),
            self.opened(),
        ensures
            r == self.forward().outline_end(),
    {
        self.forward_path.outline_end_point()
    }

    /// The point where the backward contour's outline currently ends.
    pub fn backward_end_point(&self) -> (r: L::Pt)
        requires
            self.wf(),
            self.opened(),
        ensures
            r == self.backward().outline_end(),
    {
        self.backward_path.outline_end_point()
    }

    /// The forward contour's start point.
    pub fn forward_start_point(&self) -> (r: L::Pt)
        requires
            self.opened(),
        ensures
            r == self.fw_start_pt(),
    {
        self.fw_start.unwrap()
    }

    /// The backward contour's start point.
    pub fn backward_start_point(&self) -> (r: L::Pt)
        requires
            self.opened(),
        ensures
            r == self.bw_start_pt(),
    {
        self.bw_start.unwrap()
    }

    /// Apply one cap onto the loop under assembly.
    fn apply_cap(piece: &mut LoweredPath<L, L::Pt>, plan: CapPlan<L::Sc, L::Pt>, target: L::Pt)
        requires
            old(piece).chain_wf(),
            old(piece).has_cursor(),
        ensures
            final(piece).chain_wf(),
            final(piece).has_cursor(),
            final(piece).end_pt() == target,
            final(piece).prims().len() > old(piece).prims().len(),
            final(piece).prims().subrange(0, old(piece).prims().len() as int) == old(
                piece,
            ).prims(),
            final(piece).prims()[old(piece).prims().len() as int].s_start() == old(
                piece,
            ).end_pt(),
            cap_run_shape(
                final(piece).prims().subrange(
                    old(piece).prims().len() as int,
                    final(piece).prims().len() as int,
                ),
                plan,
                target,
            ),
    {
        match plan {
            CapPlan::Butt => {
                piece.line_to(target);
                proof {
                    lemma_cap_region(*old(piece), *piece);
                }
            },
            CapPlan::Round { k, tol } => {
                piece.append_arc(target, k, tol);
                proof {
                    lemma_cap_region(*old(piece), *piece);
                }
            },
            CapPlan::Square { q0, q1 } => {
                piece.line_to(q0);
                let ghost s1 = *piece;
                piece.line_to(q1);
                let ghost s2 = *piece;
                piece.line_to(target);
                proof {
                    let nn = old(piece).prims().len() as int;
                    assert(s2.prims().subrange(0, nn) =~= old(piece).prims()) by {
                        lemma_window_trans(s1.prims(), s2.prims(), 0, nn);
                    }
                    assert(piece.prims().subrange(0, nn) =~= old(piece).prims()) by {
                        lemma_window_trans(s2.prims(), piece.prims(), 0, nn);
                    }
                    lemma_cap_region(*old(piece), *piece);
                    assert(piece.prims()[nn] == s1.prims()[nn]) by {
                        lemma_window_trans(s1.prims(), s2.prims(), nn, nn + 1);
                        lemma_window_trans(s2.prims(), piece.prims(), nn, nn + 1);
                        assert(piece.prims().subrange(nn, nn + 1)[0] == piece.prims()[nn]);
                        assert(s1.prims().subrange(nn, nn + 1)[0] == s1.prims()[nn]);
                    }
                    assert(piece.prims()[nn + 1] == s2.prims()[nn + 1]) by {
                        lemma_window_trans(s2.prims(), piece.prims(), nn + 1, nn + 2);
                        assert(piece.prims().subrange(nn + 1, nn + 2)[0] == piece.prims()[nn + 1]);
                        assert(s2.prims().subrange(nn + 1, nn + 2)[0] == s2.prims()[nn + 1]);
                    }
                    let run = piece.prims().subrange(nn, piece.prims().len() as int);
                    assert(run[0] == piece.prims()[nn]);
                    assert(run[1] == piece.prims()[nn + 1]);
                    assert(run[2] == piece.prims()[nn + 2]);
                }
            },
        }
    }

    /// Assemble one open subpath's closed loop: the flushed forward
    /// contour, the end cap, the flushed backward contour reversed, and
    /// the start cap closing onto the stored forward start point.  The
    /// contours are left empty; the output is not touched.
    #[verifier::rlimit(100)]
    fn build_open_loop(&mut self, end_cap: CapPlan<L::Sc, L::Pt>, start_cap: CapPlan<L::Sc, L::Pt>) -> (piece: LoweredPath<L, L::Pt>)
        requires
            old(self).wf(),
            old(self).opened(),
            old(self).forward().contour().prims().len() > 0 || old(self).forward().in_cusp(),
        ensures
            final(self).out() == old(self).out(),
            final(self).bounds() == old(self).bounds(),
            final(self).opened() == old(self).opened(),
            final(self).fw_start_pt() == old(self).fw_start_pt(),
            final(self).bw_start_pt() == old(self).bw_start_pt(),
            final(self).forward().wf() && !final(self).forward().in_cusp() && final(self).forward().contour().prims().len() == 0,
            final(self).backward().wf() && !final(self).backward().in_cusp() && final(self).backward().contour().prims().len() == 0,
            piece.chain_wf(),
            piece.prims().len() > 0,
            piece.prims()[0].s_start() == old(self).fw_start_pt(),
            piece.prims()[piece.prims().len() - 1].s_end() == old(self).fw_start_pt(),
            exists|c1: int| {
                let fl = flushed_len(old(self).forward());
                let bl = flushed_len(old(self).backward());
                let total = piece.prims().len() as int;
                &&& 1 <= c1
                &&& fl + c1 + bl < total
                &&& flushed_shape(old(self).forward(), piece.prims().subrange(0, fl))
                &&& #[trigger] cap_run_shape(
                    piece.prims().subrange(
                        flushed_len(old(self).forward()),
                        flushed_len(old(self).forward()) + c1,
                    ),
                    end_cap,
                    old(self).backward().outline_end(),
                )
                &&& (forall|j: int|
                    0 <= j < old(self).backward().contour().prims().len() ==> (
                    #[trigger] piece.prims()[fl + c1 + (bl - 1 - j)]).s_start() == old(self).backward().contour().prims()[j].s_end() && piece.prims()[fl + c1 + (bl - 1
                        - j)].s_end() == old(self).backward().contour().prims()[j].s_start())
                &&& cap_run_shape(
                    piece.prims().subrange(fl + c1 + bl, total),
                    start_cap,
                    old(self).fw_start_pt(),
                )
            },
    {
        let ghost start: L::Pt = self.fw_start->0;
        self.forward_path.finalize();
        let mut piece = self.forward_path.take_path();
        proof {
            assert(piece.starts_at(start));
            assert(piece.prims().len() > 0);
            assert(piece.prims()[0].s_start() == start);
            assert(piece.prims().subrange(0, piece.prims().len() as int) =~= piece.prims());
            assert(flushed_shape(old(self).forward(), piece.prims()));
        }
        let ghost p1 = piece;
        self.backward_path.finalize();
        let return_p = self.backward_path.last_point();
        Self::apply_cap(&mut piece, end_cap, return_p);
        proof {
            assert(piece.prims()[0] == piece.prims().subrange(0, p1.prims().len() as int)[0]);
        }
        let ghost p2 = piece;
        let bpath = self.backward_path.take_path();
        piece.extend_rev(&bpath);
        proof {
            assert(piece.prims()[0] == piece.prims().subrange(0, p2.prims().len() as int)[0]);
        }
        let ghost p3 = piece;
        let target = self.fw_start.unwrap();
        Self::apply_cap(&mut piece, start_cap, target);
        proof {
            let fl = flushed_len(old(self).forward());
            let bl = flushed_len(old(self).backward());
            let n1 = p1.prims().len() as int;
            let n2 = p2.prims().len() as int;
            let n3 = p3.prims().len() as int;
            let c1 = n2 - n1;
            let total = piece.prims().len() as int;
            assert(piece.prims()[0] == piece.prims().subrange(0, p3.prims().len() as int)[0]);
            assert(piece.prims()[piece.prims().len() - 1].s_end() == target);
            assert(n1 == fl);
            assert(n3 - n2 == bl);
            assert(piece.prims().subrange(0, fl) =~= p1.prims()) by {
                lemma_window_trans(p3.prims(), piece.prims(), 0, n1);
                lemma_window_trans(p2.prims(), p3.prims(), 0, n1);
                assert(p2.prims().subrange(0, n1) =~= p1.prims());
            }
            assert(piece.prims().subrange(n1, n2) =~= p2.prims().subrange(n1, n2)) by {
                lemma_window_trans(p3.prims(), piece.prims(), n1, n2);
                lemma_window_trans(p2.prims(), p3.prims(), n1, n2);
            }
            assert(cap_run_shape(piece.prims().subrange(n1, n2), end_cap, return_p));
            assert(return_p == old(self).backward().outline_end());
            assert forall|j: int| 0 <= j < old(self).backward().contour().prims().len() implies (
            #[trigger] piece.prims()[fl + c1 + (bl - 1 - j)]).s_start() == old(self).backward().contour().prims()[j].s_end() && piece.prims()[fl + c1 + (bl - 1
                - j)].s_end() == old(self).backward().contour().prims()[j].s_start() by {
                let j2 = bl - 1 - j;
                assert(bpath.prims()[j] == bpath.prims().subrange(
                    0,
                    old(self).backward().contour().prims().len() as int,
                )[j]);
                assert(p3.prims()[n2 + j2].s_start() == bpath.prims()[bl - 1 - j2].s_end());
                assert(p3.prims()[n2 + j2].s_end() == bpath.prims()[bl - 1 - j2].s_start());
                assert(piece.prims()[n2 + j2] == p3.prims()[n2 + j2]) by {
                    lemma_window_trans(p3.prims(), piece.prims(), n2 + j2, n2 + j2 + 1);
                    assert(piece.prims().subrange(n2 + j2, n2 + j2 + 1)[0] == piece.prims()[n2
                        + j2]);
                    assert(p3.prims().subrange(n2 + j2, n2 + j2 + 1)[0] == p3.prims()[n2 + j2]);
                }
            }
            assert({
                &&& 1 <= c1
                &&& fl + c1 + bl < total
                &&& flushed_shape(old(self).forward(), piece.prims().subrange(0, fl))
                &&& cap_run_shape(
                    piece.prims().subrange(
                        flushed_len(old(self).forward()),
                        flushed_len(old(self).forward()) + c1,
                    ),
                    end_cap,
                    old(self).backward().outline_end(),
                )
                &&& cap_run_shape(
                    piece.prims().subrange(fl + c1 + bl, total),
                    start_cap,
                    old(self).fw_start_pt(),
                )
            });
        }
        piece
    }

    /// Finish an open subpath with caps: forward contour, end cap over to
    /// the backward side, backward contour reversed, and the start cap
    /// closing onto the stored forward start point — one closed loop.
    #[verifier::rlimit(100)]
    pub fn finish(&mut self, end_cap: CapPlan<L::Sc, L::Pt>, start_cap: CapPlan<L::Sc, L::Pt>)
        requires
            old(self).wf(),
        ensures
            final(self).wf(),
            !final(self).opened(),
            final(self).out().len() >= old(self).out().len(),
            final(self).out().subrange(0, old(self).out().len() as int) == old(self).out(),
            final(self).out().len() > old(self).out().len() ==> is_closed_chain(
                final(self).out().subrange(old(self).out().len() as int, final(self).out().len() as int),
            ) && final(self).out()[old(self).out().len() as int].s_start() == old(self).fw_start_pt(),
            old(self).opened() && old(self).forward().contour().prims().len() > 0 ==> final(self).out().len()
                > old(self).out().len(),
            !(old(self).opened() && (old(self).forward().contour().prims().len() > 0 || old(self).forward().in_cusp())) ==> final(self).out() == old(self).out(),
            old(self).opened() && (old(self).forward().contour().prims().len() > 0 || old(self).forward().in_cusp()) ==> exists|c1: int| {
                let o0 = old(self).out().len() as int;
                let fl = flushed_len(old(self).forward());
                let bl = flushed_len(old(self).backward());
                let total = final(self).out().len() as int;
                &&& 1 <= c1
                &&& o0 + fl + c1 + bl < total
                &&& flushed_shape(old(self).forward(), final(self).out().subrange(o0, o0 + fl))
                &&& #[trigger] cap_run_shape(
                    final(self).out().subrange(
                        old(self).out().len() as int + flushed_len(old(self).forward()),
                        old(self).out().len() as int + flushed_len(old(self).forward()) + c1,
                    ),
                    end_cap,
                    old(self).backward().outline_end(),
                )
                &&& (forall|j: int|
                    0 <= j < old(self).backward().contour().prims().len() ==> (
                    #[trigger] final(self).out()[o0 + fl + c1 + (bl - 1 - j)]).s_start() == old(self).backward().contour().prims()[j].s_end() && final(self).out()[o0 + fl + c1 + (
                    bl - 1 - j)].s_end() == old(self).backward().contour().prims()[j].s_start())
                &&& cap_run_shape(
                    final(self).out().subrange(o0 + fl + c1 + bl, total),
                    start_cap,
                    old(self).fw_start_pt(),
                )
            },
    {
        proof {
            assert(self.output@.subrange(0, self.output@.len() as int) =~= self.output@);
        }
        if self.fw_start.is_none() || self.bw_start.is_none() {
            self.fw_start = None;
            self.bw_start = None;
            return ;
        }
        if self.forward_path.is_empty() && !self.forward_path.in_cusp_now() {
            let d0 = self.forward_path.take_path();
            self.backward_path.finalize();
            let d1 = self.backward_path.take_path();
            self.fw_start = None;
            self.bw_start = None;
            return ;
        }
        let piece = self.build_open_loop(end_cap, start_cap);
        self.push_loop(&piece);
        self.fw_start = None;
        self.bw_start = None;
        proof {
            assert(final(self).out().subrange(0, old(self).out().len() as int) =~= old(self).out());
            lemma_open_loop_transfer(
                old(self).out(),
                piece,
                self.output@,
                old(self).forward(),
                old(self).backward(),
                end_cap,
                start_cap,
                old(self).fw_start_pt(),
            );
        }
    }

    /// Finish a closed subpath: the flushed forward contour is one loop,
    /// the flushed backward contour reversed is another.  The caller has
    /// already joined both contours back onto their stored start points.
    #[verifier::rlimit(100)]
    pub fn finish_closed(&mut self)
        requires
            old(self).wf(),
            old(self).opened() ==> old(self).forward().outline_end() == old(self).fw_start_pt()
                && old(self).backward().outline_end() == old(self).bw_start_pt(),
        ensures
            final(self).wf(),
            !final(self).opened(),
            final(self).out().len() >= old(self).out().len(),
            final(self).out().subrange(0, old(self).out().len() as int) == old(self).out(),
            !(old(self).opened() && (old(self).forward().contour().prims().len() > 0 || old(self).forward().in_cusp())) ==> final(self).out() == old(self).out(),
            old(self).opened() && (old(self).forward().contour().prims().len() > 0 || old(self).forward().in_cusp()) ==> {
                let o0 = old(self).out().len() as int;
                let fl = flushed_len(old(self).forward());
                let bl = flushed_len(old(self).backward());
                &&& flushed_shape(old(self).forward(), final(self).out().subrange(o0, o0 + fl))
                &&& (bl > 0 ==> final(self).out().len() == o0 + fl + bl && final(self).bounds()
                    == old(self).bounds().push(o0 + fl).push(o0 + fl + bl) && (forall|j: int|
                    0 <= j < old(self).backward().contour().prims().len() ==> (
                    #[trigger] final(self).out()[o0 + fl + (bl - 1 - j)]).s_start() == old(self).backward().contour().prims()[j].s_end() && final(self).out()[o0 + fl + (bl - 1
                        - j)].s_end() == old(self).backward().contour().prims()[j].s_start()))
                &&& (bl == 0 ==> final(self).out().len() == o0 + fl && final(self).bounds()
                    == old(self).bounds().push(o0 + fl))
            },
    {
        proof {
            assert(self.output@.subrange(0, self.output@.len() as int) =~= self.output@);
        }
        if self.fw_start.is_none() || self.bw_start.is_none() {
            self.fw_start = None;
            self.bw_start = None;
            return ;
        }
        if self.forward_path.is_empty() && !self.forward_path.in_cusp_now() {
            let d0 = self.forward_path.take_path();
            self.backward_path.finalize();
            let d1 = self.backward_path.take_path();
            self.fw_start = None;
            self.bw_start = None;
            return ;
        }
        let ghost fstart: L::Pt = self.fw_start->0;
        let ghost bstart: L::Pt = self.bw_start->0;
        self.forward_path.finalize();
        let piece = self.forward_path.take_path();
        proof {
            assert(piece.prims().len() > 0);
            assert(piece.prims()[0].s_start() == fstart);
            assert(piece.end_pt() == fstart);
            assert(piece.prims()[piece.prims().len() - 1].s_end() == fstart);
            assert(piece.prims().subrange(0, piece.prims().len() as int) =~= piece.prims());
            assert(flushed_shape(old(self).forward(), piece.prims()));
        }
        self.push_loop(&piece);
        let ghost out1 = self.output@;
        proof {
            lemma_concat_subrange(old(self).out(), piece.prims(), 0, piece.prims().len() as int);
        }
        self.backward_path.finalize();
        let bpath = self.backward_path.take_path();
        proof {
            assert(flushed_shape(old(self).backward(), bpath.prims()));
        }
        if bpath.len() > 0 {
            proof {
                assert(bpath.prims()[0].s_start() == bstart);
                assert(bpath.prims()[bpath.prims().len() - 1].s_end() == bpath.end_pt());
                assert(bpath.end_pt() == bstart);
            }
            let mut revpiece: LoweredPath<L, L::Pt> = LoweredPath::new();
            revpiece.move_to(bpath.last_point());
            let ghost rv0 = revpiece;
            revpiece.extend_rev(&bpath);
            proof {
                let n = bpath.prims().len() as int;
                assert(revpiece.prims()[0].s_start() == bpath.prims()[n - 1].s_end());
                assert(revpiece.prims()[n - 1].s_end() == bpath.prims()[0].s_start());
                assert(revpiece.prims()[revpiece.prims().len() - 1].s_end()
                    == revpiece.prims()[0].s_start());
            }
            self.push_loop(&revpiece);
            proof {
                let o0 = old(self).out().len() as int;
                let fl = flushed_len(old(self).forward());
                let bl = flushed_len(old(self).backward());
                assert(self.output@.subrange(0, out1.len() as int) =~= out1);
                assert(self.output@.subrange(o0, o0 + fl) =~= out1.subrange(o0, o0 + fl)) by {
                    lemma_window_trans(out1, self.output@, o0, o0 + fl);
                }
                assert forall|j: int|
                    0 <= j < old(self).backward().contour().prims().len() implies (
                #[trigger] self.output@[o0 + fl + (bl - 1 - j)]).s_start() == old(self).backward().contour().prims()[j].s_end() && self.output@[o0 + fl + (bl - 1
                    - j)].s_end() == old(self).backward().contour().prims()[j].s_start() by {
                    let j2 = bl - 1 - j;
                    assert(bpath.prims()[j] == bpath.prims().subrange(
                        0,
                        old(self).backward().contour().prims().len() as int,
                    )[j]);
                    assert(revpiece.prims()[rv0.prims().len() + j2].s_start() == bpath.prims()[
                        bl - 1 - j2
                    ].s_end());
                    assert(revpiece.prims()[rv0.prims().len() + j2].s_end() == bpath.prims()[bl - 1
                        - j2].s_start());
                    assert(revpiece.prims()[j2] == revpiece.prims()[rv0.prims().len() + j2]);
                    assert(self.output@[out1.len() as int + j2] == revpiece.prims()[j2]);
                }
            }
        }
        self.fw_start = None;
        self.bw_start = None;
        proof {
            assert(final(self).out().subrange(0, old(self).out().len() as int) =~= old(self).out());
        }
    }

    /// The number of output primitives.
    pub fn output_len(&self) -> (r: usize)
        ensures
            r == self.out().len(),
    {
        self.output.len()
    }

    /// Read one output primitive.
    pub fn output_get(&self, i: usize) -> (r: L)
        requires
            i < self.out().len(),
        ensures
            r == self.out()[i as int],
    {
        self.output[i]
    }

    /// Hand the finished output over.
    pub fn into_output(self) -> (r: Vec<L>)
        ensures
            r@ == self.out(),
    {
        self.output
    }

    /// Append one closed loop to the output and record its boundary.
    fn push_loop(&mut self, piece: &LoweredPath<L, L::Pt>)
        requires
            loops_wf(old(self).out(), old(self).bounds()),
            piece.chain_wf(),
            piece.prims().len() > 0,
            piece.prims()[piece.prims().len() - 1].s_end() == piece.prims()[0].s_start(),
        ensures
            loops_wf(final(self).out(), final(self).bounds()),
            final(self).out() == old(self).out() + piece.prims(),
            final(self).bounds() == old(self).bounds().push(final(self).out().len() as int),
            final(self).forward() == old(self).forward(),
            final(self).backward() == old(self).backward(),
            final(self).opened() == old(self).opened(),
            final(self).fw_start_pt() == old(self).fw_start_pt(),
            final(self).bw_start_pt() == old(self).bw_start_pt(),
    {
        let ghost base = self.output@;
        let mut i: usize = 0;
        while i < piece.len()
            invariant
                0 <= i as int <= piece.prims().len(),
                self.output@ == base + piece.prims().subrange(0, i as int),
                self.loop_bounds == old(self).loop_bounds,
                self.forward_path == old(self).forward_path,
                self.backward_path == old(self).backward_path,
                self.fw_start == old(self).fw_start,
                self.bw_start == old(self).bw_start,
            decreases piece.prims().len() - i as int,
        {
            let l = piece.get(i);
            self.output.push(l);
            proof {
                assert(self.output@ =~= base + piece.prims().subrange(0, i as int + 1));
            }
            i += 1;
        }
        proof {
            assert(piece.prims().subrange(0, piece.prims().len() as int) =~= piece.prims());
        }
        let ghost nb = self.loop_bounds@.push(self.output@.len() as int);
        self.loop_bounds = Ghost(nb);
        proof {
            lemma_loops_push(base, old(self).bounds(), piece.prims());
        }
    }
}

} // verus!
