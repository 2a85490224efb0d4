//! Unification of a pattern fragment against a candidate fragment.
use vstd::prelude::*;
use crate::bindings::Bindings;
use crate::semantic::SemCtx;
use crate::tree::{equiv, kind_of, lemma_views, resolve, Fragment, Tree};

verus! {

/// The bindings that result from matching pattern `p` against candidate `c`
/// starting from bindings `b`, or `None` when the match fails.
pub open spec fn match_tree(d: Seq<u64>, p: Tree, c: Tree, b: Map<u64, Tree>) -> Option<
    Map<u64, Tree>,
>
    decreases p,
{
    match p {
        Tree::Meta { name, kind } => {
            if kind_of(c) != kind {
                None
            } else if b.contains_key(name) {
                if equiv(d, b[name], c) {
                    Some(b)
                } else {
                    None
                }
            } else {
                Some(b.insert(name, c))
            }
        },
        Tree::Node { kind, label, children } => match c {
            Tree::Meta { .. } => None,
            Tree::Node { kind: k2, label: l2, children: c2 } => {
                if kind == k2 && resolve(d, label) == resolve(d, l2) && children.len()
                    == c2.len() {
                    match_seq(d, children, c2, b)
                } else {
                    None
                }
            },
        },
    }
}

/// Matching two sequences of the same length pairwise, left to right,
/// threading the bindings through.
pub open spec fn match_seq(d: Seq<u64>, ps: Seq<Tree>, cs: Seq<Tree>, b: Map<u64, Tree>) -> Option<
    Map<u64, Tree>,
>
    decreases ps,
{
    if ps.len() == 0 {
        Some(b)
    } else {
        let n = ps.len() - 1;
        match match_seq(d, ps.subrange(0, n), cs.subrange(0, n), b) {
            None => None,
            Some(b1) => match_tree(d, ps[n], cs[n], b1),
        }
    }
}

/// The model of an optional bindings store.
pub open spec fn opt_view(r: Option<Bindings>) -> Option<Map<u64, Tree>> {
    match r {
        Some(x) => Some(x@),
        None => None,
    }
}

/// Once a prefix fails to match, the whole sequence fails.
pub proof fn lemma_match_seq_prefix_fails(
    d: Seq<u64>,
    ps: Seq<Tree>,
    cs: Seq<Tree>,
    b: Map<u64, Tree>,
    i: int,
)
    requires
        0 <= i <= ps.len(),
        ps.len() == cs.len(),
        match_seq(d, ps.subrange(0, i), cs.subrange(0, i), b) is None,
    ensures
        match_seq(d, ps, cs, b) is None,
    decreases ps.len() - i,
{
    if i < ps.len() {
        let n = i + 1;
        assert(ps.subrange(0, n).subrange(0, i) =~= ps.subrange(0, i));
        assert(cs.subrange(0, n).subrange(0, i) =~= cs.subrange(0, i));
        lemma_match_seq_prefix_fails(d, ps, cs, b, n);
    } else {
        assert(ps.subrange(0, i) =~= ps);
        assert(cs.subrange(0, i) =~= cs);
    }
}

/// Matches pattern `p` against candidate `c`, extending `b`.
#[verifier::loop_isolation(false)]
pub fn match_fragment(sem: &SemCtx, p: &Fragment, c: &Fragment, b: Bindings) -> (r: Option<
    Bindings,
>)
    ensures
        opt_view(r) == match_tree(sem@, p@, c@, b@),
    decreases p,
{
    match p {
        Fragment::Meta { name, kind } => {
            if c.kind() != *kind {
                return None;
            }
            let bound = match b.get(*name) {
                Some(prev) => Some(sem.equiv(prev, c)),
                None => None,
            };
            match bound {
                Some(same) => {
                    if same {
                        Some(b)
                    } else {
                        None
                    }
                },
                None => {
                    let mut b = b;
                    b.bind(*name, c.copy());
                    Some(b)
                },
            }
        },
        Fragment::Node { kind, label, children } => match c {
            Fragment::Meta { .. } => None,
            Fragment::Node { kind: k2, label: l2, children: c2 } => {
                proof {
                    lemma_views(children@);
                    lemma_views(c2@);
                }
                if *kind != *k2 || sem.resolve(*label) != sem.resolve(*l2) || children.len()
                    != c2.len() {
                    return None;
                }
                let ghost ps = p@->children;
                let ghost cs = c@->children;
                let ghost b0 = b@;
                let mut cur = b;
                let mut i: usize = 0;
                assert(ps.subrange(0, 0) =~= Seq::<Tree>::empty());
                assert(match_tree(sem@, p@, c@, b0) == match_seq(sem@, ps, cs, b0));
                while i < children.len()
                    invariant
                        0 <= i <= children.len(),
                        children.len() == c2.len(),
                        *p == (Fragment::Node { kind: *kind, label: *label, children: *children }),
                        ps.len() == children.len(),
                        cs.len() == c2.len(),
                        match_tree(sem@, p@, c@, b0) == match_seq(sem@, ps, cs, b0),
                        forall|j: int| 0 <= j < children.len() ==> #[trigger] ps[j] == children[j]@,
                        forall|j: int| 0 <= j < c2.len() ==> #[trigger] cs[j] == c2[j]@,
                        match_seq(sem@, ps.subrange(0, i as int), cs.subrange(0, i as int), b0)
                            == Some(cur@),
                    decreases children.len() - i,
                {
                    proof {
                        assert(decreases_to!(*p => (*p)->children));
                        let n = i + 1;
                        assert(ps.subrange(0, n).subrange(0, i as int) =~= ps.subrange(0, i as int));
                        assert(cs.subrange(0, n).subrange(0, i as int) =~= cs.subrange(0, i as int));
                        assert(ps.subrange(0, n)[i as int] == ps[i as int]);
                        assert(cs.subrange(0, n)[i as int] == cs[i as int]);
                    }
                    let ghost curv = cur@;
                    match match_fragment(sem, &children[i], &c2[i], cur) {
                        None => {
                            proof {
                                let n = i + 1;
                                assert(match_tree(sem@, ps[i as int], cs[i as int], curv) is None);
                                assert(match_seq(sem@, ps.subrange(0, n as int), cs.subrange(0, n as int), b0) is None);
                                lemma_match_seq_prefix_fails(sem@, ps, cs, b0, i + 1);
                                assert(match_seq(sem@, ps, cs, b0) is None);
                                assert(match_tree(sem@, p@, c@, b0) is None);
                            }
                            return None;
                        },
                        Some(next) => {
                            cur = next;
                        },
                    }
                    i = i + 1;
                }
                assert(ps.subrange(0, ps.len() as int) =~= ps);
                assert(cs.subrange(0, cs.len() as int) =~= cs);
                Some(cur)
            },
        },
    }
}

/// A matching session: the semantic context and the bindings gathered so far.
pub struct MatchCtxt {
    pub sem: SemCtx,
    pub bindings: Bindings,
}

impl MatchCtxt {
    /// A session with no bindings.
    pub fn new(sem: SemCtx) -> (r: MatchCtxt)
        ensures
            r.sem@ == sem@,
            r.bindings@ == Map::<u64, Tree>::empty(),
    {
        MatchCtxt { sem, bindings: Bindings::new() }
    }

    /// A session seeded with bindings from an enclosing match.
    pub fn with_bindings(sem: SemCtx, bindings: Bindings) -> (r: MatchCtxt)
        ensures
            r.sem@ == sem@,
            r.bindings@ == bindings@,
    {
        MatchCtxt { sem, bindings }
    }

    /// Matches `p` against `c`. On success the bindings are extended and
    /// `true` is returned; on failure they are left as they were.
    pub fn try_match(&mut self, p: &Fragment, c: &Fragment) -> (r: bool)
        ensures
            final(self).sem@ == old(self).sem@,
            r == match_tree(old(self).sem@, p@, c@, old(self).bindings@) is Some,
            r ==> final(self).bindings@ == match_tree(old(self).sem@, p@, c@, old(self).bindings@)->0,
            !r ==> final(self).bindings@ == old(self).bindings@,
    {
        let start = self.bindings.copy();
        match match_fragment(&self.sem, p, c, start) {
            Some(b) => {
                self.bindings = b;
                true
            },
            None => false,
        }
    }
}

} // verus!
