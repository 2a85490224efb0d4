//! Traversal: matching a pattern at every position of a target tree.
use vstd::prelude::*;
use crate::matcher::{match_fragment, match_tree, MatchCtxt};
use crate::semantic::SemCtx;
use crate::subst::{subst_tree, RewriteError};
use crate::tree::{lemma_views, lemma_views_push, views, Fragment, Tree};

verus! {

/// Rewriting `t` pre-order: where `p` matches (from seed bindings `b`), the
/// position is replaced by template `r` instantiated from the match and not
/// visited further; elsewhere the node is kept and its children rewritten.
/// `None` when an instantiation fails.
pub open spec fn fold_tree(d: Seq<u64>, p: Tree, r: Tree, t: Tree, b: Map<u64, Tree>) -> Option<Tree>
    decreases t,
{
    match match_tree(d, p, t, b) {
        Some(m) => subst_tree(r, m),
        None => match t {
            Tree::Meta { .. } => Some(t),
            Tree::Node { kind, label, children } => match fold_seq(d, p, r, children, b) {
                Some(cs) => Some(Tree::Node { kind, label, children: cs }),
                None => None,
            },
        },
    }
}

/// Rewriting each element of a sequence, left to right.
pub open spec fn fold_seq(d: Seq<u64>, p: Tree, r: Tree, ts: Seq<Tree>, b: Map<u64, Tree>) -> Option<
    Seq<Tree>,
>
    decreases ts,
{
    if ts.len() == 0 {
        Some(Seq::empty())
    } else {
        let n = ts.len() - 1;
        match fold_seq(d, p, r, ts.subrange(0, n), b) {
            None => None,
            Some(s) => match fold_tree(d, p, r, ts[n], b) {
                None => None,
                Some(x) => Some(s.push(x)),
            },
        }
    }
}

/// The bindings of the first match of `p` in `t`, in pre-order.
pub open spec fn find_tree(d: Seq<u64>, p: Tree, t: Tree, b: Map<u64, Tree>) -> Option<
    Map<u64, Tree>,
>
    decreases t,
{
    match match_tree(d, p, t, b) {
        Some(m) => Some(m),
        None => match t {
            Tree::Meta { .. } => None,
            Tree::Node { children, .. } => find_seq(d, p, children, b),
        },
    }
}

/// The first match of `p` in a sequence of trees, left to right.
pub open spec fn find_seq(d: Seq<u64>, p: Tree, ts: Seq<Tree>, b: Map<u64, Tree>) -> Option<
    Map<u64, Tree>,
>
    decreases ts,
{
    if ts.len() == 0 {
        None
    } else {
        let n = ts.len() - 1;
        match find_seq(d, p, ts.subrange(0, n), b) {
            Some(m) => Some(m),
            None => find_tree(d, p, ts[n], b),
        }
    }
}

pub proof fn lemma_fold_seq_prefix_fails(
    d: Seq<u64>,
    p: Tree,
    r: Tree,
    ts: Seq<Tree>,
    b: Map<u64, Tree>,
    i: int,
)
    requires
        0 <= i <= ts.len(),
        fold_seq(d, p, r, ts.subrange(0, i), b) is None,
    ensures
        fold_seq(d, p, r, ts, b) is None,
    decreases ts.len() - i,
{
    if i < ts.len() {
        assert(ts.subrange(0, i + 1).subrange(0, i) =~= ts.subrange(0, i));
        lemma_fold_seq_prefix_fails(d, p, r, ts, b, i + 1);
    } else {
        assert(ts.subrange(0, i) =~= ts);
    }
}

pub proof fn lemma_find_seq_prefix_found(
    d: Seq<u64>,
    p: Tree,
    ts: Seq<Tree>,
    b: Map<u64, Tree>,
    i: int,
)
    requires
        0 <= i <= ts.len(),
        find_seq(d, p, ts.subrange(0, i), b) is Some,
    ensures
        find_seq(d, p, ts, b) == find_seq(d, p, ts.subrange(0, i), b),
    decreases ts.len() - i,
{
    if i < ts.len() {
        assert(ts.subrange(0, i + 1).subrange(0, i) =~= ts.subrange(0, i));
        lemma_find_seq_prefix_found(d, p, ts, b, i + 1);
    } else {
        assert(ts.subrange(0, i) =~= ts);
    }
}

/// Rewrites `target`: every position where `pattern` matches, tried with the
/// session's bindings as seed, is replaced by `template` instantiated from
/// that match. A replaced position is not searched again.
#[verifier::loop_isolation(false)]
pub fn fold_match_with(init_mcx: &MatchCtxt, pattern: &Fragment, target: &Fragment, template: &Fragment) -> (r: Result<
    Fragment,
    RewriteError,
>)
    ensures
        match r {
            Ok(f) => fold_tree(init_mcx.sem@, pattern@, template@, target@, init_mcx.bindings@)
                == Some(f@),
            Err(e) => fold_tree(init_mcx.sem@, pattern@, template@, target@, init_mcx.bindings@) is None
                && e is UnboundVariable,
        },
    decreases target,
{
    let seed = init_mcx.bindings.copy();
    match match_fragment(&init_mcx.sem, pattern, target, seed) {
        Some(m) => {
            return template.subst(&m);
        },
        None => {},
    }
    match target {
        Fragment::Meta { name, kind } => Ok(Fragment::Meta { name: *name, kind: *kind }),
        Fragment::Node { kind, label, children } => {
            proof {
                lemma_views(children@);
            }
            let ghost ts = target@->children;
            let mut out: Vec<Fragment> = Vec::new();
            let mut i: usize = 0;
            assert(ts.subrange(0, 0) =~= Seq::<Tree>::empty());
            while i < children.len()
                invariant
                    0 <= i <= children.len(),
                    fold_seq(init_mcx.sem@, pattern@, template@, ts.subrange(0, i as int), init_mcx.bindings@)
                        == Some(views(out@)),
                decreases children.len() - i,
            {
                proof {
                    assert(decreases_to!(*target => (*target)->children));
                    assert(ts.subrange(0, i + 1).subrange(0, i as int) =~= ts.subrange(0, i as int));
                    assert(ts.subrange(0, i + 1)[i as int] == ts[i as int]);
                }
                match fold_match_with(init_mcx, pattern, &children[i], template) {
                    Ok(f) => {
                        proof {
                            lemma_views_push(out@, f);
                        }
                        out.push(f);
                    },
                    Err(e) => {
                        proof {
                            lemma_fold_seq_prefix_fails(
                                init_mcx.sem@,
                                pattern@,
                                template@,
                                ts,
                                init_mcx.bindings@,
                                i + 1,
                            );
                        }
                        return Err(e);
                    },
                }
                i = i + 1;
            }
            assert(ts.subrange(0, ts.len() as int) =~= ts);
            Ok(Fragment::Node { kind: *kind, label: *label, children: out })
        },
    }
}

/// Rewrites `target` as `fold_match_with` does, each position tried with
/// fresh bindings.
pub fn fold_match(sem: &SemCtx, pattern: &Fragment, target: &Fragment, template: &Fragment) -> (r: Result<
    Fragment,
    RewriteError,
>)
    ensures
        match r {
            Ok(f) => fold_tree(sem@, pattern@, template@, target@, Map::empty()) == Some(f@),
            Err(e) => fold_tree(sem@, pattern@, template@, target@, Map::empty()) is None
                && e is UnboundVariable,
        },
{
    let mcx = MatchCtxt::new(sem.copy());
    fold_match_with(&mcx, pattern, target, template)
}

} // verus!
