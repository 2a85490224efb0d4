//! Instantiating a template fragment from a bindings store.
use vstd::prelude::*;
use crate::bindings::Bindings;
use crate::tree::{lemma_views, lemma_views_push, views, Fragment, Tree};

verus! {

/// Why a rewrite produced no tree.
#[derive(Clone, Copy, Debug, PartialEq, Eq, Structural)]
pub enum RewriteError {
    /// The template names a metavariable that the bindings lack.
    UnboundVariable(u64),
    /// A pattern or a replacement is not of the kind the operation rewrites.
    WrongKind,
    /// A statement-sequence pattern holds no statement.
    EmptyPattern,
}

/// Template `t` with every metavariable replaced by its binding in `b`, or
/// `None` when some metavariable of `t` is unbound.
pub open spec fn subst_tree(t: Tree, b: Map<u64, Tree>) -> Option<Tree>
    decreases t,
{
    match t {
        Tree::Meta { name, .. } => if b.contains_key(name) {
            Some(b[name])
        } else {
            None
        },
        Tree::Node { kind, label, children } => match subst_seq(children, b) {
            Some(cs) => Some(Tree::Node { kind, label, children: cs }),
            None => None,
        },
    }
}

/// Substitution into each element of a sequence.
pub open spec fn subst_seq(ts: Seq<Tree>, b: Map<u64, Tree>) -> Option<Seq<Tree>>
    decreases ts,
{
    if ts.len() == 0 {
        Some(Seq::empty())
    } else {
        let n = ts.len() - 1;
        match subst_seq(ts.subrange(0, n), b) {
            None => None,
            Some(s) => match subst_tree(ts[n], b) {
                None => None,
                Some(x) => Some(s.push(x)),
            },
        }
    }
}

pub proof fn lemma_subst_seq_prefix_fails(ts: Seq<Tree>, b: Map<u64, Tree>, i: int)
    requires
        0 <= i <= ts.len(),
        subst_seq(ts.subrange(0, i), b) is None,
    ensures
        subst_seq(ts, b) is None,
    decreases ts.len() - i,
{
    if i < ts.len() {
        assert(ts.subrange(0, i + 1).subrange(0, i) =~= ts.subrange(0, i));
        lemma_subst_seq_prefix_fails(ts, b, i + 1);
    } else {
        assert(ts.subrange(0, i) =~= ts);
    }
}

impl Fragment {
    /// This template with each metavariable replaced by a deep copy of its
    /// binding. Fails on the first unbound metavariable, with its name.
    #[verifier::loop_isolation(false)]
    pub fn subst(&self, b: &Bindings) -> (r: Result<Fragment, RewriteError>)
        ensures
            match r {
                Ok(f) => subst_tree(self@, b@) == Some(f@),
                Err(e) => subst_tree(self@, b@) is None && (e matches RewriteError::UnboundVariable(
                    n,
                ) && !b@.contains_key(n)),
            },
        decreases self,
    {
        match self {
            Fragment::Meta { name, .. } => match b.get(*name) {
                Some(f) => Ok(f.copy()),
                None => Err(RewriteError::UnboundVariable(*name)),
            },
            Fragment::Node { kind, label, children } => {
                proof {
                    lemma_views(children@);
                }
                let ghost ts = self@->children;
                let mut out: Vec<Fragment> = Vec::new();
                let mut i: usize = 0;
                assert(ts.subrange(0, 0) =~= Seq::<Tree>::empty());
                while i < children.len()
                    invariant
                        0 <= i <= children.len(),
                        subst_seq(ts.subrange(0, i as int), b@) == Some(views(out@)),
                    decreases children.len() - i,
                {
                    proof {
                        assert(decreases_to!(*self => (*self)->children));
                        assert(ts.subrange(0, i + 1).subrange(0, i as int) =~= ts.subrange(0, i as int));
                        assert(ts.subrange(0, i + 1)[i as int] == ts[i as int]);
                    }
                    match children[i].subst(b) {
                        Ok(f) => {
                            proof {
                                lemma_views_push(out@, f);
                            }
                            out.push(f);
                        },
                        Err(e) => {
                            proof {
                                lemma_subst_seq_prefix_fails(ts, b@, i + 1);
                            }
                            return Err(e);
                        },
                    }
                    i = i + 1;
                }
                assert(ts.subrange(0, ts.len() as int) =~= ts);
                Ok(Fragment::Node { kind: *kind, label: *label, children: out })
            },
        }
    }
}

} // verus!
