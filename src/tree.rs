//! Fragments: kind-tagged syntax trees, with their mathematical model.
use vstd::prelude::*;

verus! {

/// The syntactic category of a fragment.
#[derive(Clone, Copy, Debug, PartialEq, Eq, Structural)]
pub enum Kind {
    Expr,
    Stmt,
    Ty,
    Pat,
    Item,
}

/// The mathematical model of a fragment.
pub enum Tree {
    Meta { name: u64, kind: Kind },
    Node { kind: Kind, label: u64, children: Seq<Tree> },
}

/// An owned syntax fragment. `Meta` is a metavariable that may capture any
/// fragment of its kind; `Node` is an ordinary node whose `label` names its
/// constructor or the definition it refers to.
#[derive(Debug, PartialEq, Eq)]
pub enum Fragment {
    Meta { name: u64, kind: Kind },
    Node { kind: Kind, label: u64, children: Vec<Fragment> },
}

pub open spec fn kind_of(t: Tree) -> Kind {
    match t {
        Tree::Meta { kind, .. } => kind,
        Tree::Node { kind, .. } => kind,
    }
}

/// The models of a sequence of fragments, element by element.
pub open spec fn views(s: Seq<Fragment>) -> Seq<Tree>
    decreases s,
{
    if s.len() == 0 {
        Seq::empty()
    } else {
        views(s.subrange(0, s.len() - 1)).push(s[s.len() - 1].view())
    }
}

impl View for Fragment {
    type V = Tree;

    open spec fn view(&self) -> Tree
        decreases self,
    {
        match self {
            Fragment::Meta { name, kind } => Tree::Meta { name: *name, kind: *kind },
            Fragment::Node { kind, label, children } => Tree::Node {
                kind: *kind,
                label: *label,
                children: views(children@),
            },
        }
    }
}


/// Where label `l` points in the resolution table `d`: the definition it
/// denotes. A label outside the table denotes itself.
pub open spec fn resolve(d: Seq<u64>, l: u64) -> u64 {
    if (l as int) < d.len() {
        d[l as int]
    } else {
        l
    }
}

/// Two trees are equivalent when they have the same shape and kinds, and
/// corresponding labels denote the same definition.
pub open spec fn equiv(d: Seq<u64>, a: Tree, b: Tree) -> bool
    decreases a,
{
    match a {
        Tree::Meta { .. } => a == b,
        Tree::Node { kind, label, children } => match b {
            Tree::Meta { .. } => false,
            Tree::Node { kind: k2, label: l2, children: c2 } => kind == k2 && resolve(d, label)
                == resolve(d, l2) && equiv_seq(d, children, c2),
        },
    }
}

/// Pairwise equivalence of two sequences of trees of the same length.
pub open spec fn equiv_seq(d: Seq<u64>, a: Seq<Tree>, b: Seq<Tree>) -> bool
    decreases a,
{
    a.len() == b.len() && (a.len() == 0 || (equiv_seq(
        d,
        a.subrange(0, a.len() - 1),
        b.subrange(0, b.len() - 1),
    ) && equiv(d, a[a.len() - 1], b[b.len() - 1])))
}

pub proof fn lemma_views(s: Seq<Fragment>)
    ensures
        views(s).len() == s.len(),
        forall|j: int| 0 <= j < s.len() ==> #[trigger] views(s)[j] == s[j]@,
    decreases s.len(),
{
    if s.len() > 0 {
        let t = s.subrange(0, s.len() - 1);
        lemma_views(t);
        assert(views(s) == views(t).push(s[s.len() - 1]@));
        assert forall|j: int| 0 <= j < s.len() implies #[trigger] views(s)[j] == s[j]@ by {
            if j < t.len() {
                assert(t[j] == s[j]);
            }
        }
    }
}

pub proof fn lemma_views_push(s: Seq<Fragment>, f: Fragment)
    ensures
        views(s.push(f)) == views(s).push(f@),
{
    assert(s.push(f).subrange(0, s.len() as int) =~= s);
}

pub proof fn lemma_equiv_seq(d: Seq<u64>, a: Seq<Tree>, b: Seq<Tree>)
    ensures
        equiv_seq(d, a, b) <==> (a.len() == b.len() && forall|j: int|
            0 <= j < a.len() ==> #[trigger] equiv(d, a[j], b[j])),
    decreases a.len(),
{
    if a.len() > 0 && a.len() == b.len() {
        let n = a.len() - 1;
        lemma_equiv_seq(d, a.subrange(0, n), b.subrange(0, n));
        if equiv_seq(d, a, b) {
            assert forall|j: int| 0 <= j < a.len() implies #[trigger] equiv(d, a[j], b[j]) by {
                if j < n {
                    assert(a.subrange(0, n)[j] == a[j]);
                    assert(b.subrange(0, n)[j] == b[j]);
                }
            }
        }
        if forall|j: int| 0 <= j < a.len() ==> #[trigger] equiv(d, a[j], b[j]) {
            assert forall|j: int| 0 <= j < n implies #[trigger] equiv(
                d,
                a.subrange(0, n)[j],
                b.subrange(0, n)[j],
            ) by {
                assert(equiv(d, a[j], b[j]));
            }
            assert(equiv(d, a[n], b[n]));
            assert(equiv_seq(d, a.subrange(0, n), b.subrange(0, n)));
            assert(equiv_seq(d, a, b));
        }
    }
}

impl Fragment {
    /// The kind of this fragment.
    pub fn kind(&self) -> (r: Kind)
        ensures
            r == kind_of(self@),
    {
        match self {
            Fragment::Meta { kind, .. } => *kind,
            Fragment::Node { kind, .. } => *kind,
        }
    }

    /// A deep copy that owns its own nodes.
    pub fn copy(&self) -> (r: Fragment)
        ensures
            r@ == self@,
        decreases self,
    {
        match self {
            Fragment::Meta { name, kind } => Fragment::Meta { name: *name, kind: *kind },
            Fragment::Node { kind, label, children } => {
                let mut out: Vec<Fragment> = Vec::new();
                let mut i: usize = 0;
                while i < children.len()
                    invariant
                        0 <= i <= children.len(),
                        *self == (Fragment::Node { kind: *kind, label: *label, children: *children }),
                        views(out@) == views(children@.subrange(0, i as int)),
                    decreases children.len() - i,
                {
                    proof {
                        assert(decreases_to!(*self => (*self)->children));
                        assert(decreases_to!(*children => children[i as int]));
                    }
                    let c = children[i].copy();
                    proof {
                        lemma_views_push(out@, c);
                        assert(children@.subrange(0, i + 1).subrange(0, i as int)
                            =~= children@.subrange(0, i as int));
                    }
                    out.push(c);
                    i = i + 1;
                }
                assert(children@.subrange(0, children.len() as int) =~= children@);
                Fragment::Node { kind: *kind, label: *label, children: out }
            },
        }
    }
}

} // verus!
