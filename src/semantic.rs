//! The semantic context: which definition each label denotes.
use vstd::prelude::*;
use crate::tree::{equiv, equiv_seq, lemma_equiv_seq, lemma_views, resolve, Fragment};

verus! {

/// A resolution table, passed explicitly to every matching operation.
/// Label `l` denotes definition `defs[l]` when `l` is an index of the table,
/// and itself otherwise; two labels are the same when they denote the same
/// definition, however they are spelled.
pub struct SemCtx {
    pub defs: Vec<u64>,
}

impl View for SemCtx {
    type V = Seq<u64>;

    open spec fn view(&self) -> Seq<u64> {
        self.defs@
    }
}

impl SemCtx {
    /// A context in which every label denotes only itself.
    pub fn new() -> (r: SemCtx)
        ensures
            r@ == Seq::<u64>::empty(),
    {
        SemCtx { defs: Vec::new() }
    }

    /// A context with the given resolution table.
    pub fn with_defs(defs: Vec<u64>) -> (r: SemCtx)
        ensures
            r@ == defs@,
    {
        SemCtx { defs }
    }

    /// A copy of this context.
    pub fn copy(&self) -> (r: SemCtx)
        ensures
            r@ == self@,
    {
        let mut defs: Vec<u64> = Vec::new();
        let mut i: usize = 0;
        while i < self.defs.len()
            invariant
                0 <= i <= self.defs.len(),
                defs@ == self.defs@.subrange(0, i as int),
            decreases self.defs.len() - i,
        {
            defs.push(self.defs[i]);
            i = i + 1;
        }
        assert(self.defs@.subrange(0, self.defs.len() as int) =~= self.defs@);
        SemCtx { defs }
    }

    /// The definition that label `l` denotes.
    pub fn resolve(&self, l: u64) -> (r: u64)
        ensures
            r == resolve(self@, l),
    {
        if l < self.defs.len() as u64 {
            self.defs[l as usize]
        } else {
            l
        }
    }

    /// Whether two fragments are equivalent under this context.
    pub fn equiv(&self, a: &Fragment, b: &Fragment) -> (r: bool)
        ensures
            r == equiv(self@, a@, b@),
        decreases a,
    {
        match a {
            Fragment::Meta { name, kind } => match b {
                Fragment::Meta { name: n2, kind: k2 } => *name == *n2 && *kind == *k2,
                Fragment::Node { .. } => false,
            },
            Fragment::Node { kind, label, children } => match b {
                Fragment::Meta { .. } => false,
                Fragment::Node { kind: k2, label: l2, children: c2 } => {
                    if *kind != *k2 || self.resolve(*label) != self.resolve(*l2) || children.len()
                        != c2.len() {
                        proof {
                            lemma_views(children@);
                            lemma_views(c2@);
                        }
                        return false;
                    }
                    proof {
                        lemma_views(children@);
                        lemma_views(c2@);
                        lemma_equiv_seq(self@, a@->children, b@->children);
                    }
                    let mut i: usize = 0;
                    while i < children.len()
                        invariant
                            0 <= i <= children.len(),
                            children.len() == c2.len(),
                            *a == (Fragment::Node { kind: *kind, label: *label, children: *children }),
                            *b == (Fragment::Node { kind: *k2, label: *l2, children: *c2 }),
                            a@->children.len() == children.len(),
                            b@->children.len() == c2.len(),
                            forall|j: int| 0 <= j < children.len() ==> #[trigger] a@->children[j] == children[j]@,
                            forall|j: int| 0 <= j < c2.len() ==> #[trigger] b@->children[j] == c2[j]@,
                            forall|j: int| 0 <= j < i ==> equiv(self@, #[trigger] a@->children[j], b@->children[j]),
                        decreases children.len() - i,
                    {
                        proof {
                            assert(decreases_to!(*a => (*a)->children));
                        }
                        if !self.equiv(&children[i], &c2[i]) {
                            proof {
                                lemma_equiv_seq(self@, a@->children, b@->children);
                                assert(!equiv(self@, a@->children[i as int], b@->children[i as int]));
                                assert(!equiv_seq(self@, a@->children, b@->children));
                            }
                            return false;
                        }
                        i = i + 1;
                    }
                    proof {
                        lemma_equiv_seq(self@, a@->children, b@->children);
                    }
                    true
                },
            },
        }
    }
}

} // verus!
