//! Laws of matching, substitution and rewriting.
use vstd::prelude::*;
use crate::driver::{find_seq, find_tree, fold_seq, fold_tree};
use crate::matcher::{match_seq, match_tree};
use crate::subst::{subst_seq, subst_tree};
use crate::tree::{equiv, equiv_seq, kind_of, Kind, Tree};

verus! {

/// Whether metavariable `z` occurs in `t`.
pub open spec fn occurs(t: Tree, z: u64) -> bool
    decreases t,
{
    match t {
        Tree::Meta { name, .. } => name == z,
        Tree::Node { children, .. } => occurs_seq(children, z),
    }
}

/// Whether metavariable `z` occurs in some element of `ts`.
pub open spec fn occurs_seq(ts: Seq<Tree>, z: u64) -> bool
    decreases ts,
{
    ts.len() > 0 && (occurs_seq(ts.subrange(0, ts.len() - 1), z) || occurs(ts[ts.len() - 1], z))
}

/// Every tree is equivalent to itself.
pub proof fn lemma_equiv_refl(d: Seq<u64>, t: Tree)
    ensures
        equiv(d, t, t),
    decreases t,
{
    if let Tree::Node { children, .. } = t {
        lemma_equiv_seq_refl(d, children);
    }
}

pub proof fn lemma_equiv_seq_refl(d: Seq<u64>, ts: Seq<Tree>)
    ensures
        equiv_seq(d, ts, ts),
    decreases ts,
{
    if ts.len() > 0 {
        lemma_equiv_seq_refl(d, ts.subrange(0, ts.len() - 1));
        lemma_equiv_refl(d, ts[ts.len() - 1]);
    }
}

proof fn lemma_submap_trans(a: Map<u64, Tree>, b: Map<u64, Tree>, c: Map<u64, Tree>)
    requires
        a.submap_of(b),
        b.submap_of(c),
    ensures
        a.submap_of(c),
{
    assert forall|k: u64| #[trigger] a.contains_key(k) implies c.contains_key(k) && c[k] == a[k] by {
        assert(b.contains_key(k));
    }
}

/// A successful match only adds bindings, and instantiating the pattern from
/// any extension of its result gives a tree equivalent to the candidate.
pub proof fn lemma_match_subst(d: Seq<u64>, p: Tree, c: Tree, b0: Map<u64, Tree>, b2: Map<u64, Tree>)
    requires
        match_tree(d, p, c, b0) is Some,
        match_tree(d, p, c, b0)->0.submap_of(b2),
    ensures
        b0.submap_of(match_tree(d, p, c, b0)->0),
        subst_tree(p, b2) is Some,
        equiv(d, subst_tree(p, b2)->0, c),
    decreases p,
{
    match p {
        Tree::Meta { name, .. } => {
            let m = match_tree(d, p, c, b0)->0;
            if !b0.contains_key(name) {
                lemma_equiv_refl(d, c);
                assert(m == b0.insert(name, c));
            } else {
                assert(m == b0);
            }
            assert(m.contains_key(name));
            assert(b2.contains_key(name) && b2[name] == m[name]);
        },
        Tree::Node { kind, label, children } => {
            let c2 = c->children;
            lemma_match_seq_subst(d, children, c2, b0, b2);
        },
    }
}

pub proof fn lemma_match_seq_subst(
    d: Seq<u64>,
    ps: Seq<Tree>,
    cs: Seq<Tree>,
    b0: Map<u64, Tree>,
    b2: Map<u64, Tree>,
)
    requires
        ps.len() == cs.len(),
        match_seq(d, ps, cs, b0) is Some,
        match_seq(d, ps, cs, b0)->0.submap_of(b2),
    ensures
        b0.submap_of(match_seq(d, ps, cs, b0)->0),
        subst_seq(ps, b2) is Some,
        equiv_seq(d, subst_seq(ps, b2)->0, cs),
    decreases ps,
{
    if ps.len() > 0 {
        let n = ps.len() - 1;
        let pre = ps.subrange(0, n);
        let cpre = cs.subrange(0, n);
        let b1 = match_seq(d, pre, cpre, b0)->0;
        let b = match_tree(d, ps[n], cs[n], b1)->0;
        lemma_match_subst(d, ps[n], cs[n], b1, b2);
        lemma_submap_trans(b1, b, b2);
        lemma_match_seq_subst(d, pre, cpre, b0, b2);
        lemma_submap_trans(b0, b1, b);
        let rs = subst_seq(pre, b2)->0;
        let x = subst_tree(ps[n], b2)->0;
        assert(rs.push(x).subrange(0, n) =~= rs);
        assert(subst_seq(ps, b2) == Some(rs.push(x)));
    } else {
        assert(subst_seq(ps, b2) == Some(Seq::<Tree>::empty()));
    }
}

/// Rewriting with a template identical to the pattern leaves every target
/// unchanged, up to equivalence: each rewritten position is equivalent to
/// what stood there.
pub proof fn law_no_op_rewrite(d: Seq<u64>, p: Tree, t: Tree)
    ensures
        fold_tree(d, p, p, t, Map::empty()) is Some,
        equiv(d, fold_tree(d, p, p, t, Map::empty())->0, t),
    decreases t,
{
    match match_tree(d, p, t, Map::empty()) {
        Some(m) => {
            lemma_match_subst(d, p, t, Map::empty(), m);
        },
        None => match t {
            Tree::Meta { .. } => {
                lemma_equiv_refl(d, t);
            },
            Tree::Node { kind, label, children } => {
                lemma_no_op_rewrite_seq(d, p, children);
            },
        },
    }
}

pub proof fn lemma_no_op_rewrite_seq(d: Seq<u64>, p: Tree, ts: Seq<Tree>)
    ensures
        fold_seq(d, p, p, ts, Map::empty()) is Some,
        equiv_seq(d, fold_seq(d, p, p, ts, Map::empty())->0, ts),
    decreases ts,
{
    if ts.len() > 0 {
        let n = ts.len() - 1;
        lemma_no_op_rewrite_seq(d, p, ts.subrange(0, n));
        law_no_op_rewrite(d, p, ts[n]);
        let rs = fold_seq(d, p, p, ts.subrange(0, n), Map::empty())->0;
        let x = fold_tree(d, p, p, ts[n], Map::empty())->0;
        assert(rs.push(x).subrange(0, n) =~= rs);
    }
}

/// Under a context where every label denotes only itself, equivalent trees
/// are equal.
pub proof fn lemma_equiv_plain_eq(a: Tree, b: Tree)
    requires
        equiv(Seq::empty(), a, b),
    ensures
        a == b,
    decreases a,
{
    if let Tree::Node { kind, label, children } = a {
        let c2 = b->children;
        lemma_equiv_seq_plain_eq(children, c2);
    }
}

pub proof fn lemma_equiv_seq_plain_eq(a: Seq<Tree>, b: Seq<Tree>)
    requires
        equiv_seq(Seq::empty(), a, b),
    ensures
        a == b,
    decreases a,
{
    if a.len() > 0 {
        let n = a.len() - 1;
        lemma_equiv_seq_plain_eq(a.subrange(0, n), b.subrange(0, n));
        lemma_equiv_plain_eq(a[n], b[n]);
        assert(a =~= a.subrange(0, n).push(a[n]));
        assert(b =~= b.subrange(0, n).push(b[n]));
    } else {
        assert(a =~= b);
    }
}

/// Where every label denotes only itself, rewriting with a template
/// identical to the pattern returns the target exactly.
pub proof fn law_no_op_rewrite_plain(p: Tree, t: Tree)
    ensures
        fold_tree(Seq::empty(), p, p, t, Map::empty()) == Some(t),
{
    law_no_op_rewrite(Seq::empty(), p, t);
    lemma_equiv_plain_eq(fold_tree(Seq::empty(), p, p, t, Map::empty())->0, t);
}

/// Rewriting a bare metavariable to itself is the identity on every target.
pub proof fn law_round_trip(d: Seq<u64>, x: u64, k: Kind, t: Tree)
    ensures
        fold_tree(d, Tree::Meta { name: x, kind: k }, Tree::Meta { name: x, kind: k }, t, Map::empty())
            == Some(t),
    decreases t,
{
    let p = Tree::Meta { name: x, kind: k };
    if kind_of(t) == k {
        assert(Map::<u64, Tree>::empty().insert(x, t).contains_key(x));
    } else if let Tree::Node { kind, label, children } = t {
        lemma_round_trip_seq(d, x, k, children);
    }
}

pub proof fn lemma_round_trip_seq(d: Seq<u64>, x: u64, k: Kind, ts: Seq<Tree>)
    ensures
        fold_seq(d, Tree::Meta { name: x, kind: k }, Tree::Meta { name: x, kind: k }, ts, Map::empty())
            == Some(ts),
    decreases ts,
{
    if ts.len() > 0 {
        let n = ts.len() - 1;
        lemma_round_trip_seq(d, x, k, ts.subrange(0, n));
        law_round_trip(d, x, k, ts[n]);
        assert(ts.subrange(0, n).push(ts[n]) =~= ts);
    }
}

/// Where the pattern matches nowhere in the target, rewriting returns the
/// target unchanged, whatever the template.
pub proof fn law_no_match_no_op(d: Seq<u64>, p: Tree, r: Tree, t: Tree)
    requires
        find_tree(d, p, t, Map::empty()) is None,
    ensures
        fold_tree(d, p, r, t, Map::empty()) == Some(t),
    decreases t,
{
    if let Tree::Node { kind, label, children } = t {
        lemma_no_match_no_op_seq(d, p, r, children);
    }
}

pub proof fn lemma_no_match_no_op_seq(d: Seq<u64>, p: Tree, r: Tree, ts: Seq<Tree>)
    requires
        find_seq(d, p, ts, Map::empty()) is None,
    ensures
        fold_seq(d, p, r, ts, Map::empty()) == Some(ts),
    decreases ts,
{
    if ts.len() > 0 {
        let n = ts.len() - 1;
        lemma_no_match_no_op_seq(d, p, r, ts.subrange(0, n));
        law_no_match_no_op(d, p, r, ts[n]);
        assert(ts.subrange(0, n).push(ts[n]) =~= ts);
    }
}

/// Instantiating a template in which an unbound metavariable occurs fails.
pub proof fn law_unbound_fails(t: Tree, b: Map<u64, Tree>, z: u64)
    requires
        occurs(t, z),
        !b.contains_key(z),
    ensures
        subst_tree(t, b) is None,
    decreases t,
{
    if let Tree::Node { children, .. } = t {
        lemma_unbound_fails_seq(children, b, z);
    }
}

pub proof fn lemma_unbound_fails_seq(ts: Seq<Tree>, b: Map<u64, Tree>, z: u64)
    requires
        occurs_seq(ts, z),
        !b.contains_key(z),
    ensures
        subst_seq(ts, b) is None,
    decreases ts,
{
    let n = ts.len() - 1;
    if occurs_seq(ts.subrange(0, n), z) {
        lemma_unbound_fails_seq(ts.subrange(0, n), b, z);
    } else {
        law_unbound_fails(ts[n], b, z);
    }
}

} // verus!
