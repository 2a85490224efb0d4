//! Rewriting runs of statements: a statement-sequence pattern is tried at
//! every position of every child list.
use vstd::prelude::*;
use crate::bindings::Bindings;
use crate::matcher::{match_fragment, match_seq, opt_view};
use crate::semantic::SemCtx;
use crate::subst::{subst_seq, RewriteError};
use crate::tree::{lemma_views, lemma_views_push, views, Fragment, Tree};

verus! {

/// Rewriting `t` pre-order with statement-sequence pattern `ps` and
/// replacement `rs`: in each child list, a run of children that matches
/// `ps` is replaced by `rs` instantiated from the match and not visited
/// further; other children are rewritten in turn.
pub open spec fn run_fold_tree(d: Seq<u64>, ps: Seq<Tree>, rs: Seq<Tree>, t: Tree) -> Option<Tree>
    decreases t, 0int,
{
    match t {
        Tree::Meta { .. } => Some(t),
        Tree::Node { kind, label, children } => match run_fold_scan(d, ps, rs, children, 0) {
            Some(cs) => Some(Tree::Node { kind, label, children: cs }),
            None => None,
        },
    }
}

/// The rewritten child list from position `i` on.
pub open spec fn run_fold_scan(d: Seq<u64>, ps: Seq<Tree>, rs: Seq<Tree>, ts: Seq<Tree>, i: int) -> Option<
    Seq<Tree>,
>
    decreases ts, ts.len() - i,
{
    if i < 0 || i >= ts.len() {
        Some(Seq::empty())
    } else if ps.len() > 0 && i + ps.len() <= ts.len() && match_seq(
        d,
        ps,
        ts.subrange(i, i + ps.len()),
        Map::empty(),
    ) is Some {
        match subst_seq(rs, match_seq(d, ps, ts.subrange(i, i + ps.len()), Map::empty())->0) {
            None => None,
            Some(x) => match run_fold_scan(d, ps, rs, ts, i + ps.len()) {
                None => None,
                Some(rest) => Some(x + rest),
            },
        }
    } else {
        match run_fold_tree(d, ps, rs, ts[i]) {
            None => None,
            Some(x) => match run_fold_scan(d, ps, rs, ts, i + 1) {
                None => None,
                Some(rest) => Some(seq![x] + rest),
            },
        }
    }
}

/// `a` in front of the sequence that `o` holds, if any.
pub open spec fn opt_prepend(a: Seq<Tree>, o: Option<Seq<Tree>>) -> Option<Seq<Tree>> {
    match o {
        Some(x) => Some(a + x),
        None => None,
    }
}

/// Matches the run `ps` against `cs[start..start + ps.len()]`, extending `b`.
#[verifier::loop_isolation(false)]
pub fn match_run(sem: &SemCtx, ps: &Vec<Fragment>, cs: &Vec<Fragment>, start: usize, b: Bindings) -> (r: Option<Bindings>)
    requires
        start + ps.len() <= cs.len(),
    ensures
        opt_view(r) == match_seq(
            sem@,
            views(ps@),
            views(cs@).subrange(start as int, start + ps.len()),
            b@,
        ),
{
    proof {
        lemma_views(ps@);
        lemma_views(cs@);
    }
    let ghost pv = views(ps@);
    let ghost cv = views(cs@).subrange(start as int, start + ps.len());
    let ghost b0 = b@;
    let mut cur = b;
    let mut j: usize = 0;
    assert(pv.subrange(0, 0) =~= Seq::<Tree>::empty());
    assert(cv.subrange(0, 0) =~= Seq::<Tree>::empty());
    while j < ps.len()
        invariant
            0 <= j <= ps.len(),
            match_seq(sem@, pv.subrange(0, j as int), cv.subrange(0, j as int), b0) == Some(cur@),
        decreases ps.len() - j,
    {
        proof {
            assert(pv.subrange(0, j + 1).subrange(0, j as int) =~= pv.subrange(0, j as int));
            assert(cv.subrange(0, j + 1).subrange(0, j as int) =~= cv.subrange(0, j as int));
            assert(pv.subrange(0, j + 1)[j as int] == ps[j as int]@);
            assert(cv.subrange(0, j + 1)[j as int] == cs[start + j]@);
        }
        let ghost curv = cur@;
        match match_fragment(sem, &ps[j], &cs[start + j], cur) {
            None => {
                proof {
                    crate::matcher::lemma_match_seq_prefix_fails(sem@, pv, cv, b0, j + 1);
                }
                return None;
            },
            Some(next) => {
                cur = next;
            },
        }
        j = j + 1;
    }
    assert(pv.subrange(0, pv.len() as int) =~= pv);
    assert(cv.subrange(0, cv.len() as int) =~= cv);
    Some(cur)
}

/// Instantiates each template of `rs`, appending the results to `out`.
#[verifier::loop_isolation(false)]
fn subst_run(rs: &Vec<Fragment>, b: &Bindings, out: &mut Vec<Fragment>) -> (r: Result<(), RewriteError>)
    ensures
        match r {
            Ok(_) => subst_seq(views(rs@), b@) is Some && views(final(out)@) == views(old(out)@)
                + subst_seq(views(rs@), b@)->0,
            Err(e) => subst_seq(views(rs@), b@) is None && e is UnboundVariable,
        },
{
    proof {
        lemma_views(rs@);
    }
    let ghost rv = views(rs@);
    let ghost start = views(out@);
    let mut j: usize = 0;
    assert(rv.subrange(0, 0) =~= Seq::<Tree>::empty());
    assert(start =~= start + Seq::<Tree>::empty());
    while j < rs.len()
        invariant
            0 <= j <= rs.len(),
            subst_seq(rv.subrange(0, j as int), b@) is Some,
            views(out@) == start + subst_seq(rv.subrange(0, j as int), b@)->0,
        decreases rs.len() - j,
    {
        proof {
            assert(rv.subrange(0, j + 1).subrange(0, j as int) =~= rv.subrange(0, j as int));
            assert(rv.subrange(0, j + 1)[j as int] == rs[j as int]@);
        }
        match rs[j].subst(b) {
            Ok(f) => {
                proof {
                    lemma_views_push(out@, f);
                    let s = subst_seq(rv.subrange(0, j as int), b@)->0;
                    assert(start + s.push(f@) =~= (start + s).push(f@));
                }
                out.push(f);
            },
            Err(e) => {
                proof {
                    crate::subst::lemma_subst_seq_prefix_fails(rv, b@, j + 1);
                }
                return Err(e);
            },
        }
        j = j + 1;
    }
    assert(rv.subrange(0, rv.len() as int) =~= rv);
    Ok(())
}

/// Rewrites every run of statements in `t` that matches `ps` into `rs`.
#[verifier::loop_isolation(false)]
pub fn fold_runs(sem: &SemCtx, ps: &Vec<Fragment>, rs: &Vec<Fragment>, t: &Fragment) -> (r: Result<
    Fragment,
    RewriteError,
>)
    ensures
        match r {
            Ok(f) => run_fold_tree(sem@, views(ps@), views(rs@), t@) == Some(f@),
            Err(e) => run_fold_tree(sem@, views(ps@), views(rs@), t@) is None && e is UnboundVariable,
        },
    decreases t,
{
    match t {
        Fragment::Meta { name, kind } => Ok(Fragment::Meta { name: *name, kind: *kind }),
        Fragment::Node { kind, label, children } => {
            proof {
                lemma_views(children@);
                lemma_views(ps@);
            }
            let ghost ts = t@->children;
            let ghost pv = views(ps@);
            let ghost rv = views(rs@);
            let n = ps.len();
            let mut out: Vec<Fragment> = Vec::new();
            let mut i: usize = 0;
            assert(run_fold_scan(sem@, pv, rv, ts, 0) == opt_prepend(views(out@), run_fold_scan(sem@, pv, rv, ts, 0))) by {
                if let Some(x) = run_fold_scan(sem@, pv, rv, ts, 0) {
                    assert(views(out@) + x =~= x);
                }
            }
            while i < children.len()
                invariant
                    0 <= i <= children.len(),
                    run_fold_scan(sem@, pv, rv, ts, 0) == opt_prepend(views(out@), run_fold_scan(sem@, pv, rv, ts, i as int)),
                decreases children.len() - i,
            {
                let mut window: Option<Bindings> = None;
                if n > 0 && n <= children.len() - i {
                    window = match_run(sem, ps, children, i, Bindings::new());
                }
                assert(ts.subrange(i as int, i + n) == views(children@).subrange(i as int, i + n));
                match window {
                    Some(m) => {
                        let ghost before = views(out@);
                        match subst_run(rs, &m, &mut out) {
                            Ok(_) => {
                                proof {
                                    let x = subst_seq(rv, m@)->0;
                                    if let Some(rest) = run_fold_scan(sem@, pv, rv, ts, i + n) {
                                        assert(before + (x + rest) =~= (before + x) + rest);
                                    }
                                }
                                i = i + n;
                            },
                            Err(e) => {
                                return Err(e);
                            },
                        }
                    },
                    None => {
                        proof {
                            assert(decreases_to!(*t => (*t)->children));
                        }
                        match fold_runs(sem, ps, rs, &children[i]) {
                            Ok(f) => {
                                let ghost before = views(out@);
                                proof {
                                    lemma_views_push(out@, f);
                                    if let Some(rest) = run_fold_scan(sem@, pv, rv, ts, i + 1) {
                                        assert(before + (seq![f@] + rest) =~= before.push(f@) + rest);
                                    }
                                }
                                out.push(f);
                                i = i + 1;
                            },
                            Err(e) => {
                                return Err(e);
                            },
                        }
                    },
                }
            }
            proof {
                assert(views(out@) + Seq::<Tree>::empty() =~= views(out@));
            }
            Ok(Fragment::Node { kind: *kind, label: *label, children: out })
        },
    }
}

} // verus!
