//! One-shot operations: replace every occurrence, or find the first one.
use vstd::prelude::*;
use crate::bindings::Bindings;
use crate::driver::{fold_match, fold_tree, find_seq, find_tree, lemma_find_seq_prefix_found};
use crate::matcher::{match_fragment, opt_view, MatchCtxt};
use crate::semantic::SemCtx;
use crate::subst::RewriteError;
use crate::stmts::{fold_runs, run_fold_tree};
use crate::tree::{kind_of, lemma_views, views, Fragment, Kind, Tree};

verus! {

/// Replaces every occurrence of expression `pat` in `ast` by expression
/// `repl`, instantiated from the occurrence's bindings.
pub fn replace_expr(sem: &SemCtx, ast: &Fragment, pat: &Fragment, repl: &Fragment) -> (r: Result<
    Fragment,
    RewriteError,
>)
    ensures
        (kind_of(pat@) != Kind::Expr || kind_of(repl@) != Kind::Expr) <==> r == Err::<
            Fragment,
            RewriteError,
        >(RewriteError::WrongKind),
        kind_of(pat@) == Kind::Expr && kind_of(repl@) == Kind::Expr ==> match r {
            Ok(f) => fold_tree(sem@, pat@, repl@, ast@, Map::empty()) == Some(f@),
            Err(e) => fold_tree(sem@, pat@, repl@, ast@, Map::empty()) is None
                && e is UnboundVariable,
        },
{
    if pat.kind() != Kind::Expr || repl.kind() != Kind::Expr {
        return Err(RewriteError::WrongKind);
    }
    fold_match(sem, pat, ast, repl)
}

/// Whether every tree of `s` is of kind `k`.
pub open spec fn all_of_kind(s: Seq<Tree>, k: Kind) -> bool {
    forall|i: int| 0 <= i < s.len() ==> kind_of(#[trigger] s[i]) == k
}

fn check_kinds(v: &Vec<Fragment>, k: Kind) -> (r: bool)
    ensures
        r == all_of_kind(views(v@), k),
{
    proof {
        lemma_views(v@);
    }
    let mut i: usize = 0;
    while i < v.len()
        invariant
            0 <= i <= v.len(),
            views(v@).len() == v.len(),
            forall|j: int| 0 <= j < v.len() ==> #[trigger] views(v@)[j] == v[j]@,
            forall|j: int| 0 <= j < i ==> kind_of(#[trigger] views(v@)[j]) == k,
        decreases v.len() - i,
    {
        if v[i].kind() != k {
            assert(kind_of(views(v@)[i as int]) != k);
            return false;
        }
        i = i + 1;
    }
    true
}

/// Replaces every run of statements in `ast` that matches the statement
/// sequence `pat` by the statement sequence `repl`, instantiated from the
/// run's bindings.
pub fn replace_stmts(sem: &SemCtx, ast: &Fragment, pat: &Vec<Fragment>, repl: &Vec<Fragment>) -> (r: Result<
    Fragment,
    RewriteError,
>)
    ensures
        pat@.len() == 0 <==> r == Err::<Fragment, RewriteError>(RewriteError::EmptyPattern),
        pat@.len() > 0 ==> ((!all_of_kind(views(pat@), Kind::Stmt) || !all_of_kind(
            views(repl@),
            Kind::Stmt,
        )) <==> r == Err::<Fragment, RewriteError>(RewriteError::WrongKind)),
        pat@.len() > 0 && all_of_kind(views(pat@), Kind::Stmt) && all_of_kind(views(repl@), Kind::Stmt)
            ==> match r {
            Ok(f) => run_fold_tree(sem@, views(pat@), views(repl@), ast@) == Some(f@),
            Err(e) => run_fold_tree(sem@, views(pat@), views(repl@), ast@) is None
                && e is UnboundVariable,
        },
{
    if pat.len() == 0 {
        return Err(RewriteError::EmptyPattern);
    }
    if !check_kinds(pat, Kind::Stmt) || !check_kinds(repl, Kind::Stmt) {
        return Err(RewriteError::WrongKind);
    }
    fold_runs(sem, pat, repl, ast)
}

/// The bindings of the first place, in pre-order, where `pattern` matches
/// in `target` under the seed bindings of `init_mcx`.
#[verifier::loop_isolation(false)]
pub fn find_first_with(init_mcx: &MatchCtxt, pattern: &Fragment, target: &Fragment) -> (r: Option<
    Bindings,
>)
    ensures
        opt_view(r) == find_tree(init_mcx.sem@, pattern@, target@, init_mcx.bindings@),
    decreases target,
{
    let seed = init_mcx.bindings.copy();
    match match_fragment(&init_mcx.sem, pattern, target, seed) {
        Some(m) => {
            return Some(m);
        },
        None => {},
    }
    match target {
        Fragment::Meta { .. } => None,
        Fragment::Node { children, .. } => {
            proof {
                lemma_views(children@);
            }
            let ghost ts = target@->children;
            let mut i: usize = 0;
            assert(ts.subrange(0, 0) =~= Seq::<Tree>::empty());
            while i < children.len()
                invariant
                    0 <= i <= children.len(),
                    find_seq(init_mcx.sem@, pattern@, ts.subrange(0, i as int), init_mcx.bindings@) is None,
                decreases children.len() - i,
            {
                proof {
                    assert(decreases_to!(*target => (*target)->children));
                    assert(ts.subrange(0, i + 1).subrange(0, i as int) =~= ts.subrange(0, i as int));
                    assert(ts.subrange(0, i + 1)[i as int] == ts[i as int]);
                }
                match find_first_with(init_mcx, pattern, &children[i]) {
                    Some(m) => {
                        proof {
                            lemma_find_seq_prefix_found(
                                init_mcx.sem@,
                                pattern@,
                                ts,
                                init_mcx.bindings@,
                                i + 1,
                            );
                        }
                        return Some(m);
                    },
                    None => {},
                }
                i = i + 1;
            }
            assert(ts.subrange(0, ts.len() as int) =~= ts);
            None
        },
    }
}

/// The bindings of the first place, in pre-order, where `pattern` matches
/// in `target`, each position tried with fresh bindings.
pub fn find_first(sem: &SemCtx, pattern: &Fragment, target: &Fragment) -> (r: Option<Bindings>)
    ensures
        opt_view(r) == find_tree(sem@, pattern@, target@, Map::empty()),
{
    let mcx = MatchCtxt::new(sem.copy());
    find_first_with(&mcx, pattern, target)
}

} // verus!
