use rust_refactor::api::{find_first, find_first_with, replace_expr, replace_stmts};
use rust_refactor::bindings::Bindings;
use rust_refactor::driver::{fold_match, fold_match_with};
use rust_refactor::matcher::{match_fragment, MatchCtxt};
use rust_refactor::semantic::SemCtx;
use rust_refactor::subst::RewriteError;
use rust_refactor::tree::{Fragment, Kind};

const PLUS: u64 = 1;
const F: u64 = 2;
const G: u64 = 3;
const BLOCK: u64 = 4;
const A: u64 = 10;
const B: u64 = 11;
const C: u64 = 12;
const S1: u64 = 20;
const S2: u64 = 21;
const S3: u64 = 22;
const S4: u64 = 23;
const X: u64 = 100;
const Y: u64 = 101;
const Z: u64 = 102;

fn node(kind: Kind, label: u64, children: Vec<Fragment>) -> Fragment {
    Fragment::Node { kind, label, children }
}

fn leaf(label: u64) -> Fragment {
    node(Kind::Expr, label, vec![])
}

fn meta(name: u64) -> Fragment {
    Fragment::Meta { name, kind: Kind::Expr }
}

fn call(f: u64, arg: Fragment) -> Fragment {
    node(Kind::Expr, f, vec![arg])
}

fn plus(a: Fragment, b: Fragment) -> Fragment {
    node(Kind::Expr, PLUS, vec![a, b])
}

fn stmt(label: u64, e: Fragment) -> Fragment {
    node(Kind::Stmt, label, vec![e])
}

fn sample() -> Fragment {
    // g(f(a) + f(b))
    call(G, plus(call(F, leaf(A)), call(F, leaf(B))))
}

#[test]
fn same_metavariable_binds_consistently() {
    let sem = SemCtx::new();
    let pat = plus(meta(X), meta(X));
    let m = match_fragment(&sem, &pat, &plus(leaf(A), leaf(A)), Bindings::new());
    let m = m.expect("a + a matches X + X");
    assert_eq!(m.get(X), Some(&leaf(A)));
    assert!(match_fragment(&sem, &pat, &plus(leaf(A), leaf(B)), Bindings::new()).is_none());
}

#[test]
fn replaced_node_is_not_revisited() {
    let sem = SemCtx::new();
    let target = call(F, call(F, leaf(C)));
    let r = replace_expr(&sem, &target, &call(F, meta(Y)), &call(G, meta(Y))).unwrap();
    assert_eq!(r, call(G, call(F, leaf(C))));
}

#[test]
fn rewrite_every_occurrence() {
    let sem = SemCtx::new();
    let r = replace_expr(&sem, &sample(), &call(F, meta(Y)), &call(G, meta(Y))).unwrap();
    assert_eq!(r, call(G, plus(call(G, leaf(A)), call(G, leaf(B)))));
}

#[test]
fn identical_template_is_a_no_op() {
    let sem = SemCtx::new();
    let pat = plus(meta(X), meta(Y));
    let r = replace_expr(&sem, &sample(), &pat, &plus(meta(X), meta(Y))).unwrap();
    assert_eq!(r, sample());
    let r = replace_expr(&sem, &sample(), &call(F, meta(X)), &call(F, meta(X))).unwrap();
    assert_eq!(r, sample());
}

#[test]
fn bare_metavariable_round_trip() {
    let sem = SemCtx::new();
    let r = replace_expr(&sem, &sample(), &meta(X), &meta(X)).unwrap();
    assert_eq!(r, sample());
    let block = node(Kind::Stmt, BLOCK, vec![stmt(S1, sample()), stmt(S2, leaf(A))]);
    let r = replace_expr(&sem, &block, &meta(X), &meta(X)).unwrap();
    assert_eq!(r, node(Kind::Stmt, BLOCK, vec![stmt(S1, sample()), stmt(S2, leaf(A))]));
}

#[test]
fn absent_pattern_leaves_target_unchanged() {
    let sem = SemCtx::new();
    let r = replace_expr(&sem, &sample(), &call(C, meta(X)), &leaf(A)).unwrap();
    assert_eq!(r, sample());
    assert!(find_first(&sem, &call(C, meta(X)), &sample()).is_none());
}

#[test]
fn find_first_takes_earliest_preorder_match() {
    let sem = SemCtx::new();
    let target = sample();
    let m = find_first(&sem, &call(F, meta(Y)), &target).expect("f(Y) occurs");
    assert_eq!(m.get(Y), Some(&leaf(A)));
    assert_eq!(target, sample());
    // the outer match wins over the inner one
    let m = find_first(&sem, &meta(X), &target).unwrap();
    assert_eq!(m.get(X), Some(&sample()));
}

#[test]
fn unbound_template_variable_fails() {
    let sem = SemCtx::new();
    let r = replace_expr(&sem, &sample(), &call(F, meta(Y)), &call(G, meta(Z)));
    assert_eq!(r, Err(RewriteError::UnboundVariable(Z)));
    let r = plus(meta(X), meta(Z)).subst(&Bindings::new());
    assert_eq!(r, Err(RewriteError::UnboundVariable(X)));
    let mut b = Bindings::new();
    b.bind(X, leaf(A));
    assert_eq!(plus(meta(X), meta(Z)).subst(&b), Err(RewriteError::UnboundVariable(Z)));
}

#[test]
fn subst_copies_bindings() {
    let mut b = Bindings::new();
    b.bind(X, leaf(A));
    b.bind(Y, call(F, leaf(B)));
    let r = plus(meta(Y), call(G, meta(X))).subst(&b).unwrap();
    assert_eq!(r, plus(call(F, leaf(B)), call(G, leaf(A))));
}

#[test]
fn replace_expr_checks_kinds() {
    let sem = SemCtx::new();
    let stmt_pat = Fragment::Meta { name: X, kind: Kind::Stmt };
    assert_eq!(replace_expr(&sem, &sample(), &stmt_pat, &meta(X)), Err(RewriteError::WrongKind));
    assert_eq!(replace_expr(&sem, &sample(), &meta(X), &stmt_pat), Err(RewriteError::WrongKind));
}

#[test]
fn metavariable_kind_must_match() {
    let sem = SemCtx::new();
    let ty_var = Fragment::Meta { name: X, kind: Kind::Ty };
    assert!(match_fragment(&sem, &ty_var, &leaf(A), Bindings::new()).is_none());
    let t = node(Kind::Ty, A, vec![]);
    assert!(match_fragment(&sem, &ty_var, &t, Bindings::new()).is_some());
}

#[test]
fn labels_compare_by_definition() {
    // labels 10 and 11 both denote definition 7
    let mut defs = vec![0u64; 12];
    defs[A as usize] = 7;
    defs[B as usize] = 7;
    let sem = SemCtx::with_defs(defs);
    assert_eq!(sem.resolve(A), 7);
    assert_eq!(sem.resolve(50), 50);
    assert!(match_fragment(&sem, &call(F, leaf(A)), &call(F, leaf(B)), Bindings::new()).is_some());
    assert!(match_fragment(&sem, &plus(meta(X), meta(X)), &plus(leaf(A), leaf(B)), Bindings::new())
        .is_some());
    let plain = SemCtx::new();
    assert!(match_fragment(&plain, &call(F, leaf(A)), &call(F, leaf(B)), Bindings::new()).is_none());
    assert!(sem.equiv(&leaf(A), &leaf(B)));
    assert!(!plain.equiv(&leaf(A), &leaf(B)));
}

#[test]
fn shape_and_arity_mismatch_fail() {
    let sem = SemCtx::new();
    assert!(match_fragment(&sem, &call(F, meta(X)), &plus(leaf(A), leaf(B)), Bindings::new()).is_none());
    let two = node(Kind::Expr, F, vec![leaf(A), leaf(B)]);
    assert!(match_fragment(&sem, &call(F, meta(X)), &two, Bindings::new()).is_none());
    assert!(match_fragment(&sem, &leaf(A), &meta(X), Bindings::new()).is_none());
}

#[test]
fn try_match_keeps_bindings_on_failure() {
    let mut mcx = MatchCtxt::new(SemCtx::new());
    assert!(mcx.try_match(&meta(X), &leaf(A)));
    assert_eq!(mcx.bindings.get(X), Some(&leaf(A)));
    assert!(!mcx.try_match(&plus(meta(Y), meta(X)), &plus(leaf(C), leaf(B))));
    assert!(!mcx.bindings.contains(Y));
    assert_eq!(mcx.bindings.get(X), Some(&leaf(A)));
    assert!(mcx.try_match(&plus(meta(Y), meta(X)), &plus(leaf(C), leaf(A))));
    assert_eq!(mcx.bindings.get(Y), Some(&leaf(C)));
}

#[test]
fn seeded_session_constrains_every_position() {
    let mut seed = Bindings::new();
    seed.bind(Y, leaf(B));
    let mcx = MatchCtxt::with_bindings(SemCtx::new(), seed);
    let m = find_first_with(&mcx, &call(F, meta(Y)), &sample()).expect("f(b) occurs");
    assert_eq!(m.get(Y), Some(&leaf(B)));
    let r = fold_match_with(&mcx, &call(F, meta(Y)), &sample(), &call(G, meta(Y))).unwrap();
    assert_eq!(r, call(G, plus(call(F, leaf(A)), call(G, leaf(B)))));
    let r = fold_match(&SemCtx::new(), &call(F, meta(Y)), &sample(), &leaf(C)).unwrap();
    assert_eq!(r, call(G, plus(leaf(C), leaf(C))));
}

#[test]
fn bindings_store_basics() {
    let mut b = Bindings::new();
    assert!(b.get(X).is_none());
    b.bind(X, leaf(A));
    b.bind(X, leaf(B));
    assert_eq!(b.get(X), Some(&leaf(B)));
    let c = b.copy();
    assert_eq!(c.get(X), Some(&leaf(B)));
    assert!(!c.contains(Y));
    assert_eq!(sample().copy(), sample());
    assert_eq!(sample().kind(), Kind::Expr);
}

fn sv(name: u64) -> Fragment {
    Fragment::Meta { name, kind: Kind::Stmt }
}

#[test]
fn replace_stmts_rewrites_runs() {
    let sem = SemCtx::new();
    let block = node(
        Kind::Stmt,
        BLOCK,
        vec![stmt(S1, leaf(A)), stmt(S2, leaf(B)), stmt(S3, leaf(C)), stmt(S1, leaf(C)), stmt(S2, leaf(A))],
    );
    let pat = vec![stmt(S1, meta(X)), stmt(S2, meta(Y))];
    let repl = vec![stmt(S4, plus(meta(X), meta(Y)))];
    let r = replace_stmts(&sem, &block, &pat, &repl).unwrap();
    let want = node(
        Kind::Stmt,
        BLOCK,
        vec![stmt(S4, plus(leaf(A), leaf(B))), stmt(S3, leaf(C)), stmt(S4, plus(leaf(C), leaf(A)))],
    );
    assert_eq!(r, want);
}

#[test]
fn replace_stmts_in_nested_blocks_and_growing() {
    let sem = SemCtx::new();
    let inner = node(Kind::Stmt, BLOCK, vec![stmt(S1, leaf(A))]);
    let outer = node(Kind::Stmt, BLOCK, vec![stmt(S3, leaf(B)), inner]);
    let pat = vec![sv(X)];
    let repl = vec![sv(X), sv(X)];
    // every statement is duplicated once, and the copies are not revisited
    let r = replace_stmts(&sem, &outer, &pat, &repl).unwrap();
    let want = node(
        Kind::Stmt,
        BLOCK,
        vec![
            stmt(S3, leaf(B)),
            stmt(S3, leaf(B)),
            node(Kind::Stmt, BLOCK, vec![stmt(S1, leaf(A))]),
            node(Kind::Stmt, BLOCK, vec![stmt(S1, leaf(A))]),
        ],
    );
    assert_eq!(r, want);
}

#[test]
fn replace_stmts_errors() {
    let sem = SemCtx::new();
    let block = node(Kind::Stmt, BLOCK, vec![stmt(S1, leaf(A))]);
    assert_eq!(replace_stmts(&sem, &block, &vec![], &vec![]), Err(RewriteError::EmptyPattern));
    assert_eq!(replace_stmts(&sem, &block, &vec![meta(X)], &vec![]), Err(RewriteError::WrongKind));
    assert_eq!(replace_stmts(&sem, &block, &vec![sv(X)], &vec![meta(X)]), Err(RewriteError::WrongKind));
    assert_eq!(
        replace_stmts(&sem, &block, &vec![sv(X)], &vec![sv(Z)]),
        Err(RewriteError::UnboundVariable(Z))
    );
    let r = replace_stmts(&sem, &block, &vec![stmt(S2, meta(X))], &vec![]).unwrap();
    assert_eq!(r, node(Kind::Stmt, BLOCK, vec![stmt(S1, leaf(A))]));
    let r = replace_stmts(&sem, &block, &vec![sv(X)], &vec![]).unwrap();
    assert_eq!(r, node(Kind::Stmt, BLOCK, vec![]));
}

#[test]
fn merge_requires_agreement() {
    let sem = SemCtx::new();
    let mut a = Bindings::new();
    a.bind(X, leaf(A));
    a.bind(Y, leaf(B));
    let mut b = Bindings::new();
    b.bind(Y, leaf(B));
    b.bind(Z, leaf(C));
    let m = a.merge(&b, &sem).expect("Y agrees");
    assert_eq!(m.get(X), Some(&leaf(A)));
    assert_eq!(m.get(Y), Some(&leaf(B)));
    assert_eq!(m.get(Z), Some(&leaf(C)));
    let mut c = Bindings::new();
    c.bind(Y, leaf(C));
    assert!(a.merge(&c, &sem).is_none());
    assert!(c.merge(&a, &sem).is_none());
    let m = a.merge(&Bindings::new(), &sem).unwrap();
    assert_eq!(m.get(X), Some(&leaf(A)));
    assert!(!m.contains(Z));
}

#[test]
fn merge_compares_by_definition() {
    let mut defs = vec![0u64; 12];
    defs[A as usize] = 7;
    defs[B as usize] = 7;
    let sem = SemCtx::with_defs(defs);
    let mut a = Bindings::new();
    a.bind(X, leaf(A));
    let mut b = Bindings::new();
    b.bind(X, leaf(B));
    let m = a.merge(&b, &sem).expect("a and b denote one definition");
    assert_eq!(m.get(X), Some(&leaf(A)));
    assert!(a.merge(&b, &SemCtx::new()).is_none());
}
