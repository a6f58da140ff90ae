use symdex::extract::extract_scope_file;
use symdex::scopes::{ScopeExpr, ScopeOp, ScopeRules, Tracker};
use symdex::symbol::Kind;
use symdex::text::{Loc, Span};

fn rules(
    keep: Vec<(&str, Option<&str>)>,
    restrict: Vec<&str>,
    exclude: Vec<&str>,
) -> ScopeRules {
    ScopeRules {
        keep: keep
            .into_iter()
            .map(|(s, g)| (s.to_string(), g.map(|g| g.to_string())))
            .collect(),
        restrict: restrict.into_iter().map(|s| s.to_string()).collect(),
        exclude: exclude.into_iter().map(|s| s.to_string()).collect(),
    }
}

fn push(t: &mut Tracker, r: &ScopeRules, scope: &str, line: usize, column: usize) {
    t.on_push(r, scope.to_string(), Loc::new(line, column));
}

#[test]
fn plain_keep_scope_emits_on_pop() {
    let r = rules(vec![("entity.name.function", None)], vec![], vec![]);
    let mut t = Tracker::new();
    push(&mut t, &r, "entity.name.function", 1, 3);
    let out = t.on_pops(&r, 1, Loc::new(1, 6));
    assert_eq!(out.len(), 1);
    assert_eq!(out[0].0, Span::new(Loc::new(1, 3), Loc::new(1, 6)));
    assert_eq!(out[0].1, "entity.name.function".to_string());
}

#[test]
fn unlisted_scope_emits_nothing() {
    let r = rules(vec![("entity.name.function", None)], vec![], vec![]);
    let mut t = Tracker::new();
    push(&mut t, &r, "comment.line", 1, 0);
    let out = t.on_pops(&r, 1, Loc::new(1, 9));
    assert!(out.is_empty());
}

// A restricting scope nested inside an excluded scope: nothing is emitted,
// whatever the keep rules say — exclusion dominates restriction.
#[test]
fn exclude_dominates_restrict() {
    let r = rules(
        vec![("meta.block", Some("meta.block")), ("entity.name.function", None)],
        vec!["meta.block"],
        vec!["comment.block"],
    );
    let mut t = Tracker::new();
    push(&mut t, &r, "comment.block", 1, 0);
    push(&mut t, &r, "meta.block", 1, 2);
    push(&mut t, &r, "entity.name.function", 1, 4);
    // All three pop inside the excluded region: no symbol at all.
    let out = t.on_pops(&r, 2, Loc::new(1, 8));
    assert!(out.is_empty());
    let out = t.on_pops(&r, 1, Loc::new(1, 9));
    assert!(out.is_empty());
}

// A symbol gated by G, popped while an instance of G is open: suppressed.
#[test]
fn active_gate_suppresses() {
    let r = rules(
        vec![("constant.declaration", Some("meta.block"))],
        vec!["meta.block"],
        vec![],
    );
    let mut t = Tracker::new();
    push(&mut t, &r, "meta.block", 1, 0);
    push(&mut t, &r, "constant.declaration", 1, 2);
    let out = t.on_pops(&r, 1, Loc::new(1, 7));
    assert!(out.is_empty());
}

// The same symbol beside an already-closed (inactive) instance of G: emitted.
#[test]
fn inactive_gate_emits() {
    let r = rules(
        vec![("constant.declaration", Some("meta.block"))],
        vec!["meta.block"],
        vec![],
    );
    let mut t = Tracker::new();
    push(&mut t, &r, "meta.block", 1, 0);
    let out = t.on_pops(&r, 1, Loc::new(1, 1));
    assert!(out.is_empty());
    // Its counter is back at zero: the gated symbol is emitted.
    push(&mut t, &r, "constant.declaration", 1, 2);
    let out = t.on_pops(&r, 1, Loc::new(1, 7));
    assert_eq!(out.len(), 1);
    assert_eq!(out[0].0, Span::new(Loc::new(1, 2), Loc::new(1, 7)));
}

// Two consecutive pops closing identical spans yield exactly one symbol.
#[test]
fn duplicate_span_emitted_once() {
    let r = rules(vec![("entity.name.function", None), ("entity.name", None)], vec![], vec![]);
    let mut t = Tracker::new();
    push(&mut t, &r, "entity.name", 1, 3);
    push(&mut t, &r, "entity.name.function", 1, 3);
    let out = t.on_pops(&r, 2, Loc::new(1, 6));
    assert_eq!(out.len(), 1);
    assert_eq!(out[0].0, Span::new(Loc::new(1, 3), Loc::new(1, 6)));
    assert_eq!(out[0].1, "entity.name.function".to_string());
}

#[test]
fn stray_pop_is_ignored() {
    let r = rules(vec![("entity.name.function", None)], vec![], vec![]);
    let mut t = Tracker::new();
    let out = t.on_pops(&r, 3, Loc::new(1, 0));
    assert!(out.is_empty());
    // The tracker still works afterwards.
    push(&mut t, &r, "entity.name.function", 1, 3);
    let out = t.on_pops(&r, 1, Loc::new(1, 6));
    assert_eq!(out.len(), 1);
}

// End to end: a two-line file and a configuration keeping the
// function-declaration scope yield exactly the two function symbols, with
// their text and columns, in line order.
#[test]
fn two_line_file_yields_two_functions() {
    let r = rules(vec![("entity.name.function.rust", None)], vec![], vec![]);
    let lines = vec![
        (
            "fn foo() {}".to_string(),
            vec![
                ScopeOp::Push { column: 3, scope: "entity.name.function.rust".to_string() },
                ScopeOp::Pop { column: 6, count: 1 },
            ],
        ),
        (
            "fn bar() {}".to_string(),
            vec![
                ScopeOp::Push { column: 3, scope: "entity.name.function.rust".to_string() },
                ScopeOp::Pop { column: 6, count: 1 },
            ],
        ),
    ];
    let symbols = extract_scope_file(&r, &lines);
    assert_eq!(symbols.len(), 2);
    assert_eq!(symbols[0].0, Loc::new(1, 3));
    assert_eq!(symbols[0].1, "foo".to_string());
    assert_eq!(symbols[0].2, Kind::Function);
    assert_eq!(symbols[1].0, Loc::new(2, 3));
    assert_eq!(symbols[1].1, "bar".to_string());
    assert_eq!(symbols[1].2, Kind::Function);
}

// A region left open at the end of one line closes on a later line: the
// span crosses lines and reports the sentinel text.
#[test]
fn cross_line_span_reports_sentinel_text() {
    let r = rules(vec![("meta.function", None)], vec![], vec![]);
    let lines = vec![
        (
            "fn foo(".to_string(),
            vec![ScopeOp::Push { column: 0, scope: "meta.function".to_string() }],
        ),
        (") {}".to_string(), vec![ScopeOp::Pop { column: 4, count: 1 }]),
    ];
    let symbols = extract_scope_file(&r, &lines);
    assert_eq!(symbols.len(), 1);
    assert_eq!(symbols[0].0, Loc::new(1, 0));
    assert_eq!(symbols[0].1, "...".to_string());
}

#[test]
fn scope_expr_plain() {
    let e = ScopeExpr::parse("entity.name.function").unwrap();
    assert_eq!(e.scope, "entity.name.function".to_string());
    assert!(e.exclude.is_none());
}

#[test]
fn scope_expr_with_gate() {
    let e = ScopeExpr::parse("constant.declaration - meta.block").unwrap();
    assert_eq!(e.scope, "constant.declaration".to_string());
    assert_eq!(e.exclude, Some("meta.block".to_string()));
}

#[test]
fn scope_expr_malformed() {
    assert!(ScopeExpr::parse("a - b - c").is_err());
    // More than eight dot-separated atoms.
    assert!(ScopeExpr::parse("a.b.c.d.e.f.g.h.i").is_err());
    // An empty atom, an empty name, and a character outside the atom set.
    assert!(ScopeExpr::parse("entity..name").is_err());
    assert!(ScopeExpr::parse("").is_err());
    assert!(ScopeExpr::parse("enti ty.name").is_err());
    // Eight atoms are still fine.
    assert!(ScopeExpr::parse("a.b.c.d.e.f.g.h").is_ok());
}
