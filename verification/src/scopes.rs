//! The scope-stack extraction strategy: an incremental, line-oriented state
//! machine over the grammar engine's annotation stream. The engine emits
//! `Push(scope)` / `Pop(count)` operations per line; the tracker keeps an
//! explicit stack of open regions, counts open instances of each gating
//! ("restricting") scope, counts open excluded regions, and emits a symbol
//! span whenever a kept scope closes outside every excluded region and
//! outside every active gate. A span identical to the immediately preceding
//! emitted span is dropped as a duplicate.

use vstd::prelude::*;

verus! {

use crate::text::{Loc, Span};

// ---------------------------------------------------------------------------
// Scope rules: the keep / restrict / exclude configuration.
// ---------------------------------------------------------------------------

/// The view of a list of strings: their character sequences, in order.
pub open spec fn str_views(s: Seq<String>) -> Seq<Seq<char>> {
    s.map_values(|x: String| x@)
}

/// The view of a keep list: scope name and optional gate, as characters.
pub open spec fn rule_views(s: Seq<(String, Option<String>)>) -> Seq<
    (Seq<char>, Option<Seq<char>>),
> {
    s.map_values(
        |p: (String, Option<String>)|
            (
                p.0@,
                match p.1 {
                    Some(g) => Some(g@),
                    None => None,
                },
            ),
    )
}

/// The mathematical content of a [`ScopeRules`].
pub struct RulesView {
    /// Scope name to optional gate, first match wins.
    pub keep: Seq<(Seq<char>, Option<Seq<char>>)>,
    /// The gating scopes, whose open instances are counted.
    pub restrict: Seq<Seq<char>>,
    /// The scopes that suppress every symbol nested inside them.
    pub exclude: Seq<Seq<char>>,
}

/// The keep rule for `key`: `None` when `key` is not kept, otherwise
/// the first matching entry's optional gate.
pub open spec fn rule_for(pairs: Seq<(Seq<char>, Option<Seq<char>>)>, key: Seq<char>) -> Option<
    Option<Seq<char>>,
>
    decreases pairs.len(),
{
    if pairs.len() == 0 {
        None
    } else if pairs[0].0 == key {
        Some(pairs[0].1)
    } else {
        rule_for(pairs.drop_first(), key)
    }
}

impl RulesView {
    pub open spec fn is_restricting(self, scope: Seq<char>) -> bool {
        self.restrict.contains(scope)
    }

    pub open spec fn is_excluded(self, scope: Seq<char>) -> bool {
        self.exclude.contains(scope)
    }

    pub open spec fn keep_rule(self, scope: Seq<char>) -> Option<Option<Seq<char>>> {
        rule_for(self.keep, scope)
    }

    /// Every gate named by a keep rule is a restricting scope.
    pub open spec fn wf(self) -> bool {
        forall|i: int|
            0 <= i < self.keep.len() && (#[trigger] self.keep[i]).1 is Some
                ==> self.restrict.contains(self.keep[i].1->Some_0)
    }
}

/// Per-language scope-matching rules of the scope-stack strategy: which
/// closing scopes are kept as symbols, which scopes gate them, and which
/// scopes suppress everything nested inside.
pub struct ScopeRules {
    /// Scopes whose regions denote symbols, each with an optional gate.
    pub keep: Vec<(String, Option<String>)>,
    /// Scopes that gate some keep rule while one of their regions is open.
    pub restrict: Vec<String>,
    /// Scopes that suppress all symbols inside their regions.
    pub exclude: Vec<String>,
}

impl ScopeRules {
    pub open spec fn view_spec(self) -> RulesView {
        RulesView {
            keep: rule_views(self.keep@),
            restrict: str_views(self.restrict@),
            exclude: str_views(self.exclude@),
        }
    }

    pub open spec fn wf(self) -> bool {
        self.view_spec().wf()
    }

    /// Whether `scope` is one of the restricting scopes.
    pub fn is_restricting(&self, scope: &str) -> (r: bool)
        ensures
            r == self.view_spec().is_restricting(scope@),
    {
        contains_str(&self.restrict, scope)
    }

    /// Whether `scope` is one of the excluded scopes.
    pub fn is_excluded(&self, scope: &str) -> (r: bool)
        ensures
            r == self.view_spec().is_excluded(scope@),
    {
        contains_str(&self.exclude, scope)
    }

    /// The keep rule for `scope`, if any: `Some(None)` for an ungated
    /// rule, `Some(Some(gate))` for a gated one.
    pub fn keep_rule(&self, scope: &str) -> (r: Option<Option<String>>)
        ensures
            match r {
                None => self.view_spec().keep_rule(scope@) is None,
                Some(None) => self.view_spec().keep_rule(scope@) == Some(
                    None::<Seq<char>>,
                ),
                Some(Some(g)) => self.view_spec().keep_rule(scope@) == Some(Some(g@)),
            },
    {
        let mut i: usize = 0;
        assert(rule_views(self.keep@).skip(0int) =~= rule_views(self.keep@));
        while i < self.keep.len()
            invariant
                0 <= i <= self.keep@.len(),
                rule_for(rule_views(self.keep@), scope@) == rule_for(
                    rule_views(self.keep@).skip(i as int),
                    scope@,
                ),
            decreases self.keep@.len() - i,
        {
            let ghost pairs = rule_views(self.keep@).skip(i as int);
            assert(pairs[0] == rule_views(self.keep@)[i as int]);
            if crate::chars::str_eq(self.keep[i].0.as_str(), scope) {
                match &self.keep[i].1 {
                    None => {
                        return Some(None);
                    },
                    Some(g) => {
                        return Some(Some(g.clone()));
                    },
                }
            }
            assert(pairs.drop_first() =~= rule_views(self.keep@).skip(i + 1int));
            i = i + 1;
        }
        assert(rule_views(self.keep@).skip(self.keep@.len() as int).len() == 0);
        None
    }
}

// ---------------------------------------------------------------------------
// The tracker's mathematical model.
// ---------------------------------------------------------------------------

/// The model of the tracker state: the stack of open regions (start location
/// and scope, innermost last), the count of open regions per gating scope,
/// the number of open excluded regions, and the last emitted span.
pub struct TrackerView {
    pub stack: Seq<(Loc, Seq<char>)>,
    pub counters: Map<Seq<char>, nat>,
    pub excluded: nat,
    pub last_span: Option<Span>,
}

/// The count recorded for `k`, zero when `k` was never recorded.
pub open spec fn cnt(m: Map<Seq<char>, nat>, k: Seq<char>) -> nat {
    if m.dom().contains(k) {
        m[k]
    } else {
        0
    }
}

/// How many regions with scope `s` are open on `stack`.
pub open spec fn occurrences(stack: Seq<(Loc, Seq<char>)>, s: Seq<char>) -> nat
    decreases stack.len(),
{
    if stack.len() == 0 {
        0
    } else {
        occurrences(stack.drop_last(), s) + (if stack.last().1 == s {
            1nat
        } else {
            0nat
        })
    }
}

/// How many excluded regions are open on `stack`.
pub open spec fn excluded_count(stack: Seq<(Loc, Seq<char>)>, rules: RulesView) -> nat
    decreases stack.len(),
{
    if stack.len() == 0 {
        0
    } else {
        excluded_count(stack.drop_last(), rules) + (if rules.is_excluded(stack.last().1) {
            1nat
        } else {
            0nat
        })
    }
}

/// The counters and the exclusion depth agree with the stack.
pub open spec fn coherent(st: TrackerView, rules: RulesView) -> bool {
    &&& forall|s: Seq<char>|
        rules.is_restricting(s) ==> #[trigger] cnt(st.counters, s) == occurrences(st.stack, s)
    &&& st.excluded == excluded_count(st.stack, rules)
}

/// One `Push(scope)` operation at `loc`: opens a region, counts it if its
/// scope is restricting, and deepens the exclusion if its scope is excluded.
pub open spec fn push_step(st: TrackerView, rules: RulesView, scope: Seq<char>, loc: Loc)
    -> TrackerView {
    TrackerView {
        stack: st.stack.push((loc, scope)),
        counters: if rules.is_restricting(scope) {
            st.counters.insert(scope, cnt(st.counters, scope) + 1)
        } else {
            st.counters
        },
        excluded: if rules.is_excluded(scope) {
            st.excluded + 1
        } else {
            st.excluded
        },
        last_span: st.last_span,
    }
}

/// One single `Pop` operation closing the innermost region at `loc`. Yields
/// the new state and the emitted symbol, if any: the popped scope's span is
/// emitted exactly when the stack was non-empty, no excluded region remains
/// open around it, its scope has a keep rule whose gate (if any) counts no
/// open region, and the span does not repeat the last emitted span.
pub open spec fn pop_step(st: TrackerView, rules: RulesView, loc: Loc) -> (
    TrackerView,
    Option<(Span, Seq<char>)>,
) {
    if st.stack.len() == 0 {
        // A stray pop with no open region is ignored.
        (st, None)
    } else {
        let (start, scope) = st.stack.last();
        let counters = if rules.is_restricting(scope) {
            st.counters.insert(
                scope,
                if cnt(st.counters, scope) > 0 {
                    (cnt(st.counters, scope) - 1) as nat
                } else {
                    0
                },
            )
        } else {
            st.counters
        };
        let excluded = if rules.is_excluded(scope) {
            if st.excluded > 0 {
                (st.excluded - 1) as nat
            } else {
                0
            }
        } else {
            st.excluded
        };
        let base = TrackerView { stack: st.stack.drop_last(), counters, excluded, ..st };
        if excluded > 0 {
            // Still inside an excluded region: suppressed.
            (base, None)
        } else {
            match rules.keep_rule(scope) {
                None => (base, None),
                Some(gate) => {
                    let span = Span { start, end: loc };
                    let gated = match gate {
                        Some(g) => cnt(counters, g) > 0,
                        None => false,
                    };
                    if gated {
                        (base, None)
                    } else if st.last_span == Some(span) {
                        // A repeated boundary: deduplicated.
                        (base, None)
                    } else {
                        (
                            TrackerView { last_span: Some(span), ..base },
                            Some((span, scope)),
                        )
                    }
                },
            }
        }
    }
}

/// `count` single pops in a row, collecting the emitted symbols in order.
pub open spec fn pop_steps(st: TrackerView, rules: RulesView, count: nat, loc: Loc) -> (
    TrackerView,
    Seq<(Span, Seq<char>)>,
)
    decreases count,
{
    if count == 0 {
        (st, Seq::empty())
    } else {
        let (mid, first) = pop_step(st, rules, loc);
        let (end, rest) = pop_steps(mid, rules, (count - 1) as nat, loc);
        let emitted = match first {
            Some(m) => seq![m] + rest,
            None => rest,
        };
        (end, emitted)
    }
}

pub proof fn lemma_occurrences_le_len(stack: Seq<(Loc, Seq<char>)>, s: Seq<char>)
    ensures
        occurrences(stack, s) <= stack.len(),
    decreases stack.len(),
{
    if stack.len() > 0 {
        lemma_occurrences_le_len(stack.drop_last(), s);
    }
}

pub proof fn lemma_excluded_le_len(stack: Seq<(Loc, Seq<char>)>, rules: RulesView)
    ensures
        excluded_count(stack, rules) <= stack.len(),
    decreases stack.len(),
{
    if stack.len() > 0 {
        lemma_excluded_le_len(stack.drop_last(), rules);
    }
}

/// A push keeps the counters and the exclusion depth coherent.
pub proof fn lemma_push_coherent(st: TrackerView, rules: RulesView, scope: Seq<char>, loc: Loc)
    requires
        coherent(st, rules),
    ensures
        coherent(push_step(st, rules, scope, loc), rules),
{
    let st2 = push_step(st, rules, scope, loc);
    assert(st2.stack.drop_last() =~= st.stack);
    assert forall|s: Seq<char>| rules.is_restricting(s) implies #[trigger] cnt(st2.counters, s)
        == occurrences(st2.stack, s) by {
        assert(occurrences(st2.stack, s) == occurrences(st.stack, s) + (if s == scope {
            1nat
        } else {
            0nat
        }));
        assert(cnt(st.counters, s) == occurrences(st.stack, s));
    }
}

/// A pop keeps the counters and the exclusion depth coherent.
pub proof fn lemma_pop_coherent(st: TrackerView, rules: RulesView, loc: Loc)
    requires
        coherent(st, rules),
    ensures
        coherent(pop_step(st, rules, loc).0, rules),
{
    if st.stack.len() > 0 {
        let scope = st.stack.last().1;
        let st2 = pop_step(st, rules, loc).0;
        assert(st.stack.drop_last() =~= st2.stack);
        assert(occurrences(st.stack, scope) == occurrences(st2.stack, scope) + 1);
        assert forall|s: Seq<char>| rules.is_restricting(s) implies #[trigger] cnt(st2.counters, s)
            == occurrences(st2.stack, s) by {
            assert(occurrences(st.stack, s) == occurrences(st2.stack, s) + (if s == scope {
                1nat
            } else {
                0nat
            }));
            assert(cnt(st.counters, s) == occurrences(st.stack, s));
        }
    }
}

// ---------------------------------------------------------------------------
// The executable tracker.
// ---------------------------------------------------------------------------

/// The views of counter entries.
pub open spec fn ctr_views(s: Seq<(String, usize)>) -> Seq<(Seq<char>, nat)> {
    s.map_values(|p: (String, usize)| (p.0@, p.1 as nat))
}

/// The scope-stack tracker: the strategy's cross-line state.
pub struct Tracker {
    /// The open regions, innermost last: start location and scope.
    pub stack: Vec<(Loc, String)>,
    /// How many open regions each restricting scope currently has.
    pub counters: Vec<(String, usize)>,
    /// How many open excluded regions surround the current position.
    pub excluded: usize,
    /// The last emitted span, for duplicate suppression.
    pub last_span: Option<Span>,
}

impl Tracker {
    pub open spec fn view_spec(self) -> TrackerView {
        TrackerView {
            stack: self.stack@.map_values(|p: (Loc, String)| (p.0, p.1@)),
            counters: crate::assoc::pairs_map(ctr_views(self.counters@)),
            excluded: self.excluded as nat,
            last_span: self.last_span,
        }
    }

    /// The tracker's representation invariant with respect to `rules`.
    pub open spec fn wf(self, rules: RulesView) -> bool {
        &&& crate::assoc::pair_keys_unique(ctr_views(self.counters@))
        &&& coherent(self.view_spec(), rules)
    }

    pub fn new() -> (r: Tracker)
        ensures
            r.view_spec() == (TrackerView {
                stack: Seq::<(Loc, Seq<char>)>::empty(),
                counters: Map::<Seq<char>, nat>::empty(),
                excluded: 0nat,
                last_span: None::<Span>,
            }),
            forall|rules: RulesView| r.wf(rules),
    {
        let r = Tracker { stack: Vec::new(), counters: Vec::new(), excluded: 0, last_span: None };
        proof {
            assert(r.view_spec().stack =~= Seq::<(Loc, Seq<char>)>::empty());
            assert(ctr_views(r.counters@) =~= Seq::<(Seq<char>, nat)>::empty());
            assert(r.view_spec().counters =~= Map::<Seq<char>, nat>::empty());
            assert forall|rules: RulesView| r.wf(rules) by {
                assert(cnt(r.view_spec().counters, Seq::<char>::empty()) == 0);
            }
        }
        r
    }

    /// Applies one `Push(scope)` at `loc`.
    pub fn on_push(&mut self, rules: &ScopeRules, scope: String, loc: Loc)
        requires
            old(self).wf(rules.view_spec()),
            old(self).stack@.len() < usize::MAX,
        ensures
            final(self).view_spec() == push_step(
                old(self).view_spec(),
                rules.view_spec(),
                scope@,
                loc,
            ),
            final(self).wf(rules.view_spec()),
    {
        let ghost st0 = self.view_spec();
        let ghost scope_view = scope@;
        proof {
            lemma_push_coherent(st0, rules.view_spec(), scope_view, loc);
        }
        if rules.is_restricting(scope.as_str()) {
            proof {
                lemma_occurrences_le_len(st0.stack, scope@);
            }
            let mut i: usize = 0;
            let mut found: Option<usize> = None;
            while i < self.counters.len()
                invariant
                    0 <= i <= self.counters@.len(),
                    found is None ==> forall|j: int| 0 <= j < i ==> ctr_views(self.counters@)[j].0
                        != scope_view,
                    match found {
                        Some(fi) => fi < self.counters@.len()
                            && ctr_views(self.counters@)[fi as int].0 == scope_view,
                        None => true,
                    },
                    self.counters@ == old(self).counters@,
                    scope@ == scope_view,
                decreases self.counters@.len() - i,
            {
                if found.is_none() && crate::chars::str_eq(
                    self.counters[i].0.as_str(),
                    scope.as_str(),
                ) {
                    found = Some(i);
                }
                i = i + 1;
            }
            if let Some(i) = found {
                proof {
                    crate::assoc::lemma_pairs_map_get(ctr_views(self.counters@), i as int);
                }
                let c = self.counters[i].1;
                assert(c as nat == cnt(st0.counters, scope@));
                let key = self.counters[i].0.clone();
                assert(key@ == scope@);
                proof {
                    crate::assoc::lemma_pairs_map_update(ctr_views(self.counters@), i as int, (c + 1) as nat);
                }
                let ghost before = ctr_views(self.counters@);
                self.counters[i] = (key, c + 1);
                assert(ctr_views(self.counters@) =~= before.update(
                    i as int,
                    (before[i as int].0, (c + 1) as nat),
                ));
            } else {
                proof {
                    crate::assoc::lemma_pairs_map_dom(ctr_views(self.counters@), scope@);
                    assert(!crate::assoc::pairs_map(ctr_views(self.counters@)).dom().contains(scope@));
                    assert(cnt(st0.counters, scope@) == 0);
                }
                let ghost before = ctr_views(self.counters@);
                self.counters.push((scope.clone(), 1));
                proof {
                    assert(ctr_views(self.counters@) =~= before.push((scope_view, 1nat)));
                    assert(ctr_views(self.counters@).drop_last() =~= before);
                    assert(crate::assoc::pairs_map(ctr_views(self.counters@)) =~= crate::assoc::pairs_map(
                        before,
                    ).insert(scope_view, 1nat));
                    assert(crate::assoc::pair_keys_unique(ctr_views(self.counters@))) by {
                        let w = ctr_views(self.counters@);
                        assert forall|a: int, b: int| 0 <= a < b < w.len() implies (
                        #[trigger] w[a]).0 != (#[trigger] w[b]).0 by {
                            if b == w.len() - 1 {
                                assert(w[a].0 == before[a].0);
                            }
                        }
                    }
                }
            }
        }
        if rules.is_excluded(scope.as_str()) {
            proof {
                lemma_excluded_le_len(st0.stack, rules.view_spec());
            }
            self.excluded = self.excluded + 1;
        }
        self.stack.push((loc, scope));
        proof {
            assert(self.view_spec().stack =~= st0.stack.push((loc, scope_view)));
            assert(self.view_spec() == push_step(st0, rules.view_spec(), scope_view, loc));
        }
    }

    /// The count currently recorded for `scope`; zero when none is.
    fn counter_value(&self, scope: &str) -> (r: usize)
        requires
            crate::assoc::pair_keys_unique(ctr_views(self.counters@)),
        ensures
            r as nat == cnt(self.view_spec().counters, scope@),
    {
        let mut i: usize = 0;
        while i < self.counters.len()
            invariant
                0 <= i <= self.counters@.len(),
                forall|j: int| 0 <= j < i ==> ctr_views(self.counters@)[j].0 != scope@,
                crate::assoc::pair_keys_unique(ctr_views(self.counters@)),
            decreases self.counters@.len() - i,
        {
            if crate::chars::str_eq(self.counters[i].0.as_str(), scope) {
                proof {
                    crate::assoc::lemma_pairs_map_get(ctr_views(self.counters@), i as int);
                }
                return self.counters[i].1;
            }
            i = i + 1;
        }
        proof {
            crate::assoc::lemma_pairs_map_dom(ctr_views(self.counters@), scope@);
        }
        0
    }

    /// Applies one single `Pop` at `loc`, yielding the emitted symbol if the
    /// closing region produces one.
    pub fn on_pop(&mut self, rules: &ScopeRules, loc: Loc) -> (r: Option<(Span, String)>)
        requires
            old(self).wf(rules.view_spec()),
        ensures
            final(self).view_spec() == pop_step(old(self).view_spec(), rules.view_spec(), loc).0,
            emit_view(r) == pop_step(old(self).view_spec(), rules.view_spec(), loc).1,
            final(self).wf(rules.view_spec()),
    {
        let ghost st0 = self.view_spec();
        proof {
            lemma_pop_coherent(st0, rules.view_spec(), loc);
        }
        let popped = self.stack.pop();
        let (start, scope) = match popped {
            None => {
                proof {
                    assert(self.view_spec() == st0);
                }
                return None;
            },
            Some(p) => p,
        };
        let ghost scope_view = scope@;
        proof {
            assert(st0.stack.len() > 0);
            assert(st0.stack.last() == (start, scope_view));
            assert(self.view_spec().stack =~= st0.stack.drop_last());
        }
        if rules.is_restricting(scope.as_str()) {
            proof {
                assert(cnt(st0.counters, scope_view) == occurrences(st0.stack, scope_view));
                assert(occurrences(st0.stack, scope_view) >= 1);
                crate::assoc::lemma_pairs_map_dom(ctr_views(self.counters@), scope_view);
            }
            let ghost fi = choose|j: int|
                0 <= j < ctr_views(self.counters@).len() && (#[trigger] ctr_views(
                    self.counters@,
                )[j]).0 == scope_view;
            let mut i: usize = 0;
            let mut found: Option<usize> = None;
            while i < self.counters.len()
                invariant
                    0 <= i <= self.counters@.len(),
                    found is None ==> forall|j: int| 0 <= j < i ==> ctr_views(self.counters@)[j].0
                        != scope_view,
                    match found {
                        Some(k) => k < self.counters@.len()
                            && ctr_views(self.counters@)[k as int].0 == scope_view,
                        None => true,
                    },
                    self.counters@ == old(self).counters@,
                    scope@ == scope_view,
                decreases self.counters@.len() - i,
            {
                if found.is_none() && crate::chars::str_eq(
                    self.counters[i].0.as_str(),
                    scope.as_str(),
                ) {
                    found = Some(i);
                }
                i = i + 1;
            }
            proof {
                if found is None {
                    assert(ctr_views(self.counters@)[fi].0 == scope_view);
                    assert(false);
                }
            }
            if let Some(i) = found {
                proof {
                    crate::assoc::lemma_pairs_map_get(ctr_views(self.counters@), i as int);
                }
                let c = self.counters[i].1;
                assert(c as nat == cnt(st0.counters, scope_view));
                assert(c >= 1);
                let key = self.counters[i].0.clone();
                proof {
                    crate::assoc::lemma_pairs_map_update(ctr_views(self.counters@), i as int, (c - 1) as nat);
                }
                let ghost before = ctr_views(self.counters@);
                self.counters[i] = (key, c - 1);
                assert(ctr_views(self.counters@) =~= before.update(
                    i as int,
                    (before[i as int].0, (c - 1) as nat),
                ));
            }
        }
        if rules.is_excluded(scope.as_str()) {
            proof {
                assert(st0.excluded == excluded_count(st0.stack, rules.view_spec()));
                assert(excluded_count(st0.stack, rules.view_spec()) >= 1);
            }
            self.excluded = self.excluded - 1;
        }
        let ghost stm = pop_step(st0, rules.view_spec(), loc).0;
        proof {
            assert(self.view_spec().stack == stm.stack);
            assert(self.view_spec().counters == stm.counters);
            assert(self.view_spec().excluded == stm.excluded);
        }
        if self.excluded > 0 {
            return None;
        }
        match rules.keep_rule(scope.as_str()) {
            None => None,
            Some(gate) => {
                let span = Span { start, end: loc };
                let gated = match &gate {
                    Some(g) => self.counter_value(g.as_str()) > 0,
                    None => false,
                };
                if gated {
                    return None;
                }
                let duplicate = match &self.last_span {
                    Some(ls) => *ls == span,
                    None => false,
                };
                if duplicate {
                    return None;
                }
                self.last_span = Some(span);
                proof {
                    assert(self.view_spec() == pop_step(st0, rules.view_spec(), loc).0);
                }
                Some((span, scope))
            },
        }
    }
}

/// The view of an emitted symbol: its span and its scope's characters.
pub open spec fn emit_view(r: Option<(Span, String)>) -> Option<(Span, Seq<char>)> {
    match r {
        Some(m) => Some((m.0, m.1@)),
        None => None,
    }
}

/// The views of a list of emitted symbols.
pub open spec fn emit_views(s: Seq<(Span, String)>) -> Seq<(Span, Seq<char>)> {
    s.map_values(|m: (Span, String)| (m.0, m.1@))
}

/// `count + 1` pops are `count` pops followed by one more.
pub proof fn lemma_pop_steps_snoc(st: TrackerView, rules: RulesView, count: nat, loc: Loc)
    ensures
        ({
            let (mid, ems) = pop_steps(st, rules, count, loc);
            let (end, last) = pop_step(mid, rules, loc);
            &&& pop_steps(st, rules, count + 1, loc).0 == end
            &&& pop_steps(st, rules, count + 1, loc).1 == (match last {
                Some(m) => ems.push(m),
                None => ems,
            })
        }),
    decreases count,
{
    if count == 0 {
        reveal_with_fuel(pop_steps, 2);
        let (end, last) = pop_step(st, rules, loc);
        match last {
            Some(m) => {
                assert(pop_steps(st, rules, 1, loc).1 =~= seq![m]);
                assert(pop_steps(st, rules, 0, loc).1.push(m) =~= seq![m]);
            },
            None => {
                assert(pop_steps(st, rules, 1, loc).1 =~= Seq::<(Span, Seq<char>)>::empty());
            },
        }
    } else {
        let (m1, e1) = pop_step(st, rules, loc);
        lemma_pop_steps_snoc(m1, rules, (count - 1) as nat, loc);
        let (mid, ems) = pop_steps(m1, rules, (count - 1) as nat, loc);
        let (end, last) = pop_step(mid, rules, loc);
        match e1 {
            Some(m) => {
                match last {
                    Some(l) => {
                        assert((seq![m] + ems).push(l) =~= seq![m] + ems.push(l));
                    },
                    None => {},
                }
            },
            None => {},
        }
    }
}

impl Tracker {
    /// Applies `Pop(count)` at `loc`: `count` single pops, collecting the
    /// emitted symbols in order.
    pub fn on_pops(&mut self, rules: &ScopeRules, count: usize, loc: Loc) -> (r: Vec<
        (Span, String),
    >)
        requires
            old(self).wf(rules.view_spec()),
        ensures
            final(self).view_spec() == pop_steps(
                old(self).view_spec(),
                rules.view_spec(),
                count as nat,
                loc,
            ).0,
            emit_views(r@) == pop_steps(
                old(self).view_spec(),
                rules.view_spec(),
                count as nat,
                loc,
            ).1,
            final(self).wf(rules.view_spec()),
    {
        let ghost st0 = self.view_spec();
        let ghost rv = rules.view_spec();
        let mut out: Vec<(Span, String)> = Vec::new();
        let mut k: usize = 0;
        proof {
            assert(emit_views(out@) =~= pop_steps(st0, rv, 0, loc).1);
        }
        while k < count
            invariant
                0 <= k <= count,
                old(self).wf(rv),
                self.wf(rv),
                rules.view_spec() == rv,
                self.view_spec() == pop_steps(st0, rv, k as nat, loc).0,
                emit_views(out@) == pop_steps(st0, rv, k as nat, loc).1,
                st0 == old(self).view_spec(),
            decreases count - k,
        {
            proof {
                lemma_pop_steps_snoc(st0, rv, k as nat, loc);
            }
            let ghost before_out = out@;
            let m = self.on_pop(rules, loc);
            match m {
                Some(m) => {
                    out.push(m);
                    proof {
                        assert(emit_views(out@) =~= emit_views(before_out).push((m.0, m.1@)));
                    }
                },
                None => {},
            }
            k = k + 1;
        }
        out
    }
}

// ---------------------------------------------------------------------------
// The per-line annotation stream.
// ---------------------------------------------------------------------------

/// One operation of the grammar engine's annotation stream for a line:
/// `Push` opens a nested region at a column, `Pop` closes the innermost
/// `count` regions at a column.
pub enum ScopeOp {
    Push { column: usize, scope: String },
    Pop { column: usize, count: usize },
}

/// The view of a [`ScopeOp`].
pub enum OpView {
    Push { column: usize, scope: Seq<char> },
    Pop { column: usize, count: usize },
}

pub open spec fn op_view(op: ScopeOp) -> OpView {
    match op {
        ScopeOp::Push { column, scope } => OpView::Push { column, scope: scope@ },
        ScopeOp::Pop { column, count } => OpView::Pop { column, count },
    }
}

pub open spec fn op_views(s: Seq<ScopeOp>) -> Seq<OpView> {
    s.map_values(|op: ScopeOp| op_view(op))
}

/// Running a line's operations in order on line `line`, collecting every
/// emitted symbol.
pub open spec fn run_ops(st: TrackerView, rules: RulesView, line: usize, ops: Seq<OpView>) -> (
    TrackerView,
    Seq<(Span, Seq<char>)>,
)
    decreases ops.len(),
{
    if ops.len() == 0 {
        (st, Seq::empty())
    } else {
        match ops[0] {
            OpView::Push { column, scope } => {
                run_ops(
                    push_step(st, rules, scope, Loc { line, column }),
                    rules,
                    line,
                    ops.drop_first(),
                )
            },
            OpView::Pop { column, count } => {
                let (mid, ems) = pop_steps(st, rules, count as nat, Loc { line, column });
                let (end, rest) = run_ops(mid, rules, line, ops.drop_first());
                (end, ems + rest)
            },
        }
    }
}

proof fn lemma_pop_steps_stack_len(st: TrackerView, rules: RulesView, count: nat, loc: Loc)
    ensures
        pop_steps(st, rules, count, loc).0.stack.len() <= st.stack.len(),
    decreases count,
{
    if count > 0 {
        lemma_pop_steps_stack_len(pop_step(st, rules, loc).0, rules, (count - 1) as nat, loc);
    }
}

impl Tracker {
    /// Runs one line's annotation stream: every operation in order, returning
    /// the symbols the closing regions emit on this line.
    ///
    /// The stack must have room for the line's pushes; the caller skips a
    /// line that would not fit, as it skips a line the engine cannot
    /// tokenize.
    pub fn parse_line(&mut self, rules: &ScopeRules, line: usize, ops: &Vec<ScopeOp>) -> (r: Vec<
        (Span, String),
    >)
        requires
            old(self).wf(rules.view_spec()),
            old(self).view_spec().stack.len() + ops@.len() <= usize::MAX,
        ensures
            final(self).view_spec() == run_ops(
                old(self).view_spec(),
                rules.view_spec(),
                line,
                op_views(ops@),
            ).0,
            emit_views(r@) == run_ops(
                old(self).view_spec(),
                rules.view_spec(),
                line,
                op_views(ops@),
            ).1,
            final(self).wf(rules.view_spec()),
    {
        let ghost st0 = self.view_spec();
        let ghost rv = rules.view_spec();
        let ghost all = op_views(ops@);
        let mut out: Vec<(Span, String)> = Vec::new();
        let mut i: usize = 0;
        proof {
            assert(all.skip(0int) =~= all);
            assert(emit_views(out@) + run_ops(st0, rv, line, all).1 =~= run_ops(
                st0,
                rv,
                line,
                all,
            ).1);
        }
        while i < ops.len()
            invariant
                0 <= i <= ops@.len(),
                self.wf(rv),
                rules.view_spec() == rv,
                all == op_views(ops@),
                run_ops(st0, rv, line, all).0 == run_ops(
                    self.view_spec(),
                    rv,
                    line,
                    all.skip(i as int),
                ).0,
                run_ops(st0, rv, line, all).1 =~= emit_views(out@) + run_ops(
                    self.view_spec(),
                    rv,
                    line,
                    all.skip(i as int),
                ).1,
                self.view_spec().stack.len() + (ops@.len() - i) <= usize::MAX,
            decreases ops@.len() - i,
        {
            let ghost cur = self.view_spec();
            let ghost rem = all.skip(i as int);
            proof {
                assert(rem[0] == all[i as int]);
                assert(rem.drop_first() =~= all.skip(i + 1int));
            }
            match &ops[i] {
                ScopeOp::Push { column, scope } => {
                    self.on_push(rules, scope.clone(), Loc { line, column: *column });
                    proof {
                        assert(run_ops(cur, rv, line, rem).0 == run_ops(
                            self.view_spec(),
                            rv,
                            line,
                            all.skip(i + 1int),
                        ).0);
                        assert(run_ops(cur, rv, line, rem).1 =~= run_ops(
                            self.view_spec(),
                            rv,
                            line,
                            all.skip(i + 1int),
                        ).1);
                    }
                },
                ScopeOp::Pop { column, count } => {
                    let ghost before_out = out@;
                    let mut ems = self.on_pops(rules, *count, Loc { line, column: *column });
                    proof {
                        lemma_pop_steps_stack_len(
                            cur,
                            rv,
                            *count as nat,
                            Loc { line, column: *column },
                        );
                    }
                    let ghost ems_snap = ems@;
                    out.append(&mut ems);
                    proof {
                        assert(emit_views(out@) =~= emit_views(before_out) + emit_views(ems_snap));
                        let (mid, popped) = pop_steps(
                            cur,
                            rv,
                            *count as nat,
                            Loc { line, column: *column },
                        );
                        let (fin, rest) = run_ops(self.view_spec(), rv, line, all.skip(i + 1int));
                        assert(run_ops(cur, rv, line, rem).1 =~= popped + rest);
                        assert(emit_views(before_out) + (popped + rest) =~= (emit_views(before_out)
                            + popped) + rest);
                    }
                },
            }
            i = i + 1;
        }
        proof {
            assert(all.skip(ops@.len() as int).len() == 0);
            assert(emit_views(out@) + Seq::<(Span, Seq<char>)>::empty() =~= emit_views(out@));
        }
        out
    }
}

// ---------------------------------------------------------------------------
// The strategy's laws.
// ---------------------------------------------------------------------------

proof fn lemma_excluded_count_pos(stack: Seq<(Loc, Seq<char>)>, rules: RulesView, j: int)
    requires
        0 <= j < stack.len(),
        rules.is_excluded(stack[j].1),
    ensures
        excluded_count(stack, rules) >= 1,
    decreases stack.len(),
{
    if j == stack.len() - 1 {
    } else {
        assert(stack.drop_last()[j] == stack[j]);
        lemma_excluded_count_pos(stack.drop_last(), rules, j);
    }
}

/// Exclusion dominates every other rule: when a region closes while an
/// excluded region is still open around it, no symbol is emitted — whatever
/// the keep rules say of the closing scope, and in particular when that
/// scope is a restricting one.
pub proof fn lemma_exclude_dominates(st: TrackerView, rules: RulesView, loc: Loc, j: int)
    requires
        coherent(st, rules),
        st.stack.len() > 0,
        0 <= j < st.stack.len() - 1,
        rules.is_excluded(st.stack[j].1),
    ensures
        pop_steps(st, rules, 1, loc).1 == Seq::<(Span, Seq<char>)>::empty(),
        pop_step(st, rules, loc).1 is None,
{
    let inner = st.stack.drop_last();
    assert(inner[j] == st.stack[j]);
    lemma_excluded_count_pos(inner, rules, j);
    assert(excluded_count(st.stack, rules) == excluded_count(inner, rules) + (if rules.is_excluded(
        st.stack.last().1,
    ) {
        1nat
    } else {
        0nat
    }));
    assert(st.excluded == excluded_count(st.stack, rules));
    reveal_with_fuel(pop_steps, 2);
    assert(pop_steps(st, rules, 1, loc).1 =~= Seq::<(Span, Seq<char>)>::empty());
}

/// Gate activation: when a kept scope gated by `g` closes with no excluded
/// region open around it and no duplicate span, the symbol is emitted if and
/// only if no region of `g` is then open. Nested inside an active gate the
/// symbol is suppressed; beside an inactive gate it is emitted.
pub proof fn lemma_gate_activation(st: TrackerView, rules: RulesView, loc: Loc)
    requires
        coherent(st, rules),
        rules.wf(),
        st.stack.len() > 0,
        rules.keep_rule(st.stack.last().1) matches Some(Some(g)),
        excluded_count(st.stack.drop_last(), rules) == 0,
        !rules.is_excluded(st.stack.last().1),
        st.last_span != Some(Span { start: st.stack.last().0, end: loc }),
    ensures
        ({
            let g = rules.keep_rule(st.stack.last().1)->Some_0->Some_0;
            let active = occurrences(st.stack.drop_last(), g) > 0;
            &&& active ==> pop_step(st, rules, loc).1 is None
            &&& !active ==> pop_step(st, rules, loc).1 == Some(
                (Span { start: st.stack.last().0, end: loc }, st.stack.last().1),
            )
        }),
{
    let scope = st.stack.last().1;
    let g = rules.keep_rule(scope)->Some_0->Some_0;
    assert(rules.is_restricting(g)) by {
        lemma_rule_for_gate(rules.keep, scope);
    }
    let counters2 = if rules.is_restricting(scope) {
        st.counters.insert(
            scope,
            if cnt(st.counters, scope) > 0 {
                (cnt(st.counters, scope) - 1) as nat
            } else {
                0
            },
        )
    } else {
        st.counters
    };
    assert(excluded_count(st.stack, rules) == excluded_count(st.stack.drop_last(), rules));
    assert(cnt(counters2, g) == occurrences(st.stack.drop_last(), g)) by {
        assert(cnt(st.counters, g) == occurrences(st.stack, g));
        if rules.is_restricting(scope) {
            assert(cnt(st.counters, scope) == occurrences(st.stack, scope));
            assert(occurrences(st.stack, scope) == occurrences(st.stack.drop_last(), scope) + 1);
            if g == scope {
            } else {
                assert(occurrences(st.stack, g) == occurrences(st.stack.drop_last(), g));
            }
        } else {
            assert(g != scope);
            assert(occurrences(st.stack, g) == occurrences(st.stack.drop_last(), g));
        }
    }
}

/// Whatever scope a matching keep rule names as its gating scope is a
/// restricting scope.
proof fn lemma_rule_for_gate(pairs: Seq<(Seq<char>, Option<Seq<char>>)>, key: Seq<char>)
    requires
        rule_for(pairs, key) matches Some(Some(_)),
    ensures
        exists|i: int|
            0 <= i < pairs.len() && (#[trigger] pairs[i]).1 == rule_for(pairs, key)->Some_0,
    decreases pairs.len(),
{
    if pairs.len() > 0 {
        if pairs[0].0 == key {
            assert(pairs[0].1 == rule_for(pairs, key)->Some_0);
        } else {
            lemma_rule_for_gate(pairs.drop_first(), key);
            let i = choose|i: int|
                0 <= i < pairs.drop_first().len() && (#[trigger] pairs.drop_first()[i]).1
                    == rule_for(pairs.drop_first(), key)->Some_0;
            assert(pairs[i + 1].1 == rule_for(pairs, key)->Some_0);
        }
    }
}

/// Span deduplication: an emitted symbol records its span, and the next pop
/// never emits that same span again — two consecutive pops that close
/// identical spans yield exactly one symbol.
pub proof fn lemma_span_dedup(st: TrackerView, rules: RulesView, loc: Loc)
    requires
        pop_step(st, rules, loc).1 is Some,
    ensures
        ({
            let (st1, first) = pop_step(st, rules, loc);
            let (st2, second) = pop_step(st1, rules, loc);
            second is Some ==> second->Some_0.0 != first->Some_0.0
        }),
{
}

// ---------------------------------------------------------------------------
// Scope expressions of the configuration.
// ---------------------------------------------------------------------------

/// What is left of `s` after dropping leading spaces.
pub open spec fn trim_front(s: Seq<char>) -> Seq<char>
    decreases s.len(),
{
    if s.len() > 0 && s[0] == ' ' {
        trim_front(s.drop_first())
    } else {
        s
    }
}

/// What is left of `s` after dropping trailing spaces.
pub open spec fn trim_back(s: Seq<char>) -> Seq<char>
    decreases s.len(),
{
    if s.len() > 0 && s.last() == ' ' {
        trim_back(s.drop_last())
    } else {
        s
    }
}

/// `s` without leading and trailing spaces.
pub open spec fn trim_spec(s: Seq<char>) -> Seq<char> {
    trim_back(trim_front(s))
}

/// Trims leading and trailing spaces.
pub fn trim_chars(v: &Vec<char>) -> (r: Vec<char>)
    ensures
        r@ == trim_spec(v@),
{
    let n = v.len();
    let mut start: usize = 0;
    proof {
        assert(v@.skip(0int) =~= v@);
    }
    while start < n && v[start] == ' '
        invariant
            0 <= start <= n,
            n == v@.len(),
            trim_front(v@) == trim_front(v@.skip(start as int)),
        decreases n - start,
    {
        proof {
            assert(v@.skip(start as int)[0] == v@[start as int]);
            assert(v@.skip(start as int).drop_first() =~= v@.skip(start + 1int));
        }
        start = start + 1;
    }
    proof {
        if start < n {
            assert(v@.skip(start as int)[0] == v@[start as int]);
        }
        assert(trim_front(v@) == v@.skip(start as int));
    }
    let ghost t = v@.skip(start as int);
    let mut stop: usize = n;
    proof {
        assert(t.take(n - start as int) =~= t);
    }
    while stop > start && v[stop - 1] == ' '
        invariant
            start <= stop <= n,
            n == v@.len(),
            t == v@.skip(start as int),
            trim_back(t) == trim_back(t.take(stop - start as int)),
        decreases stop,
    {
        proof {
            let k = stop - start as int;
            assert(t.take(k).last() == v@[stop - 1int]);
            assert(t.take(k).drop_last() =~= t.take(k - 1));
        }
        stop = stop - 1;
    }
    proof {
        let k = stop - start as int;
        if stop > start {
            assert(t.take(k).last() == v@[stop - 1int]);
        }
        assert(trim_back(t.take(k)) == t.take(k));
        assert(t.take(k) =~= v@.subrange(start as int, stop as int));
    }
    crate::chars::sub_chars(v, start, stop)
}

/// One scope expression of the configuration: a scope to keep, optionally
/// followed by `-` and the scope that gates it.
pub struct ScopeExpr {
    pub scope: String,
    pub exclude: Option<String>,
}

/// A character an atom of a scope name may carry.
pub open spec fn atom_char(c: char) -> bool {
    ('a' <= c && c <= 'z') || ('A' <= c && c <= 'Z') || ('0' <= c && c <= '9') || c == '-' || c
        == '+' || c == '_'
}

/// A valid scope name: one to eight non-empty dot-separated atoms of
/// letters, digits, `-`, `+` and `_` — the shape a grammar engine's scope
/// repository accepts.
pub open spec fn valid_scope(s: Seq<char>) -> bool {
    let atoms = crate::chars::split_on(s, '.');
    &&& atoms.len() <= 8
    &&& forall|i: int| 0 <= i < atoms.len() ==> (#[trigger] atoms[i]).len() >= 1
    &&& forall|i: int, j: int|
        0 <= i < atoms.len() && 0 <= j < (#[trigger] atoms[i]).len() ==> atom_char(
            #[trigger] atoms[i][j],
        )
}

/// Checks a scope name against [`valid_scope`].
fn check_scope(v: &Vec<char>) -> (r: bool)
    ensures
        r == valid_scope(v@),
{
    let atoms = crate::chars::split_chars(v, '.');
    if atoms.len() > 8 {
        return false;
    }
    let mut i: usize = 0;
    while i < atoms.len()
        invariant
            0 <= i <= atoms@.len(),
            crate::chars::seq_views(atoms@) == crate::chars::split_on(v@, '.'),
            atoms@.len() <= 8,
            forall|a: int|
                0 <= a < i ==> (#[trigger] crate::chars::seq_views(atoms@)[a]).len() >= 1,
            forall|a: int, j: int|
                0 <= a < i && 0 <= j < (#[trigger] crate::chars::seq_views(atoms@)[a]).len()
                    ==> atom_char(#[trigger] crate::chars::seq_views(atoms@)[a][j]),
        decreases atoms@.len() - i,
    {
        if atoms[i].len() == 0 {
            proof {
                assert(crate::chars::seq_views(atoms@)[i as int].len() == 0);
            }
            return false;
        }
        let mut j: usize = 0;
        while j < atoms[i].len()
            invariant
                0 <= i < atoms@.len(),
                0 <= j <= atoms@[i as int]@.len(),
                crate::chars::seq_views(atoms@) == crate::chars::split_on(v@, '.'),
                forall|b: int|
                    0 <= b < j ==> atom_char(#[trigger] atoms@[i as int]@[b]),
            decreases atoms@[i as int]@.len() - j,
        {
            let c = atoms[i][j];
            let ok = ('a' <= c && c <= 'z') || ('A' <= c && c <= 'Z') || ('0' <= c && c <= '9')
                || c == '-' || c == '+' || c == '_';
            if !ok {
                proof {
                    assert(crate::chars::seq_views(atoms@)[i as int][j as int] == atoms@[
                        i as int
                    ]@[j as int]);
                    assert(!atom_char(crate::chars::seq_views(atoms@)[i as int][j as int]));
                }
                return false;
            }
            j = j + 1;
        }
        proof {
            assert(crate::chars::seq_views(atoms@)[i as int] == atoms@[i as int]@);
        }
        i = i + 1;
    }
    true
}

/// What a scope-expression string denotes: one valid, space-trimmed scope
/// name, or two separated by `-` (the second the gating scope); anything
/// else — a third part or an invalid name — is malformed.
pub open spec fn scope_expr_spec(s: Seq<char>) -> Option<(Seq<char>, Option<Seq<char>>)> {
    let parts = crate::chars::split_on(s, '-');
    if parts.len() == 1 {
        if valid_scope(trim_spec(parts[0])) {
            Some((trim_spec(parts[0]), None::<Seq<char>>))
        } else {
            None
        }
    } else if parts.len() == 2 {
        if valid_scope(trim_spec(parts[0])) && valid_scope(trim_spec(parts[1])) {
            Some((trim_spec(parts[0]), Some(trim_spec(parts[1]))))
        } else {
            None
        }
    } else {
        None
    }
}

impl ScopeExpr {
    /// Parses a scope expression; an error exactly when the string holds
    /// more than one `-` or an invalid scope name.
    pub fn parse(s: &str) -> (r: Result<ScopeExpr, ()>)
        ensures
            match r {
                Ok(e) => scope_expr_spec(s@) == Some(
                    (
                        e.scope@,
                        match e.exclude {
                            Some(x) => Some(x@),
                            None => None::<Seq<char>>,
                        },
                    ),
                ),
                Err(_) => scope_expr_spec(s@) is None,
            },
    {
        let v = crate::chars::chars_of_str(s);
        let parts = crate::chars::split_chars(&v, '-');
        if parts.len() == 1 {
            let scope_chars = trim_chars(&parts[0]);
            proof {
                assert(crate::chars::seq_views(parts@)[0] == parts@[0]@);
            }
            if !check_scope(&scope_chars) {
                return Err(());
            }
            Ok(ScopeExpr { scope: crate::chars::string_of_chars(&scope_chars), exclude: None })
        } else if parts.len() == 2 {
            let scope_chars = trim_chars(&parts[0]);
            let exclude_chars = trim_chars(&parts[1]);
            proof {
                assert(crate::chars::seq_views(parts@)[0] == parts@[0]@);
                assert(crate::chars::seq_views(parts@)[1] == parts@[1]@);
            }
            if !check_scope(&scope_chars) || !check_scope(&exclude_chars) {
                return Err(());
            }
            Ok(
                ScopeExpr {
                    scope: crate::chars::string_of_chars(&scope_chars),
                    exclude: Some(crate::chars::string_of_chars(&exclude_chars)),
                },
            )
        } else {
            Err(())
        }
    }
}

/// Whether `items` contains the string `key`.
fn contains_str(items: &Vec<String>, key: &str) -> (r: bool)
    ensures
        r == str_views(items@).contains(key@),
{
    let mut i: usize = 0;
    while i < items.len()
        invariant
            0 <= i <= items@.len(),
            forall|j: int| 0 <= j < i ==> str_views(items@)[j] != key@,
        decreases items@.len() - i,
    {
        if crate::chars::str_eq(items[i].as_str(), key) {
            assert(str_views(items@)[i as int] == key@);
            return true;
        }
        i = i + 1;
    }
    assert(forall|j: int| 0 <= j < str_views(items@).len() ==> str_views(items@)[j] != key@);
    false
}

} // verus!
