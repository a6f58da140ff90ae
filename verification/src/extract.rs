//! The whole-file driver of the scope-stack strategy: feeds each line's
//! annotation stream through the tracker, turns every emitted span into a
//! located, classified symbol with its literal text, and concatenates the
//! lines' symbols in order.
//!
//! A region still open when the file ends is abandoned without a symbol, and
//! a span that crosses lines reports the sentinel text `...` instead of a
//! substring — the strategy deliberately extracts text per line.

use vstd::prelude::*;

verus! {

use crate::chars::{chars_of_str, string_of_chars, sub_chars};
use crate::classify::{classify_spec, Classifier};
use crate::scopes::{
    emit_views,
    op_views,
    run_ops,
    OpView,
    RulesView,
    ScopeOp,
    ScopeRules,
    Tracker,
    TrackerView,
};
use crate::symbol::Kind;
use crate::text::{Loc, Span};

/// The literal text a span denotes on the line it closes on: the characters
/// between its columns when it lies within that line, the sentinel `...` for
/// a span that crosses lines or overruns the line.
pub open spec fn span_text(line: Seq<char>, span: Span) -> Seq<char> {
    if span.start.line == span.end.line && span.start.column <= span.end.column
        && span.end.column <= line.len() {
        line.subrange(span.start.column as int, span.end.column as int)
    } else {
        "..."@
    }
}

/// The symbols a line's emitted matches denote: start location, text, kind.
pub open spec fn line_symbols_spec(line: Seq<char>, ms: Seq<(Span, Seq<char>)>) -> Seq<
    (Loc, Seq<char>, Kind),
> {
    ms.map_values(|m: (Span, Seq<char>)| (m.0.start, span_text(line, m.0), classify_spec(m.1)))
}

/// The view of one extracted symbol.
pub open spec fn sym_view(t: (Loc, String, Kind)) -> (Loc, Seq<char>, Kind) {
    (t.0, t.1@, t.2)
}

/// The views of extracted symbols.
pub open spec fn sym_views(s: Seq<(Loc, String, Kind)>) -> Seq<(Loc, Seq<char>, Kind)> {
    s.map_values(|t: (Loc, String, Kind)| sym_view(t))
}

/// Turns one line's matches into symbols, classifying each annotation
/// through the memoizing classifier (the same annotation recurs across a
/// file).
pub fn line_symbols(
    classifier: &mut Classifier,
    line_chars: &Vec<char>,
    ms: &Vec<(Span, String)>,
) -> (r: Vec<(Loc, String, Kind)>)
    requires
        old(classifier).wf(),
    ensures
        final(classifier).wf(),
        sym_views(r@) == line_symbols_spec(line_chars@, emit_views(ms@)),
{
    let mut r: Vec<(Loc, String, Kind)> = Vec::new();
    let mut i: usize = 0;
    while i < ms.len()
        invariant
            0 <= i <= ms@.len(),
            classifier.wf(),
            sym_views(r@) =~= line_symbols_spec(line_chars@, emit_views(ms@)).take(i as int),
        decreases ms@.len() - i,
    {
        let span = ms[i].0;
        let kind = classifier.classify(ms[i].1.as_str());
        let text: String = if span.start.line == span.end.line && span.start.column
            <= span.end.column && span.end.column <= line_chars.len() {
            let sub = sub_chars(line_chars, span.start.column, span.end.column);
            string_of_chars(&sub)
        } else {
            proof {
                reveal_strlit("...");
            }
            let dots = chars_of_str("...");
            string_of_chars(&dots)
        };
        let ghost before = r@;
        r.push((span.start, text, kind));
        proof {
            assert(sym_views(r@) =~= sym_views(before).push(
                (span.start, text@, kind),
            ));
            assert(sym_views(r@) =~= line_symbols_spec(line_chars@, emit_views(ms@)).take(
                i + 1int,
            ));
        }
        i = i + 1;
    }
    proof {
        let full = line_symbols_spec(line_chars@, emit_views(ms@));
        assert(full.take(full.len() as int) =~= full);
    }
    r
}

/// The views of the lines handed to the driver: text and annotation stream.
pub open spec fn line_views(s: Seq<(String, Vec<ScopeOp>)>) -> Seq<(Seq<char>, Seq<OpView>)> {
    s.map_values(|l: (String, Vec<ScopeOp>)| (l.0@, op_views(l.1@)))
}

/// Scanning the remaining lines from state `st`, numbering them from
/// `line`: each line's operations run in order; a line whose stream would
/// not fit the stack is skipped, like a line the engine cannot tokenize.
pub open spec fn scan_lines(
    st: TrackerView,
    rules: RulesView,
    lines: Seq<(Seq<char>, Seq<OpView>)>,
    line: usize,
) -> (TrackerView, Seq<(Loc, Seq<char>, Kind)>)
    decreases lines.len(),
{
    if lines.len() == 0 {
        (st, Seq::empty())
    } else {
        let (text, ops) = lines[0];
        if st.stack.len() + ops.len() > usize::MAX {
            scan_lines(st, rules, lines.drop_first(), ((line + 1) as usize))
        } else {
            let (mid, ems) = run_ops(st, rules, line, ops);
            let (end, rest) = scan_lines(mid, rules, lines.drop_first(), ((line + 1) as usize))
            ;
            (end, line_symbols_spec(text, ems) + rest)
        }
    }
}

/// Extracts every symbol of a file under the scope-stack strategy: a fresh
/// tracker scans the lines in order, and the symbols appear in line order.
pub fn extract_scope_file(rules: &ScopeRules, lines: &Vec<(String, Vec<ScopeOp>)>) -> (r: Vec<
    (Loc, String, Kind),
>)
    requires
        lines@.len() < usize::MAX,
    ensures
        sym_views(r@) == scan_lines(
            TrackerView {
                stack: Seq::empty(),
                counters: Map::empty(),
                excluded: 0nat,
                last_span: None,
            },
            rules.view_spec(),
            line_views(lines@),
            1,
        ).1,
{
    let ghost rv = rules.view_spec();
    let ghost all = line_views(lines@);
    let mut classifier = Classifier::new();
    let mut tracker = Tracker::new();
    let ghost st0 = tracker.view_spec();
    let mut out: Vec<(Loc, String, Kind)> = Vec::new();
    let mut i: usize = 0;
    proof {
        assert(all.skip(0int) =~= all);
        assert(sym_views(out@) + scan_lines(st0, rv, all, 1).1 =~= scan_lines(st0, rv, all, 1).1);
    }
    while i < lines.len()
        invariant
            0 <= i <= lines@.len(),
            lines@.len() < usize::MAX,
            tracker.wf(rv),
            classifier.wf(),
            rules.view_spec() == rv,
            all == line_views(lines@),
            scan_lines(st0, rv, all, 1).0 == scan_lines(
                tracker.view_spec(),
                rv,
                all.skip(i as int),
                (i + 1) as usize,
            ).0,
            scan_lines(st0, rv, all, 1).1 =~= sym_views(out@) + scan_lines(
                tracker.view_spec(),
                rv,
                all.skip(i as int),
                (i + 1) as usize,
            ).1,
        decreases lines@.len() - i,
    {
        let ghost cur = tracker.view_spec();
        let ghost rem = all.skip(i as int);
        proof {
            assert(rem[0] == all[i as int]);
            assert(rem.drop_first() =~= all.skip(i + 1int));
        }
        let line_no = i + 1;
        let ops_len = lines[i].1.len();
        let fits = tracker.stack.len() <= usize::MAX - ops_len;
        if fits {
            let line_chars = chars_of_str(lines[i].0.as_str());
            let ms = tracker.parse_line(rules, line_no, &lines[i].1);
            let mut syms = line_symbols(&mut classifier, &line_chars, &ms);
            let ghost before_out = out@;
            let ghost syms_snap = syms@;
            out.append(&mut syms);
            proof {
                assert(sym_views(out@) =~= sym_views(before_out) + sym_views(syms_snap));
                let (mid, ems) = run_ops(cur, rv, line_no, rem[0].1);
                let (fin, rest) = scan_lines(mid, rv, all.skip(i + 1int), (line_no + 1) as usize);
                assert(scan_lines(cur, rv, rem, line_no as usize).1 =~= line_symbols_spec(
                    rem[0].0,
                    ems,
                ) + rest);
                assert(sym_views(before_out) + (line_symbols_spec(rem[0].0, ems) + rest) =~= (
                sym_views(before_out) + line_symbols_spec(rem[0].0, ems)) + rest);
            }
        } else {
            proof {
                assert(cur.stack.len() + rem[0].1.len() > usize::MAX);
            }
        }
        i = i + 1;
    }
    proof {
        assert(all.skip(lines@.len() as int).len() == 0);
        assert(sym_views(out@) + Seq::<(Loc, Seq<char>, Kind)>::empty() =~= sym_views(out@));
    }
    out
}

} // verus!
