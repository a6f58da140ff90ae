//! The query extraction strategy: whole-file structural queries, run per
//! language and per symbol kind against a parsed syntax tree. The grammar
//! engine's whole answer for one query over one file — a list of capture
//! byte ranges — is deterministic (grammar, query and content alone decide
//! it, with no timeout or cancellation in use), so it is given a name;
//! everything from those ranges to located, classified symbols is verified.

use vstd::prelude::*;

use streaming_iterator::StreamingIterator;

verus! {

use vstd::string::StringSliceAdditionalSpecFns;
use vstd::utf8::{decode_utf8, is_char_boundary};

use crate::config::Language;
use crate::symbol::Kind;
use crate::text::Loc;

/// One language's grammar, as the engine holds it. Held opaquely: the
/// crate's own `Language` enum would clash with declaring the engine's type
/// of the same name.
#[verifier::external_body]
pub struct Grammar {
    pub(crate) inner: tree_sitter::Language,
}

/// Relies on the C grammar crate's `LANGUAGE` constant.
#[verifier::external_body]
pub fn grammar_c() -> Grammar {
    Grammar { inner: tree_sitter_c::LANGUAGE.into() }
}

/// Relies on the Go grammar crate's `LANGUAGE` constant.
#[verifier::external_body]
pub fn grammar_go() -> Grammar {
    Grammar { inner: tree_sitter_go::LANGUAGE.into() }
}

/// Relies on the Haskell grammar crate's `LANGUAGE` constant.
#[verifier::external_body]
pub fn grammar_haskell() -> Grammar {
    Grammar { inner: tree_sitter_haskell::LANGUAGE.into() }
}

/// Relies on the Python grammar crate's `LANGUAGE` constant.
#[verifier::external_body]
pub fn grammar_python() -> Grammar {
    Grammar { inner: tree_sitter_python::LANGUAGE.into() }
}

/// Relies on the Rust grammar crate's `LANGUAGE` constant.
#[verifier::external_body]
pub fn grammar_rust() -> Grammar {
    Grammar { inner: tree_sitter_rust::LANGUAGE.into() }
}

/// Relies on the TypeScript grammar crate's `LANGUAGE_TSX` constant.
#[verifier::external_body]
pub fn grammar_typescript() -> Grammar {
    Grammar { inner: tree_sitter_typescript::LANGUAGE_TSX.into() }
}

/// Whether the engine compiles `query` for `language`'s grammar: a function
/// of the grammar and the query source alone.
pub uninterp spec fn query_compiles(language: Language, query: Seq<char>) -> bool;

/// The engine's whole answer for one structural query over one file: the
/// captures' byte ranges, in match order. `None` when the grammar does not
/// load or the query does not compile; the ranges are a function of the
/// grammar, the query source and the content alone.
pub uninterp spec fn engine_captures(language: Language, query: Seq<char>, content: Seq<char>)
    -> Option<Seq<(usize, usize)>>;

/// Relies on `tree_sitter::Query::new` and the grammar constants: whether
/// one query source compiles for one language.
#[verifier::external_body]
pub fn check_query(language: Language, source: &str) -> (r: bool)
    ensures
        r == query_compiles(language, source@),
{
    tree_sitter::Query::new(&language.to_tree_sitter().inner, source).is_ok()
}

/// The engine could not work on the file: the grammar did not load, or a
/// query did not compile against it. The file is skipped; the run goes on.
#[derive(Clone, Copy, Debug, PartialEq, Eq, Structural)]
pub enum ParseError {
    Grammar,
    Parse,
}

#[verifier::external_type_specification]
#[verifier::external_body]
pub struct ExTsTree(tree_sitter::Tree);

/// Relies on `tree_sitter::Parser::{new,set_language,parse}`: parses the
/// file. In the engine's source, `set_language` fails only on a grammar
/// version mismatch and `parse` cannot fail once a language is set, so
/// `None` means the grammar did not load.
#[verifier::external_body]
fn parse_tree(grammar: &Grammar, content: &str) -> Option<tree_sitter::Tree> {
    let mut parser = tree_sitter::Parser::new();
    parser.set_language(&grammar.inner).ok()?;
    parser.parse(content.as_bytes(), None)
}

/// Relies on `tree_sitter::Query::new`,
/// `tree_sitter::QueryCursor::{new,matches}` and `StreamingIterator::next`:
/// runs one query over one parsed file and hands every capture's byte range
/// back, in match order — exactly the named outcome, since grammar, query
/// and content alone decide it.
#[verifier::external_body]
fn run_query(language: Language, source: &str, content: &str) -> (r: Result<
    Vec<(usize, usize)>,
    ParseError,
>)
    ensures
        r matches Ok(ranges) ==> engine_captures(language, source@, content@) == Some(ranges@),
        r is Err <==> engine_captures(language, source@, content@) is None,
{
    let grammar = language.to_tree_sitter();
    let Some(tree) = parse_tree(&grammar, content) else {
        return Err(ParseError::Grammar);
    };
    let Ok(query) = tree_sitter::Query::new(&grammar.inner, source) else {
        return Err(ParseError::Parse);
    };
    let mut cursor = tree_sitter::QueryCursor::new();
    let mut matches = cursor.matches(&query, tree.root_node(), content.as_bytes());
    let mut ranges = Vec::new();
    while let Some(m) = matches.next() {
        ranges.extend(m.captures().iter().map(|c| (c.node.start_byte(), c.node.end_byte())));
    }
    Ok(ranges)
}

// ---------------------------------------------------------------------------
// Verified conversion of captures to symbols.
// ---------------------------------------------------------------------------

/// The line and column (1-based, 0-based) reached after reading `off` bytes
/// of the text: each newline byte starts a new line, every other byte
/// advances the column.
pub open spec fn loc_after(bytes: Seq<u8>, off: nat) -> (nat, nat)
    decreases off,
{
    if off == 0 {
        (1nat, 0nat)
    } else {
        let p = loc_after(bytes, (off - 1) as nat);
        if bytes[off - 1] == 10u8 {
            ((p.0 + 1) as nat, 0nat)
        } else {
            (p.0, (p.1 + 1) as nat)
        }
    }
}

/// Computes the location of byte offset `off` over the text.
pub fn loc_of_offset(bytes: &[u8], off: usize) -> (r: Loc)
    requires
        off <= bytes@.len(),
        off < usize::MAX,
    ensures
        r.line == loc_after(bytes@, off as nat).0,
        r.column == loc_after(bytes@, off as nat).1,
        r.wf(),
{
    let mut line: usize = 1;
    let mut column: usize = 0;
    let mut i: usize = 0;
    while i < off
        invariant
            0 <= i <= off <= bytes@.len(),
            off < usize::MAX,
            line == loc_after(bytes@, i as nat).0,
            column == loc_after(bytes@, i as nat).1,
            1 <= line <= 1 + i,
            column <= i,
        decreases off - i,
    {
        if bytes[i] == 10 {
            line = line + 1;
            column = 0;
        } else {
            column = column + 1;
        }
        i = i + 1;
    }
    Loc { line, column }
}

/// A capture's byte range is usable when it lies within the text, starts on
/// a character boundary, and ends on a character boundary of the tail (the
/// start must also leave room for a 1-based line count).
pub open spec fn capture_ok(bytes: Seq<u8>, start: nat, end: nat) -> bool {
    &&& start <= end <= bytes.len()
    &&& start < usize::MAX
    &&& is_char_boundary(bytes, start as int)
    &&& is_char_boundary(bytes.subrange(start as int, bytes.len() as int), (end - start) as int)
}

/// The symbol one usable capture denotes over the text: the location of its
/// first byte, exactly its bytes as text, and the query's kind.
pub open spec fn range_symbol(bytes: Seq<u8>, start: nat, end: nat, kind: Kind) -> (
    Loc,
    Seq<char>,
    Kind,
) {
    (
        Loc {
            line: loc_after(bytes, start).0 as usize,
            column: loc_after(bytes, start).1 as usize,
        },
        decode_utf8(bytes.subrange(start as int, end as int)),
        kind,
    )
}

/// The symbols a list of capture ranges denotes, in order; an unusable
/// range denotes none.
pub open spec fn ranges_symbols(bytes: Seq<u8>, kind: Kind, ranges: Seq<(usize, usize)>) -> Seq<
    (Loc, Seq<char>, Kind),
>
    decreases ranges.len(),
{
    if ranges.len() == 0 {
        Seq::empty()
    } else {
        let head: Seq<(Loc, Seq<char>, Kind)> = if capture_ok(
            bytes,
            ranges[0].0 as nat,
            ranges[0].1 as nat,
        ) {
            seq![range_symbol(bytes, ranges[0].0 as nat, ranges[0].1 as nat, kind)]
        } else {
            Seq::empty()
        };
        head + ranges_symbols(bytes, kind, ranges.drop_first())
    }
}

/// Converts one capture to a symbol; `None` exactly on an unusable range.
pub fn capture_to_symbol(content: &str, start: usize, end: usize, kind: Kind) -> (r: Option<
    (Loc, String, Kind),
>)
    ensures
        r is Some <==> capture_ok(content.spec_bytes(), start as nat, end as nat),
        r matches Some(sym) ==> crate::extract::sym_view(sym) == range_symbol(
            content.spec_bytes(),
            start as nat,
            end as nat,
            kind,
        ),
{
    let byte_slice = content.as_bytes();
    let len = byte_slice.len();
    proof {
        assert(len == content.spec_bytes().len());
    }
    if start > end || end > len {
        return None;
    }
    if start == usize::MAX {
        return None;
    }
    if !content.is_char_boundary(start) {
        return None;
    }
    let (_, tail) = content.split_at(start);
    proof {
        assert(tail.spec_bytes() == content.spec_bytes().subrange(
            start as int,
            content.spec_bytes().len() as int,
        ));
    }
    if !tail.is_char_boundary(end - start) {
        return None;
    }
    let (mid, _) = tail.split_at(end - start);
    proof {
        assert(mid.spec_bytes() =~= content.spec_bytes().subrange(start as int, end as int));
    }
    let text = mid.to_owned();
    let loc = loc_of_offset(byte_slice, start);
    proof {
        vstd::utf8::encode_utf8_decode_utf8(text@);
        assert(decode_utf8(content.spec_bytes().subrange(start as int, end as int)) == text@);
    }
    Some((loc, text, kind))
}

/// Converts one query's capture ranges to symbols, in order.
fn ranges_to_symbols(content: &str, kind: Kind, ranges: &Vec<(usize, usize)>) -> (r: Vec<
    (Loc, String, Kind),
>)
    ensures
        crate::extract::sym_views(r@) == ranges_symbols(content.spec_bytes(), kind, ranges@),
{
    let ghost all = ranges@;
    let mut out: Vec<(Loc, String, Kind)> = Vec::new();
    let mut i: usize = 0;
    proof {
        assert(all.skip(0int) =~= all);
        assert(crate::extract::sym_views(out@) + ranges_symbols(content.spec_bytes(), kind, all)
            =~= ranges_symbols(content.spec_bytes(), kind, all));
    }
    while i < ranges.len()
        invariant
            0 <= i <= ranges@.len(),
            all == ranges@,
            ranges_symbols(content.spec_bytes(), kind, all) =~= crate::extract::sym_views(out@)
                + ranges_symbols(content.spec_bytes(), kind, all.skip(i as int)),
        decreases ranges@.len() - i,
    {
        let ghost rem = all.skip(i as int);
        proof {
            assert(rem[0] == all[i as int]);
            assert(rem.drop_first() =~= all.skip(i + 1int));
        }
        let ghost before = out@;
        match capture_to_symbol(content, ranges[i].0, ranges[i].1, kind) {
            Some(sym) => {
                out.push(sym);
                proof {
                    assert(crate::extract::sym_views(out@) =~= crate::extract::sym_views(
                        before,
                    ).push(crate::extract::sym_view(sym)));
                    assert(crate::extract::sym_views(before) + (seq![
                        range_symbol(
                            content.spec_bytes(),
                            all[i as int].0 as nat,
                            all[i as int].1 as nat,
                            kind,
                        ),
                    ] + ranges_symbols(content.spec_bytes(), kind, all.skip(i + 1int))) =~= (
                    crate::extract::sym_views(out@) + ranges_symbols(
                        content.spec_bytes(),
                        kind,
                        all.skip(i + 1int),
                    )));
                }
            },
            None => {},
        }
        i = i + 1;
    }
    proof {
        assert(all.skip(ranges@.len() as int).len() == 0);
        assert(crate::extract::sym_views(out@) + Seq::<(Loc, Seq<char>, Kind)>::empty()
            =~= crate::extract::sym_views(out@));
    }
    out
}

/// The views of one kind's query sources.
pub open spec fn source_views(s: Seq<String>) -> Seq<Seq<char>> {
    s.map_values(|x: String| x@)
}

/// The views of a whole query table: kind and query sources per stanza.
pub open spec fn table_views(s: Seq<(Kind, Vec<String>)>) -> Seq<(Kind, Seq<Seq<char>>)> {
    s.map_values(|p: (Kind, Vec<String>)| (p.0, source_views(p.1@)))
}

/// Whether the engine answers every query of one kind's list.
pub open spec fn sources_accepted(
    language: Language,
    sources: Seq<Seq<char>>,
    content: Seq<char>,
) -> bool {
    forall|j: int|
        0 <= j < sources.len() ==> engine_captures(language, #[trigger] sources[j], content)
            is Some
}

/// Whether the engine answers every query of the table.
pub open spec fn table_accepted(
    language: Language,
    table: Seq<(Kind, Seq<Seq<char>>)>,
    content: Seq<char>,
) -> bool {
    forall|i: int|
        0 <= i < table.len() ==> sources_accepted(language, (#[trigger] table[i]).1, content)
}

/// The symbols one kind's query list yields: each query's captures
/// converted in order, queries in list order.
pub open spec fn sources_symbols(
    language: Language,
    bytes: Seq<u8>,
    content: Seq<char>,
    kind: Kind,
    sources: Seq<Seq<char>>,
) -> Seq<(Loc, Seq<char>, Kind)>
    decreases sources.len(),
{
    if sources.len() == 0 {
        Seq::empty()
    } else {
        let head = match engine_captures(language, sources[0], content) {
            Some(ranges) => ranges_symbols(bytes, kind, ranges),
            None => Seq::<(Loc, Seq<char>, Kind)>::empty(),
        };
        head + sources_symbols(language, bytes, content, kind, sources.drop_first())
    }
}

/// The symbols the whole table yields, stanza by stanza in table order.
pub open spec fn table_symbols(
    language: Language,
    bytes: Seq<u8>,
    content: Seq<char>,
    table: Seq<(Kind, Seq<Seq<char>>)>,
) -> Seq<(Loc, Seq<char>, Kind)>
    decreases table.len(),
{
    if table.len() == 0 {
        Seq::empty()
    } else {
        sources_symbols(language, bytes, content, table[0].0, table[0].1) + table_symbols(
            language,
            bytes,
            content,
            table.drop_first(),
        )
    }
}

/// Runs every query of the table over the file, in table order, and
/// converts each usable capture into a symbol: exactly the named symbols of
/// the table. Fails — and yields nothing — exactly when the engine refuses
/// some query of the table.
pub fn extract_symbols(language: Language, queries: &Vec<(Kind, Vec<String>)>, content: &str) -> (r:
    Result<Vec<(Loc, String, Kind)>, ParseError>)
    ensures
        r is Ok <==> table_accepted(language, table_views(queries@), content@),
        r matches Ok(syms) ==> crate::extract::sym_views(syms@) == table_symbols(
            language,
            content.spec_bytes(),
            content@,
            table_views(queries@),
        ),
{
    let ghost table = table_views(queries@);
    let mut out: Vec<(Loc, String, Kind)> = Vec::new();
    let mut ki: usize = 0;
    proof {
        assert(table.skip(0int) =~= table);
        assert(crate::extract::sym_views(out@) + table_symbols(
            language,
            content.spec_bytes(),
            content@,
            table,
        ) =~= table_symbols(language, content.spec_bytes(), content@, table));
    }
    while ki < queries.len()
        invariant
            0 <= ki <= queries@.len(),
            table == table_views(queries@),
            forall|i: int|
                0 <= i < ki ==> sources_accepted(language, (#[trigger] table[i]).1, content@),
            table_symbols(language, content.spec_bytes(), content@, table)
                =~= crate::extract::sym_views(out@) + table_symbols(
                language,
                content.spec_bytes(),
                content@,
                table.skip(ki as int),
            ),
        decreases queries@.len() - ki,
    {
        let ghost rem = table.skip(ki as int);
        proof {
            assert(rem[0] == table[ki as int]);
            assert(rem.drop_first() =~= table.skip(ki + 1int));
        }
        let kind = queries[ki].0;
        let ghost sources = table[ki as int].1;
        let mut collected: Vec<(Loc, String, Kind)> = Vec::new();
        let mut qi: usize = 0;
        proof {
            assert(sources.skip(0int) =~= sources);
            assert(crate::extract::sym_views(collected@) + sources_symbols(
                language,
                content.spec_bytes(),
                content@,
                kind,
                sources,
            ) =~= sources_symbols(language, content.spec_bytes(), content@, kind, sources));
        }
        while qi < queries[ki].1.len()
            invariant
                0 <= ki < queries@.len(),
                0 <= qi <= queries@[ki as int].1@.len(),
                table == table_views(queries@),
                kind == table[ki as int].0,
                sources == table[ki as int].1,
                sources.len() == queries@[ki as int].1@.len(),
                forall|j: int|
                    0 <= j < qi ==> engine_captures(language, #[trigger] sources[j], content@)
                        is Some,
                sources_symbols(language, content.spec_bytes(), content@, kind, sources)
                    =~= crate::extract::sym_views(collected@) + sources_symbols(
                    language,
                    content.spec_bytes(),
                    content@,
                    kind,
                    sources.skip(qi as int),
                ),
            decreases queries@[ki as int].1@.len() - qi,
        {
            let ghost srem = sources.skip(qi as int);
            proof {
                assert(srem[0] == sources[qi as int]);
                assert(srem.drop_first() =~= sources.skip(qi + 1int));
                assert(sources[qi as int] == queries@[ki as int].1@[qi as int]@);
            }
            let ranges = match run_query(language, queries[ki].1[qi].as_str(), content) {
                Ok(rs) => rs,
                Err(e) => {
                    proof {
                        assert(engine_captures(language, sources[qi as int], content@) is None);
                        assert(!sources_accepted(language, sources, content@));
                        assert(!table_accepted(language, table, content@));
                    }
                    return Err(e);
                },
            };
            let mut syms = ranges_to_symbols(content, kind, &ranges);
            let ghost syms_snap = syms@;
            let ghost before = collected@;
            collected.append(&mut syms);
            proof {
                assert(crate::extract::sym_views(collected@) =~= crate::extract::sym_views(before)
                    + crate::extract::sym_views(syms_snap));
                assert(sources_symbols(language, content.spec_bytes(), content@, kind, srem)
                    =~= crate::extract::sym_views(syms_snap) + sources_symbols(
                    language,
                    content.spec_bytes(),
                    content@,
                    kind,
                    sources.skip(qi + 1int),
                ));
                assert((crate::extract::sym_views(before) + crate::extract::sym_views(syms_snap))
                    + sources_symbols(
                    language,
                    content.spec_bytes(),
                    content@,
                    kind,
                    sources.skip(qi + 1int),
                ) =~= crate::extract::sym_views(before) + (crate::extract::sym_views(syms_snap)
                    + sources_symbols(
                    language,
                    content.spec_bytes(),
                    content@,
                    kind,
                    sources.skip(qi + 1int),
                )));
            }
            qi = qi + 1;
        }
        let ghost collected_snap = collected@;
        let ghost before_out = out@;
        out.append(&mut collected);
        proof {
            assert(sources.skip(sources.len() as int).len() == 0);
            assert(crate::extract::sym_views(collected_snap) + Seq::<(
                Loc,
                Seq<char>,
                Kind,
            )>::empty() =~= crate::extract::sym_views(collected_snap));
            assert(crate::extract::sym_views(collected_snap) =~= sources_symbols(
                language,
                content.spec_bytes(),
                content@,
                kind,
                sources,
            ));
            assert(sources_accepted(language, sources, content@));
            assert(crate::extract::sym_views(out@) =~= crate::extract::sym_views(before_out)
                + crate::extract::sym_views(collected_snap));
            assert((crate::extract::sym_views(before_out) + crate::extract::sym_views(
                collected_snap,
            )) + table_symbols(language, content.spec_bytes(), content@, table.skip(ki + 1int))
                =~= crate::extract::sym_views(before_out) + (crate::extract::sym_views(
                collected_snap,
            ) + table_symbols(language, content.spec_bytes(), content@, table.skip(ki + 1int))));
        }
        ki = ki + 1;
    }
    proof {
        assert(table.skip(queries@.len() as int).len() == 0);
        assert(crate::extract::sym_views(out@) + Seq::<(Loc, Seq<char>, Kind)>::empty()
            =~= crate::extract::sym_views(out@));
    }
    Ok(out)
}

} // verus!
