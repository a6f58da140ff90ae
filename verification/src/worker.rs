//! The per-file work a worker does for each path it pulls from the queue:
//! decide between the cache and fresh extraction, and turn the file's
//! entries into protocol lines for the sink. The surrounding process stats
//! the file, holds the shared cache's lock and writes to the sink; every
//! decision and every formatted byte is made here, and the outcome says
//! exactly which entries the caller records.

use vstd::prelude::*;

verus! {

use vstd::string::StringSliceAdditionalSpecFns;

use crate::cache::FileInfo;
use crate::config::{config_languages, stanza_for, Config};
use crate::parser::{path_language, Parser};
use crate::protocol::{entry_line, format_entry};
use crate::query::{table_accepted, table_symbols, table_views, ParseError};
use crate::symbol::Kind;
use crate::text::Loc;

/// A cached record stands in for extracting the file exactly when one
/// exists and its stored modification stamp equals the file's current one.
pub open spec fn cache_fresh(cached: Option<FileInfo>, modified: u64) -> bool {
    cached matches Some(info) && info.modified == modified
}

/// Whether a cached record may stand in for extracting `path` now. A file
/// whose stamp changed is always re-extracted, even if its content is
/// unchanged.
pub fn use_cached(cached: &Option<FileInfo>, modified: u64) -> (r: bool)
    ensures
        r == cache_fresh(*cached, modified),
{
    match cached {
        Some(info) => info.modified == modified,
        None => false,
    }
}

/// Whether some configured language claims `path`'s extension.
pub open spec fn path_configured(config: Config, path: Seq<char>) -> bool {
    path_language(path) matches Some(l) && config_languages(config.languages@).contains(l)
}

/// The protocol lines for a cached record, with the path re-attached: one
/// line per cached entry, in the cached (emission) order.
pub fn render_cached(path: &str, info: &FileInfo) -> (r: Vec<String>)
    ensures
        r@.len() == info.entries@.len(),
        forall|i: int|
            0 <= i < r@.len() ==> (#[trigger] r@[i])@ == entry_line(
                path@,
                info.entries@[i].loc,
                info.entries@[i].text@,
                info.entries@[i].kind,
            ),
{
    let mut r: Vec<String> = Vec::new();
    let mut i: usize = 0;
    while i < info.entries.len()
        invariant
            0 <= i <= info.entries@.len(),
            r@.len() == i,
            forall|j: int|
                0 <= j < i ==> (#[trigger] r@[j])@ == entry_line(
                    path@,
                    info.entries@[j].loc,
                    info.entries@[j].text@,
                    info.entries@[j].kind,
                ),
        decreases info.entries@.len() - i,
    {
        let e = &info.entries[i];
        r.push(format_entry(path, e.loc, e.text.as_str(), e.kind));
        i = i + 1;
    }
    r
}

/// The protocol lines for freshly extracted symbols, in extraction order.
pub fn render_symbols(path: &str, symbols: &Vec<(Loc, String, Kind)>) -> (r: Vec<String>)
    ensures
        r@.len() == symbols@.len(),
        forall|i: int|
            0 <= i < r@.len() ==> (#[trigger] r@[i])@ == entry_line(
                path@,
                symbols@[i].0,
                symbols@[i].1@,
                symbols@[i].2,
            ),
{
    let mut r: Vec<String> = Vec::new();
    let mut i: usize = 0;
    while i < symbols.len()
        invariant
            0 <= i <= symbols@.len(),
            r@.len() == i,
            forall|j: int|
                0 <= j < i ==> (#[trigger] r@[j])@ == entry_line(
                    path@,
                    symbols@[j].0,
                    symbols@[j].1@,
                    symbols@[j].2,
                ),
        decreases symbols@.len() - i,
    {
        r.push(format_entry(path, symbols[i].0, symbols[i].1.as_str(), symbols[i].2));
        i = i + 1;
    }
    r
}

/// What handling one path produced, with the lines to write to the sink in
/// order. `Replayed` lines came from the validated cache; `Extracted`
/// carries the lines and the fresh symbols the caller records under its
/// lock, in the same order; `Skipped` files claim no configured language;
/// `Failed` files the engine refused, yielding nothing.
pub enum Outcome {
    Replayed(Vec<String>),
    Extracted(Vec<String>, Vec<(Loc, String, Kind)>),
    Skipped,
    Failed(ParseError),
}

/// Handles one file, given what the cache held for it: replays the cached
/// record exactly when its stamp equals `modified`; otherwise extracts
/// `content` under the language its extension selects. Each outcome is
/// pinned: replay renders exactly the cached entries, extraction yields
/// exactly the named symbols of the configured queries and succeeds exactly
/// when the engine accepts them, and a file is skipped exactly when no
/// configured language claims it.
pub fn process_file(
    config: &Config,
    path: &str,
    modified: u64,
    cached: &Option<FileInfo>,
    content: &str,
) -> (r: Outcome)
    ensures
        cache_fresh(*cached, modified) <==> r is Replayed,
        r matches Outcome::Replayed(lines) ==> (cached matches Some(info) && lines@.len()
            == info.entries@.len() && (forall|i: int|
            0 <= i < lines@.len() ==> (#[trigger] lines@[i])@ == entry_line(
                path@,
                info.entries@[i].loc,
                info.entries@[i].text@,
                info.entries@[i].kind,
            ))),
        !cache_fresh(*cached, modified) ==> (r is Skipped <==> !path_configured(*config, path@)),
        (!cache_fresh(*cached, modified) && path_configured(*config, path@)) ==> ({
            let lang = path_language(path@)->Some_0;
            let table = table_views(
                stanza_for(config.languages@, lang)->Some_0.symbol_queries@,
            );
            &&& (r is Extracted <==> table_accepted(lang, table, content@))
            &&& r matches Outcome::Extracted(lines, syms) ==> {
                &&& crate::extract::sym_views(syms@) == table_symbols(
                    lang,
                    content.spec_bytes(),
                    content@,
                    table,
                )
                &&& lines@.len() == syms@.len()
                &&& forall|i: int|
                    0 <= i < lines@.len() ==> (#[trigger] lines@[i])@ == entry_line(
                        path@,
                        syms@[i].0,
                        syms@[i].1@,
                        syms@[i].2,
                    )
            }
        }),
{
    if use_cached(cached, modified) {
        match cached {
            Some(info) => {
                let lines = render_cached(path, info);
                return Outcome::Replayed(lines);
            },
            None => {
                proof {
                    assert(false);
                }
                return Outcome::Skipped;
            },
        }
    }
    let parser = match Parser::from_path(config, path) {
        Some(p) => p,
        None => {
            return Outcome::Skipped;
        },
    };
    let symbols = match parser.symbols(content) {
        Ok(s) => s,
        Err(e) => {
            return Outcome::Failed(e);
        },
    };
    let lines = render_symbols(path, &symbols);
    Outcome::Extracted(lines, symbols)
}

} // verus!
