//! Per-file parsing under the query strategy: selects a language and its
//! compiled queries by the file's extension, then extracts the file's
//! symbols with the grammar engine.

use vstd::prelude::*;

verus! {

use vstd::string::StringSliceAdditionalSpecFns;

use crate::chars::chars_of_str;
use crate::config::{language_of_extension, config_languages, Config, Language, LanguageConfig};
use crate::query::{extract_symbols, table_accepted, table_symbols, table_views, ParseError};
use crate::symbol::Kind;
use crate::text::Loc;

/// The position of the last occurrence of `c` in `s`, `-1` when there is
/// none.
pub open spec fn last_pos(s: Seq<char>, c: char) -> int
    decreases s.len(),
{
    if s.len() == 0 {
        -1
    } else if s.last() == c {
        s.len() - 1
    } else {
        last_pos(s.drop_last(), c)
    }
}

/// The extension of a path: what follows the last dot of its final
/// component, provided that dot is not the component's first character.
pub open spec fn extension_of(path: Seq<char>) -> Option<Seq<char>> {
    let dot = last_pos(path, '.');
    if dot > last_pos(path, '/') + 1 {
        Some(path.skip(dot + 1))
    } else {
        None
    }
}

/// The language a path's extension selects, if any.
pub open spec fn path_language(path: Seq<char>) -> Option<Language> {
    match extension_of(path) {
        Some(e) => language_of_extension(e),
        None => None,
    }
}

proof fn lemma_last_pos_bound(s: Seq<char>, c: char)
    ensures
        -1 <= last_pos(s, c) < s.len(),
    decreases s.len(),
{
    if s.len() > 0 {
        lemma_last_pos_bound(s.drop_last(), c);
    }
}

/// Finds the last occurrence of `c`, as [`last_pos`] names it.
fn find_last(v: &Vec<char>, c: char) -> (r: Option<usize>)
    ensures
        match r {
            Some(i) => i < v@.len() && last_pos(v@, c) == i as int,
            None => last_pos(v@, c) == -1,
        },
{
    let mut i: usize = 0;
    let mut found: Option<usize> = None;
    while i < v.len()
        invariant
            0 <= i <= v@.len(),
            match found {
                Some(f) => f < i && last_pos(v@.take(i as int), c) == f as int,
                None => last_pos(v@.take(i as int), c) == -1,
            },
        decreases v@.len() - i,
    {
        assert(v@.take(i + 1int).drop_last() =~= v@.take(i as int));
        assert(v@.take(i + 1int).last() == v@[i as int]);
        if v[i] == c {
            found = Some(i);
        }
        i = i + 1;
    }
    assert(v@.take(v@.len() as int) =~= v@);
    found
}

/// The extension of `path`, as [`extension_of`] names it.
pub fn path_extension(path: &str) -> (r: Option<String>)
    ensures
        match r {
            Some(e) => extension_of(path@) == Some(e@),
            None => extension_of(path@) is None,
        },
{
    let v = chars_of_str(path);
    let n = v.len();
    let dot = find_last(&v, '.');
    let slash = find_last(&v, '/');
    proof {
        lemma_last_pos_bound(path@, '.');
        lemma_last_pos_bound(path@, '/');
        assert(v@.len() == n);
    }
    let start: usize = match slash {
        Some(s) => s + 1,
        None => 0,
    };
    match dot {
        Some(d) => {
            if d > start {
                let ext = crate::chars::sub_chars(&v, d + 1, v.len());
                proof {
                    assert(ext@ =~= path@.skip(d + 1int));
                }
                Some(crate::chars::string_of_chars(&ext))
            } else {
                None
            }
        },
        None => None,
    }
}

/// One file's parser: the language its extension selected and that
/// language's compiled queries.
pub struct Parser<'a> {
    pub path: String,
    pub language: Language,
    pub language_config: &'a LanguageConfig,
}

impl<'a> Parser<'a> {
    /// Selects a parser for `path`: its extension must name a configured
    /// language; otherwise the file is skipped, which is not an error.
    pub fn from_path(config: &'a Config, path: &str) -> (r: Option<Parser<'a>>)
        ensures
            r is Some <==> (path_language(path@) matches Some(l) && config_languages(
                config.languages@,
            ).contains(l)),
            r matches Some(p) ==> p.path@ == path@ && path_language(path@) == Some(p.language)
                && crate::config::stanza_for(config.languages@, p.language) == Some(
                *p.language_config,
            ),
    {
        let extension = match path_extension(path) {
            Some(e) => e,
            None => {
                return None;
            },
        };
        let language = match Language::from_extension(extension.as_str()) {
            Some(l) => l,
            None => {
                return None;
            },
        };
        let language_config = match config.language_config(language) {
            Some(c) => c,
            None => {
                return None;
            },
        };
        Some(Parser { path: path.to_owned(), language, language_config })
    }

    /// Extracts every symbol of `content` under this parser's language:
    /// exactly the named symbols of the configured queries, in table order.
    /// Fails — and the caller skips the file — exactly when the engine
    /// refuses some configured query.
    pub fn symbols(&self, content: &str) -> (r: Result<Vec<(Loc, String, Kind)>, ParseError>)
        ensures
            r is Ok <==> table_accepted(
                self.language,
                table_views(self.language_config.symbol_queries@),
                content@,
            ),
            r matches Ok(syms) ==> crate::extract::sym_views(syms@) == table_symbols(
                self.language,
                content.spec_bytes(),
                content@,
                table_views(self.language_config.symbol_queries@),
            ),
    {
        extract_symbols(self.language, &self.language_config.symbol_queries, content)
    }
}

} // verus!
