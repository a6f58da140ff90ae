//! Per-language configuration: which languages are indexed, which file
//! extensions each claims, and the compiled structural queries the query
//! strategy runs per symbol kind. Built once at startup and shared read-only
//! by every worker.

use vstd::prelude::*;

verus! {

use vstd::string::StringExecFns;

use crate::chars::str_eq;
use crate::query::{check_query, query_compiles};
use crate::symbol::Kind;

/// The languages the index understands.
#[derive(Clone, Copy, Debug, PartialEq, Eq, Structural, Hash)]
pub enum Language {
    C,
    Go,
    Haskell,
    Python,
    Rust,
    TypeScript,
}

/// The file extensions each language claims.
pub open spec fn lang_extensions(l: Language) -> Seq<Seq<char>> {
    match l {
        Language::C => seq!["c"@, "h"@],
        Language::Go => seq!["go"@],
        Language::Haskell => seq!["hs"@],
        Language::Python => seq!["py"@],
        Language::Rust => seq!["rs"@],
        Language::TypeScript => seq!["js"@, "jsx"@, "ts"@, "tsx"@],
    }
}

/// The language an extension selects, if any.
pub open spec fn language_of_extension(s: Seq<char>) -> Option<Language> {
    if s == "c"@ || s == "h"@ {
        Some(Language::C)
    } else if s == "go"@ {
        Some(Language::Go)
    } else if s == "hs"@ {
        Some(Language::Haskell)
    } else if s == "py"@ {
        Some(Language::Python)
    } else if s == "rs"@ {
        Some(Language::Rust)
    } else if s == "js"@ || s == "jsx"@ || s == "ts"@ || s == "tsx"@ {
        Some(Language::TypeScript)
    } else {
        None
    }
}

/// The views of a list of string slices.
pub open spec fn strs_views(s: Seq<&'static str>) -> Seq<Seq<char>> {
    s.map_values(|x: &'static str| x@)
}

impl Language {
    /// The file extensions this language claims.
    pub fn extensions(&self) -> (r: Vec<&'static str>)
        ensures
            strs_views(r@) == lang_extensions(*self),
    {
        let mut r: Vec<&'static str> = Vec::new();
        match self {
            Language::C => {
                r.push("c");
                r.push("h");
            },
            Language::Go => {
                r.push("go");
            },
            Language::Haskell => {
                r.push("hs");
            },
            Language::Python => {
                r.push("py");
            },
            Language::Rust => {
                r.push("rs");
            },
            Language::TypeScript => {
                r.push("js");
                r.push("jsx");
                r.push("ts");
                r.push("tsx");
            },
        }
        proof {
            assert(strs_views(r@) =~= lang_extensions(*self));
        }
        r
    }

    /// The language a file extension selects, if any.
    pub fn from_extension(extension: &str) -> (r: Option<Language>)
        ensures
            r == language_of_extension(extension@),
    {
        if str_eq(extension, "c") || str_eq(extension, "h") {
            Some(Language::C)
        } else if str_eq(extension, "go") {
            Some(Language::Go)
        } else if str_eq(extension, "hs") {
            Some(Language::Haskell)
        } else if str_eq(extension, "py") {
            Some(Language::Python)
        } else if str_eq(extension, "rs") {
            Some(Language::Rust)
        } else if str_eq(extension, "js") || str_eq(extension, "jsx") || str_eq(extension, "ts")
            || str_eq(extension, "tsx") {
            Some(Language::TypeScript)
        } else {
            None
        }
    }

    /// The engine's grammar for this language (the TSX grammar covers
    /// TypeScript).
    pub fn to_tree_sitter(&self) -> crate::query::Grammar {
        match self {
            Language::C => crate::query::grammar_c(),
            Language::Go => crate::query::grammar_go(),
            Language::Haskell => crate::query::grammar_haskell(),
            Language::Python => crate::query::grammar_python(),
            Language::Rust => crate::query::grammar_rust(),
            Language::TypeScript => crate::query::grammar_typescript(),
        }
    }
}

impl core::str::FromStr for Language {
    type Err = ();

    fn from_str(s: &str) -> Result<Language, ()> {
        match Language::from_extension(s) {
            Some(l) => Ok(l),
            None => Err(()),
        }
    }
}

/// One language's part of the configuration: per symbol kind, the sources
/// of the structural queries that find it. Each source is validated against
/// its language's grammar once, at configuration load.
pub struct LanguageConfig {
    pub symbol_queries: Vec<(Kind, Vec<String>)>,
}

/// The whole configuration: each indexed language's queries, and the
/// front end's settings.
pub struct Config {
    pub languages: Vec<(Language, LanguageConfig)>,
    pub fzf_settings: FzfSettings,
}

/// The flat list of extensions the configured languages claim, in order.
pub open spec fn config_extensions_spec(ls: Seq<Language>) -> Seq<Seq<char>>
    decreases ls.len(),
{
    if ls.len() == 0 {
        Seq::empty()
    } else {
        lang_extensions(ls[0]) + config_extensions_spec(ls.drop_first())
    }
}

/// The configured languages, in order.
pub open spec fn config_languages(ls: Seq<(Language, LanguageConfig)>) -> Seq<Language> {
    ls.map_values(|p: (Language, LanguageConfig)| p.0)
}

/// The first configured stanza for a language, if any.
pub open spec fn stanza_for(ls: Seq<(Language, LanguageConfig)>, l: Language) -> Option<
    LanguageConfig,
>
    decreases ls.len(),
{
    if ls.len() == 0 {
        None
    } else if ls[0].0 == l {
        Some(ls[0].1)
    } else {
        stanza_for(ls.drop_first(), l)
    }
}

impl Config {
    /// Every extension any configured language claims, in language order.
    pub fn extensions(&self) -> (r: Vec<&'static str>)
        ensures
            strs_views(r@) == config_extensions_spec(config_languages(self.languages@)),
    {
        let ghost ls = config_languages(self.languages@);
        let mut r: Vec<&'static str> = Vec::new();
        let mut i: usize = 0;
        proof {
            assert(ls.skip(0int) =~= ls);
            assert(strs_views(r@) + config_extensions_spec(ls) =~= config_extensions_spec(ls));
        }
        while i < self.languages.len()
            invariant
                0 <= i <= self.languages@.len(),
                ls == config_languages(self.languages@),
                config_extensions_spec(ls) =~= strs_views(r@) + config_extensions_spec(
                    ls.skip(i as int),
                ),
            decreases self.languages@.len() - i,
        {
            let ghost rem = ls.skip(i as int);
            proof {
                assert(rem[0] == ls[i as int]);
                assert(rem.drop_first() =~= ls.skip(i + 1int));
            }
            let mut exts = self.languages[i].0.extensions();
            let ghost exts_snap = exts@;
            let ghost before = r@;
            r.append(&mut exts);
            proof {
                assert(strs_views(r@) =~= strs_views(before) + strs_views(exts_snap));
                assert(strs_views(before) + (lang_extensions(ls[i as int])
                    + config_extensions_spec(ls.skip(i + 1int))) =~= strs_views(r@)
                    + config_extensions_spec(ls.skip(i + 1int)));
            }
            i = i + 1;
        }
        proof {
            assert(config_extensions_spec(ls.skip(ls.len() as int)) =~= Seq::<Seq<char>>::empty());
            assert(strs_views(r@) + Seq::<Seq<char>>::empty() =~= strs_views(r@));
        }
        r
    }

    /// The configured queries for `language`, if it is configured: the
    /// first matching stanza.
    pub fn language_config(&self, language: Language) -> (r: Option<&LanguageConfig>)
        ensures
            r is Some <==> config_languages(self.languages@).contains(language),
            match r {
                Some(c) => stanza_for(self.languages@, language) == Some(*c),
                None => stanza_for(self.languages@, language) is None,
            },
    {
        let ghost ls = self.languages@;
        let mut i: usize = 0;
        proof {
            assert(ls.skip(0int) =~= ls);
        }
        while i < self.languages.len()
            invariant
                0 <= i <= self.languages@.len(),
                ls == self.languages@,
                forall|j: int| 0 <= j < i ==> config_languages(self.languages@)[j] != language,
                stanza_for(ls, language) == stanza_for(ls.skip(i as int), language),
            decreases self.languages@.len() - i,
        {
            let ghost rem = ls.skip(i as int);
            proof {
                assert(rem[0] == ls[i as int]);
                assert(rem.drop_first() =~= ls.skip(i + 1int));
            }
            if self.languages[i].0 == language {
                proof {
                    assert(config_languages(self.languages@)[i as int] == language);
                }
                return Some(&self.languages[i].1);
            }
            i = i + 1;
        }
        proof {
            assert(ls.skip(ls.len() as int).len() == 0);
            if config_languages(self.languages@).contains(language) {
                let j = choose|j: int|
                    0 <= j < config_languages(self.languages@).len() && config_languages(
                        self.languages@,
                    )[j] == language;
                assert(false);
            }
        }
        None
    }
}

/// The plain rules a configuration is built from: per language, per kind,
/// the query sources.
pub struct ConfigRules {
    pub languages: Vec<(Language, Vec<(Kind, Vec<String>)>)>,
    pub fzf_settings: FzfSettings,
}

/// Every query source of every stanza compiles for its language.
pub open spec fn rules_compile(ls: Seq<(Language, Vec<(Kind, Vec<String>)>)>) -> bool {
    forall|i: int, k: int, j: int|
        0 <= i < ls.len() && 0 <= k < ls[i].1@.len() && 0 <= j < ls[i].1@[k].1@.len()
            ==> query_compiles(ls[i].0, (#[trigger] ls[i].1@[k].1@[j])@)
}

/// A copy of one kind's query sources, equal to the original.
fn clone_sources(v: &Vec<String>) -> (r: Vec<String>)
    ensures
        r@ == v@,
{
    let mut r: Vec<String> = Vec::new();
    let mut i: usize = 0;
    while i < v.len()
        invariant
            0 <= i <= v@.len(),
            r@ =~= v@.take(i as int),
        decreases v@.len() - i,
    {
        r.push(v[i].clone());
        assert(r@ =~= v@.take(i + 1int));
        i = i + 1;
    }
    assert(r@ =~= v@);
    r
}

/// A copy of one language's query table, with the same kinds and the same
/// query sources.
fn clone_table(v: &Vec<(Kind, Vec<String>)>) -> (r: Vec<(Kind, Vec<String>)>)
    ensures
        crate::query::table_views(r@) == crate::query::table_views(v@),
{
    let mut r: Vec<(Kind, Vec<String>)> = Vec::new();
    let mut i: usize = 0;
    while i < v.len()
        invariant
            0 <= i <= v@.len(),
            crate::query::table_views(r@) =~= crate::query::table_views(v@).take(i as int),
        decreases v@.len() - i,
    {
        let sources = clone_sources(&v[i].1);
        let ghost before = r@;
        r.push((v[i].0, sources));
        proof {
            assert(crate::query::table_views(r@) =~= crate::query::table_views(before).push(
                (v@[i as int].0, crate::query::source_views(sources@)),
            ));
            assert(crate::query::table_views(r@) =~= crate::query::table_views(v@).take(
                i + 1int,
            ));
        }
        i = i + 1;
    }
    assert(crate::query::table_views(r@) =~= crate::query::table_views(v@));
    r
}

impl Config {
    /// Builds a configuration from plain rules, validating every query
    /// source against its language's grammar: `None` exactly when some
    /// source does not compile, since a malformed configuration is fatal;
    /// otherwise the stanzas carry exactly the given rules.
    pub fn from_rules(rules: ConfigRules) -> (r: Option<Config>)
        ensures
            r is Some <==> rules_compile(rules.languages@),
            r matches Some(c) ==> {
                &&& c.languages@.len() == rules.languages@.len()
                &&& forall|i: int|
                    0 <= i < c.languages@.len() ==> (#[trigger] c.languages@[i]).0 == (
                    #[trigger] rules.languages@[i]).0 && crate::query::table_views(
                        c.languages@[i].1.symbol_queries@,
                    ) == crate::query::table_views(rules.languages@[i].1@)
                &&& c.fzf_settings == rules.fzf_settings
            },
    {
        let mut i: usize = 0;
        while i < rules.languages.len()
            invariant
                0 <= i <= rules.languages@.len(),
                forall|a: int, k: int, j: int|
                    0 <= a < i && 0 <= k < rules.languages@[a].1@.len() && 0 <= j
                        < rules.languages@[a].1@[k].1@.len() ==> query_compiles(
                        rules.languages@[a].0,
                        (#[trigger] rules.languages@[a].1@[k].1@[j])@,
                    ),
            decreases rules.languages@.len() - i,
        {
            let language = rules.languages[i].0;
            let mut k: usize = 0;
            while k < rules.languages[i].1.len()
                invariant
                    0 <= i < rules.languages@.len(),
                    0 <= k <= rules.languages@[i as int].1@.len(),
                    language == rules.languages@[i as int].0,
                    forall|a: int, b: int, j: int|
                        0 <= a < i && 0 <= b < rules.languages@[a].1@.len() && 0 <= j
                            < rules.languages@[a].1@[b].1@.len() ==> query_compiles(
                            rules.languages@[a].0,
                            (#[trigger] rules.languages@[a].1@[b].1@[j])@,
                        ),
                    forall|b: int, j: int|
                        0 <= b < k && 0 <= j < rules.languages@[i as int].1@[b].1@.len()
                            ==> query_compiles(
                            language,
                            (#[trigger] rules.languages@[i as int].1@[b].1@[j])@,
                        ),
                decreases rules.languages@[i as int].1@.len() - k,
            {
                let mut q: usize = 0;
                while q < rules.languages[i].1[k].1.len()
                    invariant
                        0 <= i < rules.languages@.len(),
                        0 <= k < rules.languages@[i as int].1@.len(),
                        0 <= q <= rules.languages@[i as int].1@[k as int].1@.len(),
                        language == rules.languages@[i as int].0,
                        forall|j: int|
                            0 <= j < q ==> query_compiles(
                                language,
                                (#[trigger] rules.languages@[i as int].1@[k as int].1@[j])@,
                            ),
                    decreases rules.languages@[i as int].1@[k as int].1@.len() - q,
                {
                    if !check_query(language, rules.languages[i].1[k].1[q].as_str()) {
                        proof {
                            assert(!query_compiles(
                                language,
                                rules.languages@[i as int].1@[k as int].1@[q as int]@,
                            ));
                            assert(!rules_compile(rules.languages@));
                        }
                        return None;
                    }
                    q = q + 1;
                }
                k = k + 1;
            }
            i = i + 1;
        }
        let mut languages: Vec<(Language, LanguageConfig)> = Vec::new();
        let mut i: usize = 0;
        while i < rules.languages.len()
            invariant
                0 <= i <= rules.languages@.len(),
                languages@.len() == i,
                forall|a: int|
                    0 <= a < i ==> (#[trigger] languages@[a]).0 == (
                    #[trigger] rules.languages@[a]).0 && crate::query::table_views(
                        languages@[a].1.symbol_queries@,
                    ) == crate::query::table_views(rules.languages@[a].1@),
            decreases rules.languages@.len() - i,
        {
            let table = clone_table(&rules.languages[i].1);
            languages.push((rules.languages[i].0, LanguageConfig { symbol_queries: table }));
            i = i + 1;
        }
        Some(Config { languages, fzf_settings: rules.fzf_settings })
    }
}

/// Settings handed to the selection front end.
pub struct FzfSettings {
    pub preview_window: String,
}

impl FzfSettings {
    /// The preview window the front end uses when the configuration names
    /// none.
    pub fn default_preview_window() -> (r: String)
        ensures
            r@ == "70%"@,
    {
        let mut r = String::new();
        r.append("70%");
        proof {
            assert(r@ =~= "70%"@);
        }
        r
    }
}

impl Default for FzfSettings {
    fn default() -> (r: FzfSettings)
        ensures
            r.preview_window@ == "70%"@,
    {
        FzfSettings { preview_window: FzfSettings::default_preview_window() }
    }
}

/// One value or a list of values; configuration fields accept either.
pub enum OneOrMany<T> {
    One(T),
    Many(Vec<T>),
}

/// The values a [`OneOrMany`] holds, in order.
pub open spec fn one_or_many_seq<T>(v: OneOrMany<T>) -> Seq<T> {
    match v {
        OneOrMany::One(x) => seq![x],
        OneOrMany::Many(xs) => xs@,
    }
}

impl<T> OneOrMany<T> {
    /// The values as a list.
    pub fn into_vec(self) -> (r: Vec<T>)
        ensures
            r@ == one_or_many_seq(self),
    {
        match self {
            OneOrMany::One(x) => {
                let mut r: Vec<T> = Vec::new();
                r.push(x);
                proof {
                    assert(r@ =~= seq![x]);
                }
                r
            },
            OneOrMany::Many(xs) => xs,
        }
    }
}

impl<T> From<OneOrMany<T>> for Vec<T> {
    fn from(from: OneOrMany<T>) -> (r: Vec<T>) {
        from.into_vec()
    }
}

/// `From` itself carries no contract here (a `Vec` cannot be written down
/// in a specification); [`OneOrMany::into_vec`] carries it.
impl<T> vstd::std_specs::convert::FromSpecImpl<OneOrMany<T>> for Vec<T> {
    open spec fn obeys_from_spec() -> bool {
        false
    }

    open spec fn from_spec(v: OneOrMany<T>) -> Vec<T> {
        arbitrary()
    }
}

} // verus!
