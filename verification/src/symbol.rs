//! The closed classification of extracted code symbols, the fixed-width
//! colored labels the output protocol prints for them, and the plain names
//! the cache codec stores them under.

use vstd::prelude::*;

verus! {

use crate::text::Span;

/// One symbol found in a file: where it stands, its literal text, and what
/// kind of declaration it is.
pub struct Symbol<'a> {
    pub span: Span,
    pub text: &'a str,
    pub kind: Kind,
}

/// The closed set of semantic symbol kinds. `Unknown` is the fallback for a
/// grammar annotation that cannot be classified; it never aborts extraction.
#[derive(Clone, Copy, Debug, PartialEq, Eq, Structural, Hash)]
pub enum Kind {
    Module,
    Macro,
    Global,
    Constant,
    Define,
    Class,
    Struct,
    Enum,
    Union,
    Alias,
    Interface,
    Trait,
    Type,
    Function,
    Impl,
    Unknown,
}

/// The colored label printed for each kind: a color escape, a parenthesized
/// tag padded to eight characters, and a reset escape.
pub open spec fn abbrev(k: Kind) -> Seq<char> {
    match k {
        Kind::Module => "\u{1b}[33m(mod)   \u{1b}[0m"@,
        Kind::Macro => "\u{1b}[33m(macro) \u{1b}[0m"@,
        Kind::Global => "\u{1b}[33m(global)\u{1b}[0m"@,
        Kind::Constant => "\u{1b}[33m(const) \u{1b}[0m"@,
        Kind::Define => "\u{1b}[33m(const) \u{1b}[0m"@,
        Kind::Class => "\u{1b}[36m(class) \u{1b}[0m"@,
        Kind::Struct => "\u{1b}[36m(struct)\u{1b}[0m"@,
        Kind::Enum => "\u{1b}[36m(enum)  \u{1b}[0m"@,
        Kind::Union => "\u{1b}[36m(union) \u{1b}[0m"@,
        Kind::Alias => "\u{1b}[34m(alias) \u{1b}[0m"@,
        Kind::Interface => "\u{1b}[34m(inter) \u{1b}[0m"@,
        Kind::Trait => "\u{1b}[34m(trait) \u{1b}[0m"@,
        Kind::Type => "\u{1b}[34m(type)  \u{1b}[0m"@,
        Kind::Function => "\u{1b}[35m(func)  \u{1b}[0m"@,
        Kind::Impl => "\u{1b}[35m(impl)  \u{1b}[0m"@,
        Kind::Unknown => "\u{1b}[31m(??????)\u{1b}[0m"@,
    }
}

impl Kind {
    /// The colored, fixed-width label for this kind.
    pub fn colored_abbreviation(self) -> (r: &'static str)
        ensures
            r@ == abbrev(self),
    {
        match self {
            Kind::Module => "\u{1b}[33m(mod)   \u{1b}[0m",
            Kind::Macro => "\u{1b}[33m(macro) \u{1b}[0m",
            Kind::Global => "\u{1b}[33m(global)\u{1b}[0m",
            Kind::Constant => "\u{1b}[33m(const) \u{1b}[0m",
            Kind::Define => "\u{1b}[33m(const) \u{1b}[0m",
            Kind::Class => "\u{1b}[36m(class) \u{1b}[0m",
            Kind::Struct => "\u{1b}[36m(struct)\u{1b}[0m",
            Kind::Enum => "\u{1b}[36m(enum)  \u{1b}[0m",
            Kind::Union => "\u{1b}[36m(union) \u{1b}[0m",
            Kind::Alias => "\u{1b}[34m(alias) \u{1b}[0m",
            Kind::Interface => "\u{1b}[34m(inter) \u{1b}[0m",
            Kind::Trait => "\u{1b}[34m(trait) \u{1b}[0m",
            Kind::Type => "\u{1b}[34m(type)  \u{1b}[0m",
            Kind::Function => "\u{1b}[35m(func)  \u{1b}[0m",
            Kind::Impl => "\u{1b}[35m(impl)  \u{1b}[0m",
            Kind::Unknown => "\u{1b}[31m(??????)\u{1b}[0m",
        }
    }
}

/// The plain lower-case name of each kind, used by the cache codec and as
/// the classifier's lexicon.
pub open spec fn kind_name(k: Kind) -> Seq<char> {
    match k {
        Kind::Module => "module"@,
        Kind::Macro => "macro"@,
        Kind::Global => "global"@,
        Kind::Constant => "constant"@,
        Kind::Define => "define"@,
        Kind::Class => "class"@,
        Kind::Struct => "struct"@,
        Kind::Enum => "enum"@,
        Kind::Union => "union"@,
        Kind::Alias => "alias"@,
        Kind::Interface => "interface"@,
        Kind::Trait => "trait"@,
        Kind::Type => "type"@,
        Kind::Function => "function"@,
        Kind::Impl => "impl"@,
        Kind::Unknown => "unknown"@,
    }
}

/// The kind a lower-case name denotes, if any.
pub open spec fn kind_of_name(s: Seq<char>) -> Option<Kind> {
    if s == "module"@ {
        Some(Kind::Module)
    } else if s == "macro"@ {
        Some(Kind::Macro)
    } else if s == "global"@ {
        Some(Kind::Global)
    } else if s == "constant"@ {
        Some(Kind::Constant)
    } else if s == "define"@ {
        Some(Kind::Define)
    } else if s == "class"@ {
        Some(Kind::Class)
    } else if s == "struct"@ {
        Some(Kind::Struct)
    } else if s == "enum"@ {
        Some(Kind::Enum)
    } else if s == "union"@ {
        Some(Kind::Union)
    } else if s == "alias"@ {
        Some(Kind::Alias)
    } else if s == "interface"@ {
        Some(Kind::Interface)
    } else if s == "trait"@ {
        Some(Kind::Trait)
    } else if s == "type"@ {
        Some(Kind::Type)
    } else if s == "function"@ {
        Some(Kind::Function)
    } else if s == "impl"@ {
        Some(Kind::Impl)
    } else if s == "unknown"@ {
        Some(Kind::Unknown)
    } else {
        None
    }
}

/// Each kind's name reads back as that kind, and no name contains a
/// separator the cache codec uses.
pub proof fn lemma_kind_name_round_trip(k: Kind)
    ensures
        kind_of_name(kind_name(k)) == Some(k),
        !kind_name(k).contains('\t'),
        !kind_name(k).contains('\n'),
        !kind_name(k).contains('\u{1f}'),
        !kind_name(k).contains('\u{1e}'),
{
    reveal_strlit("module");
    reveal_strlit("macro");
    reveal_strlit("global");
    reveal_strlit("constant");
    reveal_strlit("define");
    reveal_strlit("class");
    reveal_strlit("struct");
    reveal_strlit("enum");
    reveal_strlit("union");
    reveal_strlit("alias");
    reveal_strlit("interface");
    reveal_strlit("trait");
    reveal_strlit("type");
    reveal_strlit("function");
    reveal_strlit("impl");
    reveal_strlit("unknown");
    assert(("module"@).len() == 6 && ("module"@)[0] == 'm');
    assert(("macro"@).len() == 5 && ("macro"@)[0] == 'm');
    assert(("global"@).len() == 6 && ("global"@)[0] == 'g');
    assert(("constant"@).len() == 8 && ("constant"@)[0] == 'c');
    assert(("define"@).len() == 6 && ("define"@)[0] == 'd');
    assert(("class"@).len() == 5 && ("class"@)[0] == 'c');
    assert(("struct"@).len() == 6 && ("struct"@)[0] == 's');
    assert(("enum"@).len() == 4 && ("enum"@)[0] == 'e');
    assert(("union"@).len() == 5 && ("union"@)[0] == 'u');
    assert(("alias"@).len() == 5 && ("alias"@)[0] == 'a');
    assert(("interface"@).len() == 9 && ("interface"@)[0] == 'i');
    assert(("trait"@).len() == 5 && ("trait"@)[0] == 't');
    assert(("type"@).len() == 4 && ("type"@)[0] == 't');
    assert(("function"@).len() == 8 && ("function"@)[0] == 'f');
    assert(("impl"@).len() == 4 && ("impl"@)[0] == 'i');
    assert(("unknown"@).len() == 7 && ("unknown"@)[0] == 'u');
    match k {
        Kind::Module => assert(kind_of_name(kind_name(k)) == Some(k)),
        Kind::Macro => assert(kind_of_name(kind_name(k)) == Some(k)),
        Kind::Global => assert(kind_of_name(kind_name(k)) == Some(k)),
        Kind::Constant => assert(kind_of_name(kind_name(k)) == Some(k)),
        Kind::Define => assert(kind_of_name(kind_name(k)) == Some(k)),
        Kind::Class => assert(kind_of_name(kind_name(k)) == Some(k)),
        Kind::Struct => assert(kind_of_name(kind_name(k)) == Some(k)),
        Kind::Enum => assert(kind_of_name(kind_name(k)) == Some(k)),
        Kind::Union => assert(kind_of_name(kind_name(k)) == Some(k)),
        Kind::Alias => assert(kind_of_name(kind_name(k)) == Some(k)),
        Kind::Interface => assert(kind_of_name(kind_name(k)) == Some(k)),
        Kind::Trait => assert(kind_of_name(kind_name(k)) == Some(k)),
        Kind::Type => assert(kind_of_name(kind_name(k)) == Some(k)),
        Kind::Function => assert(kind_of_name(kind_name(k)) == Some(k)),
        Kind::Impl => assert(kind_of_name(kind_name(k)) == Some(k)),
        Kind::Unknown => assert(kind_of_name(kind_name(k)) == Some(k)),
    }
    let s = kind_name(k);
    assert(!s.contains('\t') && !s.contains('\n') && !s.contains('\u{1f}') && !s.contains(
        '\u{1e}',
    )) by {
        assert forall|i: int| 0 <= i < s.len() implies s[i] != '\t' && s[i] != '\n' && s[i]
            != '\u{1f}' && s[i] != '\u{1e}' by {}
    }
}

impl Kind {
    /// The plain name the cache codec writes for this kind.
    pub fn name(self) -> (r: &'static str)
        ensures
            r@ == kind_name(self),
    {
        match self {
            Kind::Module => "module",
            Kind::Macro => "macro",
            Kind::Global => "global",
            Kind::Constant => "constant",
            Kind::Define => "define",
            Kind::Class => "class",
            Kind::Struct => "struct",
            Kind::Enum => "enum",
            Kind::Union => "union",
            Kind::Alias => "alias",
            Kind::Interface => "interface",
            Kind::Trait => "trait",
            Kind::Type => "type",
            Kind::Function => "function",
            Kind::Impl => "impl",
            Kind::Unknown => "unknown",
        }
    }

    /// The kind whose plain name is `s`, if any.
    pub fn from_name(s: &str) -> (r: Option<Kind>)
        ensures
            r == kind_of_name(s@),
    {
        if crate::chars::str_eq(s, "module") {
            Some(Kind::Module)
        } else if crate::chars::str_eq(s, "macro") {
            Some(Kind::Macro)
        } else if crate::chars::str_eq(s, "global") {
            Some(Kind::Global)
        } else if crate::chars::str_eq(s, "constant") {
            Some(Kind::Constant)
        } else if crate::chars::str_eq(s, "define") {
            Some(Kind::Define)
        } else if crate::chars::str_eq(s, "class") {
            Some(Kind::Class)
        } else if crate::chars::str_eq(s, "struct") {
            Some(Kind::Struct)
        } else if crate::chars::str_eq(s, "enum") {
            Some(Kind::Enum)
        } else if crate::chars::str_eq(s, "union") {
            Some(Kind::Union)
        } else if crate::chars::str_eq(s, "alias") {
            Some(Kind::Alias)
        } else if crate::chars::str_eq(s, "interface") {
            Some(Kind::Interface)
        } else if crate::chars::str_eq(s, "trait") {
            Some(Kind::Trait)
        } else if crate::chars::str_eq(s, "type") {
            Some(Kind::Type)
        } else if crate::chars::str_eq(s, "function") {
            Some(Kind::Function)
        } else if crate::chars::str_eq(s, "impl") {
            Some(Kind::Impl)
        } else if crate::chars::str_eq(s, "unknown") {
            Some(Kind::Unknown)
        } else {
            None
        }
    }
}

/// The shape every label has: a five-character color escape, eight printable
/// characters, and a four-character reset escape. Labels therefore all render
/// to the same printable width, so the front end's columns align.
pub open spec fn label_shape(s: Seq<char>) -> bool {
    &&& s.len() == 17
    &&& s[0] == '\u{1b}'
    &&& s[1] == '['
    &&& s[2] == '3'
    &&& s[4] == 'm'
    &&& s[13] == '\u{1b}'
    &&& s[14] == '['
    &&& s[15] == '0'
    &&& s[16] == 'm'
}

/// Every kind's label has the common shape, so each renders to exactly eight
/// printable characters; and no label contains the protocol delimiter, so a
/// formatted record always splits back into its fields.
pub proof fn lemma_labels_aligned(k: Kind)
    ensures
        label_shape(abbrev(k)),
        !abbrev(k).contains('\u{2008}'),
{
    reveal_strlit("\u{1b}[33m(mod)   \u{1b}[0m");
    reveal_strlit("\u{1b}[33m(macro) \u{1b}[0m");
    reveal_strlit("\u{1b}[33m(global)\u{1b}[0m");
    reveal_strlit("\u{1b}[33m(const) \u{1b}[0m");
    reveal_strlit("\u{1b}[36m(class) \u{1b}[0m");
    reveal_strlit("\u{1b}[36m(struct)\u{1b}[0m");
    reveal_strlit("\u{1b}[36m(enum)  \u{1b}[0m");
    reveal_strlit("\u{1b}[36m(union) \u{1b}[0m");
    reveal_strlit("\u{1b}[34m(alias) \u{1b}[0m");
    reveal_strlit("\u{1b}[34m(inter) \u{1b}[0m");
    reveal_strlit("\u{1b}[34m(trait) \u{1b}[0m");
    reveal_strlit("\u{1b}[34m(type)  \u{1b}[0m");
    reveal_strlit("\u{1b}[35m(func)  \u{1b}[0m");
    reveal_strlit("\u{1b}[35m(impl)  \u{1b}[0m");
    reveal_strlit("\u{1b}[31m(??????)\u{1b}[0m");
    let s = abbrev(k);
    assert(!s.contains('\u{2008}')) by {
        assert forall|i: int| 0 <= i < s.len() implies s[i] != '\u{2008}' by {}
    }
}

} // verus!
