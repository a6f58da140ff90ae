//! The symbol cache: a path-keyed store of each file's previously computed
//! symbol list together with the file's last-seen modification time, with
//! its persistence codec. The surrounding process shares one [`Cache`]
//! across workers behind a reader/writer lock; every operation it applies
//! under that lock is verified here.
//!
//! A cached record is usable for a path exactly when its stored modification
//! time equals the file's current one; any mismatch is a miss, never an
//! error.

use vstd::prelude::*;

verus! {

use crate::assoc::{lemma_pairs_map_dom, lemma_pairs_map_get, lemma_pairs_map_update, pair_keys_unique, pairs_map};
use crate::protocol::Entry;
use crate::symbol::Kind;
use crate::text::Loc;

/// What the cache remembers about one file: its modification time as the
/// worker saw it, and its symbols in emission order. Entries do not store
/// their path; the cache key carries it.
#[derive(Clone)]
pub struct FileInfo {
    /// The file's modification time, as an opaque stamp: equality with the
    /// current stamp is all the cache ever asks of it.
    pub modified: u64,
    pub entries: Vec<Entry<(), String>>,
}

/// The view of one cached entry: location, text, kind.
pub open spec fn entry_views(s: Seq<Entry<(), String>>) -> Seq<(Loc, Seq<char>, Kind)> {
    s.map_values(|e: Entry<(), String>| (e.loc, e.text@, e.kind))
}

/// The mathematical content of a [`FileInfo`].
pub struct FileInfoView {
    pub modified: u64,
    pub entries: Seq<(Loc, Seq<char>, Kind)>,
}

impl FileInfo {
    pub open spec fn view_spec(self) -> FileInfoView {
        FileInfoView { modified: self.modified, entries: entry_views(self.entries@) }
    }
}

/// The views of the cache's path/record pairs.
pub open spec fn file_views(s: Seq<(String, FileInfo)>) -> Seq<(Seq<char>, FileInfoView)> {
    s.map_values(|p: (String, FileInfo)| (p.0@, p.1.view_spec()))
}

/// The cache itself: every operation, verified. The surrounding process
/// shares one `Cache` behind a reader/writer lock and applies these
/// operations under it; [`lemma_workers_on_distinct_paths_are_independent`]
/// says what any such serialization preserves.
///
/// The record list is private: a `Cache` only ever arises from [`Cache::new`]
/// or [`Cache::from_text`] and changes only through the operations below, so
/// its paths stay unique (`wf`) by construction.
pub struct Cache {
    files: Vec<(String, FileInfo)>,
}

impl Cache {
    /// The cache's records: path and content pairs, in storage order.
    pub closed spec fn records(self) -> Seq<(Seq<char>, FileInfoView)> {
        file_views(self.files@)
    }

    /// The map the records denote.
    pub open spec fn view_spec(self) -> Map<Seq<char>, FileInfoView> {
        pairs_map(self.records())
    }

    /// Each path appears at most once.
    pub open spec fn wf(self) -> bool {
        pair_keys_unique(self.records())
    }

    pub fn new() -> (r: Cache)
        ensures
            r.wf(),
            r.records() == Seq::<(Seq<char>, FileInfoView)>::empty(),
            r.view_spec() == Map::<Seq<char>, FileInfoView>::empty(),
    {
        let r = Cache { files: Vec::new() };
        proof {
            assert(file_views(r.files@) =~= Seq::<(Seq<char>, FileInfoView)>::empty());
            assert(r.view_spec() =~= Map::<Seq<char>, FileInfoView>::empty());
        }
        r
    }

    fn find(&self, path: &str) -> (r: Option<usize>)
        requires
            self.wf(),
        ensures
            match r {
                Some(i) => i < self.files@.len() && file_views(self.files@)[i as int].0 == path@,
                None => !self.view_spec().dom().contains(path@),
            },
    {
        let mut i: usize = 0;
        while i < self.files.len()
            invariant
                0 <= i <= self.files@.len(),
                forall|j: int| 0 <= j < i ==> file_views(self.files@)[j].0 != path@,
            decreases self.files@.len() - i,
        {
            if crate::chars::str_eq(self.files[i].0.as_str(), path) {
                assert(file_views(self.files@)[i as int].0 == path@);
                return Some(i);
            }
            i = i + 1;
        }
        proof {
            lemma_pairs_map_dom(file_views(self.files@), path@);
        }
        None
    }

    /// The record for `path`, if one exists.
    pub fn file_info(&self, path: &str) -> (r: Option<&FileInfo>)
        requires
            self.wf(),
        ensures
            match r {
                Some(info) => self.view_spec().dom().contains(path@) && self.view_spec()[path@]
                    == info.view_spec(),
                None => !self.view_spec().dom().contains(path@),
            },
    {
        match self.find(path) {
            Some(i) => {
                proof {
                    lemma_pairs_map_get(file_views(self.files@), i as int);
                }
                Some(&self.files[i].1)
            },
            None => None,
        }
    }

    /// Starts (or restarts) the record for `path`: an empty entry list with
    /// the given modification time, discarding any stale entries.
    pub fn new_file_info(&mut self, path: String, modified: u64)
        requires
            old(self).wf(),
        ensures
            final(self).wf(),
            final(self).view_spec() == old(self).view_spec().insert(
                path@,
                FileInfoView { modified, entries: Seq::empty() },
            ),
    {
        let ghost path_view = path@;
        let fresh = FileInfo { modified, entries: Vec::new() };
        proof {
            assert(fresh.view_spec().entries =~= Seq::<(Loc, Seq<char>, Kind)>::empty());
        }
        match self.find(path.as_str()) {
            Some(i) => {
                proof {
                    lemma_pairs_map_update(
                        file_views(self.files@),
                        i as int,
                        fresh.view_spec(),
                    );
                }
                let ghost before = file_views(self.files@);
                self.files[i] = (path, fresh);
                assert(file_views(self.files@) =~= before.update(
                    i as int,
                    (before[i as int].0, fresh.view_spec()),
                ));
            },
            None => {
                let ghost before = file_views(self.files@);
                self.files.push((path, fresh));
                proof {
                    assert(file_views(self.files@) =~= before.push((path_view, fresh.view_spec())));
                    assert(file_views(self.files@).drop_last() =~= before);
                    lemma_pairs_map_dom(before, path_view);
                    assert(pair_keys_unique(file_views(self.files@))) by {
                        let w = file_views(self.files@);
                        assert forall|a: int, b: int| 0 <= a < b < w.len() implies (
                        #[trigger] w[a]).0 != (#[trigger] w[b]).0 by {
                            if b == w.len() - 1 {
                                assert(w[a].0 == before[a].0);
                            }
                        }
                    }
                }
            },
        }
    }

    /// Appends one entry to `path`'s record. [`Self::new_file_info`] must
    /// have been called for `path` first in this run.
    pub fn insert_entry(&mut self, path: &str, loc: Loc, text: String, kind: Kind)
        requires
            old(self).wf(),
            old(self).view_spec().dom().contains(path@),
        ensures
            final(self).wf(),
            final(self).view_spec() == old(self).view_spec().insert(
                path@,
                FileInfoView {
                    modified: old(self).view_spec()[path@].modified,
                    entries: old(self).view_spec()[path@].entries.push((loc, text@, kind)),
                },
            ),
    {
        let ghost text_view = text@;
        match self.find(path) {
            Some(i) => {
                proof {
                    lemma_pairs_map_get(file_views(self.files@), i as int);
                }
                let ghost before = file_views(self.files@);
                let ghost old_info = self.files@[i as int].1.view_spec();
                let entry = Entry::new((), loc, text, kind);
                let ghost new_info = FileInfoView {
                    modified: old_info.modified,
                    entries: old_info.entries.push((loc, text_view, kind)),
                };
                proof {
                    lemma_pairs_map_update(file_views(self.files@), i as int, new_info);
                }
                self.files[i].1.entries.push(entry);
                proof {
                    assert(entry_views(self.files@[i as int].1.entries@) =~= old_info.entries.push(
                        (loc, text_view, kind),
                    ));
                    assert(file_views(self.files@) =~= before.update(
                        i as int,
                        (before[i as int].0, new_info),
                    ));
                }
            },
            None => {
                proof {
                    assert(false);
                }
            },
        }
    }

    /// Appends one entry to `path`'s record if that record exists; without a
    /// preceding [`Self::new_file_info`] for `path` nothing changes and
    /// `false` comes back.
    pub fn record(&mut self, path: &str, loc: Loc, text: String, kind: Kind) -> (r: bool)
        requires
            old(self).wf(),
        ensures
            final(self).wf(),
            r == old(self).view_spec().dom().contains(path@),
            r ==> final(self).view_spec() == old(self).view_spec().insert(
                path@,
                FileInfoView {
                    modified: old(self).view_spec()[path@].modified,
                    entries: old(self).view_spec()[path@].entries.push((loc, text@, kind)),
                },
            ),
            !r ==> *final(self) == *old(self),
    {
        let present = match self.find(path) {
            Some(_) => true,
            None => false,
        };
        if present {
            proof {
                if !self.view_spec().dom().contains(path@) {
                    let i = choose|i: int|
                        0 <= i < file_views(self.files@).len() && (#[trigger] file_views(
                            self.files@,
                        )[i]).0 == path@;
                    lemma_pairs_map_get(file_views(self.files@), i);
                    assert(false);
                }
            }
            self.insert_entry(path, loc, text, kind);
            true
        } else {
            false
        }
    }
}

// ---------------------------------------------------------------------------
// The persistence codec: the cache as plain structured text.
// ---------------------------------------------------------------------------
//
// One line per file. A line holds three unit-separated fields — path,
// modification stamp, entries — and the entries field holds one
// record-separated block per entry, whose four tab-separated fields are
// line, column, kind name, text.

/// Separates the files (one per line).
pub const FILE_SEP: char = '\n';

/// Separates a file's path, stamp and entry block.
pub const FIELD_SEP: char = '\u{1f}';

/// Separates the entries within a file's entry block.
pub const ENTRY_SEP: char = '\u{1e}';

/// Separates an entry's line, column, kind name and text.
pub const ENTRY_FIELD_SEP: char = '\t';

use crate::chars::{
    all_digits,
    dec_rep,
    dec_val,
    is_digit,
    join_with,
    lemma_dec_rep,
    lemma_digits_not,
    lemma_join_len,
    lemma_join_not_contains,
    lemma_split_join,
    split_on,
};
use crate::symbol::{kind_name, kind_of_name, lemma_kind_name_round_trip};

/// Introduces an escaped separator or escape character inside a stored
/// path or text, so that any record at all survives the round trip.
pub const ESCAPE: char = '\\';

/// The characters a stored field may not carry plainly: the four
/// separators and the escape character itself.
pub open spec fn needs_escape(c: char) -> bool {
    c == ESCAPE || c == FILE_SEP || c == FIELD_SEP || c == ENTRY_SEP || c == ENTRY_FIELD_SEP
}

/// The code letter standing for an escaped character.
pub open spec fn escape_code(c: char) -> char {
    if c == ESCAPE {
        '\\'
    } else if c == FILE_SEP {
        'n'
    } else if c == FIELD_SEP {
        'f'
    } else if c == ENTRY_SEP {
        'e'
    } else {
        't'
    }
}

/// The character a code letter stands for, if any.
pub open spec fn code_char(c: char) -> Option<char> {
    if c == '\\' {
        Some(ESCAPE)
    } else if c == 'n' {
        Some(FILE_SEP)
    } else if c == 'f' {
        Some(FIELD_SEP)
    } else if c == 'e' {
        Some(ENTRY_SEP)
    } else if c == 't' {
        Some(ENTRY_FIELD_SEP)
    } else {
        None
    }
}

/// One character, escaped if it must be.
pub open spec fn escaped_char(c: char) -> Seq<char> {
    if needs_escape(c) {
        seq![ESCAPE, escape_code(c)]
    } else {
        seq![c]
    }
}

/// A field as stored: every separator and escape character escaped.
pub open spec fn escape_text(s: Seq<char>) -> Seq<char>
    decreases s.len(),
{
    if s.len() == 0 {
        Seq::empty()
    } else {
        escaped_char(s[0]) + escape_text(s.drop_first())
    }
}

/// A stored field read back; `None` on a dangling or unknown escape.
pub open spec fn unescape_text(s: Seq<char>) -> Option<Seq<char>>
    decreases s.len(),
{
    if s.len() == 0 {
        Some(Seq::empty())
    } else if s[0] == ESCAPE {
        if s.len() < 2 {
            None
        } else {
            match (code_char(s[1]), unescape_text(s.skip(2))) {
                (Some(c), Some(rest)) => Some(seq![c] + rest),
                _ => None,
            }
        }
    } else {
        match unescape_text(s.drop_first()) {
            Some(rest) => Some(seq![s[0]] + rest),
            None => None,
        }
    }
}

/// An escaped field is free of every separator.
proof fn lemma_escape_clean(s: Seq<char>)
    ensures
        !escape_text(s).contains(FILE_SEP),
        !escape_text(s).contains(FIELD_SEP),
        !escape_text(s).contains(ENTRY_SEP),
        !escape_text(s).contains(ENTRY_FIELD_SEP),
    decreases s.len(),
{
    if s.len() > 0 {
        lemma_escape_clean(s.drop_first());
        let head = escaped_char(s[0]);
        let tail = escape_text(s.drop_first());
        assert forall|i: int| 0 <= i < escape_text(s).len() implies escape_text(s)[i] != FILE_SEP
            && escape_text(s)[i] != FIELD_SEP && escape_text(s)[i] != ENTRY_SEP && escape_text(
            s,
        )[i] != ENTRY_FIELD_SEP by {
            if i < head.len() {
                assert(escape_text(s)[i] == head[i]);
            } else {
                assert(escape_text(s)[i] == tail[i - head.len()]);
                assert(!tail.contains(FILE_SEP) && !tail.contains(FIELD_SEP) && !tail.contains(
                    ENTRY_SEP,
                ) && !tail.contains(ENTRY_FIELD_SEP));
            }
        }
    }
}

/// Escaping and reading back restores any field at all.
proof fn lemma_unescape_escape(s: Seq<char>)
    ensures
        unescape_text(escape_text(s)) == Some(s),
    decreases s.len(),
{
    if s.len() > 0 {
        lemma_unescape_escape(s.drop_first());
        let head = escaped_char(s[0]);
        let rest = escape_text(s.drop_first());
        let w = escape_text(s);
        assert(w == head + rest);
        if needs_escape(s[0]) {
            assert(w[0] == ESCAPE);
            assert(w[1] == escape_code(s[0]));
            assert(w.skip(2) =~= rest);
            assert(code_char(escape_code(s[0])) == Some(s[0]));
            assert(seq![s[0]] + s.drop_first() =~= s);
        } else {
            assert(w[0] == s[0]);
            assert(s[0] != ESCAPE);
            assert(w.drop_first() =~= rest);
            assert(seq![s[0]] + s.drop_first() =~= s);
        }
    }
}

/// Escapes a field for storage.
fn escape_chars(v: &Vec<char>) -> (r: Vec<char>)
    ensures
        r@ == escape_text(v@),
{
    let ghost all = v@;
    let mut r: Vec<char> = Vec::new();
    let mut i: usize = 0;
    proof {
        assert(all.skip(0int) =~= all);
        assert(escape_text(all) =~= r@ + escape_text(all.skip(0int)));
    }
    while i < v.len()
        invariant
            0 <= i <= v@.len(),
            all == v@,
            escape_text(all) =~= r@ + escape_text(all.skip(i as int)),
        decreases v@.len() - i,
    {
        let ghost rem = all.skip(i as int);
        proof {
            assert(rem[0] == all[i as int]);
            assert(rem.drop_first() =~= all.skip(i + 1int));
        }
        let c = v[i];
        let ghost before = r@;
        if c == '\\' {
            r.push(ESCAPE);
            r.push('\\');
        } else if c == FILE_SEP {
            r.push(ESCAPE);
            r.push('n');
        } else if c == FIELD_SEP {
            r.push(ESCAPE);
            r.push('f');
        } else if c == ENTRY_SEP {
            r.push(ESCAPE);
            r.push('e');
        } else if c == ENTRY_FIELD_SEP {
            r.push(ESCAPE);
            r.push('t');
        } else {
            r.push(c);
        }
        proof {
            assert(r@ =~= before + escaped_char(all[i as int]));
            assert(before + (escaped_char(all[i as int]) + escape_text(all.skip(i + 1int))) =~= (
            before + escaped_char(all[i as int])) + escape_text(all.skip(i + 1int)));
        }
        i = i + 1;
    }
    proof {
        assert(escape_text(all.skip(all.len() as int)) =~= Seq::<char>::empty());
        assert(r@ + Seq::<char>::empty() =~= r@);
    }
    r
}

/// Reads a stored field back; `None` on a dangling or unknown escape.
fn unescape_chars(v: &Vec<char>) -> (r: Option<Vec<char>>)
    ensures
        match r {
            Some(u) => unescape_text(v@) == Some(u@),
            None => unescape_text(v@) is None,
        },
{
    let ghost all = v@;
    let mut acc: Vec<char> = Vec::new();
    let mut i: usize = 0;
    proof {
        assert(all.skip(0int) =~= all);
    }
    while i < v.len()
        invariant
            0 <= i <= v@.len(),
            all == v@,
            unescape_text(all) == (match unescape_text(all.skip(i as int)) {
                Some(rest) => Some(acc@ + rest),
                None => None::<Seq<char>>,
            }),
        decreases v@.len() - i,
    {
        let ghost rem = all.skip(i as int);
        proof {
            assert(rem[0] == all[i as int]);
            assert(rem.drop_first() =~= all.skip(i + 1int));
        }
        let c = v[i];
        let ghost before = acc@;
        if c == '\\' {
            if i + 1 >= v.len() {
                proof {
                    assert(rem.len() < 2);
                    assert(unescape_text(rem) is None);
                }
                return None;
            }
            proof {
                assert(rem[1] == all[i + 1int]);
                assert(rem.skip(2) =~= all.skip(i + 2int));
            }
            let d = v[i + 1];
            let decoded: char = if d == '\\' {
                ESCAPE
            } else if d == 'n' {
                FILE_SEP
            } else if d == 'f' {
                FIELD_SEP
            } else if d == 'e' {
                ENTRY_SEP
            } else if d == 't' {
                ENTRY_FIELD_SEP
            } else {
                proof {
                    assert(code_char(all[i + 1int]) is None);
                    assert(unescape_text(rem) is None);
                }
                return None;
            };
            acc.push(decoded);
            proof {
                assert(code_char(all[i + 1int]) == Some(decoded));
                if unescape_text(all.skip(i + 2int)) is Some {
                    let rest = unescape_text(all.skip(i + 2int))->Some_0;
                    assert(before + (seq![decoded] + rest) =~= acc@ + rest);
                }
            }
            i = i + 2;
        } else {
            acc.push(c);
            proof {
                if unescape_text(all.skip(i + 1int)) is Some {
                    let rest = unescape_text(all.skip(i + 1int))->Some_0;
                    assert(before + (seq![c] + rest) =~= acc@ + rest);
                }
            }
            i = i + 1;
        }
    }
    proof {
        assert(all.skip(v@.len() as int).len() == 0);
        assert(acc@ + Seq::<char>::empty() =~= acc@);
    }
    Some(acc)
}

/// One entry's text: line, column, kind name, and the escaped text.
pub open spec fn entry_text(e: (Loc, Seq<char>, Kind)) -> Seq<char> {
    join_with(
        seq![dec_rep(e.0.line as nat), dec_rep(e.0.column as nat), kind_name(e.2), escape_text(e.1)],
        ENTRY_FIELD_SEP,
    )
}

/// A file's entry block: its entries' texts, record-separated; empty for no
/// entries.
pub open spec fn entries_text(es: Seq<(Loc, Seq<char>, Kind)>) -> Seq<char> {
    if es.len() == 0 {
        Seq::empty()
    } else {
        join_with(es.map_values(|e: (Loc, Seq<char>, Kind)| entry_text(e)), ENTRY_SEP)
    }
}

/// A file's line: escaped path, stamp, entry block.
pub open spec fn file_text(p: (Seq<char>, FileInfoView)) -> Seq<char> {
    join_with(
        seq![escape_text(p.0), dec_rep(p.1.modified as nat), entries_text(p.1.entries)],
        FIELD_SEP,
    )
}

/// The whole cache as text: one line per file; empty for an empty cache.
pub open spec fn cache_text(pairs: Seq<(Seq<char>, FileInfoView)>) -> Seq<char> {
    if pairs.len() == 0 {
        Seq::empty()
    } else {
        join_with(pairs.map_values(|p: (Seq<char>, FileInfoView)| file_text(p)), FILE_SEP)
    }
}

/// A numeral field's value, when it is one: nonempty, all digits.
pub open spec fn num_of(s: Seq<char>) -> Option<nat> {
    if s.len() >= 1 && all_digits(s) {
        Some(dec_val(s))
    } else {
        None
    }
}

/// Decodes one entry's text.
pub open spec fn decode_entry(s: Seq<char>) -> Option<(Loc, Seq<char>, Kind)> {
    let fields = split_on(s, ENTRY_FIELD_SEP);
    if fields.len() != 4 {
        None
    } else {
        match (num_of(fields[0]), num_of(fields[1]), kind_of_name(fields[2]), unescape_text(
            fields[3],
        )) {
            (Some(line), Some(column), Some(kind), Some(text)) => {
                if line <= usize::MAX && column <= usize::MAX {
                    Some((Loc { line: line as usize, column: column as usize }, text, kind))
                } else {
                    None
                }
            },
            _ => None,
        }
    }
}

/// Decodes a list of entry texts.
pub open spec fn decode_entry_list(parts: Seq<Seq<char>>) -> Option<Seq<(Loc, Seq<char>, Kind)>>
    decreases parts.len(),
{
    if parts.len() == 0 {
        Some(Seq::empty())
    } else {
        match (decode_entry(parts[0]), decode_entry_list(parts.drop_first())) {
            (Some(e), Some(rest)) => Some(seq![e] + rest),
            _ => None,
        }
    }
}

/// Decodes one file's line.
pub open spec fn decode_file(s: Seq<char>) -> Option<(Seq<char>, FileInfoView)> {
    let fields = split_on(s, FIELD_SEP);
    if fields.len() != 3 {
        None
    } else {
        match (unescape_text(fields[0]), num_of(fields[1])) {
            (Some(path), Some(modified)) => {
                if modified <= u64::MAX {
                    let entries = if fields[2].len() == 0 {
                        Some(Seq::<(Loc, Seq<char>, Kind)>::empty())
                    } else {
                        decode_entry_list(split_on(fields[2], ENTRY_SEP))
                    };
                    match entries {
                        Some(es) => Some(
                            (path, FileInfoView { modified: modified as u64, entries: es }),
                        ),
                        None => None,
                    }
                } else {
                    None
                }
            },
            _ => None,
        }
    }
}

/// Decodes a list of file lines.
pub open spec fn decode_file_list(parts: Seq<Seq<char>>) -> Option<Seq<(Seq<char>, FileInfoView)>>
    decreases parts.len(),
{
    if parts.len() == 0 {
        Some(Seq::empty())
    } else {
        match (decode_file(parts[0]), decode_file_list(parts.drop_first())) {
            (Some(p), Some(rest)) => Some(seq![p] + rest),
            _ => None,
        }
    }
}

/// Decodes a whole cache text.
pub open spec fn decode_cache(s: Seq<char>) -> Option<Seq<(Seq<char>, FileInfoView)>> {
    if s.len() == 0 {
        Some(Seq::empty())
    } else {
        decode_file_list(split_on(s, FILE_SEP))
    }
}

/// An entry's text is separator-free above the tab level and reads back as
/// the entry.
proof fn lemma_entry_round_trip(e: (Loc, Seq<char>, Kind))
    ensures
        decode_entry(entry_text(e)) == Some(e),
        !entry_text(e).contains(FILE_SEP),
        !entry_text(e).contains(FIELD_SEP),
        !entry_text(e).contains(ENTRY_SEP),
        entry_text(e).len() >= 3,
{
    let fields = seq![
        dec_rep(e.0.line as nat),
        dec_rep(e.0.column as nat),
        kind_name(e.2),
        escape_text(e.1),
    ];
    lemma_dec_rep(e.0.line as nat);
    lemma_dec_rep(e.0.column as nat);
    lemma_kind_name_round_trip(e.2);
    lemma_escape_clean(e.1);
    lemma_unescape_escape(e.1);
    lemma_digits_not(dec_rep(e.0.line as nat), ENTRY_FIELD_SEP);
    lemma_digits_not(dec_rep(e.0.column as nat), ENTRY_FIELD_SEP);
    lemma_split_join(fields, ENTRY_FIELD_SEP);
    assert(split_on(entry_text(e), ENTRY_FIELD_SEP) =~= fields);
    lemma_digits_not(dec_rep(e.0.line as nat), FILE_SEP);
    lemma_digits_not(dec_rep(e.0.column as nat), FILE_SEP);
    lemma_digits_not(dec_rep(e.0.line as nat), FIELD_SEP);
    lemma_digits_not(dec_rep(e.0.column as nat), FIELD_SEP);
    lemma_digits_not(dec_rep(e.0.line as nat), ENTRY_SEP);
    lemma_digits_not(dec_rep(e.0.column as nat), ENTRY_SEP);
    lemma_join_not_contains(fields, ENTRY_FIELD_SEP, FILE_SEP);
    lemma_join_not_contains(fields, ENTRY_FIELD_SEP, FIELD_SEP);
    lemma_join_not_contains(fields, ENTRY_FIELD_SEP, ENTRY_SEP);
    lemma_join_len(fields, ENTRY_FIELD_SEP);
}

proof fn lemma_entry_list_round_trip(es: Seq<(Loc, Seq<char>, Kind)>)
    ensures
        decode_entry_list(es.map_values(|e: (Loc, Seq<char>, Kind)| entry_text(e))) == Some(es),
    decreases es.len(),
{
    let parts = es.map_values(|e: (Loc, Seq<char>, Kind)| entry_text(e));
    if es.len() == 0 {
        assert(decode_entry_list(parts) == Some(Seq::<(Loc, Seq<char>, Kind)>::empty()));
    } else {
        lemma_entry_round_trip(es[0]);
        lemma_entry_list_round_trip(es.drop_first());
        assert(parts.drop_first() =~= es.drop_first().map_values(
            |e: (Loc, Seq<char>, Kind)| entry_text(e),
        ));
        assert(seq![es[0]] + es.drop_first() =~= es);
    }
}

/// A file's line is newline-free and reads back as the file's record.
proof fn lemma_file_round_trip(p: (Seq<char>, FileInfoView))
    ensures
        decode_file(file_text(p)) == Some(p),
        !file_text(p).contains(FILE_SEP),
        file_text(p).len() >= 2,
{
    let es = p.1.entries;
    let blob = entries_text(es);
    let eparts = es.map_values(|e: (Loc, Seq<char>, Kind)| entry_text(e));
    assert forall|j: int| 0 <= j < eparts.len() implies !(#[trigger] eparts[j]).contains(FILE_SEP)
        && !eparts[j].contains(FIELD_SEP) && !eparts[j].contains(ENTRY_SEP) && eparts[j].len()
        >= 3 by {
        lemma_entry_round_trip(es[j]);
    }
    if es.len() > 0 {
        lemma_join_not_contains(eparts, ENTRY_SEP, FILE_SEP);
        lemma_join_not_contains(eparts, ENTRY_SEP, FIELD_SEP);
        lemma_join_len(eparts, ENTRY_SEP);
        assert(blob.len() > 0);
        lemma_split_join(eparts, ENTRY_SEP);
        lemma_entry_list_round_trip(es);
    } else {
        assert(es =~= Seq::<(Loc, Seq<char>, Kind)>::empty());
    }
    let fields = seq![escape_text(p.0), dec_rep(p.1.modified as nat), blob];
    lemma_dec_rep(p.1.modified as nat);
    lemma_digits_not(dec_rep(p.1.modified as nat), FIELD_SEP);
    lemma_digits_not(dec_rep(p.1.modified as nat), FILE_SEP);
    lemma_escape_clean(p.0);
    lemma_unescape_escape(p.0);
    lemma_split_join(fields, FIELD_SEP);
    assert(split_on(file_text(p), FIELD_SEP) =~= fields);
    lemma_join_not_contains(fields, FIELD_SEP, FILE_SEP);
    lemma_join_len(fields, FIELD_SEP);
    assert(num_of(fields[1]) == Some(p.1.modified as nat));
    assert(decode_file(file_text(p)) == Some((p.0, FileInfoView { modified: p.1.modified, entries: es })));
    assert((p.0, FileInfoView { modified: p.1.modified, entries: es }) == p);
}

proof fn lemma_file_list_round_trip(pairs: Seq<(Seq<char>, FileInfoView)>)
    ensures
        decode_file_list(pairs.map_values(|p: (Seq<char>, FileInfoView)| file_text(p))) == Some(
            pairs,
        ),
    decreases pairs.len(),
{
    let parts = pairs.map_values(|p: (Seq<char>, FileInfoView)| file_text(p));
    if pairs.len() == 0 {
        assert(decode_file_list(parts) == Some(Seq::<(Seq<char>, FileInfoView)>::empty()));
    } else {
        lemma_file_round_trip(pairs[0]);
        lemma_file_list_round_trip(pairs.drop_first());
        assert(parts.drop_first() =~= pairs.drop_first().map_values(
            |p: (Seq<char>, FileInfoView)| file_text(p),
        ));
        assert(seq![pairs[0]] + pairs.drop_first() =~= pairs);
    }
}

/// The persistence round trip: any cache at all — whatever its paths and
/// texts hold — decodes from its own text to exactly its records, in order.
pub proof fn lemma_cache_round_trip(pairs: Seq<(Seq<char>, FileInfoView)>)
    ensures
        decode_cache(cache_text(pairs)) == Some(pairs),
{
    if pairs.len() == 0 {
    } else {
        let parts = pairs.map_values(|p: (Seq<char>, FileInfoView)| file_text(p));
        assert forall|j: int| 0 <= j < parts.len() implies !(#[trigger] parts[j]).contains(
            FILE_SEP,
        ) && parts[j].len() >= 2 by {
            lemma_file_round_trip(pairs[j]);
        }
        lemma_join_len(parts, FILE_SEP);
        assert(cache_text(pairs).len() > 0);
        lemma_split_join(parts, FILE_SEP);
        lemma_file_list_round_trip(pairs);
    }
}

// ---------------------------------------------------------------------------
// Independence of workers on distinct paths.
// ---------------------------------------------------------------------------

/// One cache mutation, as [`Cache::new_file_info`] and
/// [`Cache::record`] perform it on the map's content.
pub enum CacheOp {
    Begin { modified: u64 },
    Record { loc: Loc, text: Seq<char>, kind: Kind },
}

/// What one mutation does to the map: exactly what the ensures of
/// `new_file_info` and `record` state.
pub open spec fn apply_op(
    m: Map<Seq<char>, FileInfoView>,
    path: Seq<char>,
    op: CacheOp,
) -> Map<Seq<char>, FileInfoView> {
    match op {
        CacheOp::Begin { modified } => m.insert(
            path,
            FileInfoView { modified, entries: Seq::empty() },
        ),
        CacheOp::Record { loc, text, kind } => {
            if m.dom().contains(path) {
                m.insert(
                    path,
                    FileInfoView {
                        modified: m[path].modified,
                        entries: m[path].entries.push((loc, text, kind)),
                    },
                )
            } else {
                m
            }
        },
    }
}

/// A whole run's mutations, in the order the lock serialized them.
pub open spec fn apply_ops(
    m: Map<Seq<char>, FileInfoView>,
    ops: Seq<(Seq<char>, CacheOp)>,
) -> Map<Seq<char>, FileInfoView>
    decreases ops.len(),
{
    if ops.len() == 0 {
        m
    } else {
        apply_op(apply_ops(m, ops.drop_last()), ops.last().0, ops.last().1)
    }
}

/// The mutations of the serialized run that touch `p`, in order.
pub open spec fn ops_for(ops: Seq<(Seq<char>, CacheOp)>, p: Seq<char>) -> Seq<CacheOp>
    decreases ops.len(),
{
    if ops.len() == 0 {
        Seq::empty()
    } else {
        let rest = ops_for(ops.drop_last(), p);
        if ops.last().0 == p {
            rest.push(ops.last().1)
        } else {
            rest
        }
    }
}

/// The mutations one worker makes for one file: a begin, then its records.
pub open spec fn worker_ops(modified: u64, records: Seq<(Loc, Seq<char>, Kind)>) -> Seq<CacheOp> {
    seq![CacheOp::Begin { modified }].add(
        records.map_values(
            |e: (Loc, Seq<char>, Kind)| CacheOp::Record { loc: e.0, text: e.1, kind: e.2 },
        ),
    )
}

/// Concurrent workers on distinct paths do not disturb each other: however
/// the lock interleaves a run's mutations, a path whose own mutations are
/// one worker's begin-then-record sequence ends with exactly that worker's
/// record — the stamp it began with and all its entries, in order, none
/// lost. (What the lock itself guarantees — that the run is some
/// serialization of the workers' mutations — is the shared cache's trusted
/// boundary.)
pub proof fn lemma_workers_on_distinct_paths_are_independent(
    m0: Map<Seq<char>, FileInfoView>,
    ops: Seq<(Seq<char>, CacheOp)>,
    p: Seq<char>,
    modified: u64,
    records: Seq<(Loc, Seq<char>, Kind)>,
)
    requires
        ops_for(ops, p) == worker_ops(modified, records),
    ensures
        apply_ops(m0, ops).dom().contains(p),
        apply_ops(m0, ops)[p] == (FileInfoView { modified, entries: records }),
    decreases ops.len(),
{
    let target = worker_ops(modified, records);
    assert(target.len() == 1 + records.len());
    if ops.len() == 0 {
        assert(ops_for(ops, p).len() == 0);
        assert(false);
    } else {
        let (q, op) = ops.last();
        let rest = ops.drop_last();
        let before = apply_ops(m0, rest);
        if q != p {
            lemma_workers_on_distinct_paths_are_independent(m0, rest, p, modified, records);
            match op {
                CacheOp::Begin { modified: m2 } => {},
                CacheOp::Record { loc, text, kind } => {},
            }
        } else {
            assert(ops_for(ops, p) == ops_for(rest, p).push(op));
            assert(op == target.last());
            assert(ops_for(rest, p) =~= target.drop_last());
            if records.len() == 0 {
                assert(target =~= seq![CacheOp::Begin { modified }]);
                assert(op == CacheOp::Begin { modified });
                assert(apply_op(before, p, op)[p].entries =~= records);
            } else {
                let shorter = records.drop_last();
                let e = records.last();
                assert(target.drop_last() =~= worker_ops(modified, shorter));
                assert(target.last() == CacheOp::Record { loc: e.0, text: e.1, kind: e.2 });
                lemma_workers_on_distinct_paths_are_independent(m0, rest, p, modified, shorter);
                assert(apply_op(before, p, op)[p].entries =~= records);
            }
        }
    }
}

fn encode_entry(e: &Entry<(), String>) -> (r: Vec<char>)
    ensures
        r@ == entry_text((e.loc, e.text@, e.kind)),
{
    let mut fields: Vec<Vec<char>> = Vec::new();
    fields.push(crate::chars::decimal_chars(e.loc.line as u64));
    fields.push(crate::chars::decimal_chars(e.loc.column as u64));
    fields.push(crate::chars::chars_of_str(e.kind.name()));
    let text_chars = crate::chars::chars_of_str(e.text.as_str());
    fields.push(escape_chars(&text_chars));
    proof {
        assert(crate::chars::seq_views(fields@) =~= seq![
            dec_rep(e.loc.line as nat),
            dec_rep(e.loc.column as nat),
            kind_name(e.kind),
            escape_text(e.text@),
        ]);
    }
    crate::chars::join_chars(&fields, ENTRY_FIELD_SEP)
}

fn encode_file(path: &String, info: &FileInfo) -> (r: Vec<char>)
    ensures
        r@ == file_text((path@, info.view_spec())),
{
    let blob: Vec<char> = if info.entries.len() == 0 {
        let empty: Vec<char> = Vec::new();
        proof {
            assert(info.view_spec().entries =~= Seq::<(Loc, Seq<char>, Kind)>::empty());
            assert(empty@ =~= entries_text(info.view_spec().entries));
        }
        empty
    } else {
        let mut eparts: Vec<Vec<char>> = Vec::new();
        let mut i: usize = 0;
        let ghost target = info.view_spec().entries.map_values(
            |e: (Loc, Seq<char>, Kind)| entry_text(e),
        );
        while i < info.entries.len()
            invariant
                0 <= i <= info.entries@.len(),
                target == info.view_spec().entries.map_values(
                    |e: (Loc, Seq<char>, Kind)| entry_text(e),
                ),
                crate::chars::seq_views(eparts@) =~= target.take(i as int),
            decreases info.entries@.len() - i,
        {
            let ghost before = eparts@;
            let one = encode_entry(&info.entries[i]);
            eparts.push(one);
            proof {
                assert(crate::chars::seq_views(eparts@) =~= crate::chars::seq_views(before).push(
                    entry_text(entry_views(info.entries@)[i as int]),
                ));
                assert(crate::chars::seq_views(eparts@) =~= target.take(i + 1int));
            }
            i = i + 1;
        }
        proof {
            assert(target.take(target.len() as int) =~= target);
        }
        crate::chars::join_chars(&eparts, ENTRY_SEP)
    };
    let mut fields: Vec<Vec<char>> = Vec::new();
    let path_chars = crate::chars::chars_of_str(path.as_str());
    fields.push(escape_chars(&path_chars));
    fields.push(crate::chars::decimal_chars(info.modified));
    fields.push(blob);
    proof {
        assert(crate::chars::seq_views(fields@) =~= seq![
            escape_text(path@),
            dec_rep(info.modified as nat),
            entries_text(info.view_spec().entries),
        ]);
    }
    crate::chars::join_chars(&fields, FIELD_SEP)
}

impl Cache {
    /// The cache as its persistent text.
    pub fn to_text(&self) -> (r: String)
        ensures
            r@ == cache_text(self.records()),
    {
        if self.files.len() == 0 {
            let r = String::new();
            proof {
                assert(file_views(self.files@).len() == 0);
            }
            return r;
        }
        let mut blocks: Vec<Vec<char>> = Vec::new();
        let mut i: usize = 0;
        let ghost target = file_views(self.files@).map_values(
            |p: (Seq<char>, FileInfoView)| file_text(p),
        );
        while i < self.files.len()
            invariant
                0 <= i <= self.files@.len(),
                target == file_views(self.files@).map_values(
                    |p: (Seq<char>, FileInfoView)| file_text(p),
                ),
                crate::chars::seq_views(blocks@) =~= target.take(i as int),
            decreases self.files@.len() - i,
        {
            let ghost before = blocks@;
            let one = encode_file(&self.files[i].0, &self.files[i].1);
            blocks.push(one);
            proof {
                assert(crate::chars::seq_views(blocks@) =~= crate::chars::seq_views(before).push(
                    file_text(file_views(self.files@)[i as int]),
                ));
                assert(crate::chars::seq_views(blocks@) =~= target.take(i + 1int));
            }
            i = i + 1;
        }
        proof {
            assert(target.take(target.len() as int) =~= target);
        }
        let joined = crate::chars::join_chars(&blocks, FILE_SEP);
        crate::chars::string_of_chars(&joined)
    }
}

fn decode_entry_chars(e: &Vec<char>) -> (r: Option<Entry<(), String>>)
    ensures
        match r {
            Some(entry) => decode_entry(e@) == Some((entry.loc, entry.text@, entry.kind)),
            None => decode_entry(e@) is None,
        },
{
    let fields = crate::chars::split_chars(e, ENTRY_FIELD_SEP);
    if fields.len() != 4 {
        return None;
    }
    let line64 = match crate::chars::parse_decimal(&fields[0]) {
        Some(n) => n,
        None => {
            return None;
        },
    };
    let col64 = match crate::chars::parse_decimal(&fields[1]) {
        Some(n) => n,
        None => {
            return None;
        },
    };
    if line64 > usize::MAX as u64 || col64 > usize::MAX as u64 {
        return None;
    }
    let kind_field = crate::chars::string_of_chars(&fields[2]);
    let kind = match Kind::from_name(kind_field.as_str()) {
        Some(k) => k,
        None => {
            return None;
        },
    };
    let text_chars = match unescape_chars(&fields[3]) {
        Some(u) => u,
        None => {
            return None;
        },
    };
    let text = crate::chars::string_of_chars(&text_chars);
    let loc = Loc { line: line64 as usize, column: col64 as usize };
    Some(Entry::new((), loc, text, kind))
}

fn decode_file_chars(part: &Vec<char>) -> (r: Option<(String, FileInfo)>)
    ensures
        match r {
            Some(p) => decode_file(part@) == Some((p.0@, p.1.view_spec())),
            None => decode_file(part@) is None,
        },
{
    let fields = crate::chars::split_chars(part, FIELD_SEP);
    if fields.len() != 3 {
        return None;
    }
    let modified = match crate::chars::parse_decimal(&fields[1]) {
        Some(n) => n,
        None => {
            return None;
        },
    };
    let path_chars = match unescape_chars(&fields[0]) {
        Some(u) => u,
        None => {
            proof {
                assert(fields@[0]@ == split_on(part@, FIELD_SEP)[0]);
            }
            return None;
        },
    };
    let mut entries: Vec<Entry<(), String>> = Vec::new();
    let ghost spec_fields = split_on(part@, FIELD_SEP);
    proof {
        assert(spec_fields.len() == 3);
        assert(fields@[1]@ == spec_fields[1]);
        assert(fields@[2]@ == spec_fields[2]);
        assert(num_of(spec_fields[1]) == Some(modified as nat));
    }
    if fields[2].len() > 0 {
        let eparts = crate::chars::split_chars(&fields[2], ENTRY_SEP);
        let ghost all = crate::chars::seq_views(eparts@);
        let mut i: usize = 0;
        proof {
            assert(all.skip(0int) =~= all);
        }
        while i < eparts.len()
            invariant
                0 <= i <= eparts@.len(),
                all == crate::chars::seq_views(eparts@),
                spec_fields == split_on(part@, FIELD_SEP),
                spec_fields.len() == 3,
                num_of(spec_fields[1]) == Some(modified as nat),
                modified <= u64::MAX,
                spec_fields[2].len() > 0,
                all == split_on(spec_fields[2], ENTRY_SEP),
                decode_entry_list(all) == (match decode_entry_list(all.skip(i as int)) {
                    Some(rest) => Some(entry_views(entries@) + rest),
                    None => None::<Seq<(Loc, Seq<char>, Kind)>>,
                }),
            decreases eparts@.len() - i,
        {
            let ghost rem = all.skip(i as int);
            proof {
                assert(rem[0] == all[i as int]);
                assert(rem.drop_first() =~= all.skip(i + 1int));
            }
            match decode_entry_chars(&eparts[i]) {
                Some(entry) => {
                    let ghost before = entries@;
                    entries.push(entry);
                    proof {
                        assert(entry_views(entries@) =~= entry_views(before).push(
                            (entry.loc, entry.text@, entry.kind),
                        ));
                        if decode_entry_list(all.skip(i + 1int)) is Some {
                            let rest = decode_entry_list(all.skip(i + 1int))->Some_0;
                            assert(entry_views(before) + (seq![
                                (entry.loc, entry.text@, entry.kind),
                            ] + rest) =~= entry_views(entries@) + rest);
                        }
                    }
                },
                None => {
                    proof {
                        assert(decode_entry_list(rem) is None);
                        assert(decode_entry_list(all) is None);
                        assert(decode_file(part@) is None);
                    }
                    return None;
                },
            }
            i = i + 1;
        }
        proof {
            assert(all.skip(eparts@.len() as int).len() == 0);
            assert(entry_views(entries@) + Seq::<(Loc, Seq<char>, Kind)>::empty() =~= entry_views(
                entries@,
            ));
        }
    } else {
        proof {
            assert(entry_views(entries@) =~= Seq::<(Loc, Seq<char>, Kind)>::empty());
        }
    }
    proof {
        assert(fields@[0]@ == spec_fields[0]);
    }
    let path = crate::chars::string_of_chars(&path_chars);
    let info = FileInfo { modified, entries };
    Some((path, info))
}

impl Cache {
    /// Reads a cache back from its persistent text. `None` on malformed
    /// text, or when two lines name the same path.
    pub fn from_text(s: &str) -> (r: Option<Cache>)
        ensures
            match r {
                Some(m) => {
                    &&& m.wf()
                    &&& decode_cache(s@) matches Some(pairs) && m.records() == pairs
                },
                None => decode_cache(s@) is None || !pair_keys_unique(
                    decode_cache(s@)->Some_0,
                ),
            },
    {
        let v = crate::chars::chars_of_str(s);
        if v.len() == 0 {
            let m = Cache::new();
            proof {
                assert(file_views(m.files@) =~= Seq::<(Seq<char>, FileInfoView)>::empty());
            }
            return Some(m);
        }
        let parts = crate::chars::split_chars(&v, FILE_SEP);
        let ghost all = crate::chars::seq_views(parts@);
        let mut acc: Vec<(String, FileInfo)> = Vec::new();
        let mut i: usize = 0;
        proof {
            assert(all.skip(0int) =~= all);
        }
        while i < parts.len()
            invariant
                0 <= i <= parts@.len(),
                all == crate::chars::seq_views(parts@),
                s@.len() > 0,
                all == split_on(s@, FILE_SEP),
                decode_file_list(all) == (match decode_file_list(all.skip(i as int)) {
                    Some(rest) => Some(file_views(acc@) + rest),
                    None => None::<Seq<(Seq<char>, FileInfoView)>>,
                }),
            decreases parts@.len() - i,
        {
            let ghost rem = all.skip(i as int);
            proof {
                assert(rem[0] == all[i as int]);
                assert(rem.drop_first() =~= all.skip(i + 1int));
            }
            match decode_file_chars(&parts[i]) {
                Some(p) => {
                    let ghost before = acc@;
                    let ghost pv = (p.0@, p.1.view_spec());
                    acc.push(p);
                    proof {
                        assert(file_views(acc@) =~= file_views(before).push(pv));
                        if decode_file_list(all.skip(i + 1int)) is Some {
                            let rest = decode_file_list(all.skip(i + 1int))->Some_0;
                            assert(file_views(before) + (seq![pv] + rest) =~= file_views(acc@)
                                + rest);
                        }
                    }
                },
                None => {
                    proof {
                        assert(decode_file_list(rem) is None);
                        assert(decode_file_list(all) is None);
                        assert(decode_cache(s@) is None);
                    }
                    return None;
                },
            }
            i = i + 1;
        }
        proof {
            assert(all.skip(parts@.len() as int).len() == 0);
            assert(file_views(acc@) + Seq::<(Seq<char>, FileInfoView)>::empty() =~= file_views(
                acc@,
            ));
        }
        // Refuse a text in which two lines name the same path.
        let mut i: usize = 0;
        while i < acc.len()
            invariant
                0 <= i <= acc@.len(),
                decode_cache(s@) == Some(file_views(acc@)),
                forall|a: int, b: int| 0 <= a < b < i ==> (#[trigger] file_views(acc@)[a]).0 != (
                #[trigger] file_views(acc@)[b]).0,
            decreases acc@.len() - i,
        {
            let mut j: usize = 0;
            while j < i
                invariant
                    0 <= j <= i < acc@.len(),
                    decode_cache(s@) == Some(file_views(acc@)),
                    forall|a: int, b: int| 0 <= a < b < i ==> (#[trigger] file_views(acc@)[a]).0
                        != (#[trigger] file_views(acc@)[b]).0,
                    forall|a: int| 0 <= a < j ==> (#[trigger] file_views(acc@)[a]).0 != file_views(
                        acc@,
                    )[i as int].0,
                decreases i - j,
            {
                if crate::chars::str_eq(acc[j].0.as_str(), acc[i].0.as_str()) {
                    proof {
                        assert(file_views(acc@)[j as int].0 == file_views(acc@)[i as int].0);
                        assert(!pair_keys_unique(file_views(acc@)));
                    }
                    return None;
                }
                j = j + 1;
            }
            i = i + 1;
        }
        let m = Cache { files: acc };
        Some(m)
    }
}

} // verus!
