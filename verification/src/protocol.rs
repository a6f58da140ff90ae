//! The output-line protocol to the selection front end: one line per symbol,
//! five fields separated by a fixed non-printable delimiter — path, line,
//! column, symbol text, colored kind label — with a trailing delimiter. The
//! selection the front end returns is parsed back by splitting on the same
//! delimiter.

use vstd::prelude::*;

verus! {

use crate::chars::{
    chars_of_str,
    dec_rep,
    decimal_chars,
    is_digit,
    join_chars,
    join_with,
    lemma_dec_rep,
    lemma_digits_not,
    lemma_split_join,
    seq_views,
    split_chars,
    split_on,
    string_of_chars,
};
use crate::symbol::{abbrev, lemma_labels_aligned, Kind};
use crate::text::Loc;

/// The field delimiter: a punctuation space, which ordinary symbol text does
/// not contain.
pub const DELIMITER: char = '\u{2008}';

/// One record sent to the selection front end. Cached records drop the path
/// (`P = ()`), since the cache stores it once per file.
#[derive(Clone)]
pub struct Entry<P, S> {
    pub path: P,
    pub loc: Loc,
    pub text: S,
    pub kind: Kind,
}

impl<P, S> Entry<P, S> {
    pub fn new(path: P, loc: Loc, text: S, kind: Kind) -> (r: Entry<P, S>)
        ensures
            r == (Entry { path, loc, text, kind }),
    {
        Entry { path, loc, text, kind }
    }
}

/// The formatted record for one symbol: the five fields, each followed by
/// the delimiter.
pub open spec fn entry_line(path: Seq<char>, loc: Loc, text: Seq<char>, kind: Kind) -> Seq<char> {
    path + seq![DELIMITER] + dec_rep(loc.line as nat) + seq![DELIMITER] + dec_rep(
        loc.column as nat,
    ) + seq![DELIMITER] + text + seq![DELIMITER] + abbrev(kind) + seq![DELIMITER]
}

/// Formats one record as a protocol line (without the line break, which the
/// sink appends).
pub fn format_entry(path: &str, loc: Loc, text: &str, kind: Kind) -> (r: String)
    ensures
        r@ == entry_line(path@, loc, text@, kind),
{
    let mut out = chars_of_str(path);
    out.push(DELIMITER);
    let mut line_digits = decimal_chars(loc.line as u64);
    out.append(&mut line_digits);
    out.push(DELIMITER);
    let mut col_digits = decimal_chars(loc.column as u64);
    out.append(&mut col_digits);
    out.push(DELIMITER);
    let mut text_chars = chars_of_str(text);
    out.append(&mut text_chars);
    out.push(DELIMITER);
    let mut label_chars = chars_of_str(kind.colored_abbreviation());
    out.append(&mut label_chars);
    out.push(DELIMITER);
    proof {
        assert(out@ =~= entry_line(path@, loc, text@, kind));
    }
    string_of_chars(&out)
}

impl Entry<String, String> {
    /// This record as its protocol line.
    pub fn to_line(&self) -> (r: String)
        ensures
            r@ == entry_line(self.path@, self.loc, self.text@, self.kind),
    {
        format_entry(self.path.as_str(), self.loc, self.text.as_str(), self.kind)
    }
}

/// The fields of a formatted record, split on the delimiter: exactly the
/// five fields and one empty trailer, whenever neither the path nor the
/// text contains the delimiter.
pub proof fn lemma_entry_line_fields(path: Seq<char>, loc: Loc, text: Seq<char>, kind: Kind)
    requires
        !path.contains(DELIMITER),
        !text.contains(DELIMITER),
    ensures
        split_on(entry_line(path, loc, text, kind), DELIMITER) == seq![
            path,
            dec_rep(loc.line as nat),
            dec_rep(loc.column as nat),
            text,
            abbrev(kind),
            Seq::<char>::empty(),
        ],
{
    reveal_with_fuel(join_with, 8);
    let d = DELIMITER;
    let parts = seq![
        path,
        dec_rep(loc.line as nat),
        dec_rep(loc.column as nat),
        text,
        abbrev(kind),
        Seq::<char>::empty(),
    ];
    assert(!is_digit(d));
    lemma_dec_rep(loc.line as nat);
    lemma_dec_rep(loc.column as nat);
    lemma_digits_not(dec_rep(loc.line as nat), d);
    lemma_digits_not(dec_rep(loc.column as nat), d);
    lemma_labels_aligned(kind);
    assert(forall|i: int| 0 <= i < parts.len() ==> !(#[trigger] parts[i]).contains(d)) by {
        assert(!Seq::<char>::empty().contains(d));
    }
    assert(join_with(parts, d) =~= entry_line(path, loc, text, kind)) by {
        assert(parts.drop_last() =~= seq![
            path,
            dec_rep(loc.line as nat),
            dec_rep(loc.column as nat),
            text,
            abbrev(kind),
        ]);
        assert(parts.drop_last().drop_last() =~= seq![
            path,
            dec_rep(loc.line as nat),
            dec_rep(loc.column as nat),
            text,
        ]);
        assert(parts.drop_last().drop_last().drop_last() =~= seq![
            path,
            dec_rep(loc.line as nat),
            dec_rep(loc.column as nat),
        ]);
        assert(parts.drop_last().drop_last().drop_last().drop_last() =~= seq![
            path,
            dec_rep(loc.line as nat),
        ]);
        assert(parts.drop_last().drop_last().drop_last().drop_last().drop_last() =~= seq![path]);
    }
    lemma_split_join(parts, d);
    assert(split_on(entry_line(path, loc, text, kind), d) =~= parts);
}

/// The selection string handed back to the caller: the first three fields
/// of the chosen record — path, line, column — joined with single spaces.
pub open spec fn selection_spec(s: Seq<char>) -> Seq<char> {
    let parts = split_on(s, DELIMITER);
    let k = if parts.len() < 3 {
        parts.len() as int
    } else {
        3
    };
    join_with(parts.take(k), ' ')
}

/// Parses the front end's selected line back into `path line column`.
pub fn parse_selection(s: &str) -> (r: String)
    ensures
        r@ == selection_spec(s@),
{
    let v = chars_of_str(s);
    let mut parts = split_chars(&v, DELIMITER);
    let ghost all = seq_views(parts@);
    if parts.len() > 3 {
        parts.truncate(3);
        proof {
            assert(seq_views(parts@) =~= all.take(3));
        }
    } else {
        proof {
            assert(all.take(all.len() as int) =~= all);
        }
    }
    let joined = join_chars(&parts, ' ');
    string_of_chars(&joined)
}

/// A record's selection line: splitting what [`format_entry`] produced and
/// keeping path, line and column, exactly `path line column` comes back.
pub proof fn lemma_selection_round_trip(path: Seq<char>, loc: Loc, text: Seq<char>, kind: Kind)
    requires
        !path.contains(DELIMITER),
        !text.contains(DELIMITER),
    ensures
        selection_spec(entry_line(path, loc, text, kind)) == path + seq![' '] + dec_rep(
            loc.line as nat,
        ) + seq![' '] + dec_rep(loc.column as nat),
{
    reveal_with_fuel(join_with, 8);
    lemma_entry_line_fields(path, loc, text, kind);
    let parts = split_on(entry_line(path, loc, text, kind), DELIMITER);
    assert(parts.take(3) =~= seq![path, dec_rep(loc.line as nat), dec_rep(loc.column as nat)]);
    assert(parts.take(3).drop_last() =~= seq![path, dec_rep(loc.line as nat)]);
    assert(parts.take(3).drop_last().drop_last() =~= seq![path]);
    assert(join_with(parts.take(3), ' ') =~= path + seq![' '] + dec_rep(loc.line as nat) + seq![
        ' ',
    ] + dec_rep(loc.column as nat));
}

} // verus!
