//! The symbol classifier: maps a dotted grammar annotation (for example
//! `entity.name.function.rust`) to a [`Kind`] by looking up its
//! second-to-last dot-separated component in a fixed lexicon. Conversion is
//! memoized per distinct annotation because the same annotation recurs many
//! times across a file.

use vstd::prelude::*;

verus! {

use crate::chars::{chars_of_str, split_chars, split_on, str_eq, string_of_chars};
use crate::symbol::{kind_of_name, Kind};

/// The kind an annotation denotes: the second-to-last dot-separated
/// component, read through the lexicon; `Unknown` when the annotation has
/// fewer than two components or the component is not in the lexicon.
pub open spec fn classify_spec(s: Seq<char>) -> Kind {
    let parts = split_on(s, '.');
    if parts.len() < 2 {
        Kind::Unknown
    } else {
        match kind_of_name(parts[parts.len() - 2]) {
            Some(k) => k,
            None => Kind::Unknown,
        }
    }
}

/// Classifies one annotation without memoization.
pub fn classify(annotation: &str) -> (r: Kind)
    ensures
        r == classify_spec(annotation@),
{
    let v = chars_of_str(annotation);
    let parts = split_chars(&v, '.');
    if parts.len() < 2 {
        return Kind::Unknown;
    }
    let component = string_of_chars(&parts[parts.len() - 2]);
    match Kind::from_name(component.as_str()) {
        Some(k) => k,
        None => Kind::Unknown,
    }
}

/// A classifier that remembers every annotation it has already classified.
pub struct Classifier {
    pub memo: Vec<(String, Kind)>,
}

impl Classifier {
    /// Every memoized pair agrees with [`classify_spec`].
    pub open spec fn wf(self) -> bool {
        forall|i: int|
            0 <= i < self.memo@.len() ==> (#[trigger] self.memo@[i]).1 == classify_spec(
                self.memo@[i].0@,
            )
    }

    pub fn new() -> (r: Classifier)
        ensures
            r.wf(),
    {
        Classifier { memo: Vec::new() }
    }

    /// Classifies `annotation`, serving repeats from the memo table.
    pub fn classify(&mut self, annotation: &str) -> (r: Kind)
        requires
            old(self).wf(),
        ensures
            final(self).wf(),
            r == classify_spec(annotation@),
    {
        let mut i: usize = 0;
        while i < self.memo.len()
            invariant
                self.wf(),
                0 <= i <= self.memo@.len(),
            decreases self.memo@.len() - i,
        {
            if str_eq(self.memo[i].0.as_str(), annotation) {
                return self.memo[i].1;
            }
            i = i + 1;
        }
        let kind = classify(annotation);
        let owned = annotation.to_owned();
        self.memo.push((owned, kind));
        kind
    }
}

} // verus!
