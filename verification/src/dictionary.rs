//! The word-membership oracle: a case-folded word list loaded once and
//! queried exactly.

use vstd::prelude::*;
use crate::text::spec_upper;
use crate::text::to_uppercase_ascii;

verus! {

/// An immutable dictionary of upper-cased words; membership is decided by
/// exact comparison after ASCII case folding.
pub struct Dictionary {
    words: Vec<String>,
}

impl Dictionary {
    /// The word is present, compared exactly.
    pub closed spec fn spec_contains(self, w: Seq<char>) -> bool {
        exists|i: int| 0 <= i < self.words@.len() && (#[trigger] self.words@[i])@ == w
    }

    /// Builds the dictionary from the word list's lines, upper-casing each
    /// line: afterwards exactly the case-folded lines are present.
    pub fn new(lines: &Vec<String>) -> (d: Dictionary)
        ensures
            forall|w: Seq<char>|
                #[trigger] d.spec_contains(w) <==> (exists|i: int|
                    0 <= i < lines@.len() && spec_upper((#[trigger] lines@[i])@) == w),
    {
        let mut words: Vec<String> = Vec::new();
        let mut i: usize = 0;
        while i < lines.len()
            invariant
                i <= lines@.len(),
                words@.len() == i as int,
                forall|m: int|
                    0 <= m < i as int ==> (#[trigger] words@[m])@ == spec_upper(lines@[m]@),
            decreases lines@.len() - i,
        {
            let folded = to_uppercase_ascii(lines[i].as_str());
            words.push(folded);
            i = i + 1;
        }
        let d = Dictionary { words };
        proof {
            assert forall|w: Seq<char>| #[trigger] d.spec_contains(w) implies (exists|i: int|
                0 <= i < lines@.len() && spec_upper((#[trigger] lines@[i])@) == w) by {
                let m = choose|m: int| 0 <= m < d.words@.len() && (#[trigger] d.words@[m])@ == w;
                assert(spec_upper(lines@[m]@) == w);
            }
            assert forall|w: Seq<char>|
                (exists|i: int| 0 <= i < lines@.len() && spec_upper((#[trigger] lines@[i])@) == w)
                    implies #[trigger] d.spec_contains(w) by {
                let m = choose|m: int|
                    0 <= m < lines@.len() && spec_upper((#[trigger] lines@[m])@) == w;
                assert((d.words@[m])@ == w);
            }
        }
        d
    }

    /// Exact membership of `word`.
    pub fn contains(&self, word: &String) -> (r: bool)
        ensures
            r == self.spec_contains(word@),
    {
        let mut i: usize = 0;
        while i < self.words.len()
            invariant
                i <= self.words@.len(),
                forall|m: int| 0 <= m < i as int ==> (#[trigger] self.words@[m])@ != word@,
            decreases self.words@.len() - i,
        {
            let entry = &self.words[i];
            if *entry == *word {
                return true;
            }
            i = i + 1;
        }
        false
    }

    /// Membership of `word` after ASCII case folding, so queries are
    /// case-insensitive against the folded entries.
    pub fn contains_folded(&self, word: &String) -> (r: bool)
        ensures
            r == self.spec_contains(spec_upper(word@)),
    {
        let folded = to_uppercase_ascii(word.as_str());
        self.contains(&folded)
    }
}

} // verus!
