//! The selection of indexers that a module keeps: every indexer for the
//! parameter "*", else those of a JSON array of strings.

use vstd::prelude::*;
use vstd::string::StrSliceExecFns;

verus! {

/// What `serde_json::from_str::<Vec<String>>` gives for a text: the strings
/// of a JSON array of strings, or `None` where the text is no such array.
pub uninterp spec fn json_string_array(text: Seq<char>) -> Option<Seq<Seq<char>>>;

/// `serde_json::from_str::<Vec<String>>`: the claim is that its result is
/// determined by the text (the JSON grammar is not restated here).
#[verifier::external_body]
fn parse_json_string_array(text: &str) -> (r: Option<Vec<String>>)
    ensures
        match json_string_array(text@) {
            Some(items) => r is Some && r->0@.map_values(|s: String| s@) == items,
            None => r is None,
        },
{
    serde_json::from_str::<Vec<String>>(text).ok()
}

/// Which indexers a module keeps.
pub struct IndexerFilter {
    pub all: bool,
    pub indexers: Vec<String>,
}

/// The parameter text that selects every indexer.
pub open spec fn is_wildcard(text: Seq<char>) -> bool {
    text =~= seq!['*']
}

impl IndexerFilter {
    /// Whether the filter keeps the indexer with this text.
    pub open spec fn admits(&self, indexer: Seq<char>) -> bool {
        self.all || exists|i: int|
            0 <= i < self.indexers@.len() && (#[trigger] self.indexers@[i])@ == indexer
    }

    /// A filter that keeps every indexer.
    pub fn every_indexer() -> (r: IndexerFilter)
        ensures
            forall|s: Seq<char>| r.admits(s),
    {
        IndexerFilter { all: true, indexers: Vec::new() }
    }

    /// Whether the filter keeps this indexer.
    pub fn admits_indexer(&self, indexer: &String) -> (r: bool)
        ensures
            r == self.admits(indexer@),
    {
        if self.all {
            return true;
        }
        let mut i: usize = 0;
        while i < self.indexers.len()
            invariant
                !self.all,
                i <= self.indexers@.len(),
                forall|j: int| 0 <= j < i ==> (#[trigger] self.indexers@[j])@ != indexer@,
            decreases self.indexers@.len() - i,
        {
            if self.indexers[i] == *indexer {
                return true;
            }
            i = i + 1;
        }
        false
    }
}

/// Reads the indexer parameter of a module: "*" keeps every indexer, a JSON
/// array of strings keeps exactly those; any other text gives `None`.
pub fn parse_indexer_filter(indexers: &str) -> (r: Option<IndexerFilter>)
    ensures
        is_wildcard(indexers@) ==> r is Some && forall|s: Seq<char>| r->0.admits(s),
        !is_wildcard(indexers@) ==> match json_string_array(indexers@) {
            Some(items) => r is Some && forall|s: Seq<char>|
                r->0.admits(s) == items.contains(s),
            None => r is None,
        },
{
    if indexers.unicode_len() == 1 && indexers.get_char(0) == '*' {
        assert(is_wildcard(indexers@));
        return Some(IndexerFilter::every_indexer());
    }
    assert(!is_wildcard(indexers@));
    match parse_json_string_array(indexers) {
        Some(list) => {
            let r = IndexerFilter { all: false, indexers: list };
            proof {
                let items = json_string_array(indexers@)->0;
                assert forall|s: Seq<char>| r.admits(s) == items.contains(s) by {
                    if r.admits(s) {
                        let i = choose|i: int|
                            0 <= i < r.indexers@.len() && (#[trigger] r.indexers@[i])@ == s;
                        assert(items[i] == s);
                    }
                    if items.contains(s) {
                        let i = choose|i: int| 0 <= i < items.len() && items[i] == s;
                        assert(r.indexers@[i]@ == s);
                    }
                }
            }
            Some(r)
        },
        None => None,
    }
}

} // verus!
