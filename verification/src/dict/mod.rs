//! Dictionaries and connection costs.

pub mod connection;
pub mod diff;
mod entry;
pub mod laws;
pub mod merge;
pub mod source;
pub mod trie;
pub mod trie_dict;
pub mod values;

pub use entry::{clone_entries, DictEntry, EntryView};
pub use trie_dict::{can_hold, TrieDictionary};

use vstd::prelude::*;

use crate::text;

verus! {

/// Why a dictionary or a connection matrix cannot be read or written.
#[derive(Debug)]
pub enum DictError {
    InvalidHeader,
    InvalidMagic,
    UnsupportedVersion(u8),
    Serialize(Box<bincode::ErrorKind>),
    Deserialize(Box<bincode::ErrorKind>),
    Parse(String),
}

/// A reading that was found, with its entries.
pub struct SearchResult<'a> {
    pub reading: String,
    pub entries: &'a [DictEntry],
}

/// What a `SearchResult` holds.
pub struct ResultView {
    pub reading: Seq<char>,
    pub entries: Seq<EntryView>,
}

impl<'a> View for SearchResult<'a> {
    type V = ResultView;

    open spec fn view(&self) -> ResultView {
        ResultView { reading: self.reading@, entries: text::views(self.entries@) }
    }
}

/// The prefixes of `query` shorter than `k` that are readings, shortest first.
pub open spec fn prefixes_below(
    words: Map<Seq<char>, Seq<EntryView>>,
    query: Seq<char>,
    k: nat,
) -> Seq<ResultView>
    decreases k,
{
    if k == 0 {
        Seq::empty()
    } else {
        let found = prefixes_below(words, query, (k - 1) as nat);
        let reading = query.take(k - 1);
        if words.contains_key(reading) {
            found.push(ResultView { reading, entries: words[reading] })
        } else {
            found
        }
    }
}

/// The prefixes of `query` that are readings, shortest first.
pub open spec fn prefixes_of(
    words: Map<Seq<char>, Seq<EntryView>>,
    query: Seq<char>,
) -> Seq<ResultView> {
    prefixes_below(words, query, query.len() + 1)
}

/// Readings with their entries.
pub open spec fn with_entries(
    words: Map<Seq<char>, Seq<EntryView>>,
    readings: Seq<Seq<char>>,
) -> Seq<ResultView> {
    Seq::new(
        readings.len(),
        |i: int| ResultView { reading: readings[i], entries: words[readings[i]] },
    )
}

/// Whether `list` holds the readings that start with `prefix`, each once.
pub open spec fn completes(
    words: Map<Seq<char>, Seq<EntryView>>,
    prefix: Seq<char>,
    list: Seq<Seq<char>>,
) -> bool {
    &&& forall|i: int|
        0 <= i < list.len() ==> words.contains_key(#[trigger] list[i]) && prefix.is_prefix_of(
            list[i],
        )
    &&& list.no_duplicates()
    &&& forall|r: Seq<char>| #[trigger]
        words.contains_key(r) && prefix.is_prefix_of(r) ==> list.contains(r)
}

/// The first `n` of a list, or all of it.
pub open spec fn at_most<T>(s: Seq<T>, n: nat) -> Seq<T> {
    if s.len() <= n {
        s
    } else {
        s.take(n as int)
    }
}

/// A dictionary from readings to entries.
pub trait Dictionary {
    /// The entries of each reading.
    spec fn words(&self) -> Map<Seq<char>, Seq<EntryView>>;

    /// The readings that start with `prefix`, in the order of a prediction.
    spec fn completions(&self, prefix: Seq<char>) -> Seq<Seq<char>>;

    /// Whether the dictionary is intact.
    spec fn valid(&self) -> bool;

    /// The entries of `reading`.
    fn lookup(&self, reading: &str) -> (r: Option<&[DictEntry]>)
        requires
            self.valid(),
        ensures
            r is Some <==> self.words().contains_key(reading@),
            r is Some ==> text::views(r->0@) == self.words()[reading@],
    ;

    /// Up to `max_results` readings that start with `prefix`.
    fn predict(&self, prefix: &str, max_results: usize) -> (r: Vec<SearchResult<'_>>)
        requires
            self.valid(),
        ensures
            text::views(r@) == with_entries(
                self.words(),
                at_most(self.completions(prefix@), max_results as nat),
            ),
            completes(self.words(), prefix@, self.completions(prefix@)),
    ;

    /// The prefixes of `query` that are readings, shortest first.
    fn common_prefix_search(&self, query: &str) -> (r: Vec<SearchResult<'_>>)
        requires
            self.valid(),
        ensures
            text::views(r@) == prefixes_of(self.words(), query@),
    ;
}

} // verus!
