//! Dictionaries and reports for callers.

use vstd::prelude::*;

use crate::dict::{Dictionary, EntryView, TrieDictionary};
use crate::text::{self, clone_texts, same_text};

verus! {

/// Why a call failed.
#[derive(Debug)]
pub enum LexError {
    Io { msg: String },
    InvalidData { msg: String },
    Internal { msg: String },
}

/// An entry with its reading.
#[derive(Debug)]
pub struct LexDictEntry {
    pub reading: String,
    pub surface: String,
    pub cost: i16,
}

pub struct LexEntryView {
    pub reading: Seq<char>,
    pub surface: Seq<char>,
    pub cost: i16,
}

impl View for LexDictEntry {
    type V = LexEntryView;

    open spec fn view(&self) -> LexEntryView {
        LexEntryView { reading: self.reading@, surface: self.surface@, cost: self.cost }
    }
}

/// A dictionary.
pub struct LexDictionary {
    pub inner: TrieDictionary,
}

/// The entries of a reading, each with the reading.
pub open spec fn entries_of(
    words: Map<Seq<char>, Seq<EntryView>>,
    reading: Seq<char>,
) -> Seq<LexEntryView> {
    if words.contains_key(reading) {
        Seq::new(
            words[reading].len(),
            |i: int|
                LexEntryView {
                    reading,
                    surface: words[reading][i].surface,
                    cost: words[reading][i].cost,
                },
        )
    } else {
        Seq::empty()
    }
}

impl LexDictionary {
    /// The entries of a reading; none if it has none.
    pub fn lookup(&self, reading: &str) -> (r: Vec<LexDictEntry>)
        requires
            self.inner.valid(),
        ensures
            text::views(r@) == entries_of(self.inner.words(), reading@),
    {
        let mut r: Vec<LexDictEntry> = Vec::new();
        let ghost want = entries_of(self.inner.words(), reading@);
        if let Some(entries) = self.inner.lookup(reading) {
            let mut i: usize = 0;
            while i < entries.len()
                invariant
                    i <= entries@.len(),
                    r@.len() == i,
                    want.len() == entries@.len(),
                    forall|j: int|
                        0 <= j < entries@.len() ==> #[trigger] want[j] == (LexEntryView {
                            reading: reading@,
                            surface: entries@[j].surface@,
                            cost: entries@[j].cost,
                        }),
                    forall|j: int| 0 <= j < i ==> (#[trigger] r@[j])@ == want[j],
                decreases entries@.len() - i,
            {
                r.push(
                    LexDictEntry {
                        reading: reading.to_owned(),
                        surface: entries[i].surface.clone(),
                        cost: entries[i].cost,
                    },
                );
                i = i + 1;
            }
        }
        proof {
            assert(text::views(r@) =~= want);
        }
        r
    }
}

/// A word that the user registered.
#[derive(Debug)]
pub struct LexUserWord {
    pub reading: String,
    pub surface: String,
}

pub struct UserWordView {
    pub reading: Seq<char>,
    pub surface: Seq<char>,
}

impl View for LexUserWord {
    type V = UserWordView;

    open spec fn view(&self) -> UserWordView {
        UserWordView { reading: self.reading@, surface: self.surface@ }
    }
}

/// The words that the user registered, in the order in which they were, and what
/// opening their file found.
pub struct LexUserDictionary {
    words: Vec<LexUserWord>,
    quarantined_paths: Vec<String>,
}

/// What opening a user dictionary found.
pub struct LexUserDictOpenReport {
    /// Where damaged bytes were kept.
    pub quarantined_paths: Vec<String>,
    /// Whether words were lost: the file was damaged.
    pub data_loss_suspected: bool,
}

pub open spec fn word(reading: Seq<char>, surface: Seq<char>) -> UserWordView {
    UserWordView { reading, surface }
}

impl LexUserDictionary {
    pub closed spec fn words(&self) -> Seq<UserWordView> {
        text::views(self.words@)
    }

    pub closed spec fn quarantined(&self) -> Seq<Seq<char>> {
        text::views(self.quarantined_paths@)
    }

    /// No word is registered twice.
    pub open spec fn wf(&self) -> bool {
        self.words().no_duplicates()
    }

    /// A dictionary without words.
    pub fn new(quarantined_paths: Vec<String>) -> (r: Self)
        ensures
            r.wf(),
            r.words() == Seq::<UserWordView>::empty(),
            r.quarantined() == text::views(quarantined_paths@),
    {
        let r = LexUserDictionary { words: Vec::new(), quarantined_paths };
        proof {
            assert(r.words() =~= Seq::<UserWordView>::empty());
        }
        r
    }

    /// What opening the file found.
    pub fn open_report(&self) -> (r: LexUserDictOpenReport)
        ensures
            text::views(r.quarantined_paths@) == self.quarantined(),
            r.data_loss_suspected == (self.quarantined().len() > 0),
    {
        LexUserDictOpenReport {
            quarantined_paths: clone_texts(&self.quarantined_paths),
            data_loss_suspected: self.quarantined_paths.len() > 0,
        }
    }

    fn find(&self, reading: &str, surface: &str) -> (r: Option<usize>)
        ensures
            match r {
                Some(i) => i < self.words().len() && self.words()[i as int] == word(
                    reading@,
                    surface@,
                ),
                None => !self.words().contains(word(reading@, surface@)),
            },
    {
        let ghost ws = self.words();
        let mut i: usize = 0;
        while i < self.words.len()
            invariant
                i <= self.words@.len(),
                ws == text::views(self.words@),
                ws == self.words(),
                forall|j: int| 0 <= j < i ==> #[trigger] ws[j] != word(reading@, surface@),
            decreases self.words@.len() - i,
        {
            let w = &self.words[i];
            proof {
                assert(ws[i as int] == w@);
            }
            if same_text(w.reading.as_str(), reading) && same_text(w.surface.as_str(), surface) {
                return Some(i);
            }
            i = i + 1;
        }
        None
    }

    /// Registers a word; says whether it is new.
    pub fn register(&mut self, reading: &str, surface: &str) -> (r: bool)
        requires
            old(self).wf(),
        ensures
            final(self).wf(),
            r == !old(self).words().contains(word(reading@, surface@)),
            final(self).words() == if r {
                old(self).words().push(word(reading@, surface@))
            } else {
                old(self).words()
            },
            final(self).quarantined() == old(self).quarantined(),
    {
        match self.find(reading, surface) {
            Some(i) => {
                proof {
                    assert(self.words()[i as int] == word(reading@, surface@));
                }
                false
            },
            None => {
                let ghost before = self.words();
                self.words.push(
                    LexUserWord { reading: reading.to_owned(), surface: surface.to_owned() },
                );
                proof {
                    let w = word(reading@, surface@);
                    assert(self.words() =~= before.push(w));
                    assert forall|i: int, j: int|
                        0 <= i < self.words().len() && 0 <= j < self.words().len() && i
                            != j implies self.words()[i] != self.words()[j] by {
                        if i < before.len() && j < before.len() {
                            assert(before[i] != before[j]);
                        } else if i < before.len() {
                            assert(before.contains(before[i]));
                        } else {
                            assert(before.contains(before[j]));
                        }
                    }
                }
                true
            },
        }
    }

    /// Takes a word out; says whether it was registered.
    pub fn unregister(&mut self, reading: &str, surface: &str) -> (r: bool)
        requires
            old(self).wf(),
        ensures
            final(self).wf(),
            r == old(self).words().contains(word(reading@, surface@)),
            !final(self).words().contains(word(reading@, surface@)),
            forall|w: UserWordView|
                w != word(reading@, surface@) ==> (#[trigger] final(self).words().contains(w)
                    <==> old(self).words().contains(w)),
            r ==> exists|i: int|
                0 <= i < old(self).words().len() && final(self).words() == #[trigger] old(
                    self,
                ).words().remove(i),
            !r ==> final(self).words() == old(self).words(),
            final(self).quarantined() == old(self).quarantined(),
    {
        let ghost before = self.words();
        match self.find(reading, surface) {
            Some(i) => {
                proof {
                    assert(before.contains(before[i as int]));
                }
                let _ = self.words.remove(i);
                proof {
                    let after = self.words();
                    assert(after =~= before.remove(i as int));
                    assert forall|w: UserWordView| w != word(reading@, surface@) implies (
                    #[trigger] after.contains(w) <==> before.contains(w)) by {
                        if before.contains(w) {
                            let k = choose|k: int| 0 <= k < before.len() && before[k] == w;
                            if k < i {
                                assert(after[k] == w);
                            } else {
                                assert(after[k - 1] == w);
                            }
                        }
                        if after.contains(w) {
                            let k = choose|k: int| 0 <= k < after.len() && after[k] == w;
                            if k < i {
                                assert(before[k] == w);
                            } else {
                                assert(before[k + 1] == w);
                            }
                        }
                    }
                    assert(!after.contains(word(reading@, surface@))) by {
                        if after.contains(word(reading@, surface@)) {
                            let k = choose|k: int|
                                0 <= k < after.len() && after[k] == word(reading@, surface@);
                            if k < i {
                                assert(before[k] == before[i as int]);
                            } else {
                                assert(before[k + 1] == before[i as int]);
                            }
                        }
                    }
                    assert(after.no_duplicates()) by {
                        assert forall|a: int, b: int|
                            0 <= a < after.len() && 0 <= b < after.len() && a != b implies after[a]
                            != after[b] by {
                            let x = if a < i {
                                a
                            } else {
                                a + 1
                            };
                            let y = if b < i {
                                b
                            } else {
                                b + 1
                            };
                            assert(before[x] != before[y]);
                        }
                    }
                }
                true
            },
            None => false,
        }
    }

    /// The registered words.
    pub fn list(&self) -> (r: Vec<LexUserWord>)
        ensures
            text::views(r@) == self.words(),
    {
        let mut r: Vec<LexUserWord> = Vec::new();
        let mut i: usize = 0;
        while i < self.words.len()
            invariant
                i <= self.words@.len(),
                r@.len() == i,
                forall|j: int| 0 <= j < i ==> (#[trigger] r@[j])@ == self.words@[j]@,
            decreases self.words@.len() - i,
        {
            r.push(
                LexUserWord {
                    reading: self.words[i].reading.clone(),
                    surface: self.words[i].surface.clone(),
                },
            );
            i = i + 1;
        }
        proof {
            assert(text::views(r@) =~= self.words());
        }
        r
    }
}

/// What was found of a checkpoint.
#[derive(Debug, Clone, Copy, PartialEq, Eq, Structural)]
pub enum LexHistoryCheckpointState {
    Loaded,
    Migrated,
    Missing,
    Quarantined,
}

/// What was found of a write-ahead log.
#[derive(Debug, Clone, Copy, PartialEq, Eq, Structural)]
pub enum LexHistoryWalState {
    Clean,
    Missing,
    TailRepaired,
    Quarantined,
    LegacyDiscarded,
    Reinitialized,
    RepairFailed,
}

/// What opening a history found and did.
pub struct OpenReport {
    pub checkpoint_state: LexHistoryCheckpointState,
    pub wal_state: LexHistoryWalState,
    pub migrated_from_v1: bool,
    pub migration_failed: bool,
    pub appends_frozen: bool,
    pub frames_replayed: u64,
    pub frames_skipped: u64,
    pub quarantined_paths: Vec<String>,
}

impl OpenReport {
    /// Learning was lost: a whole file was put aside.
    pub open spec fn lost(&self) -> bool {
        self.checkpoint_state == LexHistoryCheckpointState::Quarantined || self.wal_state
            == LexHistoryWalState::Quarantined
    }

    /// Nothing happened that is worth a word.
    pub open spec fn clean(&self) -> bool {
        &&& self.checkpoint_state == LexHistoryCheckpointState::Loaded || self.checkpoint_state
            == LexHistoryCheckpointState::Missing
        &&& self.wal_state == LexHistoryWalState::Clean || self.wal_state
            == LexHistoryWalState::Missing
        &&& !self.migrated_from_v1 && !self.migration_failed && !self.appends_frozen
        &&& self.quarantined_paths@.len() == 0
    }

    pub fn data_loss_suspected(&self) -> (r: bool)
        ensures
            r == self.lost(),
    {
        self.checkpoint_state == LexHistoryCheckpointState::Quarantined || self.wal_state
            == LexHistoryWalState::Quarantined
    }

    pub fn is_clean(&self) -> (r: bool)
        ensures
            r == self.clean(),
    {
        (self.checkpoint_state == LexHistoryCheckpointState::Loaded || self.checkpoint_state
            == LexHistoryCheckpointState::Missing) && (self.wal_state == LexHistoryWalState::Clean
            || self.wal_state == LexHistoryWalState::Missing) && !self.migrated_from_v1
            && !self.migration_failed && !self.appends_frozen && self.quarantined_paths.len() == 0
    }
}

/// What opening a history found and did, for display.
pub struct LexHistoryOpenReport {
    pub checkpoint_state: LexHistoryCheckpointState,
    pub wal_state: LexHistoryWalState,
    pub migrated_from_v1: bool,
    pub migration_failed: bool,
    pub appends_frozen: bool,
    pub frames_replayed: u64,
    pub frames_skipped: u64,
    pub quarantined_paths: Vec<String>,
    pub data_loss_suspected: bool,
    pub clean: bool,
}

impl LexHistoryOpenReport {
    /// A report for display.
    pub fn of(r: &OpenReport) -> (s: Self)
        ensures
            s.checkpoint_state == r.checkpoint_state,
            s.wal_state == r.wal_state,
            s.migrated_from_v1 == r.migrated_from_v1,
            s.migration_failed == r.migration_failed,
            s.appends_frozen == r.appends_frozen,
            s.frames_replayed == r.frames_replayed,
            s.frames_skipped == r.frames_skipped,
            text::views(s.quarantined_paths@) == text::views(r.quarantined_paths@),
            s.data_loss_suspected == r.lost(),
            s.clean == r.clean(),
            s.data_loss_suspected ==> !s.clean,
    {
        LexHistoryOpenReport {
            checkpoint_state: r.checkpoint_state,
            wal_state: r.wal_state,
            migrated_from_v1: r.migrated_from_v1,
            migration_failed: r.migration_failed,
            appends_frozen: r.appends_frozen,
            frames_replayed: r.frames_replayed,
            frames_skipped: r.frames_skipped,
            quarantined_paths: clone_texts(&r.quarantined_paths),
            data_loss_suspected: r.data_loss_suspected(),
            clean: r.is_clean(),
        }
    }
}

} // verus!
