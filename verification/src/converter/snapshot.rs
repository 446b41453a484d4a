//! Snapshots of conversion results, to see what a change of the dictionary or of
//! the costs does.

use vstd::hash_map::StringHashMap;
use vstd::prelude::*;

use super::explain::{self, explain};
use super::lattice;
use super::viterbi::{ConvertedSegment, SegmentText};
use crate::dict::connection::{self, ConnectionMatrix};
use crate::dict::Dictionary;
use crate::lines::{self, lines_of, trim};
use crate::text::{self, push_text, same_text};
use crate::user_history::{self, UserHistory};

verus! {

/// A result and its rank.
pub struct SnapshotResult {
    pub rank: usize,
    pub surface: String,
}

impl View for SnapshotResult {
    type V = (nat, Seq<char>);

    open spec fn view(&self) -> (nat, Seq<char>) {
        (self.rank as nat, self.surface@)
    }
}

/// The results for a reading.
pub struct SnapshotEntry {
    pub reading: String,
    pub results: Vec<SnapshotResult>,
}

/// What a `SnapshotEntry` holds.
pub struct SnapshotView {
    pub reading: Seq<char>,
    pub results: Seq<(nat, Seq<char>)>,
}

impl View for SnapshotEntry {
    type V = SnapshotView;

    open spec fn view(&self) -> SnapshotView {
        SnapshotView { reading: self.reading@, results: text::views(self.results@) }
    }
}

/// The surfaces of paths with their ranks.
pub open spec fn ranked_surfaces(paths: Seq<explain::ExplainPathView>) -> Seq<(nat, Seq<char>)> {
    Seq::new(paths.len(), |i: int| (i as nat, explain::explained_surface(paths[i].segments)))
}

/// Records the best `n` results for a reading.
pub fn run_snapshot<D: Dictionary>(
    dict: &D,
    conn: Option<&ConnectionMatrix>,
    history: Option<&UserHistory>,
    reading: &str,
    n: usize,
) -> (r: SnapshotEntry)
    requires
        dict.valid(),
    ensures
        r@.reading == reading@,
        r@.results == ranked_surfaces(
            explain::explained_paths(
                lattice::lattice_of(dict.words(), reading@),
                connection::conn_view(conn),
                user_history::history_view(history),
                n as nat,
            ),
        ),
{
    let result = explain(dict, conn, history, reading, n);
    let ghost paths = text::views(result.paths@);
    let mut results: Vec<SnapshotResult> = Vec::new();
    let mut i: usize = 0;
    while i < result.paths.len()
        invariant
            i <= result.paths@.len(),
            paths == text::views(result.paths@),
            results@.len() == i,
            forall|j: int|
                0 <= j < i ==> (#[trigger] results@[j])@ == (
                    j as nat,
                    explain::explained_surface(paths[j].segments),
                ),
        decreases result.paths.len() - i,
    {
        proof {
            assert(paths[i as int] == result.paths@[i as int]@);
        }
        results.push(SnapshotResult { rank: i, surface: result.paths[i].surface() });
        i = i + 1;
    }
    proof {
        assert(text::views(results@) =~= ranked_surfaces(paths));
    }
    SnapshotEntry { reading: reading.to_string(), results }
}

/// The reading on a line: what is left without the white space around it, unless it
/// is nothing or a remark.
pub open spec fn line_reading(line: Seq<char>) -> Option<Seq<char>> {
    let t = lines::trimmed(line);
    if t.len() == 0 || t[0] == '#' {
        None
    } else {
        Some(t)
    }
}

/// The readings on the lines.
pub open spec fn readings_on(rows: Seq<Seq<char>>) -> Seq<Seq<char>>
    decreases rows.len(),
{
    if rows.len() == 0 {
        Seq::empty()
    } else {
        let before = readings_on(rows.drop_last());
        match line_reading(rows.last()) {
            Some(r) => before.push(r),
            None => before,
        }
    }
}

/// Reads a list of readings, one on each line. Blank lines and those that start
/// with `#` do not count.
pub fn read_readings(content: &str) -> (r: Vec<String>)
    ensures
        text::views(r@) == readings_on(lines::lines(content@)),
{
    let rows: Vec<String> = lines_of(content);
    let ghost all = text::views(rows@);
    let mut out: Vec<String> = Vec::new();
    let mut i: usize = 0;
    proof {
        assert(all.take(0) =~= Seq::empty());
        assert(text::views(out@) =~= Seq::empty());
    }
    while i < rows.len()
        invariant
            i <= rows@.len(),
            all == text::views(rows@),
            text::views(out@) == readings_on(all.take(i as int)),
        decreases rows.len() - i,
    {
        let ghost before = text::views(out@);
        proof {
            assert(all.take(i + 1).drop_last() =~= all.take(i as int));
            assert(all.take(i + 1).last() == rows@[i as int]@);
        }
        let t: String = trim(rows[i].as_str());
        if !t.as_str().is_empty() && t.as_str().get_char(0) != '#' {
            out.push(t);
            proof {
                assert(text::views(out@) =~= before.push(t@));
            }
        }
        i = i + 1;
    }
    proof {
        assert(all.take(i as int) =~= all);
    }
    out
}

/// How the results for a reading stand to those that were recorded.
#[derive(Debug, Clone, Copy, PartialEq, Eq, Structural)]
pub enum Change {
    Unchanged,
    Changed,
    New,
}

/// The places of the entries of each reading; of several the last one counts.
pub open spec fn recorded_upto(entries: Seq<SnapshotView>, n: nat) -> Map<Seq<char>, usize>
    decreases n,
{
    if n == 0 {
        Map::empty()
    } else {
        recorded_upto(entries, (n - 1) as nat).insert(entries[n - 1].reading, (n - 1) as usize)
    }
}

/// How an entry stands to the ones that were recorded.
pub open spec fn change_of(entries: Seq<SnapshotView>, current: SnapshotView) -> Change {
    let places = recorded_upto(entries, entries.len());
    if !places.contains_key(current.reading) {
        Change::New
    } else if entries[places[current.reading] as int].results == current.results {
        Change::Unchanged
    } else {
        Change::Changed
    }
}

/// A recorded snapshot.
pub struct Baseline {
    entries: Vec<SnapshotEntry>,
    places: StringHashMap<usize>,
}

proof fn lemma_recorded(entries: Seq<SnapshotView>, n: nat, reading: Seq<char>)
    requires
        n <= entries.len(),
        recorded_upto(entries, n).contains_key(reading),
        entries.len() <= usize::MAX,
    ensures
        recorded_upto(entries, n)[reading] < n,
    decreases n,
{
    if n > 0 && entries[n - 1].reading != reading {
        lemma_recorded(entries, (n - 1) as nat, reading);
    }
}

fn same_results(a: &Vec<SnapshotResult>, b: &Vec<SnapshotResult>) -> (r: bool)
    ensures
        r == (text::views(a@) == text::views(b@)),
{
    if a.len() != b.len() {
        proof {
            assert(text::views(a@).len() != text::views(b@).len());
        }
        return false;
    }
    let mut i: usize = 0;
    while i < a.len()
        invariant
            a@.len() == b@.len(),
            i <= a@.len(),
            forall|j: int| 0 <= j < i ==> (#[trigger] a@[j])@ == b@[j]@,
        decreases a.len() - i,
    {
        if a[i].rank != b[i].rank || !same_text(a[i].surface.as_str(), b[i].surface.as_str()) {
            proof {
                assert(text::views(a@)[i as int] != text::views(b@)[i as int]);
            }
            return false;
        }
        i = i + 1;
    }
    proof {
        assert(text::views(a@) =~= text::views(b@));
    }
    true
}

impl Baseline {
    /// What was recorded.
    pub closed spec fn recorded(&self) -> Seq<SnapshotView> {
        text::views(self.entries@)
    }

    #[verifier::type_invariant]
    spec fn consistent(&self) -> bool {
        self.places@ == recorded_upto(self.recorded(), self.recorded().len())
    }

    /// A snapshot with these entries.
    pub fn new(entries: Vec<SnapshotEntry>) -> (r: Self)
        ensures
            r.recorded() == text::views(entries@),
    {
        let mut places: StringHashMap<usize> = StringHashMap::new();
        let mut i: usize = 0;
        while i < entries.len()
            invariant
                i <= entries@.len(),
                places@ == recorded_upto(text::views(entries@), i as nat),
            decreases entries.len() - i,
        {
            places.insert(entries[i].reading.clone(), i);
            i = i + 1;
        }
        Baseline { entries, places }
    }

    /// The entry that was recorded for a reading.
    pub fn get(&self, reading: &str) -> (r: Option<&SnapshotEntry>)
        ensures
            ({
                let places = recorded_upto(self.recorded(), self.recorded().len());
                &&& r is Some <==> places.contains_key(reading@)
                &&& r is Some ==> r->0@ == self.recorded()[places[reading@] as int]
            }),
    {
        proof {
            use_type_invariant(self);
        }
        let n: usize = self.entries.len();
        match self.places.get(reading) {
            Some(i) => {
                proof {
                    lemma_recorded(self.recorded(), n as nat, reading@);
                    assert(self.recorded()[*i as int] == self.entries@[*i as int]@);
                }
                Some(&self.entries[*i])
            },
            None => None,
        }
    }

    /// How the results for a reading stand to those that were recorded.
    pub fn compare(&self, current: &SnapshotEntry) -> (r: Change)
        ensures
            r == change_of(self.recorded(), current@),
    {
        match self.get(current.reading.as_str()) {
            Some(base) => if same_results(&base.results, &current.results) {
                Change::Unchanged
            } else {
                Change::Changed
            },
            None => Change::New,
        }
    }
}

/// A segment as a line shows it.
pub open spec fn shown(s: SegmentText) -> Seq<char> {
    s.surface + "("@ + s.reading + ")"@
}

/// Segments as a line shows them.
pub open spec fn shown_line(segs: Seq<SegmentText>) -> Seq<char>
    decreases segs.len(),
{
    if segs.len() == 0 {
        Seq::empty()
    } else if segs.len() == 1 {
        shown(segs[0])
    } else {
        shown_line(segs.drop_last()) + " | "@ + shown(segs.last())
    }
}

/// Shows the segments of a conversion on a line.
pub fn show_segments(segs: &Vec<ConvertedSegment>) -> (r: String)
    ensures
        r@ == shown_line(text::views(segs@)),
{
    let ghost all = text::views(segs@);
    let mut out = String::new();
    let mut i: usize = 0;
    proof {
        assert(all.take(0) =~= Seq::empty());
        assert(out@ =~= Seq::empty());
    }
    while i < segs.len()
        invariant
            i <= segs@.len(),
            all == text::views(segs@),
            out@ == shown_line(all.take(i as int)),
        decreases segs.len() - i,
    {
        let ghost before = out@;
        proof {
            assert(all.take(i + 1).drop_last() =~= all.take(i as int));
            assert(all.take(i + 1).last() == segs@[i as int]@);
            assert(all.take(i + 1)[0] == all[0]);
        }
        if i > 0 {
            push_text(&mut out, " | ");
        }
        push_text(&mut out, segs[i].surface.as_str());
        push_text(&mut out, "(");
        push_text(&mut out, segs[i].reading.as_str());
        push_text(&mut out, ")");
        proof {
            let s = segs@[i as int]@;
            if i > 0 {
                assert(out@ =~= before + " | "@ + shown(s));
            } else {
                assert(before.len() == 0);
                assert(out@ =~= shown(s));
            }
        }
        i = i + 1;
    }
    proof {
        assert(all.take(i as int) =~= all);
    }
    out
}

/// A snapshot that is compared with itself shows no change, whatever readings it
/// holds, as long as it holds each once.
pub proof fn nothing_changes_against_itself(entries: Seq<SnapshotView>, i: int)
    requires
        0 <= i < entries.len() <= usize::MAX,
        forall|a: int, b: int|
            0 <= a < b < entries.len() ==> (#[trigger] entries[a]).reading != (
            #[trigger] entries[b]).reading,
    ensures
        change_of(entries, entries[i]) == Change::Unchanged,
{
    lemma_recorded_place(entries, entries.len(), i);
}

proof fn lemma_recorded_place(entries: Seq<SnapshotView>, n: nat, i: int)
    requires
        0 <= i < n <= entries.len() <= usize::MAX,
        forall|a: int, b: int|
            0 <= a < b < entries.len() ==> (#[trigger] entries[a]).reading != (
            #[trigger] entries[b]).reading,
    ensures
        recorded_upto(entries, n).contains_key(entries[i].reading),
        recorded_upto(entries, n)[entries[i].reading] == i,
    decreases n,
{
    if i < n - 1 {
        lemma_recorded_place(entries, (n - 1) as nat, i);
        assert(entries[i].reading != entries[n - 1].reading);
    }
}

} // verus!
