//! What snapshots hold, and how they are shown.

use vstd::prelude::*;

use super::snapshot::{self, Change, SnapshotView};
use super::viterbi::SegmentText;
use crate::lines;

verus! {

/// Each line gives a reading, without the white space around it; blank lines and remarks
/// give none.
pub proof fn lines_give_readings(rows: Seq<Seq<char>>, row: Seq<char>)
    ensures
        ({
            let t = lines::trimmed(row);
            let before = snapshot::readings_on(rows);
            let after = snapshot::readings_on(rows.push(row));
            &&& t.len() == 0 || t[0] == '#' ==> after == before
            &&& t.len() > 0 && t[0] != '#' ==> after == before.push(t)
        }),
        snapshot::readings_on(Seq::empty()).len() == 0,
{
    assert(rows.push(row).drop_last() =~= rows);
}

proof fn lemma_recorded(entries: Seq<SnapshotView>, n: nat, reading: Seq<char>, k: int)
    requires
        0 <= k < n <= entries.len() <= usize::MAX,
        entries[k].reading == reading,
        forall|j: int| k < j < n ==> (#[trigger] entries[j]).reading != reading,
    ensures
        snapshot::recorded_upto(entries, n).contains_key(reading),
        snapshot::recorded_upto(entries, n)[reading] == k,
    decreases n,
{
    if k < n - 1 {
        assert(entries[n - 1].reading != reading);
        lemma_recorded(entries, (n - 1) as nat, reading, k);
    }
}

proof fn lemma_not_recorded(entries: Seq<SnapshotView>, n: nat, reading: Seq<char>)
    requires
        n <= entries.len(),
        forall|j: int| 0 <= j < n ==> (#[trigger] entries[j]).reading != reading,
    ensures
        !snapshot::recorded_upto(entries, n).contains_key(reading),
    decreases n,
{
    if n > 0 {
        assert(entries[n - 1].reading != reading);
        lemma_not_recorded(entries, (n - 1) as nat, reading);
    }
}

/// An entry is new where its reading was not recorded; else it has changed if the
/// results differ from those that were recorded last for the reading.
pub proof fn changes_are_told(entries: Seq<SnapshotView>, current: SnapshotView, k: int)
    requires
        entries.len() <= usize::MAX,
    ensures
        (forall|j: int| 0 <= j < entries.len() ==> (#[trigger] entries[j]).reading
            != current.reading) ==> snapshot::change_of(entries, current) == Change::New,
        0 <= k < entries.len() && entries[k].reading == current.reading && (forall|j: int|
            k < j < entries.len() ==> (#[trigger] entries[j]).reading != current.reading)
            ==> snapshot::change_of(entries, current) == if entries[k].results == current.results {
            Change::Unchanged
        } else {
            Change::Changed
        },
{
    if forall|j: int| 0 <= j < entries.len() ==> (#[trigger] entries[j]).reading
        != current.reading {
        lemma_not_recorded(entries, entries.len(), current.reading);
    }
    if 0 <= k < entries.len() && entries[k].reading == current.reading && (forall|j: int|
        k < j < entries.len() ==> (#[trigger] entries[j]).reading != current.reading) {
        lemma_recorded(entries, entries.len(), current.reading, k);
    }
}

/// A line shows each segment as its surface with its reading in brackets, and a bar
/// between two segments.
pub proof fn segments_are_shown_with_readings(segs: Seq<SegmentText>, s: SegmentText)
    ensures
        ({
            let one = s.surface.push('(') + s.reading.push(')');
            &&& snapshot::shown_line(seq![s]) == one
            &&& segs.len() > 0 ==> snapshot::shown_line(segs.push(s)) == snapshot::shown_line(segs)
                + seq![' ', '|', ' '] + one
            &&& snapshot::shown_line(Seq::empty()).len() == 0
        }),
{
    reveal_strlit("(");
    reveal_strlit(")");
    reveal_strlit(" | ");
    let one = s.surface.push('(') + s.reading.push(')');
    assert(snapshot::shown(s) =~= one);
    assert(" | "@ =~= seq![' ', '|', ' ']);
    if segs.len() > 0 {
        let t = segs.push(s);
        assert(t.drop_last() =~= segs);
        assert(t.last() == s);
    }
}

} // verus!
