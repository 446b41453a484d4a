//! What memory holds that no durable checkpoint covers.
//!
//! Three generations are packed in one word, so that one load tells all: up to
//! which generation checkpoints cover, in which generation a deletion last
//! failed to persist, and in which a commit last stayed in memory alone.

use vstd::prelude::*;

verus! {

/// The bits of a generation.
pub const GEN_BITS: u64 = 21;

/// The largest generation.
pub const GEN_MASK: u64 = 0x1F_FFFF;

/// A durability problem that holds right now.
#[derive(Debug, Clone, Copy, PartialEq, Eq, Structural)]
pub enum LexHistoryDurabilityIssue {
    /// A deletion could not be made durable.
    DeletionNotPersisted,
    /// A commit is held by memory alone.
    LearningMemoryOnly,
}

/// What a ledger holds.
pub struct LedgerView {
    pub memory_only: u64,
    pub deletion: u64,
    pub covered: u64,
}

/// The generations in a ledger, low bits first: covered, deletion, memory only.
pub open spec fn ledger_view(l: u64) -> LedgerView {
    LedgerView {
        covered: l % 0x20_0000,
        deletion: (l / 0x20_0000) % 0x20_0000,
        memory_only: (l / 0x400_0000_0000) % 0x20_0000,
    }
}

pub open spec fn larger(a: u64, b: u64) -> u64 {
    if a >= b {
        a
    } else {
        b
    }
}

pub open spec fn smaller(a: u64, b: u64) -> u64 {
    if a <= b {
        a
    } else {
        b
    }
}

impl LedgerView {
    /// The last generation in which anything failed.
    pub open spec fn highest(self) -> u64 {
        larger(self.memory_only, self.deletion)
    }

    /// The generation of the next failure: behind all that were raised or
    /// covered; the largest stays.
    pub open spec fn next(self) -> u64 {
        smaller((larger(self.highest(), self.covered) + 1) as u64, GEN_MASK)
    }

    pub open spec fn raised(self, memory_only: bool, deletion: bool) -> LedgerView {
        LedgerView {
            memory_only: if memory_only {
                self.next()
            } else {
                self.memory_only
            },
            deletion: if deletion {
                self.next()
            } else {
                self.deletion
            },
            covered: self.covered,
        }
    }

    /// What a durable checkpoint of generation `generation` covers; the largest
    /// generation is never covered.
    pub open spec fn covered_upto(self, generation: u64) -> LedgerView {
        if self.covered >= generation {
            self
        } else {
            LedgerView { covered: smaller(generation, (GEN_MASK - 1) as u64), ..self }
        }
    }

    /// The problems that hold, the worst first.
    pub open spec fn issues(self) -> Seq<LexHistoryDurabilityIssue> {
        let first = if self.deletion > self.covered {
            seq![LexHistoryDurabilityIssue::DeletionNotPersisted]
        } else {
            Seq::empty()
        };
        if self.memory_only > self.covered {
            first.push(LexHistoryDurabilityIssue::LearningMemoryOnly)
        } else {
            first
        }
    }

    /// Generations have their bits, and the largest is not covered.
    pub open spec fn wf(self) -> bool {
        self.memory_only <= GEN_MASK && self.deletion <= GEN_MASK && self.covered < GEN_MASK
    }
}

/// Up to which generation checkpoints cover.
pub fn covered_of(ledger: u64) -> (r: u64)
    ensures
        r == ledger_view(ledger).covered,
{
    proof {
        assert(ledger & 0x1F_FFFF == ledger % 0x20_0000) by (bit_vector);
    }
    ledger & GEN_MASK
}

/// In which generation a deletion last failed to persist.
pub fn raised_deletion_of(ledger: u64) -> (r: u64)
    ensures
        r == ledger_view(ledger).deletion,
{
    proof {
        assert((ledger >> 21) & 0x1F_FFFF == (ledger / 0x20_0000) % 0x20_0000) by (bit_vector);
    }
    (ledger >> GEN_BITS) & GEN_MASK
}

/// In which generation a commit last stayed in memory alone.
pub fn raised_memory_only_of(ledger: u64) -> (r: u64)
    ensures
        r == ledger_view(ledger).memory_only,
{
    proof {
        assert((ledger >> 42) & 0x1F_FFFF == (ledger / 0x400_0000_0000) % 0x20_0000)
            by (bit_vector);
    }
    (ledger >> (2 * GEN_BITS)) & GEN_MASK
}

/// The last generation in which anything failed.
pub fn highest_raised(ledger: u64) -> (r: u64)
    ensures
        r == ledger_view(ledger).highest(),
{
    let m: u64 = raised_memory_only_of(ledger);
    let d: u64 = raised_deletion_of(ledger);
    if m >= d {
        m
    } else {
        d
    }
}

/// A ledger of three generations. Each is cut to its bits, so that none runs
/// into its neighbour.
pub fn pack_ledger(memory_only: u64, deletion: u64, covered: u64) -> (r: u64)
    ensures
        ledger_view(r) == (LedgerView {
            memory_only: memory_only % 0x20_0000,
            deletion: deletion % 0x20_0000,
            covered: covered % 0x20_0000,
        }),
{
    let r: u64 = ((memory_only & GEN_MASK) << (2 * GEN_BITS)) | ((deletion & GEN_MASK) << GEN_BITS)
        | (covered & GEN_MASK);
    proof {
        let m = memory_only;
        let d = deletion;
        let c = covered;
        assert(r == ((m & 0x1F_FFFF) << 42) | ((d & 0x1F_FFFF) << 21) | (c & 0x1F_FFFF));
        assert(r % 0x20_0000 == c % 0x20_0000) by (bit_vector)
            requires
                r == ((m & 0x1F_FFFF) << 42) | ((d & 0x1F_FFFF) << 21) | (c & 0x1F_FFFF),
        ;
        assert((r / 0x20_0000) % 0x20_0000 == d % 0x20_0000) by (bit_vector)
            requires
                r == ((m & 0x1F_FFFF) << 42) | ((d & 0x1F_FFFF) << 21) | (c & 0x1F_FFFF),
        ;
        assert((r / 0x400_0000_0000) % 0x20_0000 == m % 0x20_0000) by (bit_vector)
            requires
                r == ((m & 0x1F_FFFF) << 42) | ((d & 0x1F_FFFF) << 21) | (c & 0x1F_FFFF),
        ;
    }
    r
}

/// Records what failed to persist.
pub fn raise_unpersisted(ledger: u64, memory_only: bool, deletion_breach: bool) -> (r: u64)
    ensures
        ledger_view(r) == ledger_view(ledger).raised(memory_only, deletion_breach),
{
    let m: u64 = raised_memory_only_of(ledger);
    let d: u64 = raised_deletion_of(ledger);
    let c: u64 = covered_of(ledger);
    let top: u64 = if m >= d && m >= c {
        m
    } else if d >= c {
        d
    } else {
        c
    };
    let next: u64 = if top + 1 <= GEN_MASK {
        top + 1
    } else {
        GEN_MASK
    };
    pack_ledger(
        if memory_only {
            next
        } else {
            m
        },
        if deletion_breach {
            next
        } else {
            d
        },
        c,
    )
}

/// Records that a durable checkpoint covers everything up to `generation`.
pub fn cover_unpersisted(ledger: u64, generation: u64) -> (r: u64)
    ensures
        ledger_view(r) == ledger_view(ledger).covered_upto(generation),
{
    let c: u64 = covered_of(ledger);
    if c >= generation {
        return ledger;
    }
    let upto: u64 = if generation <= GEN_MASK - 1 {
        generation
    } else {
        GEN_MASK - 1
    };
    pack_ledger(raised_memory_only_of(ledger), raised_deletion_of(ledger), upto)
}

/// The durability problems that hold right now, the worst first.
pub fn durability_issues(ledger: u64) -> (r: Vec<LexHistoryDurabilityIssue>)
    ensures
        r@ == ledger_view(ledger).issues(),
{
    let covered: u64 = covered_of(ledger);
    let mut issues: Vec<LexHistoryDurabilityIssue> = Vec::new();
    if raised_deletion_of(ledger) > covered {
        issues.push(LexHistoryDurabilityIssue::DeletionNotPersisted);
    }
    if raised_memory_only_of(ledger) > covered {
        issues.push(LexHistoryDurabilityIssue::LearningMemoryOnly);
    }
    proof {
        assert(issues@ =~= ledger_view(ledger).issues());
    }
    issues
}

/// A ledger stays well formed.
pub proof fn ledger_stays_well_formed(l: LedgerView, m: bool, d: bool, generation: u64)
    requires
        l.wf(),
    ensures
        l.raised(m, d).wf(),
        l.covered_upto(generation).wf(),
        ledger_view(0).wf(),
{
}

/// What fails to persist is reported from then on.
pub proof fn failures_are_reported(l: LedgerView, m: bool, d: bool)
    requires
        l.wf(),
    ensures
        d ==> l.raised(m, d).issues().contains(LexHistoryDurabilityIssue::DeletionNotPersisted),
        m ==> l.raised(m, d).issues().contains(LexHistoryDurabilityIssue::LearningMemoryOnly),
{
    let r = l.raised(m, d);
    if d {
        assert(r.issues()[0] == LexHistoryDurabilityIssue::DeletionNotPersisted);
    }
    if m {
        assert(r.issues()[r.issues().len() - 1] == LexHistoryDurabilityIssue::LearningMemoryOnly);
    }
}

/// A checkpoint of everything raised so far settles it, unless generations have
/// run out; then it stays reported.
pub proof fn checkpoints_settle_failures(l: LedgerView)
    requires
        l.wf(),
    ensures
        l.highest() < GEN_MASK ==> l.covered_upto(l.highest()).issues().len() == 0,
        l.highest() == GEN_MASK ==> l.covered_upto(l.highest()).issues().len() > 0,
{
}

/// A checkpoint covers no failure that came after it was taken: that one is still
/// reported.
pub proof fn stale_checkpoints_hide_nothing(l: LedgerView, m: bool, d: bool)
    requires
        l.wf(),
    ensures
        ({
            let r = l.raised(m, d).covered_upto(l.highest());
            &&& d ==> r.issues().contains(LexHistoryDurabilityIssue::DeletionNotPersisted)
            &&& m ==> r.issues().contains(LexHistoryDurabilityIssue::LearningMemoryOnly)
        }),
{
    let r = l.raised(m, d).covered_upto(l.highest());
    if d {
        assert(r.issues()[0] == LexHistoryDurabilityIssue::DeletionNotPersisted);
    }
    if m {
        assert(r.issues()[r.issues().len() - 1] == LexHistoryDurabilityIssue::LearningMemoryOnly);
    }
}

/// What is covered stays covered.
pub proof fn coverage_never_shrinks(l: LedgerView, m: bool, d: bool, generation: u64)
    requires
        l.wf(),
    ensures
        l.raised(m, d).covered >= l.covered,
        l.covered_upto(generation).covered >= l.covered,
{
}

} // verus!
