use lexime::api::learning::{
    after_compact, commit_log_line, compact_outcome, plan_records, AfterCompact, AppendOutcome,
    Batch, Clear, ClearFault, ClearStep, CommitEvent, CompactOutcome, Compaction, Learned,
    LearningRecord, TruncateOutcome, WalRecord,
};
use lexime::api::ledger::{
    cover_unpersisted, durability_issues, highest_raised, raise_unpersisted,
};
use lexime::api::LexHistoryDurabilityIssue;
use lexime::user_history::{Bigram, Unigram, UserHistory};

type Pair = (String, String);

fn pair(reading: &str, surface: &str) -> Pair {
    (reading.to_string(), surface.to_string())
}

fn committed(reading: &str, surface: &str) -> LearningRecord {
    LearningRecord::Committed {
        reading: reading.to_string(),
        surface: surface.to_string(),
        segments: None,
        rank: 0,
        top1: None,
        auto_committed: false,
        learn: true,
    }
}

fn deletion(reading: &str, surface: &str) -> LearningRecord {
    LearningRecord::Deletion { segments: vec![pair(reading, surface)] }
}

/// A history written down, with how far the log is in it.
#[derive(Clone, Default)]
struct Checkpoint {
    words: Vec<(Pair, u32)>,
    pairs: Vec<(String, Pair, u32)>,
    applied_seq: u64,
}

impl Checkpoint {
    fn of(l: &Learned) -> Checkpoint {
        Checkpoint {
            words: l
                .history
                .unigrams()
                .iter()
                .map(|u| ((u.reading.clone(), u.surface.clone()), u.frequency))
                .collect(),
            pairs: l
                .history
                .bigrams()
                .iter()
                .map(|b| (b.prev.clone(), (b.reading.clone(), b.surface.clone()), b.frequency))
                .collect(),
            applied_seq: l.applied_seq,
        }
    }

    fn restore(self) -> Learned {
        let unigrams = self
            .words
            .into_iter()
            .map(|((reading, surface), frequency)| Unigram { reading, surface, frequency })
            .collect();
        let bigrams = self
            .pairs
            .into_iter()
            .map(|(prev, (reading, surface), frequency)| Bigram { prev, reading, surface, frequency })
            .collect();
        Learned::restored(UserHistory::of(unigrams, bigrams), self.applied_seq)
    }
}

fn frame(tombstone: bool, pairs: &[Pair]) -> WalRecord {
    let segments = pairs.to_vec();
    if tombstone {
        WalRecord::Tombstone { segments, timestamp: 0 }
    } else {
        WalRecord::Committed { segments, timestamp: 0 }
    }
}

/// What a crash leaves behind.
#[derive(Clone, Default)]
struct Disk {
    checkpoint: Option<Checkpoint>,
    log: Vec<(u64, bool, Vec<Pair>)>,
}

/// A history over a disk that can fail.
struct Hist {
    disk: Disk,
    memory: Learned,
    last_seq: u64,
    frozen: bool,
    ledger: u64,
    scrub_pending: bool,
    requested: bool,
    fail_appends: bool,
    fail_full_sync: bool,
    fail_truncates: bool,
    fail_checkpoint: bool,
    truncates: usize,
    commit_log: Vec<String>,
}

impl Default for Hist {
    fn default() -> Hist {
        Hist {
            disk: Disk::default(),
            memory: Checkpoint::default().restore(),
            last_seq: 0,
            frozen: false,
            ledger: 0,
            scrub_pending: false,
            requested: false,
            fail_appends: false,
            fail_full_sync: false,
            fail_truncates: false,
            fail_checkpoint: false,
            truncates: 0,
            commit_log: Vec::new(),
        }
    }
}

impl Hist {
    fn open(disk: Disk) -> Hist {
        let mut h = Hist { disk: disk.clone(), ..Hist::default() };
        if let Some(checkpoint) = disk.checkpoint {
            h.memory = checkpoint.restore();
        }
        h.last_seq = h.memory.applied_seq;
        for (seq, tombstone, pairs) in disk.log {
            h.memory.replay(&frame(tombstone, &pairs), seq);
            h.last_seq = h.last_seq.max(seq);
        }
        h
    }

    fn reopen(&self) -> Hist {
        Hist::open(self.disk.clone())
    }

    fn append(&mut self, tombstone: bool, pairs: &[Pair]) -> AppendOutcome {
        if self.frozen || self.fail_appends {
            self.frozen = true;
            return AppendOutcome::Failed;
        }
        self.last_seq += 1;
        let seq = self.last_seq;
        self.disk.log.push((seq, tombstone, pairs.to_vec()));
        if tombstone && self.fail_full_sync {
            AppendOutcome::SyncFailed { seq }
        } else {
            AppendOutcome::Written { seq }
        }
    }

    fn apply_records(&mut self, records: &[LearningRecord]) {
        let plan = plan_records(records, 7);
        let mut batch = Batch::new();
        for record in plan.frames {
            let (tombstone, pairs) = match &record {
                WalRecord::Committed { segments, .. } => (false, segments.clone()),
                WalRecord::Tombstone { segments, .. } => (true, segments.clone()),
            };
            let target = self.memory.has_durable_target(&pairs);
            if !batch.wants(&record, target) {
                continue;
            }
            let outcome = self.append(tombstone, &pairs);
            batch.appended(record, outcome);
        }
        self.memory.apply_batch(&batch);
        if batch.memory_only() || batch.durability_failed {
            self.ledger =
                raise_unpersisted(self.ledger, batch.memory_only(), batch.durability_failed);
        }
        self.scrub_pending = self.scrub_pending || batch.scrub;
        match batch.compaction(false) {
            Compaction::Synchronous => {
                self.scrub_pending = false;
                let outcome = self.run_compact();
                if matches!(after_compact(outcome), AfterCompact::Pending) {
                    self.scrub_pending = true;
                }
            }
            Compaction::Requested => self.requested = true,
            Compaction::Threshold | Compaction::Nothing => {}
        }
        for line in plan.lines {
            self.commit_log.push(commit_log_line(line));
        }
    }

    /// Runs the compaction that was asked for.
    fn settle(&mut self) {
        if self.requested {
            self.requested = false;
            self.scrub_pending = false;
            let outcome = self.run_compact();
            match after_compact(outcome) {
                AfterCompact::Nothing => {}
                AfterCompact::Again => self.requested = true,
                AfterCompact::Pending => self.scrub_pending = true,
            }
        }
    }

    fn run_compact(&mut self) -> CompactOutcome {
        let generation = highest_raised(self.ledger);
        let residue = self.memory.residue.len();
        let snapshot = Checkpoint::of(&self.memory);
        self.finish_compact(generation, snapshot, residue)
    }

    fn finish_compact(
        &mut self,
        generation: u64,
        snapshot: Checkpoint,
        residue: usize,
    ) -> CompactOutcome {
        if self.fail_checkpoint {
            return compact_outcome(None);
        }
        let seq = snapshot.applied_seq;
        self.disk.checkpoint = Some(snapshot);
        self.memory.settle_residue(residue);
        self.ledger = cover_unpersisted(self.ledger, generation);
        let truncated = if self.last_seq > seq {
            TruncateOutcome::FramesLeft
        } else {
            self.truncates += 1;
            if self.fail_truncates {
                TruncateOutcome::Failed
            } else {
                self.disk.log.clear();
                self.frozen = false;
                TruncateOutcome::Truncated
            }
        };
        compact_outcome(Some(truncated))
    }

    fn clear(&mut self) -> Result<(), ClearFault> {
        let generation = highest_raised(self.ledger);
        let mut clear = Clear::start();
        while clear.step != ClearStep::Finished {
            let ok = match clear.step {
                ClearStep::SaveEmpty => {
                    if !self.fail_checkpoint {
                        self.disk.checkpoint = Some(Checkpoint {
                            applied_seq: self.last_seq,
                            ..Checkpoint::default()
                        });
                        self.ledger = cover_unpersisted(self.ledger, generation);
                    }
                    !self.fail_checkpoint
                }
                ClearStep::TruncateWal => {
                    if !self.fail_truncates {
                        self.disk.log.clear();
                    }
                    !self.fail_truncates
                }
                ClearStep::ResetMemory => {
                    self.memory = Learned::restored(UserHistory::new(), self.last_seq);
                    true
                }
                ClearStep::RemoveLog => {
                    self.commit_log.clear();
                    true
                }
                _ => true,
            };
            clear.advance(ok);
        }
        self.frozen = self.frozen || clear.frozen;
        match clear.fault {
            Some(f) => Err(f),
            None => Ok(()),
        }
    }

    fn learned(&self, reading: &str) -> Vec<String> {
        self.memory
            .history
            .unigrams()
            .iter()
            .filter(|u| u.reading == reading)
            .map(|u| u.surface.clone())
            .collect()
    }

    fn issues(&self) -> Vec<LexHistoryDurabilityIssue> {
        durability_issues(self.ledger)
    }

    fn has_unpersisted_deletion(&self) -> bool {
        self.issues().contains(&LexHistoryDurabilityIssue::DeletionNotPersisted)
    }
}

#[test]
fn test_commit_log_line_shape() {
    let event = |surface: &str, rank: usize, top1: Option<&str>, auto_committed: bool| CommitEvent {
        time: 42,
        reading: "きょう".to_string(),
        surface: surface.to_string(),
        rank,
        top1: top1.map(|t| t.to_string()),
        auto_committed,
    };
    // Manual pick: top1 present, auto omitted
    let line = commit_log_line(event("京", 2, Some("今日"), false));
    let v: serde_json::Value = serde_json::from_str(&line).unwrap();
    assert_eq!(v["t"], 42);
    assert_eq!(v["reading"], "きょう");
    assert_eq!(v["surface"], "京");
    assert_eq!(v["rank"], 2);
    assert_eq!(v["top1"], "今日");
    assert!(v.get("auto").is_none());

    // Auto-commit acceptance: top1 omitted, auto present
    let line = commit_log_line(event("今日", 0, None, true));
    let v: serde_json::Value = serde_json::from_str(&line).unwrap();
    assert!(v.get("top1").is_none());
    assert_eq!(v["auto"], true);
}

#[test]
fn test_commit_log_append_and_clear() {
    let mut hist = Hist::default();
    hist.apply_records(&[committed("きょう", "今日")]);
    hist.apply_records(&[committed("きょう", "京")]);
    assert_eq!(hist.commit_log.len(), 2);
    hist.clear().unwrap();
    assert!(hist.commit_log.is_empty(), "commit log should be removed by clear");
}

#[test]
fn test_apply_records_wal_ahead_and_durable() {
    let mut hist = Hist::default();
    hist.apply_records(&[committed("きょう", "今日")]);
    assert_eq!(hist.learned("きょう"), vec!["今日".to_string()]);
    assert_eq!(hist.disk.log.len(), 1);
    assert_eq!(hist.memory.applied_seq, hist.last_seq);
    // The frame alone (no checkpoint yet) reconstructs the state.
    assert_eq!(hist.reopen().learned("きょう"), vec!["今日".to_string()]);
}

#[test]
fn test_noop_deletion_writes_no_tombstone() {
    let mut hist = Hist::default();
    hist.apply_records(&[deletion("きょう", "今日")]);
    assert_eq!(hist.disk.log.len(), 0);
    assert!(!hist.scrub_pending, "no scrub needed for a no-op deletion");
}

/// A history with きょう→今日 in a checkpoint, but no longer in memory.
fn hist_with_evicted_entry() -> Hist {
    let mut hist = Hist::default();
    hist.apply_records(&[committed("きょう", "今日")]);
    assert!(matches!(hist.run_compact(), CompactOutcome::Done));
    hist.memory.apply(&frame(true, &[pair("きょう", "今日")]), None);
    assert!(hist.learned("きょう").is_empty());
    hist
}

#[test]
fn test_deleting_an_evicted_entry_still_persists() {
    let mut hist = hist_with_evicted_entry();
    let before = hist.memory.applied_seq;
    hist.apply_records(&[deletion("きょう", "今日")]);
    assert!(hist.memory.applied_seq > before, "memory-absent is not disk-absent");
    hist.settle();
    assert_eq!(hist.disk.log.len(), 0);
    assert!(hist.reopen().learned("きょう").is_empty());
}

#[test]
fn test_deletion_beats_a_commit_earlier_in_the_same_batch() {
    let mut hist = Hist::default();
    hist.apply_records(&[committed("きょう", "今日"), deletion("きょう", "今日")]);
    assert!(hist.learned("きょう").is_empty());
    assert!(hist.scrub_pending || hist.disk.log.len() >= 2);
    assert!(hist.reopen().learned("きょう").is_empty());
}

#[test]
fn test_unrelated_residue_does_not_cost_a_flush() {
    let mut hist = hist_with_evicted_entry();
    hist.apply_records(&[deletion("あした", "明日")]);
    assert_eq!(hist.disk.log.len(), 0);
    assert!(!hist.scrub_pending);
}

#[test]
fn test_compaction_restores_the_no_op_fast_path() {
    let mut hist = hist_with_evicted_entry();
    assert!(matches!(hist.run_compact(), CompactOutcome::Done));
    hist.apply_records(&[deletion("きょう", "今日")]);
    assert_eq!(hist.disk.log.len(), 0);
}

#[test]
fn test_clear_drops_the_residue() {
    let mut hist = hist_with_evicted_entry();
    hist.clear().unwrap();
    hist.apply_records(&[deletion("きょう", "今日")]);
    assert_eq!(hist.disk.log.len(), 0);
}

#[test]
fn test_deletion_scrubs_checkpoint_and_wal() {
    let mut hist = Hist::default();
    hist.apply_records(&[committed("きょう", "今日")]);
    assert!(matches!(hist.run_compact(), CompactOutcome::Done));
    assert!(hist.disk.checkpoint.is_some());
    hist.apply_records(&[deletion("きょう", "今日")]);
    assert!(hist.learned("きょう").is_empty(), "memory delete is immediate");
    hist.settle();
    assert_eq!(hist.disk.log.len(), 0);
    assert!(hist.reopen().learned("きょう").is_empty(), "deletion survives reopen");
}

#[test]
fn test_tombstone_deletes_before_scrub_after_crash() {
    let mut hist = Hist::default();
    hist.apply_records(&[committed("きょう", "今日")]);
    assert!(matches!(hist.run_compact(), CompactOutcome::Done));
    hist.apply_records(&[deletion("きょう", "今日")]);
    // Before the scrub: the checkpoint still holds the entry.
    assert_eq!(hist.disk.checkpoint.as_ref().unwrap().words.len(), 1);
    assert!(hist.reopen().learned("きょう").is_empty());
}

#[test]
fn test_clear_leaves_empty_checkpoint_and_header_wal() {
    let mut hist = Hist::default();
    hist.apply_records(&[committed("きょう", "今日")]);
    hist.run_compact();
    hist.clear().unwrap();
    assert!(hist.learned("きょう").is_empty());
    assert!(hist.disk.checkpoint.as_ref().unwrap().words.is_empty());
    assert_eq!(hist.disk.log.len(), 0);
    hist.apply_records(&[committed("あす", "明日")]);
    let hist2 = hist.reopen();
    assert!(hist2.learned("きょう").is_empty());
    assert_eq!(hist2.learned("あす"), vec!["明日".to_string()]);
}

#[test]
fn test_append_failure_keeps_memory_and_heals() {
    let mut hist = Hist { fail_appends: true, ..Hist::default() };
    hist.apply_records(&[committed("きょう", "今日")]);
    assert_eq!(hist.learned("きょう"), vec!["今日".to_string()]);
    assert_eq!(hist.memory.applied_seq, 0);
    assert!(hist.frozen);
    assert_eq!(hist.issues(), vec![LexHistoryDurabilityIssue::LearningMemoryOnly]);
    hist.fail_appends = false;
    hist.settle();
    assert!(!hist.frozen);
    assert!(hist.disk.checkpoint.is_some());
    assert!(hist.truncates >= 1);
    assert!(hist.issues().is_empty(), "the heal must clear the report");
    assert_eq!(hist.reopen().learned("きょう"), vec!["今日".to_string()]);
}

#[test]
fn test_tombstone_sync_failure_applies_with_real_seq() {
    let mut hist = Hist { fail_full_sync: true, ..Hist::default() };
    hist.apply_records(&[committed("きょう", "今日")]);
    let commit_seq = hist.last_seq;
    hist.apply_records(&[deletion("きょう", "今日")]);
    assert!(hist.learned("きょう").is_empty());
    assert!(hist.memory.applied_seq > commit_seq);
    assert!(!hist.frozen);
    assert_eq!(hist.disk.log.len(), 0, "checkpointed before the call returned");
    assert!(hist.reopen().learned("きょう").is_empty());
}

#[test]
fn test_tombstone_append_failure_checkpoints_synchronously() {
    let mut hist = Hist::default();
    hist.apply_records(&[committed("きょう", "今日")]);
    hist.run_compact();
    assert!(hist.disk.checkpoint.is_some());
    hist.fail_appends = true;
    hist.apply_records(&[deletion("きょう", "今日")]);
    assert!(hist.learned("きょう").is_empty());
    assert!(!hist.has_unpersisted_deletion());
    assert!(hist.reopen().learned("きょう").is_empty());
}

#[test]
fn test_durability_failure_with_failed_checkpoint_keeps_scrub_pending() {
    let hist = hist_with_unpersisted_deletion();
    assert!(hist.learned("きょう").is_empty());
    assert!(hist.scrub_pending);
}

#[test]
fn test_checkpoint_failure_skips_truncation() {
    let mut hist = Hist { fail_checkpoint: true, ..Hist::default() };
    hist.apply_records(&[committed("きょう", "今日")]);
    assert_eq!(hist.disk.log.len(), 1);
    hist.run_compact();
    assert_eq!(hist.truncates, 0);
    assert_eq!(hist.disk.log.len(), 1);
}

fn hist_with_unpersisted_deletion() -> Hist {
    let mut hist = Hist { fail_checkpoint: true, fail_full_sync: true, ..Hist::default() };
    hist.apply_records(&[committed("きょう", "今日")]);
    hist.apply_records(&[deletion("きょう", "今日")]);
    hist
}

#[test]
fn test_sync_failed_deletion_with_failed_checkpoint_is_reported() {
    let hist = hist_with_unpersisted_deletion();
    assert!(hist.learned("きょう").is_empty());
    assert!(!hist.frozen);
    assert_eq!(hist.issues(), vec![LexHistoryDurabilityIssue::DeletionNotPersisted]);
}

#[test]
fn test_deletion_double_failure_reports_both_issues_in_severity_order() {
    let mut hist = Hist { fail_checkpoint: true, ..Hist::default() };
    hist.apply_records(&[committed("きょう", "今日")]);
    hist.fail_appends = true;
    hist.apply_records(&[deletion("きょう", "今日")]);
    assert_eq!(hist.issues(), vec![LexHistoryDurabilityIssue::DeletionNotPersisted]);
    hist.apply_records(&[committed("あす", "明日")]);
    assert_eq!(
        hist.issues(),
        vec![
            LexHistoryDurabilityIssue::DeletionNotPersisted,
            LexHistoryDurabilityIssue::LearningMemoryOnly,
        ]
    );
}

#[test]
fn test_a_stale_compaction_must_not_unfreeze_over_memory_only_commits() {
    let mut hist = Hist { fail_appends: true, ..Hist::default() };
    hist.apply_records(&[committed("きょう", "今日")]);
    assert!(hist.frozen);
    let generation = highest_raised(hist.ledger);
    let (snapshot, residue) = (Checkpoint::of(&hist.memory), hist.memory.residue.len());
    hist.apply_records(&[committed("あす", "明日")]);
    let outcome = hist.finish_compact(generation, snapshot, residue);
    assert!(matches!(outcome, CompactOutcome::Done));
    assert!(!hist.frozen);
    assert!(hist.issues().contains(&LexHistoryDurabilityIssue::LearningMemoryOnly));
}

#[test]
fn test_later_successful_compaction_clears_the_deletion_issue() {
    let mut hist = hist_with_unpersisted_deletion();
    assert!(!hist.issues().is_empty());
    hist.fail_checkpoint = false;
    assert!(matches!(hist.run_compact(), CompactOutcome::Done));
    assert!(hist.issues().is_empty());
    assert!(hist.reopen().learned("きょう").is_empty());
}

#[test]
fn test_clear_covers_the_unpersisted_deletion() {
    let mut hist = hist_with_unpersisted_deletion();
    assert!(!hist.issues().is_empty());
    hist.fail_checkpoint = false;
    hist.clear().unwrap();
    assert!(hist.issues().is_empty());
}

#[test]
fn test_failed_clear_does_not_cover_the_deletion() {
    let mut hist = hist_with_unpersisted_deletion();
    assert_eq!(hist.clear(), Err(ClearFault::Checkpoint));
    assert!(hist.has_unpersisted_deletion());
}

#[test]
fn test_a_deletion_raised_after_the_snapshot_stays_reported() {
    let ledger = 0u64;
    let generation = highest_raised(ledger);
    let ledger = raise_unpersisted(ledger, false, true);
    let ledger = cover_unpersisted(ledger, generation);
    assert!(!durability_issues(ledger).is_empty());
    let ledger = cover_unpersisted(ledger, highest_raised(ledger));
    assert!(durability_issues(ledger).is_empty());
}

#[test]
fn test_a_cover_cannot_swallow_a_raise_that_races_it() {
    let ledger = raise_unpersisted(0, false, true);
    let observed = highest_raised(ledger);
    let ledger = raise_unpersisted(ledger, false, true);
    let ledger = cover_unpersisted(ledger, observed);
    assert!(!durability_issues(ledger).is_empty());
    let ledger = cover_unpersisted(ledger, highest_raised(ledger));
    assert!(durability_issues(ledger).is_empty());
    let ledger = cover_unpersisted(ledger, observed);
    assert!(durability_issues(ledger).is_empty());
}

#[test]
fn test_clear_truncate_failure_defers_the_row_until_learning_is_at_risk() {
    let mut hist = Hist::default();
    hist.apply_records(&[committed("きょう", "今日")]);
    hist.fail_truncates = true;
    assert_eq!(hist.clear(), Err(ClearFault::Wal));
    assert!(hist.frozen);
    assert!(hist.issues().is_empty());
    hist.apply_records(&[committed("あす", "明日")]);
    assert_eq!(hist.issues(), vec![LexHistoryDurabilityIssue::LearningMemoryOnly]);
}

#[test]
fn test_healthy_history_reports_nothing() {
    let mut hist = Hist::default();
    hist.apply_records(&[committed("きょう", "今日")]);
    hist.apply_records(&[deletion("あした", "明日")]); // no-op deletion
    assert!(matches!(hist.run_compact(), CompactOutcome::Done));
    hist.apply_records(&[deletion("きょう", "今日")]); // real deletion
    hist.settle();
    hist.clear().unwrap();
    assert!(hist.issues().is_empty());
}

#[test]
fn generations_that_run_out_stay_reported() {
    let full = lexime::api::ledger::pack_ledger(0, 0x1F_FFFF, 5);
    let covered = cover_unpersisted(full, highest_raised(full));
    assert_eq!(durability_issues(covered), vec![LexHistoryDurabilityIssue::DeletionNotPersisted]);
    assert_eq!(raise_unpersisted(full, false, true), full);
}

#[test]
fn forgotten_pairs_leave_nothing_behind() {
    let mut h = UserHistory::new();
    h.record(&[pair("きょう", "今日"), pair("は", "は"), pair("はれ", "晴れ")]);
    let gone = [pair("は", "は")];
    assert!(h.knows_any(&gone));
    h.forget(&gone);
    assert!(!h.knows_any(&gone));
    assert_eq!(h.unigram_boost("は", "は"), 0);
    assert_eq!(h.bigram_boost("今日", "は", "は"), 0);
    assert!(h.bigram_successors("今日").is_empty());
    assert_eq!(h.unigram_boost("きょう", "今日"), 3000);
    assert_eq!(h.bigram_boost("は", "はれ", "晴れ"), 3000);
}

#[test]
fn frames_that_the_checkpoint_has_are_not_replayed() {
    let mut l = Learned::restored(UserHistory::new(), 3);
    assert!(!l.replay(&frame(false, &[pair("あ", "亜")]), 3));
    assert!(l.replay(&frame(false, &[pair("い", "胃")]), 4));
    assert_eq!(l.applied_seq, 4);
    assert_eq!(l.history.unigram_boost("あ", "亜"), 0);
    assert_eq!(l.history.unigram_boost("い", "胃"), 3000);
    l.apply(&frame(true, &[pair("う", "鵜")]), None);
    assert!(l.has_durable_target(&vec![pair("う", "鵜")]));
    l.settle_residue(1);
    assert!(!l.has_durable_target(&vec![pair("う", "鵜")]));
}
