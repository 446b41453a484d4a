use lexime::api::flat::{
    flatten_key_response, hand_over_all, hand_over_candidates, hand_over_entries,
};
use lexime::api::events::{conversion_mode, mode_of_number, romaji_convert, romaji_lookup};
use lexime::api::resources::{LexUserDictionary, OpenReport};
use lexime::api::snippets::escape;
use lexime::api::worker::{newest, CandidateWork, Generation};
use lexime::api::{
    convert_to_events, snippets_build_store, LexError, LexEvent, LexSnippetEntry, LexConversionMode, LexHistoryCheckpointState,
    LexHistoryOpenReport, LexHistoryWalState,
    LexRomajiLookup,
};
use lexime::candidates::CandidateResponse;
use lexime::converter::ConvertedSegment;
use lexime::dict::DictEntry;
use lexime::session::{CandidateAction, ConversionMode, KeyResponse, MarkedText};

fn empty_response() -> KeyResponse {
    KeyResponse::not_consumed()
}

#[test]
fn test_convert_empty_response() {
    let resp = empty_response();
    let result = convert_to_events(resp, 0);
    assert!(!result.consumed);
    assert!(result.events.is_empty());
}

#[test]
fn test_convert_stamps_epoch() {
    let resp = empty_response();
    let result = convert_to_events(resp, 42);
    assert_eq!(result.epoch, 42);
}

#[test]
fn test_convert_commit_event() {
    let mut resp = empty_response();
    resp.consumed = true;
    resp.commit = Some("テスト".to_string());
    let result = convert_to_events(resp, 0);
    assert!(result.consumed);
    assert_eq!(result.events.len(), 1);
    assert!(matches!(&result.events[0], LexEvent::Commit { text } if text == "テスト"));
}

#[test]
fn test_convert_marked_text_event() {
    let mut resp = empty_response();
    resp.consumed = true;
    resp.marked = Some(MarkedText {
        text: "かな".to_string(),
        dashed: false,
    });
    let result = convert_to_events(resp, 0);
    assert_eq!(result.events.len(), 1);
    assert!(matches!(&result.events[0], LexEvent::SetMarkedText { text } if text == "かな"));
}

#[test]
fn test_convert_clear_marked_text() {
    let mut resp = empty_response();
    resp.consumed = true;
    resp.marked = Some(MarkedText {
        text: String::new(),
        dashed: false,
    });
    let result = convert_to_events(resp, 0);
    // Empty marked text becomes SetMarkedText with empty string
    assert_eq!(result.events.len(), 1);
    assert!(matches!(&result.events[0], LexEvent::SetMarkedText { text } if text.is_empty()));
}

#[test]
fn test_convert_candidates_show() {
    let mut resp = empty_response();
    resp.consumed = true;
    resp.candidates = CandidateAction::Show {
        surfaces: vec!["候補1".to_string(), "候補2".to_string()],
        selected: 0,
    };
    let result = convert_to_events(resp, 0);
    assert_eq!(result.events.len(), 1);
    assert!(matches!(
        &result.events[0],
        LexEvent::ShowCandidates { surfaces, selected }
            if surfaces.len() == 2 && *selected == 0
    ));
}

#[test]
fn test_convert_candidates_hide() {
    let mut resp = empty_response();
    resp.consumed = true;
    resp.candidates = CandidateAction::Hide;
    let result = convert_to_events(resp, 0);
    assert_eq!(result.events.len(), 1);
    assert!(matches!(&result.events[0], LexEvent::HideCandidates));
}

#[test]
fn test_convert_switch_to_abc() {
    let mut resp = empty_response();
    resp.consumed = true;
    resp.side_effects.switch_to_abc = true;
    let result = convert_to_events(resp, 0);
    assert_eq!(result.events.len(), 1);
    assert!(matches!(&result.events[0], LexEvent::SwitchToAbc));
}

#[test]
fn test_convert_multiple_events() {
    let mut resp = empty_response();
    resp.consumed = true;
    resp.commit = Some("確定".to_string());
    resp.marked = Some(MarkedText {
        text: "次の入力".to_string(),
        dashed: false,
    });
    resp.candidates = CandidateAction::Show {
        surfaces: vec!["a".to_string()],
        selected: 0,
    };
    let result = convert_to_events(resp, 0);
    assert!(result.consumed);
    // commit + marked + candidates = 3
    assert_eq!(result.events.len(), 3);
    assert!(matches!(&result.events[0], LexEvent::Commit { .. }));
    assert!(matches!(&result.events[1], LexEvent::SetMarkedText { .. }));
    assert!(matches!(&result.events[2], LexEvent::ShowCandidates { .. }));
}

#[test]
fn commit_precedes_marked_text() {
    let mut resp = empty_response();
    resp.commit = Some("今日".to_string());
    resp.marked = Some(MarkedText {
        text: "は".to_string(),
        dashed: false,
    });
    let result = convert_to_events(resp, 0);
    let commit_at = result
        .events
        .iter()
        .position(|e| matches!(e, LexEvent::Commit { .. }))
        .expect("commit event");
    let marked_at = result
        .events
        .iter()
        .position(|e| matches!(e, LexEvent::SetMarkedText { .. }))
        .expect("marked event");
    assert!(
        commit_at < marked_at,
        "Commit must precede SetMarkedText so the marked text survives the commit"
    );
}

#[test]
fn build_store_rejects_empty_key() {
    let result = snippets_build_store(vec![LexSnippetEntry {
        key: String::new(),
        body: "x".to_string(),
    }], Ok(()));
    assert!(matches!(result, Err(LexError::InvalidData { .. })));
}

#[test]
fn build_store_accepts_non_empty_key() {
    let store = snippets_build_store(vec![LexSnippetEntry {
        key: "gh".to_string(),
        body: "https://github.com/".to_string(),
    }], Ok(()));
    assert!(store.is_ok());
}

#[test]
fn test_generation_counter_invalidation() {
    let mut gen = Generation::new();
    assert_eq!(gen.current(), 0);
    gen.advance();
    assert_eq!(gen.current(), 1);
    // Work with generation 0 is now stale
    assert_ne!(0u64, gen.current());
    assert!(!gen.is_current(0));
}

#[test]
fn duplicate_and_unusable_snippets() {
    let entry = |k: &str, b: &str| LexSnippetEntry { key: k.to_string(), body: b.to_string() };
    match snippets_build_store(vec![entry("あ", "x"), entry("b", "y"), entry("あ", "z")], Ok(())) {
        Err(LexError::InvalidData { msg }) => {
            assert_eq!(msg, "duplicate snippet key: \"\\u{3042}\"");
        }
        _ => panic!("a key stands twice"),
    }
    match snippets_build_store(vec![entry("a", "x"), entry("", "y")], Ok(())) {
        Err(LexError::InvalidData { msg }) => assert_eq!(msg, "empty snippet key"),
        _ => panic!("a key is empty"),
    }
    for text in ["a\tb\r\n", "'\"\\", "~ \u{7f}", "漢字\u{1f600}\0"] {
        assert_eq!(escape(text), text.escape_default().to_string());
    }
    match snippets_build_store(vec![entry("a", "{x}")], Err("unknown variable: x".to_string())) {
        Err(LexError::InvalidData { msg }) => assert_eq!(msg, "unknown variable: x"),
        _ => panic!("a variable is not known"),
    }
    let store = snippets_build_store(vec![entry("a", "{e}"), entry("b", "y")], Ok(())).ok().unwrap();
    assert_eq!(store.unusable_keys(&vec!["".to_string(), "y".to_string()]), vec!["a"]);
}

#[test]
fn texts_with_a_zero_are_not_handed_over() {
    let list = vec!["a".to_string(), "b\0".to_string(), "".to_string()];
    assert_eq!(hand_over_all(list), vec!["a", ""]);
    let seg = |r: &str, s: &str| ConvertedSegment { reading: r.to_string(), surface: s.to_string() };
    let resp = CandidateResponse {
        surfaces: vec!["\0".to_string(), "x".to_string()],
        paths: vec![vec![seg("a", "\0"), seg("b", "c")], vec![]],
    };
    let r = hand_over_candidates(resp);
    assert_eq!(r.surfaces, vec!["x"]);
    assert_eq!(r.paths.len(), 2);
    assert_eq!(r.paths[0].len(), 1);
    assert_eq!(r.paths[0][0].surface, "c");
    let entries = vec![
        DictEntry { surface: "a".to_string(), cost: 5, left_id: 0, right_id: 0 },
        DictEntry { surface: "\0b".to_string(), cost: 6, left_id: 0, right_id: 0 },
    ];
    assert_eq!(hand_over_entries("r", &entries), vec![("a".to_string(), 5)]);
    assert!(hand_over_entries("\0", &entries).is_empty());
}

#[test]
fn answers_are_flattened() {
    let mut resp = KeyResponse::consumed();
    resp.commit = Some("確定".to_string());
    resp.marked = Some(MarkedText { text: "か\0".to_string(), dashed: true });
    resp.candidates = CandidateAction::Show { surfaces: vec!["a".to_string()], selected: 3 };
    resp.side_effects.switch_to_abc = true;
    let flat = flatten_key_response(resp);
    assert_eq!((flat.consumed, flat.show_candidates, flat.hide_candidates), (1, 1, 0));
    assert_eq!(flat.commit_text.as_deref(), Some("確定"));
    assert!(flat.marked_text.is_none());
    assert_eq!((flat.selected_index, flat.switch_to_abc, flat.needs_candidates), (3, 1, 0));
    assert_eq!(flat.candidates, vec!["a"]);
}

#[test]
fn only_the_newest_work_is_done() {
    let work = |g: u64| CandidateWork { reading: "か".to_string(), dispatch: 0, generation: g, lattice: None };
    assert!(newest(Vec::new()).is_none());
    assert_eq!(newest(vec![work(1), work(2)]).unwrap().generation, 2);
}

#[test]
fn test_ffi_romaji_lookup_exact() {
    assert!(matches!(romaji_lookup("ka"), LexRomajiLookup::Exact { kana } if kana == "か"));
}

#[test]
fn test_ffi_romaji_lookup_prefix() {
    assert!(matches!(romaji_lookup("k"), LexRomajiLookup::Prefix));
}

#[test]
fn test_ffi_romaji_lookup_none() {
    assert!(matches!(romaji_lookup("xyz"), LexRomajiLookup::NoMatch));
}

#[test]
fn test_ffi_romaji_convert_basic() {
    let r = romaji_convert("", "ka", false);
    assert_eq!(r.composed_kana, "か");
    assert_eq!(r.pending_romaji, "");
}

#[test]
fn test_ffi_romaji_convert_sokuon() {
    assert_eq!(romaji_convert("", "kka", false).composed_kana, "っか");
}

#[test]
fn test_ffi_romaji_convert_force_n() {
    assert_eq!(romaji_convert("", "n", true).composed_kana, "ん");
}

#[test]
fn test_ffi_romaji_convert_collapse() {
    assert_eq!(romaji_convert("kあ", "", false).composed_kana, "か");
}

#[test]
fn modes_by_name_and_number() {
    assert_eq!(conversion_mode(LexConversionMode::Predictive), ConversionMode::Predictive);
    assert_eq!(conversion_mode(LexConversionMode::Standard), ConversionMode::Standard);
    assert_eq!(mode_of_number(0), ConversionMode::Standard);
    assert_eq!(mode_of_number(1), ConversionMode::Predictive);
    assert_eq!(mode_of_number(2), ConversionMode::GhostText);
    assert_eq!(mode_of_number(9), ConversionMode::Standard);
}

#[test]
fn user_words_are_registered_once() {
    let mut d = LexUserDictionary::new(vec!["bad.bak".to_string()]);
    assert!(d.register("きょう", "凶"));
    assert!(!d.register("きょう", "凶"));
    assert!(d.register("きょう", "強"));
    assert!(d.unregister("きょう", "凶"));
    assert!(!d.unregister("きょう", "凶"));
    let words = d.list();
    assert_eq!(words.len(), 1);
    assert_eq!((words[0].reading.as_str(), words[0].surface.as_str()), ("きょう", "強"));
    let report = d.open_report();
    assert!(report.data_loss_suspected);
    assert_eq!(report.quarantined_paths, vec!["bad.bak"]);
    assert!(!LexUserDictionary::new(Vec::new()).open_report().data_loss_suspected);
}

#[test]
fn open_reports_tell_of_losses() {
    let mut r = OpenReport {
        checkpoint_state: LexHistoryCheckpointState::Loaded,
        wal_state: LexHistoryWalState::Clean,
        migrated_from_v1: false,
        migration_failed: false,
        appends_frozen: false,
        frames_replayed: 3,
        frames_skipped: 0,
        quarantined_paths: Vec::new(),
    };
    assert!(r.is_clean() && !r.data_loss_suspected());
    assert_eq!(LexHistoryOpenReport::of(&r).frames_replayed, 3);
    r.wal_state = LexHistoryWalState::TailRepaired;
    assert!(!r.is_clean() && !r.data_loss_suspected());
    r.checkpoint_state = LexHistoryCheckpointState::Quarantined;
    assert!(LexHistoryOpenReport::of(&r).data_loss_suspected);
}
