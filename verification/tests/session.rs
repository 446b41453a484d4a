use lexime::candidates::generate_candidates;
use lexime::dict::{DictEntry, TrieDictionary};
use lexime::session::model::{self as key, FLAG_HAS_MODIFIER};
use lexime::session::{
    cyclic_index, is_romaji_input, CandidateAction, Composition, ConversionMode, InputSession,
    KeyResponse, Submode,
};
use lexime::user_history::UserHistory;

fn make_test_dict() -> TrieDictionary {
    let entries = vec![
        (
            "きょう".to_string(),
            vec![
                DictEntry {
                    surface: "今日".to_string(),
                    cost: 3000,
                    left_id: 0,
                    right_id: 0,
                },
                DictEntry {
                    surface: "京".to_string(),
                    cost: 5000,
                    left_id: 0,
                    right_id: 0,
                },
            ],
        ),
        (
            "は".to_string(),
            vec![DictEntry {
                surface: "は".to_string(),
                cost: 2000,
                left_id: 0,
                right_id: 0,
            }],
        ),
        (
            "いい".to_string(),
            vec![
                DictEntry {
                    surface: "良い".to_string(),
                    cost: 3500,
                    left_id: 0,
                    right_id: 0,
                },
                DictEntry {
                    surface: "いい".to_string(),
                    cost: 4000,
                    left_id: 0,
                    right_id: 0,
                },
            ],
        ),
        (
            "てんき".to_string(),
            vec![DictEntry {
                surface: "天気".to_string(),
                cost: 4000,
                left_id: 0,
                right_id: 0,
            }],
        ),
        (
            "い".to_string(),
            vec![DictEntry {
                surface: "胃".to_string(),
                cost: 6000,
                left_id: 0,
                right_id: 0,
            }],
        ),
        (
            "き".to_string(),
            vec![DictEntry {
                surface: "木".to_string(),
                cost: 4500,
                left_id: 0,
                right_id: 0,
            }],
        ),
        (
            "てん".to_string(),
            vec![DictEntry {
                surface: "天".to_string(),
                cost: 5000,
                left_id: 0,
                right_id: 0,
            }],
        ),
        (
            "わたし".to_string(),
            vec![DictEntry {
                surface: "私".to_string(),
                cost: 3000,
                left_id: 0,
                right_id: 0,
            }],
        ),
        (
            "です".to_string(),
            vec![DictEntry {
                surface: "です".to_string(),
                cost: 2500,
                left_id: 0,
                right_id: 0,
            }],
        ),
        (
            "ね".to_string(),
            vec![DictEntry {
                surface: "ね".to_string(),
                cost: 2000,
                left_id: 0,
                right_id: 0,
            }],
        ),
        (
            "。".to_string(),
            vec![DictEntry {
                surface: "。".to_string(),
                cost: 1000,
                left_id: 0,
                right_id: 0,
            }],
        ),
    ];
    TrieDictionary::from_entries(entries)
}

fn comp<'a>(session: &'a InputSession) -> &'a Composition {
    session.composition().unwrap()
}

// Commits as often as it takes for suggestions to have this generation.
fn reach_generation(session: &mut InputSession, generation: u64) {
    while session.ghost_generation() < generation {
        type_string(session, "kyou");
        session.handle_key(key::ENTER, "", 0);
    }
}

// Types a string one character at a time.
fn type_string(session: &mut InputSession, s: &str) -> Vec<KeyResponse> {
    let mut responses = Vec::new();
    for ch in s.chars() {
        let text = ch.to_string();
        let resp = session.handle_key(0, &text, 0);
        responses.push(resp);
    }
    responses
}

#[test]
fn test_romaji_input_ka() {
    let dict = make_test_dict();
    let mut session = InputSession::new(&dict, None, None);

    let resp = session.handle_key(0, "k", 0);
    assert!(resp.consumed);
    assert!(session.is_composing());

    let resp = session.handle_key(0, "a", 0);
    assert!(resp.consumed);
    // After "ka" → "か", marked text should be set
    assert!(resp.marked.is_some());
}

#[test]
fn test_romaji_kyou() {
    let dict = make_test_dict();
    let mut session = InputSession::new(&dict, None, None);

    type_string(&mut session, "kyou");
    assert!(session.is_composing());
    assert_eq!(comp(&session).kana(), "きょう");
    assert!(comp(&session).pending().is_empty());
}

#[test]
fn test_romaji_sokuon() {
    let dict = make_test_dict();
    let mut session = InputSession::new(&dict, None, None);

    type_string(&mut session, "kka");
    assert_eq!(comp(&session).kana(), "っか");
}

#[test]
fn test_backspace_removes_pending() {
    let dict = make_test_dict();
    let mut session = InputSession::new(&dict, None, None);

    type_string(&mut session, "k"); // pending_romaji = "k"
    assert_eq!(comp(&session).pending(), "k");

    let resp = session.handle_key(key::BACKSPACE, "", 0);
    assert!(resp.consumed);
    assert!(!session.is_composing()); // back to idle (composition dropped)
}

#[test]
fn test_backspace_removes_kana() {
    let dict = make_test_dict();
    let mut session = InputSession::new(&dict, None, None);

    type_string(&mut session, "ka"); // composedKana = "か"
    assert_eq!(comp(&session).kana(), "か");

    let resp = session.handle_key(key::BACKSPACE, "", 0);
    assert!(resp.consumed);
    assert!(!session.is_composing()); // back to idle (composition dropped)
}

#[test]
fn test_backspace_partial() {
    let dict = make_test_dict();
    let mut session = InputSession::new(&dict, None, None);

    type_string(&mut session, "kak"); // "か" + pending "k"
    assert_eq!(comp(&session).kana(), "か");
    assert_eq!(comp(&session).pending(), "k");

    session.handle_key(key::BACKSPACE, "", 0);
    assert_eq!(comp(&session).kana(), "か");
    assert!(comp(&session).pending().is_empty());
    assert!(session.is_composing());
}

#[test]
fn test_escape_flushes() {
    let dict = make_test_dict();
    let mut session = InputSession::new(&dict, None, None);

    type_string(&mut session, "kyoun"); // "きょう" + pending "n"

    let resp = session.handle_key(key::ESCAPE, "", 0);
    assert!(resp.consumed);
    assert!(matches!(resp.candidates, CandidateAction::Hide));
    // After escape, kana is flushed (n → ん)
    assert_eq!(comp(&session).kana(), "きょうん");
    assert!(comp(&session).pending().is_empty());
}

#[test]
fn test_enter_commits_selected() {
    let dict = make_test_dict();
    let mut session = InputSession::new(&dict, None, None);

    type_string(&mut session, "kyou");
    assert!(!comp(&session).surfaces().is_empty());

    let resp = session.handle_key(key::ENTER, "", 0);
    assert!(resp.consumed);
    assert!(resp.commit.is_some());
    assert!(matches!(resp.candidates, CandidateAction::Hide));
    assert!(!session.is_composing());
}

#[test]
fn test_space_cycles_candidates() {
    let dict = make_test_dict();
    let mut session = InputSession::new(&dict, None, None);

    type_string(&mut session, "kyou");
    let initial_count = comp(&session).surfaces().len();
    assert!(initial_count > 1);
    assert_eq!(comp(&session).selected(), 0);

    // First space jumps to index 1
    let resp = session.handle_key(key::SPACE, "", 0);
    assert!(resp.consumed);
    assert_eq!(comp(&session).selected(), 1);
    assert!(matches!(resp.candidates, CandidateAction::Show { .. }));

    // Second space goes to index 2
    let resp = session.handle_key(key::SPACE, "", 0);
    assert!(resp.consumed);
    assert_eq!(comp(&session).selected(), 2);
}

#[test]
fn test_arrow_keys_cycle() {
    let dict = make_test_dict();
    let mut session = InputSession::new(&dict, None, None);

    type_string(&mut session, "kyou");
    let count = comp(&session).surfaces().len();
    assert!(count > 1);

    session.handle_key(key::DOWN, "", 0);
    assert_eq!(comp(&session).selected(), 1);

    session.handle_key(key::UP, "", 0);
    assert_eq!(comp(&session).selected(), 0);

    // Up from 0 wraps to last
    session.handle_key(key::UP, "", 0);
    assert_eq!(comp(&session).selected(), count - 1);
}

#[test]
fn test_tab_toggles_submode() {
    let dict = make_test_dict();
    let mut session = InputSession::new(&dict, None, None);

    assert_eq!(session.submode(), Submode::Japanese);
    session.handle_key(key::TAB, "", 0);
    assert_eq!(session.submode(), Submode::English);
    session.handle_key(key::TAB, "", 0);
    assert_eq!(session.submode(), Submode::Japanese);
}

#[test]
fn test_english_submode_direct_input() {
    let dict = make_test_dict();
    let mut session = InputSession::new(&dict, None, None);

    session.handle_key(key::TAB, "", 0); // switch to English
    let resp = session.handle_key(0, "h", 0);
    assert!(resp.consumed);
    assert!(session.is_composing());
    assert_eq!(comp(&session).kana(), "h");
    assert!(resp.marked.as_ref().is_some_and(|m| m.dashed));

    let resp = session.handle_key(0, "i", 0);
    assert!(resp.consumed);
    assert_eq!(comp(&session).kana(), "hi");
}

#[test]
fn test_modifier_passthrough_idle() {
    let dict = make_test_dict();
    let mut session = InputSession::new(&dict, None, None);

    let resp = session.handle_key(0, "c", FLAG_HAS_MODIFIER);
    assert!(!resp.consumed);
}

#[test]
fn test_modifier_passthrough_composing() {
    let dict = make_test_dict();
    let mut session = InputSession::new(&dict, None, None);

    type_string(&mut session, "kyou");
    assert!(session.is_composing());

    let resp = session.handle_key(0, "c", FLAG_HAS_MODIFIER);
    assert!(!resp.consumed);
    assert!(resp.commit.is_some()); // commits before passing through
    assert!(!session.is_composing());
}

#[test]
fn test_eisu_switches_to_abc() {
    let dict = make_test_dict();
    let mut session = InputSession::new(&dict, None, None);

    let resp = session.handle_key(key::EISU, "", 0);
    assert!(resp.consumed);
    assert!(resp.side_effects.switch_to_abc);
}

#[test]
fn test_eisu_commits_and_switches() {
    let dict = make_test_dict();
    let mut session = InputSession::new(&dict, None, None);

    type_string(&mut session, "kyou");
    assert!(session.is_composing());

    let resp = session.handle_key(key::EISU, "", 0);
    assert!(resp.consumed);
    assert!(resp.side_effects.switch_to_abc);
    assert!(resp.commit.is_some());
    assert!(!session.is_composing());
}

#[test]
fn test_kana_consumed() {
    let dict = make_test_dict();
    let mut session = InputSession::new(&dict, None, None);

    let resp = session.handle_key(key::KANA, "", 0);
    assert!(resp.consumed);
}

#[test]
fn test_yen_programmer_mode() {
    let dict = make_test_dict();
    let mut session = InputSession::new(&dict, None, None);
    session.set_programmer_mode(true);

    let resp = session.handle_key(key::YEN, "¥", 0);
    assert!(resp.consumed);
    assert_eq!(resp.commit.as_deref(), Some("\\"));
}

#[test]
fn test_yen_programmer_mode_composing() {
    let dict = make_test_dict();
    let mut session = InputSession::new(&dict, None, None);
    session.set_programmer_mode(true);

    type_string(&mut session, "kyou");
    let resp = session.handle_key(key::YEN, "¥", 0);
    assert!(resp.consumed);
    // Should commit current + add backslash
    assert!(resp.commit.is_some());
    let text = resp.commit.unwrap();
    assert!(text.ends_with('\\'));
}

#[test]
fn test_yen_non_programmer_mode_passthrough() {
    let dict = make_test_dict();
    let mut session = InputSession::new(&dict, None, None);

    // Without programmer mode, ¥ in idle state should not be consumed (romaji check)
    let resp = session.handle_key(key::YEN, "¥", 0);
    assert!(!resp.consumed);
}

#[test]
fn test_punctuation_auto_commit() {
    let dict = make_test_dict();
    let mut session = InputSession::new(&dict, None, None);

    type_string(&mut session, "kyou");
    assert!(session.is_composing());

    // Type "." which is a romaji trie match for "。"
    let resp = session.handle_key(0, ".", 0);
    assert!(resp.consumed);
    // Should commit current state + append punctuation
    let text = resp.commit.unwrap();
    assert!(
        text.ends_with('。'),
        "commit should end with 。, got: {}",
        text
    );
}

#[test]
fn test_commit_method() {
    let dict = make_test_dict();
    let mut session = InputSession::new(&dict, None, None);

    type_string(&mut session, "kyou");
    assert!(session.is_composing());

    let resp = session.commit();
    assert!(resp.commit.is_some());
    assert!(!session.is_composing());
}

#[test]
fn test_composed_string_idle() {
    let dict = make_test_dict();
    let session = InputSession::new(&dict, None, None);
    assert_eq!(session.composed_string(), "");
}

#[test]
fn test_composed_string_composing() {
    let dict = make_test_dict();
    let mut session = InputSession::new(&dict, None, None);

    type_string(&mut session, "kyou");
    // composed_string should return the current display (best candidate)
    let cs = session.composed_string();
    assert!(!cs.is_empty());
}

#[test]
fn test_history_recorded_on_commit() {
    let dict = make_test_dict();
    let history = UserHistory::new();
    let mut session = InputSession::new(&dict, None, Some(&history));

    type_string(&mut session, "kyou");
    session.handle_key(key::ENTER, "", 0);

    let records = session.take_history_records();
    assert!(!records.is_empty());
}

#[test]
fn test_history_recorded_on_escape() {
    let dict = make_test_dict();
    let history = UserHistory::new();
    let mut session = InputSession::new(&dict, None, Some(&history));

    type_string(&mut session, "kyou");
    session.handle_key(key::ESCAPE, "", 0);

    let records = session.take_history_records();
    assert!(!records.is_empty());
    // Should record kana → kana
    assert_eq!(records[0][0].0, "きょう");
    assert_eq!(records[0][0].1, "きょう");
}

#[test]
fn test_cyclic_index() {
    assert_eq!(cyclic_index(0, 1, 3), 1);
    assert_eq!(cyclic_index(2, 1, 3), 0); // wrap
    assert_eq!(cyclic_index(0, -1, 3), 2); // wrap backwards
    assert_eq!(cyclic_index(0, 0, 0), 0); // empty
}

#[test]
fn test_is_romaji_input() {
    assert!(is_romaji_input("a"));
    assert!(is_romaji_input("Z"));
    assert!(is_romaji_input("-"));
    assert!(!is_romaji_input("1"));
    assert!(!is_romaji_input("。"));
    assert!(!is_romaji_input(""));
}

#[test]
fn test_programmer_mode_boundary_space() {
    let dict = make_test_dict();
    let mut session = InputSession::new(&dict, None, None);
    session.set_programmer_mode(true);

    // Type Japanese, toggle to English
    type_string(&mut session, "kyou");
    let best = comp(&session).surfaces()[0].clone();
    session.handle_key(key::TAB, "", 0); // → English
                                         // Boundary space should be in display_prefix after crystallization
    assert!(comp(&session).prefix().ends_with(' '));
    assert!(comp(&session).has_boundary_space());
    // composed_kana should be cleared (crystallized into prefix)
    assert!(comp(&session).kana().is_empty());

    // Toggle back without typing → space should be removed
    session.handle_key(key::TAB, "", 0); // → Japanese
    assert!(!comp(&session).prefix().ends_with(' '));
    assert!(!comp(&session).has_boundary_space());
    // Prefix should still contain the crystallized conversion (without space)
    assert_eq!(comp(&session).prefix(), best);
}

#[test]
fn test_toggle_submode_preserves_conversion() {
    let dict = make_test_dict();
    let mut session = InputSession::new(&dict, None, None);

    // Type "kyou" → candidates include "今日" (Viterbi best)
    type_string(&mut session, "kyou");
    assert!(!comp(&session).surfaces().is_empty());
    let best = comp(&session).surfaces()[0].clone();

    // display() should return the Viterbi best
    assert_eq!(comp(&session).display(), best);

    // Toggle to English — display must preserve the conversion, not revert to kana
    let resp = session.handle_key(key::TAB, "", 0);
    assert!(resp.consumed);
    assert!(resp.marked.as_ref().is_some_and(|m| m.dashed));
    let marked = resp.marked.unwrap().text;
    assert_eq!(
        marked, best,
        "toggle should preserve conversion, not revert to kana"
    );
    // Candidates are cleared after crystallization
    assert!(matches!(resp.candidates, CandidateAction::Hide));
    // Conversion should be crystallized into display_prefix
    assert_eq!(comp(&session).prefix(), best);
    assert!(comp(&session).kana().is_empty());
}

#[test]
fn test_mixed_mode_commit() {
    let dict = make_test_dict();
    let mut session = InputSession::new(&dict, None, None);

    // Type "kyou" → "今日", then Tab to English, type "test", then Enter
    type_string(&mut session, "kyou");
    let best = comp(&session).surfaces()[0].clone();
    session.handle_key(key::TAB, "", 0); // → English
    type_string(&mut session, "test");

    // Marked text should show "今日test"
    let display = comp(&session).display();
    assert_eq!(display, format!("{}test", best));

    // Commit should produce "今日test"
    let resp = session.handle_key(key::ENTER, "", 0);
    assert_eq!(resp.commit.as_deref(), Some(&format!("{}test", best)[..]));
    assert!(!session.is_composing());
}

#[test]
fn test_mixed_mode_display() {
    let dict = make_test_dict();
    let mut session = InputSession::new(&dict, None, None);

    // Type Japanese → English → Japanese
    type_string(&mut session, "kyou");
    let best = comp(&session).surfaces()[0].clone();
    session.handle_key(key::TAB, "", 0); // → English
    type_string(&mut session, "hello");
    session.handle_key(key::TAB, "", 0); // → Japanese
    type_string(&mut session, "kyou");

    // Display should be "<best>hello<new_best>"
    let display = comp(&session).display();
    assert!(
        display.starts_with(&best),
        "display should start with first conversion: got {}",
        display,
    );
    assert!(
        display.contains("hello"),
        "display should contain English segment: got {}",
        display,
    );
}

#[test]
fn test_mixed_mode_backspace_into_prefix() {
    let dict = make_test_dict();
    let mut session = InputSession::new(&dict, None, None);

    // Type Japanese, toggle to English
    type_string(&mut session, "kyou");
    let best = comp(&session).surfaces()[0].clone();
    session.handle_key(key::TAB, "", 0); // → English
    type_string(&mut session, "ab");

    // Backspace twice to empty English segment
    session.handle_key(key::BACKSPACE, "", 0);
    session.handle_key(key::BACKSPACE, "", 0);
    assert!(comp(&session).kana().is_empty());
    // display_prefix still has the frozen conversion
    assert_eq!(comp(&session).prefix(), best);

    // One more backspace deletes from prefix
    session.handle_key(key::BACKSPACE, "", 0);
    assert!(comp(&session).prefix().len() < best.len());
}

#[test]
fn test_english_mode_space_literal() {
    let dict = make_test_dict();
    let mut session = InputSession::new(&dict, None, None);

    session.handle_key(key::TAB, "", 0); // → English
    type_string(&mut session, "hi");
    session.handle_key(key::SPACE, "", 0);
    assert_eq!(comp(&session).kana(), "hi ");
}

#[test]
fn test_candidates_generated() {
    let dict = make_test_dict();
    let mut session = InputSession::new(&dict, None, None);

    type_string(&mut session, "kyou");
    assert!(!comp(&session).surfaces().is_empty());
    assert!(!comp(&session).paths().is_empty());
}

#[test]
fn test_unrecognized_char_added_to_kana() {
    let dict = make_test_dict();
    let mut session = InputSession::new(&dict, None, None);

    type_string(&mut session, "ka"); // "か"
    session.handle_key(0, "1", 0); // unrecognized
    assert!(comp(&session).kana().ends_with('1'));
}

#[test]
fn test_z_sequence() {
    let dict = make_test_dict();
    let mut session = InputSession::new(&dict, None, None);

    // "z" is a prefix in the romaji trie, "zh" → "←"
    type_string(&mut session, "zh");
    assert_eq!(comp(&session).kana(), "←");
}

#[test]
fn test_deferred_auto_commit_shows_provisional_candidates() {
    let dict = make_test_dict();
    let mut session = InputSession::new(&dict, None, None);
    session.set_defer_candidates(true);

    // Helper: complete one async candidate cycle.
    // Returns the response from receive_candidates (None if stale).
    fn complete_cycle(
        session: &mut InputSession,
        dict: &TrieDictionary,
    ) -> Option<KeyResponse> {
        let reading = comp(session).kana().to_string();
        if reading.is_empty() {
            return None;
        }
        let cand = generate_candidates(dict, None, None, &reading, 20);
        session.receive_candidates(&reading, cand.surfaces, cand.paths)
    }

    // Build up "きょうはいいてんき" with async cycles after each romaji group.
    // Each cycle increments the stability counter (first segment = "きょう").
    type_string(&mut session, "kyou"); // "きょう"
    let r = complete_cycle(&mut session, &dict);
    assert!(r.is_some());
    assert!(r.unwrap().commit.is_none(), "no auto-commit yet");

    type_string(&mut session, "ha"); // "きょうは"
    let r = complete_cycle(&mut session, &dict);
    assert!(r.is_some());
    assert!(r.unwrap().commit.is_none(), "no auto-commit yet");

    type_string(&mut session, "ii"); // "きょうはいい"
    let r = complete_cycle(&mut session, &dict);
    assert!(r.is_some());
    assert!(
        r.unwrap().commit.is_none(),
        "no auto-commit yet (< 4 segments)"
    );

    type_string(&mut session, "tenki"); // "きょうはいいてんき"
    let r = complete_cycle(&mut session, &dict);
    let resp = r.expect("receive_candidates should return a response");

    // Auto-commit should fire: first segment committed, remaining shown
    assert!(
        resp.commit.is_some(),
        "auto-commit should produce commit_text"
    );
    assert!(
        matches!(resp.candidates, CandidateAction::Show { .. }),
        "deferred auto-commit should show provisional candidates (not hide)"
    );
    if let CandidateAction::Show { ref surfaces, .. } = resp.candidates {
        assert!(
            !surfaces.is_empty(),
            "deferred auto-commit should provide provisional candidates"
        );
    }
    // Async generation should still be requested for proper results
    assert!(
        resp.async_request.is_some(),
        "deferred auto-commit should request async candidate generation"
    );
    // Session state should also hold provisional candidates
    // so that candidate navigation works during the async phase.
    assert!(
        !comp(&session).surfaces().is_empty(),
        "session should retain provisional candidates for navigation"
    );
}

#[test]
fn test_predictive_mode_generates_candidates() {
    let dict = make_test_dict();
    let mut session = InputSession::new(&dict, None, None);
    session.set_conversion_mode(ConversionMode::Predictive);

    type_string(&mut session, "kyou");
    // Predictive mode uses Viterbi base + bigram chaining
    assert!(!comp(&session).surfaces().is_empty());
    // Without history, behaves like standard (Viterbi-based)
    assert!(!comp(&session).paths().is_empty());
    // Kana should be present as fallback
    assert!(comp(&session)
        .surfaces()
        .contains(&"きょう".to_string()));
}

#[test]
fn test_predictive_mode_tab_commits() {
    let dict = make_test_dict();
    let mut session = InputSession::new(&dict, None, None);
    session.set_conversion_mode(ConversionMode::Predictive);

    type_string(&mut session, "kyou");
    assert!(session.is_composing());

    let resp = session.handle_key(key::TAB, "", 0);
    assert!(resp.consumed);
    // Tab in Predictive mode commits (not toggles submode)
    assert!(resp.commit.is_some());
    assert!(!session.is_composing());
}

#[test]
fn test_predictive_mode_space_cycles() {
    let dict = make_test_dict();
    let mut session = InputSession::new(&dict, None, None);
    session.set_conversion_mode(ConversionMode::Predictive);

    type_string(&mut session, "kyou");
    let count = comp(&session).surfaces().len();
    assert!(count > 1);
    assert_eq!(comp(&session).selected(), 0);

    // Space cycles candidates in Predictive mode too
    session.handle_key(key::SPACE, "", 0);
    assert_eq!(comp(&session).selected(), 1);
}

#[test]
fn test_predictive_mode_no_auto_commit() {
    let dict = make_test_dict();
    let mut session = InputSession::new(&dict, None, None);
    session.set_conversion_mode(ConversionMode::Predictive);
    session.set_defer_candidates(true);

    fn complete_cycle(
        session: &mut InputSession,
        dict: &TrieDictionary,
    ) -> Option<KeyResponse> {
        let reading = comp(session).kana().to_string();
        if reading.is_empty() {
            return None;
        }
        let cand = generate_candidates(dict, None, None, &reading, 20);
        session.receive_candidates(&reading, cand.surfaces, cand.paths)
    }

    // Build up enough input that would trigger auto-commit in Standard mode
    type_string(&mut session, "kyou");
    complete_cycle(&mut session, &dict);
    type_string(&mut session, "ha");
    complete_cycle(&mut session, &dict);
    type_string(&mut session, "ii");
    complete_cycle(&mut session, &dict);
    type_string(&mut session, "tenki");
    let r = complete_cycle(&mut session, &dict);

    // In Predictive mode, auto-commit should NOT fire
    if let Some(resp) = r {
        assert!(
            resp.commit.is_none(),
            "predictive mode should not auto-commit"
        );
    }
}

#[test]
fn test_predictive_mode_deferred_dispatch() {
    let dict = make_test_dict();
    let mut session = InputSession::new(&dict, None, None);
    session.set_conversion_mode(ConversionMode::Predictive);
    session.set_defer_candidates(true);

    // Type "ka" to trigger deferred candidate generation
    session.handle_key(0, "k", 0);
    let resp = session.handle_key(0, "a", 0);
    // Predictive mode uses prediction-specific generation (dispatch=1)
    if let Some(req) = resp.async_request {
        assert_eq!(
            req.candidate_dispatch, 1,
            "predictive uses prediction_only generation"
        );
    }
}

#[test]
fn test_standard_mode_deferred_dispatch() {
    let dict = make_test_dict();
    let mut session = InputSession::new(&dict, None, None);
    session.set_conversion_mode(ConversionMode::Standard);
    session.set_defer_candidates(true);

    // Type "ka" one char at a time to capture deferred response
    session.handle_key(0, "k", 0);
    let resp = session.handle_key(0, "a", 0);
    if let Some(req) = resp.async_request {
        assert_eq!(req.candidate_dispatch, 0, "standard dispatch should be 0");
    }
}

#[test]
fn test_conversion_mode_switch() {
    let dict = make_test_dict();
    let mut session = InputSession::new(&dict, None, None);

    // Default is Standard
    assert_eq!(session.conversion_mode(), ConversionMode::Standard);

    // Switch to Predictive
    session.set_conversion_mode(ConversionMode::Predictive);
    assert_eq!(session.conversion_mode(), ConversionMode::Predictive);

    type_string(&mut session, "kyou");
    // Tab should commit (Predictive behavior)
    let resp = session.handle_key(key::TAB, "", 0);
    assert!(resp.commit.is_some());
    assert!(!session.is_composing());

    // Switch back to Standard
    session.set_conversion_mode(ConversionMode::Standard);
    assert_eq!(session.conversion_mode(), ConversionMode::Standard);

    type_string(&mut session, "kyou");
    // Tab should toggle submode (Standard behavior)
    let resp = session.handle_key(key::TAB, "", 0);
    assert!(resp.commit.is_none());
    assert!(session.is_composing());
    assert_eq!(comp(&session).submode(), Submode::English);
}

#[test]
fn test_ghosttext_tab_accepts_ghost() {
    let dict = make_test_dict();
    let mut session = InputSession::new(&dict, None, None);
    session.set_conversion_mode(ConversionMode::GhostText);

    // Simulate ghost text being received
    reach_generation(&mut session, 1);
    assert!(session.receive_ghost_text(1, "ですね".to_string()).is_some());

    // Tab should accept ghost text
    let resp = session.handle_key(key::TAB, "", 0);
    assert!(resp.consumed);
    assert_eq!(resp.commit.as_deref(), Some("ですね"));
    assert!(session.ghost_text().is_none());
}

#[test]
fn test_ghosttext_tab_no_ghost_composing_commits() {
    let dict = make_test_dict();
    let mut session = InputSession::new(&dict, None, None);
    session.set_conversion_mode(ConversionMode::GhostText);

    // Type something (no ghost text)
    type_string(&mut session, "kyou");
    assert!(session.is_composing());

    // Tab commits in GhostText mode (like Predictive)
    let resp = session.handle_key(key::TAB, "", 0);
    assert!(resp.commit.is_some());
    assert!(!session.is_composing());
}

#[test]
fn test_ghosttext_input_clears_ghost() {
    let dict = make_test_dict();
    let mut session = InputSession::new(&dict, None, None);
    session.set_conversion_mode(ConversionMode::GhostText);

    // Simulate ghost text
    assert!(session.receive_ghost_text(0, "ですね".to_string()).is_some());

    // Type a character → should clear ghost
    let resp = session.handle_key(0, "k", 0);
    assert!(resp.consumed);
    assert!(session.ghost_text().is_none());
    // Ghost clear signaled in response
    assert_eq!(resp.ghost_text.as_deref(), Some(""));
}

#[test]
fn test_ghosttext_stale_generation_rejected() {
    let dict = make_test_dict();
    let mut session = InputSession::new(&dict, None, None);
    session.set_conversion_mode(ConversionMode::GhostText);
    reach_generation(&mut session, 5);

    // Stale generation
    let result = session.receive_ghost_text(3, "stale text".to_string());
    assert!(result.is_none());
    assert!(session.ghost_text().is_none());

    // Correct generation
    let result = session.receive_ghost_text(5, "correct text".to_string());
    assert!(result.is_some());
    assert_eq!(session.ghost_text(), Some("correct text"));
}

#[test]
fn test_ghosttext_rejected_while_composing() {
    let dict = make_test_dict();
    let mut session = InputSession::new(&dict, None, None);
    session.set_conversion_mode(ConversionMode::GhostText);
    reach_generation(&mut session, 1);

    type_string(&mut session, "kyou");
    assert!(session.is_composing());

    // Should reject ghost text while composing
    let result = session.receive_ghost_text(1, "text".to_string());
    assert!(result.is_none());
}

#[test]
fn test_standard_mode_no_ghost() {
    let dict = make_test_dict();
    let mut session = InputSession::new(&dict, None, None);
    session.set_conversion_mode(ConversionMode::GhostText);
    reach_generation(&mut session, 1);
    session.set_conversion_mode(ConversionMode::Standard);

    // Standard mode rejects ghost text
    let result = session.receive_ghost_text(1, "text".to_string());
    assert!(result.is_none());
}

#[test]
fn test_ghosttext_commit_requests_ghost() {
    let dict = make_test_dict();
    let mut session = InputSession::new(&dict, None, None);
    session.set_conversion_mode(ConversionMode::GhostText);

    type_string(&mut session, "kyou");
    let resp = session.handle_key(key::ENTER, "", 0);
    assert!(resp.commit.is_some());
    // Should request ghost generation
    assert!(resp.ghost_request.is_some());
    let req = resp.ghost_request.unwrap();
    assert!(!req.context.is_empty());
    assert_eq!(req.generation, 1);
}

#[test]
fn test_set_conversion_mode_ghosttext() {
    let dict = make_test_dict();
    let mut session = InputSession::new(&dict, None, None);

    session.set_conversion_mode(ConversionMode::GhostText);
    assert_eq!(session.conversion_mode(), ConversionMode::GhostText);
    assert_eq!(session.conversion_mode().candidate_dispatch(), 2);
}

#[test]
fn test_ghosttext_accept_then_requests_more() {
    let dict = make_test_dict();
    let mut session = InputSession::new(&dict, None, None);
    session.set_conversion_mode(ConversionMode::GhostText);

    // Simulate ghost text
    reach_generation(&mut session, 1);
    assert!(session.receive_ghost_text(1, "ですね".to_string()).is_some());

    // Accept ghost
    let resp = session.handle_key(key::TAB, "", 0);
    assert_eq!(resp.commit.as_deref(), Some("ですね"));
    // Should request another ghost generation
    assert!(resp.ghost_request.is_some());
    assert_eq!(resp.ghost_request.unwrap().generation, 2);
}

#[test]
fn capital_letters_are_romaji_too() {
    let dict = make_test_dict();
    let mut session = InputSession::new(&dict, None, None);
    session.handle_key(0, "K", 0);
    assert_eq!(comp(&session).pending(), "k");
    session.handle_key(0, "A", 0);
    assert_eq!(comp(&session).kana(), "か");
}

#[test]
fn cyclic_index_of_nothing() {
    assert_eq!(cyclic_index(0, -1, 0), 0);
    assert_eq!(cyclic_index(0, -1, 3), 2);
}
