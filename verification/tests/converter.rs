use lexime::converter::constrained::{
    PrefixConstrainedCost, PrefixConstraint, CONSTRAINT_VIOLATION_COST,
};
use lexime::converter::cost::{script_cost, CostFunction, DefaultCostFunction, SEGMENT_PENALTY};
use lexime::converter::explain::explain;
use lexime::converter::postprocess::group_segments;
use lexime::converter::reranker::{history_rerank, rerank};
use lexime::converter::rewriter::{run_rewriters, KatakanaRewriter, Rewriter};
use lexime::converter::snapshot::{
    read_readings, run_snapshot, show_segments, Baseline, Change,
};
use lexime::converter::viterbi::{viterbi_nbest, RichSegment, ScoredPath};
use lexime::converter::{
    build_lattice, convert, convert_nbest, convert_nbest_with_history, convert_with_history,
    ConvertedSegment, LatticeNode,
};
use lexime::dict::connection::ConnectionMatrix;
use lexime::dict::{DictEntry, TrieDictionary};
use lexime::neural::speculative::{Decoder, Phase, SpeculativeLimits};
use lexime::user_history::UserHistory;

fn test_dict() -> TrieDictionary {
    let entries = vec![
        (
            "きょう".to_string(),
            vec![
                DictEntry {
                    surface: "今日".to_string(),
                    cost: 3000,
                    left_id: 100,
                    right_id: 100,
                },
                DictEntry {
                    surface: "京".to_string(),
                    cost: 5000,
                    left_id: 101,
                    right_id: 101,
                },
            ],
        ),
        (
            "は".to_string(),
            vec![DictEntry {
                surface: "は".to_string(),
                cost: 2000,
                left_id: 200,
                right_id: 200,
            }],
        ),
        (
            "いい".to_string(),
            vec![DictEntry {
                surface: "良い".to_string(),
                cost: 3500,
                left_id: 300,
                right_id: 300,
            }],
        ),
        (
            "てんき".to_string(),
            vec![DictEntry {
                surface: "天気".to_string(),
                cost: 4000,
                left_id: 400,
                right_id: 400,
            }],
        ),
        (
            "き".to_string(),
            vec![DictEntry {
                surface: "木".to_string(),
                cost: 4500,
                left_id: 500,
                right_id: 500,
            }],
        ),
        (
            "い".to_string(),
            vec![DictEntry {
                surface: "胃".to_string(),
                cost: 6000,
                left_id: 600,
                right_id: 600,
            }],
        ),
        (
            "てん".to_string(),
            vec![DictEntry {
                surface: "天".to_string(),
                cost: 5000,
                left_id: 700,
                right_id: 700,
            }],
        ),
        (
            "です".to_string(),
            vec![DictEntry {
                surface: "です".to_string(),
                cost: 2500,
                left_id: 800,
                right_id: 800,
            }],
        ),
        (
            "ね".to_string(),
            vec![DictEntry {
                surface: "ね".to_string(),
                cost: 2000,
                left_id: 900,
                right_id: 900,
            }],
        ),
        (
            "わたし".to_string(),
            vec![DictEntry {
                surface: "私".to_string(),
                cost: 3000,
                left_id: 1000,
                right_id: 1000,
            }],
        ),
        (
            "がくせい".to_string(),
            vec![DictEntry {
                surface: "学生".to_string(),
                cost: 4000,
                left_id: 1100,
                right_id: 1100,
            }],
        ),
    ];
    TrieDictionary::from_entries(entries)
}

/// A zero-cost connection matrix with the given function-word ID range.
fn zero_conn_with_fw(num_ids: u16, fw_min: u16, fw_max: u16) -> ConnectionMatrix {
    let n = num_ids as usize;
    let text = format!("{num_ids} {num_ids}\n{}", "0\n".repeat(n * n));
    ConnectionMatrix::from_text_with_metadata(&text, fw_min, fw_max).unwrap()
}

/// A zero-cost connection matrix with the given roles.
fn zero_conn_with_roles(num_ids: u16, roles: Vec<u8>) -> ConnectionMatrix {
    let n = num_ids as usize;
    let text = format!("{num_ids} {num_ids}\n{}", "0\n".repeat(n * n));
    ConnectionMatrix::from_text_with_roles(&text, 0, 0, roles).unwrap()
}

fn rich(reading: &str, surface: &str, id: u16) -> RichSegment {
    RichSegment {
        reading: reading.into(),
        surface: surface.into(),
        left_id: id,
        right_id: id,
        word_cost: 0,
    }
}

fn to_segments(path: &ScoredPath) -> Vec<ConvertedSegment> {
    path.segments
        .iter()
        .map(|s| ConvertedSegment {
            reading: s.reading.clone(),
            surface: s.surface.clone(),
        })
        .collect()
}

/// A connection matrix where all transitions cost the given value.
fn uniform_conn(cost: i16) -> ConnectionMatrix {
    let num_ids = 4;
    let mut text = format!("{num_ids} {num_ids}\n");
    for _ in 0..(num_ids * num_ids) {
        text.push_str(&format!("{cost}\n"));
    }
    ConnectionMatrix::from_text(&text).unwrap()
}

#[test]
fn basic_test_convert_unigram() {
    let dict = test_dict();
    let result = convert(&dict, None, "きょうはいいてんき");

    let surfaces: Vec<&str> = result.iter().map(|s| s.surface.as_str()).collect();
    // Without connection costs, should pick lowest-cost words
    // Expected: 今日(3000) + は(2000) + 良い(3500) + 天気(4000) = 12500
    assert_eq!(surfaces, vec!["今日", "は", "良い", "天気"]);
}

#[test]
fn basic_test_convert_empty() {
    let dict = test_dict();
    let result = convert(&dict, None, "");
    assert!(result.is_empty());
}

#[test]
fn basic_test_convert_single_word() {
    let dict = test_dict();
    let result = convert(&dict, None, "きょう");

    assert_eq!(result.len(), 1);
    assert_eq!(result[0].surface, "今日");
    assert_eq!(result[0].reading, "きょう");
}

#[test]
fn basic_test_convert_unknown_chars() {
    let dict = test_dict();
    let result = convert(&dict, None, "ぬ");

    assert_eq!(result.len(), 1);
    assert_eq!(result[0].surface, "ぬ");
}

#[test]
fn basic_test_convert_watashi() {
    let dict = test_dict();
    let result = convert(&dict, None, "わたしはがくせいです");

    let surfaces: Vec<&str> = result.iter().map(|s| s.surface.as_str()).collect();
    assert_eq!(surfaces, vec!["私", "は", "学生", "です"]);
}

#[test]
fn basic_test_convert_with_connection_costs() {
    // Build a dict where "きょう" has two entries with similar word costs:
    //   "今日" (cost=5000, id=10) and "京" (cost=4900, id=20)
    // Without connection costs, "京" wins (lower cost).
    // With connection costs that penalize id=20→id=30 ("は") heavily,
    // "今日" should win instead.
    let entries = vec![
        (
            "きょう".to_string(),
            vec![
                DictEntry {
                    surface: "今日".to_string(),
                    cost: 5000,
                    left_id: 10,
                    right_id: 10,
                },
                DictEntry {
                    surface: "京".to_string(),
                    cost: 4900,
                    left_id: 20,
                    right_id: 20,
                },
            ],
        ),
        (
            "は".to_string(),
            vec![DictEntry {
                surface: "は".to_string(),
                cost: 2000,
                left_id: 30,
                right_id: 30,
            }],
        ),
    ];
    let dict = TrieDictionary::from_entries(entries);

    // Without connection costs, "京" (4900) wins over "今日" (5000)
    let result_unigram = convert(&dict, None, "きょうは");
    assert_eq!(result_unigram[0].surface, "京");

    // Build a connection matrix (31×31 to cover ids 0..30)
    // Set high penalty for id 20→30 transition, low for id 10→30
    let num_ids = 31;
    let mut text = format!("{num_ids} {num_ids}\n");
    for left in 0..num_ids {
        for right in 0..num_ids {
            let cost = if left == 20 && right == 30 {
                500 // heavy penalty: 京→は
            } else {
                0
            };
            text.push_str(&format!("{cost}\n"));
        }
    }
    let conn = ConnectionMatrix::from_text(&text).unwrap();

    // With connection costs: "京"(4900) + conn(20→30=500) = 5400
    //                        "今日"(5000) + conn(10→30=0) = 5000
    // "今日" should now win
    let result_bigram = convert(&dict, Some(&conn), "きょうは");
    assert_eq!(result_bigram[0].surface, "今日");
    assert_eq!(result_bigram[1].surface, "は");
}

#[test]
fn basic_test_viterbi_tiebreak_deterministic() {
    let entries = vec![(
        "あ".to_string(),
        vec![
            DictEntry {
                surface: "亜".to_string(),
                cost: 5000,
                left_id: 0,
                right_id: 0,
            },
            DictEntry {
                surface: "阿".to_string(),
                cost: 5000,
                left_id: 0,
                right_id: 0,
            },
        ],
    )];
    let dict = TrieDictionary::from_entries(entries);
    let first = convert(&dict, None, "あ");
    assert_eq!(first.len(), 1);
    for _ in 0..10 {
        let result = convert(&dict, None, "あ");
        assert_eq!(
            result[0].surface, first[0].surface,
            "Viterbi tie-breaking must be deterministic"
        );
    }
}

#[test]
fn nbest_test_nbest_returns_multiple_paths() {
    let dict = test_dict();
    // "きょう" has two entries: 今日(3000) and 京(5000)
    let results = convert_nbest(&dict, None, "きょう", 5);

    assert!(results.len() >= 2, "should return at least 2 paths");
    // 1-best should be 今日
    assert_eq!(results[0][0].surface, "今日");
    // 2nd best should be 京
    assert_eq!(results[1][0].surface, "京");
}

#[test]
fn nbest_test_nbest_first_matches_1best() {
    let dict = test_dict();
    let best = convert(&dict, None, "きょうはいいてんき");
    let nbest = convert_nbest(&dict, None, "きょうはいいてんき", 5);

    assert!(!nbest.is_empty());
    let best_surfaces: Vec<&str> = best.iter().map(|s| s.surface.as_str()).collect();
    let nbest_surfaces: Vec<&str> = nbest[0].iter().map(|s| s.surface.as_str()).collect();
    assert_eq!(best_surfaces, nbest_surfaces, "1-best must match convert()");
}

#[test]
fn nbest_test_nbest_deduplicates_surfaces() {
    let dict = test_dict();
    let results = convert_nbest(&dict, None, "きょうは", 10);

    let surface_strings: Vec<String> = results
        .iter()
        .map(|path| path.iter().map(|s| s.surface.as_str()).collect::<String>())
        .collect();
    let unique: std::collections::HashSet<&String> = surface_strings.iter().collect();
    assert_eq!(
        surface_strings.len(),
        unique.len(),
        "N-best should not contain duplicate surface strings"
    );
}

#[test]
fn nbest_test_nbest_empty_input() {
    let dict = test_dict();
    let results = convert_nbest(&dict, None, "", 5);
    assert!(results.is_empty());
}

#[test]
fn nbest_test_nbest_n_zero() {
    let dict = test_dict();
    let results = convert_nbest(&dict, None, "きょう", 0);
    assert!(results.is_empty());
}

#[test]
fn nbest_test_nbest_n_one_matches_1best() {
    let dict = test_dict();
    let best = convert(&dict, None, "きょうはいいてんき");
    let nbest = convert_nbest(&dict, None, "きょうはいいてんき", 1);

    // n=1 Viterbi candidate + 1 katakana rewriter candidate
    assert!(!nbest.is_empty());
    let best_surfaces: Vec<&str> = best.iter().map(|s| s.surface.as_str()).collect();
    let nbest_surfaces: Vec<&str> = nbest[0].iter().map(|s| s.surface.as_str()).collect();
    assert_eq!(best_surfaces, nbest_surfaces);
}

#[test]
fn nbest_test_nbest_includes_katakana_candidate() {
    let dict = test_dict();
    let results = convert_nbest(&dict, None, "きょう", 10);

    let surfaces: Vec<String> = results
        .iter()
        .map(|path| path.iter().map(|s| s.surface.as_str()).collect::<String>())
        .collect();
    assert!(
        surfaces.contains(&"キョウ".to_string()),
        "N-best should include katakana candidate, got: {:?}",
        surfaces
    );
}

#[test]
fn nbest_test_nbest_sorted_by_cost() {
    // Verify N-best paths are returned in ascending cost order
    let dict = test_dict();
    let cost_fn = DefaultCostFunction::new(None);
    let lattice = build_lattice(&dict, "きょうは");
    let results = viterbi_nbest(&lattice, &cost_fn, 10);

    // We can't directly check costs from the public API, but we can verify
    // the best path is first (already tested above). For additional confidence,
    // ensure at least 2 results with different segmentations.
    assert!(results.len() >= 2);
    // Different segmentations should exist (e.g., 今日+は vs 京+は vs き+ょ+う+は)
    let first: String = results[0].segments.iter().map(|s| &*s.surface).collect();
    let second: String = results[1].segments.iter().map(|s| &*s.surface).collect();
    assert_ne!(first, second);
}

#[test]
fn viterbi_test_convert_unigram() {
    let dict = test_dict();
    let result = convert(&dict, None, "きょうはいいてんき");

    let surfaces: Vec<&str> = result.iter().map(|s| s.surface.as_str()).collect();
    // Without connection costs, should pick lowest-cost words
    // Expected: 今日(3000) + は(2000) + 良い(3500) + 天気(4000) = 12500
    assert_eq!(surfaces, vec!["今日", "は", "良い", "天気"]);
}

#[test]
fn viterbi_test_convert_empty() {
    let dict = test_dict();
    let result = convert(&dict, None, "");
    assert!(result.is_empty());
}

#[test]
fn viterbi_test_convert_single_word() {
    let dict = test_dict();
    let result = convert(&dict, None, "きょう");

    assert_eq!(result.len(), 1);
    assert_eq!(result[0].surface, "今日");
    assert_eq!(result[0].reading, "きょう");
}

#[test]
fn viterbi_test_convert_unknown_chars() {
    let dict = test_dict();
    let result = convert(&dict, None, "ぬ");

    assert_eq!(result.len(), 1);
    assert_eq!(result[0].surface, "ぬ");
}

#[test]
fn viterbi_test_convert_watashi() {
    let dict = test_dict();
    let result = convert(&dict, None, "わたしはがくせいです");

    let surfaces: Vec<&str> = result.iter().map(|s| s.surface.as_str()).collect();
    assert_eq!(surfaces, vec!["私", "は", "学生", "です"]);
}

#[test]
fn viterbi_test_convert_with_connection_costs() {
    // Build a dict where "きょう" has two entries with similar word costs:
    //   "今日" (cost=5000, id=10) and "京" (cost=4900, id=20)
    // Without connection costs, "京" wins (lower cost).
    // With connection costs that penalize id=20→id=30 ("は") heavily,
    // "今日" should win instead.
    let entries = vec![
        (
            "きょう".to_string(),
            vec![
                DictEntry {
                    surface: "今日".to_string(),
                    cost: 5000,
                    left_id: 10,
                    right_id: 10,
                },
                DictEntry {
                    surface: "京".to_string(),
                    cost: 4900,
                    left_id: 20,
                    right_id: 20,
                },
            ],
        ),
        (
            "は".to_string(),
            vec![DictEntry {
                surface: "は".to_string(),
                cost: 2000,
                left_id: 30,
                right_id: 30,
            }],
        ),
    ];
    let dict = TrieDictionary::from_entries(entries);

    // Without connection costs, "京" (4900) wins over "今日" (5000)
    let result_unigram = convert(&dict, None, "きょうは");
    assert_eq!(result_unigram[0].surface, "京");

    // Build a connection matrix (31×31 to cover ids 0..30)
    // Set high penalty for id 20→30 transition, low for id 10→30
    let num_ids = 31;
    let mut text = format!("{num_ids} {num_ids}\n");
    for left in 0..num_ids {
        for right in 0..num_ids {
            let cost = if left == 20 && right == 30 {
                500 // heavy penalty: 京→は
            } else {
                0
            };
            text.push_str(&format!("{cost}\n"));
        }
    }
    let conn = ConnectionMatrix::from_text(&text).unwrap();

    // With connection costs: "京"(4900) + conn(20→30=500) = 5400
    //                        "今日"(5000) + conn(10→30=0) = 5000
    // "今日" should now win
    let result_bigram = convert(&dict, Some(&conn), "きょうは");
    assert_eq!(result_bigram[0].surface, "今日");
    assert_eq!(result_bigram[1].surface, "は");
}

#[test]
fn viterbi_test_viterbi_tiebreak_deterministic() {
    let entries = vec![(
        "あ".to_string(),
        vec![
            DictEntry {
                surface: "亜".to_string(),
                cost: 5000,
                left_id: 0,
                right_id: 0,
            },
            DictEntry {
                surface: "阿".to_string(),
                cost: 5000,
                left_id: 0,
                right_id: 0,
            },
        ],
    )];
    let dict = TrieDictionary::from_entries(entries);
    let first = convert(&dict, None, "あ");
    assert_eq!(first.len(), 1);
    for _ in 0..10 {
        let result = convert(&dict, None, "あ");
        assert_eq!(
            result[0].surface, first[0].surface,
            "Viterbi tie-breaking must be deterministic"
        );
    }
}

#[test]
fn viterbi_test_nbest_returns_multiple_paths() {
    let dict = test_dict();
    // "きょう" has two entries: 今日(3000) and 京(5000)
    let results = convert_nbest(&dict, None, "きょう", 5);

    assert!(results.len() >= 2, "should return at least 2 paths");
    // 1-best should be 今日
    assert_eq!(results[0][0].surface, "今日");
    // 2nd best should be 京
    assert_eq!(results[1][0].surface, "京");
}

#[test]
fn viterbi_test_nbest_first_matches_1best() {
    let dict = test_dict();
    let best = convert(&dict, None, "きょうはいいてんき");
    let nbest = convert_nbest(&dict, None, "きょうはいいてんき", 5);

    assert!(!nbest.is_empty());
    let best_surfaces: Vec<&str> = best.iter().map(|s| s.surface.as_str()).collect();
    let nbest_surfaces: Vec<&str> = nbest[0].iter().map(|s| s.surface.as_str()).collect();
    assert_eq!(best_surfaces, nbest_surfaces, "1-best must match convert()");
}

#[test]
fn viterbi_test_nbest_deduplicates_surfaces() {
    let dict = test_dict();
    let results = convert_nbest(&dict, None, "きょうは", 10);

    let surface_strings: Vec<String> = results
        .iter()
        .map(|path| path.iter().map(|s| s.surface.as_str()).collect::<String>())
        .collect();
    let unique: std::collections::HashSet<&String> = surface_strings.iter().collect();
    assert_eq!(
        surface_strings.len(),
        unique.len(),
        "N-best should not contain duplicate surface strings"
    );
}

#[test]
fn viterbi_test_nbest_empty_input() {
    let dict = test_dict();
    let results = convert_nbest(&dict, None, "", 5);
    assert!(results.is_empty());
}

#[test]
fn viterbi_test_nbest_n_zero() {
    let dict = test_dict();
    let results = convert_nbest(&dict, None, "きょう", 0);
    assert!(results.is_empty());
}

#[test]
fn viterbi_test_nbest_n_one_matches_1best() {
    let dict = test_dict();
    let best = convert(&dict, None, "きょうはいいてんき");
    let nbest = convert_nbest(&dict, None, "きょうはいいてんき", 1);

    // n=1 Viterbi candidate + 1 katakana rewriter candidate
    assert!(nbest.len() >= 1);
    let best_surfaces: Vec<&str> = best.iter().map(|s| s.surface.as_str()).collect();
    let nbest_surfaces: Vec<&str> = nbest[0].iter().map(|s| s.surface.as_str()).collect();
    assert_eq!(best_surfaces, nbest_surfaces);
}

#[test]
fn viterbi_test_nbest_includes_katakana_candidate() {
    let dict = test_dict();
    let results = convert_nbest(&dict, None, "きょう", 10);

    let surfaces: Vec<String> = results
        .iter()
        .map(|path| path.iter().map(|s| s.surface.as_str()).collect::<String>())
        .collect();
    assert!(
        surfaces.contains(&"キョウ".to_string()),
        "N-best should include katakana candidate, got: {:?}",
        surfaces
    );
}

#[test]
fn viterbi_test_nbest_sorted_by_cost() {
    // Verify N-best paths are returned in ascending cost order
    let dict = test_dict();
    let cost_fn = DefaultCostFunction::new(None);
    let lattice = build_lattice(&dict, "きょうは");
    let results = viterbi_nbest(&lattice, &cost_fn, 10);

    // We can't directly check costs from the public API, but we can verify
    // the best path is first (already tested above). For additional confidence,
    // ensure at least 2 results with different segmentations.
    assert!(results.len() >= 2);
    // Different segmentations should exist (e.g., 今日+は vs 京+は vs き+ょ+う+は)
    let first: String = results[0].segments.iter().map(|s| &*s.surface).collect();
    let second: String = results[1].segments.iter().map(|s| &*s.surface).collect();
    assert_ne!(first, second);
}

#[test]
fn test_group_segments_basic() {
    // content(100) + func(200) + content(300) → 2 segments
    let conn = zero_conn_with_fw(301, 200, 200);
    let mut segs = vec![
        rich("きょう", "今日", 100),
        rich("は", "は", 200),
        rich("いい", "良い", 300),
    ];
    group_segments(&mut segs, &conn);
    assert_eq!(segs.len(), 2);
    assert_eq!(segs[0].reading, "きょうは");
    assert_eq!(segs[0].surface, "今日は");
    assert_eq!(segs[0].left_id, 100);
    assert_eq!(segs[0].right_id, 200);
    assert_eq!(segs[1].reading, "いい");
    assert_eq!(segs[1].surface, "良い");
}

#[test]
fn test_group_segments_leading_func() {
    // Leading function word stays standalone
    let conn = zero_conn_with_fw(301, 200, 200);
    let mut segs = vec![rich("は", "は", 200), rich("きょう", "今日", 100)];
    group_segments(&mut segs, &conn);
    assert_eq!(segs.len(), 2);
    assert_eq!(segs[0].surface, "は");
    assert_eq!(segs[1].surface, "今日");
}

#[test]
fn test_group_segments_consecutive_func() {
    // content + func + func → all merged into one segment
    let conn = zero_conn_with_fw(301, 200, 210);
    let mut segs = vec![
        rich("たべ", "食べ", 100),
        rich("て", "て", 200),
        rich("は", "は", 210),
    ];
    group_segments(&mut segs, &conn);
    assert_eq!(segs.len(), 1);
    assert_eq!(segs[0].reading, "たべては");
    assert_eq!(segs[0].surface, "食べては");
    assert_eq!(segs[0].left_id, 100);
    assert_eq!(segs[0].right_id, 210);
}

#[test]
fn test_group_segments_all_content() {
    // All content words → no grouping
    let conn = zero_conn_with_fw(301, 200, 200);
    let mut segs = vec![rich("きょう", "今日", 100), rich("いい", "良い", 300)];
    group_segments(&mut segs, &conn);
    assert_eq!(segs.len(), 2);
}

#[test]
fn test_group_segments_single_and_empty() {
    let conn = zero_conn_with_fw(301, 200, 200);

    let mut single = vec![rich("きょう", "今日", 100)];
    group_segments(&mut single, &conn);
    assert_eq!(single.len(), 1);

    let mut empty: Vec<RichSegment> = vec![];
    group_segments(&mut empty, &conn);
    assert!(empty.is_empty());
}

#[test]
fn test_group_segments_suffix() {
    // CW(0) + Suffix(1) → merged into one segment "田中さん"
    // roles: 0=CW, 1=Suffix
    let mut roles = vec![0u8; 5];
    roles[1] = 2; // suffix
    let conn = zero_conn_with_roles(5, roles);
    let mut segs = vec![rich("たなか", "田中", 0), rich("さん", "さん", 1)];
    group_segments(&mut segs, &conn);
    assert_eq!(segs.len(), 1);
    assert_eq!(segs[0].surface, "田中さん");
    assert_eq!(segs[0].reading, "たなかさん");
}

#[test]
fn test_group_segments_prefix() {
    // Prefix(2) + CW(0) → merged into one segment "お茶"
    // roles: 0=CW, 2=Prefix
    let mut roles = vec![0u8; 5];
    roles[2] = 3; // prefix
    let conn = zero_conn_with_roles(5, roles);
    let mut segs = vec![rich("お", "お", 2), rich("ちゃ", "茶", 0)];
    group_segments(&mut segs, &conn);
    assert_eq!(segs.len(), 1);
    assert_eq!(segs[0].surface, "お茶");
    assert_eq!(segs[0].reading, "おちゃ");
}

#[test]
fn test_group_segments_prefix_cw_suffix() {
    // Prefix(3) + CW(0) + Suffix(2) → all merged into one segment
    let mut roles = vec![0u8; 5];
    roles[2] = 2; // suffix
    roles[3] = 3; // prefix
    let conn = zero_conn_with_roles(5, roles);
    let mut segs = vec![
        rich("お", "お", 3),
        rich("ちゃ", "茶", 0),
        rich("さん", "さん", 2),
    ];
    group_segments(&mut segs, &conn);
    assert_eq!(segs.len(), 1);
    assert_eq!(segs[0].surface, "お茶さん");
    assert_eq!(segs[0].reading, "おちゃさん");
}

#[test]
fn test_group_segments_cw_suffix_fw() {
    // CW(0) + Suffix(2) + FW(1) → all merged
    // Need both fw_range (for id=1) and roles (for suffix id=2)
    let text = "5 5\n".to_owned() + &"0\n".repeat(25);
    let mut roles = vec![0u8; 5];
    roles[2] = 2; // suffix
    let conn = ConnectionMatrix::from_text_with_roles(&text, 1, 1, roles).unwrap();
    let mut segs = vec![
        rich("たなか", "田中", 0),
        rich("さん", "さん", 2),
        rich("は", "は", 1),
    ];
    group_segments(&mut segs, &conn);
    assert_eq!(segs.len(), 1);
    assert_eq!(segs[0].surface, "田中さんは");
    assert_eq!(segs[0].reading, "たなかさんは");
}

#[test]
fn test_group_segments_leading_suffix() {
    // Leading suffix with no preceding CW stays standalone
    let mut roles = vec![0u8; 5];
    roles[1] = 2; // suffix
    let conn = zero_conn_with_roles(5, roles);
    let mut segs = vec![rich("さん", "さん", 1), rich("たなか", "田中", 0)];
    group_segments(&mut segs, &conn);
    assert_eq!(segs.len(), 2);
    assert_eq!(segs[0].surface, "さん");
    assert_eq!(segs[1].surface, "田中");
}

#[test]
fn test_convert_groups_with_conn() {
    // Integration test: convert with a conn that has fw_range covering は(id=200)
    let dict = test_dict();
    let conn = zero_conn_with_fw(1200, 200, 200);
    let result = convert(&dict, Some(&conn), "きょうは");
    // "今日" + "は" should be grouped into one segment "今日は"
    assert_eq!(result.len(), 1);
    assert_eq!(result[0].surface, "今日は");
    assert_eq!(result[0].reading, "きょうは");
}

#[test]
fn test_empty_constraint_matches_unconstrained() {
    let dict = test_dict();
    let kana = "きょうは";

    // Unconstrained
    let unconstrained = convert_nbest(&dict, None, kana, 5);

    // Empty constraint (no confirmed segments)
    let constraint = PrefixConstraint::from_confirmed(&[]);
    let cost_fn = PrefixConstrainedCost::new(None, &constraint);
    let lattice = build_lattice(&dict, kana);
    let constrained = viterbi_nbest(&lattice, &cost_fn, 15);

    // First result should match
    assert_eq!(
        unconstrained[0]
            .iter()
            .map(|s| &s.surface)
            .collect::<Vec<_>>(),
        constrained[0]
            .segments
            .iter()
            .map(|s| &s.surface)
            .collect::<Vec<_>>(),
    );
}

#[test]
fn test_full_constraint_returns_original() {
    let dict = test_dict();
    let kana = "きょうは";

    // Get raw 1-best (no grouping)
    let cost_fn = DefaultCostFunction::new(None);
    let lattice = build_lattice(&dict, kana);
    let raw_paths = viterbi_nbest(&lattice, &cost_fn, 1);
    assert!(!raw_paths.is_empty());
    let first_raw = to_segments(&raw_paths[0]);

    // Constrain all segments
    let constraint = PrefixConstraint::from_confirmed(&first_raw);
    let constrained_cost = PrefixConstrainedCost::new(None, &constraint);
    let lattice2 = build_lattice(&dict, kana);
    let constrained = viterbi_nbest(&lattice2, &constrained_cost, 5);

    // First result should have the same segments as the constrained prefix
    assert!(!constrained.is_empty());
    let result_surfaces: Vec<&str> = constrained[0]
        .segments
        .iter()
        .map(|s| s.surface.as_str())
        .collect();
    let expected_surfaces: Vec<&str> = first_raw.iter().map(|s| s.surface.as_str()).collect();
    assert_eq!(result_surfaces, expected_surfaces);
}

#[test]
fn test_partial_constraint_fixes_prefix() {
    let dict = test_dict();
    let kana = "きょうはいいてんき";

    // Get raw 1-best (no grouping) to use as constraint source
    let cost_fn = DefaultCostFunction::new(None);
    let lattice = build_lattice(&dict, kana);
    let raw_paths = viterbi_nbest(&lattice, &cost_fn, 5);
    assert!(!raw_paths.is_empty());
    let first_raw = &raw_paths[0];

    // Constrain first 2 segments
    let confirmed: Vec<ConvertedSegment> = first_raw
        .segments
        .iter()
        .take(2)
        .map(|s| ConvertedSegment {
            reading: s.reading.clone(),
            surface: s.surface.clone(),
        })
        .collect();
    let constraint = PrefixConstraint::from_confirmed(&confirmed);
    let cost_fn = PrefixConstrainedCost::new(None, &constraint);
    let lattice2 = build_lattice(&dict, kana);
    let constrained = viterbi_nbest(&lattice2, &cost_fn, 10);

    // Valid results (non-violated paths) should have the prefix matching
    let prefix_char_len: usize = confirmed.iter().map(|s| s.reading.chars().count()).sum();

    // Only check paths with reasonable cost (not constraint-violated)
    let valid_paths: Vec<_> = constrained
        .iter()
        .filter(|p| p.viterbi_cost < CONSTRAINT_VIOLATION_COST / 2)
        .collect();
    assert!(
        !valid_paths.is_empty(),
        "should have at least one valid path"
    );

    for path in &valid_paths {
        let segs = to_segments(path);
        let mut chars = 0;
        let mut prefix_surfaces = Vec::new();
        for seg in &segs {
            if chars >= prefix_char_len {
                break;
            }
            prefix_surfaces.push(seg.surface.as_str());
            chars += seg.reading.chars().count();
        }
        let result_prefix: String = prefix_surfaces.join("");
        let expected_prefix: String = confirmed.iter().map(|s| s.surface.as_str()).collect();
        assert_eq!(
            result_prefix, expected_prefix,
            "prefix segments should match constraint"
        );
    }
}

#[test]
fn test_boundary_spanning_node_rejected() {
    // A node that starts in prefix and ends after should be rejected
    let constraint = PrefixConstraint {
        segments: vec![(0, 2, "きょ".to_string(), "虚".to_string())],
        prefix_char_end: 2,
    };

    // Node spanning boundary: starts at 1, ends at 3
    let boundary_node = LatticeNode {
        start: 1,
        end: 3,
        reading: "ょう".to_string(),
        surface: "陽".to_string(),
        cost: 1000,
        left_id: 0,
        right_id: 0,
    };

    let cost_fn = PrefixConstrainedCost::new(None, &constraint);
    assert_eq!(cost_fn.word_cost(&boundary_node), CONSTRAINT_VIOLATION_COST);
}

#[test]
fn test_prefix_constraint_from_confirmed() {
    let confirmed = vec![
        ConvertedSegment {
            reading: "きょう".to_string(),
            surface: "今日".to_string(),
        },
        ConvertedSegment {
            reading: "は".to_string(),
            surface: "は".to_string(),
        },
    ];
    let constraint = PrefixConstraint::from_confirmed(&confirmed);

    assert_eq!(constraint.prefix_char_end, 4); // きょう(3) + は(1)
    assert_eq!(constraint.segments.len(), 2);
    assert_eq!(
        constraint.segments[0],
        (0, 3, "きょう".to_string(), "今日".to_string())
    );
    assert_eq!(
        constraint.segments[1],
        (3, 4, "は".to_string(), "は".to_string())
    );
}

#[test]
fn test_explain_basic() {
    let dict = test_dict();
    let result = explain(&dict, None, None, "きょう", 5);

    assert_eq!(result.reading, "きょう");
    assert!(!result.lattice_nodes.is_empty());
    assert!(!result.paths.is_empty());

    // Best path should have "今日" (lowest cost in test dict)
    let best = &result.paths[0];
    assert!(!best.segments.is_empty());
}

#[test]
fn test_explain_empty_reading() {
    let dict = test_dict();
    let result = explain(&dict, None, None, "", 5);

    assert!(result.lattice_nodes.is_empty());
    assert!(result.paths.is_empty());
}

#[test]
fn test_explain_with_history() {
    let dict = test_dict();
    let mut h = UserHistory::new();
    h.record(&[("きょう".into(), "京".into())]);

    let without = explain(&dict, None, None, "きょう", 5);
    let with = explain(&dict, None, Some(&h), "きょう", 5);

    // With history, the boosted entry should have different final cost
    let without_kyou = without.paths.iter().find(|p| p.surface() == "京");
    let with_kyou = with.paths.iter().find(|p| p.surface() == "京");

    if let (Some(w), Some(wh)) = (without_kyou, with_kyou) {
        assert!(
            wh.history_boost > 0,
            "history boost should be positive for learned entry"
        );
        assert!(
            wh.final_cost < w.final_cost,
            "final cost should be lower with history boost"
        );
    }
}

#[test]
fn test_explain_paths_sorted_by_final_cost() {
    let dict = test_dict();
    let result = explain(&dict, None, None, "きょう", 10);

    for window in result.paths.windows(2) {
        assert!(
            window[0].final_cost <= window[1].final_cost,
            "paths should be sorted by final_cost"
        );
    }
}

#[test]
fn test_explain_segment_costs_are_populated() {
    let dict = test_dict();
    let result = explain(&dict, None, None, "きょう", 5);

    for path in &result.paths {
        for seg in &path.segments {
            // segment_penalty should be SEGMENT_PENALTY
            assert_eq!(seg.segment_penalty, SEGMENT_PENALTY);
        }
    }
}

#[test]
fn test_rerank_penalizes_fragmented_path() {
    // Build a connection matrix where transitions cost 100 each
    let num_ids = 3;
    let mut text = format!("{num_ids} {num_ids}\n");
    for _ in 0..(num_ids * num_ids) {
        text.push_str("100\n");
    }
    let conn = ConnectionMatrix::from_text(&text).unwrap();

    let mut paths = vec![
        // Fragmented path: 3 segments → 2 transitions × 100 = 200 structure cost
        // Penalty: 200 / 4 = 50
        ScoredPath {
            segments: vec![
                RichSegment {
                    reading: "き".into(),
                    surface: "木".into(),
                    left_id: 1,
                    right_id: 1,
                    word_cost: 0,
                },
                RichSegment {
                    reading: "の".into(),
                    surface: "の".into(),
                    left_id: 1,
                    right_id: 1,
                    word_cost: 0,
                },
                RichSegment {
                    reading: "は".into(),
                    surface: "葉".into(),
                    left_id: 1,
                    right_id: 1,
                    word_cost: 0,
                },
            ],
            viterbi_cost: 1000,
        },
        // Single segment path: 0 transitions → 0 structure cost
        ScoredPath {
            segments: vec![RichSegment {
                reading: "きのは".into(),
                surface: "木の葉".into(),
                left_id: 1,
                right_id: 1,
                word_cost: 0,
            }],
            viterbi_cost: 1040,
        },
    ];

    rerank(&mut paths, Some(&conn));

    // Fragmented: 1000 + 50 = 1050 > Single: 1040 + 0 = 1040
    assert_eq!(paths[0].segments[0].surface, "木の葉");
}

#[test]
fn test_rerank_no_conn_no_structure_penalty() {
    let mut paths = vec![
        ScoredPath {
            segments: vec![
                RichSegment {
                    reading: "き".into(),
                    surface: "木".into(),
                    left_id: 1,
                    right_id: 1,
                    word_cost: 0,
                },
                RichSegment {
                    reading: "の".into(),
                    surface: "の".into(),
                    left_id: 1,
                    right_id: 1,
                    word_cost: 0,
                },
            ],
            viterbi_cost: 1000,
        },
        ScoredPath {
            segments: vec![RichSegment {
                reading: "きの".into(),
                surface: "木の".into(),
                left_id: 1,
                right_id: 1,
                word_cost: 0,
            }],
            viterbi_cost: 2000,
        },
    ];

    // Without conn, structure cost is 0; "木の" gets script_cost -3000
    // (mixed kanji+kana bonus) so it reranks to first.
    rerank(&mut paths, None);
    assert_eq!(paths[0].segments[0].surface, "木の");
    assert_eq!(paths[0].viterbi_cost, 2000 - 3000);
}

#[test]
fn test_rerank_single_path_noop() {
    let mut paths = vec![ScoredPath {
        segments: vec![RichSegment {
            reading: "あ".into(),
            surface: "亜".into(),
            left_id: 0,
            right_id: 0,
            word_cost: 0,
        }],
        viterbi_cost: 1000,
    }];

    rerank(&mut paths, None);
    assert_eq!(paths.len(), 1);
    assert_eq!(paths[0].segments[0].surface, "亜");
}

#[test]
fn test_rerank_empty_noop() {
    let mut paths: Vec<ScoredPath> = Vec::new();
    rerank(&mut paths, None);
    assert!(paths.is_empty());
}

#[test]
fn test_rerank_penalizes_uneven_segments() {
    // Uneven split: で(1) | 来たり(3) — variance penalty should apply
    // Even split:   出来(2) | たり(2) — no variance penalty
    let mut paths = vec![
        // Uneven: readings 1 + 3 chars → mean=2, sum_sq_dev=2×(1+1)=4 (via formula: N*Σl²-S² = 2*10-16=4)
        // penalty = 4 * 2000 / 4 = 2000
        ScoredPath {
            segments: vec![
                RichSegment {
                    reading: "で".into(),
                    surface: "で".into(),
                    left_id: 0,
                    right_id: 0,
                    word_cost: 0,
                },
                RichSegment {
                    reading: "きたり".into(),
                    surface: "来たり".into(),
                    left_id: 0,
                    right_id: 0,
                    word_cost: 0,
                },
            ],
            viterbi_cost: 5000,
        },
        // Even: readings 2 + 2 chars → sum_sq_dev=0, penalty=0
        ScoredPath {
            segments: vec![
                RichSegment {
                    reading: "でき".into(),
                    surface: "出来".into(),
                    left_id: 0,
                    right_id: 0,
                    word_cost: 0,
                },
                RichSegment {
                    reading: "たり".into(),
                    surface: "たり".into(),
                    left_id: 0,
                    right_id: 0,
                    word_cost: 0,
                },
            ],
            viterbi_cost: 6500,
        },
    ];

    rerank(&mut paths, None);

    // script_cost: "来たり" is mixed (kanji+kana) → -3000; "出来" is pure kanji → 0
    // Uneven: 5000 + variance(2000) + script("で"=0 + "来たり"=-3000) = 4000
    // Even:   6500 + variance(0)    + script("出来"=0 + "たり"=0)     = 6500
    // Uneven path wins due to mixed-script bonus on "来たり"
    assert_eq!(paths[0].segments[0].surface, "で");
    assert_eq!(paths[0].viterbi_cost, 4000);
    assert_eq!(paths[1].segments[0].surface, "出来");
    assert_eq!(paths[1].viterbi_cost, 6500);
}

#[test]
fn test_rerank_applies_script_cost() {
    // Katakana surface should receive +5000 penalty from script_cost
    let mut paths = vec![
        // Katakana path: タラ (katakana) → +5000 script penalty
        ScoredPath {
            segments: vec![RichSegment {
                reading: "たら".into(),
                surface: "タラ".into(),
                left_id: 0,
                right_id: 0,
                word_cost: 0,
            }],
            viterbi_cost: 3000,
        },
        // Hiragana path: たら (no script penalty)
        ScoredPath {
            segments: vec![RichSegment {
                reading: "たら".into(),
                surface: "たら".into(),
                left_id: 0,
                right_id: 0,
                word_cost: 0,
            }],
            viterbi_cost: 7000,
        },
    ];

    rerank(&mut paths, None);

    // Katakana: 3000 + 5000 = 8000
    // Hiragana: 7000 + 0    = 7000
    // Hiragana should be ranked first
    assert_eq!(paths[0].segments[0].surface, "たら");
    assert_eq!(paths[0].viterbi_cost, 7000);
    assert_eq!(paths[1].segments[0].surface, "タラ");
    assert_eq!(paths[1].viterbi_cost, 8000);
}

#[test]
fn test_history_rerank_unigram_boost_reorders() {
    let mut h = UserHistory::new();
    // Record twice to get 6000 boost (BOOST_PER_USE=3000 × 2), enough to
    // overcome the 2000 cost gap (5000 - 3000).
    h.record(&[("きょう".into(), "京".into())]);
    h.record(&[("きょう".into(), "京".into())]);

    let mut paths = vec![
        ScoredPath {
            segments: vec![RichSegment {
                reading: "きょう".into(),
                surface: "今日".into(),
                left_id: 0,
                right_id: 0,
                word_cost: 0,
            }],
            viterbi_cost: 3000,
        },
        ScoredPath {
            segments: vec![RichSegment {
                reading: "きょう".into(),
                surface: "京".into(),
                left_id: 0,
                right_id: 0,
                word_cost: 0,
            }],
            viterbi_cost: 5000,
        },
    ];

    history_rerank(&mut paths, &h);

    // "京" should be boosted to first place
    assert_eq!(paths[0].segments[0].surface, "京");
}

#[test]
fn test_history_rerank_bigram_boost() {
    let mut h = UserHistory::new();
    h.record(&[("きょう".into(), "今日".into()), ("は".into(), "は".into())]);

    let mut paths = vec![
        // Path without bigram match
        ScoredPath {
            segments: vec![
                RichSegment {
                    reading: "きょう".into(),
                    surface: "京".into(),
                    left_id: 0,
                    right_id: 0,
                    word_cost: 0,
                },
                RichSegment {
                    reading: "は".into(),
                    surface: "は".into(),
                    left_id: 0,
                    right_id: 0,
                    word_cost: 0,
                },
            ],
            viterbi_cost: 5000,
        },
        // Path with bigram match: "今日" → "は"
        ScoredPath {
            segments: vec![
                RichSegment {
                    reading: "きょう".into(),
                    surface: "今日".into(),
                    left_id: 0,
                    right_id: 0,
                    word_cost: 0,
                },
                RichSegment {
                    reading: "は".into(),
                    surface: "は".into(),
                    left_id: 0,
                    right_id: 0,
                    word_cost: 0,
                },
            ],
            viterbi_cost: 7000,
        },
    ];

    history_rerank(&mut paths, &h);

    // "今日は" path should be boosted (both unigram + bigram) to first
    assert_eq!(paths[0].segments[0].surface, "今日");
}

#[test]
fn test_history_rerank_empty_history_preserves_order() {
    let h = UserHistory::new();

    let mut paths = vec![
        ScoredPath {
            segments: vec![RichSegment {
                reading: "あ".into(),
                surface: "亜".into(),
                left_id: 0,
                right_id: 0,
                word_cost: 0,
            }],
            viterbi_cost: 1000,
        },
        ScoredPath {
            segments: vec![RichSegment {
                reading: "あ".into(),
                surface: "阿".into(),
                left_id: 0,
                right_id: 0,
                word_cost: 0,
            }],
            viterbi_cost: 2000,
        },
    ];

    history_rerank(&mut paths, &h);

    assert_eq!(paths[0].segments[0].surface, "亜");
    assert_eq!(paths[0].viterbi_cost, 1000);
    assert_eq!(paths[1].segments[0].surface, "阿");
    assert_eq!(paths[1].viterbi_cost, 2000);
}

#[test]
fn test_history_rerank_empty_paths() {
    let h = UserHistory::new();
    let mut paths: Vec<ScoredPath> = Vec::new();
    history_rerank(&mut paths, &h);
    assert!(paths.is_empty());
}

#[test]
fn test_filter_drops_fragmented_paths() {
    // Transition cost = 1500 each.
    // Path A: 1 segment → 0 transitions → structure_cost = 0
    // Path B: 2 segments → 1 transition → structure_cost = 1500
    // Path C: 5 segments → 4 transitions → structure_cost = 6000
    // min_sc = 0, threshold = 0 + 4000 = 4000
    // Path C (6000 > 4000) should be dropped; A and B should remain.
    let conn = uniform_conn(1500);

    let mut paths = vec![
        ScoredPath {
            segments: vec![RichSegment {
                reading: "あいうえお".into(),
                surface: "合言葉".into(),
                left_id: 1,
                right_id: 1,
                word_cost: 0,
            }],
            viterbi_cost: 5000,
        },
        ScoredPath {
            segments: vec![
                RichSegment {
                    reading: "あい".into(),
                    surface: "愛".into(),
                    left_id: 1,
                    right_id: 1,
                    word_cost: 0,
                },
                RichSegment {
                    reading: "うえお".into(),
                    surface: "上尾".into(),
                    left_id: 1,
                    right_id: 1,
                    word_cost: 0,
                },
            ],
            viterbi_cost: 4000,
        },
        ScoredPath {
            segments: vec![
                RichSegment {
                    reading: "あ".into(),
                    surface: "亜".into(),
                    left_id: 1,
                    right_id: 1,
                    word_cost: 0,
                },
                RichSegment {
                    reading: "い".into(),
                    surface: "位".into(),
                    left_id: 1,
                    right_id: 1,
                    word_cost: 0,
                },
                RichSegment {
                    reading: "う".into(),
                    surface: "鵜".into(),
                    left_id: 1,
                    right_id: 1,
                    word_cost: 0,
                },
                RichSegment {
                    reading: "え".into(),
                    surface: "絵".into(),
                    left_id: 1,
                    right_id: 1,
                    word_cost: 0,
                },
                RichSegment {
                    reading: "お".into(),
                    surface: "尾".into(),
                    left_id: 1,
                    right_id: 1,
                    word_cost: 0,
                },
            ],
            viterbi_cost: 3000,
        },
    ];

    rerank(&mut paths, Some(&conn));

    // Path C should have been filtered out
    assert_eq!(paths.len(), 2);
    // Verify the fragmented 5-segment path is gone
    assert!(paths.iter().all(|p| p.segments.len() <= 2));
}

#[test]
fn test_filter_keeps_all_when_all_exceed() {
    // All paths have high structure_cost; none should be dropped.
    // Transition cost = 2000. All paths have 4 segments → 3 transitions → sc = 6000.
    // min_sc = 6000, threshold = 6000 + 4000 = 10000.
    // All paths have sc = 6000 ≤ 10000, so all pass.
    // But to truly test the "all exceed" safety, we need a scenario where
    // min_sc itself is above the threshold relative to... Actually the safety
    // is: if ALL paths have sc > threshold, keep all. Let's just verify
    // that when all paths are equally fragmented, none are dropped.
    let conn = uniform_conn(2000);

    let seg = |r: &str, s: &str| RichSegment {
        reading: r.into(),
        surface: s.into(),
        left_id: 1,
        right_id: 1,
        word_cost: 0,
    };

    let mut paths = vec![
        ScoredPath {
            segments: vec![
                seg("あ", "亜"),
                seg("い", "位"),
                seg("う", "鵜"),
                seg("え", "絵"),
            ],
            viterbi_cost: 3000,
        },
        ScoredPath {
            segments: vec![
                seg("あ", "阿"),
                seg("い", "胃"),
                seg("う", "卯"),
                seg("え", "江"),
            ],
            viterbi_cost: 4000,
        },
    ];

    rerank(&mut paths, Some(&conn));

    // Both have identical structure_cost, so neither is filtered
    assert_eq!(paths.len(), 2);
}

#[test]
fn test_filter_preserves_minimum_path() {
    // The path with minimum structure_cost must always survive the filter.
    // Path A: 1 segment → sc = 0 (minimum)
    // Path B: 4 segments → sc = 4500 (3 × 1500); 4500 > 0 + 4000 → filtered
    let conn = uniform_conn(1500);

    let mut paths = vec![
        ScoredPath {
            segments: vec![
                RichSegment {
                    reading: "あ".into(),
                    surface: "亜".into(),
                    left_id: 1,
                    right_id: 1,
                    word_cost: 0,
                },
                RichSegment {
                    reading: "い".into(),
                    surface: "位".into(),
                    left_id: 1,
                    right_id: 1,
                    word_cost: 0,
                },
                RichSegment {
                    reading: "う".into(),
                    surface: "鵜".into(),
                    left_id: 1,
                    right_id: 1,
                    word_cost: 0,
                },
                RichSegment {
                    reading: "え".into(),
                    surface: "絵".into(),
                    left_id: 1,
                    right_id: 1,
                    word_cost: 0,
                },
            ],
            viterbi_cost: 1000,
        },
        ScoredPath {
            segments: vec![RichSegment {
                reading: "あいうえ".into(),
                surface: "合言葉".into(),
                left_id: 1,
                right_id: 1,
                word_cost: 0,
            }],
            viterbi_cost: 5000,
        },
    ];

    rerank(&mut paths, Some(&conn));

    // Only the single-segment path (sc=0) should survive
    assert_eq!(paths.len(), 1);
    assert_eq!(paths[0].segments[0].surface, "合言葉");
}

#[test]
fn test_katakana_rewriter_adds_candidate() {
    let rw = KatakanaRewriter;
    let mut paths = vec![ScoredPath {
        segments: vec![RichSegment {
            reading: "きょう".into(),
            surface: "今日".into(),
            left_id: 10,
            right_id: 10,
            word_cost: 0,
        }],
        viterbi_cost: 3000,
    }];

    rw.rewrite(&mut paths, "きょう");

    assert_eq!(paths.len(), 2);
    assert_eq!(paths[1].surface_key(), "キョウ");
    assert_eq!(paths[1].viterbi_cost, 3000 + 10000);
}

#[test]
fn test_katakana_rewriter_skips_duplicate() {
    let rw = KatakanaRewriter;
    let mut paths = vec![ScoredPath {
        segments: vec![RichSegment {
            reading: "きょう".into(),
            surface: "キョウ".into(),
            left_id: 0,
            right_id: 0,
            word_cost: 0,
        }],
        viterbi_cost: 5000,
    }];

    rw.rewrite(&mut paths, "きょう");

    assert_eq!(
        paths.len(),
        1,
        "should not add duplicate katakana candidate"
    );
}

#[test]
fn test_katakana_rewriter_empty_paths() {
    let rw = KatakanaRewriter;
    let mut paths: Vec<ScoredPath> = Vec::new();

    rw.rewrite(&mut paths, "てすと");

    assert_eq!(paths.len(), 1);
    assert_eq!(paths[0].surface_key(), "テスト");
    assert_eq!(paths[0].viterbi_cost, 10000);
}

#[test]
fn test_run_rewriters_applies_all() {
    let rw = KatakanaRewriter;
    let rewriters: Vec<&dyn Rewriter> = vec![&rw];
    let mut paths = vec![ScoredPath {
        segments: vec![RichSegment {
            reading: "あ".into(),
            surface: "亜".into(),
            left_id: 0,
            right_id: 0,
            word_cost: 0,
        }],
        viterbi_cost: 1000,
    }];

    run_rewriters(&rewriters, &mut paths, "あ");

    assert_eq!(paths.len(), 2);
    assert_eq!(paths[1].surface_key(), "ア");
}

#[test]
fn script_costs() {
    assert_eq!(script_cost("来たり"), -3000);
    assert_eq!(script_cost("タラ"), 5000);
    assert_eq!(script_cost("たら"), 0);
    assert_eq!(script_cost("出来"), 0);
    assert_eq!(script_cost("abc"), 20000);
    assert_eq!(script_cost(""), 0);
}

#[test]
fn conversions_read_the_input() {
    let dict = test_dict();
    for path in convert_nbest(&dict, None, "きょうはいいてんきですね", 10) {
        let reading: String = path.iter().map(|s| s.reading.as_str()).collect();
        assert_eq!(reading, "きょうはいいてんきですね");
    }
}

#[test]
fn history_reorders_conversions() {
    let dict = test_dict();
    let mut h = UserHistory::new();
    assert_eq!(convert_with_history(&dict, None, &h, "きょう")[0].surface, "今日");
    h.record(&[("きょう".into(), "京".into())]);
    h.record(&[("きょう".into(), "京".into())]);
    assert_eq!(convert_with_history(&dict, None, &h, "きょう")[0].surface, "京");
    let nbest = convert_nbest_with_history(&dict, None, &h, "きょう", 5);
    assert_eq!(nbest[0][0].surface, "京");
    assert_eq!(nbest[1][0].surface, "今日");
}

#[test]
fn snapshots_tell_what_changed() {
    let dict = test_dict();
    let base = run_snapshot(&dict, None, None, "きょう", 3);
    assert_eq!(base.reading, "きょう");
    assert_eq!(base.results[0].rank, 0);
    assert_eq!(base.results[0].surface, "今日");
    let baseline = Baseline::new(vec![base]);
    let again = run_snapshot(&dict, None, None, "きょう", 3);
    assert_eq!(baseline.compare(&again), Change::Unchanged);
    let fewer = run_snapshot(&dict, None, None, "きょう", 1);
    assert_eq!(baseline.compare(&fewer), Change::Changed);
    let other = run_snapshot(&dict, None, None, "は", 1);
    assert_eq!(baseline.compare(&other), Change::New);
    assert!(baseline.get("は").is_none());
    assert_eq!(baseline.get("きょう").unwrap().results.len(), again.results.len());
}

#[test]
fn readings_are_read_line_by_line() {
    assert_eq!(
        read_readings(" きょう \n\n# remark\nは\r\n\u{3000}\nいい"),
        vec!["きょう", "は", "いい"]
    );
}

#[test]
fn segments_are_shown_on_a_line() {
    let dict = test_dict();
    let line = show_segments(&convert(&dict, None, "きょうは"));
    assert_eq!(line, "今日(きょう) | は(は)");
    assert_eq!(show_segments(&Vec::new()), "");
}

#[test]
fn decoding_confirms_a_trusted_draft() {
    let dict = test_dict();
    let limits = SpeculativeLimits::default();
    let mut d = Decoder::start(&dict, None, "きょうはいいてんき", limits);
    assert!(matches!(d.phase, Phase::Check));
    d.checked(&dict, None, "きょうはいいてんき", limits, None);
    assert!(matches!(d.phase, Phase::Done));
    let m = d.metadata();
    assert!(m.converged && !m.fell_back);
    assert_eq!((m.iterations, m.confirmed_counts), (1, vec![4]));
}

#[test]
fn decoding_ends_after_its_iterations() {
    let dict = test_dict();
    let limits = SpeculativeLimits::default();
    let kana = "きょうはいいてんき";
    let mut d = Decoder::start(&dict, None, kana, limits);
    let mut steps = 0;
    loop {
        steps += 1;
        assert!(steps < 20);
        if matches!(d.phase, Phase::Check) {
            d.checked(&dict, None, kana, limits, Some(1));
        } else if matches!(d.phase, Phase::Rank { .. }) {
            d.ranked(limits, 1);
        } else {
            break;
        }
    }
    assert!(d.metadata().iterations <= 3);
    assert_eq!(d.current[0].reading, "きょう");
}

#[test]
fn short_drafts_are_ranked() {
    let dict = test_dict();
    let limits = SpeculativeLimits::default();
    let mut d = Decoder::start(&dict, None, "きょう", limits);
    assert!(matches!(d.phase, Phase::Rank { fallback: true, .. }));
    d.ranked(limits, 1);
    assert!(d.metadata().fell_back);
    assert_eq!(d.current[0].surface, "京");
}

#[test]
fn recorded_words_get_a_boost() {
    let pair = |r: &str, s: &str| (r.to_string(), s.to_string());
    let mut h = UserHistory::new();
    h.record(&[pair("きょう", "今日"), pair("は", "は")]);
    assert_eq!(h.unigram_boost("きょう", "今日"), 3000);
    assert_eq!(h.bigram_boost("今日", "は", "は"), 3000);
    h.record(&[pair("きょう", "京"), pair("は", "は")]);
    assert_eq!(h.unigram_boost("は", "は"), 6000);
    assert_eq!(h.unigram_boost("きょう", "今日"), 3000);
    assert_eq!(h.bigram_boost("今日", "は", "は"), 3000);
    assert_eq!(h.bigram_boost("京", "は", "は"), 3000);
    assert_eq!(h.unigram_boost("は", "葉"), 0);
}
