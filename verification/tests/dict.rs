use lexime::dict::connection::ConnectionMatrix;
use lexime::dict::diff::diff;
use lexime::dict::merge::{filter_entries, merge, MergeOptions};
use lexime::dict::{can_hold, DictEntry, DictError, Dictionary, TrieDictionary};

fn sample_dict() -> TrieDictionary {
    let entries = vec![
        (
            "かん".to_string(),
            vec![
                DictEntry {
                    surface: "缶".to_string(),
                    cost: 5000,
                    left_id: 0,
                    right_id: 0,
                },
                DictEntry {
                    surface: "管".to_string(),
                    cost: 5200,
                    left_id: 0,
                    right_id: 0,
                },
            ],
        ),
        (
            "かんじ".to_string(),
            vec![
                DictEntry {
                    surface: "漢字".to_string(),
                    cost: 5100,
                    left_id: 0,
                    right_id: 0,
                },
                DictEntry {
                    surface: "感じ".to_string(),
                    cost: 5150,
                    left_id: 0,
                    right_id: 0,
                },
                DictEntry {
                    surface: "幹事".to_string(),
                    cost: 5300,
                    left_id: 0,
                    right_id: 0,
                },
            ],
        ),
        (
            "かんじょう".to_string(),
            vec![
                DictEntry {
                    surface: "感情".to_string(),
                    cost: 5000,
                    left_id: 0,
                    right_id: 0,
                },
                DictEntry {
                    surface: "勘定".to_string(),
                    cost: 5400,
                    left_id: 0,
                    right_id: 0,
                },
            ],
        ),
        (
            "き".to_string(),
            vec![DictEntry {
                surface: "木".to_string(),
                cost: 4000,
                left_id: 0,
                right_id: 0,
            }],
        ),
    ];
    TrieDictionary::from_entries(entries)
}

fn sample_matrix() -> ConnectionMatrix {
    let text = "3 3\n0\n10\n20\n30\n40\n50\n60\n70\n80\n";
    ConnectionMatrix::from_text(text).unwrap()
}

#[test]
fn test_lookup_exact() {
    let dict = sample_dict();
    let results = dict.lookup("かんじ").unwrap();
    assert_eq!(results.len(), 3);
    assert_eq!(results[0].surface, "漢字");
    assert_eq!(results[1].surface, "感じ");
    assert_eq!(results[2].surface, "幹事");
}

#[test]
fn test_lookup_not_found() {
    let dict = sample_dict();
    assert!(dict.lookup("そんざい").is_none());
}

#[test]
fn test_predict() {
    let dict = sample_dict();
    let results = dict.predict("かん", 100);
    assert_eq!(results.len(), 3); // かん, かんじ, かんじょう
    let readings: Vec<&str> = results.iter().map(|r| r.reading.as_str()).collect();
    assert!(readings.contains(&"かん"));
    assert!(readings.contains(&"かんじ"));
    assert!(readings.contains(&"かんじょう"));
}

#[test]
fn test_predict_max_results() {
    let dict = sample_dict();
    let results = dict.predict("かん", 2);
    assert_eq!(results.len(), 2);
}

#[test]
fn test_predict_max_results_zero() {
    let dict = sample_dict();
    let results = dict.predict("かん", 0);
    assert!(results.is_empty());
}

#[test]
fn test_predict_no_match() {
    let dict = sample_dict();
    let results = dict.predict("そ", 100);
    assert!(results.is_empty());
}

#[test]
fn test_cost_ordering() {
    let dict = sample_dict();
    let results = dict.lookup("かんじ").unwrap();
    for w in results.windows(2) {
        assert!(w[0].cost <= w[1].cost, "entries should be sorted by cost");
    }
}

#[test]
fn trie_dict_test_serialize_roundtrip() {
    let dict = sample_dict();
    let bytes = dict.to_bytes().unwrap();
    let dict2 = TrieDictionary::from_bytes(&bytes).unwrap();

    let r1 = dict.lookup("かんじ").unwrap();
    let r2 = dict2.lookup("かんじ").unwrap();
    assert_eq!(r1.len(), r2.len());
    for (a, b) in r1.iter().zip(r2.iter()) {
        assert_eq!(a.surface, b.surface);
        assert_eq!(a.cost, b.cost);
    }
}

#[test]
fn trie_dict_test_invalid_magic() {
    let result = TrieDictionary::from_bytes(b"XXXX\x02data");
    assert!(matches!(result, Err(DictError::InvalidMagic)));
}

#[test]
fn trie_dict_test_header_too_short() {
    let result = TrieDictionary::from_bytes(b"LXD");
    assert!(matches!(result, Err(DictError::InvalidHeader)));
}

#[test]
fn trie_dict_test_unsupported_version() {
    let result = TrieDictionary::from_bytes(b"LXDX\x99");
    assert!(matches!(result, Err(DictError::UnsupportedVersion(0x99))));
}

#[test]
fn test_predict_ranked_cost_order() {
    let dict = sample_dict();
    let results = dict.predict_ranked("かん", 100, 200);
    // Should be sorted by cost ascending
    for w in results.windows(2) {
        assert!(
            w[0].1.cost <= w[1].1.cost,
            "predict_ranked should be cost-ordered: {} <= {}",
            w[0].1.cost,
            w[1].1.cost,
        );
    }
}

#[test]
fn test_predict_ranked_dedup_surface() {
    // Create a dict where two different readings produce the same surface
    let entries = vec![
        (
            "かん".to_string(),
            vec![DictEntry {
                surface: "感".to_string(),
                cost: 5200,
                left_id: 0,
                right_id: 0,
            }],
        ),
        (
            "かんじ".to_string(),
            vec![DictEntry {
                surface: "感".to_string(),
                cost: 5000,
                left_id: 0,
                right_id: 0,
            }],
        ),
    ];
    let dict = TrieDictionary::from_entries(entries);
    let results = dict.predict_ranked("かん", 100, 200);
    // "感" should appear only once, with the lower cost (5000)
    let surfaces: Vec<&str> = results.iter().map(|(_, e)| e.surface.as_str()).collect();
    assert_eq!(
        surfaces.iter().filter(|&&s| s == "感").count(),
        1,
        "duplicate surface should be deduplicated"
    );
    let entry = results.iter().find(|(_, e)| e.surface == "感").unwrap();
    assert_eq!(entry.1.cost, 5000, "should keep lowest cost");
}

#[test]
fn test_predict_ranked_max_results() {
    let dict = sample_dict();
    let results = dict.predict_ranked("かん", 2, 200);
    assert_eq!(results.len(), 2);
}

#[test]
fn test_predict_ranked_no_match() {
    let dict = sample_dict();
    let results = dict.predict_ranked("そ", 100, 200);
    assert!(results.is_empty());
}

#[test]
fn test_from_text() {
    let m = sample_matrix();
    assert_eq!(m.num_ids(), 3);
    // Row 0: [0, 10, 20]
    assert_eq!(m.cost(0, 0), 0);
    assert_eq!(m.cost(0, 1), 10);
    assert_eq!(m.cost(0, 2), 20);
    // Row 1: [30, 40, 50]
    assert_eq!(m.cost(1, 0), 30);
    assert_eq!(m.cost(1, 1), 40);
    assert_eq!(m.cost(1, 2), 50);
    // Row 2: [60, 70, 80]
    assert_eq!(m.cost(2, 0), 60);
    assert_eq!(m.cost(2, 1), 70);
    assert_eq!(m.cost(2, 2), 80);
}

#[test]
fn connection_test_serialize_roundtrip() {
    let m = sample_matrix();
    let bytes = m.to_bytes();
    let m2 = ConnectionMatrix::from_bytes(&bytes).unwrap();
    assert_eq!(m2.num_ids(), m.num_ids());
    for left in 0..m.num_ids() {
        for right in 0..m.num_ids() {
            assert_eq!(m.cost(left, right), m2.cost(left, right));
        }
    }
}

#[test]
fn test_file_roundtrip() {
    let m = sample_matrix();
    let file = m.to_bytes();

    let m2 = ConnectionMatrix::from_bytes(&file).unwrap();
    assert_eq!(m2.num_ids(), 3);
    assert_eq!(m.cost(1, 2), m2.cost(1, 2));
}

#[test]
fn connection_test_invalid_magic() {
    let result = ConnectionMatrix::from_bytes(b"XXXX\x01\x03\x00");
    assert!(matches!(result, Err(DictError::InvalidMagic)));
}

#[test]
fn connection_test_header_too_short() {
    let result = ConnectionMatrix::from_bytes(b"LXC");
    assert!(matches!(result, Err(DictError::InvalidHeader)));
}

#[test]
fn connection_test_unsupported_version() {
    let result = ConnectionMatrix::from_bytes(b"LXCX\x99\x01\x00");
    assert!(matches!(result, Err(DictError::UnsupportedVersion(0x99))));
}

#[test]
fn test_negative_costs() {
    let text = "2 2\n-100\n200\n-300\n400\n";
    let m = ConnectionMatrix::from_text(text).unwrap();
    assert_eq!(m.cost(0, 0), -100);
    assert_eq!(m.cost(0, 1), 200);
    assert_eq!(m.cost(1, 0), -300);
    assert_eq!(m.cost(1, 1), 400);
}

#[test]
fn test_wrong_count() {
    let text = "2 2\n0\n10\n20\n"; // only 3 costs instead of 4
    let result = ConnectionMatrix::from_text(text);
    assert!(matches!(result, Err(DictError::Parse(_))));
}

#[test]
fn test_mecab_triplet_format() {
    // MeCab matrix.def: "right_id left_id cost"
    // Line "R L C" → cost(left=L, right=R) = C
    // Use asymmetric values to catch transpose bugs
    let text = "2 2\n0 0 10\n0 1 20\n1 0 30\n1 1 40\n";
    let m = ConnectionMatrix::from_text(text).unwrap();
    assert_eq!(m.num_ids(), 2);
    // "0 0 10" → cost(left=0, right=0) = 10
    assert_eq!(m.cost(0, 0), 10);
    // "0 1 20" → cost(left=1, right=0) = 20
    assert_eq!(m.cost(1, 0), 20);
    // "1 0 30" → cost(left=0, right=1) = 30
    assert_eq!(m.cost(0, 1), 30);
    // "1 1 40" → cost(left=1, right=1) = 40
    assert_eq!(m.cost(1, 1), 40);
}

#[test]
fn test_mecab_triplet_sparse() {
    // Sparse: only specify some entries; rest default to 0
    // Format: "right_id left_id cost"
    // "0 1 100" → right=0, left=1 → cost(left=1, right=0) = 100
    // "1 0 -200" → right=1, left=0 → cost(left=0, right=1) = -200
    let text = "2 2\n0 1 100\n1 0 -200\n";
    let m = ConnectionMatrix::from_text(text).unwrap();
    assert_eq!(m.cost(0, 0), 0);
    assert_eq!(m.cost(0, 1), -200);
    assert_eq!(m.cost(1, 0), 100);
    assert_eq!(m.cost(1, 1), 0);
}

#[test]
fn test_mecab_triplet_roundtrip() {
    let text = "2 2\n0 0 10\n0 1 20\n1 0 30\n1 1 40\n";
    let m = ConnectionMatrix::from_text(text).unwrap();
    let bytes = m.to_bytes();
    let m2 = ConnectionMatrix::from_bytes(&bytes).unwrap();
    assert_eq!(m2.num_ids(), 2);
    for left in 0..2 {
        for right in 0..2 {
            assert_eq!(m.cost(left, right), m2.cost(left, right));
        }
    }
}

#[test]
fn test_v2_roundtrip_with_metadata() {
    let text = "3 3\n0\n10\n20\n30\n40\n50\n60\n70\n80\n";
    let m = ConnectionMatrix::from_text_with_metadata(text, 29, 433).unwrap();
    assert!(m.is_function_word(29));
    assert!(m.is_function_word(200));
    assert!(m.is_function_word(433));
    assert!(!m.is_function_word(28));
    assert!(!m.is_function_word(434));

    let bytes = m.to_bytes();
    let m2 = ConnectionMatrix::from_bytes(&bytes).unwrap();
    assert_eq!(m2.num_ids(), 3);
    assert!(m2.is_function_word(100));
    assert!(!m2.is_function_word(0));
    for left in 0..3 {
        for right in 0..3 {
            assert_eq!(m.cost(left, right), m2.cost(left, right));
        }
    }
}

#[test]
fn test_is_function_word_no_range() {
    let m = sample_matrix();
    // fw_min == 0 && fw_max == 0 → always false
    assert!(!m.is_function_word(0));
    assert!(!m.is_function_word(100));
}

#[test]
fn test_v2_file_roundtrip() {
    let text = "2 2\n10\n20\n30\n40\n";
    let m = ConnectionMatrix::from_text_with_metadata(text, 50, 300).unwrap();
    let file = m.to_bytes();

    let m2 = ConnectionMatrix::from_bytes(&file).unwrap();
    assert_eq!(m2.num_ids(), 2);
    assert!(m2.is_function_word(100));
    assert!(!m2.is_function_word(49));
    assert_eq!(m2.cost(0, 0), 10);
    assert_eq!(m2.cost(1, 1), 40);
}

#[test]
fn test_v1_backward_compat() {
    // Construct a V1 binary manually
    let magic = b"LXCX";
    let mut v1_bytes = Vec::new();
    v1_bytes.extend_from_slice(magic);
    v1_bytes.push(1); // V1
    v1_bytes.extend_from_slice(&2u16.to_le_bytes()); // num_ids = 2
                                                     // 4 costs: 10, 20, 30, 40
    for cost in [10i16, 20, 30, 40] {
        v1_bytes.extend_from_slice(&cost.to_le_bytes());
    }

    let m = ConnectionMatrix::from_bytes(&v1_bytes).unwrap();
    assert_eq!(m.num_ids(), 2);
    assert_eq!(m.cost(0, 0), 10);
    assert_eq!(m.cost(0, 1), 20);
    assert_eq!(m.cost(1, 0), 30);
    assert_eq!(m.cost(1, 1), 40);
    // V1 has no function-word range or roles
    assert!(!m.is_function_word(100));
    assert_eq!(m.role(0), 0);
    assert!(!m.is_suffix(0));
    assert!(!m.is_prefix(0));
}

#[test]
fn test_v3_roundtrip_with_roles() {
    // 4 IDs: 0=content, 1=function, 2=suffix, 3=prefix
    let text = "4 4\n";
    let costs_text: String = (0..16).map(|i| format!("{}\n", i * 10)).collect::<String>();
    let full_text = format!("{text}{costs_text}");
    let roles = vec![0, 1, 2, 3];
    let m = ConnectionMatrix::from_text_with_roles(&full_text, 1, 1, roles.clone()).unwrap();

    assert_eq!(m.role(0), 0);
    assert_eq!(m.role(1), 1);
    assert_eq!(m.role(2), 2);
    assert_eq!(m.role(3), 3);
    assert!(!m.is_prefix(0));
    assert!(!m.is_suffix(0));
    assert!(m.is_suffix(2));
    assert!(m.is_prefix(3));
    assert!(m.is_function_word(1));

    // Serialize and deserialize
    let bytes = m.to_bytes();
    // Check V3 marker
    assert_eq!(bytes[4], 3);

    let m2 = ConnectionMatrix::from_bytes(&bytes).unwrap();
    assert_eq!(m2.num_ids(), 4);
    assert_eq!(m2.role(0), 0);
    assert_eq!(m2.role(1), 1);
    assert_eq!(m2.role(2), 2);
    assert_eq!(m2.role(3), 3);
    assert!(m2.is_suffix(2));
    assert!(m2.is_prefix(3));
    for left in 0..4 {
        for right in 0..4 {
            assert_eq!(m.cost(left, right), m2.cost(left, right));
        }
    }
}

#[test]
fn test_v3_file_roundtrip() {
    let text = "3 3\n0\n10\n20\n30\n40\n50\n60\n70\n80\n";
    let roles = vec![0, 2, 3]; // content, suffix, prefix
    let m = ConnectionMatrix::from_text_with_roles(text, 0, 0, roles).unwrap();
    let file = m.to_bytes();

    let m2 = ConnectionMatrix::from_bytes(&file).unwrap();
    assert_eq!(m2.num_ids(), 3);
    assert_eq!(m2.role(0), 0);
    assert_eq!(m2.role(1), 2);
    assert_eq!(m2.role(2), 3);
    assert!(m2.is_suffix(1));
    assert!(m2.is_prefix(2));
    assert_eq!(m2.cost(0, 1), 10);
    assert_eq!(m2.cost(2, 2), 80);
}

#[test]
fn test_v2_backward_compat_no_roles() {
    // V2 binary should load with empty roles → role() always returns 0
    let text = "2 2\n10\n20\n30\n40\n";
    let m = ConnectionMatrix::from_text_with_metadata(text, 50, 300).unwrap();
    let bytes = m.to_bytes();
    // Should write V2 (no roles)
    assert_eq!(bytes[4], 2);

    let m2 = ConnectionMatrix::from_bytes(&bytes).unwrap();
    assert_eq!(m2.role(0), 0);
    assert_eq!(m2.role(1), 0);
    assert!(!m2.is_suffix(0));
    assert!(!m2.is_prefix(0));
}

fn entry(surface: &str, cost: i16) -> DictEntry {
    DictEntry { surface: surface.to_string(), cost, left_id: 1, right_id: 2 }
}

fn dict_of(rows: Vec<(&str, Vec<DictEntry>)>) -> TrieDictionary {
    let rows: Vec<(String, Vec<DictEntry>)> =
        rows.into_iter().map(|(r, e)| (r.to_string(), e)).collect();
    assert!(can_hold(&rows));
    TrieDictionary::from_entries(rows)
}

fn names(entries: &[DictEntry]) -> Vec<(&str, i16)> {
    entries.iter().map(|e| (e.surface.as_str(), e.cost)).collect()
}

#[test]
fn common_prefixes_come_shortest_first() {
    let dict = sample_dict();
    let found = dict.common_prefix_search("かんじょうき");
    let readings: Vec<&str> = found.iter().map(|r| r.reading.as_str()).collect();
    assert_eq!(readings, vec!["かん", "かんじ", "かんじょう"]);
    assert_eq!(found[1].entries.len(), 3);
    assert!(dict.common_prefix_search("ん").is_empty());
}

#[test]
fn a_dictionary_read_back_answers_alike() {
    let dict = sample_dict();
    let bytes = dict.to_bytes().unwrap();
    let back = TrieDictionary::from_bytes(&bytes).unwrap();
    assert!(back.is_intact());
    assert_eq!(back.stats(), dict.stats());
    assert_eq!(dict.stats(), (4, 8));
    for (reading, entries) in dict.iter() {
        assert_eq!(names(back.lookup(&reading).unwrap()), names(entries));
    }
    let readings: Vec<String> = dict.iter().into_iter().map(|p| p.0).collect();
    assert_eq!(readings.len(), 4);
    for r in ["かん", "かんじ", "かんじょう", "き"] {
        assert!(readings.contains(&r.to_string()));
    }
}

#[test]
fn broken_dictionary_files_are_refused() {
    let bytes = sample_dict().to_bytes().unwrap();
    assert!(matches!(TrieDictionary::from_bytes(&bytes[..10]), Err(DictError::InvalidHeader)));
    let mut cut = bytes.clone();
    cut.truncate(bytes.len() - 1);
    assert!(TrieDictionary::from_bytes(&cut).is_err());
    let mut garbled = bytes.clone();
    let n = garbled.len();
    garbled[n - 1] ^= 0xff;
    match TrieDictionary::from_bytes(&garbled) {
        Ok(d) => assert!(d.stats().0 == 4),
        Err(e) => assert!(matches!(e, DictError::Deserialize(_) | DictError::InvalidHeader)),
    }
}

#[test]
fn readings_listed_twice_cannot_be_held() {
    let twice = vec![("あ".to_string(), vec![]), ("あ".to_string(), vec![])];
    assert!(!can_hold(&twice));
    assert!(can_hold(&Vec::new()));
}

#[test]
fn merging_keeps_the_cheaper_entry() {
    let a = dict_of(vec![("あ", vec![entry("亜", 10), entry("阿", 20)]), ("い", vec![entry("胃", 5)])]);
    let b = dict_of(vec![
        ("あ", vec![entry("亜", 9), entry("阿", 20), entry("吾", 1)]),
        ("うえ", vec![entry("上", 7)]),
    ]);
    let merged = merge(&a, &b);
    assert_eq!(merged.len(), 3);
    assert_eq!(merged.entry_count(), 5);
    // Entries of a dictionary are in order of cost, so `吾` comes to `b` first.
    assert_eq!(names(merged.get("あ").unwrap()), vec![("亜", 9), ("阿", 20), ("吾", 1)]);
    assert_eq!(names(merged.get("い").unwrap()), vec![("胃", 5)]);
    assert_eq!(names(merged.get("うえ").unwrap()), vec![("上", 7)]);

    let all = MergeOptions { max_cost: None, max_reading_len: None };
    assert!(!all.drops());
    assert_eq!(filter_entries(&merged, &all).entry_count(), 5);
    let short = MergeOptions { max_cost: None, max_reading_len: Some(1) };
    let kept = filter_entries(&merged, &short);
    assert_eq!((kept.len(), kept.contains_key("うえ")), (2, false));
    let cheap = MergeOptions { max_cost: Some(5), max_reading_len: None };
    let kept = filter_entries(&merged, &cheap);
    assert_eq!(kept.len(), 2);
    assert_eq!(names(kept.get("あ").unwrap()), vec![("吾", 1)]);
    assert_eq!(names(kept.get("い").unwrap()), vec![("胃", 5)]);
}

#[test]
fn differences_are_counted() {
    let a = dict_of(vec![
        ("あ", vec![entry("亜", 10), entry("亜", 20), entry("阿", 20)]),
        ("い", vec![entry("胃", 5)]),
    ]);
    let b = dict_of(vec![("あ", vec![entry("亜", 1), entry("吾", 1)]), ("う", vec![entry("鵜", 7)])]);
    let d = diff(&a, &b);
    assert_eq!((d.readings_only_a, d.readings_only_b, d.readings_both), (1, 1, 1));
    assert_eq!((d.pairs_only_a, d.pairs_only_b, d.pairs_both), (2, 2, 1));
    assert_eq!(d.sample_a.len(), 1);
    assert_eq!(
        (d.sample_a[0].reading.as_str(), d.sample_a[0].surface.as_str(), d.sample_a[0].cost),
        ("い", "胃", 5)
    );
    assert_eq!(d.sample_b[0].reading, "う");
    let none = diff(&a, &a);
    assert_eq!((none.readings_only_a, none.pairs_only_a, none.pairs_both), (0, 0, 3));
    assert!(none.sample_a.is_empty());
}

#[test]
fn samples_stop_at_their_size() {
    let kana: Vec<char> = "あいうえおかきくけこさしすせそたちつてとなにぬねの".chars().collect();
    let texts: Vec<String> = kana.iter().map(|c| c.to_string()).collect();
    let a = dict_of(texts.iter().map(|t| (t.as_str(), vec![entry(t, 1)])).collect());
    let b = dict_of(vec![]);
    let d = diff(&a, &b);
    assert_eq!(d.readings_only_a, 25);
    assert_eq!(d.sample_a.len(), 20);
}

#[test]
fn matrix_texts_with_faults_are_refused() {
    for text in ["", "x\n", "2 3\n", "1 1 1\n5\n", "70000\n", "1\nx\n", "1\n40000\n", "1\n1 2\n",
        "2 2\n0 0 1\n0 2 1\n", "2 2\n0 0 1\n5\n", "1\n1\n2\n"]
    {
        assert!(matches!(ConnectionMatrix::from_text(text), Err(DictError::Parse(_))), "{text}");
    }
    // The number of ids may stand alone, and blank lines do not count.
    let m = ConnectionMatrix::from_text("2\n1\n\n2\n3\n 4 \n").unwrap();
    assert_eq!((m.num_ids(), m.cost(1, 1)), (2, 4));
    assert_eq!(m.cost(5, 5), 0);
    assert!(matches!(
        ConnectionMatrix::from_text_with_roles("1\n0\n", 0, 0, vec![1, 2]),
        Err(DictError::Parse(_))
    ));
}

#[test]
fn short_matrix_files_are_refused() {
    let bytes = sample_matrix().to_bytes();
    for n in [0, 4, 6, 10, bytes.len() - 1] {
        assert!(matches!(ConnectionMatrix::from_bytes(&bytes[..n]), Err(DictError::InvalidHeader)));
    }
    assert!(matches!(
        ConnectionMatrix::from_bytes(b"LXCX\x03\x02\x00\x00\x00\x00\x00\x01"),
        Err(DictError::InvalidHeader)
    ));
}
