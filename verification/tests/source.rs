use std::collections::HashMap;

use lexime::dict::source::pos_map::{
    build_remap_table, normalize_sudachi_pos, parse_mozc_id_def, remap_entries,
};
use lexime::dict::source::{
    from_name, list_dict_files, parse_files, DictSource, DictSourceError, EntryTable, MozcSource,
    SudachiSource,
};
use lexime::dict::source::mozc::parse_remote_files;
use lexime::dict::source::sudachi::{parse_latest_version, zip_output};
use lexime::dict::DictEntry;
use lexime::unicode::{is_hiragana_reading, kata_to_hira};

#[test]
fn test_normalize_noun_general() {
    let pos: [&str; 6] = ["名詞", "普通名詞", "一般", "*", "*", "*"];
    let candidates = normalize_sudachi_pos(&pos);
    assert!(candidates.contains(&"名詞,一般,*,*,*,*,*".to_string()));
}

#[test]
fn test_normalize_noun_sahen() {
    let pos: [&str; 6] = ["名詞", "普通名詞", "サ変可能", "*", "*", "*"];
    let candidates = normalize_sudachi_pos(&pos);
    assert!(candidates.contains(&"名詞,サ変接続,*,*,*,*,*".to_string()));
}

#[test]
fn test_normalize_pronoun() {
    let pos: [&str; 6] = ["代名詞", "*", "*", "*", "*", "*"];
    let candidates = normalize_sudachi_pos(&pos);
    assert!(candidates.contains(&"名詞,代名詞,一般,*,*,*,*".to_string()));
}

#[test]
fn test_normalize_keijoshi_tari() {
    let pos: [&str; 6] = ["形状詞", "タリ", "*", "*", "*", "*"];
    let candidates = normalize_sudachi_pos(&pos);
    assert!(candidates.contains(&"名詞,ナイ形容詞語幹,*,*,*,*,*".to_string()));
}

#[test]
fn test_normalize_keijoshi_general() {
    let pos: [&str; 6] = ["形状詞", "一般", "*", "*", "*", "*"];
    let candidates = normalize_sudachi_pos(&pos);
    assert!(candidates.contains(&"名詞,形容動詞語幹,*,*,*,*,*".to_string()));
}

#[test]
fn test_normalize_verb_godan_ka() {
    let pos: [&str; 6] = ["動詞", "一般", "*", "*", "五段-カ行", "連体形-一般"];
    let candidates = normalize_sudachi_pos(&pos);
    assert!(candidates.contains(&"動詞,自立,*,*,五段・カ行イ音便,基本形,*".to_string()));
}

#[test]
fn test_normalize_verb_ichidan() {
    let pos: [&str; 6] = ["動詞", "一般", "*", "*", "上一段-ア行", "終止形-一般"];
    let candidates = normalize_sudachi_pos(&pos);
    assert!(candidates.contains(&"動詞,自立,*,*,一段,基本形,*".to_string()));
}

#[test]
fn test_normalize_verb_shimoidchidan() {
    let pos: [&str; 6] = ["動詞", "一般", "*", "*", "下一段-バ行", "連用形-一般"];
    let candidates = normalize_sudachi_pos(&pos);
    assert!(candidates.contains(&"動詞,自立,*,*,一段,連用形,*".to_string()));
}

#[test]
fn test_normalize_adjective() {
    let pos: [&str; 6] = ["形容詞", "一般", "*", "*", "形容詞", "終止形-一般"];
    let candidates = normalize_sudachi_pos(&pos);
    assert!(candidates.contains(&"形容詞,自立,*,*,形容詞・アウオ段,基本形,*".to_string()));
}

#[test]
fn test_normalize_suffix_noun() {
    let pos: [&str; 6] = ["接尾辞", "名詞的", "一般", "*", "*", "*"];
    let candidates = normalize_sudachi_pos(&pos);
    assert!(candidates.contains(&"名詞,接尾,一般,*,*,*,*".to_string()));
}

#[test]
fn test_normalize_suffix_counter() {
    let pos: [&str; 6] = ["接尾辞", "名詞的", "助数詞", "*", "*", "*"];
    let candidates = normalize_sudachi_pos(&pos);
    assert!(candidates.contains(&"名詞,接尾,助数詞,*,*,*,*".to_string()));
}

#[test]
fn test_normalize_prefix() {
    let pos: [&str; 6] = ["接頭辞", "*", "*", "*", "*", "*"];
    let candidates = normalize_sudachi_pos(&pos);
    assert!(candidates.contains(&"接頭詞,名詞接続,*,*,*,*,*".to_string()));
}

#[test]
fn test_normalize_supplementary_symbol() {
    let pos: [&str; 6] = ["補助記号", "一般", "*", "*", "*", "*"];
    let candidates = normalize_sudachi_pos(&pos);
    assert!(candidates.contains(&"記号,一般,*,*,*,*,*".to_string()));
}

#[test]
fn test_normalize_verb_renyou_onbin() {
    // 連用形-促音便 should map to 連用タ接続
    let pos: [&str; 6] = ["動詞", "一般", "*", "*", "五段-ラ行", "連用形-促音便"];
    let candidates = normalize_sudachi_pos(&pos);
    assert!(candidates.contains(&"動詞,自立,*,*,五段・ラ行,連用タ接続,*".to_string()));
}

#[test]
fn test_normalize_fallback_relaxation() {
    // A made-up POS should still produce fallback candidates
    let pos: [&str; 6] = ["動詞", "一般", "*", "*", "unknown-type", "unknown-form"];
    let candidates = normalize_sudachi_pos(&pos);
    // Should include a relaxed candidate without conj_form
    assert!(candidates
        .iter()
        .any(|c| c == "動詞,自立,*,*,unknown-type,*,*"));
    // Should include a fully relaxed candidate
    assert!(candidates.iter().any(|c| c == "動詞,自立,*,*,*,*,*"));
}

#[test]
fn test_parse_mozc_id_def() {
    let content = [
        "0 BOS/EOS,*,*,*,*,*,*",
        "1852 名詞,一般,*,*,*,*,*",
        "1842 名詞,サ変接続,*,*,*,*,*",
        "680 動詞,自立,*,*,一段,基本形,*",
        "681 動詞,自立,*,*,一段,基本形,食べる",
    ]
    .join("\n");
    let map = parse_mozc_id_def(&content).unwrap();
    assert_eq!(map.get("名詞,一般,*,*,*,*,*"), Some(&1852));
    assert_eq!(map.get("名詞,サ変接続,*,*,*,*,*"), Some(&1842));
    assert_eq!(map.get("動詞,自立,*,*,一段,基本形,*"), Some(&680));
    // A line on a single word is left out.
    assert!(!map.contains_key("動詞,自立,*,*,一段,基本形,食べる"));
}

#[test]
fn id_def_faults_are_told() {
    let e = parse_mozc_id_def("1 a,b\nnothing\n").err().unwrap();
    assert_eq!(e.message(), "parse error: invalid id.def line: nothing");
    let e = parse_mozc_id_def("  x 名詞,一般,*,*,*,*,*\n").err().unwrap();
    assert_eq!(e.message(), "parse error: invalid id in id.def: x");
    let e = parse_mozc_id_def("65536 名詞,一般,*,*,*,*,*\n").err().unwrap();
    assert_eq!(e.message(), "parse error: invalid id in id.def: 65536");
    // Blank lines count for nothing, and the last id of a tag is the one that counts.
    let map = parse_mozc_id_def("\n  \n1 名詞,一般,*,*,*,*,*\n+2 名詞,一般,*,*,*,*,*\r\n").unwrap();
    assert_eq!(map.get("名詞,一般,*,*,*,*,*"), Some(&2));
}

#[test]
fn test_build_remap_table() {
    let files = vec![
        "漢字,100,100,5000,漢字,名詞,普通名詞,一般,*,*,*,カンジ,漢字,*,A,*,*,*,*\n\
         感じ,100,100,5100,感じ,名詞,普通名詞,一般,*,*,*,カンジ,感じ,*,A,*,*,*,*\n\
         食べる,200,200,4000,食べる,動詞,一般,*,*,下一段-バ行,終止形-一般,タベル,食べる,*,A,*,*,*,*\n"
            .to_string(),
    ];
    let mozc_ids = parse_mozc_id_def(
        "1852 名詞,一般,*,*,*,*,*\n\
         680 動詞,自立,*,*,一段,基本形,*\n",
    )
    .unwrap();
    let (remap, matched, total) = build_remap_table(&files, &mozc_ids);

    assert_eq!(total, 2); // IDs 100 and 200
    assert_eq!(matched, 2);
    assert_eq!(remap.get(&100), Some(&1852)); // 名詞,普通名詞,一般 → 名詞,一般
    assert_eq!(remap.get(&200), Some(&680)); // 動詞,一般,下一段 → 動詞,自立,一段
}

#[test]
fn usual_tag_wins_over_a_rarer_one() {
    let noun = "a,7,7,1,a,名詞,普通名詞,一般,*,*,*,ア\n";
    let verb = "b,7,7,1,b,動詞,一般,*,*,下一段-バ行,終止形-一般,ブ\n";
    let files = vec![format!("{verb}{noun}"), noun.to_string(), "# x\n\nshort,1\n-,-1,0,0,,,,,,,\n".to_string()];
    let ids = parse_mozc_id_def("5 名詞,一般,*,*,*,*,*\n6 動詞,自立,*,*,一段,基本形,*\n").unwrap();
    let (remap, matched, total) = build_remap_table(&files, &ids);
    assert_eq!((remap.get(&7), matched, total), (Some(&5), 1, 1));
    // With as many of each, the one that came first stands.
    let files = vec![format!("{verb}{noun}")];
    let (remap, _, _) = build_remap_table(&files, &ids);
    assert_eq!(remap.get(&7), Some(&6));
    // A tag that Mozc does not know falls back to the common noun, if it knows that.
    let files = vec!["x,9,9,1,x,感動詞,フィラー,*,*,*,*,エ\n".to_string()];
    let (remap, matched, total) = build_remap_table(&files, &ids);
    assert_eq!((remap.get(&9), matched, total), (Some(&5), 1, 1));
    let none = parse_mozc_id_def("").unwrap();
    let (remap, matched, total) = build_remap_table(&files, &none);
    assert_eq!((remap.get(&9), matched, total), (None, 0, 1));
}

#[test]
fn test_remap_entries() {
    let mut entries = EntryTable::new();
    entries.insert(
        "かんじ".to_string(),
        vec![DictEntry {
            surface: "漢字".to_string(),
            cost: 5000,
            left_id: 100,
            right_id: 100,
        }],
    );

    let mut remap = HashMap::new();
    remap.insert(100u16, 1852u16);

    remap_entries(&mut entries, &remap);

    let e = &entries.get("かんじ").unwrap()[0];
    assert_eq!(e.left_id, 1852);
    assert_eq!(e.right_id, 1852);
    assert_eq!(e.cost, 5000);
    assert_eq!(e.surface, "漢字");
}

#[test]
fn ids_outside_the_table_stay() {
    let mut entries = EntryTable::new();
    for (r, l) in [("あ", 1u16), ("い", 2), ("あ", 3)] {
        entries.add(
            r.to_string(),
            DictEntry { surface: r.to_string(), cost: 0, left_id: l, right_id: 9 },
        );
    }
    let mut remap = HashMap::new();
    remap.insert(3u16, 30u16);
    remap.insert(9u16, 1u16);
    remap_entries(&mut entries, &remap);
    assert_eq!(entries.len(), 2);
    assert_eq!(entries.entry_count(), 3);
    let a = entries.get("あ").unwrap();
    assert_eq!((a[0].left_id, a[0].right_id), (1, 1));
    assert_eq!((a[1].left_id, a[1].right_id), (30, 1));
    assert_eq!(entries.get("い").unwrap()[0].left_id, 2);
    assert!(entries.get("う").is_none());
    let rows = entries.into_rows();
    assert_eq!(rows[0].0, "あ");
    assert_eq!(rows[1].0, "い");
}

#[test]
fn test_parse_mozc_tsv() {
    let files = vec![
        "# comment line\n\
         かんじ\t1847\t1847\t5100\t漢字\n\
         かんじ\t1847\t1847\t5150\t感じ\n\
         テスト\t100\t100\t3000\ttest\n\
         にほん\t1847\t1847\t4500\t日本\n"
            .to_string(),
    ];
    let parsed = parse_files(&MozcSource, &files);
    let entries = parsed.entries;

    // テスト (katakana reading) should be skipped
    assert!(!entries.contains_key("テスト"));

    // かんじ should have 2 entries
    let kanji = entries.get("かんじ").unwrap();
    assert_eq!(kanji.len(), 2);
    assert_eq!(kanji[0].surface, "漢字");
    assert_eq!(kanji[0].cost, 5100);
    assert_eq!(kanji[0].left_id, 1847);
    assert_eq!(kanji[1].surface, "感じ");

    // にほん should have 1 entry
    let nihon = entries.get("にほん").unwrap();
    assert_eq!(nihon.len(), 1);
    assert_eq!(nihon[0].surface, "日本");
    assert_eq!((parsed.total_lines, parsed.skipped), (5, 2));
}

#[test]
fn lines_without_an_entry_are_skipped() {
    let files = vec![
        "\nあ\t1\t2\t3\nあ\tx\t2\t3\t亜\nあ\t1\t65536\t3\t亜\nあ\t1\t2\t32768\t亜\n".to_string(),
        "あ\t1\t2\t-32768\t亜\tmore\r\n\tあ\t1\t2\t3\n".to_string(),
    ];
    let parsed = parse_files(&MozcSource, &files);
    assert_eq!((parsed.total_lines, parsed.skipped), (7, 6));
    let a = parsed.entries.get("あ").unwrap();
    assert_eq!(a.len(), 1);
    assert_eq!((a[0].left_id, a[0].right_id, a[0].cost), (1, 2, -32768));
}

#[test]
fn test_parse_mozc_empty_dir() {
    let names = vec!["dictionary.csv".to_string(), "README.md".to_string()];
    let result = list_dict_files(&MozcSource, "/data", &names);
    assert_eq!(
        result.err().unwrap().message(),
        "parse error: no dictionary*.txt files found in /data"
    );
}

#[test]
fn dictionary_files_are_read_in_order() {
    let names: Vec<String> = ["dictionary01.txt", "id.def", "dictionary00.txt", "dictionary.md"]
        .iter()
        .map(|s| s.to_string())
        .collect();
    let files = list_dict_files(&MozcSource, "d", &names).unwrap();
    assert_eq!(files, vec!["dictionary00.txt", "dictionary01.txt"]);
    let names = vec!["b.csv".to_string(), "a.csv".to_string(), "c.txt".to_string()];
    let files = list_dict_files(&SudachiSource, "d", &names).unwrap();
    assert_eq!(files, vec!["a.csv", "b.csv"]);
}

#[test]
fn mozc_test_is_hiragana() {
    assert!(is_hiragana_reading("かんじ"));
    assert!(is_hiragana_reading("あ"));
    assert!(is_hiragana_reading("らーめん")); // prolonged sound mark allowed
    assert!(!is_hiragana_reading("カタカナ"));
    assert!(!is_hiragana_reading("abc"));
    assert!(!is_hiragana_reading(""));
}

#[test]
fn test_parse_remote_files() {
    let json = r#"[
        {"name": "dictionary00.txt", "download_url": "https://example.com/dictionary00.txt"},
        {"name": "dictionary01.txt", "download_url": "https://example.com/dictionary01.txt"},
        {"name": "id.def", "download_url": "https://example.com/id.def"},
        {"name": "README.md", "download_url": "https://example.com/README.md"},
        {"name": "reading_correction.tsv", "download_url": "https://example.com/rc.tsv"},
        {"name": "subdir", "download_url": null}
    ]"#;
    let files = parse_remote_files(json).unwrap();
    assert_eq!(files.len(), 3);
    assert_eq!(files[0].0, "dictionary00.txt");
    assert_eq!(files[1].0, "dictionary01.txt");
    assert_eq!(files[2].0, "id.def");
    assert_eq!(files[2].1, "https://example.com/id.def");
}

#[test]
fn test_parse_remote_files_sanitizes_path() {
    let json = r#"[
        {"name": "../../../etc/dictionary00.txt", "download_url": "https://example.com/x"}
    ]"#;
    let files = parse_remote_files(json).unwrap();
    assert_eq!(files.len(), 1);
    assert_eq!(files[0].0, "dictionary00.txt");
}

#[test]
fn remote_files_are_sorted_and_faults_told() {
    let json = r#"[
        {"name": "id.def", "download_url": "u2"},
        {"name": "dictionary1.txt", "download_url": "b"},
        {"name": "dictionary1.txt", "download_url": "a"},
        {"name": "dictionary2.txt", "download_url": ""},
        {"name": 3, "download_url": "x"},
        7
    ]"#;
    let files = parse_remote_files(json).unwrap();
    let pairs: Vec<(&str, &str)> = files.iter().map(|f| (f.0.as_str(), f.1.as_str())).collect();
    assert_eq!(pairs, vec![("dictionary1.txt", "a"), ("dictionary1.txt", "b"), ("id.def", "u2")]);
    let all = MozcSource.downloads(files);
    assert_eq!(all.len(), 5);
    assert_eq!(all[3].0, "connection_single_column.txt");
    assert_eq!(all[4].0, "LICENSE");
    match parse_remote_files("{}") {
        Err(DictSourceError::Parse(m)) => assert!(m.starts_with("GitHub API JSON: ")),
        _ => panic!("not an array"),
    }
}

#[test]
fn test_kata_to_hira() {
    assert_eq!(kata_to_hira("カンジ"), "かんじ");
    assert_eq!(kata_to_hira("ニホン"), "にほん");
    assert_eq!(kata_to_hira("ラーメン"), "らーめん");
    assert_eq!(kata_to_hira("ア"), "あ");
    assert_eq!(kata_to_hira(""), "");
}

#[test]
fn test_parse_sudachi_csv() {
    let files = vec![
        "漢字,1847,1847,5100,名詞,普通名詞,一般,*,*,*,*,カンジ,*,*,*,*,*,*\n\
         感じ,1847,1847,5150,名詞,普通名詞,一般,*,*,*,*,カンジ,*,*,*,*,*,*\n\
         日本,1847,1847,4500,名詞,固有名詞,地名,*,*,*,*,ニホン,*,*,*,*,*,*\n\
         test,100,100,3000,名詞,普通名詞,一般,*,*,*,*,test,*,*,*,*,*,*\n"
            .to_string(),
    ];
    let entries = parse_files(&SudachiSource, &files).entries;

    // "test" reading (non-hiragana after pass-through) should be skipped
    assert!(!entries.contains_key("test"));

    // かんじ (converted from カンジ) should have 2 entries
    let kanji = entries.get("かんじ").unwrap();
    assert_eq!(kanji.len(), 2);
    assert_eq!(kanji[0].surface, "漢字");
    assert_eq!(kanji[0].cost, 5100);
    assert_eq!(kanji[1].surface, "感じ");

    // にほん should have 1 entry
    let nihon = entries.get("にほん").unwrap();
    assert_eq!(nihon.len(), 1);
    assert_eq!(nihon[0].surface, "日本");
}

#[test]
fn test_parse_sudachi_empty_dir() {
    let result = list_dict_files(&SudachiSource, "x", &Vec::new());
    assert_eq!(
        result.err().unwrap().message(),
        "parse error: no *.csv files found in x"
    );
}

#[test]
fn sudachi_test_is_hiragana() {
    assert!(is_hiragana_reading("かんじ"));
    assert!(is_hiragana_reading("らーめん"));
    assert!(!is_hiragana_reading("カタカナ"));
    assert!(!is_hiragana_reading("abc"));
    assert!(!is_hiragana_reading(""));
}

#[test]
fn test_parse_latest_version() {
    let xml = r#"<?xml version="1.0" encoding="UTF-8"?>
<ListBucketResult>
  <Prefix>sudachidict-raw/</Prefix>
  <CommonPrefixes>
    <Prefix>sudachidict-raw/20210608/</Prefix>
  </CommonPrefixes>
  <CommonPrefixes>
    <Prefix>sudachidict-raw/20260116/</Prefix>
  </CommonPrefixes>
  <CommonPrefixes>
    <Prefix>sudachidict-raw/20201023_2/</Prefix>
  </CommonPrefixes>
  <CommonPrefixes>
    <Prefix>sudachidict-raw/20250129/</Prefix>
  </CommonPrefixes>
</ListBucketResult>"#;
    let version = parse_latest_version(xml).unwrap();
    assert_eq!(version, "20260116");
}

#[test]
fn test_parse_latest_version_empty() {
    let xml = r#"<?xml version="1.0" encoding="UTF-8"?>
<ListBucketResult></ListBucketResult>"#;
    assert!(parse_latest_version(xml).is_err());
    let e = parse_latest_version(xml).err().unwrap();
    assert_eq!(e.message(), "HTTP error: no versions found in S3 listing");
}

#[test]
fn archives_of_a_version() {
    let core = SudachiSource.archives("20260116", false);
    assert_eq!(core.len(), 3);
    assert_eq!(
        core[0].url,
        "https://d2ej7fkh96fzlu.cloudfront.net/sudachidict-raw/20260116/small_lex.zip"
    );
    assert_eq!((core[0].suffix, core[0].file.as_str()), (".csv", "small_lex.csv"));
    assert_eq!(
        core[2].url,
        "https://d2ej7fkh96fzlu.cloudfront.net/sudachidict-raw/matrix.def.zip"
    );
    assert_eq!(core[2].suffix, "matrix.def");
    let full = SudachiSource.archives("1", true);
    assert_eq!(full[3].file, "notcore_lex.csv");
}

#[test]
fn archive_entries_are_kept_under_plain_names() {
    assert_eq!(zip_output("a/b/x.csv", ".csv").unwrap(), Some("x.csv".to_string()));
    assert_eq!(zip_output("../../x.csv", ".csv").unwrap(), Some("x.csv".to_string()));
    assert_eq!(zip_output("x.txt", ".csv").unwrap(), None);
    assert_eq!(
        zip_output("a/..", "..").err().unwrap().message(),
        "parse error: invalid ZIP entry name: a/.."
    );
}

#[test]
fn sources_by_name() {
    assert_eq!(from_name("mozc").unwrap().label(), "dictionary*.txt");
    assert_eq!(from_name("sudachi").unwrap().label(), "*.csv");
    assert!(from_name("ipadic").is_none());
    let source = from_name("sudachi").unwrap();
    let files = vec!["漢字,1,2,3,,,,,,,,カンジ\n".to_string()];
    assert_eq!(parse_files(&*source, &files).entries.get("かんじ").unwrap()[0].right_id, 2);
    assert_eq!(DictSourceError::Io("gone".to_string()).message(), "IO error: gone");
}
