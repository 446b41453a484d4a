use lexime::romaji::table::MAPPINGS;
use lexime::romaji::{convert_romaji, RomajiConvertResult, RomajiTrie, TrieLookupResult};

fn convert(kana: &str, pending: &str, force: bool) -> RomajiConvertResult {
    convert_romaji(kana, pending, force)
}

#[test]
fn test_vowel_exact() {
    let trie = RomajiTrie::global();
    assert_eq!(trie.lookup("a"), TrieLookupResult::Exact("あ".into()));
}

#[test]
fn test_prefix_k() {
    let trie = RomajiTrie::global();
    assert_eq!(trie.lookup("k"), TrieLookupResult::Prefix);
}

#[test]
fn test_prefix_q() {
    let trie = RomajiTrie::global();
    assert_eq!(trie.lookup("q"), TrieLookupResult::Prefix);
}

#[test]
fn test_symbol_hyphen() {
    let trie = RomajiTrie::global();
    assert_eq!(trie.lookup("-"), TrieLookupResult::Exact("ー".into()));
}

#[test]
fn trie_test_youon_sha() {
    let trie = RomajiTrie::global();
    assert_eq!(trie.lookup("sha"), TrieLookupResult::Exact("しゃ".into()));
}

#[test]
fn test_chi_exact_or_prefix() {
    let trie = RomajiTrie::global();
    // "chi" matches ち and is also a prefix for "cho", "cha", etc.
    match trie.lookup("chi") {
        TrieLookupResult::Exact(ref k) | TrieLookupResult::ExactAndPrefix(ref k) => {
            assert_eq!(k, "ち");
        }
        other => panic!("expected Exact or ExactAndPrefix, got {:?}", other),
    }
}

#[test]
fn test_ka_exact() {
    let trie = RomajiTrie::global();
    assert_eq!(trie.lookup("ka"), TrieLookupResult::Exact("か".into()));
}

#[test]
fn test_sh_prefix() {
    let trie = RomajiTrie::global();
    assert_eq!(trie.lookup("sh"), TrieLookupResult::Prefix);
}

#[test]
fn test_nn_exact() {
    let trie = RomajiTrie::global();
    assert_eq!(trie.lookup("nn"), TrieLookupResult::Exact("ん".into()));
}

#[test]
fn test_punctuation() {
    let trie = RomajiTrie::global();
    assert_eq!(trie.lookup("."), TrieLookupResult::Exact("。".into()));
    assert_eq!(trie.lookup(","), TrieLookupResult::Exact("、".into()));
    assert_eq!(trie.lookup("?"), TrieLookupResult::Exact("？".into()));
}

#[test]
fn test_z_sequences() {
    let trie = RomajiTrie::global();
    assert_eq!(trie.lookup("zh"), TrieLookupResult::Exact("←".into()));
    assert_eq!(trie.lookup("zj"), TrieLookupResult::Exact("↓".into()));
    assert_eq!(trie.lookup("z."), TrieLookupResult::Exact("…".into()));
}

#[test]
fn test_none_for_unknown() {
    let trie = RomajiTrie::global();
    assert_eq!(trie.lookup("xyz"), TrieLookupResult::NoMatch);
}

#[test]
fn test_all_mappings_roundtrip() {
    let trie = RomajiTrie::global();
    for (romaji, kana) in MAPPINGS {
        match trie.lookup(romaji) {
            TrieLookupResult::Exact(ref k) | TrieLookupResult::ExactAndPrefix(ref k) => {
                assert_eq!(k, kana, "mapping mismatch for romaji={romaji}");
            }
            other => panic!(
                "expected Exact/ExactAndPrefix for {romaji}, got {:?}",
                other
            ),
        }
    }
}

#[test]
fn test_basic_ka() {
    let r = convert("", "ka", false);
    assert_eq!(r.composed_kana, "か");
    assert_eq!(r.pending_romaji, "");
}

#[test]
fn test_sokuon_kk() {
    let r = convert("", "kk", false);
    assert_eq!(r.composed_kana, "っ");
    assert_eq!(r.pending_romaji, "k");
}

#[test]
fn test_hatsuon_nk() {
    let r = convert("", "nk", false);
    assert_eq!(r.composed_kana, "ん");
    assert_eq!(r.pending_romaji, "k");
}

#[test]
fn test_n_force() {
    let r = convert("", "n", true);
    assert_eq!(r.composed_kana, "ん");
    assert_eq!(r.pending_romaji, "");
}

#[test]
fn test_n_no_force() {
    let r = convert("", "n", false);
    assert_eq!(r.composed_kana, "");
    assert_eq!(r.pending_romaji, "n");
}

#[test]
fn test_consecutive_kakiku() {
    let r = convert("", "kakiku", false);
    assert_eq!(r.composed_kana, "かきく");
    assert_eq!(r.pending_romaji, "");
}

#[test]
fn test_q_prefix_stays_pending() {
    let r = convert("", "q", false);
    assert_eq!(r.composed_kana, "");
    assert_eq!(r.pending_romaji, "q");
}

#[test]
fn test_shi() {
    let r = convert("", "shi", false);
    assert_eq!(r.composed_kana, "し");
    assert_eq!(r.pending_romaji, "");
}

#[test]
fn test_existing_composed_preserved() {
    let r = convert("あ", "ka", false);
    assert_eq!(r.composed_kana, "あか");
}

#[test]
fn convert_test_youon_sha() {
    let r = convert("", "sha", false);
    assert_eq!(r.composed_kana, "しゃ");
    assert_eq!(r.pending_romaji, "");
}

#[test]
fn test_mixed_kyouha() {
    let r = convert("", "kyouha", false);
    assert_eq!(r.composed_kana, "きょうは");
    assert_eq!(r.pending_romaji, "");
}

#[test]
fn test_sokuon_kka() {
    let r = convert("", "kka", false);
    assert_eq!(r.composed_kana, "っか");
    assert_eq!(r.pending_romaji, "");
}

#[test]
fn test_collapse_k_a() {
    let r = convert("kあ", "", false);
    assert_eq!(r.composed_kana, "か");
}

#[test]
fn test_collapse_mid() {
    let r = convert("あkい", "", false);
    assert_eq!(r.composed_kana, "あき");
}

#[test]
fn test_collapse_multi_latin() {
    let r = convert("shあ", "", false);
    assert_eq!(r.composed_kana, "しゃ");
}

#[test]
fn test_no_collapse_non_vowel() {
    let r = convert("kが", "", false);
    assert_eq!(r.composed_kana, "kが");
}

#[test]
fn test_invalid_chy_no_force() {
    let r = convert("", "chy", false);
    assert_eq!(r.composed_kana, "");
    assert_eq!(r.pending_romaji, "chy");
}

#[test]
fn test_invalid_chy_force() {
    let r = convert("", "chy", true);
    assert_eq!(r.composed_kana, "chy");
    assert_eq!(r.pending_romaji, "");
}

#[test]
fn test_backspace_recovery_chi() {
    let r = convert("", "chi", false);
    assert_eq!(r.composed_kana, "ち");
    assert_eq!(r.pending_romaji, "");
}

#[test]
fn test_tc_no_force() {
    let r = convert("", "tc", false);
    assert_eq!(r.composed_kana, "");
    assert_eq!(r.pending_romaji, "tc");
}

#[test]
fn beginnings_of_sequences() {
    let trie = RomajiTrie::global();
    assert_eq!(trie.lookup("n"), TrieLookupResult::Prefix);
    assert_eq!(trie.lookup("ky"), TrieLookupResult::Prefix);
    assert_eq!(trie.lookup(""), TrieLookupResult::Prefix);
    assert_eq!(trie.lookup("あ"), TrieLookupResult::NoMatch);
}

#[test]
fn forced_conversion_leaves_nothing_pending() {
    for pending in ["n", "ky", "chy", "q", "nny", "kkk"] {
        assert_eq!(convert("あ", pending, true).pending_romaji, "");
    }
}

#[test]
fn composed_kana_stays_in_front() {
    let r = convert("あいう", "ny", false);
    assert_eq!(r.composed_kana, "あいう");
    assert_eq!(r.pending_romaji, "ny");
}
