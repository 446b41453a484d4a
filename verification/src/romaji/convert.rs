//! Turning romaji into kana as it is typed.

use vstd::prelude::*;

use super::trie::{self, LookupView, RomajiTrie, TrieLookupResult};
use crate::text::{chars_of, push_text, text_between};

verus! {

/// Kana, and the romaji behind it that is not resolved yet.
pub struct RomajiConvertResult {
    pub composed_kana: String,
    pub pending_romaji: String,
}

/// What a `RomajiConvertResult` holds.
pub struct KanaView {
    pub composed: Seq<char>,
    pub pending: Seq<char>,
}

impl View for RomajiConvertResult {
    type V = KanaView;

    open spec fn view(&self) -> KanaView {
        KanaView { composed: self.composed_kana@, pending: self.pending_romaji@ }
    }
}

/// Whether `c` is a lower-case Latin letter.
pub open spec fn lower(c: char) -> bool {
    'a' <= c <= 'z'
}

fn is_lower(c: char) -> (r: bool)
    ensures
        r == lower(c),
{
    'a' <= c && c <= 'z'
}

/// The Latin letter of a kana vowel.
pub open spec fn vowel_letter(c: char) -> Option<char> {
    if c == 'あ' {
        Some('a')
    } else if c == 'い' {
        Some('i')
    } else if c == 'う' {
        Some('u')
    } else if c == 'え' {
        Some('e')
    } else if c == 'お' {
        Some('o')
    } else {
        None
    }
}

fn kana_vowel_to_romaji(c: char) -> (r: Option<char>)
    ensures
        r == vowel_letter(c),
{
    if c == 'あ' {
        Some('a')
    } else if c == 'い' {
        Some('i')
    } else if c == 'う' {
        Some('u')
    } else if c == 'え' {
        Some('e')
    } else if c == 'お' {
        Some('o')
    } else {
        None
    }
}

/// Whether `c` is a Latin vowel.
pub open spec fn vowel(c: char) -> bool {
    c == 'a' || c == 'i' || c == 'u' || c == 'e' || c == 'o'
}

fn is_vowel(c: char) -> (r: bool)
    ensures
        r == vowel(c),
{
    c == 'a' || c == 'i' || c == 'u' || c == 'e' || c == 'o'
}

/// The end of the run of lower-case letters that starts at `i`.
pub open spec fn run_end(s: Seq<char>, i: int) -> int
    decreases s.len() - i,
{
    if 0 <= i < s.len() && lower(s[i]) {
        run_end(s, i + 1)
    } else {
        i
    }
}

proof fn lemma_run_end(s: Seq<char>, i: int)
    requires
        0 <= i <= s.len(),
    ensures
        i <= run_end(s, i) <= s.len(),
    decreases s.len() - i,
{
    if i < s.len() && lower(s[i]) {
        lemma_run_end(s, i + 1);
    }
}

/// The romaji of the run of letters at `i` together with the kana vowel behind
/// it, if there is one.
pub open spec fn latin_syllable(s: Seq<char>, i: int) -> Option<Seq<char>> {
    let j = run_end(s, i);
    if i < j < s.len() && vowel_letter(s[j]) is Some {
        Some(s.subrange(i, j).push(vowel_letter(s[j])->0))
    } else {
        None
    }
}

/// `s` from `i` on, with letters before a kana vowel drawn together with it to
/// the kana of the syllable.
pub open spec fn collapsed(table: Map<Seq<char>, Seq<char>>, s: Seq<char>, i: int) -> Seq<char>
    decreases s.len() - i,
{
    if i < 0 || i >= s.len() {
        Seq::empty()
    } else {
        match latin_syllable(s, i) {
            Some(romaji) if table.contains_key(romaji) => table[romaji] + collapsed(
                table,
                s,
                run_end(s, i) + 1,
            ),
            _ => seq![s[i]] + collapsed(table, s, i + 1),
        }
    }
}

/// The longest beginning of `pending`, of at most `n` characters, that is a
/// romaji sequence; 0 if there is none.
pub open spec fn longest_match(
    table: Map<Seq<char>, Seq<char>>,
    pending: Seq<char>,
    n: int,
) -> int
    decreases n,
{
    if n <= 0 {
        0
    } else if table.contains_key(pending.take(n)) {
        n
    } else {
        longest_match(table, pending, n - 1)
    }
}

/// What becomes of pending romaji that is not a sequence: a beginning of it is
/// resolved, a doubled consonant gives a small tsu, an n before a consonant
/// gives n, and so does a lone n at the end; nothing, if it must wait for more.
pub open spec fn unmatched(
    table: Map<Seq<char>, Seq<char>>,
    k: KanaView,
    force: bool,
) -> Option<KanaView> {
    let p = k.pending;
    let n = longest_match(table, p, p.len() - 1);
    if n > 0 {
        Some(KanaView { composed: k.composed + table[p.take(n)], pending: p.skip(n) })
    } else if p.len() >= 2 {
        if p[0] == p[1] && p[0] != 'n' && !vowel(p[0]) {
            Some(KanaView { composed: k.composed.push('っ'), pending: p.skip(1) })
        } else if p[0] == 'n' && !vowel(p[1]) && p[1] != 'n' && p[1] != 'y' {
            Some(KanaView { composed: k.composed.push('ん'), pending: p.skip(1) })
        } else if force {
            Some(KanaView { composed: k.composed.push(p[0]), pending: p.skip(1) })
        } else {
            None
        }
    } else if p == seq!['n'] {
        if force {
            Some(KanaView { composed: k.composed.push('ん'), pending: Seq::empty() })
        } else {
            None
        }
    } else {
        Some(KanaView { composed: k.composed + p, pending: Seq::empty() })
    }
}

/// What one step makes of pending romaji; nothing, if it waits for more.
pub open spec fn resolved(
    table: Map<Seq<char>, Seq<char>>,
    k: KanaView,
    force: bool,
) -> Option<KanaView> {
    match trie::known(table, k.pending) {
        LookupView::Exact(kana) => Some(
            KanaView { composed: k.composed + kana, pending: Seq::empty() },
        ),
        LookupView::ExactAndPrefix(kana) => if force {
            Some(KanaView { composed: k.composed + kana, pending: Seq::empty() })
        } else {
            None
        },
        LookupView::Prefix => if force {
            unmatched(table, k, force)
        } else {
            None
        },
        LookupView::NoMatch => unmatched(table, k, force),
    }
}

proof fn lemma_longest_match(table: Map<Seq<char>, Seq<char>>, pending: Seq<char>, n: int)
    requires
        n <= pending.len(),
    ensures
        0 <= longest_match(table, pending, n) <= pending.len(),
        longest_match(table, pending, n) <= n || n < 0,
        longest_match(table, pending, n) > 0 ==> table.contains_key(
            pending.take(longest_match(table, pending, n)),
        ),
    decreases n,
{
    if n > 0 && !table.contains_key(pending.take(n)) {
        lemma_longest_match(table, pending, n - 1);
    }
}

/// A step leaves less pending.
proof fn lemma_resolved_shrinks(table: Map<Seq<char>, Seq<char>>, k: KanaView, force: bool)
    requires
        k.pending.len() > 0,
    ensures
        resolved(table, k, force) is Some ==> resolved(table, k, force)->0.pending.len()
            < k.pending.len(),
        unmatched(table, k, force) is Some ==> unmatched(table, k, force)->0.pending.len()
            < k.pending.len(),
{
    lemma_longest_match(table, k.pending, k.pending.len() - 1);
}

/// Pending romaji resolved as far as it goes.
pub open spec fn drained(
    table: Map<Seq<char>, Seq<char>>,
    k: KanaView,
    force: bool,
) -> KanaView
    decreases k.pending.len(),
{
    if k.pending.len() == 0 {
        k
    } else {
        match resolved(table, k, force) {
            Some(next) if next.pending.len() < k.pending.len() => drained(table, next, force),
            _ => k,
        }
    }
}

/// Whether a text holds a lower-case letter.
pub open spec fn has_lower(s: Seq<char>) -> bool {
    exists|i: int| 0 <= i < s.len() && lower(#[trigger] s[i])
}

/// Kana and pending romaji after conversion.
pub open spec fn romaji_converted(
    table: Map<Seq<char>, Seq<char>>,
    k: KanaView,
    force: bool,
) -> KanaView {
    let d = drained(table, k, force);
    if has_lower(d.composed) {
        KanaView { composed: collapsed(table, d.composed, 0), pending: d.pending }
    } else {
        d
    }
}

/// Draws letters before a kana vowel together with it.
fn collapse_latin_kana(input: &str, trie: &RomajiTrie) -> (r: String)
    requires
        trie.wf(),
    ensures
        r@ == collapsed(trie@, input@, 0),
{
    let chars = chars_of(input);
    let ghost s = chars@;
    let mut result = String::new();
    let mut i: usize = 0;
    proof {
        assert(result@ + collapsed(trie@, s, 0) =~= collapsed(trie@, s, 0));
    }
    while i < chars.len()
        invariant
            trie.wf(),
            s == chars@,
            s == input@,
            i <= s.len(),
            result@ + collapsed(trie@, s, i as int) == collapsed(trie@, s, 0),
        decreases s.len() - i,
    {
        let ghost before = result@;
        let ch: char = chars[i];
        let mut matched: Option<String> = None;
        let mut j: usize = i;
        while j < chars.len() && is_lower(chars[j])
            invariant
                s == chars@,
                i <= j <= s.len(),
                run_end(s, i as int) == run_end(s, j as int),
            decreases s.len() - j,
        {
            j = j + 1;
        }
        proof {
            assert(run_end(s, i as int) == j);
        }
        if i < j && j < chars.len() {
            if let Some(v) = kana_vowel_to_romaji(chars[j]) {
                let mut candidate = text_between(&chars, i, j);
                candidate.push(v);
                match trie.lookup(candidate.as_str()) {
                    TrieLookupResult::Exact(kana) => {
                        matched = Some(kana);
                    },
                    TrieLookupResult::ExactAndPrefix(kana) => {
                        matched = Some(kana);
                    },
                    _ => {},
                }
            }
        }
        proof {
            assert(matched is Some <==> latin_syllable(s, i as int) is Some && trie@.contains_key(
                latin_syllable(s, i as int)->0,
            ));
        }
        match matched {
            Some(kana) => {
                push_text(&mut result, kana.as_str());
                proof {
                    assert(result@ + collapsed(trie@, s, j as int + 1) =~= before + (kana@
                        + collapsed(trie@, s, j as int + 1)));
                }
                i = j + 1;
            },
            None => {
                result.push(ch);
                proof {
                    assert(result@ + collapsed(trie@, s, i as int + 1) =~= before + (seq![ch]
                        + collapsed(trie@, s, i as int + 1)));
                }
                i = i + 1;
            },
        }
    }
    proof {
        assert(result@ + collapsed(trie@, s, i as int) =~= result@);
    }
    result
}

/// Resolves pending romaji that is not a sequence, if it can be; says whether it
/// could.
fn handle_no_match(
    trie: &RomajiTrie,
    composed: &mut String,
    pending: &mut String,
    force: bool,
) -> (changed: bool)
    requires
        trie.wf(),
        old(pending)@.len() > 0,
    ensures
        ({
            let k = KanaView { composed: old(composed)@, pending: old(pending)@ };
            match unmatched(trie@, k, force) {
                Some(next) => changed && final(composed)@ == next.composed && final(pending)@
                    == next.pending,
                None => !changed && final(composed)@ == k.composed && final(pending)@ == k.pending,
            }
        }),
{
    let chars = chars_of(pending.as_str());
    let ghost p = chars@;
    let mut len: usize = chars.len() - 1;
    while len > 0
        invariant
            trie.wf(),
            p == chars@,
            p == old(pending)@,
            pending@ == p,
            composed@ == old(composed)@,
            len < p.len(),
            longest_match(trie@, p, p.len() - 1) == longest_match(trie@, p, len as int),
        decreases len,
    {
        let sub = text_between(&chars, 0, len);
        proof {
            assert(p.subrange(0, len as int) =~= p.take(len as int));
        }
        let found: Option<String> = match trie.lookup(sub.as_str()) {
            TrieLookupResult::Exact(kana) => Some(kana),
            TrieLookupResult::ExactAndPrefix(kana) => Some(kana),
            _ => None,
        };
        if let Some(kana) = found {
            push_text(composed, kana.as_str());
            *pending = text_between(&chars, len, chars.len());
            proof {
                assert(p.subrange(len as int, p.len() as int) =~= p.skip(len as int));
            }
            return true;
        }
        len = len - 1;
    }
    if chars.len() >= 2 {
        let first: char = chars[0];
        let second: char = chars[1];
        proof {
            assert(p.subrange(1, p.len() as int) =~= p.skip(1));
        }
        if first == second && first != 'n' && !is_vowel(first) {
            composed.push('っ');
            *pending = text_between(&chars, 1, chars.len());
            true
        } else if first == 'n' && !is_vowel(second) && second != 'n' && second != 'y' {
            composed.push('ん');
            *pending = text_between(&chars, 1, chars.len());
            true
        } else if force {
            composed.push(first);
            *pending = text_between(&chars, 1, chars.len());
            true
        } else {
            false
        }
    } else {
        proof {
            assert(p =~= seq![p[0]]);
        }
        if chars[0] == 'n' {
            if !force {
                return false;
            }
            composed.push('ん');
        } else {
            proof {
                assert(p != seq!['n']) by {
                    assert(seq!['n'][0] == 'n');
                }
            }
            push_text(composed, pending.as_str());
        }
        *pending = String::new();
        proof {
            assert(pending@ =~= Seq::empty());
        }
        true
    }
}

fn any_lower(s: &str) -> (r: bool)
    ensures
        r == has_lower(s@),
{
    let chars = chars_of(s);
    let mut i: usize = 0;
    while i < chars.len()
        invariant
            chars@ == s@,
            i <= chars@.len(),
            forall|j: int| 0 <= j < i ==> !lower(#[trigger] chars@[j]),
        decreases chars@.len() - i,
    {
        if is_lower(chars[i]) {
            return true;
        }
        i = i + 1;
    }
    false
}

/// Resolves pending romaji behind `composed_kana` as far as it goes. With `force`
/// nothing stays pending: a trailing n gives n, and what is no romaji at all is
/// taken as it is.
pub fn convert_romaji(composed_kana: &str, pending_romaji: &str, force: bool) -> (r:
    RomajiConvertResult)
    ensures
        r@ == romaji_converted(
            trie::romaji_table(),
            (KanaView { composed: composed_kana@, pending: pending_romaji@ }),
            force,
        ),
{
    let trie = RomajiTrie::global();
    let ghost table = trie::romaji_table();
    let ghost k0 = KanaView { composed: composed_kana@, pending: pending_romaji@ };
    let mut composed: String = composed_kana.to_owned();
    let mut pending: String = pending_romaji.to_owned();
    let mut changed: bool = true;
    while changed && !pending.as_str().is_empty()
        invariant
            trie.wf(),
            trie@ == table,
            changed ==> drained(
                table,
                (KanaView { composed: composed@, pending: pending@ }),
                force,
            ) == drained(table, k0, force),
            !changed ==> (KanaView { composed: composed@, pending: pending@ }) == drained(
                table,
                k0,
                force,
            ),
        decreases pending@.len(), changed as int,
    {
        let ghost k = KanaView { composed: composed@, pending: pending@ };
        proof {
            lemma_resolved_shrinks(table, k, force);
        }
        changed = false;
        match trie.lookup(pending.as_str()) {
            TrieLookupResult::Exact(kana) => {
                push_text(&mut composed, kana.as_str());
                pending = String::new();
                changed = true;
                proof {
                    assert(pending@ =~= Seq::empty());
                }
            },
            TrieLookupResult::ExactAndPrefix(kana) => {
                if force {
                    push_text(&mut composed, kana.as_str());
                    pending = String::new();
                    changed = true;
                    proof {
                        assert(pending@ =~= Seq::empty());
                    }
                }
            },
            TrieLookupResult::Prefix => {
                if force {
                    changed = handle_no_match(&trie, &mut composed, &mut pending, force);
                }
            },
            TrieLookupResult::NoMatch => {
                changed = handle_no_match(&trie, &mut composed, &mut pending, force);
            },
        }
    }
    if any_lower(composed.as_str()) {
        composed = collapse_latin_kana(composed.as_str(), &trie);
    }
    RomajiConvertResult { composed_kana: composed, pending_romaji: pending }
}

/// With `force` nothing stays pending.
pub proof fn forced_conversion_leaves_nothing_pending(
    table: Map<Seq<char>, Seq<char>>,
    k: KanaView,
)
    ensures
        romaji_converted(table, k, true).pending.len() == 0,
    decreases k.pending.len(),
{
    if k.pending.len() > 0 {
        lemma_resolved_shrinks(table, k, true);
        let next = resolved(table, k, true)->0;
        forced_conversion_leaves_nothing_pending(table, next);
    }
}

/// Conversion resolves all that can be resolved: a second conversion of what is
/// left pending changes nothing.
pub proof fn conversion_is_complete(
    table: Map<Seq<char>, Seq<char>>,
    k: KanaView,
    force: bool,
)
    ensures
        drained(table, drained(table, k, force), force) == drained(table, k, force),
    decreases k.pending.len(),
{
    if k.pending.len() > 0 {
        match resolved(table, k, force) {
            Some(next) if next.pending.len() < k.pending.len() => {
                conversion_is_complete(table, next, force);
            },
            _ => {},
        }
    }
}

proof fn lemma_drained_appends(table: Map<Seq<char>, Seq<char>>, k: KanaView, force: bool)
    ensures
        k.composed.is_prefix_of(drained(table, k, force).composed),
    decreases k.pending.len(),
{
    let d = drained(table, k, force);
    if k.pending.len() > 0 {
        match resolved(table, k, force) {
            Some(next) if next.pending.len() < k.pending.len() => {
                lemma_drained_appends(table, next, force);
                let a = k.composed;
                assert(next.composed.subrange(0, a.len() as int) =~= a);
                assert(d.composed.subrange(0, next.composed.len() as int) == next.composed);
                assert(d.composed.subrange(0, a.len() as int) =~= a) by {
                    assert forall|x: int| 0 <= x < a.len() implies d.composed[x] == a[x] by {
                        assert(d.composed.subrange(0, next.composed.len() as int)[x]
                            == next.composed[x]);
                        assert(next.composed.subrange(0, a.len() as int)[x] == a[x]);
                    }
                }
            },
            _ => {
                assert(d.composed.subrange(0, k.composed.len() as int) =~= k.composed);
            },
        }
    } else {
        assert(d.composed.subrange(0, k.composed.len() as int) =~= k.composed);
    }
}

proof fn lemma_collapsed_skips(
    table: Map<Seq<char>, Seq<char>>,
    s: Seq<char>,
    n: int,
    i: int,
)
    requires
        0 <= i <= n <= s.len(),
        forall|j: int| 0 <= j < n ==> !lower(#[trigger] s[j]),
    ensures
        collapsed(table, s, i) == s.subrange(i, n) + collapsed(table, s, n),
    decreases n - i,
{
    if i < n {
        lemma_collapsed_skips(table, s, n, i + 1);
        assert(run_end(s, i) == i);
        assert(s.subrange(i, n) =~= seq![s[i]] + s.subrange(i + 1, n));
        assert(collapsed(table, s, i) =~= s.subrange(i, n) + collapsed(table, s, n));
    } else {
        assert(collapsed(table, s, i) =~= s.subrange(i, n) + collapsed(table, s, n));
    }
}

/// Kana without Latin letters that stands before the pending romaji stays as it
/// is.
pub proof fn conversion_keeps_composed_kana(
    table: Map<Seq<char>, Seq<char>>,
    k: KanaView,
    force: bool,
)
    requires
        !has_lower(k.composed),
    ensures
        k.composed.is_prefix_of(romaji_converted(table, k, force).composed),
{
    let d = drained(table, k, force);
    let n = k.composed.len() as int;
    lemma_drained_appends(table, k, force);
    assert(d.composed.subrange(0, n) == k.composed);
    assert forall|j: int| 0 <= j < n implies !lower(#[trigger] d.composed[j]) by {
        assert(d.composed.subrange(0, n)[j] == k.composed[j]);
    }
    lemma_collapsed_skips(table, d.composed, n, 0);
    let c = collapsed(table, d.composed, 0);
    assert(c.subrange(0, n) =~= k.composed);
}

/// A lone n waits for what comes behind it, unless it is forced.
pub proof fn lone_n_waits(table: Map<Seq<char>, Seq<char>>, composed: Seq<char>)
    requires
        !table.contains_key(seq!['n']),
    ensures
        ({
            let k = KanaView { composed, pending: seq!['n'] };
            &&& drained(table, k, false) == k
            &&& drained(table, k, true) == (KanaView {
                composed: composed.push('ん'),
                pending: Seq::empty(),
            })
        }),
{
    let k = KanaView { composed, pending: seq!['n'] };
    assert(longest_match(table, k.pending, 0) == 0);
    let done = KanaView { composed: composed.push('ん'), pending: Seq::empty() };
    assert(resolved(table, k, true) == Some(done));
    assert(drained(table, done, true) == done);
}

} // verus!
