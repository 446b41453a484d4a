//! What typed romaji becomes, case by case.

use vstd::prelude::*;

use super::convert::{self, KanaView};

verus! {

/// No sequence of the table begins with `p`: it is neither a sequence nor a
/// beginning of one.
pub open spec fn leads_nowhere(table: Map<Seq<char>, Seq<char>>, p: Seq<char>) -> bool {
    forall|s: Seq<char>| #[trigger] table.contains_key(s) ==> !p.is_prefix_of(s)
}

/// No shorter beginning of `p` is a sequence of the table.
pub open spec fn starts_with_none(table: Map<Seq<char>, Seq<char>>, p: Seq<char>) -> bool {
    forall|n: int| 0 < n < p.len() ==> !table.contains_key(#[trigger] p.take(n))
}

/// One step goes from `k` to `next`: it gives `next`, and `k` converts to what
/// `next` converts to.
pub open spec fn goes_to(
    table: Map<Seq<char>, Seq<char>>,
    k: KanaView,
    force: bool,
    next: KanaView,
) -> bool {
    &&& convert::resolved(table, k, force) == Some(next)
    &&& convert::romaji_converted(table, k, force) == convert::romaji_converted(table, next, force)
}

/// Romaji that is pending stays pending.
pub open spec fn waits(table: Map<Seq<char>, Seq<char>>, k: KanaView, force: bool) -> bool {
    &&& convert::resolved(table, k, force) is None
    &&& convert::romaji_converted(table, k, force).pending == k.pending
}

proof fn lemma_unknown(table: Map<Seq<char>, Seq<char>>, p: Seq<char>)
    requires
        leads_nowhere(table, p),
    ensures
        super::trie::known(table, p) is NoMatch,
{
    if table.contains_key(p) {
        assert(p.is_prefix_of(p)) by {
            assert(p.subrange(0, p.len() as int) =~= p);
        }
    }
}

proof fn lemma_nothing_matches(table: Map<Seq<char>, Seq<char>>, p: Seq<char>, n: int)
    requires
        starts_with_none(table, p),
        n < p.len(),
    ensures
        convert::longest_match(table, p, n) == 0,
    decreases n,
{
    if n > 0 {
        assert(!table.contains_key(p.take(n)));
        lemma_nothing_matches(table, p, n - 1);
    }
}

proof fn lemma_longest(table: Map<Seq<char>, Seq<char>>, p: Seq<char>, n: int, m: int)
    requires
        0 < n <= m < p.len(),
        table.contains_key(p.take(n)),
        forall|j: int| n < j < p.len() ==> !table.contains_key(#[trigger] p.take(j)),
    ensures
        convert::longest_match(table, p, m) == n,
    decreases m,
{
    if m > n {
        assert(!table.contains_key(p.take(m)));
        lemma_longest(table, p, n, m - 1);
    }
}

/// A doubled consonant gives a small tsu: where pending romaji starts with a
/// character twice that is neither a vowel nor n, leads to no sequence and does
/// not start with one, a step adds っ and takes the first character away.
pub proof fn doubled_consonants_give_a_small_tsu(
    table: Map<Seq<char>, Seq<char>>,
    k: KanaView,
    force: bool,
)
    requires
        k.pending.len() >= 2,
        k.pending[0] == k.pending[1],
        k.pending[0] != 'a' && k.pending[0] != 'i' && k.pending[0] != 'u' && k.pending[0] != 'e'
            && k.pending[0] != 'o' && k.pending[0] != 'n',
        leads_nowhere(table, k.pending),
        starts_with_none(table, k.pending),
    ensures
        goes_to(
            table,
            k,
            force,
            (KanaView { composed: k.composed.push('っ'), pending: k.pending.skip(1) }),
        ),
{
    lemma_unknown(table, k.pending);
    lemma_nothing_matches(table, k.pending, k.pending.len() - 1);
}

/// An n before a consonant gives ん: where pending romaji starts with n and a
/// character that is neither a vowel nor n nor y, leads to no sequence and does
/// not start with one, a step adds ん and takes the n away.
pub proof fn n_before_a_consonant_is_a_syllable(
    table: Map<Seq<char>, Seq<char>>,
    k: KanaView,
    force: bool,
)
    requires
        k.pending.len() >= 2,
        k.pending[0] == 'n',
        k.pending[1] != 'a' && k.pending[1] != 'i' && k.pending[1] != 'u' && k.pending[1] != 'e'
            && k.pending[1] != 'o' && k.pending[1] != 'n' && k.pending[1] != 'y',
        leads_nowhere(table, k.pending),
        starts_with_none(table, k.pending),
    ensures
        goes_to(
            table,
            k,
            force,
            (KanaView { composed: k.composed.push('ん'), pending: k.pending.skip(1) }),
        ),
{
    lemma_unknown(table, k.pending);
    lemma_nothing_matches(table, k.pending, k.pending.len() - 1);
}

/// A sequence becomes its kana, and nothing of it stays pending, where no longer
/// sequence begins with it or the conversion is forced; else it waits.
pub proof fn sequences_become_their_kana(
    table: Map<Seq<char>, Seq<char>>,
    k: KanaView,
    force: bool,
)
    requires
        k.pending.len() > 0,
        table.contains_key(k.pending),
    ensures
        force || (forall|s: Seq<char>| #[trigger]
            table.contains_key(s) && k.pending.is_prefix_of(s) ==> s == k.pending) ==> goes_to(
            table,
            k,
            force,
            (KanaView { composed: k.composed + table[k.pending], pending: Seq::empty() }),
        ),
        !force && (exists|s: Seq<char>| #[trigger]
            table.contains_key(s) && k.pending.is_prefix_of(s) && s.len() > k.pending.len())
            ==> waits(table, k, force),
{
    let p = k.pending;
    if forall|s: Seq<char>| #[trigger]
        table.contains_key(s) && p.is_prefix_of(s) ==> s == p {
        assert(!super::trie::has_longer(table, p));
    }
    if exists|s: Seq<char>| #[trigger]
        table.contains_key(s) && p.is_prefix_of(s) && s.len() > p.len() {
        let s = choose|s: Seq<char>| #[trigger]
            table.contains_key(s) && p.is_prefix_of(s) && s.len() > p.len();
        assert(super::trie::begins(p, s));
        assert(super::trie::has_longer(table, p));
    }
}

/// A beginning of a sequence that is none itself waits for what comes behind it,
/// unless the conversion is forced.
pub proof fn beginnings_wait(table: Map<Seq<char>, Seq<char>>, k: KanaView, s: Seq<char>)
    requires
        k.pending.len() > 0,
        !table.contains_key(k.pending),
        table.contains_key(s),
        k.pending.is_prefix_of(s),
    ensures
        waits(table, k, false),
{
    assert(s.len() > k.pending.len()) by {
        if s.len() == k.pending.len() {
            assert(k.pending =~= s.subrange(0, k.pending.len() as int));
            assert(s =~= k.pending);
        }
    }
    assert(super::trie::begins(k.pending, s));
}

/// Of romaji that leads to no sequence the longest beginning that is one becomes
/// its kana, and what stands behind it stays pending.
pub proof fn longest_beginning_comes_first(
    table: Map<Seq<char>, Seq<char>>,
    k: KanaView,
    force: bool,
    n: int,
)
    requires
        0 < n < k.pending.len(),
        leads_nowhere(table, k.pending),
        table.contains_key(k.pending.take(n)),
        forall|j: int| n < j < k.pending.len() ==> !table.contains_key(#[trigger] k.pending.take(j)),
    ensures
        goes_to(
            table,
            k,
            force,
            (KanaView {
                composed: k.composed + table[k.pending.take(n)],
                pending: k.pending.skip(n),
            }),
        ),
{
    lemma_unknown(table, k.pending);
    lemma_longest(table, k.pending, n, k.pending.len() - 1);
}

/// A single character that leads to no sequence is taken as it is, but for n,
/// which waits, and gives ん when the conversion is forced.
pub proof fn lone_characters_stay(
    table: Map<Seq<char>, Seq<char>>,
    composed: Seq<char>,
    c: char,
    force: bool,
)
    requires
        leads_nowhere(table, seq![c]),
    ensures
        ({
            let k = KanaView { composed, pending: seq![c] };
            &&& c != 'n' ==> goes_to(
                table,
                k,
                force,
                KanaView { composed: composed.push(c), pending: Seq::empty() },
            )
            &&& c == 'n' && force ==> goes_to(
                table,
                k,
                force,
                KanaView { composed: composed.push('ん'), pending: Seq::empty() },
            )
            &&& c == 'n' && !force ==> waits(table, k, force)
        }),
{
    let k = KanaView { composed, pending: seq![c] };
    lemma_unknown(table, k.pending);
    assert(seq![c][0] == c);
    assert(k.pending != seq!['n'] <==> c != 'n') by {
        assert(seq!['n'][0] == 'n');
    }
    assert(composed + seq![c] =~= composed.push(c));
    assert(convert::longest_match(table, k.pending, 0) == 0);
}

/// Two characters or more that lead to no sequence, start with none, and start
/// neither with a doubled consonant nor with n before a consonant, wait; when the
/// conversion is forced the first of them is taken as it is.
pub proof fn other_romaji_waits(table: Map<Seq<char>, Seq<char>>, k: KanaView, force: bool)
    requires
        k.pending.len() >= 2,
        leads_nowhere(table, k.pending),
        starts_with_none(table, k.pending),
        k.pending[0] != k.pending[1] || k.pending[0] == 'a' || k.pending[0] == 'i' || k.pending[0]
            == 'u' || k.pending[0] == 'e' || k.pending[0] == 'o' || k.pending[0] == 'n',
        k.pending[0] != 'n' || k.pending[1] == 'a' || k.pending[1] == 'i' || k.pending[1] == 'u'
            || k.pending[1] == 'e' || k.pending[1] == 'o' || k.pending[1] == 'n' || k.pending[1]
            == 'y',
    ensures
        !force ==> waits(table, k, force),
        force ==> goes_to(
            table,
            k,
            force,
            (KanaView { composed: k.composed.push(k.pending[0]), pending: k.pending.skip(1) }),
        ),
{
    lemma_unknown(table, k.pending);
    lemma_nothing_matches(table, k.pending, k.pending.len() - 1);
}

/// Forced, a beginning of a sequence is taken apart like romaji that leads to none:
/// its longest beginning that is a sequence goes first.
pub proof fn forced_beginnings_are_taken_apart(
    table: Map<Seq<char>, Seq<char>>,
    k: KanaView,
    n: int,
)
    requires
        0 < n < k.pending.len(),
        !table.contains_key(k.pending),
        table.contains_key(k.pending.take(n)),
        forall|j: int| n < j < k.pending.len() ==> !table.contains_key(#[trigger] k.pending.take(j)),
    ensures
        goes_to(
            table,
            k,
            true,
            (KanaView {
                composed: k.composed + table[k.pending.take(n)],
                pending: k.pending.skip(n),
            }),
        ),
{
    lemma_longest(table, k.pending, n, k.pending.len() - 1);
}

/// The Latin letter of a kana vowel: あ a, い i, う u, え e, お o.
pub open spec fn spells(c: char, letter: char) -> bool {
    ||| c == 'あ' && letter == 'a'
    ||| c == 'い' && letter == 'i'
    ||| c == 'う' && letter == 'u'
    ||| c == 'え' && letter == 'e'
    ||| c == 'お' && letter == 'o'
}

proof fn lemma_run(s: Seq<char>, i: int, n: int)
    requires
        0 <= i <= n < s.len(),
        forall|j: int| 0 <= j < n ==> 'a' <= #[trigger] s[j] <= 'z',
        !('a' <= s[n] <= 'z'),
    ensures
        convert::run_end(s, i) == n,
    decreases n - i,
{
    if i < n {
        lemma_run(s, i + 1, n);
    }
}

/// Letters that stand before a kana vowel go together with it to the kana of the
/// syllable that they spell with its letter.
pub proof fn letters_join_the_vowel_behind_them(
    table: Map<Seq<char>, Seq<char>>,
    letters: Seq<char>,
    c: char,
    letter: char,
    force: bool,
)
    requires
        letters.len() > 0,
        forall|j: int| 0 <= j < letters.len() ==> 'a' <= #[trigger] letters[j] <= 'z',
        spells(c, letter),
        table.contains_key(letters.push(letter)),
    ensures
        convert::romaji_converted(
            table,
            (KanaView { composed: letters.push(c), pending: Seq::empty() }),
            force,
        ) == (KanaView { composed: table[letters.push(letter)], pending: Seq::empty() }),
{
    let s = letters.push(c);
    let n = letters.len() as int;
    assert forall|j: int| 0 <= j < n implies 'a' <= #[trigger] s[j] <= 'z' by {
        assert(s[j] == letters[j]);
    }
    assert(convert::lower(s[0]));
    lemma_run(s, 0, n);
    assert(s.subrange(0, n) =~= letters);
    assert(convert::collapsed(table, s, n + 1) == Seq::<char>::empty());
    assert(table[letters.push(letter)] + Seq::<char>::empty() =~= table[letters.push(letter)]);
}

/// Kana without lower-case letters, and nothing pending, stays as it is.
pub proof fn plain_kana_stays(table: Map<Seq<char>, Seq<char>>, composed: Seq<char>, force: bool)
    requires
        forall|j: int| 0 <= j < composed.len() ==> !('a' <= #[trigger] composed[j] <= 'z'),
    ensures
        convert::romaji_converted(table, (KanaView { composed, pending: Seq::empty() }), force)
            == (KanaView { composed, pending: Seq::empty() }),
{
}

/// A sequence is looked up as what it is: known where the table has it, and the
/// beginning of a longer one where the table has one that begins with it.
pub proof fn lookups_tell_what_is_known(table: Map<Seq<char>, Seq<char>>, p: Seq<char>)
    ensures
        ({
            let found = super::trie::known(table, p);
            let longer = exists|s: Seq<char>| #[trigger]
                table.contains_key(s) && p.is_prefix_of(s) && s.len() > p.len();
            &&& found is NoMatch <==> !table.contains_key(p) && !longer
            &&& found is Prefix <==> !table.contains_key(p) && longer
            &&& found is Exact <==> table.contains_key(p) && !longer
            &&& found is ExactAndPrefix <==> table.contains_key(p) && longer
            &&& table.contains_key(p) ==> super::trie::kana_of(found) == Some(table[p])
            &&& !table.contains_key(p) ==> super::trie::kana_of(found) is None
        }),
{
    if exists|s: Seq<char>| #[trigger]
        table.contains_key(s) && p.is_prefix_of(s) && s.len() > p.len() {
        let s = choose|s: Seq<char>| #[trigger]
            table.contains_key(s) && p.is_prefix_of(s) && s.len() > p.len();
        assert(super::trie::begins(p, s));
    }
    if super::trie::has_longer(table, p) {
        let s = choose|s: Seq<char>| #[trigger]
            table.contains_key(s) && super::trie::begins(p, s);
        assert(table.contains_key(s) && p.is_prefix_of(s) && s.len() > p.len());
    }
}

proof fn lemma_no_vowel(table: Map<Seq<char>, Seq<char>>, s: Seq<char>, i: int)
    requires
        0 <= i <= s.len(),
        forall|j: int| 0 <= j < s.len() ==> convert::vowel_letter(#[trigger] s[j]) is None,
    ensures
        convert::collapsed(table, s, i) == s.skip(i),
    decreases s.len() - i,
{
    if i < s.len() {
        lemma_no_vowel(table, s, i + 1);
        lemma_run_within(s, i);
        let j = convert::run_end(s, i);
        if j < s.len() {
            assert(convert::vowel_letter(s[j]) is None);
        }
        assert(convert::latin_syllable(s, i) is None);
        assert(s.skip(i) =~= seq![s[i]] + s.skip(i + 1));
    } else {
        assert(convert::collapsed(table, s, i) =~= s.skip(i));
    }
}

proof fn lemma_run_within(s: Seq<char>, i: int)
    requires
        0 <= i <= s.len(),
    ensures
        i <= convert::run_end(s, i) <= s.len(),
    decreases s.len() - i,
{
    if i < s.len() && convert::lower(s[i]) {
        lemma_run_within(s, i + 1);
    }
}

/// Letters stay where no kana vowel stands behind them.
pub proof fn letters_without_a_vowel_stay(
    table: Map<Seq<char>, Seq<char>>,
    composed: Seq<char>,
    force: bool,
)
    requires
        forall|j: int|
            0 <= j < composed.len() ==> (#[trigger] composed[j]) != 'あ' && composed[j] != 'い'
                && composed[j] != 'う' && composed[j] != 'え' && composed[j] != 'お',
    ensures
        convert::romaji_converted(table, (KanaView { composed, pending: Seq::empty() }), force)
            == (KanaView { composed, pending: Seq::empty() }),
{
    lemma_no_vowel(table, composed, 0);
    assert(composed.skip(0) =~= composed);
}

} // verus!
