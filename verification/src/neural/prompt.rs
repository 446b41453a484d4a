//! Prompts of the language model.

use vstd::prelude::*;

use crate::text::{chars_of, push_text};
use crate::unicode::{self, hiragana_to_katakana};

verus! {

/// Marks the reading.
pub const CHAR_INPUT: char = '\u{EE00}';

/// Marks the conversion.
pub const CHAR_OUTPUT: char = '\u{EE01}';

/// Marks what stands before.
pub const CHAR_CONTEXT: char = '\u{EE02}';

/// The ideographic space.
pub const WIDE_SPACE: char = '\u{3000}';

pub open spec fn wide_char(c: char) -> char {
    if c == ' ' {
        WIDE_SPACE
    } else {
        c
    }
}

/// A text with ideographic spaces for its spaces.
pub open spec fn wide(s: Seq<char>) -> Seq<char> {
    Seq::new(s.len(), |i: int| wide_char(s[i]))
}

fn widen(s: &str) -> (r: String)
    ensures
        r@ == wide(s@),
{
    let chars = chars_of(s);
    let mut r = String::new();
    proof {
        assert(r@ =~= wide(s@).take(0));
    }
    let mut i: usize = 0;
    while i < chars.len()
        invariant
            chars@ == s@,
            i <= chars@.len(),
            r@ == wide(s@).take(i as int),
        decreases chars@.len() - i,
    {
        let c: char = chars[i];
        r.push(
            if c == ' ' {
                WIDE_SPACE
            } else {
                c
            },
        );
        proof {
            assert(wide(s@).take(i as int + 1) =~= wide(s@).take(i as int).push(wide_char(c)));
        }
        i = i + 1;
    }
    proof {
        assert(wide(s@).take(s@.len() as int) =~= wide(s@));
    }
    r
}

/// What all conversions of a reading share: context and reading.
pub open spec fn prompt_head(context: Seq<char>, kana: Seq<char>) -> Seq<char> {
    (wide(context).insert(0, CHAR_CONTEXT).push(CHAR_INPUT) + wide(
        unicode::all_to_katakana(kana),
    )).push(CHAR_OUTPUT)
}

/// A conversion, with the end mark.
pub open spec fn prompt_tail(output: Seq<char>) -> Seq<char> {
    wide(output) + "</s>"@
}

/// What all conversions of a reading share: context and reading.
pub fn build_prefix(context: &str, kana: &str) -> (r: String)
    ensures
        r@ == prompt_head(context@, kana@),
{
    let katakana = hiragana_to_katakana(kana);
    let mut r = String::new();
    r.push(CHAR_CONTEXT);
    push_text(&mut r, widen(context).as_str());
    r.push(CHAR_INPUT);
    push_text(&mut r, widen(katakana.as_str()).as_str());
    r.push(CHAR_OUTPUT);
    proof {
        assert(r@ =~= prompt_head(context@, kana@));
    }
    r
}

/// A conversion, with the end mark.
pub fn build_output(output: &str) -> (r: String)
    ensures
        r@ == prompt_tail(output@),
{
    let mut r = widen(output);
    push_text(&mut r, "</s>");
    r
}

/// The prompt of a conversion: context, reading in katakana, conversion and end
/// mark, with ideographic spaces.
pub fn build_prompt(context: &str, kana: &str, output: &str) -> (r: String)
    ensures
        r@ == prompt_head(context@, kana@) + prompt_tail(output@),
{
    let mut r = build_prefix(context, kana);
    push_text(&mut r, build_output(output).as_str());
    r
}

/// No prompt holds a plain space, whatever it is made from.
pub proof fn prompts_hold_no_space(context: Seq<char>, kana: Seq<char>, output: Seq<char>)
    ensures
        !(prompt_head(context, kana) + prompt_tail(output)).contains(' '),
{
    let p = prompt_head(context, kana) + prompt_tail(output);
    reveal_strlit("</s>");
    let k = wide(unicode::all_to_katakana(kana));
    let n = context.len() as int;
    assert forall|i: int| 0 <= i < p.len() implies p[i] != ' ' by {
        if 1 <= i <= n {
            assert(p[i] == wide_char(context[i - 1]));
        } else if n + 2 <= i < n + 2 + k.len() {
            assert(p[i] == k[i - n - 2]);
        } else if n + 3 + k.len() <= i < n + 3 + k.len() + output.len() {
            assert(p[i] == wide_char(output[i - n - 3 - k.len()]));
        } else if i >= n + 3 + k.len() + output.len() {
            assert(p[i] == "</s>"@[i - n - 3 - k.len() - output.len()]);
        }
    }
}

/// Whether `needle` stands in `haystack` at place `i`.
pub open spec fn stands_at(haystack: Seq<u32>, needle: Seq<u32>, i: int) -> bool {
    0 <= i <= haystack.len() - needle.len() && haystack.subrange(i, i + needle.len()) == needle
}

/// The first place at which `needle` stands in `haystack`.
pub fn find_subsequence(haystack: &[u32], needle: &[u32]) -> (r: Option<usize>)
    requires
        needle@.len() > 0,
    ensures
        match r {
            Some(i) => stands_at(haystack@, needle@, i as int) && forall|j: int|
                0 <= j < i ==> !#[trigger] stands_at(haystack@, needle@, j),
            None => forall|j: int| !#[trigger] stands_at(haystack@, needle@, j),
        },
{
    if haystack.len() < needle.len() {
        return None;
    }
    let n: usize = haystack.len();
    let last: usize = n - needle.len();
    let mut i: usize = 0;
    while i <= last
        invariant
            n == haystack@.len(),
            last == n - needle@.len(),
            needle@.len() > 0,
            i <= last + 1,
            forall|j: int| 0 <= j < i ==> !#[trigger] stands_at(haystack@, needle@, j),
        decreases last + 1 - i,
    {
        let mut k: usize = 0;
        let mut same: bool = true;
        while same && k < needle.len()
            invariant
                n == haystack@.len(),
                last == n - needle@.len(),
                i <= last,
                k <= needle@.len(),
                same ==> forall|m: int| 0 <= m < k ==> haystack@[i + m] == needle@[m],
                !same ==> exists|m: int|
                    0 <= m < needle@.len() && haystack@[i + m] != #[trigger] needle@[m],
            decreases needle@.len() - k, same as int,
        {
            if haystack[i + k] != needle[k] {
                same = false;
                proof {
                    assert(haystack@[i + k] != needle@[k as int]);
                }
            } else {
                k = k + 1;
            }
        }
        if same {
            proof {
                assert(haystack@.subrange(i as int, i + needle@.len()) =~= needle@);
            }
            return Some(i);
        }
        proof {
            let m = choose|m: int|
                0 <= m < needle@.len() && haystack@[i + m] != #[trigger] needle@[m];
            assert(haystack@.subrange(i as int, i + needle@.len())[m] == haystack@[i + m]);
        }
        i = i + 1;
    }
    None
}

/// A token that is fed at a position, and the token whose probability is read
/// from the answer.
#[derive(Debug, Clone, Copy, PartialEq, Eq, Structural)]
pub struct ScoreStep {
    pub token: u32,
    pub position: usize,
    pub target: u32,
}

/// The steps that score `tokens` behind a prefix of `prefix_len` tokens: each
/// token but the last is fed, and tells the probability of the next. The first
/// is told by the prefix itself.
pub fn score_steps(prefix_len: usize, tokens: &[u32]) -> (r: Vec<ScoreStep>)
    requires
        prefix_len + tokens@.len() <= usize::MAX,
    ensures
        r@.len() == if tokens@.len() == 0 {
            0
        } else {
            tokens@.len() - 1
        },
        forall|i: int|
            0 <= i < r@.len() ==> #[trigger] r@[i] == (ScoreStep {
                token: tokens@[i],
                position: (prefix_len + i) as usize,
                target: tokens@[i + 1],
            }),
{
    let mut r: Vec<ScoreStep> = Vec::new();
    let mut i: usize = 0;
    while i + 1 < tokens.len()
        invariant
            prefix_len + tokens@.len() <= usize::MAX,
            i == r@.len(),
            i <= tokens@.len(),
            tokens@.len() > 0 ==> i < tokens@.len(),
            forall|i: int|
                0 <= i < r@.len() ==> #[trigger] r@[i] == (ScoreStep {
                    token: tokens@[i],
                    position: (prefix_len + i) as usize,
                    target: tokens@[i + 1],
                }),
        decreases tokens@.len() - i,
    {
        r.push(ScoreStep { token: tokens[i], position: prefix_len + i, target: tokens[i + 1] });
        i = i + 1;
    }
    r
}

} // verus!
