//! Character classes of Japanese text, and the two kana syllabaries.

use vstd::prelude::*;

use crate::text::chars_of;

verus! {

/// `char::from_u32` converts a code point to the character it denotes, and
/// answers `None` for surrogates and for values past the last code point.
pub assume_specification[ char::from_u32 ](i: u32) -> (r: Option<char>)
    ensures
        (i <= 0xD7FF || 0xE000 <= i <= 0x10FFFF) ==> r == Some(i as char),
        !(i <= 0xD7FF || 0xE000 <= i <= 0x10FFFF) ==> r is None,
;

pub open spec fn hiragana(c: char) -> bool {
    0x3040 <= c as u32 <= 0x309F
}

pub open spec fn katakana(c: char) -> bool {
    0x30A0 <= c as u32 <= 0x30FF
}

/// CJK unified ideographs, with extension A and the compatibility block.
pub open spec fn kanji(c: char) -> bool {
    ||| 0x4E00 <= c as u32 <= 0x9FFF
    ||| 0x3400 <= c as u32 <= 0x4DBF
    ||| 0xF900 <= c as u32 <= 0xFAFF
}

pub open spec fn latin(c: char) -> bool {
    ||| 0x41 <= c as u32 <= 0x5A
    ||| 0x61 <= c as u32 <= 0x7A
    ||| 0xC0 <= c as u32 <= 0x24F
}

/// A hiragana letter with a katakana counterpart.
pub open spec fn hiragana_letter(c: char) -> bool {
    0x3041 <= c as u32 <= 0x3096
}

/// A katakana letter with a hiragana counterpart.
pub open spec fn katakana_letter(c: char) -> bool {
    0x30A1 <= c as u32 <= 0x30F6
}

pub open spec fn to_katakana(c: char) -> char {
    if hiragana_letter(c) {
        (c as u32 + 0x60) as char
    } else {
        c
    }
}

pub open spec fn to_hiragana(c: char) -> char {
    if katakana_letter(c) {
        (c as u32 - 0x60) as char
    } else {
        c
    }
}

pub open spec fn all_to_katakana(s: Seq<char>) -> Seq<char> {
    Seq::new(s.len(), |i: int| to_katakana(s[i]))
}

pub open spec fn all_to_hiragana(s: Seq<char>) -> Seq<char> {
    Seq::new(s.len(), |i: int| to_hiragana(s[i]))
}

/// A reading: at least one character, each hiragana or the prolonged sound mark.
pub open spec fn hiragana_reading(s: Seq<char>) -> bool {
    &&& s.len() > 0
    &&& forall|i: int| 0 <= i < s.len() ==> hiragana(#[trigger] s[i]) || s[i] == 'ー'
}

pub fn is_hiragana(c: char) -> (r: bool)
    ensures
        r == hiragana(c),
{
    let u: u32 = c as u32;
    0x3040 <= u && u <= 0x309F
}

pub fn is_katakana(c: char) -> (r: bool)
    ensures
        r == katakana(c),
{
    let u: u32 = c as u32;
    0x30A0 <= u && u <= 0x30FF
}

pub fn is_kanji(c: char) -> (r: bool)
    ensures
        r == kanji(c),
{
    let u: u32 = c as u32;
    (0x4E00 <= u && u <= 0x9FFF) || (0x3400 <= u && u <= 0x4DBF) || (0xF900 <= u && u <= 0xFAFF)
}

pub fn is_latin(c: char) -> (r: bool)
    ensures
        r == latin(c),
{
    let u: u32 = c as u32;
    (0x41 <= u && u <= 0x5A) || (0x61 <= u && u <= 0x7A) || (0xC0 <= u && u <= 0x24F)
}

fn char_to_katakana(c: char) -> (r: char)
    ensures
        r == to_katakana(c),
{
    let u: u32 = c as u32;
    if 0x3041 <= u && u <= 0x3096 {
        match char::from_u32(u + 0x60) {
            Some(k) => k,
            None => c,
        }
    } else {
        c
    }
}

fn char_to_hiragana(c: char) -> (r: char)
    ensures
        r == to_hiragana(c),
{
    let u: u32 = c as u32;
    if 0x30A1 <= u && u <= 0x30F6 {
        match char::from_u32(u - 0x60) {
            Some(h) => h,
            None => c,
        }
    } else {
        c
    }
}

/// Converts every hiragana letter to katakana; other characters stay.
pub fn hiragana_to_katakana(s: &str) -> (r: String)
    ensures
        r@ == all_to_katakana(s@),
{
    let chars: Vec<char> = chars_of(s);
    let mut out = String::new();
    let mut i: usize = 0;
    while i < chars.len()
        invariant
            i <= chars@.len(),
            chars@ == s@,
            out@ =~= all_to_katakana(s@).take(i as int),
        decreases chars.len() - i,
    {
        out.push(char_to_katakana(chars[i]));
        i = i + 1;
    }
    out
}

/// Converts every katakana letter to hiragana; other characters stay.
pub fn kata_to_hira(s: &str) -> (r: String)
    ensures
        r@ == all_to_hiragana(s@),
{
    let chars: Vec<char> = chars_of(s);
    let mut out = String::new();
    let mut i: usize = 0;
    while i < chars.len()
        invariant
            i <= chars@.len(),
            chars@ == s@,
            out@ =~= all_to_hiragana(s@).take(i as int),
        decreases chars.len() - i,
    {
        out.push(char_to_hiragana(chars[i]));
        i = i + 1;
    }
    out
}

/// Whether `s` can stand as a dictionary reading.
pub fn is_hiragana_reading(s: &str) -> (r: bool)
    ensures
        r == hiragana_reading(s@),
{
    let chars: Vec<char> = chars_of(s);
    let mut i: usize = 0;
    while i < chars.len()
        invariant
            i <= chars@.len(),
            chars@ == s@,
            forall|j: int| 0 <= j < i ==> hiragana(#[trigger] s@[j]) || s@[j] == 'ー',
        decreases chars.len() - i,
    {
        if !is_hiragana(chars[i]) && chars[i] != 'ー' {
            return false;
        }
        i = i + 1;
    }
    chars.len() > 0
}

proof fn lemma_to_katakana_back(c: char)
    requires
        !katakana_letter(c),
    ensures
        to_hiragana(to_katakana(c)) == c,
{
}

proof fn lemma_to_hiragana_back(c: char)
    requires
        !hiragana_letter(c),
    ensures
        to_katakana(to_hiragana(c)) == c,
{
}

/// Going to katakana and back gives the text again, when it held no katakana
/// letter to begin with.
pub proof fn katakana_round_trip(s: Seq<char>)
    requires
        forall|i: int| 0 <= i < s.len() ==> !katakana_letter(#[trigger] s[i]),
    ensures
        all_to_hiragana(all_to_katakana(s)) == s,
{
    assert forall|i: int| 0 <= i < s.len() implies to_hiragana(to_katakana(#[trigger] s[i]))
        == s[i] by {
        lemma_to_katakana_back(s[i]);
    }
    assert(all_to_hiragana(all_to_katakana(s)) =~= s);
}

/// Going to hiragana and back gives the text again, when it held no hiragana
/// letter to begin with.
pub proof fn hiragana_round_trip(s: Seq<char>)
    requires
        forall|i: int| 0 <= i < s.len() ==> !hiragana_letter(#[trigger] s[i]),
    ensures
        all_to_katakana(all_to_hiragana(s)) == s,
{
    assert forall|i: int| 0 <= i < s.len() implies to_katakana(to_hiragana(#[trigger] s[i]))
        == s[i] by {
        lemma_to_hiragana_back(s[i]);
    }
    assert(all_to_katakana(all_to_hiragana(s)) =~= s);
}

} // verus!
