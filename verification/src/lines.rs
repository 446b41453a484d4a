//! Lines, fields and numbers of text files.

use vstd::prelude::*;

use crate::text::{self, chars_of, text_between};

verus! {

/// The pieces of `s` between the separators: one more than there are separators.
pub open spec fn split(s: Seq<char>, sep: char) -> Seq<Seq<char>>
    decreases s.len(),
{
    if s.len() == 0 {
        seq![Seq::empty()]
    } else {
        let before = split(s.drop_last(), sep);
        if s.last() == sep {
            before.push(Seq::empty())
        } else {
            before.drop_last().push(before.last().push(s.last()))
        }
    }
}

/// A line without the carriage return at its end.
pub open spec fn without_return(line: Seq<char>) -> Seq<char> {
    if line.len() > 0 && line.last() == '\r' {
        line.drop_last()
    } else {
        line
    }
}

/// The lines of a text. A line ends in a line feed, or in a carriage return and a
/// line feed; the last line may go without.
pub open spec fn lines(s: Seq<char>) -> Seq<Seq<char>> {
    let pieces = split(s, '\n');
    let ended = Seq::new(
        (pieces.len() - 1) as nat,
        |i: int| without_return(pieces[i]),
    );
    if pieces.last().len() == 0 {
        ended
    } else {
        ended.push(pieces.last())
    }
}

/// The pieces of a list of characters between the separators.
fn pieces_of(chars: &Vec<char>, sep: char) -> (r: Vec<String>)
    ensures
        text::views(r@) == split(chars@, sep),
        r@.len() >= 1,
{
    let mut out: Vec<String> = Vec::new();
    let mut from: usize = 0;
    let mut i: usize = 0;
    proof {
        assert(chars@.take(0) =~= Seq::empty());
        assert(split(chars@.take(0), sep) =~= text::views(out@).push(chars@.subrange(0, 0)));
    }
    while i < chars.len()
        invariant
            from <= i <= chars@.len(),
            split(chars@.take(i as int), sep) == text::views(out@).push(
                chars@.subrange(from as int, i as int),
            ),
        decreases chars.len() - i,
    {
        let ghost before = split(chars@.take(i as int), sep);
        proof {
            assert(chars@.take(i + 1).drop_last() =~= chars@.take(i as int));
            assert(chars@.take(i + 1).last() == chars@[i as int]);
        }
        if chars[i] == sep {
            out.push(text_between(chars, from, i));
            from = i + 1;
            proof {
                assert(text::views(out@) =~= before);
                assert(chars@.subrange(from as int, i + 1) =~= Seq::<char>::empty());
            }
        } else {
            proof {
                assert(before.drop_last() =~= text::views(out@));
                assert(chars@.subrange(from as int, i + 1) =~= chars@.subrange(
                    from as int,
                    i as int,
                ).push(chars@[i as int]));
            }
        }
        i = i + 1;
    }
    out.push(text_between(chars, from, i));
    proof {
        assert(chars@.take(i as int) =~= chars@);
        assert(text::views(out@) =~= split(chars@, sep));
    }
    out
}

/// The pieces of `s` between the separators.
pub fn split_at(s: &str, sep: char) -> (r: Vec<String>)
    ensures
        text::views(r@) == split(s@, sep),
        r@.len() >= 1,
{
    pieces_of(&chars_of(s), sep)
}

/// The lines of a text.
pub fn lines_of(s: &str) -> (r: Vec<String>)
    ensures
        text::views(r@) == lines(s@),
{
    let mut pieces: Vec<String> = split_at(s, '\n');
    let ghost all = pieces@;
    let last: Option<String> = pieces.pop();
    proof {
        assert(text::views(all)[all.len() - 1] == all.last()@);
    }
    let mut out: Vec<String> = Vec::new();
    let mut i: usize = 0;
    while i < pieces.len()
        invariant
            i <= pieces@.len(),
            pieces@ == all.drop_last(),
            text::views(all) == split(s@, '\n'),
            all.len() >= 1,
            out@.len() == i,
            forall|j: int| 0 <= j < i ==> (#[trigger] out@[j])@ == without_return(split(s@, '\n')[j]),
        decreases pieces.len() - i,
    {
        let mut line: String = pieces[i].clone();
        proof {
            assert(pieces@[i as int]@ == text::views(all)[i as int]);
        }
        match line.pop() {
            Some(c) => {
                if c != '\r' {
                    line.push(c);
                    proof {
                        let l = split(s@, '\n')[i as int];
                        assert(l.drop_last().push(l.last()) =~= l);
                    }
                }
            },
            None => {},
        }
        out.push(line);
        i = i + 1;
    }
    if let Some(l) = last {
        if !l.as_str().is_empty() {
            out.push(l);
        }
    }
    proof {
        assert(text::views(out@) =~= lines(s@));
    }
    out
}

/// The characters that Unicode counts as white space.
pub open spec fn white_space(c: char) -> bool {
    ||| 0x9 <= c as u32 <= 0xD
    ||| c as u32 == 0x20
    ||| c as u32 == 0x85
    ||| c as u32 == 0xA0
    ||| c as u32 == 0x1680
    ||| 0x2000 <= c as u32 <= 0x200A
    ||| 0x2028 <= c as u32 <= 0x2029
    ||| c as u32 == 0x202F
    ||| c as u32 == 0x205F
    ||| c as u32 == 0x3000
}

/// A text without the white space at its end.
pub open spec fn trimmed_end(s: Seq<char>) -> Seq<char>
    decreases s.len(),
{
    if s.len() > 0 && white_space(s.last()) {
        trimmed_end(s.drop_last())
    } else {
        s
    }
}

/// A text without the white space at its start.
pub open spec fn trimmed_start(s: Seq<char>) -> Seq<char>
    decreases s.len(),
{
    if s.len() > 0 && white_space(s[0]) {
        trimmed_start(s.drop_first())
    } else {
        s
    }
}

/// A text without the white space around it.
pub open spec fn trimmed(s: Seq<char>) -> Seq<char> {
    trimmed_end(trimmed_start(s))
}

/// Whether `c` is white space.
pub fn is_white_space(c: char) -> (r: bool)
    ensures
        r == white_space(c),
{
    let u: u32 = c as u32;
    (0x9 <= u && u <= 0xD) || u == 0x20 || u == 0x85 || u == 0xA0 || u == 0x1680 || (0x2000 <= u
        && u <= 0x200A) || (0x2028 <= u && u <= 0x2029) || u == 0x202F || u == 0x205F || u == 0x3000
}

/// A text without the white space around it.
pub fn trim(s: &str) -> (r: String)
    ensures
        r@ == trimmed(s@),
{
    let chars: Vec<char> = chars_of(s);
    let mut from: usize = 0;
    proof {
        assert(s@.skip(0) =~= s@);
    }
    while from < chars.len() && is_white_space(chars[from])
        invariant
            chars@ == s@,
            from <= chars@.len(),
            trimmed_start(s@) == trimmed_start(s@.skip(from as int)),
        decreases chars.len() - from,
    {
        proof {
            assert(s@.skip(from as int).drop_first() =~= s@.skip(from + 1));
            assert(s@.skip(from as int)[0] == s@[from as int]);
        }
        from = from + 1;
    }
    let mut to: usize = chars.len();
    proof {
        if from < s@.len() {
            assert(s@.skip(from as int)[0] == s@[from as int]);
        }
        assert(s@.skip(from as int) =~= s@.subrange(from as int, to as int));
    }
    while from < to && is_white_space(chars[to - 1])
        invariant
            chars@ == s@,
            from <= to <= chars@.len(),
            trimmed(s@) == trimmed_end(s@.subrange(from as int, to as int)),
        decreases to - from,
    {
        proof {
            let part = s@.subrange(from as int, to as int);
            assert(part.drop_last() =~= s@.subrange(from as int, to - 1));
            assert(part.last() == s@[to - 1]);
        }
        to = to - 1;
    }
    proof {
        let part = s@.subrange(from as int, to as int);
        if from < to {
            assert(part.last() == s@[to - 1]);
        }
    }
    text_between(&chars, from, to)
}

/// The words of a line: the longest pieces without white space.
pub open spec fn words(s: Seq<char>) -> Seq<Seq<char>>
    decreases s.len(),
{
    if s.len() == 0 {
        Seq::empty()
    } else {
        let before = words(s.drop_last());
        if white_space(s.last()) {
            before
        } else if s.len() == 1 || white_space(s[s.len() - 2]) {
            before.push(seq![s.last()])
        } else {
            before.drop_last().push(before.last().push(s.last()))
        }
    }
}

/// The words of a line.
pub fn words_of(s: &str) -> (r: Vec<String>)
    ensures
        text::views(r@) == words(s@),
{
    let chars: Vec<char> = chars_of(s);
    let mut out: Vec<String> = Vec::new();
    let mut from: usize = 0;
    let mut inside: bool = false;
    let mut i: usize = 0;
    proof {
        assert(chars@.take(0) =~= Seq::empty());
        assert(text::views(out@) =~= Seq::empty());
    }
    while i < chars.len()
        invariant
            from <= i <= chars@.len(),
            inside <==> i > 0 && !white_space(chars@[i - 1]),
            words(chars@.take(i as int)) == if inside {
                text::views(out@).push(chars@.subrange(from as int, i as int))
            } else {
                text::views(out@)
            },
        decreases chars.len() - i,
    {
        let ghost before = words(chars@.take(i as int));
        let ghost out0 = text::views(out@);
        proof {
            let next = chars@.take(i + 1);
            assert(next.drop_last() =~= chars@.take(i as int));
            assert(next.last() == chars@[i as int]);
            if i > 0 {
                assert(next[i - 1] == chars@[i - 1]);
            }
        }
        if is_white_space(chars[i]) {
            if inside {
                out.push(text_between(&chars, from, i));
                proof {
                    assert(text::views(out@) =~= before);
                }
                inside = false;
            }
        } else if !inside {
            from = i;
            inside = true;
            proof {
                assert(chars@.subrange(from as int, i + 1) =~= seq![chars@[i as int]]);
            }
        } else {
            proof {
                assert(before.drop_last() =~= out0);
                assert(chars@.subrange(from as int, i + 1) =~= chars@.subrange(
                    from as int,
                    i as int,
                ).push(chars@[i as int]));
            }
        }
        i = i + 1;
    }
    proof {
        assert(chars@.take(i as int) =~= chars@);
    }
    if inside {
        let ghost out0 = text::views(out@);
        out.push(text_between(&chars, from, i));
        proof {
            assert(text::views(out@) =~= out0.push(chars@.subrange(from as int, i as int)));
        }
    }
    out
}

/// Whether `c` is a decimal digit.
pub open spec fn digit(c: char) -> bool {
    '0' <= c <= '9'
}

/// The number that decimal digits spell.
pub open spec fn decimal(s: Seq<char>) -> int
    decreases s.len(),
{
    if s.len() == 0 {
        0
    } else {
        10 * decimal(s.drop_last()) + (s.last() as int - '0' as int)
    }
}

/// At least one character, all of them decimal digits.
pub open spec fn digits(s: Seq<char>) -> bool {
    &&& s.len() > 0
    &&& forall|i: int| 0 <= i < s.len() ==> digit(#[trigger] s[i])
}

/// The number that a text spells: decimal digits, with a plus sign before them or
/// without.
pub open spec fn natural_number(s: Seq<char>) -> Option<int> {
    let body = if s.len() > 0 && s[0] == '+' {
        s.skip(1)
    } else {
        s
    };
    if digits(body) {
        Some(decimal(body))
    } else {
        None
    }
}

/// The number that a text spells: decimal digits, with a sign before them or
/// without.
pub open spec fn whole_number(s: Seq<char>) -> Option<int> {
    if s.len() > 0 && s[0] == '-' {
        if digits(s.skip(1)) {
            Some(-decimal(s.skip(1)))
        } else {
            None
        }
    } else {
        natural_number(s)
    }
}

/// The number that `chars[from..]` spells, or `limit` where it is larger.
fn number_up_to(chars: &Vec<char>, from: usize, limit: u32) -> (r: Option<u32>)
    requires
        from <= chars@.len(),
        limit < 0x1000_0000,
    ensures
        r is Some <==> digits(chars@.skip(from as int)),
        r is Some ==> r->0 == if decimal(chars@.skip(from as int)) <= limit {
            decimal(chars@.skip(from as int))
        } else {
            limit as int
        },
{
    let ghost body = chars@.skip(from as int);
    if from == chars.len() {
        return None;
    }
    let mut value: u32 = 0;
    let mut i: usize = from;
    proof {
        assert(body.take(0) =~= Seq::empty());
    }
    while i < chars.len()
        invariant
            from <= i <= chars@.len(),
            body == chars@.skip(from as int),
            limit < 0x1000_0000,
            forall|j: int| 0 <= j < i - from ==> digit(#[trigger] body[j]),
            decimal(body.take(i - from)) >= 0,
            value == if decimal(body.take(i - from)) <= limit {
                decimal(body.take(i - from))
            } else {
                limit as int
            },
        decreases chars.len() - i,
    {
        let c: char = chars[i];
        proof {
            assert(body[i - from] == c);
            assert(body.take(i - from + 1).drop_last() =~= body.take(i - from));
        }
        if c < '0' || c > '9' {
            return None;
        }
        value = value * 10 + (c as u32 - '0' as u32);
        if value > limit {
            value = limit;
        }
        i = i + 1;
    }
    proof {
        assert(body.take(i - from) =~= body);
    }
    Some(value)
}

/// Reads a number from 0 to 65535.
pub fn parse_u16(s: &str) -> (r: Option<u16>)
    ensures
        r is Some <==> natural_number(s@) is Some && natural_number(s@)->0 <= u16::MAX,
        r is Some ==> r->0 == natural_number(s@)->0,
{
    let chars: Vec<char> = chars_of(s);
    let from: usize = if chars.len() > 0 && chars[0] == '+' {
        1
    } else {
        0
    };
    proof {
        assert(s@.skip(0) =~= s@);
    }
    match number_up_to(&chars, from, 65536) {
        Some(n) => if n <= 65535 {
            Some(n as u16)
        } else {
            None
        },
        None => None,
    }
}

proof fn lemma_decimal_is_natural(s: Seq<char>)
    requires
        forall|i: int| 0 <= i < s.len() ==> digit(#[trigger] s[i]),
    ensures
        decimal(s) >= 0,
    decreases s.len(),
{
    if s.len() > 0 {
        assert forall|i: int| 0 <= i < s.drop_last().len() implies digit(
            #[trigger] s.drop_last()[i],
        ) by {
            assert(s[i] == s.drop_last()[i]);
        }
        lemma_decimal_is_natural(s.drop_last());
        assert(digit(s[s.len() - 1]));
    }
}

/// Reads a number from -32768 to 32767.
pub fn parse_i16(s: &str) -> (r: Option<i16>)
    ensures
        r is Some <==> whole_number(s@) is Some && i16::MIN <= whole_number(s@)->0 <= i16::MAX,
        r is Some ==> r->0 == whole_number(s@)->0,
{
    let chars: Vec<char> = chars_of(s);
    let negative: bool = chars.len() > 0 && chars[0] == '-';
    let signed: bool = negative || (chars.len() > 0 && chars[0] == '+');
    let from: usize = if signed {
        1
    } else {
        0
    };
    proof {
        assert(s@.skip(0) =~= s@);
        if digits(s@.skip(from as int)) {
            lemma_decimal_is_natural(s@.skip(from as int));
        }
    }
    match number_up_to(&chars, from, 65536) {
        Some(n) => if negative {
            if n <= 32768 {
                Some((0 - n as i32) as i16)
            } else {
                None
            }
        } else if n <= 32767 {
            Some(n as i16)
        } else {
            None
        },
        None => None,
    }
}

/// Whether `pattern` stands in `s` at place `i`.
pub open spec fn stands_at(s: Seq<char>, pattern: Seq<char>, i: int) -> bool {
    0 <= i && i + pattern.len() <= s.len() && s.subrange(i, i + pattern.len()) == pattern
}

/// The first place at or behind `i` at which `pattern` stands in `s`, or the
/// length of `s` where there is none.
pub open spec fn place_from(s: Seq<char>, pattern: Seq<char>, i: int) -> int
    decreases s.len() - i,
{
    if i >= s.len() {
        s.len() as int
    } else if stands_at(s, pattern, i) {
        i
    } else {
        place_from(s, pattern, i + 1)
    }
}

proof fn lemma_place_from(s: Seq<char>, pattern: Seq<char>, i: int)
    requires
        0 <= i <= s.len(),
    ensures
        i <= place_from(s, pattern, i) <= s.len(),
        place_from(s, pattern, i) < s.len() ==> stands_at(s, pattern, place_from(s, pattern, i)),
    decreases s.len() - i,
{
    if i < s.len() && !stands_at(s, pattern, i) {
        lemma_place_from(s, pattern, i + 1);
    }
}

/// The pieces of `s` from place `i` on between the places of `pattern`.
pub open spec fn split_text(s: Seq<char>, pattern: Seq<char>, i: int) -> Seq<Seq<char>>
    decreases s.len() - i,
{
    let end = place_from(s, pattern, i);
    if pattern.len() == 0 || end < i || end >= s.len() || end + pattern.len() > s.len() {
        seq![s.skip(i)]
    } else {
        seq![s.subrange(i, end)] + split_text(s, pattern, end + pattern.len())
    }
}

/// Whether `pattern` stands in `chars` at place `i`.
fn text_stands_at(chars: &Vec<char>, pattern: &Vec<char>, i: usize) -> (r: bool)
    requires
        i <= chars@.len(),
    ensures
        r == stands_at(chars@, pattern@, i as int),
{
    if pattern.len() > chars.len() - i {
        return false;
    }
    let n: usize = chars.len();
    let mut k: usize = 0;
    while k < pattern.len()
        invariant
            i + pattern@.len() <= chars@.len(),
            n == chars@.len(),
            k <= pattern@.len(),
            forall|j: int| 0 <= j < k ==> chars@[i + j] == #[trigger] pattern@[j],
        decreases pattern.len() - k,
    {
        if chars[i + k] != pattern[k] {
            proof {
                assert(chars@.subrange(i as int, i + pattern@.len())[k as int] != pattern@[k as int]);
            }
            return false;
        }
        k = k + 1;
    }
    proof {
        assert(chars@.subrange(i as int, i + pattern@.len()) =~= pattern@);
    }
    true
}

/// The first place at or behind `i` at which `pattern` stands in `chars`.
fn find_from(chars: &Vec<char>, pattern: &Vec<char>, i: usize) -> (r: usize)
    requires
        i <= chars@.len(),
    ensures
        r == place_from(chars@, pattern@, i as int),
        i <= r <= chars@.len(),
{
    let mut k: usize = i;
    while k < chars.len()
        invariant
            i <= k <= chars@.len(),
            place_from(chars@, pattern@, i as int) == place_from(chars@, pattern@, k as int),
        decreases chars.len() - k,
    {
        if text_stands_at(chars, pattern, k) {
            return k;
        }
        k = k + 1;
    }
    k
}

/// Whether `s` starts with `pattern`.
pub fn starts_with(s: &str, pattern: &str) -> (r: bool)
    ensures
        r == pattern@.is_prefix_of(s@),
{
    text_stands_at(&chars_of(s), &chars_of(pattern), 0)
}

/// Whether `s` ends with `pattern`.
pub fn ends_with(s: &str, pattern: &str) -> (r: bool)
    ensures
        r == pattern@.is_suffix_of(s@),
{
    let chars: Vec<char> = chars_of(s);
    let tail: Vec<char> = chars_of(pattern);
    if tail.len() > chars.len() {
        return false;
    }
    text_stands_at(&chars, &tail, chars.len() - tail.len())
}

/// The pieces of `s` between the places of `pattern`.
pub fn split_at_text(s: &str, pattern: &str) -> (r: Vec<String>)
    requires
        pattern@.len() > 0,
    ensures
        text::views(r@) == split_text(s@, pattern@, 0),
{
    let chars: Vec<char> = chars_of(s);
    let mark: Vec<char> = chars_of(pattern);
    let mut out: Vec<String> = Vec::new();
    let mut i: usize = 0;
    let mut end: usize = find_from(&chars, &mark, 0);
    proof {
        assert(text::views(out@) + split_text(s@, pattern@, 0) =~= split_text(s@, pattern@, 0));
    }
    while end < chars.len()
        invariant
            chars@ == s@,
            mark@ == pattern@,
            pattern@.len() > 0,
            i <= end <= chars@.len(),
            end == place_from(s@, pattern@, i as int),
            text::views(out@) + split_text(s@, pattern@, i as int) == split_text(s@, pattern@, 0),
        decreases chars.len() - i,
    {
        let ghost before = text::views(out@);
        let ghost rest = split_text(s@, pattern@, end + pattern@.len());
        proof {
            lemma_place_from(s@, pattern@, i as int);
        }
        out.push(text_between(&chars, i, end));
        proof {
            assert(text::views(out@) =~= before.push(s@.subrange(i as int, end as int)));
            assert(before + (seq![s@.subrange(i as int, end as int)] + rest) =~= text::views(out@)
                + rest);
        }
        i = end + mark.len();
        end = find_from(&chars, &mark, i);
    }
    let ghost before = text::views(out@);
    out.push(text_between(&chars, i, chars.len()));
    proof {
        assert(s@.subrange(i as int, s@.len() as int) =~= s@.skip(i as int));
        assert(text::views(out@) =~= before + seq![s@.skip(i as int)]);
    }
    out
}

/// The text before the first place of `pattern` in `s`, and the text behind it.
pub open spec fn cut(s: Seq<char>, pattern: Seq<char>) -> Option<(Seq<char>, Seq<char>)> {
    let i = place_from(s, pattern, 0);
    if i < s.len() {
        Some((s.take(i), s.skip(i + pattern.len())))
    } else {
        None
    }
}

/// Cuts `s` at the first place of `pattern`.
pub fn split_once(s: &str, pattern: &str) -> (r: Option<(String, String)>)
    ensures
        r is Some <==> cut(s@, pattern@) is Some,
        r is Some ==> (r->0).0@ == (cut(s@, pattern@)->0).0 && (r->0).1@ == (cut(
            s@,
            pattern@,
        )->0).1,
{
    let chars: Vec<char> = chars_of(s);
    let mark: Vec<char> = chars_of(pattern);
    let i: usize = find_from(&chars, &mark, 0);
    if i < chars.len() {
        proof {
            lemma_place_from(s@, pattern@, 0);
            assert(s@.subrange(0, i as int) =~= s@.take(i as int));
            assert(s@.subrange(i + pattern@.len(), s@.len() as int) =~= s@.skip(
                i + pattern@.len(),
            ));
        }
        Some(
            (
                text_between(&chars, 0, i),
                text_between(&chars, i + mark.len(), chars.len()),
            ),
        )
    } else {
        None
    }
}

/// Path components without those at the end that name no file: empty ones and
/// `.`.
pub open spec fn named_components(parts: Seq<Seq<char>>) -> Seq<Seq<char>>
    decreases parts.len(),
{
    if parts.len() > 0 && (parts.last() == ""@ || parts.last() == "."@) {
        named_components(parts.drop_last())
    } else {
        parts
    }
}

/// The file name of a path with slashes: its last component, unless that is `..`.
pub open spec fn base_name(path: Seq<char>) -> Option<Seq<char>> {
    let parts = named_components(split(path, '/'));
    if parts.len() == 0 || parts.last() == ".."@ {
        None
    } else {
        Some(parts.last())
    }
}

/// The file name of a path with slashes.
pub fn file_name(path: &str) -> (r: Option<String>)
    ensures
        r is Some <==> base_name(path@) is Some,
        r is Some ==> r->0@ == base_name(path@)->0,
{
    let mut parts: Vec<String> = split_at(path, '/');
    while parts.len() > 0 && (text::same_text(parts[parts.len() - 1].as_str(), "")
        || text::same_text(parts[parts.len() - 1].as_str(), "."))
        invariant
            named_components(split(path@, '/')) == named_components(text::views(parts@)),
        decreases parts@.len(),
    {
        let ghost before = text::views(parts@);
        let _ = parts.pop();
        proof {
            assert(text::views(parts@) =~= before.drop_last());
        }
    }
    proof {
        if parts@.len() > 0 {
            assert(text::views(parts@).last() == parts@.last()@);
        }
    }
    match parts.pop() {
        Some(p) => if text::same_text(p.as_str(), "..") {
            None
        } else {
            Some(p)
        },
        None => None,
    }
}

/// No piece holds the separator.
pub proof fn pieces_hold_no_separator(s: Seq<char>, sep: char)
    ensures
        split(s, sep).len() >= 1,
        forall|i: int| 0 <= i < split(s, sep).len() ==> !(#[trigger] split(s, sep)[i]).contains(sep),
    decreases s.len(),
{
    if s.len() > 0 {
        let before = split(s.drop_last(), sep);
        pieces_hold_no_separator(s.drop_last(), sep);
        assert(!before[before.len() - 1].contains(sep));
        assert forall|i: int| 0 <= i < split(s, sep).len() implies !(#[trigger] split(
            s,
            sep,
        )[i]).contains(sep) by {
            if i < before.len() - 1 {
                assert(split(s, sep)[i] == before[i]);
            } else if s.last() == sep && i == before.len() - 1 {
                assert(split(s, sep)[i] == before[i]);
            } else if s.last() != sep {
                let piece = split(s, sep)[i];
                assert(piece == before.last().push(s.last()));
                if piece.contains(sep) {
                    let k = choose|k: int| 0 <= k < piece.len() && piece[k] == sep;
                    assert(before.last()[k] == sep);
                }
            }
        }
    }
}

proof fn lemma_named_components(parts: Seq<Seq<char>>)
    ensures
        named_components(parts).is_prefix_of(parts),
    decreases parts.len(),
{
    if parts.len() > 0 && (parts.last() == ""@ || parts.last() == "."@) {
        lemma_named_components(parts.drop_last());
        let n = named_components(parts.drop_last());
        assert(parts.subrange(0, n.len() as int) =~= n);
    } else {
        assert(parts.subrange(0, parts.len() as int) =~= parts);
    }
}

/// A file name holds no slash.
pub proof fn file_names_hold_no_slash(path: Seq<char>)
    ensures
        base_name(path) is Some ==> !(base_name(path)->0).contains('/') && base_name(path)->0
            != ".."@,
{
    let parts = split(path, '/');
    let named = named_components(parts);
    pieces_hold_no_separator(path, '/');
    lemma_named_components(parts);
    if base_name(path) is Some {
        assert(parts.subrange(0, named.len() as int)[named.len() - 1] == named.last());
        assert(named.last() == parts[named.len() - 1]);
    }
}

} // verus!
