//! How text falls into lines, fields, words and numbers, and what the lines of a
//! dictionary say.

use vstd::prelude::*;

use crate::dict::source::mozc::MozcSource;
use crate::dict::source::sudachi::SudachiSource;
use crate::dict::source::DictSource;
use crate::dict::EntryView;
use crate::lines;
use crate::unicode;

verus! {

/// Pieces with a separator between them.
pub open spec fn joined(pieces: Seq<Seq<char>>, sep: char) -> Seq<char>
    decreases pieces.len(),
{
    if pieces.len() <= 1 {
        pieces[0]
    } else {
        joined(pieces.drop_last(), sep).push(sep) + pieces.last()
    }
}

/// No piece holds the separator.
pub open spec fn are_pieces(pieces: Seq<Seq<char>>, sep: char) -> bool {
    &&& pieces.len() > 0
    &&& forall|i: int, k: int|
        0 <= i < pieces.len() && 0 <= k < pieces[i].len() ==> (#[trigger] pieces[i][k]) != sep
}

proof fn lemma_more(s: Seq<char>, sep: char, x: Seq<char>)
    requires
        forall|k: int| 0 <= k < x.len() ==> #[trigger] x[k] != sep,
    ensures
        lines::split(s, sep).len() > 0,
        lines::split(s + x, sep) == lines::split(s, sep).drop_last().push(
            lines::split(s, sep).last() + x,
        ),
    decreases x.len(),
{
    lines::pieces_hold_no_separator(s, sep);
    let a = lines::split(s, sep);
    if x.len() == 0 {
        assert(s + x =~= s);
        assert(a.last() + x =~= a.last());
        assert(a.drop_last().push(a.last()) =~= a);
    } else {
        let y = x.drop_last();
        assert forall|k: int| 0 <= k < y.len() implies #[trigger] y[k] != sep by {
            assert(y[k] == x[k]);
        }
        lemma_more(s, sep, y);
        assert((s + x).drop_last() =~= s + y);
        assert((s + x).last() == x.last());
        assert(x[x.len() - 1] != sep);
        let b = lines::split(s + y, sep);
        assert(b.drop_last() =~= a.drop_last());
        assert(b.last() == a.last() + y);
        assert((a.last() + y).push(x.last()) =~= a.last() + x);
    }
}

/// Splitting takes joining back: pieces that hold no separator come out as they went
/// in.
pub proof fn splitting_takes_joining_back(pieces: Seq<Seq<char>>, sep: char)
    requires
        are_pieces(pieces, sep),
    ensures
        lines::split(joined(pieces, sep), sep) == pieces,
    decreases pieces.len(),
{
    let none = Seq::<char>::empty();
    let last = pieces.last();
    assert forall|k: int| 0 <= k < last.len() implies #[trigger] last[k] != sep by {
        assert(pieces[pieces.len() - 1][k] != sep);
    }
    if pieces.len() == 1 {
        lemma_more(none, sep, last);
        assert(none + last =~= last);
        assert(lines::split(none, sep) == seq![none]);
        assert(seq![none].drop_last() =~= Seq::<Seq<char>>::empty());
        assert(lines::split(last, sep) =~= pieces);
    } else {
        let p = pieces.drop_last();
        assert forall|i: int, k: int| 0 <= i < p.len() && 0 <= k < p[i].len() implies (
        #[trigger] p[i][k]) != sep by {
            assert(pieces[i][k] != sep);
        }
        splitting_takes_joining_back(p, sep);
        let s = joined(p, sep).push(sep);
        assert(s.drop_last() =~= joined(p, sep));
        assert(lines::split(s, sep) == p.push(none));
        lemma_more(s, sep, last);
        assert(p.push(none).drop_last() =~= p);
        assert(none + last =~= last);
        assert(p.push(last) =~= pieces);
    }
}

/// A digit spells its value, and a digit behind a number makes it ten times as large
/// and adds its own value; a text with any other character spells no number.
pub proof fn numbers_are_decimal(s: Seq<char>, c: char)
    ensures
        0x30 <= c as u32 <= 0x39 ==> lines::natural_number(seq![c]) == Some(c as int - 0x30),
        lines::natural_number(s) is Some && 0x30 <= c as u32 <= 0x39 ==> lines::natural_number(
            s.push(c),
        ) == Some(10 * lines::natural_number(s)->0 + (c as int - 0x30)),
        s.len() > 0 && !(0x30 <= c as u32 <= 0x39) ==> lines::natural_number(s.push(c)) is None
            && lines::whole_number(s.push(c)) is None,
        lines::natural_number(Seq::empty()) is None,
        lines::whole_number(Seq::empty()) is None,
{
    if 0x30 <= c as u32 <= 0x39 {
        let d = seq![c];
        assert(lines::digits(d));
        assert(d.drop_last() =~= Seq::<char>::empty());
        assert(lines::decimal(d.drop_last()) == 0);
        assert(d.last() == c);
        if lines::natural_number(s) is Some {
            let b = if s[0] == '+' {
                s.skip(1)
            } else {
                s
            };
            assert(lines::digits(b));
            let t = s.push(c);
            let e = if t[0] == '+' {
                t.skip(1)
            } else {
                t
            };
            assert(e =~= b.push(c));
            assert(lines::digits(e)) by {
                assert forall|i: int| 0 <= i < e.len() implies lines::digit(#[trigger] e[i]) by {
                    if i < b.len() {
                        assert(lines::digit(b[i]));
                    }
                }
            }
            assert(e.drop_last() =~= b);
            assert(e.last() == c);
        }
    } else if s.len() > 0 {
        let t = s.push(c);
        let u = t.skip(1);
        assert(u[u.len() - 1] == c);
        assert(!lines::digit(u[u.len() - 1]));
        assert(!lines::digit(t[t.len() - 1]));
    }
}

/// A sign may stand before the digits: a plus changes nothing, a minus makes a whole
/// number negative.
pub proof fn signs_stand_before_numbers(s: Seq<char>)
    requires
        lines::digits(s),
    ensures
        lines::natural_number(s) is Some,
        lines::whole_number(s) == lines::natural_number(s),
        lines::natural_number(seq!['+'] + s) == lines::natural_number(s),
        lines::whole_number(seq!['+'] + s) == lines::natural_number(s),
        lines::natural_number(seq!['-'] + s) is None,
        lines::whole_number(seq!['-'] + s) == Some(-(lines::natural_number(s)->0)),
{
    assert(lines::digit(s[0]));
    assert((seq!['+'] + s).skip(1) =~= s);
    assert((seq!['-'] + s).skip(1) =~= s);
    assert((seq!['-'] + s)[0] == '-');
    assert(!lines::digit((seq!['-'] + s)[0]));
}

proof fn lemma_trimmed_end(s: Seq<char>)
    ensures
        ({
            let t = lines::trimmed_end(s);
            &&& t.len() <= s.len()
            &&& t == s.take(t.len() as int)
            &&& forall|i: int| t.len() <= i < s.len() ==> lines::white_space(#[trigger] s[i])
            &&& t.len() > 0 ==> !lines::white_space(t.last())
        }),
    decreases s.len(),
{
    if s.len() > 0 && lines::white_space(s.last()) {
        let r = s.drop_last();
        lemma_trimmed_end(r);
        let t = lines::trimmed_end(s);
        assert(r.take(t.len() as int) =~= s.take(t.len() as int));
        assert forall|i: int| t.len() <= i < s.len() implies lines::white_space(
            #[trigger] s[i],
        ) by {
            if i < r.len() {
                assert(s[i] == r[i]);
            }
        }
    } else {
        assert(s.take(s.len() as int) =~= s);
    }
}

proof fn lemma_trimmed_start(s: Seq<char>) -> (n: int)
    ensures
        ({
            let t = lines::trimmed_start(s);
            &&& 0 <= n <= s.len()
            &&& t == s.skip(n)
            &&& forall|i: int| 0 <= i < n ==> lines::white_space(#[trigger] s[i])
            &&& t.len() > 0 ==> !lines::white_space(t[0])
        }),
    decreases s.len(),
{
    if s.len() > 0 && lines::white_space(s[0]) {
        let r = s.drop_first();
        let m = lemma_trimmed_start(r);
        assert(r.skip(m) =~= s.skip(m + 1));
        assert forall|i: int| 0 <= i < m + 1 implies lines::white_space(#[trigger] s[i]) by {
            if i > 0 {
                assert(s[i] == r[i - 1]);
            }
        }
        m + 1
    } else {
        assert(s.skip(0) =~= s);
        0
    }
}

/// Trimming takes white space away at both ends and nothing else.
pub proof fn trimming_takes_the_ends_away(s: Seq<char>) -> (n: int)
    ensures
        ({
            let t = lines::trimmed(s);
            &&& 0 <= n
            &&& n + t.len() <= s.len()
            &&& t == s.subrange(n, n + t.len() as int)
            &&& forall|i: int| 0 <= i < n ==> lines::white_space(#[trigger] s[i])
            &&& forall|i: int| n + t.len() <= i < s.len() ==> lines::white_space(#[trigger] s[i])
            &&& t.len() > 0 ==> !lines::white_space(t[0]) && !lines::white_space(t.last())
        }),
{
    let n = lemma_trimmed_start(s);
    let r = lines::trimmed_start(s);
    lemma_trimmed_end(r);
    let t = lines::trimmed(s);
    assert(t =~= s.subrange(n, n + t.len() as int));
    assert forall|i: int| n + t.len() <= i < s.len() implies lines::white_space(#[trigger] s[i]) by {
        assert(s[i] == r[i - n]);
    }
    n
}

/// Which characters are white space: those of ASCII, the next line, and the spaces and
/// separators of Unicode.
pub proof fn white_space_is_that_of_unicode(c: char)
    ensures
        c == ' ' || c == '\t' || c == '\n' || c == '\r' || c == '\u{3000}' ==> lines::white_space(
            c,
        ),
        0x21 <= c as u32 <= 0x7E ==> !lines::white_space(c),
        0x3041 <= c as u32 <= 0xFFFF ==> !lines::white_space(c),
{
}

/// A line of a Mozc dictionary: reading, left id, right id, cost and surface between
/// tabs. Fields behind the surface do not count.
pub proof fn mozc_lines_are_entries(
    fields: Seq<Seq<char>>,
    left: u16,
    right: u16,
    cost: i16,
)
    requires
        fields.len() >= 5,
        are_pieces(fields, '\t'),
        fields[0].len() > 0,
        fields[0][0] != '#',
        forall|i: int|
            0 <= i < fields[0].len() ==> 0x3040 <= #[trigger] fields[0][i] as u32 <= 0x309F
                || fields[0][i] == 'ー',
        lines::natural_number(fields[1]) == Some(left as int),
        lines::natural_number(fields[2]) == Some(right as int),
        lines::whole_number(fields[3]) == Some(cost as int),
    ensures
        MozcSource.line_entry(joined(fields, '\t')) == Some(
            (
                fields[0],
                EntryView { surface: fields[4], cost, left_id: left, right_id: right },
            ),
        ),
{
    splitting_takes_joining_back(fields, '\t');
    lemma_starts(fields, '\t');
    assert(unicode::hiragana_reading(fields[0])) by {
        assert forall|i: int| 0 <= i < fields[0].len() implies unicode::hiragana(
            #[trigger] fields[0][i],
        ) || fields[0][i] == 'ー' by {
            assert(0x3040 <= fields[0][i] as u32 <= 0x309F || fields[0][i] == 'ー');
        }
    }
}

proof fn lemma_starts(pieces: Seq<Seq<char>>, sep: char)
    requires
        pieces.len() > 0,
    ensures
        joined(pieces, sep).len() >= pieces[0].len(),
        joined(pieces, sep).take(pieces[0].len() as int) == pieces[0],
        pieces[0].len() > 0 ==> joined(pieces, sep)[0] == pieces[0][0],
    decreases pieces.len(),
{
    let n = pieces[0].len() as int;
    if pieces.len() > 1 {
        let p = pieces.drop_last();
        lemma_starts(p, sep);
        let s = joined(p, sep);
        let t = joined(pieces, sep);
        assert(t.take(n) =~= s.take(n));
        if n > 0 {
            assert(t[0] == s[0]);
        }
    } else {
        assert(joined(pieces, sep).take(n) =~= pieces[0]);
    }
}

/// A line of a Sudachi dictionary: between commas the surface, the left id, the right
/// id and the cost, and in the twelfth field the reading, in katakana.
pub proof fn sudachi_lines_are_entries(
    fields: Seq<Seq<char>>,
    left: u16,
    right: u16,
    cost: i16,
)
    requires
        fields.len() >= 12,
        are_pieces(fields, ','),
        fields[0].len() > 0,
        fields[0][0] != '#',
        fields[11].len() > 0,
        forall|i: int|
            0 <= i < fields[11].len() ==> 0x30A1 <= #[trigger] fields[11][i] as u32 <= 0x30F6
                || fields[11][i] == 'ー',
        lines::natural_number(fields[1]) == Some(left as int),
        lines::natural_number(fields[2]) == Some(right as int),
        lines::whole_number(fields[3]) == Some(cost as int),
    ensures
        SudachiSource.line_entry(joined(fields, ',')) == Some(
            (
                unicode::all_to_hiragana(fields[11]),
                EntryView { surface: fields[0], cost, left_id: left, right_id: right },
            ),
        ),
{
    splitting_takes_joining_back(fields, ',');
    lemma_starts(fields, ',');
    let h = unicode::all_to_hiragana(fields[11]);
    assert forall|i: int| 0 <= i < h.len() implies unicode::hiragana(#[trigger] h[i]) || h[i]
        == 'ー' by {
        let c = fields[11][i];
        assert(0x30A1 <= c as u32 <= 0x30F6 || c == 'ー');
    }
}

/// Remarks and blank lines have no entry.
pub proof fn remarks_have_no_entry(line: Seq<char>)
    requires
        line.len() == 0 || line[0] == '#',
    ensures
        MozcSource.line_entry(line) is None,
        SudachiSource.line_entry(line) is None,
{
}

/// A line whose ids or cost are no numbers of their kind, or out of range, has no
/// entry.
pub proof fn lines_with_wrong_numbers_have_no_entry(fields: Seq<Seq<char>>)
    requires
        fields.len() >= 5,
        ({
            let l = lines::natural_number(fields[1]);
            let r = lines::natural_number(fields[2]);
            let c = lines::whole_number(fields[3]);
            ||| l is None || l->0 > 65535
            ||| r is None || r->0 > 65535
            ||| c is None || c->0 < -32768 || c->0 > 32767
        }),
    ensures
        are_pieces(fields, '\t') ==> MozcSource.line_entry(joined(fields, '\t')) is None,
        are_pieces(fields, ',') ==> SudachiSource.line_entry(joined(fields, ',')) is None,
{
    if are_pieces(fields, '\t') {
        splitting_takes_joining_back(fields, '\t');
    }
    if are_pieces(fields, ',') {
        splitting_takes_joining_back(fields, ',');
    }
}

/// Which kana letters go over into one another: each hiragana letter into the katakana
/// letter 0x60 behind it, and each katakana letter back; nothing else changes.
pub proof fn kana_letters_have_counterparts(c: char)
    ensures
        0x3041 <= c as u32 <= 0x3096 ==> unicode::to_katakana(c) as u32 == c as u32 + 0x60,
        !(0x3041 <= c as u32 <= 0x3096) ==> unicode::to_katakana(c) == c,
        0x30A1 <= c as u32 <= 0x30F6 ==> unicode::to_hiragana(c) as u32 == c as u32 - 0x60,
        !(0x30A1 <= c as u32 <= 0x30F6) ==> unicode::to_hiragana(c) == c,
{
}

/// The blocks of the scripts.
pub proof fn scripts_have_their_blocks(c: char)
    ensures
        unicode::hiragana(c) <==> 0x3040 <= c as u32 && c as u32 <= 0x309F,
        unicode::katakana(c) <==> 0x30A0 <= c as u32 && c as u32 <= 0x30FF,
        unicode::kanji(c) <==> (0x3400 <= c as u32 && c as u32 <= 0x4DBF) || (0x4E00 <= c as u32
            && c as u32 <= 0x9FFF) || (0xF900 <= c as u32 && c as u32 <= 0xFAFF),
        unicode::latin(c) <==> ('A' <= c && c <= 'Z') || ('a' <= c && c <= 'z') || (0xC0 <= c as u32
            && c as u32 <= 0x24F),
{
}

proof fn lemma_place(s: Seq<char>, pattern: Seq<char>, i: int, n: int)
    requires
        0 <= i <= n <= s.len(),
        n < s.len() ==> lines::stands_at(s, pattern, n),
        forall|k: int| 0 <= k < n ==> !#[trigger] lines::stands_at(s, pattern, k),
    ensures
        lines::place_from(s, pattern, i) == n,
    decreases n - i,
{
    if i < n {
        assert(!lines::stands_at(s, pattern, i));
        lemma_place(s, pattern, i + 1, n);
    }
}

/// A text is cut at the first place of a pattern, into what stands before it and what
/// stands behind it; one without the pattern is not cut.
pub proof fn texts_are_cut_at_the_first_place(a: Seq<char>, pattern: Seq<char>, b: Seq<char>)
    requires
        pattern.len() > 0,
    ensures
        ({
            let s = a + pattern + b;
            (forall|k: int| 0 <= k < a.len() ==> !#[trigger] lines::stands_at(s, pattern, k))
                ==> lines::cut(s, pattern) == Some((a, b))
        }),
        (forall|k: int| 0 <= k < a.len() ==> !#[trigger] lines::stands_at(a, pattern, k))
            ==> lines::cut(a, pattern) is None,
{
    let s = a + pattern + b;
    let n = a.len() as int;
    if forall|k: int| 0 <= k < n ==> !#[trigger] lines::stands_at(s, pattern, k) {
        assert(s.subrange(n, n + pattern.len()) =~= pattern);
        assert(lines::stands_at(s, pattern, n));
        lemma_place(s, pattern, 0, n);
        assert(s.take(n) =~= a);
        assert(s.skip(n + pattern.len()) =~= b);
    }
    if forall|k: int| 0 <= k < n ==> !#[trigger] lines::stands_at(a, pattern, k) {
        lemma_place(a, pattern, 0, n);
    }
}

/// The lines of a text, each with a line feed behind it, come out as they went in, and
/// so do lines with a carriage return before the line feed, without it.
pub proof fn texts_fall_into_lines(rows: Seq<Seq<char>>, last: Seq<char>)
    requires
        forall|i: int, k: int|
            0 <= i < rows.len() && 0 <= k < rows[i].len() ==> (#[trigger] rows[i][k]) != '\n'
                && rows[i][k] != '\r',
        forall|k: int| 0 <= k < last.len() ==> #[trigger] last[k] != '\n',
    ensures
        ({
            let returned = Seq::new(rows.len(), |i: int| rows[i].push('\r'));
            let all = if last.len() == 0 {
                rows
            } else {
                rows.push(last)
            };
            &&& lines::lines(joined(rows.push(last), '\n')) == all
            &&& lines::lines(joined(returned.push(last), '\n')) == all
        }),
{
    let a = rows.push(last);
    let returned = Seq::new(rows.len(), |i: int| rows[i].push('\r'));
    let b = returned.push(last);
    assert(are_pieces(a, '\n')) by {
        assert forall|i: int, k: int| 0 <= i < a.len() && 0 <= k < a[i].len() implies (
        #[trigger] a[i][k]) != '\n' by {
            if i < rows.len() {
                assert(rows[i][k] != '\n');
            }
        }
    }
    assert(are_pieces(b, '\n')) by {
        assert forall|i: int, k: int| 0 <= i < b.len() && 0 <= k < b[i].len() implies (
        #[trigger] b[i][k]) != '\n' by {
            if i < rows.len() && k < rows[i].len() {
                assert(rows[i][k] != '\n');
            }
        }
    }
    splitting_takes_joining_back(a, '\n');
    splitting_takes_joining_back(b, '\n');
    let n = rows.len();
    let ea = Seq::new((a.len() - 1) as nat, |i: int| lines::without_return(a[i]));
    let eb = Seq::new((b.len() - 1) as nat, |i: int| lines::without_return(b[i]));
    assert forall|i: int| 0 <= i < n implies ea[i] == rows[i] by {
        if rows[i].len() > 0 {
            assert(rows[i][rows[i].len() - 1] != '\r');
        }
    }
    assert forall|i: int| 0 <= i < n implies eb[i] == rows[i] by {
        assert(b[i] == rows[i].push('\r'));
        assert(rows[i].push('\r').drop_last() =~= rows[i]);
    }
    assert(ea =~= rows);
    assert(eb =~= rows);
}

proof fn lemma_word(s: Seq<char>, w: Seq<char>)
    requires
        w.len() > 0,
        s.len() == 0 || lines::white_space(s.last()),
        forall|i: int| 0 <= i < w.len() ==> !lines::white_space(#[trigger] w[i]),
    ensures
        lines::words(s + w) == lines::words(s).push(w),
    decreases w.len(),
{
    let t = s + w;
    let v = w.drop_last();
    assert(t.last() == w.last());
    assert(!lines::white_space(w[w.len() - 1]));
    assert(t.drop_last() =~= s + v);
    if v.len() == 0 {
        assert(s + v =~= s);
        assert(w =~= seq![w.last()]);
        if s.len() > 0 {
            assert(t[t.len() - 2] == s.last());
        }
    } else {
        assert forall|i: int| 0 <= i < v.len() implies !lines::white_space(#[trigger] v[i]) by {
            assert(v[i] == w[i]);
        }
        lemma_word(s, v);
        assert(t[t.len() - 2] == w[w.len() - 2]);
        assert(!lines::white_space(w[w.len() - 2]));
        let b = lines::words(s + v);
        assert(b.drop_last() =~= lines::words(s));
        assert(b.last() == v);
        assert(v.push(w.last()) =~= w);
    }
}

/// White space ends a word and is none itself; what stands behind it without white
/// space is the next word.
pub proof fn words_stand_between_white_space(s: Seq<char>, c: char, w: Seq<char>)
    requires
        lines::white_space(c),
        forall|i: int| 0 <= i < w.len() ==> !lines::white_space(#[trigger] w[i]),
    ensures
        lines::words(s.push(c)) == lines::words(s),
        w.len() > 0 ==> lines::words(s.push(c) + w) == lines::words(s).push(w),
        w.len() > 0 ==> lines::words(w) == seq![w],
        lines::words(Seq::empty()).len() == 0,
{
    assert(s.push(c).drop_last() =~= s);
    if w.len() > 0 {
        lemma_word(s.push(c), w);
        lemma_word(Seq::empty(), w);
        assert(Seq::<char>::empty() + w =~= w);
        assert(lines::words(Seq::<char>::empty()).push(w) =~= seq![w]);
    }
}

/// The file name of a path is what stands behind its last slash.
pub proof fn file_names_stand_behind_the_slash(dirs: Seq<Seq<char>>, name: Seq<char>)
    requires
        are_pieces(dirs.push(name), '/'),
        name.len() > 0,
        name != "."@,
        name != ".."@,
    ensures
        lines::base_name(joined(dirs.push(name), '/')) == Some(name),
        lines::base_name(joined(dirs.push(name).push(Seq::empty()), '/')) == Some(name),
{
    reveal_strlit("");
    let p = dirs.push(name);
    let q = p.push(Seq::empty());
    assert(are_pieces(q, '/')) by {
        assert forall|i: int, k: int| 0 <= i < q.len() && 0 <= k < q[i].len() implies (
        #[trigger] q[i][k]) != '/' by {
            assert(p[i][k] != '/');
        }
    }
    splitting_takes_joining_back(p, '/');
    splitting_takes_joining_back(q, '/');
    assert(""@ =~= Seq::<char>::empty());
    assert(name != ""@);
    assert(p.last() == name);
    assert(lines::named_components(p) == p);
    assert(q.drop_last() =~= p);
    assert(q.last() == ""@);
    assert(lines::named_components(q) == lines::named_components(p));
}

} // verus!
