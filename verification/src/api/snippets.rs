//! Snippets: texts under keys.

use vstd::hash_set::StringHashSet;
use vstd::prelude::*;

use super::resources::LexError;
use crate::text::{self, push_text};

verus! {

/// A text under a key.
#[derive(Debug)]
pub struct LexSnippetEntry {
    pub key: String,
    pub body: String,
}

pub struct SnippetView {
    pub key: Seq<char>,
    pub body: Seq<char>,
}

impl View for LexSnippetEntry {
    type V = SnippetView;

    open spec fn view(&self) -> SnippetView {
        SnippetView { key: self.key@, body: self.body@ }
    }
}

/// Texts under different keys, none of them empty.
pub struct LexSnippetStore {
    entries: Vec<LexSnippetEntry>,
}

/// The digits of hexadecimal numbers.
pub open spec fn hex_digits() -> Seq<char> {
    seq!['0', '1', '2', '3', '4', '5', '6', '7', '8', '9', 'a', 'b', 'c', 'd', 'e', 'f']
}

/// A number in hexadecimal.
pub open spec fn hex(n: nat) -> Seq<char>
    decreases n,
{
    if n < 16 {
        seq![hex_digits()[n as int]]
    } else {
        hex(n / 16).push(hex_digits()[(n % 16) as int])
    }
}

/// A character as it stands in a literal: quotes, backslashes and line ends behind
/// a backslash, printable ASCII as it is, and all else by its number.
pub open spec fn escaped_char(c: char) -> Seq<char> {
    if c == '\t' {
        seq!['\\', 't']
    } else if c == '\r' {
        seq!['\\', 'r']
    } else if c == '\n' {
        seq!['\\', 'n']
    } else if c == '\'' || c == '"' || c == '\\' {
        seq!['\\', c]
    } else if ' ' <= c <= '~' {
        seq![c]
    } else {
        seq!['\\', 'u', '{'] + hex(c as u32 as nat) + seq!['}']
    }
}

/// A text as it stands in a literal.
pub open spec fn escaped(text: Seq<char>) -> Seq<char>
    decreases text.len(),
{
    if text.len() == 0 {
        Seq::empty()
    } else {
        escaped(text.drop_last()) + escaped_char(text.last())
    }
}

fn push_hex(out: &mut String, n: u32)
    ensures
        final(out)@ == old(out)@ + hex(n as nat),
    decreases n,
{
    let digits: [char; 16] = [
        '0',
        '1',
        '2',
        '3',
        '4',
        '5',
        '6',
        '7',
        '8',
        '9',
        'a',
        'b',
        'c',
        'd',
        'e',
        'f',
    ];
    assert(digits@ =~= hex_digits());
    if n >= 16 {
        push_hex(out, n / 16);
    }
    out.push(digits[(n % 16) as usize]);
    proof {
        assert(out@ =~= old(out)@ + hex(n as nat));
    }
}

/// A text as it stands in a literal.
pub fn escape(s: &str) -> (r: String)
    ensures
        r@ == escaped(s@),
{
    let mut out = String::new();
    for c in it: s.chars()
        invariant
            out@ == escaped(s@.take(it.index())),
            it.seq() == s@,
    {
        let ghost before = out@;
        proof {
            assert(s@.take(it.index() + 1).drop_last() =~= s@.take(it.index()));
            assert(s@.take(it.index() + 1).last() == c);
        }
        if c == '\t' {
            push_text(&mut out, "\\t");
            proof {
                reveal_strlit("\\t");
            }
        } else if c == '\r' {
            push_text(&mut out, "\\r");
            proof {
                reveal_strlit("\\r");
            }
        } else if c == '\n' {
            push_text(&mut out, "\\n");
            proof {
                reveal_strlit("\\n");
            }
        } else if c == '\'' || c == '"' || c == '\\' {
            out.push('\\');
            out.push(c);
        } else if ' ' <= c && c <= '~' {
            out.push(c);
        } else {
            push_text(&mut out, "\\u{");
            proof {
                reveal_strlit("\\u{");
            }
            push_hex(&mut out, c as u32);
            out.push('}');
        }
        proof {
            assert(out@ =~= before + escaped_char(c));
        }
    }
    proof {
        assert(s@.take(s@.len() as int) =~= s@);
    }
    out
}

/// Whether the key at place `i` stands at an earlier place, too.
pub open spec fn repeats(s: Seq<SnippetView>, i: int) -> bool {
    exists|j: int| 0 <= j < i && (#[trigger] s[j]).key == s[i].key
}

/// The first place from `i` on at which a key stands again; the length if there is
/// none.
pub open spec fn first_repeat(s: Seq<SnippetView>, i: int) -> int
    decreases s.len() - i,
{
    if i >= s.len() {
        s.len() as int
    } else if repeats(s, i) {
        i
    } else {
        first_repeat(s, i + 1)
    }
}

/// No key is empty, and none stands twice.
pub open spec fn usable(s: Seq<SnippetView>) -> bool {
    &&& forall|i: int| 0 <= i < s.len() ==> (#[trigger] s[i]).key.len() > 0
    &&& forall|i: int| 0 <= i < s.len() ==> !#[trigger] repeats(s, i)
}

/// The keys whose texts expand to nothing.
pub open spec fn empty_keys(s: Seq<SnippetView>, expanded: Seq<Seq<char>>) -> Seq<Seq<char>>
    decreases s.len(),
{
    if s.len() == 0 {
        Seq::empty()
    } else if expanded[s.len() - 1].len() == 0 {
        empty_keys(s.drop_last(), expanded).push(s.last().key)
    } else {
        empty_keys(s.drop_last(), expanded)
    }
}

impl LexSnippetStore {
    pub closed spec fn entries(&self) -> Seq<SnippetView> {
        text::views(self.entries@)
    }

    /// The keys that are not offered, since there is nothing to insert. `expanded`
    /// has what each text expands to, with its variables resolved.
    pub fn unusable_keys(&self, expanded: &Vec<String>) -> (r: Vec<String>)
        requires
            expanded@.len() == self.entries().len(),
        ensures
            text::views(r@) == empty_keys(self.entries(), text::views(expanded@)),
    {
        let ghost s = self.entries();
        let ghost es = text::views(expanded@);
        let mut r: Vec<String> = Vec::new();
        proof {
            assert(text::views(r@) =~= empty_keys(s.take(0), es));
        }
        let mut i: usize = 0;
        while i < self.entries.len()
            invariant
                i <= self.entries@.len(),
                expanded@.len() == self.entries@.len(),
                s == text::views(self.entries@),
                es == text::views(expanded@),
                text::views(r@) == empty_keys(s.take(i as int), es),
            decreases self.entries@.len() - i,
        {
            let ghost before = text::views(r@);
            proof {
                assert(s.take(i as int + 1).drop_last() =~= s.take(i as int));
                assert(s.take(i as int + 1).last() == self.entries@[i as int]@);
                assert(es[i as int] == expanded@[i as int]@);
            }
            if expanded[i].as_str().is_empty() {
                r.push(self.entries[i].key.clone());
                proof {
                    assert(text::views(r@) =~= before.push(self.entries@[i as int].key@));
                }
            }
            i = i + 1;
        }
        proof {
            assert(s.take(s.len() as int) =~= s);
        }
        r
    }
}

/// The message for a key that stands twice.
pub open spec fn duplicate_message(key: Seq<char>) -> Seq<char> {
    ("duplicate snippet key: \""@ + escaped(key)) + "\""@
}

/// Builds a store. A key that stands twice is refused, with its name; then a text
/// that refers to a variable that is not known, with what `checked` says of it; then
/// a key that is empty.
pub fn snippets_build_store(entries: Vec<LexSnippetEntry>, checked: Result<(), String>) -> (r: Result<
    LexSnippetStore,
    LexError,
>)
    ensures
        r is Ok <==> usable(text::views(entries@)) && checked is Ok,
        r is Ok ==> r->Ok_0.entries() == text::views(entries@),
        r is Err ==> r->Err_0 is InvalidData,
        first_repeat(text::views(entries@), 0) < entries@.len() ==> r is Err
            && r->Err_0->InvalidData_msg@ == duplicate_message(
            text::views(entries@)[first_repeat(text::views(entries@), 0)].key,
        ),
        r is Err && first_repeat(text::views(entries@), 0) == entries@.len() && checked is Err
            ==> r->Err_0->InvalidData_msg == checked->Err_0,
        r is Err && first_repeat(text::views(entries@), 0) == entries@.len() && checked is Ok
            ==> r->Err_0->InvalidData_msg@ == "empty snippet key"@,
{
    let ghost s = text::views(entries@);
    let mut seen = StringHashSet::new();
    let mut i: usize = 0;
    while i < entries.len()
        invariant
            i <= entries@.len(),
            s == text::views(entries@),
            forall|x: Seq<char>| #[trigger]
                seen@.contains(x) ==> exists|j: int| 0 <= j < i && (#[trigger] s[j]).key == x,
            forall|j: int| 0 <= j < i ==> seen@.contains((#[trigger] s[j]).key),
            forall|j: int| 0 <= j < i ==> !#[trigger] repeats(s, j),
            first_repeat(s, 0) == first_repeat(s, i as int),
        decreases entries@.len() - i,
    {
        let key = &entries[i].key;
        proof {
            assert(s[i as int].key == key@);
        }
        if !seen.insert(key.clone()) {
            let mut msg: String = "duplicate snippet key: \"".to_owned();
            push_text(&mut msg, escape(key.as_str()).as_str());
            push_text(&mut msg, "\"");
            proof {
                assert(repeats(s, i as int));
            }
            return Err(LexError::InvalidData { msg });
        }
        proof {
            assert(!repeats(s, i as int));
        }
        i = i + 1;
    }
    if let Err(msg) = checked {
        return Err(LexError::InvalidData { msg });
    }
    let mut i: usize = 0;
    while i < entries.len()
        invariant
            i <= entries@.len(),
            s == text::views(entries@),
            checked is Ok,
            forall|j: int| 0 <= j < entries@.len() ==> !#[trigger] repeats(s, j),
            first_repeat(s, 0) == s.len(),
            forall|j: int| 0 <= j < i ==> (#[trigger] s[j]).key.len() > 0,
        decreases entries@.len() - i,
    {
        proof {
            assert(s[i as int].key == entries@[i as int].key@);
        }
        if entries[i].key.as_str().is_empty() {
            return Err(LexError::InvalidData { msg: "empty snippet key".to_owned() });
        }
        i = i + 1;
    }
    Ok(LexSnippetStore { entries })
}

} // verus!
