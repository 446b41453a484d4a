//! Sources of dictionaries: which files they read, and what a line of them says.

pub mod laws;
pub mod mozc;
pub mod pos_map;
pub mod sudachi;
pub mod table;

pub use mozc::MozcSource;
pub use sudachi::SudachiSource;
pub use table::EntryTable;

use vstd::prelude::*;

use crate::bytes::{self, sort_by_bytes, ByteKeyed};
use crate::dict::{DictEntry, EntryView};
use crate::lines::{self, lines_of, parse_i16, parse_u16};
use crate::text::{self, push_text};

verus! {

/// Why a source gives no dictionary.
#[derive(Debug)]
pub enum DictSourceError {
    Io(String),
    Parse(String),
    Http(String),
}

/// A text for each error.
pub open spec fn error_text(e: DictSourceError) -> Seq<char> {
    match e {
        DictSourceError::Io(m) => "IO error: "@ + m@,
        DictSourceError::Parse(m) => "parse error: "@ + m@,
        DictSourceError::Http(m) => "HTTP error: "@ + m@,
    }
}

impl DictSourceError {
    /// The error in words.
    pub fn message(&self) -> (r: String)
        ensures
            r@ == error_text(*self),
    {
        let mut out = String::new();
        match self {
            DictSourceError::Io(m) => {
                push_text(&mut out, "IO error: ");
                push_text(&mut out, m.as_str());
            },
            DictSourceError::Parse(m) => {
                push_text(&mut out, "parse error: ");
                push_text(&mut out, m.as_str());
            },
            DictSourceError::Http(m) => {
                push_text(&mut out, "HTTP error: ");
                push_text(&mut out, m.as_str());
            },
        }
        proof {
            assert(out@ =~= error_text(*self));
        }
        out
    }
}

/// A source of dictionary entries.
pub trait DictSource {
    /// The kind of file that the source reads, as a pattern.
    spec fn pattern(&self) -> Seq<char>;

    /// Whether the source reads a file of this name.
    spec fn reads(&self, name: Seq<char>) -> bool;

    /// The reading and the entry on a line, if the line has any.
    spec fn line_entry(&self, line: Seq<char>) -> Option<(Seq<char>, EntryView)>;

    /// The kind of file that the source reads, as a pattern.
    fn label(&self) -> (r: &'static str)
        ensures
            r@ == self.pattern(),
    ;

    /// Whether the source reads a file of this name.
    fn reads_file(&self, name: &str) -> (r: bool)
        ensures
            r == self.reads(name@),
    ;

    /// The reading and the entry on a line, if the line has any.
    fn parse_line(&self, line: &str) -> (r: Option<(String, DictEntry)>)
        ensures
            r is Some <==> self.line_entry(line@) is Some,
            r is Some ==> ((r->0).0@, (r->0).1@) == self.line_entry(line@)->0,
    ;
}

/// Whether two sources read the same files in the same way.
pub open spec fn alike<A: DictSource + ?Sized, B: DictSource + ?Sized>(a: &A, b: &B) -> bool {
    &&& a.pattern() == b.pattern()
    &&& forall|name: Seq<char>| #[trigger] a.reads(name) == b.reads(name)
    &&& forall|line: Seq<char>| #[trigger] a.line_entry(line) == b.line_entry(line)
}

/// Creates a source by name; there is none for an unknown name.
pub fn from_name(name: &str) -> (r: Option<Box<dyn DictSource>>)
    ensures
        r is Some <==> name@ == "mozc"@ || name@ == "sudachi"@,
        name@ == "mozc"@ ==> alike(&*r->0, &MozcSource),
        name@ == "sudachi"@ ==> alike(&*r->0, &SudachiSource),
{
    proof {
        reveal_strlit("mozc");
        reveal_strlit("sudachi");
        assert("mozc"@.len() != "sudachi"@.len());
    }
    if text::same_text(name, "mozc") {
        Some(Box::new(MozcSource))
    } else if text::same_text(name, "sudachi") {
        Some(Box::new(SudachiSource))
    } else {
        None
    }
}

impl ByteKeyed for String {
    open spec fn key(&self) -> Seq<u8> {
        vstd::utf8::encode_utf8(self@)
    }

    fn comes_before(&self, other: &Self) -> (r: bool) {
        bytes::bytes_before(self.as_str().as_bytes(), other.as_str().as_bytes())
    }
}

/// Those of the names that the source reads.
pub open spec fn readable<S: DictSource + ?Sized>(source: &S, names: Seq<String>) -> Seq<String>
    decreases names.len(),
{
    if names.len() == 0 {
        names
    } else {
        let before = readable(source, names.drop_last());
        if source.reads(names.last()@) {
            before.push(names.last())
        } else {
            before
        }
    }
}

/// The names of the files in `dir` that the source reads, sorted by name. That
/// there is none is an error.
pub fn list_dict_files<S: DictSource + ?Sized>(
    source: &S,
    dir: &str,
    names: &Vec<String>,
) -> (r: Result<Vec<String>, DictSourceError>)
    ensures
        r is Err <==> readable(source, names@).len() == 0,
        r is Err ==> r->Err_0 is Parse && r->Err_0->Parse_0@ == "no "@ + source.pattern()
            + " files found in "@ + dir@,
        r is Ok ==> bytes::in_order(r->Ok_0@) && r->Ok_0@.to_multiset() == readable(
            source,
            names@,
        ).to_multiset(),
{
    let mut files: Vec<String> = Vec::new();
    let mut i: usize = 0;
    proof {
        assert(names@.take(0) =~= Seq::empty());
    }
    while i < names.len()
        invariant
            i <= names@.len(),
            files@ == readable(source, names@.take(i as int)),
        decreases names.len() - i,
    {
        proof {
            assert(names@.take(i + 1).drop_last() =~= names@.take(i as int));
            assert(names@.take(i + 1).last() == names@[i as int]);
        }
        if source.reads_file(names[i].as_str()) {
            files.push(names[i].clone());
        }
        i = i + 1;
    }
    proof {
        assert(names@.take(i as int) =~= names@);
    }
    if files.len() == 0 {
        let mut message = String::new();
        push_text(&mut message, "no ");
        push_text(&mut message, source.label());
        push_text(&mut message, " files found in ");
        push_text(&mut message, dir);
        proof {
            assert(message@ =~= "no "@ + source.pattern() + " files found in "@ + dir@);
        }
        return Err(DictSourceError::Parse(message));
    }
    Ok(sort_by_bytes(files))
}

/// The lines of the files, one file after the other.
pub open spec fn all_lines(files: Seq<Seq<char>>) -> Seq<Seq<char>>
    decreases files.len(),
{
    if files.len() == 0 {
        Seq::empty()
    } else {
        all_lines(files.drop_last()) + lines::lines(files.last())
    }
}

/// The entries on the lines, by reading.
pub open spec fn entries_on<S: DictSource + ?Sized>(
    source: &S,
    rows: Seq<Seq<char>>,
) -> Map<Seq<char>, Seq<EntryView>>
    decreases rows.len(),
{
    if rows.len() == 0 {
        Map::empty()
    } else {
        let before = entries_on(source, rows.drop_last());
        match source.line_entry(rows.last()) {
            Some((reading, entry)) => table::with_entry(before, reading, entry),
            None => before,
        }
    }
}

/// The number of lines without an entry.
pub open spec fn lines_without<S: DictSource + ?Sized>(source: &S, rows: Seq<Seq<char>>) -> nat
    decreases rows.len(),
{
    if rows.len() == 0 {
        0
    } else {
        lines_without(source, rows.drop_last()) + if source.line_entry(rows.last()) is None {
            1nat
        } else {
            0
        }
    }
}

/// A count, as far as 64 bits hold it.
pub open spec fn counted(n: nat) -> int {
    if n <= u64::MAX {
        n as int
    } else {
        u64::MAX as int
    }
}

/// What dictionary files hold.
pub struct ParsedFiles {
    pub entries: EntryTable,
    pub total_lines: u64,
    pub skipped: u64,
}

/// Reads the entries off the lines of the files.
pub fn parse_files<S: DictSource + ?Sized>(source: &S, files: &Vec<String>) -> (r: ParsedFiles)
    ensures
        r.entries.words() == entries_on(source, all_lines(text::views(files@))),
        r.total_lines == counted(all_lines(text::views(files@)).len()),
        r.skipped == counted(lines_without(source, all_lines(text::views(files@)))),
{
    let mut entries = EntryTable::new();
    let mut total_lines: u64 = 0;
    let mut skipped: u64 = 0;
    let mut i: usize = 0;
    let ghost texts = text::views(files@);
    proof {
        assert(texts.take(0) =~= Seq::empty());
    }
    while i < files.len()
        invariant
            i <= files@.len(),
            texts == text::views(files@),
            entries.words() == entries_on(source, all_lines(texts.take(i as int))),
            total_lines == counted(all_lines(texts.take(i as int)).len()),
            skipped == counted(lines_without(source, all_lines(texts.take(i as int)))),
        decreases files.len() - i,
    {
        let rows: Vec<String> = lines_of(files[i].as_str());
        let ghost before = all_lines(texts.take(i as int));
        let ghost here = text::views(rows@);
        proof {
            assert(texts.take(i + 1).drop_last() =~= texts.take(i as int));
            assert(texts.take(i + 1).last() == files@[i as int]@);
            assert(before + here.take(0) =~= before);
        }
        let mut k: usize = 0;
        while k < rows.len()
            invariant
                k <= rows@.len(),
                here == text::views(rows@),
                entries.words() == entries_on(source, before + here.take(k as int)),
                total_lines == counted((before + here.take(k as int)).len()),
                skipped == counted(lines_without(source, before + here.take(k as int))),
            decreases rows.len() - k,
        {
            proof {
                let next = before + here.take(k + 1);
                assert(next.drop_last() =~= before + here.take(k as int));
                assert(next.last() == rows@[k as int]@);
            }
            total_lines = total_lines.saturating_add(1);
            match source.parse_line(rows[k].as_str()) {
                Some((reading, entry)) => {
                    entries.add(reading, entry);
                },
                None => {
                    skipped = skipped.saturating_add(1);
                },
            }
            k = k + 1;
        }
        proof {
            assert(here.take(k as int) =~= here);
        }
        i = i + 1;
    }
    proof {
        assert(texts.take(i as int) =~= texts);
    }
    ParsedFiles { entries, total_lines, skipped }
}

/// The ids and the cost in the second, third and fourth field.
pub open spec fn id_cost(fields: Seq<Seq<char>>) -> Option<(u16, u16, i16)> {
    let left = lines::natural_number(fields[1]);
    let right = lines::natural_number(fields[2]);
    let cost = lines::whole_number(fields[3]);
    if left is Some && left->0 <= u16::MAX && right is Some && right->0 <= u16::MAX && cost is Some
        && i16::MIN <= cost->0 <= i16::MAX {
        Some((left->0 as u16, right->0 as u16, cost->0 as i16))
    } else {
        None
    }
}

/// Reads the second, third and fourth field as left id, right id and cost. There
/// is nothing where one of them is no such number.
pub fn parse_id_cost(fields: &Vec<String>) -> (r: Option<(u16, u16, i16)>)
    requires
        fields@.len() >= 4,
    ensures
        r == id_cost(text::views(fields@)),
{
    match (
        parse_u16(fields[1].as_str()),
        parse_u16(fields[2].as_str()),
        parse_i16(fields[3].as_str()),
    ) {
        (Some(left_id), Some(right_id), Some(cost)) => Some((left_id, right_id, cost)),
        _ => None,
    }
}

/// An entry stands under a reading that a line gives it, and every line without
/// an entry is one that was skipped: the entries and the skipped lines make up all
/// lines.
pub proof fn lines_are_entries_or_skipped<S: DictSource + ?Sized>(source: &S, rows: Seq<Seq<char>>)
    ensures
        forall|reading: Seq<char>| #[trigger]
            entries_on(source, rows).contains_key(reading) ==> entries_on(
                source,
                rows,
            )[reading].len() > 0,
        forall|reading: Seq<char>, i: int|
            entries_on(source, rows).contains_key(reading) && 0 <= i < entries_on(
                source,
                rows,
            )[reading].len() ==> exists|k: int|
                0 <= k < rows.len() && #[trigger] source.line_entry(rows[k]) == Some(
                    (reading, #[trigger] entries_on(source, rows)[reading][i]),
                ),
        lines_without(source, rows) <= rows.len(),
    decreases rows.len(),
{
    if rows.len() > 0 {
        let front = rows.drop_last();
        let before = entries_on(source, front);
        let all = entries_on(source, rows);
        lines_are_entries_or_skipped(source, front);
        assert forall|reading: Seq<char>, i: int|
            all.contains_key(reading) && 0 <= i < all[reading].len() implies exists|k: int|
            0 <= k < rows.len() && #[trigger] source.line_entry(rows[k]) == Some(
                (reading, #[trigger] all[reading][i]),
            ) by {
            if before.contains_key(reading) && i < before[reading].len() {
                assert(all[reading][i] == before[reading][i]);
                let k = choose|k: int|
                    0 <= k < front.len() && #[trigger] source.line_entry(front[k]) == Some(
                        (reading, before[reading][i]),
                    );
                assert(source.line_entry(rows[k]) == Some((reading, all[reading][i])));
            } else {
                assert(source.line_entry(rows[rows.len() - 1]) == Some((reading, all[reading][i])));
            }
        }
    }
}

} // verus!
