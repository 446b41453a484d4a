//! The dictionary files of Mozc.

use vstd::prelude::*;

use crate::bytes::{self, bytes_before};
use crate::dict::source::{self, parse_id_cost, DictSource, DictSourceError};
use crate::dict::{DictEntry, EntryView};
use crate::lines::{self, ends_with, file_name, split_at, starts_with};
use crate::text::{self, push_text};
use crate::unicode::{self, is_hiragana_reading};

verus! {

/// Where the list of dictionary files is found.
pub const CONTENTS_URL: &'static str =
    "https://api.github.com/repos/google/mozc/contents/src/data/dictionary_oss";

pub const LICENSE_URL: &'static str =
    "https://raw.githubusercontent.com/google/mozc/master/LICENSE";

pub const CONNECTION_URL: &'static str =
    "https://raw.githubusercontent.com/google/mozc/master/src/data/dictionary_oss/connection_single_column.txt";

/// Mozc TSV dictionary source.
///
/// A line reads `reading\tleft_id\tright_id\tcost\tsurface`. The files are those
/// named `dictionary*.txt`.
pub struct MozcSource;

/// The reading and the entry in the fields of a line.
pub open spec fn fields_entry(fields: Seq<Seq<char>>) -> Option<(Seq<char>, EntryView)> {
    if fields.len() >= 5 && source::id_cost(fields) is Some && unicode::hiragana_reading(
        fields[0],
    ) {
        let (left_id, right_id, cost) = source::id_cost(fields)->0;
        Some((fields[0], EntryView { surface: fields[4], cost, left_id, right_id }))
    } else {
        None
    }
}

impl DictSource for MozcSource {
    open spec fn pattern(&self) -> Seq<char> {
        "dictionary*.txt"@
    }

    open spec fn reads(&self, name: Seq<char>) -> bool {
        "dictionary"@.is_prefix_of(name) && ".txt"@.is_suffix_of(name)
    }

    open spec fn line_entry(&self, line: Seq<char>) -> Option<(Seq<char>, EntryView)> {
        if line.len() == 0 || line[0] == '#' {
            None
        } else {
            fields_entry(lines::split(line, '\t'))
        }
    }

    fn label(&self) -> (r: &'static str) {
        "dictionary*.txt"
    }

    fn reads_file(&self, name: &str) -> (r: bool) {
        starts_with(name, "dictionary") && ends_with(name, ".txt")
    }

    fn parse_line(&self, line: &str) -> (r: Option<(String, DictEntry)>) {
        if line.is_empty() || line.get_char(0) == '#' {
            return None;
        }
        let fields: Vec<String> = split_at(line, '\t');
        let ghost f = text::views(fields@);
        if fields.len() < 5 {
            return None;
        }
        let (left_id, right_id, cost) = match parse_id_cost(&fields) {
            Some(t) => t,
            None => {
                return None;
            },
        };
        if !is_hiragana_reading(fields[0].as_str()) {
            return None;
        }
        Some(
            (
                fields[0].clone(),
                DictEntry { surface: fields[4].clone(), cost, left_id, right_id },
            ),
        )
    }
}

/// A file of the list: its name and its address, each where it is given as a text.
pub type Listed = (Option<String>, Option<String>);

/// What a file of the list says.
pub type ListedView = (Option<Seq<char>>, Option<Seq<char>>);

pub open spec fn text_view(t: Option<String>) -> Option<Seq<char>> {
    match t {
        Some(s) => Some(s@),
        None => None,
    }
}

pub open spec fn listed_view(l: Listed) -> ListedView {
    (text_view(l.0), text_view(l.1))
}

pub open spec fn listed_views(s: Seq<Listed>) -> Seq<ListedView> {
    Seq::new(s.len(), |i: int| listed_view(s[i]))
}

/// What a list of items holds: `Err` with the reason where the text is no JSON
/// array, and else the members `first` and `second` of each item, as far as they are
/// texts.
pub uninterp spec fn listing(
    json: Seq<char>,
    first: Seq<char>,
    second: Seq<char>,
) -> Result<Seq<ListedView>, Seq<char>>;

/// `serde_json::from_str` reads a JSON array, and `Value::as_str` gives the text
/// of a member. What the array holds, or why there is none, is `listing`.
#[verifier::external_body]
fn read_listing(json: &str, first: &str, second: &str) -> (r: Result<Vec<Listed>, String>)
    ensures
        r is Ok <==> listing(json@, first@, second@) is Ok,
        r is Ok ==> listed_views(r->Ok_0@) == listing(json@, first@, second@)->Ok_0,
        r is Err ==> r->Err_0@ == listing(json@, first@, second@)->Err_0,
{
    match serde_json::from_str::<Vec<serde_json::Value>>(json) {
        Ok(items) => Ok(
            items.iter().map(
                |e| (
                    e[first].as_str().map(str::to_string),
                    e[second].as_str().map(str::to_string),
                ),
            ).collect(),
        ),
        Err(e) => Err(e.to_string()),
    }
}

/// The names and addresses of a list of files.
pub open spec fn file_listing(json: Seq<char>) -> Result<Seq<ListedView>, Seq<char>> {
    listing(json, "name"@, "download_url"@)
}

/// Whether a file of the list is one to fetch: a dictionary file, or the table of
/// ids.
pub open spec fn wanted(name: Seq<char>) -> bool {
    MozcSource.reads(name) || name == "id.def"@
}

/// The name and the address of a file of the list that is to be fetched. Of a path
/// only the file name counts.
pub open spec fn remote_file(l: ListedView) -> Option<(Seq<char>, Seq<char>)> {
    match l {
        (Some(path), Some(url)) => {
            match lines::base_name(path) {
                Some(name) => if url.len() > 0 && wanted(name) {
                    Some((name, url))
                } else {
                    None
                },
                None => None,
            }
        },
        _ => None,
    }
}

/// The files of the list that are to be fetched, in the order of the list.
pub open spec fn remote_files(list: Seq<ListedView>) -> Seq<(Seq<char>, Seq<char>)>
    decreases list.len(),
{
    if list.len() == 0 {
        Seq::empty()
    } else {
        let before = remote_files(list.drop_last());
        match remote_file(list.last()) {
            Some(f) => before.push(f),
            None => before,
        }
    }
}

pub open spec fn pair_view(p: (String, String)) -> (Seq<char>, Seq<char>) {
    (p.0@, p.1@)
}

pub open spec fn pair_views(s: Seq<(String, String)>) -> Seq<(Seq<char>, Seq<char>)> {
    Seq::new(s.len(), |i: int| pair_view(s[i]))
}

/// Whether a file comes before another: by its name, then by its address.
pub open spec fn file_less(a: (Seq<char>, Seq<char>), b: (Seq<char>, Seq<char>)) -> bool {
    let name_a = vstd::utf8::encode_utf8(a.0);
    let name_b = vstd::utf8::encode_utf8(b.0);
    ||| bytes::bytes_less(name_a, name_b)
    ||| name_a == name_b && bytes::bytes_less(
        vstd::utf8::encode_utf8(a.1),
        vstd::utf8::encode_utf8(b.1),
    )
}

/// No file comes before one in front of it.
pub open spec fn files_in_order(s: Seq<(Seq<char>, Seq<char>)>) -> bool {
    forall|i: int, j: int| 0 <= i < j < s.len() ==> !file_less(#[trigger] s[j], #[trigger] s[i])
}

proof fn lemma_file_order(a: (Seq<char>, Seq<char>), b: (Seq<char>, Seq<char>), c: (Seq<char>, Seq<char>))
    ensures
        !(file_less(a, b) && file_less(b, a)),
        file_less(a, b) && file_less(b, c) ==> file_less(a, c),
{
    let a0 = vstd::utf8::encode_utf8(a.0);
    let a1 = vstd::utf8::encode_utf8(a.1);
    let b0 = vstd::utf8::encode_utf8(b.0);
    let b1 = vstd::utf8::encode_utf8(b.1);
    let c0 = vstd::utf8::encode_utf8(c.0);
    let c1 = vstd::utf8::encode_utf8(c.1);
    bytes::bytes_less_is_total(a0, b0);
    bytes::bytes_less_is_total(a1, b1);
    if bytes::bytes_less(a0, b0) && bytes::bytes_less(b0, c0) {
        bytes::bytes_less_is_transitive(a0, b0, c0);
    }
    if bytes::bytes_less(a1, b1) && bytes::bytes_less(b1, c1) {
        bytes::bytes_less_is_transitive(a1, b1, c1);
    }
}

/// Whether `a` comes before `b`.
fn file_before(a: &(String, String), b: &(String, String)) -> (r: bool)
    ensures
        r == file_less(pair_view(*a), pair_view(*b)),
{
    let name_a: &[u8] = a.0.as_str().as_bytes();
    let name_b: &[u8] = b.0.as_str().as_bytes();
    proof {
        bytes::bytes_less_is_total(name_a@, name_b@);
    }
    if bytes_before(name_a, name_b) {
        return true;
    }
    if bytes_before(name_b, name_a) {
        return false;
    }
    bytes_before(a.1.as_str().as_bytes(), b.1.as_str().as_bytes())
}

/// Adds a file to files in order, at its place.
fn insert_file(files: &mut Vec<(String, String)>, file: (String, String))
    requires
        files_in_order(pair_views(old(files)@)),
    ensures
        files_in_order(pair_views(final(files)@)),
        pair_views(final(files)@).to_multiset() == pair_views(old(files)@).to_multiset().insert(
            pair_view(file),
        ),
{
    let mut p: usize = 0;
    while p < files.len() && !file_before(&file, &files[p])
        invariant
            p <= files@.len(),
            forall|j: int|
                0 <= j < p ==> !file_less(pair_view(file), #[trigger] pair_views(files@)[j]),
        decreases files.len() - p,
    {
        p = p + 1;
    }
    let ghost before = pair_views(files@);
    let ghost f = pair_view(file);
    files.insert(p, file);
    proof {
        let after = pair_views(files@);
        assert(after =~= before.insert(p as int, f));
        vstd::seq_lib::to_multiset_insert(before, p as int, f);
        assert forall|i: int, j: int| 0 <= i < j < after.len() implies !file_less(
            #[trigger] after[j],
            #[trigger] after[i],
        ) by {
            if i < p && j < p {
                assert(after[i] == before[i] && after[j] == before[j]);
            } else if i < p && j == p {
                assert(after[i] == before[i]);
            } else if i < p {
                assert(after[i] == before[i] && after[j] == before[j - 1]);
            } else if i == p {
                assert(after[j] == before[j - 1]);
                lemma_file_order(before[j - 1], f, before[p as int]);
                lemma_file_order(f, before[p as int], f);
                if j - 1 > p {
                    assert(!file_less(before[j - 1], before[p as int]));
                }
            } else {
                assert(after[i] == before[i - 1] && after[j] == before[j - 1]);
            }
        }
    }
}

/// The files of the list that are to be fetched, by name.
pub fn pick_remote_files(list: &Vec<Listed>) -> (r: Vec<(String, String)>)
    ensures
        files_in_order(pair_views(r@)),
        pair_views(r@).to_multiset() == remote_files(listed_views(list@)).to_multiset(),
{
    broadcast use vstd::seq_lib::group_to_multiset_ensures;

    let mut out: Vec<(String, String)> = Vec::new();
    let ghost all = listed_views(list@);
    proof {
        assert(all.take(0) =~= Seq::empty());
        assert(pair_views(out@) =~= Seq::empty());
    }
    let mut i: usize = 0;
    while i < list.len()
        invariant
            i <= list@.len(),
            all == listed_views(list@),
            files_in_order(pair_views(out@)),
            pair_views(out@).to_multiset() == remote_files(all.take(i as int)).to_multiset(),
        decreases list.len() - i,
    {
        proof {
            assert(all.take(i + 1).drop_last() =~= all.take(i as int));
            assert(all.take(i + 1).last() == listed_view(list@[i as int]));
            vstd::seq_lib::to_multiset_build(
                remote_files(all.take(i as int)),
                remote_file(listed_view(list@[i as int]))->0,
            );
        }
        match &list[i] {
            (Some(path), Some(url)) => {
                match file_name(path.as_str()) {
                    Some(name) => {
                        if !url.as_str().is_empty() && (MozcSource.reads_file(name.as_str())
                            || text::same_text(name.as_str(), "id.def")) {
                            insert_file(&mut out, (name, url.clone()));
                        }
                    },
                    None => {},
                }
            },
            _ => {},
        }
        i = i + 1;
    }
    proof {
        assert(all.take(i as int) =~= all);
    }
    out
}

/// Reads the list of files that the contents address answers with, and gives the
/// name and the address of each dictionary file and of the table of ids.
pub fn parse_remote_files(json: &str) -> (r: Result<Vec<(String, String)>, DictSourceError>)
    ensures
        r is Ok <==> file_listing(json@) is Ok,
        r is Ok ==> files_in_order(pair_views(r->Ok_0@)) && pair_views(r->Ok_0@).to_multiset()
            == remote_files(file_listing(json@)->Ok_0).to_multiset(),
        r is Err ==> r->Err_0 is Parse && r->Err_0->Parse_0@ == "GitHub API JSON: "@ + file_listing(
            json@,
        )->Err_0,
{
    match read_listing(json, "name", "download_url") {
        Ok(list) => Ok(pick_remote_files(&list)),
        Err(e) => {
            let mut message = String::new();
            push_text(&mut message, "GitHub API JSON: ");
            push_text(&mut message, e.as_str());
            proof {
                assert(message@ =~= "GitHub API JSON: "@ + e@);
            }
            Err(DictSourceError::Parse(message))
        },
    }
}

/// What is fetched, with the name under which it is kept: the listed files, then
/// the connection costs, then the license.
pub open spec fn downloads_of(listed: Seq<(Seq<char>, Seq<char>)>) -> Seq<(Seq<char>, Seq<char>)> {
    listed.push(("connection_single_column.txt"@, CONNECTION_URL@)).push(
        ("LICENSE"@, LICENSE_URL@),
    )
}

impl MozcSource {
    /// What is fetched, with the name under which it is kept.
    pub fn downloads(&self, listed: Vec<(String, String)>) -> (r: Vec<(String, String)>)
        ensures
            pair_views(r@) == downloads_of(pair_views(listed@)),
    {
        let mut out = listed;
        out.push(("connection_single_column.txt".to_string(), CONNECTION_URL.to_string()));
        out.push(("LICENSE".to_string(), LICENSE_URL.to_string()));
        proof {
            assert(pair_views(out@) =~= downloads_of(pair_views(listed@)));
        }
        out
    }
}

/// A listed file is kept under a plain name, whatever path the list gives: the
/// name holds no slash and does not lead out of the directory.
pub proof fn remote_names_are_plain(list: Seq<ListedView>)
    ensures
        forall|i: int|
            0 <= i < remote_files(list).len() ==> !(#[trigger] remote_files(list)[i]).0.contains(
                '/',
            ) && remote_files(list)[i].0 != ".."@ && wanted(remote_files(list)[i].0),
    decreases list.len(),
{
    if list.len() > 0 {
        let before = remote_files(list.drop_last());
        remote_names_are_plain(list.drop_last());
        if remote_file(list.last()) is Some {
            lines::file_names_hold_no_slash((list.last().0)->0);
        }
        assert forall|i: int| 0 <= i < remote_files(list).len() implies !(#[trigger] remote_files(
            list,
        )[i]).0.contains('/') && remote_files(list)[i].0 != ".."@ && wanted(
            remote_files(list)[i].0,
        ) by {
            if i < before.len() {
                assert(remote_files(list)[i] == before[i]);
            }
        }
    }
}

/// Every reading of a dictionary from Mozc is a reading in hiragana.
pub proof fn readings_are_hiragana(rows: Seq<Seq<char>>)
    ensures
        forall|reading: Seq<char>| #[trigger]
            source::entries_on(&MozcSource, rows).contains_key(reading)
                ==> unicode::hiragana_reading(reading),
    decreases rows.len(),
{
    if rows.len() > 0 {
        readings_are_hiragana(rows.drop_last());
        let before = source::entries_on(&MozcSource, rows.drop_last());
        assert forall|reading: Seq<char>| #[trigger]
            source::entries_on(&MozcSource, rows).contains_key(
                reading,
            ) implies unicode::hiragana_reading(reading) by {
            if before.contains_key(reading) {
                assert(unicode::hiragana_reading(reading));
            } else {
                assert(MozcSource.line_entry(rows.last()) is Some);
            }
        }
    }
}

} // verus!
