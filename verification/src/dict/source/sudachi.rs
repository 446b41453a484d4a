//! The dictionary files of SudachiDict.

use vstd::prelude::*;

use crate::bytes::{self, bytes_before};
use crate::dict::source::{self, parse_id_cost, DictSource, DictSourceError};
use crate::dict::{DictEntry, EntryView};
use crate::lines::{self, ends_with, file_name, split_at, split_at_text, split_once, starts_with};
use crate::text::{self, chars_of, push_text, text_between};
use crate::unicode::{self, is_hiragana_reading, kata_to_hira};

verus! {

/// SudachiDict CSV dictionary source.
///
/// A line holds 18 columns, with commas between them: the surface, the left id,
/// the right id and the cost come first, and the reading, in katakana, is the
/// twelfth. The files are those named `*.csv`.
pub struct SudachiSource;

/// The reading and the entry in the fields of a line.
pub open spec fn fields_entry(fields: Seq<Seq<char>>) -> Option<(Seq<char>, EntryView)> {
    if fields.len() >= 12 && source::id_cost(fields) is Some && unicode::hiragana_reading(
        unicode::all_to_hiragana(fields[11]),
    ) {
        let (left_id, right_id, cost) = source::id_cost(fields)->0;
        Some(
            (
                unicode::all_to_hiragana(fields[11]),
                EntryView { surface: fields[0], cost, left_id, right_id },
            ),
        )
    } else {
        None
    }
}

impl DictSource for SudachiSource {
    open spec fn pattern(&self) -> Seq<char> {
        "*.csv"@
    }

    open spec fn reads(&self, name: Seq<char>) -> bool {
        ".csv"@.is_suffix_of(name)
    }

    open spec fn line_entry(&self, line: Seq<char>) -> Option<(Seq<char>, EntryView)> {
        if line.len() == 0 || line[0] == '#' {
            None
        } else {
            fields_entry(lines::split(line, ','))
        }
    }

    fn label(&self) -> (r: &'static str) {
        "*.csv"
    }

    fn reads_file(&self, name: &str) -> (r: bool) {
        ends_with(name, ".csv")
    }

    fn parse_line(&self, line: &str) -> (r: Option<(String, DictEntry)>) {
        if line.is_empty() || line.get_char(0) == '#' {
            return None;
        }
        let fields: Vec<String> = split_at(line, ',');
        let ghost f = text::views(fields@);
        if fields.len() < 12 {
            return None;
        }
        let (left_id, right_id, cost) = match parse_id_cost(&fields) {
            Some(t) => t,
            None => {
                return None;
            },
        };
        let reading: String = kata_to_hira(fields[11].as_str());
        if !is_hiragana_reading(reading.as_str()) {
            return None;
        }
        Some((reading, DictEntry { surface: fields[0].clone(), cost, left_id, right_id }))
    }
}

/// Where the list of versions is found.
pub const LIST_URL: &'static str =
    "https://sudachi.s3.ap-northeast-1.amazonaws.com/?list-type=2&prefix=sudachidict-raw/&delimiter=/";

/// Where the archives are found.
pub const CDN_BASE: &'static str = "https://d2ej7fkh96fzlu.cloudfront.net/sudachidict-raw";

/// A text without the slashes at its end.
pub open spec fn without_slashes(s: Seq<char>) -> Seq<char>
    decreases s.len(),
{
    if s.len() > 0 && s.last() == '/' {
        without_slashes(s.drop_last())
    } else {
        s
    }
}

/// The version that a piece of the list names, if it names any: a directory of
/// digits alone.
pub open spec fn version_of(piece: Seq<char>) -> Option<Seq<char>> {
    if "sudachidict-raw/"@.is_prefix_of(piece) {
        match lines::cut(piece.skip("sudachidict-raw/"@.len() as int), "</Prefix>"@) {
            Some((dir, _)) => if lines::digits(without_slashes(dir)) {
                Some(without_slashes(dir))
            } else {
                None
            },
            None => None,
        }
    } else {
        None
    }
}

/// The versions that the pieces of the list name.
pub open spec fn versions_in(pieces: Seq<Seq<char>>) -> Seq<Seq<char>>
    decreases pieces.len(),
{
    if pieces.len() == 0 {
        Seq::empty()
    } else {
        let before = versions_in(pieces.drop_last());
        match version_of(pieces.last()) {
            Some(v) => before.push(v),
            None => before,
        }
    }
}

/// The versions in the list.
pub open spec fn versions(xml: Seq<char>) -> Seq<Seq<char>> {
    versions_in(lines::split_text(xml, "<Prefix>"@, 0))
}

/// Whether the bytes of `a` come before those of `b`.
pub open spec fn text_less(a: Seq<char>, b: Seq<char>) -> bool {
    bytes::bytes_less(vstd::utf8::encode_utf8(a), vstd::utf8::encode_utf8(b))
}

/// Reads the version off a piece of the list.
fn read_version(piece: &str) -> (r: Option<String>)
    ensures
        r is Some <==> version_of(piece@) is Some,
        r is Some ==> r->0@ == version_of(piece@)->0,
{
    if !starts_with(piece, "sudachidict-raw/") {
        return None;
    }
    let chars: Vec<char> = chars_of(piece);
    let prefix: Vec<char> = chars_of("sudachidict-raw/");
    let rest: String = text_between(&chars, prefix.len(), chars.len());
    proof {
        assert(piece@.subrange(prefix@.len() as int, piece@.len() as int) =~= piece@.skip(
            prefix@.len() as int,
        ));
    }
    let mut dir: Vec<char> = match split_once(rest.as_str(), "</Prefix>") {
        Some((dir, _)) => chars_of(dir.as_str()),
        None => {
            return None;
        },
    };
    let ghost named = dir@;
    while dir.len() > 0 && dir[dir.len() - 1] == '/'
        invariant
            without_slashes(dir@) == without_slashes(named),
        decreases dir@.len(),
    {
        let _ = dir.pop();
    }
    if dir.len() == 0 {
        return None;
    }
    let mut i: usize = 0;
    while i < dir.len()
        invariant
            i <= dir@.len(),
            version_of(piece@) is Some <==> lines::digits(dir@),
            forall|j: int| 0 <= j < i ==> lines::digit(#[trigger] dir@[j]),
        decreases dir.len() - i,
    {
        if dir[i] < '0' || dir[i] > '9' {
            proof {
                assert(!lines::digit(dir@[i as int]));
            }
            return None;
        }
        i = i + 1;
    }
    let out: String = text_between(&dir, 0, dir.len());
    proof {
        assert(dir@.subrange(0, dir@.len() as int) =~= dir@);
    }
    Some(out)
}

/// Finds the latest version in the list of versions: of those that are made of
/// digits alone, the one that comes last in lexicographic order.
pub fn parse_latest_version(xml: &str) -> (r: Result<String, DictSourceError>)
    ensures
        r is Ok <==> versions(xml@).len() > 0,
        r is Ok ==> versions(xml@).contains(r->Ok_0@),
        r is Ok ==> forall|i: int|
            0 <= i < versions(xml@).len() ==> !text_less(r->Ok_0@, #[trigger] versions(xml@)[i]),
        r is Err ==> r->Err_0 is Http && r->Err_0->Http_0@ == "no versions found in S3 listing"@,
{
    proof {
        reveal_strlit("<Prefix>");
    }
    let pieces: Vec<String> = split_at_text(xml, "<Prefix>");
    let ghost all = text::views(pieces@);
    let mut latest: Option<String> = None;
    let mut i: usize = 0;
    proof {
        assert(all.take(0) =~= Seq::empty());
    }
    while i < pieces.len()
        invariant
            i <= pieces@.len(),
            all == text::views(pieces@),
            latest is None <==> versions_in(all.take(i as int)).len() == 0,
            latest is Some ==> versions_in(all.take(i as int)).contains(latest->0@),
            latest is Some ==> forall|j: int|
                0 <= j < versions_in(all.take(i as int)).len() ==> !text_less(
                    latest->0@,
                    #[trigger] versions_in(all.take(i as int))[j],
                ),
        decreases pieces.len() - i,
    {
        let ghost before = versions_in(all.take(i as int));
        let ghost after = versions_in(all.take(i + 1));
        let ghost was = latest;
        proof {
            assert(all.take(i + 1).drop_last() =~= all.take(i as int));
            assert(all.take(i + 1).last() == pieces@[i as int]@);
        }
        match read_version(pieces[i].as_str()) {
            Some(v) => {
                let newer: bool = match &latest {
                    Some(l) => bytes_before(l.as_str().as_bytes(), v.as_str().as_bytes()),
                    None => true,
                };
                proof {
                    lemma_latest(before, was, v@, newer);
                }
                if newer {
                    latest = Some(v);
                }
            },
            None => {},
        }
        i = i + 1;
    }
    proof {
        assert(all.take(i as int) =~= all);
    }
    match latest {
        Some(v) => Ok(v),
        None => Err(DictSourceError::Http("no versions found in S3 listing".to_string())),
    }
}

/// The latest of some versions stays the latest with another one, or that one is.
proof fn lemma_latest(before: Seq<Seq<char>>, latest: Option<String>, v: Seq<char>, newer: bool)
    requires
        latest is None <==> before.len() == 0,
        latest is Some ==> before.contains(latest->0@),
        latest is Some ==> forall|j: int|
            0 <= j < before.len() ==> !text_less(latest->0@, #[trigger] before[j]),
        newer == (latest is None || text_less(latest->0@, v)),
    ensures
        ({
            let best = if newer {
                v
            } else {
                latest->0@
            };
            before.push(v).contains(best) && forall|j: int|
                0 <= j <= before.len() ==> !text_less(best, #[trigger] before.push(v)[j])
        }),
{
    let best = if newer {
        v
    } else {
        latest->0@
    };
    let after = before.push(v);
    if newer {
        assert(after[before.len() as int] == v);
    } else {
        let k = choose|k: int| 0 <= k < before.len() && before[k] == best;
        assert(after[k] == best);
    }
    assert forall|j: int| 0 <= j <= before.len() implies !text_less(
        best,
        #[trigger] after[j],
    ) by {
        bytes::bytes_less_is_total(vstd::utf8::encode_utf8(v), vstd::utf8::encode_utf8(v));
        if j < before.len() {
            assert(after[j] == before[j]);
            if newer {
                let l = vstd::utf8::encode_utf8(latest->0@);
                if text_less(v, before[j]) {
                    bytes::bytes_less_is_transitive(
                        l,
                        vstd::utf8::encode_utf8(v),
                        vstd::utf8::encode_utf8(before[j]),
                    );
                }
            }
        }
    }
}

/// Under which name an entry of an archive is kept: nowhere where its name does
/// not end in `suffix`, and else under its file name.
pub fn zip_output(raw_name: &str, suffix: &str) -> (r: Result<Option<String>, DictSourceError>)
    ensures
        !suffix@.is_suffix_of(raw_name@) ==> r is Ok && r->Ok_0 is None,
        suffix@.is_suffix_of(raw_name@) && lines::base_name(raw_name@) is Some ==> r is Ok
            && r->Ok_0 is Some && r->Ok_0->0@ == lines::base_name(raw_name@)->0,
        suffix@.is_suffix_of(raw_name@) && lines::base_name(raw_name@) is None ==> r is Err
            && r->Err_0 is Parse && r->Err_0->Parse_0@ == "invalid ZIP entry name: "@ + raw_name@,
{
    if !ends_with(raw_name, suffix) {
        return Ok(None);
    }
    match file_name(raw_name) {
        Some(name) => Ok(Some(name)),
        None => {
            let mut message = String::new();
            push_text(&mut message, "invalid ZIP entry name: ");
            push_text(&mut message, raw_name);
            proof {
                assert(message@ =~= "invalid ZIP entry name: "@ + raw_name@);
            }
            Err(DictSourceError::Parse(message))
        },
    }
}

/// An archive to fetch, the ending of the entries to take out of it, and the file
/// that shows that it has been fetched.
pub struct Archive {
    pub url: String,
    pub suffix: &'static str,
    pub file: String,
}

/// What an `Archive` holds.
pub struct ArchiveView {
    pub url: Seq<char>,
    pub suffix: Seq<char>,
    pub file: Seq<char>,
}

impl View for Archive {
    type V = ArchiveView;

    open spec fn view(&self) -> ArchiveView {
        ArchiveView { url: self.url@, suffix: self.suffix@, file: self.file@ }
    }
}

/// The archive of the part `stem` of a version.
pub open spec fn part_archive(version: Seq<char>, stem: Seq<char>) -> ArchiveView {
    ArchiveView {
        url: CDN_BASE@ + "/"@ + version + "/"@ + stem + ".zip"@,
        suffix: ".csv"@,
        file: stem + ".csv"@,
    }
}

/// The archive of the connection costs.
pub open spec fn matrix_archive() -> ArchiveView {
    ArchiveView {
        url: CDN_BASE@ + "/matrix.def.zip"@,
        suffix: "matrix.def"@,
        file: "matrix.def"@,
    }
}

/// The archives of a version: two parts and the connection costs, and with the
/// full dictionary a third part.
pub open spec fn archives_of(version: Seq<char>, full: bool) -> Seq<ArchiveView> {
    let core = seq![
        part_archive(version, "small_lex"@),
        part_archive(version, "core_lex"@),
        matrix_archive(),
    ];
    if full {
        core.push(part_archive(version, "notcore_lex"@))
    } else {
        core
    }
}

fn part(version: &str, stem: &str) -> (r: Archive)
    ensures
        r@ == part_archive(version@, stem@),
{
    let mut url = CDN_BASE.to_string();
    push_text(&mut url, "/");
    push_text(&mut url, version);
    push_text(&mut url, "/");
    push_text(&mut url, stem);
    push_text(&mut url, ".zip");
    let mut file = stem.to_string();
    push_text(&mut file, ".csv");
    Archive { url, suffix: ".csv", file }
}

impl SudachiSource {
    /// The archives of a version; with `full` all parts of the dictionary.
    pub fn archives(&self, version: &str, full: bool) -> (r: Vec<Archive>)
        ensures
            text::views(r@) == archives_of(version@, full),
    {
        let mut out: Vec<Archive> = Vec::new();
        out.push(part(version, "small_lex"));
        out.push(part(version, "core_lex"));
        let mut url = CDN_BASE.to_string();
        push_text(&mut url, "/matrix.def.zip");
        out.push(Archive { url, suffix: "matrix.def", file: "matrix.def".to_string() });
        if full {
            out.push(part(version, "notcore_lex"));
        }
        proof {
            assert(text::views(out@) =~= archives_of(version@, full));
        }
        out
    }
}

/// Every reading of a dictionary from SudachiDict is a reading in hiragana.
pub proof fn readings_are_hiragana(rows: Seq<Seq<char>>)
    ensures
        forall|reading: Seq<char>| #[trigger]
            source::entries_on(&SudachiSource, rows).contains_key(reading)
                ==> unicode::hiragana_reading(reading),
    decreases rows.len(),
{
    if rows.len() > 0 {
        readings_are_hiragana(rows.drop_last());
        let before = source::entries_on(&SudachiSource, rows.drop_last());
        assert forall|reading: Seq<char>| #[trigger]
            source::entries_on(&SudachiSource, rows).contains_key(
                reading,
            ) implies unicode::hiragana_reading(reading) by {
            if before.contains_key(reading) {
                assert(unicode::hiragana_reading(reading));
            } else {
                assert(SudachiSource.line_entry(rows.last()) is Some);
            }
        }
    }
}

} // verus!
