//! What becomes of the lines of dictionary sources.

use vstd::prelude::*;

use super::mozc::{self, ListedView, MozcSource};
use super::pos_map;
use super::sudachi::{self, SudachiSource};
use super::{entries_on, lines_without, readable, DictSource};
use crate::dict::EntryView;
use crate::lines;
use crate::seqs;

verus! {

/// Each line with an entry adds it behind the entries of its reading; every other line
/// is counted as one without.
pub proof fn lines_add_their_entries<S: DictSource + ?Sized>(
    source: &S,
    rows: Seq<Seq<char>>,
    row: Seq<char>,
    reading: Seq<char>,
)
    ensures
        ({
            let before = entries_on(source, rows);
            let after = entries_on(source, rows.push(row));
            let entry = source.line_entry(row);
            &&& entry is None ==> after == before && lines_without(source, rows.push(row))
                == lines_without(source, rows) + 1
            &&& entry is Some ==> lines_without(source, rows.push(row)) == lines_without(
                source,
                rows,
            )
            &&& entry is Some && reading == (entry->0).0 ==> after.contains_key(reading)
                && after[reading] == if before.contains_key(reading) {
                before[reading].push((entry->0).1)
            } else {
                seq![(entry->0).1]
            }
            &&& entry is Some && reading != (entry->0).0 ==> (after.contains_key(reading)
                <==> before.contains_key(reading)) && (before.contains_key(reading)
                ==> after[reading] == before[reading])
        }),
        entries_on(source, Seq::empty()) == Map::<Seq<char>, Seq<EntryView>>::empty(),
        lines_without(source, Seq::empty()) == 0,
{
    assert(rows.push(row).drop_last() =~= rows);
    assert(Seq::<EntryView>::empty().push((source.line_entry(row)->0).1) =~= seq![
        (source.line_entry(row)->0).1,
    ]);
}

/// Which files a source reads: Mozc those that start with "dictionary" and end in
/// ".txt", Sudachi those that end in ".csv".
pub proof fn sources_read_their_files(stem: Seq<char>)
    ensures
        MozcSource.reads("dictionary"@ + stem + ".txt"@),
        SudachiSource.reads(stem + ".csv"@),
        !MozcSource.reads(stem + ".csv"@),
        !SudachiSource.reads(stem + ".txt"@),
{
    reveal_strlit("dictionary");
    reveal_strlit(".txt");
    reveal_strlit(".csv");
    let a = "dictionary"@ + stem + ".txt"@;
    assert("dictionary"@ =~= a.subrange(0, 10));
    assert(".txt"@ =~= a.subrange(a.len() - 4, a.len() as int));
    let b = stem + ".csv"@;
    assert(".csv"@ =~= b.subrange(b.len() - 4, b.len() as int));
    assert(b.last() == 'v');
    assert(b[b.len() - 1] == 'v');
    if ".txt"@.is_suffix_of(b) {
        assert(b.subrange(b.len() - 4, b.len() as int)[3] == 't');
    }
    let c = stem + ".txt"@;
    assert(c[c.len() - 1] == 't');
    if ".csv"@.is_suffix_of(c) {
        assert(c.subrange(c.len() - 4, c.len() as int)[3] == 'v');
    }
}

/// The files that a source reads are listed, in the order of the list.
pub proof fn readable_files_are_listed<S: DictSource + ?Sized>(
    source: &S,
    names: Seq<String>,
    name: String,
)
    ensures
        readable(source, names.push(name)) == if source.reads(name@) {
            readable(source, names).push(name)
        } else {
            readable(source, names)
        },
        readable(source, Seq::empty()).len() == 0,
{
    assert(names.push(name).drop_last() =~= names);
}

/// Of the files on the list those are fetched that have a name and an address and are
/// dictionary files or the table of ids; the name is what stands behind the last slash.
pub proof fn listed_files_are_fetched(list: Seq<ListedView>, l: ListedView)
    ensures
        ({
            let before = mozc::remote_files(list);
            let after = mozc::remote_files(list.push(l));
            let name = lines::base_name(l.0->0);
            let fetched = l.0 is Some && l.1 is Some && l.1->0.len() > 0 && name is Some && (
            MozcSource.reads(name->0) || name->0 == "id.def"@);
            after == if fetched {
                before.push((name->0, l.1->0))
            } else {
                before
            }
        }),
        mozc::remote_files(Seq::empty()).len() == 0,
{
    assert(list.push(l).drop_last() =~= list);
}

/// Behind the listed files come the connection costs and the license.
pub proof fn costs_and_license_are_fetched_last(listed: Seq<(Seq<char>, Seq<char>)>)
    ensures
        ({
            let d = mozc::downloads_of(listed);
            let n = listed.len() as int;
            &&& d.len() == n + 2
            &&& d.take(n) == listed
            &&& d[n].0 == "connection_single_column.txt"@
            &&& d[n + 1].0 == "LICENSE"@
        }),
{
    assert(mozc::downloads_of(listed).take(listed.len() as int) =~= listed);
}

/// A version has the archives of two parts of its own and of the connection costs; the
/// full dictionary has a third part.
pub proof fn versions_have_their_archives(version: Seq<char>, full: bool)
    ensures
        ({
            let a = sudachi::archives_of(version, full);
            &&& a.len() == if full {
                4nat
            } else {
                3nat
            }
            &&& a[0].file == "small_lex"@ + ".csv"@
            &&& a[1].file == "core_lex"@ + ".csv"@
            &&& a[2].file == "matrix.def"@
            &&& full ==> a[3].file == "notcore_lex"@ + ".csv"@
            &&& a[0].url == sudachi::CDN_BASE@ + "/"@ + version + "/"@ + "small_lex"@ + ".zip"@
            &&& a[1].url == sudachi::CDN_BASE@ + "/"@ + version + "/"@ + "core_lex"@ + ".zip"@
            &&& a[2].url == sudachi::CDN_BASE@ + "/matrix.def.zip"@
        }),
{
}

/// The id of a part of speech is that of the first of its names that has one, from the
/// most special to the most general; where none has one, it is that of a common noun.
pub proof fn special_names_come_first(
    ids: Map<Seq<char>, u16>,
    tag: Seq<Seq<char>>,
    i: int,
)
    requires
        0 <= i <= pos_map::tag_candidates(tag).len(),
        forall|j: int|
            0 <= j < i ==> !ids.contains_key(#[trigger] pos_map::tag_candidates(tag)[j]),
    ensures
        ({
            let t = pos_map::tag_candidates(tag);
            &&& i < t.len() && ids.contains_key(t[i]) ==> pos_map::mozc_id(ids, tag) == Some(
                ids[t[i]],
            )
            &&& i == t.len() && ids.contains_key("名詞,一般,*,*,*,*,*"@) ==> pos_map::mozc_id(
                ids,
                tag,
            ) == Some(ids["名詞,一般,*,*,*,*,*"@])
            &&& i == t.len() && !ids.contains_key("名詞,一般,*,*,*,*,*"@) ==> pos_map::mozc_id(
                ids,
                tag,
            ) is None
        }),
{
    let t = pos_map::tag_candidates(tag);
    let f = pos_map::known_in(ids);
    seqs::lemma_first_from(t, f, 0);
    let r = seqs::first_place(t, f);
    if r < i {
        assert(f(t[r]));
    } else if i < r {
        assert(!f(t[i]));
    }
}

/// The names of a part of speech: the first has everything; without a conjugation and
/// without finer levels it is the only one.
pub proof fn names_go_from_special_to_general(pos: Seq<Seq<char>>)
    ensures
        ({
            let c = pos_map::category(pos[0], pos[1], pos[2], pos[3]);
            let t = pos_map::conjugation_type(pos[4]);
            let f = pos_map::conjugation_form(pos[5]);
            let any = "*"@;
            let names = pos_map::tag_candidates(pos);
            let coarse = pos_map::Category { pos1: c.pos1, pos2: any, pos3: any, pos4: any };
            &&& names.len() > 0
            &&& names[0] == c.pos1 + ","@ + c.pos2 + ","@ + c.pos3 + ","@ + c.pos4 + ","@ + t + ","@
                + f + ",*"@
            &&& f == any && t == any && c.pos2 == any && c.pos3 == any && c.pos4 == any
                ==> names.len() == 1
            &&& c.pos2 != any ==> names.last() == c.pos1 + ","@ + any + ","@ + any + ","@ + any
                + ","@ + any + ","@ + any + ",*"@
        }),
{
    let c = pos_map::category(pos[0], pos[1], pos[2], pos[3]);
    let any = "*"@;
    let one = pos_map::Category { pos2: any, pos3: any, pos4: any, ..c };
    if c.pos2 != any {
        let names = pos_map::tag_candidates(pos);
        assert(names.last() == pos_map::pos_tag(one, any, any));
    }
}

/// A table of ids changes the ids that it names and nothing else.
pub proof fn tables_change_ids_alone(
    words: Map<Seq<char>, Seq<EntryView>>,
    remap: Map<u16, u16>,
    reading: Seq<char>,
    i: int,
)
    requires
        words.contains_key(reading),
        0 <= i < words[reading].len(),
    ensures
        ({
            let after = pos_map::words_remapped(words, remap);
            let e = words[reading][i];
            let r = after[reading][i];
            &&& after.dom() == words.dom()
            &&& after[reading].len() == words[reading].len()
            &&& r.surface == e.surface
            &&& r.cost == e.cost
            &&& r.left_id == if remap.contains_key(e.left_id) {
                remap[e.left_id]
            } else {
                e.left_id
            }
            &&& r.right_id == if remap.contains_key(e.right_id) {
                remap[e.right_id]
            } else {
                e.right_id
            }
        }),
{
    assert(pos_map::words_remapped(words, remap).dom() =~= words.dom());
}

/// The lines of the table of ids: blank ones and those of single words change nothing,
/// one of a part of speech gives it its id, and the first one that is wrong is the
/// fault of the table.
pub proof fn tables_of_ids_are_read_in_order(rows: Seq<Seq<char>>, row: Seq<char>)
    ensures
        ({
            let before = pos_map::ids_on(rows);
            let after = pos_map::ids_on(rows.push(row));
            let line = lines::trimmed(row);
            &&& before is Err ==> after == before
            &&& before is Ok && line.len() == 0 ==> after == before
            &&& before is Ok && line.len() > 0 && lines::cut(line, " "@) is None ==> after is Err
            &&& before is Ok && line.len() > 0 && lines::cut(line, " "@) is Some ==> {
                let (id, tag) = lines::cut(line, " "@)->0;
                let number = lines::natural_number(id);
                let fields = lines::split(tag, ',');
                &&& number is None || number->0 > 65535 ==> after is Err
                &&& number is Some && number->0 <= 65535 && fields.len() == 7 && fields[6] == "*"@
                    ==> after == Ok::<Map<Seq<char>, u16>, Seq<char>>(
                    before->Ok_0.insert(tag, number->0 as u16),
                )
                &&& number is Some && number->0 <= 65535 && !(fields.len() == 7 && fields[6] == "*"@)
                    ==> after == before
            }
        }),
{
    assert(rows.push(row).drop_last() =~= rows);
}

/// A directory of digits on the list of versions names a version.
pub proof fn directories_of_digits_are_versions(version: Seq<char>, more: Seq<char>)
    requires
        lines::digits(version),
    ensures
        sudachi::version_of(
            "sudachidict-raw/"@ + (version.push('/') + "</Prefix>"@ + more),
        ) == Some(version),
{
    reveal_strlit("sudachidict-raw/");
    reveal_strlit("</Prefix>");
    let head = "sudachidict-raw/"@;
    let end = "</Prefix>"@;
    let dir = version.push('/');
    let tail = dir + end + more;
    let piece = head + tail;
    assert(piece.subrange(0, head.len() as int) =~= head);
    assert(piece.skip(head.len() as int) =~= tail);
    assert forall|k: int| 0 <= k < dir.len() implies !#[trigger] lines::stands_at(
        tail,
        end,
        k,
    ) by {
        if lines::stands_at(tail, end, k) {
            assert(tail.subrange(k, k + end.len())[0] == '<');
            assert(tail[k] == dir[k]);
            if k < version.len() {
                assert(lines::digit(version[k]));
            }
        }
    }
    crate::line_laws::texts_are_cut_at_the_first_place(dir, end, more);
    assert(dir.drop_last() =~= version);
    assert(dir.last() == '/');
    assert(lines::digit(version[version.len() - 1]));
    assert(sudachi::without_slashes(version) == version);
    assert(sudachi::without_slashes(dir) == version);
}

/// A line of SudachiDict tells the left id of its second field and the part of speech of
/// the sixth to the eleventh.
pub proof fn lines_tell_parts_of_speech(fields: Seq<Seq<char>>, id: u16)
    requires
        fields.len() >= 11,
        crate::line_laws::are_pieces(fields, ','),
        crate::line_laws::joined(fields, ',').len() > 0,
        crate::line_laws::joined(fields, ',')[0] != '#',
        lines::natural_number(fields[1]) == Some(id as int),
    ensures
        pos_map::line_tag(crate::line_laws::joined(fields, ',')) == Some(
            (id, seq![fields[5], fields[6], fields[7], fields[8], fields[9], fields[10]]),
        ),
{
    crate::line_laws::splitting_takes_joining_back(fields, ',');
    assert(fields.subrange(5, 11) =~= seq![
        fields[5],
        fields[6],
        fields[7],
        fields[8],
        fields[9],
        fields[10],
    ]);
}

/// An id that was seen gets the id of the part of speech that was seen most often with
/// it, where that has one; no other id gets any.
pub proof fn seen_ids_are_mapped(
    seen: Seq<(u16, Seq<Seq<char>>)>,
    ids: Map<Seq<char>, u16>,
    id: u16,
)
    ensures
        ({
            let t = pos_map::remap_table(seen, ids);
            let usual = pos_map::mozc_id(ids, pos_map::usual_tag(seen, id));
            &&& t.contains_key(id) <==> usual is Some && exists|i: int|
                0 <= i < seen.len() && (#[trigger] seen[i]).0 == id
            &&& t.contains_key(id) ==> t[id] == usual->0
        }),
{
    let s = Seq::new(seen.len(), |i: int| seen[i].0);
    seqs::distinct_keeps_each_once(s);
    if s.contains(id) {
        let i = choose|i: int| 0 <= i < s.len() && s[i] == id;
        assert(seen[i].0 == id);
    }
    if exists|i: int| 0 <= i < seen.len() && (#[trigger] seen[i]).0 == id {
        let i = choose|i: int| 0 <= i < seen.len() && (#[trigger] seen[i]).0 == id;
        assert(s[i] == id);
    }
    assert(pos_map::ids_seen(seen).contains(id) <==> s.contains(id));
}

} // verus!
