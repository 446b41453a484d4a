//! Parts of speech of SudachiDict in the terms of Mozc.
//!
//! The two dictionaries name and number their parts of speech differently. A
//! Sudachi part of speech is brought into the form that Mozc uses, so that Sudachi
//! entries can be put together by the Mozc connection costs.

use std::collections::HashMap;

use vstd::hash_map::StringHashMap;
use vstd::prelude::*;

use crate::dict::source::table::{self, EntryTable};
use crate::dict::source::{self, DictSourceError};
use crate::dict::{DictEntry, EntryView};
use crate::seqs;
use crate::lines::{self, lines_of, parse_u16, split_at, split_once, starts_with, trim};
use crate::text::{self, push_text, same_text};

verus! {

/// A Mozc part of speech: four levels, from the coarsest to the finest.
pub struct Category {
    pub pos1: Seq<char>,
    pub pos2: Seq<char>,
    pub pos3: Seq<char>,
    pub pos4: Seq<char>,
}

/// A part of speech with three levels.
pub open spec fn named(pos1: Seq<char>, pos2: Seq<char>, pos3: Seq<char>) -> Category {
    Category { pos1, pos2, pos3, pos4: "*"@ }
}

/// The Mozc part of speech for the four levels of a Sudachi one. What is not in
/// the table stays as it is.
pub open spec fn category(
    pos1: Seq<char>,
    pos2: Seq<char>,
    pos3: Seq<char>,
    pos4: Seq<char>,
) -> Category {
    if pos1 == "代名詞"@ {
        named("名詞"@, "代名詞"@, "一般"@)
    } else if pos1 == "形状詞"@ && pos2 == "タリ"@ {
        named("名詞"@, "ナイ形容詞語幹"@, "*"@)
    } else if pos1 == "形状詞"@ {
        named("名詞"@, "形容動詞語幹"@, "*"@)
    } else if pos1 == "接頭辞"@ {
        named("接頭詞"@, "名詞接続"@, "*"@)
    } else if pos1 == "接尾辞"@ && pos2 == "名詞的"@ && pos3 == "助数詞"@ {
        named("名詞"@, "接尾"@, "助数詞"@)
    } else if pos1 == "接尾辞"@ && pos2 == "名詞的"@ {
        named("名詞"@, "接尾"@, "一般"@)
    } else if pos1 == "接尾辞"@ && pos2 == "形状詞的"@ {
        named("名詞"@, "接尾"@, "一般"@)
    } else if pos1 == "接尾辞"@ && pos2 == "動詞的"@ {
        named("動詞"@, "接尾"@, "*"@)
    } else if pos1 == "接尾辞"@ && pos2 == "形容詞的"@ {
        named("形容詞"@, "接尾"@, "*"@)
    } else if pos1 == "接尾辞"@ {
        named("名詞"@, "接尾"@, "一般"@)
    } else if pos1 == "補助記号"@ {
        named("記号"@, "一般"@, "*"@)
    } else if pos1 == "名詞"@ && pos2 == "普通名詞"@ && pos3 == "サ変可能"@ {
        named("名詞"@, "サ変接続"@, "*"@)
    } else if pos1 == "名詞"@ && pos2 == "普通名詞"@ && pos3 == "副詞可能"@ {
        named("名詞"@, "副詞可能"@, "*"@)
    } else if pos1 == "名詞"@ && pos2 == "普通名詞"@ && pos3 == "助数詞可能"@ {
        named("名詞"@, "接尾"@, "助数詞"@)
    } else if pos1 == "名詞"@ && pos2 == "普通名詞"@ && pos3 == "形状詞可能"@ {
        named("名詞"@, "形容動詞語幹"@, "*"@)
    } else if pos1 == "名詞"@ && pos2 == "普通名詞"@ {
        named("名詞"@, "一般"@, "*"@)
    } else if pos1 == "名詞"@ && pos2 == "数詞"@ {
        named("名詞"@, "数"@, "*"@)
    } else if pos1 == "名詞"@ && pos2 == "固有名詞"@ {
        named("名詞"@, "固有名詞"@, "一般"@)
    } else if pos1 == "動詞"@ && pos2 == "一般"@ {
        named("動詞"@, "自立"@, "*"@)
    } else if pos1 == "動詞"@ && pos2 == "非自立可能"@ {
        named("動詞"@, "非自立"@, "*"@)
    } else if pos1 == "形容詞"@ && pos2 == "非自立可能"@ {
        named("形容詞"@, "非自立"@, "*"@)
    } else if pos1 == "形容詞"@ && pos2 == "一般"@ {
        named("形容詞"@, "自立"@, "*"@)
    } else {
        Category { pos1, pos2, pos3, pos4 }
    }
}

/// The Mozc name of a Sudachi conjugation type.
pub open spec fn conjugation_type(s: Seq<char>) -> Seq<char> {
    if s == "五段-カ行"@ {
        "五段・カ行イ音便"@
    } else if s == "五段-ガ行"@ {
        "五段・ガ行"@
    } else if s == "五段-サ行"@ {
        "五段・サ行"@
    } else if s == "五段-タ行"@ {
        "五段・タ行"@
    } else if s == "五段-ナ行"@ {
        "五段・ナ行"@
    } else if s == "五段-バ行"@ {
        "五段・バ行"@
    } else if s == "五段-マ行"@ {
        "五段・マ行"@
    } else if s == "五段-ラ行"@ {
        "五段・ラ行"@
    } else if s == "五段-ワア行"@ {
        "五段・ワ行ウ音便"@
    } else if s == "サ行変格"@ {
        "サ変・スル"@
    } else if s == "カ行変格"@ {
        "カ変・来ル"@
    } else if s == "形容詞"@ {
        "形容詞・アウオ段"@
    } else if s == "文語形容詞-ク"@ {
        "形容詞・アウオ段"@
    } else if "上一段-"@.is_prefix_of(s) || "下一段-"@.is_prefix_of(s) {
        "一段"@
    } else {
        s
    }
}

/// The Mozc name of a Sudachi conjugation form.
pub open spec fn conjugation_form(s: Seq<char>) -> Seq<char> {
    if s == "終止形-一般"@ || s == "連体形-一般"@ {
        "基本形"@
    } else if s == "連用形-一般"@ {
        "連用形"@
    } else if s == "連用形-イ音便"@ || s == "連用形-促音便"@ || s == "連用形-撥音便"@ || s == "連用形-ウ音便"@ {
        "連用タ接続"@
    } else if s == "連用形-融合"@ {
        "仮定縮約１"@
    } else if s == "仮定形-一般"@ {
        "仮定形"@
    } else if s == "仮定形-融合"@ {
        "仮定縮約１"@
    } else if s == "命令形"@ {
        "命令ro"@
    } else if s == "意志推量形"@ {
        "未然ウ接続"@
    } else if s == "未然形-一般"@ || s == "未然形-撥音便"@ {
        "未然形"@
    } else if s == "未然形-セ"@ {
        "未然レル接続"@
    } else if s == "語幹-一般"@ {
        "体言接続"@
    } else {
        s
    }
}

/// Finds the Mozc part of speech for a Sudachi one.
fn convert_pos_category<'a>(
    pos1: &'a str,
    pos2: &'a str,
    pos3: &'a str,
    pos4: &'a str,
) -> (r: (&'a str, &'a str, &'a str, &'a str))
    ensures
        ({
            let c = category(pos1@, pos2@, pos3@, pos4@);
            r.0@ == c.pos1 && r.1@ == c.pos2 && r.2@ == c.pos3 && r.3@ == c.pos4
        }),
{
    if same_text(pos1, "代名詞") {
        ("名詞", "代名詞", "一般", "*")
    } else if same_text(pos1, "形状詞") && same_text(pos2, "タリ") {
        ("名詞", "ナイ形容詞語幹", "*", "*")
    } else if same_text(pos1, "形状詞") {
        ("名詞", "形容動詞語幹", "*", "*")
    } else if same_text(pos1, "接頭辞") {
        ("接頭詞", "名詞接続", "*", "*")
    } else if same_text(pos1, "接尾辞") && same_text(pos2, "名詞的") && same_text(pos3, "助数詞") {
        ("名詞", "接尾", "助数詞", "*")
    } else if same_text(pos1, "接尾辞") && same_text(pos2, "名詞的") {
        ("名詞", "接尾", "一般", "*")
    } else if same_text(pos1, "接尾辞") && same_text(pos2, "形状詞的") {
        ("名詞", "接尾", "一般", "*")
    } else if same_text(pos1, "接尾辞") && same_text(pos2, "動詞的") {
        ("動詞", "接尾", "*", "*")
    } else if same_text(pos1, "接尾辞") && same_text(pos2, "形容詞的") {
        ("形容詞", "接尾", "*", "*")
    } else if same_text(pos1, "接尾辞") {
        ("名詞", "接尾", "一般", "*")
    } else if same_text(pos1, "補助記号") {
        ("記号", "一般", "*", "*")
    } else if same_text(pos1, "名詞") && same_text(pos2, "普通名詞") && same_text(pos3, "サ変可能") {
        ("名詞", "サ変接続", "*", "*")
    } else if same_text(pos1, "名詞") && same_text(pos2, "普通名詞") && same_text(pos3, "副詞可能") {
        ("名詞", "副詞可能", "*", "*")
    } else if same_text(pos1, "名詞") && same_text(pos2, "普通名詞") && same_text(pos3, "助数詞可能") {
        ("名詞", "接尾", "助数詞", "*")
    } else if same_text(pos1, "名詞") && same_text(pos2, "普通名詞") && same_text(pos3, "形状詞可能") {
        ("名詞", "形容動詞語幹", "*", "*")
    } else if same_text(pos1, "名詞") && same_text(pos2, "普通名詞") {
        ("名詞", "一般", "*", "*")
    } else if same_text(pos1, "名詞") && same_text(pos2, "数詞") {
        ("名詞", "数", "*", "*")
    } else if same_text(pos1, "名詞") && same_text(pos2, "固有名詞") {
        ("名詞", "固有名詞", "一般", "*")
    } else if same_text(pos1, "動詞") && same_text(pos2, "一般") {
        ("動詞", "自立", "*", "*")
    } else if same_text(pos1, "動詞") && same_text(pos2, "非自立可能") {
        ("動詞", "非自立", "*", "*")
    } else if same_text(pos1, "形容詞") && same_text(pos2, "非自立可能") {
        ("形容詞", "非自立", "*", "*")
    } else if same_text(pos1, "形容詞") && same_text(pos2, "一般") {
        ("形容詞", "自立", "*", "*")
    } else {
        (pos1, pos2, pos3, pos4)
    }
}

/// Finds the Mozc name of a conjugation type.
fn convert_conjugation_type(s: &str) -> (r: &str)
    ensures
        r@ == conjugation_type(s@),
{
    if same_text(s, "五段-カ行") {
        "五段・カ行イ音便"
    } else if same_text(s, "五段-ガ行") {
        "五段・ガ行"
    } else if same_text(s, "五段-サ行") {
        "五段・サ行"
    } else if same_text(s, "五段-タ行") {
        "五段・タ行"
    } else if same_text(s, "五段-ナ行") {
        "五段・ナ行"
    } else if same_text(s, "五段-バ行") {
        "五段・バ行"
    } else if same_text(s, "五段-マ行") {
        "五段・マ行"
    } else if same_text(s, "五段-ラ行") {
        "五段・ラ行"
    } else if same_text(s, "五段-ワア行") {
        "五段・ワ行ウ音便"
    } else if same_text(s, "サ行変格") {
        "サ変・スル"
    } else if same_text(s, "カ行変格") {
        "カ変・来ル"
    } else if same_text(s, "形容詞") {
        "形容詞・アウオ段"
    } else if same_text(s, "文語形容詞-ク") {
        "形容詞・アウオ段"
    } else if starts_with(s, "上一段-") || starts_with(s, "下一段-") {
        "一段"
    } else {
        s
    }
}

/// Finds the Mozc name of a conjugation form.
fn convert_conjugation_form(s: &str) -> (r: &str)
    ensures
        r@ == conjugation_form(s@),
{
    if same_text(s, "終止形-一般") || same_text(s, "連体形-一般") {
        "基本形"
    } else if same_text(s, "連用形-一般") {
        "連用形"
    } else if same_text(s, "連用形-イ音便") || same_text(s, "連用形-促音便") || same_text(s, "連用形-撥音便") || same_text(s, "連用形-ウ音便") {
        "連用タ接続"
    } else if same_text(s, "連用形-融合") {
        "仮定縮約１"
    } else if same_text(s, "仮定形-一般") {
        "仮定形"
    } else if same_text(s, "仮定形-融合") {
        "仮定縮約１"
    } else if same_text(s, "命令形") {
        "命令ro"
    } else if same_text(s, "意志推量形") {
        "未然ウ接続"
    } else if same_text(s, "未然形-一般") || same_text(s, "未然形-撥音便") {
        "未然形"
    } else if same_text(s, "未然形-セ") {
        "未然レル接続"
    } else if same_text(s, "語幹-一般") {
        "体言接続"
    } else {
        s
    }
}

/// A part of speech as Mozc writes it, for any word of it.
pub open spec fn pos_tag(c: Category, conj_type: Seq<char>, conj_form: Seq<char>) -> Seq<char> {
    c.pos1 + ","@ + c.pos2 + ","@ + c.pos3 + ","@ + c.pos4 + ","@ + conj_type + ","@ + conj_form
        + ",*"@
}

fn tag_text(pos1: &str, pos2: &str, pos3: &str, pos4: &str, conj_type: &str, conj_form: &str) -> (r:
    String)
    ensures
        r@ == pos_tag(
            (Category { pos1: pos1@, pos2: pos2@, pos3: pos3@, pos4: pos4@ }),
            conj_type@,
            conj_form@,
        ),
{
    let mut out = pos1.to_string();
    push_text(&mut out, ",");
    push_text(&mut out, pos2);
    push_text(&mut out, ",");
    push_text(&mut out, pos3);
    push_text(&mut out, ",");
    push_text(&mut out, pos4);
    push_text(&mut out, ",");
    push_text(&mut out, conj_type);
    push_text(&mut out, ",");
    push_text(&mut out, conj_form);
    push_text(&mut out, ",*");
    out
}

/// A text alone, or nothing.
pub open spec fn one_if(b: bool, s: Seq<char>) -> Seq<Seq<char>> {
    if b {
        seq![s]
    } else {
        Seq::empty()
    }
}

/// The Mozc parts of speech that can stand for a Sudachi one, from the most
/// special to the most general: with everything; without the conjugation form;
/// without the conjugation type; without the two finer levels, with and without
/// conjugation; and the coarsest level alone.
pub open spec fn tag_candidates(pos: Seq<Seq<char>>) -> Seq<Seq<char>> {
    let c = category(pos[0], pos[1], pos[2], pos[3]);
    let t = conjugation_type(pos[4]);
    let f = conjugation_form(pos[5]);
    let any = "*"@;
    let two = Category { pos3: any, pos4: any, ..c };
    let one = Category { pos2: any, pos3: any, pos4: any, ..c };
    let finer = c.pos3 != any || c.pos4 != any;
    seq![pos_tag(c, t, f)] + one_if(f != any, pos_tag(c, t, any)) + one_if(
        t != any,
        pos_tag(c, any, any),
    ) + one_if(finer, pos_tag(two, t, f)) + one_if(finer, pos_tag(two, t, any)) + one_if(
        finer,
        pos_tag(two, any, any),
    ) + one_if(c.pos2 != any, pos_tag(one, t, f)) + one_if(
        c.pos2 != any,
        pos_tag(one, any, any),
    )
}

/// The Mozc parts of speech that can stand for a Sudachi one, from the most
/// special to the most general. The first of them that Mozc has is the one to
/// take.
pub fn normalize_sudachi_pos(pos: &[&str; 6]) -> (r: Vec<String>)
    ensures
        text::views(r@) == tag_candidates(
            seq![pos[0]@, pos[1]@, pos[2]@, pos[3]@, pos[4]@, pos[5]@],
        ),
{
    let (p1, p2, p3, p4) = convert_pos_category(pos[0], pos[1], pos[2], pos[3]);
    let conj_type: &str = convert_conjugation_type(pos[4]);
    let conj_form: &str = convert_conjugation_form(pos[5]);
    let mut out: Vec<String> = Vec::new();
    out.push(tag_text(p1, p2, p3, p4, conj_type, conj_form));
    if !same_text(conj_form, "*") {
        out.push(tag_text(p1, p2, p3, p4, conj_type, "*"));
    }
    if !same_text(conj_type, "*") {
        out.push(tag_text(p1, p2, p3, p4, "*", "*"));
    }
    if !same_text(p3, "*") || !same_text(p4, "*") {
        out.push(tag_text(p1, p2, "*", "*", conj_type, conj_form));
        out.push(tag_text(p1, p2, "*", "*", conj_type, "*"));
        out.push(tag_text(p1, p2, "*", "*", "*", "*"));
    }
    if !same_text(p2, "*") {
        out.push(tag_text(p1, "*", "*", "*", conj_type, conj_form));
        out.push(tag_text(p1, "*", "*", "*", "*", "*"));
    }
    proof {
        assert(text::views(out@) =~= tag_candidates(
            seq![pos[0]@, pos[1]@, pos[2]@, pos[3]@, pos[4]@, pos[5]@],
        ));
    }
    out
}

/// What a line of the table of ids says.
pub enum IdLine {
    /// Nothing that counts: it is blank, or does not speak of a part of speech as
    /// such.
    Blank,
    /// A part of speech and its id.
    Tag(Seq<char>, u16),
    /// What is wrong with it.
    Fault(Seq<char>),
}

/// What a line of the table of ids says: an id, a space, and seven fields, the last
/// of which is `*` for a part of speech as such and a word otherwise.
pub open spec fn id_line(raw: Seq<char>) -> IdLine {
    let line = lines::trimmed(raw);
    if line.len() == 0 {
        IdLine::Blank
    } else {
        match lines::cut(line, " "@) {
            None => IdLine::Fault("invalid id.def line: "@ + line),
            Some((id, tag)) => {
                let number = lines::natural_number(id);
                if number is None || number->0 > u16::MAX {
                    IdLine::Fault("invalid id in id.def: "@ + id)
                } else if lines::split(tag, ',').len() == 7 && lines::split(tag, ',')[6] == "*"@ {
                    IdLine::Tag(tag, number->0 as u16)
                } else {
                    IdLine::Blank
                }
            },
        }
    }
}

/// The ids of the parts of speech on the lines, the last one where there are
/// several; or what is wrong with the first line that is wrong.
pub open spec fn ids_on(rows: Seq<Seq<char>>) -> Result<Map<Seq<char>, u16>, Seq<char>>
    decreases rows.len(),
{
    if rows.len() == 0 {
        Ok(Map::empty())
    } else {
        match ids_on(rows.drop_last()) {
            Err(e) => Err(e),
            Ok(ids) => match id_line(rows.last()) {
                IdLine::Blank => Ok(ids),
                IdLine::Tag(tag, id) => Ok(ids.insert(tag, id)),
                IdLine::Fault(e) => Err(e),
            },
        }
    }
}

proof fn lemma_fault_stays(rows: Seq<Seq<char>>, i: int)
    requires
        0 <= i <= rows.len(),
        ids_on(rows.take(i)) is Err,
    ensures
        ids_on(rows) == ids_on(rows.take(i)),
    decreases rows.len() - i,
{
    if i < rows.len() {
        assert(rows.take(i + 1).drop_last() =~= rows.take(i));
        lemma_fault_stays(rows, i + 1);
    } else {
        assert(rows.take(i) =~= rows);
    }
}

fn fault(what: &str, of: &str) -> (r: DictSourceError)
    ensures
        r is Parse,
        r->Parse_0@ == what@ + of@,
{
    let mut message = what.to_string();
    push_text(&mut message, of);
    DictSourceError::Parse(message)
}

/// Reads the table of ids: which id Mozc gives to each part of speech. Lines on
/// single words are passed over.
pub fn parse_mozc_id_def(content: &str) -> (r: Result<StringHashMap<u16>, DictSourceError>)
    ensures
        r is Ok <==> ids_on(lines::lines(content@)) is Ok,
        r is Ok ==> r->Ok_0@ == ids_on(lines::lines(content@))->Ok_0,
        r is Err ==> r->Err_0 is Parse && r->Err_0->Parse_0@ == ids_on(
            lines::lines(content@),
        )->Err_0,
{
    let rows: Vec<String> = lines_of(content);
    let ghost all = text::views(rows@);
    let mut ids: StringHashMap<u16> = StringHashMap::new();
    let mut i: usize = 0;
    proof {
        assert(all.take(0) =~= Seq::empty());
    }
    while i < rows.len()
        invariant
            i <= rows@.len(),
            all == text::views(rows@),
            all == lines::lines(content@),
            ids_on(all.take(i as int)) == Ok::<Map<Seq<char>, u16>, Seq<char>>(ids@),
        decreases rows.len() - i,
    {
        proof {
            assert(all.take(i + 1).drop_last() =~= all.take(i as int));
            assert(all.take(i + 1).last() == rows@[i as int]@);
            if id_line(rows@[i as int]@) is Fault {
                lemma_fault_stays(all, i + 1);
            }
        }
        let line: String = trim(rows[i].as_str());
        if !line.as_str().is_empty() {
            let (id_text, tag) = match split_once(line.as_str(), " ") {
                Some(t) => t,
                None => {
                    return Err(fault("invalid id.def line: ", line.as_str()));
                },
            };
            let id: u16 = match parse_u16(id_text.as_str()) {
                Some(n) => n,
                None => {
                    return Err(fault("invalid id in id.def: ", id_text.as_str()));
                },
            };
            let fields: Vec<String> = split_at(tag.as_str(), ',');
            if fields.len() == 7 && same_text(fields[6].as_str(), "*") {
                proof {
                    assert(text::views(fields@)[6] == fields@[6]@);
                }
                ids.insert(tag, id);
            }
        }
        i = i + 1;
    }
    proof {
        assert(all.take(i as int) =~= all);
    }
    Ok(ids)
}

/// An entry with the ids that the table gives it in place of its own.
pub open spec fn remapped(e: EntryView, remap: Map<u16, u16>) -> EntryView {
    EntryView { left_id: new_id(remap, e.left_id), right_id: new_id(remap, e.right_id), ..e }
}

/// The id that the table gives in place of `id`, if it gives any.
pub open spec fn new_id(remap: Map<u16, u16>, id: u16) -> u16 {
    if remap.contains_key(id) {
        remap[id]
    } else {
        id
    }
}

/// Entries with other ids.
pub open spec fn all_remapped(s: Seq<EntryView>, remap: Map<u16, u16>) -> Seq<EntryView> {
    Seq::new(s.len(), |i: int| remapped(s[i], remap))
}

/// Words with other ids.
pub open spec fn words_remapped(
    words: Map<Seq<char>, Seq<EntryView>>,
    remap: Map<u16, u16>,
) -> Map<Seq<char>, Seq<EntryView>> {
    words.map_values(|s: Seq<EntryView>| all_remapped(s, remap))
}

fn look_up(remap: &HashMap<u16, u16>, id: u16) -> (r: u16)
    ensures
        r == new_id(remap@, id),
{
    broadcast use vstd::std_specs::hash::group_hash_axioms;

    match remap.get(&id) {
        Some(n) => *n,
        None => id,
    }
}

/// Gives the entries the ids of the table in place of their own.
pub fn remap_entries(entries: &mut EntryTable, remap: &HashMap<u16, u16>)
    ensures
        final(entries).words() == words_remapped(old(entries).words(), remap@),
{
    let ghost list0 = entries.list();
    let n: usize = entries.len();
    let mut i: usize = 0;
    while i < n
        invariant
            i <= n,
            n == list0.len(),
            entries.list().len() == n,
            table::distinct_readings(list0),
            forall|j: int|
                0 <= j < n ==> (#[trigger] entries.list()[j]).0 == list0[j].0
                    && entries.list()[j].1 == if j < i {
                    all_remapped(list0[j].1, remap@)
                } else {
                    list0[j].1
                },
        decreases n - i,
    {
        let ghost here = entries.list();
        let (_, old_entries) = entries.row(i);
        let mut row: Vec<DictEntry> = Vec::new();
        let mut k: usize = 0;
        while k < old_entries.len()
            invariant
                k <= old_entries@.len(),
                row@.len() == k,
                forall|j: int|
                    0 <= j < k ==> (#[trigger] row@[j])@ == remapped(old_entries@[j]@, remap@),
            decreases old_entries.len() - k,
        {
            let mut e: DictEntry = old_entries[k].clone();
            e.left_id = look_up(remap, e.left_id);
            e.right_id = look_up(remap, e.right_id);
            row.push(e);
            k = k + 1;
        }
        proof {
            assert(text::views(row@) =~= all_remapped(list0[i as int].1, remap@)) by {
                assert(here[i as int].1 == list0[i as int].1);
                assert(text::views(old_entries@) == list0[i as int].1);
                assert forall|j: int| 0 <= j < row@.len() implies text::views(row@)[j]
                    == all_remapped(list0[i as int].1, remap@)[j] by {
                    assert(text::views(old_entries@)[j] == old_entries@[j]@);
                }
            }
        }
        entries.set_row(i, row);
        i = i + 1;
    }
    proof {
        lemma_words_remapped(list0, entries.list(), remap@);
    }
}

proof fn lemma_words_remapped(
    list: Seq<(Seq<char>, Seq<EntryView>)>,
    other: Seq<(Seq<char>, Seq<EntryView>)>,
    remap: Map<u16, u16>,
)
    requires
        list.len() == other.len(),
        table::distinct_readings(list),
        forall|j: int|
            0 <= j < list.len() ==> (#[trigger] other[j]).0 == list[j].0 && other[j].1
                == all_remapped(list[j].1, remap),
    ensures
        table::gathered(other) == words_remapped(table::gathered(list), remap),
{
    assert forall|a: int, b: int| 0 <= a < b < other.len() implies (#[trigger] other[a]).0 != (
    #[trigger] other[b]).0 by {
        assert(list[a].0 != list[b].0);
    }
    table::lemma_gathered(list);
    table::lemma_gathered(other);
    let m = words_remapped(table::gathered(list), remap);
    assert forall|r: Seq<char>| #[trigger] table::gathered(other).contains_key(
        r,
    ) <==> m.contains_key(r) by {
        if table::gathered(other).contains_key(r) {
            let k = choose|k: int| crate::dict::trie_dict::listed_at(other, r, k);
            assert(other[k].0 == r && list[k].0 == r);
        }
        if table::gathered(list).contains_key(r) {
            let k = choose|k: int| crate::dict::trie_dict::listed_at(list, r, k);
            assert(other[k].0 == r && list[k].0 == r);
        }
    }
    assert forall|r: Seq<char>| table::gathered(other).contains_key(
        r,
    ) implies #[trigger] table::gathered(other)[r] == m[r] by {
        let k = choose|k: int| crate::dict::trie_dict::listed_at(other, r, k);
        assert(other[k].0 == r && list[k].0 == r);
    }
    assert(table::gathered(other) =~= m);
}

/// The left id and the part of speech on a line of SudachiDict: the sixth to the
/// eleventh field.
pub open spec fn line_tag(line: Seq<char>) -> Option<(u16, Seq<Seq<char>>)> {
    let fields = lines::split(line, ',');
    if line.len() == 0 || line[0] == '#' || fields.len() < 11 {
        None
    } else {
        let id = lines::natural_number(fields[1]);
        if id is Some && id->0 <= u16::MAX {
            Some((id->0 as u16, fields.subrange(5, 11)))
        } else {
            None
        }
    }
}

/// The ids and parts of speech on the lines.
pub open spec fn tags_on(rows: Seq<Seq<char>>) -> Seq<(u16, Seq<Seq<char>>)>
    decreases rows.len(),
{
    if rows.len() == 0 {
        Seq::empty()
    } else {
        let before = tags_on(rows.drop_last());
        match line_tag(rows.last()) {
            Some(t) => before.push(t),
            None => before,
        }
    }
}

/// The ids that were seen, each once, in the order in which they first came.
pub open spec fn ids_seen(seen: Seq<(u16, Seq<Seq<char>>)>) -> Seq<u16> {
    seqs::distinct(Seq::new(seen.len(), |i: int| seen[i].0))
}

/// Whether a count is that of `tag`.
pub open spec fn counts(tag: Seq<Seq<char>>) -> spec_fn((Seq<Seq<char>>, nat)) -> bool {
    |t: (Seq<Seq<char>>, nat)| t.0 == tag
}

/// The place of a part of speech in a tally, or the length of the tally.
pub open spec fn tally_place(tally: Seq<(Seq<Seq<char>>, nat)>, tag: Seq<Seq<char>>) -> int {
    seqs::first_place(tally, counts(tag))
}

/// A tally with a part of speech counted once more.
pub open spec fn tallied(tally: Seq<(Seq<Seq<char>>, nat)>, tag: Seq<Seq<char>>) -> Seq<
    (Seq<Seq<char>>, nat),
> {
    let i = tally_place(tally, tag);
    if i < tally.len() {
        tally.update(i, (tag, tally[i].1 + 1))
    } else {
        tally.push((tag, 1))
    }
}

/// The parts of speech that were seen with an id, in the order in which they first
/// came, each with the number of times.
pub open spec fn tally(seen: Seq<(u16, Seq<Seq<char>>)>, id: u16) -> Seq<(Seq<Seq<char>>, nat)>
    decreases seen.len(),
{
    if seen.len() == 0 {
        Seq::empty()
    } else {
        let before = tally(seen.drop_last(), id);
        if seen.last().0 == id {
            tallied(before, seen.last().1)
        } else {
            before
        }
    }
}

/// The first place with the highest count.
pub open spec fn highest(tally: Seq<(Seq<Seq<char>>, nat)>) -> int
    decreases tally.len(),
{
    if tally.len() <= 1 {
        0
    } else {
        let before = highest(tally.drop_last());
        if tally.last().1 > tally[before].1 {
            tally.len() - 1
        } else {
            before
        }
    }
}

/// The part of speech that was seen most often with an id; of several the one that
/// came first.
pub open spec fn usual_tag(seen: Seq<(u16, Seq<Seq<char>>)>, id: u16) -> Seq<Seq<char>> {
    tally(seen, id)[highest(tally(seen, id))].0
}

/// Whether a part of speech has an id.
pub open spec fn known_in(ids: Map<Seq<char>, u16>) -> spec_fn(Seq<char>) -> bool {
    |t: Seq<char>| ids.contains_key(t)
}

/// The id of the first of the parts of speech that has one.
pub open spec fn first_known(tags: Seq<Seq<char>>, ids: Map<Seq<char>, u16>) -> Option<u16> {
    let i = seqs::first_place(tags, known_in(ids));
    if i < tags.len() {
        Some(ids[tags[i]])
    } else {
        None
    }
}

/// The Mozc id for a Sudachi part of speech: that of the first candidate that Mozc
/// has, and else that of a common noun.
pub open spec fn mozc_id(ids: Map<Seq<char>, u16>, tag: Seq<Seq<char>>) -> Option<u16> {
    match first_known(tag_candidates(tag), ids) {
        Some(id) => Some(id),
        None => if ids.contains_key("名詞,一般,*,*,*,*,*"@) {
            Some(ids["名詞,一般,*,*,*,*,*"@])
        } else {
            None
        },
    }
}

/// The Mozc id for each Sudachi id that was seen, by the part of speech that was
/// seen most often with it.
pub open spec fn remap_table(
    seen: Seq<(u16, Seq<Seq<char>>)>,
    ids: Map<Seq<char>, u16>,
) -> Map<u16, u16> {
    Map::new(
        |id: u16| ids_seen(seen).contains(id) && mozc_id(ids, usual_tag(seen, id)) is Some,
        |id: u16| mozc_id(ids, usual_tag(seen, id))->0,
    )
}

/// How often a part of speech was seen with an id.
pub open spec fn times_seen(
    seen: Seq<(u16, Seq<Seq<char>>)>,
    id: u16,
    tag: Seq<Seq<char>>,
) -> nat
    decreases seen.len(),
{
    if seen.len() == 0 {
        0
    } else {
        times_seen(seen.drop_last(), id, tag) + if seen.last() == (id, tag) {
            1nat
        } else {
            0
        }
    }
}

/// A tally lists each part of speech once, with the number of times that it was
/// seen, and none that was not.
proof fn lemma_tally(seen: Seq<(u16, Seq<Seq<char>>)>, id: u16)
    ensures
        forall|i: int, j: int|
            0 <= i < j < tally(seen, id).len() ==> (#[trigger] tally(seen, id)[i]).0 != (
            #[trigger] tally(seen, id)[j]).0,
        forall|i: int|
            0 <= i < tally(seen, id).len() ==> (#[trigger] tally(seen, id)[i]).1 == times_seen(
                seen,
                id,
                tally(seen, id)[i].0,
            ) && tally(seen, id)[i].1 <= seen.len(),
        forall|tag: Seq<Seq<char>>| #[trigger]
            times_seen(seen, id, tag) > 0 ==> tally_place(tally(seen, id), tag) < tally(
                seen,
                id,
            ).len(),
    decreases seen.len(),
{
    if seen.len() > 0 {
        let front = seen.drop_last();
        let before = tally(front, id);
        let after = tally(seen, id);
        lemma_tally(front, id);
        let tag = seen.last().1;
        let same = counts(tag);
        seqs::lemma_first_from(before, same, 0);
        let p = tally_place(before, tag);
        if seen.last().0 == id && p == before.len() {
            assert(times_seen(front, id, tag) == 0);
            assert forall|i: int| 0 <= i < before.len() implies (#[trigger] before[i]).0 != tag by {
                assert(!same(before[i]));
            }
        }
        assert forall|i: int, j: int| 0 <= i < j < after.len() implies (#[trigger] after[i]).0 != (
        #[trigger] after[j]).0 by {
            if j < before.len() {
                assert(before[i].0 != before[j].0);
            }
        }
        assert forall|i: int| 0 <= i < after.len() implies (#[trigger] after[i]).1 == times_seen(
            seen,
            id,
            after[i].0,
        ) && after[i].1 <= seen.len() by {
            if i < before.len() {
                assert(before[i].1 == times_seen(front, id, before[i].0));
                if seen.last().0 == id && i != p && before[i].0 == tag {
                    assert(same(before[i]));
                    if i < p {
                        assert(!same(before[i]));
                    } else {
                        assert(before[p].0 != before[i].0);
                    }
                }
            }
        }
        assert forall|other: Seq<Seq<char>>| #[trigger]
            times_seen(seen, id, other) > 0 implies tally_place(after, other) < after.len() by {
            let f = counts(other);
            seqs::lemma_first_from(after, f, 0);
            seqs::lemma_first_from(before, f, 0);
            if times_seen(front, id, other) > 0 {
                let k = tally_place(before, other);
                assert(f(before[k]));
                assert(after[k].0 == other);
                assert(f(after[k]));
            } else {
                assert(other == tag);
                if p < before.len() {
                    assert(f(after[p]));
                } else {
                    assert(f(after[before.len() as int]));
                }
            }
        }
    }
}

proof fn lemma_highest(t: Seq<(Seq<Seq<char>>, nat)>)
    requires
        t.len() > 0,
    ensures
        0 <= highest(t) < t.len(),
        forall|i: int| 0 <= i < t.len() ==> (#[trigger] t[i]).1 <= t[highest(t)].1,
    decreases t.len(),
{
    if t.len() > 1 {
        let front = t.drop_last();
        lemma_highest(front);
        assert forall|i: int| 0 <= i < t.len() implies (#[trigger] t[i]).1 <= t[highest(t)].1 by {
            if i < front.len() {
                assert(front[i].1 <= front[highest(front)].1);
            }
        }
    }
}

/// No part of speech was seen more often with an id than its usual one.
pub proof fn usual_tag_is_most_frequent(
    seen: Seq<(u16, Seq<Seq<char>>)>,
    id: u16,
    tag: Seq<Seq<char>>,
)
    ensures
        times_seen(seen, id, tag) <= times_seen(seen, id, usual_tag(seen, id)) || times_seen(
            seen,
            id,
            tag,
        ) == 0,
{
    let t = tally(seen, id);
    lemma_tally(seen, id);
    if times_seen(seen, id, tag) > 0 {
        let same = counts(tag);
        seqs::lemma_first_from(t, same, 0);
        let k = tally_place(t, tag);
        assert(same(t[k]));
        lemma_highest(t);
        assert(t[k].1 <= t[highest(t)].1);
    }
}

/// A part of speech and how often it was seen.
struct TagCount {
    tag: Vec<String>,
    count: u128,
}

impl View for TagCount {
    type V = (Seq<Seq<char>>, nat);

    closed spec fn view(&self) -> (Seq<Seq<char>>, nat) {
        (text::views(self.tag@), self.count as nat)
    }
}

/// The parts of speech that were seen with an id.
struct IdTags {
    id: u16,
    tags: Vec<TagCount>,
}

/// The ids that were seen, with their parts of speech.
struct TagTable {
    index: HashMap<u16, usize>,
    ids: Vec<IdTags>,
}

impl TagTable {
    /// Whether the table tells what was seen.
    closed spec fn tells(&self, seen: Seq<(u16, Seq<Seq<char>>)>) -> bool {
        &&& self.ids@.len() == ids_seen(seen).len()
        &&& forall|i: int|
            0 <= i < self.ids@.len() ==> (#[trigger] self.ids@[i]).id == ids_seen(seen)[i]
                && text::views(self.ids@[i].tags@) == tally(seen, self.ids@[i].id)
        &&& forall|id: u16| #[trigger]
            self.index@.contains_key(id) ==> self.index@[id] < self.ids@.len()
                && self.ids@[self.index@[id] as int].id == id
        &&& forall|i: int|
            0 <= i < self.ids@.len() ==> self.index@.contains_key((#[trigger] self.ids@[i]).id)
        &&& forall|i: int, k: int|
            0 <= i < self.ids@.len() && 0 <= k < self.ids@[i].tags@.len() ==> (
            #[trigger] self.ids@[i].tags@[k]).tag@.len() == 6
    }
}

/// Whether two lists hold the same texts.
fn same_texts(a: &Vec<String>, b: &Vec<String>) -> (r: bool)
    ensures
        r == (text::views(a@) == text::views(b@)),
{
    if a.len() != b.len() {
        proof {
            assert(text::views(a@).len() != text::views(b@).len());
        }
        return false;
    }
    let mut i: usize = 0;
    while i < a.len()
        invariant
            a@.len() == b@.len(),
            i <= a@.len(),
            forall|j: int| 0 <= j < i ==> (#[trigger] a@[j])@ == b@[j]@,
        decreases a.len() - i,
    {
        if !same_text(a[i].as_str(), b[i].as_str()) {
            proof {
                assert(text::views(a@)[i as int] != text::views(b@)[i as int]);
            }
            return false;
        }
        i = i + 1;
    }
    proof {
        assert(text::views(a@) =~= text::views(b@));
    }
    true
}

/// Counts a part of speech once more.
fn count_tag(tags: &mut Vec<TagCount>, tag: Vec<String>)
    requires
        forall|k: int| 0 <= k < old(tags)@.len() ==> (#[trigger] old(tags)@[k])@.1 < u128::MAX,
        forall|k: int| 0 <= k < old(tags)@.len() ==> (#[trigger] old(tags)@[k]).tag@.len() == 6,
        tag@.len() == 6,
    ensures
        text::views(final(tags)@) == tallied(text::views(old(tags)@), text::views(tag@)),
        forall|k: int| 0 <= k < final(tags)@.len() ==> (#[trigger] final(tags)@[k]).tag@.len() == 6,
{
    let ghost before = text::views(tags@);
    let ghost t = text::views(tag@);
    let mut i: usize = 0;
    while i < tags.len() && !same_texts(&tags[i].tag, &tag)
        invariant
            i <= tags@.len(),
            before == text::views(tags@),
            t == text::views(tag@),
            tally_place(before, t) == seqs::first_from(before, counts(t), i as int),
        decreases tags.len() - i,
    {
        proof {
            assert(before[i as int] == tags@[i as int]@);
        }
        i = i + 1;
    }
    if i < tags.len() {
        let ghost tags0 = tags@;
        proof {
            assert(before[i as int] == tags@[i as int]@);
            assert(tally_place(before, t) == i);
        }
        tags[i].count = tags[i].count + 1;
        proof {
            assert(text::views(tags@) =~= tallied(before, t));
        }
    } else {
        tags.push(TagCount { tag, count: 1 });
        proof {
            assert(text::views(tags@) =~= tallied(before, t));
        }
    }
}

proof fn lemma_seen_one_more(seen: Seq<(u16, Seq<Seq<char>>)>, id: u16, tag: Seq<Seq<char>>)
    ensures
        ids_seen(seen.push((id, tag))) == if ids_seen(seen).contains(id) {
            ids_seen(seen)
        } else {
            ids_seen(seen).push(id)
        },
        forall|other: u16| #[trigger]
            tally(seen.push((id, tag)), other) == if other == id {
                tallied(tally(seen, other), tag)
            } else {
                tally(seen, other)
            },
{
    let after = seen.push((id, tag));
    assert(after.drop_last() =~= seen);
    let a = Seq::new(seen.len(), |i: int| seen[i].0);
    let b = Seq::new(after.len(), |i: int| after[i].0);
    assert(b.drop_last() =~= a);
}

/// An id that was not seen has an empty tally.
proof fn lemma_unseen(seen: Seq<(u16, Seq<Seq<char>>)>, id: u16)
    requires
        !ids_seen(seen).contains(id),
    ensures
        tally(seen, id).len() == 0,
    decreases seen.len(),
{
    let a = Seq::new(seen.len(), |i: int| seen[i].0);
    seqs::distinct_keeps_each_once(a);
    if seen.len() > 0 {
        let front = seen.drop_last();
        let b = Seq::new(front.len(), |i: int| front[i].0);
        seqs::distinct_keeps_each_once(b);
        assert(a[seen.len() - 1] == seen.last().0);
        assert(!ids_seen(front).contains(id)) by {
            if b.contains(id) {
                let k = choose|k: int| 0 <= k < b.len() && b[k] == id;
                assert(a[k] == id);
            }
        }
        lemma_unseen(front, id);
    }
}

/// The ids that were seen are listed once each.
proof fn lemma_ids_distinct(seen: Seq<(u16, Seq<Seq<char>>)>)
    ensures
        ids_seen(seen).no_duplicates(),
{
    seqs::distinct_keeps_each_once(Seq::new(seen.len(), |i: int| seen[i].0));
}

impl TagTable {
    /// Notes that a part of speech was seen with an id.
    fn note(&mut self, id: u16, tag: Vec<String>, Ghost(seen): Ghost<Seq<(u16, Seq<Seq<char>>)>>)
        requires
            old(self).tells(seen),
            tag@.len() == 6,
            seen.len() < u128::MAX,
        ensures
            final(self).tells(seen.push((id, text::views(tag@)))),
    {
        broadcast use vstd::std_specs::hash::group_hash_axioms;

        let ghost t = text::views(tag@);
        let ghost ids0 = self.ids@;
        let ghost index0 = self.index@;
        proof {
            lemma_seen_one_more(seen, id, t);
            lemma_ids_distinct(seen);
        }
        let found: Option<usize> = match self.index.get(&id) {
            Some(i) => Some(*i),
            None => None,
        };
        match found {
            Some(i) => {
                proof {
                    lemma_tally(seen, id);
                    assert(ids_seen(seen)[i as int] == id);
                    assert forall|k: int| 0 <= k < self.ids@[i as int].tags@.len() implies (
                    #[trigger] self.ids@[i as int].tags@[k])@.1 < u128::MAX by {
                        assert(text::views(self.ids@[i as int].tags@)[k] == tally(seen, id)[k]);
                    }
                }
                count_tag(&mut self.ids[i].tags, tag);
                proof {
                    assert forall|j: int| 0 <= j < self.ids@.len() && j != i implies
                        #[trigger] self.ids@[j] == ids0[j] && ids0[j].id != id by {
                        assert(ids_seen(seen)[j] == ids0[j].id);
                    }
                }
            },
            None => {
                let i: usize = self.ids.len();
                proof {
                    assert(!ids_seen(seen).contains(id)) by {
                        if ids_seen(seen).contains(id) {
                            let k = choose|k: int| 0 <= k < ids_seen(seen).len() && ids_seen(
                                seen,
                            )[k] == id;
                            assert(self.ids@[k].id == id);
                        }
                    }
                    lemma_unseen(seen, id);
                }
                let mut tags: Vec<TagCount> = Vec::new();
                proof {
                    assert(text::views(tags@) =~= tally(seen, id));
                }
                count_tag(&mut tags, tag);
                self.index.insert(id, i);
                self.ids.push(IdTags { id, tags });
                proof {
                    assert forall|j: int| 0 <= j < i implies #[trigger] self.ids@[j] == ids0[j]
                        && ids0[j].id != id by {
                        assert(ids_seen(seen)[j] == ids0[j].id);
                    }
                }
            },
        }
    }
}

/// Reads the left id and the part of speech off a line.
fn read_tag(line: &str) -> (r: Option<(u16, Vec<String>)>)
    ensures
        r is Some <==> line_tag(line@) is Some,
        r is Some ==> ((r->0).0, text::views((r->0).1@)) == line_tag(line@)->0,
        r is Some ==> (r->0).1@.len() == 6,
{
    if line.is_empty() || line.get_char(0) == '#' {
        return None;
    }
    let fields: Vec<String> = split_at(line, ',');
    let ghost f = text::views(fields@);
    if fields.len() < 11 {
        return None;
    }
    let id: u16 = match parse_u16(fields[1].as_str()) {
        Some(id) => id,
        None => {
            return None;
        },
    };
    let mut tag: Vec<String> = Vec::new();
    let mut i: usize = 5;
    while i < 11
        invariant
            5 <= i <= 11 <= fields@.len(),
            tag@.len() == i - 5,
            forall|j: int| 0 <= j < i - 5 ==> (#[trigger] tag@[j])@ == fields@[j + 5]@,
        decreases 11 - i,
    {
        tag.push(fields[i].clone());
        i = i + 1;
    }
    proof {
        assert(text::views(tag@) =~= f.subrange(5, 11));
    }
    Some((id, tag))
}

proof fn lemma_tags_fewer(rows: Seq<Seq<char>>)
    ensures
        tags_on(rows).len() <= rows.len(),
    decreases rows.len(),
{
    if rows.len() > 0 {
        lemma_tags_fewer(rows.drop_last());
    }
}

/// Notes what the lines of the files say.
fn note_files(files: &Vec<String>) -> (r: TagTable)
    ensures
        r.tells(tags_on(source::all_lines(text::views(files@)))),
{
    broadcast use vstd::std_specs::hash::group_hash_axioms;

    let mut table = TagTable { index: HashMap::new(), ids: Vec::new() };
    let ghost texts = text::views(files@);
    let mut i: usize = 0;
    proof {
        assert(texts.take(0) =~= Seq::empty());
        assert(ids_seen(Seq::empty()) =~= Seq::empty());
    }
    while i < files.len()
        invariant
            i <= files@.len(),
            texts == text::views(files@),
            table.tells(tags_on(source::all_lines(texts.take(i as int)))),
            source::all_lines(texts.take(i as int)).len() <= i * usize::MAX,
        decreases files.len() - i,
    {
        let rows: Vec<String> = lines_of(files[i].as_str());
        let n: usize = rows.len();
        let ghost before = source::all_lines(texts.take(i as int));
        let ghost here = text::views(rows@);
        proof {
            assert(texts.take(i + 1).drop_last() =~= texts.take(i as int));
            assert(texts.take(i + 1).last() == files@[i as int]@);
            assert(before + here.take(0) =~= before);
            assert(i * usize::MAX + usize::MAX == (i + 1) * usize::MAX) by (nonlinear_arith);
            assert((i + 1) * usize::MAX <= u64::MAX * u64::MAX) by (nonlinear_arith)
                requires
                    i + 1 <= usize::MAX <= u64::MAX,
                    0 <= i,
            ;
        }
        let mut k: usize = 0;
        while k < n
            invariant
                k <= n,
                n == rows@.len(),
                here == text::views(rows@),
                table.tells(tags_on(before + here.take(k as int))),
                before.len() + usize::MAX <= u64::MAX * u64::MAX,
            decreases n - k,
        {
            proof {
                let next = before + here.take(k + 1);
                assert(next.drop_last() =~= before + here.take(k as int));
                assert(next.last() == rows@[k as int]@);
                lemma_tags_fewer(before + here.take(k as int));
            }
            if let Some((id, tag)) = read_tag(rows[k].as_str()) {
                table.note(id, tag, Ghost(tags_on(before + here.take(k as int))));
            }
            k = k + 1;
        }
        proof {
            assert(here.take(k as int) =~= here);
        }
        i = i + 1;
    }
    proof {
        assert(texts.take(i as int) =~= texts);
    }
    table
}

/// The Mozc id for a Sudachi part of speech.
fn find_mozc_id(ids: &StringHashMap<u16>, tag: &Vec<String>) -> (r: Option<u16>)
    requires
        tag@.len() == 6,
    ensures
        r == mozc_id(ids@, text::views(tag@)),
{
    let pos: [&str; 6] = [
        tag[0].as_str(),
        tag[1].as_str(),
        tag[2].as_str(),
        tag[3].as_str(),
        tag[4].as_str(),
        tag[5].as_str(),
    ];
    let candidates: Vec<String> = normalize_sudachi_pos(&pos);
    let ghost c = text::views(candidates@);
    proof {
        assert(seq![pos[0]@, pos[1]@, pos[2]@, pos[3]@, pos[4]@, pos[5]@] =~= text::views(tag@));
    }
    let mut i: usize = 0;
    while i < candidates.len()
        invariant
            i <= candidates@.len(),
            c == text::views(candidates@),
            c == tag_candidates(text::views(tag@)),
            seqs::first_place(c, known_in(ids@)) == seqs::first_from(c, known_in(ids@), i as int),
        decreases candidates.len() - i,
    {
        proof {
            assert(c[i as int] == candidates@[i as int]@);
        }
        if let Some(id) = ids.get(candidates[i].as_str()) {
            return Some(*id);
        }
        i = i + 1;
    }
    match ids.get("名詞,一般,*,*,*,*,*") {
        Some(id) => Some(*id),
        None => None,
    }
}

/// Finds the place with the highest count.
fn find_highest(tags: &Vec<TagCount>) -> (r: usize)
    requires
        tags@.len() > 0,
    ensures
        r == highest(text::views(tags@)),
        r < tags@.len(),
{
    let ghost t = text::views(tags@);
    let mut best: usize = 0;
    let mut i: usize = 1;
    proof {
        assert(t.take(1).len() == 1);
    }
    while i < tags.len()
        invariant
            1 <= i <= tags@.len(),
            t == text::views(tags@),
            best < i,
            best == highest(t.take(i as int)),
        decreases tags.len() - i,
    {
        proof {
            assert(t.take(i + 1).drop_last() =~= t.take(i as int));
            assert(t.take(i + 1).last() == tags@[i as int]@);
            assert(t.take(i + 1)[best as int] == tags@[best as int]@);
        }
        if tags[i].count > tags[best].count {
            best = i;
        }
        i = i + 1;
    }
    proof {
        assert(t.take(i as int) =~= t);
    }
    best
}

/// Goes through the lines of SudachiDict, takes the part of speech that each left
/// id has most often, and finds the Mozc id for it. Gives the table, how many of
/// the ids it covers, and how many there are.
pub fn build_remap_table(files: &Vec<String>, mozc_ids: &StringHashMap<u16>) -> (r: (
    HashMap<u16, u16>,
    usize,
    usize,
))
    ensures
        r.0@ == remap_table(tags_on(source::all_lines(text::views(files@))), mozc_ids@),
        r.1 == r.0@.dom().len(),
        r.2 == ids_seen(tags_on(source::all_lines(text::views(files@)))).len(),
{
    broadcast use vstd::std_specs::hash::group_hash_axioms;

    let table: TagTable = note_files(files);
    let ghost seen = tags_on(source::all_lines(text::views(files@)));
    let ghost ids = ids_seen(seen);
    let mut remap: HashMap<u16, u16> = HashMap::new();
    let mut matched: usize = 0;
    let mut i: usize = 0;
    proof {
        lemma_ids_distinct(seen);
    }
    while i < table.ids.len()
        invariant
            i <= table.ids@.len(),
            table.tells(seen),
            ids == ids_seen(seen),
            ids.no_duplicates(),
            matched <= i,
            remap@.dom().finite(),
            matched == remap@.dom().len(),
            forall|id: u16| #[trigger]
                remap@.contains_key(id) <==> remap_table(seen, mozc_ids@).contains_key(id)
                    && ids.take(i as int).contains(id),
            forall|id: u16| #[trigger]
                remap@.contains_key(id) ==> remap@[id] == remap_table(seen, mozc_ids@)[id],
        decreases table.ids.len() - i,
    {
        broadcast use vstd::std_specs::hash::group_hash_axioms;

        let id: u16 = table.ids[i].id;
        proof {
            assert(id == ids[i as int]);
            assert(ids.contains(id));
            assert(ids.take(i + 1) =~= ids.take(i as int).push(id));
            assert(!ids.take(i as int).contains(id));
            lemma_seen_has_tally(seen, id);
            assert(text::views(table.ids@[i as int].tags@).len() > 0);
            assert forall|other: u16| #[trigger] ids.take(i + 1).contains(other) <==> ids.take(
                i as int,
            ).contains(other) || other == id by {
                if ids.take(i as int).contains(other) {
                    let k = choose|k: int|
                        0 <= k < ids.take(i as int).len() && ids.take(i as int)[k] == other;
                    assert(ids.take(i + 1)[k] == other);
                }
                if other == id {
                    assert(ids.take(i + 1)[i as int] == id);
                }
                if ids.take(i + 1).contains(other) {
                    let longer = ids.take(i + 1);
                    let k = choose|k: int| 0 <= k < longer.len() && longer[k] == other;
                    if k < i {
                        assert(ids.take(i as int)[k] == other);
                    }
                }
            }
        }
        let best: usize = find_highest(&table.ids[i].tags);
        proof {
            assert(text::views(table.ids@[i as int].tags@)[best as int]
                == table.ids@[i as int].tags@[best as int]@);
        }
        if let Some(new) = find_mozc_id(mozc_ids, &table.ids[i].tags[best].tag) {
            remap.insert(id, new);
            matched = matched + 1;
        }
        i = i + 1;
    }
    proof {
        assert(ids.take(i as int) =~= ids);
        assert(remap@ =~= remap_table(seen, mozc_ids@));
    }
    (remap, matched, table.ids.len())
}

/// An id that was seen has a part of speech.
proof fn lemma_seen_has_tally(seen: Seq<(u16, Seq<Seq<char>>)>, id: u16)
    requires
        ids_seen(seen).contains(id),
    ensures
        tally(seen, id).len() > 0,
    decreases seen.len(),
{
    let a = Seq::new(seen.len(), |i: int| seen[i].0);
    seqs::distinct_keeps_each_once(a);
    assert(a.contains(id));
    if seen.len() > 0 {
        seqs::lemma_first_from(tally(seen.drop_last(), id), counts(seen.last().1), 0);
    }
    if seen.len() > 0 && seen.last().0 != id {
        let front = seen.drop_last();
        let b = Seq::new(front.len(), |i: int| front[i].0);
        seqs::distinct_keeps_each_once(b);
        let k = choose|k: int| 0 <= k < a.len() && a[k] == id;
        assert(b[k] == id);
        assert(b.contains(id));
        lemma_seen_has_tally(front, id);
    }
}

/// Telling the names of conjugation types apart.
proof fn lemma_type_names()
    ensures
        conjugation_type("一段"@) == "一段"@,
        forall|s: Seq<char>|
            s.len() > 2 && s[2] == '・' ==> #[trigger] conjugation_type(s) == s,
        forall|s: Seq<char>|
            s.len() > 3 && s[3] == '・' ==> #[trigger] conjugation_type(s) == s,
        forall|s: Seq<char>|
            "上一段-"@.is_prefix_of(s) || "下一段-"@.is_prefix_of(s) ==> #[trigger] conjugation_type(s)
                == "一段"@,
        forall|s: Seq<char>|
            ({
                let r = #[trigger] conjugation_type(s);
                r == s || r == "一段"@ || (r.len() > 2 && r[2] == '・') || (r.len() > 3 && r[3] == '・')
            }),
{
    reveal_strlit("五段-カ行");
    reveal_strlit("五段・カ行イ音便");
    reveal_strlit("五段-ガ行");
    reveal_strlit("五段・ガ行");
    reveal_strlit("五段-サ行");
    reveal_strlit("五段・サ行");
    reveal_strlit("五段-タ行");
    reveal_strlit("五段・タ行");
    reveal_strlit("五段-ナ行");
    reveal_strlit("五段・ナ行");
    reveal_strlit("五段-バ行");
    reveal_strlit("五段・バ行");
    reveal_strlit("五段-マ行");
    reveal_strlit("五段・マ行");
    reveal_strlit("五段-ラ行");
    reveal_strlit("五段・ラ行");
    reveal_strlit("五段-ワア行");
    reveal_strlit("五段・ワ行ウ音便");
    reveal_strlit("サ行変格");
    reveal_strlit("サ変・スル");
    reveal_strlit("カ行変格");
    reveal_strlit("カ変・来ル");
    reveal_strlit("形容詞");
    reveal_strlit("形容詞・アウオ段");
    reveal_strlit("文語形容詞-ク");
    reveal_strlit("上一段-");
    reveal_strlit("下一段-");
    reveal_strlit("一段");
    assert forall|s: Seq<char>| s.len() > 2 && s[2] == '・' implies #[trigger] conjugation_type(s)
        == s by {
        if "上一段-"@.is_prefix_of(s) {
            assert(s.subrange(0, 4)[2] == s[2]);
        }
        if "下一段-"@.is_prefix_of(s) {
            assert(s.subrange(0, 4)[2] == s[2]);
        }
    }
    assert forall|s: Seq<char>| s.len() > 3 && s[3] == '・' implies #[trigger] conjugation_type(s)
        == s by {
        if "上一段-"@.is_prefix_of(s) {
            assert(s.subrange(0, 4)[3] == s[3]);
        }
        if "下一段-"@.is_prefix_of(s) {
            assert(s.subrange(0, 4)[3] == s[3]);
        }
    }
    assert forall|s: Seq<char>|
        "上一段-"@.is_prefix_of(s) || "下一段-"@.is_prefix_of(s) implies #[trigger] conjugation_type(s)
        == "一段"@ by {
        assert(s.subrange(0, 4)[0] == s[0]);
        assert(s[0] == '上' || s[0] == '下');
    }
}

/// Converting a conjugation type again changes nothing.
pub proof fn converted_types_stay(s: Seq<char>)
    ensures
        conjugation_type(conjugation_type(s)) == conjugation_type(s),
{
    lemma_type_names();
}

/// All conjugations in one row are one type.
pub proof fn one_row_conjugations_are_one_type(s: Seq<char>)
    requires
        "上一段-"@.is_prefix_of(s) || "下一段-"@.is_prefix_of(s),
    ensures
        conjugation_type(s) == "一段"@,
{
    lemma_type_names();
}

} // verus!
