//! Costs of putting one morpheme behind another.

use vstd::prelude::*;

use crate::dict::DictError;
use crate::lines::{self, lines_of, parse_i16, parse_u16, words_of};
use crate::seqs;
use crate::text;

verus! {

/// A connection cost matrix mapping (left_id, right_id) to a cost.
pub struct ConnectionMatrix {
    num_ids: u16,
    fw_min: u16,
    fw_max: u16,
    roles: Vec<u8>,
    costs: Vec<i16>,
}

/// What a `ConnectionMatrix` holds.
pub struct ConnView {
    pub num_ids: u16,
    pub fw_min: u16,
    pub fw_max: u16,
    pub roles: Seq<u8>,
    pub costs: Seq<i16>,
}

impl View for ConnectionMatrix {
    type V = ConnView;

    closed spec fn view(&self) -> ConnView {
        ConnView {
            num_ids: self.num_ids,
            fw_min: self.fw_min,
            fw_max: self.fw_max,
            roles: self.roles@,
            costs: self.costs@,
        }
    }
}

impl ConnView {
    /// The cost of going from `left` to `right`; outside the matrix it is 0.
    pub open spec fn cost(self, left: u16, right: u16) -> i16 {
        let i = left as int * self.num_ids as int + right as int;
        if i < self.costs.len() {
            self.costs[i]
        } else {
            0
        }
    }

    /// The role of an id: 0 content word, 1 function word, 2 suffix, 3 prefix.
    pub open spec fn role(self, id: u16) -> u8 {
        if (id as int) < self.roles.len() {
            self.roles[id as int]
        } else {
            0
        }
    }

    /// Whether `id` is in the range of function words; there is none when the
    /// range starts at 0.
    pub open spec fn function_word(self, id: u16) -> bool {
        self.fw_min != 0 && self.fw_min <= id <= self.fw_max
    }
}

/// The view of an optional matrix.
pub open spec fn conn_view(conn: Option<&ConnectionMatrix>) -> Option<ConnView> {
    match conn {
        Some(c) => Some(c@),
        None => None,
    }
}

impl ConnectionMatrix {
    /// Looks up the connection cost between two morphemes. A pair of ids that
    /// is not in the matrix costs 0.
    pub fn cost(&self, left_id: u16, right_id: u16) -> (r: i16)
        ensures
            r == self@.cost(left_id, right_id),
    {
        proof {
            assert(left_id as int * self.num_ids as int <= 65535 * 65535) by (nonlinear_arith)
                requires
                    0 <= left_id <= 65535,
                    0 <= self.num_ids <= 65535,
            ;
        }
        let i: u64 = left_id as u64 * self.num_ids as u64 + right_id as u64;
        if i < self.costs.len() as u64 {
            self.costs[i as usize]
        } else {
            0
        }
    }

    /// Number of morpheme ids in this matrix.
    pub fn num_ids(&self) -> (r: u16)
        ensures
            r == self@.num_ids,
    {
        self.num_ids
    }

    /// Lower end of the function-word id range.
    pub fn fw_min(&self) -> (r: u16)
        ensures
            r == self@.fw_min,
    {
        self.fw_min
    }

    /// Upper end of the function-word id range.
    pub fn fw_max(&self) -> (r: u16)
        ensures
            r == self@.fw_max,
    {
        self.fw_max
    }

    /// Whether an id is that of a function word.
    pub fn is_function_word(&self, id: u16) -> (r: bool)
        ensures
            r == self@.function_word(id),
    {
        self.fw_min != 0 && self.fw_min <= id && id <= self.fw_max
    }

    /// The morpheme role of an id; 0 (content word) when the matrix has none.
    pub fn role(&self, id: u16) -> (r: u8)
        ensures
            r == self@.role(id),
    {
        if (id as usize) < self.roles.len() {
            self.roles[id as usize]
        } else {
            0
        }
    }

    /// Whether an id is that of a suffix.
    pub fn is_suffix(&self, id: u16) -> (r: bool)
        ensures
            r == (self@.role(id) == 2),
    {
        self.role(id) == 2
    }

    /// Whether an id is that of a prefix.
    pub fn is_prefix(&self, id: u16) -> (r: bool)
        ensures
            r == (self@.role(id) == 3),
    {
        self.role(id) == 3
    }
}

/// The first bytes of a matrix file.
pub const MAGIC: [u8; 4] = [0x4C, 0x58, 0x43, 0x58];

/// A number in two bytes, the lower one first.
pub open spec fn number_bytes(x: u16) -> Seq<u8> {
    seq![(x % 256) as u8, (x / 256) as u8]
}

/// The number in the two bytes at place `i`.
pub open spec fn number_at(s: Seq<u8>, i: int) -> u16 {
    (s[i] + 256 * s[i + 1]) as u16
}

/// A cost as a number without sign: negative ones are counted from 65536 down.
pub open spec fn cost_number(c: i16) -> u16 {
    if c >= 0 {
        c as u16
    } else {
        (c + 65536) as u16
    }
}

/// The cost that a number stands for.
pub open spec fn number_cost(x: u16) -> i16 {
    if x < 32768 {
        x as i16
    } else {
        (x - 65536) as i16
    }
}

/// The bytes of costs.
pub open spec fn cost_bytes(costs: Seq<i16>) -> Seq<u8>
    decreases costs.len(),
{
    if costs.len() == 0 {
        Seq::empty()
    } else {
        cost_bytes(costs.drop_last()) + number_bytes(cost_number(costs.last()))
    }
}

impl ConnView {
    /// A cost for each pair of ids, and a role for each id or for none.
    pub open spec fn complete(self) -> bool {
        &&& self.costs.len() == self.num_ids as int * self.num_ids as int
        &&& self.roles.len() == 0 || self.roles.len() == self.num_ids
    }

    /// The version of the file in which the matrix is kept: with roles or without.
    pub open spec fn version(self) -> u8 {
        if self.roles.len() == 0 {
            2
        } else {
            3
        }
    }

    /// The bytes of a file.
    pub open spec fn image(self) -> Seq<u8> {
        MAGIC@ + seq![self.version()] + number_bytes(self.num_ids) + number_bytes(self.fw_min)
            + number_bytes(self.fw_max) + self.roles + cost_bytes(self.costs)
    }
}

/// The length of what stands before the costs in a file.
pub open spec fn header_len(data: Seq<u8>) -> int {
    if data[4] == 1 {
        7
    } else if data[4] == 2 {
        11
    } else {
        11 + number_at(data, 5) as int
    }
}

/// Why the bytes are not those of a matrix, if they are not.
pub open spec fn image_fault(data: Seq<u8>) -> Option<DictError> {
    if data.len() < 5 {
        Some(DictError::InvalidHeader)
    } else if data.take(4) != MAGIC@ {
        Some(DictError::InvalidMagic)
    } else if !(1 <= data[4] <= 3) {
        Some(DictError::UnsupportedVersion(data[4]))
    } else if data.len() < 7 || data.len() < header_len(data) + 2 * (number_at(data, 5) as int
        * number_at(data, 5) as int) {
        Some(DictError::InvalidHeader)
    } else {
        None
    }
}

/// The matrix that the bytes hold. The first version has neither a range of
/// function words nor roles, the second has no roles.
pub open spec fn read_image(data: Seq<u8>) -> ConnView {
    let n = number_at(data, 5);
    let h = header_len(data);
    ConnView {
        num_ids: n,
        fw_min: if data[4] == 1 {
            0
        } else {
            number_at(data, 7)
        },
        fw_max: if data[4] == 1 {
            0
        } else {
            number_at(data, 9)
        },
        roles: if data[4] == 3 {
            data.subrange(11, 11 + n as int)
        } else {
            Seq::empty()
        },
        costs: Seq::new(
            (n as int * n as int) as nat,
            |i: int| number_cost(number_at(data, h + 2 * i)),
        ),
    }
}

proof fn lemma_number_bytes(x: u16, s: Seq<u8>, i: int)
    requires
        0 <= i,
        i + 2 <= s.len(),
        s.subrange(i, i + 2) == number_bytes(x),
    ensures
        number_at(s, i) == x,
{
    assert(s.subrange(i, i + 2)[0] == s[i]);
    assert(s.subrange(i, i + 2)[1] == s[i + 1]);
}

proof fn lemma_cost_number(c: i16)
    ensures
        number_cost(cost_number(c)) == c,
{
}

proof fn lemma_cost_bytes(costs: Seq<i16>)
    ensures
        cost_bytes(costs).len() == 2 * costs.len(),
        forall|i: int|
            0 <= i < costs.len() ==> number_cost(
                number_at(cost_bytes(costs), 2 * i),
            ) == #[trigger] costs[i],
    decreases costs.len(),
{
    if costs.len() > 0 {
        let front = costs.drop_last();
        lemma_cost_bytes(front);
        let b = cost_bytes(costs);
        let last = cost_number(costs.last());
        assert forall|i: int| 0 <= i < costs.len() implies number_cost(number_at(b, 2 * i))
            == #[trigger] costs[i] by {
            if i < front.len() {
                assert(front[i] == costs[i]);
                assert(b[2 * i] == cost_bytes(front)[2 * i]);
                assert(b[2 * i + 1] == cost_bytes(front)[2 * i + 1]);
            } else {
                assert(b.subrange(2 * i, 2 * i + 2) =~= number_bytes(last));
                lemma_number_bytes(last, b, 2 * i);
                lemma_cost_number(costs.last());
            }
        }
    }
}

/// Reading the bytes of a matrix gives the matrix back.
pub proof fn matrix_round_trip(v: ConnView)
    requires
        v.complete(),
    ensures
        image_fault(v.image()) is None,
        read_image(v.image()) == v,
{
    let data = v.image();
    let roles = v.roles;
    let costs = cost_bytes(v.costs);
    lemma_cost_bytes(v.costs);
    let h = 11 + roles.len();
    assert(MAGIC@.len() == 4);
    assert(data.take(4) =~= MAGIC@);
    assert(data[4] == v.version());
    assert(data.subrange(5, 7) =~= number_bytes(v.num_ids));
    assert(data.subrange(7, 9) =~= number_bytes(v.fw_min));
    assert(data.subrange(9, 11) =~= number_bytes(v.fw_max));
    lemma_number_bytes(v.num_ids, data, 5);
    lemma_number_bytes(v.fw_min, data, 7);
    lemma_number_bytes(v.fw_max, data, 9);
    assert(header_len(data) == h);
    assert(data.skip(h as int) =~= costs);
    let r = read_image(data);
    assert(r.roles =~= v.roles);
    assert forall|i: int| 0 <= i < v.costs.len() implies r.costs[i] == v.costs[i] by {
        assert(data[h + 2 * i] == costs[2 * i]);
        assert(data[h + 2 * i + 1] == costs[2 * i + 1]);
        assert(number_cost(number_at(costs, 2 * i)) == v.costs[i]);
    }
    assert(r.costs =~= v.costs);
}

fn push_number(out: &mut Vec<u8>, x: u16)
    ensures
        final(out)@ == old(out)@ + number_bytes(x),
{
    out.push((x % 256) as u8);
    out.push((x / 256) as u8);
    proof {
        assert(out@ =~= old(out)@ + number_bytes(x));
    }
}

fn read_number(data: &[u8], i: usize) -> (r: u16)
    requires
        i + 2 <= data@.len(),
    ensures
        r == number_at(data@, i as int),
{
    data[i] as u16 + 256 * data[i + 1] as u16
}

impl ConnectionMatrix {
    #[verifier::type_invariant]
    spec fn consistent(&self) -> bool {
        self@.complete()
    }

    /// The bytes of a file that holds the matrix.
    pub fn to_bytes(&self) -> (r: Vec<u8>)
        ensures
            r@ == self@.image(),
            self@.complete(),
    {
        proof {
            use_type_invariant(self);
        }
        let mut out: Vec<u8> = Vec::new();
        out.push(MAGIC[0]);
        out.push(MAGIC[1]);
        out.push(MAGIC[2]);
        out.push(MAGIC[3]);
        out.push(
            if self.roles.len() == 0 {
                2
            } else {
                3
            },
        );
        proof {
            assert(out@ =~= MAGIC@ + seq![self@.version()]);
        }
        push_number(&mut out, self.num_ids);
        push_number(&mut out, self.fw_min);
        push_number(&mut out, self.fw_max);
        out.extend_from_slice(self.roles.as_slice());
        let ghost before = out@;
        let mut i: usize = 0;
        proof {
            assert(self@.costs.take(0) =~= Seq::empty());
            assert(before + cost_bytes(self@.costs.take(0)) =~= before);
        }
        while i < self.costs.len()
            invariant
                i <= self.costs@.len(),
                self.costs@ == self@.costs,
                out@ == before + cost_bytes(self@.costs.take(i as int)),
            decreases self.costs.len() - i,
        {
            let c: i16 = self.costs[i];
            let x: u16 = if c >= 0 {
                c as u16
            } else {
                (c as i32 + 65536) as u16
            };
            proof {
                assert(self@.costs.take(i + 1).drop_last() =~= self@.costs.take(i as int));
                assert(before + cost_bytes(self@.costs.take(i as int)) + number_bytes(x) =~= before
                    + cost_bytes(self@.costs.take(i + 1)));
            }
            push_number(&mut out, x);
            i = i + 1;
        }
        proof {
            assert(self@.costs.take(i as int) =~= self@.costs);
        }
        out
    }

    /// Reads the matrix in the bytes of a file.
    pub fn from_bytes(data: &[u8]) -> (r: Result<Self, DictError>)
        ensures
            image_fault(data@) is Some ==> r is Err && r->Err_0 == image_fault(data@)->0,
            image_fault(data@) is None ==> r is Ok && r->Ok_0@ == read_image(data@),
    {
        if data.len() < 5 {
            return Err(DictError::InvalidHeader);
        }
        if data[0] != MAGIC[0] || data[1] != MAGIC[1] || data[2] != MAGIC[2] || data[3]
            != MAGIC[3] {
            proof {
                let t = data@.take(4);
                assert(t[0] == data@[0] && t[1] == data@[1] && t[2] == data@[2] && t[3]
                    == data@[3]);
                assert(MAGIC@[0] == MAGIC[0] && MAGIC@[1] == MAGIC[1] && MAGIC@[2] == MAGIC[2]
                    && MAGIC@[3] == MAGIC[3]);
            }
            return Err(DictError::InvalidMagic);
        }
        proof {
            assert(MAGIC@.len() == 4);
            assert(data@.take(4) =~= MAGIC@);
        }
        let version: u8 = data[4];
        if version < 1 || version > 3 {
            return Err(DictError::UnsupportedVersion(version));
        }
        if data.len() < 7 {
            return Err(DictError::InvalidHeader);
        }
        let num_ids: u16 = read_number(data, 5);
        let header: usize = if version == 1 {
            7
        } else if version == 2 {
            11
        } else {
            11 + num_ids as usize
        };
        proof {
            assert(num_ids as int * num_ids as int <= 65535 * 65535) by (nonlinear_arith)
                requires
                    0 <= num_ids <= 65535,
            ;
        }
        let count: u64 = num_ids as u64 * num_ids as u64;
        if (data.len() as u64) < header as u64 + 2 * count {
            return Err(DictError::InvalidHeader);
        }
        let mut fw_min: u16 = 0;
        let mut fw_max: u16 = 0;
        if version != 1 {
            fw_min = read_number(data, 7);
            fw_max = read_number(data, 9);
        }
        let mut roles: Vec<u8> = Vec::new();
        if version == 3 {
            roles = vstd::slice::slice_to_vec(
                vstd::slice::slice_subrange(data, 11, 11 + num_ids as usize),
            );
        }
        let mut costs: Vec<i16> = Vec::new();
        let n: usize = count as usize;
        let mut i: usize = 0;
        while i < n
            invariant
                i <= n,
                n == num_ids as int * num_ids as int,
                header == header_len(data@),
                header + 2 * n <= data@.len(),
                data@.len() <= usize::MAX,
                num_ids == number_at(data@, 5),
                costs@.len() == i,
                forall|j: int| 0 <= j < i ==> #[trigger] costs@[j] == read_image(data@).costs[j],
            decreases n - i,
        {
            let x: u16 = read_number(data, header + 2 * i);
            costs.push(
                if x < 32768 {
                    x as i16
                } else {
                    (x as i32 - 65536) as i16
                },
            );
            i = i + 1;
        }
        proof {
            assert(costs@ =~= read_image(data@).costs);
            assert(roles@ =~= read_image(data@).roles);
        }
        Ok(ConnectionMatrix { num_ids, fw_min, fw_max, roles, costs })
    }
}

/// The number of ids that the first line gives, once or twice.
pub open spec fn ids_in(line: Seq<char>) -> Option<u16> {
    let w = lines::words(line);
    if 1 <= w.len() <= 2 && short_number(w[0]) is Some && short_number(w[w.len() - 1])
        == short_number(w[0]) {
        short_number(w[0])
    } else {
        None
    }
}

/// The number from 0 to 65535 that a text spells.
pub open spec fn short_number(s: Seq<char>) -> Option<u16> {
    match lines::natural_number(s) {
        Some(n) => if n <= u16::MAX {
            Some(n as u16)
        } else {
            None
        },
        None => None,
    }
}

/// The cost that a text spells.
pub open spec fn cost_text(s: Seq<char>) -> Option<i16> {
    match lines::whole_number(s) {
        Some(n) => if i16::MIN <= n <= i16::MAX {
            Some(n as i16)
        } else {
            None
        },
        None => None,
    }
}

/// The costs on lines with one cost each; nothing where another line is among
/// them. Blank lines do not count.
pub open spec fn column(rows: Seq<Seq<char>>) -> Option<Seq<i16>>
    decreases rows.len(),
{
    if rows.len() == 0 {
        Some(Seq::empty())
    } else {
        let w = lines::words(rows.last());
        match column(rows.drop_last()) {
            Some(costs) => if w.len() == 0 {
                Some(costs)
            } else if w.len() == 1 && cost_text(w[0]) is Some {
                Some(costs.push(cost_text(w[0])->0))
            } else {
                None
            },
            None => None,
        }
    }
}

/// A cost of 0 for each pair of `n` ids.
pub open spec fn zeros(n: u16) -> Seq<i16> {
    Seq::new((n as int * n as int) as nat, |i: int| 0i16)
}

/// The right id, the left id and the cost on a line of three words, with both ids
/// below `n`.
pub open spec fn triple(n: u16, w: Seq<Seq<char>>) -> Option<(u16, u16, i16)> {
    if w.len() == 3 && short_number(w[0]) is Some && short_number(w[0])->0 < n && short_number(
        w[1],
    ) is Some && short_number(w[1])->0 < n && cost_text(w[2]) is Some {
        Some((short_number(w[0])->0, short_number(w[1])->0, cost_text(w[2])->0))
    } else {
        None
    }
}

/// The costs of all pairs of `n` ids where lines give the right id, the left id and
/// the cost; a pair on no line costs 0. Nothing where another line is among them.
pub open spec fn triples(n: u16, rows: Seq<Seq<char>>) -> Option<Seq<i16>>
    decreases rows.len(),
{
    if rows.len() == 0 {
        Some(zeros(n))
    } else {
        let w = lines::words(rows.last());
        match triples(n, rows.drop_last()) {
            Some(costs) => if w.len() == 0 {
                Some(costs)
            } else {
                match triple(n, w) {
                    Some((right, left, cost)) => Some(
                        costs.update(left as int * n as int + right as int, cost),
                    ),
                    None => None,
                }
            },
            None => None,
        }
    }
}

/// Whether a line has words.
pub open spec fn has_words() -> spec_fn(Seq<char>) -> bool {
    |row: Seq<char>| lines::words(row).len() > 0
}

/// Whether the lines give ids and cost: whether the first that is not blank has
/// three words.
pub open spec fn in_triples(rows: Seq<Seq<char>>) -> bool {
    let i = seqs::first_place(rows, has_words());
    i < rows.len() && lines::words(rows[i]).len() == 3
}

/// The number of ids and the costs that a text gives, or what is wrong with it.
pub open spec fn read_text(s: Seq<char>) -> Result<(u16, Seq<i16>), Seq<char>> {
    let rows = lines::lines(s);
    if rows.len() == 0 || ids_in(rows[0]) is None {
        Err("invalid connection matrix header"@)
    } else {
        let n = ids_in(rows[0])->0;
        let body = rows.skip(1);
        let costs = if in_triples(body) {
            triples(n, body)
        } else {
            column(body)
        };
        match costs {
            None => Err("invalid connection cost"@),
            Some(c) => if c.len() == n as int * n as int {
                Ok((n, c))
            } else {
                Err("wrong number of connection costs"@)
            },
        }
    }
}

fn parse_ids(line: &str) -> (r: Option<u16>)
    ensures
        r == ids_in(line@),
{
    let w: Vec<String> = words_of(line);
    let ghost v = text::views(w@);
    if w.len() < 1 || w.len() > 2 {
        return None;
    }
    proof {
        assert(v[0] == w@[0]@);
        assert(v[w@.len() - 1] == w@[w@.len() - 1]@);
    }
    match (parse_u16(w[0].as_str()), parse_u16(w[w.len() - 1].as_str())) {
        (Some(a), Some(b)) => if a == b {
            Some(a)
        } else {
            None
        },
        _ => None,
    }
}

proof fn lemma_column_fault(rows: Seq<Seq<char>>, i: int)
    requires
        0 <= i <= rows.len(),
        column(rows.take(i)) is None,
    ensures
        column(rows) is None,
    decreases rows.len() - i,
{
    if i < rows.len() {
        assert(rows.take(i + 1).drop_last() =~= rows.take(i));
        lemma_column_fault(rows, i + 1);
    } else {
        assert(rows.take(i) =~= rows);
    }
}

proof fn lemma_triples_fault(n: u16, rows: Seq<Seq<char>>, i: int)
    requires
        0 <= i <= rows.len(),
        triples(n, rows.take(i)) is None,
    ensures
        triples(n, rows) is None,
    decreases rows.len() - i,
{
    if i < rows.len() {
        assert(rows.take(i + 1).drop_last() =~= rows.take(i));
        lemma_triples_fault(n, rows, i + 1);
    } else {
        assert(rows.take(i) =~= rows);
    }
}

/// The place of a pair of ids lies among the costs.
proof fn lemma_place(n: u16, left: u16, right: u16)
    requires
        left < n,
        right < n,
    ensures
        0 <= left as int * n as int + right as int,
        left as int * n as int + (right as int) < n as int * n as int,
        n as int * n as int <= 65535 * 65535,
{
    assert(left as int * n as int + (right as int) < n as int * n as int && 0 <= left as int
        * n as int && n as int * n as int <= 65535 * 65535) by (nonlinear_arith)
        requires
            0 <= left <= n - 1,
            0 <= right < n,
            n <= 65535,
    ;
}

/// Reads lines with one cost each, from the second line on.
fn parse_column(rows: &Vec<String>) -> (r: Option<Vec<i16>>)
    requires
        rows@.len() >= 1,
    ensures
        r is Some <==> column(text::views(rows@).skip(1)) is Some,
        r is Some ==> r->0@ == column(text::views(rows@).skip(1))->0,
{
    let ghost body = text::views(rows@).skip(1);
    let mut costs: Vec<i16> = Vec::new();
    let mut i: usize = 1;
    proof {
        assert(body.take(0) =~= Seq::empty());
    }
    while i < rows.len()
        invariant
            1 <= i <= rows@.len(),
            body == text::views(rows@).skip(1),
            column(body.take(i - 1)) == Some(costs@),
        decreases rows.len() - i,
    {
        let w: Vec<String> = words_of(rows[i].as_str());
        let ghost v = text::views(w@);
        proof {
            assert(body.take(i as int).drop_last() =~= body.take(i - 1));
            assert(body.take(i as int).last() == rows@[i as int]@);
        }
        if w.len() > 0 {
            proof {
                assert(v[0] == w@[0]@);
                if column(body.take(i as int)) is None {
                    lemma_column_fault(body, i as int);
                }
            }
            if w.len() > 1 {
                return None;
            }
            match parse_i16(w[0].as_str()) {
                Some(c) => costs.push(c),
                None => {
                    return None;
                },
            }
        }
        i = i + 1;
    }
    proof {
        assert(body.take(i - 1) =~= body);
    }
    Some(costs)
}

/// Reads lines with ids and cost, from the second line on.
fn parse_triples(n: u16, rows: &Vec<String>) -> (r: Option<Vec<i16>>)
    requires
        rows@.len() >= 1,
    ensures
        r is Some <==> triples(n, text::views(rows@).skip(1)) is Some,
        r is Some ==> r->0@ == triples(n, text::views(rows@).skip(1))->0,
{
    let ghost body = text::views(rows@).skip(1);
    let mut costs: Vec<i16> = Vec::new();
    proof {
        assert(n as int * n as int <= 65535 * 65535) by (nonlinear_arith)
            requires
                0 <= n <= 65535,
        ;
    }
    let count: usize = n as usize * n as usize;
    let mut k: usize = 0;
    while k < count
        invariant
            k <= count,
            count == n as int * n as int,
            costs@.len() == k,
            forall|j: int| 0 <= j < k ==> #[trigger] costs@[j] == 0,
        decreases count - k,
    {
        costs.push(0);
        k = k + 1;
    }
    let mut i: usize = 1;
    proof {
        assert(body.take(0) =~= Seq::empty());
        assert(costs@ =~= zeros(n));
    }
    while i < rows.len()
        invariant
            1 <= i <= rows@.len(),
            body == text::views(rows@).skip(1),
            costs@.len() == n as int * n as int,
            triples(n, body.take(i - 1)) == Some(costs@),
        decreases rows.len() - i,
    {
        let w: Vec<String> = words_of(rows[i].as_str());
        let ghost v = text::views(w@);
        proof {
            assert(body.take(i as int).drop_last() =~= body.take(i - 1));
            assert(body.take(i as int).last() == rows@[i as int]@);
            if triples(n, body.take(i as int)) is None {
                lemma_triples_fault(n, body, i as int);
            }
        }
        if w.len() > 0 {
            if w.len() != 3 {
                return None;
            }
            proof {
                assert(v[0] == w@[0]@ && v[1] == w@[1]@ && v[2] == w@[2]@);
            }
            match (parse_u16(w[0].as_str()), parse_u16(w[1].as_str()), parse_i16(w[2].as_str())) {
                (Some(right), Some(left), Some(cost)) => {
                    if right >= n || left >= n {
                        return None;
                    }
                    proof {
                        lemma_place(n, left, right);
                    }
                    let place: usize = left as usize * n as usize + right as usize;
                    costs.set(place, cost);
                },
                _ => {
                    return None;
                },
            }
        }
        i = i + 1;
    }
    proof {
        assert(body.take(i - 1) =~= body);
    }
    Some(costs)
}

/// Whether the lines from the second on give ids and cost.
fn are_triples(rows: &Vec<String>) -> (r: bool)
    requires
        rows@.len() >= 1,
    ensures
        r == in_triples(text::views(rows@).skip(1)),
{
    let ghost body = text::views(rows@).skip(1);
    let mut i: usize = 1;
    while i < rows.len()
        invariant
            1 <= i <= rows@.len(),
            body == text::views(rows@).skip(1),
            seqs::first_place(body, has_words()) == seqs::first_from(body, has_words(), i - 1),
        decreases rows.len() - i,
    {
        let w: Vec<String> = words_of(rows[i].as_str());
        proof {
            assert(body[i - 1] == rows@[i as int]@);
            assert(text::views(w@).len() == w@.len());
        }
        if w.len() > 0 {
            return w.len() == 3;
        }
        i = i + 1;
    }
    false
}

/// Reads the number of ids and the costs off a text.
fn parse_text(s: &str) -> (r: Result<(u16, Vec<i16>), String>)
    ensures
        r is Ok <==> read_text(s@) is Ok,
        r is Ok ==> ((r->Ok_0).0, (r->Ok_0).1@) == read_text(s@)->Ok_0,
        r is Err ==> r->Err_0@ == read_text(s@)->Err_0,
        r is Ok ==> (r->Ok_0).1@.len() == (r->Ok_0).0 as int * (r->Ok_0).0 as int,
{
    let rows: Vec<String> = lines_of(s);
    let ghost v = text::views(rows@);
    if rows.len() == 0 {
        return Err("invalid connection matrix header".to_string());
    }
    proof {
        assert(v[0] == rows@[0]@);
    }
    let n: u16 = match parse_ids(rows[0].as_str()) {
        Some(n) => n,
        None => {
            return Err("invalid connection matrix header".to_string());
        },
    };
    proof {
        assert(n as int * n as int <= 65535 * 65535) by (nonlinear_arith)
            requires
                0 <= n <= 65535,
        ;
    }
    let parsed: Option<Vec<i16>> = if are_triples(&rows) {
        parse_triples(n, &rows)
    } else {
        parse_column(&rows)
    };
    match parsed {
        Some(costs) => if costs.len() as u64 == n as u64 * n as u64 {
            Ok((n, costs))
        } else {
            Err("wrong number of connection costs".to_string())
        },
        None => Err("invalid connection cost".to_string()),
    }
}

/// Whether `count` roles go with `n` ids: one for each, or none.
pub open spec fn roles_fit(n: u16, count: nat) -> bool {
    count == 0 || count == n
}

impl ConnectionMatrix {
    /// Reads a matrix off a text, without function words and roles.
    pub fn from_text(s: &str) -> (r: Result<Self, DictError>)
        ensures
            r is Ok <==> read_text(s@) is Ok,
            r is Ok ==> r->Ok_0@ == (ConnView {
                num_ids: read_text(s@)->Ok_0.0,
                fw_min: 0,
                fw_max: 0,
                roles: Seq::empty(),
                costs: read_text(s@)->Ok_0.1,
            }),
            r is Err ==> r->Err_0 is Parse && r->Err_0->Parse_0@ == read_text(s@)->Err_0,
    {
        Self::from_text_with_metadata(s, 0, 0)
    }

    /// Reads a matrix off a text, with the range of the function words.
    pub fn from_text_with_metadata(s: &str, fw_min: u16, fw_max: u16) -> (r: Result<
        Self,
        DictError,
    >)
        ensures
            r is Ok <==> read_text(s@) is Ok,
            r is Ok ==> r->Ok_0@ == (ConnView {
                num_ids: read_text(s@)->Ok_0.0,
                fw_min,
                fw_max,
                roles: Seq::empty(),
                costs: read_text(s@)->Ok_0.1,
            }),
            r is Err ==> r->Err_0 is Parse && r->Err_0->Parse_0@ == read_text(s@)->Err_0,
    {
        Self::from_text_with_roles(s, fw_min, fw_max, Vec::new())
    }

    /// Reads a matrix off a text, with the range of the function words and the roles
    /// of the ids.
    pub fn from_text_with_roles(s: &str, fw_min: u16, fw_max: u16, roles: Vec<u8>) -> (r: Result<
        Self,
        DictError,
    >)
        ensures
            r is Ok <==> read_text(s@) is Ok && roles_fit(read_text(s@)->Ok_0.0, roles@.len()),
            r is Ok ==> r->Ok_0@ == (ConnView {
                num_ids: read_text(s@)->Ok_0.0,
                fw_min,
                fw_max,
                roles: roles@,
                costs: read_text(s@)->Ok_0.1,
            }),
            read_text(s@) is Err ==> r is Err && r->Err_0 is Parse && r->Err_0->Parse_0@
                == read_text(s@)->Err_0,
            read_text(s@) is Ok && !roles_fit(read_text(s@)->Ok_0.0, roles@.len()) ==> r is Err
                && r->Err_0 is Parse && r->Err_0->Parse_0@ == "wrong number of roles"@,
    {
        match parse_text(s) {
            Ok((num_ids, costs)) => {
                if roles.len() != 0 && roles.len() != num_ids as usize {
                    return Err(DictError::Parse("wrong number of roles".to_string()));
                }
                Ok(ConnectionMatrix { num_ids, fw_min, fw_max, roles, costs })
            },
            Err(message) => Err(DictError::Parse(message)),
        }
    }
}

/// In a text with one cost on each line, the cost of a pair of ids stands on the
/// line with the number `left * n + right`.
pub proof fn column_costs_stand_in_order(s: Seq<char>, v: ConnView, left: u16, right: u16)
    requires
        read_text(s) is Ok,
        v.num_ids == read_text(s)->Ok_0.0,
        v.costs == read_text(s)->Ok_0.1,
        !in_triples(lines::lines(s).skip(1)),
        left < v.num_ids,
        right < v.num_ids,
    ensures
        v.cost(left, right) == column(lines::lines(s).skip(1))->0[left as int * v.num_ids as int
            + right as int],
{
    lemma_place(v.num_ids, left, right);
}

} // verus!
