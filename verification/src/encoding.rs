//! Texts as UTF-8 bytes.

use vstd::prelude::*;
use vstd::utf8;

verus! {

/// `String::from_utf8` turns bytes into the text that they encode, and fails
/// exactly when they are not valid UTF-8.
#[verifier::external_body]
pub(crate) fn text_from_utf8(bytes: Vec<u8>) -> (r: Option<String>)
    ensures
        r is Some <==> utf8::valid_utf8(bytes@),
        r is Some ==> utf8::encode_utf8(r->0@) == bytes@,
{
    String::from_utf8(bytes).ok()
}

pub proof fn lemma_encode_concat(a: Seq<char>, b: Seq<char>)
    ensures
        utf8::encode_utf8(a + b) == utf8::encode_utf8(a) + utf8::encode_utf8(b),
    decreases a.len(),
{
    if a.len() == 0 {
        assert(a + b =~= b);
        assert(utf8::encode_utf8(a) + utf8::encode_utf8(b) =~= utf8::encode_utf8(b));
    } else {
        lemma_encode_concat(a.drop_first(), b);
        assert((a + b).drop_first() =~= a.drop_first() + b);
        assert((a + b)[0] == a[0]);
        assert(utf8::encode_utf8(a + b) =~= utf8::encode_utf8(a) + utf8::encode_utf8(b));
    }
}

/// Different texts have different bytes.
pub proof fn lemma_encode_injective(a: Seq<char>, b: Seq<char>)
    requires
        utf8::encode_utf8(a) == utf8::encode_utf8(b),
    ensures
        a == b,
{
    utf8::encode_utf8_decode_utf8(a);
    utf8::encode_utf8_decode_utf8(b);
}

/// A text with a character more has more bytes.
pub proof fn lemma_encode_len(a: Seq<char>)
    ensures
        utf8::encode_utf8(a).len() >= a.len(),
    decreases a.len(),
{
    if a.len() > 0 {
        lemma_encode_len(a.drop_first());
    }
}

/// Of two beginnings of a text, the longer one has more bytes, and the bytes of
/// the shorter one begin those of the longer one.
pub proof fn lemma_encode_take(s: Seq<char>, i: int, j: int)
    requires
        0 <= i <= j <= s.len(),
    ensures
        utf8::encode_utf8(s.take(i)).is_prefix_of(utf8::encode_utf8(s.take(j))),
        i < j ==> utf8::encode_utf8(s.take(i)).len() < utf8::encode_utf8(s.take(j)).len(),
{
    let mid = s.subrange(i, j);
    assert(s.take(j) =~= s.take(i) + mid);
    lemma_encode_concat(s.take(i), mid);
    lemma_encode_len(mid);
    assert(utf8::encode_utf8(s.take(j)).take(utf8::encode_utf8(s.take(i)).len() as int)
        =~= utf8::encode_utf8(s.take(i)));
}

/// Bytes that begin the bytes of a text and are themselves those of a text are
/// the bytes of a beginning of the text.
pub proof fn lemma_encode_prefix(r: Seq<char>, q: Seq<char>)
    requires
        utf8::encode_utf8(r).is_prefix_of(utf8::encode_utf8(q)),
    ensures
        r.is_prefix_of(q),
    decreases r.len(),
{
    let br = utf8::encode_utf8(r);
    let bq = utf8::encode_utf8(q);
    if r.len() > 0 {
        utf8::encode_utf8_first_scalar(r);
        assert(q.len() > 0) by {
            if q.len() == 0 {
                assert(bq.len() == 0);
            }
        }
        utf8::encode_utf8_first_scalar(q);
        let n = utf8::length_of_first_scalar(br);
        assert(forall|i: int| 0 <= i < br.len() ==> br[i] == bq[i]) by {
            assert forall|i: int| 0 <= i < br.len() implies br[i] == bq[i] by {
                assert(bq.subrange(0, br.len() as int)[i] == br[i]);
            }
        }
        assert(utf8::decode_first_scalar(br) == utf8::decode_first_scalar(bq));
        assert(utf8::length_of_first_scalar(bq) == n);
        lemma_same_char(r[0], q[0]);
        let r1 = r.drop_first();
        let q1 = q.drop_first();
        assert(utf8::encode_utf8(r1) =~= br.skip(n));
        assert(utf8::encode_utf8(q1) =~= bq.skip(n));
        assert(utf8::encode_utf8(r1).is_prefix_of(utf8::encode_utf8(q1))) by {
            assert(utf8::encode_utf8(q1).subrange(0, utf8::encode_utf8(r1).len() as int)
                =~= utf8::encode_utf8(r1));
        }
        lemma_encode_prefix(r1, q1);
        assert(q.subrange(0, r.len() as int) =~= r) by {
            assert forall|i: int| 0 <= i < r.len() implies q[i] == r[i] by {
                if i > 0 {
                    assert(q1.subrange(0, r1.len() as int)[i - 1] == r1[i - 1]);
                }
            }
        }
    } else {
        assert(q.subrange(0, 0) =~= r);
    }
}

proof fn lemma_same_char(a: char, b: char)
    requires
        a as u32 == b as u32,
    ensures
        a == b,
{
}

} // verus!
