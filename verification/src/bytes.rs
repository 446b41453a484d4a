//! Byte strings in lexicographic order.

use vstd::prelude::*;

verus! {

/// Byte strings in lexicographic order, from place `i` on.
pub open spec fn less_from(a: Seq<u8>, b: Seq<u8>, i: int) -> bool
    decreases b.len() - i,
{
    if i >= b.len() {
        false
    } else if i >= a.len() {
        true
    } else {
        a[i] < b[i] || (a[i] == b[i] && less_from(a, b, i + 1))
    }
}

/// Whether `a` comes before `b` in lexicographic order.
pub open spec fn bytes_less(a: Seq<u8>, b: Seq<u8>) -> bool {
    less_from(a, b, 0)
}

proof fn lemma_less_from(a: Seq<u8>, b: Seq<u8>, i: int)
    requires
        0 <= i <= a.len(),
        i <= b.len(),
        a.take(i) == b.take(i),
    ensures
        !(less_from(a, b, i) && less_from(b, a, i)),
        a == b ==> !less_from(a, b, i),
        less_from(a, b, i) || less_from(b, a, i) || a == b,
    decreases a.len() + b.len() - 2 * i,
{
    if i < a.len() && i < b.len() {
        if a[i] == b[i] {
            assert(a.take(i + 1) =~= a.take(i).push(a[i]));
            assert(b.take(i + 1) =~= b.take(i).push(b[i]));
            lemma_less_from(a, b, i + 1);
        }
    } else if i == a.len() && i == b.len() {
        assert(a.take(i) =~= a);
        assert(b.take(i) =~= b);
    }
}

/// Exactly one of two different byte strings comes before the other, and none
/// before itself.
pub proof fn bytes_less_is_total(a: Seq<u8>, b: Seq<u8>)
    ensures
        !(bytes_less(a, b) && bytes_less(b, a)),
        a == b ==> !bytes_less(a, b),
        bytes_less(a, b) || bytes_less(b, a) || a == b,
{
    assert(a.take(0) =~= b.take(0));
    lemma_less_from(a, b, 0);
}

proof fn lemma_less_transitive(a: Seq<u8>, b: Seq<u8>, c: Seq<u8>, i: int)
    requires
        0 <= i,
        less_from(a, b, i),
        less_from(b, c, i),
    ensures
        less_from(a, c, i),
    decreases c.len() - i,
{
    if i < a.len() && i < b.len() && i < c.len() && a[i] == b[i] && b[i] == c[i] {
        lemma_less_transitive(a, b, c, i + 1);
    }
}

/// The order of byte strings is transitive.
pub proof fn bytes_less_is_transitive(a: Seq<u8>, b: Seq<u8>, c: Seq<u8>)
    requires
        bytes_less(a, b),
        bytes_less(b, c),
    ensures
        bytes_less(a, c),
{
    lemma_less_transitive(a, b, c, 0);
}

/// Whether `a` comes before `b`.
pub fn bytes_before(a: &[u8], b: &[u8]) -> (r: bool)
    ensures
        r == bytes_less(a@, b@),
{
    let mut i: usize = 0;
    while i < a.len() && i < b.len()
        invariant
            i <= a@.len(),
            i <= b@.len(),
            bytes_less(a@, b@) == less_from(a@, b@, i as int),
        decreases a.len() - i,
    {
        if a[i] < b[i] {
            return true;
        }
        if a[i] > b[i] {
            return false;
        }
        i = i + 1;
    }
    i < b.len()
}

/// A value with a byte string by which it is sorted.
pub trait ByteKeyed {
    spec fn key(&self) -> Seq<u8>;

    fn comes_before(&self, other: &Self) -> (r: bool)
        ensures
            r == bytes_less(self.key(), other.key()),
    ;
}

/// No item comes before one in front of it.
pub open spec fn in_order<T: ByteKeyed>(s: Seq<T>) -> bool {
    forall|i: int, j: int|
        0 <= i < j < s.len() ==> !bytes_less((#[trigger] s[j]).key(), (#[trigger] s[i]).key())
}

/// No item of `b` comes before one of `a`.
pub open spec fn none_before<T: ByteKeyed>(a: Seq<T>, b: Seq<T>) -> bool {
    forall|i: int, j: int|
        0 <= i < a.len() && 0 <= j < b.len() ==> !bytes_less(
            (#[trigger] b[j]).key(),
            (#[trigger] a[i]).key(),
        )
}

proof fn lemma_not_less_transitive(a: Seq<u8>, b: Seq<u8>, c: Seq<u8>)
    requires
        !bytes_less(b, a),
        !bytes_less(c, b),
    ensures
        !bytes_less(c, a),
{
    bytes_less_is_total(a, b);
    bytes_less_is_total(b, c);
    bytes_less_is_total(a, c);
    if bytes_less(a, b) && bytes_less(b, c) {
        bytes_less_is_transitive(a, b, c);
    }
}

/// The items of `v`, last first.
pub fn reversed<T>(v: Vec<T>) -> (r: Vec<T>)
    ensures
        r@ == v@.reverse(),
{
    let mut v = v;
    let ghost s = v@;
    let mut out: Vec<T> = Vec::new();
    proof {
        assert(s.take(s.len() as int) =~= s);
    }
    while v.len() > 0
        invariant
            v@.len() <= s.len(),
            v@ == s.take(v@.len() as int),
            out@ == s.skip(v@.len() as int).reverse(),
        decreases v@.len(),
    {
        let ghost n = v@.len() as int;
        if let Some(x) = v.pop() {
            out.push(x);
            proof {
                assert(v@ =~= s.take(n - 1));
                assert(out@ =~= s.skip(n - 1).reverse());
            }
        }
    }
    proof {
        assert(out@ =~= s.reverse());
    }
    out
}

proof fn lemma_push_multiset<T>(s: Seq<T>, x: T)
    ensures
        s.push(x).to_multiset() == s.to_multiset().insert(x),
{
    broadcast use vstd::seq_lib::group_to_multiset_ensures;

}

/// The items of two lists in order, in one list in order.
fn merge<T: ByteKeyed>(a: Vec<T>, b: Vec<T>) -> (r: Vec<T>)
    requires
        in_order(a@),
        in_order(b@),
    ensures
        in_order(r@),
        r@.to_multiset() == a@.to_multiset().add(b@.to_multiset()),
{
    broadcast use vstd::seq_lib::group_to_multiset_ensures;

    let mut a = a;
    let mut b = b;
    let ghost all = a@.to_multiset().add(b@.to_multiset());
    let mut out: Vec<T> = Vec::new();
    proof {
        assert(a@.to_multiset().add(b@.to_multiset()).add(out@.to_multiset()) =~= all);
        assert(out@.reverse() =~= Seq::empty());
    }
    while a.len() > 0 || b.len() > 0
        invariant
            in_order(a@),
            in_order(b@),
            in_order(out@.reverse()),
            none_before(a@, out@),
            none_before(b@, out@),
            a@.to_multiset().add(b@.to_multiset()).add(out@.to_multiset()) == all,
        decreases a@.len() + b@.len(),
    {
        let ghost a0 = a@;
        let ghost b0 = b@;
        let ghost out0 = out@;
        let from_a: bool = if a.len() == 0 {
            false
        } else if b.len() == 0 {
            true
        } else {
            b[b.len() - 1].comes_before(&a[a.len() - 1])
        };
        if from_a {
            if let Some(x) = a.pop() {
                proof {
                    assert(x == a0.last());
                    assert(a0 =~= a@.push(x));
                    assert forall|i: int| 0 <= i < b0.len() implies !bytes_less(
                        x.key(),
                        (#[trigger] b0[i]).key(),
                    ) by {
                        bytes_less_is_total(b0.last().key(), x.key());
                        if i < b0.len() - 1 {
                            assert(!bytes_less(b0[b0.len() - 1].key(), b0[i].key()));
                        } else {
                            bytes_less_is_total(b0[i].key(), b0[i].key());
                        }
                        lemma_not_less_transitive(b0[i].key(), b0.last().key(), x.key());
                    }
                    assert forall|i: int| 0 <= i < a@.len() implies !bytes_less(
                        x.key(),
                        (#[trigger] a@[i]).key(),
                    ) by {
                        assert(a@[i] == a0[i]);
                        assert(a0[a0.len() - 1] == x);
                    }
                    lemma_push_front(out0, x, a0);
                }
                out.push(x);
                proof {
                    assert(none_before(a@, out@)) by {
                        assert forall|i: int, j: int|
                            0 <= i < a@.len() && 0 <= j < out@.len() implies !bytes_less(
                            (#[trigger] out@[j]).key(),
                            (#[trigger] a@[i]).key(),
                        ) by {
                            assert(a@[i] == a0[i]);
                            if j < out0.len() {
                                assert(out@[j] == out0[j]);
                            }
                        }
                    }
                    assert(none_before(b@, out@)) by {
                        assert forall|i: int, j: int|
                            0 <= i < b@.len() && 0 <= j < out@.len() implies !bytes_less(
                            (#[trigger] out@[j]).key(),
                            (#[trigger] b@[i]).key(),
                        ) by {
                            if j < out0.len() {
                                assert(out@[j] == out0[j]);
                            }
                        }
                    }
                    lemma_push_multiset(a@, x);
                    lemma_push_multiset(out0, x);
                    assert(in_order(a@)) by {
                        assert forall|i: int, j: int| 0 <= i < j < a@.len() implies !bytes_less(
                            (#[trigger] a@[j]).key(),
                            (#[trigger] a@[i]).key(),
                        ) by {
                            assert(a@[i] == a0[i] && a@[j] == a0[j]);
                        }
                    }
                    assert(a@.to_multiset().add(b@.to_multiset()).add(out@.to_multiset())
                        =~= a0.to_multiset().add(b0.to_multiset()).add(out0.to_multiset()));
                }
            }
        } else {
            if let Some(x) = b.pop() {
                proof {
                    assert(x == b0.last());
                    assert(b0 =~= b@.push(x));
                    assert forall|i: int| 0 <= i < a0.len() implies !bytes_less(
                        x.key(),
                        (#[trigger] a0[i]).key(),
                    ) by {
                        if i < a0.len() - 1 {
                            assert(!bytes_less(a0[a0.len() - 1].key(), a0[i].key()));
                        } else {
                            bytes_less_is_total(a0[i].key(), a0[i].key());
                        }
                        lemma_not_less_transitive(a0[i].key(), a0.last().key(), x.key());
                    }
                    assert forall|i: int| 0 <= i < b@.len() implies !bytes_less(
                        x.key(),
                        (#[trigger] b@[i]).key(),
                    ) by {
                        assert(b@[i] == b0[i]);
                        assert(b0[b0.len() - 1] == x);
                    }
                    lemma_push_front(out0, x, b0);
                }
                out.push(x);
                proof {
                    assert(none_before(b@, out@)) by {
                        assert forall|i: int, j: int|
                            0 <= i < b@.len() && 0 <= j < out@.len() implies !bytes_less(
                            (#[trigger] out@[j]).key(),
                            (#[trigger] b@[i]).key(),
                        ) by {
                            assert(b@[i] == b0[i]);
                            if j < out0.len() {
                                assert(out@[j] == out0[j]);
                            }
                        }
                    }
                    assert(none_before(a@, out@)) by {
                        assert forall|i: int, j: int|
                            0 <= i < a@.len() && 0 <= j < out@.len() implies !bytes_less(
                            (#[trigger] out@[j]).key(),
                            (#[trigger] a@[i]).key(),
                        ) by {
                            if j < out0.len() {
                                assert(out@[j] == out0[j]);
                            }
                        }
                    }
                    lemma_push_multiset(b@, x);
                    lemma_push_multiset(out0, x);
                    assert(in_order(b@)) by {
                        assert forall|i: int, j: int| 0 <= i < j < b@.len() implies !bytes_less(
                            (#[trigger] b@[j]).key(),
                            (#[trigger] b@[i]).key(),
                        ) by {
                            assert(b@[i] == b0[i] && b@[j] == b0[j]);
                        }
                    }
                    assert(a@.to_multiset().add(b@.to_multiset()).add(out@.to_multiset())
                        =~= a0.to_multiset().add(b0.to_multiset()).add(out0.to_multiset()));
                }
            }
        }
    }
    proof {
        out@.lemma_reverse_to_multiset();
        assert(a@.to_multiset().add(b@.to_multiset()).add(out@.to_multiset())
            =~= out@.to_multiset());
    }
    reversed(out)
}

/// A list in descending order stays so with an item behind it that comes before
/// none of its items.
proof fn lemma_push_front<T: ByteKeyed>(out: Seq<T>, x: T, from: Seq<T>)
    requires
        in_order(out.reverse()),
        none_before(from, out),
        from.len() > 0,
        x == from.last(),
    ensures
        in_order(out.push(x).reverse()),
{
    let r = out.push(x).reverse();
    let q = out.reverse();
    assert(r =~= seq![x] + q);
    assert forall|i: int, j: int| 0 <= i < j < r.len() implies !bytes_less(
        (#[trigger] r[j]).key(),
        (#[trigger] r[i]).key(),
    ) by {
        assert(r[j] == q[j - 1]);
        if i > 0 {
            assert(r[i] == q[i - 1]);
        } else {
            assert(q[j - 1] == out[out.len() - j]);
            assert(from[from.len() - 1] == x);
        }
    }
}

/// Sorts by byte string.
pub fn sort_by_bytes<T: ByteKeyed>(v: Vec<T>) -> (r: Vec<T>)
    ensures
        in_order(r@),
        r@.to_multiset() == v@.to_multiset(),
    decreases v@.len(),
{
    broadcast use vstd::seq_lib::group_to_multiset_ensures;

    if v.len() <= 1 {
        return v;
    }
    let ghost s = v@;
    let mut a = v;
    let mid: usize = a.len() / 2;
    let b: Vec<T> = a.split_off(mid);
    proof {
        assert(s =~= a@ + b@);
        vstd::seq_lib::lemma_multiset_commutative(a@, b@);
    }
    let a2: Vec<T> = sort_by_bytes(a);
    let b2: Vec<T> = sort_by_bytes(b);
    merge(a2, b2)
}

proof fn lemma_common(a: Seq<u8>, b: Seq<u8>, i: int, n: int)
    requires
        0 <= i <= n <= a.len(),
        n < b.len(),
        forall|k: int| 0 <= k < n ==> #[trigger] a[k] == b[k],
        n == a.len() || a[n] < b[n],
    ensures
        less_from(a, b, i),
    decreases n - i,
{
    if i < n {
        assert(a[i] == b[i]);
        lemma_common(a, b, i + 1, n);
    }
}

/// The first byte in which two byte strings differ decides, and the end of a string
/// comes before every byte.
pub proof fn first_difference_decides(a: Seq<u8>, b: Seq<u8>, n: int)
    requires
        0 <= n <= a.len(),
        n < b.len(),
        forall|k: int| 0 <= k < n ==> #[trigger] a[k] == b[k],
        n == a.len() || a[n] < b[n],
    ensures
        bytes_less(a, b),
        !bytes_less(b, a),
{
    lemma_common(a, b, 0, n);
    bytes_less_is_total(a, b);
}

} // verus!
