//! Stable sorting by an integer rank.

use vstd::prelude::*;

verus! {

/// A value with a rank by which it is ordered.
pub trait Ranked {
    spec fn rank(&self) -> int;
}

/// A ranked value whose rank can be read.
pub trait RankedItem: Ranked {
    fn rank_of(&self) -> (r: i64)
        ensures
            r == self.rank(),
    ;
}

/// `s` with `x` put behind every item whose rank is not above that of `x`.
pub open spec fn insert_ranked<T: Ranked>(s: Seq<T>, x: T) -> Seq<T>
    decreases s.len(),
{
    if s.len() == 0 || s.last().rank() <= x.rank() {
        s.push(x)
    } else {
        insert_ranked(s.drop_last(), x).push(s.last())
    }
}

/// The items of `s` by ascending rank; items of equal rank keep their order.
pub open spec fn ranked_order<T: Ranked>(s: Seq<T>) -> Seq<T>
    decreases s.len(),
{
    if s.len() == 0 {
        s
    } else {
        insert_ranked(ranked_order(s.drop_last()), s.last())
    }
}

/// Ranks never fall from one item to a later one.
pub open spec fn ascending<T: Ranked>(s: Seq<T>) -> bool {
    forall|i: int, j: int| 0 <= i <= j < s.len() ==> (#[trigger] s[i]).rank() <= (#[trigger] s[j]).rank()
}

/// The place of a new item of rank `r`: the items before it rank at most `r`,
/// those behind it rank above `r`.
pub open spec fn rank_place<T: Ranked>(s: Seq<T>, r: int, pos: int) -> bool {
    &&& 0 <= pos <= s.len()
    &&& forall|i: int| 0 <= i < pos ==> (#[trigger] s[i]).rank() <= r
    &&& forall|i: int| pos <= i < s.len() ==> (#[trigger] s[i]).rank() > r
}

pub proof fn lemma_insert_ranked_at<T: Ranked>(s: Seq<T>, x: T, pos: int)
    requires
        rank_place(s, x.rank(), pos),
    ensures
        insert_ranked(s, x) == s.insert(pos, x),
    decreases s.len(),
{
    if s.len() == 0 || s.last().rank() <= x.rank() {
        if s.len() > 0 {
            assert(s[s.len() - 1] == s.last());
        }
        assert(pos == s.len());
        assert(s.insert(pos, x) =~= s.push(x));
    } else {
        if pos == s.len() {
            assert(s[s.len() - 1] == s.last());
        }
        lemma_insert_ranked_at(s.drop_last(), x, pos);
        assert(s.insert(pos, x) =~= s.drop_last().insert(pos, x).push(s.last()));
    }
}

pub proof fn lemma_insert_ranked<T: Ranked>(s: Seq<T>, x: T)
    requires
        ascending(s),
    ensures
        ascending(insert_ranked(s, x)),
        insert_ranked(s, x).len() == s.len() + 1,
        insert_ranked(s, x).to_multiset() == s.to_multiset().insert(x),
        forall|i: int| 0 <= i < insert_ranked(s, x).len() ==> {
            ||| #[trigger] insert_ranked(s, x)[i] == x
            ||| s.contains(insert_ranked(s, x)[i])
        },
    decreases s.len(),
{
    broadcast use vstd::seq_lib::group_to_multiset_ensures;

    if s.len() == 0 || s.last().rank() <= x.rank() {
        assert forall|i: int, j: int| 0 <= i <= j < s.push(x).len() implies (#[trigger] s.push(
            x,
        )[i]).rank() <= (#[trigger] s.push(x)[j]).rank() by {
            if j == s.len() && i < s.len() {
                assert(s[i].rank() <= s[s.len() - 1].rank());
            }
        }
        assert forall|i: int| 0 <= i < s.len() implies s.contains(#[trigger] s.push(x)[i]) by {
            assert(s.push(x)[i] == s[i]);
        }
    } else {
        let p = s.drop_last();
        assert(ascending(p)) by {
            assert forall|i: int, j: int| 0 <= i <= j < p.len() implies (#[trigger] p[i]).rank() <= (
            #[trigger] p[j]).rank() by {
                assert(p[i] == s[i] && p[j] == s[j]);
            }
        }
        lemma_insert_ranked(p, x);
        let q = insert_ranked(p, x);
        let r = q.push(s.last());
        assert forall|i: int, j: int| 0 <= i <= j < r.len() implies (#[trigger] r[i]).rank() <= (
        #[trigger] r[j]).rank() by {
            if j == q.len() && i < q.len() {
                if q[i] != x {
                    let k = choose|k: int| 0 <= k < p.len() && p[k] == q[i];
                    assert(s[k] == p[k]);
                    assert(s[k].rank() <= s[s.len() - 1].rank());
                }
            }
        }
        assert(s =~= p.push(s.last()));
        assert(r.to_multiset() =~= s.to_multiset().insert(x));
        assert forall|i: int| 0 <= i < r.len() implies #[trigger] r[i] == x || s.contains(r[i]) by {
            if i < q.len() {
                if q[i] != x {
                    let k = choose|k: int| 0 <= k < p.len() && p[k] == q[i];
                    assert(s[k] == q[i]);
                }
            } else {
                assert(s[s.len() - 1] == r[i]);
            }
        }
    }
}

/// Sorting keeps the items and brings their ranks into ascending order.
pub proof fn ranked_order_sorts<T: Ranked>(s: Seq<T>)
    ensures
        ascending(ranked_order(s)),
        ranked_order(s).len() == s.len(),
        ranked_order(s).to_multiset() == s.to_multiset(),
    decreases s.len(),
{
    broadcast use vstd::seq_lib::group_to_multiset_ensures;

    if s.len() > 0 {
        ranked_order_sorts(s.drop_last());
        lemma_insert_ranked(ranked_order(s.drop_last()), s.last());
        assert(s =~= s.drop_last().push(s.last()));
    }
}

/// The predicate that holds of the items of rank `r`.
pub open spec fn has_rank<T: Ranked>(r: int) -> spec_fn(T) -> bool {
    |x: T| x.rank() == r
}

/// The items of rank `r`, in order.
pub open spec fn of_rank<T: Ranked>(s: Seq<T>, r: int) -> Seq<T> {
    s.filter(has_rank(r))
}

proof fn lemma_insert_of_rank<T: Ranked>(s: Seq<T>, x: T, r: int)
    requires
        ascending(s),
    ensures
        of_rank(insert_ranked(s, x), r) == if x.rank() == r {
            of_rank(s, r).push(x)
        } else {
            of_rank(s, r)
        },
    decreases s.len(),
{
    let f = has_rank::<T>(r);
    if s.len() == 0 || s.last().rank() <= x.rank() {
        s.lemma_filter_push(x, f);
    } else {
        let p = s.drop_last();
        assert(ascending(p)) by {
            assert forall|i: int, j: int| 0 <= i <= j < p.len() implies (#[trigger] p[i]).rank() <= (
            #[trigger] p[j]).rank() by {
                assert(p[i] == s[i] && p[j] == s[j]);
            }
        }
        lemma_insert_of_rank(p, x, r);
        insert_ranked(p, x).lemma_filter_push(s.last(), f);
        p.lemma_filter_push(s.last(), f);
        assert(s =~= p.push(s.last()));
    }
}

/// Sorting is stable: items of one rank keep their order among themselves.
pub proof fn ranked_order_is_stable<T: Ranked>(s: Seq<T>, r: int)
    ensures
        of_rank(ranked_order(s), r) == of_rank(s, r),
    decreases s.len(),
{
    if s.len() > 0 {
        ranked_order_is_stable(s.drop_last(), r);
        ranked_order_sorts(s.drop_last());
        lemma_insert_of_rank(ranked_order(s.drop_last()), s.last(), r);
        s.drop_last().lemma_filter_push(s.last(), has_rank(r));
        assert(s =~= s.drop_last().push(s.last()));
    }
}

/// The place of a new item of rank `r` in a list of ascending ranks.
pub fn find_place<T: RankedItem>(v: &Vec<T>, upto: usize, r: i64) -> (pos: usize)
    requires
        upto <= v@.len(),
        ascending(v@.take(upto as int)),
    ensures
        rank_place(v@.take(upto as int), r as int, pos as int),
{
    let mut pos: usize = upto;
    while pos > 0 && v[pos - 1].rank_of() > r
        invariant
            pos <= upto <= v@.len(),
            ascending(v@.take(upto as int)),
            forall|i: int| pos <= i < upto ==> (#[trigger] v@.take(upto as int)[i]).rank() > r,
        decreases pos,
    {
        pos = pos - 1;
    }
    proof {
        let s = v@.take(upto as int);
        assert forall|i: int| 0 <= i < pos implies (#[trigger] s[i]).rank() <= r by {
            assert(s[i].rank() <= s[pos - 1].rank());
        }
    }
    pos
}

/// Sorts `v` by ascending rank, keeping the order of items of equal rank.
pub fn stable_sort<T: RankedItem>(v: &mut Vec<T>)
    ensures
        final(v)@ == ranked_order(old(v)@),
{
    let n: usize = v.len();
    let ghost s = v@;
    let mut i: usize = 0;
    while i < n
        invariant
            i <= n,
            n == s.len(),
            v@ == ranked_order(s.take(i as int)) + s.skip(i as int),
        decreases n - i,
    {
        proof {
            ranked_order_sorts(s.take(i as int));
        }
        let ghost done = ranked_order(s.take(i as int));
        let x = v.remove(i);
        proof {
            assert(x == s[i as int]);
            assert(v@ =~= done + s.skip(i + 1));
            assert(v@.take(i as int) =~= done);
        }
        let r: i64 = x.rank_of();
        let pos: usize = find_place(v, i, r);
        proof {
            lemma_insert_ranked_at(done, x, pos as int);
            assert(s.take(i + 1).drop_last() =~= s.take(i as int));
        }
        v.insert(pos, x);
        proof {
            assert(v@ =~= done.insert(pos as int, x) + s.skip(i + 1));
        }
        i = i + 1;
    }
    proof {
        assert(s.take(n as int) =~= s);
        assert(v@ =~= ranked_order(s));
    }
}

/// Sorting values and then viewing them is sorting their views, when a value
/// and its view have the same rank.
pub proof fn lemma_ranked_order_views<T: Ranked + View>(s: Seq<T>) where T::V: Ranked
    requires
        forall|x: T| (#[trigger] x@).rank() == x.rank(),
    ensures
        crate::text::views(ranked_order(s)) == ranked_order(crate::text::views(s)),
    decreases s.len(),
{
    if s.len() > 0 {
        let p = s.drop_last();
        lemma_ranked_order_views(p);
        lemma_insert_ranked_views(ranked_order(p), s.last());
        assert(crate::text::views(s).drop_last() =~= crate::text::views(p));
    } else {
        assert(crate::text::views(s) =~= Seq::empty());
    }
}

pub proof fn lemma_insert_ranked_views<T: Ranked + View>(s: Seq<T>, x: T) where T::V: Ranked
    requires
        forall|x: T| (#[trigger] x@).rank() == x.rank(),
    ensures
        crate::text::views(insert_ranked(s, x)) == insert_ranked(crate::text::views(s), x@),
    decreases s.len(),
{
    let w = crate::text::views(s);
    if s.len() == 0 || s.last().rank() <= x.rank() {
        if s.len() > 0 {
            assert(w.last() == s.last()@);
        }
        assert(crate::text::views(s.push(x)) =~= w.push(x@));
    } else {
        lemma_insert_ranked_views(s.drop_last(), x);
        assert(w.last() == s.last()@);
        assert(w.drop_last() =~= crate::text::views(s.drop_last()));
        assert(crate::text::views(insert_ranked(s.drop_last(), x).push(s.last()))
            =~= crate::text::views(insert_ranked(s.drop_last(), x)).push(s.last()@));
    }
}

} // verus!
