//! Searching and thinning out sequences.

use vstd::prelude::*;

verus! {

/// The first place at or behind `i` whose item satisfies `f`, or the length.
pub open spec fn first_from<T>(s: Seq<T>, f: spec_fn(T) -> bool, i: int) -> int
    decreases s.len() - i,
{
    if i >= s.len() {
        s.len() as int
    } else if f(s[i]) {
        i
    } else {
        first_from(s, f, i + 1)
    }
}

/// The first place whose item satisfies `f`, or the length when there is none.
pub open spec fn first_place<T>(s: Seq<T>, f: spec_fn(T) -> bool) -> int {
    first_from(s, f, 0)
}

pub proof fn lemma_first_from<T>(s: Seq<T>, f: spec_fn(T) -> bool, i: int)
    requires
        0 <= i <= s.len(),
    ensures
        i <= first_from(s, f, i) <= s.len(),
        first_from(s, f, i) < s.len() ==> f(s[first_from(s, f, i)]),
        forall|j: int| i <= j < first_from(s, f, i) ==> !f(#[trigger] s[j]),
    decreases s.len() - i,
{
    if i < s.len() && !f(s[i]) {
        lemma_first_from(s, f, i + 1);
    }
}

/// The items of `s` without those that occurred before.
pub open spec fn distinct<T>(s: Seq<T>) -> Seq<T>
    decreases s.len(),
{
    if s.len() == 0 {
        s
    } else {
        let p = distinct(s.drop_last());
        if p.contains(s.last()) {
            p
        } else {
            p.push(s.last())
        }
    }
}

/// Thinning out leaves each item once, drops none altogether, and adds none.
pub proof fn distinct_keeps_each_once<T>(s: Seq<T>)
    ensures
        distinct(s).no_duplicates(),
        forall|x: T| #[trigger] distinct(s).contains(x) <==> s.contains(x),
    decreases s.len(),
{
    if s.len() > 0 {
        let r = s.drop_last();
        distinct_keeps_each_once(r);
        let p = distinct(r);
        assert forall|x: T| #[trigger] distinct(s).contains(x) <==> s.contains(x) by {
            if s.contains(x) {
                let i = choose|i: int| 0 <= i < s.len() && s[i] == x;
                if i < r.len() {
                    assert(r[i] == x);
                    assert(p.contains(x));
                    let j = choose|j: int| 0 <= j < p.len() && p[j] == x;
                    assert(distinct(s)[j] == x);
                } else if !p.contains(x) {
                    assert(distinct(s)[p.len() as int] == x);
                } else {
                    let j = choose|j: int| 0 <= j < p.len() && p[j] == x;
                    assert(distinct(s)[j] == x);
                }
            }
            if distinct(s).contains(x) {
                let j = choose|j: int| 0 <= j < distinct(s).len() && distinct(s)[j] == x;
                if j < p.len() {
                    assert(p[j] == x);
                    assert(p.contains(x));
                    assert(r.contains(x));
                    let i = choose|i: int| 0 <= i < r.len() && r[i] == x;
                    assert(s[i] == x);
                } else {
                    assert(s[s.len() - 1] == x);
                }
            }
        }
    }
}

} // verus!
