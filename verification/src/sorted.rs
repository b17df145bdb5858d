//! Sorted, duplicate-free entry storage for maps and sets.
//!
//! A `Dict` keeps its entries strictly sorted by key and a `SetOf` keeps
//! its members strictly sorted, both in the total order of `cmp_value`.
//! Insertion keeps the order; inserting an existing member leaves a set
//! unchanged and replaces the value in a map.  The laws at the end say
//! that the result of building a set or map is independent of insertion
//! order: it is a function of the contents alone.

use vstd::prelude::*;
use crate::value::Entry;
use crate::value::SpecValue;
use crate::value::Value;
use crate::value::view_list;
use crate::value::view_entries;
use crate::value::lemma_view_list;
use crate::value::lemma_view_entries;
use crate::order::cmp_value;
use crate::order::value_cmp;
use crate::order::lemma_cmp_value_eq;
use crate::order::lemma_cmp_value_antisym;
use crate::order::lemma_cmp_value_trans;

verus! {

/// Strictly ascending in the total order: each member is below the next.
pub open spec fn sorted_strict(s: Seq<SpecValue>) -> bool {
    forall|i: int| 0 <= i && i + 1 < s.len() ==> cmp_value(#[trigger] s[i], s[i + 1]) == -1
}

/// Entry sequences strictly ascending by key.
pub open spec fn sorted_keys(s: Seq<(SpecValue, SpecValue)>) -> bool {
    forall|i: int| 0 <= i && i + 1 < s.len() ==> cmp_value(#[trigger] s[i].0, s[i + 1].0) == -1
}

/// Membership in a concatenation is membership in either part.
proof fn lemma_contains_concat<A>(a: Seq<A>, b: Seq<A>, w: A)
    ensures
        (a + b).contains(w) <==> a.contains(w) || b.contains(w),
{
    if a.contains(w) {
        let i = choose|i: int| 0 <= i < a.len() && a[i] == w;
        assert((a + b)[i] == w);
    }
    if b.contains(w) {
        let i = choose|i: int| 0 <= i < b.len() && b[i] == w;
        assert((a + b)[a.len() + i] == w);
    }
    if (a + b).contains(w) {
        let i = choose|i: int| 0 <= i < (a + b).len() && (a + b)[i] == w;
        if i < a.len() {
            assert(a[i] == w);
        } else {
            assert(b[i - a.len()] == w);
        }
    }
}

/// Membership in a nonempty sequence is its head or membership in the rest.
proof fn lemma_contains_head_tail<A>(s: Seq<A>, w: A)
    requires
        s.len() > 0,
    ensures
        s.contains(w) <==> (s[0] == w || s.skip(1).contains(w)),
{
    assert(s =~= seq![s[0]] + s.skip(1));
    lemma_contains_concat(seq![s[0]], s.skip(1), w);
}

/// In a strictly sorted sequence, earlier members are below later ones.
pub proof fn lemma_sorted_index(s: Seq<SpecValue>, i: int, j: int)
    requires
        sorted_strict(s),
        0 <= i < j < s.len(),
    ensures
        cmp_value(s[i], s[j]) == -1,
    decreases j - i,
{
    if i + 1 == j {
    } else {
        lemma_sorted_index(s, i, j - 1);
        lemma_cmp_value_trans(s[i], s[j - 1], s[j]);
    }
}

/// In a key-sorted entry sequence, earlier keys are below later ones.
pub proof fn lemma_sorted_keys_index(s: Seq<(SpecValue, SpecValue)>, i: int, j: int)
    requires
        sorted_keys(s),
        0 <= i < j < s.len(),
    ensures
        cmp_value(s[i].0, s[j].0) == -1,
    decreases j - i,
{
    if i + 1 == j {
    } else {
        lemma_sorted_keys_index(s, i, j - 1);
        lemma_cmp_value_trans(s[i].0, s[j - 1].0, s[j].0);
    }
}

/// The member sequence after inserting `v` in order, keeping members
/// unique: an existing member is left as it is.
pub open spec fn spec_set_insert(s: Seq<SpecValue>, v: SpecValue) -> Seq<SpecValue>
    decreases s.len(),
{
    if s.len() == 0 {
        seq![v]
    } else if cmp_value(v, s[0]) == -1 {
        seq![v] + s
    } else if cmp_value(v, s[0]) == 0 {
        s
    } else {
        seq![s[0]] + spec_set_insert(s.skip(1), v)
    }
}

/// The entry sequence after inserting the key `k` with value `v` in key
/// order; an entry under an existing key has its value replaced.
pub open spec fn spec_dict_insert(
    s: Seq<(SpecValue, SpecValue)>,
    k: SpecValue,
    v: SpecValue,
) -> Seq<(SpecValue, SpecValue)>
    decreases s.len(),
{
    if s.len() == 0 {
        seq![(k, v)]
    } else if cmp_value(k, s[0].0) == -1 {
        seq![(k, v)] + s
    } else if cmp_value(k, s[0].0) == 0 {
        seq![(k, v)] + s.skip(1)
    } else {
        seq![s[0]] + spec_dict_insert(s.skip(1), k, v)
    }
}

/// Inserting keeps a set strictly sorted, and afterwards the members
/// are exactly the old members plus `v`.
pub proof fn lemma_set_insert(s: Seq<SpecValue>, v: SpecValue)
    requires
        sorted_strict(s),
    ensures
        sorted_strict(spec_set_insert(s, v)),
        forall|w: SpecValue|
            #[trigger] spec_set_insert(s, v).contains(w) <==> (s.contains(w) || w == v),
    decreases s.len(),
{
    let r = spec_set_insert(s, v);
    if s.len() == 0 {
        assert forall|w: SpecValue| #[trigger] r.contains(w) implies (s.contains(w) || w == v) by {
            assert(r[0] == v);
        }
        assert(r.contains(v)) by {
            assert(r[0] == v);
        }
    } else {
        let c = cmp_value(v, s[0]);
        lemma_cmp_value_eq(v, s[0]);
        lemma_cmp_value_antisym(v, s[0]);
        if c == -1 {
            assert forall|i: int| 0 <= i && i + 1 < r.len() implies cmp_value(
                #[trigger] r[i],
                r[i + 1],
            ) == -1 by {
                if i > 0 {
                    assert(r[i] == s[i - 1]);
                    assert(r[i + 1] == s[i]);
                }
            }
            assert forall|w: SpecValue| #[trigger] r.contains(w) <==> (s.contains(w) || w == v) by {
                lemma_contains_concat(seq![v], s, w);
                if seq![v].contains(w) {
                    assert(w == v);
                }
                if w == v {
                    assert(seq![v][0] == v);
                    assert(seq![v].contains(v));
                }
            }
        } else if c == 0 {
            assert(v == s[0]);
            assert forall|w: SpecValue| #[trigger] r.contains(w) <==> (s.contains(w) || w == v) by {
                if w == v {
                    assert(s[0] == w);
                }
            }
        } else {
            let tail = s.skip(1);
            assert forall|i: int| 0 <= i && i + 1 < tail.len() implies cmp_value(
                #[trigger] tail[i],
                tail[i + 1],
            ) == -1 by {
                assert(tail[i] == s[i + 1]);
                assert(tail[i + 1] == s[i + 2]);
            }
            lemma_set_insert(tail, v);
            let rt = spec_set_insert(tail, v);
            assert(r =~= seq![s[0]] + rt);
            // The head of the inserted tail is either v itself or the old
            // second member; either way it lies above s[0].
            assert(rt.len() > 0);
            assert(cmp_value(s[0], rt[0]) == -1) by {
                if tail.len() == 0 {
                    assert(rt[0] == v);
                } else if cmp_value(v, tail[0]) == -1 {
                    assert(rt[0] == v);
                } else if cmp_value(v, tail[0]) == 0 {
                    assert(rt[0] == tail[0]);
                    assert(tail[0] == s[1]);
                } else {
                    assert(rt[0] == tail[0]);
                    assert(tail[0] == s[1]);
                }
            }
            assert forall|i: int| 0 <= i && i + 1 < r.len() implies cmp_value(
                #[trigger] r[i],
                r[i + 1],
            ) == -1 by {
                if i == 0 {
                    assert(r[0] == s[0] && r[1] == rt[0]);
                } else {
                    assert(r[i] == rt[i - 1]);
                    assert(r[i + 1] == rt[i]);
                }
            }
            assert forall|w: SpecValue| #[trigger] r.contains(w) <==> (s.contains(w) || w == v) by {
                lemma_contains_concat(seq![s[0]], rt, w);
                lemma_contains_head_tail(s, w);
                if w == s[0] {
                    assert(seq![s[0]][0] == w);
                    assert(seq![s[0]].contains(w));
                }
                if seq![s[0]].contains(w) {
                    assert(w == s[0]);
                    assert(s.contains(w)) by {
                        assert(s[0] == w);
                    }
                }
            }
        }
    }
}

/// Inserting keeps a map sorted by key; afterwards the entries are the
/// old entries under other keys, plus the pair `(k, v)`.
pub proof fn lemma_dict_insert(s: Seq<(SpecValue, SpecValue)>, k: SpecValue, v: SpecValue)
    requires
        sorted_keys(s),
    ensures
        sorted_keys(spec_dict_insert(s, k, v)),
        forall|p: (SpecValue, SpecValue)|
            #[trigger] spec_dict_insert(s, k, v).contains(p) <==> ((s.contains(p) && cmp_value(
                p.0,
                k,
            ) != 0) || p == (k, v)),
    decreases s.len(),
{
    let r = spec_dict_insert(s, k, v);
    lemma_cmp_value_eq(k, k);
    if s.len() == 0 {
        assert forall|p: (SpecValue, SpecValue)| #[trigger] r.contains(p) <==> ((s.contains(p)
            && cmp_value(p.0, k) != 0) || p == (k, v)) by {
            if r.contains(p) {
                assert(r[0] == (k, v));
                assert(p == (k, v));
            }
            if p == (k, v) {
                assert(r[0] == p);
            }
        }
    } else {
        let c = cmp_value(k, s[0].0);
        lemma_cmp_value_eq(k, s[0].0);
        lemma_cmp_value_antisym(k, s[0].0);
        if c == -1 {
            assert forall|i: int| 0 <= i && i + 1 < r.len() implies cmp_value(
                #[trigger] r[i].0,
                r[i + 1].0,
            ) == -1 by {
                if i > 0 {
                    assert(r[i] == s[i - 1]);
                    assert(r[i + 1] == s[i]);
                }
            }
            assert forall|p: (SpecValue, SpecValue)| #[trigger] r.contains(p) <==> ((s.contains(p)
                && cmp_value(p.0, k) != 0) || p == (k, v)) by {
                lemma_contains_concat(seq![(k, v)], s, p);
                if seq![(k, v)].contains(p) {
                    assert(p == (k, v));
                }
                if p == (k, v) {
                    assert(seq![(k, v)][0] == p);
                }
                if s.contains(p) {
                    // Every key in s lies above k, so no entry of s has key k.
                    let i = choose|i: int| 0 <= i < s.len() && s[i] == p;
                    if i > 0 {
                        lemma_sorted_keys_index(s, 0, i);
                        lemma_cmp_value_trans(k, s[0].0, s[i].0);
                    }
                    lemma_cmp_value_eq(p.0, k);
                    lemma_cmp_value_antisym(p.0, k);
                }
            }
        } else if c == 0 {
            assert(k == s[0].0);
            assert forall|i: int| 0 <= i && i + 1 < r.len() implies cmp_value(
                #[trigger] r[i].0,
                r[i + 1].0,
            ) == -1 by {
                if i == 0 {
                    assert(r[1] == s[1]);
                } else {
                    assert(r[i] == s[i]);
                    assert(r[i + 1] == s[i + 1]);
                }
            }
            assert forall|p: (SpecValue, SpecValue)| #[trigger] r.contains(p) <==> ((s.contains(p)
                && cmp_value(p.0, k) != 0) || p == (k, v)) by {
                lemma_contains_concat(seq![(k, v)], s.skip(1), p);
                lemma_contains_head_tail(s, p);
                if seq![(k, v)].contains(p) {
                    assert(p == (k, v));
                }
                if p == (k, v) {
                    assert(seq![(k, v)][0] == p);
                }
                lemma_cmp_value_eq(p.0, k);
                lemma_cmp_value_antisym(p.0, k);
                if s.skip(1).contains(p) {
                    let i = choose|i: int| 0 <= i < s.skip(1).len() && s.skip(1)[i] == p;
                    assert(s[i + 1] == p);
                    lemma_sorted_keys_index(s, 0, i + 1);
                }
                if s.contains(p) && cmp_value(p.0, k) != 0 {
                    let i = choose|i: int| 0 <= i < s.len() && s[i] == p;
                    assert(i != 0);
                    assert(s.skip(1)[i - 1] == p);
                }
            }
        } else {
            let tail = s.skip(1);
            assert forall|i: int| 0 <= i && i + 1 < tail.len() implies cmp_value(
                #[trigger] tail[i].0,
                tail[i + 1].0,
            ) == -1 by {
                assert(tail[i] == s[i + 1]);
                assert(tail[i + 1] == s[i + 2]);
            }
            lemma_dict_insert(tail, k, v);
            let rt = spec_dict_insert(tail, k, v);
            assert(r =~= seq![s[0]] + rt);
            assert(rt.len() > 0);
            assert(cmp_value(s[0].0, rt[0].0) == -1) by {
                if tail.len() == 0 {
                    assert(rt[0] == (k, v));
                } else if cmp_value(k, tail[0].0) == -1 {
                    assert(rt[0] == (k, v));
                } else if cmp_value(k, tail[0].0) == 0 {
                    assert(rt[0] == (k, v));
                    assert(cmp_value(s[0].0, tail[0].0) == -1);
                    lemma_cmp_value_eq(k, tail[0].0);
                } else {
                    assert(rt[0] == tail[0]);
                    assert(tail[0] == s[1]);
                }
            }
            assert forall|i: int| 0 <= i && i + 1 < r.len() implies cmp_value(
                #[trigger] r[i].0,
                r[i + 1].0,
            ) == -1 by {
                if i == 0 {
                    assert(r[0] == s[0] && r[1] == rt[0]);
                } else {
                    assert(r[i] == rt[i - 1]);
                    assert(r[i + 1] == rt[i]);
                }
            }
            assert forall|p: (SpecValue, SpecValue)| #[trigger] r.contains(p) <==> ((s.contains(p)
                && cmp_value(p.0, k) != 0) || p == (k, v)) by {
                lemma_contains_concat(seq![s[0]], rt, p);
                lemma_contains_head_tail(s, p);
                lemma_cmp_value_eq(p.0, k);
                lemma_cmp_value_antisym(p.0, k);
                if seq![s[0]].contains(p) {
                    assert(p == s[0]);
                }
                if p == s[0] {
                    assert(seq![s[0]][0] == p);
                }
            }
        }
    }
}

/// The set built by inserting the items of `l` in order, left to right.
pub open spec fn set_from_spec(l: Seq<SpecValue>) -> Seq<SpecValue>
    decreases l.len(),
{
    if l.len() == 0 {
        Seq::empty()
    } else {
        spec_set_insert(set_from_spec(l.drop_last()), l.last())
    }
}

/// The map built by inserting the entries of `l` in order, left to right.
pub open spec fn dict_from_spec(l: Seq<(SpecValue, SpecValue)>) -> Seq<(SpecValue, SpecValue)>
    decreases l.len(),
{
    if l.len() == 0 {
        Seq::empty()
    } else {
        spec_dict_insert(dict_from_spec(l.drop_last()), l.last().0, l.last().1)
    }
}

/// A built set is strictly sorted and holds exactly the items of `l`.
pub proof fn lemma_set_from_spec(l: Seq<SpecValue>)
    ensures
        sorted_strict(set_from_spec(l)),
        forall|w: SpecValue| #[trigger] set_from_spec(l).contains(w) <==> l.contains(w),
    decreases l.len(),
{
    if l.len() > 0 {
        lemma_set_from_spec(l.drop_last());
        lemma_set_insert(set_from_spec(l.drop_last()), l.last());
        assert forall|w: SpecValue| #[trigger] set_from_spec(l).contains(w) <==> l.contains(w) by {
            assert(l =~= l.drop_last() + seq![l.last()]);
            lemma_contains_concat(l.drop_last(), seq![l.last()], w);
            if w == l.last() {
                assert(seq![l.last()][0] == w);
            }
            if seq![l.last()].contains(w) {
                assert(w == l.last());
            }
        }
    }
}

/// No two entries of `l` share a key.
pub open spec fn distinct_keys(l: Seq<(SpecValue, SpecValue)>) -> bool {
    forall|i: int, j: int|
        0 <= i < j < l.len() ==> cmp_value(#[trigger] l[i].0, #[trigger] l[j].0) != 0
}

/// A built map is key-sorted, and when the given entries had pairwise
/// distinct keys it holds exactly those entries.
pub proof fn lemma_dict_from_spec(l: Seq<(SpecValue, SpecValue)>)
    requires
        distinct_keys(l),
    ensures
        sorted_keys(dict_from_spec(l)),
        forall|p: (SpecValue, SpecValue)| #[trigger] dict_from_spec(l).contains(p) <==> l.contains(
            p,
        ),
    decreases l.len(),
{
    if l.len() > 0 {
        let front = l.drop_last();
        assert(distinct_keys(front)) by {
            assert forall|i: int, j: int| 0 <= i < j < front.len() implies cmp_value(
                #[trigger] front[i].0,
                #[trigger] front[j].0,
            ) != 0 by {
                assert(front[i] == l[i]);
                assert(front[j] == l[j]);
            }
        }
        lemma_dict_from_spec(front);
        lemma_dict_insert(dict_from_spec(front), l.last().0, l.last().1);
        assert forall|p: (SpecValue, SpecValue)| #[trigger] dict_from_spec(l).contains(p)
            <==> l.contains(p) by {
            assert(l =~= front + seq![l.last()]);
            lemma_contains_concat(front, seq![l.last()], p);
            lemma_cmp_value_eq(p.0, l.last().0);
            if p == l.last() {
                assert(seq![l.last()][0] == p);
            }
            if seq![l.last()].contains(p) {
                assert(p == l.last());
            }
            if front.contains(p) {
                // A front entry's key differs from the last key.
                let i = choose|i: int| 0 <= i < front.len() && front[i] == p;
                assert(l[i] == p);
                assert(l[l.len() - 1] == l.last());
                assert(cmp_value(l[i].0, l[l.len() - 1].0) != 0);
            }
            if dict_from_spec(l).contains(p) && cmp_value(p.0, l.last().0) != 0 {
                assert(dict_from_spec(front).contains(p));
            }
        }
    }
}

/// Two strictly sorted sequences with the same members are equal.
pub proof fn lemma_sorted_unique(s1: Seq<SpecValue>, s2: Seq<SpecValue>)
    requires
        sorted_strict(s1),
        sorted_strict(s2),
        forall|w: SpecValue| s1.contains(w) <==> s2.contains(w),
    ensures
        s1 == s2,
    decreases s1.len(),
{
    if s1.len() == 0 {
        if s2.len() > 0 {
            assert(s2.contains(s2[0]));
        }
        assert(s1 =~= s2);
    } else {
        assert(s1.contains(s1[0]));
        assert(s2.contains(s1[0]));
        assert(s2.len() > 0);
        assert(s2.contains(s2[0]));
        assert(s1.contains(s2[0]));
        let j = choose|j: int| 0 <= j < s2.len() && s2[j] == s1[0];
        let k = choose|k: int| 0 <= k < s1.len() && s1[k] == s2[0];
        assert(s1[0] == s2[0]) by {
            if j > 0 && k > 0 {
                lemma_sorted_index(s2, 0, j);
                lemma_sorted_index(s1, 0, k);
                lemma_cmp_value_antisym(s1[0], s2[0]);
            }
        }
        let t1 = s1.skip(1);
        let t2 = s2.skip(1);
        assert(sorted_strict(t1)) by {
            assert forall|i: int| 0 <= i && i + 1 < t1.len() implies cmp_value(
                #[trigger] t1[i],
                t1[i + 1],
            ) == -1 by {
                assert(t1[i] == s1[i + 1]);
                assert(t1[i + 1] == s1[i + 2]);
            }
        }
        assert(sorted_strict(t2)) by {
            assert forall|i: int| 0 <= i && i + 1 < t2.len() implies cmp_value(
                #[trigger] t2[i],
                t2[i + 1],
            ) == -1 by {
                assert(t2[i] == s2[i + 1]);
                assert(t2[i + 1] == s2[i + 2]);
            }
        }
        assert forall|w: SpecValue| t1.contains(w) <==> t2.contains(w) by {
            lemma_tail_member(s1, s2, w);
            lemma_tail_member(s2, s1, w);
        }
        lemma_sorted_unique(t1, t2);
        assert(s1 =~= seq![s1[0]] + t1);
        assert(s2 =~= seq![s2[0]] + t2);
    }
}

/// In strictly sorted sequences with equal heads and the same members,
/// a member of one tail is a member of the other tail.
proof fn lemma_tail_member(s1: Seq<SpecValue>, s2: Seq<SpecValue>, w: SpecValue)
    requires
        sorted_strict(s1),
        sorted_strict(s2),
        s1.len() > 0 && s2.len() > 0,
        s1[0] == s2[0],
        forall|u: SpecValue| s1.contains(u) <==> s2.contains(u),
    ensures
        s1.skip(1).contains(w) ==> s2.skip(1).contains(w),
{
    if s1.skip(1).contains(w) {
        let i = choose|i: int| 0 <= i < s1.skip(1).len() && s1.skip(1)[i] == w;
        assert(s1[i + 1] == w);
        lemma_sorted_index(s1, 0, i + 1);
        assert(s1.contains(w));
        assert(s2.contains(w));
        let j = choose|j: int| 0 <= j < s2.len() && s2[j] == w;
        assert(j != 0) by {
            lemma_cmp_value_eq(s1[0], w);
        }
        assert(s2.skip(1)[j - 1] == w);
    }
}

/// Two key-sorted entry sequences with the same entries are equal.
pub proof fn lemma_sorted_keys_unique(
    s1: Seq<(SpecValue, SpecValue)>,
    s2: Seq<(SpecValue, SpecValue)>,
)
    requires
        sorted_keys(s1),
        sorted_keys(s2),
        forall|p: (SpecValue, SpecValue)| s1.contains(p) <==> s2.contains(p),
    ensures
        s1 == s2,
    decreases s1.len(),
{
    if s1.len() == 0 {
        if s2.len() > 0 {
            assert(s2.contains(s2[0]));
        }
        assert(s1 =~= s2);
    } else {
        assert(s1.contains(s1[0]));
        assert(s2.contains(s1[0]));
        assert(s2.len() > 0);
        assert(s2.contains(s2[0]));
        assert(s1.contains(s2[0]));
        let j = choose|j: int| 0 <= j < s2.len() && s2[j] == s1[0];
        let k = choose|k: int| 0 <= k < s1.len() && s1[k] == s2[0];
        assert(s1[0] == s2[0]) by {
            if j > 0 && k > 0 {
                lemma_sorted_keys_index(s2, 0, j);
                lemma_sorted_keys_index(s1, 0, k);
                lemma_cmp_value_antisym(s1[0].0, s2[0].0);
            }
        }
        let t1 = s1.skip(1);
        let t2 = s2.skip(1);
        assert(sorted_keys(t1)) by {
            assert forall|i: int| 0 <= i && i + 1 < t1.len() implies cmp_value(
                #[trigger] t1[i].0,
                t1[i + 1].0,
            ) == -1 by {
                assert(t1[i] == s1[i + 1]);
                assert(t1[i + 1] == s1[i + 2]);
            }
        }
        assert(sorted_keys(t2)) by {
            assert forall|i: int| 0 <= i && i + 1 < t2.len() implies cmp_value(
                #[trigger] t2[i].0,
                t2[i + 1].0,
            ) == -1 by {
                assert(t2[i] == s2[i + 1]);
                assert(t2[i + 1] == s2[i + 2]);
            }
        }
        assert forall|p: (SpecValue, SpecValue)| t1.contains(p) <==> t2.contains(p) by {
            lemma_tail_entry(s1, s2, p);
            lemma_tail_entry(s2, s1, p);
        }
        lemma_sorted_keys_unique(t1, t2);
        assert(s1 =~= seq![s1[0]] + t1);
        assert(s2 =~= seq![s2[0]] + t2);
    }
}

/// The entry counterpart of `lemma_tail_member`.
proof fn lemma_tail_entry(
    s1: Seq<(SpecValue, SpecValue)>,
    s2: Seq<(SpecValue, SpecValue)>,
    p: (SpecValue, SpecValue),
)
    requires
        sorted_keys(s1),
        sorted_keys(s2),
        s1.len() > 0 && s2.len() > 0,
        s1[0] == s2[0],
        forall|q: (SpecValue, SpecValue)| s1.contains(q) <==> s2.contains(q),
    ensures
        s1.skip(1).contains(p) ==> s2.skip(1).contains(p),
{
    if s1.skip(1).contains(p) {
        let i = choose|i: int| 0 <= i < s1.skip(1).len() && s1.skip(1)[i] == p;
        assert(s1[i + 1] == p);
        lemma_sorted_keys_index(s1, 0, i + 1);
        assert(s1.contains(p));
        assert(s2.contains(p));
        let j = choose|j: int| 0 <= j < s2.len() && s2[j] == p;
        assert(j != 0) by {
            lemma_cmp_value_eq(s1[0].0, p.0);
        }
        assert(s2.skip(1)[j - 1] == p);
    }
}

/// Building a set is independent of insertion order: lists with the
/// same members build the same set.
pub proof fn lemma_set_from_deterministic(l1: Seq<SpecValue>, l2: Seq<SpecValue>)
    requires
        forall|w: SpecValue| l1.contains(w) <==> l2.contains(w),
    ensures
        set_from_spec(l1) == set_from_spec(l2),
{
    lemma_set_from_spec(l1);
    lemma_set_from_spec(l2);
    lemma_sorted_unique(set_from_spec(l1), set_from_spec(l2));
}

/// Building a map is independent of insertion order: entry lists with
/// pairwise distinct keys and the same entries build the same map.
pub proof fn lemma_dict_from_deterministic(
    l1: Seq<(SpecValue, SpecValue)>,
    l2: Seq<(SpecValue, SpecValue)>,
)
    requires
        distinct_keys(l1),
        distinct_keys(l2),
        forall|p: (SpecValue, SpecValue)| l1.contains(p) <==> l2.contains(p),
    ensures
        dict_from_spec(l1) == dict_from_spec(l2),
{
    lemma_dict_from_spec(l1);
    lemma_dict_from_spec(l2);
    lemma_sorted_keys_unique(dict_from_spec(l1), dict_from_spec(l2));
}

/// Finds the insertion point of `v`: the index of the first member
/// not below `v`, and whether that member equals `v`.
fn set_find(list: &Vec<Value>, v: &Value) -> (r: (usize, bool))
    ensures
        r.0 <= list@.len(),
        forall|k: int| 0 <= k < r.0 ==> cmp_value(v@, #[trigger] view_list(list@)[k]) == 1,
        r.1 ==> r.0 < list@.len() && cmp_value(v@, view_list(list@)[r.0 as int]) == 0,
        !r.1 && r.0 < list@.len() ==> cmp_value(v@, view_list(list@)[r.0 as int]) == -1,
{
    proof {
        lemma_view_list(list@);
    }
    let ghost s = view_list(list@);
    let mut i: usize = 0;
    while i < list.len()
        invariant
            i <= list@.len(),
            s == view_list(list@),
            forall|k: int| 0 <= k < i ==> cmp_value(v@, #[trigger] s[k]) == 1,
        decreases list@.len() - i,
    {
        proof {
            lemma_view_list(list@);
        }
        let c = value_cmp(v, &list[i]);
        proof {
            lemma_cmp_value_eq(v@, s[i as int]);
        }
        if c < 0 {
            return (i, false);
        }
        if c == 0 {
            return (i, true);
        }
        i = i + 1;
    }
    (i, false)
}

/// Inserts `v` into the sorted member vector of a set.
pub fn set_insert(list: &mut Vec<Value>, v: Value)
    ensures
        view_list(final(list)@) == spec_set_insert(view_list(old(list)@), v@),
{
    proof {
        lemma_view_list(list@);
    }
    let ghost s = view_list(list@);
    let (i, found) = set_find(list, &v);
    if found {
        proof {
            lemma_insert_found(s, v@, i as int);
        }
        return;
    }
    proof {
        lemma_insert_position(s, v@, i as int);
        lemma_view_list_insert(list@, i as int, v);
    }
    list.insert(i, v);
}

/// When the scan stops on an equal member, the set is unchanged.
proof fn lemma_insert_found(s: Seq<SpecValue>, v: SpecValue, i: int)
    requires
        0 <= i < s.len(),
        forall|k: int| 0 <= k < i ==> cmp_value(v, #[trigger] s[k]) == 1,
        cmp_value(v, s[i]) == 0,
    ensures
        spec_set_insert(s, v) == s,
    decreases i,
{
    if i == 0 {
    } else {
        assert forall|k: int| 0 <= k < i - 1 implies cmp_value(v, #[trigger] s.skip(1)[k])
            == 1 by {
            assert(s.skip(1)[k] == s[k + 1]);
        }
        assert(s.skip(1)[i - 1] == s[i]);
        lemma_insert_found(s.skip(1), v, i - 1);
        assert(spec_set_insert(s, v) == seq![s[0]] + spec_set_insert(s.skip(1), v));
        assert(spec_set_insert(s, v) =~= s);
    }
}

/// When the scan stops at `i` because `v` lies below that member (or the
/// end was reached), the insertion result places `v` at position `i`.
proof fn lemma_insert_position(s: Seq<SpecValue>, v: SpecValue, i: int)
    requires
        0 <= i <= s.len(),
        forall|k: int| 0 <= k < i ==> cmp_value(v, #[trigger] s[k]) == 1,
        i < s.len() ==> cmp_value(v, s[i]) == -1,
    ensures
        spec_set_insert(s, v) == s.take(i).push(v) + s.skip(i),
    decreases i,
{
    if s.len() == 0 {
        assert(spec_set_insert(s, v) =~= s.take(0).push(v) + s.skip(0));
    } else if i == 0 {
        assert(spec_set_insert(s, v) =~= s.take(0).push(v) + s.skip(0));
    } else {
        assert forall|k: int| 0 <= k < i - 1 implies cmp_value(v, #[trigger] s.skip(1)[k])
            == 1 by {
            assert(s.skip(1)[k] == s[k + 1]);
        }
        if i < s.len() {
            assert(s.skip(1)[i - 1] == s[i]);
        }
        lemma_insert_position(s.skip(1), v, i - 1);
        assert(spec_set_insert(s, v) == seq![s[0]] + spec_set_insert(s.skip(1), v));
        assert(s.skip(1).take(i - 1) =~= s.take(i).skip(1));
        assert(spec_set_insert(s, v) =~= s.take(i).push(v) + s.skip(i));
    }
}

/// `view_list` distributes over concatenation.
proof fn lemma_view_list_concat(a: Seq<Value>, b: Seq<Value>)
    ensures
        view_list(a + b) == view_list(a) + view_list(b),
{
    lemma_view_list(a);
    lemma_view_list(b);
    lemma_view_list(a + b);
    assert forall|j: int| 0 <= j < (a + b).len() implies view_list(a + b)[j] == (view_list(a)
        + view_list(b))[j] by {
        if j < a.len() {
            assert((a + b)[j] == a[j]);
        } else {
            assert((a + b)[j] == b[j - a.len()]);
        }
    }
    assert(view_list(a + b) =~= view_list(a) + view_list(b));
}

/// The view of a vector after `Vec::insert` is the spec-level insertion.
proof fn lemma_view_list_insert(l: Seq<Value>, i: int, v: Value)
    requires
        0 <= i <= l.len(),
    ensures
        view_list(l.insert(i, v)) == view_list(l).take(i).push(v@) + view_list(l).skip(i),
{
    lemma_view_list(l);
    assert(l.insert(i, v) =~= l.take(i) + seq![v] + l.skip(i));
    lemma_view_list_concat(l.take(i) + seq![v], l.skip(i));
    lemma_view_list_concat(l.take(i), seq![v]);
    lemma_view_list(l.take(i));
    lemma_view_list(seq![v]);
    lemma_view_list(l.skip(i));
    assert(view_list(seq![v]) =~= seq![v@]) by {
        assert(view_list(seq![v])[0] == seq![v][0]@);
    }
    assert(view_list(l.take(i)) =~= view_list(l).take(i));
    assert(view_list(l.skip(i)) =~= view_list(l).skip(i));
    assert(view_list(l).take(i).push(v@) =~= view_list(l).take(i) + seq![v@]);
}

/// Finds the insertion point of key `k`: the index of the first entry
/// whose key is not below `k`, and whether that key equals `k`.
fn dict_find(list: &Vec<Entry>, k: &Value) -> (r: (usize, bool))
    ensures
        r.0 <= list@.len(),
        forall|j: int| 0 <= j < r.0 ==> cmp_value(k@, #[trigger] view_entries(list@)[j].0) == 1,
        r.1 ==> r.0 < list@.len() && cmp_value(k@, view_entries(list@)[r.0 as int].0) == 0,
        !r.1 && r.0 < list@.len() ==> cmp_value(k@, view_entries(list@)[r.0 as int].0) == -1,
{
    proof {
        lemma_view_entries(list@);
    }
    let ghost s = view_entries(list@);
    let mut i: usize = 0;
    while i < list.len()
        invariant
            i <= list@.len(),
            s == view_entries(list@),
            forall|j: int| 0 <= j < i ==> cmp_value(k@, #[trigger] s[j].0) == 1,
        decreases list@.len() - i,
    {
        proof {
            lemma_view_entries(list@);
            assert(view_entries(list@)[i as int] == list@[i as int]@);
            assert(list@[i as int]@ == (list@[i as int].key@, list@[i as int].val@));
        }
        let c = value_cmp(k, &list[i].key);
        proof {
            lemma_cmp_value_eq(k@, s[i as int].0);
        }
        if c < 0 {
            return (i, false);
        }
        if c == 0 {
            return (i, true);
        }
        i = i + 1;
    }
    (i, false)
}

/// Inserts the entry `k -> v` into the key-sorted entry vector of a map.
pub fn dict_insert(list: &mut Vec<Entry>, k: Value, v: Value)
    ensures
        view_entries(final(list)@) == spec_dict_insert(view_entries(old(list)@), k@, v@),
{
    proof {
        lemma_view_entries(list@);
    }
    let ghost s = view_entries(list@);
    let (i, found) = dict_find(list, &k);
    let ghost kk = k@;
    let ghost vv = v@;
    let e = Entry { key: k, val: v };
    proof {
        assert(e@ == (kk, vv));
    }
    if found {
        proof {
            lemma_dict_replace(s, kk, vv, i as int);
            lemma_view_entries_update(list@, i as int, kk, vv, e);
        }
        list.set(i, e);
        return;
    }
    proof {
        lemma_dict_position(s, kk, vv, i as int);
        lemma_view_entries_insert(list@, i as int, e);
    }
    list.insert(i, e);
}

/// When the scan stops on an equal key, insertion replaces that entry.
proof fn lemma_dict_replace(s: Seq<(SpecValue, SpecValue)>, k: SpecValue, v: SpecValue, i: int)
    requires
        0 <= i < s.len(),
        forall|j: int| 0 <= j < i ==> cmp_value(k, #[trigger] s[j].0) == 1,
        cmp_value(k, s[i].0) == 0,
    ensures
        spec_dict_insert(s, k, v) == s.update(i, (k, v)),
    decreases i,
{
    if i == 0 {
        assert(spec_dict_insert(s, k, v) =~= s.update(0, (k, v)));
    } else {
        assert forall|j: int| 0 <= j < i - 1 implies cmp_value(k, #[trigger] s.skip(1)[j].0)
            == 1 by {
            assert(s.skip(1)[j] == s[j + 1]);
        }
        assert(s.skip(1)[i - 1] == s[i]);
        lemma_dict_replace(s.skip(1), k, v, i - 1);
        assert(spec_dict_insert(s, k, v) == seq![s[0]] + spec_dict_insert(s.skip(1), k, v));
        assert(s.skip(1).update(i - 1, (k, v)) =~= s.update(i, (k, v)).skip(1));
        assert(spec_dict_insert(s, k, v) =~= s.update(i, (k, v)));
    }
}

/// See `lemma_insert_position`, for entries.
proof fn lemma_dict_position(s: Seq<(SpecValue, SpecValue)>, k: SpecValue, v: SpecValue, i: int)
    requires
        0 <= i <= s.len(),
        forall|j: int| 0 <= j < i ==> cmp_value(k, #[trigger] s[j].0) == 1,
        i < s.len() ==> cmp_value(k, s[i].0) == -1,
    ensures
        spec_dict_insert(s, k, v) == s.take(i).push((k, v)) + s.skip(i),
    decreases i,
{
    if s.len() == 0 {
        assert(spec_dict_insert(s, k, v) =~= s.take(0).push((k, v)) + s.skip(0));
    } else if i == 0 {
        assert(spec_dict_insert(s, k, v) =~= s.take(0).push((k, v)) + s.skip(0));
    } else {
        assert forall|j: int| 0 <= j < i - 1 implies cmp_value(k, #[trigger] s.skip(1)[j].0)
            == 1 by {
            assert(s.skip(1)[j] == s[j + 1]);
        }
        if i < s.len() {
            assert(s.skip(1)[i - 1] == s[i]);
        }
        lemma_dict_position(s.skip(1), k, v, i - 1);
        assert(spec_dict_insert(s, k, v) == seq![s[0]] + spec_dict_insert(s.skip(1), k, v));
        assert(s.skip(1).take(i - 1) =~= s.take(i).skip(1));
        assert(spec_dict_insert(s, k, v) =~= s.take(i).push((k, v)) + s.skip(i));
    }
}

/// `view_entries` distributes over concatenation.
proof fn lemma_view_entries_concat(a: Seq<Entry>, b: Seq<Entry>)
    ensures
        view_entries(a + b) == view_entries(a) + view_entries(b),
{
    lemma_view_entries(a);
    lemma_view_entries(b);
    lemma_view_entries(a + b);
    assert forall|j: int| 0 <= j < (a + b).len() implies view_entries(a + b)[j] == (view_entries(a)
        + view_entries(b))[j] by {
        if j < a.len() {
            assert((a + b)[j] == a[j]);
        } else {
            assert((a + b)[j] == b[j - a.len()]);
        }
    }
    assert(view_entries(a + b) =~= view_entries(a) + view_entries(b));
}

/// The entry view of a vector after `Vec::insert`.
proof fn lemma_view_entries_insert(l: Seq<Entry>, i: int, e: Entry)
    requires
        0 <= i <= l.len(),
    ensures
        view_entries(l.insert(i, e)) == view_entries(l).take(i).push(e@) + view_entries(l).skip(i),
{
    lemma_view_entries(l);
    assert(l.insert(i, e) =~= l.take(i) + seq![e] + l.skip(i));
    lemma_view_entries_concat(l.take(i) + seq![e], l.skip(i));
    lemma_view_entries_concat(l.take(i), seq![e]);
    lemma_view_entries(l.take(i));
    lemma_view_entries(seq![e]);
    lemma_view_entries(l.skip(i));
    assert(view_entries(seq![e]) =~= seq![e@]) by {
        assert(view_entries(seq![e])[0] == seq![e][0]@);
    }
    assert(view_entries(l.take(i)) =~= view_entries(l).take(i));
    assert(view_entries(l.skip(i)) =~= view_entries(l).skip(i));
    assert(view_entries(l).take(i).push(e@) =~= view_entries(l).take(i) + seq![e@]);
}

/// The entry view of a vector after `Vec::set`.
proof fn lemma_view_entries_update(l: Seq<Entry>, i: int, k: SpecValue, v: SpecValue, e: Entry)
    requires
        0 <= i < l.len(),
        e@ == (k, v),
    ensures
        view_entries(l.update(i, e)) == view_entries(l).update(i, (k, v)),
{
    lemma_view_entries(l);
    lemma_view_entries(l.update(i, e));
    let lu = l.update(i, e);
    assert forall|j: int| 0 <= j < lu.len() implies view_entries(lu)[j] == view_entries(l).update(
        i,
        (k, v),
    )[j] by {
        if j != i {
            assert(lu[j] == l[j]);
        } else {
            assert(lu[j] == e);
        }
    }
    assert(view_entries(l.update(i, e)) =~= view_entries(l).update(i, (k, v)));
}

} // verus!
