//! Move ordering: a stable sort of scored moves from best to worst, and bringing a
//! preferred move to the front.
use vstd::prelude::*;
use vstd::multiset::Multiset;

verus! {

/// `x` inserted into `s` after every element whose score is at least `x`'s.
pub open spec fn sorted_insert(s: Seq<(i64, u16)>, x: (i64, u16)) -> Seq<(i64, u16)>
    decreases s.len(),
{
    if s.len() == 0 {
        seq![x]
    } else if s[0].0 >= x.0 {
        seq![s[0]] + sorted_insert(s.drop_first(), x)
    } else {
        seq![x] + s
    }
}

/// `s` sorted by decreasing score, elements with equal scores keeping their order.
pub open spec fn sorted_by_score(s: Seq<(i64, u16)>) -> Seq<(i64, u16)>
    decreases s.len(),
{
    if s.len() == 0 {
        Seq::empty()
    } else {
        sorted_insert(sorted_by_score(s.drop_last()), s.last())
    }
}

/// Scores never increase along `s`.
pub open spec fn scores_descending(s: Seq<(i64, u16)>) -> bool {
    forall|a: int, b: int| 0 <= a < b < s.len() ==> #[trigger] s[a].0 >= #[trigger] s[b].0
}

/// Inserting at the first position whose score is below the new one.
proof fn lemma_sorted_insert_at(s: Seq<(i64, u16)>, x: (i64, u16), p: int)
    requires
        0 <= p <= s.len(),
        forall|a: int| 0 <= a < p ==> #[trigger] s[a].0 >= x.0,
        p < s.len() ==> s[p].0 < x.0,
    ensures
        sorted_insert(s, x) == s.insert(p, x),
    decreases s.len(),
{
    if s.len() == 0 {
        assert(s.insert(p, x) =~= seq![x]);
    } else if p == 0 {
        assert(s.insert(p, x) =~= seq![x] + s);
    } else {
        let t = s.drop_first();
        assert forall|a: int| 0 <= a < p - 1 implies #[trigger] t[a].0 >= x.0 by {
            assert(t[a] == s[a + 1]);
        }
        lemma_sorted_insert_at(t, x, p - 1);
        assert(s.insert(p, x) =~= seq![s[0]] + t.insert(p - 1, x));
    }
}

/// The front of the sorted list is the first element of `s` with the highest score.
pub proof fn lemma_sorted_first(s: Seq<(i64, u16)>)
    requires
        s.len() > 0,
    ensures
        exists|j: int|
            0 <= j < s.len() && sorted_by_score(s)[0] == s[j] && (forall|a: int| 0 <= a < s.len() ==> #[trigger] s[a].0 <= s[j].0)
                && (forall|a: int| 0 <= a < j ==> #[trigger] s[a].0 < s[j].0),
    decreases s.len(),
{
    let init = s.drop_last();
    let x = s.last();
    if init.len() == 0 {
        assert(sorted_by_score(init) =~= Seq::<(i64, u16)>::empty());
        assert(sorted_by_score(s)[0] == s[0]);
    } else {
        lemma_sorted_first(init);
        let j0 = choose|j: int|
            0 <= j < init.len() && sorted_by_score(init)[0] == init[j] && (forall|a: int| 0 <= a < init.len() ==> #[trigger] init[a].0 <= init[j].0)
                && (forall|a: int| 0 <= a < j ==> #[trigger] init[a].0 < init[j].0);
        let t = sorted_by_score(init);
        lemma_sorted_by_score(init);
        assert(t.len() > 0);
        if t[0].0 >= x.0 {
            assert(sorted_by_score(s)[0] == t[0]);
            assert(s[j0] == init[j0]);
            assert forall|a: int| 0 <= a < s.len() implies #[trigger] s[a].0 <= s[j0].0 by {
                if a < init.len() {
                    assert(s[a] == init[a]);
                }
            }
            assert forall|a: int| 0 <= a < j0 implies #[trigger] s[a].0 < s[j0].0 by {
                assert(s[a] == init[a]);
            }
        } else {
            assert(sorted_by_score(s)[0] == x);
            let j = s.len() - 1;
            assert forall|a: int| 0 <= a < s.len() implies #[trigger] s[a].0 <= s[j].0 by {
                if a < init.len() {
                    assert(s[a] == init[a]);
                    assert(init[a].0 <= init[j0].0);
                }
            }
            assert forall|a: int| 0 <= a < j implies #[trigger] s[a].0 < s[j].0 by {
                assert(s[a] == init[a]);
                assert(init[a].0 <= init[j0].0);
            }
        }
    }
}

/// Sorting keeps the elements, their number, and orders them by decreasing score.
pub proof fn lemma_sorted_by_score(s: Seq<(i64, u16)>)
    ensures
        sorted_by_score(s).len() == s.len(),
        sorted_by_score(s).to_multiset() == s.to_multiset(),
        scores_descending(sorted_by_score(s)),
    decreases s.len(),
{
    broadcast use vstd::seq_lib::group_to_multiset_ensures;
    if s.len() > 0 {
        lemma_sorted_by_score(s.drop_last());
        lemma_sorted_insert(sorted_by_score(s.drop_last()), s.last());
        assert(s =~= s.drop_last().push(s.last()));
        assert(s.drop_last().push(s.last()).to_multiset() == s.drop_last().to_multiset().insert(s.last()));
    }
}

/// Inserting into a sorted sequence keeps it sorted and adds exactly the new element.
proof fn lemma_sorted_insert(s: Seq<(i64, u16)>, x: (i64, u16))
    requires
        scores_descending(s),
    ensures
        sorted_insert(s, x).len() == s.len() + 1,
        sorted_insert(s, x).to_multiset() == s.to_multiset().insert(x),
        scores_descending(sorted_insert(s, x)),
    decreases s.len(),
{
    broadcast use vstd::seq_lib::group_to_multiset_ensures;
    if s.len() == 0 {
        assert(seq![x] =~= Seq::<(i64, u16)>::empty().push(x));
    } else if s[0].0 >= x.0 {
        let t = s.drop_first();
        assert(scores_descending(t)) by {
            assert forall|a: int, b: int| 0 <= a < b < t.len() implies #[trigger] t[a].0 >= #[trigger] t[b].0 by {
                assert(t[a] == s[a + 1]);
                assert(t[b] == s[b + 1]);
            }
        }
        lemma_sorted_insert(t, x);
        let r = sorted_insert(t, x);
        assert(s =~= seq![s[0]] + t);
        vstd::seq_lib::lemma_multiset_commutative(seq![s[0]], t);
        vstd::seq_lib::lemma_multiset_commutative(seq![s[0]], r);
        assert(seq![s[0]].to_multiset() =~= Multiset::empty().insert(s[0])) by {
            assert(seq![s[0]] =~= Seq::<(i64, u16)>::empty().push(s[0]));
        }
        let whole = seq![s[0]] + r;
        assert forall|a: int, b: int| 0 <= a < b < whole.len() implies #[trigger] whole[a].0 >= #[trigger] whole[b].0 by {
            if a == 0 {
                let e = whole[b];
                assert(r.to_multiset().contains(e)) by {
                    assert(r[b - 1] == e);
                    assert(r.contains(e));
                }
                assert(t.to_multiset().insert(x).contains(e));
                if e != x {
                    assert(t.to_multiset().contains(e));
                    assert(t.contains(e));
                    let c = choose|c: int| 0 <= c < t.len() && t[c] == e;
                    assert(s[c + 1] == e);
                }
            } else {
                assert(whole[a] == r[a - 1]);
                assert(whole[b] == r[b - 1]);
            }
        }
    } else {
        assert(seq![x] + s =~= s.insert(0, x));
        vstd::seq_lib::lemma_multiset_commutative(seq![x], s);
        assert(seq![x].to_multiset() =~= Multiset::empty().insert(x)) by {
            assert(seq![x] =~= Seq::<(i64, u16)>::empty().push(x));
        }
        let whole = seq![x] + s;
        assert forall|a: int, b: int| 0 <= a < b < whole.len() implies #[trigger] whole[a].0 >= #[trigger] whole[b].0 by {
            if a == 0 {
                assert(whole[b] == s[b - 1]);
                assert(s[0].0 >= s[b - 1].0 || b - 1 == 0);
            } else {
                assert(whole[a] == s[a - 1]);
                assert(whole[b] == s[b - 1]);
            }
        }
    }
}

/// Sorts scored moves from the highest score to the lowest; moves with equal scores
/// keep their order (a stable sort).
pub fn sort_by_score_desc(v: &Vec<(i64, u16)>) -> (r: Vec<(i64, u16)>)
    ensures
        r@ == sorted_by_score(v@),
{
    let mut r: Vec<(i64, u16)> = Vec::with_capacity(v.len());
    let mut i: usize = 0;
    while i < v.len()
        invariant
            i <= v@.len(),
            r@ == sorted_by_score(v@.take(i as int)),
        decreases v@.len() - i,
    {
        let x = v[i];
        let mut p: usize = 0;
        while p < r.len() && r[p].0 >= x.0
            invariant
                p <= r@.len(),
                forall|a: int| 0 <= a < p ==> #[trigger] r@[a].0 >= x.0,
            decreases r@.len() - p,
        {
            p = p + 1;
        }
        proof {
            lemma_sorted_insert_at(r@, x, p as int);
            assert(v@.take(i + 1).drop_last() =~= v@.take(i as int));
            assert(v@.take(i + 1).last() == x);
        }
        r.insert(p, x);
        i = i + 1;
    }
    assert(v@.take(v@.len() as int) =~= v@);
    r
}

/// The first position whose move is `m`, if any.
pub open spec fn first_with_move(s: Seq<(i64, u16)>, m: u16) -> Option<int> {
    if exists|p: int| 0 <= p < s.len() && #[trigger] s[p].1 == m {
        Some(choose|p: int| 0 <= p < s.len() && #[trigger] s[p].1 == m && forall|q: int| 0 <= q < p ==> #[trigger] s[q].1 != m)
    } else {
        None
    }
}

/// Swaps the first entry for move `m` with the front entry; no change when `m` is absent.
pub fn move_to_front(v: &mut Vec<(i64, u16)>, m: u16)
    ensures
        final(v)@.len() == old(v)@.len(),
        match first_with_move(old(v)@, m) {
            Some(p) => final(v)@ == old(v)@.update(0, old(v)@[p]).update(p, old(v)@[0]),
            None => final(v)@ == old(v)@,
        },
        final(v)@.to_multiset() == old(v)@.to_multiset(),
{
    let mut p: usize = 0;
    while p < v.len()
        invariant
            v@ == old(v)@,
            p <= v@.len(),
            forall|q: int| 0 <= q < p ==> #[trigger] v@[q].1 != m,
        decreases v@.len() - p,
    {
        if v[p].1 == m {
            proof {
                assert(0 <= p < v@.len() && v@[p as int].1 == m);
                let c = choose|c: int| 0 <= c < v@.len() && #[trigger] v@[c].1 == m && forall|q: int| 0 <= q < c ==> #[trigger] v@[q].1 != m;
                assert(c == p) by {
                    if c < p {
                        assert(v@[c].1 != m);
                    }
                    if p < c {
                        assert(v@[p as int].1 != m);
                    }
                }
            }
            let ghost before = v@;
            let front = v[0];
            let found = v[p];
            v.set(0, found);
            v.set(p, front);
            proof {
                lemma_swap_multiset(before, p as int);
            }
            return;
        }
        p = p + 1;
    }
}

/// Swapping two entries keeps the multiset of entries.
proof fn lemma_swap_multiset(s: Seq<(i64, u16)>, p: int)
    requires
        0 <= p < s.len(),
    ensures
        s.update(0, s[p]).update(p, s[0]).to_multiset() == s.to_multiset(),
{
    broadcast use vstd::seq_lib::group_to_multiset_ensures;
    let t = s.update(0, s[p]);
    if p == 0 {
        assert(s.update(0, s[0]).update(0, s[0]) =~= s);
    } else {
        assert(s.to_multiset().contains(s[p])) by {
            assert(s.contains(s[p]));
        }
        assert(t.to_multiset() =~= s.to_multiset().insert(s[p]).remove(s[0]));
        assert(t[p] == s[p]);
        assert(t.update(p, s[0]).to_multiset() =~= t.to_multiset().insert(s[0]).remove(s[p]));
    }
}

} // verus!
