use vstd::prelude::*;
use crate::cli::SortBy;
use crate::store::{has_id, Model, TodoView};

verus! {

/// What todos are ordered by under criterion `by`, compared lexicographically.
pub open spec fn sort_key(t: TodoView, by: SortBy) -> (int, int) {
    match by {
        SortBy::Id => (t.id as int, 0),
        SortBy::Date => (t.timestamp.secs as int, t.timestamp.nanos as int),
        SortBy::Done => (
            if t.is_complete {
                1
            } else {
                0
            },
            0,
        ),
    }
}

pub open spec fn key_le(a: (int, int), b: (int, int)) -> bool {
    a.0 < b.0 || (a.0 == b.0 && a.1 <= b.1)
}

/// The keys of `s` never decrease.
pub open spec fn sorted_by(s: Seq<TodoView>, by: SortBy) -> bool {
    forall|i: int, j: int|
        0 <= i < j < s.len() ==> key_le(#[trigger] sort_key(s[i], by), #[trigger] sort_key(s[j], by))
}

/// The todos of `s` whose key is `k`, in their order in `s`.
pub open spec fn with_key(s: Seq<TodoView>, by: SortBy, k: (int, int)) -> Seq<TodoView>
    decreases s.len(),
{
    if s.len() == 0 {
        s
    } else if sort_key(s.last(), by) == k {
        with_key(s.drop_last(), by, k).push(s.last())
    } else {
        with_key(s.drop_last(), by, k)
    }
}

/// `r` is `s` sorted stably: sorted by key, and for each key the same todos in the same order.
pub open spec fn stably_sorted(s: Seq<TodoView>, r: Seq<TodoView>, by: SortBy) -> bool {
    &&& sorted_by(r, by)
    &&& forall|k: (int, int)| #[trigger] with_key(r, by, k) == with_key(s, by, k)
}

proof fn lemma_with_key_add(a: Seq<TodoView>, b: Seq<TodoView>, by: SortBy, k: (int, int))
    ensures
        with_key(a + b, by, k) == with_key(a, by, k) + with_key(b, by, k),
    decreases b.len(),
{
    if b.len() == 0 {
        assert(a + b =~= a);
        assert(with_key(a, by, k) + with_key(b, by, k) =~= with_key(a, by, k));
    } else {
        assert((a + b).drop_last() =~= a + b.drop_last());
        assert((a + b).last() == b.last());
        lemma_with_key_add(a, b.drop_last(), by, k);
        if sort_key(b.last(), by) == k {
            assert(with_key(a, by, k) + with_key(b.drop_last(), by, k).push(b.last())
                =~= (with_key(a, by, k) + with_key(b.drop_last(), by, k)).push(b.last()));
        }
    }
}

/// Swapping neighbours with different keys keeps, for every key, the todos that have it in
/// the same order.
pub(crate) proof fn lemma_swap_with_key(s: Seq<TodoView>, j: int, by: SortBy, k: (int, int))
    requires
        0 < j < s.len(),
        sort_key(s[j - 1], by) != sort_key(s[j], by),
    ensures
        with_key(s.update(j - 1, s[j]).update(j, s[j - 1]), by, k) == with_key(s, by, k),
{
    let t = s.update(j - 1, s[j]).update(j, s[j - 1]);
    let pre = s.subrange(0, j - 1);
    let post = s.subrange(j + 1, s.len() as int);
    assert(s =~= pre + seq![s[j - 1], s[j]] + post);
    assert(t =~= pre + seq![s[j], s[j - 1]] + post);
    lemma_with_key_add(pre + seq![s[j - 1], s[j]], post, by, k);
    lemma_with_key_add(pre + seq![s[j], s[j - 1]], post, by, k);
    lemma_with_key_add(pre, seq![s[j - 1], s[j]], by, k);
    lemma_with_key_add(pre, seq![s[j], s[j - 1]], by, k);
    let ab = seq![s[j - 1], s[j]];
    let ba = seq![s[j], s[j - 1]];
    assert(ab.drop_last() =~= seq![s[j - 1]]);
    assert(ba.drop_last() =~= seq![s[j]]);
    assert(seq![s[j - 1]].drop_last() =~= Seq::<TodoView>::empty());
    assert(seq![s[j]].drop_last() =~= Seq::<TodoView>::empty());
    let e = Seq::<TodoView>::empty();
    assert(with_key(e, by, k) == e);
    assert(ab.last() == s[j] && ba.last() == s[j - 1]);
    assert(seq![s[j - 1]].last() == s[j - 1] && seq![s[j]].last() == s[j]);
    assert(with_key(seq![s[j - 1]], by, k) == if sort_key(s[j - 1], by) == k {
        e.push(s[j - 1])
    } else {
        e
    });
    assert(with_key(seq![s[j]], by, k) == if sort_key(s[j], by) == k {
        e.push(s[j])
    } else {
        e
    });
    if sort_key(s[j - 1], by) == k {
        assert(with_key(ab, by, k) =~= e.push(s[j - 1]));
        assert(with_key(ba, by, k) =~= e.push(s[j - 1]));
    } else if sort_key(s[j], by) == k {
        assert(with_key(ab, by, k) =~= e.push(s[j]));
        assert(with_key(ba, by, k) =~= e.push(s[j]));
    } else {
        assert(with_key(ab, by, k) =~= e);
        assert(with_key(ba, by, k) =~= e);
    }
}

/// Swapping neighbours keeps the list well formed.
pub(crate) proof fn lemma_swap_wf(m: Model, j: int)
    requires
        m.wf(),
        0 < j < m.items.len(),
    ensures
        (Model { items: m.items.update(j - 1, m.items[j]).update(j, m.items[j - 1]), ..m }).wf(),
{
    let t = m.items.update(j - 1, m.items[j]).update(j, m.items[j - 1]);
    assert forall|k: int| 0 <= k < t.len() implies #[trigger] t[k] == m.items[
        if k == j - 1 {
            j
        } else if k == j {
            j - 1
        } else {
            k
        }
    ] by {}
    assert forall|a: int, b: int| 0 <= a < t.len() && 0 <= b < t.len() && a != b implies t[a].id
        != t[b].id by {
        let aa = if a == j - 1 {
            j
        } else if a == j {
            j - 1
        } else {
            a
        };
        let bb = if b == j - 1 {
            j
        } else if b == j {
            j - 1
        } else {
            b
        };
        assert(t[a] == m.items[aa]);
        assert(t[b] == m.items[bb]);
    }
    assert forall|x: usize| has_id(m.items, x) implies has_id(t, x) by {
        let k = choose|k: int| 0 <= k < m.items.len() && m.items[k].id == x;
        let kk = if k == j - 1 {
            j
        } else if k == j {
            j - 1
        } else {
            k
        };
        assert(t[kk] == m.items[k]);
    }
}

/// A list sorted by completion holds its open todos, then its complete ones.
proof fn lemma_sorted_by_done_split(s: Seq<TodoView>)
    requires
        sorted_by(s, SortBy::Done),
    ensures
        s == with_key(s, SortBy::Done, (0, 0)) + with_key(s, SortBy::Done, (1, 0)),
    decreases s.len(),
{
    if s.len() > 0 {
        let d = s.drop_last();
        assert forall|i: int, j: int| 0 <= i < j < d.len() implies key_le(
            #[trigger] sort_key(d[i], SortBy::Done),
            #[trigger] sort_key(d[j], SortBy::Done),
        ) by {
            assert(d[i] == s[i] && d[j] == s[j]);
        }
        lemma_sorted_by_done_split(d);
        assert(s =~= d.push(s.last()));
        if s.last().is_complete {
            assert(s =~= with_key(d, SortBy::Done, (0, 0)) + with_key(d, SortBy::Done, (1, 0)).push(
                s.last(),
            ));
        } else {
            assert forall|i: int| 0 <= i < d.len() implies !(#[trigger] d[i]).is_complete by {
                assert(key_le(sort_key(s[i], SortBy::Done), sort_key(s[s.len() - 1], SortBy::Done)));
            }
            lemma_with_key_none(d, SortBy::Done, (1, 0));
            assert(s =~= with_key(d, SortBy::Done, (0, 0)).push(s.last()));
        }
    }
}

proof fn lemma_with_key_none(s: Seq<TodoView>, by: SortBy, k: (int, int))
    requires
        forall|i: int| 0 <= i < s.len() ==> #[trigger] sort_key(s[i], by) != k,
    ensures
        with_key(s, by, k) == Seq::<TodoView>::empty(),
    decreases s.len(),
{
    if s.len() > 0 {
        let d = s.drop_last();
        assert forall|i: int| 0 <= i < d.len() implies #[trigger] sort_key(d[i], by) != k by {
            assert(d[i] == s[i]);
        }
        lemma_with_key_none(d, by, k);
        assert(sort_key(s[s.len() - 1], by) != k);
    }
}

/// Sorting by completion puts every open todo before every complete one, each group in its
/// former order.
pub proof fn lemma_sort_by_done_groups(s: Seq<TodoView>, r: Seq<TodoView>)
    requires
        stably_sorted(s, r, SortBy::Done),
    ensures
        r == with_key(s, SortBy::Done, (0, 0)) + with_key(s, SortBy::Done, (1, 0)),
        forall|i: int| 0 <= i < with_key(s, SortBy::Done, (0, 0)).len() ==> !r[i].is_complete,
        forall|i: int|
            with_key(s, SortBy::Done, (0, 0)).len() <= i < r.len() ==> r[i].is_complete,
{
    lemma_sorted_by_done_split(r);
    assert(with_key(r, SortBy::Done, (0, 0)) == with_key(s, SortBy::Done, (0, 0)));
    assert(with_key(r, SortBy::Done, (1, 0)) == with_key(s, SortBy::Done, (1, 0)));
    lemma_with_key_all(s, SortBy::Done, (0, 0));
    lemma_with_key_all(s, SortBy::Done, (1, 0));
    let a = with_key(s, SortBy::Done, (0, 0));
    let b = with_key(s, SortBy::Done, (1, 0));
    assert forall|i: int| 0 <= i < a.len() implies !r[i].is_complete by {
        assert(r[i] == a[i]);
        assert(sort_key(a[i], SortBy::Done) == (0int, 0int));
    }
    assert forall|i: int| a.len() <= i < r.len() implies r[i].is_complete by {
        assert(r[i] == b[i - a.len()]);
        assert(sort_key(b[i - a.len()], SortBy::Done) == (1int, 0int));
    }
}

/// Every todo picked by `with_key` has that key.
proof fn lemma_with_key_all(s: Seq<TodoView>, by: SortBy, k: (int, int))
    ensures
        forall|i: int|
            0 <= i < with_key(s, by, k).len() ==> #[trigger] sort_key(with_key(s, by, k)[i], by)
                == k,
    decreases s.len(),
{
    if s.len() > 0 {
        let d = s.drop_last();
        lemma_with_key_all(d, by, k);
        let w = with_key(s, by, k);
        let wd = with_key(d, by, k);
        assert forall|i: int| 0 <= i < w.len() implies #[trigger] sort_key(w[i], by) == k by {
            if i < wd.len() {
                assert(w[i] == wd[i]);
                assert(sort_key(wd[i], by) == k);
            }
        }
    }
}

} // verus!
