//! Stable insertion sort of positions by string keys in `lex_le` order.
use vstd::prelude::*;
use crate::text::{lex_le, lemma_lex_total, str_le};

verus! {

/// Inserts position `x` into `t` before the first position whose key is
/// not below the key of `x`.
pub open spec fn insert_pos(keys: Seq<Seq<char>>, x: usize, t: Seq<usize>) -> Seq<usize>
    decreases t.len(),
{
    if t.len() == 0 {
        seq![x]
    } else if lex_le(keys[x as int], keys[t[0] as int]) {
        seq![x] + t
    } else {
        seq![t[0]] + insert_pos(keys, x, t.drop_first())
    }
}

/// Positions `i..keys.len()` in key order, by insertion from the back.
pub open spec fn sort_from(keys: Seq<Seq<char>>, i: int) -> Seq<usize>
    decreases keys.len() - i,
{
    if i < 0 || i >= keys.len() {
        Seq::empty()
    } else {
        insert_pos(keys, i as usize, sort_from(keys, i + 1))
    }
}

/// All positions of `keys` in key order; equal keys keep their order.
pub open spec fn key_order(keys: Seq<Seq<char>>) -> Seq<usize> {
    sort_from(keys, 0)
}

/// Each key along `order` is at most the next one.
pub open spec fn sorted_along(keys: Seq<Seq<char>>, order: Seq<usize>) -> bool {
    forall|i: int|
        0 <= i < order.len() - 1 ==> #[trigger] lex_le(keys[order[i] as int], keys[order[i + 1] as int])
}

/// Every key is at most the next one.
pub open spec fn keys_sorted(keys: Seq<Seq<char>>) -> bool {
    forall|i: int| 0 <= i < keys.len() - 1 ==> #[trigger] lex_le(keys[i], keys[i + 1])
}

proof fn lemma_insert_pos_facts(keys: Seq<Seq<char>>, x: usize, t: Seq<usize>, lo: int, hi: int)
    requires
        sorted_along(keys, t),
        lo <= x < hi,
        forall|k: int| 0 <= k < t.len() ==> lo <= #[trigger] t[k] < hi,
    ensures
        insert_pos(keys, x, t).len() == t.len() + 1,
        sorted_along(keys, insert_pos(keys, x, t)),
        forall|k: int|
            0 <= k < t.len() + 1 ==> lo <= #[trigger] insert_pos(keys, x, t)[k] < hi,
    decreases t.len(),
{
    let r = insert_pos(keys, x, t);
    if t.len() == 0 {
        assert(r =~= seq![x]);
    } else if lex_le(keys[x as int], keys[t[0] as int]) {
        assert forall|i: int| 0 <= i < r.len() - 1 implies #[trigger] lex_le(
            keys[r[i] as int],
            keys[r[i + 1] as int],
        ) by {
            if i > 0 {
                assert(r[i] == t[i - 1] && r[i + 1] == t[i]);
                assert(lex_le(keys[t[i - 1] as int], keys[t[(i - 1) + 1] as int]));
            }
        }
        assert forall|k: int| 0 <= k < t.len() + 1 implies lo <= #[trigger] r[k] < hi by {
            if k > 0 {
                assert(r[k] == t[k - 1]);
            }
        }
    } else {
        let u = t.drop_first();
        assert forall|i: int| 0 <= i < u.len() - 1 implies #[trigger] lex_le(
            keys[u[i] as int],
            keys[u[i + 1] as int],
        ) by {
            assert(lex_le(keys[t[i + 1] as int], keys[t[(i + 1) + 1] as int]));
        }
        assert forall|k: int| 0 <= k < u.len() implies lo <= #[trigger] u[k] < hi by {
            assert(u[k] == t[k + 1]);
        }
        lemma_insert_pos_facts(keys, x, u, lo, hi);
        let ru = insert_pos(keys, x, u);
        assert(r == seq![t[0]] + ru);
        lemma_lex_total(keys[x as int], keys[t[0] as int]);
        assert forall|i: int| 0 <= i < r.len() - 1 implies #[trigger] lex_le(
            keys[r[i] as int],
            keys[r[i + 1] as int],
        ) by {
            if i == 0 {
                assert(r[1] == ru[0]);
                if u.len() == 0 {
                    assert(ru =~= seq![x]);
                } else if lex_le(keys[x as int], keys[u[0] as int]) {
                    assert(ru[0] == x);
                } else {
                    assert(ru[0] == u[0]);
                    assert(lex_le(keys[t[0] as int], keys[t[0int + 1] as int]));
                }
            } else {
                assert(r[i] == ru[i - 1] && r[i + 1] == ru[i]);
                assert(lex_le(keys[ru[i - 1] as int], keys[ru[(i - 1) + 1] as int]));
            }
        }
        assert forall|k: int| 0 <= k < t.len() + 1 implies lo <= #[trigger] r[k] < hi by {
            if k > 0 {
                assert(r[k] == ru[k - 1]);
            }
        }
    }
}

/// No position is listed twice.
pub open spec fn distinct(t: Seq<usize>) -> bool {
    forall|a: int, b: int| 0 <= a < t.len() && 0 <= b < t.len() && a != b ==> t[a] != t[b]
}

proof fn lemma_insert_pos_distinct(keys: Seq<Seq<char>>, x: usize, t: Seq<usize>)
    requires
        distinct(t),
        forall|k: int| 0 <= k < t.len() ==> #[trigger] t[k] != x,
    ensures
        distinct(insert_pos(keys, x, t)),
        insert_pos(keys, x, t).len() == t.len() + 1,
        forall|k: int| 0 <= k < t.len() + 1 ==> {
            let v = #[trigger] insert_pos(keys, x, t)[k];
            v == x || exists|m: int| 0 <= m < t.len() && t[m] == v
        },
    decreases t.len(),
{
    let r = insert_pos(keys, x, t);
    if t.len() == 0 {
        assert(r =~= seq![x]);
    } else if lex_le(keys[x as int], keys[t[0] as int]) {
        assert(r =~= seq![x] + t);
        assert forall|k: int| 0 <= k < t.len() + 1 implies {
            let v = #[trigger] r[k];
            v == x || exists|m: int| 0 <= m < t.len() && t[m] == v
        } by {
            if k > 0 {
                assert(r[k] == t[k - 1]);
            }
        }
    } else {
        let u = t.drop_first();
        assert forall|k: int| 0 <= k < u.len() implies #[trigger] u[k] != x by {
            assert(u[k] == t[k + 1]);
        }
        lemma_insert_pos_distinct(keys, x, u);
        let ru = insert_pos(keys, x, u);
        assert(r == seq![t[0]] + ru);
        assert forall|k: int| 0 <= k < t.len() + 1 implies {
            let v = #[trigger] r[k];
            v == x || exists|m: int| 0 <= m < t.len() && t[m] == v
        } by {
            if k > 0 {
                assert(r[k] == ru[k - 1]);
                if r[k] != x {
                    let m = choose|m: int| 0 <= m < u.len() && u[m] == ru[k - 1];
                    assert(t[m + 1] == r[k]);
                }
            } else {
                assert(t[0] == r[0]);
            }
        }
        assert forall|a: int, b: int|
            0 <= a < r.len() && 0 <= b < r.len() && a != b implies r[a] != r[b] by {
            if a == 0 && b > 0 {
                assert(r[b] == ru[b - 1]);
                if ru[b - 1] != x {
                    let m = choose|m: int| 0 <= m < u.len() && u[m] == ru[b - 1];
                    assert(t[m + 1] == ru[b - 1]);
                }
            } else if b == 0 && a > 0 {
                assert(r[a] == ru[a - 1]);
                if ru[a - 1] != x {
                    let m = choose|m: int| 0 <= m < u.len() && u[m] == ru[a - 1];
                    assert(t[m + 1] == ru[a - 1]);
                }
            } else if a > 0 && b > 0 {
                assert(r[a] == ru[a - 1] && r[b] == ru[b - 1]);
            }
        }
    }
}

/// `sort_from` lists no position twice; with its length and range, it
/// lists each position of `i..keys.len()` exactly once.
pub proof fn lemma_sort_from_distinct(keys: Seq<Seq<char>>, i: int)
    requires
        0 <= i <= keys.len() <= usize::MAX,
    ensures
        distinct(sort_from(keys, i)),
    decreases keys.len() - i,
{
    if i < keys.len() {
        lemma_sort_from_distinct(keys, i + 1);
        lemma_sort_from_facts(keys, i + 1);
        let t = sort_from(keys, i + 1);
        assert forall|k: int| 0 <= k < t.len() implies #[trigger] t[k] != i as usize by {
            assert(i + 1 <= t[k]);
        }
        lemma_insert_pos_distinct(keys, i as usize, t);
    }
}

/// `sort_from` lists positions of `i..keys.len()`, as many as there are,
/// in key order.
pub proof fn lemma_sort_from_facts(keys: Seq<Seq<char>>, i: int)
    requires
        0 <= i <= keys.len() <= usize::MAX,
    ensures
        sort_from(keys, i).len() == keys.len() - i,
        sorted_along(keys, sort_from(keys, i)),
        forall|k: int|
            0 <= k < keys.len() - i ==> i <= #[trigger] sort_from(keys, i)[k] < keys.len(),
    decreases keys.len() - i,
{
    if i < keys.len() {
        lemma_sort_from_facts(keys, i + 1);
        lemma_insert_pos_facts(keys, i as usize, sort_from(keys, i + 1), i, keys.len() as int);
    }
}

/// On keys that are already in order, `sort_from` keeps every position
/// where it stands.
pub proof fn lemma_sort_from_sorted(keys: Seq<Seq<char>>, i: int)
    requires
        0 <= i <= keys.len() <= usize::MAX,
        keys_sorted(keys),
    ensures
        sort_from(keys, i) == Seq::new((keys.len() - i) as nat, |k: int| (i + k) as usize),
    decreases keys.len() - i,
{
    let want = Seq::new((keys.len() - i) as nat, |k: int| (i + k) as usize);
    if i < keys.len() {
        lemma_sort_from_sorted(keys, i + 1);
        let rest = sort_from(keys, i + 1);
        assert(sort_from(keys, i) == insert_pos(keys, i as usize, rest));
        if rest.len() > 0 {
            assert(rest[0] == (i + 1) as usize);
            assert(lex_le(keys[i], keys[i + 1]));
        }
        assert(sort_from(keys, i) =~= want);
    } else {
        assert(sort_from(keys, i) =~= want);
    }
}

proof fn lemma_insert_at(keys: Seq<Seq<char>>, x: usize, t: Seq<usize>, j: int)
    requires
        0 <= j <= t.len(),
        forall|k: int| 0 <= k < j ==> !#[trigger] lex_le(keys[x as int], keys[t[k] as int]),
        j < t.len() ==> lex_le(keys[x as int], keys[t[j] as int]),
    ensures
        insert_pos(keys, x, t) == t.take(j) + seq![x] + t.skip(j),
    decreases j,
{
    if j == 0 {
        if t.len() == 0 {
            assert(t.take(0) + seq![x] + t.skip(0) =~= seq![x]);
        } else {
            assert(t.take(0) + seq![x] + t.skip(0) =~= seq![x] + t);
        }
    } else {
        let u = t.drop_first();
        assert(!lex_le(keys[x as int], keys[t[0] as int]));
        assert forall|k: int| 0 <= k < j - 1 implies !#[trigger] lex_le(
            keys[x as int],
            keys[u[k] as int],
        ) by {
            assert(u[k] == t[k + 1]);
        }
        lemma_insert_at(keys, x, u, j - 1);
        assert(seq![t[0]] + (u.take(j - 1) + seq![x] + u.skip(j - 1)) =~= t.take(j) + seq![x]
            + t.skip(j));
    }
}

/// The positions of `keys` in key order (equal keys keep their order).
pub fn sorted_positions(keys: &Vec<String>) -> (r: Vec<usize>)
    ensures
        r@ == key_order(keys.deep_view()),
{
    let ghost kv = keys.deep_view();
    let n = keys.len();
    let mut out: Vec<usize> = Vec::new();
    let mut i: usize = n;
    assert forall|k: int| 0 <= k < n implies kv[k] == keys@[k]@ by {}
    while i > 0
        invariant
            i <= n,
            n == keys.len(),
            kv == keys.deep_view(),
            kv.len() == n,
            out@ == sort_from(kv, i as int),
            forall|k: int| 0 <= k < n ==> kv[k] == keys@[k]@,
        decreases i,
    {
        i -= 1;
        proof {
            lemma_sort_from_facts(kv, i + 1);
            assert forall|k: int| 0 <= k < out@.len() implies out@[k] < n by {
                assert(i + 1 <= sort_from(kv, i + 1)[k]);
            }
        }
        let mut j: usize = 0;
        while j < out.len() && !str_le(keys[i].as_str(), keys[out[j]].as_str())
            invariant
                i < n,
                n == keys.len(),
                kv == keys.deep_view(),
                kv.len() == n,
                out@ == sort_from(kv, i + 1),
                j <= out.len(),
                forall|k: int| 0 <= k < out@.len() ==> out@[k] < n,
                forall|k: int| 0 <= k < n ==> kv[k] == keys@[k]@,
                forall|k: int| 0 <= k < j ==> !#[trigger] lex_le(kv[i as int], kv[out@[k] as int]),
            decreases out.len() - j,
        {
            j += 1;
        }
        proof {
            lemma_sort_from_facts(kv, i + 1);
            lemma_insert_at(kv, i, out@, j as int);
        }
        out.insert(j, i);
        assert(out@ =~= sort_from(kv, i as int));
    }
    out
}

} // verus!
