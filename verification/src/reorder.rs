use vstd::prelude::*;

verus! {

/// Index of the first occurrence of `id` at or after `k`.
pub open spec fn pos_from(o: Seq<i64>, id: i64, k: int) -> Option<int>
    decreases o.len() - k,
{
    if k < 0 || k >= o.len() {
        None
    } else if o[k] == id {
        Some(k)
    } else {
        pos_from(o, id, k + 1)
    }
}

/// Index of the first occurrence of `id` in `o`.
pub open spec fn position(o: Seq<i64>, id: i64) -> Option<int> {
    pos_from(o, id, 0)
}

pub proof fn lemma_pos_from(o: Seq<i64>, id: i64, k: int)
    requires
        0 <= k,
    ensures
        pos_from(o, id, k) matches Some(i) ==> k <= i < o.len() && o[i] == id && forall|j: int|
            k <= j < i ==> o[j] != id,
        pos_from(o, id, k) is None ==> forall|j: int| k <= j < o.len() ==> o[j] != id,
    decreases o.len() - k,
{
    if k < o.len() && o[k] != id {
        lemma_pos_from(o, id, k + 1);
    }
}

pub proof fn lemma_position(o: Seq<i64>, id: i64)
    ensures
        position(o, id) matches Some(i) ==> 0 <= i < o.len() && o[i] == id && forall|j: int|
            0 <= j < i ==> o[j] != id,
        position(o, id) is None ==> forall|j: int| 0 <= j < o.len() ==> o[j] != id,
{
    lemma_pos_from(o, id, 0);
}

/// First index of `id` in `o`.
pub fn find_position(o: &[i64], id: i64) -> (r: Option<usize>)
    ensures
        r matches Some(i) ==> position(o@, id) == Some(i as int),
        r is None ==> position(o@, id) is None,
{
    let mut k: usize = 0;
    while k < o.len()
        invariant
            k <= o.len(),
            pos_from(o@, id, 0) == pos_from(o@, id, k as int),
        decreases o.len() - k,
    {
        if o[k] == id {
            return Some(k);
        }
        k = k + 1;
    }
    None
}

/// `o` with every occurrence of `id` removed, the others kept in order.
pub open spec fn without(o: Seq<i64>, id: i64) -> Seq<i64>
    decreases o.len(),
{
    if o.len() == 0 {
        seq![]
    } else if o.last() == id {
        without(o.drop_last(), id)
    } else {
        without(o.drop_last(), id).push(o.last())
    }
}

/// Number of occurrences of `id` in `o`.
pub open spec fn occurrences(o: Seq<i64>, id: i64) -> nat
    decreases o.len(),
{
    if o.len() == 0 {
        0
    } else if o.last() == id {
        occurrences(o.drop_last(), id) + 1
    } else {
        occurrences(o.drop_last(), id)
    }
}

pub proof fn lemma_without_len(o: Seq<i64>, id: i64)
    ensures
        without(o, id).len() + occurrences(o, id) == o.len(),
    decreases o.len(),
{
    if o.len() > 0 {
        lemma_without_len(o.drop_last(), id);
    }
}

/// `x` reduced into `0..n` the Euclidean way (`x.rem_euclid(n)`).
pub fn wrap_index(x: i128, n: usize) -> (r: usize)
    requires
        n > 0,
        x > i128::MIN,
    ensures
        r as int == x as int % n as int,
        r < n,
{
    let m = n as u128;
    if x >= 0 {
        let r = (x as u128) % m;
        r as usize
    } else {
        let a = (-x) as u128;
        let q = a % m;
        proof {
            let xi = x as int;
            let ni = n as int;
            let qi = q as int;
            assert(qi == (-xi) % ni);
            assert(0 <= qi < ni);
            vstd::arithmetic::div_mod::lemma_fundamental_div_mod(-xi, ni);
            let d = (-xi) / ni;
            assert(-xi == ni * d + qi);
            if qi == 0 {
                assert(xi == ni * (-d)) by (nonlinear_arith)
                    requires
                        -xi == ni * d,
                ;
                vstd::arithmetic::div_mod::lemma_mod_multiples_basic(-d, ni);
                assert((-d) * ni == ni * (-d)) by (nonlinear_arith);
            } else {
                assert(xi == ni * (-d - 1) + (ni - qi)) by (nonlinear_arith)
                    requires
                        -xi == ni * d + qi,
                ;
                vstd::arithmetic::div_mod::lemma_mod_multiples_vanish(-d - 1, ni - qi, ni);
                vstd::arithmetic::div_mod::lemma_small_mod((ni - qi) as nat, ni as nat);
                assert(ni * (-d - 1) == (-d - 1) * ni) by (nonlinear_arith);
            }
        }
        if q == 0 {
            0
        } else {
            (m - q) as usize
        }
    }
}

/// Where `id` goes when it moves `delta` steps through `o`, wrapping at the ends.
pub open spec fn target_index(o: Seq<i64>, id: i64, delta: int) -> int {
    (position(o, id)->0 + delta) % (o.len() as int)
}

/// The order after moving `id` by `delta` steps inside `o`, wrapping at the ends;
/// `None` when `id` is absent or there are fewer than two entries.
pub open spec fn rotated(o: Seq<i64>, id: i64, delta: int) -> Option<Seq<i64>> {
    if position(o, id) is None || o.len() < 2 {
        None
    } else {
        Some(without(o, id).insert(target_index(o, id, delta), id))
    }
}

/// The inputs on which moving `id` neither overflows nor inserts out of range.
pub open spec fn rotate_defined(o: Seq<i64>, id: i64, delta: int) -> bool {
    o.len() <= isize::MAX as int && (position(o, id) is None || o.len() < 2 || (position(
        o,
        id,
    )->0 + delta <= isize::MAX as int && target_index(o, id, delta) <= o.len() - occurrences(
        o,
        id,
    )))
}

/// New order of `order` after moving `id` by `delta` places; the ends wrap around.
/// `None` when `id` is absent or there are fewer than two entries.
pub fn rotate(order: &[i64], id: i64, delta: isize) -> (r: Option<Vec<i64>>)
    requires
        rotate_defined(order@, id, delta as int),
    ensures
        r matches Some(v) ==> rotated(order@, id, delta as int) == Some(v@),
        r is None ==> rotated(order@, id, delta as int) is None,
{
    let idx = match find_position(order, id) {
        None => return None,
        Some(i) => i,
    };
    if order.len() < 2 {
        return None;
    }
    proof {
        lemma_position(order@, id);
    }
    let j = wrap_index(idx as i128 + delta as i128, order.len());
    let mut out: Vec<i64> = Vec::new();
    let mut k: usize = 0;
    while k < order.len()
        invariant
            k <= order.len(),
            out@ == without(order@.take(k as int), id),
        decreases order.len() - k,
    {
        assert(order@.take(k + 1).drop_last() == order@.take(k as int));
        if order[k] != id {
            out.push(order[k]);
        }
        k = k + 1;
    }
    assert(order@.take(k as int) == order@);
    proof {
        lemma_without_len(order@, id);
    }
    out.insert(j, id);
    Some(out)
}

proof fn lemma_without_absent(o: Seq<i64>, id: i64)
    requires
        forall|j: int| 0 <= j < o.len() ==> o[j] != id,
    ensures
        without(o, id) == o,
    decreases o.len(),
{
    if o.len() > 0 {
        lemma_without_absent(o.drop_last(), id);
        assert(o.drop_last().push(o.last()) =~= o);
    }
}

proof fn lemma_without_single(o: Seq<i64>, id: i64, p: int)
    requires
        0 <= p < o.len(),
        o[p] == id,
        forall|j: int| 0 <= j < o.len() && j != p ==> o[j] != id,
    ensures
        without(o, id) == o.remove(p),
    decreases o.len(),
{
    let n = o.len() as int;
    if p == n - 1 {
        lemma_without_absent(o.drop_last(), id);
        assert(o.drop_last() =~= o.remove(p));
    } else {
        lemma_without_single(o.drop_last(), id, p);
        assert(o.drop_last().remove(p).push(o.last()) =~= o.remove(p));
    }
}

/// Moving an item that occurs once by `delta` places and then by `-delta` places gives
/// back the order it started from.
pub proof fn lemma_rotate_inverse(o: Seq<i64>, id: i64, delta: int)
    requires
        occurrences(o, id) == 1,
        o.len() >= 2,
    ensures
        rotated(o, id, delta) matches Some(moved) && rotated(moved, id, -delta) == Some(o),
{
    let (p, moved) = lemma_rotate_shape(o, id, delta);
    let n = o.len() as int;
    let t = target_index(o, id, delta);
    let w = o.remove(p);
    lemma_position(moved, id);
    assert(position(moved, id) == Some(t)) by {
        if position(moved, id) != Some(t) {
            let q = position(moved, id)->0;
            assert(moved[q] == id);
        }
    }
    vstd::arithmetic::div_mod::lemma_add_mod_noop_right(-delta, p + delta, n);
    vstd::arithmetic::div_mod::lemma_small_mod(p as nat, n as nat);
    assert(target_index(moved, id, -delta) == p);
    lemma_without_single(moved, id, t);
    assert(moved.remove(t) =~= w);
    assert(w.insert(p, id) =~= o);
}

/// Moving an item that occurs once keeps exactly the same entries: the new order is a
/// permutation of the old one.
pub proof fn lemma_rotate_permutes(o: Seq<i64>, id: i64, delta: int)
    requires
        occurrences(o, id) == 1,
        o.len() >= 2,
    ensures
        rotated(o, id, delta) matches Some(moved) && moved.to_multiset() == o.to_multiset()
            && moved.len() == o.len(),
{
    let (p, moved) = lemma_rotate_shape(o, id, delta);
    let w = o.remove(p);
    assert(w.insert(p, id) =~= o);
    vstd::seq_lib::to_multiset_insert(w, p, id);
    vstd::seq_lib::to_multiset_insert(w, target_index(o, id, delta), id);
}

/// Where an item occurring once sits, and what moving it produces: the order without it,
/// with it inserted at the target, which holds no other copy of it.
pub(crate) proof fn lemma_rotate_shape(o: Seq<i64>, id: i64, delta: int) -> (res: (int, Seq<i64>))
    requires
        occurrences(o, id) == 1,
        o.len() >= 2,
    ensures
        0 <= res.0 < o.len(),
        o[res.0] == id,
        position(o, id) == Some(res.0),
        forall|j: int| 0 <= j < o.len() && j != res.0 ==> o[j] != id,
        0 <= target_index(o, id, delta) < o.len(),
        rotated(o, id, delta) == Some(res.1),
        res.1 == o.remove(res.0).insert(target_index(o, id, delta), id),
        res.1.len() == o.len(),
        res.1[target_index(o, id, delta)] == id,
        forall|j: int| 0 <= j < res.1.len() && j != target_index(o, id, delta) ==> res.1[j] != id,
{
    lemma_position(o, id);
    let p = match position(o, id) {
        Some(p) => p,
        None => {
            lemma_without_absent(o, id);
            lemma_without_len(o, id);
            0
        },
    };
    assert(position(o, id) == Some(p));
    lemma_single_occurrence(o, id, p);
    lemma_without_single(o, id, p);
    let n = o.len() as int;
    let t = target_index(o, id, delta);
    let w = o.remove(p);
    let moved = w.insert(t, id);
    assert forall|j: int| 0 <= j < moved.len() && j != t implies moved[j] != id by {
        if j < t {
            assert(moved[j] == w[j]);
        } else {
            assert(moved[j] == w[j - 1]);
        }
    }
    (p, moved)
}

/// An entry counted once occurs at its first position and nowhere else.
proof fn lemma_single_occurrence(o: Seq<i64>, id: i64, p: int)
    requires
        occurrences(o, id) == 1,
        position(o, id) == Some(p),
    ensures
        forall|j: int| 0 <= j < o.len() && j != p ==> o[j] != id,
    decreases o.len(),
{
    lemma_position(o, id);
    let n = o.len() as int;
    if o.last() == id {
        assert(occurrences(o.drop_last(), id) == 0);
        lemma_no_occurrence(o.drop_last(), id);
        if p != n - 1 {
            assert(o.drop_last()[p] == id);
        }
        assert forall|j: int| 0 <= j < o.len() && j != p implies o[j] != id by {
            if j < n - 1 {
                assert(o.drop_last()[j] == o[j]);
            }
        }
    } else {
        assert(o.drop_last()[p] == id);
        lemma_position(o.drop_last(), id);
        assert(position(o.drop_last(), id) == Some(p)) by {
            let q = position(o.drop_last(), id);
            if q != Some(p) {
                assert(o[q->0] == id);
            }
        }
        lemma_single_occurrence(o.drop_last(), id, p);
        assert forall|j: int| 0 <= j < o.len() && j != p implies o[j] != id by {
            if j < n - 1 {
                assert(o.drop_last()[j] == o[j]);
            }
        }
    }
}

proof fn lemma_no_occurrence(o: Seq<i64>, id: i64)
    requires
        occurrences(o, id) == 0,
    ensures
        forall|j: int| 0 <= j < o.len() ==> o[j] != id,
    decreases o.len(),
{
    if o.len() > 0 {
        lemma_no_occurrence(o.drop_last(), id);
        assert forall|j: int| 0 <= j < o.len() implies o[j] != id by {
            if j < o.len() - 1 {
                assert(o.drop_last()[j] == o[j]);
            }
        }
    }
}

} // verus!
