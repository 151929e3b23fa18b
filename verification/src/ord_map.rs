//! Maps and sets that keep their keys in ascending order.

use crate::key::{Key, Order};
use crate::seqs;
use vstd::prelude::*;

verus! {

/// Every element of `s` comes before every later one.
pub open spec fn ascending<K: Key>(s: Seq<K::V>) -> bool {
    forall|i: int, j: int| 0 <= i < j < s.len() ==> #[trigger] K::before(s[i], s[j])
}

/// `q` lists the elements of `s`, each once, in ascending order.
pub open spec fn lists<K: Key>(q: Seq<K::V>, s: Set<K::V>) -> bool {
    &&& ascending::<K>(q)
    &&& forall|k: K::V| #[trigger] s.contains(k) <==> q.contains(k)
}

/// The elements of a finite set in ascending order.
pub open spec fn in_order<K: Key>(s: Set<K::V>) -> Seq<K::V> {
    choose|q: Seq<K::V>| lists::<K>(q, s)
}

proof fn lemma_before_is_asymmetric<K: Key>(a: K::V, b: K::V)
    requires
        K::before(a, b),
    ensures
        !K::before(b, a),
        a != b,
{
    K::before_is_strict(a);
    if K::before(b, a) {
        K::before_is_transitive(a, b, a);
    }
}

/// An ascending sequence holds nothing twice.
pub proof fn lemma_ascending_no_duplicates<K: Key>(q: Seq<K::V>)
    requires
        ascending::<K>(q),
    ensures
        q.no_duplicates(),
{
    assert forall|i: int, j: int| 0 <= i < q.len() && 0 <= j < q.len() && i != j implies q[i]
        != q[j] by {
        if i < j {
            lemma_before_is_asymmetric::<K>(q[i], q[j]);
        } else {
            lemma_before_is_asymmetric::<K>(q[j], q[i]);
        }
    }
}

/// A set has at most one ascending listing.
proof fn lemma_lists_unique<K: Key>(p: Seq<K::V>, q: Seq<K::V>, s: Set<K::V>)
    requires
        lists::<K>(p, s),
        lists::<K>(q, s),
    ensures
        p == q,
    decreases p.len(),
{
    if p.len() == 0 {
        if q.len() > 0 {
            assert(q.contains(q[0]));
            assert(s.contains(q[0]));
        }
        assert(p =~= q);
    } else {
        assert(p.contains(p.last()));
        assert(s.contains(p.last()));
        assert(q.contains(p.last()));
        let i = choose|i: int| 0 <= i < q.len() && q[i] == p.last();
        assert(q.contains(q.last()));
        assert(s.contains(q.last()));
        let j = choose|j: int| 0 <= j < p.len() && p[j] == q.last();
        if p.last() != q.last() {
            assert(K::before(q[i], q[q.len() - 1]));
            assert(K::before(p[j], p[p.len() - 1]));
            lemma_before_is_asymmetric::<K>(p.last(), q.last());
        }
        let t = s.remove(p.last());
        let p1 = p.drop_last();
        let q1 = q.drop_last();
        lemma_ascending_no_duplicates::<K>(p);
        lemma_ascending_no_duplicates::<K>(q);
        assert forall|k: K::V| #[trigger] t.contains(k) <==> p1.contains(k) by {
            if t.contains(k) {
                let m = choose|m: int| 0 <= m < p.len() && p[m] == k;
                assert(p1[m] == k);
            }
            if p1.contains(k) {
                let m = choose|m: int| 0 <= m < p1.len() && p1[m] == k;
                assert(p[m] == k);
                assert(p.contains(k));
            }
        }
        assert forall|k: K::V| #[trigger] t.contains(k) <==> q1.contains(k) by {
            if t.contains(k) {
                let m = choose|m: int| 0 <= m < q.len() && q[m] == k;
                assert(q1[m] == k);
            }
            if q1.contains(k) {
                let m = choose|m: int| 0 <= m < q1.len() && q1[m] == k;
                assert(q[m] == k);
                assert(q.contains(k));
            }
        }
        assert forall|a: int, b: int| 0 <= a < b < p1.len() implies #[trigger] K::before(
            p1[a],
            p1[b],
        ) by {
            assert(K::before(p[a], p[b]));
        }
        assert forall|a: int, b: int| 0 <= a < b < q1.len() implies #[trigger] K::before(
            q1[a],
            q1[b],
        ) by {
            assert(K::before(q[a], q[b]));
        }
        lemma_lists_unique::<K>(p1, q1, t);
        assert(p =~= p1.push(p.last()));
        assert(q =~= q1.push(q.last()));
    }
}

/// What is known of a listing carries over to `in_order`.
proof fn lemma_in_order_is<K: Key>(q: Seq<K::V>, s: Set<K::V>)
    requires
        lists::<K>(q, s),
    ensures
        in_order::<K>(s) == q,
        s.finite(),
        s.len() == q.len(),
{
    lemma_lists_unique::<K>(in_order::<K>(s), q, s);
    lemma_ascending_no_duplicates::<K>(q);
    q.unique_seq_to_set();
    assert(q.to_set() =~= s) by {
        assert forall|k: K::V| q.to_set().contains(k) <==> s.contains(k) by {
            assert(s.contains(k) <==> q.contains(k));
        }
    }
}

/// The place of `k` in an ascending listing, counted from the front.
spec fn rank<K: Key>(q: Seq<K::V>, k: K::V) -> int
    decreases q.len(),
{
    if q.len() == 0 {
        0
    } else if K::before(q.last(), k) {
        q.len() as int
    } else {
        rank::<K>(q.drop_last(), k)
    }
}

proof fn lemma_rank<K: Key>(q: Seq<K::V>, k: K::V)
    requires
        ascending::<K>(q),
    ensures
        0 <= rank::<K>(q, k) <= q.len(),
        forall|j: int| 0 <= j < rank::<K>(q, k) ==> K::before(#[trigger] q[j], k),
        forall|j: int| rank::<K>(q, k) <= j < q.len() ==> !K::before(#[trigger] q[j], k),
    decreases q.len(),
{
    if q.len() > 0 {
        if K::before(q.last(), k) {
            assert forall|j: int| 0 <= j < q.len() implies K::before(#[trigger] q[j], k) by {
                if j < q.len() - 1 {
                    assert(K::before(q[j], q[q.len() - 1]));
                    K::before_is_transitive(q[j], q.last(), k);
                }
            }
        } else {
            let q1 = q.drop_last();
            assert forall|a: int, b: int| 0 <= a < b < q1.len() implies #[trigger] K::before(
                q1[a],
                q1[b],
            ) by {
                assert(K::before(q[a], q[b]));
            }
            lemma_rank::<K>(q1, k);
            assert forall|j: int| 0 <= j < rank::<K>(q, k) implies K::before(
                #[trigger] q[j],
                k,
            ) by {
                assert(q1[j] == q[j]);
            }
            assert forall|j: int| rank::<K>(q, k) <= j < q.len() implies !K::before(
                #[trigger] q[j],
                k,
            ) by {
                if j < q1.len() {
                    assert(q1[j] == q[j]);
                }
            }
        }
    }
}

/// `i` splits `q` into the keys before `k` and the rest.
spec fn splits<K: Key>(q: Seq<K::V>, k: K::V, i: int) -> bool {
    &&& 0 <= i <= q.len()
    &&& forall|j: int| 0 <= j < i ==> K::before(#[trigger] q[j], k)
    &&& forall|j: int| i <= j < q.len() ==> !K::before(#[trigger] q[j], k)
}

proof fn lemma_split_member<K: Key>(q: Seq<K::V>, k: K::V, i: int)
    requires
        ascending::<K>(q),
        splits::<K>(q, k, i),
    ensures
        q.contains(k) <==> (i < q.len() && q[i] == k),
{
    if q.contains(k) {
        let j = choose|j: int| 0 <= j < q.len() && q[j] == k;
        K::before_is_strict(k);
        assert(j >= i);
        if j > i {
            assert(K::before(q[i], q[j]));
        }
    }
}

proof fn lemma_insert_keys<K: Key>(q: Seq<K::V>, k: K::V, i: int)
    requires
        ascending::<K>(q),
        splits::<K>(q, k, i),
        !q.contains(k),
    ensures
        ascending::<K>(q.insert(i, k)),
{
    let r = q.insert(i, k);
    assert forall|a: int, b: int| 0 <= a < b < r.len() implies #[trigger] K::before(r[a], r[b]) by {
        let a0 = if a < i {
            a
        } else {
            a - 1
        };
        let b0 = if b < i {
            b
        } else {
            b - 1
        };
        if a == i {
            assert(!K::before(q[b0], k));
            K::before_is_total(q[b0], k);
            assert(q.contains(q[b0]));
        } else if b == i {
            assert(K::before(q[a0], k));
        } else {
            assert(K::before(q[a0], q[b0]));
        }
    }
}

proof fn lemma_remove_keys<K: Key>(q: Seq<K::V>, i: int)
    requires
        ascending::<K>(q),
        0 <= i < q.len(),
    ensures
        ascending::<K>(q.remove(i)),
{
    let r = q.remove(i);
    assert forall|a: int, b: int| 0 <= a < b < r.len() implies #[trigger] K::before(r[a], r[b]) by {
        let a0 = if a < i {
            a
        } else {
            a + 1
        };
        let b0 = if b < i {
            b
        } else {
            b + 1
        };
        assert(K::before(q[a0], q[b0]));
    }
}

/// Every finite set has an ascending listing.
pub proof fn lemma_in_order<K: Key>(s: Set<K::V>)
    requires
        s.finite(),
    ensures
        lists::<K>(in_order::<K>(s), s),
        in_order::<K>(s).len() == s.len(),
    decreases s.len(),
{
    if s.len() == 0 {
        let q = Seq::<K::V>::empty();
        assert(s =~= Set::empty());
        assert(lists::<K>(q, s));
        lemma_in_order_is::<K>(q, s);
    } else {
        let k = s.choose();
        let t = s.remove(k);
        lemma_in_order::<K>(t);
        let p = in_order::<K>(t);
        assert(!p.contains(k)) by {
            assert(!t.contains(k));
        }
        let i = rank::<K>(p, k);
        lemma_rank::<K>(p, k);
        lemma_insert_keys::<K>(p, k, i);
        let q = p.insert(i, k);
        assert forall|x: K::V| #[trigger] s.contains(x) <==> q.contains(x) by {
            if s.contains(x) {
                if x == k {
                    assert(q[i] == k);
                } else {
                    assert(t.contains(x));
                    let m = choose|m: int| 0 <= m < p.len() && p[m] == x;
                    assert(q[if m < i {
                        m
                    } else {
                        m + 1
                    }] == x);
                }
            }
            if q.contains(x) && x != k {
                let m = choose|m: int| 0 <= m < q.len() && q[m] == x;
                assert(p[if m < i {
                    m
                } else {
                    m - 1
                }] == x);
                assert(p.contains(x));
                assert(t.contains(x));
            }
        }
        lemma_in_order_is::<K>(q, s);
    }
}

/// As many elements of the listing pass as of the set.
pub proof fn lemma_filter_len<K: Key>(s: Set<K::V>, p: spec_fn(K::V) -> bool)
    requires
        s.finite(),
    ensures
        in_order::<K>(s).filter(p).len() == s.filter(p).len(),
{
    lemma_in_order::<K>(s);
    let q = in_order::<K>(s);
    lemma_ascending_no_duplicates::<K>(q);
    seqs::lemma_filter_no_duplicates(q, p);
    seqs::lemma_filter_contains(q, p);
    q.filter(p).unique_seq_to_set();
    assert(q.filter(p).to_set() =~= s.filter(p)) by {
        assert forall|k: K::V| q.filter(p).to_set().contains(k) <==> s.filter(p).contains(k) by {
            assert(q.filter(p).contains(k) <==> q.contains(k) && p(k));
            assert(s.contains(k) <==> q.contains(k));
        }
    }
}

/// All sequences of a map after one another, in ascending order of the keys.
pub open spec fn concat_in_order<K: Key, A>(m: Map<K::V, Seq<A>>) -> Seq<A> {
    in_order::<K>(m.dom()).map_values(|k: K::V| m[k]).flatten()
}

/// Which keys of a map have a sequence that is not empty.
pub open spec fn has_some<K: Key, A>(m: Map<K::V, Seq<A>>) -> spec_fn(K::V) -> bool {
    |k: K::V| m[k].len() > 0
}

/// Empty sequences come to nothing.
proof fn lemma_flatten_empties<A>(s: Seq<Seq<A>>)
    requires
        forall|i: int| 0 <= i < s.len() ==> (#[trigger] s[i]).len() == 0,
    ensures
        s.flatten() == Seq::<A>::empty(),
    decreases s.len(),
{
    if s.len() > 0 {
        assert forall|i: int| 0 <= i < s.drop_first().len() implies (#[trigger] s.drop_first()[i]).len()
            == 0 by {
            assert(s.drop_first()[i] == s[i + 1]);
        }
        lemma_flatten_empties(s.drop_first());
        assert(s[0].len() == 0);
    }
    assert(s.flatten() =~= Seq::<A>::empty());
}

/// The concatenation of sequences of which the first ones are empty.
proof fn lemma_flatten_from<A>(s: Seq<Seq<A>>, i: int)
    requires
        0 <= i < s.len(),
        forall|j: int| 0 <= j < i ==> (#[trigger] s[j]).len() == 0,
    ensures
        s.flatten() == s[i] + s.skip(i + 1).flatten(),
    decreases i,
{
    if i == 0 {
        assert(s.skip(1) =~= s.drop_first());
    } else {
        let t = s.drop_first();
        assert forall|j: int| 0 <= j < i - 1 implies (#[trigger] t[j]).len() == 0 by {
            assert(t[j] == s[j + 1]);
        }
        lemma_flatten_from(t, i - 1);
        assert(s[0].len() == 0);
        assert(t.skip(i) =~= s.skip(i + 1));
        assert(s.flatten() =~= t.flatten());
    }
}

/// An empty sequence in between changes nothing.
proof fn lemma_flatten_insert_empty<A>(s: Seq<Seq<A>>, i: int)
    requires
        0 <= i <= s.len(),
    ensures
        s.insert(i, Seq::<A>::empty()).flatten() == s.flatten(),
    decreases i,
{
    let t = s.insert(i, Seq::<A>::empty());
    if i == 0 {
        assert(t.drop_first() =~= s);
        assert(t.flatten() =~= s.flatten());
    } else {
        assert(t.drop_first() =~= s.drop_first().insert(i - 1, Seq::<A>::empty()));
        lemma_flatten_insert_empty(s.drop_first(), i - 1);
        assert(t.flatten() =~= s.flatten());
    }
}

/// Nothing comes of a map in which every sequence is empty.
pub proof fn lemma_concat_none<K: Key, A>(m: Map<K::V, Seq<A>>)
    requires
        m.dom().finite(),
        in_order::<K>(m.dom()).filter(has_some::<K, A>(m)).len() == 0,
    ensures
        concat_in_order::<K, A>(m) == Seq::<A>::empty(),
        forall|k: K::V| #[trigger] m.contains_key(k) ==> m[k].len() == 0,
{
    let q = in_order::<K>(m.dom());
    let p = has_some::<K, A>(m);
    lemma_in_order::<K>(m.dom());
    seqs::lemma_filter_contains(q, p);
    let s = q.map_values(|k: K::V| m[k]);
    assert forall|k: K::V| #[trigger] m.contains_key(k) implies m[k].len() == 0 by {
        assert(m.dom().contains(k));
        if p(k) {
            assert(q.filter(p).contains(k));
        }
    }
    assert forall|i: int| 0 <= i < s.len() implies (#[trigger] s[i]).len() == 0 by {
        assert(q.contains(q[i]));
        assert(m.dom().contains(q[i]));
        assert(m.contains_key(q[i]));
    }
    lemma_flatten_empties(s);
}

/// What comes first of a map is what its first sequence that is not empty
/// begins with.
pub proof fn lemma_concat_first<K: Key, A>(m: Map<K::V, Seq<A>>)
    requires
        m.dom().finite(),
        in_order::<K>(m.dom()).filter(has_some::<K, A>(m)).len() > 0,
    ensures
        ({
            let k = in_order::<K>(m.dom()).filter(has_some::<K, A>(m))[0];
            &&& m.contains_key(k)
            &&& m[k].len() > 0
            &&& concat_in_order::<K, A>(m) == seq![m[k][0]] + concat_in_order::<K, A>(
                m.insert(k, m[k].skip(1)),
            )
        }),
{
    let q = in_order::<K>(m.dom());
    let p = has_some::<K, A>(m);
    let k = q.filter(p)[0];
    lemma_in_order::<K>(m.dom());
    lemma_ascending_no_duplicates::<K>(q);
    let i = seqs::lemma_filter_first_at(q, p);
    let m1 = m.insert(k, m[k].skip(1));
    assert(q.contains(q[i]));
    assert(m.dom().contains(k));
    assert(m1.dom() =~= m.dom());
    let s = q.map_values(|x: K::V| m[x]);
    let s1 = q.map_values(|x: K::V| m1[x]);
    assert forall|j: int| 0 <= j < i implies (#[trigger] s[j]).len() == 0 by {
        assert(!p(q[j]));
    }
    assert forall|j: int| 0 <= j < i implies (#[trigger] s1[j]).len() == 0 by {
        assert(!p(q[j]));
        assert(q[j] != q[i]);
    }
    lemma_flatten_from(s, i);
    lemma_flatten_from(s1, i);
    let rest = s.skip(i + 1);
    let rest1 = s1.skip(i + 1);
    assert forall|j: int| 0 <= j < rest.len() implies #[trigger] rest[j] == rest1[j] by {
        assert(q[i + 1 + j] != q[i]);
    }
    assert(rest =~= rest1);
    assert(s[i] =~= seq![m[k][0]] + s1[i]);
    assert(concat_in_order::<K, A>(m) =~= seq![m[k][0]] + concat_in_order::<K, A>(m1));
}

/// Where at most one sequence is not empty, nothing else comes of a map.
pub proof fn lemma_concat_only<K: Key, A>(m: Map<K::V, Seq<A>>, k: K::V)
    requires
        m.dom().finite(),
        m.contains_key(k),
        forall|x: K::V| #[trigger] m.contains_key(x) && x != k ==> m[x].len() == 0,
    ensures
        concat_in_order::<K, A>(m) == m[k],
    decreases m[k].len(),
{
    let q = in_order::<K>(m.dom());
    let p = has_some::<K, A>(m);
    lemma_in_order::<K>(m.dom());
    seqs::lemma_filter_contains(q, p);
    assert(m.dom().contains(k));
    if m[k].len() == 0 {
        if q.filter(p).len() > 0 {
            let x = q.filter(p)[0];
            assert(q.filter(p).contains(x));
            assert(m.dom().contains(x));
            assert(m.contains_key(x));
        }
        lemma_concat_none::<K, A>(m);
        assert(m[k] =~= Seq::<A>::empty());
    } else {
        assert(q.contains(k));
        assert(p(k));
        assert(q.filter(p).contains(k));
        lemma_concat_first::<K, A>(m);
        assert(m.contains_key(q.filter(p)[0]));
        let rest = m.insert(k, m[k].skip(1));
        assert(rest.dom() =~= m.dom());
        lemma_concat_only::<K, A>(rest, k);
        assert(m[k] =~= seq![m[k][0]] + m[k].skip(1));
    }
}

/// A new key with an empty sequence changes nothing.
pub proof fn lemma_concat_insert_empty<K: Key, A>(m: Map<K::V, Seq<A>>, k: K::V)
    requires
        m.dom().finite(),
        !m.contains_key(k),
    ensures
        concat_in_order::<K, A>(m.insert(k, Seq::<A>::empty())) == concat_in_order::<K, A>(m),
{
    let m1 = m.insert(k, Seq::<A>::empty());
    let q = in_order::<K>(m.dom());
    lemma_in_order::<K>(m.dom());
    lemma_rank::<K>(q, k);
    let i = rank::<K>(q, k);
    assert(!q.contains(k)) by {
        assert(!m.dom().contains(k));
    }
    lemma_insert_keys::<K>(q, k, i);
    let q1 = q.insert(i, k);
    assert forall|x: K::V| #[trigger] m1.dom().contains(x) <==> q1.contains(x) by {
        assert(m.dom().contains(x) <==> q.contains(x));
        if q.contains(x) {
            let j = choose|j: int| 0 <= j < q.len() && q[j] == x;
            assert(q1[if j < i {
                j
            } else {
                j + 1
            }] == x);
        }
        assert(q1[i] == k);
        if q1.contains(x) && x != k {
            let j = choose|j: int| 0 <= j < q1.len() && q1[j] == x;
            assert(q[if j < i {
                j
            } else {
                j - 1
            }] == x);
        }
    }
    lemma_in_order_is::<K>(q1, m1.dom());
    let s = q.map_values(|x: K::V| m[x]);
    let s1 = q1.map_values(|x: K::V| m1[x]);
    assert(s1 =~= s.insert(i, Seq::<A>::empty())) by {
        assert forall|j: int| 0 <= j < s1.len() implies s1[j] == s.insert(
            i,
            Seq::<A>::empty(),
        )[j] by {
            if j < i {
                assert(q.contains(q[j]));
            } else if j > i {
                assert(q.contains(q[j - 1]));
            }
        }
    }
    lemma_flatten_insert_empty(s, i);
}

/// The map that sends each key to the value at the same place.
spec fn contents<K: Key, W>(ks: Seq<K::V>, vs: Seq<W>) -> Map<K::V, W> {
    Map::new(
        |k: K::V| ks.contains(k) && ks.index_of(k) < vs.len(),
        |k: K::V| vs[ks.index_of(k)],
    )
}

proof fn lemma_contents_at<K: Key, W>(ks: Seq<K::V>, vs: Seq<W>, i: int)
    requires
        ascending::<K>(ks),
        ks.len() == vs.len(),
        0 <= i < ks.len(),
    ensures
        contents::<K, W>(ks, vs).contains_key(ks[i]),
        contents::<K, W>(ks, vs)[ks[i]] == vs[i],
{
    lemma_ascending_no_duplicates::<K>(ks);
    assert(ks.contains(ks[i]));
    assert(ks.index_of(ks[i]) == i);
}

proof fn lemma_contents_lists<K: Key, W>(ks: Seq<K::V>, vs: Seq<W>)
    requires
        ascending::<K>(ks),
        ks.len() == vs.len(),
    ensures
        in_order::<K>(contents::<K, W>(ks, vs).dom()) == ks,
        contents::<K, W>(ks, vs).dom().len() == ks.len(),
{
    lemma_in_order_is::<K>(ks, contents::<K, W>(ks, vs).dom());
}

proof fn lemma_contents_insert<K: Key, W>(ks: Seq<K::V>, vs: Seq<W>, i: int, k: K::V, v: W)
    requires
        ascending::<K>(ks),
        ks.len() == vs.len(),
        splits::<K>(ks, k, i),
        !ks.contains(k),
    ensures
        contents::<K, W>(ks.insert(i, k), vs.insert(i, v)) == contents::<K, W>(ks, vs).insert(k, v),
{
    let ks1 = ks.insert(i, k);
    let vs1 = vs.insert(i, v);
    lemma_insert_keys::<K>(ks, k, i);
    let old = contents::<K, W>(ks, vs).insert(k, v);
    let new = contents::<K, W>(ks1, vs1);
    assert forall|x: K::V| new.contains_key(x) <==> old.contains_key(x) by {
        if ks1.contains(x) && x != k {
            let m = choose|m: int| 0 <= m < ks1.len() && ks1[m] == x;
            assert(ks[if m < i {
                m
            } else {
                m - 1
            }] == x);
        }
        if ks.contains(x) {
            let m = choose|m: int| 0 <= m < ks.len() && ks[m] == x;
            assert(ks1[if m < i {
                m
            } else {
                m + 1
            }] == x);
        }
        assert(ks1[i] == k);
    }
    assert forall|x: K::V| new.contains_key(x) implies new[x] == old[x] by {
        let m = choose|m: int| 0 <= m < ks1.len() && ks1[m] == x;
        lemma_contents_at::<K, W>(ks1, vs1, m);
        if x == k {
            lemma_contents_at::<K, W>(ks1, vs1, i);
        } else {
            let m0 = if m < i {
                m
            } else {
                m - 1
            };
            lemma_contents_at::<K, W>(ks, vs, m0);
        }
    }
    assert(new =~= old);
}

proof fn lemma_contents_update<K: Key, W>(ks: Seq<K::V>, vs: Seq<W>, i: int, v: W)
    requires
        ascending::<K>(ks),
        ks.len() == vs.len(),
        0 <= i < ks.len(),
    ensures
        contents::<K, W>(ks, vs.update(i, v)) == contents::<K, W>(ks, vs).insert(ks[i], v),
{
    let old = contents::<K, W>(ks, vs).insert(ks[i], v);
    let new = contents::<K, W>(ks, vs.update(i, v));
    lemma_contents_at::<K, W>(ks, vs, i);
    assert forall|x: K::V| new.contains_key(x) implies new[x] == old[x] by {
        let m = choose|m: int| 0 <= m < ks.len() && ks[m] == x;
        lemma_contents_at::<K, W>(ks, vs, m);
        lemma_contents_at::<K, W>(ks, vs.update(i, v), m);
        lemma_ascending_no_duplicates::<K>(ks);
    }
    assert(new =~= old);
}

proof fn lemma_contents_remove<K: Key, W>(ks: Seq<K::V>, vs: Seq<W>, i: int)
    requires
        ascending::<K>(ks),
        ks.len() == vs.len(),
        0 <= i < ks.len(),
    ensures
        contents::<K, W>(ks.remove(i), vs.remove(i)) == contents::<K, W>(ks, vs).remove(ks[i]),
{
    let ks1 = ks.remove(i);
    let vs1 = vs.remove(i);
    let old = contents::<K, W>(ks, vs).remove(ks[i]);
    let new = contents::<K, W>(ks1, vs1);
    lemma_ascending_no_duplicates::<K>(ks);
    lemma_remove_keys::<K>(ks, i);
    assert forall|x: K::V| new.contains_key(x) <==> old.contains_key(x) by {
        if ks1.contains(x) {
            let m = choose|m: int| 0 <= m < ks1.len() && ks1[m] == x;
            assert(ks[if m < i {
                m
            } else {
                m + 1
            }] == x);
        }
        if ks.contains(x) && x != ks[i] {
            let m = choose|m: int| 0 <= m < ks.len() && ks[m] == x;
            assert(ks1[if m < i {
                m
            } else {
                m - 1
            }] == x);
        }
    }
    assert forall|x: K::V| new.contains_key(x) implies new[x] == old[x] by {
        let m = choose|m: int| 0 <= m < ks1.len() && ks1[m] == x;
        lemma_contents_at::<K, W>(ks1, vs1, m);
        lemma_contents_at::<K, W>(
            ks,
            vs,
            if m < i {
                m
            } else {
                m + 1
            },
        );
    }
    assert(new =~= old);
}

#[derive(Debug)]
struct Entries<K, V> {
    keys: Vec<K>,
    values: Vec<V>,
}

/// A map from keys to values, kept in ascending order of the keys.
#[derive(Debug)]
pub struct OrdMap<K: Key, V> {
    inner: Entries<K, V>,
}

impl<K: Key, V> OrdMap<K, V> {
    #[verifier::type_invariant]
    spec fn ordered(self) -> bool {
        &&& self.inner.keys@.len() == self.inner.values@.len()
        &&& ascending::<K>(seqs::views(self.inner.keys@))
    }
}

impl<K: Key, V: View> View for OrdMap<K, V> {
    type V = Map<K::V, V::V>;

    closed spec fn view(&self) -> Map<K::V, V::V> {
        contents::<K, V::V>(seqs::views(self.inner.keys@), seqs::views(self.inner.values@))
    }
}

/// Putting back what is there changes nothing.
pub broadcast proof fn lemma_insert_same<A, B>(m: Map<A, B>, k: A)
    requires
        m.contains_key(k),
    ensures
        #[trigger] m.insert(k, m[k]) == m,
{
    assert(m.insert(k, m[k]) =~= m);
}

/// The keys of a map are finitely many.
pub broadcast proof fn lemma_map_finite<K: Key, V: View>(m: OrdMap<K, V>)
    ensures
        #[trigger] m@.dom().finite(),
{
    let ks = seqs::views(m.inner.keys@);
    vstd::seq_lib::seq_to_set_is_finite(ks);
    assert(m@.dom().subset_of(ks.to_set()));
    vstd::set_lib::lemma_len_subset(m@.dom(), ks.to_set());
}

/// The place where a key is, or would be inserted.
fn locate<K: Key>(keys: &Vec<K>, key: &K) -> (r: (usize, bool))
    requires
        ascending::<K>(seqs::views(keys@)),
    ensures
        splits::<K>(seqs::views(keys@), key@, r.0 as int),
        r.1 <==> seqs::views(keys@).contains(key@),
        r.1 ==> r.0 < keys@.len() && keys@[r.0 as int]@ == key@,
{
    let ghost ks = seqs::views(keys@);
    let mut lo: usize = 0;
    let mut hi: usize = keys.len();
    while lo < hi
        invariant
            ks == seqs::views(keys@),
            ascending::<K>(ks),
            lo <= hi <= keys@.len(),
            forall|j: int| 0 <= j < lo ==> K::before(#[trigger] ks[j], key@),
            forall|j: int| hi <= j < ks.len() ==> !K::before(#[trigger] ks[j], key@),
        decreases hi - lo,
    {
        let mid: usize = lo + (hi - lo) / 2;
        assert(ks[mid as int] == keys@[mid as int]@);
        match keys[mid].order(key) {
            Order::Before => {
                proof {
                    assert forall|j: int| 0 <= j < mid + 1 implies K::before(
                        #[trigger] ks[j],
                        key@,
                    ) by {
                        if j < mid {
                            assert(K::before(ks[j], ks[mid as int]));
                            K::before_is_transitive(ks[j], ks[mid as int], key@);
                        }
                    }
                }
                lo = mid + 1;
            },
            _ => {
                proof {
                    assert forall|j: int| mid <= j < ks.len() implies !K::before(
                        #[trigger] ks[j],
                        key@,
                    ) by {
                        if j > mid {
                            assert(K::before(ks[mid as int], ks[j]));
                            if K::before(ks[j], key@) {
                                K::before_is_transitive(ks[mid as int], ks[j], key@);
                            }
                        }
                    }
                }
                hi = mid;
            },
        }
    }
    proof {
        assert(splits::<K>(ks, key@, lo as int));
        lemma_split_member::<K>(ks, key@, lo as int);
    }
    let found = lo < keys.len() && match keys[lo].order(key) {
        Order::Same => true,
        _ => false,
    };
    (lo, found)
}

impl<K: Key, V: View> OrdMap<K, V> {
    pub fn new() -> (r: Self)
        ensures
            r@ == Map::<K::V, V::V>::empty(),
    {
        let r = OrdMap { inner: Entries { keys: Vec::new(), values: Vec::new() } };
        assert(r@ =~= Map::<K::V, V::V>::empty());
        r
    }

    pub fn len(&self) -> (r: usize)
        ensures
            r == self@.dom().len(),
    {
        proof {
            use_type_invariant(self);
            lemma_contents_lists::<K, V::V>(
                seqs::views(self.inner.keys@),
                seqs::views(self.inner.values@),
            );
        }
        self.inner.keys.len()
    }

    pub fn is_empty(&self) -> (r: bool)
        ensures
            r <==> self@ == Map::<K::V, V::V>::empty(),
            r <==> self@.dom().len() == 0,
    {
        let n: usize = self.len();
        proof {
            lemma_map_finite(*self);
            if n == 0 {
                assert(self@.dom() =~= Set::empty());
                assert(self@ =~= Map::empty());
            }
        }
        n == 0
    }

    pub fn contains_key(&self, key: &K) -> (r: bool)
        ensures
            r <==> self@.contains_key(key@),
    {
        proof {
            use_type_invariant(self);
        }
        locate(&self.inner.keys, key).1
    }

    pub fn get(&self, key: &K) -> (r: Option<&V>)
        ensures
            match r {
                Some(v) => self@.contains_key(key@) && v@ == self@[key@],
                None => !self@.contains_key(key@),
            },
    {
        proof {
            use_type_invariant(self);
        }
        let (i, found) = locate(&self.inner.keys, key);
        if found {
            proof {
                lemma_contents_at::<K, V::V>(
                    seqs::views(self.inner.keys@),
                    seqs::views(self.inner.values@),
                    i as int,
                );
            }
            Some(&self.inner.values[i])
        } else {
            None
        }
    }

    pub fn get_mut(&mut self, key: &K) -> (r: Option<&mut V>)
        ensures
            match r {
                Some(v) => old(self)@.contains_key(key@) && v@ == old(self)@[key@] && final(self)@
                    == old(self)@.insert(key@, (*final(v))@),
                None => !old(self)@.contains_key(key@) && final(self)@ == old(self)@,
            },
    {
        proof {
            use_type_invariant(&*self);
        }
        let (i, found) = locate(&self.inner.keys, key);
        if found {
            proof {
                lemma_contents_at::<K, V::V>(
                    seqs::views(self.inner.keys@),
                    seqs::views(self.inner.values@),
                    i as int,
                );
            }
            let ghost ks = seqs::views(self.inner.keys@);
            let ghost vs = self.inner.values@;
            let r = &mut self.inner.values[i];
            proof {
                assert(seqs::views(vs.update(i as int, *final(r))) =~= seqs::views(vs).update(
                    i as int,
                    (*final(r))@,
                ));
                lemma_contents_update::<K, V::V>(ks, seqs::views(vs), i as int, (*final(r))@);
            }
            Some(r)
        } else {
            None
        }
    }

    pub fn insert(&mut self, key: K, value: V)
        ensures
            final(self)@ == old(self)@.insert(key@, value@),
    {
        broadcast use crate::seqs::group_views;

        proof {
            use_type_invariant(&*self);
        }
        let mut inner = Entries { keys: Vec::new(), values: Vec::new() };
        std::mem::swap(&mut inner, &mut self.inner);
        let ghost ks = seqs::views(inner.keys@);
        let ghost vs = seqs::views(inner.values@);
        let (i, found) = locate(&inner.keys, &key);
        if found {
            proof {
                lemma_contents_update::<K, V::V>(ks, vs, i as int, value@);
            }
            inner.values[i] = value;
            assert(seqs::views(inner.values@) =~= vs.update(i as int, value@));
        } else {
            proof {
                lemma_insert_keys::<K>(ks, key@, i as int);
                lemma_contents_insert::<K, V::V>(ks, vs, i as int, key@, value@);
            }
            inner.keys.insert(i, key);
            inner.values.insert(i, value);
        }
        self.inner = inner;
    }

    pub fn remove(&mut self, key: &K) -> (r: Option<V>)
        ensures
            match r {
                Some(v) => old(self)@.contains_key(key@) && v@ == old(self)@[key@],
                None => !old(self)@.contains_key(key@),
            },
            final(self)@ == old(self)@.remove(key@),
    {
        broadcast use crate::seqs::group_views;

        proof {
            use_type_invariant(&*self);
        }
        let mut inner = Entries { keys: Vec::new(), values: Vec::new() };
        std::mem::swap(&mut inner, &mut self.inner);
        let ghost ks = seqs::views(inner.keys@);
        let ghost vs = seqs::views(inner.values@);
        let (i, found) = locate(&inner.keys, key);
        if found {
            proof {
                lemma_contents_at::<K, V::V>(ks, vs, i as int);
                lemma_remove_keys::<K>(ks, i as int);
                lemma_contents_remove::<K, V::V>(ks, vs, i as int);
            }
            inner.keys.remove(i);
            let value = inner.values.remove(i);
            self.inner = inner;
            Some(value)
        } else {
            assert(contents::<K, V::V>(ks, vs).remove(key@) =~= contents::<K, V::V>(ks, vs));
            self.inner = inner;
            None
        }
    }

    pub fn clear(&mut self)
        ensures
            final(self)@ == Map::<K::V, V::V>::empty(),
    {
        self.inner = Entries { keys: Vec::new(), values: Vec::new() };
        assert(self@ =~= Map::<K::V, V::V>::empty());
    }

    /// The key at place `i`, counted in ascending order.
    pub fn key_at(&self, i: usize) -> (r: &K)
        requires
            i < self@.dom().len(),
        ensures
            r@ == in_order::<K>(self@.dom())[i as int],
            self@.contains_key(r@),
    {
        proof {
            use_type_invariant(self);
            let ks = seqs::views(self.inner.keys@);
            let vs = seqs::views(self.inner.values@);
            lemma_contents_lists::<K, V::V>(ks, vs);
            lemma_contents_at::<K, V::V>(ks, vs, i as int);
        }
        &self.inner.keys[i]
    }

    /// The value at place `i`, counted in ascending order of the keys.
    pub fn value_at(&self, i: usize) -> (r: &V)
        requires
            i < self@.dom().len(),
        ensures
            r@ == self@[in_order::<K>(self@.dom())[i as int]],
    {
        proof {
            use_type_invariant(self);
            let ks = seqs::views(self.inner.keys@);
            let vs = seqs::views(self.inner.values@);
            lemma_contents_lists::<K, V::V>(ks, vs);
            lemma_contents_at::<K, V::V>(ks, vs, i as int);
        }
        &self.inner.values[i]
    }

    /// What a key stands for is the view of a value.
    pub proof fn lemma_value_view(self, key: K::V)
        requires
            self@.contains_key(key),
        ensures
            exists|v: V| #[trigger] v@ == self@[key],
    {
        let ks = seqs::views(self.inner.keys@);
        let i = ks.index_of(key);
        assert(self.inner.values@[i]@ == self@[key]);
    }

    /// The place of a key that is there.
    pub fn place_of(&self, key: &K) -> (r: usize)
        requires
            self@.contains_key(key@),
        ensures
            r < self@.dom().len(),
            in_order::<K>(self@.dom())[r as int] == key@,
    {
        proof {
            use_type_invariant(self);
            lemma_contents_lists::<K, V::V>(
                seqs::views(self.inner.keys@),
                seqs::views(self.inner.values@),
            );
        }
        locate(&self.inner.keys, key).0
    }

    /// The value at place `i`, for a change in place.
    pub fn value_at_mut(&mut self, i: usize) -> (r: &mut V)
        requires
            i < old(self)@.dom().len(),
        ensures
            old(self)@.contains_key(in_order::<K>(old(self)@.dom())[i as int]),
            r@ == old(self)@[in_order::<K>(old(self)@.dom())[i as int]],
            final(self)@ == old(self)@.insert(
                in_order::<K>(old(self)@.dom())[i as int],
                (*final(r))@,
            ),
    {
        let ghost ks = seqs::views(self.inner.keys@);
        let ghost vs = self.inner.values@;
        proof {
            use_type_invariant(&*self);
            lemma_contents_lists::<K, V::V>(ks, seqs::views(vs));
            lemma_contents_at::<K, V::V>(ks, seqs::views(vs), i as int);
        }
        let r = &mut self.inner.values[i];
        proof {
            assert(seqs::views(vs.update(i as int, *final(r))) =~= seqs::views(vs).update(
                i as int,
                (*final(r))@,
            ));
            lemma_contents_update::<K, V::V>(ks, seqs::views(vs), i as int, (*final(r))@);
        }
        r
    }

    /// The keys in ascending order.
    pub fn keys(&self) -> (r: Vec<K>)
        ensures
            seqs::views(r@) == in_order::<K>(self@.dom()),
    {
        proof {
            use_type_invariant(self);
            lemma_contents_lists::<K, V::V>(
                seqs::views(self.inner.keys@),
                seqs::views(self.inner.values@),
            );
        }
        let mut r: Vec<K> = Vec::new();
        let mut i: usize = 0;
        while i < self.inner.keys.len()
            invariant
                i <= self.inner.keys@.len(),
                seqs::views(r@) == seqs::views(self.inner.keys@).take(i as int),
            decreases self.inner.keys@.len() - i,
        {
            broadcast use crate::seqs::group_views;

            let ghost ks = seqs::views(self.inner.keys@);
            r.push(self.inner.keys[i].duplicate());
            assert(ks.take(i as int).push(ks[i as int]) =~= ks.take(i + 1));
            i = i + 1;
        }
        assert(seqs::views(self.inner.keys@).take(i as int) =~= seqs::views(self.inner.keys@));
        r
    }
}

/// A set of keys, kept in ascending order.
#[derive(Debug)]
pub struct OrdSet<K: Key> {
    map: OrdMap<K, ()>,
}

impl<K: Key> View for OrdSet<K> {
    type V = Set<K::V>;

    closed spec fn view(&self) -> Set<K::V> {
        self.map@.dom()
    }
}

/// A set has finitely many elements.
pub broadcast proof fn lemma_set_finite<K: Key>(s: OrdSet<K>)
    ensures
        #[trigger] s@.finite(),
{
    lemma_map_finite(s.map);
}

pub broadcast group group_maps {
    lemma_insert_same,
    lemma_map_finite,
    lemma_set_finite,
}

impl<K: Key> OrdSet<K> {
    pub fn new() -> (r: Self)
        ensures
            r@ == Set::<K::V>::empty(),
    {
        let r = OrdSet { map: OrdMap::new() };
        assert(r@ =~= Set::<K::V>::empty());
        r
    }

    pub fn len(&self) -> (r: usize)
        ensures
            r == self@.len(),
    {
        self.map.len()
    }

    pub fn contains(&self, key: &K) -> (r: bool)
        ensures
            r <==> self@.contains(key@),
    {
        self.map.contains_key(key)
    }

    /// Adds `key`; says whether it was new.
    pub fn insert(&mut self, key: K) -> (r: bool)
        ensures
            r <==> !old(self)@.contains(key@),
            final(self)@ == old(self)@.insert(key@),
    {
        let r = !self.map.contains_key(&key);
        self.map.insert(key, ());
        assert(self@ =~= old(self)@.insert(key@));
        r
    }

    /// Removes `key`; says whether it was there.
    pub fn remove(&mut self, key: &K) -> (r: bool)
        ensures
            r <==> old(self)@.contains(key@),
            final(self)@ == old(self)@.remove(key@),
    {
        let r = self.map.remove(key).is_some();
        assert(self@ =~= old(self)@.remove(key@));
        r
    }

    pub fn clear(&mut self)
        ensures
            final(self)@ == Set::<K::V>::empty(),
    {
        self.map.clear();
        assert(self@ =~= Set::<K::V>::empty());
    }

    /// The elements in ascending order.
    pub fn elements(&self) -> (r: Vec<K>)
        ensures
            seqs::views(r@) == in_order::<K>(self@),
    {
        self.map.keys()
    }
}

} // verus!
