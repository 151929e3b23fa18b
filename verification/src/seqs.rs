//! Views of sequences, element by element.

use vstd::prelude::*;

verus! {

/// A text as the characters it holds.
pub type Text = Seq<char>;

/// The sequence of the views of the elements of `s`.
pub open spec fn views<T: View>(s: Seq<T>) -> Seq<T::V> {
    Seq::new(s.len(), |i: int| s[i]@)
}

/// The view of an optional value.
pub open spec fn opt_view<T: View>(o: Option<T>) -> Option<T::V> {
    match o {
        Some(v) => Some(v@),
        None => None,
    }
}

/// The view of a result that carries a text as its error.
pub open spec fn result_view<T: View>(r: Result<T, String>) -> Result<T::V, Text> {
    match r {
        Ok(v) => Ok(v@),
        Err(e) => Err(e@),
    }
}

/// The sum of a sequence of numbers.
pub open spec fn sum(s: Seq<nat>) -> nat
    decreases s.len(),
{
    if s.len() == 0 {
        0
    } else {
        sum(s.drop_last()) + s.last()
    }
}

/// A number, or the largest that can be counted to.
pub open spec fn countable(n: nat) -> usize {
    if n <= usize::MAX {
        n as usize
    } else {
        usize::MAX
    }
}

/// What a filter keeps of a sequence without duplicates has none either.
pub proof fn lemma_filter_no_duplicates<A>(s: Seq<A>, p: spec_fn(A) -> bool)
    requires
        s.no_duplicates(),
    ensures
        s.filter(p).no_duplicates(),
    decreases s.len(),
{
    reveal(Seq::filter);
    if s.len() > 0 {
        let t = s.drop_last();
        lemma_filter_no_duplicates(t, p);
        lemma_filter_contains(t, p);
        let f = t.filter(p);
        if p(s.last()) {
            assert forall|i: int, j: int|
                0 <= i < f.push(s.last()).len() && 0 <= j < f.push(s.last()).len() && i
                    != j implies f.push(s.last())[i] != f.push(s.last())[j] by {
                if i == f.len() {
                    assert(f.contains(f[j]));
                    assert(t.contains(f[j]));
                } else if j == f.len() {
                    assert(f.contains(f[i]));
                    assert(t.contains(f[i]));
                }
            }
        }
    }
}

pub broadcast proof fn lemma_views_empty<T: View>()
    ensures
        #[trigger] views(Seq::<T>::empty()) == Seq::<T::V>::empty(),
{
    assert(views(Seq::<T>::empty()) =~= Seq::<T::V>::empty());
}

pub broadcast proof fn lemma_views_push<T: View>(s: Seq<T>, x: T)
    ensures
        #[trigger] views(s.push(x)) == views(s).push(x@),
{
    assert(views(s.push(x)) =~= views(s).push(x@));
}

pub broadcast proof fn lemma_views_subrange<T: View>(s: Seq<T>, i: int, j: int)
    requires
        0 <= i <= j <= s.len(),
    ensures
        #[trigger] views(s.subrange(i, j)) == views(s).subrange(i, j),
{
    assert(views(s.subrange(i, j)) =~= views(s).subrange(i, j));
}

pub broadcast proof fn lemma_views_insert<T: View>(s: Seq<T>, i: int, x: T)
    requires
        0 <= i <= s.len(),
    ensures
        #[trigger] views(s.insert(i, x)) == views(s).insert(i, x@),
{
    assert(views(s.insert(i, x)) =~= views(s).insert(i, x@));
}

pub broadcast proof fn lemma_views_remove<T: View>(s: Seq<T>, i: int)
    requires
        0 <= i < s.len(),
    ensures
        #[trigger] views(s.remove(i)) == views(s).remove(i),
{
    assert(views(s.remove(i)) =~= views(s).remove(i));
}

pub broadcast proof fn lemma_views_u64(s: Seq<u64>)
    ensures
        #[trigger] views(s) == s,
{
    assert(views(s) =~= s);
}

/// What a filter keeps of one element more.
pub proof fn lemma_filter_take<A>(s: Seq<A>, p: spec_fn(A) -> bool, i: int)
    requires
        0 <= i < s.len(),
    ensures
        s.take(i + 1).filter(p) == if p(s[i]) {
            s.take(i).filter(p).push(s[i])
        } else {
            s.take(i).filter(p)
        },
{
    reveal(Seq::filter);
    assert(s.take(i + 1).drop_last() =~= s.take(i));
}

/// What a filter keeps of nothing and of everything.
pub proof fn lemma_filter_ends<A>(s: Seq<A>, p: spec_fn(A) -> bool)
    ensures
        s.take(0).filter(p) == Seq::<A>::empty(),
        s.take(s.len() as int).filter(p) == s.filter(p),
{
    reveal(Seq::filter);
    assert(s.take(0) =~= Seq::<A>::empty());
    assert(s.take(s.len() as int) =~= s);
}

/// The first element that passes is the first that the filter keeps.
pub proof fn lemma_filter_first<A>(s: Seq<A>, p: spec_fn(A) -> bool, i: int)
    requires
        0 <= i < s.len(),
        p(s[i]),
        s.take(i).filter(p).len() == 0,
    ensures
        s.filter(p).len() > 0,
        s.filter(p)[0] == s[i],
{
    lemma_filter_take(s, p, i);
    assert(s =~= s.take(i + 1) + s.skip(i + 1));
    Seq::filter_distributes_over_add(s.take(i + 1), s.skip(i + 1), p);
    assert(s.take(i + 1).filter(p)[0] == s[i]);
}

/// Filters that agree on the elements of a sequence keep the same.
pub proof fn lemma_filter_same<A>(s: Seq<A>, p: spec_fn(A) -> bool, q: spec_fn(A) -> bool)
    requires
        forall|i: int| 0 <= i < s.len() ==> p(#[trigger] s[i]) == q(s[i]),
    ensures
        s.filter(p) == s.filter(q),
    decreases s.len(),
{
    reveal(Seq::filter);
    if s.len() > 0 {
        let t = s.drop_last();
        assert forall|i: int| 0 <= i < t.len() implies p(#[trigger] t[i]) == q(t[i]) by {
            assert(t[i] == s[i]);
        }
        lemma_filter_same(t, p, q);
        assert(p(s[s.len() - 1]) == q(s[s.len() - 1]));
    }
}

/// Where the first element that passes stands.
pub proof fn lemma_filter_first_at<A>(s: Seq<A>, p: spec_fn(A) -> bool) -> (i: int)
    requires
        s.filter(p).len() > 0,
    ensures
        0 <= i < s.len(),
        s[i] == s.filter(p)[0],
        p(s[i]),
        forall|j: int| 0 <= j < i ==> !p(#[trigger] s[j]),
    decreases s.len(),
{
    reveal(Seq::filter);
    let t = s.drop_last();
    if t.filter(p).len() > 0 {
        let i = lemma_filter_first_at(t, p);
        assert(t[i] == s[i]);
        assert forall|j: int| 0 <= j < i implies !p(#[trigger] s[j]) by {
            assert(t[j] == s[j]);
        }
        i
    } else {
        lemma_filter_contains(t, p);
        assert forall|j: int| 0 <= j < s.len() - 1 implies !p(#[trigger] s[j]) by {
            assert(t[j] == s[j]);
            assert(t.contains(t[j]));
            if p(t[j]) {
                assert(t.filter(p).contains(t[j]));
            }
        }
        s.len() - 1
    }
}

/// A filter keeps exactly the elements that pass.
pub proof fn lemma_filter_contains<A>(s: Seq<A>, p: spec_fn(A) -> bool)
    ensures
        forall|a: A| #[trigger] s.filter(p).contains(a) <==> s.contains(a) && p(a),
    decreases s.len(),
{
    reveal(Seq::filter);
    if s.len() > 0 {
        let t = s.drop_last();
        lemma_filter_contains(t, p);
        assert forall|a: A| #[trigger] s.filter(p).contains(a) <==> s.contains(a) && p(a) by {
            let f = t.filter(p);
            if s.filter(p).contains(a) {
                if p(s.last()) {
                    let j = choose|j: int| 0 <= j < f.push(s.last()).len() && f.push(s.last())[j] == a;
                    if j < f.len() {
                        assert(f[j] == a);
                        assert(f.contains(a));
                        let m = choose|m: int| 0 <= m < t.len() && t[m] == a;
                        assert(s[m] == a);
                    } else {
                        assert(s[s.len() - 1] == a);
                    }
                } else {
                    assert(f.contains(a));
                    let m = choose|m: int| 0 <= m < t.len() && t[m] == a;
                    assert(s[m] == a);
                }
            }
            if s.contains(a) && p(a) {
                let m = choose|m: int| 0 <= m < s.len() && s[m] == a;
                if m < t.len() {
                    assert(t[m] == a);
                    assert(t.contains(a));
                    assert(f.contains(a));
                    let j = choose|j: int| 0 <= j < f.len() && f[j] == a;
                    if p(s.last()) {
                        assert(f.push(s.last())[j] == a);
                    }
                } else {
                    assert(f.push(s.last())[f.len() as int] == a);
                }
            }
        }
    }
}

pub broadcast group group_views {
    lemma_views_u64,
    lemma_views_empty,
    lemma_views_push,
    lemma_views_subrange,
    lemma_views_insert,
    lemma_views_remove,
}

/// A copy of some texts.
pub fn copy_texts(texts: &Vec<String>) -> (r: Vec<String>)
    ensures
        views(r@) == views(texts@),
{
    let mut r: Vec<String> = Vec::new();
    let mut i: usize = 0;
    while i < texts.len()
        invariant
            i <= texts@.len(),
            r@.len() == i,
            forall|j: int| 0 <= j < i ==> (#[trigger] r@[j])@ == texts@[j]@,
        decreases texts@.len() - i,
    {
        r.push(texts[i].clone());
        i = i + 1;
    }
    assert(views(r@) =~= views(texts@));
    r
}

/// A copy of some numbers.
pub fn copy_numbers(numbers: &Vec<u64>) -> (r: Vec<u64>)
    ensures
        r@ == numbers@,
{
    let mut r: Vec<u64> = Vec::new();
    let mut i: usize = 0;
    while i < numbers.len()
        invariant
            i <= numbers@.len(),
            r@ == numbers@.take(i as int),
        decreases numbers@.len() - i,
    {
        r.push(numbers[i]);
        i = i + 1;
        assert(r@ =~= numbers@.take(i as int));
    }
    assert(numbers@.take(i as int) =~= numbers@);
    r
}

} // verus!
