//! Sequence functions that the favorites' contracts are written with, and
//! their lemmas.

use vstd::prelude::*;

verus! {

/// The items of `s` without repeats, each at its first occurrence.
pub open spec fn dedup<A>(s: Seq<A>) -> Seq<A>
    decreases s.len(),
{
    if s.len() == 0 {
        s
    } else {
        let d = dedup(s.drop_last());
        if d.contains(s.last()) {
            d
        } else {
            d.push(s.last())
        }
    }
}

/// The items of `s` that are not in `ex`, in their order.
pub open spec fn without<A>(s: Seq<A>, ex: Set<A>) -> Seq<A>
    decreases s.len(),
{
    if s.len() == 0 {
        s
    } else {
        let r = without(s.drop_last(), ex);
        if ex.contains(s.last()) {
            r
        } else {
            r.push(s.last())
        }
    }
}

/// Membership in a nonempty sequence: in its front or its last item.
pub proof fn lemma_contains_split<A>(s: Seq<A>)
    requires
        s.len() > 0,
    ensures
        forall|x: A| s.contains(x) <==> (s.drop_last().contains(x) || x == s.last()),
{
    let t = s.drop_last();
    assert forall|x: A| s.contains(x) <==> (t.contains(x) || x == s.last()) by {
        if s.contains(x) {
            let k = choose|k: int| 0 <= k < s.len() && s[k] == x;
            if k < s.len() - 1 {
                assert(t[k] == x);
            }
        }
        if t.contains(x) {
            let k = choose|k: int| 0 <= k < t.len() && t[k] == x;
            assert(s[k] == x);
        }
        if x == s.last() {
            assert(s[s.len() - 1] == x);
        }
    }
}

/// Membership after a push.
pub proof fn lemma_contains_push<A>(s: Seq<A>, y: A)
    ensures
        forall|x: A| s.push(y).contains(x) <==> (s.contains(x) || x == y),
{
    lemma_contains_split(s.push(y));
    assert(s.push(y).drop_last() =~= s);
}

pub proof fn lemma_dedup_push<A>(s: Seq<A>, x: A)
    ensures
        dedup(s.push(x)) == (if dedup(s).contains(x) {
            dedup(s)
        } else {
            dedup(s).push(x)
        }),
{
    assert(s.push(x).drop_last() =~= s);
}

/// `dedup` keeps exactly the items of its argument, once each.
pub proof fn lemma_dedup<A>(s: Seq<A>)
    ensures
        dedup(s).no_duplicates(),
        forall|x: A| dedup(s).contains(x) <==> s.contains(x),
        dedup(s).len() <= s.len(),
    decreases s.len(),
{
    if s.len() > 0 {
        let t = s.drop_last();
        lemma_dedup(t);
        assert(s =~= t.push(s.last()));
        lemma_contains_split(s);
        lemma_contains_push(dedup(t), s.last());
        if !dedup(t).contains(s.last()) {
            let d = dedup(t);
            assert forall|i: int, j: int|
                0 <= i < d.push(s.last()).len() && 0 <= j < d.push(s.last()).len() && i != j
                    implies d.push(s.last())[i] != d.push(s.last())[j] by {
                if i == d.len() {
                    assert(d[j] == d.push(s.last())[j]);
                } else if j == d.len() {
                    assert(d[i] == d.push(s.last())[i]);
                }
            }
        }
    }
}

/// A sequence without repeats is its own `dedup`.
pub proof fn lemma_dedup_of_distinct<A>(s: Seq<A>)
    requires
        s.no_duplicates(),
    ensures
        dedup(s) == s,
    decreases s.len(),
{
    if s.len() > 0 {
        let t = s.drop_last();
        assert(t.no_duplicates());
        lemma_dedup_of_distinct(t);
        lemma_dedup(t);
        if t.contains(s.last()) {
            let k = choose|k: int| 0 <= k < t.len() && t[k] == s.last();
            assert(s[k] == s[s.len() - 1]);
        }
        assert(t.push(s.last()) =~= s);
    }
}

pub proof fn lemma_without_push<A>(s: Seq<A>, x: A, ex: Set<A>)
    ensures
        without(s.push(x), ex) == (if ex.contains(x) {
            without(s, ex)
        } else {
            without(s, ex).push(x)
        }),
{
    assert(s.push(x).drop_last() =~= s);
}

/// `without` keeps the items outside `ex`, and keeps a sequence without
/// repeats free of them.
pub proof fn lemma_without<A>(s: Seq<A>, ex: Set<A>)
    ensures
        forall|x: A| without(s, ex).contains(x) <==> s.contains(x) && !ex.contains(x),
        s.no_duplicates() ==> without(s, ex).no_duplicates(),
        without(s, ex).len() <= s.len(),
    decreases s.len(),
{
    if s.len() > 0 {
        let t = s.drop_last();
        lemma_without(t, ex);
        assert(s =~= t.push(s.last()));
        lemma_contains_split(s);
        lemma_contains_push(without(t, ex), s.last());
        if s.no_duplicates() && !ex.contains(s.last()) {
            assert(t.no_duplicates());
            let d = without(t, ex);
            assert(!d.contains(s.last())) by {
                if d.contains(s.last()) {
                    let k = choose|k: int| 0 <= k < t.len() && t[k] == s.last();
                    assert(s[k] == s[s.len() - 1]);
                }
            }
            assert forall|i: int, j: int|
                0 <= i < d.push(s.last()).len() && 0 <= j < d.push(s.last()).len() && i != j
                    implies d.push(s.last())[i] != d.push(s.last())[j] by {
                if i == d.len() {
                    assert(d[j] == d.push(s.last())[j]);
                } else if j == d.len() {
                    assert(d[i] == d.push(s.last())[i]);
                }
            }
        }
    }
}

/// Nothing of `s` in `ex`: `without` leaves `s` as it is.
pub proof fn lemma_without_disjoint<A>(s: Seq<A>, ex: Set<A>)
    requires
        forall|i: int| 0 <= i < s.len() ==> !ex.contains(#[trigger] s[i]),
    ensures
        without(s, ex) == s,
    decreases s.len(),
{
    if s.len() > 0 {
        let t = s.drop_last();
        assert forall|i: int| 0 <= i < t.len() implies !ex.contains(#[trigger] t[i]) by {
            assert(t[i] == s[i]);
        }
        lemma_without_disjoint(t, ex);
        assert(t.push(s.last()) =~= s);
    }
}

/// `without` distributes over concatenation.
pub proof fn lemma_without_concat<A>(a: Seq<A>, b: Seq<A>, ex: Set<A>)
    ensures
        without(a + b, ex) == without(a, ex) + without(b, ex),
    decreases b.len(),
{
    if b.len() == 0 {
        assert(a + b =~= a);
        assert(without(a, ex) + without(b, ex) =~= without(a, ex));
    } else {
        let c = b.drop_last();
        lemma_without_concat(a, c, ex);
        assert((a + b).drop_last() =~= a + c);
        assert(b.drop_last() =~= c);
        if !ex.contains(b.last()) {
            assert(without(a, ex) + without(c, ex).push(b.last()) =~= (without(a, ex) + without(
                c,
                ex,
            )).push(b.last()));
        }
    }
}

/// Removing by two sets one after the other removes by their union.
pub proof fn lemma_without_twice<A>(s: Seq<A>, e1: Set<A>, e2: Set<A>)
    ensures
        without(without(s, e1), e2) == without(s, e1.union(e2)),
    decreases s.len(),
{
    if s.len() > 0 {
        let t = s.drop_last();
        lemma_without_twice(t, e1, e2);
        if !e1.contains(s.last()) {
            lemma_without_push(without(t, e1), s.last(), e2);
        }
    }
}

/// In a sequence without repeats, removing the place that holds `x` is
/// removing `x`.
pub proof fn lemma_remove_is_without<A>(t: Seq<A>, i: int)
    requires
        t.no_duplicates(),
        0 <= i < t.len(),
    ensures
        t.remove(i) == without(t, set![t[i]]),
    decreases t.len(),
{
    let x = t[i];
    let u = t.drop_last();
    assert(u.no_duplicates());
    if i == t.len() - 1 {
        assert forall|k: int| 0 <= k < u.len() implies !set![x].contains(#[trigger] u[k]) by {
            assert(u[k] == t[k]);
        }
        lemma_without_disjoint(u, set![x]);
        assert(t.remove(i) =~= u);
    } else {
        lemma_remove_is_without(u, i);
        assert(u[i] == x);
        assert(t.last() != x);
        assert(t.remove(i) =~= u.remove(i).push(t.last()));
    }
}

/// Putting a sequence without repeats back to `dedup` after appending the
/// new items of `b`.
pub proof fn lemma_dedup_append<A>(a: Seq<A>, b: Seq<A>)
    requires
        a.no_duplicates(),
    ensures
        dedup(a + b) == a + without(dedup(b), a.to_set()),
    decreases b.len(),
{
    if b.len() == 0 {
        lemma_dedup_of_distinct(a);
        assert(a + b =~= a);
        assert(a + without(dedup(b), a.to_set()) =~= a);
    } else {
        let c = b.drop_last();
        let x = b.last();
        lemma_dedup_append(a, c);
        assert((a + b) =~= (a + c).push(x));
        assert(b =~= c.push(x));
        lemma_dedup_push(a + c, x);
        lemma_dedup_push(c, x);
        lemma_dedup(c);
        lemma_without(dedup(c), a.to_set());
        let w = without(dedup(c), a.to_set());
        assert((a + w).contains(x) <==> a.contains(x) || w.contains(x)) by {
            if (a + w).contains(x) {
                let k = choose|k: int| 0 <= k < (a + w).len() && (a + w)[k] == x;
                if k >= a.len() {
                    assert(w[k - a.len()] == x);
                }
            }
            if w.contains(x) {
                let k = choose|k: int| 0 <= k < w.len() && w[k] == x;
                assert((a + w)[k + a.len()] == x);
            }
            if a.contains(x) {
                let k = choose|k: int| 0 <= k < a.len() && a[k] == x;
                assert((a + w)[k] == x);
            }
        }
        assert(a.contains(x) <==> a.to_set().contains(x));
        if !dedup(c).contains(x) {
            lemma_without_push(dedup(c), x, a.to_set());
            if !a.to_set().contains(x) {
                assert(a + w.push(x) =~= (a + w).push(x));
            }
        }
    }
}

/// Membership in a concatenation.
pub proof fn lemma_concat_contains<A>(a: Seq<A>, b: Seq<A>)
    ensures
        forall|x: A| (a + b).contains(x) <==> a.contains(x) || b.contains(x),
{
    assert forall|x: A| (a + b).contains(x) <==> a.contains(x) || b.contains(x) by {
        if (a + b).contains(x) {
            let k = choose|k: int| 0 <= k < (a + b).len() && (a + b)[k] == x;
            if k >= a.len() {
                assert(b[k - a.len()] == x);
            }
        }
        if a.contains(x) {
            let k = choose|k: int| 0 <= k < a.len() && a[k] == x;
            assert((a + b)[k] == x);
        }
        if b.contains(x) {
            let k = choose|k: int| 0 <= k < b.len() && b[k] == x;
            assert((a + b)[k + a.len()] == x);
        }
    }
}

} // verus!
