//! The favorites: paths kept once each, in normal form (so that two
//! spellings of one path are one favorite), in the order in which they
//! were added, and walked in path order.

use indexmap::IndexSet;
use vstd::prelude::*;

use crate::index_set::{
    index_set_clone, index_set_contains, index_set_insert, index_set_items, index_set_len,
    index_set_new, index_set_shift_remove, index_set_values,
};
use crate::files_op::{addition_spec, removal_spec, FilesOp};
use crate::seqs::{
    dedup, lemma_concat_contains, lemma_contains_push, lemma_dedup, lemma_dedup_append, lemma_dedup_of_distinct,
    lemma_dedup_push, lemma_remove_is_without, lemma_without, lemma_without_concat,
    lemma_without_disjoint, lemma_without_push, lemma_without_twice, without,
};
use crate::normal::{
    all_normal, lemma_normal_idempotent, lemma_normals_all_normal, normal, normalize,
    normalize_all, normals,
};
use crate::url::{
    find_greatest_below, find_least_above, greatest_below, least_above,
    lemma_greatest_below_none, lemma_greatest_below_unique, lemma_least_above_none,
    lemma_least_above_unique, opt_text, texts,
};

verus! {

/// The favorite that the arrow from `url` lands on: forward, the first
/// favorite after `url` in path order, wrapping round to the first one;
/// backward, the last one before it, wrapping round to the last one. From
/// a path that is not a favorite the arrow lands on the first (forward) or
/// last (backward) favorite. Without favorites there is none.
pub open spec fn arrow_spec(s: Seq<Seq<char>>, url: Seq<char>, prev: bool) -> Option<Seq<char>> {
    if !prev {
        if s.contains(url) && least_above(s, Some(url)) is Some {
            least_above(s, Some(url))
        } else {
            least_above(s, None)
        }
    } else {
        if s.contains(url) && greatest_below(s, Some(url)) is Some {
            greatest_below(s, Some(url))
        } else {
            greatest_below(s, None)
        }
    }
}

/// What `set_many` leaves: with `state`, the new paths of `urls` appended
/// in the order of their first occurrence; without, every path of `urls`
/// taken out, the others keeping their order.
pub open spec fn set_many_spec(s: Seq<Seq<char>>, urls: Seq<Seq<char>>, state: bool) -> Seq<Seq<char>> {
    if state {
        s + without(dedup(urls), s.to_set())
    } else {
        without(s, urls.to_set())
    }
}

/// What `toggle_many` leaves: the favorites among `urls` taken out, and the
/// others of `urls` appended in the order of their first occurrence.
pub open spec fn toggle_many_spec(s: Seq<Seq<char>>, urls: Seq<Seq<char>>) -> Seq<Seq<char>> {
    without(s, urls.to_set()) + without(dedup(urls), s.to_set())
}

/// The favorites left after the file changes reported by `op`: those it
/// deletes or renames taken out, then the new paths of the renamed ones
/// appended.
pub open spec fn apply_op_spec(s: Seq<Seq<char>>, op: FilesOp) -> Seq<Seq<char>> {
    let mid = without(s, normals(removal_spec(op, s)).to_set());
    mid + without(dedup(normals(addition_spec(op, s))), mid.to_set())
}

/// The favorites.
pub struct Favorites {
    urls: IndexSet<String>,
}

impl View for Favorites {
    type V = Seq<Seq<char>>;

    /// The favorite paths in the order in which they were added.
    closed spec fn view(&self) -> Seq<Seq<char>> {
        index_set_items(self.urls)
    }
}

impl Default for Favorites {
    /// No favorites.
    fn default() -> (res: Self)
        ensures
            res.wf(),
            res@ == Seq::<Seq<char>>::empty(),
    {
        Favorites::new()
    }
}

impl Favorites {
    /// Every value holds each path once, in normal form.
    #[verifier::type_invariant]
    pub open spec fn wf(&self) -> bool {
        self@.no_duplicates() && all_normal(self@)
    }

    /// No favorites.
    pub fn new() -> (res: Self)
        ensures
            res.wf(),
            res@ == Seq::<Seq<char>>::empty(),
    {
        Favorites { urls: index_set_new() }
    }

    /// The same favorites, in the same order.
    pub fn duplicate(&self) -> (res: Self)
        ensures
            res.wf(),
            res@ == self@,
    {
        proof {
            use_type_invariant(&*self);
        }
        Favorites { urls: index_set_clone(&self.urls) }
    }

    /// The number of favorites.
    pub fn len(&self) -> (res: usize)
        ensures
            res == self@.len(),
    {
        index_set_len(&self.urls)
    }

    /// Whether there are no favorites.
    pub fn is_empty(&self) -> (res: bool)
        ensures
            res == (self@.len() == 0),
    {
        index_set_len(&self.urls) == 0
    }

    /// The favorites in the order in which they were added.
    pub fn iter(&self) -> (res: Vec<String>)
        ensures
            texts(res@) == self@,
    {
        let v = index_set_values(&self.urls);
        assert(texts(v@) =~= self@);
        v
    }

    /// Whether `url` is a favorite: whether its normal form is one.
    pub fn contains(&self, url: &str) -> (res: bool)
        ensures
            res == self@.contains(normal(url@)),
    {
        let n = normalize(url);
        index_set_contains(&self.urls, n.as_str())
    }

    /// The favorite that the arrow from `url` lands on (see `arrow_spec`),
    /// `url` taken in normal form.
    pub fn arrow(&self, url: &str, prev: bool) -> (res: Option<String>)
        ensures
            opt_text(res) == arrow_spec(self@, normal(url@), prev),
    {
        let n = normalize(url);
        let url = n.as_str();
        let values = self.iter();
        let present = index_set_contains(&self.urls, url);
        if !prev {
            let after = if present {
                find_least_above(&values, Some(url))
            } else {
                None
            };
            let idx = match after {
                Some(i) => Some(i),
                None => find_least_above(&values, None),
            };
            proof {
                if let Some(i) = after {
                    lemma_least_above_unique(self@, Some(url@), values@[i as int]@);
                } else if present {
                    lemma_least_above_none(self@, Some(url@));
                }
                if after is None {
                    if let Some(i) = idx {
                        lemma_least_above_unique(self@, None, values@[i as int]@);
                    } else {
                        lemma_least_above_none(self@, None);
                    }
                }
            }
            match idx {
                Some(i) => Some(values[i].clone()),
                None => None,
            }
        } else {
            let before = if present {
                find_greatest_below(&values, Some(url))
            } else {
                None
            };
            let idx = match before {
                Some(i) => Some(i),
                None => find_greatest_below(&values, None),
            };
            proof {
                if let Some(i) = before {
                    lemma_greatest_below_unique(self@, Some(url@), values@[i as int]@);
                } else if present {
                    lemma_greatest_below_none(self@, Some(url@));
                }
                if before is None {
                    if let Some(i) = idx {
                        lemma_greatest_below_unique(self@, None, values@[i as int]@);
                    } else {
                        lemma_greatest_below_none(self@, None);
                    }
                }
            }
            match idx {
                Some(i) => Some(values[i].clone()),
                None => None,
            }
        }
    }
}

/// The set of the first `i` items of `s`, one more than that of the first
/// `i - 1`.
proof fn lemma_take_to_set_step(s: Seq<Seq<char>>, i: int)
    requires
        0 <= i < s.len(),
    ensures
        s.take(i + 1).to_set() == s.take(i).to_set().insert(s[i]),
{
    assert(s.take(i + 1) =~= s.take(i).push(s[i]));
    lemma_contains_push(s.take(i), s[i]);
    assert forall|x: Seq<char>| #[trigger] s.take(i + 1).to_set().contains(x) <==> s.take(i).to_set().insert(s[i]).contains(x) by {
        assert(s.take(i + 1).to_set().contains(x) <==> s.take(i + 1).contains(x));
        assert(s.take(i).to_set().contains(x) <==> s.take(i).contains(x));
    }
    assert(s.take(i + 1).to_set() =~= s.take(i).to_set().insert(s[i]));
}

impl Favorites {
    /// The normal forms of the paths `urls` once each, in the order of
    /// their first occurrence.
    pub(crate) fn unique_urls(urls: &[String]) -> (res: Vec<String>)
        ensures
            texts(res@) == dedup(normals(texts(urls@))),
            all_normal(texts(res@)),
    {
        let ghost given = texts(urls@);
        let normalized = normalize_all(urls);
        let urls = normalized.as_slice();
        let ghost u = texts(urls@);
        let mut set = index_set_new();
        let mut i: usize = 0;
        while i < urls.len()
            invariant
                i <= urls@.len(),
                u == texts(urls@),
                index_set_items(set) == dedup(u.take(i as int)),
            decreases urls@.len() - i,
        {
            proof {
                assert(u.take(i + 1) =~= u.take(i as int).push(u[i as int]));
                lemma_dedup_push(u.take(i as int), u[i as int]);
            }
            index_set_insert(&mut set, urls[i].clone());
            i = i + 1;
        }
        assert(u.take(urls@.len() as int) =~= u);
        let res = index_set_values(&set);
        assert(texts(res@) =~= index_set_items(set));
        proof {
            lemma_normals_all_normal(given);
            lemma_dedup(u);
        }
        res
    }

    /// Adds the paths of `urls` that are not favorites yet, at the end in
    /// the order of their first occurrence, and returns how many were added.
    fn insert_each(&mut self, urls: &[String]) -> (res: usize)
        requires
            all_normal(texts(urls@)),
        ensures
            final(self).wf(),
            final(self)@ == old(self)@ + without(dedup(texts(urls@)), old(self)@.to_set()),
            res == final(self)@.len() - old(self)@.len(),
    {
        proof {
            use_type_invariant(&*self);
        }
        let mut set = index_set_new();
        std::mem::swap(&mut set, &mut self.urls);
        let ghost u = texts(urls@);
        let ghost s0 = index_set_items(set);
        let mut count: usize = 0;
        let mut i: usize = 0;
        proof {
            assert(s0 + u.take(0) =~= s0);
            lemma_dedup_of_distinct(s0);
        }
        while i < urls.len()
            invariant
                i <= urls@.len(),
                u == texts(urls@),
                index_set_items(set) == dedup(s0 + u.take(i as int)),
                index_set_items(set).len() >= s0.len(),
                count == index_set_items(set).len() - s0.len(),
            decreases urls@.len() - i,
        {
            proof {
                assert(s0 + u.take(i + 1) =~= (s0 + u.take(i as int)).push(u[i as int]));
                lemma_dedup_push(s0 + u.take(i as int), u[i as int]);
                lemma_dedup(s0 + u.take(i as int));
            }
            if index_set_insert(&mut set, urls[i].clone()) {
                count = count + 1;
            }
            i = i + 1;
        }
        proof {
            assert(u.take(urls@.len() as int) =~= u);
            lemma_dedup_append(s0, u);
            lemma_dedup(s0 + u);
            lemma_concat_contains(s0, u);
        }
        self.urls = set;
        count
    }

    /// Takes the paths of `urls` out of the favorites, the others keeping
    /// their order, and returns how many were taken out.
    fn remove_each(&mut self, urls: &[String]) -> (res: usize)
        ensures
            final(self).wf(),
            final(self)@ == without(old(self)@, texts(urls@).to_set()),
            res == old(self)@.len() - final(self)@.len(),
    {
        proof {
            use_type_invariant(&*self);
        }
        let mut set = index_set_new();
        std::mem::swap(&mut set, &mut self.urls);
        let ghost u = texts(urls@);
        let ghost s0 = index_set_items(set);
        let n0 = index_set_len(&set);
        let mut count: usize = 0;
        let mut i: usize = 0;
        proof {
            assert(u.take(0).to_set() =~= Set::<Seq<char>>::empty());
            lemma_without_disjoint(s0, Set::<Seq<char>>::empty());
        }
        while i < urls.len()
            invariant
                i <= urls@.len(),
                u == texts(urls@),
                n0 == s0.len(),
                s0.no_duplicates(),
                index_set_items(set) == without(s0, u.take(i as int).to_set()),
                index_set_items(set).no_duplicates(),
                index_set_items(set).len() <= s0.len(),
                count == s0.len() - index_set_items(set).len(),
            decreases urls@.len() - i,
        {
            let ghost cur = index_set_items(set);
            let ghost x = u[i as int];
            let removed = index_set_shift_remove(&mut set, urls[i].as_str());
            proof {
                lemma_take_to_set_step(u, i as int);
                lemma_without_twice(s0, u.take(i as int).to_set(), set![x]);
                assert(u.take(i as int).to_set().union(set![x]) =~= u.take(i + 1).to_set());
                if removed {
                    let j = choose|j: int|
                        0 <= j < cur.len() && cur[j] == x && index_set_items(set) == cur.remove(j);
                    lemma_remove_is_without(cur, j);
                    lemma_without(cur, set![x]);
                } else {
                    assert forall|k: int| 0 <= k < cur.len() implies !set![x].contains(
                        #[trigger] cur[k],
                    ) by {
                        assert(cur.contains(cur[k]));
                    }
                    lemma_without_disjoint(cur, set![x]);
                }
            }
            if removed {
                count = count + 1;
            }
            i = i + 1;
        }
        proof {
            assert(u.take(urls@.len() as int) =~= u);
            lemma_without(s0, u.to_set());
        }
        self.urls = set;
        count
    }

    /// Favorites of the normal forms of the paths of `urls`, once each, in
    /// the order of their first occurrence.
    pub fn from_iter(urls: Vec<String>) -> (res: Self)
        ensures
            res.wf(),
            res@ == dedup(normals(texts(urls@))),
    {
        let normalized = normalize_all(urls.as_slice());
        let mut res = Favorites::new();
        proof {
            assert(res@.to_set() =~= Set::<Seq<char>>::empty());
            lemma_normals_all_normal(texts(urls@));
        }
        res.insert_each(normalized.as_slice());
        proof {
            let u = texts(normalized@);
            assert(Seq::<Seq<char>>::empty() + without(dedup(u), Set::empty()) =~= without(
                dedup(u),
                Set::empty(),
            ));
            lemma_without_disjoint(dedup(u), Set::<Seq<char>>::empty());
        }
        res
    }

    /// With `state`, makes every path of `urls` a favorite; without, makes
    /// none of them one. Returns how many favorites were added or taken out.
    pub fn set_many(&mut self, urls: &[String], state: bool) -> (res: usize)
        ensures
            final(self).wf(),
            final(self)@ == set_many_spec(old(self)@, normals(texts(urls@)), state),
            state ==> res == final(self)@.len() - old(self)@.len(),
            !state ==> res == old(self)@.len() - final(self)@.len(),
    {
        let unique = Favorites::unique_urls(urls);
        proof {
            let u = normals(texts(urls@));
            lemma_dedup(u);
            lemma_dedup_of_distinct(dedup(u));
            assert(dedup(u).to_set() =~= u.to_set());
        }
        if state {
            self.insert_each(unique.as_slice())
        } else {
            self.remove_each(unique.as_slice())
        }
    }

    /// Toggles each path of `urls` once: a favorite is taken out, any other
    /// path added at the end. Returns how many paths were toggled.
    pub fn toggle_many(&mut self, urls: &[String]) -> (res: usize)
        ensures
            final(self).wf(),
            final(self)@ == toggle_many_spec(old(self)@, normals(texts(urls@))),
            res == dedup(normals(texts(urls@))).len(),
    {
        proof {
            use_type_invariant(&*self);
        }
        let mut set = index_set_new();
        std::mem::swap(&mut set, &mut self.urls);
        let unique = Favorites::unique_urls(urls);
        let ghost u = texts(unique@);
        let ghost s0 = index_set_items(set);
        let mut count: usize = 0;
        let mut i: usize = 0;
        proof {
            lemma_dedup(normals(texts(urls@)));
            assert(u.take(0).to_set() =~= Set::<Seq<char>>::empty());
            lemma_without_disjoint(s0, Set::<Seq<char>>::empty());
            assert(u.take(0) =~= Seq::<Seq<char>>::empty());
            assert(s0 + without(u.take(0), s0.to_set()) =~= s0);
        }
        while i < unique.len()
            invariant
                i <= unique@.len(),
                u == texts(unique@),
                u.no_duplicates(),
                s0.no_duplicates(),
                index_set_items(set) == without(s0, u.take(i as int).to_set()) + without(
                    u.take(i as int),
                    s0.to_set(),
                ),
                index_set_items(set).no_duplicates(),
                count == i,
            decreases unique@.len() - i,
        {
            let ghost cur = index_set_items(set);
            let ghost x = u[i as int];
            let ghost p = u.take(i as int);
            let ghost first = without(s0, p.to_set());
            let ghost second = without(p, s0.to_set());
            proof {
                lemma_without(s0, p.to_set());
                lemma_without(p, s0.to_set());
                lemma_take_to_set_step(u, i as int);
                assert(!p.contains(x)) by {
                    if p.contains(x) {
                        let k = choose|k: int| 0 <= k < p.len() && p[k] == x;
                        assert(u[k] == u[i as int]);
                    }
                }
                assert(cur.contains(x) <==> first.contains(x) || second.contains(x)) by {
                    if cur.contains(x) {
                        let k = choose|k: int| 0 <= k < cur.len() && cur[k] == x;
                        if k >= first.len() {
                            assert(second[k - first.len()] == x);
                        }
                    }
                    if first.contains(x) {
                        let k = choose|k: int| 0 <= k < first.len() && first[k] == x;
                        assert(cur[k] == x);
                    }
                    if second.contains(x) {
                        let k = choose|k: int| 0 <= k < second.len() && second[k] == x;
                        assert(cur[k + first.len()] == x);
                    }
                }
                assert(u.take(i + 1) =~= p.push(x));
                lemma_without_push(p, x, s0.to_set());
                lemma_without_twice(s0, p.to_set(), set![x]);
                assert(p.to_set().union(set![x]) =~= u.take(i + 1).to_set());
            }
            let removed = index_set_shift_remove(&mut set, unique[i].as_str());
            if !removed {
                index_set_insert(&mut set, unique[i].clone());
                proof {
                    assert(!s0.contains(x));
                    assert forall|k: int| 0 <= k < first.len() implies !set![x].contains(
                        #[trigger] first[k],
                    ) by {
                        assert(first.contains(first[k]));
                    }
                    lemma_without_disjoint(first, set![x]);
                    assert(first + second.push(x) =~= (first + second).push(x));
                }
            } else {
                proof {
                    assert(s0.contains(x));
                    let j = choose|j: int|
                        0 <= j < cur.len() && cur[j] == x && index_set_items(set) == cur.remove(j);
                    lemma_remove_is_without(cur, j);
                    lemma_without(cur, set![x]);
                    lemma_without_concat(first, second, set![x]);
                    assert forall|k: int| 0 <= k < second.len() implies !set![x].contains(
                        #[trigger] second[k],
                    ) by {
                        assert(second.contains(second[k]));
                    }
                    lemma_without_disjoint(second, set![x]);
                }
            }
            count = count + 1;
            i = i + 1;
        }
        proof {
            assert(u.take(unique@.len() as int) =~= u);
            assert(u.to_set() =~= normals(texts(urls@)).to_set());
            lemma_without(s0, u.to_set());
            lemma_without(u, s0.to_set());
            lemma_concat_contains(without(s0, u.to_set()), without(u, s0.to_set()));
        }
        self.urls = set;
        count
    }
}

impl Favorites {
    /// Follows the file changes reported by `op` (see `apply_op_spec`), and
    /// returns whether the favorites changed on the way.
    pub fn apply_op(&mut self, op: &FilesOp) -> (res: bool)
        ensures
            final(self).wf(),
            final(self)@ == apply_op_spec(old(self)@, *op),
            res == (without(old(self)@, normals(removal_spec(*op, old(self)@)).to_set()).len()
                < old(self)@.len() || final(self)@.len() > without(
                old(self)@,
                normals(removal_spec(*op, old(self)@)).to_set(),
            ).len()),
    {
        let (removal, addition) = op.diff_recoverable(self);
        let removal = normalize_all(removal.as_slice());
        let addition = normalize_all(addition.as_slice());
        proof {
            lemma_normals_all_normal(removal_spec(*op, self@));
            lemma_normals_all_normal(addition_spec(*op, self@));
        }
        let removed = self.remove_each(removal.as_slice());
        let added = self.insert_each(addition.as_slice());
        removed > 0 || added > 0
    }
}

} // verus!
