//! What holds of the favorites across calls and across all inputs.

use vstd::prelude::*;

use crate::cycle::{or_else, reconciled_target, survivor_spec, survivors};
use crate::favorites::{apply_op_spec, arrow_spec, set_many_spec, toggle_many_spec};
use crate::files_op::{addition_spec, deleted_in, removal_spec, FilesOp};
use crate::image::{swaps_sides, Orientation};
use crate::quarter::prev_index_spec;
use crate::favorites_io::json_string_array;
use crate::normal::{all_normal, lemma_normals_fixed, normal, normals};
use crate::seqs::{
    dedup, lemma_concat_contains, lemma_contains_push, lemma_dedup, lemma_dedup_of_distinct, lemma_without, lemma_without_twice, without,
};
use crate::url::{
    greatest_below, is_greatest_below, is_least_above, least_above, lemma_greatest_below_exists,
    lemma_greatest_below_unique, lemma_least_above_exists, lemma_least_above_unique,
    lemma_path_lt_asymmetric, lemma_path_lt_irreflexive, lemma_path_lt_total, path_lt,
    lemma_greatest_below_none, lemma_least_above_none, path_join, above, below,
};

verus! {

/// Forward from any path, the arrow lands on a favorite, and there is
/// one to land on exactly when there are favorites; likewise backward.
pub proof fn law_arrow_lands_on_a_favorite(s: Seq<Seq<char>>, url: Seq<char>, prev: bool)
    ensures
        s.len() == 0 <==> arrow_spec(s, url, prev) is None,
        arrow_spec(s, url, prev) matches Some(t) ==> s.contains(t),
{
    if s.len() > 0 {
        assert(s.contains(s[0]));
        lemma_least_above_exists(s, None, s[0]);
        lemma_greatest_below_exists(s, None, s[0]);
    }
}

/// The arrow forward and then backward from a favorite comes back to it,
/// and so does the arrow backward and then forward.
pub proof fn law_arrow_round_trip(s: Seq<Seq<char>>, x: Seq<char>)
    requires
        s.contains(x),
    ensures
        arrow_spec(s, x, false) matches Some(y) && arrow_spec(s, y, true) == Some(x),
        arrow_spec(s, x, true) matches Some(y) && arrow_spec(s, y, false) == Some(x),
{
    lemma_least_above_exists(s, None, x);
    lemma_greatest_below_exists(s, None, x);
    // forward, then backward
    if least_above(s, Some(x)) is Some {
        let y = least_above(s, Some(x))->0;
        assert(is_least_above(s, Some(x), y));
        assert forall|z: Seq<char>| s.contains(z) && path_lt(z, y) && z != x implies path_lt(z, x) by {
            if !path_lt(z, x) {
                lemma_path_lt_total(z, x);
                lemma_path_lt_asymmetric(z, y);
            }
        }
        assert(is_greatest_below(s, Some(y), x));
        lemma_greatest_below_unique(s, Some(y), x);
    } else {
        let y = least_above(s, None)->0;
        assert forall|z: Seq<char>| s.contains(z) && z != x implies path_lt(z, x) by {
            lemma_path_lt_total(z, x);
            if path_lt(x, z) {
                lemma_least_above_exists(s, Some(x), z);
            }
        }
        assert(is_greatest_below(s, None, x));
        lemma_greatest_below_unique(s, None, x);
        if greatest_below(s, Some(y)) is Some {
            let w = greatest_below(s, Some(y))->0;
            assert(is_greatest_below(s, Some(y), w));
            if w != y {
                lemma_path_lt_asymmetric(w, y);
            } else {
                lemma_path_lt_irreflexive(y);
            }
        }
    }
    // backward, then forward
    if greatest_below(s, Some(x)) is Some {
        let y = greatest_below(s, Some(x))->0;
        assert(is_greatest_below(s, Some(x), y));
        assert forall|z: Seq<char>| s.contains(z) && path_lt(y, z) && z != x implies path_lt(x, z) by {
            if !path_lt(x, z) {
                lemma_path_lt_total(z, x);
                lemma_path_lt_asymmetric(y, z);
            }
        }
        assert(is_least_above(s, Some(y), x));
        lemma_least_above_unique(s, Some(y), x);
    } else {
        let y = greatest_below(s, None)->0;
        assert forall|z: Seq<char>| s.contains(z) && z != x implies path_lt(x, z) by {
            lemma_path_lt_total(z, x);
            if path_lt(z, x) {
                lemma_greatest_below_exists(s, Some(x), z);
            }
        }
        assert(is_least_above(s, None, x));
        lemma_least_above_unique(s, None, x);
        if least_above(s, Some(y)) is Some {
            let w = least_above(s, Some(y))->0;
            assert(is_least_above(s, Some(y), w));
            if w != y {
                lemma_path_lt_asymmetric(y, w);
            } else {
                lemma_path_lt_irreflexive(y);
            }
        }
    }
}

/// The arrow depends on which paths are favorites, not on the order in
/// which they were added.
pub proof fn law_arrow_ignores_insertion_order(s1: Seq<Seq<char>>, s2: Seq<Seq<char>>, url: Seq<char>, prev: bool)
    requires
        forall|x: Seq<char>| s1.contains(x) <==> s2.contains(x),
    ensures
        arrow_spec(s1, url, prev) == arrow_spec(s2, url, prev),
{
    lemma_same_members_same_extremes(s1, s2, Some(url));
    lemma_same_members_same_extremes(s1, s2, None);
}

proof fn lemma_same_members_same_extremes(s1: Seq<Seq<char>>, s2: Seq<Seq<char>>, b: Option<Seq<char>>)
    requires
        forall|x: Seq<char>| s1.contains(x) <==> s2.contains(x),
    ensures
        least_above(s1, b) == least_above(s2, b),
        greatest_below(s1, b) == greatest_below(s2, b),
{
    if least_above(s1, b) is Some {
        let m = least_above(s1, b)->0;
        assert(is_least_above(s1, b, m));
        assert(is_least_above(s2, b, m));
        lemma_least_above_unique(s2, b, m);
    } else if least_above(s2, b) is Some {
        let m = least_above(s2, b)->0;
        assert(is_least_above(s2, b, m));
        assert(is_least_above(s1, b, m));
    }
    if greatest_below(s1, b) is Some {
        let m = greatest_below(s1, b)->0;
        assert(is_greatest_below(s1, b, m));
        assert(is_greatest_below(s2, b, m));
        lemma_greatest_below_unique(s2, b, m);
    } else if greatest_below(s2, b) is Some {
        let m = greatest_below(s2, b)->0;
        assert(is_greatest_below(s2, b, m));
        assert(is_greatest_below(s1, b, m));
    }
}

/// A sequence none of whose items lie outside `ex` comes out empty.
proof fn lemma_without_all(x: Seq<Seq<char>>, ex: Set<Seq<char>>)
    requires
        forall|y: Seq<char>| x.contains(y) ==> ex.contains(y),
    ensures
        without(x, ex).len() == 0,
{
    lemma_without(x, ex);
    if without(x, ex).len() > 0 {
        let w = without(x, ex);
        assert(w.contains(w[0]));
        assert(x.contains(w[0]) && !ex.contains(w[0]));
        assert(ex.contains(w[0]));
    }
}

/// After `set_many`, every given path is a favorite (with `state`) or
/// none is (without), and the other favorites stay.
pub proof fn law_set_many_members(s: Seq<Seq<char>>, us: Seq<Seq<char>>, state: bool)
    ensures
        forall|x: Seq<char>|
            set_many_spec(s, us, state).contains(x) <==> if state {
                s.contains(x) || us.contains(x)
            } else {
                s.contains(x) && !us.contains(x)
            },
{
    lemma_dedup(us);
    lemma_without(dedup(us), s.to_set());
    lemma_without(s, us.to_set());
    lemma_concat_contains(s, without(dedup(us), s.to_set()));
}

/// `set_many` twice with the same paths and state changes nothing the
/// second time.
pub proof fn law_set_many_idempotent(s: Seq<Seq<char>>, us: Seq<Seq<char>>, state: bool)
    ensures
        set_many_spec(set_many_spec(s, us, state), us, state) == set_many_spec(s, us, state),
{
    let t = set_many_spec(s, us, state);
    law_set_many_members(s, us, state);
    if state {
        lemma_dedup(us);
        assert forall|y: Seq<char>| dedup(us).contains(y) implies t.to_set().contains(y) by {
            assert(us.contains(y));
            assert(set_many_spec(s, us, state).contains(y));
        }
        lemma_without_all(dedup(us), t.to_set());
        let w = without(dedup(us), t.to_set());
        assert(t + w =~= t);
    } else {
        lemma_without_twice(s, us.to_set(), us.to_set());
        assert(us.to_set().union(us.to_set()) =~= us.to_set());
    }
}

/// After `toggle_many`, a path is a favorite exactly when it was one or
/// was given, not both.
pub proof fn law_toggle_many_members(s: Seq<Seq<char>>, us: Seq<Seq<char>>)
    ensures
        forall|x: Seq<char>|
            toggle_many_spec(s, us).contains(x) <==> (s.contains(x) != us.contains(x)),
{
    lemma_dedup(us);
    lemma_without(dedup(us), s.to_set());
    lemma_without(s, us.to_set());
    lemma_concat_contains(without(s, us.to_set()), without(dedup(us), s.to_set()));
}

/// Toggling the same paths twice leaves the same favorites.
pub proof fn law_toggle_many_twice(s: Seq<Seq<char>>, us: Seq<Seq<char>>)
    ensures
        toggle_many_spec(toggle_many_spec(s, us), us).to_set() == s.to_set(),
{
    law_toggle_many_members(s, us);
    law_toggle_many_members(toggle_many_spec(s, us), us);
    assert(toggle_many_spec(toggle_many_spec(s, us), us).to_set() =~= s.to_set());
}

/// After the file changes `op`, a path is a favorite exactly when it was
/// one and `op` did not take it away, or it is the new path of a renamed
/// favorite (paths taken in normal form).
pub proof fn law_apply_op_members(s: Seq<Seq<char>>, op: FilesOp)
    ensures
        forall|x: Seq<char>|
            apply_op_spec(s, op).contains(x) <==> (s.contains(x) && !normals(removal_spec(op, s)).contains(x))
                || normals(addition_spec(op, s)).contains(x),
{
    let r = normals(removal_spec(op, s));
    let a = normals(addition_spec(op, s));
    let mid = without(s, r.to_set());
    lemma_without(s, r.to_set());
    lemma_dedup(a);
    lemma_without(dedup(a), mid.to_set());
    lemma_concat_contains(mid, without(dedup(a), mid.to_set()));
    assert forall|x: Seq<char>|
        apply_op_spec(s, op).contains(x) <==> (s.contains(x) && !r.contains(x)) || a.contains(x) by {
        assert(r.to_set().contains(x) <==> r.contains(x));
        assert(mid.to_set().contains(x) <==> mid.contains(x));
        assert(dedup(a).contains(x) <==> a.contains(x));
    }
}

/// After a change of the favorites, a walk under way aims only at
/// favorites: while there are any, it has a target both ways, and each is
/// a favorite (as a path in normal form).
pub proof fn law_reconciled_targets_are_favorites(
    before: Seq<Seq<char>>,
    after: Seq<Seq<char>>,
    anchor: Seq<char>,
    old_target: Option<Seq<char>>,
    prev: bool,
)
    requires
        all_normal(after),
    ensures
        after.len() == 0 <==> reconciled_target(before, after, anchor, old_target, prev) is None,
        reconciled_target(before, after, anchor, old_target, prev) matches Some(t)
            ==> after.contains(normal(t)),
{
    let a = normal(anchor);
    if after.len() > 0 {
        law_arrow_lands_on_a_favorite(after, a, prev);
        assert(after.contains(after[0]));
        lemma_least_above_exists(after, None, after[0]);
        lemma_greatest_below_exists(after, None, after[0]);
        let c = survivors(before, after, a);
        lemma_without(before, after.to_set().complement().insert(a));
        if survivor_spec(before, after, a, prev) is Some {
            let t = survivor_spec(before, after, a, prev)->0;
            if prev {
                if greatest_below(c, Some(a)) is Some {
                    assert(is_greatest_below(c, Some(a), t));
                } else {
                    assert(is_greatest_below(c, None, t));
                }
            } else {
                if least_above(c, Some(a)) is Some {
                    assert(is_least_above(c, Some(a), t));
                } else {
                    assert(is_least_above(c, None, t));
                }
            }
            assert(c.contains(t));
            let ex = after.to_set().complement().insert(a);
            assert(!ex.contains(t));
            assert(!after.to_set().complement().contains(t));
            assert(after.to_set().contains(t));
        }
    }
    let r = reconciled_target(before, after, anchor, old_target, prev);
    if r is Some && after.contains(r->0) {
        assert(normal(r->0) == r->0);
    }
}

/// When the favorite a walk stands on is taken away, the walk goes on to
/// its former neighbour, if that is still a favorite.
pub proof fn law_removed_anchor_keeps_neighbour(
    before: Seq<Seq<char>>,
    after: Seq<Seq<char>>,
    anchor: Seq<char>,
    old_target: Option<Seq<char>>,
    prev: bool,
)
    requires
        all_normal(before),
        before.contains(anchor),
        !after.contains(anchor),
        arrow_spec(before, anchor, prev) matches Some(n) && n != anchor && after.contains(n),
    ensures
        reconciled_target(before, after, anchor, old_target, prev) == arrow_spec(
            before,
            anchor,
            prev,
        ),
{
    assert(normal(anchor) == anchor);
    let n = arrow_spec(before, anchor, prev)->0;
    let ex = after.to_set().complement().insert(anchor);
    let c = survivors(before, after, anchor);
    lemma_without(before, ex);
    law_arrow_lands_on_a_favorite(before, anchor, prev);
    assert(after.len() > 0) by {
        assert(after.contains(n));
    }
    assert(c.contains(n)) by {
        assert(before.contains(n));
        assert(after.to_set().contains(n));
        assert(!ex.contains(n));
    }
    if !prev {
        if least_above(before, Some(anchor)) is Some {
            assert(is_least_above(before, Some(anchor), n));
            assert(is_least_above(c, Some(anchor), n));
            lemma_least_above_unique(c, Some(anchor), n);
        } else {
            assert(is_least_above(before, None, n));
            assert forall|y: Seq<char>| c.contains(y) implies !path_lt(anchor, y) by {
                if path_lt(anchor, y) {
                    lemma_least_above_exists(before, Some(anchor), y);
                }
            }
            assert(least_above(c, Some(anchor)) is None);
            assert(is_least_above(c, None, n));
            lemma_least_above_unique(c, None, n);
        }
    } else {
        if greatest_below(before, Some(anchor)) is Some {
            assert(is_greatest_below(before, Some(anchor), n));
            assert(is_greatest_below(c, Some(anchor), n));
            lemma_greatest_below_unique(c, Some(anchor), n);
        } else {
            assert(is_greatest_below(before, None, n));
            assert forall|y: Seq<char>| c.contains(y) implies !path_lt(y, anchor) by {
                if path_lt(y, anchor) {
                    lemma_greatest_below_exists(before, Some(anchor), y);
                }
            }
            assert(greatest_below(c, Some(anchor)) is None);
            assert(is_greatest_below(c, None, n));
            lemma_greatest_below_unique(c, None, n);
        }
    }
}

/// Loading what was saved gives the favorites back: favorites without
/// repeats and in normal form (as every value of `Favorites` is), written
/// by `encode` to a text that parses as their paths, are read by `decode`
/// as the same paths in the same order.
pub proof fn law_save_load_round_trip(favorites: Seq<Seq<char>>, text: Seq<char>)
    requires
        favorites.no_duplicates(),
        all_normal(favorites),
        json_string_array(text) == Some(favorites),
    ensures
        json_string_array(text) matches Some(items) && dedup(normals(items)) == favorites,
{
    lemma_normals_fixed(favorites);
    lemma_dedup_of_distinct(favorites);
}


/// `t` is where a step forward from `a` through the paths of `m` lands:
/// the first of them after `a` in path order, or the first of them when
/// none lies after `a`.
pub open spec fn next_in_path_order(m: Set<Seq<char>>, a: Seq<char>, t: Seq<char>) -> bool {
    &&& m.contains(t)
    &&& if exists|y: Seq<char>| m.contains(y) && path_lt(a, y) {
        path_lt(a, t) && forall|y: Seq<char>| m.contains(y) && path_lt(a, y) ==> !path_lt(y, t)
    } else {
        forall|y: Seq<char>| m.contains(y) ==> !path_lt(y, t)
    }
}

/// `t` is where a step backward from `a` through the paths of `m` lands:
/// the last of them before `a` in path order, or the last of them when
/// none lies before `a`.
pub open spec fn prev_in_path_order(m: Set<Seq<char>>, a: Seq<char>, t: Seq<char>) -> bool {
    &&& m.contains(t)
    &&& if exists|y: Seq<char>| m.contains(y) && path_lt(y, a) {
        path_lt(t, a) && forall|y: Seq<char>| m.contains(y) && path_lt(y, a) ==> !path_lt(t, y)
    } else {
        forall|y: Seq<char>| m.contains(y) ==> !path_lt(t, y)
    }
}

/// `t` is the first of the paths of `m` in path order.
pub open spec fn first_in_path_order(m: Set<Seq<char>>, t: Seq<char>) -> bool {
    m.contains(t) && forall|y: Seq<char>| m.contains(y) ==> !path_lt(y, t)
}

/// `t` is the last of the paths of `m` in path order.
pub open spec fn last_in_path_order(m: Set<Seq<char>>, t: Seq<char>) -> bool {
    m.contains(t) && forall|y: Seq<char>| m.contains(y) ==> !path_lt(t, y)
}

/// The first item of `c` after `a`, wrapping round, is the step forward
/// through the same paths; likewise backward, and the edges.
proof fn lemma_steps_through(c: Seq<Seq<char>>, m: Set<Seq<char>>, a: Seq<char>)
    requires
        forall|y: Seq<char>| c.contains(y) <==> m.contains(y),
    ensures
        (exists|y: Seq<char>| m.contains(y)) ==> ((if least_above(c, Some(a)) is Some {
            least_above(c, Some(a))
        } else {
            least_above(c, None)
        }) matches Some(t) && next_in_path_order(m, a, t)),
        (exists|y: Seq<char>| m.contains(y)) ==> ((if greatest_below(c, Some(a)) is Some {
            greatest_below(c, Some(a))
        } else {
            greatest_below(c, None)
        }) matches Some(t) && prev_in_path_order(m, a, t)),
        least_above(c, None) matches Some(t) ==> first_in_path_order(m, t),
        greatest_below(c, None) matches Some(t) ==> last_in_path_order(m, t),
{
    if least_above(c, None) is Some {
        let t = least_above(c, None)->0;
        assert(is_least_above(c, None, t));
        assert forall|y: Seq<char>| m.contains(y) implies !path_lt(y, t) by {
            if y != t {
                lemma_path_lt_asymmetric(t, y);
            } else {
                lemma_path_lt_irreflexive(t);
            }
        }
    }
    if greatest_below(c, None) is Some {
        let t = greatest_below(c, None)->0;
        assert(is_greatest_below(c, None, t));
        assert forall|y: Seq<char>| m.contains(y) implies !path_lt(t, y) by {
            if y != t {
                lemma_path_lt_asymmetric(y, t);
            } else {
                lemma_path_lt_irreflexive(t);
            }
        }
    }
    if exists|y: Seq<char>| m.contains(y) {
        let w = choose|y: Seq<char>| m.contains(y);
        lemma_least_above_exists(c, None, w);
        lemma_greatest_below_exists(c, None, w);
        if exists|y: Seq<char>| m.contains(y) && path_lt(a, y) {
            let y0 = choose|y: Seq<char>| m.contains(y) && path_lt(a, y);
            lemma_least_above_exists(c, Some(a), y0);
            let t = least_above(c, Some(a))->0;
            assert forall|y: Seq<char>| m.contains(y) && path_lt(a, y) implies !path_lt(y, t) by {
                if y != t {
                    lemma_path_lt_asymmetric(t, y);
                } else {
                    lemma_path_lt_irreflexive(t);
                }
            }
        } else {
            lemma_least_above_none(c, Some(a));
        }
        if exists|y: Seq<char>| m.contains(y) && path_lt(y, a) {
            let y0 = choose|y: Seq<char>| m.contains(y) && path_lt(y, a);
            lemma_greatest_below_exists(c, Some(a), y0);
            let t = greatest_below(c, Some(a))->0;
            assert forall|y: Seq<char>| m.contains(y) && path_lt(y, a) implies !path_lt(t, y) by {
                if y != t {
                    lemma_path_lt_asymmetric(y, t);
                } else {
                    lemma_path_lt_irreflexive(t);
                }
            }
        } else {
            lemma_greatest_below_none(c, Some(a));
        }
    }
}

/// The arrow walks the favorites in path order: from a favorite, forward
/// to the next one after it, wrapping round to the first, and backward to
/// the one before it, wrapping round to the last; from a path that is not
/// a favorite, forward to the first favorite and backward to the last.
pub proof fn law_arrow_steps_in_path_order(s: Seq<Seq<char>>, url: Seq<char>)
    ensures
        arrow_spec(s, url, false) matches Some(t) ==> if s.contains(url) {
            next_in_path_order(s.to_set(), url, t)
        } else {
            first_in_path_order(s.to_set(), t)
        },
        arrow_spec(s, url, true) matches Some(t) ==> if s.contains(url) {
            prev_in_path_order(s.to_set(), url, t)
        } else {
            last_in_path_order(s.to_set(), t)
        },
{
    lemma_steps_through(s, s.to_set(), url);
    if s.contains(url) {
        assert(s.to_set().contains(url));
    }
}

/// When the favorite a walk is anchored at is taken away, the walk goes on
/// from the favorites that survive the change: forward to the first of
/// them after the anchor in path order, wrapping round to the first of
/// them, and backward to the last of them before it, wrapping round to the
/// last; only when none survives does it go to the first (last) favorite.
pub proof fn law_removed_anchor_goes_to_nearest_survivor(
    before: Seq<Seq<char>>,
    after: Seq<Seq<char>>,
    anchor: Seq<char>,
    old_target: Option<Seq<char>>,
)
    requires
        all_normal(before),
        before.contains(anchor),
        !after.contains(anchor),
    ensures
        ({
            let m = before.to_set().intersect(after.to_set()).remove(anchor);
            &&& (exists|y: Seq<char>| m.contains(y)) ==> {
                &&& reconciled_target(before, after, anchor, old_target, false) matches Some(t)
                    && next_in_path_order(m, anchor, t)
                &&& reconciled_target(before, after, anchor, old_target, true) matches Some(t)
                    && prev_in_path_order(m, anchor, t)
            }
            &&& !(exists|y: Seq<char>| m.contains(y)) ==> {
                &&& after.len() == 0 <==> reconciled_target(before, after, anchor, old_target, false) is None
                &&& reconciled_target(before, after, anchor, old_target, false) matches Some(t)
                    ==> first_in_path_order(after.to_set(), t)
                &&& reconciled_target(before, after, anchor, old_target, true) matches Some(t)
                    ==> last_in_path_order(after.to_set(), t)
            }
        }),
{
    assert(normal(anchor) == anchor);
    let m = before.to_set().intersect(after.to_set()).remove(anchor);
    let c = survivors(before, after, anchor);
    lemma_without(before, after.to_set().complement().insert(anchor));
    assert forall|y: Seq<char>| c.contains(y) <==> m.contains(y) by {
        let ex = after.to_set().complement().insert(anchor);
        assert(after.to_set().contains(y) <==> after.contains(y));
        assert(before.to_set().contains(y) <==> before.contains(y));
        assert(ex.contains(y) <==> (y == anchor || !after.to_set().contains(y)));
        assert(c.contains(y) <==> before.contains(y) && !ex.contains(y));
    }
    lemma_steps_through(c, m, anchor);
    lemma_steps_through(after, after.to_set(), anchor);
    let edge_f = least_above(after, None);
    let edge_b = greatest_below(after, None);
    if after.len() > 0 {
        assert(after.contains(after[0]));
        assert(after.to_set().contains(after[0]));
        lemma_least_above_exists(after, None, after[0]);
        lemma_greatest_below_exists(after, None, after[0]);
    }
    if exists|y: Seq<char>| m.contains(y) {
        let y = choose|y: Seq<char>| m.contains(y);
        assert(after.to_set().contains(y));
        assert(after.contains(y));
        assert(after.len() > 0);
        assert(reconciled_target(before, after, anchor, old_target, false) == or_else(
            survivor_spec(before, after, anchor, false),
            edge_f,
        ));
        assert(reconciled_target(before, after, anchor, old_target, true) == or_else(
            survivor_spec(before, after, anchor, true),
            edge_b,
        ));
    } else {
        assert forall|y: Seq<char>| c.contains(y) implies !above(Some(anchor), y) by {
            assert(m.contains(y));
        }
        assert forall|y: Seq<char>| c.contains(y) implies !above(None, y) by {
            assert(m.contains(y));
        }
        assert forall|y: Seq<char>| c.contains(y) implies !below(Some(anchor), y) by {
            assert(m.contains(y));
        }
        assert forall|y: Seq<char>| c.contains(y) implies !below(None, y) by {
            assert(m.contains(y));
        }
        lemma_least_above_none(c, Some(anchor));
        lemma_least_above_none(c, None);
        lemma_greatest_below_none(c, Some(anchor));
        lemma_greatest_below_none(c, None);
        if after.len() > 0 {
            assert(reconciled_target(before, after, anchor, old_target, false) == edge_f);
            assert(reconciled_target(before, after, anchor, old_target, true) == edge_b);
        }
    }
}

/// A report of deleted files takes out of the favorites exactly the
/// deleted paths (compared in normal form), and adds none.
pub proof fn law_deleted_paths_leave_the_favorites(s: Seq<Seq<char>>, cwd: String, urns: Vec<String>)
    ensures
        forall|x: Seq<char>|
            apply_op_spec(s, FilesOp::Deleting(cwd, urns)).contains(x) <==> s.contains(x) && !exists|k: int|
                0 <= k < urns@.len() && normal(path_join(cwd@, urns@[k]@)) == x,
{
    let op = FilesOp::Deleting(cwd, urns);
    law_apply_op_members(s, op);
    lemma_deleted_in_members(cwd@, urns@, s);
    assert(normals(addition_spec(op, s)) =~= Seq::<Seq<char>>::empty());
}

/// The deleted favorites of a report, in normal form, are the favorites
/// that are the normal form of a deleted path.
proof fn lemma_deleted_in_members(cwd: Seq<char>, urns: Seq<String>, s: Seq<Seq<char>>)
    ensures
        forall|x: Seq<char>|
            normals(deleted_in(cwd, urns, s)).contains(x) <==> s.contains(x) && exists|k: int|
                0 <= k < urns.len() && normal(path_join(cwd, urns[k]@)) == x,
    decreases urns.len(),
{
    if urns.len() > 0 {
        let t = urns.drop_last();
        lemma_deleted_in_members(cwd, t, s);
        let r = deleted_in(cwd, t, s);
        let p = path_join(cwd, urns.last()@);
        let d = deleted_in(cwd, urns, s);
        assert(d == if s.contains(normal(p)) { r.push(p) } else { r });
        if s.contains(normal(p)) {
            assert(normals(r.push(p)) =~= normals(r).push(normal(p)));
            lemma_contains_push(normals(r), normal(p));
        }
        assert forall|x: Seq<char>|
            normals(d).contains(x) <==> s.contains(x) && exists|k: int|
                0 <= k < urns.len() && normal(path_join(cwd, urns[k]@)) == x by {
            assert(normals(d).contains(x) <==> (normals(r).contains(x) || (s.contains(normal(p))
                && normal(p) == x)));
            if exists|k: int| 0 <= k < urns.len() && normal(path_join(cwd, urns[k]@)) == x {
                let k = choose|k: int| 0 <= k < urns.len() && normal(path_join(cwd, urns[k]@)) == x;
                if k < t.len() {
                    assert(t[k] == urns[k]);
                    assert(0 <= k < t.len() && normal(path_join(cwd, t[k]@)) == x);
                } else {
                    assert(urns[k] == urns.last());
                }
            }
            if exists|k: int| 0 <= k < t.len() && normal(path_join(cwd, t[k]@)) == x {
                let k = choose|k: int| 0 <= k < t.len() && normal(path_join(cwd, t[k]@)) == x;
                assert(t[k] == urns[k]);
                assert(0 <= k < urns.len() && normal(path_join(cwd, urns[k]@)) == x);
            }
            if normal(p) == x {
                let k = urns.len() - 1;
                assert(urns[k] == urns.last());
                assert(0 <= k < urns.len() && normal(path_join(cwd, urns[k]@)) == x);
            }
        }
    } else {
        assert(normals(Seq::<Seq<char>>::empty()) =~= Seq::<Seq<char>>::empty());
    }
}

/// Moving to another quarter goes exactly one listed quarter back or on,
/// and is refused only at the first (backward) or last (forward) one.
pub proof fn law_quarter_move_is_one_step(current: int, len: int, prev: bool)
    requires
        0 <= current < len,
    ensures
        prev_index_spec(current, len, prev) matches Some(j) ==> 0 <= j < len && if prev {
            j + 1 == current
        } else {
            j == current + 1
        },
        prev_index_spec(current, len, prev) is None <==> if prev {
            current == 0
        } else {
            current + 1 == len
        },
{
}

/// The clockwise quarter turns of an orientation, mirroring aside.
pub open spec fn quarter_turns(o: Orientation) -> int {
    match o {
        Orientation::NoTransforms => 0,
        Orientation::Rotate90 => 1,
        Orientation::Rotate180 => 2,
        Orientation::Rotate270 => 3,
        Orientation::FlipHorizontal => 0,
        Orientation::FlipVertical => 2,
        Orientation::Rotate90FlipH => 1,
        Orientation::Rotate270FlipH => 3,
    }
}

/// An orientation swaps the width and height of an image exactly when it
/// turns the image an odd number of quarter turns.
pub proof fn law_orientation_swaps_on_odd_quarter_turns(o: Orientation)
    ensures
        swaps_sides(o) <==> quarter_turns(o) % 2 == 1,
{
}

} // verus!
