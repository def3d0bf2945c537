//! The favorite cycle: where a walk through the favorites stands, so that
//! it can go on from there after the favorites or the files change.

use vstd::prelude::*;

use crate::favorites::{arrow_spec, Favorites};
use crate::files_op::{renamed_spec, FilesOp};
use crate::normal::{lemma_normal_idempotent, normal, normalize};
use crate::seqs::without;
use crate::url::{
    find_greatest_below, find_least_above, greatest_below, least_above,
    lemma_greatest_below_none, lemma_greatest_below_unique, lemma_least_above_none,
    lemma_least_above_unique, opt_text, text_eq, texts,
};

verus! {

/// The favorites of `before` that are also in `after`, other than `anchor`.
pub open spec fn survivors(before: Seq<Seq<char>>, after: Seq<Seq<char>>, anchor: Seq<char>) -> Seq<Seq<char>> {
    without(before, after.to_set().complement().insert(anchor))
}

/// The favorite of `before` nearest to `anchor` that is still in `after`:
/// backward (`prev`) the last such before `anchor`, wrapping round to the
/// last one; forward the first such after it, wrapping round to the first
/// one. `None` when `anchor` is not in `before` or nothing survives.
pub open spec fn survivor_spec(before: Seq<Seq<char>>, after: Seq<Seq<char>>, anchor: Seq<char>, prev: bool) -> Option<Seq<char>> {
    let c = survivors(before, after, anchor);
    if !before.contains(anchor) {
        None
    } else if prev {
        if greatest_below(c, Some(anchor)) is Some {
            greatest_below(c, Some(anchor))
        } else {
            greatest_below(c, None)
        }
    } else {
        if least_above(c, Some(anchor)) is Some {
            least_above(c, Some(anchor))
        } else {
            least_above(c, None)
        }
    }
}

/// `o` if it is `Some`, else `d`.
pub open spec fn or_else(o: Option<Seq<char>>, d: Option<Seq<char>>) -> Option<Seq<char>> {
    if o is Some {
        o
    } else {
        d
    }
}

/// The target of the cycle anchored at `anchor` after the favorites went
/// from `before` to `after`, given its target `old_target` before (paths
/// compared in normal form): the neighbour of the anchor in `after` if the
/// anchor is still a favorite; else, if it was one in `before`, the nearest
/// survivor of `before`, or the first (last) favorite; else the old target
/// if it is still a favorite, or the first (last) favorite.
pub open spec fn reconciled_target(before: Seq<Seq<char>>, after: Seq<Seq<char>>, anchor: Seq<char>, old_target: Option<Seq<char>>, prev: bool) -> Option<Seq<char>> {
    let a = normal(anchor);
    let edge = if prev {
        greatest_below(after, None)
    } else {
        least_above(after, None)
    };
    if after.len() == 0 {
        None
    } else if after.contains(a) {
        arrow_spec(after, a, prev)
    } else if before.contains(a) {
        or_else(survivor_spec(before, after, a, prev), edge)
    } else {
        match old_target {
            Some(t) => if after.contains(normal(t)) {
                Some(t)
            } else {
                edge
            },
            None => edge,
        }
    }
}

/// Where a walk through the favorites stands: the favorite it last
/// landed on (`anchor`), where the view is now (`current`, which moves
/// off the anchor when the view moves to a sibling of it), and the
/// favorites before and after the anchor.
pub struct FavoriteCycle {
    pub anchor: Option<String>,
    pub current: Option<String>,
    pub prev: Option<String>,
    pub next: Option<String>,
}

impl Default for FavoriteCycle {
    /// No walk under way.
    fn default() -> (res: Self)
        ensures
            res.anchor is None,
            res.current is None,
            res.prev is None,
            res.next is None,
    {
        FavoriteCycle { anchor: None, current: None, prev: None, next: None }
    }
}

fn clone_opt(o: &Option<String>) -> (res: Option<String>)
    ensures
        opt_text(res) == opt_text(*o),
{
    match o {
        Some(s) => Some(s.clone()),
        None => None,
    }
}

impl FavoriteCycle {
    /// Where the walk stands: `current`, or else `anchor`.
    pub open spec fn position(&self) -> Option<Seq<char>> {
        if self.current is Some {
            opt_text(self.current)
        } else {
            opt_text(self.anchor)
        }
    }

    /// Whether the walk stands at `url`: at a path with the same normal form.
    pub fn matches(&self, url: &str) -> (res: bool)
        ensures
            res == (self.position() matches Some(p) && normal(p) == normal(url@)),
    {
        let pos = match &self.current {
            Some(c) => c,
            None => match &self.anchor {
                Some(a) => a,
                None => return false,
            },
        };
        let a = normalize(pos.as_str());
        let b = normalize(url);
        text_eq(a.as_str(), b.as_str())
    }

    /// The favorite the walk goes to next: backward (`prev`) or forward.
    pub fn target(&self, prev: bool) -> (res: Option<String>)
        ensures
            opt_text(res) == if prev {
                opt_text(self.prev)
            } else {
                opt_text(self.next)
            },
    {
        if prev {
            clone_opt(&self.prev)
        } else {
            clone_opt(&self.next)
        }
    }

    /// Lands the walk on the favorite `anchor`, its neighbours taken from
    /// `favorites`.
    pub fn advance(&mut self, favorites: &Favorites, anchor: String)
        ensures
            opt_text(final(self).anchor) == Some(anchor@),
            opt_text(final(self).current) == Some(anchor@),
            opt_text(final(self).prev) == arrow_spec(favorites@, normal(anchor@), true),
            opt_text(final(self).next) == arrow_spec(favorites@, normal(anchor@), false),
    {
        self.current = Some(anchor.clone());
        self.anchor = Some(anchor);
        self.recenter(favorites);
    }

    /// Moves the place where the walk stands to `current`, keeping its
    /// anchor and targets; without a walk under way, nothing changes.
    pub fn relocate(&mut self, current: String)
        ensures
            opt_text(final(self).anchor) == opt_text(old(self).anchor),
            opt_text(final(self).prev) == opt_text(old(self).prev),
            opt_text(final(self).next) == opt_text(old(self).next),
            opt_text(final(self).current) == if old(self).anchor is Some {
                Some(current@)
            } else {
                opt_text(old(self).current)
            },
    {
        if self.anchor.is_some() {
            self.current = Some(current);
        }
    }

    /// Takes the targets afresh from `favorites`, around the anchor.
    fn recenter(&mut self, favorites: &Favorites)
        ensures
            opt_text(final(self).anchor) == opt_text(old(self).anchor),
            opt_text(final(self).current) == opt_text(old(self).current),
            old(self).anchor is None ==> opt_text(final(self).prev) == opt_text(old(self).prev)
                && opt_text(final(self).next) == opt_text(old(self).next),
            old(self).anchor is Some ==> opt_text(final(self).prev) == arrow_spec(
                favorites@,
                normal(old(self).anchor->0@),
                true,
            ) && opt_text(final(self).next) == arrow_spec(
                favorites@,
                normal(old(self).anchor->0@),
                false,
            ),
    {
        match &self.anchor {
            Some(a) => {
                let p = favorites.arrow(a.as_str(), true);
                let n = favorites.arrow(a.as_str(), false);
                self.prev = p;
                self.next = n;
            },
            None => {},
        }
    }

    /// The favorite of `before` nearest to `anchor`, a path in normal form,
    /// that `after` still holds (see `survivor_spec`).
    fn survivor(before: &Favorites, after: &Favorites, anchor: &str, prev: bool) -> (res: Option<
        String,
    >)
        requires
            normal(anchor@) == anchor@,
        ensures
            opt_text(res) == survivor_spec(before@, after@, anchor@, prev),
    {
        proof {
            use_type_invariant(before);
            use_type_invariant(after);
        }
        if !before.contains(anchor) {
            return None;
        }
        let values = before.iter();
        let ghost ex = after@.to_set().complement().insert(anchor@);
        let mut cands: Vec<String> = Vec::new();
        let mut i: usize = 0;
        while i < values.len()
            invariant
                i <= values@.len(),
                texts(values@) == before@,
                ex == after@.to_set().complement().insert(anchor@),
                before.wf(),
                after.wf(),
                texts(cands@) == without(texts(values@).take(i as int), ex),
            decreases values@.len() - i,
        {
            proof {
                assert(texts(values@).take(i + 1).drop_last() =~= texts(values@).take(i as int));
                assert(texts(values@).take(i + 1).last() == values@[i as int]@);
                assert(after@.to_set().contains(values@[i as int]@) <==> after@.contains(
                    values@[i as int]@,
                ));
                assert(texts(values@)[i as int] == values@[i as int]@);
                assert(before@.contains(values@[i as int]@));
            }
            if after.contains(values[i].as_str()) && !text_eq(values[i].as_str(), anchor) {
                cands.push(values[i].clone());
                proof {
                    assert(texts(cands@) =~= texts(cands@.drop_last()).push(cands@.last()@));
                }
            }
            i = i + 1;
        }
        proof {
            assert(texts(values@).take(values@.len() as int) =~= texts(values@));
        }
        let ghost c = survivors(before@, after@, anchor@);
        if prev {
            let near = find_greatest_below(&cands, Some(anchor));
            let idx = match near {
                Some(i) => Some(i),
                None => find_greatest_below(&cands, None),
            };
            proof {
                if let Some(i) = near {
                    lemma_greatest_below_unique(c, Some(anchor@), cands@[i as int]@);
                } else {
                    lemma_greatest_below_none(c, Some(anchor@));
                    if let Some(i) = idx {
                        lemma_greatest_below_unique(c, None, cands@[i as int]@);
                    } else {
                        lemma_greatest_below_none(c, None);
                    }
                }
            }
            match idx {
                Some(i) => Some(cands[i].clone()),
                None => None,
            }
        } else {
            let near = find_least_above(&cands, Some(anchor));
            let idx = match near {
                Some(i) => Some(i),
                None => find_least_above(&cands, None),
            };
            proof {
                if let Some(i) = near {
                    lemma_least_above_unique(c, Some(anchor@), cands@[i as int]@);
                } else {
                    lemma_least_above_none(c, Some(anchor@));
                    if let Some(i) = idx {
                        lemma_least_above_unique(c, None, cands@[i as int]@);
                    } else {
                        lemma_least_above_none(c, None);
                    }
                }
            }
            match idx {
                Some(i) => Some(cands[i].clone()),
                None => None,
            }
        }
    }

    /// The first favorite in path order.
    fn first(favorites: &Favorites) -> (res: Option<String>)
        ensures
            opt_text(res) == least_above(favorites@, None),
    {
        let values = favorites.iter();
        match find_least_above(&values, None) {
            Some(i) => {
                proof {
                    lemma_least_above_unique(favorites@, None, values@[i as int]@);
                }
                Some(values[i].clone())
            },
            None => {
                proof {
                    lemma_least_above_none(favorites@, None);
                }
                None
            },
        }
    }

    /// The last favorite in path order.
    fn last(favorites: &Favorites) -> (res: Option<String>)
        ensures
            opt_text(res) == greatest_below(favorites@, None),
    {
        let values = favorites.iter();
        match find_greatest_below(&values, None) {
            Some(i) => {
                proof {
                    lemma_greatest_below_unique(favorites@, None, values@[i as int]@);
                }
                Some(values[i].clone())
            },
            None => {
                proof {
                    lemma_greatest_below_none(favorites@, None);
                }
                None
            },
        }
    }

    /// Carries the walk over a change of the favorites from `before` to
    /// `after` (see `reconciled_target`); without a walk under way,
    /// nothing changes.
    pub fn reconcile(&mut self, before: &Favorites, after: &Favorites)
        ensures
            opt_text(final(self).anchor) == opt_text(old(self).anchor),
            opt_text(final(self).current) == opt_text(old(self).current),
            old(self).anchor is None ==> opt_text(final(self).prev) == opt_text(old(self).prev)
                && opt_text(final(self).next) == opt_text(old(self).next),
            old(self).anchor is Some ==> opt_text(final(self).prev) == reconciled_target(
                before@,
                after@,
                old(self).anchor->0@,
                opt_text(old(self).prev),
                true,
            ) && opt_text(final(self).next) == reconciled_target(
                before@,
                after@,
                old(self).anchor->0@,
                opt_text(old(self).next),
                false,
            ),
    {
        let anchor = match &self.anchor {
            Some(a) => a.clone(),
            None => return ,
        };
        if after.is_empty() {
            self.prev = None;
            self.next = None;
            return ;
        }
        if after.contains(anchor.as_str()) {
            self.recenter(after);
            return ;
        }
        if before.contains(anchor.as_str()) {
            let a = normalize(anchor.as_str());
            proof {
                lemma_normal_idempotent(anchor@);
            }
            let p = match Self::survivor(before, after, a.as_str(), true) {
                Some(p) => Some(p),
                None => Self::last(after),
            };
            let n = match Self::survivor(before, after, a.as_str(), false) {
                Some(n) => Some(n),
                None => Self::first(after),
            };
            self.prev = p;
            self.next = n;
            return ;
        }
        let p = match &self.prev {
            Some(p) => if after.contains(p.as_str()) {
                Some(p.clone())
            } else {
                Self::last(after)
            },
            None => Self::last(after),
        };
        let n = match &self.next {
            Some(n) => if after.contains(n.as_str()) {
                Some(n.clone())
            } else {
                Self::first(after)
            },
            None => Self::first(after),
        };
        self.prev = p;
        self.next = n;
    }

    /// Follows the renames reported by `op` in every path the walk holds.
    pub fn rename_refs(&mut self, op: &FilesOp)
        ensures
            opt_text(final(self).anchor) == renamed_slot(opt_text(old(self).anchor), *op),
            opt_text(final(self).current) == renamed_slot(opt_text(old(self).current), *op),
            opt_text(final(self).prev) == renamed_slot(opt_text(old(self).prev), *op),
            opt_text(final(self).next) == renamed_slot(opt_text(old(self).next), *op),
    {
        self.anchor = rename_slot(&self.anchor, op);
        self.current = rename_slot(&self.current, op);
        self.prev = rename_slot(&self.prev, op);
        self.next = rename_slot(&self.next, op);
    }
}

/// A path the walk holds, after the renames reported by `op`.
pub open spec fn renamed_slot(slot: Option<Seq<char>>, op: FilesOp) -> Option<Seq<char>> {
    match slot {
        Some(url) => match renamed_spec(url, op) {
            Some(new) => Some(new),
            None => Some(url),
        },
        None => None,
    }
}

fn rename_slot(slot: &Option<String>, op: &FilesOp) -> (res: Option<String>)
    ensures
        opt_text(res) == renamed_slot(opt_text(*slot), *op),
{
    match slot {
        Some(url) => match op.renamed(url.as_str()) {
            Some(new) => Some(new),
            None => Some(url.clone()),
        },
        None => None,
    }
}

} // verus!
