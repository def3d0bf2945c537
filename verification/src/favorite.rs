//! The `favorite` action: turns paths into favorites or out of them.

use vstd::prelude::*;

use crate::cycle::{reconciled_target, FavoriteCycle};
use crate::decimal::{decimal, push_decimal};
use crate::favorites::{set_many_spec, toggle_many_spec, Favorites};
use crate::normal::{all_normal, normals};
use crate::seqs::dedup;
use crate::url::{opt_text, texts};

verus! {

/// What the `favorite` action was asked for: the paths given with it
/// (none: the selection, or else the hovered file), and whether to make
/// them favorites (`Some(true)`), not favorites (`Some(false)`), or to
/// toggle each (`None`).
pub struct FavoriteForm {
    pub urls: Vec<String>,
    pub state: Option<bool>,
}

/// The state argument of the action: `on` and `off` set, anything else
/// toggles.
pub open spec fn state_arg_spec(arg: Option<Seq<char>>) -> Option<bool> {
    match arg {
        Some(a) => if a == "on"@ {
            Some(true)
        } else if a == "off"@ {
            Some(false)
        } else {
            None
        },
        None => None,
    }
}

impl FavoriteForm {
    /// The form for the paths `urls` and the state argument `state`.
    pub fn from_args(urls: Vec<String>, state: Option<&str>) -> (res: Self)
        ensures
            res.urls@ == urls@,
            res.state == state_arg_spec(
                match state {
                    Some(s) => Some(s@),
                    None => None,
                },
            ),
    {
        let st = match state {
            Some(s) => if crate::url::text_eq(s, "on") {
                Some(true)
            } else if crate::url::text_eq(s, "off") {
                Some(false)
            } else {
                None
            },
            None => None,
        };
        FavoriteForm { urls, state: st }
    }
}

/// The paths the action works on: those given with it, or else the
/// selected ones, or else the hovered one.
pub open spec fn targets_spec(urls: Seq<Seq<char>>, selected: Seq<Seq<char>>, hovered: Option<Seq<char>>) -> Seq<Seq<char>> {
    if urls.len() > 0 {
        urls
    } else if selected.len() > 0 {
        selected
    } else {
        match hovered {
            Some(h) => seq![h],
            None => Seq::empty(),
        }
    }
}

/// The message that reports a change of `total` paths, `added` more of
/// them favorites and `removed` fewer.
pub open spec fn favorite_message_spec(total: nat, added: nat, removed: nat) -> Seq<char> {
    if total == 1 && added == 1 && removed == 0 {
        "Added to favorites"@
    } else if total == 1 && added == 0 && removed == 1 {
        "Removed from favorites"@
    } else if removed == 0 {
        "Added "@ + decimal(added) + " item(s) to favorites"@
    } else if added == 0 {
        "Removed "@ + decimal(removed) + " item(s) from favorites"@
    } else {
        "Updated favorites: "@ + decimal(added) + " added, "@ + decimal(removed) + " removed"@
    }
}

/// How many items of `us` are in `to` but not in `from`: with `from` the
/// favorites before a change and `to` those after, the paths it added;
/// the other way round, the paths it took out.
pub open spec fn count_moved(us: Seq<Seq<char>>, from: Seq<Seq<char>>, to: Seq<Seq<char>>) -> nat
    decreases us.len(),
{
    if us.len() == 0 {
        0
    } else {
        count_moved(us.drop_last(), from, to) + if !from.contains(us.last()) && to.contains(
            us.last(),
        ) {
            1nat
        } else {
            0nat
        }
    }
}

/// The message that reports a change of `total` paths, `added` more of
/// them favorites and `removed` fewer (see `favorite_message_spec`).
pub fn favorite_message(total: usize, added: usize, removed: usize) -> (res: String)
    ensures
        res@ == favorite_message_spec(total as nat, added as nat, removed as nat),
{
    if total == 1 && added == 1 && removed == 0 {
        String::from_str("Added to favorites")
    } else if total == 1 && added == 0 && removed == 1 {
        String::from_str("Removed from favorites")
    } else if removed == 0 {
        let mut s = String::from_str("Added ");
        push_decimal(&mut s, added);
        s.append(" item(s) to favorites");
        s
    } else if added == 0 {
        let mut s = String::from_str("Removed ");
        push_decimal(&mut s, removed);
        s.append(" item(s) from favorites");
        s
    } else {
        let mut s = String::from_str("Updated favorites: ");
        push_decimal(&mut s, added);
        s.append(" added, ");
        push_decimal(&mut s, removed);
        s.append(" removed");
        s
    }
}

fn copy_strings(v: &[String]) -> (res: Vec<String>)
    ensures
        texts(res@) == texts(v@),
{
    let mut res: Vec<String> = Vec::new();
    let mut i: usize = 0;
    while i < v.len()
        invariant
            i <= v@.len(),
            res@.len() == i,
            texts(res@) == texts(v@).take(i as int),
        decreases v@.len() - i,
    {
        let c = v[i].clone();
        assert(c@ == v@[i as int]@);
        res.push(c);
        proof {
            assert forall|k: int| 0 <= k < i + 1 implies #[trigger] texts(res@)[k] == texts(v@).take(
                i + 1,
            )[k] by {
                if k < i {
                    assert(texts(res@)[k] == res@[k]@);
                }
            }
            assert(texts(res@) =~= texts(v@).take(i + 1));
        }
        i = i + 1;
    }
    assert(texts(v@).take(v@.len() as int) =~= texts(v@));
    res
}

/// The paths the action works on (see `targets_spec`).
pub fn resolve_targets(urls: &[String], selected: &[String], hovered: Option<&String>) -> (res: Vec<
    String,
>)
    ensures
        texts(res@) == targets_spec(
            texts(urls@),
            texts(selected@),
            match hovered {
                Some(h) => Some(h@),
                None => None,
            },
        ),
{
    if urls.len() > 0 {
        return copy_strings(urls);
    }
    if selected.len() > 0 {
        return copy_strings(selected);
    }
    let mut res: Vec<String> = Vec::new();
    match hovered {
        Some(h) => {
            res.push(h.clone());
            assert(texts(res@) =~= seq![h@]);
        },
        None => {
            assert(texts(res@) =~= Seq::<Seq<char>>::empty());
        },
    }
    res
}

fn count_moved_exec(us: &Vec<String>, from: &Favorites, to: &Favorites) -> (res: usize)
    requires
        all_normal(texts(us@)),
    ensures
        res == count_moved(texts(us@), from@, to@),
{
    let mut n: usize = 0;
    let mut i: usize = 0;
    while i < us.len()
        invariant
            i <= us@.len(),
            n == count_moved(texts(us@).take(i as int), from@, to@),
            n <= i,
            all_normal(texts(us@)),
        decreases us@.len() - i,
    {
        proof {
            assert(texts(us@).take(i + 1).drop_last() =~= texts(us@).take(i as int));
            assert(texts(us@)[i as int] == us@[i as int]@);
            assert(texts(us@).contains(us@[i as int]@));
        }
        if !from.contains(us[i].as_str()) && to.contains(us[i].as_str()) {
            n = n + 1;
        }
        i = i + 1;
    }
    assert(texts(us@).take(us@.len() as int) =~= texts(us@));
    n
}

/// The favorites after the action: set or toggled.
pub open spec fn favorites_after(s: Seq<Seq<char>>, targets: Seq<Seq<char>>, state: Option<bool>) -> Seq<Seq<char>> {
    match state {
        Some(b) => set_many_spec(s, targets, b),
        None => toggle_many_spec(s, targets),
    }
}

/// How many favorites the action added or took out (`set_many`,
/// `toggle_many`).
pub open spec fn changed_count(s: Seq<Seq<char>>, targets: Seq<Seq<char>>, state: Option<bool>) -> int {
    let after = favorites_after(s, targets, state);
    match state {
        Some(true) => after.len() - s.len(),
        Some(false) => s.len() - after.len(),
        None => dedup(targets).len() as int,
    }
}

/// What the action changes: the new favorites (to be saved before they
/// replace the old ones), the message that reports it, and the favorite
/// cycle carried over to them.
pub struct FavoriteChange {
    pub favorites: Favorites,
    pub message: String,
    pub cycle: FavoriteCycle,
}

/// The `favorite` action.
pub struct Favorite;

impl Favorite {
    /// Decides the action on `favorites` for `form`, with the paths
    /// `selected` and the hovered path `hovered`: `None` when there is no
    /// path to work on or nothing changes; else the change (see
    /// `FavoriteChange`), its message counting the target paths that
    /// became favorites and those that stopped being ones, paths taken in
    /// normal form.
    pub fn act(
        favorites: &Favorites,
        cycle: &FavoriteCycle,
        form: &FavoriteForm,
        selected: &[String],
        hovered: Option<&String>,
    ) -> (res: Option<FavoriteChange>)
        ensures
            ({
                let t = targets_spec(
                    texts(form.urls@),
                    texts(selected@),
                    match hovered {
                        Some(h) => Some(h@),
                        None => None,
                    },
                );
                let after = favorites_after(favorites@, normals(t), form.state);
                let u = dedup(normals(t));
                &&& res is None <==> (t.len() == 0 || changed_count(favorites@, normals(t), form.state) == 0)
                &&& res matches Some(ch) ==> {
                    &&& ch.favorites.wf()
                    &&& ch.favorites@ == after
                    &&& ch.message@ == favorite_message_spec(
                        u.len(),
                        count_moved(u, favorites@, after),
                        count_moved(u, after, favorites@),
                    )
                    &&& opt_text(ch.cycle.anchor) == opt_text(cycle.anchor)
                    &&& opt_text(ch.cycle.current) == opt_text(cycle.current)
                    &&& cycle.anchor is None ==> opt_text(ch.cycle.prev) == opt_text(cycle.prev)
                        && opt_text(ch.cycle.next) == opt_text(cycle.next)
                    &&& cycle.anchor is Some ==> opt_text(ch.cycle.prev) == reconciled_target(
                        favorites@,
                        after,
                        cycle.anchor->0@,
                        opt_text(cycle.prev),
                        true,
                    ) && opt_text(ch.cycle.next) == reconciled_target(
                        favorites@,
                        after,
                        cycle.anchor->0@,
                        opt_text(cycle.next),
                        false,
                    )
                }
            }),
    {
        let targets = resolve_targets(form.urls.as_slice(), selected, hovered);
        if targets.len() == 0 {
            return None;
        }
        let mut updated = favorites.duplicate();
        let unique = Favorites::unique_urls(targets.as_slice());
        let changed = match form.state {
            Some(state) => updated.set_many(targets.as_slice(), state),
            None => updated.toggle_many(targets.as_slice()),
        };
        if changed == 0 {
            return None;
        }
        let added = count_moved_exec(&unique, favorites, &updated);
        let removed = count_moved_exec(&unique, &updated, favorites);
        let message = favorite_message(unique.len(), added, removed);
        let mut next_cycle = cycle.duplicate();
        next_cycle.reconcile(favorites, &updated);
        Some(FavoriteChange { favorites: updated, message, cycle: next_cycle })
    }
}

impl FavoriteCycle {
    /// The same cycle.
    pub fn duplicate(&self) -> (res: Self)
        ensures
            opt_text(res.anchor) == opt_text(self.anchor),
            opt_text(res.current) == opt_text(self.current),
            opt_text(res.prev) == opt_text(self.prev),
            opt_text(res.next) == opt_text(self.next),
    {
        FavoriteCycle {
            anchor: copy_opt(&self.anchor),
            current: copy_opt(&self.current),
            prev: copy_opt(&self.prev),
            next: copy_opt(&self.next),
        }
    }
}

fn copy_opt(o: &Option<String>) -> (res: Option<String>)
    ensures
        opt_text(res) == opt_text(*o),
{
    match o {
        Some(s) => Some(s.clone()),
        None => None,
    }
}

} // verus!
