//! The `favorite_arrow` action: goes to the next or previous favorite.

use vstd::prelude::*;

use crate::action::{target_view, Target};
use crate::cycle::FavoriteCycle;
use crate::favorites::{arrow_spec, Favorites};
use crate::normal::normal;
use crate::url::opt_text;

verus! {

/// Where the view stands: the hovered path, or else the directory.
pub open spec fn current_target_spec(hovered: Option<Seq<char>>, cwd: Seq<char>) -> Seq<char> {
    match hovered {
        Some(h) => h,
        None => cwd,
    }
}

/// Where the view stands (see `current_target_spec`).
pub fn current_target(hovered: Option<&String>, cwd: &String) -> (res: String)
    ensures
        res@ == current_target_spec(
            match hovered {
                Some(h) => Some(h@),
                None => None,
            },
            cwd@,
        ),
{
    match hovered {
        Some(h) => h.clone(),
        None => cwd.clone(),
    }
}

/// The favorite the action goes to from `current`: the cycle's target
/// while the walk stands there (at a path with the same normal form) and
/// has one, else the arrow from `current`.
pub open spec fn arrow_target_spec(favorites: Seq<Seq<char>>, cycle: FavoriteCycle, current: Seq<char>, prev: bool) -> Option<Seq<char>> {
    let t = if prev {
        opt_text(cycle.prev)
    } else {
        opt_text(cycle.next)
    };
    if cycle.position() matches Some(p) && normal(p) == normal(current) && t is Some {
        t
    } else {
        arrow_spec(favorites, normal(current), prev)
    }
}

/// The `favorite_arrow` action.
pub struct FavoriteArrow;

impl FavoriteArrow {
    /// Decides the action from the hovered path `hovered` in the directory
    /// `cwd`, backward (`prev`) or forward: reveal the favorite it goes to
    /// (see `arrow_target_spec`), the cycle landing there; without
    /// favorites, tell the user so and keep the cycle.
    pub fn act(
        favorites: &Favorites,
        cycle: &FavoriteCycle,
        hovered: Option<&String>,
        cwd: &String,
        prev: bool,
    ) -> (res: (Target, FavoriteCycle))
        ensures
            ({
                let cur = current_target_spec(
                    match hovered {
                        Some(h) => Some(h@),
                        None => None,
                    },
                    cwd@,
                );
                match arrow_target_spec(favorites@, *cycle, cur, prev) {
                    None => {
                        &&& target_view(res.0) == (1int, "No favorites yet"@)
                        &&& opt_text(res.1.anchor) == opt_text(cycle.anchor)
                        &&& opt_text(res.1.current) == opt_text(cycle.current)
                        &&& opt_text(res.1.prev) == opt_text(cycle.prev)
                        &&& opt_text(res.1.next) == opt_text(cycle.next)
                    },
                    Some(t) => {
                        &&& target_view(res.0) == (2int, t)
                        &&& opt_text(res.1.anchor) == Some(t)
                        &&& opt_text(res.1.current) == Some(t)
                        &&& opt_text(res.1.prev) == arrow_spec(favorites@, normal(t), true)
                        &&& opt_text(res.1.next) == arrow_spec(favorites@, normal(t), false)
                    },
                }
            }),
    {
        let current = current_target(hovered, cwd);
        let planned = if cycle.matches(current.as_str()) {
            cycle.target(prev)
        } else {
            None
        };
        let target = match planned {
            Some(t) => Some(t),
            None => favorites.arrow(current.as_str(), prev),
        };
        let mut next_cycle = cycle.duplicate();
        match target {
            None => (Target::Notify(String::from_str("No favorites yet")), next_cycle),
            Some(t) => {
                next_cycle.advance(favorites, t.clone());
                (Target::Reveal(t), next_cycle)
            },
        }
    }
}

} // verus!
