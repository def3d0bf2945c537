use yazi_favorites::cycle::FavoriteCycle;
use yazi_favorites::favorites::Favorites;
use yazi_favorites::files_op::{FileEntry, FilesOp};

fn s(p: &str) -> String {
    p.to_string()
}

fn favs(paths: &[&str]) -> Favorites {
    Favorites::from_iter(paths.iter().map(|p| p.to_string()).collect())
}

#[test]
fn set_many_is_idempotent() {
    let mut favorites = Favorites::new();

    assert_eq!(2, favorites.set_many(&[s("/a"), s("/b")], true));
    assert_eq!(0, favorites.set_many(&[s("/a"), s("/b")], true));
    assert_eq!(2, favorites.len());
    assert!(favorites.contains("/a"));
    assert!(favorites.contains("/b"));
}

#[test]
fn toggle_many_adds_and_removes_targets() {
    let mut favorites = Favorites::new();

    assert_eq!(2, favorites.toggle_many(&[s("/a"), s("/b")]));
    assert_eq!(1, favorites.toggle_many(&[s("/a")]));
    assert!(favorites.contains("/b"));
    assert!(!favorites.contains("/a"));
}

#[test]
fn arrow_moves_forward_and_wraps() {
    let favorites = favs(&["/a", "/b", "/c"]);

    assert_eq!(Some(s("/b")), favorites.arrow("/a", false));
    assert_eq!(Some(s("/a")), favorites.arrow("/c", false));
}

#[test]
fn arrow_moves_backward_and_wraps() {
    let favorites = favs(&["/a", "/b", "/c"]);

    assert_eq!(Some(s("/c")), favorites.arrow("/a", true));
    assert_eq!(Some(s("/b")), favorites.arrow("/c", true));
}

#[test]
fn arrow_uses_edges_when_current_is_not_favorited() {
    let favorites = favs(&["/a", "/b"]);

    assert_eq!(Some(s("/a")), favorites.arrow("/z", false));
    assert_eq!(Some(s("/b")), favorites.arrow("/z", true));
}

#[test]
fn arrow_returns_same_item_for_single_favorite() {
    let favorites = favs(&["/only"]);

    assert_eq!(Some(s("/only")), favorites.arrow("/only", false));
    assert_eq!(Some(s("/only")), favorites.arrow("/other", true));
}

#[test]
fn arrow_returns_none_when_empty() {
    assert_eq!(None, Favorites::new().arrow("/any", false));
}

#[test]
fn arrow_uses_sorted_order_regardless_of_insertion_order() {
    let favorites = favs(&["/c", "/a", "/b"]);

    assert_eq!(Some(s("/b")), favorites.arrow("/a", false));
    assert_eq!(Some(s("/c")), favorites.arrow("/b", false));
    assert_eq!(Some(s("/a")), favorites.arrow("/c", false));
    assert_eq!(Some(s("/c")), favorites.arrow("/a", true));
}

#[test]
fn arrow_orders_paths_by_component() {
    // "/a/b" sorts before "/a-b": the component "a" comes before "a-b".
    let favorites = favs(&["/a-b", "/a/b"]);

    assert_eq!(Some(s("/a/b")), favorites.arrow("/x", false));
    assert_eq!(Some(s("/a-b")), favorites.arrow("/a/b", false));
    assert_eq!(Some(s("/a-b")), favorites.arrow("/a/b", true));
}

#[test]
fn arrow_round_trip_returns_to_start() {
    let favorites = favs(&["/d", "/b", "/a", "/c"]);
    for p in ["/a", "/b", "/c", "/d"] {
        let next = favorites.arrow(p, false).unwrap();
        assert_eq!(Some(s(p)), favorites.arrow(&next, true));
        let prev = favorites.arrow(p, true).unwrap();
        assert_eq!(Some(s(p)), favorites.arrow(&prev, false));
    }
}

#[test]
fn from_iter_keeps_first_occurrences_in_order() {
    let favorites = favs(&["/b", "/a", "/b", "/c", "/a"]);

    assert_eq!(vec![s("/b"), s("/a"), s("/c")], favorites.iter());
    assert_eq!(3, favorites.len());
    assert!(!favorites.is_empty());
}

#[test]
fn set_many_off_removes_and_keeps_order() {
    let mut favorites = favs(&["/a", "/b", "/c", "/d"]);

    assert_eq!(2, favorites.set_many(&[s("/c"), s("/a"), s("/x"), s("/c")], false));
    assert_eq!(vec![s("/b"), s("/d")], favorites.iter());
    assert_eq!(0, favorites.set_many(&[s("/c"), s("/a")], false));
}

#[test]
fn set_many_on_appends_new_paths_once() {
    let mut favorites = favs(&["/b"]);

    assert_eq!(2, favorites.set_many(&[s("/c"), s("/b"), s("/a"), s("/c")], true));
    assert_eq!(vec![s("/b"), s("/c"), s("/a")], favorites.iter());
}

#[test]
fn toggle_many_toggles_each_path_once() {
    let mut favorites = favs(&["/a", "/b"]);

    assert_eq!(2, favorites.toggle_many(&[s("/a"), s("/c"), s("/a")]));
    assert_eq!(vec![s("/b"), s("/c")], favorites.iter());
}

#[test]
fn toggle_many_twice_restores_the_favorites() {
    let mut favorites = favs(&["/a", "/b"]);

    favorites.toggle_many(&[s("/a"), s("/c")]);
    favorites.toggle_many(&[s("/a"), s("/c")]);
    let mut items = favorites.iter();
    items.sort();
    assert_eq!(vec![s("/a"), s("/b")], items);
}

#[test]
fn apply_op_renames_favorited_paths() {
    let mut favorites = Favorites::new();
    favorites.set_many(&[s("/old"), s("/keep")], true);

    let files = vec![FileEntry { urn: s("old"), url: s("/new") }];

    assert!(favorites.apply_op(&FilesOp::Upserting(s("/"), files)));
    assert!(favorites.contains("/new"));
    assert!(favorites.contains("/keep"));
    assert!(!favorites.contains("/old"));
}

#[test]
fn apply_op_deletes_missing_favorites() {
    let mut favorites = Favorites::new();
    favorites.set_many(&[s("/gone"), s("/keep")], true);

    let urns = vec![s("gone")];
    assert!(favorites.apply_op(&FilesOp::Deleting(s("/"), urns)));
    assert!(!favorites.contains("/gone"));
    assert!(favorites.contains("/keep"));
}

#[test]
fn apply_op_ignores_unrelated_changes() {
    let mut favorites = favs(&["/dir/a"]);

    let files = vec![FileEntry { urn: s("b"), url: s("/dir/c") }, FileEntry {
        urn: s("a"),
        url: s("/dir/a"),
    }];
    assert!(!favorites.apply_op(&FilesOp::Updating(s("/dir"), files)));
    assert!(!favorites.apply_op(&FilesOp::Deleting(s("/dir"), vec![s("x")])));
    assert!(!favorites.apply_op(&FilesOp::Other));
    assert_eq!(vec![s("/dir/a")], favorites.iter());
}

#[test]
fn apply_op_renames_under_a_nested_directory() {
    let mut favorites = favs(&["/dir/a", "/b"]);

    let files = vec![FileEntry { urn: s("a"), url: s("/dir/z") }];
    assert!(favorites.apply_op(&FilesOp::Updating(s("/dir"), files)));
    assert_eq!(vec![s("/b"), s("/dir/z")], favorites.iter());
}

#[test]
fn cycle_keeps_neighbors_when_anchor_is_removed() {
    let before = favs(&["/a", "/b", "/c", "/d"]);
    let after = favs(&["/a", "/b", "/d"]);

    let mut cycle = FavoriteCycle::default();
    cycle.advance(&before, s("/c"));
    cycle.reconcile(&before, &after);

    assert!(cycle.matches("/c"));
    assert_eq!(Some(s("/b")), cycle.target(true));
    assert_eq!(Some(s("/d")), cycle.target(false));
}

#[test]
fn cycle_matches_relocated_current_without_recentering() {
    let favorites = favs(&["/a", "/b", "/c"]);

    let mut cycle = FavoriteCycle::default();
    cycle.advance(&favorites, s("/b"));
    cycle.relocate(s("/alt/b"));

    assert!(!cycle.matches("/b"));
    assert!(cycle.matches("/alt/b"));
    assert_eq!(Some(s("/a")), cycle.target(true));
    assert_eq!(Some(s("/c")), cycle.target(false));
}

#[test]
fn cycle_recenters_when_anchor_stays_favorited() {
    let before = favs(&["/a", "/b", "/c"]);
    let after = favs(&["/a", "/b"]);

    let mut cycle = FavoriteCycle::default();
    cycle.advance(&before, s("/b"));
    cycle.reconcile(&before, &after);

    assert!(cycle.matches("/b"));
    assert_eq!(Some(s("/a")), cycle.target(true));
    assert_eq!(Some(s("/a")), cycle.target(false));
}

#[test]
fn cycle_renames_anchor_before_recentering() {
    let before = favs(&["/a", "/b"]);
    let after = favs(&["/a", "/b2"]);

    let files = vec![FileEntry { urn: s("b"), url: s("/b2") }];

    let mut cycle = FavoriteCycle::default();
    cycle.advance(&before, s("/b"));
    cycle.rename_refs(&FilesOp::Upserting(s("/"), files));
    cycle.reconcile(&before, &after);

    assert!(cycle.matches("/b2"));
    assert_eq!(Some(s("/a")), cycle.target(true));
    assert_eq!(Some(s("/a")), cycle.target(false));
}

#[test]
fn cycle_renames_neighbors_when_anchor_is_already_gone() {
    let before = favs(&["/a", "/b", "/d"]);
    let after = favs(&["/a", "/b", "/d2"]);

    let files = vec![FileEntry { urn: s("d"), url: s("/d2") }];

    let mut cycle = FavoriteCycle {
        anchor: Some(s("/c")),
        current: Some(s("/c")),
        prev: Some(s("/b")),
        next: Some(s("/d")),
    };
    cycle.rename_refs(&FilesOp::Upserting(s("/"), files));
    cycle.reconcile(&before, &after);

    assert!(cycle.matches("/c"));
    assert_eq!(Some(s("/b")), cycle.target(true));
    assert_eq!(Some(s("/d2")), cycle.target(false));
}

#[test]
fn cycle_clears_targets_when_no_favorites_remain() {
    let before = favs(&["/a", "/b"]);
    let after = Favorites::new();

    let mut cycle = FavoriteCycle::default();
    cycle.advance(&before, s("/a"));
    cycle.reconcile(&before, &after);

    assert!(cycle.matches("/a"));
    assert_eq!(None, cycle.target(true));
    assert_eq!(None, cycle.target(false));
}

#[test]
fn cycle_wraps_to_surviving_neighbours() {
    // The anchor was the last favorite; its successor wraps to the first
    // survivor, its predecessor was removed too.
    let before = favs(&["/a", "/b", "/c", "/d"]);
    let after = favs(&["/a", "/b"]);

    let mut cycle = FavoriteCycle::default();
    cycle.advance(&before, s("/d"));
    cycle.reconcile(&before, &after);

    assert_eq!(Some(s("/b")), cycle.target(true));
    assert_eq!(Some(s("/a")), cycle.target(false));
}

#[test]
fn cycle_without_anchor_ignores_changes() {
    let before = favs(&["/a"]);
    let after = favs(&["/b"]);

    let mut cycle = FavoriteCycle::default();
    cycle.relocate(s("/x"));
    cycle.reconcile(&before, &after);

    assert!(!cycle.matches("/x"));
    assert_eq!(None, cycle.target(true));
    assert_eq!(None, cycle.target(false));
}
