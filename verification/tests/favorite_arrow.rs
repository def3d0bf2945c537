use yazi_favorites::action::Target;
use yazi_favorites::cycle::FavoriteCycle;
use yazi_favorites::favorite_arrow::{current_target, FavoriteArrow};
use yazi_favorites::favorites::Favorites;

fn s(p: &str) -> String {
    p.to_string()
}

#[test]
fn current_target_prefers_hovered_file() {
    let hovered = s("/tmp/favorite-arrow-current/hovered.txt");
    assert_eq!(hovered, current_target(Some(&hovered), &s("/tmp/favorite-arrow-current")));
    assert_eq!("/tmp/dir", current_target(None, &s("/tmp/dir")));
}

#[test]
fn favorite_arrow_act_reveals_next_favorite_in_same_directory() {
    let first = s("/tmp/yazi-favorite-arrow-same/a.txt");
    let second = s("/tmp/yazi-favorite-arrow-same/b.txt");
    let favorites = Favorites::from_iter(vec![first.clone(), second.clone()]);

    let (t, cycle) = FavoriteArrow::act(
        &favorites,
        &FavoriteCycle::default(),
        Some(&first),
        &s("/tmp/yazi-favorite-arrow-same"),
        false,
    );

    assert!(matches!(t, Target::Reveal(p) if p == second));
    assert!(cycle.matches(&second));
    assert_eq!(Some(first.clone()), cycle.target(true));
    assert_eq!(Some(first), cycle.target(false));
}

#[test]
fn favorite_arrow_act_reveals_saved_favorite_in_another_directory() {
    let current = s("/tmp/yazi-favorite-arrow-current/current.txt");
    let target = s("/tmp/yazi-favorite-arrow-other/target.txt");
    let favorites = Favorites::from_iter(vec![target.clone()]);

    let (t, _) = FavoriteArrow::act(
        &favorites,
        &FavoriteCycle::default(),
        Some(&current),
        &s("/tmp/yazi-favorite-arrow-current"),
        false,
    );

    assert!(matches!(t, Target::Reveal(p) if p == target));
}

#[test]
fn favorite_arrow_act_wraps_backward_from_non_favorite_to_last() {
    let dir = "/tmp/yazi-favorite-arrow-wrap";
    let other = s("/tmp/yazi-favorite-arrow-wrap/other.txt");
    let first = s("/tmp/yazi-favorite-arrow-wrap/first.txt");
    let last = s("/tmp/yazi-favorite-arrow-wrap/last.txt");
    let favorites = Favorites::from_iter(vec![first, last.clone()]);

    let (t, _) =
        FavoriteArrow::act(&favorites, &FavoriteCycle::default(), Some(&other), &s(dir), true);

    assert!(matches!(t, Target::Reveal(p) if p == last));
}

#[test]
fn favorite_arrow_act_notifies_when_empty() {
    let file = s("/state/favorite-arrow-empty/current.txt");
    let cycle = FavoriteCycle::default();

    let (t, after) = FavoriteArrow::act(
        &Favorites::new(),
        &cycle,
        Some(&file),
        &s("/state/favorite-arrow-empty"),
        false,
    );

    assert!(matches!(t, Target::Notify(m) if m == "No favorites yet"));
    assert!(!after.matches(&file));
}

#[test]
fn favorite_arrow_from_the_directory_when_nothing_is_hovered() {
    let favorites = Favorites::from_iter(vec![s("/a/x"), s("/b/y")]);

    let (t, _) = FavoriteArrow::act(&favorites, &FavoriteCycle::default(), None, &s("/a/x"), false);

    assert!(matches!(t, Target::Reveal(p) if p == "/b/y"));
}

#[test]
fn favorite_arrow_follows_cycle_after_removal() {
    let a = s("/a");
    let b = s("/b");
    let c = s("/c");
    let before = Favorites::from_iter(vec![a.clone(), b.clone(), c.clone()]);
    let after = Favorites::from_iter(vec![a, c.clone()]);

    let mut cycle = FavoriteCycle::default();
    cycle.advance(&before, b.clone());
    cycle.reconcile(&before, &after);

    let (t, _) = FavoriteArrow::act(&after, &cycle, Some(&b), &s("/"), false);
    assert!(matches!(t, Target::Reveal(p) if p == c));
}
