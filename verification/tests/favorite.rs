use yazi_favorites::cycle::FavoriteCycle;
use yazi_favorites::favorite::{favorite_message, resolve_targets, Favorite, FavoriteForm};
use yazi_favorites::favorites::Favorites;
use yazi_favorites::favorites_io::FavoritesIo;

fn s(p: &str) -> String {
    p.to_string()
}

#[test]
fn resolve_targets_prefers_explicit_urls() {
    let explicit = vec![s("/explicit")];
    let selected = [s("/selected")];
    let hovered = s("/hovered");

    assert_eq!(explicit, resolve_targets(&explicit, &selected, Some(&hovered)));
}

#[test]
fn resolve_targets_uses_selected_before_hovered() {
    let selected = vec![s("/selected-1"), s("/selected-2")];
    let hovered = s("/hovered");

    assert_eq!(selected, resolve_targets(&[], &selected, Some(&hovered)));
}

#[test]
fn resolve_targets_falls_back_to_hovered() {
    let hovered = s("/hovered");

    assert_eq!(vec![hovered.clone()], resolve_targets(&[], &[], Some(&hovered)));
}

#[test]
fn resolve_targets_is_empty_without_any_path() {
    assert!(resolve_targets(&[], &[], None).is_empty());
}

#[test]
fn favorite_message_describes_single_addition() {
    assert_eq!("Added to favorites", favorite_message(1, 1, 0));
}

#[test]
fn favorite_message_describes_single_removal() {
    assert_eq!("Removed from favorites", favorite_message(1, 0, 1));
}

#[test]
fn favorite_message_describes_mixed_update() {
    assert_eq!("Updated favorites: 2 added, 1 removed", favorite_message(3, 2, 1));
}

#[test]
fn favorite_message_counts_several_paths() {
    assert_eq!("Added 12 item(s) to favorites", favorite_message(12, 12, 0));
    assert_eq!("Removed 3 item(s) from favorites", favorite_message(5, 0, 3));
    assert_eq!("Updated favorites: 1 added, 100 removed", favorite_message(101, 1, 100));
}

#[test]
fn favorite_form_reads_the_state_argument() {
    assert_eq!(Some(true), FavoriteForm::from_args(vec![], Some("on")).state);
    assert_eq!(Some(false), FavoriteForm::from_args(vec![], Some("off")).state);
    assert_eq!(None, FavoriteForm::from_args(vec![], Some("toggle")).state);
    assert_eq!(None, FavoriteForm::from_args(vec![s("/a")], None).state);
}

#[test]
fn favorite_act_persists_and_notifies() {
    let favorites = Favorites::new();
    let cycle = FavoriteCycle::default();
    let file = s("/tmp/yazi-favorite-1.txt");
    let form = FavoriteForm { urls: vec![file.clone()], state: None };

    let change = Favorite::act(&favorites, &cycle, &form, &[], Some(&file)).unwrap();

    assert!(change.favorites.contains(&file));
    let saved = FavoritesIo::encode(&change.favorites).ok().unwrap();
    assert!(saved.contains(&file));
    assert_eq!("Added to favorites", change.message);
}

#[test]
fn favorite_act_does_nothing_without_targets_or_changes() {
    let favorites = Favorites::from_iter(vec![s("/a")]);
    let cycle = FavoriteCycle::default();

    let none = FavoriteForm { urls: vec![], state: None };
    assert!(Favorite::act(&favorites, &cycle, &none, &[], None).is_none());

    let already = FavoriteForm { urls: vec![s("/a")], state: Some(true) };
    assert!(Favorite::act(&favorites, &cycle, &already, &[], None).is_none());
}

#[test]
fn favorite_act_reports_each_path_of_a_mixed_toggle() {
    let favorites = Favorites::from_iter(vec![s("/a"), s("/b")]);
    let cycle = FavoriteCycle::default();
    let form = FavoriteForm { urls: vec![], state: None };
    let selected = [s("/a"), s("/b"), s("/c")];

    let change = Favorite::act(&favorites, &cycle, &form, &selected, None).unwrap();

    assert_eq!(vec![s("/c")], change.favorites.iter());
    assert_eq!("Updated favorites: 1 added, 2 removed", change.message);
}

#[test]
fn favorite_act_reports_one_on_one_off() {
    let favorites = Favorites::from_iter(vec![s("/y")]);
    let cycle = FavoriteCycle::default();
    let form = FavoriteForm { urls: vec![s("/x"), s("/y"), s("/x")], state: None };

    let change = Favorite::act(&favorites, &cycle, &form, &[], None).unwrap();

    assert_eq!(vec![s("/x")], change.favorites.iter());
    assert_eq!("Updated favorites: 1 added, 1 removed", change.message);
}

#[test]
fn favorite_act_counts_only_paths_that_changed() {
    let favorites = Favorites::from_iter(vec![s("/a")]);
    let cycle = FavoriteCycle::default();
    let form = FavoriteForm { urls: vec![s("/a"), s("/b"), s("/c")], state: Some(true) };

    let change = Favorite::act(&favorites, &cycle, &form, &[], None).unwrap();

    assert_eq!("Added 2 item(s) to favorites", change.message);
}

#[test]
fn favorite_act_keeps_the_cycle_on_neighbours() {
    let favorites = Favorites::from_iter(vec![s("/a"), s("/b"), s("/c")]);
    let mut cycle = FavoriteCycle::default();
    cycle.advance(&favorites, s("/b"));
    let form = FavoriteForm { urls: vec![s("/b")], state: Some(false) };

    let change = Favorite::act(&favorites, &cycle, &form, &[], None).unwrap();

    assert_eq!("Removed from favorites", change.message);
    assert!(change.cycle.matches("/b"));
    assert_eq!(Some(s("/a")), change.cycle.target(true));
    assert_eq!(Some(s("/c")), change.cycle.target(false));
}
