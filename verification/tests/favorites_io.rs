use yazi_favorites::favorites::Favorites;
use yazi_favorites::favorites_io::FavoritesIo;

fn s(p: &str) -> String {
    p.to_string()
}

#[test]
fn load_path_returns_empty_when_file_is_missing() {
    let favorites = FavoritesIo::load_from(None).ok().unwrap();
    assert!(favorites.is_empty());
}

#[test]
fn save_and_load_round_trip_json_string_array() {
    let mut favorites = Favorites::new();

    favorites.set_many(&[s("/a"), s("/b")], true);
    let text = FavoritesIo::encode(&favorites).ok().unwrap();

    assert_eq!("[\n  \"/a\",\n  \"/b\"\n]", text);

    let loaded = FavoritesIo::load_from(Some(&text)).ok().unwrap();
    assert_eq!(favorites.iter(), loaded.iter());
}

#[test]
fn load_path_fails_on_malformed_json() {
    assert!(FavoritesIo::decode("{").is_err());
}

#[test]
fn load_path_fails_on_invalid_url_entries() {
    assert!(FavoritesIo::decode("[1]").is_err());
}

#[test]
fn decode_keeps_first_occurrences() {
    let f = FavoritesIo::decode("[\"/b\", \"/a\", \"/b\"]").ok().unwrap();
    assert_eq!(vec![s("/b"), s("/a")], f.iter());
    assert!(FavoritesIo::decode("[]").ok().unwrap().is_empty());
}

#[test]
fn encode_writes_an_empty_array() {
    assert_eq!("[]", FavoritesIo::encode(&Favorites::new()).ok().unwrap());
}

#[test]
fn favorites_path_prefers_the_configured_file() {
    assert_eq!("/state/favorites.json", FavoritesIo::path("", "/state"));
    assert_eq!("/state/favorites.json", FavoritesIo::path("", "/state/"));
    assert_eq!("/managed/favorites.json", FavoritesIo::path("/managed/favorites.json", "/state"));
}

#[test]
fn saved_favorites_load_back_in_order() {
    let favorites = Favorites::from_iter(vec![s("/z"), s("/a b"), s("/q\"u\"ote"), s("/ü")]);
    let text = FavoritesIo::encode(&favorites).ok().unwrap();
    let loaded = FavoritesIo::decode(&text).ok().unwrap();
    assert_eq!(favorites.iter(), loaded.iter());
}
