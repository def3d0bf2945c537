use yazi_favorites::cycle::FavoriteCycle;
use yazi_favorites::favorites::Favorites;
use yazi_favorites::favorites_io::FavoritesIo;
use yazi_favorites::normal::normalize;

fn s(p: &str) -> String {
    p.to_string()
}

#[test]
fn normalize_drops_redundant_separators_and_dots() {
    assert_eq!("/a/b/c", normalize("/a//b/./c/"));
    assert_eq!("/a", normalize("/a/"));
    assert_eq!("/", normalize("/"));
    assert_eq!("/", normalize("//"));
    assert_eq!("./a", normalize("./a/"));
    assert_eq!(".", normalize("."));
    assert_eq!("", normalize(""));
    assert_eq!("a", normalize("a/."));
    assert_eq!("a/../b", normalize("a/../b"));
}

#[test]
fn trailing_separator_names_the_same_favorite() {
    let mut favorites = Favorites::new();
    assert_eq!(1, favorites.set_many(&[s("/a/")], true));
    assert!(favorites.contains("/a"));
    assert!(favorites.contains("/a/"));
    assert!(favorites.contains("//a"));
    assert_eq!(0, favorites.set_many(&[s("/a")], true));
    assert_eq!(vec![s("/a")], favorites.iter());
}

#[test]
fn equal_paths_count_once() {
    let mut favorites = Favorites::new();
    assert_eq!(1, favorites.toggle_many(&[s("/a"), s("/a/"), s("/./a")]));
    assert_eq!(1, favorites.len());
    assert_eq!(1, favorites.toggle_many(&[s("/a//")]));
    assert!(favorites.is_empty());
    let f = Favorites::from_iter(vec![s("/b/"), s("/b")]);
    assert_eq!(vec![s("/b")], f.iter());
}

#[test]
fn arrow_from_a_differently_spelled_favorite() {
    let mut favorites = Favorites::new();
    favorites.set_many(&[s("/a"), s("/b"), s("/c")], true);
    assert_eq!(Some(s("/c")), favorites.arrow("/b/", false));
    assert_eq!(Some(s("/a")), favorites.arrow("/b//", true));
}

#[test]
fn cycle_matches_a_differently_spelled_path() {
    let mut favorites = Favorites::new();
    favorites.set_many(&[s("/a"), s("/b")], true);
    let mut cycle = FavoriteCycle::default();
    cycle.advance(&favorites, s("/a/"));
    assert!(cycle.matches("/a"));
    assert!(!cycle.matches("/b"));
    assert_eq!(Some(s("/b")), cycle.target(false));
}

#[test]
fn decode_reads_paths_in_normal_form() {
    let f = FavoritesIo::decode("[\"/a/\", \"/a\", \"/b//c\"]").ok().unwrap();
    assert_eq!(vec![s("/a"), s("/b/c")], f.iter());
}

#[test]
fn encode_escapes_special_characters() {
    let f = Favorites::from_iter(vec![s("/q\"u"), s("/t\tb\\"), s("/c\u{1}")]);
    let text = FavoritesIo::encode(&f).ok().unwrap();
    assert_eq!("[\n  \"/q\\\"u\",\n  \"/t\\tb\\\\\",\n  \"/c\\u0001\"\n]", text);
}

#[test]
fn normalize_twice_changes_nothing_more() {
    for p in ["/a//b/./c/", "./x/", "a/.", "//", "", ".", "/a/../b/"] {
        let once = normalize(p);
        assert_eq!(once, normalize(&once));
    }
}
