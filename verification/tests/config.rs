use yazi_favorites::config::{check_linemode, normalize_favorites_file, ConfigError};

#[test]
fn favorites_file_allows_empty_string() {
    assert_eq!(Ok(String::new()), normalize_favorites_file("", Some("/home/u")));
}

#[test]
fn favorites_file_accepts_absolute_paths() {
    assert_eq!(Ok("/tmp/favorites.json".to_string()), normalize_favorites_file("/tmp/favorites.json", None));
}

#[test]
fn favorites_file_expands_home_paths() {
    assert_eq!(
        Ok("/home/u/favorites.json".to_string()),
        normalize_favorites_file("~/favorites.json", Some("/home/u"))
    );
    assert_eq!(Ok("/home/u".to_string()), normalize_favorites_file("~", Some("/home/u")));
    assert_eq!(Err(ConfigError::FavoritesFileNotAbsolute), normalize_favorites_file("~/f", None));
}

#[test]
fn favorites_file_rejects_relative_paths() {
    assert_eq!(
        Err(ConfigError::FavoritesFileNotAbsolute),
        normalize_favorites_file("state/favorites.json", Some("/home/u"))
    );
    assert_eq!(
        Err(ConfigError::FavoritesFileNotAbsolute),
        normalize_favorites_file("~user/favorites.json", Some("/home/u"))
    );
}

#[test]
fn linemode_must_have_one_to_twenty_bytes() {
    assert_eq!(Ok(()), check_linemode("none"));
    assert_eq!(Ok(()), check_linemode("12345678901234567890"));
    assert_eq!(Err(ConfigError::LinemodeLength), check_linemode(""));
    assert_eq!(Err(ConfigError::LinemodeLength), check_linemode("123456789012345678901"));
    assert_eq!(Err(ConfigError::LinemodeLength), check_linemode("ééééééééééé"));
}
