//! The manager's settings that the favorites and the view depend on.

use vstd::prelude::*;

use vstd::string::StringSliceAdditionalSpecFns;

use crate::url::{join, path_join};

verus! {

/// Why a setting was refused.
#[derive(PartialEq, Eq, Structural, Debug, Clone, Copy)]
pub enum ConfigError {
    /// `linemode` must be between 1 and 20 characters.
    LinemodeLength,
    /// `favorites_file` must be either empty or an absolute path.
    FavoritesFileNotAbsolute,
}

/// Whether the `linemode` setting is accepted: not empty, and at most 20
/// bytes long.
pub open spec fn linemode_ok(s: &str) -> bool {
    s@.len() != 0 && s.spec_bytes().len() <= 20
}

/// Checks the `linemode` setting (see `linemode_ok`).
pub fn check_linemode(s: &str) -> (res: Result<(), ConfigError>)
    ensures
        res is Ok <==> linemode_ok(s),
        res is Err ==> res == Err::<(), ConfigError>(ConfigError::LinemodeLength),
{
    let l = s.as_bytes().len();
    if s.is_empty() || l > 20 {
        Err(ConfigError::LinemodeLength)
    } else {
        Ok(())
    }
}

/// The `favorites_file` setting as it is used: empty stays empty (the
/// default place); an absolute path stays as it is; `~` or a path under
/// `~/` is taken under the home directory `home`; anything else, or `~`
/// without a home directory, is refused.
pub open spec fn favorites_file_spec(path: Seq<char>, home: Option<Seq<char>>) -> Option<Seq<char>> {
    if path.len() == 0 {
        Some(path)
    } else if path[0] == '/' {
        Some(path)
    } else if path[0] == '~' && (path.len() == 1 || path[1] == '/') {
        match home {
            Some(h) => if path.len() <= 2 {
                Some(h)
            } else {
                Some(path_join(h, path.subrange(2, path.len() as int)))
            },
            None => None,
        }
    } else {
        None
    }
}

/// Checks the `favorites_file` setting and resolves `~` (see
/// `favorites_file_spec`).
pub fn normalize_favorites_file(path: &str, home: Option<&str>) -> (res: Result<String, ConfigError>)
    ensures
        match favorites_file_spec(
            path@,
            match home {
                Some(h) => Some(h@),
                None => None,
            },
        ) {
            Some(p) => res matches Ok(s) && s@ == p,
            None => res == Err::<String, ConfigError>(ConfigError::FavoritesFileNotAbsolute),
        },
{
    let n = path.unicode_len();
    if n == 0 {
        return Ok(String::new());
    }
    let c0 = path.get_char(0);
    if c0 == '/' {
        return Ok(String::from_str(path));
    }
    if c0 == '~' && (n == 1 || path.get_char(1) == '/') {
        match home {
            Some(h) => {
                if n <= 2 {
                    return Ok(String::from_str(h));
                }
                return Ok(join(h, path.substring_char(2, n)));
            },
            None => {
                return Err(ConfigError::FavoritesFileNotAbsolute);
            },
        }
    }
    Err(ConfigError::FavoritesFileNotAbsolute)
}

} // verus!
