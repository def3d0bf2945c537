//! The favorites file: a JSON array of path strings, in the order in which
//! the paths were added.

use vstd::prelude::*;

use crate::favorites::Favorites;
use crate::normal::normals;
use crate::seqs::dedup;
use crate::url::{join, path_join, texts};

verus! {

/// `serde_json::Error`, carried as an opaque value.
#[verifier::external_type_specification]
#[verifier::external_body]
pub struct ExJsonError(serde_json::Error);

/// The strings of the JSON array of strings `text`; `None` when `text` is
/// not such an array.
pub uninterp spec fn json_string_array(text: Seq<char>) -> Option<Seq<Seq<char>>>;

/// The lower-case hexadecimal digit of `n`, below 16.
pub open spec fn hex_digit(n: int) -> char {
    seq!['0', '1', '2', '3', '4', '5', '6', '7', '8', '9', 'a', 'b', 'c', 'd', 'e', 'f'][n]
}

/// The character `c` inside a JSON string literal: `"` and `\` after a
/// backslash, the control characters with a short escape as such, the
/// other control characters as `\u00` and two hexadecimal digits, any
/// other character as itself.
pub open spec fn json_escape(c: char) -> Seq<char> {
    if c == '"' {
        seq!['\\', '"']
    } else if c == '\\' {
        seq!['\\', '\\']
    } else if c == '\u{8}' {
        seq!['\\', 'b']
    } else if c == '\t' {
        seq!['\\', 't']
    } else if c == '\n' {
        seq!['\\', 'n']
    } else if c == '\u{c}' {
        seq!['\\', 'f']
    } else if c == '\r' {
        seq!['\\', 'r']
    } else if (c as int) < 0x20 {
        seq!['\\', 'u', '0', '0', hex_digit((c as int) / 16), hex_digit((c as int) % 16)]
    } else {
        seq![c]
    }
}

/// The characters of `s`, each escaped for a JSON string literal.
pub open spec fn json_escaped(s: Seq<char>) -> Seq<char>
    decreases s.len(),
{
    if s.len() == 0 {
        Seq::empty()
    } else {
        json_escaped(s.drop_last()) + json_escape(s.last())
    }
}

/// The JSON string literal of `s`.
pub open spec fn json_string(s: Seq<char>) -> Seq<char> {
    seq!['"'] + json_escaped(s) + seq!['"']
}

/// The items of a pretty-printed JSON array of the strings `items`: each
/// on a line of its own, indented by two spaces, separated by commas.
pub open spec fn json_pretty_items(items: Seq<Seq<char>>) -> Seq<char>
    decreases items.len(),
{
    if items.len() == 0 {
        Seq::empty()
    } else {
        let sep = if items.len() == 1 {
            seq!['\n', ' ', ' ']
        } else {
            seq![',', '\n', ' ', ' ']
        };
        json_pretty_items(items.drop_last()) + sep + json_string(items.last())
    }
}

/// The pretty-printed JSON array of the strings `items`: `[]` when there
/// are none, else `[`, the items, a line break and `]`.
pub open spec fn json_pretty_string_array(items: Seq<Seq<char>>) -> Seq<char> {
    if items.len() == 0 {
        seq!['[', ']']
    } else {
        seq!['['] + json_pretty_items(items) + seq!['\n', ']']
    }
}

/// `serde_json::from_str::<Vec<String>>`: the strings of the JSON array of
/// strings `text`, or the error that stopped the parse.
#[verifier::external_body]
fn parse_string_array(text: &str) -> (res: Result<Vec<String>, serde_json::Error>)
    ensures
        match res {
            Ok(v) => json_string_array(text@) == Some(texts(v@)),
            Err(_) => json_string_array(text@) is None,
        },
{
    serde_json::from_str(text)
}

/// `serde_json::to_string_pretty` on a `Vec<String>`: it does not fail
/// (a sequence of strings written into a byte vector meets no error), and
/// writes the strings as a JSON array, one per line, indented by two
/// spaces (see `json_pretty_string_array`). Each string is written as a
/// JSON string literal with its special characters escaped, which
/// `serde_json::from_str` reads back to the same string: the text parses
/// back to the same strings in the same order.
#[verifier::external_body]
fn pretty_string_array(items: &Vec<String>) -> (res: Result<String, serde_json::Error>)
    ensures
        res is Ok,
        res matches Ok(s) ==> s@ == json_pretty_string_array(texts(items@)),
        res matches Ok(s) ==> json_string_array(s@) == Some(texts(items@)),
{
    serde_json::to_string_pretty(items)
}

/// Why the favorites file could not be read or written.
pub enum FavoritesIoError {
    /// It is not a JSON array of path strings.
    Parse(serde_json::Error),
    /// The favorites could not be written as JSON.
    Serialize(serde_json::Error),
}

/// The favorites file.
pub struct FavoritesIo;

/// Where the favorites file lies: the configured path, or else
/// `favorites.json` in the state directory.
pub open spec fn favorites_path_spec(configured: Seq<char>, state_dir: Seq<char>) -> Seq<char> {
    if configured.len() == 0 {
        path_join(state_dir, "favorites.json"@)
    } else {
        configured
    }
}

impl FavoritesIo {
    /// Where the favorites file lies (see `favorites_path_spec`).
    pub fn path(configured: &str, state_dir: &str) -> (res: String)
        ensures
            res@ == favorites_path_spec(configured@, state_dir@),
    {
        if configured.unicode_len() == 0 {
            join(state_dir, "favorites.json")
        } else {
            String::from_str(configured)
        }
    }

    /// The favorites written in `text`: each path once, in normal form, in
    /// the order of its first occurrence; an error when `text` is not a
    /// JSON array of strings.
    pub fn decode(text: &str) -> (res: Result<Favorites, FavoritesIoError>)
        ensures
            match json_string_array(text@) {
                None => res is Err,
                Some(items) => res matches Ok(f) && f.wf() && f@ == dedup(normals(items)),
            },
    {
        match parse_string_array(text) {
            Ok(urls) => Ok(Favorites::from_iter(urls)),
            Err(e) => Err(FavoritesIoError::Parse(e)),
        }
    }

    /// The favorites as the favorites file holds them, or the contents of a
    /// file that is missing (`None`), which holds no favorites.
    pub fn load_from(contents: Option<&str>) -> (res: Result<Favorites, FavoritesIoError>)
        ensures
            match contents {
                None => res matches Ok(f) && f.wf() && f@.len() == 0,
                Some(text) => match json_string_array(text@) {
                    None => res is Err,
                    Some(items) => res matches Ok(f) && f.wf() && f@ == dedup(normals(items)),
                },
            },
    {
        match contents {
            None => Ok(Favorites::new()),
            Some(text) => FavoritesIo::decode(text),
        }
    }

    /// The text of the favorites file for `favorites`: the pretty-printed
    /// JSON array of their paths, in the order in which they were added,
    /// which reads back as those paths.
    pub fn encode(favorites: &Favorites) -> (res: Result<String, FavoritesIoError>)
        ensures
            res matches Ok(s) && s@ == json_pretty_string_array(favorites@),
            res matches Ok(s) ==> json_string_array(s@) == Some(favorites@),
    {
        let urls = favorites.iter();
        match pretty_string_array(&urls) {
            Ok(s) => Ok(s),
            Err(e) => Err(FavoritesIoError::Serialize(e)),
        }
    }
}

} // verus!
