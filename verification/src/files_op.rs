//! Reports of changes to the files of a directory, as far as the favorites
//! read them: deletions, and renames within updates.

use vstd::prelude::*;

use crate::normal::{normal, normalize};
use crate::url::{file_name, join, path_file_name, path_join, text_eq};

verus! {

/// A file in an update report: the name it was listed under in the
/// directory, and the path it has now.
pub struct FileEntry {
    pub urn: String,
    pub url: String,
}

/// A report of changes to the files of the directory `cwd` (the first field
/// of each variant).
pub enum FilesOp {
    /// The files of these names were deleted.
    Deleting(String, Vec<String>),
    /// These files were updated.
    Updating(String, Vec<FileEntry>),
    /// These files were updated or added.
    Upserting(String, Vec<FileEntry>),
    /// Any other report: it neither deletes nor renames.
    Other,
}

/// A file entry whose path no longer ends with the name it was listed
/// under: a rename from `cwd/urn` to `url`.
pub open spec fn is_rename(e: FileEntry) -> bool {
    e.urn@ != path_file_name(e.url@)
}

/// The new path of the first rename in `files` from `url` under `cwd`
/// (the same path as `url`, compared in normal form).
pub open spec fn renamed_in(cwd: Seq<char>, files: Seq<FileEntry>, url: Seq<char>) -> Option<Seq<char>>
    decreases files.len(),
{
    if files.len() == 0 {
        None
    } else if is_rename(files[0]) && normal(path_join(cwd, files[0].urn@)) == normal(url) {
        Some(files[0].url@)
    } else {
        renamed_in(cwd, files.drop_first(), url)
    }
}

/// The path that `url` was renamed to by `op`, if `op` renamed it.
pub open spec fn renamed_spec(url: Seq<char>, op: FilesOp) -> Option<Seq<char>> {
    match op {
        FilesOp::Updating(cwd, files) => renamed_in(cwd@, files@, url),
        FilesOp::Upserting(cwd, files) => renamed_in(cwd@, files@, url),
        _ => None,
    }
}

/// The favorites among the paths deleted from `cwd`, in report order.
pub open spec fn deleted_in(cwd: Seq<char>, urns: Seq<String>, s: Seq<Seq<char>>) -> Seq<Seq<char>>
    decreases urns.len(),
{
    if urns.len() == 0 {
        Seq::empty()
    } else {
        let r = deleted_in(cwd, urns.drop_last(), s);
        let p = path_join(cwd, urns.last()@);
        if s.contains(normal(p)) {
            r.push(p)
        } else {
            r
        }
    }
}

/// The renames in `files` of favorites: their old paths (`true`) or their
/// new paths (`false`), in report order.
pub open spec fn renames_in(cwd: Seq<char>, files: Seq<FileEntry>, s: Seq<Seq<char>>, old: bool) -> Seq<Seq<char>>
    decreases files.len(),
{
    if files.len() == 0 {
        Seq::empty()
    } else {
        let r = renames_in(cwd, files.drop_last(), s, old);
        let e = files.last();
        let from = path_join(cwd, e.urn@);
        if is_rename(e) && s.contains(normal(from)) {
            r.push(if old { from } else { e.url@ })
        } else {
            r
        }
    }
}

/// The favorites that `op` takes away: deleted or renamed ones.
pub open spec fn removal_spec(op: FilesOp, s: Seq<Seq<char>>) -> Seq<Seq<char>> {
    match op {
        FilesOp::Deleting(cwd, urns) => deleted_in(cwd@, urns@, s),
        FilesOp::Updating(cwd, files) => renames_in(cwd@, files@, s, true),
        FilesOp::Upserting(cwd, files) => renames_in(cwd@, files@, s, true),
        FilesOp::Other => Seq::empty(),
    }
}

/// The paths that `op` gives favorites in place of the renamed ones.
pub open spec fn addition_spec(op: FilesOp, s: Seq<Seq<char>>) -> Seq<Seq<char>> {
    match op {
        FilesOp::Updating(cwd, files) => renames_in(cwd@, files@, s, false),
        FilesOp::Upserting(cwd, files) => renames_in(cwd@, files@, s, false),
        _ => Seq::empty(),
    }
}

fn renamed_entry(cwd: &str, e: &FileEntry, url: &str) -> (res: bool)
    ensures
        res == (is_rename(*e) && normal(path_join(cwd@, e.urn@)) == normal(url@)),
{
    let name = file_name(e.url.as_str());
    if text_eq(e.urn.as_str(), name.as_str()) {
        return false;
    }
    let from = normalize(join(cwd, e.urn.as_str()).as_str());
    let target = normalize(url);
    text_eq(from.as_str(), target.as_str())
}

fn renamed_in_files(cwd: &str, files: &Vec<FileEntry>, url: &str) -> (res: Option<String>)
    ensures
        crate::url::opt_text(res) == renamed_in(cwd@, files@, url@),
{
    let mut i: usize = 0;
    assert(files@.skip(0) =~= files@);
    while i < files.len()
        invariant
            i <= files@.len(),
            renamed_in(cwd@, files@, url@) == renamed_in(cwd@, files@.skip(i as int), url@),
        decreases files@.len() - i,
    {
        proof {
            assert(files@.skip(i as int)[0] == files@[i as int]);
            assert(files@.skip(i as int).drop_first() =~= files@.skip(i + 1));
        }
        if renamed_entry(cwd, &files[i], url) {
            return Some(files[i].url.clone());
        }
        i = i + 1;
    }
    None
}

impl FilesOp {
    /// The path that `url` was renamed to by this report, if it was.
    pub fn renamed(&self, url: &str) -> (res: Option<String>)
        ensures
            crate::url::opt_text(res) == renamed_spec(url@, *self),
    {
        match self {
            FilesOp::Updating(cwd, files) => renamed_in_files(cwd.as_str(), files, url),
            FilesOp::Upserting(cwd, files) => renamed_in_files(cwd.as_str(), files, url),
            _ => None,
        }
    }
}

fn renames_of(cwd: &str, files: &Vec<FileEntry>, favorites: &crate::favorites::Favorites) -> (res: (
    Vec<String>,
    Vec<String>,
))
    ensures
        crate::url::texts(res.0@) == renames_in(cwd@, files@, favorites@, true),
        crate::url::texts(res.1@) == renames_in(cwd@, files@, favorites@, false),
{
    let mut removal: Vec<String> = Vec::new();
    let mut addition: Vec<String> = Vec::new();
    let mut i: usize = 0;
    while i < files.len()
        invariant
            i <= files@.len(),
            crate::url::texts(removal@) == renames_in(
                cwd@,
                files@.take(i as int),
                favorites@,
                true,
            ),
            crate::url::texts(addition@) == renames_in(
                cwd@,
                files@.take(i as int),
                favorites@,
                false,
            ),
        decreases files@.len() - i,
    {
        proof {
            assert(files@.take(i + 1).drop_last() =~= files@.take(i as int));
        }
        let e = &files[i];
        let name = file_name(e.url.as_str());
        if !text_eq(e.urn.as_str(), name.as_str()) {
            let from = join(cwd, e.urn.as_str());
            if favorites.contains(from.as_str()) {
                removal.push(from);
                addition.push(e.url.clone());
                proof {
                    assert(crate::url::texts(removal@) =~= crate::url::texts(
                        removal@.drop_last(),
                    ).push(removal@.last()@));
                    assert(crate::url::texts(addition@) =~= crate::url::texts(
                        addition@.drop_last(),
                    ).push(addition@.last()@));
                }
            }
        }
        i = i + 1;
    }
    assert(files@.take(files@.len() as int) =~= files@);
    (removal, addition)
}

fn deletions_of(cwd: &str, urns: &Vec<String>, favorites: &crate::favorites::Favorites) -> (res: Vec<
    String,
>)
    ensures
        crate::url::texts(res@) == deleted_in(cwd@, urns@, favorites@),
{
    let mut removal: Vec<String> = Vec::new();
    let mut i: usize = 0;
    while i < urns.len()
        invariant
            i <= urns@.len(),
            crate::url::texts(removal@) == deleted_in(cwd@, urns@.take(i as int), favorites@),
        decreases urns@.len() - i,
    {
        proof {
            assert(urns@.take(i + 1).drop_last() =~= urns@.take(i as int));
        }
        let p = join(cwd, urns[i].as_str());
        if favorites.contains(p.as_str()) {
            removal.push(p);
            proof {
                assert(crate::url::texts(removal@) =~= crate::url::texts(removal@.drop_last()).push(
                    removal@.last()@,
                ));
            }
        }
        i = i + 1;
    }
    assert(urns@.take(urns@.len() as int) =~= urns@);
    removal
}

impl FilesOp {
    /// The favorites that this report takes away (deleted, or renamed), and
    /// the new paths of the renamed ones.
    pub fn diff_recoverable(&self, favorites: &crate::favorites::Favorites) -> (res: (
        Vec<String>,
        Vec<String>,
    ))
        ensures
            crate::url::texts(res.0@) == removal_spec(*self, favorites@),
            crate::url::texts(res.1@) == addition_spec(*self, favorites@),
    {
        match self {
            FilesOp::Deleting(cwd, urns) => {
                let removal = deletions_of(cwd.as_str(), urns, favorites);
                let addition: Vec<String> = Vec::new();
                assert(crate::url::texts(addition@) =~= Seq::<Seq<char>>::empty());
                (removal, addition)
            },
            FilesOp::Updating(cwd, files) => renames_of(cwd.as_str(), files, favorites),
            FilesOp::Upserting(cwd, files) => renames_of(cwd.as_str(), files, favorites),
            FilesOp::Other => {
                let removal: Vec<String> = Vec::new();
                let addition: Vec<String> = Vec::new();
                assert(crate::url::texts(addition@) =~= Seq::<Seq<char>>::empty());
                assert(crate::url::texts(removal@) =~= Seq::<Seq<char>>::empty());
                (removal, addition)
            },
        }
    }
}

} // verus!
