//! The `quarter_arrow` action: from a quarterly report `{root}/{YYYY_Q}/{name}.pdf`
//! to the report of the same name in the previous or next quarter present
//! under `root`.

use vstd::prelude::*;

use crate::action::Target;
use crate::cycle::FavoriteCycle;
use crate::normal::normal;
use crate::url::{
    join, last_index_of, last_of, lemma_last_of, name_of, opt_text, parent, path_join, path_name,
    path_parent,
};

verus! {

/// A quarter: a year and its quarter number.
#[derive(Clone, Copy, PartialEq, Eq, Structural, Debug)]
pub struct QuarterKey {
    pub year: u16,
    pub quarter: u8,
}

/// The order of quarters: by year, then by quarter number.
pub open spec fn key_lt(a: QuarterKey, b: QuarterKey) -> bool {
    a.year < b.year || (a.year == b.year && a.quarter < b.quarter)
}

/// Whether `c` is an ASCII digit.
pub open spec fn is_digit(c: char) -> bool {
    '0' as int <= c as int <= '9' as int
}

/// The value of the digit `c`.
pub open spec fn digit_value(c: char) -> int {
    c as int - '0' as int
}

/// The quarter that a directory name `YYYY_Q` stands for: four digits, an
/// underscore and a quarter number from 1 to 4.
pub open spec fn quarter_dir_name_spec(name: Seq<char>) -> Option<QuarterKey> {
    if name.len() == 6 && is_digit(name[0]) && is_digit(name[1]) && is_digit(name[2]) && is_digit(
        name[3],
    ) && name[4] == '_' && '1' as int <= name[5] as int <= '4' as int {
        Some(
            QuarterKey {
                year: (1000 * digit_value(name[0]) + 100 * digit_value(name[1]) + 10 * digit_value(
                    name[2],
                ) + digit_value(name[3])) as u16,
                quarter: digit_value(name[5]) as u8,
            },
        )
    } else {
        None
    }
}

fn digit(c: char) -> (res: Option<u16>)
    ensures
        match res {
            Some(d) => is_digit(c) && d as int == digit_value(c) && d <= 9,
            None => !is_digit(c),
        },
{
    assert('0' as int == 48 && '9' as int == 57);
    if c >= '0' && c <= '9' {
        Some((c as u32 - '0' as u32) as u16)
    } else {
        None
    }
}

/// The quarter that the directory name `name` stands for (see
/// `quarter_dir_name_spec`).
pub fn parse_quarter_dir_name(name: &str) -> (res: Option<QuarterKey>)
    ensures
        res == quarter_dir_name_spec(name@),
{
    if name.unicode_len() != 6 {
        return None;
    }
    let d0 = match digit(name.get_char(0)) {
        Some(d) => d,
        None => return None,
    };
    let d1 = match digit(name.get_char(1)) {
        Some(d) => d,
        None => return None,
    };
    let d2 = match digit(name.get_char(2)) {
        Some(d) => d,
        None => return None,
    };
    let d3 = match digit(name.get_char(3)) {
        Some(d) => d,
        None => return None,
    };
    if name.get_char(4) != '_' {
        return None;
    }
    let q = match digit(name.get_char(5)) {
        Some(d) => d,
        None => return None,
    };
    if q < 1 || q > 4 {
        return None;
    }
    Some(QuarterKey { year: 1000 * d0 + 100 * d1 + 10 * d2 + d3, quarter: q as u8 })
}

/// Whether the file name `name` has the extension `pdf`, in any case: what
/// follows its last dot, where that dot is not its first character.
pub open spec fn is_pdf_name(name: Seq<char>) -> bool {
    let d = last_of(name, '.');
    &&& d > 0
    &&& name.len() == d + 4
    &&& (name[d + 1] == 'p' || name[d + 1] == 'P')
    &&& (name[d + 2] == 'd' || name[d + 2] == 'D')
    &&& (name[d + 3] == 'f' || name[d + 3] == 'F')
}

fn is_pdf(name: &str) -> (res: bool)
    ensures
        res == is_pdf_name(name@),
{
    proof {
        lemma_last_of(name@, '.');
    }
    let n = name.unicode_len();
    match last_index_of(name, '.') {
        None => false,
        Some(d) => {
            if d == 0 || n < 4 || n - 4 != d {
                return false;
            }
            let p = name.get_char(d + 1);
            let q = name.get_char(d + 2);
            let r = name.get_char(d + 3);
            (p == 'p' || p == 'P') && (q == 'd' || q == 'D') && (r == 'f' || r == 'F')
        },
    }
}

/// A quarterly report: the directory that holds the quarters, the quarter
/// it belongs to, and its file name.
pub struct QuarterPath {
    pub data_root: String,
    pub current: QuarterKey,
    pub filename: String,
}

/// The quarterly report that `p` is, if it is one: a PDF file whose
/// directory is named for a quarter.
pub open spec fn quarter_path_spec(p: Seq<char>) -> Option<(Seq<char>, QuarterKey, Seq<char>)> {
    match path_name(p) {
        None => None,
        Some(name) => if !is_pdf_name(name) {
            None
        } else {
            match path_parent(p) {
                None => None,
                Some(qdir) => match path_parent(qdir) {
                    None => None,
                    Some(root) => match path_name(qdir) {
                        None => None,
                        Some(qname) => match quarter_dir_name_spec(qname) {
                            None => None,
                            Some(k) => Some((root, k, name)),
                        },
                    },
                },
            }
        },
    }
}

/// The parts of a quarterly report, as a view.
pub open spec fn quarter_path_view(q: Option<QuarterPath>) -> Option<(Seq<char>, QuarterKey, Seq<char>)> {
    match q {
        Some(q) => Some((q.data_root@, q.current, q.filename@)),
        None => None,
    }
}

/// The quarterly report that the path `p` is, if it is one (see
/// `quarter_path_spec`).
pub fn parse_quarter_path(p: &str) -> (res: Option<QuarterPath>)
    ensures
        quarter_path_view(res) == quarter_path_spec(p@),
{
    let name = match name_of(p) {
        Some(n) => n,
        None => return None,
    };
    if !is_pdf(name.as_str()) {
        return None;
    }
    let qdir = match parent(p) {
        Some(d) => d,
        None => return None,
    };
    let root = match parent(qdir.as_str()) {
        Some(r) => r,
        None => return None,
    };
    let qname = match name_of(qdir.as_str()) {
        Some(n) => n,
        None => return None,
    };
    let current = match parse_quarter_dir_name(qname.as_str()) {
        Some(k) => k,
        None => return None,
    };
    Some(QuarterPath { data_root: root, current, filename: name })
}

/// An entry of a directory listing: its name, and whether it is a
/// directory.
pub struct DirEntry {
    pub name: String,
    pub is_dir: bool,
}

/// A quarter present under the data root, and its directory.
pub struct QuarterDir {
    pub key: QuarterKey,
    pub path: String,
}

/// The quarters and their directories, as a view.
pub open spec fn quarter_dirs_view(v: Seq<QuarterDir>) -> Seq<(QuarterKey, Seq<char>)> {
    v.map_values(|d: QuarterDir| (d.key, d.path@))
}

/// The directories of a listing of `root` that are named for a quarter,
/// in listing order.
pub open spec fn quarter_candidates(root: Seq<char>, entries: Seq<DirEntry>) -> Seq<(QuarterKey, Seq<char>)>
    decreases entries.len(),
{
    if entries.len() == 0 {
        Seq::empty()
    } else {
        let r = quarter_candidates(root, entries.drop_last());
        let e = entries.last();
        if e.is_dir && quarter_dir_name_spec(e.name@) is Some {
            r.push((quarter_dir_name_spec(e.name@)->0, path_join(root, e.name@)))
        } else {
            r
        }
    }
}

/// Whether the quarters of `v` come in order.
pub open spec fn keys_sorted(v: Seq<(QuarterKey, Seq<char>)>) -> bool {
    forall|i: int, j: int| 0 <= i < j < v.len() ==> !key_lt(#[trigger] v[j].0, #[trigger] v[i].0)
}

/// The quarters present in the listing `entries` of `root`, in order of
/// quarter.
pub fn quarter_dirs(data_root: &str, entries: &[DirEntry]) -> (res: Vec<QuarterDir>)
    ensures
        keys_sorted(quarter_dirs_view(res@)),
        quarter_dirs_view(res@).to_multiset() == quarter_candidates(data_root@, entries@).to_multiset(),
{
    let mut res: Vec<QuarterDir> = Vec::new();
    let mut i: usize = 0;
    proof {
        assert(quarter_dirs_view(res@) =~= Seq::<(QuarterKey, Seq<char>)>::empty());
        assert(entries@.take(0) =~= Seq::<DirEntry>::empty());
    }
    while i < entries.len()
        invariant
            i <= entries@.len(),
            keys_sorted(quarter_dirs_view(res@)),
            quarter_dirs_view(res@).to_multiset() == quarter_candidates(
                data_root@,
                entries@.take(i as int),
            ).to_multiset(),
        decreases entries@.len() - i,
    {
        proof {
            assert(entries@.take(i + 1).drop_last() =~= entries@.take(i as int));
        }
        let e = &entries[i];
        if e.is_dir {
            match parse_quarter_dir_name(e.name.as_str()) {
                Some(key) => {
                    let path = join(data_root, e.name.as_str());
                    let ghost item = (key, path@);
                    let ghost before = quarter_dirs_view(res@);
                    let mut pos: usize = 0;
                    while pos < res.len() && !(key.year < res[pos].key.year || (key.year
                        == res[pos].key.year && key.quarter < res[pos].key.quarter))
                        invariant
                            pos <= res@.len(),
                            before == quarter_dirs_view(res@),
                            forall|k: int| 0 <= k < pos ==> !key_lt(key, #[trigger] before[k].0),
                        decreases res@.len() - pos,
                    {
                        pos = pos + 1;
                    }
                    res.insert(pos, QuarterDir { key, path });
                    proof {
                        let after = quarter_dirs_view(res@);
                        assert(after =~= before.insert(pos as int, item));
                        assert(after.remove(pos as int) =~= before);
                        broadcast use vstd::seq_lib::group_to_multiset_ensures;

                        assert(after.to_multiset().remove(item) == before.to_multiset());
                        assert(after.contains(item)) by {
                            assert(after[pos as int] == item);
                        }
                        assert(after.to_multiset() =~= before.to_multiset().insert(item));
                        assert forall|a: int, b: int| 0 <= a < b < after.len() implies !key_lt(
                            #[trigger] after[b].0,
                            #[trigger] after[a].0,
                        ) by {
                            if b == pos {
                                assert(after[a] == before[a]);
                            } else if a == pos {
                                assert(after[b] == before[b - 1]);
                                if pos < before.len() {
                                    assert(key_lt(key, before[pos as int].0));
                                    if b - 1 > pos {
                                        assert(!key_lt(before[b - 1].0, before[pos as int].0));
                                    }
                                }
                            } else if b < pos {
                                assert(after[a] == before[a] && after[b] == before[b]);
                            } else if a > pos {
                                assert(after[a] == before[a - 1] && after[b] == before[b - 1]);
                            } else {
                                assert(after[a] == before[a] && after[b] == before[b - 1]);
                            }
                        }
                        assert(quarter_candidates(data_root@, entries@.take(i + 1)) == quarter_candidates(
                            data_root@,
                            entries@.take(i as int),
                        ).push(item));
                        vstd::seq_lib::to_multiset_build(
                            quarter_candidates(data_root@, entries@.take(i as int)),
                            item,
                        );
                    }
                },
                None => {},
            }
        }
        i = i + 1;
    }
    proof {
        assert(entries@.take(entries@.len() as int) =~= entries@);
    }
    res
}

/// Where the report at `index` among `len` quarters goes: the quarter
/// before it (`prev`) or after it, if there is one.
pub open spec fn prev_index_spec(current: int, len: int, prev: bool) -> Option<int> {
    if prev {
        if current >= 1 {
            Some(current - 1)
        } else {
            None
        }
    } else if current + 1 < len {
        Some(current + 1)
    } else {
        None
    }
}

/// The place of the quarter before (`prev`) or after `current` among
/// `len` quarters, if there is one.
pub fn prev_index(current: usize, len: usize, prev: bool) -> (res: Option<usize>)
    requires
        !prev ==> current < usize::MAX,
    ensures
        match res {
            Some(i) => prev_index_spec(current as int, len as int, prev) == Some(i as int),
            None => prev_index_spec(current as int, len as int, prev) is None,
        },
{
    if prev {
        current.checked_sub(1)
    } else if current + 1 < len {
        Some(current + 1)
    } else {
        None
    }
}

/// The first place in `v` of the quarter `k`.
pub open spec fn key_position(v: Seq<(QuarterKey, Seq<char>)>, k: QuarterKey) -> Option<int> {
    if exists|i: int| 0 <= i < v.len() && v[i].0 == k {
        Some(choose|i: int| 0 <= i < v.len() && v[i].0 == k && forall|j: int| 0 <= j < i ==> v[j].0 != k)
    } else {
        None
    }
}

/// What to do after the quarters have been listed.
pub enum Lookup {
    /// Nothing: the report's own quarter was not found.
    Ignore,
    /// Tell the user this.
    Notify(String),
    /// Reveal this path if it is a file.
    Check(String),
}

/// The message when there is no quarter to go to.
pub open spec fn no_quarter_message(prev: bool) -> Seq<char> {
    if prev {
        "No previous quarter"@
    } else {
        "No next quarter"@
    }
}

/// What to do for the report `current` among the `quarters` listed, going
/// backward (`prev`) or forward: the report of the same name in the
/// neighbouring quarter is to be checked.
pub open spec fn lookup_spec(current: (Seq<char>, QuarterKey, Seq<char>), quarters: Seq<(QuarterKey, Seq<char>)>, prev: bool) -> (int, Seq<char>) {
    match key_position(quarters, current.1) {
        None => (0, Seq::empty()),
        Some(i) => match prev_index_spec(i, quarters.len() as int, prev) {
            None => (1, no_quarter_message(prev)),
            Some(j) => (2, path_join(quarters[j].1, current.2)),
        },
    }
}

/// The kind of a lookup (0 ignore, 1 notify, 2 check) and its text.
pub open spec fn lookup_view(l: Lookup) -> (int, Seq<char>) {
    match l {
        Lookup::Ignore => (0, Seq::empty()),
        Lookup::Notify(m) => (1, m@),
        Lookup::Check(p) => (2, p@),
    }
}

/// The `quarter_arrow` action.
pub struct QuarterArrow;

impl QuarterArrow {
    /// The report that the hovered local path is, if it is one; the app
    /// then lists its data root.
    pub fn plan(hovered: Option<&String>) -> (res: Option<QuarterPath>)
        ensures
            quarter_path_view(res) == match hovered {
                Some(h) => quarter_path_spec(h@),
                None => None,
            },
    {
        match hovered {
            Some(h) => parse_quarter_path(h.as_str()),
            None => None,
        }
    }

    /// Given the quarters present under the report's data root, in order
    /// (`quarter_dirs`), what to do (see `lookup_spec`).
    pub fn resolve_target(current: &QuarterPath, quarters: &[QuarterDir], prev: bool) -> (res: Lookup)
        ensures
            lookup_view(res) == lookup_spec(
                (current.data_root@, current.current, current.filename@),
                quarter_dirs_view(quarters@),
                prev,
            ),
    {
        let ghost v = quarter_dirs_view(quarters@);
        let mut i: usize = 0;
        while i < quarters.len() && quarters[i].key != current.current
            invariant
                i <= quarters@.len(),
                v == quarter_dirs_view(quarters@),
                forall|j: int| 0 <= j < i ==> v[j].0 != current.current,
            decreases quarters@.len() - i,
        {
            i = i + 1;
        }
        if i == quarters.len() {
            return Lookup::Ignore;
        }
        proof {
            assert(v[i as int].0 == current.current);
            let c = choose|c: int|
                0 <= c < v.len() && v[c].0 == current.current && forall|j: int|
                    0 <= j < c ==> v[j].0 != current.current;
            if c < i {
            } else if c > i {
                assert(v[i as int].0 == current.current);
            }
            assert(c == i);
        }
        match prev_index(i, quarters.len(), prev) {
            None => {
                proof {
                    reveal_strlit("No previous quarter");
                    reveal_strlit("No next quarter");
                }
                if prev {
                    Lookup::Notify(String::from_str("No previous quarter"))
                } else {
                    Lookup::Notify(String::from_str("No next quarter"))
                }
            },
            Some(j) => Lookup::Check(join(quarters[j].path.as_str(), current.filename.as_str())),
        }
    }

    /// Once the app knows whether `candidate` is a file: reveal it, or
    /// tell the user there is no such report.
    pub fn conclude(candidate: String, is_file: bool) -> (res: Target)
        ensures
            is_file ==> (res matches Target::Reveal(p) && p@ == candidate@),
            !is_file ==> (res matches Target::Notify(m) && m@ == "No quarterly PDF for this ticker"@),
    {
        if is_file {
            Target::Reveal(candidate)
        } else {
            Target::Notify(String::from_str("No quarterly PDF for this ticker"))
        }
    }

    /// The walk through the favorites after the view moved to `landed` by
    /// this action: moved along (`relocate`) when it stood at the hovered
    /// path before the move (`preserving`), else left as it was.
    pub fn next_cycle(cycle: &FavoriteCycle, preserving: bool, landed: String) -> (res: FavoriteCycle)
        ensures
            opt_text(res.anchor) == opt_text(cycle.anchor),
            opt_text(res.prev) == opt_text(cycle.prev),
            opt_text(res.next) == opt_text(cycle.next),
            opt_text(res.current) == if preserving && cycle.anchor is Some {
                Some(landed@)
            } else {
                opt_text(cycle.current)
            },
    {
        let mut next = cycle.duplicate();
        if preserving {
            next.relocate(landed);
        }
        next
    }

    /// Whether the walk through the favorites stands at the hovered path
    /// (at a path with the same normal form), so that the move to another
    /// quarter keeps it going (then the app relocates the cycle to where
    /// the view lands).
    pub fn preserves_cycle(cycle: &FavoriteCycle, hovered: &String) -> (res: bool)
        ensures
            res == (cycle.position() matches Some(p) && normal(p) == normal(hovered@)),
    {
        cycle.matches(hovered.as_str())
    }
}

} // verus!
