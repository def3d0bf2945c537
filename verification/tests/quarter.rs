use yazi_favorites::action::Target;
use yazi_favorites::cycle::FavoriteCycle;
use yazi_favorites::favorite_arrow::FavoriteArrow;
use yazi_favorites::favorites::Favorites;
use yazi_favorites::forms::QuarterArrowForm;
use yazi_favorites::quarter::{
    parse_quarter_dir_name, parse_quarter_path, prev_index, quarter_dirs, DirEntry, Lookup,
    QuarterArrow, QuarterKey,
};

fn s(p: &str) -> String {
    p.to_string()
}

fn dir(name: &str) -> DirEntry {
    DirEntry { name: s(name), is_dir: true }
}

fn lookup(path: &str, entries: &[DirEntry], prev: bool) -> Option<Lookup> {
    let current = QuarterArrow::plan(Some(&s(path)))?;
    let quarters = quarter_dirs(&current.data_root, entries);
    Some(QuarterArrow::resolve_target(&current, &quarters, prev))
}

fn check_path(l: Option<Lookup>) -> String {
    match l {
        Some(Lookup::Check(p)) => p,
        _ => panic!("expected a path to check"),
    }
}

fn notice(l: Option<Lookup>) -> String {
    match l {
        Some(Lookup::Notify(m)) => m,
        _ => panic!("expected a notice"),
    }
}

#[test]
fn parse_quarter_dir_name_reads_year_and_quarter() {
    assert_eq!(Some(QuarterKey { year: 2026, quarter: 2 }), parse_quarter_dir_name("2026_2"));
    assert_eq!(Some(QuarterKey { year: 1999, quarter: 4 }), parse_quarter_dir_name("1999_4"));
    assert_eq!(Some(QuarterKey { year: 7, quarter: 1 }), parse_quarter_dir_name("0007_1"));
}

#[test]
fn parse_quarter_dir_name_rejects_other_names() {
    for name in ["2026_0", "2026_5", "2026_12", "202_1", "20261_1", "2026-1", "20a6_1", "2026_", "", "misc", "2026_+", "２０２６_1"] {
        assert_eq!(None, parse_quarter_dir_name(name), "{name}");
    }
}

#[test]
fn parse_quarter_path_splits_a_report_path() {
    let q = parse_quarter_path("/tmp/x/data/2026_2/1301.pdf").unwrap();
    assert_eq!("/tmp/x/data", q.data_root);
    assert_eq!(QuarterKey { year: 2026, quarter: 2 }, q.current);
    assert_eq!("1301.pdf", q.filename);

    let q = parse_quarter_path("/2026_1/7203.PDF").unwrap();
    assert_eq!("/", q.data_root);
    assert_eq!("7203.PDF", q.filename);

    let q = parse_quarter_path("2026_3/a.b.Pdf").unwrap();
    assert_eq!("", q.data_root);
    assert_eq!(QuarterKey { year: 2026, quarter: 3 }, q.current);
}

#[test]
fn parse_quarter_path_ignores_other_paths() {
    for p in ["/tmp/misc/1301.pdf", "/tmp/data/2026_2/1301.txt", "/tmp/data/2026_2/.pdf", "/tmp/data/2026_2/pdf", "/tmp/data/2026_2/", "1301.pdf", "/", ""] {
        assert!(parse_quarter_path(p).is_none(), "{p}");
    }
}

#[test]
fn quarter_dirs_keeps_quarter_directories_in_order() {
    let entries = [
        dir("2026_2"),
        DirEntry { name: s("2025_4"), is_dir: false },
        dir("misc"),
        dir("2025_3"),
        dir("2026_1"),
    ];
    let quarters = quarter_dirs("/d", &entries);
    let got: Vec<(u16, u8, String)> =
        quarters.into_iter().map(|q| (q.key.year, q.key.quarter, q.path)).collect();
    assert_eq!(
        vec![(2025, 3, s("/d/2025_3")), (2026, 1, s("/d/2026_1")), (2026, 2, s("/d/2026_2"))],
        got
    );
}

#[test]
fn prev_index_stays_in_range() {
    assert_eq!(Some(1), prev_index(2, 3, true));
    assert_eq!(None, prev_index(0, 3, true));
    assert_eq!(Some(2), prev_index(1, 3, false));
    assert_eq!(None, prev_index(2, 3, false));
}

/// The action from the hovered `path`, with the directories `dirs` under
/// its data root and the report files `files`.
fn quarter_act(path: &str, dirs: &[&str], files: &[&str], prev: bool) -> Target {
    let Some(current) = QuarterArrow::plan(Some(&s(path))) else { return Target::Ignore };
    let entries: Vec<DirEntry> = dirs.iter().map(|d| dir(d)).collect();
    let quarters = quarter_dirs(&current.data_root, &entries);
    match QuarterArrow::resolve_target(&current, &quarters, prev) {
        Lookup::Ignore => Target::Ignore,
        Lookup::Notify(m) => Target::Notify(m),
        Lookup::Check(p) => {
            let is_file = files.contains(&p.as_str());
            QuarterArrow::conclude(p, is_file)
        }
    }
}

#[test]
fn quarter_arrow_act_reveals_previous_quarter_pdf() {
    let t = quarter_act(
        "/r/data/2026_2/1301.pdf",
        &["2026_1", "2026_2"],
        &["/r/data/2026_1/1301.pdf", "/r/data/2026_2/1301.pdf"],
        true,
    );
    assert!(matches!(t, Target::Reveal(p) if p == "/r/data/2026_1/1301.pdf"));
}

#[test]
fn quarter_arrow_act_reveals_next_quarter_pdf() {
    let t = quarter_act(
        "/r/data/2026_1/1301.pdf",
        &["2026_2", "2026_1"],
        &["/r/data/2026_1/1301.pdf", "/r/data/2026_2/1301.pdf"],
        false,
    );
    assert!(matches!(t, Target::Reveal(p) if p == "/r/data/2026_2/1301.pdf"));
}

#[test]
fn quarter_arrow_act_skips_missing_quarter_numbers() {
    let t = quarter_act(
        "/r/data/2026_1/1301.pdf",
        &["2026_3", "2026_1"],
        &["/r/data/2026_1/1301.pdf", "/r/data/2026_3/1301.pdf"],
        false,
    );
    assert!(matches!(t, Target::Reveal(p) if p == "/r/data/2026_3/1301.pdf"));
}

#[test]
fn quarter_arrow_act_notifies_when_target_pdf_is_missing() {
    let t = quarter_act("/r/data/2026_2/1301.pdf", &["2026_1", "2026_2"], &["/r/data/2026_2/1301.pdf"], true);
    assert!(matches!(t, Target::Notify(m) if m == "No quarterly PDF for this ticker"));
}

#[test]
fn quarter_arrow_act_ignores_non_quarter_paths() {
    let t = quarter_act("/r/misc/1301.pdf", &["misc"], &["/r/misc/1301.pdf"], true);
    assert!(matches!(t, Target::Ignore));
    assert!(QuarterArrow::plan(None).is_none());
}

#[test]
fn quarter_lookup_notifies_at_the_ends() {
    let entries = [dir("2026_1"), dir("2026_2")];
    assert_eq!("No previous quarter", notice(lookup("/r/data/2026_1/1301.pdf", &entries, true)));
    assert_eq!("No next quarter", notice(lookup("/r/data/2026_2/1301.pdf", &entries, false)));
}

#[test]
fn quarter_lookup_ignores_unlisted_quarter() {
    let entries = [dir("2026_1")];
    assert!(matches!(lookup("/r/data/2026_2/1301.pdf", &entries, true), Some(Lookup::Ignore)));
    assert_eq!("/r/data/2026_1/1301.pdf", check_path(lookup("/r/data/2026_2/1301.pdf", &[dir("2026_1"), dir("2026_2")], true)));
}

#[test]
fn quarter_conclude_reveals_or_notifies() {
    assert!(matches!(QuarterArrow::conclude(s("/r/a.pdf"), true), Target::Reveal(p) if p == "/r/a.pdf"));
    assert!(
        matches!(QuarterArrow::conclude(s("/r/a.pdf"), false), Target::Notify(m) if m == "No quarterly PDF for this ticker")
    );
}

#[test]
fn quarter_arrow_form_reads_previous_flag() {
    assert!(QuarterArrowForm::from_args(true).prev);
    assert!(!QuarterArrowForm::from_args(false).prev);
}

fn revealed(t: Target) -> String {
    match t {
        Target::Reveal(p) => p,
        _ => panic!("expected a reveal"),
    }
}

fn cycle_through_quarter(prev: bool) -> String {
    let a = s("/r/data/2026_1/1301.pdf");
    let b = s("/r/data/2026_1/2802.pdf");
    let c = s("/r/data/2026_1/7203.pdf");
    let b_next = s("/r/data/2026_2/2802.pdf");
    let favorites = Favorites::from_iter(vec![a.clone(), b.clone(), c.clone()]);
    let cwd = s("/r/data/2026_1");

    let (t, cycle) = FavoriteArrow::act(&favorites, &FavoriteCycle::default(), Some(&a), &cwd, false);
    assert_eq!(b, revealed(t));

    // The view moves to the same report in the next quarter.
    assert!(QuarterArrow::preserves_cycle(&cycle, &b));
    let current = QuarterArrow::plan(Some(&b)).unwrap();
    let quarters = quarter_dirs(&current.data_root, &[dir("2026_1"), dir("2026_2")]);
    let target = match QuarterArrow::resolve_target(&current, &quarters, false) {
        Lookup::Check(p) => revealed(QuarterArrow::conclude(p, true)),
        _ => panic!("expected a path to check"),
    };
    assert_eq!(b_next, target);
    let cycle = QuarterArrow::next_cycle(&cycle, true, target.clone());
    assert!(cycle.matches(&target));
    assert!(!QuarterArrow::next_cycle(&cycle, false, s("/elsewhere")).matches("/elsewhere"));

    let (t, _) = FavoriteArrow::act(&favorites, &cycle, Some(&target), &s("/r/data/2026_2"), prev);
    revealed(t)
}

#[test]
fn quarter_arrow_act_keeps_favorite_cycle_for_next_favorite() {
    assert_eq!("/r/data/2026_1/7203.pdf", cycle_through_quarter(false));
}

#[test]
fn quarter_arrow_act_keeps_favorite_cycle_for_previous_favorite() {
    assert_eq!("/r/data/2026_1/1301.pdf", cycle_through_quarter(true));
}
