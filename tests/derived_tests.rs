use jigsaw_core::comp_spec::{CompSpec, Frag, SkeletonRow};
use jigsaw_core::derived_state::{
    coalesce_false_row_groups, flatten_proved_rows, gen_false_row_groups, gen_frag_links,
    DerivedState, ExpandedRow, FalseRowRange, FragLink, FragLinkGroups, RowLocation, RowOrigin,
};
use jigsaw_core::history::History;
use jigsaw_core::music::{calculate_music, run_len};
use jigsaw_core::row::Row;
use jigsaw_core::stage::Stage;
use jigsaw_core::state::State;

fn row(s: &str) -> Row {
    Row::parse(s).unwrap()
}

fn skel(s: &str, is_proved: bool) -> SkeletonRow {
    SkeletonRow {
        row: row(s),
        call_str: None,
        method_str: None,
        is_lead_end: false,
        is_proved,
    }
}

fn frag(rows: &[(&str, bool)]) -> Frag {
    Frag {
        rows: rows.iter().map(|(s, p)| skel(s, *p)).collect(),
        is_muted: false,
    }
}

fn comp(frags: Vec<Frag>, part_heads: &[&str]) -> CompSpec {
    CompSpec {
        stage: Stage::new(4),
        frags,
        part_heads: part_heads.iter().map(|s| row(s)).collect(),
    }
}

/// Check that [`RowLocation`]s are sorted by frag index and then row index.  This is required
/// for the group coalescing to work.
#[test]
fn row_loc_ord() {
    fn rl(frag: usize, row: usize) -> RowLocation {
        RowLocation { frag, row }
    }
    assert!(rl(0, 0) < rl(1, 0));
    assert!(rl(0, 1) < rl(1, 0));
    assert!(rl(2, 1) > rl(1, 3));
    assert!(rl(0, 1) < rl(0, 3));
    assert!(rl(1, 0) > rl(0, 100));
}

#[test]
fn row_location_from_origin() {
    let o = RowOrigin::new(3, 1, 2);
    assert_eq!(RowLocation::from(o), RowLocation::new(1, 2));
}

#[test]
fn coalesce_three_singletons_into_one_range() {
    let groups = vec![
        vec![RowLocation::new(0, 5)],
        vec![RowLocation::new(0, 4)],
        vec![RowLocation::new(0, 6)],
    ];
    let (ranges, n) = coalesce_false_row_groups(groups);
    assert_eq!(n, 1);
    assert_eq!(
        ranges,
        vec![(0, FalseRowRange { start: 4, end: 6, group: 0 })]
    );
}

#[test]
fn coalesce_separates_non_adjacent_groups() {
    let groups = vec![
        vec![RowLocation::new(0, 1), RowLocation::new(1, 7)],
        vec![RowLocation::new(0, 2), RowLocation::new(1, 6)],
        vec![RowLocation::new(2, 0), RowLocation::new(2, 9)],
    ];
    let (ranges, n) = coalesce_false_row_groups(groups);
    assert_eq!(n, 2);
    assert_eq!(
        ranges,
        vec![
            (0, FalseRowRange { start: 1, end: 2, group: 0 }),
            (1, FalseRowRange { start: 6, end: 7, group: 0 }),
            (2, FalseRowRange { start: 0, end: 0, group: 1 }),
            (2, FalseRowRange { start: 9, end: 9, group: 1 }),
        ]
    );
    let (none, zero) = coalesce_false_row_groups(Vec::new());
    assert!(none.is_empty());
    assert_eq!(zero, 0);
}

#[test]
fn false_rows_in_one_part_form_one_group() {
    let flat = vec![
        (RowOrigin::new(0, 0, 0), row("1234")),
        (RowOrigin::new(0, 0, 1), row("2143")),
        (RowOrigin::new(0, 0, 2), row("1234")),
    ];
    let (groups, n) = gen_false_row_groups(flat);
    assert_eq!(n, 2);
    assert_eq!(
        groups,
        vec![vec![RowLocation::new(0, 0), RowLocation::new(0, 2)]]
    );
}

#[test]
fn falseness_repeated_in_every_part_is_reported_once() {
    let spec = comp(
        vec![frag(&[("1234", true), ("1234", true), ("1324", false)])],
        &["1234", "2143"],
    );
    let (gen, _) = spec.expand();
    let (flat, part_len) = flatten_proved_rows(&gen);
    assert_eq!(part_len, 2);
    assert_eq!(flat.len(), 4);
    let (groups, n) = gen_false_row_groups(flat);
    assert_eq!(n, 4);
    assert_eq!(
        groups,
        vec![vec![RowLocation::new(0, 0), RowLocation::new(0, 1)]]
    );
    let derived = DerivedState::from_spec(&spec);
    assert_eq!(derived.stats.num_false_rows, 4);
    assert_eq!(derived.stats.num_false_groups, 1);
    assert_eq!(derived.stats.part_len, 2);
}

#[test]
fn true_composition_has_no_false_groups() {
    let spec = comp(vec![frag(&[("1234", true), ("2143", true), ("1324", false)])], &["1234"]);
    let derived = DerivedState::from_spec(&spec);
    assert_eq!(derived.stats.num_false_rows, 0);
    assert_eq!(derived.stats.num_false_groups, 0);
    assert!(derived.annot_frags[0].false_row_ranges.is_empty());
}

#[test]
fn frag_links_and_groups() {
    let spec = comp(
        vec![
            frag(&[("1234", true), ("2143", false)]),
            frag(&[("2143", true), ("1234", false)]),
        ],
        &["1234"],
    );
    let (gen, _) = spec.expand();
    let (links, groups) = gen_frag_links(&gen);
    assert_eq!(
        links,
        vec![
            FragLink { from: 0, to: 1, group: 0 },
            FragLink { from: 1, to: 0, group: 1 },
        ]
    );
    assert_eq!(
        groups,
        vec![
            FragLinkGroups { link_group_top: Some(1), link_group_bottom: Some(0) },
            FragLinkGroups { link_group_top: Some(0), link_group_bottom: Some(1) },
        ]
    );
}

#[test]
fn frag_links_to_itself() {
    let spec = comp(vec![frag(&[("1234", true), ("1234", false)])], &["1234"]);
    let (gen, _) = spec.expand();
    let (links, _) = gen_frag_links(&gen);
    assert_eq!(links, vec![FragLink { from: 0, to: 0, group: 0 }]);
}

#[test]
fn back_run_music() {
    let rows = vec![row("65871234")];
    let music = calculate_music(&rows, Stage::new(8));
    assert_eq!(music.len(), 8);
    for pos in 0..4 {
        assert!(music[pos].is_empty());
    }
    for pos in 4..8 {
        assert_eq!(music[pos], vec![0]);
    }
    let r = row("65871234");
    assert_eq!(run_len(r.slice()), 2);
}

#[test]
fn rounds_is_music_once() {
    let rows = vec![row("21345678"), row("12345678")];
    let music = calculate_music(&rows, Stage::new(8));
    assert_eq!(music[0], vec![1]);
    assert_eq!(music[1], vec![1]);
    assert_eq!(music[2], vec![0, 1]);
    assert_eq!(music[7], vec![0, 1]);
}

#[test]
fn expanded_row_realises_each_part() {
    let heads = vec![row("12345678"), row("18234567")];
    let e = ExpandedRow::new(&row("21345678"), None, None, true, &heads, true);
    assert_eq!(e.rows, vec![row("21345678"), row("81234567")]);
    assert_eq!(e.music_highlights[1], vec![1]);
    assert_eq!(e.music_highlights[0], Vec::<usize>::new());
    assert!(e.is_lead_end);
}

#[test]
fn point_queries() {
    let spec = comp(vec![frag(&[("1342", true), ("1234", false)])], &["1234", "2143"]);
    let derived = DerivedState::from_spec(&spec);
    assert_eq!(derived.get_row(1, 0, 0), Some(&row("2431")));
    assert_eq!(derived.get_row(2, 0, 0), None);
    assert_eq!(derived.get_row(0, 1, 0), None);
    assert_eq!(derived.get_row(0, 0, 5), None);
    assert_eq!(derived.get_part_head(1), Some(&row("2143")));
    assert_eq!(derived.get_part_head(2), None);
    assert_eq!(derived.stage, 4);
}

#[test]
fn history_undo_redo() {
    let a = comp(vec![frag(&[("1234", true), ("2143", false)])], &["1234"]);
    let b = comp(vec![frag(&[("2143", true), ("1234", false)])], &["1234"]);
    let mut h = History::new(a);
    assert!(!h.undo());
    assert!(!h.redo());
    let previous = h.apply_edit(|s: &mut CompSpec| std::mem::replace(s, b));
    assert_eq!(previous.frags[0].rows[0].row, row("1234"));
    assert_eq!(h.comp_spec().frags[0].rows[0].row, row("2143"));
    assert!(h.undo());
    assert_eq!(h.comp_spec().frags[0].rows[0].row, row("1234"));
    assert!(!h.undo());
    assert!(h.redo());
    assert!(!h.redo());
    assert_eq!(h.full_comp().stage, 4);
}

#[test]
fn state_rebuilds_on_undo() {
    let a = comp(vec![frag(&[("1234", true), ("2143", false)])], &["1234"]);
    let b = comp(vec![frag(&[("1234", true), ("1234", true), ("2143", false)])], &["1234"]);
    let mut s = State::new(a, Vec::new());
    assert_eq!(s.full().stats.num_false_rows, 0);
    let n = s.apply_edit(|spec: &mut CompSpec| {
        *spec = b;
        spec.frags.len()
    });
    assert_eq!(n, 1);
    assert_eq!(s.full().stats.num_false_rows, 2);
    assert!(s.undo());
    assert_eq!(s.full().stats.num_false_rows, 0);
    assert!(s.redo());
    assert_eq!(s.full().stats.num_false_rows, 2);
    assert!(s.music_groups().is_empty());
    s.rebuild_full_state();
    assert_eq!(s.full().stats.part_len, 2);
}

#[test]
fn falseness_across_fragments_out_of_order() {
    let spec = comp(
        vec![
            frag(&[("1234", true), ("3412", true), ("2143", true), ("4321", false)]),
            frag(&[("2143", true), ("1234", true), ("3421", true), ("1243", false)]),
        ],
        &["1234"],
    );
    let (gen, _) = spec.expand();
    let (flat, part_len) = flatten_proved_rows(&gen);
    assert_eq!(part_len, 6);
    let (groups, n) = gen_false_row_groups(flat);
    assert_eq!(n, 4);
    assert_eq!(
        groups,
        vec![
            vec![RowLocation::new(0, 0), RowLocation::new(1, 1)],
            vec![RowLocation::new(0, 2), RowLocation::new(1, 0)],
        ]
    );
    let derived = DerivedState::from_spec(&spec);
    assert_eq!(derived.stats.num_false_groups, 2);
    assert_eq!(
        derived.annot_frags[0].false_row_ranges,
        vec![
            FalseRowRange { start: 0, end: 0, group: 0 },
            FalseRowRange { start: 2, end: 2, group: 1 },
        ]
    );
    assert_eq!(
        derived.annot_frags[1].false_row_ranges,
        vec![
            FalseRowRange { start: 1, end: 1, group: 0 },
            FalseRowRange { start: 0, end: 0, group: 1 },
        ]
    );
}

#[test]
fn groups_are_sorted_by_location() {
    let flat = vec![
        (RowOrigin::new(0, 0, 5), row("1234")),
        (RowOrigin::new(0, 0, 2), row("1234")),
        (RowOrigin::new(1, 0, 2), row("2143")),
        (RowOrigin::new(1, 0, 5), row("2143")),
    ];
    let (groups, n) = gen_false_row_groups(flat);
    assert_eq!(n, 4);
    assert_eq!(
        groups,
        vec![vec![RowLocation::new(0, 2), RowLocation::new(0, 5)]]
    );
}

#[test]
fn meta_group_range_covers_lowest_to_highest_row() {
    let groups = vec![
        vec![RowLocation::new(0, 1), RowLocation::new(0, 5)],
        vec![RowLocation::new(0, 2), RowLocation::new(0, 6)],
        vec![RowLocation::new(0, 3), RowLocation::new(0, 5)],
    ];
    let (ranges, n) = coalesce_false_row_groups(groups);
    assert_eq!(n, 1);
    assert_eq!(
        ranges,
        vec![
            (0, FalseRowRange { start: 1, end: 3, group: 0 }),
            (0, FalseRowRange { start: 5, end: 6, group: 0 }),
        ]
    );
}
