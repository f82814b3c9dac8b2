use blockfish_engine::{
    covered_hole, gaps_contiguous_areas, intersecting_ranges, negative_spaces, penalty, score,
    BasicMatrix, ScoreParams,
};
use std::ops::Range;

/// Builds a board from its rows, bottom row first.
fn board(rows: &[[bool; 6]]) -> BasicMatrix {
    let mut m = BasicMatrix::with_cols(6);
    for r in rows {
        m.push_row(r.to_vec());
    }
    m
}

#[test]
fn test_intersecting_ranges() {
    let irs = |xs: &[Range<u16>], ys: &[Range<u16>]| intersecting_ranges(xs, ys);
    let xs = [0..3, 6..11, 13..20];
    let ys = [2..5, 6..7, 9..12];
    assert_eq!(irs(&xs, &ys), [(0, 0), (1, 1), (1, 2)]);
    assert_eq!(irs(&ys, &xs), [(0, 0), (1, 1), (2, 1)]);
    assert_eq!(irs(&xs, &[]), []);
    assert_eq!(irs(&[], &xs), []);
    assert_eq!(irs(&xs, &[10..15]), [(1, 0), (2, 0)]);
    assert_eq!(irs(&xs, &[11..15]), [(2, 0)]);
}

fn neg_space(mat: BasicMatrix) -> Vec<u64> {
    let mut nss = negative_spaces(&mat, 0..mat.rows());
    nss.sort();
    nss
}

#[test]
fn test_negative_spaces_1() {
    let (xx, __) = (true, false);
    assert_eq!(
        neg_space(board(&[
            [xx, xx, xx, xx, xx, __],
            [xx, __, xx, xx, xx, xx],
            [xx, xx, __, xx, xx, xx],
        ])),
        [1, 1, 1],
        "cheese"
    );
    assert_eq!(
        neg_space(board(&[
            [xx, __, xx, xx, xx, xx],
            [xx, xx, __, __, xx, xx],
        ])),
        [1, 2],
        "2w gap"
    );
}

#[test]
fn test_negative_spaces_2() {
    let (xx, __) = (true, false);
    assert_eq!(
        neg_space(board(&[
            [xx, __, __, __, xx, xx],
            [xx, __, xx, xx, xx, xx],
            [xx, xx, xx, __, __, xx],
        ])),
        [2, 4],
        "overlap (depth=1)"
    );
    assert_eq!(
        neg_space(board(&[
            [xx, xx, xx, __, __, xx],
            [xx, __, xx, xx, xx, xx],
            [xx, __, __, __, xx, xx],
        ])),
        [2, 4],
        "overlap (depth=1, inverted)"
    );
    assert_eq!(
        neg_space(board(&[
            [xx, __, __, __, xx, xx],
            [xx, __, xx, __, __, xx],
            [__, xx, __, xx, xx, xx],
        ])),
        [1, 1, 6],
        "overlap (depth=2)"
    );
    assert_eq!(
        neg_space(board(&[
            [__, xx, __, xx, xx, xx],
            [xx, __, xx, __, __, xx],
            [xx, __, __, __, xx, xx],
        ])),
        [1, 1, 6],
        "overlap (depth=2, inverted)"
    );
}

#[test]
fn test_negative_spaces_3() {
    let (xx, __) = (true, false);
    assert_eq!(
        neg_space(board(&[
            [xx, __, __, __, xx, __],
            [__, __, xx, __, xx, xx],
            [xx, __, xx, __, __, xx],
        ])),
        [1, 9],
        "overlap (depth=3)"
    );
    assert_eq!(
        neg_space(board(&[
            [xx, __, xx, __, __, xx],
            [__, __, xx, __, xx, xx],
            [xx, __, __, __, xx, __],
        ])),
        [1, 9],
        "overlap (depth=3, ivnerted)"
    );
}

#[test]
fn test_negative_spaces_all_clear() {
    assert_eq!(neg_space(BasicMatrix::with_cols(5)), [0u64; 0]);
}

#[test]
fn test_covered_hole_0() {
    let (xx, __) = (true, false);
    let _ = __;
    assert_eq!(
        covered_hole(&BasicMatrix::with_cols(5), &mut Default::default()),
        None,
        "zero"
    );
    assert_eq!(
        covered_hole(
            &board(&[[xx, xx, xx, xx, xx, xx], [xx, xx, xx, xx, xx, xx]]),
            &mut Default::default()
        ),
        None,
        "full",
    );
}

#[test]
fn test_covered_hole_1() {
    let (xx, rr, __) = (true, true, false);
    let mut rbuf: Vec<Range<u16>> = Vec::default();
    assert_eq!(
        covered_hole(
            &board(&[
                [xx, xx, xx, xx, xx, xx],
                [__, xx, xx, xx, xx, xx],
                [rr, xx, xx, xx, xx, xx],
            ]),
            &mut rbuf
        ),
        Some((1, 2..3)),
        "cheese h=1"
    );
    assert_eq!(
        covered_hole(
            &board(&[
                [__, xx, xx, xx, xx, xx],
                [rr, xx, __, xx, xx, xx],
                [rr, xx, rr, xx, __, xx],
                [rr, xx, rr, xx, rr, xx],
                [rr, xx, rr, xx, rr, xx],
            ]),
            &mut rbuf
        ),
        Some((2, 3..5)),
        "cheese h=2"
    );
    assert_eq!(
        covered_hole(
            &board(&[
                [__, xx, xx, xx, xx, xx],
                [rr, xx, xx, __, xx, xx],
                [rr, xx, xx, __, xx, xx],
                [rr, xx, xx, rr, xx, xx],
                [rr, xx, xx, rr, xx, xx],
            ]),
            &mut rbuf
        ),
        Some((1, 3..5)),
        "cheese d=2"
    );
    assert_eq!(
        covered_hole(
            &board(&[
                [__, xx, xx, xx, xx, xx],
                [rr, xx, xx, __, xx, xx],
                [rr, xx, xx, rr, xx, __],
                [rr, xx, xx, rr, xx, xx],
                [rr, xx, xx, rr, xx, __],
            ]),
            &mut rbuf
        ),
        Some((2, 3..4)),
        "reuse rbuf"
    );
}

#[test]
fn test_covered_hole_2() {
    let (xx, rr, __) = (true, true, false);
    assert_eq!(
        covered_hole(
            &board(&[
                [xx, xx, xx, __, xx, xx],
                [xx, xx, __, __, xx, xx],
                [xx, __, __, __, __, xx],
            ]),
            &mut Default::default()
        ),
        None,
        "funnel"
    );
    assert_eq!(
        covered_hole(
            &board(&[
                [xx, xx, xx, __, xx, xx],
                [__, __, __, rr, __, __],
                [__, __, __, rr, __, __],
                [__, __, __, rr, __, __],
            ]),
            &mut Default::default()
        ),
        Some((0, 1..4)),
        "spike"
    );
    assert_eq!(
        covered_hole(
            &board(&[
                [xx, xx, xx, __, xx, xx],
                [__, __, __, rr, __, __],
                [__, __, __, rr, __, __],
                [__, __, rr, rr, __, __],
            ]),
            &mut Default::default()
        ),
        Some((1, 3..4)),
        "overhang"
    );
}

#[test]
fn test_covered_hole_3() {
    let (xx, rr, __) = (true, true, false);
    assert_eq!(
        covered_hole(
            &board(&[
                [xx, xx, xx, xx, xx, xx],
                [xx, __, xx, __, xx, xx],
                [xx, rr, xx, rr, xx, xx],
            ]),
            &mut Default::default()
        ),
        Some((1, 2..3)),
        "double"
    );
}

#[test]
fn intersections_swap_with_arguments() {
    let xs = [0..3, 6..11, 13..20];
    let ys = [2..5, 6..7, 9..12];
    let mut swapped: Vec<(usize, usize)> = intersecting_ranges(&ys, &xs)
        .into_iter()
        .map(|(i, j)| (j, i))
        .collect();
    swapped.sort();
    assert_eq!(intersecting_ranges(&xs, &ys), swapped);
    assert_eq!(intersecting_ranges(&[0..2], &[2..4]), []);
}

#[test]
fn contiguous_areas_of_rows() {
    let rows = vec![vec![0..5, 7..10], vec![0..4], vec![2..3]];
    let mut areas = gaps_contiguous_areas(&rows);
    areas.sort();
    assert_eq!(areas, [3, 10]);
    assert_eq!(gaps_contiguous_areas(&vec![]), [0u64; 0]);
}

#[test]
fn row_gaps_are_maximal_runs() {
    let (xx, __) = (true, false);
    let m = board(&[[__, __, xx, __, xx, __]]);
    assert_eq!(m.gaps(0), vec![0..2, 3..4, 5..6]);
    let full = board(&[[xx; 6]]);
    assert!(full.gaps(0).is_empty());
}

#[test]
fn settled_board_has_no_hole() {
    let (xx, __) = (true, false);
    let m = board(&[
        [xx, xx, __, xx, xx, xx],
        [xx, __, __, xx, __, xx],
        [__, __, __, xx, __, __],
    ]);
    assert_eq!(covered_hole(&m, &mut Vec::new()), None);
    let holed = board(&[[__, xx, xx, xx, xx, xx], [xx, xx, xx, xx, xx, xx]]);
    assert_eq!(covered_hole(&holed, &mut Vec::new()), Some((0, 1..2)));
}

#[test]
fn score_of_empty_board_is_zero() {
    let p = ScoreParams::default();
    assert_eq!(score(&p, &BasicMatrix::with_cols(10)), 0);
    let (__,) = (false,);
    assert_eq!(score(&p, &board(&[[__; 6], [__; 6]])), 0);
}

#[test]
fn score_counts_pieces_for_a_covered_hole() {
    let (xx, __) = (true, false);
    let p = ScoreParams::default();
    let m = board(&[[__, xx, xx, xx, xx, xx], [xx, xx, xx, xx, xx, xx]]);
    assert_eq!(score(&p, &m), 3);
    let weighted = ScoreParams {
        row_factor: 10,
        piece_estimate_factor: 3,
        piece_penalty: 4,
    };
    assert_eq!(score(&weighted, &m), 13);
}

#[test]
fn score_ignores_empty_rows_on_top() {
    let (xx, __) = (true, false);
    let p = ScoreParams::default();
    let rows = [
        [xx, xx, __, xx, xx, xx],
        [xx, __, xx, xx, xx, xx],
        [xx, xx, xx, xx, __, xx],
    ];
    let base = score(&p, &board(&rows));
    let mut taller = board(&rows);
    taller.push_row(vec![false; 6]);
    assert_eq!(score(&p, &taller), base);
    assert!(base > 0);
}

#[test]
fn penalty_is_depth_times_weight() {
    let p = ScoreParams::default();
    assert_eq!(penalty(&p, 0), 0);
    assert_eq!(penalty(&p, 5), 20);
}

#[test]
fn default_score_params() {
    let p = ScoreParams::default();
    assert_eq!(p.row_factor, 0);
    assert_eq!(p.piece_estimate_factor, 3);
    assert_eq!(p.piece_penalty, 4);
}
