use nwalign::Alignment;
use nwalign::State;

#[test]
fn new_engine_state() {
    let aln = Alignment::new(6, 5);
    assert_eq!(aln.matrix.len(), 7);
    assert_eq!(aln.matrix[0].len(), 6);
    assert_eq!(aln.trace.len(), 7);
    assert_eq!(aln.cur_xi, 7);
    assert_eq!(aln.cur_yj, 6);
    assert_eq!(aln.cur_state, State::End);
    assert_eq!(aln.path, vec![State::End]);
    assert_eq!(aln.matrix[3][4], 0);
    assert_eq!(aln.trace[3][4], State::Start);
}

#[test]
fn fill_seeds_boundaries_with_gap_cost() {
    let mut aln = Alignment::new(3, 2);
    aln.fill_wholematrix("GAT", "GA");
    for i in 0..4 {
        assert_eq!(aln.matrix[i][0], -2 * i as i32);
    }
    for j in 0..3 {
        assert_eq!(aln.matrix[0][j], -2 * j as i32);
    }
    assert_eq!(aln.trace[0][0], State::Start);
    assert_eq!(aln.trace[2][0], State::Left);
    assert_eq!(aln.trace[0][2], State::Up);
}

#[test]
fn fill_golden_terminal_cell() {
    let mut aln = Alignment::new(6, 5);
    aln.fill_wholematrix("GAATTC", "GATTA");
    assert_eq!(aln.matrix[6][5], 5);
    assert_eq!(aln.trace[6][5], State::Diagonal);
}

#[test]
fn traceback_walks_to_origin() {
    let mut aln = Alignment::new(2, 1);
    aln.fill_wholematrix("AB", "B");

    // End step: move from the sentinel to the terminal cell (2, 1).
    assert_eq!(aln.traceback(), Some((2, 1)));
    assert_eq!(aln.cur_state, State::Diagonal);
    // Diagonal step to (1, 0), a boundary cell tagged Left.
    assert_eq!(aln.traceback(), Some((1, 0)));
    assert_eq!(aln.cur_state, State::Left);
    // Left step to the origin, tagged Start.
    assert_eq!(aln.traceback(), Some((0, 0)));
    assert_eq!(aln.cur_state, State::Start);
    // The walk is over.
    assert_eq!(aln.traceback(), None);

    assert_eq!(
        aln.path,
        vec![State::End, State::Diagonal, State::Left, State::Start]
    );

    let (out_x, out_y) = aln.get_alignment("AB", "B");
    assert_eq!(out_x, "AB");
    assert_eq!(out_y, "-B");
}

#[test]
fn calc_score_picks_maximum_and_direction() {
    let mut aln = Alignment::new(1, 1);
    aln.fill_wholematrix("A", "A");
    // Cell (1, 1): diagonal 0 + 2, up -2 - 2, left -2 - 2.
    assert_eq!(aln.matrix[1][1], 2);
    assert_eq!(aln.trace[1][1], State::Diagonal);

    let mut mis = Alignment::new(1, 1);
    mis.fill_wholematrix("A", "C");
    // Mismatch: diagonal 0 - 1 still beats both gap candidates at -4.
    assert_eq!(mis.matrix[1][1], -1);
    assert_eq!(mis.trace[1][1], State::Diagonal);
}

#[test]
fn calc_score_direct_mismatch() {
    let mut aln = Alignment::new(1, 1);
    aln.fill_wholematrix("A", "B");
    let s = aln.calc_score("A", "B", 1, 1);
    assert_eq!(s, -1);
    assert_eq!(aln.trace[1][1], State::Diagonal);
}

#[test]
fn calc_score_up_beats_diagonal_and_ties_left() {
    // diagonal = 0 - 1 = -1, up = 4 - 2 = 2, left = 4 - 2 = 2: Up wins.
    let mut aln = Alignment::new(1, 1);
    aln.matrix[0][0] = 0;
    aln.matrix[1][0] = 4;
    aln.matrix[0][1] = 4;
    let s = aln.calc_score("A", "B", 1, 1);
    assert_eq!(s, 2);
    assert_eq!(aln.trace[1][1], State::Up);
}
