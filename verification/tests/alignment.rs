use nwalign::State;
use nwalign::align_strings;

#[test]
fn golden_gaattc_gatta() {
    let (out_x, out_y, score) = align_strings("GAATTC", "GATTA");
    assert_eq!(score, 5);
    assert_eq!(out_x, "GAATTC");
    assert_eq!(out_y, "G-ATTA");
}

#[test]
fn identity_alignment() {
    let (out_x, out_y, score) = align_strings("ACGT", "ACGT");
    assert_eq!(score, 8);
    assert_eq!(out_x, "ACGT");
    assert_eq!(out_y, "ACGT");
}

#[test]
fn identity_single_symbol() {
    let (out_x, out_y, score) = align_strings("G", "G");
    assert_eq!(score, 2);
    assert_eq!(out_x, "G");
    assert_eq!(out_y, "G");
}

#[test]
fn empty_against_sequence() {
    let (out_x, out_y, score) = align_strings("", "AAA");
    assert_eq!(score, -6);
    assert_eq!(out_x, "---");
    assert_eq!(out_y, "AAA");
}

#[test]
fn sequence_against_empty() {
    let (out_x, out_y, score) = align_strings("AAA", "");
    assert_eq!(score, -6);
    assert_eq!(out_x, "AAA");
    assert_eq!(out_y, "---");
}

#[test]
fn empty_against_empty() {
    let (out_x, out_y, score) = align_strings("", "");
    assert_eq!(score, 0);
    assert_eq!(out_x, "");
    assert_eq!(out_y, "");
}

#[test]
fn tiebreak_all_equal_prefers_diagonal() {
    // At cell (2, 2) of AB versus BA the three candidates are all -2.
    let mut aln = nwalign::Alignment::new(2, 2);
    aln.fill_wholematrix("AB", "BA");
    assert_eq!(aln.trace[2][2], State::Diagonal);

    let (out_x, out_y, score) = align_strings("AB", "BA");
    assert_eq!(score, -2);
    assert_eq!(out_x, "AB");
    assert_eq!(out_y, "BA");
}

#[test]
fn tiebreak_up_over_left() {
    // At cell (3, 3) of ABA versus BAB the diagonal candidate is -3
    // while both gap candidates are 0: Up must win.
    let mut aln = nwalign::Alignment::new(3, 3);
    aln.fill_wholematrix("ABA", "BAB");
    assert_eq!(aln.trace[3][3], State::Up);

    let (out_x, out_y, score) = align_strings("ABA", "BAB");
    assert_eq!(score, 0);
    assert_eq!(out_x, "ABA-");
    assert_eq!(out_y, "-BAB");
}

#[test]
fn score_symmetry_examples() {
    let pairs = [("GAATTC", "GATTA"), ("AB", "B"), ("ABA", "BAB"), ("", "CC"), ("TTT", "GGG")];
    for (a, b) in pairs {
        let (_, _, s1) = align_strings(a, b);
        let (_, _, s2) = align_strings(b, a);
        assert_eq!(s1, s2);
    }
}

#[test]
fn mirror_swap_example() {
    let (x1, y1, s1) = align_strings("AB", "B");
    let (x2, y2, s2) = align_strings("B", "AB");
    assert_eq!(s1, 0);
    assert_eq!(s1, s2);
    assert_eq!(x1, "AB");
    assert_eq!(y1, "-B");
    assert_eq!(x2, "-B");
    assert_eq!(y2, "AB");
}

#[test]
fn mirror_swap_broken_by_tie() {
    // Both orders score alike, but the Up-over-Left preference holds in
    // both orientations, so the aligned pairs are not swaps of each other.
    let (x1, y1, _) = align_strings("ABA", "BAB");
    let (x2, y2, _) = align_strings("BAB", "ABA");
    assert_eq!((x1.as_str(), y1.as_str()), ("ABA-", "-BAB"));
    assert_eq!((x2.as_str(), y2.as_str()), ("BAB-", "-ABA"));
}

#[test]
fn gap_strip_round_trip() {
    let pairs = [("GAATTC", "GATTA"), ("ABA", "BAB"), ("A", "TTTT"), ("GCGC", "GC")];
    for (a, b) in pairs {
        let (out_x, out_y, _) = align_strings(a, b);
        let stripped_x: String = out_x.chars().filter(|c| *c != '-').collect();
        let stripped_y: String = out_y.chars().filter(|c| *c != '-').collect();
        assert_eq!(stripped_x, a);
        assert_eq!(stripped_y, b);
    }
}

#[test]
fn equal_length_outputs() {
    let pairs = [("GAATTC", "GATTA"), ("", "AA"), ("CAT", "C"), ("AGGT", "TTAA")];
    for (a, b) in pairs {
        let (out_x, out_y, _) = align_strings(a, b);
        assert_eq!(out_x.len(), out_y.len());
        assert!(out_x.len() >= a.len().max(b.len()));
    }
}

#[test]
fn score_bounds_examples() {
    let pairs = [("GAATTC", "GATTA"), ("AAAA", "AAAA"), ("AC", "GT"), ("", "GGG")];
    for (a, b) in pairs {
        let (_, _, score) = align_strings(a, b);
        let min_len = a.len().min(b.len()) as i32;
        let total = (a.len() + b.len()) as i32;
        assert!(score <= 2 * min_len);
        assert!(score >= -2 * total);
    }
}
