use keymap_optimization::logic::{align, align_with_flag, alignment_quality, best_candidate, Direction};

#[test]
fn alignment_alternating_pair() {
    // aligning ABABAB against BABABA matches five positions out of seven
    let p: Vec<u32> = vec![1, 2, 1, 2, 1, 2];
    let q: Vec<u32> = vec![2, 1, 2, 1, 2, 1];
    let (correct, incorrect, _) = align(&p, &q);
    assert_eq!((correct, incorrect), (5, 2));
}

#[test]
fn alignment_collapse_flag_on_and_off() {
    // held-key insertions count once with the collapse policy on, and one
    // each with it off
    let p: Vec<u32> = vec![1, 2, 3, 4, 5];
    let q: Vec<u32> = vec![1, 9, 9, 9, 9, 2, 3, 4, 5];
    let (c_on, i_on, _) = align_with_flag(&p, &q, true);
    assert_eq!((c_on, i_on), (5, 1));
    let (c_off, i_off, _) = align_with_flag(&p, &q, false);
    assert_eq!((c_off, i_off), (5, 4));
}

#[test]
fn alignment_of_sequence_with_itself() {
    let x: Vec<u32> = vec![3, 1, 4, 1, 5, 9, 2, 6];
    let (correct, incorrect) = alignment_quality(&x, &x);
    assert_eq!((correct, incorrect), (8, 0));
}

#[test]
fn alignment_symmetric_without_collapse() {
    let p: Vec<u32> = vec![1, 2, 3, 4];
    let q: Vec<u32> = vec![2, 3, 5];
    let (cp, ip, _) = align_with_flag(&p, &q, false);
    let (cq, iq, _) = align_with_flag(&q, &p, false);
    assert_eq!((cp, ip), (cq, iq));
}

#[test]
fn alignment_of_disjoint_sequences() {
    // with no matching elements the best alignment substitutes pairwise and
    // pads the rest: no matches, one mismatch per position of the longer
    // sequence
    let p: Vec<u32> = vec![1, 1, 1];
    let q: Vec<u32> = vec![2, 2];
    let (correct, incorrect) = alignment_quality(&p, &q);
    assert_eq!(correct, 0);
    assert_eq!(incorrect, 3);
}

#[test]
fn alignment_invariant_under_reversal() {
    let p: Vec<u32> = vec![1, 2, 3, 2, 1, 4];
    let q: Vec<u32> = vec![2, 3, 4, 1, 4];
    let (c1, i1, _) = align_with_flag(&p, &q, false);
    let pr: Vec<u32> = p.iter().rev().cloned().collect();
    let qr: Vec<u32> = q.iter().rev().cloned().collect();
    let (c2, i2, _) = align_with_flag(&pr, &qr, false);
    assert_eq!((c1, i1), (c2, i2));
}

#[test]
fn repeated_insertions_do_not_change_the_score() {
    // inserting more copies of an element already inserted at a position
    // leaves the score unchanged under the collapse policy
    let p: Vec<u32> = vec![1, 2, 3];
    let q1: Vec<u32> = vec![1, 9, 2, 3];
    let (c1, i1, _) = align(&p, &q1);
    let q2: Vec<u32> = vec![1, 9, 9, 9, 2, 3];
    let (c2, i2, _) = align(&p, &q2);
    assert_eq!((c1, i1), (c2, i2));
}

#[test]
fn best_candidate_maximizes_the_ratio() {
    // 3/(3+2) beats 1/(1+0)? no: 1/1 = 1 beats 3/5; ties go to the later,
    // higher-match candidate
    let cands: Vec<(u8, u8, Direction)> = vec![
        (1, 0, Direction::Horz),
        (3, 2, Direction::Diag),
    ];
    let best = best_candidate(&cands);
    assert_eq!((best.0, best.1), (1, 0));

    let tied: Vec<(u8, u8, Direction)> = vec![
        (1, 1, Direction::Horz),
        (2, 2, Direction::Diag),
    ];
    let best2 = best_candidate(&tied);
    assert_eq!((best2.0, best2.1), (2, 2));
}

#[test]
fn appending_equal_tails_does_not_hurt_the_ratio() {
    // identity extensions: appending the same tail to both sequences can
    // only raise the fraction of matching positions
    let p: Vec<u32> = vec![1, 2, 3];
    let q: Vec<u32> = vec![4, 5];
    let (c0, i0) = alignment_quality(&p, &q);
    let tail: Vec<u32> = vec![7, 7, 8];
    let mut pt = p.clone();
    pt.extend_from_slice(&tail);
    let mut qt = q.clone();
    qt.extend_from_slice(&tail);
    let (c1, i1) = alignment_quality(&pt, &qt);
    let r0 = c0 as f64 / (c0 as f64 + i0 as f64);
    let r1 = c1 as f64 / (c1 as f64 + i1 as f64);
    assert!(r1 >= r0);
}
