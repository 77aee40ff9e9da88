use crate::keyboard_config::Chord;
use crate::twiddler::chords_view;
use vstd::prelude::*;
use vstd::std_specs::cmp::PartialEqSpec;

verus! {

/// The last step taken to reach a cell of the alignment matrix: consuming an
/// element of the expected sequence (`Vert`), of the typed sequence (`Horz`),
/// or one of each (`Diag`).
#[derive(Clone, Copy, PartialEq, Eq, Structural, Debug)]
pub enum Direction {
    Vert,
    Diag,
    Horz,
}

/// A candidate partial alignment: matches so far, mismatches so far, and the
/// direction of the last step.
pub open spec fn cview(s: Seq<(u8, u8, Direction)>) -> Seq<(int, int, Direction)> {
    Seq::new(s.len(), |k: int| (s[k].0 as int, s[k].1 as int, s[k].2))
}

pub open spec fn min_i(a: int, b: int) -> int {
    if a <= b {
        a
    } else {
        b
    }
}

/// Whether the typed element at position `j` repeats its predecessor, so a
/// horizontal step into column `j` is free under the collapse policy.
pub open spec fn spec_collapse<T: PartialEqSpec>(q: Seq<T>, j: int, flag: bool) -> bool {
    flag && 1 < j && j < q.len() && q[j - 1].eq_spec(&q[j - 2])
}

/// The first entry for match count `c`, with its mismatch count and
/// direction.
pub open spec fn find_c(s: Seq<(int, int, Direction)>, c: int) -> Option<(int, Direction)>
    decreases s.len(),
{
    if s.len() == 0 {
        None
    } else if s[0].0 == c {
        Some((s[0].1, s[0].2))
    } else {
        find_c(s.drop_first(), c)
    }
}

/// Add a penalty to a candidate and stamp it with a direction.
pub open spec fn shift_c(o: Option<(int, Direction)>, pen: int, d: Direction) -> Option<
    (int, Direction),
> {
    match o {
        Some(p) => Some((p.0 + pen, d)),
        None => None,
    }
}

/// The better of two candidates for one match count: fewer mismatches wins,
/// the first argument wins ties.
pub open spec fn pick2(a: Option<(int, Direction)>, b: Option<(int, Direction)>) -> Option<
    (int, Direction),
> {
    match a {
        None => b,
        Some(pa) => match b {
            Some(pb) => if pb.0 < pa.0 {
                b
            } else {
                a
            },
            None => a,
        },
    }
}

/// The cells of the Pareto-front alignment matrix for expected sequence `p`
/// and typed sequence `q`. Each cell lists, per match count in ascending
/// order, the fewest mismatches achievable, with the direction that first
/// achieves it (vertical before horizontal before diagonal).
pub open spec fn cells<T: PartialEqSpec>(
    p: Seq<T>,
    q: Seq<T>,
    flag: bool,
    i: int,
    j: int,
) -> Seq<(int, int, Direction)>
    decreases i + j, 2int, 0int,
{
    if i < 0 || j < 0 {
        Seq::empty()
    } else if i == 0 && j == 0 {
        seq![(0int, 0int, Direction::Horz)]
    } else if i == 0 {
        if spec_collapse(q, j, flag) {
            let prev = cells(p, q, flag, 0, j - 1);
            seq![(0int, prev[0].1, Direction::Horz)]
        } else {
            seq![(0int, j, Direction::Horz)]
        }
    } else if j == 0 {
        seq![(0int, i, Direction::Vert)]
    } else if p[i - 1].eq_spec(&q[j - 1]) {
        let prev = cells(p, q, flag, i - 1, j - 1);
        Seq::new(prev.len(), |k: int| (prev[k].0 + 1, prev[k].1, Direction::Diag))
    } else {
        collect_cands(p, q, flag, i, j, min_i(i, j) + 1)
    }
}

/// The merged candidates of a mismatch cell, for match counts below `nc`.
pub open spec fn collect_cands<T: PartialEqSpec>(
    p: Seq<T>,
    q: Seq<T>,
    flag: bool,
    i: int,
    j: int,
    nc: int,
) -> Seq<(int, int, Direction)>
    decreases i + j, 1int, nc,
{
    if nc <= 0 || i <= 0 || j <= 0 {
        Seq::empty()
    } else {
        collect_cands(p, q, flag, i, j, nc - 1) + match src_min(p, q, flag, i, j, nc - 1) {
            Some(md) => seq![(nc - 1, md.0, md.1)],
            None => Seq::empty(),
        }
    }
}

/// The fewest mismatches for match count `c` in a mismatch cell, across the
/// three incoming directions.
pub open spec fn src_min<T: PartialEqSpec>(
    p: Seq<T>,
    q: Seq<T>,
    flag: bool,
    i: int,
    j: int,
    c: int,
) -> Option<(int, Direction)>
    decreases i + j, 0int, 0int,
{
    if i <= 0 || j <= 0 {
        None
    } else {
        let v = shift_c(find_c(cells(p, q, flag, i - 1, j), c), 1, Direction::Vert);
        let hpen: int = if spec_collapse(q, j, flag) {
            0
        } else {
            1
        };
        let h = shift_c(find_c(cells(p, q, flag, i, j - 1), c), hpen, Direction::Horz);
        let d = shift_c(find_c(cells(p, q, flag, i - 1, j - 1), c), 1, Direction::Diag);
        pick2(pick2(v, h), d)
    }
}

/// A found candidate is an entry of the cell.
pub proof fn lemma_find_some(s: Seq<(int, int, Direction)>, c: int)
    ensures
        match find_c(s, c) {
            Some(md) => exists|k: int| 0 <= k < s.len() && s[k] == (c, md.0, md.1),
            None => true,
        },
    decreases s.len(),
{
    if s.len() > 0 && s[0].0 != c {
        lemma_find_some(s.drop_first(), c);
        match find_c(s, c) {
            Some(md) => {
                let k = choose|k: int|
                    0 <= k < s.drop_first().len() && s.drop_first()[k] == (c, md.0, md.1);
                assert(s[k + 1] == (c, md.0, md.1));
            },
            None => {},
        }
    }
}

/// Match counts never exceed the shorter prefix, and mismatch counts never
/// exceed the combined prefix lengths.
pub proof fn lemma_cells_bounds<T: PartialEqSpec>(p: Seq<T>, q: Seq<T>, flag: bool, i: int, j: int)
    requires
        0 <= i,
        0 <= j,
    ensures
        forall|k: int|
            0 <= k < cells(p, q, flag, i, j).len() ==> {
                let e = #[trigger] cells(p, q, flag, i, j)[k];
                0 <= e.0 <= min_i(i, j) && 0 <= e.1 <= i + j
            },
    decreases i + j, 3int, 0int,
{
    if i == 0 && j == 0 {
        assert(cells(p, q, flag, i, j) =~= seq![(0int, 0int, Direction::Horz)]);
    } else if i == 0 {
        if spec_collapse(q, j, flag) {
            lemma_cells_bounds(p, q, flag, 0, j - 1);
            assert(cells(p, q, flag, 0, j - 1).len() == 1);
            assert(0 <= cells(p, q, flag, 0, j - 1)[0].1 <= j - 1);
            assert(cells(p, q, flag, i, j) =~= seq![
                (0int, cells(p, q, flag, 0, j - 1)[0].1, Direction::Horz),
            ]);
        } else {
            assert(cells(p, q, flag, i, j) =~= seq![(0int, j, Direction::Horz)]);
        }
    } else if j == 0 {
        assert(cells(p, q, flag, i, j) =~= seq![(0int, i, Direction::Vert)]);
    } else if p[i - 1].eq_spec(&q[j - 1]) {
        lemma_cells_bounds(p, q, flag, i - 1, j - 1);
        let prev = cells(p, q, flag, i - 1, j - 1);
        assert forall|k: int| 0 <= k < cells(p, q, flag, i, j).len() implies {
            let e = #[trigger] cells(p, q, flag, i, j)[k];
            0 <= e.0 <= min_i(i, j) && 0 <= e.1 <= i + j
        } by {
            assert(0 <= prev[k].0 <= min_i(i - 1, j - 1) && 0 <= prev[k].1 <= i + j - 2);
        }
    } else {
        lemma_collect_bounds(p, q, flag, i, j, min_i(i, j) + 1);
        assert(cells(p, q, flag, i, j) == collect_cands(p, q, flag, i, j, min_i(i, j) + 1));
        assert forall|k: int| 0 <= k < cells(p, q, flag, i, j).len() implies {
            let e = #[trigger] cells(p, q, flag, i, j)[k];
            0 <= e.0 <= min_i(i, j) && 0 <= e.1 <= i + j
        } by {
            let e = collect_cands(p, q, flag, i, j, min_i(i, j) + 1)[k];
            assert(0 <= e.0 < min_i(i, j) + 1 && 0 <= e.1 <= i + j);
        }
    }
}

/// Bounds for the merged candidates of a mismatch cell.
pub proof fn lemma_collect_bounds<T: PartialEqSpec>(
    p: Seq<T>,
    q: Seq<T>,
    flag: bool,
    i: int,
    j: int,
    nc: int,
)
    requires
        1 <= i,
        1 <= j,
        nc <= min_i(i, j) + 1,
    ensures
        forall|k: int|
            0 <= k < collect_cands(p, q, flag, i, j, nc).len() ==> {
                let e = #[trigger] collect_cands(p, q, flag, i, j, nc)[k];
                0 <= e.0 < nc && 0 <= e.1 <= i + j
            },
    decreases i + j, 2int, nc,
{
    if nc > 0 {
        lemma_collect_bounds(p, q, flag, i, j, nc - 1);
        match src_min(p, q, flag, i, j, nc - 1) {
            Some(md) => {
                lemma_src_min_bounds(p, q, flag, i, j, nc - 1);
            },
            None => {},
        }
        let a = collect_cands(p, q, flag, i, j, nc - 1);
        let whole = collect_cands(p, q, flag, i, j, nc);
        assert forall|k: int| 0 <= k < whole.len() implies {
            let e = #[trigger] whole[k];
            0 <= e.0 < nc && 0 <= e.1 <= i + j
        } by {
            if k < a.len() {
                assert(whole[k] == a[k]);
                assert(0 <= a[k].0 < nc - 1 && 0 <= a[k].1 <= i + j);
            }
        }
    }
}

/// Bounds for the best incoming candidate of a mismatch cell.
pub proof fn lemma_src_min_bounds<T: PartialEqSpec>(
    p: Seq<T>,
    q: Seq<T>,
    flag: bool,
    i: int,
    j: int,
    c: int,
)
    requires
        1 <= i,
        1 <= j,
    ensures
        match src_min(p, q, flag, i, j, c) {
            Some(md) => 0 <= md.0 <= i + j,
            None => true,
        },
    decreases i + j, 1int, 0int,
{
    lemma_cells_bounds(p, q, flag, i - 1, j);
    lemma_cells_bounds(p, q, flag, i, j - 1);
    lemma_cells_bounds(p, q, flag, i - 1, j - 1);
    lemma_find_some(cells(p, q, flag, i - 1, j), c);
    lemma_find_some(cells(p, q, flag, i, j - 1), c);
    lemma_find_some(cells(p, q, flag, i - 1, j - 1), c);
}

/// Every cell holds at least one candidate.
pub proof fn lemma_cells_nonempty<T: PartialEqSpec>(
    p: Seq<T>,
    q: Seq<T>,
    flag: bool,
    i: int,
    j: int,
)
    requires
        0 <= i,
        0 <= j,
    ensures
        cells(p, q, flag, i, j).len() >= 1,
    decreases i + j, 3int, 0int,
{
    if i >= 1 && j >= 1 {
        if p[i - 1].eq_spec(&q[j - 1]) {
            lemma_cells_nonempty(p, q, flag, i - 1, j - 1);
        } else {
            lemma_cells_nonempty(p, q, flag, i - 1, j);
            lemma_cells_bounds(p, q, flag, i - 1, j);
            let src = cells(p, q, flag, i - 1, j);
            let c0 = src[0].0;
            lemma_find_c_present(src, 0, c0);
            assert(src_min(p, q, flag, i, j, c0) is Some);
            lemma_collect_contains(p, q, flag, i, j, min_i(i, j) + 1, c0);
        }
    }
}

/// If some entry carries match count `c`, searching for `c` succeeds.
pub proof fn lemma_find_c_present(s: Seq<(int, int, Direction)>, k: int, c: int)
    requires
        0 <= k < s.len(),
        s[k].0 == c,
    ensures
        find_c(s, c) is Some,
    decreases k,
{
    if s[0].0 != c {
        lemma_find_c_present(s.drop_first(), k - 1, c);
    }
}

/// A match count with an incoming candidate appears among the merged
/// candidates.
pub proof fn lemma_collect_contains<T: PartialEqSpec>(
    p: Seq<T>,
    q: Seq<T>,
    flag: bool,
    i: int,
    j: int,
    nc: int,
    c: int,
)
    requires
        1 <= i,
        1 <= j,
        0 <= c < nc,
        src_min(p, q, flag, i, j, c) is Some,
    ensures
        collect_cands(p, q, flag, i, j, nc).len() >= 1,
    decreases nc,
{
    if c < nc - 1 {
        lemma_collect_contains(p, q, flag, i, j, nc - 1, c);
    }
}

/// Whether candidate `a` scores no better than `b` by the ratio of matches
/// to aligned positions, compared exactly by cross-multiplication.
pub open spec fn ratio_le(a: (int, int, Direction), b: (int, int, Direction)) -> bool {
    a.0 * (b.0 + b.1) <= b.0 * (a.0 + a.1)
}

/// The best candidate of a cell: the one maximizing matches over aligned
/// positions, the later entry (hence the higher match count) winning ties.
pub open spec fn best_of(s: Seq<(int, int, Direction)>) -> (int, int, Direction)
    recommends
        s.len() >= 1,
    decreases s.len(),
{
    if s.len() <= 1 {
        s[0]
    } else {
        let b = best_of(s.drop_last());
        if ratio_le(b, s.last()) {
            s.last()
        } else {
            b
        }
    }
}

/// The candidate of `candidates` that maximizes the fraction of matching
/// positions, `matches / (matches + mismatches)`; among equal fractions the
/// last, which in a cell in ascending order is the one with most matches.
pub fn best_candidate(candidates: &Vec<(u8, u8, Direction)>) -> (r: (u8, u8, Direction))
    requires
        candidates@.len() >= 1,
    ensures
        (r.0 as int, r.1 as int, r.2) == best_of(cview(candidates@)),
{
    let mut best = candidates[0];
    let mut i: usize = 1;
    proof {
        assert(cview(candidates@).take(1).drop_last() =~= Seq::<(int, int, Direction)>::empty());
        assert(cview(candidates@).take(1)[0] == cview(candidates@)[0]);
    }
    while i < candidates.len()
        invariant
            1 <= i <= candidates@.len(),
            (best.0 as int, best.1 as int, best.2) == best_of(cview(candidates@).take(i as int)),
        decreases candidates@.len() - i,
    {
        let c = candidates[i];
        proof {
            assert((best.0 as int) * ((c.0 as int) + (c.1 as int)) <= 255 * 510)
                by (nonlinear_arith)
                requires
                    best.0 <= 255,
                    c.0 <= 255,
                    c.1 <= 255,
            ;
            assert((c.0 as int) * ((best.0 as int) + (best.1 as int)) <= 255 * 510)
                by (nonlinear_arith)
                requires
                    c.0 <= 255,
                    best.0 <= 255,
                    best.1 <= 255,
            ;
        }
        let lhs = (best.0 as u32) * ((c.0 as u32) + (c.1 as u32));
        let rhs = (c.0 as u32) * ((best.0 as u32) + (best.1 as u32));
        proof {
            let whole = cview(candidates@);
            assert(whole.take(i + 1).drop_last() =~= whole.take(i as int));
            assert(whole.take(i + 1).last() == whole[i as int]);
        }
        if lhs <= rhs {
            best = c;
        }
        i = i + 1;
    }
    proof {
        assert(cview(candidates@).take(candidates@.len() as int) =~= cview(candidates@));
    }
    best
}

/// An integer candidate as the exec pair form.
pub open spec fn omap(o: Option<(u8, Direction)>) -> Option<(int, Direction)> {
    match o {
        Some(p) => Some((p.0 as int, p.1)),
        None => None,
    }
}

/// Scan a cell for the entry with match count `c`.
fn find_in_cell(cell: &Vec<(u8, u8, Direction)>, c: u8) -> (r: Option<(u8, Direction)>)
    ensures
        omap(r) == find_c(cview(cell@), c as int),
{
    let mut k: usize = 0;
    proof {
        assert(cview(cell@).skip(0) =~= cview(cell@));
    }
    while k < cell.len()
        invariant
            k <= cell@.len(),
            find_c(cview(cell@), c as int) == find_c(
                cview(cell@).skip(k as int),
                c as int,
            ),
        decreases cell@.len() - k,
    {
        let e = cell[k];
        proof {
            let rest = cview(cell@).skip(k as int);
            assert(rest[0] == cview(cell@)[k as int]);
            assert(rest.drop_first() =~= cview(cell@).skip(k + 1));
        }
        if e.0 == c {
            return Some((e.1, e.2));
        }
        k = k + 1;
    }
    proof {
        assert(cview(cell@).skip(cell@.len() as int) =~= Seq::<(int, int, Direction)>::empty());
    }
    None
}

/// The better of two penalized candidates: fewer mismatches, first wins
/// ties.
fn pick_better(a: Option<(u8, Direction)>, b: Option<(u8, Direction)>) -> (r: Option<
    (u8, Direction),
>)
    ensures
        omap(r) == pick2(omap(a), omap(b)),
{
    match a {
        None => b,
        Some(pa) => match b {
            Some(pb) => if pb.0 < pa.0 {
                Some(pb)
            } else {
                Some(pa)
            },
            None => Some(pa),
        },
    }
}

/// The Pareto-front dynamic program behind the alignment scorer, with the
/// consecutive-insertion collapse policy chosen by the caller. Returns the
/// best final candidate's match and mismatch counts together with the whole
/// matrix, every cell of which is pinned to the recurrence `cells`.
#[verifier::rlimit(80)]
pub fn align_with_flag<T: PartialEq + PartialEqSpec>(
    seq_predicted: &Vec<T>,
    seq_corrupted: &Vec<T>,
    count_multi_insertions_once: bool,
) -> (r: (u8, u8, Vec<Vec<Vec<(u8, u8, Direction)>>>))
    requires
        T::obeys_eq_spec(),
        seq_predicted@.len() + seq_corrupted@.len() <= 255,
    ensures
        ({
            let p = seq_predicted@;
            let q = seq_corrupted@;
            let flag = count_multi_insertions_once;
            &&& r.2@.len() == p.len() + 1
            &&& forall|i: int| 0 <= i <= p.len() ==> (#[trigger] r.2@[i])@.len() == q.len() + 1
            &&& forall|i: int, j: int|
                0 <= i <= p.len() && 0 <= j <= q.len() ==> cview(
                    (#[trigger] r.2@[i]@[j])@,
                ) == cells(p, q, flag, i, j)
            &&& ({
                let b = best_of(cells(p, q, flag, p.len() as int, q.len() as int));
                r.0 == b.0 && r.1 == b.1
            })
        }),
{
    let plen = seq_predicted.len();
    let qlen = seq_corrupted.len();
    let flag = count_multi_insertions_once;
    let ghost p = seq_predicted@;
    let ghost q = seq_corrupted@;
    let mut matrix: Vec<Vec<Vec<(u8, u8, Direction)>>> = Vec::new();
    let mut i: usize = 0;
    while i <= plen
        invariant
            T::obeys_eq_spec(),
            p == seq_predicted@,
            q == seq_corrupted@,
            plen == p.len(),
            qlen == q.len(),
            plen + qlen <= 255,
            i <= plen + 1,
            matrix@.len() == i,
            forall|ii: int| 0 <= ii < i ==> (#[trigger] matrix@[ii])@.len() == qlen + 1,
            forall|ii: int, j: int|
                0 <= ii < i && 0 <= j <= qlen ==> cview((#[trigger] matrix@[ii]@[j])@) == cells(
                    p,
                    q,
                    flag,
                    ii,
                    j,
                ),
        decreases plen + 1 - i,
    {
        let mut row: Vec<Vec<(u8, u8, Direction)>> = Vec::new();
        let mut j: usize = 0;
        while j <= qlen
            invariant
                T::obeys_eq_spec(),
                p == seq_predicted@,
                q == seq_corrupted@,
                plen == p.len(),
                qlen == q.len(),
                plen + qlen <= 255,
                i <= plen,
                matrix@.len() == i,
                forall|ii: int| 0 <= ii < i ==> (#[trigger] matrix@[ii])@.len() == qlen + 1,
                forall|ii: int, jj: int|
                    0 <= ii < i && 0 <= jj <= qlen ==> cview((#[trigger] matrix@[ii]@[jj])@)
                        == cells(p, q, flag, ii, jj),
                j <= qlen + 1,
                row@.len() == j,
                forall|jj: int|
                    0 <= jj < j ==> cview((#[trigger] row@[jj])@) == cells(p, q, flag, i as int, jj),
            decreases qlen + 1 - j,
        {
            let mut cell: Vec<(u8, u8, Direction)> = Vec::new();
            if i == 0 && j == 0 {
                cell.push((0, 0, Direction::Horz));
                proof {
                    assert(cview(cell@) =~= cells(p, q, flag, 0, 0));
                }
            } else if i == 0 {
                let collapse = flag && j > 1 && j < qlen && {
                    let a = &seq_corrupted[j - 1];
                    let b = &seq_corrupted[j - 2];
                    a == b
                };
                proof {
                    assert(collapse == spec_collapse(q, j as int, flag));
                }
                if collapse {
                    let prevcell = &row[j - 1];
                    proof {
                        assert(cview(prevcell@) == cells(p, q, flag, 0, j - 1));
                        assert(cells(p, q, flag, 0, j - 1).len() == 1);
                        assert(prevcell@.len() == 1);
                    }
                    let m = prevcell[0].1;
                    cell.push((0, m, Direction::Horz));
                    proof {
                        assert(cview(prevcell@)[0].1 == m as int);
                        assert(cview(cell@) =~= cells(p, q, flag, 0, j as int));
                    }
                } else {
                    cell.push((0, j as u8, Direction::Horz));
                    proof {
                        assert(cview(cell@) =~= cells(p, q, flag, 0, j as int));
                    }
                }
            } else if j == 0 {
                cell.push((0, i as u8, Direction::Vert));
                proof {
                    assert(cview(cell@) =~= cells(p, q, flag, i as int, 0));
                }
            } else {
                let equal_here = {
                    let a = &seq_predicted[i - 1];
                    let b = &seq_corrupted[j - 1];
                    a == b
                };
                if equal_here {
                    let prevrow = &matrix[i - 1];
                    let prevcell = &prevrow[j - 1];
                    proof {
                        assert(cview(prevcell@) == cells(p, q, flag, i - 1, j - 1));
                        lemma_cells_bounds(p, q, flag, i - 1, j - 1);
                    }
                    let mut k: usize = 0;
                    while k < prevcell.len()
                        invariant
                            cview(prevcell@) == cells(p, q, flag, i - 1, j - 1),
                            1 <= i,
                            1 <= j,
                            i + j <= 255,
                            forall|kk: int|
                                0 <= kk < cells(p, q, flag, i - 1, j - 1).len() ==> {
                                    let e = #[trigger] cells(p, q, flag, i - 1, j - 1)[kk];
                                    0 <= e.0 <= min_i(i - 1, j - 1) && 0 <= e.1 <= i + j - 2
                                },
                            k <= prevcell@.len(),
                            cell@.len() == k,
                            forall|kk: int|
                                0 <= kk < k ==> cview(cell@)[kk] == (
                                cells(p, q, flag, i - 1, j - 1)[kk].0 + 1,
                                cells(p, q, flag, i - 1, j - 1)[kk].1,
                                Direction::Diag,
                                ),
                        decreases prevcell@.len() - k,
                    {
                        let e = prevcell[k];
                        let ghost pre = cview(cell@);
                        proof {
                            assert(cview(prevcell@)[k as int] == (e.0 as int, e.1 as int, e.2));
                        }
                        cell.push((e.0 + 1, e.1, Direction::Diag));
                        proof {
                            assert(cview(cell@) =~= pre.push(
                                (e.0 as int + 1, e.1 as int, Direction::Diag),
                            ));
                        }
                        k = k + 1;
                    }
                    proof {
                        assert(p[i - 1].eq_spec(&q[j - 1]));
                        assert(cview(cell@) =~= cells(p, q, flag, i as int, j as int));
                    }
                } else {
                    let limit: usize = if i <= j {
                        i
                    } else {
                        j
                    };
                    proof {
                        assert(limit as int == min_i(i as int, j as int));
                        assert(cview(cell@) =~= collect_cands(p, q, flag, i as int, j as int, 0));
                    }
                    let mut c: usize = 0;
                    while c <= limit
                        invariant
                            T::obeys_eq_spec(),
                            p == seq_predicted@,
                            q == seq_corrupted@,
                            plen == p.len(),
                            qlen == q.len(),
                            plen + qlen <= 255,
                            1 <= i <= plen,
                            1 <= j <= qlen,
                            matrix@.len() == i,
                            forall|ii: int|
                                0 <= ii < i ==> (#[trigger] matrix@[ii])@.len() == qlen + 1,
                            forall|ii: int, jj: int|
                                0 <= ii < i && 0 <= jj <= qlen ==> cview(
                                    (#[trigger] matrix@[ii]@[jj])@,
                                ) == cells(p, q, flag, ii, jj),
                            row@.len() == j,
                            forall|jj: int|
                                0 <= jj < j ==> cview((#[trigger] row@[jj])@) == cells(
                                    p,
                                    q,
                                    flag,
                                    i as int,
                                    jj,
                                ),
                            limit as int == min_i(i as int, j as int),
                            !p[i - 1].eq_spec(&q[j - 1]),
                            c <= limit + 1,
                            cview(cell@) == collect_cands(p, q, flag, i as int, j as int, c as int),
                        decreases limit + 1 - c,
                    {
                        let prevrow = &matrix[i - 1];
                        let v = match find_in_cell(&prevrow[j], c as u8) {
                            Some(md) => {
                                proof {
                                    lemma_cells_bounds(p, q, flag, i - 1, j as int);
                                    lemma_find_some(cells(p, q, flag, i - 1, j as int), c as int);
                                }
                                Some(((md.0 + 1) as u8, Direction::Vert))
                            },
                            None => None,
                        };
                        let collapse = flag && j > 1 && j < qlen && {
                            let a = &seq_corrupted[j - 1];
                            let b = &seq_corrupted[j - 2];
                            a == b
                        };
                        proof {
                            assert(collapse == spec_collapse(q, j as int, flag));
                        }
                        let h = match find_in_cell(&row[j - 1], c as u8) {
                            Some(md) => {
                                proof {
                                    lemma_cells_bounds(p, q, flag, i as int, j - 1);
                                    lemma_find_some(cells(p, q, flag, i as int, j - 1), c as int);
                                }
                                if collapse {
                                    Some((md.0, Direction::Horz))
                                } else {
                                    Some(((md.0 + 1) as u8, Direction::Horz))
                                }
                            },
                            None => None,
                        };
                        let d = match find_in_cell(&prevrow[j - 1], c as u8) {
                            Some(md) => {
                                proof {
                                    lemma_cells_bounds(p, q, flag, i - 1, j - 1);
                                    lemma_find_some(cells(p, q, flag, i - 1, j - 1), c as int);
                                }
                                Some(((md.0 + 1) as u8, Direction::Diag))
                            },
                            None => None,
                        };
                        let merged = pick_better(pick_better(v, h), d);
                        proof {
                            assert(omap(merged) == src_min(
                                p,
                                q,
                                flag,
                                i as int,
                                j as int,
                                c as int,
                            ));
                        }
                        let ghost pre_cell = cview(cell@);
                        match merged {
                            Some(md) => {
                                cell.push((c as u8, md.0, md.1));
                                proof {
                                    assert(cview(cell@) =~= pre_cell + seq![
                                        (c as int, md.0 as int, md.1),
                                    ]);
                                }
                            },
                            None => {},
                        }
                        proof {
                            assert(cview(cell@) =~= collect_cands(
                                p,
                                q,
                                flag,
                                i as int,
                                j as int,
                                c + 1,
                            ));
                        }
                        c = c + 1;
                    }
                    proof {
                        assert(cview(cell@) == cells(p, q, flag, i as int, j as int));
                    }
                }
            }
            row.push(cell);
            j = j + 1;
        }
        matrix.push(row);
        i = i + 1;
    }
    proof {
        lemma_cells_nonempty(p, q, flag, plen as int, qlen as int);
    }
    let lastrow = &matrix[plen];
    let fc = &lastrow[qlen];
    proof {
        assert(cview(fc@) == cells(p, q, flag, plen as int, qlen as int));
    }
    let best = best_candidate(fc);
    (best.0, best.1, matrix)
}

/// Align the expected and the typed sequence under the standard policy of
/// counting consecutive insertions of the same element once.
pub fn align<T: PartialEq + PartialEqSpec>(seq_predicted: &Vec<T>, seq_corrupted: &Vec<T>) -> (r: (
    u8,
    u8,
    Vec<Vec<Vec<(u8, u8, Direction)>>>,
))
    requires
        T::obeys_eq_spec(),
        seq_predicted@.len() + seq_corrupted@.len() <= 255,
    ensures
        ({
            let p = seq_predicted@;
            let q = seq_corrupted@;
            &&& r.2@.len() == p.len() + 1
            &&& forall|i: int| 0 <= i <= p.len() ==> (#[trigger] r.2@[i])@.len() == q.len() + 1
            &&& forall|i: int, j: int|
                0 <= i <= p.len() && 0 <= j <= q.len() ==> cview(
                    (#[trigger] r.2@[i]@[j])@,
                ) == cells(p, q, true, i, j)
            &&& ({
                let b = best_of(cells(p, q, true, p.len() as int, q.len() as int));
                r.0 == b.0 && r.1 == b.1
            })
        }),
{
    align_with_flag(seq_predicted, seq_corrupted, true)
}

/// The number of correct and incorrect positions in the best alignment of
/// the corrupted sequence against the predicted one.
pub fn alignment_quality<T: PartialEq + PartialEqSpec>(
    seq_predicted: &Vec<T>,
    seq_corrupted: &Vec<T>,
) -> (r: (u8, u8))
    requires
        T::obeys_eq_spec(),
        seq_predicted@.len() + seq_corrupted@.len() <= 255,
    ensures
        ({
            let b = best_of(
                cells(
                    seq_predicted@,
                    seq_corrupted@,
                    true,
                    seq_predicted@.len() as int,
                    seq_corrupted@.len() as int,
                ),
            );
            r.0 == b.0 && r.1 == b.1
        }),
{
    let (correct, incorrect, _) = align(seq_predicted, seq_corrupted);
    (correct, incorrect)
}

/// Aligning a sequence against itself: every diagonal cell holds the single
/// perfect candidate.
proof fn lemma_cells_diag<T: PartialEqSpec>(x: Seq<T>, flag: bool, i: int)
    requires
        0 <= i <= x.len(),
        forall|k: int| 0 <= k < x.len() ==> #[trigger] x[k].eq_spec(&x[k]),
    ensures
        cells(x, x, flag, i, i).len() == 1,
        cells(x, x, flag, i, i)[0].0 == i,
        cells(x, x, flag, i, i)[0].1 == 0,
    decreases i,
{
    if i > 0 {
        lemma_cells_diag(x, flag, i - 1);
        assert(x[i - 1].eq_spec(&x[i - 1]));
    }
}

/// Aligning a sequence against itself scores every position as a match:
/// `align(X, X)` yields `(|X|, 0)`, under either collapse policy.
pub proof fn lemma_align_self<T: PartialEqSpec>(x: Seq<T>, flag: bool)
    requires
        forall|k: int| 0 <= k < x.len() ==> #[trigger] x[k].eq_spec(&x[k]),
    ensures
        best_of(cells(x, x, flag, x.len() as int, x.len() as int)).0 == x.len(),
        best_of(cells(x, x, flag, x.len() as int, x.len() as int)).1 == 0,
{
    lemma_cells_diag(x, flag, x.len() as int);
}

/// A cell with the directions forgotten: only match and mismatch counts.
pub open spec fn cm(s: Seq<(int, int, Direction)>) -> Seq<(int, int)> {
    Seq::new(s.len(), |k: int| (s[k].0, s[k].1))
}

/// Cells that agree up to direction give searches that agree up to
/// direction.
proof fn lemma_find_cm(s1: Seq<(int, int, Direction)>, s2: Seq<(int, int, Direction)>, c: int)
    requires
        cm(s1) == cm(s2),
    ensures
        match find_c(s1, c) {
            Some(md1) => find_c(s2, c) matches Some(md2) && md2.0 == md1.0,
            None => find_c(s2, c) is None,
        },
    decreases s1.len(),
{
    assert(cm(s1).len() == s1.len());
    assert(cm(s2).len() == s2.len());
    assert(s1.len() == s2.len());
    if s1.len() > 0 {
        assert(cm(s1)[0] == cm(s2)[0]);
        assert(s1[0].0 == s2[0].0 && s1[0].1 == s2[0].1);
        if s1[0].0 == c {
            assert(find_c(s1, c) == Some((s1[0].1, s1[0].2)));
            assert(find_c(s2, c) == Some((s2[0].1, s2[0].2)));
        } else {
            assert(cm(s1.drop_first()) =~= cm(s1).drop_first());
            assert(cm(s2.drop_first()) =~= cm(s2).drop_first());
            lemma_find_cm(s1.drop_first(), s2.drop_first(), c);
            assert(find_c(s1, c) == find_c(s1.drop_first(), c));
            assert(find_c(s2, c) == find_c(s2.drop_first(), c));
        }
    }
}

/// With the collapse policy off, swapping the two sequences transposes the
/// matrix: every cell keeps its match and mismatch counts.
proof fn lemma_cells_sym<T: PartialEqSpec>(p: Seq<T>, q: Seq<T>, i: int, j: int)
    requires
        i <= p.len(),
        j <= q.len(),
        forall|a: int, b: int|
            0 <= a < p.len() && 0 <= b < q.len() ==> #[trigger] p[a].eq_spec(&q[b]) == q[b].eq_spec(
                &p[a],
            ),
    ensures
        cm(cells(p, q, false, i, j)) == cm(cells(q, p, false, j, i)),
    decreases i + j, 3int, 0int,
{
    let s1 = cells(p, q, false, i, j);
    let s2 = cells(q, p, false, j, i);
    if i < 0 || j < 0 {
        assert(cm(s1) =~= cm(s2));
    } else if i == 0 && j == 0 {
        assert(cm(s1) =~= cm(s2));
    } else if i == 0 {
        assert(!spec_collapse(q, j, false));
        assert(cm(s1) =~= seq![(0int, j)]);
        assert(cm(s2) =~= seq![(0int, j)]);
    } else if j == 0 {
        assert(cm(s1) =~= seq![(0int, i)]);
        assert(cm(s2) =~= seq![(0int, i)]);
    } else if p[i - 1].eq_spec(&q[j - 1]) {
        lemma_cells_sym(p, q, i - 1, j - 1);
        assert(q[j - 1].eq_spec(&p[i - 1]));
        let prev1 = cells(p, q, false, i - 1, j - 1);
        let prev2 = cells(q, p, false, j - 1, i - 1);
        assert(cm(prev1).len() == prev1.len());
        assert(cm(prev2).len() == prev2.len());
        assert(prev1.len() == prev2.len());
        assert(s1.len() == prev1.len() && s2.len() == prev2.len());
        assert forall|k: int| 0 <= k < cm(s1).len() implies cm(s1)[k] == cm(s2)[k] by {
            assert(cm(prev1)[k] == cm(prev2)[k]);
            assert(prev1[k].0 == prev2[k].0 && prev1[k].1 == prev2[k].1);
            assert(s1[k] == (prev1[k].0 + 1, prev1[k].1, Direction::Diag));
            assert(s2[k] == (prev2[k].0 + 1, prev2[k].1, Direction::Diag));
        }
        assert(cm(s1) =~= cm(s2));
    } else {
        assert(!q[j - 1].eq_spec(&p[i - 1]));
        lemma_collect_sym(p, q, i, j, min_i(i, j) + 1);
        assert(min_i(i, j) == min_i(j, i));
        assert(cm(s1) =~= cm(s2));
    }
}

/// Transposition for the merged candidates of a mismatch cell.
proof fn lemma_collect_sym<T: PartialEqSpec>(p: Seq<T>, q: Seq<T>, i: int, j: int, nc: int)
    requires
        1 <= i <= p.len(),
        1 <= j <= q.len(),
        forall|a: int, b: int|
            0 <= a < p.len() && 0 <= b < q.len() ==> #[trigger] p[a].eq_spec(&q[b]) == q[b].eq_spec(
                &p[a],
            ),
    ensures
        cm(collect_cands(p, q, false, i, j, nc)) == cm(collect_cands(q, p, false, j, i, nc)),
    decreases i + j, 2int, nc,
{
    let s1 = collect_cands(p, q, false, i, j, nc);
    let s2 = collect_cands(q, p, false, j, i, nc);
    if nc <= 0 {
        assert(cm(s1) =~= cm(s2));
    } else {
        lemma_collect_sym(p, q, i, j, nc - 1);
        lemma_src_min_sym(p, q, i, j, nc - 1);
        let a1 = collect_cands(p, q, false, i, j, nc - 1);
        let a2 = collect_cands(q, p, false, j, i, nc - 1);
        assert(cm(a1).len() == cm(a2).len());
        assert forall|k: int| 0 <= k < cm(s1).len() implies cm(s1)[k] == cm(s2)[k] by {
            if k < a1.len() {
                assert(cm(a1)[k] == cm(a2)[k]);
            }
        }
        assert(cm(s1).len() == cm(s2).len());
        assert(cm(s1) =~= cm(s2));
    }
}

/// Transposition for the best incoming candidate: the three incoming
/// directions swap roles but the least mismatch count is the same.
proof fn lemma_src_min_sym<T: PartialEqSpec>(p: Seq<T>, q: Seq<T>, i: int, j: int, c: int)
    requires
        1 <= i <= p.len(),
        1 <= j <= q.len(),
        forall|a: int, b: int|
            0 <= a < p.len() && 0 <= b < q.len() ==> #[trigger] p[a].eq_spec(&q[b]) == q[b].eq_spec(
                &p[a],
            ),
    ensures
        match src_min(p, q, false, i, j, c) {
            Some(md1) => src_min(q, p, false, j, i, c) matches Some(md2) && md2.0 == md1.0,
            None => src_min(q, p, false, j, i, c) is None,
        },
    decreases i + j, 1int, 0int,
{
    lemma_cells_sym(p, q, i - 1, j);
    lemma_cells_sym(p, q, i, j - 1);
    lemma_cells_sym(p, q, i - 1, j - 1);
    lemma_find_cm(cells(p, q, false, i - 1, j), cells(q, p, false, j, i - 1), c);
    lemma_find_cm(cells(p, q, false, i, j - 1), cells(q, p, false, j - 1, i), c);
    lemma_find_cm(cells(p, q, false, i - 1, j - 1), cells(q, p, false, j - 1, i - 1), c);
    assert(!spec_collapse(q, j, false) && !spec_collapse(p, i, false));
}

/// Candidates that agree up to direction have the same best score.
proof fn lemma_best_cm(s1: Seq<(int, int, Direction)>, s2: Seq<(int, int, Direction)>)
    requires
        cm(s1) == cm(s2),
        s1.len() >= 1,
    ensures
        best_of(s1).0 == best_of(s2).0,
        best_of(s1).1 == best_of(s2).1,
    decreases s1.len(),
{
    assert(cm(s1).len() == s1.len());
    assert(cm(s2).len() == s2.len());
    assert(s1.len() == s2.len());
    assert(cm(s1)[s1.len() - 1] == cm(s2)[s1.len() - 1]);
    assert(s1.last().0 == s2.last().0 && s1.last().1 == s2.last().1);
    if s1.len() > 1 {
        assert(cm(s1.drop_last()) =~= cm(s1).drop_last());
        assert(cm(s2.drop_last()) =~= cm(s2).drop_last());
        lemma_best_cm(s1.drop_last(), s2.drop_last());
        let b1 = best_of(s1.drop_last());
        let b2 = best_of(s2.drop_last());
        assert(ratio_le(b1, s1.last()) == ratio_le(b2, s2.last()));
    } else {
        assert(cm(s1)[0] == cm(s2)[0]);
        assert(s1[0].0 == s2[0].0 && s1[0].1 == s2[0].1);
    }
}

/// With the collapse policy off, the alignment score is symmetric in its two
/// sequences, as long as equality itself is symmetric across them.
pub proof fn lemma_align_symmetric<T: PartialEqSpec>(p: Seq<T>, q: Seq<T>)
    requires
        forall|a: int, b: int|
            0 <= a < p.len() && 0 <= b < q.len() ==> #[trigger] p[a].eq_spec(&q[b]) == q[b].eq_spec(
                &p[a],
            ),
    ensures
        best_of(cells(p, q, false, p.len() as int, q.len() as int)).0 == best_of(
            cells(q, p, false, q.len() as int, p.len() as int),
        ).0,
        best_of(cells(p, q, false, p.len() as int, q.len() as int)).1 == best_of(
            cells(q, p, false, q.len() as int, p.len() as int),
        ).1,
{
    lemma_cells_sym(p, q, p.len() as int, q.len() as int);
    lemma_cells_nonempty(p, q, false, p.len() as int, q.len() as int);
    lemma_best_cm(
        cells(p, q, false, p.len() as int, q.len() as int),
        cells(q, p, false, q.len() as int, p.len() as int),
    );
}

/// A trial outcome that is not a typed sequence: the user declared the pair
/// impossible to press.
#[derive(Debug, PartialEq, Eq, Structural)]
pub enum ErrCode {
    Impossible,
}

/// One recorded trial: the prompted pair, how many alternations were asked
/// for, and either the decoded typed sequence or the impossibility verdict.
#[derive(Debug)]
pub struct TrialData {
    pub chord_pair: (Chord, Chord),
    pub n_repetitions: usize,
    pub input: Result<Vec<Chord>, ErrCode>,
}

/// The trials accepted so far, in acceptance order.
#[derive(Debug)]
pub struct TrialResults {
    pub data: Vec<TrialData>,
}

/// Structural equality of two trials, on the underlying key bitsets.
pub open spec fn trial_eq(a: TrialData, b: TrialData) -> bool {
    &&& a.chord_pair.0@ == b.chord_pair.0@
    &&& a.chord_pair.1@ == b.chord_pair.1@
    &&& a.n_repetitions == b.n_repetitions
    &&& match (a.input, b.input) {
        (Ok(x), Ok(y)) => chords_view(x) == chords_view(y),
        (Err(_), Err(_)) => true,
        _ => false,
    }
}

/// Structural equality of two result lists.
pub open spec fn results_eq(a: TrialResults, b: TrialResults) -> bool {
    a.data@.len() == b.data@.len() && forall|k: int|
        0 <= k < a.data@.len() ==> trial_eq(#[trigger] a.data@[k], b.data@[k])
}

/// All chords of a trial have the keyboard's key count.
pub open spec fn trial_wf(t: TrialData) -> bool {
    &&& t.chord_pair.0.wf()
    &&& t.chord_pair.1.wf()
    &&& match t.input {
        Ok(v) => forall|k: int| 0 <= k < v@.len() ==> (#[trigger] v@[k]).wf(),
        Err(_) => true,
    }
}

/// All chords of all trials have the keyboard's key count.
pub open spec fn results_wf(r: TrialResults) -> bool {
    forall|k: int| 0 <= k < r.data@.len() ==> trial_wf(#[trigger] r.data@[k])
}

fn chord_vecs_equal(x: &Vec<Chord>, y: &Vec<Chord>) -> (b: bool)
    ensures
        b == (chords_view(*x) == chords_view(*y)),
{
    if x.len() != y.len() {
        proof {
            assert(chords_view(*x).len() != chords_view(*y).len());
        }
        return false;
    }
    let mut k: usize = 0;
    while k < x.len()
        invariant
            x@.len() == y@.len(),
            k <= x@.len(),
            forall|m: int| 0 <= m < k ==> chords_view(*x)[m] == chords_view(*y)[m],
        decreases x@.len() - k,
    {
        let a = &x[k];
        let b = &y[k];
        if !(a == b) {
            proof {
                assert(chords_view(*x)[k as int] != chords_view(*y)[k as int]);
            }
            return false;
        }
        k = k + 1;
    }
    proof {
        assert(chords_view(*x) =~= chords_view(*y));
    }
    true
}

impl PartialEq for TrialData {
    fn eq(&self, other: &TrialData) -> (b: bool) {
        let pair_same = self.chord_pair.0 == other.chord_pair.0 && self.chord_pair.1
            == other.chord_pair.1;
        if !pair_same || self.n_repetitions != other.n_repetitions {
            return false;
        }
        match (&self.input, &other.input) {
            (Ok(x), Ok(y)) => chord_vecs_equal(x, y),
            (Err(_), Err(_)) => true,
            _ => false,
        }
    }
}

impl vstd::std_specs::cmp::PartialEqSpecImpl for TrialData {
    open spec fn obeys_eq_spec() -> bool {
        true
    }

    open spec fn eq_spec(&self, other: &TrialData) -> bool {
        trial_eq(*self, *other)
    }
}

impl Eq for TrialData {}

impl PartialEq for TrialResults {
    fn eq(&self, other: &TrialResults) -> (b: bool) {
        if self.data.len() != other.data.len() {
            return false;
        }
        let mut k: usize = 0;
        while k < self.data.len()
            invariant
                self.data@.len() == other.data@.len(),
                k <= self.data@.len(),
                forall|m: int| 0 <= m < k ==> trial_eq(#[trigger] self.data@[m], other.data@[m]),
            decreases self.data@.len() - k,
        {
            let a = &self.data[k];
            let b = &other.data[k];
            if !(a == b) {
                return false;
            }
            k = k + 1;
        }
        true
    }
}

impl vstd::std_specs::cmp::PartialEqSpecImpl for TrialResults {
    open spec fn obeys_eq_spec() -> bool {
        true
    }

    open spec fn eq_spec(&self, other: &TrialResults) -> bool {
        results_eq(*self, *other)
    }
}

impl Eq for TrialResults {}

impl TrialResults {
    /// An empty result list.
    pub fn new() -> (r: TrialResults)
        ensures
            r.data@.len() == 0,
            results_wf(r),
    {
        TrialResults { data: Vec::new() }
    }

    /// Append one accepted trial.
    pub fn push(&mut self, trial_data: TrialData)
        ensures
            final(self).data@ == old(self).data@.push(trial_data),
    {
        self.data.push(trial_data);
    }
}

/// The matrix depends only on the pattern of equalities between and within
/// the two sequences, not on the elements themselves.
pub proof fn lemma_cells_congruent<T: PartialEqSpec>(
    p1: Seq<T>,
    q1: Seq<T>,
    p2: Seq<T>,
    q2: Seq<T>,
    flag: bool,
    i: int,
    j: int,
)
    requires
        p1.len() == p2.len(),
        q1.len() == q2.len(),
        forall|a: int, b: int|
            0 <= a < p1.len() && 0 <= b < q1.len() ==> #[trigger] p1[a].eq_spec(&q1[b])
                == p2[a].eq_spec(&q2[b]),
        forall|a: int, b: int|
            0 <= a < q1.len() && 0 <= b < q1.len() ==> #[trigger] q1[a].eq_spec(&q1[b])
                == q2[a].eq_spec(&q2[b]),
        i <= p1.len(),
        j <= q1.len(),
    ensures
        cells(p1, q1, flag, i, j) == cells(p2, q2, flag, i, j),
    decreases i + j, 3int, 0int,
{
    if i < 0 || j < 0 {
    } else if i == 0 && j == 0 {
    } else if i == 0 {
        assert(spec_collapse(q1, j, flag) == spec_collapse(q2, j, flag));
        if spec_collapse(q1, j, flag) {
            lemma_cells_congruent(p1, q1, p2, q2, flag, 0, j - 1);
        }
    } else if j == 0 {
    } else {
        assert(p1[i - 1].eq_spec(&q1[j - 1]) == p2[i - 1].eq_spec(&q2[j - 1]));
        if p1[i - 1].eq_spec(&q1[j - 1]) {
            lemma_cells_congruent(p1, q1, p2, q2, flag, i - 1, j - 1);
            assert(cells(p1, q1, flag, i, j) =~= cells(p2, q2, flag, i, j));
        } else {
            lemma_collect_congruent(p1, q1, p2, q2, flag, i, j, min_i(i, j) + 1);
        }
    }
}

proof fn lemma_collect_congruent<T: PartialEqSpec>(
    p1: Seq<T>,
    q1: Seq<T>,
    p2: Seq<T>,
    q2: Seq<T>,
    flag: bool,
    i: int,
    j: int,
    nc: int,
)
    requires
        p1.len() == p2.len(),
        q1.len() == q2.len(),
        forall|a: int, b: int|
            0 <= a < p1.len() && 0 <= b < q1.len() ==> #[trigger] p1[a].eq_spec(&q1[b])
                == p2[a].eq_spec(&q2[b]),
        forall|a: int, b: int|
            0 <= a < q1.len() && 0 <= b < q1.len() ==> #[trigger] q1[a].eq_spec(&q1[b])
                == q2[a].eq_spec(&q2[b]),
        1 <= i <= p1.len(),
        1 <= j <= q1.len(),
    ensures
        collect_cands(p1, q1, flag, i, j, nc) == collect_cands(p2, q2, flag, i, j, nc),
    decreases i + j, 2int, nc,
{
    if nc > 0 {
        lemma_collect_congruent(p1, q1, p2, q2, flag, i, j, nc - 1);
        lemma_src_min_congruent(p1, q1, p2, q2, flag, i, j, nc - 1);
    }
}

proof fn lemma_src_min_congruent<T: PartialEqSpec>(
    p1: Seq<T>,
    q1: Seq<T>,
    p2: Seq<T>,
    q2: Seq<T>,
    flag: bool,
    i: int,
    j: int,
    c: int,
)
    requires
        p1.len() == p2.len(),
        q1.len() == q2.len(),
        forall|a: int, b: int|
            0 <= a < p1.len() && 0 <= b < q1.len() ==> #[trigger] p1[a].eq_spec(&q1[b])
                == p2[a].eq_spec(&q2[b]),
        forall|a: int, b: int|
            0 <= a < q1.len() && 0 <= b < q1.len() ==> #[trigger] q1[a].eq_spec(&q1[b])
                == q2[a].eq_spec(&q2[b]),
        1 <= i <= p1.len(),
        1 <= j <= q1.len(),
    ensures
        src_min(p1, q1, flag, i, j, c) == src_min(p2, q2, flag, i, j, c),
    decreases i + j, 1int, 0int,
{
    lemma_cells_congruent(p1, q1, p2, q2, flag, i - 1, j);
    lemma_cells_congruent(p1, q1, p2, q2, flag, i, j - 1);
    lemma_cells_congruent(p1, q1, p2, q2, flag, i - 1, j - 1);
    assert(spec_collapse(q1, j, flag) == spec_collapse(q2, j, flag));
}

/// With the collapse policy off, a cell reads only the prefixes it covers:
/// extending either sequence beyond the cell leaves the cell unchanged.
proof fn lemma_cells_window<T: PartialEqSpec>(
    p1: Seq<T>,
    q1: Seq<T>,
    p2: Seq<T>,
    q2: Seq<T>,
    i: int,
    j: int,
)
    requires
        i <= p1.len(),
        i <= p2.len(),
        j <= q1.len(),
        j <= q2.len(),
        forall|a: int, b: int|
            0 <= a < i && 0 <= b < j ==> #[trigger] p1[a].eq_spec(&q1[b]) == p2[a].eq_spec(
                &q2[b],
            ),
    ensures
        cells(p1, q1, false, i, j) == cells(p2, q2, false, i, j),
    decreases i + j, 3int, 0int,
{
    if i < 0 || j < 0 {
    } else if i == 0 && j == 0 {
    } else if i == 0 {
        assert(!spec_collapse(q1, j, false) && !spec_collapse(q2, j, false));
    } else if j == 0 {
    } else {
        assert(p1[i - 1].eq_spec(&q1[j - 1]) == p2[i - 1].eq_spec(&q2[j - 1]));
        if p1[i - 1].eq_spec(&q1[j - 1]) {
            lemma_cells_window(p1, q1, p2, q2, i - 1, j - 1);
            assert(cells(p1, q1, false, i, j) =~= cells(p2, q2, false, i, j));
        } else {
            lemma_collect_window(p1, q1, p2, q2, i, j, min_i(i, j) + 1);
        }
    }
}

proof fn lemma_collect_window<T: PartialEqSpec>(
    p1: Seq<T>,
    q1: Seq<T>,
    p2: Seq<T>,
    q2: Seq<T>,
    i: int,
    j: int,
    nc: int,
)
    requires
        1 <= i <= p1.len(),
        i <= p2.len(),
        1 <= j <= q1.len(),
        j <= q2.len(),
        forall|a: int, b: int|
            0 <= a < i && 0 <= b < j ==> #[trigger] p1[a].eq_spec(&q1[b]) == p2[a].eq_spec(
                &q2[b],
            ),
    ensures
        collect_cands(p1, q1, false, i, j, nc) == collect_cands(p2, q2, false, i, j, nc),
    decreases i + j, 2int, nc,
{
    if nc > 0 {
        lemma_collect_window(p1, q1, p2, q2, i, j, nc - 1);
        lemma_src_min_window(p1, q1, p2, q2, i, j, nc - 1);
    }
}

proof fn lemma_src_min_window<T: PartialEqSpec>(
    p1: Seq<T>,
    q1: Seq<T>,
    p2: Seq<T>,
    q2: Seq<T>,
    i: int,
    j: int,
    c: int,
)
    requires
        1 <= i <= p1.len(),
        i <= p2.len(),
        1 <= j <= q1.len(),
        j <= q2.len(),
        forall|a: int, b: int|
            0 <= a < i && 0 <= b < j ==> #[trigger] p1[a].eq_spec(&q1[b]) == p2[a].eq_spec(
                &q2[b],
            ),
    ensures
        src_min(p1, q1, false, i, j, c) == src_min(p2, q2, false, i, j, c),
    decreases i + j, 1int, 0int,
{
    lemma_cells_window(p1, q1, p2, q2, i - 1, j);
    lemma_cells_window(p1, q1, p2, q2, i, j - 1);
    lemma_cells_window(p1, q1, p2, q2, i - 1, j - 1);
    assert(!spec_collapse(q1, j, false) && !spec_collapse(q2, j, false));
}

/// Away from the origin, every candidate covers at least one position.
proof fn lemma_cells_positive<T: PartialEqSpec>(p: Seq<T>, q: Seq<T>, flag: bool, i: int, j: int)
    requires
        0 <= i,
        0 <= j,
        i + j >= 1,
    ensures
        forall|k: int|
            0 <= k < cells(p, q, flag, i, j).len() ==> {
                let e = #[trigger] cells(p, q, flag, i, j)[k];
                e.0 + e.1 >= 1
            },
    decreases i + j, 3int, 0int,
{
    if i == 0 {
        if spec_collapse(q, j, flag) {
            lemma_cells_positive(p, q, flag, 0, j - 1);
            lemma_cells_bounds(p, q, flag, 0, j - 1);
            assert(cells(p, q, flag, 0, j - 1).len() == 1);
            assert(cells(p, q, flag, 0, j - 1)[0].0 + cells(p, q, flag, 0, j - 1)[0].1 >= 1);
            assert(cells(p, q, flag, 0, j - 1)[0].0 <= 0);
            assert(cells(p, q, flag, i, j) =~= seq![
                (0int, cells(p, q, flag, 0, j - 1)[0].1, Direction::Horz),
            ]);
        } else {
            assert(cells(p, q, flag, i, j) =~= seq![(0int, j, Direction::Horz)]);
        }
    } else if j == 0 {
        assert(cells(p, q, flag, i, j) =~= seq![(0int, i, Direction::Vert)]);
    } else if p[i - 1].eq_spec(&q[j - 1]) {
        let prev = cells(p, q, flag, i - 1, j - 1);
        assert forall|k: int| 0 <= k < cells(p, q, flag, i, j).len() implies {
            let e = #[trigger] cells(p, q, flag, i, j)[k];
            e.0 + e.1 >= 1
        } by {
            assert(cells(p, q, flag, i, j)[k] == (prev[k].0 + 1, prev[k].1, Direction::Diag));
            lemma_cells_bounds(p, q, flag, i - 1, j - 1);
            assert(prev[k].0 >= 0 && prev[k].1 >= 0);
        }
    } else {
        lemma_collect_positive(p, q, flag, i, j, min_i(i, j) + 1);
        assert(cells(p, q, flag, i, j) == collect_cands(p, q, flag, i, j, min_i(i, j) + 1));
    }
}

proof fn lemma_collect_positive<T: PartialEqSpec>(
    p: Seq<T>,
    q: Seq<T>,
    flag: bool,
    i: int,
    j: int,
    nc: int,
)
    requires
        1 <= i,
        1 <= j,
    ensures
        forall|k: int|
            0 <= k < collect_cands(p, q, flag, i, j, nc).len() ==> {
                let e = #[trigger] collect_cands(p, q, flag, i, j, nc)[k];
                e.0 + e.1 >= 1
            },
    decreases i + j, 2int, nc,
{
    if nc > 0 {
        lemma_collect_positive(p, q, flag, i, j, nc - 1);
        match src_min(p, q, flag, i, j, nc - 1) {
            Some(md) => {
                lemma_src_min_positive(p, q, flag, i, j, nc - 1);
                assert((nc - 1) + md.0 >= 1);
            },
            None => {},
        }
        let a = collect_cands(p, q, flag, i, j, nc - 1);
        let whole = collect_cands(p, q, flag, i, j, nc);
        assert forall|k: int| 0 <= k < whole.len() implies {
            let e = #[trigger] whole[k];
            e.0 + e.1 >= 1
        } by {
            if k < a.len() {
                assert(whole[k] == a[k]);
                assert(a[k].0 + a[k].1 >= 1);
            } else {
                match src_min(p, q, flag, i, j, nc - 1) {
                    Some(md) => {
                        assert(whole[k] == (nc - 1, md.0, md.1));
                    },
                    None => {
                        assert(false);
                    },
                }
            }
        }
    }
}

proof fn lemma_src_min_positive<T: PartialEqSpec>(
    p: Seq<T>,
    q: Seq<T>,
    flag: bool,
    i: int,
    j: int,
    c: int,
)
    requires
        1 <= i,
        1 <= j,
    ensures
        match src_min(p, q, flag, i, j, c) {
            Some(md) => c + md.0 >= 1,
            None => true,
        },
    decreases i + j, 1int, 0int,
{
    lemma_cells_bounds(p, q, flag, i - 1, j);
    lemma_cells_bounds(p, q, flag, i, j - 1);
    lemma_cells_bounds(p, q, flag, i - 1, j - 1);
    lemma_find_some(cells(p, q, flag, i - 1, j), c);
    lemma_find_some(cells(p, q, flag, i, j - 1), c);
    lemma_find_some(cells(p, q, flag, i - 1, j - 1), c);
    if spec_collapse(q, j, flag) {
        // the free horizontal step comes out of a cell that is itself away
        // from the origin
        lemma_cells_positive(p, q, flag, i, j - 1);
    }
}

/// The chosen best candidate is one of the candidates.
proof fn lemma_best_of_member(s: Seq<(int, int, Direction)>)
    requires
        s.len() >= 1,
    ensures
        exists|k: int| 0 <= k < s.len() && best_of(s) == s[k],
    decreases s.len(),
{
    if s.len() == 1 {
        assert(best_of(s) == s[0]);
    } else {
        lemma_best_of_member(s.drop_last());
        if ratio_le(best_of(s.drop_last()), s.last()) {
            assert(best_of(s) == s[s.len() - 1]);
        } else {
            let k = choose|k: int|
                0 <= k < s.drop_last().len() && best_of(s.drop_last()) == s.drop_last()[k];
            assert(best_of(s) == s[k]);
        }
    }
}

/// Scoring no better is transitive once the middle candidate covers at
/// least one position.
proof fn lemma_ratio_le_trans(
    x: (int, int, Direction),
    y: (int, int, Direction),
    z: (int, int, Direction),
)
    requires
        x.0 >= 0,
        x.1 >= 0,
        y.0 >= 0,
        y.1 >= 0,
        z.0 >= 0,
        z.1 >= 0,
        y.0 + y.1 >= 1,
        ratio_le(x, y),
        ratio_le(y, z),
    ensures
        ratio_le(x, z),
{
    assert(x.0 * (z.0 + z.1) <= z.0 * (x.0 + x.1)) by (nonlinear_arith)
        requires
            x.0 >= 0,
            x.1 >= 0,
            y.0 >= 0,
            y.1 >= 0,
            z.0 >= 0,
            z.1 >= 0,
            y.0 + y.1 >= 1,
            x.0 * (y.0 + y.1) <= y.0 * (x.0 + x.1),
            y.0 * (z.0 + z.1) <= z.0 * (y.0 + y.1),
    ;
}

/// No candidate of the cell scores better than the chosen best.
proof fn lemma_best_of_max(s: Seq<(int, int, Direction)>)
    requires
        s.len() >= 1,
        forall|k: int|
            0 <= k < s.len() ==> {
                let e = #[trigger] s[k];
                e.0 >= 0 && e.1 >= 0 && e.0 + e.1 >= 1
            },
    ensures
        forall|k: int| 0 <= k < s.len() ==> ratio_le(#[trigger] s[k], best_of(s)),
    decreases s.len(),
{
    if s.len() == 1 {
    } else {
        let a = s.drop_last();
        assert forall|k: int| 0 <= k < a.len() implies {
            let e = #[trigger] a[k];
            e.0 >= 0 && e.1 >= 0 && e.0 + e.1 >= 1
        } by {
            assert(a[k] == s[k]);
        }
        lemma_best_of_max(a);
        lemma_best_of_member(a);
        let b = best_of(a);
        let kb = choose|k: int| 0 <= k < a.len() && b == a[k];
        if ratio_le(b, s.last()) {
            assert(best_of(s) == s.last());
            assert forall|k: int| 0 <= k < s.len() implies ratio_le(
                #[trigger] s[k],
                best_of(s),
            ) by {
                if k < s.len() - 1 {
                    assert(a[k] == s[k]);
                    assert(ratio_le(a[k], b));
                    lemma_ratio_le_trans(s[k], b, s.last());
                }
            }
        } else {
            assert(best_of(s) == b);
            assert(ratio_le(s.last(), b));
            assert forall|k: int| 0 <= k < s.len() implies ratio_le(
                #[trigger] s[k],
                best_of(s),
            ) by {
                if k < s.len() - 1 {
                    assert(a[k] == s[k]);
                    assert(ratio_le(a[k], b));
                }
            }
        }
    }
}

/// Appending the same tail to both sequences extends every final candidate
/// by one match per tail element.
proof fn lemma_cells_tail_shift<T: PartialEqSpec>(p: Seq<T>, q: Seq<T>, t: Seq<T>, k: int)
    requires
        0 <= k <= t.len(),
        forall|a: int| 0 <= a < t.len() ==> #[trigger] t[a].eq_spec(&t[a]),
    ensures
        ({
            let base = cells(p + t, q + t, false, p.len() as int, q.len() as int);
            cells(p + t, q + t, false, p.len() + k, q.len() + k) == Seq::new(
                base.len(),
                |x: int|
                    (
                        base[x].0 + k,
                        base[x].1,
                        if k == 0 {
                            base[x].2
                        } else {
                            Direction::Diag
                        },
                    ),
            )
        }),
    decreases k,
{
    let base = cells(p + t, q + t, false, p.len() as int, q.len() as int);
    if k == 0 {
        assert(cells(p + t, q + t, false, p.len() as int, q.len() as int) =~= Seq::new(
            base.len(),
            |x: int| (base[x].0 + 0, base[x].1, base[x].2),
        ));
    } else {
        lemma_cells_tail_shift(p, q, t, k - 1);
        let i = p.len() + k;
        let j = q.len() + k;
        assert((p + t)[i - 1] == t[k - 1]);
        assert((q + t)[j - 1] == t[k - 1]);
        assert((p + t)[i - 1].eq_spec(&(q + t)[j - 1]));
        let prev = cells(p + t, q + t, false, i - 1, j - 1);
        assert(cells(p + t, q + t, false, i, j) =~= Seq::new(
            base.len(),
            |x: int| (base[x].0 + k, base[x].1, Direction::Diag),
        ));
    }
}

/// With the collapse policy off, appending the same tail to both the
/// expected and the typed sequence cannot lower the fraction of matching
/// positions: the score of the extended alignment is at least the old one.
pub proof fn lemma_align_extends<T: PartialEqSpec>(p: Seq<T>, q: Seq<T>, t: Seq<T>)
    requires
        forall|a: int| 0 <= a < t.len() ==> #[trigger] t[a].eq_spec(&t[a]),
    ensures
        ({
            let bo = best_of(cells(p, q, false, p.len() as int, q.len() as int));
            let bn = best_of(
                cells(
                    p + t,
                    q + t,
                    false,
                    p.len() + t.len() as int,
                    q.len() + t.len() as int,
                ),
            );
            bo.0 * (bn.0 + bn.1) <= bn.0 * (bo.0 + bo.1)
        }),
{
    let n = p.len() as int;
    let m = q.len() as int;
    let k = t.len() as int;
    assert forall|a: int, b: int|
        0 <= a < n && 0 <= b < m implies #[trigger] p[a].eq_spec(&q[b]) == (p + t)[a].eq_spec(
        &(q + t)[b],
    ) by {
        assert((p + t)[a] == p[a]);
        assert((q + t)[b] == q[b]);
    }
    lemma_cells_window(p, q, p + t, q + t, n, m);
    let base = cells(p + t, q + t, false, n, m);
    assert(base == cells(p, q, false, n, m));
    lemma_cells_nonempty(p, q, false, n, m);
    lemma_cells_tail_shift(p, q, t, k);
    let fin = cells(p + t, q + t, false, n + k, m + k);
    let bo = best_of(base);
    let bn = best_of(fin);
    if k == 0 {
        assert(fin =~= base);
    } else {
        lemma_cells_bounds(p + t, q + t, false, n, m);
        lemma_best_of_member(base);
        let kb = choose|x: int| 0 <= x < base.len() && best_of(base) == base[x];
        assert(fin[kb] == (bo.0 + k, bo.1, Direction::Diag));
        assert forall|x: int| 0 <= x < fin.len() implies {
            let e = #[trigger] fin[x];
            e.0 >= 0 && e.1 >= 0 && e.0 + e.1 >= 1
        } by {
            assert(fin[x] == (base[x].0 + k, base[x].1, Direction::Diag));
            assert(0 <= base[x].0 && 0 <= base[x].1);
        }
        lemma_best_of_max(fin);
        assert(ratio_le(fin[kb], bn));
        assert((bo.0 + k) * (bn.0 + bn.1) <= bn.0 * ((bo.0 + k) + bo.1));
        lemma_best_of_member(fin);
        let kn = choose|x: int| 0 <= x < fin.len() && best_of(fin) == fin[x];
        assert(fin[kn] == (base[kn].0 + k, base[kn].1, Direction::Diag));
        assert(bn.0 >= 0 && bn.1 >= 0);
        assert(bo.0 * (bn.0 + bn.1) <= bn.0 * (bo.0 + bo.1)) by (nonlinear_arith)
            requires
                (bo.0 + k) * (bn.0 + bn.1) <= bn.0 * ((bo.0 + k) + bo.1),
                k >= 1,
                bn.1 >= 0,
                bn.0 + bn.1 >= 0,
        ;
    }
}

} // verus!