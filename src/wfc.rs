//! Wave-function-collapse resynthesis: a new grid assembled from the patterns of an
//! existing one, each pattern's edges matching those of its neighbours.
use rltk::RandomNumberGenerator;
use vstd::prelude::*;

use crate::common::{make_boundary_walls, xy_idx};
use crate::connectivity::valid_idx;
use crate::level::{clear_stairs, finalize_level, is_playable};
use crate::map::{col_of, idx_of, row_of, Grid, TileType, MAP_COUNT, MAP_HEIGHT, MAP_WIDTH};
use crate::random_table::{roll_weighted, weight_sum};
use crate::regions::{generate_voronoi_spawn_regions, regions_partition_floor};
use crate::wfc_patterns::{build_patterns, PatternSet};
use vstd::arithmetic::div_mod::{lemma_fundamental_div_mod, lemma_fundamental_div_mod_converse};

verus! {

/// Number of chunk cells that the solver fills.
pub const CHUNK_COUNT: usize = 50;

/// Solves started at most before resynthesis gives up.
pub const MAX_ATTEMPTS: u32 = 100;

/// Marks a chunk cell that holds no pattern yet.
pub const UNCHOSEN: usize = 0xffff_ffff;

/// Cell `k` (of eight) along edge `dir` of a pattern: 0 top row, 1 right column,
/// 2 bottom row, 3 left column.
pub open spec fn edge_cell(dir: int, k: int) -> int {
    if dir == 0 {
        k
    } else if dir == 1 {
        k * 8 + 7
    } else if dir == 2 {
        56 + k
    } else {
        k * 8
    }
}

/// The edge facing edge `dir`.
pub open spec fn opposite(dir: int) -> int {
    if dir < 2 {
        dir + 2
    } else {
        dir - 2
    }
}

/// Pattern `b` may lie beyond edge `dir` of pattern `a`: the touching edges hold the
/// same tiles, cell for cell.
pub open spec fn edges_match(a: Seq<TileType>, dir: int, b: Seq<TileType>) -> bool {
    forall|k: int| 0 <= k < 8 ==> #[trigger] a[edge_cell(dir, k)] == b[edge_cell(opposite(dir), k)]
}

/// Matching edges is the same relation seen from either side.
pub proof fn lemma_edges_match_symmetric(a: Seq<TileType>, dir: int, b: Seq<TileType>)
    requires
        0 <= dir < 4,
    ensures
        edges_match(a, dir, b) == edges_match(b, opposite(dir), a),
{
    assert(opposite(opposite(dir)) == dir);
    if edges_match(a, dir, b) {
        assert forall|k: int| 0 <= k < 8 implies #[trigger] b[edge_cell(opposite(dir), k)] == a[edge_cell(
            opposite(opposite(dir)),
            k,
        )] by {
            assert(a[edge_cell(dir, k)] == b[edge_cell(opposite(dir), k)]);
        }
    }
    if edges_match(b, opposite(dir), a) {
        assert forall|k: int| 0 <= k < 8 implies #[trigger] a[edge_cell(dir, k)] == b[edge_cell(opposite(dir), k)] by {
            assert(b[edge_cell(opposite(dir), k)] == a[edge_cell(opposite(opposite(dir)), k)]);
        }
    }
}

/// `c[p][dir][q]` says whether pattern `q` may lie beyond edge `dir` of pattern `p`.
pub open spec fn compat_table(c: Seq<Vec<Vec<bool>>>, pats: Seq<Vec<TileType>>) -> bool {
    &&& c.len() == pats.len()
    &&& forall|p: int| 0 <= p < c.len() ==> #[trigger] c[p]@.len() == 4
    &&& forall|p: int, d: int| 0 <= p < c.len() && 0 <= d < 4 ==> #[trigger] c[p]@[d]@.len() == pats.len()
    &&& forall|p: int, d: int, q: int|
        0 <= p < c.len() && 0 <= d < 4 && 0 <= q < pats.len() ==> #[trigger] c[p]@[d]@[q]
            == edges_match(pats[p]@, d, pats[q]@)
}

/// Whether pattern `b` may lie beyond edge `dir` of pattern `a`.
fn edges_match_exec(a: &Vec<TileType>, dir: usize, b: &Vec<TileType>) -> (r: bool)
    requires
        a@.len() == 64,
        b@.len() == 64,
        dir < 4,
    ensures
        r == edges_match(a@, dir as int, b@),
{
    let od: usize = if dir < 2 { dir + 2 } else { dir - 2 };
    let mut k: usize = 0;
    while k < 8
        invariant
            a@.len() == 64,
            b@.len() == 64,
            dir < 4,
            od as int == opposite(dir as int),
            0 <= k <= 8,
            forall|j: int| 0 <= j < k ==> #[trigger] a@[edge_cell(dir as int, j)] == b@[edge_cell(od as int, j)],
        decreases 8 - k,
    {
        let ia = if dir == 0 { k } else if dir == 1 { k * 8 + 7 } else if dir == 2 { 56 + k } else { k * 8 };
        let ib = if od == 0 { k } else if od == 1 { k * 8 + 7 } else if od == 2 { 56 + k } else { k * 8 };
        assert(ia as int == edge_cell(dir as int, k as int));
        assert(ib as int == edge_cell(od as int, k as int));
        if a[ia] != b[ib] {
            assert(!(a@[edge_cell(dir as int, k as int)] == b@[edge_cell(opposite(dir as int), k as int)]));
            return false;
        }
        k = k + 1;
    }
    true
}

/// For every ordered pair of patterns and every edge, whether the pair may touch there.
pub fn patterns_to_constraints(set: &PatternSet) -> (r: Vec<Vec<Vec<bool>>>)
    requires
        set.wf(),
    ensures
        compat_table(r@, set.patterns@),
{
    let n = set.patterns.len();
    let mut table: Vec<Vec<Vec<bool>>> = Vec::new();
    let mut p: usize = 0;
    while p < n
        invariant
            set.wf(),
            n == set.patterns@.len(),
            0 <= p <= n,
            table@.len() == p,
            forall|pb: int| 0 <= pb < p ==> #[trigger] table@[pb]@.len() == 4,
            forall|pb: int, d: int| 0 <= pb < p && 0 <= d < 4 ==> #[trigger] table@[pb]@[d]@.len() == n,
            forall|pb: int, d: int, q: int|
                0 <= pb < p && 0 <= d < 4 && 0 <= q < n ==> #[trigger] table@[pb]@[d]@[q]
                    == edges_match(set.patterns@[pb]@, d, set.patterns@[q]@),
        decreases n - p,
    {
        let mut sides: Vec<Vec<bool>> = Vec::new();
        let mut d: usize = 0;
        while d < 4
            invariant
                set.wf(),
                n == set.patterns@.len(),
                p < n,
                0 <= d <= 4,
                sides@.len() == d,
                forall|d2: int| 0 <= d2 < d ==> #[trigger] sides@[d2]@.len() == n,
                forall|d2: int, q: int|
                    0 <= d2 < d && 0 <= q < n ==> #[trigger] sides@[d2]@[q] == edges_match(
                        set.patterns@[p as int]@,
                        d2,
                        set.patterns@[q]@,
                    ),
            decreases 4 - d,
        {
            let mut row: Vec<bool> = Vec::new();
            let mut q: usize = 0;
            while q < n
                invariant
                    set.wf(),
                    n == set.patterns@.len(),
                    p < n,
                    d < 4,
                    0 <= q <= n,
                    row@.len() == q,
                    forall|q2: int| 0 <= q2 < q ==> #[trigger] row@[q2] == edges_match(
                        set.patterns@[p as int]@,
                        d as int,
                        set.patterns@[q2]@,
                    ),
                decreases n - q,
            {
                row.push(edges_match_exec(&set.patterns[p], d, &set.patterns[q]));
                q = q + 1;
            }
            sides.push(row);
            d = d + 1;
        }
        table.push(sides);
        p = p + 1;
    }
    table
}

/// The chunk cell beyond edge `dir` of chunk cell `c` on the 10 by 5 chunk grid, or
/// -1 at the border.
pub open spec fn chunk_nb(c: int, dir: int) -> int {
    if dir == 0 {
        if c >= 10 { c - 10 } else { -1 }
    } else if dir == 1 {
        if c % 10 < 9 { c + 1 } else { -1 }
    } else if dir == 2 {
        if c < 40 { c + 10 } else { -1 }
    } else {
        if c % 10 > 0 { c - 1 } else { -1 }
    }
}

/// Neighbourhood on the chunk grid is symmetric.
proof fn lemma_chunk_nb_symmetric(c: int, dir: int)
    requires
        0 <= c < 50,
        0 <= dir < 4,
        chunk_nb(c, dir) >= 0,
    ensures
        0 <= chunk_nb(c, dir) < 50,
        chunk_nb(chunk_nb(c, dir), opposite(dir)) == c,
{
}

/// Every pair of neighbouring chunk cells holds patterns whose touching edges match.
pub open spec fn consistent(pats: Seq<Vec<TileType>>, ch: Seq<usize>) -> bool {
    &&& ch.len() == CHUNK_COUNT
    &&& forall|c: int| 0 <= c < CHUNK_COUNT ==> #[trigger] ch[c] < pats.len()
    &&& forall|c: int, d: int|
        0 <= c < CHUNK_COUNT && 0 <= d < 4 && #[trigger] chunk_nb(c, d) >= 0 ==> edges_match(
            pats[ch[c] as int]@,
            d,
            pats[ch[chunk_nb(c, d)] as int]@,
        )
}

/// The invariant of a solve that has fixed the first `done` chunk cells.
pub open spec fn solver_state(
    compat: Seq<Vec<Vec<bool>>>,
    n: int,
    possible: Seq<Vec<bool>>,
    chosen: Seq<usize>,
    done: int,
) -> bool {
    &&& possible.len() == CHUNK_COUNT
    &&& chosen.len() == CHUNK_COUNT
    &&& 0 <= done <= CHUNK_COUNT
    &&& forall|a: int| 0 <= a < CHUNK_COUNT ==> #[trigger] possible[a]@.len() == n
    &&& forall|a: int| 0 <= a < done ==> #[trigger] chosen[a] < n
    &&& forall|a: int, q: int|
        0 <= a < done && 0 <= q < n ==> #[trigger] possible[a]@[q] == (q == chosen[a] as int)
    &&& forall|a: int, d: int, q: int|
        0 <= a < CHUNK_COUNT && 0 <= d < 4 && 0 <= chunk_nb(a, d) < done && 0 <= q < n
            && #[trigger] possible[a]@[q] ==> #[trigger] compat[q]@[d]@[chosen[chunk_nb(a, d)] as int]
}

/// The shape of the candidate table: 50 chunk cells, `n` patterns each.
pub open spec fn candidates_shape(possible: Seq<Vec<bool>>, n: int) -> bool {
    possible.len() == CHUNK_COUNT && forall|a: int| 0 <= a < CHUNK_COUNT ==> #[trigger] possible[a]@.len() == n
}

/// Every pattern may touch every pattern on every side.
pub open spec fn all_compatible(c: Seq<Vec<Vec<bool>>>, n: int) -> bool {
    forall|p: int, d: int, q: int| 0 <= p < n && 0 <= d < 4 && 0 <= q < n ==> #[trigger] c[p]@[d]@[q]
}

/// Every pattern is still possible in every chunk cell from `done` on.
pub open spec fn full_from(possible: Seq<Vec<bool>>, n: int, done: int) -> bool {
    forall|a: int, q: int| done <= a < CHUNK_COUNT && 0 <= q < n ==> #[trigger] possible[a]@[q]
}

/// Every chunk cell still has a possible pattern: `w[a]` for cell `a`.
pub open spec fn none_empty(possible: Seq<Vec<bool>>, n: int, w: Seq<int>) -> bool {
    w.len() == CHUNK_COUNT && forall|a: int|
        0 <= a < CHUNK_COUNT ==> 0 <= #[trigger] w[a] < n && possible[a]@[w[a]]
}

/// Propagation steps taken at most after one collapse.
pub const MAX_PROPAGATION_STEPS: u32 = 20000;

/// Cascades the removals outward from chunk cell `start`: each chunk cell from `done`
/// on keeps only the patterns that some pattern still possible in a changed neighbour
/// allows beyond their shared edge, and a cell that changed passes the change on.
/// Returns false where a cell is left with no possible pattern.
fn cascade(
    possible: &mut Vec<Vec<bool>>,
    compat: &Vec<Vec<Vec<bool>>>,
    n: usize,
    done: usize,
    start: usize,
    witness: Ghost<Seq<int>>,
) -> (r: bool)
    requires
        candidates_shape(old(possible)@, n as int),
        compat@.len() == n,
        forall|p: int| 0 <= p < n ==> #[trigger] compat@[p]@.len() == 4,
        forall|p: int, d: int| 0 <= p < n && 0 <= d < 4 ==> #[trigger] compat@[p]@[d]@.len() == n,
        done <= CHUNK_COUNT,
        start < CHUNK_COUNT,
        n >= 1,
    ensures
        candidates_shape(final(possible)@, n as int),
        forall|a: int| 0 <= a < done ==> #[trigger] final(possible)@[a] == old(possible)@[a],
        forall|a: int, q: int|
            0 <= a < CHUNK_COUNT && 0 <= q < n && #[trigger] final(possible)@[a]@[q] ==> old(possible)@[a]@[q],
        all_compatible(compat@, n as int) && full_from(old(possible)@, n as int, done as int) && none_empty(
            old(possible)@,
            n as int,
            witness@,
        ) ==> r && forall|a: int, q: int|
            0 <= a < CHUNK_COUNT && 0 <= q < n ==> #[trigger] final(possible)@[a]@[q] == old(possible)@[a]@[q],
{
    let ghost cond = all_compatible(compat@, n as int) && full_from(old(possible)@, n as int, done as int)
        && none_empty(old(possible)@, n as int, witness@);
    let mut queue: Vec<usize> = Vec::new();
    queue.push(start);
    let mut fuel: u32 = MAX_PROPAGATION_STEPS;
    while queue.len() > 0 && fuel > 0
        invariant
            candidates_shape(possible@, n as int),
            compat@.len() == n,
            forall|p: int| 0 <= p < n ==> #[trigger] compat@[p]@.len() == 4,
            forall|p: int, d: int| 0 <= p < n && 0 <= d < 4 ==> #[trigger] compat@[p]@[d]@.len() == n,
            done <= CHUNK_COUNT,
            forall|k: int| 0 <= k < queue@.len() ==> #[trigger] queue@[k] < CHUNK_COUNT,
            queue@.len() <= 10000,
            forall|a: int| 0 <= a < done ==> #[trigger] possible@[a] == old(possible)@[a],
            forall|a: int, q: int|
                0 <= a < CHUNK_COUNT && 0 <= q < n && #[trigger] possible@[a]@[q] ==> old(possible)@[a]@[q],
            n >= 1,
            cond == (all_compatible(compat@, n as int) && full_from(old(possible)@, n as int, done as int)
                && none_empty(old(possible)@, n as int, witness@)),
            cond ==> forall|a: int, q: int|
                0 <= a < CHUNK_COUNT && 0 <= q < n ==> #[trigger] possible@[a]@[q] == old(possible)@[a]@[q],
        decreases fuel,
    {
        fuel = fuel - 1;
        let m = match queue.pop() {
            Some(m) => m,
            None => {
                return true;
            },
        };
        let mut d: usize = 0;
        while d < 4
            invariant
                candidates_shape(possible@, n as int),
                compat@.len() == n,
                forall|p: int| 0 <= p < n ==> #[trigger] compat@[p]@.len() == 4,
                forall|p: int, d2: int| 0 <= p < n && 0 <= d2 < 4 ==> #[trigger] compat@[p]@[d2]@.len() == n,
                done <= CHUNK_COUNT,
                m < CHUNK_COUNT,
                0 <= d <= 4,
                forall|k: int| 0 <= k < queue@.len() ==> #[trigger] queue@[k] < CHUNK_COUNT,
                queue@.len() <= 10000,
                forall|a: int| 0 <= a < done ==> #[trigger] possible@[a] == old(possible)@[a],
                forall|a: int, q: int|
                    0 <= a < CHUNK_COUNT && 0 <= q < n && #[trigger] possible@[a]@[q] ==> old(possible)@[a]@[q],
                n >= 1,
                cond == (all_compatible(compat@, n as int) && full_from(old(possible)@, n as int, done as int)
                    && none_empty(old(possible)@, n as int, witness@)),
                cond ==> forall|a: int, q: int|
                0 <= a < CHUNK_COUNT && 0 <= q < n ==> #[trigger] possible@[a]@[q] == old(possible)@[a]@[q],
            decreases 4 - d,
        {
            let b: usize = if d == 0 {
                if m >= 10 { m - 10 } else { UNCHOSEN }
            } else if d == 1 {
                if m % 10 < 9 { m + 1 } else { UNCHOSEN }
            } else if d == 2 {
                if m < 40 { m + 10 } else { UNCHOSEN }
            } else {
                if m % 10 > 0 { m - 1 } else { UNCHOSEN }
            };
            if b != UNCHOSEN && b >= done {
                let mut row = possible[b].clone();
                let mut changed = false;
                let mut left = false;
                let mut q: usize = 0;
                while q < n
                    invariant
                        candidates_shape(possible@, n as int),
                        compat@.len() == n,
                        forall|p: int| 0 <= p < n ==> #[trigger] compat@[p]@.len() == 4,
                        forall|p: int, d2: int| 0 <= p < n && 0 <= d2 < 4 ==> #[trigger] compat@[p]@[d2]@.len() == n,
                        m < CHUNK_COUNT,
                        b < CHUNK_COUNT,
                        d < 4,
                        row@.len() == n,
                        0 <= q <= n,
                        forall|j: int| 0 <= j < n && #[trigger] row@[j] ==> possible@[b as int]@[j],
                        b >= done,
                        cond == (all_compatible(compat@, n as int) && full_from(old(possible)@, n as int, done as int)
                            && none_empty(old(possible)@, n as int, witness@)),
                        cond ==> forall|a: int, q: int|
                0 <= a < CHUNK_COUNT && 0 <= q < n ==> #[trigger] possible@[a]@[q] == old(possible)@[a]@[q],
                        cond ==> forall|j: int| 0 <= j < n ==> #[trigger] row@[j] == possible@[b as int]@[j],
                        cond && q > 0 ==> left,
                    decreases n - q,
                {
                    if row[q] {
                        let mut supported = false;
                        let mut p: usize = 0;
                        while p < n && !supported
                            invariant
                                compat@.len() == n,
                                forall|pb: int| 0 <= pb < n ==> #[trigger] compat@[pb]@.len() == 4,
                                forall|pb: int, d2: int| 0 <= pb < n && 0 <= d2 < 4 ==> #[trigger] compat@[pb]@[d2]@.len() == n,
                                candidates_shape(possible@, n as int),
                                m < CHUNK_COUNT,
                                d < 4,
                                q < n,
                                0 <= p <= n,
                                !supported ==> forall|p3: int| 0 <= p3 < p ==> !(possible@[m as int]@[p3] && #[trigger] compat@[p3]@[d as int]@[q as int]),
                            decreases n - p,
                        {
                            if possible[m][p] && compat[p][d][q] {
                                supported = true;
                            }
                            p = p + 1;
                        }
                        proof {
                            if cond && !supported {
                                let qq = witness@[m as int];
                                assert(possible@[m as int]@[qq]);
                                assert(compat@[qq]@[d as int]@[q as int]);
                            }
                        }
                        if !supported {
                            row.set(q, false);
                            changed = true;
                        } else {
                            left = true;
                        }
                    }
                    q = q + 1;
                }
                proof {
                    if cond {
                        assert(possible@[b as int]@[0]);
                    }
                }
                possible.set(b, row);
                if !left {
                    return false;
                }
                if changed && queue.len() < 10000 {
                    queue.push(b);
                }
            }
            d = d + 1;
        }
    }
    true
}

/// Fills the chunk cells in scan order: each takes a pattern drawn by weight from
/// those still possible there, the patterns of its unfilled neighbours that would not
/// match it are struck out, and the removals cascade on. `None` where a cell is left
/// with no possible pattern.
pub fn solve(set: &PatternSet, compat: &Vec<Vec<Vec<bool>>>, rng: &mut RandomNumberGenerator) -> (r:
    Option<Vec<usize>>)
    requires
        set.wf(),
        compat_table(compat@, set.patterns@),
    ensures
        match r {
            Some(ch) => consistent(set.patterns@, ch@),
            None => true,
        },
        all_compatible(compat@, set.patterns@.len() as int) ==> r.is_some(),
{
    let n = set.patterns.len();
    let ghost cond = all_compatible(compat@, n as int);
    let mut possible: Vec<Vec<bool>> = Vec::new();
    let mut chosen: Vec<usize> = Vec::new();
    while possible.len() < CHUNK_COUNT
        invariant
            possible@.len() == chosen@.len(),
            possible@.len() <= CHUNK_COUNT,
            forall|a: int| 0 <= a < possible@.len() ==> #[trigger] possible@[a]@.len() == n,
            forall|a: int, q: int| 0 <= a < possible@.len() && 0 <= q < n ==> #[trigger] possible@[a]@[q],
        decreases CHUNK_COUNT - possible@.len(),
    {
        let mut all: Vec<bool> = Vec::new();
        while all.len() < n
            invariant
                all@.len() <= n,
                forall|q: int| 0 <= q < all@.len() ==> #[trigger] all@[q],
            decreases n - all@.len(),
        {
            all.push(true);
        }
        possible.push(all);
        chosen.push(UNCHOSEN);
    }
    let mut c: usize = 0;
    while c < CHUNK_COUNT
        invariant
            set.wf(),
            compat_table(compat@, set.patterns@),
            n == set.patterns@.len(),
            0 <= c <= CHUNK_COUNT,
            solver_state(compat@, n as int, possible@, chosen@, c as int),
            cond == all_compatible(compat@, n as int),
            cond ==> full_from(possible@, n as int, c as int),
        decreases CHUNK_COUNT - c,
    {
        let mut ws: Vec<u32> = Vec::new();
        let mut q: usize = 0;
        while q < n
            invariant
                set.wf(),
                n == set.patterns@.len(),
                c < CHUNK_COUNT,
                possible@.len() == CHUNK_COUNT,
                possible@[c as int]@.len() == n,
                0 <= q <= n,
                ws@.len() == q,
                forall|k: int| 0 <= k < q ==> #[trigger] ws@[k] == if possible@[c as int]@[k] {
                    set.counts@[k]
                } else {
                    0u32
                },
                forall|k: int| 0 <= k < q ==> #[trigger] ws@[k] <= 200,
            decreases n - q,
        {
            let w = if possible[c][q] {
                set.counts[q]
            } else {
                0
            };
            ws.push(w);
            q = q + 1;
        }
        proof {
            if cond {
                assert forall|j: int| 0 <= j < n implies #[trigger] ws@[j] >= 1 by {
                    assert(possible@[c as int]@[j]);
                    assert(set.counts@[j] >= 1);
                }
            }
        }
        let mut any = false;
        let mut k: usize = 0;
        while k < n
            invariant
                ws@.len() == n,
                n <= 200,
                0 <= k <= n,
                forall|j: int| 0 <= j < n ==> #[trigger] ws@[j] <= 200,
                !any ==> weight_sum(ws@, k as int) == 0,
                any ==> weight_sum(ws@, k as int) >= 1,
                cond ==> forall|j: int| 0 <= j < n ==> #[trigger] ws@[j] >= 1,
                cond && k > 0 ==> any,
            decreases n - k,
        {
            if ws[k] > 0 {
                any = true;
            }
            proof {
                crate::random_table::lemma_weight_sum_monotonic(ws@, k as int, k as int + 1);
            }
            k = k + 1;
        }
        if !any {
            return None;
        }
        let pick = roll_weighted(rng, &ws);
        let ghost pos0 = possible@;
        let ghost ch0 = chosen@;
        let mut one: Vec<bool> = Vec::new();
        while one.len() < n
            invariant
                one@.len() <= n,
                forall|j: int| 0 <= j < one@.len() ==> #[trigger] one@[j] == (j == pick as int),
            decreases n - one@.len(),
        {
            let b = one.len() == pick;
            one.push(b);
        }
        possible.set(c, one);
        chosen.set(c, pick);
        let mut d: usize = 0;
        while d < 4
            invariant
                set.wf(),
                compat_table(compat@, set.patterns@),
                n == set.patterns@.len(),
                c < CHUNK_COUNT,
                pick < n,
                pos0[c as int]@[pick as int],
                chosen@ == ch0.update(c as int, pick),
                solver_state(compat@, n as int, pos0, ch0, c as int),
                possible@.len() == CHUNK_COUNT,
                possible@[c as int]@.len() == n,
                forall|j: int| 0 <= j < n ==> #[trigger] possible@[c as int]@[j] == (j == pick as int),
                forall|a: int| 0 <= a < CHUNK_COUNT ==> #[trigger] possible@[a]@.len() == n,
                forall|a: int, q2: int|
                    0 <= a < CHUNK_COUNT && a != c && 0 <= q2 < n && #[trigger] possible@[a]@[q2] ==> pos0[a]@[q2],
                forall|a: int, q2: int|
                    0 <= a < c && 0 <= q2 < n ==> #[trigger] possible@[a]@[q2] == pos0[a]@[q2],
                0 <= d <= 4,
                cond == all_compatible(compat@, n as int),
                cond ==> full_from(possible@, n as int, c as int + 1),
                forall|d2: int, q2: int|
                    0 <= d2 < d && chunk_nb(c as int, d2) > c && 0 <= q2 < n && #[trigger] possible@[chunk_nb(c as int, d2)]@[q2]
                        ==> #[trigger] compat@[q2]@[opposite(d2)]@[pick as int],
            decreases 4 - d,
        {
            let nb: usize = if d == 0 {
                if c >= 10 { c - 10 } else { UNCHOSEN }
            } else if d == 1 {
                if c % 10 < 9 { c + 1 } else { UNCHOSEN }
            } else if d == 2 {
                if c < 40 { c + 10 } else { UNCHOSEN }
            } else {
                if c % 10 > 0 { c - 1 } else { UNCHOSEN }
            };
            assert(nb == UNCHOSEN || nb as int == chunk_nb(c as int, d as int));
            if nb != UNCHOSEN && nb > c {
                let od: usize = if d < 2 { d + 2 } else { d - 2 };
                let mut row = possible[nb].clone();
                let mut q2: usize = 0;
                while q2 < n
                    invariant
                        compat_table(compat@, set.patterns@),
                        n == set.patterns@.len(),
                        pick < n,
                        od < 4,
                        row@.len() == n,
                        nb < CHUNK_COUNT,
                        possible@.len() == CHUNK_COUNT,
                        possible@[nb as int]@.len() == n,
                        0 <= q2 <= n,
                        forall|j: int| 0 <= j < n ==> #[trigger] row@[j] ==> possible@[nb as int]@[j],
                        forall|j: int| 0 <= j < q2 && #[trigger] row@[j] ==> compat@[j]@[od as int]@[pick as int],
                        cond == all_compatible(compat@, n as int),
                        cond ==> forall|j: int| 0 <= j < n ==> #[trigger] row@[j],
                    decreases n - q2,
                {
                    if row[q2] && !compat[q2][od][pick] {
                        row.set(q2, false);
                    }
                    q2 = q2 + 1;
                }
                possible.set(nb, row);
            }
            d = d + 1;
        }
        proof {
            assert forall|a: int, dd: int, q3: int|
                0 <= a < CHUNK_COUNT && 0 <= dd < 4 && 0 <= chunk_nb(a, dd) < c + 1 && 0 <= q3 < n
                    && #[trigger] possible@[a]@[q3] implies #[trigger] compat@[q3]@[dd]@[chosen@[chunk_nb(a, dd)] as int] by {
                let b = chunk_nb(a, dd);
                if b < c {
                    if a == c {
                        assert(q3 == pick as int);
                    } else {
                        assert(pos0[a]@[q3]);
                    }
                } else {
                    assert(b == c);
                    lemma_chunk_nb_symmetric(a, dd);
                    let d2 = opposite(dd);
                    assert(chunk_nb(c as int, d2) == a);
                    if a < c {
                        assert(q3 == ch0[a] as int);
                        assert(pos0[c as int]@[pick as int]);
                        assert(compat@[pick as int]@[d2]@[ch0[a] as int]);
                        lemma_edges_match_symmetric(set.patterns@[pick as int]@, d2, set.patterns@[q3]@);
                        assert(opposite(d2) == dd);
                    } else {
                        assert(opposite(d2) == dd);
                    }
                }
            }
            assert(solver_state(compat@, n as int, possible@, chosen@, c as int + 1));
        }
        let ghost before_cascade = possible@;
        proof {
            if cond {
                let pp = possible@;
                let wit = Seq::new(CHUNK_COUNT as nat, |a: int| if a < c + 1 { chosen@[a] as int } else { 0 });
                assert forall|a: int| 0 <= a < CHUNK_COUNT implies 0 <= #[trigger] wit[a] < n && pp[a]@[wit[a]] by {
                    if a < c + 1 {
                        assert(chosen@[a] < n);
                        assert(pp[a]@[chosen@[a] as int]);
                    } else {
                        assert(pp[a]@[0]);
                    }
                }
                assert(none_empty(pp, n as int, wit));
            }
        }
        let ghost wit = Seq::new(CHUNK_COUNT as nat, |a: int| if a < c + 1 { chosen@[a] as int } else { 0 });
        let ok = cascade(&mut possible, compat, n, c + 1, c, Ghost(wit));
        proof {
            if cond {
                assert(full_from(before_cascade, n as int, c as int + 1));
                assert(none_empty(before_cascade, n as int, wit));
                assert(ok);
                assert forall|a: int, q: int| c + 1 <= a < CHUNK_COUNT && 0 <= q < n implies #[trigger] possible@[a]@[q] by {
                    assert(before_cascade[a]@[q]);
                }
            }
            assert forall|a: int, q3: int|
                0 <= a < c + 1 && 0 <= q3 < n implies #[trigger] possible@[a]@[q3] == (q3 == chosen@[a] as int) by {
                assert(possible@[a] == before_cascade[a]);
            }
            assert forall|a: int, dd: int, q3: int|
                0 <= a < CHUNK_COUNT && 0 <= dd < 4 && 0 <= chunk_nb(a, dd) < c + 1 && 0 <= q3 < n
                    && #[trigger] possible@[a]@[q3] implies #[trigger] compat@[q3]@[dd]@[chosen@[chunk_nb(a, dd)] as int] by {
                assert(before_cascade[a]@[q3]);
            }
        }
        if !ok {
            return None;
        }
        c = c + 1;
    }
    proof {
        assert forall|a: int, dd: int|
            0 <= a < CHUNK_COUNT && 0 <= dd < 4 && #[trigger] chunk_nb(a, dd) >= 0 implies edges_match(
                set.patterns@[chosen@[a] as int]@,
                dd,
                set.patterns@[chosen@[chunk_nb(a, dd)] as int]@,
            ) by {
            lemma_chunk_nb_symmetric(a, dd);
            assert(possible@[a]@[chosen@[a] as int]);
            assert(compat@[chosen@[a] as int]@[dd]@[chosen@[chunk_nb(a, dd)] as int]);
        }
    }
    Some(chosen)
}

/// Chunk cell that grid cell `i` falls in (for rows above 40).
pub open spec fn chunk_of(i: int) -> int {
    (row_of(i) / 8) * 10 + col_of(i) / 8
}

/// Position of grid cell `i` within its chunk, row by row.
pub open spec fn offset_in_chunk(i: int) -> int {
    (row_of(i) % 8) * 8 + col_of(i) % 8
}

/// Grid cell at position `k` of chunk cell `c`.
pub open spec fn chunk_pos(c: int, k: int) -> int {
    crate::map::idx_of((c % 10) * 8 + k % 8, (c / 10) * 8 + k / 8)
}

/// The 64 tiles of chunk cell `c`, row by row.
pub open spec fn chunk_view(tiles: Seq<TileType>, c: int) -> Seq<TileType> {
    Seq::new(64, |k: int| tiles[chunk_pos(c, k)])
}

/// Chunk positions and grid cells correspond.
pub proof fn lemma_chunk_pos(c: int, k: int)
    requires
        0 <= c < 50,
        0 <= k < 64,
    ensures
        valid_idx(chunk_pos(c, k)),
        row_of(chunk_pos(c, k)) < 40,
        chunk_of(chunk_pos(c, k)) == c,
        offset_in_chunk(chunk_pos(c, k)) == k,
{
    let x = (c % 10) * 8 + k % 8;
    let y = (c / 10) * 8 + k / 8;
    lemma_fundamental_div_mod(c, 10);
    lemma_fundamental_div_mod(k, 8);
    assert(0 <= c % 10 < 10 && 0 <= c / 10 < 5);
    assert(0 <= k % 8 < 8 && 0 <= k / 8 < 8);
    crate::connectivity::lemma_idx_coords(x, y);
    lemma_fundamental_div_mod_converse(x, 8, c % 10, k % 8);
    lemma_fundamental_div_mod_converse(y, 8, c / 10, k / 8);
}

/// Writes each chunk cell's pattern into rows `0..40` of the grid; the rows below
/// are left alone.
fn render(map: &mut Grid, set: &PatternSet, ch: &Vec<usize>)
    requires
        old(map).wf(),
        set.wf(),
        consistent(set.patterns@, ch@),
    ensures
        crate::common::keeps_all_but_tiles(old(map), final(map)),
        forall|i: int|
            #![trigger final(map).tiles@[i]]
            valid_idx(i) ==> final(map).tiles@[i] == if row_of(i) < 40 {
                set.patterns@[ch@[chunk_of(i)] as int]@[offset_in_chunk(i)]
            } else {
                old(map).tiles@[i]
            },
{
    let mut i: usize = 0;
    while i < MAP_COUNT
        invariant
            crate::common::keeps_all_but_tiles(old(map), map),
            set.wf(),
            consistent(set.patterns@, ch@),
            0 <= i <= MAP_COUNT,
            forall|j: int|
                #![trigger map.tiles@[j]]
                valid_idx(j) ==> map.tiles@[j] == if j < i && row_of(j) < 40 {
                    set.patterns@[ch@[chunk_of(j)] as int]@[offset_in_chunk(j)]
                } else {
                    old(map).tiles@[j]
                },
        decreases MAP_COUNT - i,
    {
        let row = i / 80;
        let col = i % 80;
        if row < 40 {
            let c = (row / 8) * 10 + col / 8;
            let k = (row % 8) * 8 + col % 8;
            let t = set.patterns[ch[c]][k];
            map.tiles.set(i, t);
        }
        i = i + 1;
    }
}

/// Every window of the source may lie beside every window, on every side: no draw
/// can lead the solver into a contradiction.
pub open spec fn windows_all_match(source: Seq<TileType>) -> bool {
    forall|w1: Seq<TileType>, w2: Seq<TileType>, d: int|
        #![trigger edges_match(w1, d, w2)]
        crate::wfc_patterns::is_window(source, true, w1) && crate::wfc_patterns::is_window(source, true, w2) && 0
            <= d < 4 ==> edges_match(w1, d, w2)
}

/// A new grid for the given depth, assembled from the patterns of `source` (stairs
/// read as floor): each chunk of rows `0..40` holds a window of the source, possibly
/// mirrored, and the touching edges of neighbouring chunks match. `None` where every
/// one of `MAX_ATTEMPTS` solves ran into a contradiction.
pub fn resynthesize(source: &Grid, depth: i32, rng: &mut RandomNumberGenerator) -> (r: Option<Grid>)
    requires
        source.wf(),
    ensures
        match r {
            Some(g) => {
                &&& g.wf()
                &&& g.depth == depth
                &&& forall|c: int|
                    0 <= c < CHUNK_COUNT ==> crate::wfc_patterns::is_window(
                        source.tiles@,
                        true,
                        #[trigger] chunk_view(g.tiles@, c),
                    )
                &&& forall|c: int, d: int|
                    0 <= c < CHUNK_COUNT && 0 <= d < 4 && #[trigger] chunk_nb(c, d) >= 0 ==> edges_match(
                        chunk_view(g.tiles@, c),
                        d,
                        chunk_view(g.tiles@, chunk_nb(c, d)),
                    )
            },
            None => true,
        },
        windows_all_match(source.tiles@) ==> r.is_some(),
{
    let set = build_patterns(source, true, true);
    let compat = patterns_to_constraints(&set);
    proof {
        if windows_all_match(source.tiles@) {
            assert forall|p: int, d: int, q: int|
                0 <= p < set.patterns@.len() && 0 <= d < 4 && 0 <= q < set.patterns@.len() implies #[trigger] compat@[p]@[d]@[q] by {
                assert(crate::wfc_patterns::is_window(source.tiles@, true, set.patterns@[p]@));
                assert(crate::wfc_patterns::is_window(source.tiles@, true, set.patterns@[q]@));
                assert(edges_match(set.patterns@[p]@, d, set.patterns@[q]@));
            }
            assert(all_compatible(compat@, set.patterns@.len() as int));
        }
    }
    let mut attempt: u32 = 0;
    while attempt < MAX_ATTEMPTS
        invariant
            set.wf(),
            compat_table(compat@, set.patterns@),
            windows_all_match(source.tiles@) ==> all_compatible(compat@, set.patterns@.len() as int) && attempt == 0,
            forall|p: int| 0 <= p < set.patterns@.len() ==> crate::wfc_patterns::is_window(source.tiles@, true, #[trigger] set.patterns@[p]@),
        decreases MAX_ATTEMPTS - attempt,
    {
        match solve(&set, &compat, rng) {
            Some(ch) => {
                let mut out = Grid::new(depth);
                render(&mut out, &set, &ch);
                proof {
                    assert forall|c: int| 0 <= c < CHUNK_COUNT implies #[trigger] chunk_view(out.tiles@, c)
                        == set.patterns@[ch@[c] as int]@ by {
                        assert forall|k: int| 0 <= k < 64 implies chunk_view(out.tiles@, c)[k]
                            == set.patterns@[ch@[c] as int]@[k] by {
                            lemma_chunk_pos(c, k);
                            assert(out.tiles@[chunk_pos(c, k)] == set.patterns@[ch@[c] as int]@[k]);
                        }
                        assert(chunk_view(out.tiles@, c) =~= set.patterns@[ch@[c] as int]@);
                    }
                    assert forall|c: int| 0 <= c < CHUNK_COUNT implies crate::wfc_patterns::is_window(
                        source.tiles@,
                        true,
                        #[trigger] chunk_view(out.tiles@, c),
                    ) by {
                        assert(chunk_view(out.tiles@, c) == set.patterns@[ch@[c] as int]@);
                    }
                    assert forall|c: int, d: int|
                        0 <= c < CHUNK_COUNT && 0 <= d < 4 && #[trigger] chunk_nb(c, d) >= 0 implies edges_match(
                            chunk_view(out.tiles@, c),
                            d,
                            chunk_view(out.tiles@, chunk_nb(c, d)),
                        ) by {
                        lemma_chunk_nb_symmetric(c, d);
                        assert(chunk_view(out.tiles@, c) == set.patterns@[ch@[c] as int]@);
                        assert(chunk_view(out.tiles@, chunk_nb(c, d)) == set.patterns@[ch@[chunk_nb(c, d)] as int]@);
                    }
                }
                return Some(out);
            },
            None => {},
        }
        attempt = attempt + 1;
    }
    None
}

/// Resynthesizes an existing level with wave function collapse.
pub struct WaveFunctionCollapseBuilder {
    pub map: Grid,
}

impl WaveFunctionCollapseBuilder {
    /// A builder for the given depth, whose source is still an empty grid.
    pub fn new(new_depth: i32) -> (r: WaveFunctionCollapseBuilder)
        ensures
            r.map.wf(),
            r.map.depth == new_depth,
    {
        WaveFunctionCollapseBuilder { map: Grid::new(new_depth) }
    }

    /// The builder with `map` as the source to learn patterns from.
    pub fn add(self, map: Grid) -> (r: WaveFunctionCollapseBuilder)
        ensures
            r.map == map,
    {
        WaveFunctionCollapseBuilder { map }
    }

    /// Learns the source's patterns (stairs read as floor), assembles a new grid from
    /// them, walls its ring, enters at the first floor cell walking left from the
    /// centre, finishes the level and groups its floor by noise key. `None` where no
    /// solve succeeded.
    pub fn build(&self, rng: &mut RandomNumberGenerator, noise_keys: &Vec<i32>) -> (r: Option<Grid>)
        requires
            self.map.wf(),
            noise_keys@.len() == MAP_COUNT,
        ensures
            match r {
                Some(g) => {
                    &&& is_playable(&g)
                    &&& regions_partition_floor(g.tiles@, g.regions@)
                    &&& g.depth == self.map.depth
                    &&& exists|a: Seq<TileType>|
                        {
                            &&& a.len() == MAP_COUNT
                            &&& assembled_from(a, stairs_as_floor(self.map.tiles@))
                            &&& forall|i: int|
                                #![trigger g.tiles@[i]]
                                valid_idx(i) && g.tiles@[i] == TileType::Floor ==> a[i] != TileType::Wall
                        }
                },
                None => true,
            },
            windows_all_match(stairs_as_floor(self.map.tiles@)) ==> r.is_some(),
    {
        let mut source = Grid::new(self.map.depth);
        let mut i: usize = 0;
        while i < MAP_COUNT
            invariant
                source.wf(),
                self.map.wf(),
                source.depth == self.map.depth,
                0 <= i <= MAP_COUNT,
                forall|j: int| 0 <= j < i ==> #[trigger] source.tiles@[j] == self.map.tiles@[j],
            decreases MAP_COUNT - i,
        {
            source.tiles.set(i, self.map.tiles[i]);
            i = i + 1;
        }
        clear_stairs(&mut source);
        assert(source.tiles@ =~= stairs_as_floor(self.map.tiles@));
        let mut map = match resynthesize(&source, source.depth, rng) {
            Some(g) => g,
            None => {
                return None;
            },
        };
        let ghost a = map.tiles@;
        assert(assembled_from(a, stairs_as_floor(self.map.tiles@)));
        make_boundary_walls(&mut map);
        let ghost walled = map.tiles@;
        let start_y: i32 = MAP_HEIGHT / 2;
        let mut start_x: i32 = MAP_WIDTH / 2;
        while start_x > 1 && map.tiles[xy_idx(start_x, start_y)] != TileType::Floor
            invariant
                map.wf(),
                map.tiles@ == walled,
                1 <= start_x <= 40,
                start_y == 21,
            decreases start_x,
        {
            start_x = start_x - 1;
        }
        map.take_snapshot();
        finalize_level(&mut map, start_x, start_y, None);
        proof {
            assert forall|i: int|
                #![trigger map.tiles@[i]]
                valid_idx(i) && map.tiles@[i] == TileType::Floor implies a[i] != TileType::Wall by {
                let pr = crate::level::prepared(walled, idx_of(start_x as int, 21));
                assert(pr[i] == crate::level::prepared_tile(walled, idx_of(start_x as int, 21), i));
            }
        }
        map.take_snapshot();
        map.regions = generate_voronoi_spawn_regions(&map, noise_keys);
        Some(map)
    }
}

/// The tiles with stairs read as floor.
pub open spec fn stairs_as_floor(t: Seq<TileType>) -> Seq<TileType> {
    Seq::new(
        t.len(),
        |i: int|
            if t[i] == TileType::UpStairs || t[i] == TileType::DownStairs {
                TileType::Floor
            } else {
                t[i]
            },
    )
}

/// The grid that resynthesis assembles from `source`: each chunk a window of the
/// source, the touching edges of neighbouring chunks matching.
pub open spec fn assembled_from(g: Seq<TileType>, source: Seq<TileType>) -> bool {
    &&& forall|c: int|
        0 <= c < CHUNK_COUNT ==> crate::wfc_patterns::is_window(source, true, #[trigger] chunk_view(g, c))
    &&& forall|c: int, d: int|
        0 <= c < CHUNK_COUNT && 0 <= d < 4 && #[trigger] chunk_nb(c, d) >= 0 ==> edges_match(
            chunk_view(g, c),
            d,
            chunk_view(g, chunk_nb(c, d)),
        )
}

/// A finished level is a well-formed grid, which is all that
/// `WaveFunctionCollapseBuilder::build` asks of its source: resynthesis can be run
/// again on its own output. (That each run's result is a finished level is
/// `build`'s own contract.)
pub proof fn lemma_resynthesis_repeatable(first: Grid)
    requires
        is_playable(&first),
    ensures
        first.wf(),
        (WaveFunctionCollapseBuilder { map: first }).map.wf(),
{
}

} // verus!
