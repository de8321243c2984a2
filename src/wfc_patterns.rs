//! Pattern extraction and the adjacency table for wave-function-collapse
//! resynthesis.
use vstd::prelude::*;

use crate::map::{idx_of, Grid, TileType};

verus! {

/// Width and height of a pattern, in cells.
pub const CHUNK_SIZE: usize = 8;

/// Cells of one pattern.
pub const CHUNK_CELLS: usize = 64;

/// Patterns side by side across the grid.
pub const CHUNKS_X: usize = 10;

/// Patterns one above the other down the grid.
pub const CHUNKS_Y: usize = 5;

/// Source tile seen at column `x`, row `y` of the window over chunk `(cx, cy)`,
/// mirrored left to right and top to bottom as asked.
pub open spec fn window_tile(tiles: Seq<TileType>, cx: int, cy: int, flip_h: bool, flip_v: bool, k: int) -> TileType {
    let x = k % 8;
    let y = k / 8;
    let sx = if flip_h { 7 - x } else { x };
    let sy = if flip_v { 7 - y } else { y };
    tiles[idx_of(cx * 8 + sx, cy * 8 + sy)]
}

/// The window over chunk `(cx, cy)`, row by row.
pub open spec fn window(tiles: Seq<TileType>, cx: int, cy: int, flip_h: bool, flip_v: bool) -> Seq<TileType> {
    Seq::new(64, |k: int| window_tile(tiles, cx, cy, flip_h, flip_v, k))
}

/// A window that extraction takes: a chunk of the grid, mirrored only where
/// mirroring is on.
pub open spec fn is_window(tiles: Seq<TileType>, include_flipping: bool, w: Seq<TileType>) -> bool {
    exists|cx: int, cy: int, fh: bool, fv: bool|
        0 <= cx < CHUNKS_X && 0 <= cy < CHUNKS_Y && (include_flipping || (!fh && !fv)) && w
            == #[trigger] window(tiles, cx, cy, fh, fv)
}

/// Window number `j` in extraction order: chunks row by row, each followed by its
/// mirror images when there are four variants.
pub open spec fn nth_window(tiles: Seq<TileType>, n_variants: int, j: int) -> Seq<TileType> {
    let chunk = j / n_variants;
    let v = j % n_variants;
    window(tiles, chunk % 10, chunk / 10, v == 1 || v == 3, v >= 2)
}

/// How many of the first `w` windows hold exactly the tiles `pat`.
pub open spec fn window_count(tiles: Seq<TileType>, n_variants: int, w: int, pat: Seq<TileType>) -> nat
    decreases w,
{
    if w <= 0 {
        0
    } else {
        window_count(tiles, n_variants, w - 1, pat) + if nth_window(tiles, n_variants, w - 1) == pat {
            1nat
        } else {
            0nat
        }
    }
}

/// A window counted among the first `w` is one of them.
proof fn lemma_counted_window(tiles: Seq<TileType>, n_variants: int, w: int, pat: Seq<TileType>)
    requires
        window_count(tiles, n_variants, w, pat) > 0,
    ensures
        exists|j: int| 0 <= j < w && #[trigger] nth_window(tiles, n_variants, j) == pat,
    decreases w,
{
    if w > 0 {
        if nth_window(tiles, n_variants, w - 1) != pat {
            lemma_counted_window(tiles, n_variants, w - 1, pat);
            let j = choose|j: int| 0 <= j < w - 1 && #[trigger] nth_window(tiles, n_variants, j) == pat;
            assert(0 <= j < w);
        }
    }
}

/// Some pattern of the list holds exactly these tiles.
pub open spec fn has_pattern(pats: Seq<Vec<TileType>>, w: Seq<TileType>) -> bool {
    exists|p: int| 0 <= p < pats.len() && #[trigger] pats[p]@ == w
}

/// The distinct patterns of a grid and how often each was seen.
pub struct PatternSet {
    pub patterns: Vec<Vec<TileType>>,
    pub counts: Vec<u32>,
}

impl PatternSet {
    /// Every pattern has 64 cells and was seen at least once; few enough to weigh.
    pub open spec fn wf(&self) -> bool {
        &&& self.patterns@.len() == self.counts@.len()
        &&& 1 <= self.patterns@.len() <= 200
        &&& forall|p: int| 0 <= p < self.patterns@.len() ==> #[trigger] self.patterns@[p]@.len() == 64
        &&& forall|p: int| 0 <= p < self.counts@.len() ==> 1 <= #[trigger] self.counts@[p] <= 200
    }
}

/// The window over chunk `(cx, cy)`, mirrored as asked.
fn extract_window(map: &Grid, cx: usize, cy: usize, flip_h: bool, flip_v: bool) -> (r: Vec<TileType>)
    requires
        map.wf(),
        cx < CHUNKS_X,
        cy < CHUNKS_Y,
    ensures
        r@ == window(map.tiles@, cx as int, cy as int, flip_h, flip_v),
{
    let mut r: Vec<TileType> = Vec::with_capacity(64);
    let mut k: usize = 0;
    while k < 64
        invariant
            map.wf(),
            cx < CHUNKS_X,
            cy < CHUNKS_Y,
            0 <= k <= 64,
            r@.len() == k,
            forall|j: int| 0 <= j < k ==> #[trigger] r@[j] == window_tile(map.tiles@, cx as int, cy as int, flip_h, flip_v, j),
        decreases 64 - k,
    {
        let x = k % 8;
        let y = k / 8;
        let sx = if flip_h { 7 - x } else { x };
        let sy = if flip_v { 7 - y } else { y };
        let idx = (cy * 8 + sy) * 80 + cx * 8 + sx;
        r.push(map.tiles[idx]);
        k = k + 1;
    }
    assert(r@ =~= window(map.tiles@, cx as int, cy as int, flip_h, flip_v));
    r
}

/// Whether two patterns hold the same tiles.
fn same_pattern(a: &Vec<TileType>, b: &Vec<TileType>) -> (r: bool)
    ensures
        r == (a@ == b@),
{
    if a.len() != b.len() {
        return false;
    }
    let mut k: usize = 0;
    while k < a.len()
        invariant
            a@.len() == b@.len(),
            0 <= k <= a@.len(),
            forall|j: int| 0 <= j < k ==> a@[j] == b@[j],
        decreases a@.len() - k,
    {
        if a[k] != b[k] {
            return false;
        }
        k = k + 1;
    }
    assert(a@ =~= b@);
    true
}

/// Slides the window chunk by chunk over the grid, with its three mirror images
/// where `include_flipping` is set; keeps each pattern once where `dedupe` is set,
/// counting how often it was seen.
pub fn build_patterns(map: &Grid, include_flipping: bool, dedupe: bool) -> (r: PatternSet)
    requires
        map.wf(),
    ensures
        r.wf(),
        forall|p: int| 0 <= p < r.patterns@.len() ==> is_window(map.tiles@, include_flipping, #[trigger] r.patterns@[p]@),
        forall|cx: int, cy: int, fh: bool, fv: bool|
            0 <= cx < CHUNKS_X && 0 <= cy < CHUNKS_Y && (include_flipping || (!fh && !fv))
                ==> has_pattern(r.patterns@, #[trigger] window(map.tiles@, cx, cy, fh, fv)),
        dedupe ==> forall|p: int, q: int|
            0 <= p < q < r.patterns@.len() ==> #[trigger] r.patterns@[p]@ != #[trigger] r.patterns@[q]@,
        dedupe ==> forall|p: int|
            0 <= p < r.patterns@.len() ==> #[trigger] r.counts@[p] == window_count(
                map.tiles@,
                if include_flipping { 4 } else { 1 },
                if include_flipping { 200 } else { 50 },
                r.patterns@[p]@,
            ),
{
    let mut patterns: Vec<Vec<TileType>> = Vec::new();
    let mut counts: Vec<u32> = Vec::new();
    let n_variants: usize = if include_flipping { 4 } else { 1 };
    let mut w: usize = 0;
    while w < 50 * n_variants
        invariant
            map.wf(),
            n_variants == if include_flipping { 4usize } else { 1usize },
            0 <= w <= 50 * n_variants,
            patterns@.len() == counts@.len(),
            patterns@.len() <= w,
            w > 0 ==> patterns@.len() >= 1,
            forall|p: int| 0 <= p < patterns@.len() ==> #[trigger] patterns@[p]@.len() == 64,
            forall|p: int| 0 <= p < counts@.len() ==> 1 <= #[trigger] counts@[p] <= w,
            forall|p: int| 0 <= p < patterns@.len() ==> is_window(map.tiles@, include_flipping, #[trigger] patterns@[p]@),
            forall|j: int| 0 <= j < w ==> has_pattern(patterns@, #[trigger] nth_window(map.tiles@, n_variants as int, j)),
            dedupe ==> forall|p: int, q: int|
                0 <= p < q < patterns@.len() ==> #[trigger] patterns@[p]@ != #[trigger] patterns@[q]@,
            dedupe ==> forall|p: int|
                0 <= p < patterns@.len() ==> #[trigger] counts@[p] == window_count(
                    map.tiles@,
                    n_variants as int,
                    w as int,
                    patterns@[p]@,
                ),
        decreases 50 * n_variants - w,
    {
        let chunk = w / n_variants;
        let variant = w % n_variants;
        let cx = chunk % 10;
        let cy = chunk / 10;
        let flip_h = variant == 1 || variant == 3;
        let flip_v = variant >= 2;
        let pat = extract_window(map, cx, cy, flip_h, flip_v);
        assert(is_window(map.tiles@, include_flipping, pat@));
        let mut found: usize = patterns.len();
        if dedupe {
            let mut p: usize = 0;
            while p < patterns.len()
                invariant
                    0 <= p <= patterns@.len(),
                    found == patterns@.len() || (found < patterns@.len() && patterns@[found as int]@ == pat@),
                    found == patterns@.len() ==> forall|q: int| 0 <= q < p ==> #[trigger] patterns@[q]@ != pat@,
                decreases patterns@.len() - p,
            {
                if found == patterns.len() && same_pattern(&patterns[p], &pat) {
                    found = p;
                }
                p = p + 1;
            }
        }
        let ghost before = patterns@;
        assert(pat@ == nth_window(map.tiles@, n_variants as int, w as int));
        let ghost counts_before = counts@;
        if found < patterns.len() {
            let c = counts[found];
            counts.set(found, c + 1);
            assert(has_pattern(patterns@, pat@));
            proof {
                if dedupe {
                    assert forall|p: int|
                        0 <= p < patterns@.len() implies #[trigger] counts@[p] == window_count(
                            map.tiles@,
                            n_variants as int,
                            w as int + 1,
                            patterns@[p]@,
                        ) by {
                        assert(counts_before[p] == window_count(map.tiles@, n_variants as int, w as int, patterns@[p]@));
                        if p != found as int {
                            if found < p {
                                assert(patterns@[found as int]@ != patterns@[p]@);
                            } else {
                                assert(patterns@[p]@ != patterns@[found as int]@);
                            }
                        }
                    }
                }
            }
        } else {
            patterns.push(pat);
            counts.push(1);
            assert(patterns@[before.len() as int]@ == pat@);
            assert(has_pattern(patterns@, pat@));
            proof {
                if dedupe {
                    if window_count(map.tiles@, n_variants as int, w as int, pat@) > 0 {
                        lemma_counted_window(map.tiles@, n_variants as int, w as int, pat@);
                        let j = choose|j: int| 0 <= j < w && #[trigger] nth_window(map.tiles@, n_variants as int, j) == pat@;
                        assert(has_pattern(before, nth_window(map.tiles@, n_variants as int, j)));
                        let q = choose|q: int| 0 <= q < before.len() && #[trigger] before[q]@ == pat@;
                        assert(before[q]@ != pat@);
                    }
                    assert forall|p: int|
                        0 <= p < patterns@.len() implies #[trigger] counts@[p] == window_count(
                            map.tiles@,
                            n_variants as int,
                            w as int + 1,
                            patterns@[p]@,
                        ) by {
                        if p < before.len() {
                            assert(counts@[p] == counts_before[p]);
                            assert(patterns@[p] == before[p]);
                            assert(before[p]@ != pat@);
                        }
                    }
                }
            }
            assert forall|j: int| 0 <= j < w implies has_pattern(patterns@, #[trigger] nth_window(map.tiles@, n_variants as int, j)) by {
                let wj = nth_window(map.tiles@, n_variants as int, j);
                assert(has_pattern(before, wj));
                let p = choose|p: int| 0 <= p < before.len() && #[trigger] before[p]@ == wj;
                assert(patterns@[p] == before[p]);
            }
        }
        w = w + 1;
    }
    assert forall|cx: int, cy: int, fh: bool, fv: bool|
        0 <= cx < CHUNKS_X && 0 <= cy < CHUNKS_Y && (include_flipping || (!fh && !fv)) implies has_pattern(
            patterns@,
            #[trigger] window(map.tiles@, cx, cy, fh, fv),
        ) by {
        let v: int = if include_flipping {
            (if fh { 1int } else { 0int }) + (if fv { 2int } else { 0int })
        } else {
            0
        };
        let j = (cy * 10 + cx) * n_variants + v;
        assert(j / n_variants as int == cy * 10 + cx) by (nonlinear_arith)
            requires
                j == (cy * 10 + cx) * n_variants + v,
                0 <= v < n_variants,
                n_variants > 0,
        ;
        assert(j % n_variants as int == v) by (nonlinear_arith)
            requires
                j == (cy * 10 + cx) * n_variants + v,
                0 <= v < n_variants,
                n_variants > 0,
        ;
        assert((cy * 10 + cx) % 10 == cx);
        assert((cy * 10 + cx) / 10 == cy);
        assert(0 <= j < w) by (nonlinear_arith)
            requires
                j == (cy * 10 + cx) * n_variants + v,
                0 <= v < n_variants,
                0 <= cx < 10,
                0 <= cy < 5,
                w == 50 * n_variants,
        ;
        assert((j % n_variants as int == 1 || j % n_variants as int == 3) == fh);
        assert(nth_window(map.tiles@, n_variants as int, j) == window(map.tiles@, cx, cy, fh, fv));
        assert(has_pattern(patterns@, nth_window(map.tiles@, n_variants as int, j)));
    }
    PatternSet { patterns, counts }
}

} // verus!
