use vstd::prelude::*;

use super::bitgrid::BitGrid;
use super::rle::{append_rle_run, cell_char, decimal, encode_row, encode_runs, push_decimal, row_runs};
use super::text::{chars_to_string, str_equal, text_chars};
use super::rle::LifeRlePattern;
use super::components::{
    bfs_inv, closed_under_touch, component_of, connected, count_false, in_grid, index_of,
    lemma_closed_holds_component, lemma_connected_refl, lemma_connected_step, lemma_count_false_set,
    live_at, pos_of, touching, reached_before, is_component_root, detections_prefix,
    spec_detections, listing_of, lemma_connected_live, lemma_connected_sym, lemma_connected_trans,
};
use super::patterns::{
    classify_group, classify_points, lemma_spread_of_bounded, detection_view, lemma_classify_same_set, upts,
    PatternDetection,
};
use std::collections::VecDeque;
use crate::simulation::{spec_wrap_index, wrap_index};

verus! {

/// 1 for a live cell, 0 for a dead one.
pub open spec fn alive_count(b: bool) -> int {
    if b {
        1
    } else {
        0
    }
}

/// The cell at `(x, y)` on the `w` by `h` torus described by `cells`.
pub open spec fn torus_cell(cells: Seq<bool>, w: int, h: int, x: int, y: int) -> bool {
    cells[spec_wrap_index(x, y, w, h)]
}

/// Number of live cells among the eight torus neighbours of `(x, y)`.
pub open spec fn spec_neighbor_count(cells: Seq<bool>, w: int, h: int, x: int, y: int) -> int {
    alive_count(torus_cell(cells, w, h, x - 1, y - 1)) + alive_count(
        torus_cell(cells, w, h, x, y - 1),
    ) + alive_count(torus_cell(cells, w, h, x + 1, y - 1)) + alive_count(
        torus_cell(cells, w, h, x - 1, y),
    ) + alive_count(torus_cell(cells, w, h, x + 1, y)) + alive_count(
        torus_cell(cells, w, h, x - 1, y + 1),
    ) + alive_count(torus_cell(cells, w, h, x, y + 1)) + alive_count(
        torus_cell(cells, w, h, x + 1, y + 1),
    )
}

/// Conway's rule B3/S23: a dead cell with three neighbours is born, a live
/// cell with two or three neighbours survives, every other cell is dead.
pub open spec fn life_rule(alive: bool, neighbors: int) -> bool {
    (alive && (neighbors == 2 || neighbors == 3)) || (!alive && neighbors == 3)
}

/// One generation of B3/S23 on the `w` by `h` torus.
pub open spec fn life_step(cells: Seq<bool>, w: int, h: int) -> Seq<bool> {
    Seq::new(
        cells.len(),
        |i: int| life_rule(cells[i], spec_neighbor_count(cells, w, h, i % w, i / w)),
    )
}

/// Offsets of the starting figure; each is placed at `(cx + dx, cy + dy)`
/// and mirrored to `(cx - dx, cy + dy)`.
pub open spec fn seed_offset(k: int) -> (int, int) {
    if k == 0 {
        (0, 0)
    } else if k == 1 {
        (1, 0)
    } else if k == 2 {
        (2, 0)
    } else if k == 3 {
        (2, 1)
    } else if k == 4 {
        (1, 2)
    } else if k == 5 {
        (-8, -5)
    } else if k == 6 {
        (-8, -4)
    } else if k == 7 {
        (-8, -3)
    } else if k == 8 {
        (-7, -3)
    } else {
        (-6, -4)
    }
}

/// Grid index of the `k`-th seed offset mirrored by `s` (1 or -1).
pub open spec fn seed_index(w: int, h: int, k: int, s: int) -> int {
    spec_wrap_index(w / 2 + seed_offset(k).0 * s, h / 2 + seed_offset(k).1, w, h)
}

/// Whether cell `i` is one of the first `n` placed seed cells (two per offset,
/// in the order offset 0 right, offset 0 left, offset 1 right, ...).
pub open spec fn seeded_before(w: int, h: int, n: int, i: int) -> bool {
    exists|k: int, s: int|
        0 <= k < 10 && (s == 1 || s == -1) && seed_order(k, s) < n && #[trigger] seed_index(
            w,
            h,
            k,
            s,
        ) == i
}

/// Position of the (offset `k`, mirror `s`) seed cell in placement order.
pub open spec fn seed_order(k: int, s: int) -> int {
    2 * k + (if s == -1 {
        0int
    } else {
        1int
    })
}

/// The mirrored starting figure on an otherwise empty `w` by `h` torus.
pub open spec fn symmetric_seed(w: int, h: int) -> Seq<bool> {
    Seq::new((w * h) as nat, |i: int| seeded_before(w, h, 20, i))
}

/// Live cells in row-major order among the first `n` cells, as `(x, y)`.
pub open spec fn live_points_prefix(cells: Seq<bool>, w: int, n: int) -> Seq<(usize, usize)>
    decreases n,
{
    if n <= 0 {
        Seq::empty()
    } else {
        let rest = live_points_prefix(cells, w, n - 1);
        if cells[n - 1] {
            rest.push((((n - 1) % w) as usize, ((n - 1) / w) as usize))
        } else {
            rest
        }
    }
}

/// Starting value of the state hash.
pub open spec fn hash_basis() -> u64 {
    0xcbf2_9ce4_8422_2325u64
}

/// Multiplier of the state hash.
pub open spec fn hash_prime() -> u64 {
    0x0000_0100_0000_01b3u64
}

/// Hash of the first `n` cells: each live cell's index is xored in and the
/// result multiplied by the prime, modulo 2^64.
pub open spec fn hash_prefix(cells: Seq<bool>, n: int) -> u64
    decreases n,
{
    if n <= 0 {
        hash_basis()
    } else {
        let h = hash_prefix(cells, n - 1);
        if cells[n - 1] {
            ((((h ^ ((n - 1) as u64)) as nat) * (hash_prime() as nat)) % 0x1_0000_0000_0000_0000)
                as u64
        } else {
            h
        }
    }
}

/// Cell `(x, y)` of a row-major grid `w` cells wide.
pub open spec fn grid_cell(cells: Seq<bool>, w: int, x: int, y: int) -> bool {
    cells[y * w + x]
}

/// Whether any cell of the grid is live.
pub open spec fn has_live(cells: Seq<bool>, w: int, h: int) -> bool {
    exists|x: int, y: int| 0 <= x < w && 0 <= y < h && #[trigger] grid_cell(cells, w, x, y)
}

/// `b = (min_x, min_y, max_x, max_y)` is the smallest rectangle holding every
/// live cell.
pub open spec fn is_live_bounds(cells: Seq<bool>, w: int, h: int, b: (int, int, int, int)) -> bool {
    &&& 0 <= b.0 <= b.2 < w
    &&& 0 <= b.1 <= b.3 < h
    &&& forall|x: int, y: int|
        0 <= x < w && 0 <= y < h && #[trigger] grid_cell(cells, w, x, y) ==> b.0 <= x <= b.2 && b.1
            <= y <= b.3
    &&& exists|y: int| 0 <= y < h && #[trigger] grid_cell(cells, w, b.0, y)
    &&& exists|x: int| 0 <= x < w && #[trigger] grid_cell(cells, w, x, b.1)
    &&& exists|y: int| 0 <= y < h && #[trigger] grid_cell(cells, w, b.2, y)
    &&& exists|x: int| 0 <= x < w && #[trigger] grid_cell(cells, w, x, b.3)
}

/// The smallest rectangle holding every live cell (meaningful when there is
/// a live cell).
pub open spec fn live_bounds_of(cells: Seq<bool>, w: int, h: int) -> (int, int, int, int) {
    choose|b: (int, int, int, int)| is_live_bounds(cells, w, h, b)
}

/// Row `y` of the grid between columns `x0` and `x1`, both included.
pub open spec fn row_segment(cells: Seq<bool>, w: int, x0: int, x1: int, y: int) -> Seq<bool> {
    Seq::new((x1 - x0 + 1) as nat, |i: int| grid_cell(cells, w, x0 + i, y))
}

/// Rows `b.1 .. b.1 + k` of the bounding box `b` in run-length form, each
/// followed by `$` except the box's last row.
pub open spec fn rle_rows(cells: Seq<bool>, w: int, b: (int, int, int, int), k: int) -> Seq<char>
    decreases k,
{
    if k <= 0 {
        Seq::empty()
    } else {
        let y = b.1 + k - 1;
        rle_rows(cells, w, b, k - 1) + encode_row(row_segment(cells, w, b.0, b.2, y)) + (if y
            != b.3 {
            seq!['$']
        } else {
            Seq::empty()
        })
    }
}

/// The grid as an RLE text: a header with the size of the bounding box of
/// the live cells and rule `B3/S23`, then the rows of that box, then `!`.
/// A grid without live cells is an empty 0 by 0 pattern.
pub open spec fn rle_text(cells: Seq<bool>, w: int, h: int) -> Seq<char> {
    if !has_live(cells, w, h) {
        "x = 0, y = 0, rule = B3/S23\n!\n"@
    } else {
        let b = live_bounds_of(cells, w, h);
        "x = "@ + decimal((b.2 - b.0 + 1) as nat) + ", y = "@ + decimal((b.3 - b.1 + 1) as nat)
            + ", rule = B3/S23\n"@ + rle_rows(cells, w, b, b.3 - b.1 + 1).push('!') + "\n"@
    }
}

pub(crate) proof fn lemma_live_bounds_unique(cells: Seq<bool>, w: int, h: int, b: (int, int, int, int))
    requires
        is_live_bounds(cells, w, h, b),
    ensures
        live_bounds_of(cells, w, h) == b,
{
    let c = live_bounds_of(cells, w, h);
    assert(is_live_bounds(cells, w, h, c));
    let y0 = choose|y: int| 0 <= y < h && #[trigger] grid_cell(cells, w, b.0, y);
    let y1 = choose|y: int| 0 <= y < h && #[trigger] grid_cell(cells, w, c.0, y);
    let x0 = choose|x: int| 0 <= x < w && #[trigger] grid_cell(cells, w, x, b.1);
    let x1 = choose|x: int| 0 <= x < w && #[trigger] grid_cell(cells, w, x, c.1);
    let y2 = choose|y: int| 0 <= y < h && #[trigger] grid_cell(cells, w, b.2, y);
    let y3 = choose|y: int| 0 <= y < h && #[trigger] grid_cell(cells, w, c.2, y);
    let x2 = choose|x: int| 0 <= x < w && #[trigger] grid_cell(cells, w, x, b.3);
    let x3 = choose|x: int| 0 <= x < w && #[trigger] grid_cell(cells, w, x, c.3);
    assert(c.0 <= b.0 && b.0 <= c.0);
    assert(c.1 <= b.1 && b.1 <= c.1);
    assert(c.2 >= b.2 && b.2 >= c.2);
    assert(c.3 >= b.3 && b.3 >= c.3);
}

/// The most recent entry of `history` (last first) whose hash is `current`
/// and whose step is before `step`, as the number of steps since then.
pub open spec fn latest_repeat(history: Seq<(u64, LifeStateHash)>, step: u64, current: LifeStateHash) -> Option<int>
    decreases history.len(),
{
    if history.len() == 0 {
        None
    } else if history.last().1 == current && step > history.last().0 {
        Some(step - history.last().0)
    } else {
        latest_repeat(history.drop_last(), step, current)
    }
}

/// The period of an oscillation: the steps since the latest earlier state
/// with the same hash, when that is at most 32.
pub open spec fn spec_oscillator_period(history: Seq<(u64, LifeStateHash)>, step: u64, current: LifeStateHash) -> Option<u64> {
    match latest_repeat(history, step, current) {
        Some(p) => if p <= 32 {
            Some(p as u64)
        } else {
            None
        },
        None => None,
    }
}

/// Steps since the latest recorded state (scanning `hash_history` from its
/// end) with the same hash as `current_hash`, if that is at most 32.
pub fn detect_oscillator_period(
    hash_history: &[(u64, LifeStateHash)],
    step_count: u64,
    current_hash: LifeStateHash,
) -> (r: Option<u64>)
    ensures
        r == spec_oscillator_period(hash_history@, step_count, current_hash),
{
    let mut i = hash_history.len();
    assert(hash_history@.take(i as int) =~= hash_history@);
    while i > 0
        invariant
            i <= hash_history@.len(),
            latest_repeat(hash_history@, step_count, current_hash) == latest_repeat(
                hash_history@.take(i as int),
                step_count,
                current_hash,
            ),
        decreases i,
    {
        let (step, hash) = hash_history[i - 1];
        assert(hash_history@.take(i as int).drop_last() =~= hash_history@.take(i - 1));
        if hash.0 == current_hash.0 && step_count > step {
            let period = step_count - step;
            if period <= 32 {
                return Some(period);
            } else {
                return None;
            }
        }
        i = i - 1;
    }
    None
}

/// What the pattern detector found on a grid.
pub struct PatternDetectionReport {
    pub detections: Vec<PatternDetection>,
    pub oscillator_period: Option<u64>,
}

/// The first cell column used when a pattern `pw` wide is centred on a grid
/// `w` wide.
pub open spec fn centered_origin(w: int, pw: int) -> int {
    if w > pw {
        (w - pw) / 2
    } else {
        0
    }
}

/// A `w` by `h` grid holding exactly the cells of a pattern `pw` by `ph`,
/// centred (cells that fall outside are dropped).
pub open spec fn centered_cells(w: int, h: int, pw: int, ph: int, cells: Seq<(usize, usize)>) -> Seq<bool> {
    Seq::new(
        (w * h) as nat,
        |i: int|
            exists|k: int|
                0 <= k < cells.len() && #[trigger] cells[k].0 + centered_origin(w, pw) == i % w
                    && cells[k].1 + centered_origin(h, ph) == i / w,
    )
}

/// Byte `k` (0 red, 1 green, 2 blue, 3 alpha) of the plain view of a cell:
/// white when live, dark grey when dead, always opaque.
pub open spec fn raw_pixel_byte(alive: bool, k: int) -> u8 {
    if k == 3 {
        255
    } else if alive {
        255
    } else {
        16
    }
}

/// A fingerprint of a Life grid, used to spot repeated states.
#[derive(Debug, Clone, Copy, PartialEq, Eq, Structural)]
pub struct LifeStateHash(pub u64);

/// Conway's Game of Life on a `w` by `h` torus.
pub struct LifeSim {
    w: usize,
    h: usize,
    cells: BitGrid,
    next: BitGrid,
    pub seed: u64,
}

pub(crate) proof fn lemma_row_major(x: int, y: int, w: int, h: int)
    requires
        0 <= x < w,
        0 <= y < h,
    ensures
        0 <= y * w + x < w * h,
        (y * w + x) % w == x,
        (y * w + x) / w == y,
{
    assert(0 <= y * w + x < w * h) by (nonlinear_arith)
        requires
            0 <= x < w,
            0 <= y < h,
    ;
    vstd::arithmetic::div_mod::lemma_fundamental_div_mod_converse(y * w + x, w, y, x);
}

proof fn lemma_pos_in_grid(i: int, w: int, h: int)
    requires
        0 <= i < w * h,
        0 < w,
    ensures
        0 <= pos_of(w, i).0 < w,
        0 <= pos_of(w, i).1 < h,
        index_of(w, pos_of(w, i)) == i,
{
    vstd::arithmetic::div_mod::lemma_fundamental_div_mod(i, w);
    let q = i / w;
    let r = i % w;
    assert(0 <= r < w);
    assert(q < h) by (nonlinear_arith)
        requires
            i == w * q + r,
            0 <= r < w,
            0 <= i < w * h,
            0 < w,
    ;
    assert(q >= 0) by (nonlinear_arith)
        requires
            i == w * q + r,
            0 <= r < w,
            0 <= i,
            0 < w,
    ;
    assert(q * w + r == i) by (nonlinear_arith)
        requires
            i == w * q + r,
    ;
}

proof fn lemma_mod_mirror(c: int, a: int, b: int, w: int)
    requires
        w > 0,
        (c + a) % w == (c + b) % w,
    ensures
        (c - a) % w == (c - b) % w,
{
    vstd::arithmetic::div_mod::lemma_fundamental_div_mod(c + a, w);
    vstd::arithmetic::div_mod::lemma_fundamental_div_mod(c + b, w);
    vstd::arithmetic::div_mod::lemma_fundamental_div_mod(c - b, w);
    let q1 = (c + a) / w;
    let q2 = (c + b) / w;
    let q3 = (c - b) / w;
    let r3 = (c - b) % w;
    assert(c - a == w * (q3 - q1 + q2) + r3) by (nonlinear_arith)
        requires
            c + a == w * q1 + (c + a) % w,
            c + b == w * q2 + (c + b) % w,
            c - b == w * q3 + r3,
            (c + a) % w == (c + b) % w,
    ;
    vstd::arithmetic::div_mod::lemma_fundamental_div_mod_converse(c - a, w, q3 - q1 + q2, r3);
}

proof fn lemma_wrap_index_parts(x1: int, y1: int, x2: int, y2: int, w: int, h: int)
    requires
        w > 0,
        h > 0,
        spec_wrap_index(x1, y1, w, h) == spec_wrap_index(x2, y2, w, h),
    ensures
        x1 % w == x2 % w,
        y1 % h == y2 % h,
{
    vstd::arithmetic::div_mod::lemma_fundamental_div_mod(x1, w);
    vstd::arithmetic::div_mod::lemma_fundamental_div_mod(x2, w);
    vstd::arithmetic::div_mod::lemma_fundamental_div_mod(y1, h);
    vstd::arithmetic::div_mod::lemma_fundamental_div_mod(y2, h);
    let i = spec_wrap_index(x1, y1, w, h);
    vstd::arithmetic::div_mod::lemma_fundamental_div_mod_converse(i, w, y1 % h, x1 % w);
    vstd::arithmetic::div_mod::lemma_fundamental_div_mod_converse(i, w, y2 % h, x2 % w);
}

proof fn lemma_seed_mirror_half(w: int, h: int, d: int, y: int)
    requires
        w > 0,
        h > 0,
        seeded_before(w, h, 20, spec_wrap_index(w / 2 + d, y, w, h)),
    ensures
        seeded_before(w, h, 20, spec_wrap_index(w / 2 - d, y, w, h)),
{
    let i = spec_wrap_index(w / 2 + d, y, w, h);
    let (k, s) = choose|k: int, s: int|
        0 <= k < 10 && (s == 1 || s == -1) && seed_order(k, s) < 20 && #[trigger] seed_index(
            w,
            h,
            k,
            s,
        ) == i;
    let cx = w / 2;
    let e = seed_offset(k).0 * s;
    lemma_wrap_index_parts(cx + e, h / 2 + seed_offset(k).1, cx + d, y, w, h);
    lemma_mod_mirror(cx, e, d, w);
    assert(seed_offset(k).0 * (-s) == -e) by (nonlinear_arith)
        requires
            e == seed_offset(k).0 * s,
    ;
    assert(seed_index(w, h, k, -s) == spec_wrap_index(cx - d, y, w, h));
    assert(seed_order(k, -s) < 20);
}

/// The starting figure is mirror-symmetric about the middle column: on the
/// torus, column `w / 2 + d` and column `w / 2 - d` of any row agree.
pub proof fn law_symmetric_seed_is_mirrored(w: int, h: int, d: int, y: int)
    requires
        w > 0,
        h > 0,
    ensures
        torus_cell(symmetric_seed(w, h), w, h, w / 2 + d, y) == torus_cell(
            symmetric_seed(w, h),
            w,
            h,
            w / 2 - d,
            y,
        ),
{
    let a = spec_wrap_index(w / 2 + d, y, w, h);
    let b = spec_wrap_index(w / 2 - d, y, w, h);
    vstd::arithmetic::div_mod::lemma_fundamental_div_mod(w / 2 + d, w);
    vstd::arithmetic::div_mod::lemma_fundamental_div_mod(w / 2 - d, w);
    vstd::arithmetic::div_mod::lemma_fundamental_div_mod(y, h);
    lemma_row_major((w / 2 + d) % w, y % h, w, h);
    lemma_row_major((w / 2 - d) % w, y % h, w, h);
    if seeded_before(w, h, 20, a) {
        lemma_seed_mirror_half(w, h, d, y);
    }
    if seeded_before(w, h, 20, b) {
        assert(w / 2 - d == w / 2 + (-d));
        assert(w / 2 - (-d) == w / 2 + d);
        lemma_seed_mirror_half(w, h, -d, y);
    }
}

/// A generation follows B3/S23 cell by cell: a dead cell becomes live
/// exactly when three of its eight torus neighbours are live, and a live
/// cell stays live exactly when two or three are.
pub proof fn law_step_is_b3_s23(cells: Seq<bool>, w: int, h: int)
    ensures
        life_step(cells, w, h).len() == cells.len(),
        forall|i: int|
            0 <= i < cells.len() && !cells[i] ==> (#[trigger] life_step(cells, w, h)[i]
                <==> spec_neighbor_count(cells, w, h, i % w, i / w) == 3),
        forall|i: int|
            0 <= i < cells.len() && cells[i] ==> (#[trigger] life_step(cells, w, h)[i] <==> (
            spec_neighbor_count(cells, w, h, i % w, i / w) == 2 || spec_neighbor_count(
                cells,
                w,
                h,
                i % w,
                i / w,
            ) == 3)),
{
}

/// Entries of the hash history that cannot match (another hash, or a step
/// not before the current one) are skipped: adding one to the history
/// never changes the detected period.
pub proof fn law_oscillator_skips_non_matching(
    history: Seq<(u64, LifeStateHash)>,
    entry: (u64, LifeStateHash),
    step: u64,
    current: LifeStateHash,
)
    requires
        entry.1 != current || entry.0 >= step,
    ensures
        spec_oscillator_period(history.push(entry), step, current) == spec_oscillator_period(
            history,
            step,
            current,
        ),
{
    assert(history.push(entry).drop_last() =~= history);
}

/// The period is measured from the latest earlier state with the same
/// hash: if entry `i` has the current hash and an earlier step `s`, no later
/// entry matches, and `step - s` is at most 32, the period is `step - s`.
pub proof fn law_oscillator_period_from_latest_match(
    history: Seq<(u64, LifeStateHash)>,
    i: int,
    step: u64,
    current: LifeStateHash,
)
    requires
        0 <= i < history.len(),
        history[i].1 == current,
        history[i].0 < step,
        step - history[i].0 <= 32,
        forall|j: int| i < j < history.len() ==> #[trigger] history[j].1 != current || history[j].0 >= step,
    ensures
        spec_oscillator_period(history, step, current) == Some((step - history[i].0) as u64),
    decreases history.len(),
{
    lemma_latest_repeat_at(history, i, step, current);
}

proof fn lemma_latest_repeat_at(
    history: Seq<(u64, LifeStateHash)>,
    i: int,
    step: u64,
    current: LifeStateHash,
)
    requires
        0 <= i < history.len(),
        history[i].1 == current,
        history[i].0 < step,
        forall|j: int| i < j < history.len() ==> #[trigger] history[j].1 != current || history[j].0 >= step,
    ensures
        latest_repeat(history, step, current) == Some(step - history[i].0),
    decreases history.len(),
{
    if i < history.len() - 1 {
        let rest = history.drop_last();
        assert(history[history.len() - 1] == history.last());
        assert forall|j: int| i < j < rest.len() implies #[trigger] rest[j].1 != current || rest[j].0
            >= step by {
            assert(rest[j] == history[j]);
        }
        assert(rest[i] == history[i]);
        lemma_latest_repeat_at(rest, i, step, current);
    } else {
        assert(history.last() == history[i]);
    }
}

/// A pattern is centred on a larger grid: pattern cell `(x, y)` of a
/// `pw` by `ph` pattern lands on grid cell `(x + (w - pw) / 2,
/// y + (h - ph) / 2)`, and every live grid cell is such a landing place.
pub proof fn law_centred_placement(
    w: int,
    h: int,
    pw: int,
    ph: int,
    cells: Seq<(usize, usize)>,
)
    requires
        0 <= pw < w,
        0 <= ph < h,
    ensures
        centered_cells(w, h, pw, ph, cells).len() == w * h,
        forall|k: int|
            0 <= k < cells.len() && cells[k].0 + (w - pw) / 2 < w && cells[k].1 + (h - ph) / 2 < h
                ==> centered_cells(w, h, pw, ph, cells)[(cells[k].1 + (h - ph) / 2) * w + cells[k].0
                + (w - pw) / 2],
        forall|i: int|
            0 <= i < w * h && #[trigger] centered_cells(w, h, pw, ph, cells)[i] ==> exists|k: int|
                0 <= k < cells.len() && cells[k].0 + (w - pw) / 2 == i % w && cells[k].1 + (h
                    - ph) / 2 == i / w,
{
    assert(0 <= w * h) by (nonlinear_arith)
        requires
            0 < w,
            0 < h,
    ;
    assert forall|k: int|
        0 <= k < cells.len() && cells[k].0 + (w - pw) / 2 < w && cells[k].1 + (h - ph) / 2 < h
            implies centered_cells(w, h, pw, ph, cells)[(cells[k].1 + (h - ph) / 2) * w
            + cells[k].0 + (w - pw) / 2] by {
        let x = cells[k].0 + (w - pw) / 2;
        let y = cells[k].1 + (h - ph) / 2;
        lemma_row_major(x, y, w, h);
        assert(centered_cells(w, h, pw, ph, cells)[y * w + x]);
    }
}

/// With no live cell, a generation creates none: births need neighbours.
pub proof fn law_empty_grid_stays_empty(cells: Seq<bool>, w: int, h: int)
    requires
        w > 0,
        h > 0,
        cells.len() == w * h,
        forall|i: int| 0 <= i < cells.len() ==> !#[trigger] cells[i],
    ensures
        forall|i: int| 0 <= i < cells.len() ==> !#[trigger] life_step(cells, w, h)[i],
{
    assert forall|i: int| 0 <= i < cells.len() implies !#[trigger] life_step(cells, w, h)[i] by {
        let x = i % w;
        let y = i / w;
        assert forall|a: int, b: int| #![trigger spec_wrap_index(a, b, w, h)] true implies 0 <= spec_wrap_index(a, b, w, h) < w * h by {
            vstd::arithmetic::div_mod::lemma_fundamental_div_mod(a, w);
            vstd::arithmetic::div_mod::lemma_fundamental_div_mod(b, h);
            lemma_row_major(a % w, b % h, w, h);
        }
        assert(spec_neighbor_count(cells, w, h, x, y) == 0);
    }
}

impl LifeSim {
    /// The seed handed to the random reset.
    pub closed spec fn spec_seed(&self) -> u64 {
        self.seed
    }

    /// Grid width.
    pub closed spec fn spec_width(&self) -> int {
        self.w as int
    }

    /// Grid height.
    pub closed spec fn spec_height(&self) -> int {
        self.h as int
    }

    /// The cells in row-major order: cell `(x, y)` is at `y * width + x`.
    pub closed spec fn spec_cells(&self) -> Seq<bool> {
        self.cells@
    }

    /// Internal consistency: a non-empty grid whose size fits the machine,
    /// with both buffers holding `w * h` cells.
    pub closed spec fn wf(&self) -> bool {
        &&& 0 < self.w
        &&& 0 < self.h
        &&& self.w * self.h <= isize::MAX
        &&& self.cells.wf()
        &&& self.next.wf()
        &&& self.cells@.len() == self.w * self.h
        &&& self.next@.len() == self.w * self.h
    }

    /// A well-formed grid is non-empty, fits the machine and holds
    /// `width * height` cells.
    pub proof fn lemma_wf_size(&self)
        requires
            self.wf(),
        ensures
            0 < self.spec_width(),
            0 < self.spec_height(),
            self.spec_width() * self.spec_height() <= isize::MAX,
            self.spec_cells().len() == self.spec_width() * self.spec_height(),
    {
    }

    /// A `w` by `h` torus holding the mirrored starting figure.
    pub fn new(w: usize, h: usize, seed: u64) -> (sim: Self)
        requires
            0 < w,
            0 < h,
            w * h <= isize::MAX,
        ensures
            sim.wf(),
            sim.spec_width() == w,
            sim.spec_height() == h,
            sim.spec_seed() == seed,
            sim.spec_cells() == symmetric_seed(w as int, h as int),
    {
        let mut sim = LifeSim {
            w,
            h,
            cells: BitGrid::new(w * h),
            next: BitGrid::new(w * h),
            seed,
        };
        sim.reset_symmetric();
        sim
    }

    /// `(width, height)`.
    pub fn size(&self) -> (r: (usize, usize))
        ensures
            r.0 == self.spec_width(),
            r.1 == self.spec_height(),
    {
        (self.w, self.h)
    }

    /// Kills every cell.
    pub fn clear(&mut self)
        requires
            old(self).wf(),
        ensures
            final(self).wf(),
            final(self).spec_width() == old(self).spec_width(),
            final(self).spec_height() == old(self).spec_height(),
            final(self).spec_seed() == old(self).spec_seed(),
            final(self).spec_cells() == Seq::new(old(self).spec_cells().len(), |i: int| false),
    {
        self.cells.fill(false);
        self.next.fill(false);
    }

    /// Clears the grid and places the mirrored starting figure.
    pub fn reset_symmetric(&mut self)
        requires
            old(self).wf(),
        ensures
            final(self).wf(),
            final(self).spec_width() == old(self).spec_width(),
            final(self).spec_height() == old(self).spec_height(),
            final(self).spec_seed() == old(self).spec_seed(),
            final(self).spec_cells() == symmetric_seed(
                old(self).spec_width(),
                old(self).spec_height(),
            ),
    {
        self.cells.fill(false);
        self.next.fill(false);
        self.seed_symmetric();
    }

    fn seed_symmetric(&mut self)
        requires
            old(self).wf(),
            forall|i: int| 0 <= i < old(self).cells@.len() ==> !#[trigger] old(self).cells@[i],
        ensures
            final(self).wf(),
            final(self).w == old(self).w,
            final(self).h == old(self).h,
            final(self).spec_seed() == old(self).spec_seed(),
            final(self).spec_cells() == symmetric_seed(old(self).w as int, old(self).h as int),
    {
        let w = self.w;
        let h = self.h;
        let cx = w / 2;
        let cy = h / 2;
        let pattern: [(isize, isize); 10] = [
            (0, 0),
            (1, 0),
            (2, 0),
            (2, 1),
            (1, 2),
            (-8, -5),
            (-8, -4),
            (-8, -3),
            (-7, -3),
            (-6, -4),
        ];
        assert(w <= isize::MAX && h <= isize::MAX) by (nonlinear_arith)
            requires
                0 < w,
                0 < h,
                w * h <= isize::MAX,
        ;
        let mut k: usize = 0;
        while k < 10
            invariant
                self.wf(),
                self.w == w,
                self.h == h,
                self.seed == old(self).seed,
                k <= 10,
                cx == w / 2,
                cy == h / 2,
                w <= isize::MAX,
                h <= isize::MAX,
                forall|j: int|
                    0 <= j < 10 ==> (#[trigger] pattern@[j]).0 == seed_offset(j).0
                        && pattern@[j].1 == seed_offset(j).1,
                forall|i: int|
                    0 <= i < self.cells@.len() ==> #[trigger] self.cells@[i] == seeded_before(
                        w as int,
                        h as int,
                        2 * k,
                        i,
                    ),
            decreases 10 - k,
        {
            let (dx, dy) = pattern[k];
            assert(dx == seed_offset(k as int).0 && dy == seed_offset(k as int).1);
            assert(-8 <= dx <= 2 && -5 <= dy <= 2);
            let mut t: usize = 0;
            while t < 2
                invariant
                    self.wf(),
                    self.w == w,
                    self.h == h,
                    self.seed == old(self).seed,
                    k < 10,
                    t <= 2,
                    cx == w / 2,
                    cy == h / 2,
                    w <= isize::MAX,
                    h <= isize::MAX,
                    dx == seed_offset(k as int).0,
                    dy == seed_offset(k as int).1,
                    -8 <= dx <= 2,
                    -5 <= dy <= 2,
                    forall|i: int|
                        0 <= i < self.cells@.len() ==> #[trigger] self.cells@[i]
                            == seeded_before(w as int, h as int, 2 * k + t, i),
                decreases 2 - t,
            {
                let sx: isize = if t == 0 {
                    -1
                } else {
                    1
                };
                let mirrored = if t == 0 {
                    -dx
                } else {
                    dx
                };
                assert(mirrored == dx * sx) by (nonlinear_arith)
                    requires
                        (t == 0 && sx == -1 && mirrored == -dx) || (t != 0 && sx == 1 && mirrored
                            == dx),
                ;
                let x = cx as isize + mirrored;
                let y = cy as isize + dy;
                let idx = wrap_index(x, y, w, h);
                assert(idx == seed_index(w as int, h as int, k as int, sx as int));
                let ghost before = self.cells@;
                self.cells.set(idx, true);
                proof {
                    assert forall|i: int| 0 <= i < self.cells@.len() implies #[trigger] self.cells@[i]
                        == seeded_before(w as int, h as int, 2 * k + t + 1, i) by {
                        if i == idx {
                            assert(seed_index(w as int, h as int, k as int, sx as int) == i);
                        } else {
                            assert(before[i] == self.cells@[i]);
                            if seeded_before(w as int, h as int, 2 * k + t + 1, i) {
                                let (kk, ss) = choose|kk: int, ss: int|
                                    0 <= kk < 10 && (ss == 1 || ss == -1) && seed_order(kk, ss)
                                        < 2 * k + t + 1 && #[trigger] seed_index(
                                        w as int,
                                        h as int,
                                        kk,
                                        ss,
                                    ) == i;
                                if seed_order(kk, ss) == 2 * k + t {
                                    assert(kk == k && ss == sx);
                                }
                            }
                        }
                    }
                }
                t = t + 1;
            }
            k = k + 1;
        }
        proof {
            assert(self.cells@ =~= symmetric_seed(w as int, h as int));
        }
    }

    /// Replaces every cell: cell `i` becomes `alive[i]`.
    pub fn load_cells(&mut self, alive: &[bool])
        requires
            old(self).wf(),
            alive@.len() == old(self).spec_cells().len(),
        ensures
            final(self).wf(),
            final(self).spec_width() == old(self).spec_width(),
            final(self).spec_height() == old(self).spec_height(),
            final(self).spec_seed() == old(self).spec_seed(),
            final(self).spec_cells() == alive@,
    {
        let n = self.cells.len();
        let mut i: usize = 0;
        while i < n
            invariant
                self.wf(),
                self.w == old(self).w,
                self.h == old(self).h,
                self.seed == old(self).seed,
                n == self.cells@.len(),
                alive@.len() == n,
                i <= n,
                forall|j: int| 0 <= j < i ==> self.cells@[j] == alive@[j],
            decreases n - i,
        {
            self.cells.set(i, alive[i]);
            i = i + 1;
        }
        proof {
            assert(self.cells@ =~= alive@);
        }
    }

    /// Reads the cell at row-major index `y * width + x`.
    pub fn get_cell(&self, x: usize, y: usize) -> (b: bool)
        requires
            self.wf(),
            y * self.spec_width() + x < self.spec_cells().len(),
        ensures
            b == self.spec_cells()[y * self.spec_width() + x],
    {
        self.cells.get(y * self.w + x)
    }

    /// Every live cell as `(x, y)`, in row-major order.
    pub fn live_points(&self) -> (points: Vec<(usize, usize)>)
        requires
            self.wf(),
        ensures
            points@ == live_points_prefix(
                self.spec_cells(),
                self.spec_width(),
                self.spec_cells().len() as int,
            ),
    {
        let mut points: Vec<(usize, usize)> = Vec::new();
        let w = self.w;
        let h = self.h;
        let mut y: usize = 0;
        while y < h
            invariant
                self.wf(),
                w == self.w,
                h == self.h,
                y <= h,
                points@ == live_points_prefix(self.cells@, w as int, y * w),
            decreases h - y,
        {
            let mut x: usize = 0;
            while x < w
                invariant
                    self.wf(),
                    w == self.w,
                    h == self.h,
                    y < h,
                    x <= w,
                    points@ == live_points_prefix(self.cells@, w as int, y * w + x),
                decreases w - x,
            {
                proof {
                    lemma_row_major(x as int, y as int, w as int, h as int);
                }
                if self.get_cell(x, y) {
                    points.push((x, y));
                }
                x = x + 1;
            }
            assert(y * w + w == (y + 1) * w) by (nonlinear_arith);
            y = y + 1;
        }
        assert(h * w == w * h) by (nonlinear_arith);
        points
    }

    /// Sets cell `(x, y)`; coordinates outside the grid are ignored.
    pub fn set_cell(&mut self, x: usize, y: usize, alive: bool)
        requires
            old(self).wf(),
        ensures
            final(self).wf(),
            final(self).spec_width() == old(self).spec_width(),
            final(self).spec_height() == old(self).spec_height(),
            final(self).spec_seed() == old(self).spec_seed(),
            final(self).spec_cells() == (if x < old(self).spec_width() && y < old(
                self,
            ).spec_height() {
                old(self).spec_cells().update(y * old(self).spec_width() + x, alive)
            } else {
                old(self).spec_cells()
            }),
    {
        if x >= self.w || y >= self.h {
            return;
        }
        proof {
            lemma_row_major(x as int, y as int, self.w as int, self.h as int);
        }
        let idx = y * self.w + x;
        self.cells.set(idx, alive);
    }

    /// Live neighbours of `(x, y)` on the torus.
    fn neighbor_count(&self, x: usize, y: usize) -> (n: u8)
        requires
            self.wf(),
            x < self.w,
            y < self.h,
        ensures
            n == spec_neighbor_count(self.cells@, self.w as int, self.h as int, x as int, y as int),
    {
        assert(self.w <= isize::MAX && self.h <= isize::MAX) by (nonlinear_arith)
            requires
                0 < self.w,
                0 < self.h,
                self.w * self.h <= isize::MAX,
        ;
        let xi = x as isize;
        let yi = y as isize;
        let mut count: u8 = 0;
        if self.cells.get(wrap_index(xi - 1, yi - 1, self.w, self.h)) {
            count += 1;
        }
        if self.cells.get(wrap_index(xi, yi - 1, self.w, self.h)) {
            count += 1;
        }
        if self.cells.get(wrap_index(xi + 1, yi - 1, self.w, self.h)) {
            count += 1;
        }
        if self.cells.get(wrap_index(xi - 1, yi, self.w, self.h)) {
            count += 1;
        }
        if self.cells.get(wrap_index(xi + 1, yi, self.w, self.h)) {
            count += 1;
        }
        if self.cells.get(wrap_index(xi - 1, yi + 1, self.w, self.h)) {
            count += 1;
        }
        if self.cells.get(wrap_index(xi, yi + 1, self.w, self.h)) {
            count += 1;
        }
        if self.cells.get(wrap_index(xi + 1, yi + 1, self.w, self.h)) {
            count += 1;
        }
        count
    }

    /// Advances one generation of B3/S23 on the torus.
    pub fn step(&mut self)
        requires
            old(self).wf(),
        ensures
            final(self).wf(),
            final(self).spec_width() == old(self).spec_width(),
            final(self).spec_height() == old(self).spec_height(),
            final(self).spec_seed() == old(self).spec_seed(),
            final(self).spec_cells() == life_step(
                old(self).spec_cells(),
                old(self).spec_width(),
                old(self).spec_height(),
            ),
    {
        let w = self.w;
        let h = self.h;
        let ghost cur = self.cells@;
        let mut y: usize = 0;
        while y < h
            invariant
                self.wf(),
                w == self.w,
                h == self.h,
                self.seed == old(self).seed,
                self.cells@ == cur,
                cur == old(self).cells@,
                y <= h,
                forall|j: int|
                    0 <= j < y * w ==> #[trigger] self.next@[j] == life_step(
                        cur,
                        w as int,
                        h as int,
                    )[j],
            decreases h - y,
        {
            let mut x: usize = 0;
            while x < w
                invariant
                    self.wf(),
                    w == self.w,
                    h == self.h,
                    self.seed == old(self).seed,
                    self.cells@ == cur,
                    y < h,
                    x <= w,
                    forall|j: int|
                        0 <= j < y * w + x ==> #[trigger] self.next@[j] == life_step(
                            cur,
                            w as int,
                            h as int,
                        )[j],
                decreases w - x,
            {
                proof {
                    lemma_row_major(x as int, y as int, w as int, h as int);
                }
                let idx = y * w + x;
                let n = self.neighbor_count(x, y);
                let alive = self.cells.get(idx);
                let next_alive = (alive && (n == 2 || n == 3)) || (!alive && n == 3);
                self.next.set(idx, next_alive);
                x = x + 1;
            }
            assert(y * w + w == (y + 1) * w) by (nonlinear_arith);
            y = y + 1;
        }
        proof {
            assert(h * w == w * h) by (nonlinear_arith);
        }
        std::mem::swap(&mut self.cells, &mut self.next);
        proof {
            assert(self.cells@ =~= life_step(cur, w as int, h as int));
        }
    }

    /// Fingerprint of the live cells: see `hash_prefix`.
    pub fn state_hash(&self) -> (r: LifeStateHash)
        requires
            self.wf(),
        ensures
            r.0 == hash_prefix(self.spec_cells(), self.spec_cells().len() as int),
    {
        let mut hash: u64 = 0xcbf2_9ce4_8422_2325u64;
        let n = self.cells.len();
        let mut i: usize = 0;
        while i < n
            invariant
                self.wf(),
                n == self.cells@.len(),
                i <= n,
                hash == hash_prefix(self.cells@, i as int),
            decreases n - i,
        {
            if self.cells.get(i) {
                hash ^= i as u64;
                hash = hash.wrapping_mul(0x0000_0100_0000_01b3u64);
            }
            i = i + 1;
        }
        LifeStateHash(hash)
    }

    /// The smallest rectangle `(min_x, min_y, max_x, max_y)` holding every
    /// live cell, or `None` when no cell is live.
    fn live_bounds(&self) -> (r: Option<(usize, usize, usize, usize)>)
        requires
            self.wf(),
        ensures
            r is None <==> !has_live(self.cells@, self.w as int, self.h as int),
            r matches Some(b) ==> is_live_bounds(
                self.cells@,
                self.w as int,
                self.h as int,
                (b.0 as int, b.1 as int, b.2 as int, b.3 as int),
            ),
    {
        let w = self.w;
        let h = self.h;
        let ghost cells = self.cells@;
        let mut min_x = w;
        let mut min_y = h;
        let mut max_x: usize = 0;
        let mut max_y: usize = 0;
        let mut found = false;
        let ghost mut wx0: int = 0;
        let ghost mut wy0: int = 0;
        let ghost mut wx1: int = 0;
        let ghost mut wy1: int = 0;
        let ghost mut wx2: int = 0;
        let ghost mut wy2: int = 0;
        let ghost mut wx3: int = 0;
        let ghost mut wy3: int = 0;
        let mut y: usize = 0;
        while y < h
            invariant
                self.wf(),
                w == self.w,
                h == self.h,
                cells == self.cells@,
                y <= h,
                !found ==> forall|xx: int, yy: int|
                    0 <= xx < w && 0 <= yy < y ==> !#[trigger] grid_cell(cells, w as int, xx, yy),
                found ==> {
                    &&& min_x <= max_x < w
                    &&& min_y <= max_y < y
                    &&& forall|xx: int, yy: int|
                        0 <= xx < w && 0 <= yy < y && #[trigger] grid_cell(cells, w as int, xx, yy)
                            ==> min_x <= xx <= max_x && min_y <= yy <= max_y
                    &&& 0 <= wy0 < y && grid_cell(cells, w as int, min_x as int, wy0)
                    &&& 0 <= wx1 < w && grid_cell(cells, w as int, wx1, min_y as int)
                    &&& 0 <= wy2 < y && grid_cell(cells, w as int, max_x as int, wy2)
                    &&& 0 <= wx3 < w && grid_cell(cells, w as int, wx3, max_y as int)
                },
            decreases h - y,
        {
            let mut x: usize = 0;
            while x < w
                invariant
                    self.wf(),
                    w == self.w,
                    h == self.h,
                    cells == self.cells@,
                    y < h,
                    x <= w,
                    !found ==> forall|xx: int, yy: int|
                        0 <= xx < w && 0 <= yy <= y && (yy < y || xx < x) ==> !#[trigger] grid_cell(
                            cells,
                            w as int,
                            xx,
                            yy,
                        ),
                    found ==> {
                        &&& min_x <= max_x < w
                        &&& min_y <= max_y <= y
                        &&& forall|xx: int, yy: int|
                            0 <= xx < w && 0 <= yy <= y && (yy < y || xx < x) && #[trigger] grid_cell(
                                cells,
                                w as int,
                                xx,
                                yy,
                            ) ==> min_x <= xx <= max_x && min_y <= yy <= max_y
                        &&& 0 <= wy0 <= y && grid_cell(cells, w as int, min_x as int, wy0)
                        &&& 0 <= wx1 < w && grid_cell(cells, w as int, wx1, min_y as int)
                        &&& 0 <= wy2 <= y && grid_cell(cells, w as int, max_x as int, wy2)
                        &&& 0 <= wx3 < w && grid_cell(cells, w as int, wx3, max_y as int)
                    },
                decreases w - x,
            {
                proof {
                    lemma_row_major(x as int, y as int, w as int, h as int);
                }
                if self.get_cell(x, y) {
                    if !found || x < min_x {
                        min_x = x;
                        proof {
                            wy0 = y as int;
                        }
                    }
                    if !found || y < min_y {
                        min_y = y;
                        proof {
                            wx1 = x as int;
                        }
                    }
                    if !found || x > max_x {
                        max_x = x;
                        proof {
                            wy2 = y as int;
                        }
                    }
                    if !found || y > max_y {
                        max_y = y;
                        proof {
                            wx3 = x as int;
                        }
                    }
                    found = true;
                }
                x = x + 1;
            }
            y = y + 1;
        }
        if found {
            proof {
                assert(grid_cell(cells, w as int, min_x as int, wy0));
                assert(grid_cell(cells, w as int, wx1, min_y as int));
                assert(grid_cell(cells, w as int, max_x as int, wy2));
                assert(grid_cell(cells, w as int, wx3, max_y as int));
            }
            Some((min_x, min_y, max_x, max_y))
        } else {
            None
        }
    }

    /// Appends row `y` between columns `x0` and `x1` in run-length form.
    fn append_row(&self, out: &mut Vec<char>, y: usize, x0: usize, x1: usize)
        requires
            self.wf(),
            x0 <= x1 < self.w,
            y < self.h,
        ensures
            final(out)@ == old(out)@ + encode_row(
                row_segment(self.cells@, self.w as int, x0 as int, x1 as int, y as int),
            ),
    {
        let ghost row = row_segment(self.cells@, self.w as int, x0 as int, x1 as int, y as int);
        let ghost start = out@;
        let mut run_char: Option<char> = None;
        let mut run_count: usize = 0;
        let mut x = x0;
        while x <= x1
            invariant
                self.wf(),
                x0 <= x <= x1 + 1,
                x1 < self.w,
                y < self.h,
                row == row_segment(self.cells@, self.w as int, x0 as int, x1 as int, y as int),
                x == x0 ==> run_char is None && out@ == start,
                x > x0 ==> {
                    let runs = row_runs(row.take(x - x0));
                    &&& runs.len() > 0
                    &&& run_char == Some(cell_char(runs.last().0))
                    &&& run_count == runs.last().1
                    &&& out@ == start + encode_runs(runs.drop_last())
                },
                run_count <= x - x0,
            decreases x1 + 1 - x,
        {
            proof {
                lemma_row_major(x as int, y as int, self.w as int, self.h as int);
            }
            let alive = self.get_cell(x, y);
            let ch = if alive {
                'o'
            } else {
                'b'
            };
            let ghost k = x - x0;
            proof {
                assert(row.take(k + 1).drop_last() =~= row.take(k));
                assert(row[k] == alive);
            }
            if run_char == Some(ch) {
                proof {
                    let runs = row_runs(row.take(k));
                    assert(runs.last().0 == alive) by {
                        if runs.last().0 != alive {
                            assert(cell_char(runs.last().0) != cell_char(alive));
                        }
                    }
                    let runs2 = row_runs(row.take(k + 1));
                    assert(runs2.drop_last() =~= runs.drop_last());
                }
                run_count = run_count + 1;
            } else {
                proof {
                    if k > 0 {
                        let runs = row_runs(row.take(k));
                        assert(runs.last().0 != alive);
                        assert(runs.drop_last().push(runs.last()) =~= runs);
                        let runs2 = row_runs(row.take(k + 1));
                        assert(runs2.drop_last() =~= runs);
                    } else {
                        assert(row.take(k) =~= Seq::<bool>::empty());
                        assert(row_runs(row.take(k + 1)).drop_last() =~= Seq::<(bool, nat)>::empty());
                    }
                }
                append_rle_run(out, run_char, run_count);
                proof {
                    if k > 0 {
                        let runs = row_runs(row.take(k));
                        assert(out@ =~= start + encode_runs(runs));
                    } else {
                        assert(out@ =~= start + encode_runs(Seq::<(bool, nat)>::empty()));
                    }
                }
                run_char = Some(ch);
                run_count = 1;
            }
            x = x + 1;
        }
        proof {
            assert(row.take(x1 - x0 + 1) =~= row);
            let runs = row_runs(row);
            assert(runs.drop_last().push(runs.last()) =~= runs);
        }
        append_rle_run(out, run_char, run_count);
        proof {
            let runs = row_runs(row);
            assert(out@ =~= start + encode_runs(runs));
        }
    }

    /// The live cells as run-length encoded text (see `rle_text`).
    pub fn export_rle(&self) -> (s: String)
        requires
            self.wf(),
        ensures
            s@ == rle_text(self.spec_cells(), self.spec_width(), self.spec_height()),
    {
        let bounds = self.live_bounds();
        match bounds {
            None => {
                let v = text_chars("x = 0, y = 0, rule = B3/S23\n!\n");
                chars_to_string(v)
            },
            Some((min_x, min_y, max_x, max_y)) => {
                proof {
                    lemma_live_bounds_unique(
                        self.cells@,
                        self.w as int,
                        self.h as int,
                        (min_x as int, min_y as int, max_x as int, max_y as int),
                    );
                }
                let ghost b = (min_x as int, min_y as int, max_x as int, max_y as int);
                let width = max_x - min_x + 1;
                let height = max_y - min_y + 1;
                let mut out: Vec<char> = Vec::new();
                let mut y = min_y;
                while y <= max_y
                    invariant
                        self.wf(),
                        min_x <= max_x < self.w,
                        min_y <= y <= max_y + 1,
                        max_y < self.h,
                        b == (min_x as int, min_y as int, max_x as int, max_y as int),
                        out@ == rle_rows(self.cells@, self.w as int, b, y - min_y),
                    decreases max_y + 1 - y,
                {
                    self.append_row(&mut out, y, min_x, max_x);
                    if y != max_y {
                        out.push('$');
                    }
                    proof {
                        let ghost k = y - min_y + 1;
                        assert(out@ =~= rle_rows(self.cells@, self.w as int, b, k));
                    }
                    y = y + 1;
                }
                out.push('!');
                let mut text = text_chars("x = ");
                push_decimal(&mut text, width);
                let t2 = text_chars(", y = ");
                append_chars(&mut text, &t2);
                push_decimal(&mut text, height);
                let t3 = text_chars(", rule = B3/S23\n");
                append_chars(&mut text, &t3);
                append_chars(&mut text, &out);
                let t4 = text_chars("\n");
                append_chars(&mut text, &t4);
                proof {
                    assert(text@ =~= "x = "@ + decimal(width as nat) + ", y = "@ + decimal(
                        height as nat,
                    ) + ", rule = B3/S23\n"@ + rle_rows(
                        self.cells@,
                        self.w as int,
                        b,
                        max_y - min_y + 1,
                    ).push('!') + "\n"@);
                }
                chars_to_string(text)
            },
        }
    }

    /// Marks neighbour `(x + dx, y + dy)` and queues it when it lies on the
    /// grid, is live and is not yet visited.
    fn visit_neighbor(
        &self,
        x: usize,
        y: usize,
        dx: isize,
        dy: isize,
        visited: &mut Vec<bool>,
        queue: &mut VecDeque<(usize, usize)>,
        Ghost(start): Ghost<(int, int)>,
        Ghost(ov): Ghost<Seq<bool>>,
        Ghost(done): Ghost<Seq<(int, int)>>,
    )
        requires
            self.wf(),
            x < self.w,
            y < self.h,
            -1 <= dx <= 1,
            -1 <= dy <= 1,
            !(dx == 0 && dy == 0),
            connected(self.cells@, self.w as int, self.h as int, start, (x as int, y as int)),
            bfs_inv(
                self.cells@,
                self.w as int,
                self.h as int,
                start,
                ov,
                old(visited)@,
                done + upts(old(queue)@),
            ),
        ensures
            bfs_inv(
                self.cells@,
                self.w as int,
                self.h as int,
                start,
                ov,
                final(visited)@,
                done + upts(final(queue)@),
            ),
            forall|i: int| 0 <= i < old(visited)@.len() && #[trigger] old(visited)@[i] ==> final(visited)@[i],
            live_at(
                self.cells@,
                self.w as int,
                self.h as int,
                (x + dx, y + dy),
            ) ==> final(visited)@[index_of(self.w as int, (x + dx, y + dy))],
            count_false(final(visited)@) <= count_false(old(visited)@),
            count_false(final(visited)@) == count_false(old(visited)@) ==> final(queue)@ == old(queue)@,
    {
        let ghost w = self.w as int;
        let ghost h = self.h as int;
        assert(self.w <= isize::MAX && self.h <= isize::MAX) by (nonlinear_arith)
            requires
                0 < self.w,
                0 < self.h,
                self.w * self.h <= isize::MAX,
        ;
        let nx = x as isize + dx;
        let ny = y as isize + dy;
        if nx < 0 || ny < 0 || nx >= self.w as isize || ny >= self.h as isize {
            return;
        }
        let nx = nx as usize;
        let ny = ny as usize;
        proof {
            lemma_row_major(nx as int, ny as int, w, h);
        }
        let idx = ny * self.w + nx;
        if !visited[idx] && self.get_cell(nx, ny) {
            let ghost old_v = visited@;
            let ghost old_all = done + upts(queue@);
            let ghost q = (nx as int, ny as int);
            visited.set(idx, true);
            queue.push_back((nx, ny));
            proof {
                lemma_count_false_set(old_v, idx as int);
                assert(done + upts(queue@) =~= old_all.push(q));
                assert(pos_of(w, idx as int) == q);
                assert(!old_all.contains(q)) by {
                    assert(!(old_v[idx as int] && !ov[idx as int]));
                }
                assert(live_at(self.cells@, w, h, q));
                lemma_connected_step(self.cells@, w, h, start, (x as int, y as int), q);
                let all = old_all.push(q);
                assert forall|i: int| 0 <= i < w * h implies ((#[trigger] visited@[i] && !ov[i])
                    <==> all.contains(pos_of(w, i))) by {
                    if i != idx {
                        assert(visited@[i] == old_v[i]);
                        let pi = pos_of(w, i);
                        lemma_pos_in_grid(i, w, h);
                        if pi == q {
                            assert(index_of(w, q) == idx);
                        }
                        if all.contains(pi) && !old_all.contains(pi) {
                            assert(all[all.len() - 1] == q);
                            let k = choose|k: int| 0 <= k < all.len() && all[k] == pi;
                            if k < old_all.len() {
                                assert(old_all[k] == pi);
                            }
                        }
                        if old_all.contains(pi) {
                            let k = choose|k: int| 0 <= k < old_all.len() && old_all[k] == pi;
                            assert(all[k] == pi);
                        }
                    } else {
                        assert(all[all.len() - 1] == q);
                    }
                }
                assert forall|k: int| 0 <= k < all.len() implies in_grid(w, h, #[trigger] all[k])
                    && connected(self.cells@, w, h, start, all[k]) by {
                    if k < old_all.len() {
                        assert(all[k] == old_all[k]);
                    }
                }
                assert(all.no_duplicates()) by {
                    assert forall|a: int, b: int|
                        0 <= a < all.len() && 0 <= b < all.len() && a != b implies all[a] != all[b] by {
                        if a < old_all.len() && b < old_all.len() {
                            assert(all[a] == old_all[a] && all[b] == old_all[b]);
                        } else if a < old_all.len() {
                            assert(all[a] == old_all[a]);
                            assert(old_all.contains(old_all[a]));
                        } else if b < old_all.len() {
                            assert(all[b] == old_all[b]);
                            assert(old_all.contains(old_all[b]));
                        }
                    }
                }
            }
        }
    }

    /// Collects the group of touching live cells that `(start_x, start_y)`
    /// belongs to, marking its cells visited.
    fn collect_component(&self, start_x: usize, start_y: usize, visited: &mut Vec<bool>) -> (component: Vec<(usize, usize)>)
        requires
            self.wf(),
            start_x < self.w,
            start_y < self.h,
            old(visited)@.len() == self.w * self.h,
            live_at(self.cells@, self.w as int, self.h as int, (start_x as int, start_y as int)),
            forall|q: (int, int)|
                #[trigger] connected(
                    self.cells@,
                    self.w as int,
                    self.h as int,
                    (start_x as int, start_y as int),
                    q,
                ) ==> !old(visited)@[index_of(self.w as int, q)],
        ensures
            upts(component@).no_duplicates(),
            upts(component@).to_set() == component_of(
                self.cells@,
                self.w as int,
                self.h as int,
                (start_x as int, start_y as int),
            ),
            forall|k: int| 0 <= k < component@.len() ==> in_grid(self.w as int, self.h as int, #[trigger] upts(component@)[k]),
            component@.len() > 0,
            component@[0] == (start_x, start_y),
            final(visited)@.len() == old(visited)@.len(),
            forall|i: int|
                0 <= i < old(visited)@.len() ==> #[trigger] final(visited)@[i] == (old(visited)@[i]
                    || component_of(
                    self.cells@,
                    self.w as int,
                    self.h as int,
                    (start_x as int, start_y as int),
                ).contains(pos_of(self.w as int, i))),
    {
        let ghost w = self.w as int;
        let ghost h = self.h as int;
        let ghost cells = self.cells@;
        let ghost start = (start_x as int, start_y as int);
        let ghost ov = visited@;
        proof {
            lemma_row_major(start_x as int, start_y as int, w, h);
            lemma_connected_refl(cells, w, h, start);
        }
        let mut queue: VecDeque<(usize, usize)> = VecDeque::new();
        let mut component: Vec<(usize, usize)> = Vec::new();
        queue.push_back((start_x, start_y));
        let sidx = start_y * self.w + start_x;
        visited.set(sidx, true);
        proof {
            assert(!ov[index_of(w, start)]);
            let all = upts(component@) + upts(queue@);
            assert(all =~= seq![start]);
            assert(pos_of(w, sidx as int) == start);
            assert forall|i: int| 0 <= i < w * h implies ((#[trigger] visited@[i] && !ov[i])
                <==> all.contains(pos_of(w, i))) by {
                if i != sidx {
                    let pi = pos_of(w, i);
                    lemma_pos_in_grid(i, w, h);
                    if all.contains(pi) {
                        assert(all[0] == pi);
                    }
                } else {
                    assert(all[0] == start);
                }
            }
        }
        loop
            invariant
                self.wf(),
                w == self.w,
                h == self.h,
                cells == self.cells@,
                bfs_inv(cells, w, h, start, ov, visited@, upts(component@) + upts(queue@)),
                (upts(component@) + upts(queue@)).len() > 0,
                (upts(component@) + upts(queue@))[0] == start,
                sidx == index_of(w, start),
                0 <= sidx < w * h,
                visited@[sidx as int],
                !ov[sidx as int],
                forall|k: int, r: (int, int)|
                    0 <= k < component@.len() && live_at(cells, w, h, r) && touching(
                        #[trigger] upts(component@)[k],
                        r,
                    ) ==> visited@[#[trigger] index_of(w, r)],
            ensures
                queue@.len() == 0,
            decreases count_false(visited@), queue@.len(),
        {
            let ghost c0 = count_false(visited@);
            let ghost q0 = queue@.len();
            let ghost all0 = upts(component@) + upts(queue@);
            let ghost old_component = component@;
            match queue.pop_front() {
                None => {
                    break;
                },
                Some((x, y)) => {
                    component.push((x, y));
                    proof {
                        assert(upts(component@) + upts(queue@) =~= all0);
                        assert(all0[component@.len() - 1] == (x as int, y as int));
                        assert(in_grid(w, h, all0[component@.len() - 1]));
                    }
                    let ghost done = upts(component@);
                    let ghost v0 = visited@;
                    assert(connected(cells, w, h, start, (x as int, y as int)));
                    self.visit_neighbor(x, y, -1, -1, visited, &mut queue, Ghost(start), Ghost(ov), Ghost(done));
                    assert(live_at(cells, w, h, (x as int - 1, y as int - 1)) ==> visited@[index_of(w, (x as int - 1, y as int - 1))]);
                    let ghost v1 = visited@;
                    self.visit_neighbor(x, y, 0, -1, visited, &mut queue, Ghost(start), Ghost(ov), Ghost(done));
                    assert(live_at(cells, w, h, (x as int, y as int - 1)) ==> visited@[index_of(w, (x as int, y as int - 1))]);
                    let ghost v2 = visited@;
                    self.visit_neighbor(x, y, 1, -1, visited, &mut queue, Ghost(start), Ghost(ov), Ghost(done));
                    assert(live_at(cells, w, h, (x as int + 1, y as int - 1)) ==> visited@[index_of(w, (x as int + 1, y as int - 1))]);
                    let ghost v3 = visited@;
                    self.visit_neighbor(x, y, -1, 0, visited, &mut queue, Ghost(start), Ghost(ov), Ghost(done));
                    assert(live_at(cells, w, h, (x as int - 1, y as int)) ==> visited@[index_of(w, (x as int - 1, y as int))]);
                    let ghost v4 = visited@;
                    self.visit_neighbor(x, y, 1, 0, visited, &mut queue, Ghost(start), Ghost(ov), Ghost(done));
                    assert(live_at(cells, w, h, (x as int + 1, y as int)) ==> visited@[index_of(w, (x as int + 1, y as int))]);
                    let ghost v5 = visited@;
                    self.visit_neighbor(x, y, -1, 1, visited, &mut queue, Ghost(start), Ghost(ov), Ghost(done));
                    assert(live_at(cells, w, h, (x as int - 1, y as int + 1)) ==> visited@[index_of(w, (x as int - 1, y as int + 1))]);
                    let ghost v6 = visited@;
                    self.visit_neighbor(x, y, 0, 1, visited, &mut queue, Ghost(start), Ghost(ov), Ghost(done));
                    assert(live_at(cells, w, h, (x as int, y as int + 1)) ==> visited@[index_of(w, (x as int, y as int + 1))]);
                    let ghost v7 = visited@;
                    self.visit_neighbor(x, y, 1, 1, visited, &mut queue, Ghost(start), Ghost(ov), Ghost(done));
                    assert(live_at(cells, w, h, (x as int + 1, y as int + 1)) ==> visited@[index_of(w, (x as int + 1, y as int + 1))]);
                    proof {
                        assert forall|i: int| 0 <= i < v0.len() && #[trigger] v0[i] implies visited@[i] by {
                            assert(v1[i]);
                            assert(v2[i]);
                            assert(v3[i]);
                            assert(v4[i]);
                            assert(v5[i]);
                            assert(v6[i]);
                            assert(v7[i]);
                        }
                        let xi = x as int;
                        let yi = y as int;
                        let vs = seq![v1, v2, v3, v4, v5, v6, v7, visited@];
                        let qs = seq![
                            (xi - 1, yi - 1),
                            (xi, yi - 1),
                            (xi + 1, yi - 1),
                            (xi - 1, yi),
                            (xi + 1, yi),
                            (xi - 1, yi + 1),
                            (xi, yi + 1),
                            (xi + 1, yi + 1),
                        ];
                        assert forall|k: int| 0 <= k < 8 && live_at(cells, w, h, #[trigger] qs[k]) implies visited@[index_of(w, qs[k])] by {
                            let ix = index_of(w, qs[k]);
                            lemma_row_major(qs[k].0, qs[k].1, w, h);
                            if k <= 0 { assert(v1[ix]); assert(v2[ix]); }
                            if k <= 1 { assert(v2[ix]); assert(v3[ix]); }
                            if k <= 2 { assert(v3[ix]); assert(v4[ix]); }
                            if k <= 3 { assert(v4[ix]); assert(v5[ix]); }
                            if k <= 4 { assert(v5[ix]); assert(v6[ix]); }
                            if k <= 5 { assert(v6[ix]); assert(v7[ix]); }
                            if k <= 6 { assert(v7[ix]); }
                        }
                        assert forall|r: (int, int)| live_at(cells, w, h, r) && touching((xi, yi), r) implies visited@[index_of(w, r)] by {
                            if r == (xi - 1, yi - 1) { assert(r == qs[0]); }
                            else if r == (xi, yi - 1) { assert(r == qs[1]); }
                            else if r == (xi + 1, yi - 1) { assert(r == qs[2]); }
                            else if r == (xi - 1, yi) { assert(r == qs[3]); }
                            else if r == (xi + 1, yi) { assert(r == qs[4]); }
                            else if r == (xi - 1, yi + 1) { assert(r == qs[5]); }
                            else if r == (xi, yi + 1) { assert(r == qs[6]); }
                            else { assert(r == qs[7]); }
                        }
                    }
                    proof {
                        assert forall|k: int, r: (int, int)|
                            0 <= k < component@.len() && live_at(cells, w, h, r) && touching(
                                #[trigger] upts(component@)[k],
                                r,
                            ) implies visited@[#[trigger] index_of(w, r)] by {
                            if k == component@.len() - 1 {
                                assert(upts(component@)[k] == (x as int, y as int));
                            } else {
                                assert(upts(component@)[k] == upts(old_component)[k]);
                                assert(v0[index_of(w, r)]);
                                lemma_row_major(r.0, r.1, w, h);
                            }
                        }
                    }
                },
            }
        }
        proof {
            let s = upts(component@).to_set();
            assert(upts(component@) + upts(queue@) =~= upts(component@));
            let all = upts(component@);
            assert(all.contains(start)) by {
                assert(visited@[sidx as int] && !ov[sidx as int]);
            }
            assert(s.contains(start));
            assert(closed_under_touch(cells, w, h, s)) by {
                assert forall|p: (int, int), r: (int, int)|
                    #![trigger s.contains(p), touching(p, r)]
                    s.contains(p) && live_at(cells, w, h, r) && touching(p, r) implies s.contains(r) by {
                    let k = choose|k: int| 0 <= k < all.len() && all[k] == p;
                    assert(visited@[index_of(w, r)]);
                    lemma_connected_step(cells, w, h, start, p, r);
                    assert(!ov[index_of(w, r)]);
                    lemma_row_major(r.0, r.1, w, h);
                    assert(pos_of(w, index_of(w, r)) == r);
                    assert(all.contains(r));
                }
            }
            let comp = component_of(cells, w, h, start);
            assert forall|q: (int, int)| s.contains(q) <==> comp.contains(q) by {
                if s.contains(q) {
                    let k = choose|k: int| 0 <= k < all.len() && all[k] == q;
                    assert(connected(cells, w, h, start, all[k]));
                }
                if comp.contains(q) {
                    lemma_closed_holds_component(cells, w, h, s, start, q);
                }
            }
            assert(s =~= comp);
            assert forall|i: int| 0 <= i < ov.len() implies #[trigger] visited@[i] == (ov[i]
                || comp.contains(pos_of(w, i))) by {
                let pi = pos_of(w, i);
                lemma_pos_in_grid(i, w, h);
                if comp.contains(pi) {
                    assert(connected(cells, w, h, start, pi));
                    assert(!ov[index_of(w, pi)]);
                    assert(s.contains(pi));
                }
                if visited@[i] && !ov[i] {
                    assert(all.contains(pi));
                }
            }
        }
        component
    }

    /// Every group of touching live cells that is a known pattern, in the
    /// row-major order of the groups' first cells.
    fn detect_components(&self) -> (r: Vec<PatternDetection>)
        requires
            self.wf(),
        ensures
            r@.map_values(|d: PatternDetection| detection_view(d)) == spec_detections(
                self.cells@,
                self.w as int,
                self.h as int,
            ),
    {
        let ghost w = self.w as int;
        let ghost h = self.h as int;
        let ghost cells = self.cells@;
        let n = self.w * self.h;
        let mut visited: Vec<bool> = vec![false; n];
        let mut detections: Vec<PatternDetection> = Vec::new();
        assert(self.w <= isize::MAX && self.h <= isize::MAX) by (nonlinear_arith)
            requires
                0 < self.w,
                0 < self.h,
                self.w * self.h <= isize::MAX,
        ;
        let mut idx: usize = 0;
        while idx < n
            invariant
                self.wf(),
                w == self.w,
                h == self.h,
                cells == self.cells@,
                n == w * h,
                w <= isize::MAX,
                h <= isize::MAX,
                idx <= n,
                visited@.len() == n,
                forall|i: int|
                    0 <= i < n ==> #[trigger] visited@[i] == reached_before(
                        cells,
                        w,
                        h,
                        idx as int,
                        pos_of(w, i),
                    ),
                detections@.map_values(|d: PatternDetection| detection_view(d))
                    == detections_prefix(cells, w, h, idx as int),
            decreases n - idx,
        {
            let x = idx % self.w;
            let y = idx / self.w;
            let ghost p = (x as int, y as int);
            proof {
                lemma_pos_in_grid(idx as int, w, h);
                assert(p == pos_of(w, idx as int));
            }
            let ghost old_dets = detections@;
            let ghost old_visited = visited@;
            if visited[idx] || !self.get_cell(x, y) {
                proof {
                    assert(!is_component_root(cells, w, h, p)) by {
                        if visited@[idx as int] {
                            let r = choose|r: (int, int)|
                                live_at(cells, w, h, r) && index_of(w, r) < idx && #[trigger] connected(
                                    cells,
                                    w,
                                    h,
                                    r,
                                    p,
                                );
                        }
                    }
                    assert(detections@.map_values(|d: PatternDetection| detection_view(d))
                        == detections_prefix(cells, w, h, idx + 1));
                    assert forall|i: int| 0 <= i < n implies #[trigger] visited@[i] == reached_before(
                        cells,
                        w,
                        h,
                        idx + 1,
                        pos_of(w, i),
                    ) by {
                        let q = pos_of(w, i);
                        if reached_before(cells, w, h, idx + 1, q) {
                            let r = choose|r: (int, int)|
                                live_at(cells, w, h, r) && index_of(w, r) < idx + 1
                                    && #[trigger] connected(cells, w, h, r, q);
                            if index_of(w, r) == idx {
                                lemma_row_major(r.0, r.1, w, h);
                                assert(r == p);
                                let r0 = choose|r0: (int, int)|
                                    live_at(cells, w, h, r0) && index_of(w, r0) < idx
                                        && #[trigger] connected(cells, w, h, r0, p);
                                lemma_connected_trans(cells, w, h, r0, p, q);
                                assert(reached_before(cells, w, h, idx as int, q));
                            }
                        }
                        if reached_before(cells, w, h, idx as int, q) {
                            let r = choose|r: (int, int)|
                                live_at(cells, w, h, r) && index_of(w, r) < idx
                                    && #[trigger] connected(cells, w, h, r, q);
                            assert(reached_before(cells, w, h, idx + 1, q));
                        }
                    }
                }
            } else {
                proof {
                    assert(live_at(cells, w, h, p));
                    assert forall|q: (int, int)| #[trigger] connected(cells, w, h, p, q) implies !visited@[index_of(w, q)] by {
                        lemma_connected_live(cells, w, h, p, q);
                        lemma_row_major(q.0, q.1, w, h);
                        let iq = index_of(w, q);
                        assert(pos_of(w, iq) == q);
                        if visited@[iq] {
                            assert(reached_before(cells, w, h, idx as int, q));
                            let r = choose|r: (int, int)|
                                live_at(cells, w, h, r) && index_of(w, r) < idx
                                    && #[trigger] connected(cells, w, h, r, q);
                            lemma_connected_sym(cells, w, h, p, q);
                            lemma_connected_trans(cells, w, h, r, q, p);
                            assert(reached_before(cells, w, h, idx as int, p));
                        }
                    }
                    assert(is_component_root(cells, w, h, p)) by {
                        assert forall|q: (int, int)|
                            live_at(cells, w, h, q) && index_of(w, q) < index_of(w, p) implies !#[trigger] connected(
                            cells,
                            w,
                            h,
                            q,
                            p,
                        ) by {
                            if connected(cells, w, h, q, p) {
                                assert(reached_before(cells, w, h, idx as int, p));
                            }
                        }
                    }
                }
                let component = self.collect_component(x, y, &mut visited);
                let ghost comp = component_of(cells, w, h, p);
                proof {
                    assert forall|i: int| 0 <= i < component@.len() implies 0 <= (
                    #[trigger] upts(component@)[i]).0 <= isize::MAX && 0 <= upts(component@)[i].1
                        <= isize::MAX by {
                        assert(in_grid(w, h, upts(component@)[i]));
                    }
                    lemma_spread_of_bounded(upts(component@), isize::MAX as int);
                    assert forall|i: int| 0 <= i < n implies #[trigger] visited@[i] == reached_before(
                        cells,
                        w,
                        h,
                        idx + 1,
                        pos_of(w, i),
                    ) by {
                        let q = pos_of(w, i);
                        if reached_before(cells, w, h, idx + 1, q) {
                            let r = choose|r: (int, int)|
                                live_at(cells, w, h, r) && index_of(w, r) < idx + 1
                                    && #[trigger] connected(cells, w, h, r, q);
                            if index_of(w, r) == idx {
                                lemma_row_major(r.0, r.1, w, h);
                                assert(r == p);
                                assert(comp.contains(q));
                            } else {
                                assert(reached_before(cells, w, h, idx as int, q));
                            }
                        }
                        if comp.contains(q) {
                            assert(connected(cells, w, h, p, q));
                            assert(index_of(w, p) == idx);
                            assert(reached_before(cells, w, h, idx + 1, q));
                        }
                        if old_visited[i] {
                            let r = choose|r: (int, int)|
                                live_at(cells, w, h, r) && index_of(w, r) < idx
                                    && #[trigger] connected(cells, w, h, r, q);
                            assert(reached_before(cells, w, h, idx + 1, q));
                        }
                    }
                    assert(exists|c: Seq<(int, int)>| c.no_duplicates() && c.to_set() == comp) by {
                        assert(upts(component@).no_duplicates() && upts(component@).to_set() == comp);
                    }
                    let lst = listing_of(comp);
                    lemma_classify_same_set(upts(component@), lst);
                }
                match classify_group(&component) {
                    Some(detection) => {
                        detections.push(detection);
                        proof {
                            assert(detections@.map_values(|d: PatternDetection| detection_view(d))
                                =~= old_dets.map_values(|d: PatternDetection| detection_view(d)).push(
                                detection_view(detection),
                            ));
                        }
                    },
                    None => {},
                }
                proof {
                    assert(detections@.map_values(|d: PatternDetection| detection_view(d))
                        == detections_prefix(cells, w, h, idx + 1));
                }
            }
            idx = idx + 1;
        }
        detections
    }

    /// Detects the known patterns on the grid and the oscillation period
    /// implied by `hash_history` (see `detect_oscillator_period`).
    pub fn detect_known_patterns(&self, hash_history: &[(u64, LifeStateHash)], step_count: u64) -> (r: PatternDetectionReport)
        requires
            self.wf(),
        ensures
            r.detections@.map_values(|d: PatternDetection| detection_view(d)) == spec_detections(
                self.spec_cells(),
                self.spec_width(),
                self.spec_height(),
            ),
            r.oscillator_period == spec_oscillator_period(
                hash_history@,
                step_count,
                LifeStateHash(hash_prefix(self.spec_cells(), self.spec_cells().len() as int)),
            ),
    {
        let detections = self.detect_components();
        let hash = self.state_hash();
        PatternDetectionReport {
            detections,
            oscillator_period: detect_oscillator_period(hash_history, step_count, hash),
        }
    }

    /// Clears the grid and places the pattern's cells centred on it; cells
    /// that fall outside the grid are dropped.
    pub fn apply_rle_centered(&mut self, pattern: &LifeRlePattern)
        requires
            old(self).wf(),
            forall|k: int|
                0 <= k < pattern.cells@.len() ==> (#[trigger] pattern.cells@[k]).0 + centered_origin(
                    old(self).spec_width(),
                    pattern.width as int,
                ) <= usize::MAX && pattern.cells@[k].1 + centered_origin(
                    old(self).spec_height(),
                    pattern.height as int,
                ) <= usize::MAX,
        ensures
            final(self).wf(),
            final(self).spec_width() == old(self).spec_width(),
            final(self).spec_height() == old(self).spec_height(),
            final(self).spec_seed() == old(self).spec_seed(),
            final(self).spec_cells() == centered_cells(
                old(self).spec_width(),
                old(self).spec_height(),
                pattern.width as int,
                pattern.height as int,
                pattern.cells@,
            ),
    {
        self.clear();
        let w = self.w;
        let h = self.h;
        let x0 = w.saturating_sub(pattern.width) / 2;
        let y0 = h.saturating_sub(pattern.height) / 2;
        let ghost target = centered_cells(w as int, h as int, pattern.width as int, pattern.height as int, pattern.cells@);
        let ghost cells = pattern.cells@;
        let mut k: usize = 0;
        while k < pattern.cells.len()
            invariant
                self.wf(),
                self.w == w,
                self.h == h,
                self.seed == old(self).seed,
                x0 == centered_origin(w as int, pattern.width as int),
                y0 == centered_origin(h as int, pattern.height as int),
                cells == pattern.cells@,
                k <= cells.len(),
                forall|j: int|
                    0 <= j < cells.len() ==> (#[trigger] cells[j]).0 + x0 <= usize::MAX && cells[j].1 + y0
                        <= usize::MAX,
                forall|i: int|
                    0 <= i < self.cells@.len() ==> #[trigger] self.cells@[i] == exists|j: int|
                        0 <= j < k && #[trigger] cells[j].0 + x0 == i % w as int && cells[j].1 + y0 == i
                            / w as int,
            decreases cells.len() - k,
        {
            let (x, y) = pattern.cells[k];
            let tx = x0 + x;
            let ty = y0 + y;
            let ghost before = self.cells@;
            if tx < w && ty < h {
                proof {
                    lemma_row_major(tx as int, ty as int, w as int, h as int);
                }
                self.set_cell(tx, ty, true);
            }
            proof {
                assert forall|i: int| 0 <= i < self.cells@.len() implies #[trigger] self.cells@[i] == exists|j: int|
                    0 <= j < k + 1 && #[trigger] cells[j].0 + x0 == i % w as int && cells[j].1 + y0 == i
                        / w as int by {
                    let hit = cells[k as int].0 + x0 == i % w as int && cells[k as int].1 + y0 == i / w as int;
                    lemma_pos_in_grid(i, w as int, h as int);
                    if tx < w && ty < h {
                        if i == ty * w + tx {
                            assert(hit);
                        } else {
                            assert(self.cells@[i] == before[i]);
                            if hit {
                                assert(i == (i / w as int) * w + i % w as int);
                                assert(i == ty * w + tx);
                            }
                        }
                    } else {
                        assert(!hit);
                    }
                    if exists|j: int|
                        0 <= j < k + 1 && #[trigger] cells[j].0 + x0 == i % w as int && cells[j].1 + y0 == i
                            / w as int {
                        let j = choose|j: int|
                            0 <= j < k + 1 && #[trigger] cells[j].0 + x0 == i % w as int && cells[j].1 + y0 == i
                                / w as int;
                        if j < k {
                            assert(exists|j2: int|
                                0 <= j2 < k && #[trigger] cells[j2].0 + x0 == i % w as int && cells[j2].1 + y0
                                    == i / w as int);
                        }
                    }
                }
            }
            k = k + 1;
        }
        proof {
            assert(self.cells@ =~= target);
        }
    }

    /// Restarts from a preset: `"symmetric_seed"` places the mirrored
    /// starting figure on an empty grid; any other name loads
    /// `random_cells`, the random draw for each cell.
    pub fn reset_preset(&mut self, preset: &str, random_cells: &[bool])
        requires
            old(self).wf(),
            random_cells@.len() == old(self).spec_cells().len(),
        ensures
            final(self).wf(),
            final(self).spec_width() == old(self).spec_width(),
            final(self).spec_height() == old(self).spec_height(),
            final(self).spec_seed() == old(self).spec_seed(),
            preset@ == "symmetric_seed"@ ==> final(self).spec_cells() == symmetric_seed(
                old(self).spec_width(),
                old(self).spec_height(),
            ),
            preset@ != "symmetric_seed"@ ==> final(self).spec_cells() == random_cells@,
    {
        if str_equal(preset, "symmetric_seed") {
            self.reset_symmetric();
        } else {
            self.clear();
            self.load_cells(random_cells);
        }
    }

    /// Writes the plain view of the grid into `out`, four bytes (RGBA) per
    /// cell in row-major order: white for live cells, dark grey for dead
    /// ones. Trailing bytes that do not make a whole pixel are left alone.
    pub fn render_raw_rgba(&self, out: &mut [u8])
        requires
            self.wf(),
            old(out)@.len() / 4 <= self.spec_cells().len(),
        ensures
            final(out)@.len() == old(out)@.len(),
            forall|i: int|
                0 <= i < final(out)@.len() ==> #[trigger] final(out)@[i] == (if i < (old(out)@.len() / 4) * 4 {
                    raw_pixel_byte(self.spec_cells()[i / 4], i % 4)
                } else {
                    old(out)@[i]
                }),
    {
        let total = out.len();
        let pixels = total / 4;
        let mut p: usize = 0;
        while p < pixels
            invariant
                self.wf(),
                total == out@.len(),
                pixels == old(out)@.len() / 4,
                pixels <= self.cells@.len(),
                out@.len() == old(out)@.len(),
                p <= pixels,
                forall|i: int|
                    0 <= i < out@.len() ==> #[trigger] out@[i] == (if i < p * 4 {
                        raw_pixel_byte(self.cells@[i / 4], i % 4)
                    } else {
                        old(out)@[i]
                    }),
            decreases pixels - p,
        {
            let alive = self.cells.get(p);
            assert(4 * p + 3 < total) by (nonlinear_arith)
                requires
                    p < pixels,
                    pixels == total / 4,
            ;
            let c: u8 = if alive {
                255
            } else {
                16
            };
            out[4 * p] = c;
            out[4 * p + 1] = c;
            out[4 * p + 2] = c;
            out[4 * p + 3] = 255;
            p = p + 1;
        }
    }
}

/// Appends `more` to `out`.
fn append_chars(out: &mut Vec<char>, more: &Vec<char>)
    ensures
        final(out)@ == old(out)@ + more@,
{
    let ghost start = out@;
    let mut i: usize = 0;
    while i < more.len()
        invariant
            i <= more@.len(),
            out@ == start + more@.take(i as int),
        decreases more@.len() - i,
    {
        out.push(more[i]);
        assert(start + more@.take(i + 1) =~= (start + more@.take(i as int)).push(more@[i as int]));
        i = i + 1;
    }
    assert(more@.take(more@.len() as int) =~= more@);
}

} // verus!
