use vstd::prelude::*;

use super::patterns::{classify_points, KnownPattern};
use super::sim::grid_cell;

verus! {

/// Cells `a` and `b` are distinct and touch by a side or a corner (no
/// wrapping at the grid's edges).
pub open spec fn touching(a: (int, int), b: (int, int)) -> bool {
    a != b && -1 <= a.0 - b.0 <= 1 && -1 <= a.1 - b.1 <= 1
}

/// `p` lies on the `w` by `h` grid and is live.
pub open spec fn live_at(cells: Seq<bool>, w: int, h: int, p: (int, int)) -> bool {
    0 <= p.0 < w && 0 <= p.1 < h && grid_cell(cells, w, p.0, p.1)
}

/// A non-empty walk over live cells, each step to a touching cell.
pub open spec fn is_live_path(cells: Seq<bool>, w: int, h: int, path: Seq<(int, int)>) -> bool {
    &&& path.len() > 0
    &&& forall|i: int| 0 <= i < path.len() ==> live_at(cells, w, h, #[trigger] path[i])
    &&& forall|i: int| 0 <= i < path.len() - 1 ==> touching(#[trigger] path[i], path[i + 1])
}

/// A walk over live touching cells leads from `a` to `b`.
pub open spec fn connected(cells: Seq<bool>, w: int, h: int, a: (int, int), b: (int, int)) -> bool {
    exists|path: Seq<(int, int)>|
        #[trigger] is_live_path(cells, w, h, path) && path[0] == a && path.last() == b
}

/// The live cells connected to `a`: the group of touching live cells that
/// `a` belongs to.
pub open spec fn component_of(cells: Seq<bool>, w: int, h: int, a: (int, int)) -> Set<(int, int)> {
    Set::new(|q: (int, int)| connected(cells, w, h, a, q))
}

pub proof fn lemma_connected_refl(cells: Seq<bool>, w: int, h: int, a: (int, int))
    requires
        live_at(cells, w, h, a),
    ensures
        connected(cells, w, h, a, a),
{
    let path = seq![a];
    assert(is_live_path(cells, w, h, path));
}

pub proof fn lemma_connected_live(cells: Seq<bool>, w: int, h: int, a: (int, int), b: (int, int))
    requires
        connected(cells, w, h, a, b),
    ensures
        live_at(cells, w, h, a),
        live_at(cells, w, h, b),
{
    let path = choose|path: Seq<(int, int)>|
        #[trigger] is_live_path(cells, w, h, path) && path[0] == a && path.last() == b;
    assert(live_at(cells, w, h, path[0]));
    assert(live_at(cells, w, h, path[path.len() - 1]));
}

pub proof fn lemma_connected_step(
    cells: Seq<bool>,
    w: int,
    h: int,
    a: (int, int),
    p: (int, int),
    q: (int, int),
)
    requires
        connected(cells, w, h, a, p),
        live_at(cells, w, h, q),
        touching(p, q),
    ensures
        connected(cells, w, h, a, q),
{
    let path = choose|path: Seq<(int, int)>|
        #[trigger] is_live_path(cells, w, h, path) && path[0] == a && path.last() == p;
    let path2 = path.push(q);
    assert forall|i: int| 0 <= i < path2.len() implies live_at(cells, w, h, #[trigger] path2[i]) by {
        if i < path.len() {
            assert(path2[i] == path[i]);
        }
    }
    assert forall|i: int| 0 <= i < path2.len() - 1 implies touching(
        #[trigger] path2[i],
        path2[i + 1],
    ) by {
        if i < path.len() - 1 {
            assert(path2[i] == path[i] && path2[i + 1] == path[i + 1]);
        }
    }
    assert(is_live_path(cells, w, h, path2));
}

pub proof fn lemma_connected_sym(cells: Seq<bool>, w: int, h: int, a: (int, int), b: (int, int))
    requires
        connected(cells, w, h, a, b),
    ensures
        connected(cells, w, h, b, a),
{
    let path = choose|path: Seq<(int, int)>|
        #[trigger] is_live_path(cells, w, h, path) && path[0] == a && path.last() == b;
    let rev = path.reverse();
    assert forall|i: int| 0 <= i < rev.len() implies live_at(cells, w, h, #[trigger] rev[i]) by {
        assert(rev[i] == path[path.len() - 1 - i]);
    }
    assert forall|i: int| 0 <= i < rev.len() - 1 implies touching(#[trigger] rev[i], rev[i + 1]) by {
        let j = path.len() - 2 - i;
        assert(rev[i] == path[j + 1] && rev[i + 1] == path[j]);
        assert(touching(path[j], path[j + 1]));
    }
    assert(is_live_path(cells, w, h, rev));
    assert(rev[0] == b && rev.last() == a);
}

pub proof fn lemma_connected_trans(
    cells: Seq<bool>,
    w: int,
    h: int,
    a: (int, int),
    b: (int, int),
    c: (int, int),
)
    requires
        connected(cells, w, h, a, b),
        connected(cells, w, h, b, c),
    ensures
        connected(cells, w, h, a, c),
{
    let p1 = choose|path: Seq<(int, int)>|
        #[trigger] is_live_path(cells, w, h, path) && path[0] == a && path.last() == b;
    let p2 = choose|path: Seq<(int, int)>|
        #[trigger] is_live_path(cells, w, h, path) && path[0] == b && path.last() == c;
    let p = p1 + p2.drop_first();
    assert forall|i: int| 0 <= i < p.len() implies live_at(cells, w, h, #[trigger] p[i]) by {
        if i < p1.len() {
            assert(p[i] == p1[i]);
        } else {
            assert(p[i] == p2[i - p1.len() + 1]);
        }
    }
    assert forall|i: int| 0 <= i < p.len() - 1 implies touching(#[trigger] p[i], p[i + 1]) by {
        if i < p1.len() - 1 {
            assert(p[i] == p1[i] && p[i + 1] == p1[i + 1]);
        } else if i == p1.len() - 1 {
            assert(p[i] == p1[i] && p1[i] == p2[0] && p[i + 1] == p2[1]);
        } else {
            let j = i - p1.len() + 1;
            assert(p[i] == p2[j] && p[i + 1] == p2[j + 1]);
        }
    }
    assert(is_live_path(cells, w, h, p));
    if p2.len() == 1 {
        assert(p.last() == p1.last());
    } else {
        assert(p.last() == p2.last());
    }
}

/// Every live cell touching a member of `s` is a member.
pub open spec fn closed_under_touch(cells: Seq<bool>, w: int, h: int, s: Set<(int, int)>) -> bool {
    forall|p: (int, int), r: (int, int)|
        #![trigger s.contains(p), touching(p, r)]
        s.contains(p) && live_at(cells, w, h, r) && touching(p, r) ==> s.contains(r)
}

proof fn lemma_path_stays(
    cells: Seq<bool>,
    w: int,
    h: int,
    s: Set<(int, int)>,
    path: Seq<(int, int)>,
    k: int,
)
    requires
        is_live_path(cells, w, h, path),
        closed_under_touch(cells, w, h, s),
        s.contains(path[0]),
        0 <= k < path.len(),
    ensures
        s.contains(path[k]),
    decreases k,
{
    if k > 0 {
        lemma_path_stays(cells, w, h, s, path, k - 1);
        assert(touching(path[k - 1], path[k]));
        assert(live_at(cells, w, h, path[k]));
    }
}

/// A set that holds `start` and every live cell touching one of its members
/// holds the whole group of `start`.
pub proof fn lemma_closed_holds_component(
    cells: Seq<bool>,
    w: int,
    h: int,
    s: Set<(int, int)>,
    start: (int, int),
    q: (int, int),
)
    requires
        s.contains(start),
        closed_under_touch(cells, w, h, s),
        connected(cells, w, h, start, q),
    ensures
        s.contains(q),
{
    let path = choose|path: Seq<(int, int)>|
        #[trigger] is_live_path(cells, w, h, path) && path[0] == start && path.last() == q;
    lemma_path_stays(cells, w, h, s, path, path.len() - 1);
}

/// Grid position of row-major index `i` in a grid `w` cells wide.
pub open spec fn pos_of(w: int, i: int) -> (int, int) {
    (i % w, i / w)
}

/// Row-major index of position `p`.
pub open spec fn index_of(w: int, p: (int, int)) -> int {
    p.1 * w + p.0
}

/// `p` lies on the `w` by `h` grid.
pub open spec fn in_grid(w: int, h: int, p: (int, int)) -> bool {
    0 <= p.0 < w && 0 <= p.1 < h
}

/// Number of `false` entries.
pub open spec fn count_false(s: Seq<bool>) -> nat
    decreases s.len(),
{
    if s.len() == 0 {
        0
    } else {
        count_false(s.drop_last()) + if s.last() {
            0nat
        } else {
            1nat
        }
    }
}

pub proof fn lemma_count_false_set(s: Seq<bool>, i: int)
    requires
        0 <= i < s.len(),
        !s[i],
    ensures
        count_false(s.update(i, true)) + 1 == count_false(s),
    decreases s.len(),
{
    let t = s.update(i, true);
    if i == s.len() - 1 {
        assert(t.drop_last() =~= s.drop_last());
    } else {
        assert(t.drop_last() =~= s.drop_last().update(i, true));
        lemma_count_false_set(s.drop_last(), i);
    }
}

/// State of the breadth-first walk over the group of `start`: `ov` was the
/// visited map before the walk, `v` is the current one, `all` lists the
/// cells reached so far (dequeued, then still queued).
pub open spec fn bfs_inv(
    cells: Seq<bool>,
    w: int,
    h: int,
    start: (int, int),
    ov: Seq<bool>,
    v: Seq<bool>,
    all: Seq<(int, int)>,
) -> bool {
    &&& v.len() == w * h
    &&& ov.len() == w * h
    &&& forall|i: int| 0 <= i < w * h && #[trigger] ov[i] ==> v[i]
    &&& forall|i: int|
        0 <= i < w * h ==> ((#[trigger] v[i] && !ov[i]) <==> all.contains(pos_of(w, i)))
    &&& all.no_duplicates()
    &&& forall|k: int|
        0 <= k < all.len() ==> in_grid(w, h, #[trigger] all[k]) && connected(
            cells,
            w,
            h,
            start,
            all[k],
        )
    &&& forall|q: (int, int)|
        #[trigger] connected(cells, w, h, start, q) ==> !ov[index_of(w, q)]
}

/// A live cell that no live cell earlier in row-major order is connected
/// to: the first cell of its group.
pub open spec fn is_component_root(cells: Seq<bool>, w: int, h: int, p: (int, int)) -> bool {
    &&& live_at(cells, w, h, p)
    &&& forall|q: (int, int)|
        live_at(cells, w, h, q) && index_of(w, q) < index_of(w, p) ==> !#[trigger] connected(
            cells,
            w,
            h,
            q,
            p,
        )
}

/// Some listing, without repeats, of the cells of `s`.
pub open spec fn listing_of(s: Set<(int, int)>) -> Seq<(int, int)> {
    choose|c: Seq<(int, int)>| c.no_duplicates() && c.to_set() == s
}

/// What the detector reports for the first `n` cells in row-major order:
/// for each cell that starts a group, the classification of that group when
/// it is a known pattern.
pub open spec fn detections_prefix(cells: Seq<bool>, w: int, h: int, n: int) -> Seq<
    (KnownPattern, int, int, int, int),
>
    decreases n,
{
    if n <= 0 {
        Seq::empty()
    } else {
        let rest = detections_prefix(cells, w, h, n - 1);
        let p = pos_of(w, n - 1);
        if is_component_root(cells, w, h, p) {
            match classify_points(listing_of(component_of(cells, w, h, p))) {
                Some(d) => rest.push(d),
                None => rest,
            }
        } else {
            rest
        }
    }
}

/// Every group of touching live cells that is a known pattern, in the
/// row-major order of the groups' first cells.
pub open spec fn spec_detections(cells: Seq<bool>, w: int, h: int) -> Seq<
    (KnownPattern, int, int, int, int),
> {
    detections_prefix(cells, w, h, w * h)
}

/// `q` is connected to a live cell among the first `n` in row-major order.
pub open spec fn reached_before(cells: Seq<bool>, w: int, h: int, n: int, q: (int, int)) -> bool {
    exists|r: (int, int)|
        live_at(cells, w, h, r) && index_of(w, r) < n && #[trigger] connected(cells, w, h, r, q)
}

} // verus!
