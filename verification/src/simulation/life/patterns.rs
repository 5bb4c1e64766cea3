use vstd::prelude::*;

verus! {

/// The small Life patterns that the detector recognises.
#[derive(Debug, Clone, Copy, PartialEq, Eq, Hash, Structural)]
pub enum KnownPattern {
    Block,
    Beehive,
    Loaf,
    Blinker,
    Toad,
    Beacon,
    Glider,
}

impl KnownPattern {
    /// The pattern's name as shown to the user.
    pub fn label(self) -> (s: &'static str)
        ensures
            self == KnownPattern::Block ==> s@ == "方块"@,
            self == KnownPattern::Beehive ==> s@ == "蜂巢"@,
            self == KnownPattern::Loaf ==> s@ == "面包"@,
            self == KnownPattern::Blinker ==> s@ == "闪烁器"@,
            self == KnownPattern::Toad ==> s@ == "蟾蜍"@,
            self == KnownPattern::Beacon ==> s@ == "信标"@,
            self == KnownPattern::Glider ==> s@ == "滑翔机"@,
    {
        match self {
            KnownPattern::Block => "方块",
            KnownPattern::Beehive => "蜂巢",
            KnownPattern::Loaf => "面包",
            KnownPattern::Blinker => "闪烁器",
            KnownPattern::Toad => "蟾蜍",
            KnownPattern::Beacon => "信标",
            KnownPattern::Glider => "滑翔机",
        }
    }

    /// The pattern's family: still life, oscillator or spaceship.
    pub fn kind(self) -> (s: &'static str)
        ensures
            is_still_life(self) ==> s@ == "静物"@,
            is_oscillator(self) ==> s@ == "振荡器"@,
            self == KnownPattern::Glider ==> s@ == "飞船"@,
    {
        match self {
            KnownPattern::Block | KnownPattern::Beehive | KnownPattern::Loaf => "静物",
            KnownPattern::Blinker | KnownPattern::Toad | KnownPattern::Beacon => "振荡器",
            KnownPattern::Glider => "飞船",
        }
    }
}

/// Block, beehive and loaf do not change from one generation to the next.
pub open spec fn is_still_life(p: KnownPattern) -> bool {
    p == KnownPattern::Block || p == KnownPattern::Beehive || p == KnownPattern::Loaf
}

/// Blinker, toad and beacon return to their shape after a few generations.
pub open spec fn is_oscillator(p: KnownPattern) -> bool {
    p == KnownPattern::Blinker || p == KnownPattern::Toad || p == KnownPattern::Beacon
}

/// The cells of each pattern in one orientation, `(x, y)` with `y` down.
pub open spec fn pattern_cells(p: KnownPattern) -> Seq<(int, int)> {
    match p {
        KnownPattern::Block => seq![(0int, 0int), (1, 0), (0, 1), (1, 1)],
        KnownPattern::Beehive => seq![(1int, 0int), (2, 0), (0, 1), (3, 1), (1, 2), (2, 2)],
        KnownPattern::Loaf => seq![(1int, 0int), (2, 0), (0, 1), (3, 1), (1, 2), (3, 2), (2, 3)],
        KnownPattern::Blinker => seq![(0int, 0int), (1, 0), (2, 0)],
        KnownPattern::Toad => seq![(1int, 0int), (2, 0), (3, 0), (0, 1), (1, 1), (2, 1)],
        KnownPattern::Beacon => seq![
            (0int, 0int),
            (1, 0),
            (0, 1),
            (1, 1),
            (2, 2),
            (3, 2),
            (2, 3),
            (3, 3),
        ],
        KnownPattern::Glider => seq![(1int, 0int), (2, 1), (0, 2), (1, 2), (2, 2)],
    }
}

/// The order in which the detector tries the patterns.
pub open spec fn pattern_at(k: int) -> KnownPattern {
    if k == 0 {
        KnownPattern::Block
    } else if k == 1 {
        KnownPattern::Beehive
    } else if k == 2 {
        KnownPattern::Loaf
    } else if k == 3 {
        KnownPattern::Blinker
    } else if k == 4 {
        KnownPattern::Toad
    } else if k == 5 {
        KnownPattern::Beacon
    } else {
        KnownPattern::Glider
    }
}

/// One of the eight rotations and reflections of the plane (`t` in 0..8).
pub open spec fn transform(p: (int, int), t: int) -> (int, int) {
    if t == 0 {
        (p.0, p.1)
    } else if t == 1 {
        (p.0, -p.1)
    } else if t == 2 {
        (-p.0, p.1)
    } else if t == 3 {
        (-p.0, -p.1)
    } else if t == 4 {
        (p.1, p.0)
    } else if t == 5 {
        (p.1, -p.0)
    } else if t == 6 {
        (-p.1, p.0)
    } else {
        (-p.1, -p.0)
    }
}

/// Smallest element (0 for an empty sequence).
pub open spec fn seq_min(s: Seq<int>) -> int
    decreases s.len(),
{
    if s.len() == 0 {
        0
    } else if s.len() == 1 {
        s[0]
    } else {
        let m = seq_min(s.drop_last());
        if s.last() < m {
            s.last()
        } else {
            m
        }
    }
}

/// Largest element (0 for an empty sequence).
pub open spec fn seq_max(s: Seq<int>) -> int
    decreases s.len(),
{
    if s.len() == 0 {
        0
    } else if s.len() == 1 {
        s[0]
    } else {
        let m = seq_max(s.drop_last());
        if s.last() > m {
            s.last()
        } else {
            m
        }
    }
}

/// The x coordinates.
pub open spec fn xs(s: Seq<(int, int)>) -> Seq<int> {
    s.map_values(|p: (int, int)| p.0)
}

/// The y coordinates.
pub open spec fn ys(s: Seq<(int, int)>) -> Seq<int> {
    s.map_values(|p: (int, int)| p.1)
}

/// The points moved so that their smallest x and smallest y are 0.
pub open spec fn to_origin(s: Seq<(int, int)>) -> Seq<(int, int)> {
    s.map_values(|p: (int, int)| (p.0 - seq_min(xs(s)), p.1 - seq_min(ys(s))))
}

/// Orientation `t` of the points, moved to the origin.
pub open spec fn variant(s: Seq<(int, int)>, t: int) -> Seq<(int, int)> {
    to_origin(s.map_values(|p: (int, int)| transform(p, t)))
}

/// Whether `component` has the shape of `pattern` in one of its eight
/// orientations, wherever it stands.
pub open spec fn same_shape(component: Seq<(int, int)>, pattern: Seq<(int, int)>) -> bool {
    &&& component.len() == pattern.len()
    &&& exists|t: int| 0 <= t < 8 && #[trigger] variant(pattern, t).to_set() == to_origin(component).to_set()
}

/// Lexicographic order on points, `x` first and then `y`, as `(x, y)` tuples
/// compare.
pub open spec fn pt_lt(a: (int, int), b: (int, int)) -> bool {
    a.0 < b.0 || (a.0 == b.0 && a.1 < b.1)
}

/// Strictly increasing in `pt_lt`.
pub open spec fn strictly_sorted(s: Seq<(int, int)>) -> bool {
    forall|i: int, j: int| 0 <= i < j < s.len() ==> pt_lt(#[trigger] s[i], #[trigger] s[j])
}

/// The integer points of a sequence of machine points.
pub open spec fn pts(v: Seq<(i64, i64)>) -> Seq<(int, int)> {
    v.map_values(|p: (i64, i64)| (p.0 as int, p.1 as int))
}

proof fn lemma_sorted_first_is_min(a: Seq<(int, int)>)
    requires
        strictly_sorted(a),
        a.len() > 0,
    ensures
        forall|x: (int, int)| a.to_set().contains(x) && x != a[0] ==> pt_lt(a[0], x),
{
    assert forall|x: (int, int)| a.to_set().contains(x) && x != a[0] implies pt_lt(a[0], x) by {
        let i = choose|i: int| 0 <= i < a.len() && a[i] == x;
        assert(i != 0);
        assert(pt_lt(a[0], a[i]));
    }
}

/// Two strictly sorted sequences with the same elements are equal.
proof fn lemma_sorted_sets_equal(a: Seq<(int, int)>, b: Seq<(int, int)>)
    requires
        strictly_sorted(a),
        strictly_sorted(b),
        a.to_set() == b.to_set(),
    ensures
        a == b,
    decreases a.len(),
{
    if a.len() == 0 {
        if b.len() > 0 {
            assert(b.to_set().contains(b[0]));
        }
        assert(a =~= b);
    } else if b.len() == 0 {
        assert(a.to_set().contains(a[0]));
    } else {
        lemma_sorted_first_is_min(a);
        lemma_sorted_first_is_min(b);
        assert(a.to_set().contains(a[0]));
        assert(b.to_set().contains(b[0]));
        if a[0] != b[0] {
            assert(pt_lt(a[0], b[0]) && pt_lt(b[0], a[0]));
        }
        let a1 = a.drop_first();
        let b1 = b.drop_first();
        assert forall|x: (int, int)| a1.to_set().contains(x) <==> b1.to_set().contains(x) by {
            if a1.to_set().contains(x) {
                let i = choose|i: int| 0 <= i < a1.len() && a1[i] == x;
                assert(pt_lt(a[0], a[i + 1]));
                assert(a.to_set().contains(x));
                let j = choose|j: int| 0 <= j < b.len() && b[j] == x;
                assert(j != 0);
                assert(b1[j - 1] == x);
            }
            if b1.to_set().contains(x) {
                let i = choose|i: int| 0 <= i < b1.len() && b1[i] == x;
                assert(pt_lt(b[0], b[i + 1]));
                assert(b.to_set().contains(x));
                let j = choose|j: int| 0 <= j < a.len() && a[j] == x;
                assert(j != 0);
                assert(a1[j - 1] == x);
            }
        }
        assert(a1.to_set() =~= b1.to_set());
        lemma_sorted_sets_equal(a1, b1);
        assert(a =~= seq![a[0]] + a1);
        assert(b =~= seq![b[0]] + b1);
    }
}

fn pt_less(a: (i64, i64), b: (i64, i64)) -> (r: bool)
    ensures
        r == pt_lt((a.0 as int, a.1 as int), (b.0 as int, b.1 as int)),
{
    a.0 < b.0 || (a.0 == b.0 && a.1 < b.1)
}

/// Non-decreasing in `pt_lt`.
pub open spec fn sorted_le(s: Seq<(int, int)>) -> bool {
    forall|i: int, j: int| 0 <= i < j < s.len() ==> !pt_lt(#[trigger] s[j], #[trigger] s[i])
}

proof fn lemma_insert_multiset(s: Seq<(int, int)>, k: int, x: (int, int))
    requires
        0 <= k <= s.len(),
    ensures
        s.insert(k, x).to_multiset() == s.to_multiset().insert(x),
{
    broadcast use vstd::seq_lib::group_to_multiset_ensures;

    let t = s.insert(k, x);
    assert(t.remove(k) =~= s);
    assert(t[k] == x);
    assert(t.to_multiset().count(x) > 0) by {
        assert(t.contains(x));
    }
    assert(t.to_multiset() =~= s.to_multiset().insert(x));
}

/// A sorted listing of a repeat-free group lists it without repeats, in
/// strictly increasing order, and holds the same points.
proof fn lemma_sorted_unique(a: Seq<(int, int)>, b: Seq<(int, int)>)
    requires
        sorted_le(a),
        a.to_multiset() == b.to_multiset(),
        b.no_duplicates(),
    ensures
        strictly_sorted(a),
        a.to_set() == b.to_set(),
{
    broadcast use vstd::seq_lib::group_to_multiset_ensures;

    b.lemma_multiset_has_no_duplicates();
    a.lemma_multiset_has_no_duplicates_conv();
    assert forall|i: int, j: int| 0 <= i < j < a.len() implies pt_lt(
        #[trigger] a[i],
        #[trigger] a[j],
    ) by {
        assert(!pt_lt(a[j], a[i]));
        assert(a[i] != a[j]);
    }
    assert forall|x: (int, int)| a.to_set().contains(x) <==> b.to_set().contains(x) by {
        assert(a.contains(x) <==> a.to_multiset().count(x) > 0);
        assert(b.contains(x) <==> b.to_multiset().count(x) > 0);
    }
    assert(a.to_set() =~= b.to_set());
}

/// Sorts points into non-decreasing order, keeping repeats.
fn sort_points(v: &Vec<(i64, i64)>) -> (r: Vec<(i64, i64)>)
    ensures
        sorted_le(pts(r@)),
        pts(r@).to_multiset() == pts(v@).to_multiset(),
        r@.len() == v@.len(),
{
    broadcast use vstd::seq_lib::group_to_multiset_ensures;

    let mut r: Vec<(i64, i64)> = Vec::new();
    let mut i: usize = 0;
    assert(pts(v@).take(0) =~= Seq::<(int, int)>::empty());
    assert(pts(r@) =~= Seq::<(int, int)>::empty());
    while i < v.len()
        invariant
            i <= v@.len(),
            sorted_le(pts(r@)),
            pts(r@).to_multiset() == pts(v@).take(i as int).to_multiset(),
            r@.len() == i,
        decreases v@.len() - i,
    {
        let p = v[i];
        let ghost pp = (p.0 as int, p.1 as int);
        assert(pts(v@)[i as int] == pp);
        let mut k: usize = 0;
        while k < r.len() && pt_less(r[k], p)
            invariant
                k <= r@.len(),
                forall|j: int| 0 <= j < k ==> pt_lt(#[trigger] pts(r@)[j], pp),
                pp == (p.0 as int, p.1 as int),
            decreases r@.len() - k,
        {
            k = k + 1;
        }
        let ghost old_r = pts(r@);
        r.insert(k, p);
        proof {
            assert(pts(r@) =~= old_r.insert(k as int, pp));
            assert(k < old_r.len() ==> !pt_lt(old_r[k as int], pp));
            assert forall|a: int, b: int| 0 <= a < b < pts(r@).len() implies !pt_lt(
                #[trigger] pts(r@)[b],
                #[trigger] pts(r@)[a],
            ) by {
                if a < k && b < k {
                    assert(!pt_lt(old_r[b], old_r[a]));
                } else if a < k && b == k {
                    assert(pt_lt(old_r[a], pp));
                } else if a < k {
                    assert(pt_lt(old_r[a], pp));
                    assert(!pt_lt(old_r[b - 1], old_r[k as int]) || b - 1 == k);
                } else if a == k {
                    assert(!pt_lt(old_r[k as int], pp));
                    if b - 1 > k {
                        assert(!pt_lt(old_r[b - 1], old_r[k as int]));
                    }
                } else {
                    assert(!pt_lt(old_r[b - 1], old_r[a - 1]));
                }
            }
            lemma_insert_multiset(old_r, k as int, pp);
            let before = pts(v@).take(i as int);
            assert(pts(v@).take(i + 1) =~= before.push(pp));
            vstd::seq_lib::to_multiset_build(before, pp);
            assert(pts(r@).to_multiset() == old_r.to_multiset().insert(pp));
        }
        i = i + 1;
    }
    assert(pts(v@).take(v@.len() as int) =~= pts(v@));
    r
}

pub proof fn lemma_seq_min(s: Seq<int>)
    ensures
        forall|i: int| 0 <= i < s.len() ==> seq_min(s) <= #[trigger] s[i],
        s.len() > 0 ==> exists|i: int| 0 <= i < s.len() && s[i] == seq_min(s),
        s.len() == 0 ==> seq_min(s) == 0,
    decreases s.len(),
{
    if s.len() > 1 {
        lemma_seq_min(s.drop_last());
        assert forall|i: int| 0 <= i < s.len() implies seq_min(s) <= #[trigger] s[i] by {
            if i < s.len() - 1 {
                assert(s.drop_last()[i] == s[i]);
            }
        }
        if s.last() >= seq_min(s.drop_last()) {
            let i = choose|i: int|
                0 <= i < s.drop_last().len() && s.drop_last()[i] == seq_min(s.drop_last());
            assert(s[i] == seq_min(s));
        } else {
            assert(s[s.len() - 1] == seq_min(s));
        }
    } else if s.len() == 1 {
        assert(s[0] == seq_min(s));
    }
}

pub proof fn lemma_seq_max(s: Seq<int>)
    ensures
        forall|i: int| 0 <= i < s.len() ==> seq_max(s) >= #[trigger] s[i],
        s.len() > 0 ==> exists|i: int| 0 <= i < s.len() && s[i] == seq_max(s),
    decreases s.len(),
{
    if s.len() > 1 {
        lemma_seq_max(s.drop_last());
        assert forall|i: int| 0 <= i < s.len() implies seq_max(s) >= #[trigger] s[i] by {
            if i < s.len() - 1 {
                assert(s.drop_last()[i] == s[i]);
            }
        }
        if s.last() <= seq_max(s.drop_last()) {
            let i = choose|i: int|
                0 <= i < s.drop_last().len() && s.drop_last()[i] == seq_max(s.drop_last());
            assert(s[i] == seq_max(s));
        } else {
            assert(s[s.len() - 1] == seq_max(s));
        }
    } else if s.len() == 1 {
        assert(s[0] == seq_max(s));
    }
}

/// Every coordinate is a 32-bit integer.
pub open spec fn coords_ok(s: Seq<(int, int)>) -> bool {
    forall|i: int|
        0 <= i < s.len() ==> i32::MIN <= #[trigger] s[i].0 <= i32::MAX && i32::MIN <= s[i].1
            <= i32::MAX
}

fn min_coord(v: &Vec<(i64, i64)>, use_y: bool) -> (m: i64)
    ensures
        m == (if use_y {
            seq_min(ys(pts(v@)))
        } else {
            seq_min(xs(pts(v@)))
        }),
{
    let ghost s = if use_y {
        ys(pts(v@))
    } else {
        xs(pts(v@))
    };
    if v.len() == 0 {
        return 0;
    }
    let mut m = if use_y {
        v[0].1
    } else {
        v[0].0
    };
    assert(s.take(1) =~= seq![s[0]]);
    let mut i: usize = 1;
    while i < v.len()
        invariant
            1 <= i <= v@.len(),
            s.len() == v@.len(),
            forall|j: int|
                0 <= j < v@.len() ==> #[trigger] s[j] == (if use_y {
                    v@[j].1 as int
                } else {
                    v@[j].0 as int
                }),
            m == seq_min(s.take(i as int)),
        decreases v@.len() - i,
    {
        let c = if use_y {
            v[i].1
        } else {
            v[i].0
        };
        assert(s.take(i + 1).drop_last() =~= s.take(i as int));
        if c < m {
            m = c;
        }
        i = i + 1;
    }
    assert(s.take(v@.len() as int) =~= s);
    m
}

/// The points moved to the origin and sorted.
fn normalized_set(points: &Vec<(i64, i64)>) -> (r: Vec<(i64, i64)>)
    requires
        coords_ok(pts(points@)),
    ensures
        sorted_le(pts(r@)),
        pts(r@).to_multiset() == to_origin(pts(points@)).to_multiset(),
        r@.len() == points@.len(),
        pts(points@).no_duplicates() ==> strictly_sorted(pts(r@)) && pts(r@).to_set() == to_origin(
            pts(points@),
        ).to_set(),
{
    let ghost s = pts(points@);
    let min_x = min_coord(points, false);
    let min_y = min_coord(points, true);
    proof {
        lemma_seq_min(xs(s));
        lemma_seq_min(ys(s));
        if s.len() > 0 {
            let i = choose|i: int| 0 <= i < xs(s).len() && xs(s)[i] == seq_min(xs(s));
            let j = choose|j: int| 0 <= j < ys(s).len() && ys(s)[j] == seq_min(ys(s));
            assert(xs(s)[i] == s[i].0);
            assert(ys(s)[j] == s[j].1);
        }
        assert(i32::MIN <= min_x <= i32::MAX && i32::MIN <= min_y <= i32::MAX);
        assert forall|j: int| 0 <= j < s.len() implies min_x <= #[trigger] s[j].0 && min_y
            <= s[j].1 by {
            assert(xs(s)[j] == s[j].0);
            assert(ys(s)[j] == s[j].1);
        }
    }
    let mut shifted: Vec<(i64, i64)> = Vec::new();
    let mut i: usize = 0;
    while i < points.len()
        invariant
            i <= points@.len(),
            s == pts(points@),
            coords_ok(s),
            min_x == seq_min(xs(s)),
            min_y == seq_min(ys(s)),
            forall|j: int| 0 <= j < s.len() ==> min_x <= #[trigger] s[j].0 && min_y <= s[j].1,
            i32::MIN <= min_x <= i32::MAX,
            i32::MIN <= min_y <= i32::MAX,
            pts(shifted@) == to_origin(s).take(i as int),
        decreases points@.len() - i,
    {
        let p = points[i];
        assert(s[i as int] == (p.0 as int, p.1 as int));
        assert(xs(s)[i as int] == p.0 && ys(s)[i as int] == p.1);
        let q = (p.0 - min_x, p.1 - min_y);
        let ghost before = pts(shifted@);
        shifted.push(q);
        assert(to_origin(s)[i as int] == (q.0 as int, q.1 as int));
        assert(pts(shifted@) =~= before.push((q.0 as int, q.1 as int)));
        assert(to_origin(s).take(i + 1) =~= to_origin(s).take(i as int).push(to_origin(s)[i as int]));
        i = i + 1;
    }
    assert(to_origin(s).take(s.len() as int) =~= to_origin(s));
    let r = sort_points(&shifted);
    proof {
        if s.no_duplicates() {
            assert(pts(shifted@).no_duplicates()) by {
                assert forall|a: int, b: int|
                    0 <= a < pts(shifted@).len() && 0 <= b < pts(shifted@).len() && a != b implies pts(
                    shifted@,
                )[a] != pts(shifted@)[b] by {
                    assert(s[a] != s[b]);
                }
            }
            lemma_sorted_unique(pts(r@), pts(shifted@));
        }
    }
    r
}

/// 32-bit coordinates whose negations are 32-bit too (none is `i32::MIN`),
/// so that every rotation and reflection keeps them 32-bit.
pub open spec fn negatable_coords(s: Seq<(int, int)>) -> bool {
    forall|i: int|
        0 <= i < s.len() ==> -i32::MAX <= #[trigger] s[i].0 <= i32::MAX && -i32::MAX <= s[i].1
            <= i32::MAX
}

fn transform_point(p: (i64, i64), t: usize) -> (q: (i64, i64))
    requires
        -i32::MAX <= p.0 <= i32::MAX,
        -i32::MAX <= p.1 <= i32::MAX,
        t < 8,
    ensures
        (q.0 as int, q.1 as int) == transform((p.0 as int, p.1 as int), t as int),
        -i32::MAX <= q.0 <= i32::MAX,
        -i32::MAX <= q.1 <= i32::MAX,
{
    let (x, y) = p;
    if t == 0 {
        (x, y)
    } else if t == 1 {
        (x, -y)
    } else if t == 2 {
        (-x, y)
    } else if t == 3 {
        (-x, -y)
    } else if t == 4 {
        (y, x)
    } else if t == 5 {
        (y, -x)
    } else if t == 6 {
        (-y, x)
    } else {
        (-y, -x)
    }
}

proof fn lemma_transform_injective(a: (int, int), b: (int, int), t: int)
    requires
        transform(a, t) == transform(b, t),
    ensures
        a == b,
{
}

fn transformed(points: &Vec<(i64, i64)>, t: usize) -> (r: Vec<(i64, i64)>)
    requires
        negatable_coords(pts(points@)),
        t < 8,
    ensures
        pts(r@) == pts(points@).map_values(|p: (int, int)| transform(p, t as int)),
        negatable_coords(pts(r@)),
{
    let ghost target = pts(points@).map_values(|p: (int, int)| transform(p, t as int));
    let mut r: Vec<(i64, i64)> = Vec::new();
    let mut i: usize = 0;
    while i < points.len()
        invariant
            i <= points@.len(),
            t < 8,
            negatable_coords(pts(points@)),
            target == pts(points@).map_values(|p: (int, int)| transform(p, t as int)),
            pts(r@) == target.take(i as int),
            negatable_coords(pts(r@)),
        decreases points@.len() - i,
    {
        let p = points[i];
        assert(pts(points@)[i as int] == (p.0 as int, p.1 as int));
        let q = transform_point(p, t);
        let ghost before = pts(r@);
        r.push(q);
        assert(pts(r@) =~= before.push((q.0 as int, q.1 as int)));
        assert(target.take(i + 1) =~= target.take(i as int).push(target[i as int]));
        i = i + 1;
    }
    assert(target.take(points@.len() as int) =~= target);
    r
}

fn points_equal(a: &Vec<(i64, i64)>, b: &Vec<(i64, i64)>) -> (r: bool)
    ensures
        r == (pts(a@) == pts(b@)),
{
    if a.len() != b.len() {
        assert(pts(a@).len() != pts(b@).len());
        return false;
    }
    let mut i: usize = 0;
    while i < a.len()
        invariant
            i <= a@.len() == b@.len(),
            forall|j: int| 0 <= j < i ==> pts(a@)[j] == pts(b@)[j],
        decreases a@.len() - i,
    {
        if a[i].0 != b[i].0 || a[i].1 != b[i].1 {
            assert(pts(a@)[i as int] != pts(b@)[i as int]);
            return false;
        }
        i = i + 1;
    }
    assert(pts(a@) =~= pts(b@));
    true
}

/// Some entry of `vs` holds the points of orientation `t` of `s`.
pub open spec fn has_variant(vs: Seq<Vec<(i64, i64)>>, s: Seq<(int, int)>, t: int) -> bool {
    exists|j: int| 0 <= j < vs.len() && #[trigger] pts(vs[j]@).to_set() == variant(s, t).to_set()
}

/// `v` holds the points of one orientation of `s`.
pub open spec fn is_some_variant(v: Seq<(int, int)>, s: Seq<(int, int)>) -> bool {
    exists|t: int| 0 <= t < 8 && v.to_set() == #[trigger] variant(s, t).to_set()
}

/// The points of `s` in strictly increasing order.
pub open spec fn sorted_form(s: Seq<(int, int)>) -> Seq<(int, int)> {
    choose|q: Seq<(int, int)>| strictly_sorted(q) && q.to_set() == s.to_set()
}

/// The orientations `0..t` of `s`, each moved to the origin and sorted,
/// in order, each kept only where it first appears.
pub open spec fn kept_variants(s: Seq<(int, int)>, t: int) -> Seq<Seq<(int, int)>>
    decreases t,
{
    if t <= 0 {
        Seq::empty()
    } else {
        let prev = kept_variants(s, t - 1);
        let v = sorted_form(variant(s, t - 1));
        if prev.contains(v) {
            prev
        } else {
            prev.push(v)
        }
    }
}

/// The integer points of each entry.
pub open spec fn pts_all(vs: Seq<Vec<(i64, i64)>>) -> Seq<Seq<(int, int)>> {
    vs.map_values(|v: Vec<(i64, i64)>| pts(v@))
}

/// The distinct orientations of `points`, each moved to the origin and
/// sorted, in the order of `transform` and each kept where it first appears.
fn pattern_variants(points: &Vec<(i64, i64)>) -> (r: Vec<Vec<(i64, i64)>>)
    requires
        negatable_coords(pts(points@)),
        pts(points@).no_duplicates(),
    ensures
        pts_all(r@) == kept_variants(pts(points@), 8),
        forall|j: int| 0 <= j < r@.len() ==> strictly_sorted(#[trigger] pts(r@[j]@)),
        forall|t: int| 0 <= t < 8 ==> #[trigger] has_variant(r@, pts(points@), t),
        forall|j: int|
            0 <= j < r@.len() ==> #[trigger] is_some_variant(pts(r@[j]@), pts(points@)),
{
    let ghost s = pts(points@);
    let mut variants: Vec<Vec<(i64, i64)>> = Vec::new();
    let mut t: usize = 0;
    while t < 8
        invariant
            t <= 8,
            s == pts(points@),
            negatable_coords(s),
            s.no_duplicates(),
            forall|j: int| 0 <= j < variants@.len() ==> strictly_sorted(#[trigger] pts(variants@[j]@)),
            forall|u: int| 0 <= u < t ==> #[trigger] has_variant(variants@, s, u),
            forall|j: int|
                0 <= j < variants@.len() ==> #[trigger] is_some_variant(pts(variants@[j]@), s),
            pts_all(variants@) == kept_variants(s, t as int),
        decreases 8 - t,
    {
        let turned = transformed(points, t);
        let ghost ts = s.map_values(|p: (int, int)| transform(p, t as int));
        proof {
            assert forall|a: int, b: int|
                0 <= a < ts.len() && 0 <= b < ts.len() && a != b implies ts[a] != ts[b] by {
                if ts[a] == ts[b] {
                    lemma_transform_injective(s[a], s[b], t as int);
                }
            }
        }
        let normalized = normalized_set(&turned);
        assert(to_origin(ts) == variant(s, t as int));
        proof {
            let q = sorted_form(variant(s, t as int));
            assert(strictly_sorted(pts(normalized@)) && pts(normalized@).to_set() == variant(
                s,
                t as int,
            ).to_set());
            lemma_sorted_sets_equal(q, pts(normalized@));
        }
        let mut seen = false;
        let mut j: usize = 0;
        while j < variants.len()
            invariant
                j <= variants@.len(),
                seen == exists|k: int|
                    0 <= k < j && #[trigger] pts(variants@[k]@) == pts(normalized@),
            decreases variants@.len() - j,
        {
            if points_equal(&variants[j], &normalized) {
                seen = true;
            }
            j = j + 1;
        }
        let ghost old_variants = variants@;
        let ghost kv = sorted_form(variant(s, t as int));
        proof {
            assert(kv == pts(normalized@));
            let prev = kept_variants(s, t as int);
            assert(prev == pts_all(old_variants));
            if seen {
                let k = choose|k: int| 0 <= k < j && #[trigger] pts(variants@[k]@) == pts(normalized@);
                assert(prev[k] == kv);
            } else if prev.contains(kv) {
                let k = choose|k: int| 0 <= k < prev.len() && prev[k] == kv;
                assert(pts(variants@[k]@) == pts(normalized@));
            }
        }
        if !seen {
            variants.push(normalized);
            proof {
                assert(pts_all(variants@) =~= pts_all(old_variants).push(kv));
                let last = variants@.len() - 1;
                assert(variants@[last] == normalized);
                assert(pts(variants@[last]@).to_set() == variant(s, t as int).to_set());
                assert forall|u: int| 0 <= u < t + 1 implies #[trigger] has_variant(
                    variants@,
                    s,
                    u,
                ) by {
                    if u < t {
                        assert(has_variant(old_variants, s, u));
                        let k = choose|k: int|
                            0 <= k < old_variants.len() && #[trigger] pts(old_variants[k]@).to_set()
                                == variant(s, u).to_set();
                        assert(variants@[k] == old_variants[k]);
                    }
                }
                assert forall|k: int| 0 <= k < variants@.len() implies #[trigger] is_some_variant(
                    pts(variants@[k]@),
                    s,
                ) by {
                    if k < old_variants.len() {
                        assert(variants@[k] == old_variants[k]);
                        assert(is_some_variant(pts(old_variants[k]@), s));
                    } else {
                        assert(pts(variants@[k]@).to_set() == variant(s, t as int).to_set());
                    }
                }
            }
        } else {
            proof {
                let k = choose|k: int|
                    0 <= k < variants@.len() && #[trigger] pts(variants@[k]@) == pts(normalized@);
                assert(pts(variants@[k]@).to_set() == variant(s, t as int).to_set());
                assert(has_variant(variants@, s, t as int));
            }
        }
        t = t + 1;
    }
    variants
}

/// A sequence that repeats an item has fewer distinct items than entries.
proof fn lemma_repeats_shrink_set(s: Seq<(int, int)>)
    requires
        !s.no_duplicates(),
    ensures
        s.to_set().len() < s.len(),
{
    let (a, b) = choose|a: int, b: int| 0 <= a < s.len() && 0 <= b < s.len() && a != b && s[a] == s[b];
    let r = s.remove(b);
    assert forall|x: (int, int)| s.to_set().contains(x) <==> r.to_set().contains(x) by {
        if s.to_set().contains(x) {
            let i = choose|i: int| 0 <= i < s.len() && s[i] == x;
            let j = if i == b { a } else { i };
            if j < b {
                assert(r[j] == x);
            } else {
                assert(r[j - 1] == x);
            }
        }
        if r.to_set().contains(x) {
            let i = choose|i: int| 0 <= i < r.len() && r[i] == x;
            if i < b {
                assert(s[i] == x);
            } else {
                assert(s[i + 1] == x);
            }
        }
    }
    assert(s.to_set() =~= r.to_set());
    r.lemma_cardinality_of_set();
}

/// Whether `component` has the shape of `pattern` up to rotation,
/// reflection and position; a component that lists a point twice has no
/// pattern's shape.
fn pattern_matches(component: &Vec<(i64, i64)>, pattern: &Vec<(i64, i64)>) -> (r: bool)
    requires
        coords_ok(pts(component@)),
        pts(pattern@).no_duplicates(),
        negatable_coords(pts(pattern@)),
    ensures
        r == same_shape(pts(component@), pts(pattern@)),
{
    if component.len() != pattern.len() {
        return false;
    }
    if has_repeat(component) {
        proof {
            let c = pts(component@);
            let ps = pts(pattern@);
            let o = to_origin(c);
            assert(!o.no_duplicates()) by {
                let (a, b) = choose|a: int, b: int|
                    0 <= a < c.len() && 0 <= b < c.len() && a != b && c[a] == c[b];
                assert(o[a] == o[b]);
            }
            lemma_repeats_shrink_set(o);
            if same_shape(c, ps) {
                let t = choose|t: int|
                    0 <= t < 8 && #[trigger] variant(ps, t).to_set() == to_origin(c).to_set();
                let u = ps.map_values(|q: (int, int)| transform(q, t));
                let v = variant(ps, t);
                assert forall|a: int, b: int| 0 <= a < v.len() && 0 <= b < v.len() && a != b implies v[a]
                    != v[b] by {
                    assert(u[a] == transform(ps[a], t) && u[b] == transform(ps[b], t));
                    if v[a] == v[b] {
                        lemma_transform_injective(ps[a], ps[b], t);
                    }
                }
                v.unique_seq_to_set();
            }
        }
        return false;
    }
    let normalized = normalized_set(component);
    let variants = pattern_variants(pattern);
    let ghost ps = pts(pattern@);
    let ghost target = to_origin(pts(component@)).to_set();
    let mut j: usize = 0;
    while j < variants.len()
        invariant
            j <= variants@.len(),
            component@.len() == pattern@.len(),
            ps == pts(pattern@),
            target == to_origin(pts(component@)).to_set(),
            strictly_sorted(pts(normalized@)),
            pts(normalized@).to_set() == target,
            forall|k: int| 0 <= k < variants@.len() ==> strictly_sorted(#[trigger] pts(variants@[k]@)),
            forall|k: int| 0 <= k < variants@.len() ==> #[trigger] is_some_variant(pts(variants@[k]@), ps),
            forall|k: int| 0 <= k < j ==> pts(#[trigger] variants@[k]@).to_set() != target,
        decreases variants@.len() - j,
    {
        if points_equal(&variants[j], &normalized) {
            proof {
                assert(is_some_variant(pts(variants@[j as int]@), ps));
                let t = choose|t: int|
                    0 <= t < 8 && pts(variants@[j as int]@).to_set() == #[trigger] variant(
                        ps,
                        t,
                    ).to_set();
                assert(variant(ps, t).to_set() == target);
            }
            return true;
        }
        proof {
            if pts(variants@[j as int]@).to_set() == target {
                lemma_sorted_sets_equal(pts(variants@[j as int]@), pts(normalized@));
            }
        }
        j = j + 1;
    }
    proof {
        if same_shape(pts(component@), ps) {
            let t = choose|t: int|
                0 <= t < 8 && #[trigger] variant(ps, t).to_set() == target;
            assert(has_variant(variants@, ps, t));
            let k = choose|k: int|
                0 <= k < variants@.len() && #[trigger] pts(variants@[k]@).to_set() == variant(
                    ps,
                    t,
                ).to_set();
            assert(pts(variants@[k]@).to_set() != target);
        }
    }
    false
}

proof fn lemma_pattern_cells_ok(p: KnownPattern)
    ensures
        pattern_cells(p).no_duplicates(),
        negatable_coords(pattern_cells(p)),
        forall|i: int|
            0 <= i < pattern_cells(p).len() ==> 0 <= #[trigger] pattern_cells(p)[i].0 <= 3 && 0
                <= pattern_cells(p)[i].1 <= 3,
        pattern_cells(p).len() <= 8,
{
    let c = pattern_cells(p);
    assert(c.no_duplicates()) by {
        assert forall|i: int, j: int| 0 <= i < c.len() && 0 <= j < c.len() && i != j implies c[i]
            != c[j] by {
            match p {
                KnownPattern::Block => {},
                KnownPattern::Beehive => {},
                KnownPattern::Loaf => {},
                KnownPattern::Blinker => {},
                KnownPattern::Toad => {},
                KnownPattern::Beacon => {},
                KnownPattern::Glider => {},
            }
        }
    }
}

fn cells_vec(p: KnownPattern) -> (v: Vec<(i64, i64)>)
    ensures
        pts(v@) == pattern_cells(p),
{
    let v: Vec<(i64, i64)> = match p {
        KnownPattern::Block => vec![(0, 0), (1, 0), (0, 1), (1, 1)],
        KnownPattern::Beehive => vec![(1, 0), (2, 0), (0, 1), (3, 1), (1, 2), (2, 2)],
        KnownPattern::Loaf => vec![(1, 0), (2, 0), (0, 1), (3, 1), (1, 2), (3, 2), (2, 3)],
        KnownPattern::Blinker => vec![(0, 0), (1, 0), (2, 0)],
        KnownPattern::Toad => vec![(1, 0), (2, 0), (3, 0), (0, 1), (1, 1), (2, 1)],
        KnownPattern::Beacon => vec![(0, 0), (1, 0), (0, 1), (1, 1), (2, 2), (3, 2), (2, 3), (3, 3)],
        KnownPattern::Glider => vec![(1, 0), (2, 1), (0, 2), (1, 2), (2, 2)],
    };
    assert(pts(v@) =~= pattern_cells(p));
    v
}

/// The patterns in the order they are tried, each with its cells.
fn known_patterns() -> (r: Vec<(KnownPattern, Vec<(i64, i64)>)>)
    ensures
        r@.len() == 7,
        forall|k: int|
            0 <= k < 7 ==> (#[trigger] r@[k]).0 == pattern_at(k) && pts(r@[k].1@) == pattern_cells(
                pattern_at(k),
            ),
{
    let mut r: Vec<(KnownPattern, Vec<(i64, i64)>)> = Vec::new();
    let order = [
        KnownPattern::Block,
        KnownPattern::Beehive,
        KnownPattern::Loaf,
        KnownPattern::Blinker,
        KnownPattern::Toad,
        KnownPattern::Beacon,
        KnownPattern::Glider,
    ];
    let mut k: usize = 0;
    while k < 7
        invariant
            k <= 7,
            r@.len() == k,
            forall|j: int| 0 <= j < 7 ==> #[trigger] order@[j] == pattern_at(j),
            forall|j: int|
                0 <= j < k ==> (#[trigger] r@[j]).0 == pattern_at(j) && pts(r@[j].1@)
                    == pattern_cells(pattern_at(j)),
        decreases 7 - k,
    {
        let p = order[k];
        r.push((p, cells_vec(p)));
        k = k + 1;
    }
    r
}

/// The first pattern, in detection order from `k` on, whose shape `n` has.
pub open spec fn first_matching(n: Seq<(int, int)>, k: int) -> Option<KnownPattern>
    decreases 7 - k,
{
    if k >= 7 || k < 0 {
        None
    } else if same_shape(n, pattern_cells(pattern_at(k))) {
        Some(pattern_at(k))
    } else {
        first_matching(n, k + 1)
    }
}

/// The points moved by `(-dx, -dy)`, each coordinate then cut to 32 bits
/// (two's complement), as `as i32` does.
pub open spec fn shift_trunc(c: Seq<(int, int)>, dx: int, dy: int) -> Seq<(int, int)> {
    c.map_values(|p: (int, int)| (((p.0 - dx) as i32) as int, ((p.1 - dy) as i32) as int))
}

/// The points moved so that their smallest x and y are 0, with each
/// coordinate cut to 32 bits.
pub open spec fn normalized_points(c: Seq<(int, int)>) -> Seq<(int, int)> {
    shift_trunc(c, seq_min(xs(c)), seq_min(ys(c)))
}

/// Classification of a group of cells: the first known pattern (block,
/// beehive, loaf, blinker, toad, beacon, glider) whose shape the group's
/// normalized points have in some orientation, with the group's bounding
/// box `(x, y, width, height)`; none for an empty group, one of more than
/// twelve cells or one whose normalized points repeat.
pub open spec fn classify_points(c: Seq<(int, int)>) -> Option<(KnownPattern, int, int, int, int)> {
    if c.len() == 0 || c.len() > 12 {
        None
    } else {
        let mx = seq_min(xs(c));
        let my = seq_min(ys(c));
        let n = normalized_points(c);
        if !n.no_duplicates() {
            None
        } else {
            match first_matching(n, 0) {
                None => None,
                Some(k) => Some((k, mx, my, seq_max(xs(c)) - mx + 1, seq_max(ys(c)) - my + 1)),
            }
        }
    }
}

/// The spread of the x and of the y coordinates is at most `limit`.
pub open spec fn spread_within(c: Seq<(int, int)>, limit: int) -> bool {
    &&& seq_max(xs(c)) - seq_min(xs(c)) <= limit
    &&& seq_max(ys(c)) - seq_min(ys(c)) <= limit
}

/// The integer points of grid positions.
pub open spec fn upts(v: Seq<(usize, usize)>) -> Seq<(int, int)> {
    v.map_values(|p: (usize, usize)| (p.0 as int, p.1 as int))
}

/// A recognised pattern and its bounding box on the grid.
#[derive(Debug, Clone, Copy)]
pub struct PatternDetection {
    pub pattern: KnownPattern,
    pub x: usize,
    pub y: usize,
    pub width: usize,
    pub height: usize,
}

/// A detection as `(pattern, x, y, width, height)`.
pub open spec fn detection_view(d: PatternDetection) -> (KnownPattern, int, int, int, int) {
    (d.pattern, d.x as int, d.y as int, d.width as int, d.height as int)
}

fn coord_bound(v: &Vec<(usize, usize)>, use_y: bool, want_max: bool) -> (m: usize)
    requires
        v@.len() > 0,
    ensures
        m == (if use_y {
            if want_max {
                seq_max(ys(upts(v@)))
            } else {
                seq_min(ys(upts(v@)))
            }
        } else {
            if want_max {
                seq_max(xs(upts(v@)))
            } else {
                seq_min(xs(upts(v@)))
            }
        }),
{
    let ghost s = if use_y {
        ys(upts(v@))
    } else {
        xs(upts(v@))
    };
    let mut m = if use_y {
        v[0].1
    } else {
        v[0].0
    };
    assert(s.take(1) =~= seq![s[0]]);
    let mut i: usize = 1;
    while i < v.len()
        invariant
            1 <= i <= v@.len(),
            s.len() == v@.len(),
            forall|j: int|
                0 <= j < v@.len() ==> #[trigger] s[j] == (if use_y {
                    v@[j].1 as int
                } else {
                    v@[j].0 as int
                }),
            m == (if want_max {
                seq_max(s.take(i as int))
            } else {
                seq_min(s.take(i as int))
            }),
        decreases v@.len() - i,
    {
        let c = if use_y {
            v[i].1
        } else {
            v[i].0
        };
        assert(s.take(i + 1).drop_last() =~= s.take(i as int));
        if want_max {
            if c > m {
                m = c;
            }
        } else {
            if c < m {
                m = c;
            }
        }
        i = i + 1;
    }
    assert(s.take(v@.len() as int) =~= s);
    m
}

/// Points whose coordinates lie in `0..=bound` spread at most `bound`.
pub(crate) proof fn lemma_spread_of_bounded(c: Seq<(int, int)>, bound: int)
    requires
        0 <= bound,
        forall|i: int| 0 <= i < c.len() ==> 0 <= #[trigger] c[i].0 <= bound && 0 <= c[i].1 <= bound,
    ensures
        spread_within(c, bound),
{
    lemma_seq_min(xs(c));
    lemma_seq_min(ys(c));
    lemma_seq_max(xs(c));
    lemma_seq_max(ys(c));
    if c.len() > 0 {
        let i0 = choose|i: int| 0 <= i < xs(c).len() && xs(c)[i] == seq_min(xs(c));
        let i1 = choose|i: int| 0 <= i < ys(c).len() && ys(c)[i] == seq_min(ys(c));
        let i2 = choose|i: int| 0 <= i < xs(c).len() && xs(c)[i] == seq_max(xs(c));
        let i3 = choose|i: int| 0 <= i < ys(c).len() && ys(c)[i] == seq_max(ys(c));
        assert(xs(c)[i0] == c[i0].0);
        assert(ys(c)[i1] == c[i1].1);
        assert(xs(c)[i2] == c[i2].0);
        assert(ys(c)[i3] == c[i3].1);
        assert(0 <= c[i0].0 && c[i2].0 <= bound && c[i1].0 >= 0 && c[i3].0 >= 0);
    } else {
        assert(xs(c).len() == 0 && ys(c).len() == 0);
        assert(seq_max(xs(c)) == 0 && seq_max(ys(c)) == 0);
    }
}

/// Whether some point is listed twice.
fn has_repeat(v: &Vec<(i64, i64)>) -> (r: bool)
    ensures
        r == !pts(v@).no_duplicates(),
{
    let n = v.len();
    let mut i: usize = 0;
    while i < n
        invariant
            n == v@.len(),
            i <= n,
            forall|a: int, b: int| 0 <= a < i && 0 <= b < n && a != b ==> v@[a] != v@[b],
        decreases n - i,
    {
        let mut j: usize = 0;
        while j < n
            invariant
                n == v@.len(),
                i < n,
                j <= n,
                forall|a: int, b: int| 0 <= a < i && 0 <= b < n && a != b ==> v@[a] != v@[b],
                forall|b: int| 0 <= b < j && b != i ==> v@[i as int] != v@[b],
            decreases n - j,
        {
            if j != i && v[j].0 == v[i].0 && v[j].1 == v[i].1 {
                proof {
                    let u = pts(v@);
                    assert(u[i as int] == u[j as int]);
                }
                return true;
            }
            j = j + 1;
        }
        i = i + 1;
    }
    proof {
        let u = pts(v@);
        assert forall|a: int, b: int| 0 <= a < u.len() && 0 <= b < u.len() && a != b implies u[a]
            != u[b] by {
            assert(v@[a] != v@[b]);
        }
    }
    false
}

/// Classifies one group of cells (see `classify_points`). Coordinates are
/// moved to the origin and cut to 32 bits before they are compared with the
/// patterns.
pub fn classify_component(component: &Vec<(usize, usize)>) -> (r: Option<PatternDetection>)
    requires
        3 <= component@.len() <= 8 ==> spread_within(
            normalized_points(upts(component@)),
            i32::MAX as int,
        ),
        classify_points(upts(component@)) is Some ==> spread_within(
            upts(component@),
            usize::MAX - 1,
        ),
    ensures
        r is None <==> classify_points(upts(component@)) is None,
        r matches Some(d) ==> classify_points(upts(component@)) == Some(
            (d.pattern, d.x as int, d.y as int, d.width as int, d.height as int),
        ),
{
    classify_group(component)
}

/// `classify_component` for any group whose bounding box, when it is a
/// pattern, fits in `usize`.
pub(crate) fn classify_group(component: &Vec<(usize, usize)>) -> (r: Option<PatternDetection>)
    requires
        classify_points(upts(component@)) is Some ==> spread_within(
            upts(component@),
            usize::MAX - 1,
        ),
    ensures
        r is None <==> classify_points(upts(component@)) is None,
        r matches Some(d) ==> classify_points(upts(component@)) == Some(
            (d.pattern, d.x as int, d.y as int, d.width as int, d.height as int),
        ),
{
    if component.len() == 0 || component.len() > 12 {
        return None;
    }
    let ghost c = upts(component@);
    let min_x = coord_bound(component, false, false);
    let min_y = coord_bound(component, true, false);
    let max_x = coord_bound(component, false, true);
    let max_y = coord_bound(component, true, true);
    proof {
        lemma_seq_min(xs(c));
        lemma_seq_min(ys(c));
        lemma_seq_max(xs(c));
        lemma_seq_max(ys(c));
        assert forall|j: int| 0 <= j < c.len() implies min_x <= #[trigger] c[j].0 <= max_x && min_y
            <= c[j].1 <= max_y by {
            assert(xs(c)[j] == c[j].0);
            assert(ys(c)[j] == c[j].1);
        }
        assert(min_x <= c[0].0 <= max_x && min_y <= c[0].1 <= max_y);
    }
    let ghost n = normalized_points(c);
    let mut normalized: Vec<(i64, i64)> = Vec::new();
    let mut i: usize = 0;
    while i < component.len()
        invariant
            i <= component@.len(),
            c == upts(component@),
            n == shift_trunc(c, min_x as int, min_y as int),
            forall|j: int| 0 <= j < c.len() ==> min_x <= #[trigger] c[j].0 && min_y <= c[j].1,
            pts(normalized@) == n.take(i as int),
        decreases component@.len() - i,
    {
        let (x, y) = component[i];
        assert(c[i as int] == (x as int, y as int));
        let dx: usize = x - min_x;
        let dy: usize = y - min_y;
        let q: (i64, i64) = ((dx as i32) as i64, (dy as i32) as i64);
        assert(n[i as int] == (q.0 as int, q.1 as int));
        let ghost before = pts(normalized@);
        normalized.push(q);
        assert(pts(normalized@) =~= before.push((q.0 as int, q.1 as int)));
        assert(n.take(i + 1) =~= n.take(i as int).push(n[i as int]));
        i = i + 1;
    }
    assert(n.take(c.len() as int) =~= n);
    if has_repeat(&normalized) {
        return None;
    }
    proof {
        assert(coords_ok(n)) by {
            assert forall|j: int| 0 <= j < n.len() implies i32::MIN <= #[trigger] n[j].0 <= i32::MAX
                && i32::MIN <= n[j].1 <= i32::MAX by {
                let p = c[j];
                let a: i32 = (p.0 - min_x) as i32;
                let b: i32 = (p.1 - min_y) as i32;
                assert(n[j] == (a as int, b as int));
            }
        }
    }
    let patterns = known_patterns();
    let mut k: usize = 0;
    while k < 7
        invariant
            k <= 7,
            patterns@.len() == 7,
            forall|j: int|
                0 <= j < 7 ==> (#[trigger] patterns@[j]).0 == pattern_at(j) && pts(patterns@[j].1@)
                    == pattern_cells(pattern_at(j)),
            pts(normalized@) == n,
            n.no_duplicates(),
            coords_ok(n),
            first_matching(n, 0) == first_matching(n, k as int),
            min_x <= max_x,
            min_y <= max_y,
            c == upts(component@),
            0 < c.len() <= 12,
            n == normalized_points(c),
            classify_points(c) is Some ==> spread_within(c, usize::MAX - 1),
            min_x == seq_min(xs(c)),
            min_y == seq_min(ys(c)),
            max_x == seq_max(xs(c)),
            max_y == seq_max(ys(c)),
        decreases 7 - k,
    {
        let (pattern, cells) = (patterns[k].0, &patterns[k].1);
        proof {
            lemma_pattern_cells_ok(pattern_at(k as int));
        }
        if pattern_matches(&normalized, cells) {
            return Some(
                PatternDetection {
                    pattern,
                    x: min_x,
                    y: min_y,
                    width: max_x - min_x + 1,
                    height: max_y - min_y + 1,
                },
            );
        }
        k = k + 1;
    }
    None
}

proof fn lemma_same_set_extrema(a: Seq<(int, int)>, b: Seq<(int, int)>)
    requires
        a.to_set() == b.to_set(),
    ensures
        seq_min(xs(a)) == seq_min(xs(b)),
        seq_min(ys(a)) == seq_min(ys(b)),
        seq_max(xs(a)) == seq_max(xs(b)),
        seq_max(ys(a)) == seq_max(ys(b)),
        a.len() == 0 <==> b.len() == 0,
{
    lemma_same_set_extrema_half(a, b);
    lemma_same_set_extrema_half(b, a);
    if a.len() > 0 {
        assert(a.to_set().contains(a[0]));
    }
    if b.len() > 0 {
        assert(b.to_set().contains(b[0]));
    }
}

proof fn lemma_same_set_extrema_half(a: Seq<(int, int)>, b: Seq<(int, int)>)
    requires
        a.to_set() == b.to_set(),
    ensures
        a.len() > 0 ==> seq_min(xs(b)) <= seq_min(xs(a)) && seq_min(ys(b)) <= seq_min(ys(a))
            && seq_max(xs(b)) >= seq_max(xs(a)) && seq_max(ys(b)) >= seq_max(ys(a)),
{
    if a.len() > 0 {
        lemma_seq_min(xs(a));
        lemma_seq_min(ys(a));
        lemma_seq_max(xs(a));
        lemma_seq_max(ys(a));
        lemma_seq_min(xs(b));
        lemma_seq_min(ys(b));
        lemma_seq_max(xs(b));
        lemma_seq_max(ys(b));
        let i0 = choose|i: int| 0 <= i < xs(a).len() && xs(a)[i] == seq_min(xs(a));
        let i1 = choose|i: int| 0 <= i < ys(a).len() && ys(a)[i] == seq_min(ys(a));
        let i2 = choose|i: int| 0 <= i < xs(a).len() && xs(a)[i] == seq_max(xs(a));
        let i3 = choose|i: int| 0 <= i < ys(a).len() && ys(a)[i] == seq_max(ys(a));
        assert(a.to_set().contains(a[i0]));
        assert(a.to_set().contains(a[i1]));
        assert(a.to_set().contains(a[i2]));
        assert(a.to_set().contains(a[i3]));
        let j0 = choose|j: int| 0 <= j < b.len() && b[j] == a[i0];
        let j1 = choose|j: int| 0 <= j < b.len() && b[j] == a[i1];
        let j2 = choose|j: int| 0 <= j < b.len() && b[j] == a[i2];
        let j3 = choose|j: int| 0 <= j < b.len() && b[j] == a[i3];
        assert(xs(b)[j0] == xs(a)[i0]);
        assert(ys(b)[j1] == ys(a)[i1]);
        assert(xs(b)[j2] == xs(a)[i2]);
        assert(ys(b)[j3] == ys(a)[i3]);
    }
}

proof fn lemma_shift_same_set(a: Seq<(int, int)>, b: Seq<(int, int)>, dx: int, dy: int)
    requires
        a.to_set() == b.to_set(),
    ensures
        a.map_values(|p: (int, int)| (p.0 - dx, p.1 - dy)).to_set() == b.map_values(
            |p: (int, int)| (p.0 - dx, p.1 - dy),
        ).to_set(),
{
    let fa = a.map_values(|p: (int, int)| (p.0 - dx, p.1 - dy));
    let fb = b.map_values(|p: (int, int)| (p.0 - dx, p.1 - dy));
    assert forall|q: (int, int)| fa.to_set().contains(q) implies fb.to_set().contains(q) by {
        let i = choose|i: int| 0 <= i < fa.len() && fa[i] == q;
        assert(a.to_set().contains(a[i]));
        let j = choose|j: int| 0 <= j < b.len() && b[j] == a[i];
        assert(fb[j] == q);
    }
    assert forall|q: (int, int)| fb.to_set().contains(q) implies fa.to_set().contains(q) by {
        let i = choose|i: int| 0 <= i < fb.len() && fb[i] == q;
        assert(b.to_set().contains(b[i]));
        let j = choose|j: int| 0 <= j < a.len() && a[j] == b[i];
        assert(fa[j] == q);
    }
    assert(fa.to_set() =~= fb.to_set());
}

proof fn lemma_to_origin_same_set(a: Seq<(int, int)>, b: Seq<(int, int)>)
    requires
        a.to_set() == b.to_set(),
    ensures
        to_origin(a).to_set() == to_origin(b).to_set(),
{
    lemma_same_set_extrema(a, b);
    lemma_shift_same_set(a, b, seq_min(xs(a)), seq_min(ys(a)));
    assert(to_origin(a) =~= a.map_values(
        |p: (int, int)| (p.0 - seq_min(xs(a)), p.1 - seq_min(ys(a))),
    ));
    assert(to_origin(b) =~= b.map_values(
        |p: (int, int)| (p.0 - seq_min(xs(a)), p.1 - seq_min(ys(a))),
    ));
}

proof fn lemma_shift_trunc_same_set(a: Seq<(int, int)>, b: Seq<(int, int)>, dx: int, dy: int)
    requires
        a.to_set() == b.to_set(),
        a.no_duplicates(),
        b.no_duplicates(),
    ensures
        shift_trunc(a, dx, dy).to_set() == shift_trunc(b, dx, dy).to_set(),
        shift_trunc(a, dx, dy).no_duplicates() == shift_trunc(b, dx, dy).no_duplicates(),
{
    lemma_shift_trunc_half(a, b, dx, dy);
    lemma_shift_trunc_half(b, a, dx, dy);
    assert(shift_trunc(a, dx, dy).to_set() =~= shift_trunc(b, dx, dy).to_set());
}

proof fn lemma_shift_trunc_half(a: Seq<(int, int)>, b: Seq<(int, int)>, dx: int, dy: int)
    requires
        a.to_set() == b.to_set(),
        a.no_duplicates(),
        b.no_duplicates(),
    ensures
        forall|q: (int, int)|
            shift_trunc(a, dx, dy).to_set().contains(q) ==> shift_trunc(b, dx, dy).to_set().contains(
                q,
            ),
        shift_trunc(b, dx, dy).no_duplicates() ==> shift_trunc(a, dx, dy).no_duplicates(),
{
    let fa = shift_trunc(a, dx, dy);
    let fb = shift_trunc(b, dx, dy);
    assert forall|q: (int, int)| fa.to_set().contains(q) implies fb.to_set().contains(q) by {
        let i = choose|i: int| 0 <= i < fa.len() && fa[i] == q;
        assert(a.to_set().contains(a[i]));
        let j = choose|j: int| 0 <= j < b.len() && b[j] == a[i];
        assert(fb[j] == q);
    }
    if fb.no_duplicates() {
        assert forall|i: int, j: int| 0 <= i < fa.len() && 0 <= j < fa.len() && i != j implies fa[i]
            != fa[j] by {
            assert(a.to_set().contains(a[i]));
            assert(a.to_set().contains(a[j]));
            let k = choose|k: int| 0 <= k < b.len() && b[k] == a[i];
            let l = choose|l: int| 0 <= l < b.len() && b[l] == a[j];
            assert(a[i] != a[j]);
            assert(fb[k] == fa[i]);
            assert(fb[l] == fa[j]);
        }
    }
}

proof fn lemma_first_matching_same_set(a: Seq<(int, int)>, b: Seq<(int, int)>, k: int)
    requires
        a.to_set() == b.to_set(),
        a.len() == b.len(),
    ensures
        first_matching(a, k) == first_matching(b, k),
    decreases 7 - k,
{
    lemma_to_origin_same_set(a, b);
    if 0 <= k < 7 {
        lemma_first_matching_same_set(a, b, k + 1);
    }
}

/// Classification depends only on which cells the group holds, not on the
/// order in which they are listed.
pub proof fn lemma_classify_same_set(a: Seq<(int, int)>, b: Seq<(int, int)>)
    requires
        a.no_duplicates(),
        b.no_duplicates(),
        a.to_set() == b.to_set(),
    ensures
        classify_points(a) == classify_points(b),
{
    a.unique_seq_to_set();
    b.unique_seq_to_set();
    lemma_same_set_extrema(a, b);
    let mx = seq_min(xs(a));
    let my = seq_min(ys(a));
    lemma_shift_trunc_same_set(a, b, mx, my);
    lemma_first_matching_same_set(shift_trunc(a, mx, my), shift_trunc(b, mx, my), 0);
}

proof fn lemma_min_shift(s: Seq<int>, d: int)
    ensures
        seq_min(s.map_values(|v: int| v + d)) == seq_min(s) + d || s.len() == 0,
{
    let t = s.map_values(|v: int| v + d);
    lemma_seq_min(s);
    lemma_seq_min(t);
    if s.len() > 0 {
        let i = choose|i: int| 0 <= i < s.len() && s[i] == seq_min(s);
        let j = choose|j: int| 0 <= j < t.len() && t[j] == seq_min(t);
        assert(t[i] == s[i] + d);
        assert(t[j] == s[j] + d);
    }
}

/// A group of cells that is one of the eight rotations or reflections of a
/// pattern, placed anywhere, has that pattern's shape: the detector does not
/// depend on where a pattern stands or how it is turned.
pub proof fn law_shape_ignores_position_and_orientation(
    pattern: Seq<(int, int)>,
    t: int,
    dx: int,
    dy: int,
)
    requires
        0 <= t < 8,
    ensures
        same_shape(
            pattern.map_values(|p: (int, int)| (transform(p, t).0 + dx, transform(p, t).1 + dy)),
            pattern,
        ),
{
    let turned = pattern.map_values(|p: (int, int)| transform(p, t));
    let c = pattern.map_values(|p: (int, int)| (transform(p, t).0 + dx, transform(p, t).1 + dy));
    assert(xs(c) =~= xs(turned).map_values(|v: int| v + dx));
    assert(ys(c) =~= ys(turned).map_values(|v: int| v + dy));
    lemma_min_shift(xs(turned), dx);
    lemma_min_shift(ys(turned), dy);
    assert(to_origin(c) =~= variant(pattern, t));
    assert(variant(pattern, t).to_set() == to_origin(c).to_set());
}

/// The largest minus the smallest element.
pub open spec fn spread1(s: Seq<int>) -> int {
    seq_max(s) - seq_min(s)
}

proof fn lemma_is_min(s: Seq<int>, m: int, i: int)
    requires
        0 <= i < s.len(),
        s[i] == m,
        forall|j: int| 0 <= j < s.len() ==> m <= #[trigger] s[j],
    ensures
        seq_min(s) == m,
{
    lemma_seq_min(s);
    let k = choose|k: int| 0 <= k < s.len() && s[k] == seq_min(s);
    assert(seq_min(s) <= s[i]);
    assert(m <= s[k]);
}

proof fn lemma_is_max(s: Seq<int>, m: int, i: int)
    requires
        0 <= i < s.len(),
        s[i] == m,
        forall|j: int| 0 <= j < s.len() ==> #[trigger] s[j] <= m,
    ensures
        seq_max(s) == m,
{
    lemma_seq_max(s);
    let k = choose|k: int| 0 <= k < s.len() && s[k] == seq_max(s);
    assert(seq_max(s) >= s[i]);
    assert(s[k] <= m);
}

/// Negating every element, or adding a constant, keeps the spread.
proof fn lemma_spread_affine(u: Seq<int>, v: Seq<int>, neg: bool, d: int)
    requires
        u.len() == v.len(),
        v.len() > 0,
        forall|i: int| 0 <= i < u.len() ==> #[trigger] u[i] == (if neg {
            -v[i]
        } else {
            v[i]
        }) + d,
    ensures
        spread1(u) == spread1(v),
        !neg ==> seq_min(u) == seq_min(v) + d,
{
    lemma_seq_min(v);
    lemma_seq_max(v);
    let a = choose|i: int| 0 <= i < v.len() && v[i] == seq_min(v);
    let b = choose|i: int| 0 <= i < v.len() && v[i] == seq_max(v);
    if neg {
        assert forall|j: int| 0 <= j < u.len() implies -seq_max(v) + d <= #[trigger] u[j] by {
            assert(v[j] <= seq_max(v));
        }
        assert forall|j: int| 0 <= j < u.len() implies #[trigger] u[j] <= -seq_min(v) + d by {
            assert(seq_min(v) <= v[j]);
        }
        assert(u[b] == -seq_max(v) + d);
        assert(u[a] == -seq_min(v) + d);
        lemma_is_min(u, -seq_max(v) + d, b);
        lemma_is_max(u, -seq_min(v) + d, a);
    } else {
        assert forall|j: int| 0 <= j < u.len() implies seq_min(v) + d <= #[trigger] u[j] by {
            assert(seq_min(v) <= v[j]);
        }
        assert forall|j: int| 0 <= j < u.len() implies #[trigger] u[j] <= seq_max(v) + d by {
            assert(v[j] <= seq_max(v));
        }
        assert(u[a] == seq_min(v) + d);
        assert(u[b] == seq_max(v) + d);
        lemma_is_min(u, seq_min(v) + d, a);
        lemma_is_max(u, seq_max(v) + d, b);
    }
}

/// A rotation or reflection keeps the two spreads of a group of points, or
/// swaps them.
proof fn lemma_transform_spreads(s: Seq<(int, int)>, t: int)
    requires
        s.len() > 0,
        0 <= t < 8,
    ensures
        ({
            let u = s.map_values(|p: (int, int)| transform(p, t));
            ||| (spread1(xs(u)) == spread1(xs(s)) && spread1(ys(u)) == spread1(ys(s)))
            ||| (spread1(xs(u)) == spread1(ys(s)) && spread1(ys(u)) == spread1(xs(s)))
        }),
{
    let u = s.map_values(|p: (int, int)| transform(p, t));
    let swap = t >= 4;
    let nx = t == 2 || t == 3 || t == 6 || t == 7;
    let ny = t == 1 || t == 3 || t == 5 || t == 7;
    let sx = if swap { ys(s) } else { xs(s) };
    let sy = if swap { xs(s) } else { ys(s) };
    assert forall|i: int| 0 <= i < u.len() implies #[trigger] xs(u)[i] == (if nx {
        -sx[i]
    } else {
        sx[i]
    }) + 0 && ys(u)[i] == (if ny {
        -sy[i]
    } else {
        sy[i]
    }) + 0 by {
        assert(u[i] == transform(s[i], t));
        assert(xs(s)[i] == s[i].0 && ys(s)[i] == s[i].1);
    }
    assert forall|i: int| 0 <= i < u.len() implies #[trigger] ys(u)[i] == (if ny {
        -sy[i]
    } else {
        sy[i]
    }) + 0 by {
        assert(xs(u)[i] == xs(u)[i]);
    }
    lemma_spread_affine(xs(u), sx, nx, 0);
    lemma_spread_affine(ys(u), sy, ny, 0);
}

/// Moving points to the origin keeps their spreads, makes the least x and y
/// zero and leaves each coordinate between zero and its spread.
proof fn lemma_to_origin_facts(s: Seq<(int, int)>)
    requires
        s.len() > 0,
    ensures
        spread1(xs(to_origin(s))) == spread1(xs(s)),
        spread1(ys(to_origin(s))) == spread1(ys(s)),
        seq_min(xs(to_origin(s))) == 0,
        seq_min(ys(to_origin(s))) == 0,
        forall|i: int|
            0 <= i < s.len() ==> 0 <= #[trigger] to_origin(s)[i].0 <= spread1(xs(s)) && 0
                <= to_origin(s)[i].1 <= spread1(ys(s)),
{
    let o = to_origin(s);
    let mx = seq_min(xs(s));
    let my = seq_min(ys(s));
    assert forall|i: int| 0 <= i < o.len() implies #[trigger] xs(o)[i] == (if false {
        -xs(s)[i]
    } else {
        xs(s)[i]
    }) + (-mx) && ys(o)[i] == ys(s)[i] + (-my) by {
        assert(o[i] == (s[i].0 - mx, s[i].1 - my));
    }
    assert forall|i: int| 0 <= i < o.len() implies #[trigger] ys(o)[i] == (if false {
        -ys(s)[i]
    } else {
        ys(s)[i]
    }) + (-my) by {
        assert(xs(o)[i] == xs(o)[i]);
    }
    lemma_spread_affine(xs(o), xs(s), false, -mx);
    lemma_spread_affine(ys(o), ys(s), false, -my);
    lemma_seq_min(xs(s));
    lemma_seq_min(ys(s));
    lemma_seq_max(xs(s));
    lemma_seq_max(ys(s));
    assert forall|i: int| 0 <= i < s.len() implies 0 <= #[trigger] o[i].0 <= spread1(xs(s)) && 0
        <= o[i].1 <= spread1(ys(s)) by {
        assert(xs(s)[i] == s[i].0 && ys(s)[i] == s[i].1);
        assert(o[i] == (s[i].0 - mx, s[i].1 - my));
    }
}

/// The two spreads of a known pattern's cells.
proof fn lemma_pattern_spreads()
    ensures
        spread1(xs(pattern_cells(KnownPattern::Toad))) == 3,
        spread1(ys(pattern_cells(KnownPattern::Toad))) == 1,
        spread1(xs(pattern_cells(KnownPattern::Beehive))) == 3,
        spread1(ys(pattern_cells(KnownPattern::Beehive))) == 2,
{
    let t = pattern_cells(KnownPattern::Toad);
    let b = pattern_cells(KnownPattern::Beehive);
    let tx = xs(t);
    let ty = ys(t);
    let bx = xs(b);
    let by_ = ys(b);
    assert(tx =~= seq![1int, 2, 3, 0, 1, 2]);
    assert(ty =~= seq![0int, 0, 0, 1, 1, 1]);
    assert(bx =~= seq![1int, 2, 0, 3, 1, 2]);
    assert(by_ =~= seq![0int, 0, 1, 1, 2, 2]);
    lemma_is_min(tx, 0, 3);
    lemma_is_max(tx, 3, 2);
    lemma_is_min(ty, 0, 0);
    lemma_is_max(ty, 1, 3);
    lemma_is_min(bx, 0, 2);
    lemma_is_max(bx, 3, 3);
    lemma_is_min(by_, 0, 0);
    lemma_is_max(by_, 2, 4);
}

/// A group whose spreads, in either order, differ from those of `p` does
/// not have the shape of `p`.
proof fn lemma_spreads_differ(v: Seq<(int, int)>, p: Seq<(int, int)>)
    requires
        v.len() > 0,
        p.len() > 0,
        !(spread1(xs(v)) == spread1(xs(p)) && spread1(ys(v)) == spread1(ys(p))),
        !(spread1(xs(v)) == spread1(ys(p)) && spread1(ys(v)) == spread1(xs(p))),
    ensures
        !same_shape(v, p),
{
    if same_shape(v, p) {
        let t = choose|t: int|
            0 <= t < 8 && #[trigger] variant(p, t).to_set() == to_origin(v).to_set();
        let u = p.map_values(|q: (int, int)| transform(q, t));
        lemma_transform_spreads(p, t);
        lemma_to_origin_facts(u);
        lemma_to_origin_facts(v);
        lemma_same_set_extrema(variant(p, t), to_origin(v));
    }
}

/// Searching from pattern `j` on finds pattern `k` when none before it
/// matches and it does.
proof fn lemma_first_matching_at(n: Seq<(int, int)>, j: int, k: int)
    requires
        0 <= j <= k < 7,
        forall|i: int| j <= i < k ==> !#[trigger] same_shape(n, pattern_cells(pattern_at(i))),
        same_shape(n, pattern_cells(pattern_at(k))),
    ensures
        first_matching(n, j) == Some(pattern_at(k)),
    decreases k - j,
{
    if j < k {
        assert(!same_shape(n, pattern_cells(pattern_at(j))));
        lemma_first_matching_at(n, j + 1, k);
    }
}

/// The number of cells of each pattern, in detection order.
pub open spec fn pattern_len(i: int) -> int {
    if i == 0 {
        4
    } else if i == 1 {
        6
    } else if i == 2 {
        7
    } else if i == 3 {
        3
    } else if i == 4 {
        6
    } else if i == 5 {
        8
    } else {
        5
    }
}

proof fn lemma_pattern_len(i: int)
    requires
        0 <= i < 7,
    ensures
        pattern_cells(pattern_at(i)).len() == pattern_len(i),
{
    if i == 0 {
        assert(pattern_cells(pattern_at(i)).len() == 4);
    } else if i == 1 {
        assert(pattern_cells(pattern_at(i)).len() == 6);
    } else if i == 2 {
        assert(pattern_cells(pattern_at(i)).len() == 7);
    } else if i == 3 {
        assert(pattern_cells(pattern_at(i)).len() == 3);
    } else if i == 4 {
        assert(pattern_cells(pattern_at(i)).len() == 6);
    } else if i == 5 {
        assert(pattern_cells(pattern_at(i)).len() == 8);
    } else {
        assert(pattern_cells(pattern_at(i)).len() == 5);
    }
}

/// Only beehive and toad, among the patterns, have the same number of
/// cells.
proof fn lemma_pattern_lengths(j: int, k: int)
    requires
        0 <= j < k < 7,
        pattern_cells(pattern_at(j)).len() == pattern_cells(pattern_at(k)).len(),
    ensures
        j == 1 && k == 4,
{
    lemma_pattern_len(j);
    lemma_pattern_len(k);
}

/// A turned known pattern, moved to the origin: no cell twice, least x and
/// y zero, coordinates within 0..=128, spreads those of the pattern in
/// either order, and already at the origin.
proof fn lemma_variant_facts(k: int, t: int)
    requires
        0 <= k < 7,
        0 <= t < 8,
    ensures
        ({
            let pk = pattern_cells(pattern_at(k));
            let v = variant(pk, t);
            &&& v.len() == pk.len()
            &&& 0 < v.len() <= 8
            &&& v.no_duplicates()
            &&& seq_min(xs(v)) == 0
            &&& seq_min(ys(v)) == 0
            &&& forall|i: int| 0 <= i < v.len() ==> 0 <= #[trigger] v[i].0 <= 128 && 0 <= v[i].1 <= 128
            &&& to_origin(v) == v
            &&& ((spread1(xs(v)) == spread1(xs(pk)) && spread1(ys(v)) == spread1(ys(pk))) || (
            spread1(xs(v)) == spread1(ys(pk)) && spread1(ys(v)) == spread1(xs(pk))))
        }),
{
    let pk = pattern_cells(pattern_at(k));
    lemma_pattern_cells_ok(pattern_at(k));
    let u = pk.map_values(|p: (int, int)| transform(p, t));
    let v = variant(pk, t);
    assert(v == to_origin(u));
    lemma_to_origin_facts(u);
    lemma_transform_spreads(pk, t);
    assert forall|i: int| 0 <= i < u.len() implies -64 <= #[trigger] u[i].0 <= 64 && -64 <= u[i].1
        <= 64 by {
        assert(u[i] == transform(pk[i], t));
    }
    lemma_seq_min(xs(u));
    lemma_seq_min(ys(u));
    lemma_seq_max(xs(u));
    lemma_seq_max(ys(u));
    let i0 = choose|i: int| 0 <= i < xs(u).len() && xs(u)[i] == seq_min(xs(u));
    let i1 = choose|i: int| 0 <= i < ys(u).len() && ys(u)[i] == seq_min(ys(u));
    let i2 = choose|i: int| 0 <= i < xs(u).len() && xs(u)[i] == seq_max(xs(u));
    let i3 = choose|i: int| 0 <= i < ys(u).len() && ys(u)[i] == seq_max(ys(u));
    assert(xs(u)[i0] == u[i0].0 && ys(u)[i1] == u[i1].1 && xs(u)[i2] == u[i2].0 && ys(u)[i3]
        == u[i3].1);
    assert(spread1(xs(u)) <= 128 && spread1(ys(u)) <= 128);
    assert forall|a: int, b: int| 0 <= a < v.len() && 0 <= b < v.len() && a != b implies v[a]
        != v[b] by {
        assert(u[a] == transform(pk[a], t) && u[b] == transform(pk[b], t));
        if v[a] == v[b] {
            lemma_transform_injective(pk[a], pk[b], t);
        }
    }
    lemma_to_origin_facts(v);
    assert forall|i: int| 0 <= i < v.len() implies #[trigger] to_origin(v)[i] == v[i] by {}
    assert(to_origin(v) =~= v);
}

/// A group at the origin with no repeated cell, placed at `(ox, oy)`, is
/// classified by the first pattern it matches, at that corner.
proof fn lemma_placed_classify(v: Seq<(int, int)>, ox: int, oy: int)
    requires
        0 < v.len() <= 12,
        0 <= ox,
        0 <= oy,
        v.no_duplicates(),
        seq_min(xs(v)) == 0,
        seq_min(ys(v)) == 0,
        forall|i: int| 0 <= i < v.len() ==> 0 <= #[trigger] v[i].0 <= 128 && 0 <= v[i].1 <= 128,
        first_matching(v, 0) is Some,
    ensures
        classify_points(v.map_values(|p: (int, int)| (p.0 + ox, p.1 + oy))) matches Some(d) && d.0
            == first_matching(v, 0)->0 && d.1 == ox && d.2 == oy,
{
    let c = v.map_values(|p: (int, int)| (p.0 + ox, p.1 + oy));
    assert forall|i: int| 0 <= i < c.len() implies #[trigger] xs(c)[i] == (if false {
        -xs(v)[i]
    } else {
        xs(v)[i]
    }) + ox && ys(c)[i] == ys(v)[i] + oy by {
        assert(c[i] == (v[i].0 + ox, v[i].1 + oy));
    }
    assert forall|i: int| 0 <= i < c.len() implies #[trigger] ys(c)[i] == (if false {
        -ys(v)[i]
    } else {
        ys(v)[i]
    }) + oy by {
        assert(xs(c)[i] == xs(c)[i]);
    }
    lemma_spread_affine(xs(c), xs(v), false, ox);
    lemma_spread_affine(ys(c), ys(v), false, oy);
    let n = normalized_points(c);
    assert forall|i: int| 0 <= i < n.len() implies #[trigger] n[i] == v[i] by {
        assert(c[i] == (v[i].0 + ox, v[i].1 + oy));
        assert(0 <= v[i].0 <= 128 && 0 <= v[i].1 <= 128);
    }
    assert(n =~= v);
}

/// A known pattern, turned by any of the eight rotations and reflections and
/// placed with its top left corner at any `(ox, oy)` with non-negative
/// coordinates, is classified as that pattern, at that corner.
pub proof fn law_turned_pattern_is_recognised(k: int, t: int, ox: int, oy: int)
    requires
        0 <= k < 7,
        0 <= t < 8,
        0 <= ox,
        0 <= oy,
    ensures
        classify_points(
            variant(pattern_cells(pattern_at(k)), t).map_values(
                |p: (int, int)| (p.0 + ox, p.1 + oy),
            ),
        ) matches Some(d) && d.0 == pattern_at(k) && d.1 == ox && d.2 == oy,
{
    let pk = pattern_cells(pattern_at(k));
    let v = variant(pk, t);
    lemma_variant_facts(k, t);
    assert(same_shape(v, pk)) by {
        assert(variant(pk, t).to_set() == to_origin(v).to_set());
    }
    assert forall|j: int| 0 <= j < k implies !#[trigger] same_shape(
        v,
        pattern_cells(pattern_at(j)),
    ) by {
        let pj = pattern_cells(pattern_at(j));
        if pj.len() == v.len() {
            lemma_pattern_lengths(j, k);
            lemma_pattern_spreads();
            lemma_spreads_differ(v, pj);
        }
    }
    lemma_first_matching_at(v, 0, k);
    lemma_placed_classify(v, ox, oy);
}

/// Any group listing a known pattern, turned by one of the eight rotations
/// and reflections and placed with its top left corner at `(ox, oy)`, meets
/// what `classify_component` requires, and `classify_component` reports
/// that pattern at that corner.
pub proof fn law_placed_pattern_is_classified(
    k: int,
    t: int,
    ox: int,
    oy: int,
    component: Seq<(usize, usize)>,
)
    requires
        0 <= k < 7,
        0 <= t < 8,
        0 <= ox,
        0 <= oy,
        upts(component) == variant(pattern_cells(pattern_at(k)), t).map_values(
            |p: (int, int)| (p.0 + ox, p.1 + oy),
        ),
    ensures
        3 <= component.len() <= 8 ==> spread_within(
            normalized_points(upts(component)),
            i32::MAX as int,
        ),
        classify_points(upts(component)) is Some ==> spread_within(
            upts(component),
            usize::MAX - 1,
        ),
        classify_points(upts(component)) matches Some(d) && d.0 == pattern_at(k) && d.1 == ox
            && d.2 == oy,
{
    law_turned_pattern_is_recognised(k, t, ox, oy);
    let v = variant(pattern_cells(pattern_at(k)), t);
    lemma_variant_facts(k, t);
    let c = upts(component);
    lemma_spread_of_bounded(v, 128);
    assert forall|i: int| 0 <= i < c.len() implies #[trigger] xs(c)[i] == (if false {
        -xs(v)[i]
    } else {
        xs(v)[i]
    }) + ox && ys(c)[i] == ys(v)[i] + oy by {
        assert(c[i] == (v[i].0 + ox, v[i].1 + oy));
    }
    assert forall|i: int| 0 <= i < c.len() implies #[trigger] ys(c)[i] == (if false {
        -ys(v)[i]
    } else {
        ys(v)[i]
    }) + oy by {
        assert(xs(c)[i] == xs(c)[i]);
    }
    lemma_spread_affine(xs(c), xs(v), false, ox);
    lemma_spread_affine(ys(c), ys(v), false, oy);
    let n = normalized_points(c);
    assert forall|i: int| 0 <= i < n.len() implies #[trigger] n[i] == v[i] by {
        assert(c[i] == (v[i].0 + ox, v[i].1 + oy));
        assert(0 <= v[i].0 <= 128 && 0 <= v[i].1 <= 128);
    }
    assert(n =~= v);
}

/// The points moved so that their least x and y are `ox` and `oy`.
pub open spec fn placed(p: Seq<(int, int)>, ox: int, oy: int) -> Seq<(int, int)> {
    to_origin(p).map_values(|q: (int, int)| (q.0 + ox, q.1 + oy))
}

/// Every known pattern is recognised in each of its eight orientations,
/// written out as the maps `(x, y)` to `(x, y)`, `(x, -y)`, `(-x, y)`,
/// `(-x, -y)`, `(y, x)`, `(y, -x)`, `(-y, x)` and `(-y, -x)`, placed with its
/// top left corner anywhere in the non-negative quadrant: it is classified
/// as that pattern at that corner.
pub proof fn law_every_orientation_is_recognised(k: int, ox: int, oy: int)
    requires
        0 <= k < 7,
        0 <= ox,
        0 <= oy,
    ensures
        classify_points(
            placed(pattern_cells(pattern_at(k)).map_values(|q: (int, int)| (q.0, q.1)), ox, oy),
        ) matches Some(d) && d.0 == pattern_at(k) && d.1 == ox && d.2 == oy,
        classify_points(
            placed(pattern_cells(pattern_at(k)).map_values(|q: (int, int)| (q.0, -q.1)), ox, oy),
        ) matches Some(d) && d.0 == pattern_at(k) && d.1 == ox && d.2 == oy,
        classify_points(
            placed(pattern_cells(pattern_at(k)).map_values(|q: (int, int)| (-q.0, q.1)), ox, oy),
        ) matches Some(d) && d.0 == pattern_at(k) && d.1 == ox && d.2 == oy,
        classify_points(
            placed(pattern_cells(pattern_at(k)).map_values(|q: (int, int)| (-q.0, -q.1)), ox, oy),
        ) matches Some(d) && d.0 == pattern_at(k) && d.1 == ox && d.2 == oy,
        classify_points(
            placed(pattern_cells(pattern_at(k)).map_values(|q: (int, int)| (q.1, q.0)), ox, oy),
        ) matches Some(d) && d.0 == pattern_at(k) && d.1 == ox && d.2 == oy,
        classify_points(
            placed(pattern_cells(pattern_at(k)).map_values(|q: (int, int)| (q.1, -q.0)), ox, oy),
        ) matches Some(d) && d.0 == pattern_at(k) && d.1 == ox && d.2 == oy,
        classify_points(
            placed(pattern_cells(pattern_at(k)).map_values(|q: (int, int)| (-q.1, q.0)), ox, oy),
        ) matches Some(d) && d.0 == pattern_at(k) && d.1 == ox && d.2 == oy,
        classify_points(
            placed(pattern_cells(pattern_at(k)).map_values(|q: (int, int)| (-q.1, -q.0)), ox, oy),
        ) matches Some(d) && d.0 == pattern_at(k) && d.1 == ox && d.2 == oy,
{
    let pk = pattern_cells(pattern_at(k));
    assert(pk.map_values(|q: (int, int)| (q.0, q.1)) =~= pk.map_values(
        |q: (int, int)| transform(q, 0),
    ));
    law_turned_pattern_is_recognised(k, 0, ox, oy);
    assert(pk.map_values(|q: (int, int)| (q.0, -q.1)) =~= pk.map_values(
        |q: (int, int)| transform(q, 1),
    ));
    law_turned_pattern_is_recognised(k, 1, ox, oy);
    assert(pk.map_values(|q: (int, int)| (-q.0, q.1)) =~= pk.map_values(
        |q: (int, int)| transform(q, 2),
    ));
    law_turned_pattern_is_recognised(k, 2, ox, oy);
    assert(pk.map_values(|q: (int, int)| (-q.0, -q.1)) =~= pk.map_values(
        |q: (int, int)| transform(q, 3),
    ));
    law_turned_pattern_is_recognised(k, 3, ox, oy);
    assert(pk.map_values(|q: (int, int)| (q.1, q.0)) =~= pk.map_values(
        |q: (int, int)| transform(q, 4),
    ));
    law_turned_pattern_is_recognised(k, 4, ox, oy);
    assert(pk.map_values(|q: (int, int)| (q.1, -q.0)) =~= pk.map_values(
        |q: (int, int)| transform(q, 5),
    ));
    law_turned_pattern_is_recognised(k, 5, ox, oy);
    assert(pk.map_values(|q: (int, int)| (-q.1, q.0)) =~= pk.map_values(
        |q: (int, int)| transform(q, 6),
    ));
    law_turned_pattern_is_recognised(k, 6, ox, oy);
    assert(pk.map_values(|q: (int, int)| (-q.1, -q.0)) =~= pk.map_values(
        |q: (int, int)| transform(q, 7),
    ));
    law_turned_pattern_is_recognised(k, 7, ox, oy);
}

} // verus!
