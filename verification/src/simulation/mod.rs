use vstd::prelude::*;

pub mod life;

verus! {

/// How a simulation field is turned into pixels.
#[derive(Debug, Clone, Copy, PartialEq, Eq, Structural)]
pub enum RenderStyle {
    RawMath,
    Artistic,
    LifeHighlight,
}

impl RenderStyle {
    /// The name of the style as shown to the user.
    pub fn label(self) -> (s: &'static str)
        ensures
            self == RenderStyle::RawMath ==> s@ == "数学原始图"@,
            self == RenderStyle::Artistic ==> s@ == "艺术表达图"@,
            self == RenderStyle::LifeHighlight ==> s@ == "生命高光图"@,
    {
        match self {
            RenderStyle::RawMath => "数学原始图",
            RenderStyle::Artistic => "艺术表达图",
            RenderStyle::LifeHighlight => "生命高光图",
        }
    }
}

/// Euclidean remainder of `a` by a positive modulus, as a natural number below `m`.
pub open spec fn wrap(a: int, m: int) -> int {
    a % m
}

/// Index of cell `(x, y)` in a row-major `w` by `h` torus, after wrapping both
/// coordinates into range.
pub open spec fn spec_wrap_index(x: int, y: int, w: int, h: int) -> int {
    wrap(y, h) * w + wrap(x, w)
}

fn wrap_coord(a: isize, m: usize) -> (r: usize)
    requires
        0 < m <= isize::MAX,
    ensures
        r as int == wrap(a as int, m as int),
        r < m,
{
    if a >= 0 {
        let r = (a as usize) % m;
        r
    } else {
        let b = (-(a + 1)) as usize;
        let t = b % m;
        proof {
            let ai = a as int;
            let mi = m as int;
            let q = (b as int) / mi;
            vstd::arithmetic::div_mod::lemma_fundamental_div_mod(b as int, mi);
            assert(ai == (mi - 1 - t) + (-(q + 1)) * mi) by (nonlinear_arith)
                requires
                    b as int == -ai - 1,
                    b as int == mi * q + t as int,
            {
            }
            vstd::arithmetic::div_mod::lemma_fundamental_div_mod_converse(
                ai,
                mi,
                -(q + 1),
                mi - 1 - t,
            );
        }
        m - 1 - t
    }
}

/// Row-major index of `(x, y)` on a `w` by `h` torus; coordinates outside the
/// grid wrap around on both axes.
pub fn wrap_index(x: isize, y: isize, w: usize, h: usize) -> (idx: usize)
    requires
        0 < w <= isize::MAX,
        0 < h <= isize::MAX,
        w * h <= usize::MAX,
    ensures
        idx as int == spec_wrap_index(x as int, y as int, w as int, h as int),
        idx < w * h,
{
    let xx = wrap_coord(x, w);
    let yy = wrap_coord(y, h);
    assert(yy * w + xx < w * h) by (nonlinear_arith)
        requires
            yy < h,
            xx < w,
    {
    }
    yy * w + xx
}

} // verus!
