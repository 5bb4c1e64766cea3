use vstd::prelude::*;

use super::rle::{
    lines_start, rle_fits, spec_parse, RleError, read_header_part, read_header_parts, read_line, read_lines, rle_lines, RleLines, cell_char, decimal, digit_char, encode_row, encode_runs, row_runs, lemma_decimal_digits, max_int, run_token, scan,
    scan_char, scan_start, scan_state_fits, RleScan,
};
use super::sim::{
    grid_cell, has_live, is_live_bounds, lemma_live_bounds_unique, lemma_row_major,
    live_points_prefix, rle_rows, rle_text, row_segment,
};
use super::text::{
    all_digits, digit_value, digits_value, is_digit, is_space, lemma_digits_value_nonneg,
    lemma_split_on_len, lemma_split_on_push, parse_usize, split_on, trim, trim_end, trim_start,
};

verus! {

/// A text without `sep` is a single piece.
proof fn lemma_split_single(s: Seq<char>, sep: char)
    requires
        !s.contains(sep),
    ensures
        split_on(s, sep) == seq![s],
    decreases s.len(),
{
    if s.len() == 0 {
        assert(s =~= Seq::<char>::empty());
    } else {
        let t = s.drop_last();
        assert(!t.contains(sep)) by {
            if t.contains(sep) {
                let i = choose|i: int| 0 <= i < t.len() && t[i] == sep;
                assert(s[i] == sep);
            }
        }
        assert(s.last() != sep) by {
            assert(s[s.len() - 1] == s.last());
        }
        lemma_split_single(t, sep);
        assert(t.push(s.last()) =~= s);
        lemma_split_on_push(t, s.last(), sep);
    }
}

/// Splitting `a`, `sep`, `b` gives the pieces of `a` followed by those of `b`.
proof fn lemma_split_join(a: Seq<char>, b: Seq<char>, sep: char)
    ensures
        split_on(a.push(sep) + b, sep) == split_on(a, sep) + split_on(b, sep),
    decreases b.len(),
{
    let l = split_on(a, sep);
    if b.len() == 0 {
        assert(a.push(sep) + b =~= a.push(sep));
        lemma_split_on_push(a, sep, sep);
        assert(l.push(Seq::empty()) =~= l + split_on(b, sep));
    } else {
        let b0 = b.drop_last();
        let c = b.last();
        lemma_split_join(a, b0, sep);
        assert(a.push(sep) + b =~= (a.push(sep) + b0).push(c));
        assert(b0.push(c) =~= b);
        lemma_split_on_push(a.push(sep) + b0, c, sep);
        lemma_split_on_push(b0, c, sep);
        lemma_split_on_len(b0, sep);
        let r = split_on(b0, sep);
        if c == sep {
            assert((l + r).push(Seq::empty()) =~= l + r.push(Seq::empty()));
        } else {
            assert((l + r).update((l + r).len() - 1, (l + r).last().push(c)) =~= l + r.update(
                r.len() - 1,
                r.last().push(c),
            ));
        }
    }
}

/// `trim` leaves a text that neither starts nor ends with white space, and
/// removes one space on either side of it.
proof fn lemma_trim_pad(s: Seq<char>)
    requires
        s.len() > 0,
        !is_space(s[0]),
        !is_space(s.last()),
    ensures
        trim(s) == s,
        trim(seq![' '] + s) == s,
        trim(s + seq![' ']) == s,
        trim(seq![' '] + s + seq![' ']) == s,
{
    assert(trim_start(s) == s);
    assert(trim_end(s) == s);
    let a = seq![' '] + s;
    assert(a.drop_first() =~= s);
    assert(trim_start(a) == s);
    assert(a.last() == s.last());
    let b = s + seq![' '];
    assert(b.drop_last() =~= s);
    assert(b[0] == s[0]);
    assert(trim_start(b) == b);
    assert(trim_end(b) == s);
    let c = seq![' '] + s + seq![' '];
    assert(c.drop_first() =~= b);
    assert(trim_start(c) == b);
}

/// The decimal digits of `n` read back as `n`.
proof fn lemma_decimal_value(n: nat)
    ensures
        decimal(n).len() >= 1,
        all_digits(decimal(n)),
        digits_value(decimal(n)) == n,
    decreases n,
{
    lemma_decimal_digits(n);
    if n >= 10 {
        lemma_decimal_value(n / 10);
        let c = digit_char(n % 10);
        assert(decimal(n).drop_last() =~= decimal(n / 10));
        assert(digit_value(c) == n % 10);
        assert(decimal(n).last() == c);
        assert(10 * (n / 10) + n % 10 == n) by (nonlinear_arith);
        assert(digits_value(decimal(n)) == 10 * digits_value(decimal(n / 10)) + digit_value(c));
    } else {
        assert(digit_value(digit_char(n)) == n);
        assert(decimal(n).drop_last() =~= Seq::<char>::empty());
        assert(decimal(n).last() == digit_char(n));
        assert(digits_value(decimal(n)) == 10 * digits_value(Seq::<char>::empty()) + digit_value(digit_char(n)));
    }
}

/// `usize::from_str` reads the decimal digits of `n` back as `n`.
proof fn lemma_parse_decimal(n: nat)
    requires
        n <= usize::MAX,
    ensures
        parse_usize(decimal(n)) == Some(n as usize),
        !is_space(decimal(n)[0]),
        !is_space(decimal(n).last()),
{
    lemma_decimal_value(n);
    assert(is_digit(decimal(n)[0]));
    assert(is_digit(decimal(n)[decimal(n).len() - 1]));
}

/// A prefix of a digit string is worth no more than the whole string.
proof fn lemma_digits_prefix(s: Seq<char>, i: int)
    requires
        all_digits(s),
        0 <= i <= s.len(),
    ensures
        0 <= digits_value(s.take(i)) <= digits_value(s),
    decreases s.len(),
{
    if i == s.len() {
        assert(s.take(i) =~= s);
        lemma_digits_value_nonneg(s);
    } else {
        let t = s.drop_last();
        assert(all_digits(t)) by {
            assert forall|j: int| 0 <= j < t.len() implies is_digit(#[trigger] t[j]) by {
                assert(t[j] == s[j]);
            }
        }
        lemma_digits_prefix(t, i);
        assert(t.take(i) =~= s.take(i));
        lemma_digits_value_nonneg(t);
        assert(is_digit(s[s.len() - 1]));
    }
}

/// Decodes `s` starting from the decoder state `st`.
pub open spec fn scan_from(st: RleScan, s: Seq<char>) -> RleScan
    decreases s.len(),
{
    if s.len() == 0 {
        st
    } else {
        scan_char(scan_from(st, s.drop_last()), s.last())
    }
}

/// Every state the decoder passes through on `s`, starting from `st`,
/// fits in `usize`.
pub open spec fn fits_along(st: RleScan, s: Seq<char>) -> bool {
    forall|i: int| 0 <= i <= s.len() ==> scan_state_fits(#[trigger] scan_from(st, s.take(i)))
}

proof fn lemma_scan_is_from_start(s: Seq<char>)
    ensures
        scan(s) == scan_from(scan_start(), s),
    decreases s.len(),
{
    if s.len() > 0 {
        lemma_scan_is_from_start(s.drop_last());
    }
}

proof fn lemma_scan_from_add(st: RleScan, a: Seq<char>, b: Seq<char>)
    ensures
        scan_from(st, a + b) == scan_from(scan_from(st, a), b),
    decreases b.len(),
{
    if b.len() == 0 {
        assert(a + b =~= a);
    } else {
        lemma_scan_from_add(st, a, b.drop_last());
        assert((a + b).drop_last() =~= a + b.drop_last());
        assert((a + b).last() == b.last());
    }
}

proof fn lemma_fits_along_add(st: RleScan, a: Seq<char>, b: Seq<char>)
    requires
        fits_along(st, a),
        fits_along(scan_from(st, a), b),
    ensures
        fits_along(st, a + b),
{
    assert forall|i: int| 0 <= i <= (a + b).len() implies scan_state_fits(
        #[trigger] scan_from(st, (a + b).take(i)),
    ) by {
        if i <= a.len() {
            assert((a + b).take(i) =~= a.take(i));
        } else {
            let j = i - a.len();
            assert((a + b).take(i) =~= a + b.take(j));
            lemma_scan_from_add(st, a, b.take(j));
            assert(scan_state_fits(scan_from(scan_from(st, a), b.take(j))));
        }
    }
}

proof fn lemma_fits_along_push(st: RleScan, a: Seq<char>, c: char)
    requires
        fits_along(st, a),
        scan_state_fits(scan_from(st, a.push(c))),
    ensures
        fits_along(st, a.push(c)),
{
    assert forall|i: int| 0 <= i <= a.push(c).len() implies scan_state_fits(
        #[trigger] scan_from(st, a.push(c).take(i)),
    ) by {
        if i <= a.len() {
            assert(a.push(c).take(i) =~= a.take(i));
        } else {
            assert(a.push(c).take(i) =~= a.push(c));
        }
    }
}

/// The decoder is reading data at a position on the grid and holds no
/// pending count.
pub open spec fn scan_ready(st: RleScan) -> bool {
    &&& 0 <= st.x
    &&& 0 <= st.y
    &&& st.count == 0
    &&& !st.done
    &&& st.bad is None
}

/// Reading a prefix of the digits of `n` only builds up the count.
proof fn lemma_scan_digits(st: RleScan, n: nat, i: int)
    requires
        scan_ready(st),
        0 <= i <= decimal(n).len(),
    ensures
        scan_from(st, decimal(n).take(i)) == (RleScan {
            count: digits_value(decimal(n).take(i)),
            ..st
        }),
    decreases i,
{
    let d = decimal(n);
    lemma_decimal_value(n);
    if i == 0 {
        assert(d.take(0) =~= Seq::<char>::empty());
    } else {
        lemma_scan_digits(st, n, i - 1);
        assert(d.take(i).drop_last() =~= d.take(i - 1));
        assert(d.take(i).last() == d[i - 1]);
        assert(is_digit(d[i - 1]));
    }
}

/// A run token acts as its cell character read with the run length
/// pending.
proof fn lemma_scan_token(st: RleScan, c: char, n: nat)
    requires
        scan_ready(st),
        c == 'o' || c == 'b',
        1 <= n <= usize::MAX,
        scan_state_fits(st),
        scan_state_fits(scan_char(RleScan { count: n as int, ..st }, c)),
    ensures
        scan_from(st, run_token(c, n)) == scan_char(RleScan { count: n as int, ..st }, c),
        fits_along(st, run_token(c, n)),
{
    if n > 1 {
        let d = decimal(n);
        lemma_decimal_value(n);
        assert(run_token(c, n) == d.push(c));
        lemma_scan_digits(st, n, d.len() as int);
        assert(d.take(d.len() as int) =~= d);
        assert forall|i: int| 0 <= i <= d.len() implies scan_state_fits(
            #[trigger] scan_from(st, d.take(i)),
        ) by {
            lemma_scan_digits(st, n, i);
            lemma_digits_prefix(d, i);
        }
        assert(d.push(c).drop_last() =~= d);
        lemma_fits_along_push(st, d, c);
    } else {
        let t = seq![c];
        assert(t.drop_last() =~= Seq::<char>::empty());
        assert(scan_from(st, Seq::<char>::empty()) == st);
        assert(t.last() == c);
        assert(scan_from(st, t) == scan_char(st, c));
        assert(RleScan { count: 0, ..RleScan { count: 1, ..st } } == st);
        assert forall|i: int| 0 <= i <= t.len() implies scan_state_fits(
            #[trigger] scan_from(st, t.take(i)),
        ) by {
            if i == 0 {
                assert(t.take(i) =~= Seq::<char>::empty());
            } else {
                assert(t.take(i) =~= t);
            }
        }
    }
}

/// Total length of the runs.
pub open spec fn runs_len(runs: Seq<(bool, nat)>) -> nat
    decreases runs.len(),
{
    if runs.len() == 0 {
        0
    } else {
        runs_len(runs.drop_last()) + runs.last().1
    }
}

/// The live cells that the runs describe when they start at column `x0` of
/// row `y`, left to right.
pub open spec fn run_cells(runs: Seq<(bool, nat)>, x0: int, y: int) -> Seq<(int, int)>
    decreases runs.len(),
{
    if runs.len() == 0 {
        Seq::empty()
    } else {
        let before = runs_len(runs.drop_last());
        run_cells(runs.drop_last(), x0, y) + if runs.last().0 {
            Seq::new(runs.last().1, |d: int| (x0 + before + d, y))
        } else {
            Seq::empty()
        }
    }
}

/// Decoding encoded runs moves along the row by their total length and
/// adds their live cells.
proof fn lemma_scan_runs(st: RleScan, runs: Seq<(bool, nat)>)
    requires
        scan_ready(st),
        scan_state_fits(st),
        forall|k: int| 0 <= k < runs.len() ==> #[trigger] runs[k].1 >= 1,
        st.x + runs_len(runs) <= usize::MAX,
        st.y + 1 <= usize::MAX,
    ensures
        ({
            let r = scan_from(st, encode_runs(runs));
            &&& scan_ready(r)
            &&& r.x == st.x + runs_len(runs)
            &&& r.y == st.y
            &&& r.cells == st.cells + run_cells(runs, st.x, st.y)
            &&& st.max_x <= r.max_x <= max_int(st.max_x, st.x + runs_len(runs))
            &&& st.max_y <= r.max_y <= max_int(st.max_y, st.y + 1)
        }),
        fits_along(st, encode_runs(runs)),
    decreases runs.len(),
{
    if runs.len() == 0 {
        assert(encode_runs(runs) =~= Seq::<char>::empty());
        assert(st.cells + run_cells(runs, st.x, st.y) =~= st.cells);
        assert forall|i: int| 0 <= i <= encode_runs(runs).len() implies scan_state_fits(
            #[trigger] scan_from(st, encode_runs(runs).take(i)),
        ) by {
            assert(encode_runs(runs).take(i) =~= Seq::<char>::empty());
        }
    } else {
        let rs = runs.drop_last();
        let v = runs.last().0;
        let n = runs.last().1;
        assert forall|k: int| 0 <= k < rs.len() implies #[trigger] rs[k].1 >= 1 by {
            assert(rs[k] == runs[k]);
        }
        assert(n >= 1) by {
            assert(runs[runs.len() - 1].1 >= 1);
        }
        lemma_scan_runs(st, rs);
        let m = scan_from(st, encode_runs(rs));
        let c = cell_char(v);
        lemma_scan_token(m, c, n);
        lemma_scan_from_add(st, encode_runs(rs), run_token(c, n));
        lemma_fits_along_add(st, encode_runs(rs), run_token(c, n));
        let block = if v {
            Seq::new(n, |d: int| (st.x + runs_len(rs) + d, st.y))
        } else {
            Seq::empty()
        };
        if v {
            assert(Seq::new(n, |d: int| (m.x + d, m.y)) =~= block);
        }
        assert(st.cells + run_cells(runs, st.x, st.y) =~= st.cells + run_cells(rs, st.x, st.y)
            + block);
    }
}

/// The row of cells that the runs describe.
pub open spec fn runs_row(runs: Seq<(bool, nat)>) -> Seq<bool>
    decreases runs.len(),
{
    if runs.len() == 0 {
        Seq::empty()
    } else {
        runs_row(runs.drop_last()) + Seq::new(runs.last().1, |d: int| runs.last().0)
    }
}

proof fn lemma_runs_len(runs: Seq<(bool, nat)>)
    ensures
        runs_len(runs) == runs_row(runs).len(),
    decreases runs.len(),
{
    if runs.len() > 0 {
        lemma_runs_len(runs.drop_last());
    }
}

/// The maximal runs of a row describe that row, and none is empty.
proof fn lemma_row_runs(row: Seq<bool>)
    ensures
        runs_row(row_runs(row)) == row,
        forall|k: int| 0 <= k < row_runs(row).len() ==> #[trigger] row_runs(row)[k].1 >= 1,
    decreases row.len(),
{
    if row.len() == 0 {
        assert(row =~= Seq::<bool>::empty());
    } else {
        let row0 = row.drop_last();
        let v = row.last();
        lemma_row_runs(row0);
        let r = row_runs(row0);
        assert(row0.push(v) =~= row);
        if r.len() > 0 && r.last().0 == v {
            let runs = r.update(r.len() - 1, (v, r.last().1 + 1));
            assert(runs.drop_last() =~= r.drop_last());
            let a = runs_row(r.drop_last());
            let b = Seq::new(r.last().1, |d: int| r.last().0);
            assert(runs_row(r) == a + b);
            assert(Seq::new(r.last().1 + 1, |d: int| v) =~= b.push(v));
            assert(runs_row(runs) =~= (a + b).push(v));
            assert forall|k: int| 0 <= k < runs.len() implies #[trigger] runs[k].1 >= 1 by {
                if k < r.len() - 1 {
                    assert(runs[k] == r[k]);
                }
            }
        } else {
            let runs = r.push((v, 1));
            assert(runs.drop_last() =~= r);
            assert(Seq::new(1, |d: int| v) =~= seq![v]);
            assert(runs_row(runs) =~= row0.push(v));
            assert forall|k: int| 0 <= k < runs.len() implies #[trigger] runs[k].1 >= 1 by {
                if k < r.len() {
                    assert(runs[k] == r[k]);
                }
            }
        }
    }
}

/// Filtering keeps everything when every item passes and nothing when none
/// does.
proof fn lemma_filter_uniform(s: Seq<(int, int)>, pred: spec_fn((int, int)) -> bool, keep: bool)
    requires
        forall|i: int| 0 <= i < s.len() ==> pred(#[trigger] s[i]) == keep,
    ensures
        s.filter(pred) == (if keep {
            s
        } else {
            Seq::empty()
        }),
    decreases s.len(),
{
    reveal(Seq::filter);
    if s.len() > 0 {
        let t = s.drop_last();
        assert forall|i: int| 0 <= i < t.len() implies pred(#[trigger] t[i]) == keep by {
            assert(t[i] == s[i]);
        }
        lemma_filter_uniform(t, pred, keep);
        assert(pred(s.last()) == keep) by {
            assert(s[s.len() - 1] == s.last());
        }
        if keep {
            assert(t.push(s.last()) =~= s);
        }
    }
}

/// The live cells of runs that describe a row are the positions of that
/// row that `pred` accepts, when `pred` tells exactly the live cells.
proof fn lemma_run_cells_filter(runs: Seq<(bool, nat)>, y: int, pred: spec_fn((int, int)) -> bool)
    requires
        forall|x: int| 0 <= x < runs_len(runs) ==> pred((x, y)) == #[trigger] runs_row(runs)[x],
    ensures
        run_cells(runs, 0, y) == Seq::new(runs_len(runs), |x: int| (x, y)).filter(pred),
    decreases runs.len(),
{
    reveal(Seq::filter);
    lemma_runs_len(runs);
    if runs.len() == 0 {
        assert(Seq::new(runs_len(runs), |x: int| (x, y)) =~= Seq::<(int, int)>::empty());
    } else {
        let rs = runs.drop_last();
        let v = runs.last().0;
        let n = runs.last().1;
        let t = runs_len(rs);
        lemma_runs_len(rs);
        assert forall|x: int| 0 <= x < runs_len(rs) implies pred((x, y))
            == #[trigger] runs_row(rs)[x] by {
            assert(runs_row(runs)[x] == runs_row(rs)[x]);
        }
        lemma_run_cells_filter(rs, y, pred);
        let a = Seq::new(t, |x: int| (x, y));
        let blk = Seq::new(n, |d: int| (t + d, y));
        assert(Seq::new(runs_len(runs), |x: int| (x, y)) =~= a + blk);
        Seq::filter_distributes_over_add(a, blk, pred);
        assert forall|i: int| 0 <= i < blk.len() implies pred(#[trigger] blk[i]) == v by {
            assert(runs_row(runs)[t + i] == v);
        }
        lemma_filter_uniform(blk, pred, v);
        if v {
            assert(Seq::new(n, |d: int| (0 + t + d, y)) =~= blk);
        }
    }
}

/// Whether the cell at position `p` of the box `b` is live.
pub open spec fn box_live(cells: Seq<bool>, w: int, b: (int, int, int, int)) -> spec_fn(
    (int, int),
) -> bool {
    |p: (int, int)| grid_cell(cells, w, b.0 + p.0, b.1 + p.1)
}

/// The live cells of the first `k` rows of the box `b` (given as
/// `(min_x, min_y, max_x, max_y)`), row by row and left to right, relative
/// to the box's top left corner.
pub open spec fn box_cells(cells: Seq<bool>, w: int, b: (int, int, int, int), k: int) -> Seq<
    (int, int),
>
    decreases k,
{
    if k <= 0 {
        Seq::empty()
    } else {
        box_cells(cells, w, b, k - 1) + Seq::new((b.2 - b.0 + 1) as nat, |x: int| (x, k - 1)).filter(
            box_live(cells, w, b),
        )
    }
}

/// Decoding the first `k` encoded rows of the box.
proof fn lemma_scan_rows(cells: Seq<bool>, w: int, b: (int, int, int, int), k: int)
    requires
        0 <= b.0 <= b.2 < usize::MAX,
        0 <= b.1 <= b.3 < usize::MAX,
        0 <= k <= b.3 - b.1 + 1,
    ensures
        ({
            let s = scan_from(scan_start(), rle_rows(cells, w, b, k));
            let wd = b.2 - b.0 + 1;
            let ht = b.3 - b.1 + 1;
            &&& scan_ready(s)
            &&& k < ht ==> s.x == 0 && s.y == k
            &&& k == ht ==> s.x == wd && s.y == ht - 1
            &&& s.cells == box_cells(cells, w, b, k)
            &&& 0 <= s.max_x <= wd
            &&& 0 <= s.max_y <= ht
        }),
        fits_along(scan_start(), rle_rows(cells, w, b, k)),
    decreases k,
{
    let wd = b.2 - b.0 + 1;
    let ht = b.3 - b.1 + 1;
    if k == 0 {
        let e = rle_rows(cells, w, b, 0);
        assert(e =~= Seq::<char>::empty());
        assert forall|i: int| 0 <= i <= e.len() implies scan_state_fits(
            #[trigger] scan_from(scan_start(), e.take(i)),
        ) by {
            assert(e.take(i) =~= Seq::<char>::empty());
        }
    } else {
        lemma_scan_rows(cells, w, b, k - 1);
        let prev = rle_rows(cells, w, b, k - 1);
        let sp = scan_from(scan_start(), prev);
        let y = b.1 + k - 1;
        let row = row_segment(cells, w, b.0, b.2, y);
        let runs = row_runs(row);
        lemma_row_runs(row);
        lemma_runs_len(runs);
        lemma_scan_runs(sp, runs);
        let enc = encode_runs(runs);
        assert(encode_row(row) == enc);
        let r = scan_from(sp, enc);
        lemma_run_cells_filter(runs, k - 1, box_live(cells, w, b));
        assert(Seq::new(runs_len(runs), |x: int| (x, k - 1)) =~= Seq::new(
            wd as nat,
            |x: int| (x, k - 1),
        ));
        lemma_scan_from_add(scan_start(), prev, enc);
        lemma_fits_along_add(scan_start(), prev, enc);
        if y != b.3 {
            assert(rle_rows(cells, w, b, k) == (prev + enc).push('$'));
            assert((prev + enc).push('$').drop_last() =~= prev + enc);
            lemma_fits_along_push(scan_start(), prev + enc, '$');
        } else {
            assert(rle_rows(cells, w, b, k) =~= prev + enc);
        }
    }
}

/// A character that encoded pattern data is made of.
pub open spec fn is_data_char(c: char) -> bool {
    is_digit(c) || c == 'o' || c == 'b' || c == '$' || c == '!'
}

proof fn lemma_encode_runs_chars(runs: Seq<(bool, nat)>)
    ensures
        forall|i: int| 0 <= i < encode_runs(runs).len() ==> is_data_char(#[trigger] encode_runs(runs)[i]),
    decreases runs.len(),
{
    if runs.len() > 0 {
        let rs = runs.drop_last();
        let n = runs.last().1;
        let c = cell_char(runs.last().0);
        lemma_encode_runs_chars(rs);
        lemma_decimal_digits(n);
        let t = run_token(c, n);
        assert forall|i: int| 0 <= i < t.len() implies is_data_char(#[trigger] t[i]) by {
            if n > 1 && i < decimal(n).len() {
                assert(t[i] == decimal(n)[i]);
            }
        }
        let a = encode_runs(rs);
        assert forall|i: int| 0 <= i < (a + t).len() implies is_data_char(#[trigger] (a + t)[i]) by {
            if i < a.len() {
                assert((a + t)[i] == a[i]);
            } else {
                assert((a + t)[i] == t[i - a.len()]);
            }
        }
    }
}

proof fn lemma_rle_rows_chars(cells: Seq<bool>, w: int, b: (int, int, int, int), k: int)
    ensures
        forall|i: int|
            0 <= i < rle_rows(cells, w, b, k).len() ==> is_data_char(
                #[trigger] rle_rows(cells, w, b, k)[i],
            ),
    decreases k,
{
    if k > 0 {
        lemma_rle_rows_chars(cells, w, b, k - 1);
        let a = rle_rows(cells, w, b, k - 1);
        let y = b.1 + k - 1;
        let e = encode_row(row_segment(cells, w, b.0, b.2, y));
        lemma_encode_runs_chars(row_runs(row_segment(cells, w, b.0, b.2, y)));
        let d: Seq<char> = if y != b.3 {
            seq!['$']
        } else {
            Seq::empty()
        };
        let all = a + e + d;
        assert(rle_rows(cells, w, b, k) == all);
        assert forall|i: int| 0 <= i < all.len() implies is_data_char(#[trigger] all[i]) by {
            if i < a.len() {
                assert(all[i] == a[i]);
            } else if i < a.len() + e.len() {
                assert(all[i] == e[i - a.len()]);
            } else {
                assert(all[i] == d[i - a.len() - e.len()]);
            }
        }
    }
}

/// The header line that pattern export writes, without its line break.
pub open spec fn export_header(wd: nat, ht: nat) -> Seq<char> {
    seq!['x', ' ', '=', ' '] + decimal(wd) + seq![',', ' ', 'y', ' ', '=', ' '] + decimal(ht) + seq![
        ',',
        ' ',
        'r',
        'u',
        'l',
        'e',
        ' ',
        '=',
        ' ',
        'B',
        '3',
        '/',
        'S',
        '2',
        '3',
    ]
}

proof fn lemma_no_char(s: Seq<char>, c: char)
    requires
        forall|i: int| 0 <= i < s.len() ==> #[trigger] s[i] != c,
    ensures
        !s.contains(c),
{
}

/// One `key = value` part of a header line, where neither side holds `=`.
proof fn lemma_key_value(k: Seq<char>, v: Seq<char>)
    requires
        !k.contains('='),
        !v.contains('='),
    ensures
        split_on(k.push('=') + v, '=') == seq![k, v],
{
    lemma_split_join(k, v, '=');
    lemma_split_single(k, '=');
    lemma_split_single(v, '=');
    assert(seq![k] + seq![v] =~= seq![k, v]);
}

/// A digit string preceded by a space holds neither `=` nor `,`.
proof fn lemma_spaced_digits(d: Seq<char>)
    requires
        all_digits(d),
    ensures
        !(seq![' '] + d).contains('='),
        !(seq![' '] + d).contains(','),
        !d.contains('\n'),
{
    let v = seq![' '] + d;
    assert forall|i: int| 0 <= i < v.len() implies #[trigger] v[i] != '=' && v[i] != ',' by {
        if i >= 1 {
            assert(v[i] == d[i - 1]);
            assert(is_digit(d[i - 1]));
        }
    }
    lemma_no_char(v, '=');
    lemma_no_char(v, ',');
    assert forall|i: int| 0 <= i < d.len() implies #[trigger] d[i] != '\n' by {
        assert(is_digit(d[i]));
    }
    lemma_no_char(d, '\n');
}

proof fn lemma_part_width(st: RleLines, wd: nat)
    requires
        wd <= usize::MAX,
    ensures
        read_header_part(st, seq!['x', ' ', '=', ' '] + decimal(wd)) == (RleLines {
            width: Some(wd as usize),
            ..st
        }),
{
    let d = decimal(wd);
    lemma_parse_decimal(wd);
    lemma_decimal_value(wd);
    let k = seq!['x', ' '];
    let v = seq![' '] + d;
    assert(seq!['x', ' ', '=', ' '] + d =~= k.push('=') + v);
    lemma_spaced_digits(d);
    lemma_no_char(k, '=');
    lemma_key_value(k, v);
    lemma_trim_pad(seq!['x']);
    assert(seq!['x'] + seq![' '] =~= k);
    lemma_trim_pad(d);
}

proof fn lemma_part_height(st: RleLines, ht: nat)
    requires
        ht <= usize::MAX,
    ensures
        read_header_part(st, seq![' ', 'y', ' ', '=', ' '] + decimal(ht)) == (RleLines {
            height: Some(ht as usize),
            ..st
        }),
{
    let d = decimal(ht);
    lemma_parse_decimal(ht);
    lemma_decimal_value(ht);
    let k = seq![' ', 'y', ' '];
    let v = seq![' '] + d;
    assert(seq![' ', 'y', ' ', '=', ' '] + d =~= k.push('=') + v);
    lemma_spaced_digits(d);
    lemma_no_char(k, '=');
    lemma_key_value(k, v);
    lemma_trim_pad(seq!['y']);
    assert(seq![' '] + seq!['y'] + seq![' '] =~= k);
    assert(trim(k) != seq!['x']) by {
        assert(trim(k)[0] == 'y');
    }
    lemma_trim_pad(d);
}

proof fn lemma_part_rule(st: RleLines)
    ensures
        read_header_part(
            st,
            seq![' ', 'r', 'u', 'l', 'e', ' ', '=', ' ', 'B', '3', '/', 'S', '2', '3'],
        ) == st,
{
    let k = seq![' ', 'r', 'u', 'l', 'e', ' '];
    let v = seq![' ', 'B', '3', '/', 'S', '2', '3'];
    assert(seq![' ', 'r', 'u', 'l', 'e', ' ', '=', ' ', 'B', '3', '/', 'S', '2', '3'] =~= k.push(
        '=',
    ) + v);
    lemma_no_char(k, '=');
    lemma_no_char(v, '=');
    lemma_key_value(k, v);
    let rule = seq!['r', 'u', 'l', 'e'];
    lemma_trim_pad(rule);
    assert(seq![' '] + rule + seq![' '] =~= k);
    assert(trim(k).len() == 4);
}

/// The header line gives the width and the height.
#[verifier::spinoff_prover]
#[verifier::rlimit(40)]
proof fn lemma_read_header(wd: nat, ht: nat)
    requires
        wd <= usize::MAX,
        ht <= usize::MAX,
    ensures
        read_line(lines_start(), export_header(wd, ht)) == (RleLines {
            width: Some(wd as usize),
            height: Some(ht as usize),
            body: Seq::empty(),
        }),
        !export_header(wd, ht).contains('\n'),
{
    let d1 = decimal(wd);
    let d2 = decimal(ht);
    lemma_parse_decimal(wd);
    lemma_parse_decimal(ht);
    lemma_decimal_value(wd);
    lemma_decimal_value(ht);
    lemma_spaced_digits(d1);
    lemma_spaced_digits(d2);
    let h = export_header(wd, ht);
    let p1 = seq!['x', ' ', '=', ' '] + d1;
    let p2 = seq![' ', 'y', ' ', '=', ' '] + d2;
    let p3 = seq![' ', 'r', 'u', 'l', 'e', ' ', '=', ' ', 'B', '3', '/', 'S', '2', '3'];
    assert(h =~= p1.push(',') + (p2.push(',') + p3));
    assert forall|i: int| 0 <= i < h.len() implies #[trigger] h[i] != '\n' by {
        if 4 <= i < 4 + d1.len() {
            assert(h[i] == d1[i - 4]);
        } else if 10 + d1.len() <= i < 10 + d1.len() + d2.len() {
            assert(h[i] == d2[i - 10 - d1.len()]);
        }
    }
    lemma_no_char(h, '\n');
    lemma_trim_pad(h);
    assert(h[0] == 'x');
    assert(h.contains('=')) by {
        assert(h[2] == '=');
    }
    assert(h.contains(',')) by {
        assert(h[4 + d1.len() as int] == ',');
    }
    assert forall|i: int| 0 <= i < p1.len() implies #[trigger] p1[i] != ',' by {
        if i >= 4 {
            assert(p1[i] == d1[i - 4]);
            assert(is_digit(d1[i - 4]));
        }
    }
    lemma_no_char(p1, ',');
    assert forall|i: int| 0 <= i < p2.len() implies #[trigger] p2[i] != ',' by {
        if i >= 5 {
            assert(p2[i] == d2[i - 5]);
            assert(is_digit(d2[i - 5]));
        }
    }
    lemma_no_char(p2, ',');
    lemma_no_char(p3, ',');
    lemma_split_join(p1, p2.push(',') + p3, ',');
    lemma_split_join(p2, p3, ',');
    lemma_split_single(p1, ',');
    lemma_split_single(p2, ',');
    lemma_split_single(p3, ',');
    let parts = split_on(h, ',');
    assert(parts =~= seq![p1, p2, p3]);
    assert(parts.drop_last() =~= seq![p1, p2]);
    assert(seq![p1, p2].drop_last() =~= seq![p1]);
    assert(seq![p1].drop_last() =~= Seq::<Seq<char>>::empty());
    lemma_part_width(lines_start(), wd);
    let st1 = RleLines { width: Some(wd as usize), height: None, body: Seq::empty() };
    lemma_part_height(st1, ht);
    let st2 = RleLines { width: Some(wd as usize), height: Some(ht as usize), body: Seq::empty() };
    lemma_part_rule(st2);
    let none = Seq::<Seq<char>>::empty();
    assert(read_header_parts(lines_start(), none) == lines_start());
    assert(read_header_parts(lines_start(), seq![p1]) == st1);
    assert(read_header_parts(lines_start(), seq![p1, p2]) == st2);
    assert(read_header_parts(lines_start(), parts) == st2);
}

/// Reading an exported text: the header gives width and height, the one
/// data line is the body.
proof fn lemma_read_exported(wd: nat, ht: nat, body: Seq<char>)
    requires
        wd <= usize::MAX,
        ht <= usize::MAX,
        body.len() > 0,
        forall|i: int| 0 <= i < body.len() ==> is_data_char(#[trigger] body[i]),
    ensures
        rle_lines(export_header(wd, ht).push('\n') + body.push('\n')) == (RleLines {
            width: Some(wd as usize),
            height: Some(ht as usize),
            body,
        }),
{
    let h = export_header(wd, ht);
    lemma_read_header(wd, ht);
    assert forall|i: int| 0 <= i < body.len() implies #[trigger] body[i] != '\n' && body[i]
        != '=' by {
        assert(is_data_char(body[i]));
    }
    lemma_no_char(body, '\n');
    lemma_no_char(body, '=');
    lemma_split_join(h, body.push('\n'), '\n');
    lemma_split_single(h, '\n');
    lemma_split_on_push(body, '\n', '\n');
    lemma_split_single(body, '\n');
    let lines = split_on(h.push('\n') + body.push('\n'), '\n');
    assert(lines =~= seq![h, body, Seq::<char>::empty()]);
    assert(lines.drop_last() =~= seq![h, body]);
    assert(seq![h, body].drop_last() =~= seq![h]);
    assert(seq![h].drop_last() =~= Seq::<Seq<char>>::empty());
    let st2 = RleLines { width: Some(wd as usize), height: Some(ht as usize), body: Seq::empty() };
    lemma_trim_pad(body);
    assert(is_data_char(body[0]));
    assert(is_data_char(body.last())) by {
        assert(is_data_char(body[body.len() - 1]));
    }
    assert(st2.body + body =~= body);
    let st3 = RleLines { width: Some(wd as usize), height: Some(ht as usize), body };
    assert(read_line(st2, body) == st3);
    let e = Seq::<char>::empty();
    assert(trim_start(e) == e);
    assert(trim_end(e) == e);
    assert(read_line(st3, e) == st3);
    let none = Seq::<Seq<char>>::empty();
    assert(read_lines(none) == lines_start());
    assert(read_lines(seq![h]) == st2);
    assert(read_lines(seq![h, body]) == st3);
    assert(read_lines(lines) == st3);
}

/// The pattern read back from an exported text is decoded from its one
/// data line, and decoding never leaves `usize` range.
proof fn lemma_parse_exported(wd: nat, ht: nat, rows: Seq<char>, s: RleScan)
    requires
        wd <= usize::MAX,
        ht <= usize::MAX,
        forall|i: int| 0 <= i < rows.len() ==> is_data_char(#[trigger] rows[i]),
        s == scan_from(scan_start(), rows),
        fits_along(scan_start(), rows),
        scan_ready(s),
        0 <= s.max_x <= wd,
        0 <= s.max_y <= ht,
        scan_state_fits(s),
    ensures
        rle_fits(export_header(wd, ht).push('\n') + rows.push('!').push('\n')),
        spec_parse(export_header(wd, ht).push('\n') + rows.push('!').push('\n')) == Ok::<
            (usize, usize, Seq<(usize, usize)>),
            RleError,
        >((wd as usize, ht as usize, s.cells.map_values(|p: (int, int)| (p.0 as usize, p.1 as usize)))),
{
    let body = rows.push('!');
    assert forall|i: int| 0 <= i < body.len() implies is_data_char(#[trigger] body[i]) by {
        if i < rows.len() {
            assert(body[i] == rows[i]);
        }
    }
    lemma_read_exported(wd, ht, body);
    assert(body.drop_last() =~= rows);
    lemma_scan_is_from_start(body);
    let t = scan_char(s, '!');
    assert(scan(body) == t);
    lemma_fits_along_push(scan_start(), rows, '!');
    assert forall|i: int| 0 <= i <= body.len() implies scan_state_fits(
        #[trigger] scan(body.take(i)),
    ) by {
        lemma_scan_is_from_start(body.take(i));
    }
}

/// Whether the grid cell at position `p` is live.
pub open spec fn grid_live(cells: Seq<bool>, w: int) -> spec_fn((int, int)) -> bool {
    |p: (int, int)| grid_cell(cells, w, p.0, p.1)
}

/// The live cells of the first `k` rows of a grid `w` wide, row by row and
/// left to right.
pub open spec fn rows_live(cells: Seq<bool>, w: int, k: int) -> Seq<(int, int)>
    decreases k,
{
    if k <= 0 {
        Seq::empty()
    } else {
        rows_live(cells, w, k - 1) + Seq::new(w as nat, |x: int| (x, k - 1)).filter(
            grid_live(cells, w),
        )
    }
}

/// Machine positions as integer points.
pub open spec fn ipoints(s: Seq<(usize, usize)>) -> Seq<(int, int)> {
    s.map_values(|p: (usize, usize)| (p.0 as int, p.1 as int))
}

proof fn lemma_filter_push(s: Seq<(int, int)>, e: (int, int), pred: spec_fn((int, int)) -> bool)
    ensures
        s.push(e).filter(pred) == (if pred(e) {
            s.filter(pred).push(e)
        } else {
            s.filter(pred)
        }),
{
    reveal(Seq::filter);
    assert(s.push(e).drop_last() =~= s);
}

/// The live points listed in row-major order up to column `x` of row `y`.
proof fn lemma_live_points_row(cells: Seq<bool>, w: int, h: int, y: int, x: int)
    requires
        0 < w <= usize::MAX,
        h <= usize::MAX,
        0 <= y < h,
        0 <= x <= w,
        ipoints(live_points_prefix(cells, w, y * w)) == rows_live(cells, w, y),
    ensures
        ipoints(live_points_prefix(cells, w, y * w + x)) == rows_live(cells, w, y) + Seq::new(
            x as nat,
            |i: int| (i, y),
        ).filter(grid_live(cells, w)),
    decreases x,
{
    reveal(Seq::filter);
    let pos = Seq::new(x as nat, |i: int| (i, y));
    if x == 0 {
        assert(pos =~= Seq::<(int, int)>::empty());
        assert(rows_live(cells, w, y) + pos.filter(grid_live(cells, w)) =~= rows_live(cells, w, y));
    } else {
        lemma_live_points_row(cells, w, h, y, x - 1);
        let n = y * w + x - 1;
        lemma_row_major(x - 1, y, w, h);
        let prev = live_points_prefix(cells, w, n);
        let pos0 = Seq::new((x - 1) as nat, |i: int| (i, y));
        assert(pos =~= pos0.push((x - 1, y)));
        lemma_filter_push(pos0, (x - 1, y), grid_live(cells, w));
        assert(grid_live(cells, w)((x - 1, y)) == cells[n]);
        let r = rows_live(cells, w, y);
        let f0 = pos0.filter(grid_live(cells, w));
        if cells[n] {
            let e = ((n % w) as usize, (n / w) as usize);
            assert(live_points_prefix(cells, w, n + 1) == prev.push(e));
            assert(ipoints(prev.push(e)) =~= ipoints(prev).push((x - 1, y)));
            assert((r + f0).push((x - 1, y)) =~= r + f0.push((x - 1, y)));
        } else {
            assert(live_points_prefix(cells, w, n + 1) == prev);
        }
    }
}

/// The live points listed in row-major order, row by row.
proof fn lemma_live_points_rows(cells: Seq<bool>, w: int, h: int, y: int)
    requires
        0 < w <= usize::MAX,
        h <= usize::MAX,
        0 <= y <= h,
    ensures
        ipoints(live_points_prefix(cells, w, y * w)) == rows_live(cells, w, y),
    decreases y,
{
    if y == 0 {
        assert(0 * w == 0);
        assert(ipoints(live_points_prefix(cells, w, 0)) =~= Seq::<(int, int)>::empty());
    } else {
        lemma_live_points_rows(cells, w, h, y - 1);
        lemma_live_points_row(cells, w, h, y - 1, w);
        assert((y - 1) * w + w == y * w) by (nonlinear_arith);
    }
}

/// Filtering, then mapping, is mapping, then filtering with the matching
/// test.
proof fn lemma_filter_map(
    s: Seq<(int, int)>,
    p: spec_fn((int, int)) -> bool,
    f: spec_fn((int, int)) -> (int, int),
    q: spec_fn((int, int)) -> bool,
)
    requires
        forall|i: int| 0 <= i < s.len() ==> p(#[trigger] s[i]) == q(f(s[i])),
    ensures
        s.filter(p).map_values(f) == s.map_values(f).filter(q),
    decreases s.len(),
{
    reveal(Seq::filter);
    if s.len() == 0 {
        assert(s.map_values(f) =~= Seq::<(int, int)>::empty());
        assert(s.filter(p).map_values(f) =~= Seq::<(int, int)>::empty());
    } else {
        let t = s.drop_last();
        assert forall|i: int| 0 <= i < t.len() implies p(#[trigger] t[i]) == q(f(t[i])) by {
            assert(t[i] == s[i]);
        }
        lemma_filter_map(t, p, f, q);
        assert(s.map_values(f).drop_last() =~= t.map_values(f));
        assert(s.map_values(f).last() == f(s.last()));
        assert(p(s.last()) == q(f(s.last()))) by {
            assert(s[s.len() - 1] == s.last());
        }
        if p(s.last()) {
            assert(t.filter(p).push(s.last()).map_values(f) =~= t.filter(p).map_values(f).push(
                f(s.last()),
            ));
        }
    }
}

/// Moves a point by the box's top left corner.
pub open spec fn box_shift(b: (int, int, int, int)) -> spec_fn((int, int)) -> (int, int) {
    |p: (int, int)| (p.0 - b.0, p.1 - b.1)
}

/// The live cells of grid row `y`, moved by the box's corner, are that row
/// of the box (none outside the box's rows).
proof fn lemma_row_in_box(cells: Seq<bool>, w: int, h: int, b: (int, int, int, int), y: int)
    requires
        is_live_bounds(cells, w, h, b),
        0 <= y < h,
    ensures
        Seq::new(w as nat, |x: int| (x, y)).filter(grid_live(cells, w)).map_values(box_shift(b))
            == (if b.1 <= y <= b.3 {
            Seq::new((b.2 - b.0 + 1) as nat, |x: int| (x, y - b.1)).filter(box_live(cells, w, b))
        } else {
            Seq::empty()
        }),
{
    let gl = grid_live(cells, w);
    let wd = b.2 - b.0 + 1;
    let a = Seq::new(b.0 as nat, |x: int| (x, y));
    let m = Seq::new(wd as nat, |x: int| (b.0 + x, y));
    let c = Seq::new((w - b.2 - 1) as nat, |x: int| (b.2 + 1 + x, y));
    assert(Seq::new(w as nat, |x: int| (x, y)) =~= a + m + c);
    Seq::filter_distributes_over_add(a + m, c, gl);
    Seq::filter_distributes_over_add(a, m, gl);
    assert forall|i: int| 0 <= i < a.len() implies gl(#[trigger] a[i]) == false by {
        if grid_cell(cells, w, i, y) {
            assert(b.0 <= i);
        }
    }
    lemma_filter_uniform(a, gl, false);
    assert forall|i: int| 0 <= i < c.len() implies gl(#[trigger] c[i]) == false by {
        if grid_cell(cells, w, b.2 + 1 + i, y) {
            assert(b.2 + 1 + i <= b.2);
        }
    }
    lemma_filter_uniform(c, gl, false);
    let full = Seq::new(w as nat, |x: int| (x, y)).filter(gl);
    assert(full =~= m.filter(gl));
    if b.1 <= y <= b.3 {
        assert forall|i: int| 0 <= i < m.len() implies gl(#[trigger] m[i]) == box_live(cells, w, b)(
            box_shift(b)(m[i]),
        ) by {
            assert(b.1 + (y - b.1) == y);
        }
        lemma_filter_map(m, gl, box_shift(b), box_live(cells, w, b));
        assert(m.map_values(box_shift(b)) =~= Seq::new(wd as nat, |x: int| (x, y - b.1)));
    } else {
        assert forall|i: int| 0 <= i < m.len() implies gl(#[trigger] m[i]) == false by {
            if grid_cell(cells, w, b.0 + i, y) {
                assert(b.1 <= y <= b.3);
            }
        }
        lemma_filter_uniform(m, gl, false);
        assert(full.map_values(box_shift(b)) =~= Seq::<(int, int)>::empty());
    }
}

/// The live cells of the first `k` grid rows, moved by the box's corner,
/// are the box's rows among them.
proof fn lemma_rows_in_box(cells: Seq<bool>, w: int, h: int, b: (int, int, int, int), k: int)
    requires
        is_live_bounds(cells, w, h, b),
        0 <= k <= h,
    ensures
        rows_live(cells, w, k).map_values(box_shift(b)) == box_cells(
            cells,
            w,
            b,
            if k - b.1 < 0 {
                0
            } else if k - b.1 > b.3 - b.1 + 1 {
                b.3 - b.1 + 1
            } else {
                k - b.1
            },
        ),
    decreases k,
{
    if k == 0 {
        assert(rows_live(cells, w, 0).map_values(box_shift(b)) =~= Seq::<(int, int)>::empty());
    } else {
        lemma_rows_in_box(cells, w, h, b, k - 1);
        lemma_row_in_box(cells, w, h, b, k - 1);
        let prev = rows_live(cells, w, k - 1);
        let row = Seq::new(w as nat, |x: int| (x, k - 1)).filter(grid_live(cells, w));
        assert((prev + row).map_values(box_shift(b)) =~= prev.map_values(box_shift(b))
            + row.map_values(box_shift(b)));
        if b.1 <= k - 1 <= b.3 {
            let j = k - b.1;
            assert(Seq::new((b.2 - b.0 + 1) as nat, |x: int| (x, k - 1 - b.1)) =~= Seq::new(
                (b.2 - b.0 + 1) as nat,
                |x: int| (x, j - 1),
            ));
        } else {
            assert(prev.map_values(box_shift(b)) + Seq::<(int, int)>::empty() =~= prev.map_values(
                box_shift(b),
            ));
        }
    }
}

/// Listing the live cells of a grid in row-major order and moving them by
/// the bounding box's corner gives the box's live cells row by row.
proof fn lemma_live_points_in_box(cells: Seq<bool>, w: int, h: int, b: (int, int, int, int))
    requires
        is_live_bounds(cells, w, h, b),
        w <= usize::MAX,
        h <= usize::MAX,
        cells.len() == w * h,
    ensures
        box_cells(cells, w, b, b.3 - b.1 + 1).map_values(
            |p: (int, int)| (p.0 as usize, p.1 as usize),
        ) == live_points_prefix(cells, w, cells.len() as int).map_values(
            |p: (usize, usize)| ((p.0 - b.0) as usize, (p.1 - b.1) as usize),
        ),
{
    lemma_live_points_rows(cells, w, h, h);
    assert(h * w == w * h) by (nonlinear_arith);
    lemma_rows_in_box(cells, w, h, b, h);
    let lp = live_points_prefix(cells, w, cells.len() as int);
    let bc = box_cells(cells, w, b, b.3 - b.1 + 1);
    assert(bc == rows_live(cells, w, h).map_values(box_shift(b)));
    assert(rows_live(cells, w, h) == ipoints(lp));
    let left = bc.map_values(|p: (int, int)| (p.0 as usize, p.1 as usize));
    let right = lp.map_values(|p: (usize, usize)| ((p.0 - b.0) as usize, (p.1 - b.1) as usize));
    assert forall|i: int| 0 <= i < left.len() implies left[i] == right[i] by {
        assert(ipoints(lp)[i] == (lp[i].0 as int, lp[i].1 as int));
        assert(bc[i] == box_shift(b)(ipoints(lp)[i]));
    }
    assert(left =~= right);
}

/// Exporting a grid with live cells and reading the text back gives the
/// pattern of the cells' bounding box `b` (`(min_x, min_y, max_x, max_y)`):
/// as wide and as high as the box, holding exactly its live cells, row by
/// row and left to right, relative to its top left corner. That list is the
/// grid's live points in row-major order, each moved by `(-min_x, -min_y)`.
/// Reading the text stays within `usize` range.
pub proof fn law_export_reads_back(cells: Seq<bool>, w: int, h: int, b: (int, int, int, int))
    requires
        w <= usize::MAX,
        h <= usize::MAX,
        cells.len() == w * h,
        is_live_bounds(cells, w, h, b),
    ensures
        rle_fits(rle_text(cells, w, h)),
        spec_parse(rle_text(cells, w, h)) == Ok::<(usize, usize, Seq<(usize, usize)>), RleError>(
            (
                (b.2 - b.0 + 1) as usize,
                (b.3 - b.1 + 1) as usize,
                box_cells(cells, w, b, b.3 - b.1 + 1).map_values(
                    |p: (int, int)| (p.0 as usize, p.1 as usize),
                ),
            ),
        ),
        spec_parse(rle_text(cells, w, h)) == Ok::<(usize, usize, Seq<(usize, usize)>), RleError>(
            (
                (b.2 - b.0 + 1) as usize,
                (b.3 - b.1 + 1) as usize,
                live_points_prefix(cells, w, cells.len() as int).map_values(
                    |p: (usize, usize)| ((p.0 - b.0) as usize, (p.1 - b.1) as usize),
                ),
            ),
        ),
{
    let y0 = choose|y: int| 0 <= y < h && #[trigger] grid_cell(cells, w, b.0, y);
    assert(grid_cell(cells, w, b.0, y0));
    assert(has_live(cells, w, h));
    lemma_live_bounds_unique(cells, w, h, b);
    let wd = (b.2 - b.0 + 1) as nat;
    let ht = (b.3 - b.1 + 1) as nat;
    let rows = rle_rows(cells, w, b, ht as int);
    lemma_rle_rows_chars(cells, w, b, ht as int);
    lemma_scan_rows(cells, w, b, ht as int);
    let s = scan_from(scan_start(), rows);
    lemma_parse_exported(wd, ht, rows, s);
    reveal_strlit("x = ");
    reveal_strlit(", y = ");
    reveal_strlit(", rule = B3/S23\n");
    reveal_strlit("\n");
    assert(rle_text(cells, w, h) =~= export_header(wd, ht).push('\n') + rows.push('!').push(
        '\n',
    ));
    lemma_live_points_in_box(cells, w, h, b);
}

/// Exporting a grid without live cells and reading the text back gives an
/// empty 0 by 0 pattern.
pub proof fn law_empty_export_reads_back(cells: Seq<bool>, w: int, h: int)
    requires
        !has_live(cells, w, h),
    ensures
        rle_fits(rle_text(cells, w, h)),
        spec_parse(rle_text(cells, w, h)) == Ok::<(usize, usize, Seq<(usize, usize)>), RleError>(
            (0usize, 0usize, Seq::empty()),
        ),
{
    let rows = Seq::<char>::empty();
    let s = scan_start();
    assert(scan_from(scan_start(), rows) == s);
    assert forall|i: int| 0 <= i <= rows.len() implies scan_state_fits(
        #[trigger] scan_from(scan_start(), rows.take(i)),
    ) by {
        assert(rows.take(i) =~= rows);
    }
    lemma_parse_exported(0, 0, rows, s);
    assert(s.cells.map_values(|p: (int, int)| (p.0 as usize, p.1 as usize)) =~= Seq::<
        (usize, usize),
    >::empty());
    assert(decimal(0) == seq!['0']);
    reveal_strlit("x = 0, y = 0, rule = B3/S23\n!\n");
    assert(rle_text(cells, w, h) =~= export_header(0, 0).push('\n') + rows.push('!').push('\n'));
}

/// A line that is read as pattern data: not blank, no `#` comment, no
/// header (`=`), no surrounding white space and no line break.
pub open spec fn data_line(x: Seq<char>) -> bool {
    &&& x.len() > 0
    &&& !x.contains('\n')
    &&& !x.contains('=')
    &&& !is_space(x[0])
    &&& x[0] != '#'
    &&& !is_space(x.last())
}

proof fn lemma_data_line_join(a: Seq<char>, b: Seq<char>)
    requires
        data_line(a),
        data_line(b),
    ensures
        data_line(a + b),
{
    let c = a + b;
    assert forall|ch: char| (ch == '\n' || ch == '=') implies !c.contains(ch) by {
        if c.contains(ch) {
            let i = choose|i: int| 0 <= i < c.len() && c[i] == ch;
            if i < a.len() {
                assert(a[i] == ch);
            } else {
                assert(b[i - a.len()] == ch);
            }
        }
    }
    assert(c[0] == a[0]);
    assert(c.last() == b.last());
}

proof fn lemma_read_data_line(st: RleLines, x: Seq<char>)
    requires
        data_line(x),
    ensures
        read_line(st, x) == (RleLines { body: st.body + x, ..st }),
{
    lemma_trim_pad(x);
}

proof fn lemma_split_data_lines(hd: Seq<char>, a: Seq<char>, b: Seq<char>)
    requires
        data_line(a),
        data_line(b),
    ensures
        split_on(hd.push('\n') + a.push('\n') + b, '\n') == split_on(hd, '\n').push(a).push(b),
        split_on(hd.push('\n') + (a + b), '\n') == split_on(hd, '\n').push(a + b),
{
    lemma_data_line_join(a, b);
    let l = split_on(hd, '\n');
    assert(hd.push('\n') + a.push('\n') + b =~= hd.push('\n') + (a.push('\n') + b));
    lemma_split_join(hd, a.push('\n') + b, '\n');
    lemma_split_join(a, b, '\n');
    lemma_split_single(a, '\n');
    lemma_split_single(b, '\n');
    lemma_split_join(hd, a + b, '\n');
    lemma_split_single(a + b, '\n');
    assert(l + (seq![a] + seq![b]) =~= l.push(a).push(b));
    assert(l + seq![a + b] =~= l.push(a + b));
}

/// Splitting pattern data over several lines changes nothing: after any
/// text `hd` and a line break, data lines `a` and `b` are read as the one
/// line `a + b`, and the body read is the body before them followed by
/// `a` and `b`.
pub proof fn law_data_lines_join(hd: Seq<char>, a: Seq<char>, b: Seq<char>)
    requires
        data_line(a),
        data_line(b),
    ensures
        rle_lines(hd.push('\n') + a.push('\n') + b).body == rle_lines(hd).body + a + b,
        rle_lines(hd.push('\n') + a.push('\n') + b) == rle_lines(hd.push('\n') + (a + b)),
        spec_parse(hd.push('\n') + a.push('\n') + b) == spec_parse(hd.push('\n') + (a + b)),
{
    lemma_data_line_join(a, b);
    lemma_split_data_lines(hd, a, b);
    let l = split_on(hd, '\n');
    let st = read_lines(l);
    assert(rle_lines(hd) == st);
    assert(l.push(a).push(b).drop_last() =~= l.push(a));
    assert(l.push(a).drop_last() =~= l);
    assert(l.push(a + b).drop_last() =~= l);
    lemma_read_data_line(st, a);
    let st1 = RleLines { body: st.body + a, ..st };
    lemma_read_data_line(st1, b);
    lemma_read_data_line(st, a + b);
    assert(read_lines(l.push(a)) == st1);
    assert(read_lines(l.push(a).push(b)) == read_line(st1, b));
    assert(read_lines(l.push(a + b)) == read_line(st, a + b));
    assert(st.body + a + b =~= st.body + (a + b));
}

} // verus!
