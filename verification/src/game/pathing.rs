//! Shortest ways over the cells of a map grid, shared by players (orthogonal
//! steps into open cells) and projectiles (any of the eight directions).
//! Cells are numbered `y * width + x`.

use vstd::prelude::*;
use vstd::arithmetic::div_mod::{lemma_fundamental_div_mod, lemma_fundamental_div_mod_converse};

verus! {

/// Number of cells of a grid.
pub open spec fn cells(w: u8, h: u8) -> int {
    w as int * h as int
}

/// `b` is a step from `a`: both are cells of the grid; with `diagonal`, `b`
/// lies in the 3x3 block around `a` (`a` itself included), otherwise `b` is
/// the cell directly west, north, south or east of `a` and is not blocked.
pub open spec fn adjacent(w: u8, h: u8, blocked: Seq<bool>, diagonal: bool, a: int, b: int) -> bool {
    &&& 0 <= a < cells(w, h)
    &&& 0 <= b < cells(w, h)
    &&& {
        let dx = b % (w as int) - a % (w as int);
        let dy = b / (w as int) - a / (w as int);
        if diagonal {
            -1 <= dx <= 1 && -1 <= dy <= 1
        } else {
            ((dx == 0 && (dy == 1 || dy == -1)) || (dy == 0 && (dx == 1 || dx == -1))) && !blocked[b]
        }
    }
}

/// The cells from which `end` is reached in at most `k` steps.
pub open spec fn within(w: u8, h: u8, bl: Seq<bool>, diag: bool, end: int, k: nat) -> Set<int>
    decreases k,
{
    if k == 0 {
        if 0 <= end < cells(w, h) {
            set![end]
        } else {
            Set::empty()
        }
    } else {
        let prev = within(w, h, bl, diag, end, (k - 1) as nat);
        Set::new(|c: int| prev.contains(c) || exists|n: int| prev.contains(n) && adjacent(w, h, bl, diag, c, n))
    }
}

/// `end` can be reached from `a` by steps.
pub open spec fn reaches(w: u8, h: u8, bl: Seq<bool>, diag: bool, a: int, end: int) -> bool {
    exists|k: nat| #[trigger] within(w, h, bl, diag, end, k).contains(a)
}

/// `n` is a first step from `a` on a shortest way to `end`: `a` is `k > 0`
/// steps from `end` and no fewer, and `n`, a step from `a`, is `k - 1` steps
/// from it.
pub open spec fn closer_step(w: u8, h: u8, bl: Seq<bool>, diag: bool, a: int, n: int, end: int) -> bool {
    &&& adjacent(w, h, bl, diag, a, n)
    &&& exists|k: nat| #![trigger within(w, h, bl, diag, end, k)]
        k > 0 && within(w, h, bl, diag, end, k).contains(a) && !within(w, h, bl, diag, end, (k - 1) as nat).contains(a)
            && within(w, h, bl, diag, end, (k - 1) as nat).contains(n)
}

/// The number of marked flags.
pub open spec fn count_marked(s: Seq<bool>) -> nat
    decreases s.len(),
{
    if s.len() == 0 {
        0
    } else {
        count_marked(s.drop_last()) + if s.last() { 1nat } else { 0nat }
    }
}

proof fn lemma_count_le(s: Seq<bool>)
    ensures
        count_marked(s) <= s.len(),
    decreases s.len(),
{
    if s.len() > 0 {
        lemma_count_le(s.drop_last());
    }
}

/// Every cell within some steps of `end` is a cell of the grid.
proof fn lemma_within_in_grid(w: u8, h: u8, bl: Seq<bool>, diag: bool, end: int, k: nat, c: int)
    requires
        within(w, h, bl, diag, end, k).contains(c),
    ensures
        0 <= c < cells(w, h),
    decreases k,
{
    if k > 0 {
        let prev = within(w, h, bl, diag, end, (k - 1) as nat);
        if prev.contains(c) {
            lemma_within_in_grid(w, h, bl, diag, end, (k - 1) as nat, c);
        }
    }
}

/// Once a step adds no cell, no later step does.
proof fn lemma_within_stable(w: u8, h: u8, bl: Seq<bool>, diag: bool, end: int, k: nat, j: nat)
    requires
        within(w, h, bl, diag, end, k + 1) == within(w, h, bl, diag, end, k),
        j >= k,
    ensures
        within(w, h, bl, diag, end, j) == within(w, h, bl, diag, end, k),
    decreases j - k,
{
    if j > k {
        lemma_within_stable(w, h, bl, diag, end, k, (j - 1) as nat);
        assert(within(w, h, bl, diag, end, j) =~= within(w, h, bl, diag, end, k + 1));
    }
}

/// Column and row of a cell.
pub proof fn lemma_cell_coords(w: int, h: int, c: int)
    requires
        w > 0,
        0 <= c < w * h,
    ensures
        0 <= c % w < w,
        0 <= c / w < h,
        c == (c / w) * w + c % w,
{
    lemma_fundamental_div_mod(c, w);
    assert((c / w) * w == w * (c / w)) by (nonlinear_arith);
    assert(0 <= c / w < h) by (nonlinear_arith)
        requires
            w > 0,
            0 <= c < w * h,
            c == w * (c / w) + c % w,
            0 <= c % w < w,
    ;
}

/// The cell at column `x` and row `y`.
pub proof fn lemma_cell_at(w: int, h: int, x: int, y: int)
    requires
        w > 0,
        0 <= x < w,
        0 <= y < h,
    ensures
        0 <= y * w + x < w * h,
        (y * w + x) % w == x,
        (y * w + x) / w == y,
{
    lemma_fundamental_div_mod_converse(y * w + x, w, y, x);
    assert(0 <= y * w + x < w * h) by (nonlinear_arith)
        requires
            w > 0,
            0 <= x < w,
            0 <= y < h,
    ;
}

/// The open cells directly west, north, south and east of `index`, in that
/// order.
pub open spec fn orth_neighbors(w: u8, h: u8, bl: Seq<bool>, index: int) -> Seq<u32> {
    let wi = w as int;
    let x = index % wi;
    let y = index / wi;
    (if x > 0 && !bl[index - 1] { seq![(index - 1) as u32] } else { Seq::empty() })
        + (if y > 0 && !bl[index - wi] { seq![(index - wi) as u32] } else { Seq::empty() })
        + (if y + 1 < h && !bl[index + wi] { seq![(index + wi) as u32] } else { Seq::empty() })
        + (if x + 1 < wi && !bl[index + 1] { seq![(index + 1) as u32] } else { Seq::empty() })
}

/// The open cells west, north, south and east of `index`, in that order.
fn orthogonal_neighbors(index: u32, width: u8, height: u8, blocked: &Vec<bool>) -> (r: Vec<u32>)
    requires
        width > 0,
        (index as int) < cells(width, height),
        blocked@.len() >= cells(width, height),
    ensures
        r@ == orth_neighbors(width, height, blocked@, index as int),
{
    let ghost wi = width as int;
    let ghost hi = height as int;
    let w = width as u32;
    let x = index % w;
    let y = index / w;
    proof {
        assert(wi * hi <= 255 * 255) by (nonlinear_arith)
            requires
                0 <= wi <= 255,
                0 <= hi <= 255,
        ;
        lemma_cell_coords(wi, hi, index as int);
        if x > 0 {
            lemma_cell_at(wi, hi, x - 1, y as int);
        }
        if x + 1 < w {
            lemma_cell_at(wi, hi, x + 1, y as int);
        }
        if y > 0 {
            lemma_cell_at(wi, hi, x as int, y - 1);
            assert((y - 1) * wi == y * wi - wi) by (nonlinear_arith);
        }
        if y + 1 < hi {
            lemma_cell_at(wi, hi, x as int, y + 1);
            assert((y + 1) * wi == y * wi + wi) by (nonlinear_arith);
        }
    }
    let mut r: Vec<u32> = Vec::new();
    if x > 0 && !blocked[(index - 1) as usize] {
        r.push(index - 1);
    }
    if y > 0 && !blocked[(index - w) as usize] {
        r.push(index - w);
    }
    if y + 1 < height as u32 && !blocked[(index + w) as usize] {
        r.push(index + w);
    }
    if x + 1 < w && !blocked[(index + 1) as usize] {
        r.push(index + 1);
    }
    assert(r@ =~= orth_neighbors(width, height, blocked@, index as int));
    r
}

/// The cells `orth_neighbors` lists are exactly the steps from `a`.
proof fn lemma_orth_neighbors(w: u8, h: u8, bl: Seq<bool>, a: int)
    requires
        w > 0,
        0 <= a < cells(w, h),
        bl.len() >= cells(w, h),
    ensures
        forall|k: int| 0 <= k < orth_neighbors(w, h, bl, a).len() ==> adjacent(w, h, bl, false, a, #[trigger] orth_neighbors(w, h, bl, a)[k] as int),
        forall|b: int| #[trigger] adjacent(w, h, bl, false, a, b)
            ==> exists|k: int| 0 <= k < orth_neighbors(w, h, bl, a).len() && orth_neighbors(w, h, bl, a)[k] as int == b,
{
    let wi = w as int;
    let hi = h as int;
    assert(wi * hi <= 255 * 255) by (nonlinear_arith)
        requires
            0 <= wi <= 255,
            0 <= hi <= 255,
    ;
    lemma_cell_coords(wi, hi, a);
    let x = a % wi;
    let y = a / wi;
    if x > 0 {
        lemma_cell_at(wi, hi, x - 1, y);
    }
    if x + 1 < wi {
        lemma_cell_at(wi, hi, x + 1, y);
    }
    if y > 0 {
        lemma_cell_at(wi, hi, x, y - 1);
        assert((y - 1) * wi == y * wi - wi) by (nonlinear_arith);
    }
    if y + 1 < hi {
        lemma_cell_at(wi, hi, x, y + 1);
        assert((y + 1) * wi == y * wi + wi) by (nonlinear_arith);
    }
    let o = orth_neighbors(w, h, bl, a);
    let sw: Seq<u32> = if x > 0 && !bl[a - 1] { seq![(a - 1) as u32] } else { Seq::empty() };
    let sn: Seq<u32> = if y > 0 && !bl[a - wi] { seq![(a - wi) as u32] } else { Seq::empty() };
    let ss: Seq<u32> = if y + 1 < hi && !bl[a + wi] { seq![(a + wi) as u32] } else { Seq::empty() };
    let se: Seq<u32> = if x + 1 < wi && !bl[a + 1] { seq![(a + 1) as u32] } else { Seq::empty() };
    assert(o == sw + sn + ss + se);
    assert forall|k: int| 0 <= k < o.len() implies adjacent(w, h, bl, false, a, #[trigger] o[k] as int) by {
        if k < sw.len() {
            assert(o[k] == sw[k]);
            assert(o[k] as int == a - 1);
        } else if k < sw.len() + sn.len() {
            assert(o[k] == sn[k - sw.len()]);
            assert(o[k] as int == a - wi);
        } else if k < sw.len() + sn.len() + ss.len() {
            assert(o[k] == ss[k - sw.len() - sn.len()]);
            assert(o[k] as int == a + wi);
        } else {
            assert(o[k] == se[k - sw.len() - sn.len() - ss.len()]);
            assert(o[k] as int == a + 1);
        }
    }
    assert forall|b: int| #[trigger] adjacent(w, h, bl, false, a, b)
        implies exists|k: int| 0 <= k < o.len() && o[k] as int == b by {
        lemma_cell_coords(wi, hi, b);
        let bx = b % wi;
        let by_ = b / wi;
        if bx == x - 1 && by_ == y {
            assert(b == a - 1);
            assert(x > 0 && !bl[a - 1]);
            assert(sw.len() == 1);
            assert(o[0] == sw[0]);
        } else if bx == x + 1 && by_ == y {
            assert(b == a + 1);
            assert(o[(sw.len() + sn.len() + ss.len()) as int] as int == b);
        } else if by_ == y - 1 {
            assert(b == a - wi) by (nonlinear_arith)
                requires
                    b == by_ * wi + bx,
                    a == y * wi + x,
                    bx == x,
                    by_ == y - 1,
            ;
            assert(o[sw.len() as int] as int == b);
        } else {
            assert(b == a + wi) by (nonlinear_arith)
                requires
                    b == by_ * wi + bx,
                    a == y * wi + x,
                    bx == x,
                    by_ == y + 1,
            ;
            assert(o[(sw.len() + sn.len()) as int] as int == b);
        }
    }
}

/// The steps from `index`: without `diagonal` the open cells west, north,
/// south and east, in that order (`orth_neighbors`); with `diagonal` the
/// cells of the 3x3 block around it, column by column from the west and row
/// by row from the north, `index` itself included.
pub fn find_neighbors(index: u32, width: u8, height: u8, blocked: &Vec<bool>, diagonal: bool) -> (r: Vec<u32>)
    requires
        width > 0,
        (index as int) < cells(width, height),
        !diagonal ==> blocked@.len() >= cells(width, height),
    ensures
        !diagonal ==> r@ == orth_neighbors(width, height, blocked@, index as int),
        forall|k: int| 0 <= k < r@.len() ==> adjacent(width, height, blocked@, diagonal, index as int, #[trigger] r@[k] as int),
        forall|b: int| #[trigger] adjacent(width, height, blocked@, diagonal, index as int, b)
            ==> exists|k: int| 0 <= k < r@.len() && r@[k] as int == b,
{
    if !diagonal {
        proof {
            lemma_orth_neighbors(width, height, blocked@, index as int);
        }
        return orthogonal_neighbors(index, width, height, blocked);
    }
    let w = width as i64;
    let hh = height as i64;
    let x = (index % (width as u32)) as i64;
    let y = (index / (width as u32)) as i64;
    proof {
        lemma_cell_coords(w as int, hh as int, index as int);
    }
    let ghost wi = w as int;
    let ghost hi = hh as int;
    let ghost a = index as int;
    let mut neighbors: Vec<u32> = Vec::new();
    let mut dx: i64 = 0;
    while dx < 3
        invariant
            0 <= dx <= 3,
            w == width as i64,
            hh == height as i64,
            wi == w as int,
            hi == hh as int,
            a == index as int,
            w > 0,
            0 <= a < wi * hi,
            0 <= x < w,
            0 <= y < hh,
            x == a % wi,
            y == a / wi,
            !diagonal ==> blocked@.len() >= wi * hi,
            forall|k: int| 0 <= k < neighbors@.len() ==> adjacent(width, height, blocked@, diagonal, a, #[trigger] neighbors@[k] as int),
            forall|b: int| #[trigger] adjacent(width, height, blocked@, diagonal, a, b) && b % wi - x + 1 < dx
                ==> exists|k: int| 0 <= k < neighbors@.len() && neighbors@[k] as int == b,
        decreases 3 - dx,
    {
        let mut dy: i64 = 0;
        while dy < 3
            invariant
                0 <= dx < 3,
                0 <= dy <= 3,
                w == width as i64,
                hh == height as i64,
                wi == w as int,
                hi == hh as int,
                a == index as int,
                w > 0,
                0 <= a < wi * hi,
                0 <= x < w,
                0 <= y < hh,
                x == a % wi,
                y == a / wi,
                !diagonal ==> blocked@.len() >= wi * hi,
                forall|k: int| 0 <= k < neighbors@.len() ==> adjacent(width, height, blocked@, diagonal, a, #[trigger] neighbors@[k] as int),
                forall|b: int| #[trigger] adjacent(width, height, blocked@, diagonal, a, b) && (b % wi - x + 1 < dx
                    || (b % wi - x + 1 == dx && b / wi - y + 1 < dy))
                    ==> exists|k: int| 0 <= k < neighbors@.len() && neighbors@[k] as int == b,
            decreases 3 - dy,
        {
            let skip = !diagonal && (dy == dx || (dx == 0 && dy == 2) || (dx == 2 && dy == 0));
            let cx = x + dx - 1;
            let cy = y + dy - 1;
            let ghost before = neighbors@;
            if !skip && cx >= 0 && cy >= 0 && cx < w && cy < hh {
                proof {
                    lemma_cell_at(wi, hi, cx as int, cy as int);
                }
                assert(0 <= cy * w <= 255 * 255) by (nonlinear_arith)
                    requires
                        0 <= cy < hh,
                        hh <= 255,
                        0 < w <= 255,
                ;
                let i = (cy * w + cx) as u32;
                if diagonal || !blocked[i as usize] {
                    neighbors.push(i);
                    proof {
                        assert(adjacent(width, height, blocked@, diagonal, a, i as int));
                        assert(neighbors@[before.len() as int] == i);
                    }
                }
            }
            proof {
                assert forall|b: int| #[trigger] adjacent(width, height, blocked@, diagonal, a, b) && (b % wi - x + 1 < dx
                    || (b % wi - x + 1 == dx && b / wi - y + 1 < dy + 1))
                    implies exists|k: int| 0 <= k < neighbors@.len() && neighbors@[k] as int == b by {
                    lemma_cell_coords(wi, hi, b);
                    if b % wi - x + 1 == dx && b / wi - y + 1 == dy {
                        lemma_cell_at(wi, hi, cx as int, cy as int);
                        assert(b == cy * wi + cx);
                        assert(neighbors@[before.len() as int] as int == b);
                    } else {
                        let k = choose|k: int| 0 <= k < before.len() && before[k] as int == b;
                        assert(neighbors@[k] == before[k]);
                    }
                }
            }
            dy = dy + 1;
        }
        dx = dx + 1;
    }
    proof {
        assert forall|b: int| #[trigger] adjacent(width, height, blocked@, diagonal, a, b)
            implies exists|k: int| 0 <= k < neighbors@.len() && neighbors@[k] as int == b by {
            lemma_cell_coords(wi, hi, b);
        }
    }
    neighbors
}


pub open spec fn abs(x: int) -> int {
    if x < 0 {
        -x
    } else {
        x
    }
}

/// The number of steps between two cells when any of the eight directions
/// may be taken: the larger of the column and the row distance.
pub open spec fn cheb(w: u8, a: int, b: int) -> int {
    let dx = abs(a % (w as int) - b % (w as int));
    let dy = abs(a / (w as int) - b / (w as int));
    if dx >= dy {
        dx
    } else {
        dy
    }
}

/// On a grid with no blocked cell and steps in eight directions, a cell at
/// most `k` columns and rows from `end` reaches it within `k` steps.
proof fn lemma_cheb_within(w: u8, h: u8, end: int, k: nat, c: int)
    requires
        w > 0,
        0 <= c < cells(w, h),
        0 <= end < cells(w, h),
        cheb(w, c, end) <= k,
    ensures
        within(w, h, Seq::empty(), true, end, k).contains(c),
    decreases k,
{
    let wi = w as int;
    let hi = h as int;
    lemma_cell_coords(wi, hi, c);
    lemma_cell_coords(wi, hi, end);
    let cx = c % wi;
    let cy = c / wi;
    let ex = end % wi;
    let ey = end / wi;
    if k == 0 {
        assert(cx == ex && cy == ey);
        assert(c == end);
    } else if cheb(w, c, end) <= k - 1 {
        lemma_cheb_within(w, h, end, (k - 1) as nat, c);
    } else {
        let nx = if ex > cx { cx + 1 } else if ex < cx { cx - 1 } else { cx };
        let ny = if ey > cy { cy + 1 } else if ey < cy { cy - 1 } else { cy };
        lemma_cell_at(wi, hi, nx, ny);
        let n = ny * wi + nx;
        assert(cheb(w, n, end) <= k - 1);
        lemma_cheb_within(w, h, end, (k - 1) as nat, n);
        let prev = within(w, h, Seq::empty(), true, end, (k - 1) as nat);
        assert(prev.contains(n) && adjacent(w, h, Seq::empty(), true, c, n));
    }
}

/// On a grid with steps in eight directions, a cell within `k` steps of
/// `end` is at most `k` columns and rows from it.
proof fn lemma_within_cheb(w: u8, h: u8, end: int, k: nat, c: int)
    requires
        w > 0,
        0 <= end < cells(w, h),
        within(w, h, Seq::empty(), true, end, k).contains(c),
    ensures
        cheb(w, c, end) <= k,
    decreases k,
{
    let prev = within(w, h, Seq::empty(), true, end, (k - 1) as nat);
    if k > 0 {
        if prev.contains(c) {
            lemma_within_cheb(w, h, end, (k - 1) as nat, c);
        } else {
            let n = choose|n: int| prev.contains(n) && adjacent(w, h, Seq::empty(), true, c, n);
            lemma_within_cheb(w, h, end, (k - 1) as nat, n);
        }
    }
}

/// On a grid with no blocked cell and steps in eight directions every cell
/// reaches every other.
pub proof fn lemma_open_grid_reaches(w: u8, h: u8, a: int, end: int)
    requires
        w > 0,
        0 <= a < cells(w, h),
        0 <= end < cells(w, h),
    ensures
        reaches(w, h, Seq::empty(), true, a, end),
{
    lemma_cell_coords(w as int, h as int, a);
    lemma_cell_coords(w as int, h as int, end);
    let k = cheb(w, a, end) as nat;
    lemma_cheb_within(w, h, end, k, a);
}

/// On a grid with no blocked cell and steps in eight directions, a first
/// step on a shortest way is one column and row count nearer: the
/// eight-direction distance drops by one.
pub proof fn lemma_closer_step_cheb(w: u8, h: u8, a: int, n: int, end: int)
    requires
        w > 0,
        0 <= end < cells(w, h),
        closer_step(w, h, Seq::empty(), true, a, n, end),
    ensures
        cheb(w, n, end) == cheb(w, a, end) - 1,
{
    let k = choose|k: nat| #![trigger within(w, h, Seq::<bool>::empty(), true, end, k)]
        k > 0 && within(w, h, Seq::empty(), true, end, k).contains(a) && !within(w, h, Seq::empty(), true, end, (k - 1) as nat).contains(a)
            && within(w, h, Seq::empty(), true, end, (k - 1) as nat).contains(n);
    lemma_within_cheb(w, h, end, k, a);
    lemma_within_cheb(w, h, end, (k - 1) as nat, n);
    if cheb(w, a, end) <= k - 1 {
        lemma_cheb_within(w, h, end, (k - 1) as nat, a);
    }
    lemma_cell_coords(w as int, h as int, a);
    lemma_cell_coords(w as int, h as int, n);
}

/// The cells one more step from `end` than those marked in `cur` (the
/// cells within `k` steps), and how many cells that adds.
fn next_layer(
    width: u8,
    height: u8,
    blocked: &Vec<bool>,
    diagonal: bool,
    end: u32,
    cur: &Vec<bool>,
    Ghost(k): Ghost<nat>,
) -> (r: (Vec<bool>, usize))
    requires
        width > 0,
        cur@.len() == cells(width, height),
        !diagonal ==> blocked@.len() >= cells(width, height),
        forall|c: int| 0 <= c < cells(width, height) ==> cur@[c] == #[trigger] within(width, height, blocked@, diagonal, end as int, k).contains(c),
    ensures
        r.0@.len() == cells(width, height),
        forall|c: int| 0 <= c < cells(width, height) ==> r.0@[c] == #[trigger] within(width, height, blocked@, diagonal, end as int, k + 1).contains(c),
        count_marked(r.0@) == count_marked(cur@) + r.1,
        r.1 == 0 ==> r.0@ == cur@,
{
    let ghost bl = blocked@;
    let ghost prev = within(width, height, bl, diagonal, end as int, k);
    let ghost nxt = within(width, height, bl, diagonal, end as int, k + 1);
    assert(cells(width, height) <= 255 * 255) by (nonlinear_arith)
        requires
            width <= 255,
            height <= 255,
    ;
    let n = cur.len();
    let mut next: Vec<bool> = Vec::new();
    let mut added: usize = 0;
    let mut c: usize = 0;
    assert(cur@.take(0) =~= Seq::<bool>::empty());
    while c < n
        invariant
            n == cur@.len(),
            n == cells(width, height),
            n <= 255 * 255,
            width > 0,
            c <= n,
            bl == blocked@,
            !diagonal ==> bl.len() >= n,
            prev == within(width, height, bl, diagonal, end as int, k),
            nxt == within(width, height, bl, diagonal, end as int, k + 1),
            forall|i: int| 0 <= i < n ==> cur@[i] == #[trigger] prev.contains(i),
            next@.len() == c,
            forall|i: int| 0 <= i < c ==> next@[i] == #[trigger] nxt.contains(i),
            count_marked(next@) == count_marked(cur@.take(c as int)) + added,
            added <= c,
            added == 0 ==> next@ == cur@.take(c as int),
        decreases n - c,
    {
        let ghost t = cur@.take(c + 1);
        assert(t.drop_last() =~= cur@.take(c as int));
        let ghost before = next@;
        if cur[c] {
            next.push(true);
            assert(nxt.contains(c as int));
        } else {
            let nbrs = find_neighbors(c as u32, width, height, blocked, diagonal);
            assert((c as u32) as int == c as int);
            let mut found = false;
            let mut j: usize = 0;
            while j < nbrs.len()
                invariant
                    j <= nbrs@.len(),
                    n == cur@.len(),
                    n == cells(width, height),
                    found == (exists|m: int| 0 <= m < j && cur@[nbrs@[m] as int]),
                    forall|m: int| 0 <= m < nbrs@.len() ==> adjacent(width, height, bl, diagonal, c as int, #[trigger] nbrs@[m] as int),
                    bl == blocked@,
                decreases nbrs@.len() - j,
            {
                assert(adjacent(width, height, bl, diagonal, c as int, nbrs@[j as int] as int));
                if cur[nbrs[j] as usize] {
                    found = true;
                }
                j = j + 1;
            }
            proof {
                if found {
                    let m = choose|m: int| 0 <= m < nbrs@.len() && cur@[nbrs@[m] as int];
                    let nb = nbrs@[m] as int;
                    assert(adjacent(width, height, bl, diagonal, c as int, nb));
                    assert(prev.contains(nb));
                    assert(nxt.contains(c as int));
                } else {
                    assert(!prev.contains(c as int));
                    assert forall|nb: int| prev.contains(nb) implies !adjacent(width, height, bl, diagonal, c as int, nb) by {
                        if adjacent(width, height, bl, diagonal, c as int, nb) {
                            let m = choose|m: int| 0 <= m < nbrs@.len() && nbrs@[m] as int == nb;
                            assert(cur@[nbrs@[m] as int]);
                        }
                    }
                    assert(!nxt.contains(c as int));
                }
            }
            next.push(found);
            if found {
                added = added + 1;
            }
        }
        assert(next@.drop_last() =~= before);
        assert forall|i: int| 0 <= i < c + 1 implies next@[i] == #[trigger] nxt.contains(i) by {
            if i < c {
                assert(next@[i] == before[i]);
            }
        }
        if added == 0 {
            assert(next@ =~= t);
        }
        c = c + 1;
    }
    assert(cur@.take(n as int) =~= cur@);
    (next, added)
}

/// The first step from `start` on a shortest way to `end` (a breadth-first
/// search outwards from `end`): `start` itself when it is `end`, else a
/// step after which `end` is one step nearer; `None` when `end` cannot be
/// reached. Of several such steps the first in the order of
/// `find_neighbors` is taken.
pub fn path_next(width: u8, height: u8, blocked: &Vec<bool>, diagonal: bool, start: u32, end: u32) -> (r: Option<u32>)
    requires
        width > 0,
        (start as int) < cells(width, height),
        (end as int) < cells(width, height),
        !diagonal ==> blocked@.len() >= cells(width, height),
    ensures
        r is Some <==> reaches(width, height, blocked@, diagonal, start as int, end as int),
        r matches Some(s) ==> if start == end {
            s == start
        } else {
            closer_step(width, height, blocked@, diagonal, start as int, s as int, end as int)
        },
{
    let ghost bl = blocked@;
    if start == end {
        assert(within(width, height, bl, diagonal, end as int, 0).contains(start as int));
        return Some(start);
    }
    assert(cells(width, height) <= 255 * 255) by (nonlinear_arith)
        requires
            width <= 255,
            height <= 255,
    ;
    let n = (width as usize) * (height as usize);
    let mut cur: Vec<bool> = Vec::new();
    let mut i: usize = 0;
    while i < n
        invariant
            i <= n,
            n == cells(width, height),
            cur@.len() == i,
            forall|c: int| 0 <= c < i ==> cur@[c] == (c == end as int),
            count_marked(cur@) == (if (end as int) < i { 1nat } else { 0nat }),
        decreases n - i,
    {
        let ghost before = cur@;
        cur.push(i == end as usize);
        assert(cur@.drop_last() =~= before);
        i = i + 1;
    }
    let ghost mut k: nat = 0;
    let mut count: usize = 1;
    assert forall|c: int| 0 <= c < n implies cur@[c] == #[trigger] within(width, height, bl, diagonal, end as int, 0).contains(c) by {}
    loop
        invariant
            width > 0,
            n == cells(width, height),
            (start as int) < n,
            (end as int) < n,
            start != end,
            bl == blocked@,
            !diagonal ==> bl.len() >= n,
            cur@.len() == n,
            forall|c: int| 0 <= c < n ==> cur@[c] == #[trigger] within(width, height, bl, diagonal, end as int, k).contains(c),
            count == count_marked(cur@),
            count <= n,
            forall|j: nat| j <= k ==> !#[trigger] within(width, height, bl, diagonal, end as int, j).contains(start as int),
        decreases n - count,
    {
        let (next, added) = next_layer(width, height, blocked, diagonal, end, &cur, Ghost(k));
        proof {
            lemma_count_le(next@);
        }
        if added == 0 {
            proof {
                let a = within(width, height, bl, diagonal, end as int, k);
                let b = within(width, height, bl, diagonal, end as int, k + 1);
                assert forall|c: int| #[trigger] b.contains(c) == a.contains(c) by {
                    if b.contains(c) {
                        lemma_within_in_grid(width, height, bl, diagonal, end as int, k + 1, c);
                    }
                    if a.contains(c) {
                        lemma_within_in_grid(width, height, bl, diagonal, end as int, k, c);
                    }
                }
                assert(b =~= a);
                assert forall|j: nat| !#[trigger] within(width, height, bl, diagonal, end as int, j).contains(start as int) by {
                    if j > k {
                        lemma_within_stable(width, height, bl, diagonal, end as int, k, j);
                    }
                }
            }
            return None;
        }
        if next[start as usize] {
            let ghost prev = within(width, height, bl, diagonal, end as int, k);
            let ghost nxt = within(width, height, bl, diagonal, end as int, k + 1);
            assert(nxt.contains(start as int));
            assert(!prev.contains(start as int));
            let nbrs = find_neighbors(start, width, height, blocked, diagonal);
            let mut j: usize = 0;
            while j < nbrs.len()
                invariant
                    j <= nbrs@.len(),
                    cur@.len() == n,
                    n == cells(width, height),
                    prev == within(width, height, bl, diagonal, end as int, k),
                    nxt == within(width, height, bl, diagonal, end as int, k + 1),
                    nxt.contains(start as int),
                    !prev.contains(start as int),
                    start != end,
                    forall|c: int| 0 <= c < n ==> cur@[c] == #[trigger] within(width, height, bl, diagonal, end as int, k).contains(c),
                    forall|m: int| 0 <= m < j ==> !cur@[nbrs@[m] as int],
                    forall|m: int| 0 <= m < nbrs@.len() ==> adjacent(width, height, bl, diagonal, start as int, #[trigger] nbrs@[m] as int),
                    bl == blocked@,
                decreases nbrs@.len() - j,
            {
                let nb = nbrs[j];
                assert(adjacent(width, height, bl, diagonal, start as int, nb as int));
                if cur[nb as usize] {
                    proof {
                        assert(prev.contains(nb as int));
                        let kk: nat = k + 1;
                        assert(within(width, height, bl, diagonal, end as int, (kk - 1) as nat) == prev);
                        assert(kk > 0 && within(width, height, bl, diagonal, end as int, kk).contains(start as int)
                            && !within(width, height, bl, diagonal, end as int, (kk - 1) as nat).contains(start as int)
                            && within(width, height, bl, diagonal, end as int, (kk - 1) as nat).contains(nb as int));
                        assert(closer_step(width, height, bl, diagonal, start as int, nb as int, end as int));
                    }
                    return Some(nb);
                }
                j = j + 1;
            }
            proof {
                let nb = choose|nb: int| prev.contains(nb) && adjacent(width, height, bl, diagonal, start as int, nb);
                let m = choose|m: int| 0 <= m < nbrs@.len() && nbrs@[m] as int == nb;
                assert(cur@[nbrs@[m] as int]);
            }
            return None;
        }
        proof {
            assert forall|j: nat| j <= k + 1 implies !#[trigger] within(width, height, bl, diagonal, end as int, j).contains(start as int) by {
                if j == k + 1 {
                    assert(!next@[start as int]);
                }
            }
        }
        cur = next;
        count = count + added;
        proof {
            k = k + 1;
        }
    }
}

} // verus!
