//! Parsing rock formations and building the cave grid.
//!
//! The input is UTF-8 text, one polyline per line, of the form
//! `x1,y1 -> x2,y2 -> ...`; consecutive vertices describe axis-aligned rock
//! segments.  The grammar is stated by spec functions over the byte
//! sequence; the executable parser is proved to decide exactly that grammar
//! and to return exactly the vertices the text denotes.

use vstd::prelude::*;
use crate::grid::{Cell, Grid, GridModel, lemma_put_cell};

verus! {

/// The largest coordinate value of the native coordinate space.
pub const COORD_MAX: usize = 0x7fff_ffff;

/// Why a cave description or a floor request is rejected.
#[derive(Clone, Copy, PartialEq, Eq, Debug, Structural)]
pub enum CaveError {
    /// The text does not match the line grammar, or a coordinate does not
    /// fit the native coordinate space.
    Malformed,
    /// A vertex or the source lies outside the grid after the offset.
    OutOfBounds,
    /// Two consecutive vertices share neither a row nor a column.
    Diagonal,
    /// Floor synthesis was asked of a cave that holds no rock at all.
    NoRock,
    /// The widened, floored grid would not be addressable on this machine.
    TooLarge,
}

/// An input vertex, in input coordinates.
#[derive(Clone, Copy, PartialEq, Eq, Debug, Structural)]
pub struct Vertex {
    pub x: usize,
    pub y: usize,
}

pub open spec fn is_digit(b: u8) -> bool {
    48 <= b <= 57
}

fn is_digit_exec(b: u8) -> (r: bool)
    ensures
        r == is_digit(b),
{
    48 <= b && b <= 57
}

/// The index just past the run of digits starting at `i`.
pub open spec fn num_end(s: Seq<u8>, i: int) -> int
    decreases s.len() - i when 0 <= i <= s.len()
{
    if i < s.len() && is_digit(s[i]) {
        num_end(s, i + 1)
    } else {
        i
    }
}

/// The value of the digit run `s[i..j)`.
pub open spec fn num_val(s: Seq<u8>, i: int, j: int) -> int
    decreases j - i when i <= j
{
    if j <= i {
        0
    } else {
        num_val(s, i, j - 1) * 10 + (s[j - 1] - 48)
    }
}

proof fn lemma_num_end_bounds(s: Seq<u8>, i: int)
    requires
        0 <= i <= s.len(),
    ensures
        i <= num_end(s, i) <= s.len(),
    decreases s.len() - i,
{
    if i < s.len() && is_digit(s[i]) {
        lemma_num_end_bounds(s, i + 1);
    }
}

/// A parsed number: its value clamped just above [`COORD_MAX`], and the
/// index just past its digits.
fn parse_num(s: &[u8], i: usize) -> (r: (usize, usize))
    requires
        i <= s@.len(),
    ensures
        r.1 == num_end(s@, i as int),
        i <= r.1 <= s@.len(),
        num_val(s@, i as int, r.1 as int) <= COORD_MAX ==> r.0 == num_val(
            s@,
            i as int,
            r.1 as int,
        ),
        num_val(s@, i as int, r.1 as int) > COORD_MAX ==> r.0 == COORD_MAX + 1,
{
    let mut k = i;
    let mut v: usize = 0;
    while k < s.len() && is_digit_exec(s[k])
        invariant
            i <= k <= s@.len(),
            num_end(s@, i as int) == num_end(s@, k as int),
            0 <= num_val(s@, i as int, k as int),
            num_val(s@, i as int, k as int) <= COORD_MAX ==> v == num_val(
                s@,
                i as int,
                k as int,
            ),
            num_val(s@, i as int, k as int) > COORD_MAX ==> v == COORD_MAX + 1,
            v <= COORD_MAX + 1,
        decreases s@.len() - k,
    {
        let d = s[k] - 48;
        let w: u64 = (v as u64) * 10 + (d as u64);
        proof {
            assert(num_val(s@, i as int, k as int + 1) == num_val(s@, i as int, k as int) * 10 + (
            s@[k as int] - 48));
            if num_val(s@, i as int, k as int) > COORD_MAX {
                assert(num_val(s@, i as int, k as int) * 10 >= num_val(s@, i as int, k as int));
            }
        }
        if w > COORD_MAX as u64 {
            v = COORD_MAX + 1;
        } else {
            v = w as usize;
        }
        k = k + 1;
    }
    proof {
        lemma_num_end_bounds(s@, k as int);
    }
    (v, k)
}

/// A vertex at `i`: a number, a comma, a number, both fitting the native
/// coordinate space.  Yields its coordinates and the index just past it.
pub open spec fn spec_vertex(s: Seq<u8>, i: int) -> Option<(int, int, int)> {
    let jx = num_end(s, i);
    if jx == i || num_val(s, i, jx) > COORD_MAX {
        None
    } else if jx < s.len() && s[jx] == 44 {
        let jy = num_end(s, jx + 1);
        if jy == jx + 1 || num_val(s, jx + 1, jy) > COORD_MAX {
            None
        } else {
            Some((num_val(s, i, jx), num_val(s, jx + 1, jy), jy))
        }
    } else {
        None
    }
}

fn parse_vertex_at(s: &[u8], i: usize) -> (r: Option<(Vertex, usize)>)
    requires
        i <= s@.len(),
    ensures
        match r {
            Some(p) => {
                &&& spec_vertex(s@, i as int) == Some(
                    (p.0.x as int, p.0.y as int, p.1 as int),
                )
                &&& i < p.1 <= s@.len()
                &&& p.0.x <= COORD_MAX
                &&& p.0.y <= COORD_MAX
            },
            None => spec_vertex(s@, i as int) is None,
        },
{
    let (vx, jx) = parse_num(s, i);
    if jx == i || vx > COORD_MAX {
        return None;
    }
    if jx < s.len() && s[jx] == 44 {
        let (vy, jy) = parse_num(s, jx + 1);
        if jy == jx + 1 || vy > COORD_MAX {
            return None;
        }
        Some((Vertex { x: vx, y: vy }, jy))
    } else {
        None
    }
}

/// Is the four-byte separator `" -> "` at `j`?
pub open spec fn arrow_at(s: Seq<u8>, j: int) -> bool {
    &&& j + 4 <= s.len()
    &&& s[j] == 32
    &&& s[j + 1] == 45
    &&& s[j + 2] == 62
    &&& s[j + 3] == 32
}

fn arrow_at_exec(s: &[u8], j: usize) -> (b: bool)
    requires
        j <= s@.len(),
    ensures
        b == arrow_at(s@, j as int),
{
    if s.len() - j >= 4 {
        s[j] == 32 && s[j + 1] == 45 && s[j + 2] == 62 && s[j + 3] == 32
    } else {
        false
    }
}

/// A polyline at `i`: vertices separated by `" -> "`.  Yields the vertex
/// coordinates in order and the index just past the last vertex.
pub open spec fn spec_polyline(s: Seq<u8>, i: int) -> Option<(Seq<(int, int)>, int)>
    decreases s.len() - i when 0 <= i <= s.len()
{
    match spec_vertex(s, i) {
        None => None,
        Some((x, y, j)) => {
            if arrow_at(s, j) && i <= j {
                match spec_polyline(s, j + 4) {
                    None => None,
                    Some((rest, end)) => Some((seq![(x, y)] + rest, end)),
                }
            } else {
                Some((seq![(x, y)], j))
            }
        },
    }
}

/// The coordinates a line of vertices denotes.
pub open spec fn abs_line(l: Seq<Vertex>) -> Seq<(int, int)> {
    l.map_values(|v: Vertex| (v.x as int, v.y as int))
}

fn parse_polyline_at(s: &[u8], i: usize) -> (r: Option<(Vec<Vertex>, usize)>)
    requires
        i <= s@.len(),
    ensures
        match r {
            Some(p) => {
                &&& spec_polyline(s@, i as int) == Some((abs_line(p.0@), p.1 as int))
                &&& i < p.1 <= s@.len()
                &&& p.0@.len() >= 1
                &&& forall|k: int|
                    0 <= k < p.0@.len() ==> (#[trigger] p.0@[k]).x <= COORD_MAX && p.0@[k].y
                        <= COORD_MAX
            },
            None => spec_polyline(s@, i as int) is None,
        },
    decreases s@.len() - i,
{
    let slen = s.len();
    match parse_vertex_at(s, i) {
        None => None,
        Some((v, j)) => {
            if arrow_at_exec(s, j) {
                match parse_polyline_at(s, j + 4) {
                    None => None,
                    Some((mut rest, end)) => {
                        rest.insert(0, v);
                        proof {
                            assert(abs_line(rest@) =~= seq![(v.x as int, v.y as int)] + abs_line(
                                rest@.drop_first(),
                            ));
                        }
                        Some((rest, end))
                    },
                }
            } else {
                let mut pl: Vec<Vertex> = Vec::new();
                pl.push(v);
                proof {
                    assert(abs_line(pl@) =~= seq![(v.x as int, v.y as int)]);
                }
                Some((pl, j))
            }
        },
    }
}

/// The whole input: polylines separated by a newline byte, with one
/// trailing newline allowed.  Yields every line's vertex coordinates.
pub open spec fn spec_cave_lines(s: Seq<u8>, i: int) -> Option<Seq<Seq<(int, int)>>>
    decreases s.len() - i when 0 <= i <= s.len()
{
    if i == s.len() {
        Some(Seq::empty())
    } else {
        match spec_polyline(s, i) {
            None => None,
            Some((pl, j)) => {
                if j == s.len() {
                    Some(seq![pl])
                } else if i <= j && j < s.len() && s[j] == 10 {
                    match spec_cave_lines(s, j + 1) {
                        None => None,
                        Some(rest) => Some(seq![pl] + rest),
                    }
                } else {
                    None
                }
            },
        }
    }
}

/// The coordinates a parsed input denotes, line by line.
pub open spec fn abs_polys(pls: Seq<Vec<Vertex>>) -> Seq<Seq<(int, int)>> {
    pls.map_values(|l: Vec<Vertex>| abs_line(l@))
}

fn parse_lines_at(s: &[u8], i: usize) -> (r: Option<Vec<Vec<Vertex>>>)
    requires
        i <= s@.len(),
    ensures
        match r {
            Some(pls) => {
                &&& spec_cave_lines(s@, i as int) == Some(abs_polys(pls@))
                &&& forall|a: int| 0 <= a < pls@.len() ==> (#[trigger] pls@[a])@.len() >= 1
                &&& forall|a: int, b: int|
                    0 <= a < pls@.len() && 0 <= b < pls@[a]@.len() ==> (#[trigger] pls@[a]@[b]).x
                        <= COORD_MAX && pls@[a]@[b].y <= COORD_MAX
            },
            None => spec_cave_lines(s@, i as int) is None,
        },
    decreases s@.len() - i,
{
    if i == s.len() {
        let pls: Vec<Vec<Vertex>> = Vec::new();
        proof {
            assert(abs_polys(pls@) =~= Seq::<Seq<(int, int)>>::empty());
        }
        return Some(pls);
    }
    match parse_polyline_at(s, i) {
        None => None,
        Some((pl, j)) => {
            if j == s.len() {
                let ghost pl_abs = abs_line(pl@);
                let mut pls: Vec<Vec<Vertex>> = Vec::new();
                pls.push(pl);
                proof {
                    assert(abs_polys(pls@) =~= seq![pl_abs]);
                }
                Some(pls)
            } else if s[j] == 10 {
                match parse_lines_at(s, j + 1) {
                    None => None,
                    Some(mut rest) => {
                        let ghost pl_abs = abs_line(pl@);
                        let ghost rest_abs = abs_polys(rest@);
                        rest.insert(0, pl);
                        proof {
                            assert(abs_polys(rest@) =~= seq![pl_abs] + rest_abs);
                        }
                        Some(rest)
                    },
                }
            } else {
                None
            }
        },
    }
}

pub open spec fn imin(a: int, b: int) -> int {
    if a <= b {
        a
    } else {
        b
    }
}

pub open spec fn imax(a: int, b: int) -> int {
    if a <= b {
        b
    } else {
        a
    }
}

/// Is the vertex `(x, y)` inside an `h` by `w` grid once the horizontal
/// offset is applied?
pub open spec fn vertex_ok(x: int, y: int, h: int, w: int, off: int) -> bool {
    &&& 0 <= x + off < w
    &&& 0 <= y < h
}

pub open spec fn all_in_bounds(pls: Seq<Seq<(int, int)>>, h: int, w: int, off: int) -> bool {
    forall|a: int, b: int|
        0 <= a < pls.len() && 0 <= b < pls[a].len() ==> vertex_ok(
            (#[trigger] pls[a][b]).0,
            pls[a][b].1,
            h,
            w,
            off,
        )
}

/// Two consecutive vertices share a column or a row.
pub open spec fn pair_aligned(p: (int, int), q: (int, int)) -> bool {
    p.0 == q.0 || p.1 == q.1
}

pub open spec fn all_aligned(pls: Seq<Seq<(int, int)>>) -> bool {
    forall|a: int, b: int|
        0 <= a < pls.len() && 0 <= b < pls[a].len() - 1 ==> pair_aligned(
            #[trigger] pls[a][b],
            pls[a][b + 1],
        )
}

pub open spec fn source_ok(sx: int, sy: int, h: int, w: int, off: int) -> bool {
    &&& 0 <= sx + off < w
    &&& 0 <= sy < h
}

/// Does the axis-aligned rock segment between `p` and `q` cover the
/// input-space point `(x, y)`, endpoints included?
pub open spec fn seg_covers(p: (int, int), q: (int, int), x: int, y: int) -> bool {
    ||| (p.1 == q.1 && y == p.1 && imin(p.0, q.0) <= x <= imax(p.0, q.0))
    ||| (p.0 == q.0 && x == p.0 && imin(p.1, q.1) <= y <= imax(p.1, q.1))
}

/// Is the input-space point `(x, y)` on some rock segment of the input?
pub open spec fn rock_at(pls: Seq<Seq<(int, int)>>, x: int, y: int) -> bool {
    exists|a: int, b: int|
        0 <= a < pls.len() && 0 <= b < pls[a].len() - 1 && #[trigger] seg_covers(
            pls[a][b],
            pls[a][b + 1],
            x,
            y,
        )
}

/// Coverage by the segments strictly before pair `(a0, b0)` in fill order.
spec fn rock_at_upto(pls: Seq<Seq<(int, int)>>, a0: int, b0: int, x: int, y: int) -> bool {
    exists|a: int, b: int|
        0 <= a < pls.len() && 0 <= b < pls[a].len() - 1 && (a < a0 || (a == a0 && b < b0))
            && #[trigger] seg_covers(pls[a][b], pls[a][b + 1], x, y)
}

proof fn lemma_rock_upto_step(pls: Seq<Seq<(int, int)>>, a0: int, b0: int, x: int, y: int)
    requires
        0 <= a0 < pls.len(),
        0 <= b0 < pls[a0].len() - 1,
    ensures
        rock_at_upto(pls, a0, b0 + 1, x, y) == (rock_at_upto(pls, a0, b0, x, y) || seg_covers(
            pls[a0][b0],
            pls[a0][b0 + 1],
            x,
            y,
        )),
{
    if rock_at_upto(pls, a0, b0 + 1, x, y) {
        let (a, b) = choose|a: int, b: int|
            0 <= a < pls.len() && 0 <= b < pls[a].len() - 1 && (a < a0 || (a == a0 && b < b0 + 1))
                && #[trigger] seg_covers(pls[a][b], pls[a][b + 1], x, y);
        if a == a0 && b == b0 {
        } else {
            assert(rock_at_upto(pls, a0, b0, x, y));
        }
    }
    if rock_at_upto(pls, a0, b0, x, y) {
        let (a, b) = choose|a: int, b: int|
            0 <= a < pls.len() && 0 <= b < pls[a].len() - 1 && (a < a0 || (a == a0 && b < b0))
                && #[trigger] seg_covers(pls[a][b], pls[a][b + 1], x, y);
        assert(rock_at_upto(pls, a0, b0 + 1, x, y));
    }
    if seg_covers(pls[a0][b0], pls[a0][b0 + 1], x, y) {
        assert(rock_at_upto(pls, a0, b0 + 1, x, y));
    }
}

proof fn lemma_rock_upto_nextline(pls: Seq<Seq<(int, int)>>, a0: int, x: int, y: int)
    requires
        0 <= a0 < pls.len(),
        pls[a0].len() >= 1,
    ensures
        rock_at_upto(pls, a0, pls[a0].len() - 1, x, y) == rock_at_upto(pls, a0 + 1, 0, x, y),
{
    if rock_at_upto(pls, a0, pls[a0].len() - 1, x, y) {
        let (a, b) = choose|a: int, b: int|
            0 <= a < pls.len() && 0 <= b < pls[a].len() - 1 && (a < a0 || (a == a0 && b
                < pls[a0].len() - 1)) && #[trigger] seg_covers(pls[a][b], pls[a][b + 1], x, y);
        assert(rock_at_upto(pls, a0 + 1, 0, x, y));
    }
    if rock_at_upto(pls, a0 + 1, 0, x, y) {
        let (a, b) = choose|a: int, b: int|
            0 <= a < pls.len() && 0 <= b < pls[a].len() - 1 && (a < a0 + 1 || (a == a0 + 1 && b
                < 0)) && #[trigger] seg_covers(pls[a][b], pls[a][b + 1], x, y);
        assert(rock_at_upto(pls, a0, pls[a0].len() - 1, x, y));
    }
}

proof fn lemma_rock_upto_end(pls: Seq<Seq<(int, int)>>, x: int, y: int)
    ensures
        rock_at_upto(pls, pls.len() as int, 0, x, y) == rock_at(pls, x, y),
{
    if rock_at_upto(pls, pls.len() as int, 0, x, y) {
        let (a, b) = choose|a: int, b: int|
            0 <= a < pls.len() && 0 <= b < pls[a].len() - 1 && (a < pls.len() || (a == pls.len()
                && b < 0)) && #[trigger] seg_covers(pls[a][b], pls[a][b + 1], x, y);
        assert(rock_at(pls, x, y));
    }
    if rock_at(pls, x, y) {
        let (a, b) = choose|a: int, b: int|
            0 <= a < pls.len() && 0 <= b < pls[a].len() - 1 && #[trigger] seg_covers(
                pls[a][b],
                pls[a][b + 1],
                x,
                y,
            );
        assert(rock_at_upto(pls, pls.len() as int, 0, x, y));
    }
}

/// Check that every vertex lands inside the grid after the offset.
fn check_bounds(pls: &Vec<Vec<Vertex>>, h: usize, w: usize, off: i32) -> (ok: bool)
    requires
        forall|a: int, b: int|
            0 <= a < pls@.len() && 0 <= b < pls@[a]@.len() ==> (#[trigger] pls@[a]@[b]).x
                <= COORD_MAX && pls@[a]@[b].y <= COORD_MAX,
    ensures
        ok == all_in_bounds(abs_polys(pls@), h as int, w as int, off as int),
{
    let ghost pp = abs_polys(pls@);
    let mut a: usize = 0;
    while a < pls.len()
        invariant
            a <= pls@.len(),
            pp == abs_polys(pls@),
            forall|p: int, q: int|
                0 <= p < pls@.len() && 0 <= q < pls@[p]@.len() ==> (#[trigger] pls@[p]@[q]).x
                    <= COORD_MAX && pls@[p]@[q].y <= COORD_MAX,
            forall|p: int, q: int|
                0 <= p < a && 0 <= q < pp[p].len() ==> vertex_ok(
                    (#[trigger] pp[p][q]).0,
                    pp[p][q].1,
                    h as int,
                    w as int,
                    off as int,
                ),
        decreases pls@.len() - a,
    {
        let line = &pls[a];
        let mut b: usize = 0;
        while b < line.len()
            invariant
                b <= line@.len(),
                a < pls@.len(),
                line@ == pls@[a as int]@,
                pp == abs_polys(pls@),
                forall|p: int, q: int|
                    0 <= p < pls@.len() && 0 <= q < pls@[p]@.len() ==> (#[trigger] pls@[p]@[q]).x
                        <= COORD_MAX && pls@[p]@[q].y <= COORD_MAX,
                forall|p: int, q: int|
                    0 <= p < a && 0 <= q < pp[p].len() ==> vertex_ok(
                        (#[trigger] pp[p][q]).0,
                        pp[p][q].1,
                        h as int,
                        w as int,
                        off as int,
                    ),
                forall|q: int|
                    0 <= q < b ==> vertex_ok(
                        (#[trigger] pp[a as int][q]).0,
                        pp[a as int][q].1,
                        h as int,
                        w as int,
                        off as int,
                    ),
            decreases line@.len() - b,
        {
            let v = line[b];
            let t: i64 = v.x as i64 + off as i64;
            let x_ok = t >= 0 && (t as u64) < (w as u64);
            let y_ok = (v.y as u64) < (h as u64);
            if !(x_ok && y_ok) {
                proof {
                    assert(pp[a as int][b as int] == (v.x as int, v.y as int));
                    assert(!vertex_ok(v.x as int, v.y as int, h as int, w as int, off as int));
                }
                return false;
            }
            b = b + 1;
        }
        a = a + 1;
    }
    true
}

/// Check that every consecutive vertex pair shares a row or a column.
fn check_aligned(pls: &Vec<Vec<Vertex>>) -> (ok: bool)
    ensures
        ok == all_aligned(abs_polys(pls@)),
{
    let ghost pp = abs_polys(pls@);
    let mut a: usize = 0;
    while a < pls.len()
        invariant
            a <= pls@.len(),
            pp == abs_polys(pls@),
            forall|p: int, q: int|
                0 <= p < a && 0 <= q < pp[p].len() - 1 ==> pair_aligned(
                    #[trigger] pp[p][q],
                    pp[p][q + 1],
                ),
        decreases pls@.len() - a,
    {
        let line = &pls[a];
        let nv = line.len();
        let mut b: usize = 0;
        while nv - b > 1
            invariant
                a < pls@.len(),
                b <= nv,
                nv == line@.len(),
                line@ == pls@[a as int]@,
                pp == abs_polys(pls@),
                forall|p: int, q: int|
                    0 <= p < a && 0 <= q < pp[p].len() - 1 ==> pair_aligned(
                        #[trigger] pp[p][q],
                        pp[p][q + 1],
                    ),
                forall|q: int|
                    0 <= q < b ==> pair_aligned(#[trigger] pp[a as int][q], pp[a as int][q + 1]),
            decreases line@.len() - b,
        {
            let v = line[b];
            let u = line[b + 1];
            if !(v.x == u.x || v.y == u.y) {
                proof {
                    assert(pp[a as int][b as int] == (v.x as int, v.y as int));
                    assert(pp[a as int][b as int + 1] == (u.x as int, u.y as int));
                }
                return false;
            }
            b = b + 1;
        }
        a = a + 1;
    }
    true
}

/// The grid column of input coordinate `x` under the horizontal offset.
fn col_of(x: usize, off: i32, w: usize) -> (c: usize)
    requires
        x <= COORD_MAX,
        0 <= x + off < w,
    ensures
        c as int == x + off,
        c < w,
{
    let t: i64 = x as i64 + off as i64;
    t as usize
}

/// Write rock along the whole segment between `p` and `q`.
fn fill_segment(grid: &mut Grid, p: Vertex, q: Vertex, off: i32)
    requires
        old(grid)@.wf(),
        p.x <= COORD_MAX,
        p.y <= COORD_MAX,
        q.x <= COORD_MAX,
        q.y <= COORD_MAX,
        pair_aligned((p.x as int, p.y as int), (q.x as int, q.y as int)),
        vertex_ok(p.x as int, p.y as int, old(grid)@.height, old(grid)@.width, off as int),
        vertex_ok(q.x as int, q.y as int, old(grid)@.height, old(grid)@.width, off as int),
    ensures
        final(grid)@.wf(),
        final(grid)@.width == old(grid)@.width,
        final(grid)@.height == old(grid)@.height,
        forall|rr: int, cc: int|
            old(grid)@.in_bounds(rr, cc) ==> final(grid)@.cell(rr, cc) == (if seg_covers(
                (p.x as int, p.y as int),
                (q.x as int, q.y as int),
                cc - off as int,
                rr,
            ) {
                Cell::Rock
            } else {
                old(grid)@.cell(rr, cc)
            }),
{
    let ghost g0 = grid@;
    let ghost ps = (p.x as int, p.y as int);
    let ghost qs = (q.x as int, q.y as int);
    let w = grid.width();
    if p.y == q.y {
        let r = p.y;
        let pc = col_of(p.x, off, w);
        let qc = col_of(q.x, off, w);
        let lo = if pc <= qc {
            pc
        } else {
            qc
        };
        let hi = if pc <= qc {
            qc
        } else {
            pc
        };
        let mut c = lo;
        while c <= hi
            invariant
                lo <= c <= hi + 1,
                hi < g0.width,
                r < g0.height,
                grid@.wf(),
                grid@.width == g0.width,
                grid@.height == g0.height,
                forall|rr: int, cc: int|
                    g0.in_bounds(rr, cc) ==> grid@.cell(rr, cc) == (if rr == r && lo <= cc < c {
                        Cell::Rock
                    } else {
                        g0.cell(rr, cc)
                    }),
            decreases hi + 1 - c,
        {
            proof {
                lemma_put_cell(grid@, r as int, c as int, Cell::Rock);
            }
            grid.put(r, c, Cell::Rock);
            c = c + 1;
        }
        proof {
            assert forall|rr: int, cc: int| g0.in_bounds(rr, cc) implies (seg_covers(
                ps,
                qs,
                cc - off as int,
                rr,
            ) == (rr == r as int && lo <= cc <= hi)) by {}
        }
    } else {
        let ccol = col_of(p.x, off, w);
        let lo = if p.y <= q.y {
            p.y
        } else {
            q.y
        };
        let hi = if p.y <= q.y {
            q.y
        } else {
            p.y
        };
        let mut rr = lo;
        while rr <= hi
            invariant
                lo <= rr <= hi + 1,
                hi < g0.height,
                ccol < g0.width,
                grid@.wf(),
                grid@.width == g0.width,
                grid@.height == g0.height,
                forall|r2: int, c2: int|
                    g0.in_bounds(r2, c2) ==> grid@.cell(r2, c2) == (if c2 == ccol && lo <= r2 < rr {
                        Cell::Rock
                    } else {
                        g0.cell(r2, c2)
                    }),
            decreases hi + 1 - rr,
        {
            proof {
                lemma_put_cell(grid@, rr as int, ccol as int, Cell::Rock);
            }
            grid.put(rr, ccol, Cell::Rock);
            rr = rr + 1;
        }
        proof {
            assert forall|r2: int, c2: int| g0.in_bounds(r2, c2) implies (seg_covers(
                ps,
                qs,
                c2 - off as int,
                r2,
            ) == (c2 == ccol as int && lo <= r2 <= hi)) by {}
        }
    }
}

/// Write rock along every segment of every polyline.
fn fill_all(grid: &mut Grid, pls: &Vec<Vec<Vertex>>, off: i32)
    requires
        old(grid)@.wf(),
        forall|a: int, b: int|
            0 <= a < pls@.len() && 0 <= b < pls@[a]@.len() ==> (#[trigger] pls@[a]@[b]).x
                <= COORD_MAX && pls@[a]@[b].y <= COORD_MAX,
        forall|a: int| 0 <= a < pls@.len() ==> (#[trigger] pls@[a])@.len() >= 1,
        all_in_bounds(abs_polys(pls@), old(grid)@.height, old(grid)@.width, off as int),
        all_aligned(abs_polys(pls@)),
    ensures
        final(grid)@.wf(),
        final(grid)@.width == old(grid)@.width,
        final(grid)@.height == old(grid)@.height,
        forall|rr: int, cc: int|
            old(grid)@.in_bounds(rr, cc) ==> final(grid)@.cell(rr, cc) == (if rock_at(
                abs_polys(pls@),
                cc - off as int,
                rr,
            ) {
                Cell::Rock
            } else {
                old(grid)@.cell(rr, cc)
            }),
{
    let ghost pp = abs_polys(pls@);
    let ghost g0 = grid@;
    let mut a: usize = 0;
    while a < pls.len()
        invariant
            a <= pls@.len(),
            pp == abs_polys(pls@),
            g0.wf(),
            grid@.wf(),
            grid@.width == g0.width,
            grid@.height == g0.height,
            forall|p: int, q: int|
                0 <= p < pls@.len() && 0 <= q < pls@[p]@.len() ==> (#[trigger] pls@[p]@[q]).x
                    <= COORD_MAX && pls@[p]@[q].y <= COORD_MAX,
            forall|p: int| 0 <= p < pls@.len() ==> (#[trigger] pls@[p])@.len() >= 1,
            all_in_bounds(pp, g0.height, g0.width, off as int),
            all_aligned(pp),
            forall|rr: int, cc: int|
                g0.in_bounds(rr, cc) ==> grid@.cell(rr, cc) == (if rock_at_upto(
                    pp,
                    a as int,
                    0,
                    cc - off as int,
                    rr,
                ) {
                    Cell::Rock
                } else {
                    g0.cell(rr, cc)
                }),
        decreases pls@.len() - a,
    {
        let nverts = pls[a].len();
        let mut b: usize = 0;
        while nverts - b > 1
            invariant
                a < pls@.len(),
                b < nverts,
                nverts == pls@[a as int]@.len(),
                forall|p: int| 0 <= p < pls@.len() ==> (#[trigger] pls@[p])@.len() >= 1,
                pp == abs_polys(pls@),
                g0.wf(),
                grid@.wf(),
                grid@.width == g0.width,
                grid@.height == g0.height,
                forall|p: int, q: int|
                    0 <= p < pls@.len() && 0 <= q < pls@[p]@.len() ==> (#[trigger] pls@[p]@[q]).x
                        <= COORD_MAX && pls@[p]@[q].y <= COORD_MAX,
                all_in_bounds(pp, g0.height, g0.width, off as int),
                all_aligned(pp),
                forall|rr: int, cc: int|
                    g0.in_bounds(rr, cc) ==> grid@.cell(rr, cc) == (if rock_at_upto(
                        pp,
                        a as int,
                        b as int,
                        cc - off as int,
                        rr,
                    ) {
                        Cell::Rock
                    } else {
                        g0.cell(rr, cc)
                    }),
            decreases nverts - b,
        {
            let v = pls[a][b];
            let u = pls[a][b + 1];
            let ghost g_pre = grid@;
            proof {
                assert(pp[a as int][b as int] == (v.x as int, v.y as int));
                assert(pp[a as int][b as int + 1] == (u.x as int, u.y as int));
                assert(pair_aligned(pp[a as int][b as int], pp[a as int][b as int + 1]));
                assert(vertex_ok(v.x as int, v.y as int, g0.height, g0.width, off as int));
                assert(vertex_ok(u.x as int, u.y as int, g0.height, g0.width, off as int));
            }
            fill_segment(grid, v, u, off);
            proof {
                assert forall|rr: int, cc: int| g0.in_bounds(rr, cc) implies grid@.cell(rr, cc)
                    == (if rock_at_upto(pp, a as int, b as int + 1, cc - off as int, rr) {
                    Cell::Rock
                } else {
                    g0.cell(rr, cc)
                }) by {
                    lemma_rock_upto_step(pp, a as int, b as int, cc - off as int, rr);
                }
            }
            b = b + 1;
        }
        proof {
            assert(b as int == pp[a as int].len() - 1);
            assert forall|rr: int, cc: int| g0.in_bounds(rr, cc) implies grid@.cell(rr, cc) == (
            if rock_at_upto(pp, a as int + 1, 0, cc - off as int, rr) {
                Cell::Rock
            } else {
                g0.cell(rr, cc)
            }) by {
                lemma_rock_upto_nextline(pp, a as int, cc - off as int, rr);
            }
        }
        a = a + 1;
    }
    proof {
        assert forall|rr: int, cc: int| g0.in_bounds(rr, cc) implies grid@.cell(rr, cc) == (
        if rock_at(pp, cc - off as int, rr) {
            Cell::Rock
        } else {
            g0.cell(rr, cc)
        }) by {
            lemma_rock_upto_end(pp, cc - off as int, rr);
        }
    }
}

/// Parse a cave description and build the grid.
///
/// The grid has `dims.0` rows and `dims.1` columns.  Rock is written along
/// every segment of every polyline, each x coordinate translated by
/// `offset`; the source marker is written at the translated source
/// coordinate (rock may overwrite it).  Every cell holds rock exactly when
/// some segment covers it, the source marker exactly at the uncovered source
/// cell, and nothing anywhere else.  Malformed text, a vertex or source
/// outside the grid, and a diagonal segment are each rejected.
pub fn parse_cave(input: &[u8], dims: (usize, usize), source: (i32, i32), offset: i32) -> (r:
    Result<Grid, CaveError>)
    requires
        1 <= dims.0,
        1 <= dims.1,
        dims.0 * dims.1 <= usize::MAX,
    ensures
        match r {
            Ok(g) => {
                &&& spec_cave_lines(input@, 0) is Some
                &&& {
                    let pls = spec_cave_lines(input@, 0)->Some_0;
                    &&& all_in_bounds(pls, dims.0 as int, dims.1 as int, offset as int)
                    &&& all_aligned(pls)
                    &&& source_ok(
                        source.0 as int,
                        source.1 as int,
                        dims.0 as int,
                        dims.1 as int,
                        offset as int,
                    )
                    &&& g@.wf()
                    &&& g@.height == dims.0
                    &&& g@.width == dims.1
                    &&& forall|rr: int, cc: int|
                        g@.in_bounds(rr, cc) ==> g@.cell(rr, cc) == (if rock_at(
                            pls,
                            cc - offset as int,
                            rr,
                        ) {
                            Cell::Rock
                        } else if rr == source.1 as int && cc == source.0 + offset {
                            Cell::Source
                        } else {
                            Cell::Empty
                        })
                }
            },
            Err(CaveError::Malformed) => spec_cave_lines(input@, 0) is None,
            Err(CaveError::OutOfBounds) => {
                &&& spec_cave_lines(input@, 0) is Some
                &&& !(all_in_bounds(
                    spec_cave_lines(input@, 0)->Some_0,
                    dims.0 as int,
                    dims.1 as int,
                    offset as int,
                ) && source_ok(
                    source.0 as int,
                    source.1 as int,
                    dims.0 as int,
                    dims.1 as int,
                    offset as int,
                ))
            },
            Err(CaveError::Diagonal) => {
                &&& spec_cave_lines(input@, 0) is Some
                &&& all_in_bounds(
                    spec_cave_lines(input@, 0)->Some_0,
                    dims.0 as int,
                    dims.1 as int,
                    offset as int,
                )
                &&& source_ok(
                    source.0 as int,
                    source.1 as int,
                    dims.0 as int,
                    dims.1 as int,
                    offset as int,
                )
                &&& !all_aligned(spec_cave_lines(input@, 0)->Some_0)
            },
            Err(_) => false,
        },
{
    let pls = match parse_lines_at(input, 0) {
        None => {
            return Err(CaveError::Malformed);
        },
        Some(p) => p,
    };
    if !check_bounds(&pls, dims.0, dims.1, offset) {
        return Err(CaveError::OutOfBounds);
    }
    let t: i64 = source.0 as i64 + offset as i64;
    let sy_ok = source.1 >= 0 && (source.1 as u64) < (dims.0 as u64);
    let sx_ok = t >= 0 && (t as u64) < (dims.1 as u64);
    if !(sy_ok && sx_ok) {
        return Err(CaveError::OutOfBounds);
    }
    if !check_aligned(&pls) {
        return Err(CaveError::Diagonal);
    }
    let mut grid = Grid::new(dims.0, dims.1);
    let sx = t as usize;
    let sy = source.1 as usize;
    let ghost pre = grid@;
    proof {
        lemma_put_cell(grid@, sy as int, sx as int, Cell::Source);
    }
    grid.put(sy, sx, Cell::Source);
    let ghost base = grid@;
    fill_all(&mut grid, &pls, offset);
    proof {
        let pp = abs_polys(pls@);
        assert forall|rr: int, cc: int| grid@.in_bounds(rr, cc) implies grid@.cell(rr, cc) == (
        if rock_at(pp, cc - offset as int, rr) {
            Cell::Rock
        } else if rr == source.1 as int && cc == source.0 + offset {
            Cell::Source
        } else {
            Cell::Empty
        }) by {
            assert(base.in_bounds(rr, cc));
            if !(rr == sy as int && cc == sx as int) {
                lemma_put_cell(pre, sy as int, sx as int, Cell::Source);
                assert(base.cell(rr, cc) == pre.cell(rr, cc));
                assert(base.cell(rr, cc) == Cell::Empty);
            }
        }
    }
    Ok(grid)
}

pub open spec fn has_rock_in_row(g: GridModel, r: int) -> bool {
    exists|c: int| 0 <= c < g.width && #[trigger] g.cell(r, c) == Cell::Rock
}

pub open spec fn has_rock(g: GridModel) -> bool {
    exists|r: int| 0 <= r < g.height && #[trigger] has_rock_in_row(g, r)
}

/// `l` is the lowest grid row that holds rock.
pub open spec fn lowest_rock_ok(g: GridModel, l: int) -> bool {
    &&& 0 <= l < g.height
    &&& has_rock_in_row(g, l)
    &&& forall|r: int| l < r < g.height ==> !has_rock_in_row(g, r)
}

/// Columns of empty padding added on each side when the floor is built
/// under a grid of width `w` whose lowest rock row is `l`.
pub open spec fn pad_for(w: int, l: int) -> int {
    if w < 2 * (l + 2) {
        (2 * (l + 2) - w + 2) / 2
    } else {
        0
    }
}

/// Can the widened, floored grid still be addressed on this machine?
pub open spec fn floor_fits(w: int, l: int) -> bool {
    &&& w + 2 * pad_for(w, l) <= usize::MAX
    &&& l + 3 <= usize::MAX
    &&& (w + 2 * pad_for(w, l)) * (l + 3) <= usize::MAX
}

fn row_has_rock(grid: &Grid, r: usize) -> (b: bool)
    requires
        grid@.wf(),
        r < grid@.height,
    ensures
        b == has_rock_in_row(grid@, r as int),
{
    let w = grid.width();
    let mut c: usize = 0;
    while c < w
        invariant
            c <= w,
            w == grid@.width,
            grid@.wf(),
            r < grid@.height,
            forall|c2: int| 0 <= c2 < c ==> #[trigger] grid@.cell(r as int, c2) != Cell::Rock,
        decreases w - c,
    {
        if grid.at(r, c) == Cell::Rock {
            return true;
        }
        c = c + 1;
    }
    false
}

fn lowest_rock_row(grid: &Grid) -> (r: Option<usize>)
    requires
        grid@.wf(),
    ensures
        match r {
            Some(l) => lowest_rock_ok(grid@, l as int),
            None => !has_rock(grid@),
        },
{
    let mut r = grid.height();
    while r > 0
        invariant
            r <= grid@.height,
            grid@.wf(),
            forall|r2: int| r <= r2 < grid@.height ==> !(#[trigger] has_rock_in_row(grid@, r2)),
        decreases r,
    {
        r = r - 1;
        if row_has_rock(grid, r) {
            return Some(r);
        }
    }
    None
}

/// Synthesize a floor: truncate the grid just below its lowest rock row
/// `l`, widen it symmetrically until it is at least twice as wide as the
/// `l + 2` rows kept, and lay one unbroken row of rock across the new
/// bottom, two rows below the lowest rock.
///
/// On success the result carries the padding added on each side and the
/// lowest original rock row `l`: the new grid has `l + 3` rows, its lowest
/// row is entirely rock, every original cell reappears shifted right by the
/// padding (so the source marker's column stays valid), and no original
/// rock lies at or below the floor row.  A cave without rock is rejected,
/// as is one whose widened grid no machine index could address.
pub fn floor_cave(grid: &mut Grid) -> (r: Result<(usize, usize), CaveError>)
    requires
        old(grid)@.wf(),
    ensures
        match r {
            Ok(res) => ({
                let pad = res.0 as int;
                let l = res.1 as int;
                &&& lowest_rock_ok(old(grid)@, l)
                &&& pad == pad_for(old(grid)@.width, l)
                &&& floor_fits(old(grid)@.width, l)
                &&& final(grid)@.wf()
                &&& final(grid)@.height == l + 3
                &&& final(grid)@.width == old(grid)@.width + 2 * pad
                &&& forall|cc: int|
                    0 <= cc < final(grid)@.width ==> #[trigger] final(grid)@.cell(l + 2, cc)
                        == Cell::Rock
                &&& forall|rr: int, cc: int|
                    final(grid)@.in_bounds(rr, cc) ==> final(grid)@.cell(rr, cc) == (if rr == l
                        + 2 {
                        Cell::Rock
                    } else if pad <= cc < pad + old(grid)@.width && rr < old(grid)@.height {
                        old(grid)@.cell(rr, cc - pad)
                    } else {
                        Cell::Empty
                    })
            }),
            Err(CaveError::NoRock) => !has_rock(old(grid)@) && final(grid)@ == old(grid)@,
            Err(CaveError::TooLarge) => ({
                &&& exists|l: int|
                    lowest_rock_ok(old(grid)@, l) && !floor_fits(old(grid)@.width, l)
                &&& final(grid)@ == old(grid)@
            }),
            Err(_) => false,
        },
{
    let l = match lowest_rock_row(grid) {
        None => {
            return Err(CaveError::NoRock);
        },
        Some(l) => l,
    };
    let h = grid.height();
    let w = grid.width();
    let l1: u128 = l as u128;
    let w1: u128 = w as u128;
    let req: u128 = 2 * (l1 + 2);
    let pad128: u128 = if w1 < req {
        (req - w1 + 2) / 2
    } else {
        0
    };
    let new_w128: u128 = w1 + 2 * pad128;
    let new_h128: u128 = l1 + 3;
    let umax: u128 = usize::MAX as u128;
    let too_big = if new_w128 > umax || new_h128 > umax {
        true
    } else {
        proof {
            assert(new_w128 * new_h128 <= 0xffff_ffff_ffff_ffffu128 * 0xffff_ffff_ffff_ffffu128)
                by (nonlinear_arith)
                requires
                    new_w128 <= 0xffff_ffff_ffff_ffffu128,
                    new_h128 <= 0xffff_ffff_ffff_ffffu128,
            ;
        }
        new_w128 * new_h128 > umax
    };
    if too_big {
        proof {
            assert(lowest_rock_ok(old(grid)@, l as int) && !floor_fits(
                old(grid)@.width,
                l as int,
            ));
        }
        return Err(CaveError::TooLarge);
    }
    let pad = pad128 as usize;
    let new_w = new_w128 as usize;
    let new_h = new_h128 as usize;
    let copy_rows = if new_h - 1 <= h {
        new_h - 1
    } else {
        h
    };
    proof {
        assert((new_h as int) * (new_w as int) <= usize::MAX) by (nonlinear_arith)
            requires (new_w as int) * (new_h as int) <= usize::MAX;
    }
    let mut ng = Grid::new(new_h, new_w);
    let ghost g0 = grid@;
    let mut rr: usize = 0;
    while rr < copy_rows
        invariant
            rr <= copy_rows,
            copy_rows <= h,
            copy_rows <= new_h - 1,
            h == g0.height,
            w == g0.width,
            g0.wf(),
            grid@ == g0,
            ng@.wf(),
            ng@.width == new_w,
            ng@.height == new_h,
            pad + w <= new_w,
            forall|r2: int, c2: int|
                ng@.in_bounds(r2, c2) ==> ng@.cell(r2, c2) == (if r2 < rr && pad <= c2 < pad + w {
                    g0.cell(r2, c2 - pad)
                } else {
                    Cell::Empty
                }),
        decreases copy_rows - rr,
    {
        let mut cc: usize = 0;
        while cc < w
            invariant
                cc <= w,
                rr < copy_rows,
                copy_rows <= h,
                copy_rows <= new_h - 1,
                h == g0.height,
                w == g0.width,
                g0.wf(),
                grid@ == g0,
                ng@.wf(),
                ng@.width == new_w,
                ng@.height == new_h,
                pad + w <= new_w,
                forall|r2: int, c2: int|
                    ng@.in_bounds(r2, c2) ==> ng@.cell(r2, c2) == (if r2 < rr && pad <= c2 < pad
                        + w {
                        g0.cell(r2, c2 - pad)
                    } else if r2 == rr && pad <= c2 < pad + cc {
                        g0.cell(r2, c2 - pad)
                    } else {
                        Cell::Empty
                    }),
            decreases w - cc,
        {
            let v = grid.at(rr, cc);
            let ghost prev = ng@;
            proof {
                lemma_put_cell(ng@, rr as int, (cc + pad) as int, v);
            }
            ng.put(rr, cc + pad, v);
            proof {
                assert forall|r2: int, c2: int|
                    ng@.in_bounds(r2, c2) implies ng@.cell(r2, c2) == (if r2 < rr && pad <= c2
                    < pad + w {
                    g0.cell(r2, c2 - pad)
                } else if r2 == rr && pad <= c2 < pad + (cc + 1) {
                    g0.cell(r2, c2 - pad)
                } else {
                    Cell::Empty
                }) by {
                    lemma_put_cell(prev, rr as int, (cc + pad) as int, v);
                    assert(ng@ == prev.put(rr as int, (cc + pad) as int, v));
                    if r2 == rr as int && c2 == cc + pad {
                        assert(ng@.cell(r2, c2) == v);
                    } else {
                        assert(prev.in_bounds(r2, c2));
                        assert(ng@.cell(r2, c2) == prev.cell(r2, c2));
                    }
                }
            }
            cc = cc + 1;
        }
        rr = rr + 1;
        proof {
            assert forall|r2: int, c2: int|
                ng@.in_bounds(r2, c2) implies ng@.cell(r2, c2) == (if r2 < rr && pad <= c2 < pad
                + w {
                g0.cell(r2, c2 - pad)
            } else {
                Cell::Empty
            }) by {}
        }
    }
    let fr = new_h - 1;
    let mut cc: usize = 0;
    while cc < new_w
        invariant
            cc <= new_w,
            fr == new_h - 1,
            copy_rows <= h,
            copy_rows <= new_h - 1,
            h == g0.height,
            w == g0.width,
            g0.wf(),
            grid@ == g0,
            ng@.wf(),
            ng@.width == new_w,
            ng@.height == new_h,
            pad + w <= new_w,
            forall|r2: int, c2: int|
                ng@.in_bounds(r2, c2) ==> ng@.cell(r2, c2) == (if r2 == fr && c2 < cc {
                    Cell::Rock
                } else if r2 < copy_rows && pad <= c2 < pad + w {
                    g0.cell(r2, c2 - pad)
                } else {
                    Cell::Empty
                }),
        decreases new_w - cc,
    {
        let ghost prev = ng@;
        proof {
            lemma_put_cell(ng@, fr as int, cc as int, Cell::Rock);
        }
        ng.put(fr, cc, Cell::Rock);
        proof {
            assert forall|r2: int, c2: int| ng@.in_bounds(r2, c2) implies ng@.cell(r2, c2) == (
            if r2 == fr as int && c2 < cc as int + 1 {
                Cell::Rock
            } else if r2 < copy_rows && pad <= c2 < pad + w {
                g0.cell(r2, c2 - pad)
            } else {
                Cell::Empty
            }) by {
                lemma_put_cell(prev, fr as int, cc as int, Cell::Rock);
                assert(ng@ == prev.put(fr as int, cc as int, Cell::Rock));
                if r2 == fr as int && c2 == cc as int {
                    assert(ng@.cell(r2, c2) == Cell::Rock);
                } else {
                    assert(prev.in_bounds(r2, c2));
                    assert(ng@.cell(r2, c2) == prev.cell(r2, c2));
                }
            }
        }
        cc = cc + 1;
    }
    *grid = ng;
    Ok((pad, l))
}

} // verus!
