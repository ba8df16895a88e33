//! The tracer: turns a pixel grid into an ordered list of paths bounding
//! regions of near-uniform color, including shapes nested inside others.
//!
//! The behavior is pinned down by a family of spec functions that mirror the
//! scan: `spec_first_next` picks the next walk step, `spec_walk` follows a
//! boundary, and `spec_scan` drives the row-major scan with its recursion
//! into each traced shape's bounding box.

use crate::entity::{
    DataChunk, Entity, HeaderChunk, Object, ObjectView, PathObject, PathView,
};
use crate::s7_image::{pix_idx, similar, Coords, Image, Rgb};
use vstd::prelude::*;

verus! {

/// The fixed 8-neighbor scan order.
pub open spec fn offsets() -> Seq<(int, int)> {
    seq![(-1, -1), (0, -1), (1, -1), (-1, 0), (1, 0), (-1, 1), (0, 1), (1, 1)]
}

pub open spec fn in_bounds(w: int, h: int, p: (int, int)) -> bool {
    0 <= p.0 < w && 0 <= p.1 < h
}

/// The grid model the tracer's spec functions run over: a color and a
/// visited flag per cell.
pub open spec fn wf_grid(colors: Seq<Rgb>, w: int, h: int, ch: Seq<bool>) -> bool {
    colors.len() == w * h && ch.len() == w * h && 0 <= w <= 0xffff && 0 <= h <= 0xffff
}

/// How many cells are still unvisited.
pub open spec fn count_unchecked(s: Seq<bool>) -> nat
    decreases s.len(),
{
    if s.len() == 0 {
        0
    } else {
        count_unchecked(s.drop_last()) + if s.last() {
            0nat
        } else {
            1nat
        }
    }
}

/// Marking an unvisited cell lowers the unvisited count by one.
pub proof fn lemma_count_update(s: Seq<bool>, i: int)
    requires
        0 <= i < s.len(),
        !s[i],
    ensures
        count_unchecked(s.update(i, true)) == count_unchecked(s) - 1,
    decreases s.len(),
{
    let t = s.update(i, true);
    if i == s.len() - 1 {
        assert(t.drop_last() =~= s.drop_last());
        assert(t.last());
    } else {
        assert(t.drop_last() =~= s.drop_last().update(i, true));
        lemma_count_update(s.drop_last(), i);
        assert(t.last() == s.last());
    }
}

/// The `k`-th neighbor of `p` in the fixed scan order.
pub open spec fn neighbor_at(p: (int, int), k: int) -> (int, int) {
    ((p.0 + offsets()[k].0), (p.1 + offsets()[k].1))
}

/// Whether neighbor `k` of `p` is in bounds and differs beyond tolerance.
pub open spec fn diff_at(colors: Seq<Rgb>, w: int, h: int, p: (int, int), k: int) -> bool {
    let nb = neighbor_at(p, k);
    in_bounds(w, h, nb) && !similar(
        colors[pix_idx(w, nb.0, nb.1)],
        colors[pix_idx(w, p.0, p.1)],
    )
}

/// Whether a pixel differs beyond tolerance from some in-bounds neighbor.
pub open spec fn has_diff_neighbor(colors: Seq<Rgb>, w: int, h: int, p: (int, int)) -> bool {
    exists|k: int| 0 <= k < 8 && #[trigger] diff_at(colors, w, h, p, k)
}

/// An edge pixel: on the image border, or colored differently from one of
/// its neighbors.
pub open spec fn spec_is_edge(colors: Seq<Rgb>, w: int, h: int, p: (int, int)) -> bool {
    p.0 == 0 || p.0 == w - 1 || p.1 == 0 || p.1 == h - 1 || has_diff_neighbor(colors, w, h, p)
}

/// Whether neighbor `k` of `cur` is the pixel the walk would step to:
/// in bounds, unvisited, an edge pixel, and color-similar to `cur`.
pub open spec fn good_step(
    colors: Seq<Rgb>,
    w: int,
    h: int,
    ch: Seq<bool>,
    cur: (int, int),
    k: int,
) -> bool {
    let nb = neighbor_at(cur, k);
    &&& in_bounds(w, h, nb)
    &&& !ch[pix_idx(w, nb.0, nb.1)]
    &&& spec_is_edge(colors, w, h, nb)
    &&& similar(colors[pix_idx(w, cur.0, cur.1)], colors[pix_idx(w, nb.0, nb.1)])
}

/// The first acceptable neighbor of `cur` at scan position `k` or later.
pub open spec fn spec_first_next(
    colors: Seq<Rgb>,
    w: int,
    h: int,
    ch: Seq<bool>,
    cur: (int, int),
    k: int,
) -> Option<(int, int)>
    decreases 8 - k,
{
    if k < 0 || k >= 8 {
        Option::None
    } else if good_step(colors, w, h, ch, cur, k) {
        Option::Some(neighbor_at(cur, k))
    } else {
        spec_first_next(colors, w, h, ch, cur, k + 1)
    }
}

/// A corner: the move `prev -> cur -> nxt` is not collinear along one axis.
pub open spec fn turn(prev: (int, int), cur: (int, int), nxt: (int, int)) -> bool {
    !(prev.0 == cur.0 && cur.0 == nxt.0) && !(prev.1 == cur.1 && cur.1 == nxt.1)
}

/// The boundary walk from `cur` (entered from `prev`): emits `cur` at each
/// direction change, marks every pixel it steps onto, and emits the final
/// pixel as the terminus. Yields the emitted vertices and the updated
/// visited flags.
pub open spec fn spec_walk(
    colors: Seq<Rgb>,
    w: int,
    h: int,
    ch: Seq<bool>,
    prev: (int, int),
    cur: (int, int),
) -> (Seq<(u16, u16)>, Seq<bool>)
    decreases count_unchecked(ch),
        when wf_grid(colors, w, h, ch) && in_bounds(w, h, cur)
    via spec_walk_decreases
{
    match spec_first_next(colors, w, h, ch, cur, 0) {
        Option::None => (seq![(cur.0 as u16, cur.1 as u16)], ch),
        Option::Some(nb) => {
            let ch2 = ch.update(pix_idx(w, nb.0, nb.1), true);
            let (pts, chf) = spec_walk(colors, w, h, ch2, cur, nb);
            if turn(prev, cur, nb) {
                (seq![(cur.0 as u16, cur.1 as u16)] + pts, chf)
            } else {
                (pts, chf)
            }
        },
    }
}

/// The chosen step is in bounds and unvisited.
pub proof fn lemma_first_next_good(
    colors: Seq<Rgb>,
    w: int,
    h: int,
    ch: Seq<bool>,
    cur: (int, int),
    k: int,
    nb: (int, int),
)
    requires
        spec_first_next(colors, w, h, ch, cur, k) == Option::Some(nb),
    ensures
        in_bounds(w, h, nb),
        0 <= pix_idx(w, nb.0, nb.1) < w * h,
        !ch[pix_idx(w, nb.0, nb.1)],
    decreases 8 - k,
{
    if 0 <= k < 8 {
        if good_step(colors, w, h, ch, cur, k) {
            crate::s7_image::lemma_pix_idx_in_range(w, h, nb.0, nb.1);
        } else {
            lemma_first_next_good(colors, w, h, ch, cur, k + 1, nb);
        }
    }
}

#[via_fn]
proof fn spec_walk_decreases(
    colors: Seq<Rgb>,
    w: int,
    h: int,
    ch: Seq<bool>,
    prev: (int, int),
    cur: (int, int),
) {
    match spec_first_next(colors, w, h, ch, cur, 0) {
        Option::None => {},
        Option::Some(nb) => {
            lemma_first_next_good(colors, w, h, ch, cur, 0, nb);
            lemma_count_update(ch, pix_idx(w, nb.0, nb.1));
        },
    }
}

/// The walk only adds marks: its flags dominate the old ones and the
/// unvisited count does not grow.
pub proof fn lemma_walk_mono(
    colors: Seq<Rgb>,
    w: int,
    h: int,
    ch: Seq<bool>,
    prev: (int, int),
    cur: (int, int),
)
    requires
        wf_grid(colors, w, h, ch),
        in_bounds(w, h, cur),
    ensures
        spec_walk(colors, w, h, ch, prev, cur).1.len() == ch.len(),
        forall|i: int| 0 <= i < ch.len() && ch[i] ==> spec_walk(colors, w, h, ch, prev, cur).1[i],
        count_unchecked(spec_walk(colors, w, h, ch, prev, cur).1) <= count_unchecked(ch),
    decreases count_unchecked(ch),
{
    match spec_first_next(colors, w, h, ch, cur, 0) {
        Option::None => {},
        Option::Some(nb) => {
            lemma_first_next_good(colors, w, h, ch, cur, 0, nb);
            let ch2 = ch.update(pix_idx(w, nb.0, nb.1), true);
            lemma_count_update(ch, pix_idx(w, nb.0, nb.1));
            lemma_walk_mono(colors, w, h, ch2, cur, nb);
            let r1 = spec_walk(colors, w, h, ch, prev, cur).1;
            let r2 = spec_walk(colors, w, h, ch2, cur, nb).1;
            assert(r1 == r2);
            assert forall|i: int| 0 <= i < ch.len() && ch[i] implies r1[i] by {
                assert(ch2[i]);
            }
        },
    }
}

/// Every vertex the walk emits lies inside the grid.
pub proof fn lemma_walk_in_bounds(
    colors: Seq<Rgb>,
    w: int,
    h: int,
    ch: Seq<bool>,
    prev: (int, int),
    cur: (int, int),
)
    requires
        wf_grid(colors, w, h, ch),
        in_bounds(w, h, cur),
    ensures
        spec_walk(colors, w, h, ch, prev, cur).0.len() >= 1,
        forall|j: int|
            0 <= j < spec_walk(colors, w, h, ch, prev, cur).0.len() ==> in_bounds(
                w,
                h,
                (
                    (#[trigger] spec_walk(colors, w, h, ch, prev, cur).0[j]).0 as int,
                    spec_walk(colors, w, h, ch, prev, cur).0[j].1 as int,
                ),
            ),
    decreases count_unchecked(ch),
{
    let pts = spec_walk(colors, w, h, ch, prev, cur).0;
    match spec_first_next(colors, w, h, ch, cur, 0) {
        Option::None => {
            assert(pts[0] == (cur.0 as u16, cur.1 as u16));
        },
        Option::Some(nb) => {
            lemma_first_next_good(colors, w, h, ch, cur, 0, nb);
            let ch2 = ch.update(pix_idx(w, nb.0, nb.1), true);
            lemma_count_update(ch, pix_idx(w, nb.0, nb.1));
            lemma_walk_in_bounds(colors, w, h, ch2, cur, nb);
            let rest = spec_walk(colors, w, h, ch2, cur, nb).0;
            if turn(prev, cur, nb) {
                assert(pts == seq![(cur.0 as u16, cur.1 as u16)] + rest);
                assert forall|j: int|
                    0 <= j < pts.len() implies in_bounds(
                    w,
                    h,
                    ((#[trigger] pts[j]).0 as int, pts[j].1 as int),
                ) by {
                    if j > 0 {
                        assert(pts[j] == rest[j - 1]);
                    }
                }
            } else {
                assert(pts == rest);
            }
        },
    }
}

/// Every vertex of a traced path lies inside the grid, and there is at
/// least one.
pub proof fn lemma_path_in_bounds(
    colors: Seq<Rgb>,
    w: int,
    h: int,
    ch: Seq<bool>,
    start: (int, int),
)
    requires
        wf_grid(colors, w, h, ch),
        in_bounds(w, h, start),
    ensures
        spec_path(colors, w, h, ch, start).0.len() >= 1,
        forall|j: int|
            0 <= j < spec_path(colors, w, h, ch, start).0.len() ==> in_bounds(
                w,
                h,
                (
                    (#[trigger] spec_path(colors, w, h, ch, start).0[j]).0 as int,
                    spec_path(colors, w, h, ch, start).0[j].1 as int,
                ),
            ),
{
    let pts = spec_path(colors, w, h, ch, start).0;
    match spec_first_next(colors, w, h, ch, start, 0) {
        Option::None => {
            assert(pts[0] == (start.0 as u16, start.1 as u16));
        },
        Option::Some(nb) => {
            lemma_first_next_good(colors, w, h, ch, start, 0, nb);
            let ch2 = ch.update(pix_idx(w, nb.0, nb.1), true);
            lemma_walk_in_bounds(colors, w, h, ch2, start, nb);
            let rest = spec_walk(colors, w, h, ch2, start, nb).0;
            assert(pts == seq![(start.0 as u16, start.1 as u16)] + rest);
            assert forall|j: int|
                0 <= j < pts.len() implies in_bounds(
                w,
                h,
                ((#[trigger] pts[j]).0 as int, pts[j].1 as int),
            ) by {
                if j > 0 {
                    assert(pts[j] == rest[j - 1]);
                }
            }
        },
    }
}

/// The bounding box of in-bounds vertices is an in-bounds rectangle.
pub proof fn lemma_bbox_in_bounds(pts: Seq<(u16, u16)>, w: int, h: int)
    requires
        pts.len() >= 1,
        forall|j: int|
            0 <= j < pts.len() ==> in_bounds(
                w,
                h,
                ((#[trigger] pts[j]).0 as int, pts[j].1 as int),
            ),
    ensures
        0 <= bbox(pts).0 <= bbox(pts).2 < w,
        0 <= bbox(pts).1 <= bbox(pts).3 < h,
    decreases pts.len(),
{
    if pts.len() == 1 {
        assert(in_bounds(w, h, (pts[0].0 as int, pts[0].1 as int)));
    } else {
        assert forall|j: int|
            0 <= j < pts.drop_last().len() implies in_bounds(
            w,
            h,
            ((#[trigger] pts.drop_last()[j]).0 as int, pts.drop_last()[j].1 as int),
        ) by {
            assert(pts.drop_last()[j] == pts[j]);
        }
        lemma_bbox_in_bounds(pts.drop_last(), w, h);
        assert(in_bounds(w, h, (pts.last().0 as int, pts.last().1 as int)));
    }
}

/// The path traced from a fresh start pixel: the start vertex, then the
/// walk; a start with no acceptable step yields exactly one vertex.
pub open spec fn spec_path(
    colors: Seq<Rgb>,
    w: int,
    h: int,
    ch: Seq<bool>,
    start: (int, int),
) -> (Seq<(u16, u16)>, Seq<bool>) {
    match spec_first_next(colors, w, h, ch, start, 0) {
        Option::None => (seq![(start.0 as u16, start.1 as u16)], ch),
        Option::Some(nb) => {
            let ch2 = ch.update(pix_idx(w, nb.0, nb.1), true);
            let (pts, chf) = spec_walk(colors, w, h, ch2, start, nb);
            (seq![(start.0 as u16, start.1 as u16)] + pts, chf)
        },
    }
}

pub proof fn lemma_path_mono(colors: Seq<Rgb>, w: int, h: int, ch: Seq<bool>, start: (int, int))
    requires
        wf_grid(colors, w, h, ch),
        in_bounds(w, h, start),
    ensures
        spec_path(colors, w, h, ch, start).1.len() == ch.len(),
        forall|i: int|
            0 <= i < ch.len() && ch[i] ==> spec_path(colors, w, h, ch, start).1[i],
        count_unchecked(spec_path(colors, w, h, ch, start).1) <= count_unchecked(ch),
{
    match spec_first_next(colors, w, h, ch, start, 0) {
        Option::None => {},
        Option::Some(nb) => {
            lemma_first_next_good(colors, w, h, ch, start, 0, nb);
            let ch2 = ch.update(pix_idx(w, nb.0, nb.1), true);
            lemma_count_update(ch, pix_idx(w, nb.0, nb.1));
            lemma_walk_mono(colors, w, h, ch2, start, nb);
            let r1 = spec_path(colors, w, h, ch, start).1;
            let r2 = spec_walk(colors, w, h, ch2, start, nb).1;
            assert(r1 == r2);
            assert forall|i: int| 0 <= i < ch.len() && ch[i] implies r1[i] by {
                assert(ch2[i]);
            }
        },
    }
}

/// The bounding box of a non-empty vertex list:
/// `(min x, min y, max x, max y)`.
pub open spec fn bbox(pts: Seq<(u16, u16)>) -> (int, int, int, int)
    decreases pts.len(),
{
    if pts.len() <= 1 {
        (pts[0].0 as int, pts[0].1 as int, pts[0].0 as int, pts[0].1 as int)
    } else {
        let b = bbox(pts.drop_last());
        let p = pts.last();
        (
            if p.0 < b.0 { p.0 as int } else { b.0 },
            if p.1 < b.1 { p.1 as int } else { b.1 },
            if p.0 > b.2 { p.0 as int } else { b.2 },
            if p.1 > b.3 { p.1 as int } else { b.3 },
        )
    }
}

/// One traced path: its fill color and its vertices.
pub struct PathTrace {
    pub color: Rgb,
    pub points: Seq<(u16, u16)>,
}

/// The row-major region scan at position `(x, y)` of the rectangle
/// `[x0, x1) x [y0, y1)`: skips visited pixels, marks each examined pixel,
/// suppresses pixels similar to the reference color `ignore`, and for each
/// edge pixel found traces a path and then scans that path's bounding box
/// with the path's start as the reference, before carrying on. Yields the
/// paths in discovery order and the updated visited flags.
pub open spec fn spec_scan(
    colors: Seq<Rgb>,
    w: int,
    h: int,
    ch: Seq<bool>,
    x0: int,
    x1: int,
    y0: int,
    y1: int,
    ignore: Option<(int, int)>,
    x: int,
    y: int,
) -> (Seq<PathTrace>, Seq<bool>)
    decreases count_unchecked(ch), y1 - y, x1 - x + 1,
        when wf_grid(colors, w, h, ch) && x1 <= w && y1 <= h && in_bounds_opt(w, h, ignore)
    via spec_scan_decreases
{
    if y < y0 || y >= y1 {
        (Seq::empty(), ch)
    } else if x < x0 || x >= x1 {
        spec_scan(colors, w, h, ch, x0, x1, y0, y1, ignore, x0, y + 1)
    } else if x < 0 || y < 0 {
        (Seq::empty(), ch)
    } else if ch[pix_idx(w, x, y)] {
        spec_scan(colors, w, h, ch, x0, x1, y0, y1, ignore, x + 1, y)
    } else {
        let ch1 = ch.update(pix_idx(w, x, y), true);
        if !spec_is_edge(colors, w, h, (x, y)) {
            spec_scan(colors, w, h, ch1, x0, x1, y0, y1, ignore, x + 1, y)
        } else if ignore_matches(colors, w, ignore, (x, y)) {
            spec_scan(colors, w, h, ch1, x0, x1, y0, y1, ignore, x + 1, y)
        } else {
            let (pts, ch2) = spec_path(colors, w, h, ch1, (x, y));
            let b = bbox(pts);
            let (sub, ch3) = spec_scan(
                colors, w, h, ch2, b.0, b.2, b.1, b.3, Option::Some((x, y)), b.0, b.1,
            );
            let ch3s = settle(ch3, ch2);
            let (rest, ch4) = spec_scan(colors, w, h, ch3s, x0, x1, y0, y1, ignore, x + 1, y);
            (
                seq![PathTrace { color: colors[pix_idx(w, x, y)], points: pts }] + sub + rest,
                ch4,
            )
        }
    }
}

/// Keeps `newer` when it visibly only adds marks over `older`, and falls
/// back to `older` otherwise. The scan's flags only ever grow, so this is
/// the identity on every state the scan actually produces; it stands in the
/// definition only so that the scan's termination is structural.
pub open spec fn settle(newer: Seq<bool>, older: Seq<bool>) -> Seq<bool> {
    if newer.len() == older.len() && count_unchecked(newer) <= count_unchecked(older) {
        newer
    } else {
        older
    }
}

pub open spec fn in_bounds_opt(w: int, h: int, p: Option<(int, int)>) -> bool {
    match p {
        Option::None => true,
        Option::Some(q) => in_bounds(w, h, q),
    }
}

/// Whether the reference color is set and this pixel matches it.
pub open spec fn ignore_matches(
    colors: Seq<Rgb>,
    w: int,
    ignore: Option<(int, int)>,
    p: (int, int),
) -> bool {
    match ignore {
        Option::None => false,
        Option::Some(q) => similar(
            colors[pix_idx(w, p.0, p.1)],
            colors[pix_idx(w, q.0, q.1)],
        ),
    }
}

#[via_fn]
proof fn spec_scan_decreases(
    colors: Seq<Rgb>,
    w: int,
    h: int,
    ch: Seq<bool>,
    x0: int,
    x1: int,
    y0: int,
    y1: int,
    ignore: Option<(int, int)>,
    x: int,
    y: int,
) {
    if y < y0 || y >= y1 {
    } else if x < x0 || x >= x1 {
    } else if x < 0 || y < 0 {
    } else {
        crate::s7_image::lemma_pix_idx_in_range(w, h, x, y);
        if ch[pix_idx(w, x, y)] {
        } else {
            let ch1 = ch.update(pix_idx(w, x, y), true);
            lemma_count_update(ch, pix_idx(w, x, y));
            if !spec_is_edge(colors, w, h, (x, y)) {
            } else if ignore_matches(colors, w, ignore, (x, y)) {
            } else {
                let (pts, ch2) = spec_path(colors, w, h, ch1, (x, y));
                lemma_path_mono(colors, w, h, ch1, (x, y));
            }
        }
    }
}

/// The scan only adds marks: its flags dominate the old ones and the
/// unvisited count does not grow.
pub proof fn lemma_scan_mono(
    colors: Seq<Rgb>,
    w: int,
    h: int,
    ch: Seq<bool>,
    x0: int,
    x1: int,
    y0: int,
    y1: int,
    ignore: Option<(int, int)>,
    x: int,
    y: int,
)
    requires
        wf_grid(colors, w, h, ch),
        x1 <= w,
        y1 <= h,
        in_bounds_opt(w, h, ignore),
    ensures
        spec_scan(colors, w, h, ch, x0, x1, y0, y1, ignore, x, y).1.len() == ch.len(),
        forall|i: int|
            0 <= i < ch.len() && ch[i] ==> spec_scan(
                colors, w, h, ch, x0, x1, y0, y1, ignore, x, y,
            ).1[i],
        count_unchecked(spec_scan(colors, w, h, ch, x0, x1, y0, y1, ignore, x, y).1)
            <= count_unchecked(ch),
    decreases count_unchecked(ch), y1 - y, x1 - x + 1,
{
    if y < y0 || y >= y1 {
    } else if x < x0 || x >= x1 {
        lemma_scan_mono(colors, w, h, ch, x0, x1, y0, y1, ignore, x0, y + 1);
    } else if x < 0 || y < 0 {
    } else {
        crate::s7_image::lemma_pix_idx_in_range(w, h, x, y);
        if ch[pix_idx(w, x, y)] {
            lemma_scan_mono(colors, w, h, ch, x0, x1, y0, y1, ignore, x + 1, y);
        } else {
            let ch1 = ch.update(pix_idx(w, x, y), true);
            lemma_count_update(ch, pix_idx(w, x, y));
            if !spec_is_edge(colors, w, h, (x, y)) || ignore_matches(colors, w, ignore, (x, y)) {
                lemma_scan_mono(colors, w, h, ch1, x0, x1, y0, y1, ignore, x + 1, y);
                let r1 = spec_scan(colors, w, h, ch, x0, x1, y0, y1, ignore, x, y).1;
                let r2 = spec_scan(colors, w, h, ch1, x0, x1, y0, y1, ignore, x + 1, y).1;
                assert(r1 == r2);
                assert forall|i: int| 0 <= i < ch.len() && ch[i] implies r1[i] by {
                    assert(ch1[i]);
                }
            } else {
                let (pts, ch2) = spec_path(colors, w, h, ch1, (x, y));
                lemma_path_mono(colors, w, h, ch1, (x, y));
                lemma_path_in_bounds(colors, w, h, ch1, (x, y));
                let b = bbox(pts);
                lemma_bbox_in_bounds(pts, w, h);
                let (sub, ch3) = spec_scan(
                    colors, w, h, ch2, b.0, b.2, b.1, b.3, Option::Some((x, y)), b.0, b.1,
                );
                lemma_scan_mono(
                    colors, w, h, ch2, b.0, b.2, b.1, b.3, Option::Some((x, y)), b.0, b.1,
                );
                assert(settle(ch3, ch2) == ch3);
                lemma_scan_mono(colors, w, h, ch3, x0, x1, y0, y1, ignore, x + 1, y);
                let r1 = spec_scan(colors, w, h, ch, x0, x1, y0, y1, ignore, x, y).1;
                let r4 = spec_scan(colors, w, h, ch3, x0, x1, y0, y1, ignore, x + 1, y).1;
                assert(r1 == r4);
                assert forall|i: int| 0 <= i < ch.len() && ch[i] implies r1[i] by {
                    assert(ch1[i]);
                    assert(ch2[i]);
                    assert(ch3[i]);
                }
            }
        }
    }
}

/// A path that respects the data model and the color policy: a non-empty
/// vertex list, filled with the color of the pixel at its first vertex.
pub open spec fn path_trace_wf(colors: Seq<Rgb>, w: int, p: PathTrace) -> bool {
    p.points.len() >= 1 && p.color == colors[pix_idx(
        w,
        p.points[0].0 as int,
        p.points[0].1 as int,
    )]
}

/// Every path the scan yields respects the data model and the color
/// policy: its vertex list is non-empty, and its fill color is the color
/// of the pixel at its first vertex, the pixel the trace started from.
pub proof fn lemma_scan_paths_wf(
    colors: Seq<Rgb>,
    w: int,
    h: int,
    ch: Seq<bool>,
    x0: int,
    x1: int,
    y0: int,
    y1: int,
    ignore: Option<(int, int)>,
    x: int,
    y: int,
)
    requires
        wf_grid(colors, w, h, ch),
        x1 <= w,
        y1 <= h,
        in_bounds_opt(w, h, ignore),
    ensures
        forall|i: int|
            0 <= i < spec_scan(colors, w, h, ch, x0, x1, y0, y1, ignore, x, y).0.len()
                ==> path_trace_wf(
                colors,
                w,
                #[trigger] spec_scan(colors, w, h, ch, x0, x1, y0, y1, ignore, x, y).0[i],
            ),
    decreases count_unchecked(ch), y1 - y, x1 - x + 1,
{
    let r = spec_scan(colors, w, h, ch, x0, x1, y0, y1, ignore, x, y);
    if y < y0 || y >= y1 {
    } else if x < x0 || x >= x1 {
        lemma_scan_paths_wf(colors, w, h, ch, x0, x1, y0, y1, ignore, x0, y + 1);
        let nxt = spec_scan(colors, w, h, ch, x0, x1, y0, y1, ignore, x0, y + 1);
        assert forall|i: int|
            0 <= i < r.0.len() implies path_trace_wf(colors, w, #[trigger] r.0[i]) by {
            assert(r.0[i] == nxt.0[i]);
        }
    } else if x < 0 || y < 0 {
    } else {
        crate::s7_image::lemma_pix_idx_in_range(w, h, x, y);
        if ch[pix_idx(w, x, y)] {
            lemma_scan_paths_wf(colors, w, h, ch, x0, x1, y0, y1, ignore, x + 1, y);
            let nxt = spec_scan(colors, w, h, ch, x0, x1, y0, y1, ignore, x + 1, y);
            assert forall|i: int|
                0 <= i < r.0.len() implies path_trace_wf(colors, w, #[trigger] r.0[i]) by {
                assert(r.0[i] == nxt.0[i]);
            }
        } else {
            let ch1 = ch.update(pix_idx(w, x, y), true);
            lemma_count_update(ch, pix_idx(w, x, y));
            if !spec_is_edge(colors, w, h, (x, y)) || ignore_matches(colors, w, ignore, (x, y)) {
                lemma_scan_paths_wf(colors, w, h, ch1, x0, x1, y0, y1, ignore, x + 1, y);
                let nxt = spec_scan(colors, w, h, ch1, x0, x1, y0, y1, ignore, x + 1, y);
                assert forall|i: int|
                    0 <= i < r.0.len() implies path_trace_wf(colors, w, #[trigger] r.0[i]) by {
                    assert(r.0[i] == nxt.0[i]);
                }
            } else {
                let (pts, ch2) = spec_path(colors, w, h, ch1, (x, y));
                lemma_path_mono(colors, w, h, ch1, (x, y));
                lemma_path_in_bounds(colors, w, h, ch1, (x, y));
                let b = bbox(pts);
                lemma_bbox_in_bounds(pts, w, h);
                let (sub, ch3) = spec_scan(
                    colors, w, h, ch2, b.0, b.2, b.1, b.3, Option::Some((x, y)), b.0, b.1,
                );
                lemma_scan_mono(
                    colors, w, h, ch2, b.0, b.2, b.1, b.3, Option::Some((x, y)), b.0, b.1,
                );
                lemma_scan_paths_wf(
                    colors, w, h, ch2, b.0, b.2, b.1, b.3, Option::Some((x, y)), b.0, b.1,
                );
                assert(settle(ch3, ch2) == ch3);
                lemma_scan_paths_wf(colors, w, h, ch3, x0, x1, y0, y1, ignore, x + 1, y);
                let rest = spec_scan(colors, w, h, ch3, x0, x1, y0, y1, ignore, x + 1, y).0;
                let this_trace = PathTrace { color: colors[pix_idx(w, x, y)], points: pts };
                assert(pts[0] == (x as u16, y as u16));
                assert(r.0 == seq![this_trace] + sub + rest);
                assert forall|i: int|
                    0 <= i < r.0.len() implies path_trace_wf(colors, w, #[trigger] r.0[i]) by {
                    if i == 0 {
                        assert(r.0[i] == this_trace);
                    } else if i <= sub.len() {
                        assert(r.0[i] == sub[i - 1]);
                    } else {
                        assert(r.0[i] == rest[i - 1 - sub.len()]);
                    }
                }
            }
        }
    }
}

/// The list of paths the tracer produces for a grid in a given visited
/// state: the whole-image scan with no reference color.
pub open spec fn spec_trace(colors: Seq<Rgb>, w: int, h: int, ch: Seq<bool>) -> Seq<PathTrace> {
    spec_scan(colors, w, h, ch, 0, w, 0, h, Option::None, 0, 0).0
}

/// The object a traced path denotes in the document model.
pub open spec fn path_trace_view(p: PathTrace) -> ObjectView {
    ObjectView::Path(
        PathView { color: (p.color.0, p.color.1, p.color.2), points: p.points },
    )
}

/// A pixel that differs beyond tolerance from every one of its in-bounds
/// neighbors traces to a path with exactly one vertex, its own, whatever
/// the visited state: the walk finds no similar neighbor to step to.
pub proof fn lemma_isolated_pixel_single_point(
    colors: Seq<Rgb>,
    w: int,
    h: int,
    ch: Seq<bool>,
    p: (int, int),
)
    requires
        wf_grid(colors, w, h, ch),
        in_bounds(w, h, p),
        forall|k: int|
            0 <= k < 8 && in_bounds(w, h, #[trigger] neighbor_at(p, k)) ==> !similar(
                colors[pix_idx(w, p.0, p.1)],
                colors[pix_idx(w, neighbor_at(p, k).0, neighbor_at(p, k).1)],
            ),
    ensures
        spec_path(colors, w, h, ch, p).0 == seq![(p.0 as u16, p.1 as u16)],
        spec_path(colors, w, h, ch, p).1 == ch,
{
    assert forall|k: int| 0 <= k < 8 implies !good_step(colors, w, h, ch, p, k) by {
        if in_bounds(w, h, neighbor_at(p, k)) {
            assert(!similar(
                colors[pix_idx(w, p.0, p.1)],
                colors[pix_idx(w, neighbor_at(p, k).0, neighbor_at(p, k).1)],
            ));
        }
    }
    assert(spec_first_next(colors, w, h, ch, p, 0) is None) by {
        reveal_with_fuel(spec_first_next, 10);
    }
}

/// Tracing a solid two-by-two image of any color yields exactly one path,
/// carrying that color, whose vertices are the image's four corners.
///
/// (On larger solid images the fixed neighbor order cuts the far corner
/// off diagonally, so the corner pixel forms a path of its own; two by two
/// is the largest square for which the single-path claim holds exactly.)
pub proof fn lemma_trace_solid_two_by_two(c: Rgb)
    ensures
        spec_trace(seq![c, c, c, c], 2, 2, seq![false, false, false, false]) == seq![
            (PathTrace {
                color: c,
                points: seq![(0u16, 0u16), (1u16, 0u16), (0u16, 1u16), (1u16, 1u16)],
            }),
        ],
{
    let colors = seq![c, c, c, c];
    let ch0 = seq![false, false, false, false];
    let ch1 = ch0.update(0, true);
    let ch2 = ch1.update(1, true);
    let ch3 = ch2.update(2, true);
    let ch4 = ch3.update(3, true);
    assert(similar(c, c));
    // The walk from the start corner goes right, then diagonally down-left,
    // then right again, and stops with every pixel visited.
    assert(spec_first_next(colors, 2, 2, ch1, (0, 0), 0) == Option::Some((1int, 0int))) by {
        reveal_with_fuel(spec_first_next, 10);
    }
    assert(spec_first_next(colors, 2, 2, ch2, (1, 0), 0) == Option::Some((0int, 1int))) by {
        reveal_with_fuel(spec_first_next, 10);
    }
    assert(spec_first_next(colors, 2, 2, ch3, (0, 1), 0) == Option::Some((1int, 1int))) by {
        reveal_with_fuel(spec_first_next, 10);
    }
    assert(spec_first_next(colors, 2, 2, ch4, (1, 1), 0) is None) by {
        reveal_with_fuel(spec_first_next, 10);
    }
    assert(spec_walk(colors, 2, 2, ch4, (0, 1), (1, 1)) == (seq![(1u16, 1u16)], ch4));
    assert(ch3.update(pix_idx(2, 1, 1), true) =~= ch4);
    assert(turn((1, 0), (0, 1), (1, 1)));
    assert(spec_walk(colors, 2, 2, ch3, (1, 0), (0, 1)) == (
        seq![(0u16, 1u16)] + seq![(1u16, 1u16)],
        ch4,
    ));
    assert(seq![(0u16, 1u16)] + seq![(1u16, 1u16)] =~= seq![(0u16, 1u16), (1u16, 1u16)]);
    assert(ch2.update(pix_idx(2, 0, 1), true) =~= ch3);
    assert(turn((0, 0), (1, 0), (0, 1)));
    assert(spec_walk(colors, 2, 2, ch2, (0, 0), (1, 0)) == (
        seq![(1u16, 0u16)] + seq![(0u16, 1u16), (1u16, 1u16)],
        ch4,
    ));
    assert(seq![(1u16, 0u16)] + seq![(0u16, 1u16), (1u16, 1u16)] =~= seq![
        (1u16, 0u16),
        (0u16, 1u16),
        (1u16, 1u16),
    ]);
    assert(ch1.update(pix_idx(2, 1, 0), true) =~= ch2);
    let pts = seq![(0u16, 0u16), (1u16, 0u16), (0u16, 1u16), (1u16, 1u16)];
    assert(seq![(0u16, 0u16)] + seq![(1u16, 0u16), (0u16, 1u16), (1u16, 1u16)] =~= pts);
    assert(spec_path(colors, 2, 2, ch1, (0, 0)) == (pts, ch4));
    assert(bbox(pts) == (0int, 0int, 1int, 1int)) by {
        reveal_with_fuel(bbox, 5);
        assert(pts.drop_last() =~= seq![(0u16, 0u16), (1u16, 0u16), (0u16, 1u16)]);
        assert(pts.drop_last().drop_last() =~= seq![(0u16, 0u16), (1u16, 0u16)]);
        assert(pts.drop_last().drop_last().drop_last() =~= seq![(0u16, 0u16)]);
    }
    // The recursion into the bounding box and the rest of the scan find
    // everything already visited.
    assert(spec_scan(colors, 2, 2, ch4, 0, 1, 0, 1, Option::Some((0int, 0int)), 0, 0) == (
        Seq::<PathTrace>::empty(),
        ch4,
    )) by {
        reveal_with_fuel(spec_scan, 4);
    }
    assert(settle(ch4, ch4) == ch4);
    assert(spec_scan(colors, 2, 2, ch4, 0, 2, 0, 2, Option::<(int, int)>::None, 1, 0) == (
        Seq::<PathTrace>::empty(),
        ch4,
    )) by {
        reveal_with_fuel(spec_scan, 8);
    }
    assert(spec_is_edge(colors, 2, 2, (0, 0)));
    assert(ch0.update(pix_idx(2, 0, 0), true) =~= ch1);
    let tr = PathTrace { color: c, points: pts };
    assert(spec_scan(colors, 2, 2, ch0, 0, 2, 0, 2, Option::<(int, int)>::None, 0, 0).0 == seq![
        tr,
    ] + Seq::<PathTrace>::empty() + Seq::<PathTrace>::empty());
    assert(seq![tr] + Seq::<PathTrace>::empty() + Seq::<PathTrace>::empty() =~= seq![tr]);
}

/// The `k`-th offset of the fixed neighbor scan order.
fn offset_at(k: usize) -> (r: (i32, i32))
    requires
        k < 8,
    ensures
        (r.0 as int, r.1 as int) == offsets()[k as int],
{
    if k == 0 {
        (-1, -1)
    } else if k == 1 {
        (0, -1)
    } else if k == 2 {
        (1, -1)
    } else if k == 3 {
        (-1, 0)
    } else if k == 4 {
        (1, 0)
    } else if k == 5 {
        (-1, 1)
    } else if k == 6 {
        (0, 1)
    } else {
        (1, 1)
    }
}

/// Whether some in-bounds neighbor of `coords` fails the color-similarity
/// test against it.
fn has_unique_neighbors(image: &Image, coords: Coords) -> (r: bool)
    requires
        image.wf(),
        image.spec_in_bounds(coords.0 as int, coords.1 as int),
    ensures
        r == has_diff_neighbor(
            image.pixels@,
            image.width as int,
            image.height as int,
            (coords.0 as int, coords.1 as int),
        ),
{
    let ghost w = image.width as int;
    let ghost h = image.height as int;
    let ghost p = (coords.0 as int, coords.1 as int);
    let (pix_x, pix_y) = coords;
    let mut k: usize = 0;
    while k < 8
        invariant
            k <= 8,
            image.wf(),
            image.spec_in_bounds(p.0, p.1),
            w == image.width as int,
            h == image.height as int,
            p == (pix_x as int, pix_y as int),
            coords == (pix_x, pix_y),
            forall|j: int| 0 <= j < k ==> !diff_at(image.pixels@, w, h, p, j),
        decreases 8 - k,
    {
        let (dx, dy) = offset_at(k);
        let nx: i32 = pix_x as i32 + dx;
        let ny: i32 = pix_y as i32 + dy;
        if nx >= 0 && ny >= 0 && nx < image.width as i32 && ny < image.height as i32 {
            let nb: Coords = (nx as u16, ny as u16);
            proof {
                assert(nb.0 as int == nx as int && nb.1 as int == ny as int);
                assert((nb.0 as int, nb.1 as int) == neighbor_at(p, k as int));
            }
            if !image.compare_pixels(nb, coords) {
                proof {
                    assert(diff_at(image.pixels@, w, h, p, k as int));
                }
                return true;
            }
        }
        proof {
            assert(!diff_at(image.pixels@, w, h, p, k as int));
        }
        k = k + 1;
    }
    proof {
        assert(!has_diff_neighbor(image.pixels@, w, h, p));
    }
    false
}

/// Whether `coords` is an edge pixel: on the image border, or different in
/// color from one of its neighbors.
fn is_edge_pixel(image: &Image, coords: Coords) -> (r: bool)
    requires
        image.wf(),
        image.width >= 1,
        image.height >= 1,
        image.spec_in_bounds(coords.0 as int, coords.1 as int),
    ensures
        r == spec_is_edge(
            image.pixels@,
            image.width as int,
            image.height as int,
            (coords.0 as int, coords.1 as int),
        ),
{
    let (x, y) = coords;
    if x == 0 || x == image.width - 1 || y == 0 || y == image.height - 1 {
        true
    } else if has_unique_neighbors(image, coords) {
        true
    } else {
        false
    }
}

/// The first unvisited edge neighbor of `coords` that is similar in color,
/// in the fixed scan order.
fn get_next_pixel_coords(image: &Image, coords: Coords) -> (r: Option<Coords>)
    requires
        image.wf(),
        image.width >= 1,
        image.height >= 1,
        image.spec_in_bounds(coords.0 as int, coords.1 as int),
    ensures
        match r {
            Option::Some(c) => {
                &&& image.spec_in_bounds(c.0 as int, c.1 as int)
                &&& spec_first_next(
                    image.pixels@,
                    image.width as int,
                    image.height as int,
                    image.checked_pixels@,
                    (coords.0 as int, coords.1 as int),
                    0,
                ) == Option::Some((c.0 as int, c.1 as int))
            },
            Option::None => spec_first_next(
                image.pixels@,
                image.width as int,
                image.height as int,
                image.checked_pixels@,
                (coords.0 as int, coords.1 as int),
                0,
            ) is None,
        },
{
    let ghost w = image.width as int;
    let ghost h = image.height as int;
    let ghost ch = image.checked_pixels@;
    let ghost p = (coords.0 as int, coords.1 as int);
    let (pix_x, pix_y) = coords;
    let mut k: usize = 0;
    while k < 8
        invariant
            k <= 8,
            image.wf(),
            image.width >= 1,
            image.height >= 1,
            image.spec_in_bounds(p.0, p.1),
            w == image.width as int,
            h == image.height as int,
            ch == image.checked_pixels@,
            p == (pix_x as int, pix_y as int),
            coords == (pix_x, pix_y),
            spec_first_next(image.pixels@, w, h, ch, p, 0) == spec_first_next(
                image.pixels@,
                w,
                h,
                ch,
                p,
                k as int,
            ),
        decreases 8 - k,
    {
        let (dx, dy) = offset_at(k);
        let nx: i32 = pix_x as i32 + dx;
        let ny: i32 = pix_y as i32 + dy;
        let mut good = false;
        if nx >= 0 && ny >= 0 {
            proof {
                assert(p.0 <= 0xfffe && p.1 <= 0xfffe);
                assert(0 <= nx as int <= 0xffff && 0 <= ny as int <= 0xffff);
            }
            let nb: Coords = (nx as u16, ny as u16);
            proof {
                assert(nb.0 as int == nx as int && nb.1 as int == ny as int);
                assert((nb.0 as int, nb.1 as int) == neighbor_at(p, k as int));
            }
            if image.is_valid_coords(nb) {
                if !image.pixel_is_checked(nb) {
                    if is_edge_pixel(image, nb) {
                        if image.compare_pixels(coords, nb) {
                            good = true;
                        }
                    }
                }
            }
            if good {
                proof {
                    assert(good_step(image.pixels@, w, h, ch, p, k as int));
                }
                return Some(nb);
            }
        }
        proof {
            assert(!good_step(image.pixels@, w, h, ch, p, k as int));
        }
        k = k + 1;
    }
    None
}

/// The view of a vertex list as coordinate pairs.
pub open spec fn points_view(points: Seq<[u16; 2]>) -> Seq<(u16, u16)> {
    points.map_values(|q: [u16; 2]| (q@[0], q@[1]))
}

/// Walks the boundary from `start_coords` and returns the traced path
/// object together with the bounding box of its emitted vertices, as
/// `((min x, max y), (max x, min y))`.
fn get_object(image: &mut Image, start_coords: Coords) -> (r: (Object, (Coords, Coords)))
    requires
        old(image).wf(),
        old(image).spec_in_bounds(start_coords.0 as int, start_coords.1 as int),
    ensures
        final(image).wf(),
        final(image).width == old(image).width,
        final(image).height == old(image).height,
        final(image).pixels@ == old(image).pixels@,
        ({
            let w = old(image).width as int;
            let h = old(image).height as int;
            let s = (start_coords.0 as int, start_coords.1 as int);
            let (pts, chf) = spec_path(old(image).pixels@, w, h, old(image).checked_pixels@, s);
            let b = bbox(pts);
            &&& final(image).checked_pixels@ == chf
            &&& r.0@ == path_trace_view(
                (PathTrace { color: old(image).pixels@[pix_idx(w, s.0, s.1)], points: pts }),
            )
            &&& 0 <= b.0 <= b.2 < w && 0 <= b.1 <= b.3 < h
            &&& r.1 == ((b.0 as u16, b.3 as u16), (b.2 as u16, b.1 as u16))
        }),
{
    let ghost w = image.width as int;
    let ghost h = image.height as int;
    let ghost colors = image.pixels@;
    let ghost ch0 = image.checked_pixels@;
    let ghost s = (start_coords.0 as int, start_coords.1 as int);
    proof {
        lemma_path_in_bounds(colors, w, h, ch0, s);
    }
    let start_pixel = image.get_pixel(start_coords);
    let color: [u8; 3] = [start_pixel.0, start_pixel.1, start_pixel.2];
    let mut points: Vec<[u16; 2]> = Vec::new();
    points.push([start_coords.0, start_coords.1]);
    let mut min_x = start_coords.0;
    let mut min_y = start_coords.1;
    let mut max_x = start_coords.0;
    let mut max_y = start_coords.1;
    proof {
        assert(points_view(points@) =~= seq![(start_coords.0, start_coords.1)]);
    }
    let first = get_next_pixel_coords(image, start_coords);
    match first {
        Option::None => {
            proof {
                let (pts, chf) = spec_path(colors, w, h, ch0, s);
                assert(pts == seq![(start_coords.0, start_coords.1)]);
                assert(points_view(points@) == pts);
            }
            (
                Object::Path(PathObject { color, points }),
                ((min_x, max_y), (max_x, min_y)),
            )
        },
        Option::Some(nb) => {
            image.set_pixel_is_checked(nb, true);
            proof {
                lemma_first_next_good(colors, w, h, ch0, s, 0, (nb.0 as int, nb.1 as int));
                lemma_count_update(ch0, pix_idx(w, nb.0 as int, nb.1 as int));
            }
            let mut last_coords = start_coords;
            let mut cur_coords = nb;
            loop
                invariant_except_break
                    image.spec_in_bounds(cur_coords.0 as int, cur_coords.1 as int),
                    points@.len() >= 1,
                    ({
                        let (pts, chf) = spec_path(colors, w, h, ch0, s);
                        let (wpts, wchf) = spec_walk(
                            colors,
                            w,
                            h,
                            image.checked_pixels@,
                            (last_coords.0 as int, last_coords.1 as int),
                            (cur_coords.0 as int, cur_coords.1 as int),
                        );
                        &&& pts == points_view(points@) + wpts
                        &&& chf == wchf
                    }),
                    (min_x as int, min_y as int, max_x as int, max_y as int) == bbox(
                        points_view(points@),
                    ),
                invariant
                    image.wf(),
                    image.width as int == w,
                    image.height as int == h,
                    image.pixels@ == colors,
                    w == old(image).width as int,
                    h == old(image).height as int,
                    colors == old(image).pixels@,
                    ch0 == old(image).checked_pixels@,
                    s == (start_coords.0 as int, start_coords.1 as int),
                    wf_grid(colors, w, h, ch0),
                    in_bounds(w, h, s),
                ensures
                    ({
                        let (pts, chf) = spec_path(colors, w, h, ch0, s);
                        &&& pts == points_view(points@)
                        &&& image.checked_pixels@ == chf
                        &&& (min_x as int, min_y as int, max_x as int, max_y as int) == bbox(pts)
                    }),
                decreases count_unchecked(image.checked_pixels@),
            {
                let ghost pre_view = points_view(points@);
                let ghost pre_bbox = (min_x as int, min_y as int, max_x as int, max_y as int);
                let next = get_next_pixel_coords(image, cur_coords);
                match next {
                    Option::None => {
                        points.push([cur_coords.0, cur_coords.1]);
                        if cur_coords.0 < min_x {
                            min_x = cur_coords.0;
                        }
                        if cur_coords.1 < min_y {
                            min_y = cur_coords.1;
                        }
                        if cur_coords.0 > max_x {
                            max_x = cur_coords.0;
                        }
                        if cur_coords.1 > max_y {
                            max_y = cur_coords.1;
                        }
                        proof {
                            let new_view = points_view(points@);
                            assert(points@.drop_last() =~= points@.subrange(
                                0,
                                points@.len() - 1,
                            ));
                            assert(new_view =~= pre_view.push((cur_coords.0, cur_coords.1)));
                            assert(new_view.drop_last() =~= pre_view);
                            assert(new_view.last() == (cur_coords.0, cur_coords.1));
                            assert(new_view.len() >= 2);
                            assert(bbox(new_view.drop_last()) == bbox(pre_view));
                            assert(bbox(pre_view) == pre_bbox);
                            let (pts, chf) = spec_path(colors, w, h, ch0, s);
                            assert(pre_view + seq![(cur_coords.0, cur_coords.1)] =~= new_view);
                            assert(pts == new_view);
                            assert((min_x as int, min_y as int, max_x as int, max_y as int)
                                == bbox(new_view));
                        }
                        break;
                    },
                    Option::Some(next_coords) => {
                        let ghost ch_pre = image.checked_pixels@;
                        image.set_pixel_is_checked(next_coords, true);
                        proof {
                            lemma_first_next_good(
                                colors,
                                w,
                                h,
                                ch_pre,
                                (cur_coords.0 as int, cur_coords.1 as int),
                                0,
                                (next_coords.0 as int, next_coords.1 as int),
                            );
                            lemma_count_update(
                                ch_pre,
                                pix_idx(w, next_coords.0 as int, next_coords.1 as int),
                            );
                        }
                        if !(cur_coords.0 == last_coords.0 && cur_coords.0 == next_coords.0) && !(
                        cur_coords.1 == last_coords.1 && cur_coords.1 == next_coords.1) {
                            points.push([cur_coords.0, cur_coords.1]);
                            if cur_coords.0 < min_x {
                                min_x = cur_coords.0;
                            }
                            if cur_coords.1 < min_y {
                                min_y = cur_coords.1;
                            }
                            if cur_coords.0 > max_x {
                                max_x = cur_coords.0;
                            }
                            if cur_coords.1 > max_y {
                                max_y = cur_coords.1;
                            }
                            proof {
                                assert(turn(
                                    (last_coords.0 as int, last_coords.1 as int),
                                    (cur_coords.0 as int, cur_coords.1 as int),
                                    (next_coords.0 as int, next_coords.1 as int),
                                ));
                                let new_view = points_view(points@);
                                assert(new_view =~= pre_view.push((cur_coords.0, cur_coords.1)));
                                assert(new_view.drop_last() =~= pre_view);
                                assert(new_view.last() == (cur_coords.0, cur_coords.1));
                                assert(new_view.len() >= 2);
                                assert(bbox(new_view.drop_last()) == bbox(pre_view));
                                assert(bbox(pre_view) == pre_bbox);
                                assert((min_x as int, min_y as int, max_x as int, max_y as int)
                                    == bbox(new_view));
                                assert(pre_view + (seq![
                                    (cur_coords.0, cur_coords.1),
                                ] + spec_walk(
                                    colors,
                                    w,
                                    h,
                                    image.checked_pixels@,
                                    (cur_coords.0 as int, cur_coords.1 as int),
                                    (next_coords.0 as int, next_coords.1 as int),
                                ).0) =~= points_view(points@) + spec_walk(
                                    colors,
                                    w,
                                    h,
                                    image.checked_pixels@,
                                    (cur_coords.0 as int, cur_coords.1 as int),
                                    (next_coords.0 as int, next_coords.1 as int),
                                ).0);
                            }
                        } else {
                            proof {
                                assert(!turn(
                                    (last_coords.0 as int, last_coords.1 as int),
                                    (cur_coords.0 as int, cur_coords.1 as int),
                                    (next_coords.0 as int, next_coords.1 as int),
                                ));
                            }
                        }
                        last_coords = cur_coords;
                        cur_coords = next_coords;
                    },
                }
            }
            proof {
                lemma_path_in_bounds(colors, w, h, ch0, s);
                lemma_bbox_in_bounds(spec_path(colors, w, h, ch0, s).0, w, h);
            }
            (
                Object::Path(PathObject { color, points }),
                ((min_x, max_y), (max_x, min_y)),
            )
        },
    }
}

/// The coordinate of an optional reference pixel, as integers.
pub open spec fn ignore_view(p: Option<Coords>) -> Option<(int, int)> {
    match p {
        Option::None => Option::None,
        Option::Some(q) => Option::Some((q.0 as int, q.1 as int)),
    }
}

/// Scans the rectangle `[x_start, x_end) x [y_start, y_end)` in row-major
/// order, tracing a path from every unvisited edge pixel not matching the
/// reference color, and recursing into each traced path's bounding box with
/// that path's start pixel as the reference.
fn get_objects(
    image: &mut Image,
    x_start: u16,
    x_end: u16,
    y_start: u16,
    y_end: u16,
    ignore_color_pix: Option<Coords>,
) -> (r: Vec<Object>)
    requires
        old(image).wf(),
        x_end <= old(image).width,
        y_end <= old(image).height,
        in_bounds_opt(
            old(image).width as int,
            old(image).height as int,
            ignore_view(ignore_color_pix),
        ),
    ensures
        final(image).wf(),
        final(image).width == old(image).width,
        final(image).height == old(image).height,
        final(image).pixels@ == old(image).pixels@,
        ({
            let w = old(image).width as int;
            let h = old(image).height as int;
            let (paths, chf) = spec_scan(
                old(image).pixels@,
                w,
                h,
                old(image).checked_pixels@,
                x_start as int,
                x_end as int,
                y_start as int,
                y_end as int,
                ignore_view(ignore_color_pix),
                x_start as int,
                y_start as int,
            );
            &&& r@.map_values(|o: Object| o@) == paths.map_values(|pt: PathTrace| path_trace_view(pt))
            &&& final(image).checked_pixels@ == chf
        }),
    decreases count_unchecked(image.checked_pixels@),
{
    let ghost w = image.width as int;
    let ghost h = image.height as int;
    let ghost colors = image.pixels@;
    let ghost ch_entry = image.checked_pixels@;
    let ghost ig = ignore_view(ignore_color_pix);
    let ghost target = spec_scan(
        colors,
        w,
        h,
        ch_entry,
        x_start as int,
        x_end as int,
        y_start as int,
        y_end as int,
        ig,
        x_start as int,
        y_start as int,
    );
    let mut objects: Vec<Object> = Vec::new();
    let ghost mut done: Seq<PathTrace> = Seq::empty();
    proof {
        assert(objects@.map_values(|o: Object| o@) =~= Seq::<ObjectView>::empty());
        assert(done.map_values(|pt: PathTrace| path_trace_view(pt)) =~= Seq::<ObjectView>::empty());
    }
    let mut y: u16 = y_start;
    while y < y_end
        invariant
            y_start <= y,
            image.wf(),
            image.width as int == w,
            image.height as int == h,
            image.pixels@ == colors,
            w == old(image).width as int,
            h == old(image).height as int,
            colors == old(image).pixels@,
            ch_entry == old(image).checked_pixels@,
            ig == ignore_view(ignore_color_pix),
            target == spec_scan(
                colors, w, h, ch_entry, x_start as int, x_end as int, y_start as int,
                y_end as int, ig, x_start as int, y_start as int,
            ),
            x_end <= image.width,
            y_end <= image.height,
            in_bounds_opt(w, h, ig),
            count_unchecked(image.checked_pixels@) <= count_unchecked(ch_entry),
            objects@.map_values(|o: Object| o@) == done.map_values(|pt: PathTrace| path_trace_view(pt)),
            ({
                let (cpaths, cchf) = spec_scan(
                    colors, w, h, image.checked_pixels@, x_start as int, x_end as int,
                    y_start as int, y_end as int, ig, x_start as int, y as int,
                );
                &&& target.0 == done + cpaths
                &&& target.1 == cchf
            }),
        decreases y_end - y,
    {
        let mut x: u16 = x_start;
        while x < x_end
            invariant
                x_start <= x,
                y_start <= y < y_end,
                image.wf(),
                image.width as int == w,
                image.height as int == h,
                image.pixels@ == colors,
                w == old(image).width as int,
                h == old(image).height as int,
                colors == old(image).pixels@,
                ch_entry == old(image).checked_pixels@,
                ig == ignore_view(ignore_color_pix),
                target == spec_scan(
                    colors, w, h, ch_entry, x_start as int, x_end as int, y_start as int,
                    y_end as int, ig, x_start as int, y_start as int,
                ),
                x_end <= image.width,
                y_end <= image.height,
                in_bounds_opt(w, h, ig),
                count_unchecked(image.checked_pixels@) <= count_unchecked(ch_entry),
                objects@.map_values(|o: Object| o@) == done.map_values(|pt: PathTrace| path_trace_view(pt)),
                ({
                    let (cpaths, cchf) = spec_scan(
                        colors, w, h, image.checked_pixels@, x_start as int, x_end as int,
                        y_start as int, y_end as int, ig, x as int, y as int,
                    );
                    &&& target.0 == done + cpaths
                    &&& target.1 == cchf
                }),
            decreases x_end - x,
        {
            let coords: Coords = (x, y);
            let ghost ch_pre = image.checked_pixels@;
            proof {
                crate::s7_image::lemma_pix_idx_in_range(w, h, x as int, y as int);
            }
            if image.pixel_is_checked(coords) {
                proof {
                    assert(spec_scan(
                        colors, w, h, ch_pre, x_start as int, x_end as int, y_start as int,
                        y_end as int, ig, x as int, y as int,
                    ) == spec_scan(
                        colors, w, h, ch_pre, x_start as int, x_end as int, y_start as int,
                        y_end as int, ig, x as int + 1, y as int,
                    ));
                }
            } else {
                image.set_pixel_is_checked(coords, true);
                let ghost ch1 = image.checked_pixels@;
                proof {
                    lemma_count_update(ch_pre, pix_idx(w, x as int, y as int));
                }
                if is_edge_pixel(image, coords) {
                    let skip_this = match ignore_color_pix {
                        Option::Some(cmp_coords) => image.compare_pixels(coords, cmp_coords),
                        Option::None => false,
                    };
                    if skip_this {
                        proof {
                            assert(ignore_matches(colors, w, ig, (x as int, y as int)));
                        }
                    } else {
                        proof {
                            assert(!ignore_matches(colors, w, ig, (x as int, y as int)));
                        }
                        let (object, bounds) = get_object(image, coords);
                        let ghost pathres = spec_path(colors, w, h, ch1, (x as int, y as int));
                        let ghost pts = pathres.0;
                        let ghost ch2 = pathres.1;
                        let ghost b = bbox(pts);
                        let ghost objs_before = objects@;
                        let ghost obj_view = object@;
                        objects.push(object);
                        let ((bmin_x, bmax_y), (bmax_x, bmin_y)) = bounds;
                        proof {
                            lemma_path_mono(colors, w, h, ch1, (x as int, y as int));
                        }
                        let mut interior_paths = get_objects(
                            image,
                            bmin_x,
                            bmax_x,
                            bmin_y,
                            bmax_y,
                            Some(coords),
                        );
                        let ghost subres = spec_scan(
                            colors, w, h, ch2, b.0, b.2, b.1, b.3,
                            Option::Some((x as int, y as int)), b.0, b.1,
                        );
                        let ghost interior_view = interior_paths@;
                        objects.append(&mut interior_paths);
                        proof {
                            lemma_scan_mono(
                                colors, w, h, ch2, b.0, b.2, b.1, b.3,
                                Option::Some((x as int, y as int)), b.0, b.1,
                            );
                            assert(settle(subres.1, ch2) == subres.1);
                            let this_trace = PathTrace {
                                color: colors[pix_idx(w, x as int, y as int)],
                                points: pts,
                            };
                            let new_done = done + seq![this_trace] + subres.0;
                            assert(obj_view == path_trace_view(this_trace));
                            assert(objects@ =~= objs_before.push(object) + interior_view);
                            assert(objs_before.map_values(|o: Object| o@).len() == done.map_values(
                                |pt: PathTrace| path_trace_view(pt),
                            ).len());
                            assert(objs_before.len() == done.len());
                            assert(interior_view.map_values(|o: Object| o@).len()
                                == subres.0.map_values(|pt: PathTrace| path_trace_view(pt)).len());
                            assert(interior_view.len() == subres.0.len());
                            assert(objects@.len() == new_done.len());
                            assert forall|i: int|
                                0 <= i < objects@.len() implies (#[trigger] objects@[i])@
                                == path_trace_view(new_done[i]) by {
                                let dl = objs_before.len() as int;
                                if i < dl {
                                    assert(objects@[i] == objs_before[i]);
                                    assert(objs_before.map_values(|o: Object| o@)[i]
                                        == done.map_values(
                                        |pt: PathTrace| path_trace_view(pt),
                                    )[i]);
                                    assert(new_done[i] == done[i]);
                                } else if i == dl {
                                    assert(objects@[i] == object);
                                    assert(new_done[i] == this_trace);
                                } else {
                                    assert(objects@[i] == interior_view[i - dl - 1]);
                                    assert(interior_view.map_values(|o: Object| o@)[i - dl - 1]
                                        == subres.0.map_values(
                                        |pt: PathTrace| path_trace_view(pt),
                                    )[i - dl - 1]);
                                    assert(new_done[i] == subres.0[i - dl - 1]);
                                }
                            }
                            assert(objects@.map_values(|o: Object| o@) =~= new_done.map_values(
                                |pt: PathTrace| path_trace_view(pt),
                            ));
                            assert(spec_scan(
                                colors, w, h, ch_pre, x_start as int, x_end as int,
                                y_start as int, y_end as int, ig, x as int, y as int,
                            ).0 == seq![this_trace] + subres.0 + spec_scan(
                                colors, w, h, subres.1, x_start as int, x_end as int,
                                y_start as int, y_end as int, ig, x as int + 1, y as int,
                            ).0);
                            assert(done + (seq![this_trace] + subres.0 + spec_scan(
                                colors, w, h, subres.1, x_start as int, x_end as int,
                                y_start as int, y_end as int, ig, x as int + 1, y as int,
                            ).0) =~= new_done + spec_scan(
                                colors, w, h, subres.1, x_start as int, x_end as int,
                                y_start as int, y_end as int, ig, x as int + 1, y as int,
                            ).0);
                            done = new_done;
                        }
                    }
                } else {
                    proof {
                        assert(!spec_is_edge(colors, w, h, (x as int, y as int)));
                    }
                }
            }
            x = x + 1;
        }
        proof {
            assert(spec_scan(
                colors, w, h, image.checked_pixels@, x_start as int, x_end as int,
                y_start as int, y_end as int, ig, x as int, y as int,
            ) == spec_scan(
                colors, w, h, image.checked_pixels@, x_start as int, x_end as int,
                y_start as int, y_end as int, ig, x_start as int, y as int + 1,
            ));
        }
        y = y + 1;
    }
    proof {
        let (cpaths, cchf) = spec_scan(
            colors, w, h, image.checked_pixels@, x_start as int, x_end as int, y_start as int,
            y_end as int, ig, x_start as int, y as int,
        );
        assert(cpaths == Seq::<PathTrace>::empty() && cchf == image.checked_pixels@);
        assert(target.0 =~= done);
        assert(target.0.map_values(|pt: PathTrace| path_trace_view(pt)) == done.map_values(|pt: PathTrace| path_trace_view(pt)));
    }
    objects
}

/// Traces a whole image into a document: one data chunk holding the traced
/// paths in discovery order, under a header carrying the image size and the
/// given creation date in unix seconds.
pub fn encode(image: Image, creation_date: Option<u64>) -> (r: Entity)
    requires
        image.wf(),
    ensures
        r@.version == seq!['1', '.', '0', '.', '0'],
        r@.header_chunk.width == image.width,
        r@.header_chunk.height == image.height,
        r@.header_chunk.creation_date == creation_date,
        r@.header_chunk.other_attributes == Seq::<crate::entity::AttrView>::empty(),
        r@.other_chunks == Seq::<crate::entity::ChunkView>::empty(),
        r@.data_chunks == seq![
            spec_trace(
                image.pixels@,
                image.width as int,
                image.height as int,
                image.checked_pixels@,
            ).map_values(|pt: PathTrace| path_trace_view(pt)),
        ],
{
    let width = image.width;
    let height = image.height;
    let mut img = image;
    let objects = get_objects(&mut img, 0, width, 0, height, None);
    let ghost object_views = objects@.map_values(|o: Object| o@);
    let data_chunk = DataChunk { objects };
    let header_chunk = HeaderChunk {
        creation_date,
        width,
        height,
        other_attributes: Vec::new(),
    };
    let version: String = "1.0.0".to_owned();
    proof {
        reveal_strlit("1.0.0");
        assert(version@ =~= seq!['1', '.', '0', '.', '0']);
    }
    let mut data_chunks: Vec<DataChunk> = Vec::new();
    data_chunks.push(data_chunk);
    let entity = Entity {
        version,
        header_chunk,
        data_chunks,
        other_chunks: Vec::new(),
    };
    proof {
        assert(entity@.data_chunks =~= seq![object_views]);
        assert(entity@.header_chunk.other_attributes =~= Seq::<crate::entity::AttrView>::empty());
        assert(entity@.other_chunks =~= Seq::<crate::entity::ChunkView>::empty());
    }
    entity
}

} // verus!
