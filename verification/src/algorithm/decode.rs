//! The renderer: draws a document's paths back onto a raster canvas.
//!
//! Every path is filled with its own color over a white canvas, in document
//! order, so a later path wins where paths overlap. A single-vertex path
//! marks one pixel; any other path is treated as a closed polygon (with a
//! duplicated closing vertex dropped first) and filled by the even-odd
//! rule, boundary included.

use crate::entity::{Entity, Object, ObjectView, PathObject, PathView};
use crate::s7_image::Rgb;
use crate::utils::{blank_image, white, Raster};
use vstd::prelude::*;

verus! {

/// The vertex list a path is rendered with: a duplicated closing vertex is
/// dropped first.
pub open spec fn render_points(pts: Seq<(u16, u16)>) -> Seq<(u16, u16)> {
    if pts.len() > 1 && pts[0] == pts.last() {
        pts.drop_first()
    } else {
        pts
    }
}

/// Whether `p` lies on the closed segment from `a` to `b`.
pub open spec fn on_segment(a: (u16, u16), b: (u16, u16), p: (int, int)) -> bool {
    let cross = (b.0 - a.0) * (p.1 - a.1) - (b.1 - a.1) * (p.0 - a.0);
    &&& cross == 0
    &&& (if a.0 <= b.0 { a.0 <= p.0 <= b.0 } else { b.0 <= p.0 <= a.0 })
    &&& (if a.1 <= b.1 { a.1 <= p.1 <= b.1 } else { b.1 <= p.1 <= a.1 })
}

/// The vertex after vertex `i`, wrapping around to close the polygon.
pub open spec fn next_vertex(pts: Seq<(u16, u16)>, i: int) -> (u16, u16) {
    if i + 1 == pts.len() {
        pts[0]
    } else {
        pts[i + 1]
    }
}

/// Whether `p` lies on edge `i` of the polygon.
pub open spec fn on_edge_at(pts: Seq<(u16, u16)>, p: (int, int), i: int) -> bool {
    on_segment(pts[i], next_vertex(pts, i), p)
}

/// Whether `p` lies on some edge of the polygon.
pub open spec fn on_boundary(pts: Seq<(u16, u16)>, p: (int, int)) -> bool {
    exists|i: int| 0 <= i < pts.len() && #[trigger] on_edge_at(pts, p, i)
}

/// Whether the horizontal ray from `p` towards positive x crosses edge `i`:
/// the edge spans the scanline of `p` half-open in y, and its crossing
/// point lies strictly to the right of `p`.
pub open spec fn ray_crosses(pts: Seq<(u16, u16)>, p: (int, int), i: int) -> bool {
    let a = pts[i];
    let b = next_vertex(pts, i);
    let dy = b.1 - a.1;
    let side = (a.0 - p.0) * dy + (p.1 - a.1) * (b.0 - a.0);
    &&& ((a.1 <= p.1 < b.1) || (b.1 <= p.1 < a.1))
    &&& (if dy > 0 { side > 0 } else { side < 0 })
}

/// How many of the edges from `i` on are crossed by the ray from `p`.
pub open spec fn crossings_from(pts: Seq<(u16, u16)>, p: (int, int), i: int) -> nat
    decreases pts.len() - i,
{
    if i < 0 || i >= pts.len() {
        0
    } else {
        (if ray_crosses(pts, p, i) { 1nat } else { 0nat }) + crossings_from(pts, p, i + 1)
    }
}

/// The even-odd fill, boundary included: `p` is covered when it lies on an
/// edge or the ray from it crosses the polygon's edges an odd number of
/// times.
pub open spec fn inside_poly(pts: Seq<(u16, u16)>, p: (int, int)) -> bool {
    on_boundary(pts, p) || crossings_from(pts, p, 0) % 2 == 1
}

/// Whether rendering the path paints the pixel `p`.
pub open spec fn covers(pv: PathView, p: (int, int)) -> bool {
    let rp = render_points(pv.points);
    if rp.len() == 1 {
        (rp[0].0 as int, rp[0].1 as int) == p
    } else {
        inside_poly(rp, p)
    }
}

/// The color of one canvas pixel after the objects are drawn in order over
/// a white canvas: the last object covering it wins.
pub open spec fn pixel_color(objs: Seq<ObjectView>, p: (int, int)) -> Rgb
    decreases objs.len(),
{
    if objs.len() == 0 {
        white()
    } else {
        match objs.last() {
            ObjectView::Path(pv) => if covers(pv, p) {
                Rgb(pv.color.0, pv.color.1, pv.color.2)
            } else {
                pixel_color(objs.drop_last(), p)
            },
        }
    }
}

/// The color the renderer assigns to pixel `p` of the entity's canvas.
pub open spec fn spec_render_pixel(e: crate::entity::EntityView, p: (int, int)) -> Rgb {
    pixel_color(e.data_chunks.flatten(), p)
}

/// A document whose only object is a single-vertex path renders as exactly
/// that one pixel in the path's color, with every other pixel left at the
/// white background.
pub proof fn lemma_render_single_point(e: crate::entity::EntityView, pv: PathView)
    requires
        e.data_chunks == seq![seq![ObjectView::Path(pv)]],
        pv.points.len() == 1,
    ensures
        forall|x: int, y: int|
            #![trigger spec_render_pixel(e, (x, y))]
            spec_render_pixel(e, (x, y)) == (if x == pv.points[0].0 as int && y == pv.points[0].1
                as int {
                Rgb(pv.color.0, pv.color.1, pv.color.2)
            } else {
                white()
            }),
{
    let objs = seq![ObjectView::Path(pv)];
    assert(e.data_chunks.flatten() =~= objs) by {
        assert(e.data_chunks.drop_first() =~= Seq::<Seq<ObjectView>>::empty());
        assert(e.data_chunks.first() =~= objs);
        assert(e.data_chunks.flatten() == e.data_chunks.first() + e.data_chunks.drop_first()
            .flatten());
        assert(objs + Seq::<ObjectView>::empty() =~= objs);
    }
    assert forall|x: int, y: int|
        spec_render_pixel(e, (x, y)) == (if x == pv.points[0].0 as int && y == pv.points[0].1
            as int {
            Rgb(pv.color.0, pv.color.1, pv.color.2)
        } else {
            white()
        }) by {
        assert(objs.last() == ObjectView::Path(pv));
        let rp = render_points(pv.points);
        assert(rp == pv.points);
        assert(rp.len() == 1);
        assert(objs.drop_last() =~= Seq::<ObjectView>::empty());
        assert(covers(pv, (x, y)) == ((rp[0].0 as int, rp[0].1 as int) == (x, y)));
        assert(pixel_color(Seq::<ObjectView>::empty(), (x, y)) == white());
    }
}

/// Whether `p` lies on the closed segment from `a` to `b`, computed with
/// machine integers.
fn on_segment_exec(a: (u16, u16), b: (u16, u16), px: u16, py: u16) -> (r: bool)
    ensures
        r == on_segment(a, b, (px as int, py as int)),
{
    let dx: i64 = b.0 as i64 - a.0 as i64;
    let dy: i64 = b.1 as i64 - a.1 as i64;
    let tx: i64 = px as i64 - a.0 as i64;
    let ty: i64 = py as i64 - a.1 as i64;
    proof {
        assert(-0x100000000 <= dx * ty <= 0x100000000 && -0x100000000 <= dy * tx
            <= 0x100000000) by (nonlinear_arith)
            requires
                -0x10000 <= dx <= 0x10000,
                -0x10000 <= dy <= 0x10000,
                -0x10000 <= tx <= 0x10000,
                -0x10000 <= ty <= 0x10000,
        ;
    }
    let cross: i64 = dx * ty - dy * tx;
    let x_ok = if a.0 <= b.0 {
        a.0 <= px && px <= b.0
    } else {
        b.0 <= px && px <= a.0
    };
    let y_ok = if a.1 <= b.1 {
        a.1 <= py && py <= b.1
    } else {
        b.1 <= py && py <= a.1
    };
    cross == 0 && x_ok && y_ok
}

/// Whether the ray from `p` crosses edge `(a, b)`, computed with machine
/// integers.
fn ray_crosses_exec(a: (u16, u16), b: (u16, u16), px: u16, py: u16) -> (r: bool)
    ensures
        r == ({
            let dy = b.1 - a.1;
            let side = (a.0 - px) * dy + (py - a.1) * (b.0 - a.0);
            &&& ((a.1 <= py < b.1) || (b.1 <= py < a.1))
            &&& (if dy > 0 { side > 0 } else { side < 0 })
        }),
{
    let dy: i64 = b.1 as i64 - a.1 as i64;
    let dx: i64 = b.0 as i64 - a.0 as i64;
    let sx: i64 = a.0 as i64 - px as i64;
    let ty: i64 = py as i64 - a.1 as i64;
    proof {
        assert(-0x100000000 <= sx * dy <= 0x100000000 && -0x100000000 <= ty * dx
            <= 0x100000000) by (nonlinear_arith)
            requires
                -0x10000 <= sx <= 0x10000,
                -0x10000 <= dy <= 0x10000,
                -0x10000 <= ty <= 0x10000,
                -0x10000 <= dx <= 0x10000,
        ;
    }
    let side: i64 = sx * dy + ty * dx;
    let spans = (a.1 <= py && py < b.1) || (b.1 <= py && py < a.1);
    let right = if dy > 0 {
        side > 0
    } else {
        side < 0
    };
    spans && right
}

/// Whether pixel `(px, py)` is covered by the polygon with vertex list
/// `pts`, by the even-odd rule with the boundary included.
fn point_in_polygon(pts: &Vec<(u16, u16)>, px: u16, py: u16) -> (r: bool)
    ensures
        r == inside_poly(pts@, (px as int, py as int)),
{
    let ghost p = (px as int, py as int);
    let n: usize = pts.len();
    let mut boundary = false;
    let mut count: u64 = 0;
    let mut i: usize = 0;
    while i < n
        invariant
            i <= n == pts@.len(),
            p == (px as int, py as int),
            boundary == exists|j: int| 0 <= j < i && #[trigger] on_edge_at(pts@, p, j),
            count + crossings_from(pts@, p, i as int) == crossings_from(pts@, p, 0),
            count <= i,
        decreases n - i,
    {
        let a = pts[i];
        let b = if i + 1 == n {
            pts[0]
        } else {
            pts[i + 1]
        };
        proof {
            assert(b == next_vertex(pts@, i as int));
        }
        if on_segment_exec(a, b, px, py) {
            proof {
                assert(on_edge_at(pts@, p, i as int));
            }
            boundary = true;
        }
        if ray_crosses_exec(a, b, px, py) {
            proof {
                assert(ray_crosses(pts@, p, i as int));
            }
            count = count + 1;
        } else {
            proof {
                assert(!ray_crosses(pts@, p, i as int));
            }
        }
        i = i + 1;
    }
    proof {
        assert(crossings_from(pts@, p, n as int) == 0);
    }
    boundary || count % 2 == 1
}

/// Paints every canvas pixel the path covers with the path's color.
fn draw_object(canvas: &mut Raster, path: &PathObject)
    requires
        old(canvas).wf(),
    ensures
        final(canvas).wf(),
        final(canvas).width == old(canvas).width,
        final(canvas).height == old(canvas).height,
        forall|x: int, y: int|
            0 <= x < old(canvas).width && 0 <= y < old(canvas).height
                ==> final(canvas).spec_pixel(x, y) == (if covers(path@, (x, y)) {
                Rgb(path@.color.0, path@.color.1, path@.color.2)
            } else {
                old(canvas).spec_pixel(x, y)
            }),
{
    let ghost pv = path@;
    let color = Rgb(path.color[0], path.color[1], path.color[2]);
    proof {
        assert(color == Rgb(pv.color.0, pv.color.1, pv.color.2));
    }
    let n: usize = path.points.len();
    let from: usize = if n > 1 && path.points[0][0] == path.points[n - 1][0]
        && path.points[0][1] == path.points[n - 1][1] {
        1
    } else {
        0
    };
    proof {
        if n > 1 {
            assert(pv.points[0] == (path.points@[0]@[0], path.points@[0]@[1]));
            assert(pv.points.last() == (path.points@[n - 1]@[0], path.points@[n - 1]@[1]));
        }
    }
    let mut rp: Vec<(u16, u16)> = Vec::new();
    let mut i: usize = from;
    while i < n
        invariant
            from <= i <= n == path.points@.len(),
            pv == path@,
            rp@ == pv.points.subrange(from as int, i as int),
        decreases n - i,
    {
        let q = path.points[i];
        rp.push((q[0], q[1]));
        proof {
            let qv = path.points@[i as int]@;
            assert(pv.points[i as int] == (qv[0], qv[1]));
            assert(pv.points.subrange(from as int, i + 1) =~= pv.points.subrange(
                from as int,
                i as int,
            ).push(pv.points[i as int]));
        }
        i = i + 1;
    }
    proof {
        assert(rp@ =~= render_points(pv.points));
    }
    if rp.len() == 0 {
        // An empty vertex list covers nothing.
    } else if rp.len() == 1 {
        let (x, y) = rp[0];
        if x < canvas.width && y < canvas.height {
            canvas.set_pixel(x, y, color);
        }
    } else {
        let w: u16 = canvas.width;
        let h: u16 = canvas.height;
        let mut y: u16 = 0;
        while y < h
            invariant
                y <= h,
                canvas.wf(),
                canvas.width == w == old(canvas).width,
                canvas.height == h == old(canvas).height,
                rp@ == render_points(pv.points),
                rp@.len() > 1,
                forall|i2: int, j2: int|
                    0 <= i2 < w && 0 <= j2 < h ==> canvas.spec_pixel(i2, j2) == (if j2 < y
                        && inside_poly(rp@, (i2, j2)) {
                        color
                    } else {
                        old(canvas).spec_pixel(i2, j2)
                    }),
            decreases h - y,
        {
            let mut x: u16 = 0;
            while x < w
                invariant
                    x <= w,
                    y < h,
                    canvas.wf(),
                    canvas.width == w == old(canvas).width,
                    canvas.height == h == old(canvas).height,
                    rp@ == render_points(pv.points),
                    rp@.len() > 1,
                    forall|i2: int, j2: int|
                        0 <= i2 < w && 0 <= j2 < h ==> canvas.spec_pixel(i2, j2) == (if (j2 < y
                            || (j2 == y && i2 < x)) && inside_poly(rp@, (i2, j2)) {
                            color
                        } else {
                            old(canvas).spec_pixel(i2, j2)
                        }),
                decreases w - x,
            {
                if point_in_polygon(&rp, x, y) {
                    canvas.set_pixel(x, y, color);
                }
                x = x + 1;
            }
            y = y + 1;
        }
        proof {
            assert forall|x2: int, y2: int|
                0 <= x2 < old(canvas).width && 0 <= y2 < old(canvas).height implies canvas
                .spec_pixel(x2, y2) == (if covers(pv, (x2, y2)) {
                Rgb(pv.color.0, pv.color.1, pv.color.2)
            } else {
                old(canvas).spec_pixel(x2, y2)
            }) by {
                assert(covers(pv, (x2, y2)) == inside_poly(rp@, (x2, y2)));
            }
        }
    }
}

/// Renders a document onto a fresh canvas of its header's size: a white
/// background, then every path of every data chunk in order, so that the
/// last path covering a pixel gives it its color.
pub fn decode(entity: &Entity) -> (r: Raster)
    ensures
        r.wf(),
        r.width == entity@.header_chunk.width,
        r.height == entity@.header_chunk.height,
        forall|x: int, y: int|
            0 <= x < r.width && 0 <= y < r.height ==> r.spec_pixel(x, y) == spec_render_pixel(
                entity@,
                (x, y),
            ),
{
    let ghost e = entity@;
    let mut image = blank_image(entity.header_chunk.width, entity.header_chunk.height);
    let ghost mut processed: Seq<ObjectView> = Seq::empty();
    let nc: usize = entity.data_chunks.len();
    let mut ci: usize = 0;
    proof {
        assert(e.data_chunks.take(0) =~= Seq::<Seq<ObjectView>>::empty());
    }
    while ci < nc
        invariant
            ci <= nc == entity.data_chunks@.len(),
            e == entity@,
            image.wf(),
            image.width == e.header_chunk.width,
            image.height == e.header_chunk.height,
            processed == e.data_chunks.take(ci as int).flatten(),
            forall|x: int, y: int|
                0 <= x < image.width && 0 <= y < image.height ==> image.spec_pixel(x, y)
                    == pixel_color(processed, (x, y)),
        decreases nc - ci,
    {
        let no: usize = entity.data_chunks[ci].objects.len();
        let mut oi: usize = 0;
        while oi < no
            invariant
                oi <= no == entity.data_chunks@[ci as int].objects@.len(),
                ci < nc == entity.data_chunks@.len(),
                e == entity@,
                image.wf(),
                image.width == e.header_chunk.width,
                image.height == e.header_chunk.height,
                processed == e.data_chunks.take(ci as int).flatten() + e.data_chunks[
                    ci as int
                ].take(oi as int),
                forall|x: int, y: int|
                    0 <= x < image.width && 0 <= y < image.height ==> image.spec_pixel(x, y)
                        == pixel_color(processed, (x, y)),
            decreases no - oi,
        {
            let ghost before = processed;
            match &entity.data_chunks[ci].objects[oi] {
                Object::Path(path) => {
                    let ghost ov = ObjectView::Path(path@);
                    proof {
                        let dcv = entity.data_chunks@[ci as int];
                        assert(e.data_chunks[ci as int][oi as int] == dcv.objects@[oi as int]@);
                        assert(e.data_chunks[ci as int][oi as int] == ov);
                    }
                    draw_object(&mut image, path);
                    proof {
                        processed = before.push(ov);
                        assert(processed.drop_last() =~= before);
                        let dc = e.data_chunks[ci as int];
                        assert(dc.take(oi + 1) =~= dc.take(oi as int).push(ov));
                        assert(e.data_chunks.take(ci as int).flatten() + dc.take(oi + 1)
                            =~= processed);
                    }
                },
            }
            oi = oi + 1;
        }
        proof {
            let pre = e.data_chunks.take(ci as int);
            pre.lemma_flatten_push(e.data_chunks[ci as int]);
            assert(e.data_chunks[ci as int].take(no as int) =~= e.data_chunks[ci as int]);
            assert(pre.push(e.data_chunks[ci as int]) =~= e.data_chunks.take(ci + 1));
            assert(e.data_chunks.take(ci + 1).flatten() =~= processed);
        }
        ci = ci + 1;
    }
    proof {
        assert(e.data_chunks.take(nc as int) =~= e.data_chunks);
    }
    image
}

} // verus!
