//! Painting: walking the cached arrangement and emitting a display list.
//!
//! The core decides when and where drawing happens; the embedder rasterizes
//! the emitted commands. Every paint pass appends exactly the display-list
//! segment its specification describes, and the segment's painter state
//! saves and restores balance out.

use vstd::prelude::*;
use crate::geometry::{Vec2, Geometry, geom_sane, geom_ok, MAX_DESIRED, MAX_SIZE, TREE_CAP,
    SIZE_UNIT, POS_UNIT};
use crate::layout::{spec_axis_of, spec_cross_of, spec_create_vec};
use crate::scroll_bar::{SCROLL_DEN, ScrollBarWidgetState, scrollbar_wf, spec_handle_size};
use crate::widget::{
    WidgetTree, WidgetState, WidgetKind, WidgetArrangement, WidgetId, tree_wf, node_wf,
};
use crate::arrange::spec_scroll_viewport;

verus! {

/// One drawing command of the display list the embedder rasterizes.
#[derive(Clone, Copy, PartialEq, Eq, Structural, Debug)]
pub enum PaintCmd {
    /// Save the painter state.
    Save,
    /// Restore the painter state saved last.
    Restore,
    /// Translate subsequent drawing by an offset.
    Translate(Vec2),
    /// Clip subsequent drawing to the rectangle from the origin to `size`.
    ClipRect(Vec2),
    /// Clear the whole canvas.
    Clear,
    /// Fill the rectangle at `pos` of extent `size`.
    Rect { pos: Vec2, size: Vec2 },
}

/// Number of `Save` commands in a display list.
pub open spec fn count_saves(s: Seq<PaintCmd>) -> int
    decreases s.len(),
{
    if s.len() == 0 {
        0
    } else {
        count_saves(s.drop_last()) + if s.last() is Save { 1int } else { 0 }
    }
}

/// Number of `Restore` commands in a display list.
pub open spec fn count_restores(s: Seq<PaintCmd>) -> int
    decreases s.len(),
{
    if s.len() == 0 {
        0
    } else {
        count_restores(s.drop_last()) + if s.last() is Restore { 1int } else { 0 }
    }
}

/// A layer advance: one step up, stopping at the top of the counter.
pub open spec fn spec_layer_inc(layer: int) -> int {
    if layer < i64::MAX { layer + 1 } else { layer }
}

/// The layer counter returned by painting the widget `id` starting at
/// `layer`: a leaf advances it once for its own content; a container paints
/// each cached child at the counter the previous child's subtree returned
/// and returns the counter after all descendants, so sibling subtrees get
/// disjoint layer ids; a window returns whatever painting its content from
/// layer zero returns.
pub open spec fn spec_paint_layer(t: Seq<WidgetState>, id: int, layer: int) -> int
    decreases id, 1int, 0int,
{
    if id < 0 || id >= t.len() {
        layer
    } else {
        match t[id].kind {
            WidgetKind::TestWidget(_) => spec_layer_inc(layer),
            WidgetKind::ScrollBar(_) => spec_layer_inc(layer),
            WidgetKind::Window(s) => match s.content {
                Some(c) => if 0 <= c < id {
                    spec_paint_layer(t, c as int, 0)
                } else {
                    layer
                },
                None => layer,
            },
            _ => spec_paint_layer_children(
                t, id, t[id].arranged@, t[id].arranged@.len() as int, layer),
        }
    }
}

/// The layer counter after painting the first `n` cached children of the
/// widget `id`, threading it through each child's whole subtree.
pub open spec fn spec_paint_layer_children(
    t: Seq<WidgetState>,
    id: int,
    arr: Seq<WidgetArrangement>,
    n: int,
    layer: int,
) -> int
    decreases id, 0int, n,
{
    if n <= 0 {
        layer
    } else {
        let prev = spec_paint_layer_children(t, id, arr, n - 1, layer);
        let a = arr[n - 1];
        if 0 <= a.widget < id {
            spec_paint_layer(t, a.widget as int, prev)
        } else {
            prev
        }
    }
}

/// What a container clips its children to: nothing, every child to one
/// rectangle (overlay panels clip to their own bounds), or a single child
/// to one rectangle (scroll panels clip their content to the viewport).
pub enum PaintClip {
    NoClip,
    ClipAll(Vec2),
    ClipOne(WidgetId, Vec2),
}

/// The clip rectangle a container gives the child `w`, if any.
pub open spec fn spec_clip_of(clip: PaintClip, w: WidgetId) -> Option<Vec2> {
    match clip {
        PaintClip::NoClip => None,
        PaintClip::ClipAll(size) => Some(size),
        PaintClip::ClipOne(c, size) => if w == c {
            Some(size)
        } else {
            None
        },
    }
}

/// The commands a scrollbar draws: its tray over the whole strip, then —
/// unless the range plus handle is empty — the handle, placed and sized by
/// the value's share of the range scaled to the strip.
pub open spec fn spec_scrollbar_cmds(sb: ScrollBarWidgetState, g: Geometry) -> Seq<PaintCmd> {
    let tray = seq![PaintCmd::Rect { pos: Vec2 { x: 0, y: 0 }, size: g.local_size }];
    let handle = spec_handle_size(sb.handle_size, sb.range_start as int, sb.range_end as int);
    let length = sb.range_end - sb.range_start;
    let denom = length + handle;
    if denom > 0 {
        let scrolled = length * sb.value / (SCROLL_DEN as int);
        let sd = spec_axis_of(sb.direction, g.local_size) as int;
        let si = spec_cross_of(sb.direction, g.local_size);
        let tl = scrolled * sd / denom;
        let br = (scrolled + handle) * sd / denom;
        tray + seq![
            PaintCmd::Rect {
                pos: spec_create_vec(sb.direction, tl as i64, 0),
                size: spec_create_vec(
                    sb.direction,
                    if br >= tl { (br - tl) as i64 } else { 0 },
                    si,
                ),
            },
        ]
    } else {
        tray
    }
}

/// The commands painting the first `n` cached children of the widget `id`
/// emits: per child, save the painter state, apply the container's clip if
/// any, translate to the child's local position, paint the child, restore.
pub open spec fn spec_paint_children(
    t: Seq<WidgetState>,
    id: int,
    arr: Seq<WidgetArrangement>,
    n: int,
    clip: PaintClip,
) -> Seq<PaintCmd>
    decreases id, 0int, n,
{
    if n <= 0 {
        Seq::empty()
    } else {
        let a = arr[n - 1];
        spec_paint_children(t, id, arr, n - 1, clip)
            + seq![PaintCmd::Save]
            + (match spec_clip_of(clip, a.widget) {
                Some(size) => seq![PaintCmd::ClipRect(size)],
                None => Seq::<PaintCmd>::empty(),
            })
            + seq![PaintCmd::Translate(a.geometry.local_pos)]
            + (if 0 <= a.widget < id {
                spec_paint_cmds(t, a.widget as int, a.geometry)
            } else {
                Seq::<PaintCmd>::empty()
            })
            + seq![PaintCmd::Restore]
    }
}

/// The display list painting the widget `id` with geometry `g` emits. A
/// leaf fills its rectangle; a scrollbar draws tray and handle; a window
/// paints its content; a box or linear panel paints its cached children
/// unclipped; an overlay panel clips every child to its own bounds; a
/// scroll panel clips the content to the viewport and draws the scrollbars
/// unclipped on top.
pub open spec fn spec_paint_cmds(t: Seq<WidgetState>, id: int, g: Geometry) -> Seq<PaintCmd>
    decreases id, 1int, 0int,
{
    if id < 0 || id >= t.len() {
        Seq::empty()
    } else {
        match t[id].kind {
            WidgetKind::TestWidget(_) => seq![
                PaintCmd::Rect { pos: Vec2 { x: 0, y: 0 }, size: g.local_size },
            ],
            WidgetKind::ScrollBar(sb) => spec_scrollbar_cmds(sb, g),
            WidgetKind::Window(s) => match s.content {
                Some(c) => if 0 <= c < id {
                    spec_paint_cmds(t, c as int, g)
                } else {
                    Seq::empty()
                },
                None => Seq::empty(),
            },
            WidgetKind::ScrollPanel(s) => {
                let vp = spec_scroll_viewport(t, id, g);
                let clip = match s.content {
                    Some(c) => PaintClip::ClipOne(c, Vec2 { x: vp.0 as i64, y: vp.1 as i64 }),
                    None => PaintClip::NoClip,
                };
                spec_paint_children(t, id, t[id].arranged@, t[id].arranged@.len() as int, clip)
            },
            WidgetKind::OverlayPanel(_) => spec_paint_children(
                t, id, t[id].arranged@, t[id].arranged@.len() as int,
                PaintClip::ClipAll(g.local_size),
            ),
            _ => spec_paint_children(
                t, id, t[id].arranged@, t[id].arranged@.len() as int, PaintClip::NoClip,
            ),
        }
    }
}

impl WidgetTree {
    /// Paints the widget `id` with the geometry it stands at, appending
    /// exactly the display list [`spec_paint_cmds`] describes and returning
    /// the layer counter after all descendants ([`spec_paint_layer`]): each
    /// child is painted at the counter the previous child's subtree
    /// returned, so sibling subtrees get disjoint layer ids. The appended
    /// commands save and restore the painter state in balance.
    #[verifier::rlimit(100)]
    pub fn paint(&self, id: WidgetId, geometry: &Geometry, layer: i64, cmds: &mut Vec<PaintCmd>)
        -> (r: i64)
        requires
            tree_wf(*self),
            id < self.nodes@.len(),
            geom_sane(*geometry),
        ensures
            r == spec_paint_layer(self.nodes@, id as int, layer as int),
            final(cmds)@ == old(cmds)@ + spec_paint_cmds(
                self.nodes@, id as int, *geometry),
            old(cmds)@.len() <= final(cmds)@.len(),
            final(cmds)@.take(old(cmds)@.len() as int) == old(cmds)@,
            count_saves(final(cmds)@) - count_restores(final(cmds)@)
                == count_saves(old(cmds)@) - count_restores(old(cmds)@),
        decreases id,
    {
        proof {
            assert(node_wf(self.nodes@, id as int));
        }
        let ghost t = self.nodes@;
        let node = &self.nodes[id];
        match &node.kind {
            WidgetKind::TestWidget(_) => {
                let ghost pre = cmds@;
                cmds.push(PaintCmd::Rect { pos: Vec2 { x: 0, y: 0 }, size: geometry.local_size });
                proof {
                    lemma_counts_push(pre, cmds@);
                    assert(cmds@ =~= pre + spec_paint_cmds(t, id as int, *geometry));
                }
                sat_inc(layer)
            },
            WidgetKind::ScrollBar(sb) => {
                paint_scroll_bar(sb, geometry, cmds);
                proof {
                    assert(cmds@ =~= old(cmds)@ + spec_paint_cmds(t, id as int, *geometry));
                }
                sat_inc(layer)
            },
            WidgetKind::Window(s) => {
                match s.content {
                    Some(c) => self.paint(c, geometry, 0, cmds),
                    None => {
                        proof {
                            assert(cmds@ =~= old(cmds)@ + spec_paint_cmds(
                                t, id as int, *geometry));
                            assert(cmds@.take(old(cmds)@.len() as int) =~= old(cmds)@);
                        }
                        layer
                    },
                }
            },
            WidgetKind::ScrollPanel(s) => {
                // the viewport clips the content; scrollbars draw on top of
                // it, unclipped, in their reserved strips
                let mut vp_x = geometry.local_size.x;
                match s.vertical {
                    Some(v) => {
                        let bd = self.get_desired_size(v);
                        vp_x = vp_x - bd.x;
                    },
                    None => {},
                }
                if vp_x < 0 {
                    vp_x = 0;
                }
                let mut vp_y = geometry.local_size.y;
                match s.horizontal {
                    Some(h) => {
                        let bd = self.get_desired_size(h);
                        vp_y = vp_y - bd.y;
                    },
                    None => {},
                }
                if vp_y < 0 {
                    vp_y = 0;
                }
                let viewport = Vec2 { x: vp_x, y: vp_y };
                proof {
                    assert((vp_x as int, vp_y as int)
                        == spec_scroll_viewport(t, id as int, *geometry));
                }
                let ghost clip = match s.content {
                    Some(c) => PaintClip::ClipOne(c, viewport),
                    None => PaintClip::NoClip,
                };
                let mut layer_now = layer;
                let mut i: usize = 0;
                let ghost base = cmds@;
                proof {
                    assert(cmds@ =~= base + spec_paint_children(
                        t, id as int, node.arranged@, 0, clip));
                }
                while i < node.arranged.len()
                    invariant
                        tree_wf(*self),
                        t == self.nodes@,
                        id < t.len(),
                        node_wf(t, id as int),
                        node.arranged@ == t[id as int].arranged@,
                        match s.content {
                            Some(c) => clip == PaintClip::ClipOne(c, viewport),
                            None => clip == PaintClip::NoClip,
                        },
                        0 <= i <= node.arranged@.len(),
                        layer_now == spec_paint_layer_children(
                            t, id as int, node.arranged@, i as int, layer as int),
                        cmds@ == base + spec_paint_children(
                            t, id as int, node.arranged@, i as int, clip),
                        base.len() <= cmds@.len(),
                        count_saves(cmds@) - count_restores(cmds@)
                            == count_saves(base) - count_restores(base),
                    decreases node.arranged@.len() - i,
                {
                    let a = node.arranged[i];
                    proof {
                        assert(0 <= t[id as int].arranged@[i as int].widget < id
                            && geom_sane(t[id as int].arranged@[i as int].geometry));
                    }
                    let ghost pre = cmds@;
                    cmds.push(PaintCmd::Save);
                    let ghost p1 = cmds@;
                    let clip_this = match s.content {
                        Some(c) => c == a.widget,
                        None => false,
                    };
                    if clip_this {
                        cmds.push(PaintCmd::ClipRect(viewport));
                    }
                    let ghost p2 = cmds@;
                    cmds.push(PaintCmd::Translate(a.geometry.local_pos));
                    let ghost p3 = cmds@;
                    proof {
                        lemma_counts_push(pre, p1);
                        if clip_this {
                            lemma_counts_push(p1, p2);
                        }
                        lemma_counts_push(p2, p3);
                    }
                    layer_now = self.paint(a.widget, &a.geometry, layer_now, cmds);
                    let ghost p4 = cmds@;
                    cmds.push(PaintCmd::Restore);
                    proof {
                        lemma_counts_push(p4, cmds@);
                        let clipseq = match spec_clip_of(clip, a.widget) {
                            Some(size) => seq![PaintCmd::ClipRect(size)],
                            None => Seq::<PaintCmd>::empty(),
                        };
                        let childseq = spec_paint_cmds(t, a.widget as int, a.geometry);
                        assert(spec_paint_children(t, id as int, node.arranged@, i + 1, clip)
                            == spec_paint_children(t, id as int, node.arranged@, i as int, clip)
                                + seq![PaintCmd::Save] + clipseq
                                + seq![PaintCmd::Translate(a.geometry.local_pos)]
                                + childseq + seq![PaintCmd::Restore]);
                        assert(p2 =~= pre + seq![PaintCmd::Save] + clipseq);
                        assert(p3 =~= p2 + seq![PaintCmd::Translate(a.geometry.local_pos)]);
                        assert(cmds@ =~= p4 + seq![PaintCmd::Restore]);
                        assert(cmds@ =~= base + spec_paint_children(
                            t, id as int, node.arranged@, i + 1, clip));
                    }
                    i = i + 1;
                }
                proof {
                    assert(cmds@ == old(cmds)@ + spec_paint_cmds(t, id as int, *geometry));
                    assert(cmds@.take(old(cmds)@.len() as int) =~= old(cmds)@);
                }
                layer_now
            },
            WidgetKind::OverlayPanel(_) => {
                let ghost clip = PaintClip::ClipAll(geometry.local_size);
                let mut layer_now = layer;
                let mut i: usize = 0;
                let ghost base = cmds@;
                proof {
                    assert(cmds@ =~= base + spec_paint_children(
                        t, id as int, node.arranged@, 0, clip));
                }
                while i < node.arranged.len()
                    invariant
                        tree_wf(*self),
                        t == self.nodes@,
                        id < t.len(),
                        node_wf(t, id as int),
                        node.arranged@ == t[id as int].arranged@,
                        clip == PaintClip::ClipAll(geometry.local_size),
                        geom_sane(*geometry),
                        0 <= i <= node.arranged@.len(),
                        layer_now == spec_paint_layer_children(
                            t, id as int, node.arranged@, i as int, layer as int),
                        cmds@ == base + spec_paint_children(
                            t, id as int, node.arranged@, i as int, clip),
                        base.len() <= cmds@.len(),
                        count_saves(cmds@) - count_restores(cmds@)
                            == count_saves(base) - count_restores(base),
                    decreases node.arranged@.len() - i,
                {
                    let a = node.arranged[i];
                    proof {
                        assert(0 <= t[id as int].arranged@[i as int].widget < id
                            && geom_sane(t[id as int].arranged@[i as int].geometry));
                    }
                    let ghost pre = cmds@;
                    cmds.push(PaintCmd::Save);
                    let ghost p1 = cmds@;
                    cmds.push(PaintCmd::ClipRect(geometry.local_size));
                    let ghost p2 = cmds@;
                    cmds.push(PaintCmd::Translate(a.geometry.local_pos));
                    let ghost p3 = cmds@;
                    proof {
                        lemma_counts_push(pre, p1);
                        lemma_counts_push(p1, p2);
                        lemma_counts_push(p2, p3);
                    }
                    layer_now = self.paint(a.widget, &a.geometry, layer_now, cmds);
                    let ghost p4 = cmds@;
                    cmds.push(PaintCmd::Restore);
                    proof {
                        lemma_counts_push(p4, cmds@);
                        let clipseq = seq![PaintCmd::ClipRect(geometry.local_size)];
                        let childseq = spec_paint_cmds(t, a.widget as int, a.geometry);
                        assert(spec_clip_of(clip, a.widget)
                            == Some(geometry.local_size));
                        assert(spec_paint_children(t, id as int, node.arranged@, i + 1, clip)
                            == spec_paint_children(t, id as int, node.arranged@, i as int, clip)
                                + seq![PaintCmd::Save] + clipseq
                                + seq![PaintCmd::Translate(a.geometry.local_pos)]
                                + childseq + seq![PaintCmd::Restore]);
                        assert(p2 =~= pre + seq![PaintCmd::Save] + clipseq);
                        assert(p3 =~= p2 + seq![PaintCmd::Translate(a.geometry.local_pos)]);
                        assert(cmds@ =~= p4 + seq![PaintCmd::Restore]);
                        assert(cmds@ =~= base + spec_paint_children(
                            t, id as int, node.arranged@, i + 1, clip));
                    }
                    i = i + 1;
                }
                proof {
                    assert(cmds@ == old(cmds)@ + spec_paint_cmds(t, id as int, *geometry));
                    assert(cmds@.take(old(cmds)@.len() as int) =~= old(cmds)@);
                }
                layer_now
            },
            _ => {
                let mut layer_now = layer;
                let mut i: usize = 0;
                let ghost base = cmds@;
                proof {
                    assert(cmds@ =~= base + spec_paint_children(
                        t, id as int, node.arranged@, 0, PaintClip::NoClip));
                }
                while i < node.arranged.len()
                    invariant
                        tree_wf(*self),
                        t == self.nodes@,
                        id < t.len(),
                        node_wf(t, id as int),
                        node.arranged@ == t[id as int].arranged@,
                        0 <= i <= node.arranged@.len(),
                        layer_now == spec_paint_layer_children(
                            t, id as int, node.arranged@, i as int, layer as int),
                        cmds@ == base + spec_paint_children(
                            t, id as int, node.arranged@, i as int, PaintClip::NoClip),
                        base.len() <= cmds@.len(),
                        count_saves(cmds@) - count_restores(cmds@)
                            == count_saves(base) - count_restores(base),
                    decreases node.arranged@.len() - i,
                {
                    let a = node.arranged[i];
                    proof {
                        assert(0 <= t[id as int].arranged@[i as int].widget < id
                            && geom_sane(t[id as int].arranged@[i as int].geometry));
                    }
                    let ghost pre = cmds@;
                    cmds.push(PaintCmd::Save);
                    let ghost p1 = cmds@;
                    cmds.push(PaintCmd::Translate(a.geometry.local_pos));
                    let ghost p2 = cmds@;
                    proof {
                        lemma_counts_push(pre, p1);
                        lemma_counts_push(p1, p2);
                    }
                    layer_now = self.paint(a.widget, &a.geometry, layer_now, cmds);
                    let ghost p3 = cmds@;
                    cmds.push(PaintCmd::Restore);
                    proof {
                        lemma_counts_push(p3, cmds@);
                        let childseq = spec_paint_cmds(t, a.widget as int, a.geometry);
                        assert(spec_paint_children(
                            t, id as int, node.arranged@, i + 1, PaintClip::NoClip)
                            == spec_paint_children(
                                t, id as int, node.arranged@, i as int, PaintClip::NoClip)
                                + seq![PaintCmd::Save] + Seq::<PaintCmd>::empty()
                                + seq![PaintCmd::Translate(a.geometry.local_pos)]
                                + childseq + seq![PaintCmd::Restore]);
                        assert(p1 =~= pre + seq![PaintCmd::Save]);
                        assert(p2 =~= p1 + seq![PaintCmd::Translate(a.geometry.local_pos)]);
                        assert(cmds@ =~= p3 + seq![PaintCmd::Restore]);
                        assert(cmds@ =~= base + spec_paint_children(
                            t, id as int, node.arranged@, i + 1, PaintClip::NoClip));
                    }
                    i = i + 1;
                }
                proof {
                    assert(cmds@ == old(cmds)@ + spec_paint_cmds(t, id as int, *geometry));
                    assert(cmds@.take(old(cmds)@.len() as int) =~= old(cmds)@);
                }
                layer_now
            },
        }
    }

    /// Draws a whole frame for the window widget `root` at `size`: clears
    /// the canvas, arranges the tree at the full size, and paints it,
    /// emitting exactly a clear, then the painted frame inside one
    /// save/restore bracket.
    pub fn draw(&mut self, root: WidgetId, size: Vec2, cmds: &mut Vec<PaintCmd>) -> (r: i64)
        requires
            tree_wf(*old(self)),
            root < old(self).nodes@.len(),
            0 <= size.x <= MAX_DESIRED,
            0 <= size.y <= MAX_DESIRED,
        ensures
            tree_wf(*final(self)),
            final(self).nodes@.len() == old(self).nodes@.len(),
            final(self).dispatched == old(self).dispatched,
            forall|i: int| 0 <= i < old(self).nodes@.len()
                ==> crate::arrange::arrange_keeps(
                    #[trigger] old(self).nodes@[i], final(self).nodes@[i]),
            final(self).nodes@[root as int].arranged@ == crate::arrange::spec_arrangement(
                old(self).nodes@,
                root as int,
                Geometry {
                    local_pos: Vec2 { x: 0, y: 0 },
                    local_size: size,
                    absolute_pos: Vec2 { x: 0, y: 0 },
                    scale: Vec2 { x: 1, y: 1 },
                },
            ),
            final(cmds)@ == old(cmds)@ + seq![PaintCmd::Clear, PaintCmd::Save]
                + spec_paint_cmds(final(self).nodes@, root as int, Geometry {
                    local_pos: Vec2 { x: 0, y: 0 },
                    local_size: size,
                    absolute_pos: Vec2 { x: 0, y: 0 },
                    scale: Vec2 { x: 1, y: 1 },
                }) + seq![PaintCmd::Restore],
            count_saves(final(cmds)@) - count_restores(final(cmds)@)
                == count_saves(old(cmds)@) - count_restores(old(cmds)@),
    {
        let geometry = Geometry {
            local_pos: Vec2 { x: 0, y: 0 },
            local_size: size,
            absolute_pos: Vec2 { x: 0, y: 0 },
            scale: Vec2 { x: 1, y: 1 },
        };
        proof {
            assert(geom_ok(geometry, root as int)) by {
                assert(MAX_DESIRED <= (TREE_CAP - root as int) * SIZE_UNIT)
                    by (nonlinear_arith)
                    requires 0 <= root as int, root < TREE_CAP;
                assert(0 <= (TREE_CAP - root as int) * POS_UNIT) by (nonlinear_arith)
                    requires 0 <= root as int, root < TREE_CAP;
            }
        }
        self.arrange_children(root, geometry);
        let ghost pre = cmds@;
        cmds.push(PaintCmd::Clear);
        let ghost p1 = cmds@;
        cmds.push(PaintCmd::Save);
        proof {
            lemma_counts_push(pre, p1);
            lemma_counts_push(p1, cmds@);
            crate::geometry::lemma_geom_ok_sane(geometry, root as int);
        }
        let ghost mid = cmds@;
        let r = self.paint(root, &geometry, 0, cmds);
        let ghost p2 = cmds@;
        cmds.push(PaintCmd::Restore);
        proof {
            lemma_counts_push(p2, cmds@);
            assert(cmds@ =~= pre + seq![PaintCmd::Clear, PaintCmd::Save]
                + spec_paint_cmds(self.nodes@, root as int, geometry)
                + seq![PaintCmd::Restore]);
        }
        r
    }
}

/// Saturating layer advance.
fn sat_inc(layer: i64) -> (r: i64)
    ensures
        r == spec_layer_inc(layer as int),
{
    if layer < i64::MAX {
        layer + 1
    } else {
        layer
    }
}

/// Pushing one command changes the counts by that command's contribution.
proof fn lemma_counts_push(pre: Seq<PaintCmd>, now: Seq<PaintCmd>)
    requires
        now.len() == pre.len() + 1,
        forall|m: int| 0 <= m < pre.len() ==> #[trigger] now[m] == pre[m],
    ensures
        count_saves(now) == count_saves(pre) + if now.last() is Save { 1int } else { 0 },
        count_restores(now) == count_restores(pre)
            + if now.last() is Restore { 1int } else { 0 },
        now.take(pre.len() as int) == pre,
    decreases now.len(),
{
    assert(now.drop_last() =~= pre);
    assert(now.take(pre.len() as int) =~= pre);
}

/// Draws a scrollbar: exactly the tray and handle of
/// [`spec_scrollbar_cmds`].
fn paint_scroll_bar(sb: &ScrollBarWidgetState, geometry: &Geometry, cmds: &mut Vec<PaintCmd>)
    requires
        scrollbar_wf(*sb),
        geom_sane(*geometry),
    ensures
        final(cmds)@ == old(cmds)@ + spec_scrollbar_cmds(*sb, *geometry),
        final(cmds)@.take(old(cmds)@.len() as int) == old(cmds)@,
        count_saves(final(cmds)@) - count_restores(final(cmds)@)
            == count_saves(old(cmds)@) - count_restores(old(cmds)@),
{
    let ghost pre = cmds@;
    cmds.push(PaintCmd::Rect { pos: Vec2 { x: 0, y: 0 }, size: geometry.local_size });
    proof {
        lemma_counts_push(pre, cmds@);
    }
    let handle = sb.handle_size.get_size(sb.range_start, sb.range_end);
    let length = sb.range_end - sb.range_start;
    let denom = length + handle;
    let (size_direct, size_inv) = sb.direction.get_vec_axis(geometry.local_size);
    if denom > 0 {
        proof {
            assert((length as int) * (sb.value as int)
                <= (MAX_DESIRED as int) * (SCROLL_DEN as int)) by (nonlinear_arith)
                requires
                    0 <= length as int <= MAX_DESIRED as int,
                    0 <= sb.value as int <= SCROLL_DEN as int,
            ;
            assert(0 <= (length as int) * (sb.value as int)) by (nonlinear_arith)
                requires 0 <= length as int, 0 <= sb.value as int;
            vstd::arithmetic::div_mod::lemma_div_pos_is_pos(
                (length as int) * (sb.value as int), SCROLL_DEN as int);
            assert((length as int) * (sb.value as int)
                <= (SCROLL_DEN as int) * (length as int)) by (nonlinear_arith)
                requires 0 <= length as int, 0 <= sb.value as int <= SCROLL_DEN as int;
            vstd::arithmetic::div_mod::lemma_multiply_divide_le(
                (length as int) * (sb.value as int), SCROLL_DEN as int, length as int);
        }
        let scrolled = ((length as u64) * (sb.value as u64)) / (SCROLL_DEN as u64);
        proof {
            let sc = scrolled as int;
            let sd = size_direct as int;
            let dn = denom as int;
            assert(0 <= sc * sd <= (MAX_DESIRED as int + MAX_DESIRED)
                * MAX_SIZE) by (nonlinear_arith)
                requires 0 <= sc <= MAX_DESIRED as int, 0 <= sd <= MAX_SIZE as int;
            assert(0 <= (sc + handle as int) * sd <= (MAX_DESIRED as int + MAX_DESIRED)
                * MAX_SIZE) by (nonlinear_arith)
                requires 0 <= sc + handle as int <= 2 * (MAX_DESIRED as int),
                    0 <= sd <= MAX_SIZE as int;
            vstd::arithmetic::div_mod::lemma_div_pos_is_pos(sc * sd, dn);
            vstd::arithmetic::div_mod::lemma_div_pos_is_pos((sc + handle as int) * sd, dn);
            assert(sc * sd <= dn * sd) by (nonlinear_arith)
                requires 0 <= sc <= dn, 0 <= sd;
            assert((sc + handle as int) * sd <= dn * sd) by (nonlinear_arith)
                requires 0 <= sc + handle as int <= dn, 0 <= sd;
            vstd::arithmetic::div_mod::lemma_multiply_divide_le(sc * sd, dn, sd);
            vstd::arithmetic::div_mod::lemma_multiply_divide_le(
                (sc + handle as int) * sd, dn, sd);
            assert(dn * sd == sd * dn) by (nonlinear_arith);
        }
        let tl = (((scrolled as u128) * (size_direct as u128)) / (denom as u128)) as i64;
        let br = ((((scrolled as u64 + handle as u64) as u128) * (size_direct as u128))
            / (denom as u128)) as i64;
        let handle_pos = sb.direction.create_vec(tl, 0);
        let handle_size = sb.direction.create_vec(if br >= tl { br - tl } else { 0 }, size_inv);
        let ghost pre2 = cmds@;
        cmds.push(PaintCmd::Rect { pos: handle_pos, size: handle_size });
        proof {
            lemma_counts_push(pre2, cmds@);
            assert(cmds@ =~= pre + spec_scrollbar_cmds(*sb, *geometry));
            assert(cmds@.take(pre.len() as int) =~= pre);
        }
    } else {
        proof {
            assert(cmds@ =~= pre + spec_scrollbar_cmds(*sb, *geometry));
        }
    }
}

} // verus!
