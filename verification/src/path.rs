//! Hit paths and bubbling: where a point lands in the arranged tree, and
//! the deepest-first order in which an event travels back up.

use vstd::prelude::*;
use crate::geometry::{Vec2, spec_contains, geom_sane};
use crate::events::{Reply, WidgetEvent, DispatchRecord};
use crate::dispatch::{
    spec_records, spec_apply_records, spec_bubble_count, spec_bubble_handled,
    spec_unhandled_from, spec_reply_handled, spec_reply_capture, spec_reply_release,
    spec_reply_take_focus_matches, lemma_unhandled_from, lemma_apply_keeps_replies,
};
use crate::widget::{
    WidgetTree, WidgetState, WidgetArrangement, WidgetId, tree_wf, node_wf,
};

verus! {

/// The tree of widgets overlapping one query point: the root widget, with
/// one branch per overlapping child, in front-to-back (reverse declaration)
/// order. Several siblings may all overlap the point; each appears as its
/// own branch.
pub struct WidgetPath {
    pub widget: WidgetId,
    pub children: Vec<WidgetPath>,
}

/// The widgets of the arrangement entries whose geometry contains `pos`, in
/// reverse declaration order, so children painted later are tested first.
pub open spec fn spec_hit_children(arr: Seq<WidgetArrangement>, pos: Vec2) -> Seq<WidgetId>
    decreases arr.len(),
{
    if arr.len() == 0 {
        Seq::empty()
    } else {
        let last = arr.last();
        (if spec_contains(last.geometry, pos) {
            seq![last.widget]
        } else {
            Seq::<WidgetId>::empty()
        }) + spec_hit_children(arr.drop_last(), pos)
    }
}

/// The widgets at the roots of a sequence of path branches.
pub open spec fn spec_path_widgets(paths: Seq<WidgetPath>) -> Seq<WidgetId> {
    Seq::new(paths.len(), |j: int| paths[j].widget)
}

/// Whether `path` is exactly the hit path of `pos` through the cached
/// arrangements of `t`: at every level the branches are the containing
/// children in reverse declaration order.
pub open spec fn spec_path_matches(t: Seq<WidgetState>, path: WidgetPath, pos: Vec2) -> bool
    decreases path,
{
    let hits = spec_hit_children(t[path.widget as int].arranged@, pos);
    &&& path.widget < t.len()
    &&& path.children@.len() == hits.len()
    &&& forall|j: int| 0 <= j < path.children@.len() ==> {
        &&& (#[trigger] path.children@[j]).widget == hits[j]
        &&& spec_path_matches(t, path.children@[j], pos)
    }
}

/// Whether every widget in the path lies inside an arena of `n` nodes.
pub open spec fn spec_path_below(path: WidgetPath, n: int) -> bool
    decreases path,
{
    &&& path.widget < n
    &&& forall|j: int| 0 <= j < path.children@.len()
        ==> spec_path_below(#[trigger] path.children@[j], n)
}

/// A matching hit path lies inside the arena it was built from.
pub proof fn lemma_path_matches_below(t: Seq<WidgetState>, path: WidgetPath, pos: Vec2)
    requires
        spec_path_matches(t, path, pos),
    ensures
        spec_path_below(path, t.len() as int),
    decreases path,
{
    assert forall|j: int| 0 <= j < path.children@.len()
        implies spec_path_below(#[trigger] path.children@[j], t.len() as int) by {
        lemma_path_matches_below(t, path.children@[j], pos);
    }
}

/// The deepest-first delivery order of a path: each branch in order, fully
/// (its own branches, then its root), and the path's root widget last.
pub open spec fn spec_bubble(path: WidgetPath) -> Seq<WidgetId>
    decreases path, 1int,
{
    spec_bubble_prefix(path.children@, path.children@.len() as int) + seq![path.widget]
}

/// The concatenated bubble orders of the first `n` branches.
pub open spec fn spec_bubble_prefix(paths: Seq<WidgetPath>, n: int) -> Seq<WidgetId>
    decreases paths, 0int, n,
{
    if n <= 0 || n > paths.len() {
        Seq::empty()
    } else {
        spec_bubble_prefix(paths, n - 1) + spec_bubble(paths[n - 1])
    }
}

/// Every widget in a bubble order comes from the path.
pub proof fn lemma_bubble_below(path: WidgetPath, n: int)
    requires
        spec_path_below(path, n),
    ensures
        forall|i: int| 0 <= i < spec_bubble(path).len()
            ==> (#[trigger] spec_bubble(path)[i]) < n,
    decreases path, 1int,
{
    lemma_bubble_prefix_below(path.children@, path.children@.len() as int, n);
    let pre = spec_bubble_prefix(path.children@, path.children@.len() as int);
    assert forall|i: int| 0 <= i < spec_bubble(path).len()
        implies (#[trigger] spec_bubble(path)[i]) < n by {
        if i < pre.len() {
            assert(spec_bubble(path)[i] == pre[i]);
        } else {
            assert(spec_bubble(path)[i] == path.widget);
        }
    }
}

proof fn lemma_bubble_prefix_below(paths: Seq<WidgetPath>, m: int, n: int)
    requires
        forall|j: int| 0 <= j < paths.len() ==> spec_path_below(#[trigger] paths[j], n),
    ensures
        forall|i: int| 0 <= i < spec_bubble_prefix(paths, m).len()
            ==> (#[trigger] spec_bubble_prefix(paths, m)[i]) < n,
    decreases paths, 0int, m,
{
    if 0 < m <= paths.len() {
        lemma_bubble_prefix_below(paths, m - 1, n);
        lemma_bubble_below(paths[m - 1], n);
        let pre = spec_bubble_prefix(paths, m - 1);
        let sub = spec_bubble(paths[m - 1]);
        assert forall|i: int| 0 <= i < spec_bubble_prefix(paths, m).len()
            implies (#[trigger] spec_bubble_prefix(paths, m)[i]) < n by {
            if i < pre.len() {
                assert(spec_bubble_prefix(paths, m)[i] == pre[i]);
            } else {
                assert(spec_bubble_prefix(paths, m)[i] == sub[i - pre.len()]);
            }
        }
    }
}

impl WidgetPath {
    /// The bubble order of this path: deepest-first within each branch, one
    /// full branch before the next, the root widget last.
    pub fn bubble(&self) -> (r: Vec<WidgetId>)
        ensures
            r@ == spec_bubble(*self),
        decreases *self,
    {
        let mut r: Vec<WidgetId> = Vec::new();
        let mut i: usize = 0;
        while i < self.children.len()
            invariant
                0 <= i <= self.children@.len(),
                r@ == spec_bubble_prefix(self.children@, i as int),
            decreases self.children@.len() - i,
        {
            let mut sub = self.children[i].bubble();
            r.append(&mut sub);
            i = i + 1;
        }
        r.push(self.widget);
        r
    }
}

impl WidgetTree {
    /// Builds the hit path of `pos` under the widget `id`, walking the
    /// cached arrangements: children are tested front-to-back, and every
    /// child whose arranged region contains `pos` becomes a branch.
    ///
    /// The cached arrangement is what was stored by the last arrange pass;
    /// before any arrange the path is just the root.
    pub fn get_widget_path_under_position(&self, id: WidgetId, pos: &Vec2) -> (r: WidgetPath)
        requires
            tree_wf(*self),
            id < self.nodes@.len(),
        ensures
            r.widget == id,
            spec_path_matches(self.nodes@, r, *pos),
        decreases id,
    {
        proof {
            assert(node_wf(self.nodes@, id as int));
        }
        let ghost t = self.nodes@;
        let node = &self.nodes[id];
        let ghost arr = node.arranged@;
        let mut children: Vec<WidgetPath> = Vec::new();
        let mut i: usize = node.arranged.len();
        proof {
            assert(arr.take(arr.len() as int) =~= arr);
        }
        while i > 0
            invariant
                tree_wf(*self),
                id < self.nodes@.len(),
                t == self.nodes@,
                arr == self.nodes@[id as int].arranged@,
                node.arranged@ == arr,
                node_wf(t, id as int),
                0 <= i <= arr.len(),
                spec_hit_children(arr, *pos) == spec_path_widgets(children@)
                    + spec_hit_children(arr.take(i as int), *pos),
                forall|j: int| 0 <= j < children@.len()
                    ==> spec_path_matches(t, #[trigger] children@[j], *pos),
            decreases i,
        {
            i = i - 1;
            let a = node.arranged[i];
            proof {
                assert(0 <= arr[i as int].widget < id && geom_sane(arr[i as int].geometry));
                assert(arr.take(i + 1).drop_last() =~= arr.take(i as int));
                assert(arr.take(i + 1).last() == arr[i as int]);
            }
            if a.geometry.contains_absolute_pos(pos) {
                let sub = self.get_widget_path_under_position(a.widget, pos);
                children.push(sub);
                proof {
                    assert(spec_path_widgets(children@) =~= spec_path_widgets(
                        children@.drop_last()).push(a.widget));
                }
            }
            proof {
                assert(spec_hit_children(arr, *pos) =~= spec_path_widgets(children@)
                    + spec_hit_children(arr.take(i as int), *pos));
            }
        }
        proof {
            assert(arr.take(0) =~= Seq::<WidgetArrangement>::empty());
            assert(spec_hit_children(arr, *pos) =~= spec_path_widgets(children@));
        }
        let r = WidgetPath { widget: id, children };
        proof {
            assert forall|j: int| 0 <= j < r.children@.len() implies {
                &&& (#[trigger] r.children@[j]).widget
                    == spec_hit_children(t[id as int].arranged@, *pos)[j]
                &&& spec_path_matches(t, r.children@[j], *pos)
            } by {
                assert(spec_path_widgets(r.children@)[j] == r.children@[j].widget);
            }
        }
        r
    }

    /// Bubbles an event along a hit path: each widget in bubble order
    /// receives the event, and the first consuming reply is returned.
    pub fn bubble_event(&mut self, path: &WidgetPath, event: &WidgetEvent) -> (r: Reply)
        requires
            tree_wf(*old(self)),
            spec_path_below(*path, old(self).nodes@.len() as int),
        ensures
            tree_wf(*final(self)),
            final(self).nodes@.len() == old(self).nodes@.len(),
            final(self).dispatched@ == old(self).dispatched@ + spec_records(
                spec_bubble(*path),
                spec_bubble_count(old(self).nodes@, spec_bubble(*path), *event),
                *event,
            ),
            final(self).nodes@ == spec_apply_records(old(self).nodes@, spec_records(
                spec_bubble(*path),
                spec_bubble_count(old(self).nodes@, spec_bubble(*path), *event),
                *event,
            )),
            r.handled == spec_bubble_handled(old(self).nodes@, spec_bubble(*path), *event),
            r.free_focus is None,
            ({
                let order = spec_bubble(*path);
                let k = spec_bubble_count(old(self).nodes@, order, *event);
                if spec_bubble_handled(old(self).nodes@, order, *event) {
                    &&& r.capture_cursor == spec_reply_capture(
                        old(self).nodes@[order[k - 1] as int], *event)
                    &&& r.release_cursor == spec_reply_release(
                        old(self).nodes@[order[k - 1] as int], *event)
                    &&& spec_reply_take_focus_matches(
                        old(self).nodes@[order[k - 1] as int], *event, r.take_focus)
                } else {
                    &&& r.capture_cursor is None
                    &&& r.release_cursor is None
                    &&& r.take_focus is None
                }
            }),
    {
        let order = path.bubble();
        let ghost t0 = self.nodes@;
        let ghost ord = order@;
        proof {
            lemma_bubble_below(*path, t0.len() as int);
            assert(spec_records(ord, 0, *event) =~= Seq::<DispatchRecord>::empty());
        }
        let mut i: usize = 0;
        while i < order.len()
            invariant
                tree_wf(*self),
                self.nodes@.len() == t0.len(),
                t0 == old(self).nodes@,
                ord == order@,
                ord == spec_bubble(*path),
                forall|m: int| 0 <= m < ord.len() ==> (#[trigger] ord[m]) < t0.len(),
                0 <= i <= ord.len(),
                forall|m: int| 0 <= m < i
                    ==> !spec_reply_handled(t0[(#[trigger] ord[m]) as int], *event),
                self.dispatched@ == old(self).dispatched@
                    + spec_records(ord, i as int, *event),
                self.nodes@ == spec_apply_records(t0, spec_records(ord, i as int, *event)),
            decreases ord.len() - i,
        {
            let w = order[i];
            proof {
                lemma_apply_keeps_replies(t0, ord, *event, i as int, w as int);
            }
            let reply = self.dispatch_event(w, event);
            proof {
                assert(spec_records(ord, i + 1, *event).drop_last()
                    =~= spec_records(ord, i as int, *event));
                assert(self.dispatched@ =~= old(self).dispatched@
                    + spec_records(ord, i + 1, *event));
            }
            if reply.handled {
                proof {
                    lemma_unhandled_from(t0, ord, *event, 0, i as int);
                }
                return reply;
            }
            i = i + 1;
        }
        proof {
            lemma_unhandled_from(t0, ord, *event, 0, ord.len() as int);
        }
        Reply::unhandled()
    }
}

} // verus!
