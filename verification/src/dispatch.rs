//! Delivery of a single event to a single widget: the widget's state steps,
//! the delivery is logged, and the widget's reply is returned.

use vstd::prelude::*;
use crate::events::{Reply, WidgetEvent, WidgetFocusChange, DispatchRecord};
use crate::test_widget::{spec_leaf_handles, spec_leaf_step, leaf_on_event};
use crate::scroll_bar::{spec_scrollbar_step, scrollbar_on_event};
use crate::widget::{
    WidgetTree, WidgetState, WidgetKind, WidgetId, tree_wf, node_wf, kind_wf,
    lemma_node_update_wf,
};

verus! {

/// The node state after one event is delivered to it: interactive leaves
/// and scrollbars step their state, every other widget ignores events.
pub open spec fn spec_node_step(node: WidgetState, event: WidgetEvent) -> WidgetState {
    match node.kind {
        WidgetKind::TestWidget(s) => WidgetState {
            kind: WidgetKind::TestWidget(spec_leaf_step(s, event)),
            ..node
        },
        WidgetKind::ScrollBar(s) => WidgetState {
            kind: WidgetKind::ScrollBar(spec_scrollbar_step(s, node.cached_geometry, event)),
            ..node
        },
        _ => node,
    }
}

/// Whether the widget would consume the event: a leaf consumes what its
/// flags say, a scrollbar consumes buttons always and moves while dragging,
/// containers consume nothing.
pub open spec fn spec_reply_handled(node: WidgetState, event: WidgetEvent) -> bool {
    match node.kind {
        WidgetKind::TestWidget(s) => spec_leaf_handles(s, event),
        WidgetKind::ScrollBar(s) => match event {
            WidgetEvent::OnCursorMove { .. } => s.drag_start is Some,
            WidgetEvent::OnMouseButtonDown { .. } => true,
            WidgetEvent::OnMouseButtonUp { .. } => true,
            _ => false,
        },
        _ => false,
    }
}

/// The capture request the widget's reply carries: only a scrollbar
/// captures, on button down.
pub open spec fn spec_reply_capture(node: WidgetState, event: WidgetEvent) -> Option<usize> {
    match node.kind {
        WidgetKind::ScrollBar(_) => match event {
            WidgetEvent::OnMouseButtonDown { mouse, .. } => Some(mouse),
            _ => None,
        },
        _ => None,
    }
}

/// The release request the widget's reply carries: only a scrollbar
/// releases, on button up.
pub open spec fn spec_reply_release(node: WidgetState, event: WidgetEvent) -> Option<usize> {
    match node.kind {
        WidgetKind::ScrollBar(_) => match event {
            WidgetEvent::OnMouseButtonUp { mouse, .. } => Some(mouse),
            _ => None,
        },
        _ => None,
    }
}

/// The reply's focus request, compared by view: only an interactive leaf
/// requests focus, on a consumed click, per its configuration.
pub open spec fn spec_reply_take_focus_matches(
    node: WidgetState,
    event: WidgetEvent,
    take_focus: Option<WidgetFocusChange>,
) -> bool {
    match node.kind {
        WidgetKind::TestWidget(s) => match event {
            WidgetEvent::OnClick { .. } => if s.handle_click {
                match s.click_focus_keyboards {
                    None => take_focus is None,
                    Some(None) => take_focus matches Some(WidgetFocusChange::AllKeyboards),
                    Some(Some(ids)) => take_focus matches Some(WidgetFocusChange::KeyboardList(l))
                        && l@ == ids@,
                }
            } else {
                take_focus is None
            },
            _ => take_focus is None,
        },
        _ => take_focus is None,
    }
}

/// A node's willingness to consume an event never changes when the same
/// event steps its state: bubbling one event through many widgets can
/// decide each delivery against the tree as it was when the bubble began.
pub proof fn lemma_handled_stable_step(node: WidgetState, event: WidgetEvent)
    ensures
        spec_reply_handled(spec_node_step(node, event), event)
            == spec_reply_handled(node, event),
{
}

/// The first `k` deliveries of one event along an order of widgets.
pub open spec fn spec_records(
    order: Seq<WidgetId>,
    k: int,
    event: WidgetEvent,
) -> Seq<DispatchRecord> {
    Seq::new(k as nat, |i: int| DispatchRecord { target: order[i], event })
}

/// The tree contents after a sequence of deliveries: each delivery steps
/// its target node in turn.
pub open spec fn spec_apply_records(
    t: Seq<WidgetState>,
    records: Seq<DispatchRecord>,
) -> Seq<WidgetState>
    decreases records.len(),
{
    if records.len() == 0 {
        t
    } else {
        let t1 = spec_apply_records(t, records.drop_last());
        let rec = records.last();
        if 0 <= rec.target < t1.len() {
            t1.update(rec.target as int, spec_node_step(t1[rec.target as int], rec.event))
        } else {
            t1
        }
    }
}

/// How many widgets at the front of `order` would leave `event` unhandled,
/// starting the check at position `j`.
pub open spec fn spec_unhandled_from(
    t: Seq<WidgetState>,
    order: Seq<WidgetId>,
    event: WidgetEvent,
    j: int,
) -> int
    decreases order.len() - j,
{
    if j < 0 || j >= order.len() {
        0
    } else if spec_reply_handled(t[order[j] as int], event) {
        0
    } else {
        1 + spec_unhandled_from(t, order, event, j + 1)
    }
}

/// How many deliveries a bubble of `event` along `order` makes: every
/// widget up to and including the first that consumes it, or all of them.
pub open spec fn spec_bubble_count(
    t: Seq<WidgetState>,
    order: Seq<WidgetId>,
    event: WidgetEvent,
) -> int {
    let u = spec_unhandled_from(t, order, event, 0);
    if u < order.len() {
        u + 1
    } else {
        order.len() as int
    }
}

/// Whether some widget along `order` consumes `event`.
pub open spec fn spec_bubble_handled(
    t: Seq<WidgetState>,
    order: Seq<WidgetId>,
    event: WidgetEvent,
) -> bool {
    spec_unhandled_from(t, order, event, 0) < order.len()
}

/// Applying one more delivery steps exactly its target.
pub proof fn lemma_apply_push(
    t: Seq<WidgetState>,
    s: Seq<DispatchRecord>,
    r: DispatchRecord,
)
    ensures
        spec_apply_records(t, s.push(r)) == ({
            let t1 = spec_apply_records(t, s);
            if 0 <= r.target < t1.len() {
                t1.update(r.target as int, spec_node_step(t1[r.target as int], r.event))
            } else {
                t1
            }
        }),
{
    assert(s.push(r).drop_last() =~= s);
    assert(s.push(r).last() == r);
}

/// Focus hand-over deliveries step no widget's state, so a log suffix made
/// of them leaves an application unchanged.
pub proof fn lemma_apply_focus_suffix(t: Seq<WidgetState>, s: Seq<DispatchRecord>, n: int)
    requires
        0 <= n <= s.len(),
        forall|i: int| n <= i < s.len()
            ==> ((#[trigger] s[i]).event is OnFocus || s[i].event is OnUnfocus),
    ensures
        spec_apply_records(t, s) == spec_apply_records(t, s.take(n)),
    decreases s.len() - n,
{
    if n < s.len() {
        assert(s.take(s.len() as int) =~= s);
        lemma_apply_focus_suffix(t, s.drop_last(), n);
        assert(s.drop_last().take(n) =~= s.take(n));
        let t1 = spec_apply_records(t, s.drop_last());
        let r = s.last();
        if 0 <= r.target < t1.len() {
            assert(spec_node_step(t1[r.target as int], r.event) == t1[r.target as int]);
            assert(t1.update(
                r.target as int,
                spec_node_step(t1[r.target as int], r.event),
            ) =~= t1);
        }
    } else {
        assert(s.take(n) =~= s);
    }
}

/// Pins down the unhandled prefix: if every widget from `j` up to `i`
/// leaves the event unhandled and `i` is the order's end or a consumer, the
/// prefix length from `j` is exactly `i - j`.
pub proof fn lemma_unhandled_from(
    t: Seq<WidgetState>,
    order: Seq<WidgetId>,
    event: WidgetEvent,
    j: int,
    i: int,
)
    requires
        0 <= j <= i <= order.len(),
        forall|m: int| j <= m < i ==> !spec_reply_handled(t[(#[trigger] order[m]) as int], event),
        i == order.len() || spec_reply_handled(t[order[i] as int], event),
    ensures
        spec_unhandled_from(t, order, event, j) == i - j,
    decreases i - j,
{
    if j < i {
        lemma_unhandled_from(t, order, event, j + 1, i);
    }
}

/// Applying deliveries of one event does not change any widget's reply
/// profile for that event: how it replies depends only on state the event's
/// own steps preserve.
pub proof fn lemma_apply_keeps_replies(
    t: Seq<WidgetState>,
    order: Seq<WidgetId>,
    event: WidgetEvent,
    k: int,
    w: int,
)
    requires
        0 <= k,
        0 <= w < t.len(),
    ensures
        spec_apply_records(t, spec_records(order, k, event)).len() == t.len(),
        spec_reply_handled(
            spec_apply_records(t, spec_records(order, k, event))[w], event)
            == spec_reply_handled(t[w], event),
        spec_reply_capture(
            spec_apply_records(t, spec_records(order, k, event))[w], event)
            == spec_reply_capture(t[w], event),
        spec_reply_release(
            spec_apply_records(t, spec_records(order, k, event))[w], event)
            == spec_reply_release(t[w], event),
        forall|x: Option<WidgetFocusChange>| spec_reply_take_focus_matches(
            spec_apply_records(t, spec_records(order, k, event))[w], event, x)
            == spec_reply_take_focus_matches(t[w], event, x),
    decreases k,
{
    if k > 0 {
        lemma_apply_keeps_replies(t, order, event, k - 1, w);
        assert(spec_records(order, k, event).drop_last() =~= spec_records(order, k - 1, event));
        let t1 = spec_apply_records(t, spec_records(order, k - 1, event));
        let tgt = order[k - 1];
        if 0 <= tgt < t1.len() && w == tgt as int {
            lemma_handled_stable_step(t1[w], event);
        }
    }
}

impl WidgetTree {
    /// Delivers one event to the widget `id`: logs the delivery, steps the
    /// widget's state, and returns its reply.
    pub fn dispatch_event(&mut self, id: WidgetId, event: &WidgetEvent) -> (r: Reply)
        requires
            tree_wf(*old(self)),
            id < old(self).nodes@.len(),
        ensures
            tree_wf(*final(self)),
            final(self).nodes@ == old(self).nodes@.update(
                id as int,
                spec_node_step(old(self).nodes@[id as int], *event),
            ),
            final(self).dispatched@ == old(self).dispatched@.push(
                DispatchRecord { target: id, event: *event },
            ),
            r.handled == spec_reply_handled(old(self).nodes@[id as int], *event),
            r.capture_cursor == spec_reply_capture(old(self).nodes@[id as int], *event),
            r.release_cursor == spec_reply_release(old(self).nodes@[id as int], *event),
            r.free_focus is None,
            spec_reply_take_focus_matches(old(self).nodes@[id as int], *event, r.take_focus),
    {
        proof {
            assert(node_wf(old(self).nodes@, id as int));
        }
        self.dispatched.push(DispatchRecord { target: id, event: *event });
        let ghost pre = self.nodes@;
        let node = &mut self.nodes[id];
        let geom = node.cached_geometry;
        let r = match &mut node.kind {
            WidgetKind::TestWidget(st) => leaf_on_event(st, event),
            WidgetKind::ScrollBar(st) => scrollbar_on_event(st, &geom, event),
            _ => Reply::unhandled(),
        };
        proof {
            assert(kind_wf(self.nodes@, id as int)) by {
                match self.nodes@[id as int].kind {
                    WidgetKind::ScrollPanel(s) => {
                        match s.horizontal {
                            Some(h) => {
                                assert(self.nodes@[h as int] == pre[h as int]);
                            },
                            None => {},
                        }
                        match s.vertical {
                            Some(v) => {
                                assert(self.nodes@[v as int] == pre[v as int]);
                            },
                            None => {},
                        }
                    },
                    _ => {},
                }
            }
            assert(node_wf(self.nodes@, id as int));
            lemma_node_update_wf(pre, self.nodes@, id as int);
            assert(self.nodes@ =~= pre.update(
                id as int, spec_node_step(pre[id as int], *event)));
            assert(self.dispatched@ =~= old(self).dispatched@.push(
                DispatchRecord { target: id, event: *event }));
        }
        r
    }
}

} // verus!
