//! Per-device input routing state and the routed event handlers: cursor
//! enter/move/leave bookkeeping, button and click dispatch, focus and
//! pointer capture.

use vstd::prelude::*;
use crate::geometry::Vec2;
use crate::events::{
    Reply, WidgetEvent, WidgetFocusChange, DispatchRecord, PlatformRequest, MouseButton,
};
use crate::dispatch::{spec_node_step, spec_bubble_count, spec_bubble_handled,
    lemma_apply_keeps_replies, lemma_unhandled_from};
use crate::test_widget::copy_ids;
use crate::widget::{WidgetTree, WidgetId, WidgetKind, tree_wf};
use crate::path::{WidgetPath, spec_path_below, spec_bubble, spec_bubble_prefix};

verus! {

/// Cursor routing state for one pointer device: the widgets the cursor was
/// over after the last move, the widget capturing the device (if any), and
/// the pending-click set recorded at the last button press.
pub struct CursorEventContext {
    pub cursor_index: usize,
    pub last_over_widgets: Vec<WidgetId>,
    pub captured_by_widget: Option<WidgetId>,
    pub about_to_be_clicked: Option<Vec<WidgetId>>,
}

/// Keyboard routing state for one keyboard device: the focused widget, if
/// any.
pub struct KeyboardEventContext {
    pub keyboard_index: usize,
    pub focused_widget: Option<WidgetId>,
}

/// All per-device routing state of one running window set. Device entries
/// are created lazily on first use and never removed.
pub struct EventContext {
    pub cursors: Vec<CursorEventContext>,
    pub keyboards: Vec<KeyboardEventContext>,
}

/// Position of the context for cursor device `d`, searching from `j`; `-1`
/// if absent.
pub open spec fn find_cursor(cs: Seq<CursorEventContext>, d: usize, j: int) -> int
    decreases cs.len() - j,
{
    if j < 0 || j >= cs.len() {
        -1
    } else if cs[j].cursor_index == d {
        j
    } else {
        find_cursor(cs, d, j + 1)
    }
}

/// Position of the context for keyboard device `d`, searching from `j`;
/// `-1` if absent.
pub open spec fn find_keyboard(ks: Seq<KeyboardEventContext>, d: usize, j: int) -> int
    decreases ks.len() - j,
{
    if j < 0 || j >= ks.len() {
        -1
    } else if ks[j].keyboard_index == d {
        j
    } else {
        find_keyboard(ks, d, j + 1)
    }
}

/// A found position indexes the searched-for device, and nothing before it
/// does.
pub proof fn lemma_find_cursor(cs: Seq<CursorEventContext>, d: usize, j: int)
    requires
        0 <= j <= cs.len(),
    ensures
        find_cursor(cs, d, j) == -1 || j <= find_cursor(cs, d, j) < cs.len(),
        find_cursor(cs, d, j) >= 0 ==> cs[find_cursor(cs, d, j)].cursor_index == d,
        find_cursor(cs, d, j) == -1
            ==> forall|m: int| j <= m < cs.len() ==> (#[trigger] cs[m]).cursor_index != d,
    decreases cs.len() - j,
{
    if j < cs.len() && cs[j].cursor_index != d {
        lemma_find_cursor(cs, d, j + 1);
    }
}

pub proof fn lemma_find_keyboard(ks: Seq<KeyboardEventContext>, d: usize, j: int)
    requires
        0 <= j <= ks.len(),
    ensures
        find_keyboard(ks, d, j) == -1 || j <= find_keyboard(ks, d, j) < ks.len(),
        find_keyboard(ks, d, j) >= 0 ==> ks[find_keyboard(ks, d, j)].keyboard_index == d,
        find_keyboard(ks, d, j) == -1
            ==> forall|m: int| j <= m < ks.len() ==> (#[trigger] ks[m]).keyboard_index != d,
    decreases ks.len() - j,
{
    if j < ks.len() && ks[j].keyboard_index != d {
        lemma_find_keyboard(ks, d, j + 1);
    }
}

/// Appending entries for other devices, or changing an entry in place,
/// keeps a device's found position.
pub proof fn lemma_find_cursor_stable(
    cs0: Seq<CursorEventContext>,
    cs1: Seq<CursorEventContext>,
    d: usize,
    j: int,
)
    requires
        0 <= j <= cs0.len(),
        cs0.len() <= cs1.len(),
        forall|m: int| 0 <= m < cs0.len()
            ==> (#[trigger] cs1[m]).cursor_index == cs0[m].cursor_index,
        forall|m: int| cs0.len() <= m < cs1.len()
            ==> (#[trigger] cs1[m]).cursor_index != d,
    ensures
        find_cursor(cs1, d, j) == find_cursor(cs0, d, j),
    decreases cs1.len() - j,
{
    if j < cs0.len() {
        if cs0[j].cursor_index != d {
            lemma_find_cursor_stable(cs0, cs1, d, j + 1);
        }
    } else if j < cs1.len() {
        lemma_find_cursor_tail_missing(cs1, d, j);
    }
}

proof fn lemma_find_cursor_tail_missing(cs: Seq<CursorEventContext>, d: usize, j: int)
    requires
        0 <= j <= cs.len(),
        forall|m: int| j <= m < cs.len() ==> (#[trigger] cs[m]).cursor_index != d,
    ensures
        find_cursor(cs, d, j) == -1,
    decreases cs.len() - j,
{
    if j < cs.len() {
        lemma_find_cursor_tail_missing(cs, d, j + 1);
    }
}

pub proof fn lemma_find_keyboard_stable(
    ks0: Seq<KeyboardEventContext>,
    ks1: Seq<KeyboardEventContext>,
    d: usize,
    j: int,
)
    requires
        0 <= j <= ks0.len(),
        ks0.len() <= ks1.len(),
        forall|m: int| 0 <= m < ks0.len()
            ==> (#[trigger] ks1[m]).keyboard_index == ks0[m].keyboard_index,
        forall|m: int| ks0.len() <= m < ks1.len()
            ==> (#[trigger] ks1[m]).keyboard_index != d,
    ensures
        find_keyboard(ks1, d, j) == find_keyboard(ks0, d, j),
    decreases ks1.len() - j,
{
    if j < ks0.len() {
        if ks0[j].keyboard_index != d {
            lemma_find_keyboard_stable(ks0, ks1, d, j + 1);
        }
    } else if j < ks1.len() {
        lemma_find_keyboard_tail_missing(ks1, d, j);
    }
}

proof fn lemma_find_keyboard_tail_missing(ks: Seq<KeyboardEventContext>, d: usize, j: int)
    requires
        0 <= j <= ks.len(),
        forall|m: int| j <= m < ks.len() ==> (#[trigger] ks[m]).keyboard_index != d,
    ensures
        find_keyboard(ks, d, j) == -1,
    decreases ks.len() - j,
{
    if j < ks.len() {
        lemma_find_keyboard_tail_missing(ks, d, j + 1);
    }
}

/// Well-formedness of one cursor context against an arena of `n` nodes.
pub open spec fn cursor_ctx_ok(c: CursorEventContext, n: int) -> bool {
    &&& forall|j: int| 0 <= j < c.last_over_widgets@.len()
        ==> (#[trigger] c.last_over_widgets@[j]) < n
    &&& forall|j: int, k: int| 0 <= j < k < c.last_over_widgets@.len()
        ==> c.last_over_widgets@[j] != c.last_over_widgets@[k]
    &&& match c.captured_by_widget {
        Some(w) => w < n,
        None => true,
    }
    &&& match c.about_to_be_clicked {
        Some(v) => forall|j: int| 0 <= j < v@.len() ==> (#[trigger] v@[j]) < n,
        None => true,
    }
}

/// Well-formedness of the whole routing state against an arena of `n`
/// nodes: every stored widget is in the arena, device ids are unique, and
/// over-sets hold no duplicates.
pub open spec fn ctx_wf(ctx: EventContext, n: int) -> bool {
    &&& forall|i: int| 0 <= i < ctx.cursors@.len()
        ==> cursor_ctx_ok(#[trigger] ctx.cursors@[i], n)
    &&& forall|i: int, j: int| 0 <= i < j < ctx.cursors@.len()
        ==> ctx.cursors@[i].cursor_index != ctx.cursors@[j].cursor_index
    &&& forall|i: int| 0 <= i < ctx.keyboards@.len() ==> match (
        #[trigger] ctx.keyboards@[i]).focused_widget {
        Some(w) => w < n,
        None => true,
    }
    &&& forall|i: int, j: int| 0 <= i < j < ctx.keyboards@.len()
        ==> ctx.keyboards@[i].keyboard_index != ctx.keyboards@[j].keyboard_index
}

/// The focused widget of keyboard `d`: `None` if the device is unknown.
pub open spec fn spec_focused(ctx: EventContext, d: usize) -> Option<Option<WidgetId>> {
    let i = find_keyboard(ctx.keyboards@, d, 0);
    if i >= 0 {
        Some(ctx.keyboards@[i].focused_widget)
    } else {
        None
    }
}

/// The capturing widget of cursor device `d`: `None` if the device is
/// unknown.
pub open spec fn spec_captured(ctx: EventContext, d: usize) -> Option<Option<WidgetId>> {
    let i = find_cursor(ctx.cursors@, d, 0);
    if i >= 0 {
        Some(ctx.cursors@[i].captured_by_widget)
    } else {
        None
    }
}

/// Whether widget `w` is in the over-set of cursor device `d`.
pub open spec fn spec_over_contains(ctx: EventContext, d: usize, w: WidgetId) -> bool {
    let i = find_cursor(ctx.cursors@, d, 0);
    i >= 0 && ctx.cursors@[i].last_over_widgets@.contains(w)
}

/// Whether a record is a cursor-enter delivery to widget `w` on device `d`.
pub open spec fn is_enter(r: DispatchRecord, w: WidgetId, d: usize) -> bool {
    r.target == w && (r.event matches WidgetEvent::OnCursorEnter { cursor } && cursor == d)
}

/// Whether a record is a cursor-leave delivery to widget `w` on device `d`.
pub open spec fn is_leave(r: DispatchRecord, w: WidgetId, d: usize) -> bool {
    r.target == w && (r.event matches WidgetEvent::OnCursorLeave { cursor } && cursor == d)
}

/// How many cursor-enter deliveries to `w` on device `d` the log holds.
pub open spec fn count_enters(log: Seq<DispatchRecord>, w: WidgetId, d: usize) -> int
    decreases log.len(),
{
    if log.len() == 0 {
        0
    } else {
        count_enters(log.drop_last(), w, d) + if is_enter(log.last(), w, d) { 1int } else { 0 }
    }
}

/// How many cursor-leave deliveries to `w` on device `d` the log holds.
pub open spec fn count_leaves(log: Seq<DispatchRecord>, w: WidgetId, d: usize) -> int
    decreases log.len(),
{
    if log.len() == 0 {
        0
    } else {
        count_leaves(log.drop_last(), w, d) + if is_leave(log.last(), w, d) { 1int } else { 0 }
    }
}

/// The enter/leave balance: a widget has received exactly one more enter
/// than leaves on a device exactly while it sits in that device's over-set.
pub open spec fn cursor_balance(tree: WidgetTree, ctx: EventContext) -> bool {
    forall|d: usize, w: WidgetId| count_enters(tree.dispatched@, w, d)
        - count_leaves(tree.dispatched@, w, d)
        == if spec_over_contains(ctx, d, w) { 1int } else { 0 }
}

/// Cursor enter/leave balance: once every over-set is empty — as after the
/// cursor leaves all widgets — every widget has received exactly as many
/// leaves as enters, on every device.
pub proof fn lemma_enter_leave_balanced(tree: WidgetTree, ctx: EventContext, d: usize)
    requires
        cursor_balance(tree, ctx),
        ({
            let i = find_cursor(ctx.cursors@, d, 0);
            i == -1 || ctx.cursors@[i].last_over_widgets@.len() == 0
        }),
    ensures
        forall|w: WidgetId| count_enters(tree.dispatched@, w, d)
            == count_leaves(tree.dispatched@, w, d),
{
    assert forall|w: WidgetId| count_enters(tree.dispatched@, w, d)
        == count_leaves(tree.dispatched@, w, d) by {
        assert(!spec_over_contains(ctx, d, w));
    }
}

/// A log extension that contains no enter or leave records keeps every
/// enter and leave count.
pub proof fn lemma_counts_extend(
    log: Seq<DispatchRecord>,
    n: int,
    w: WidgetId,
    d: usize,
)
    requires
        0 <= n <= log.len(),
        forall|i: int| n <= i < log.len() ==> !is_enter(#[trigger] log[i], w, d)
            && !is_leave(log[i], w, d),
    ensures
        count_enters(log, w, d) == count_enters(log.take(n), w, d),
        count_leaves(log, w, d) == count_leaves(log.take(n), w, d),
    decreases log.len() - n,
{
    if n < log.len() {
        assert(log.take(log.len() as int) =~= log);
        lemma_counts_extend(log.drop_last(), n, w, d);
        assert(log.drop_last().take(n) =~= log.take(n));
    } else {
        assert(log.take(n) =~= log);
    }
}

/// A log extension with no enter/leave records, beside unchanged over-sets,
/// preserves the balance.
pub proof fn lemma_balance_preserved(
    t0: WidgetTree,
    t1: WidgetTree,
    c0: EventContext,
    c1: EventContext,
)
    requires
        cursor_balance(t0, c0),
        t0.dispatched@.len() <= t1.dispatched@.len(),
        t1.dispatched@.take(t0.dispatched@.len() as int) == t0.dispatched@,
        forall|i: int| t0.dispatched@.len() <= i < t1.dispatched@.len() ==> {
            &&& !((#[trigger] t1.dispatched@[i]).event is OnCursorEnter)
            &&& !(t1.dispatched@[i].event is OnCursorLeave)
        },
        forall|d: usize, w: WidgetId| spec_over_contains(c1, d, w)
            == spec_over_contains(c0, d, w),
    ensures
        cursor_balance(t1, c1),
{
    assert forall|d: usize, w: WidgetId| count_enters(t1.dispatched@, w, d)
        - count_leaves(t1.dispatched@, w, d)
        == if spec_over_contains(c1, d, w) { 1int } else { 0 } by {
        lemma_counts_extend(t1.dispatched@, t0.dispatched@.len() as int, w, d);
        assert(spec_over_contains(c1, d, w) == spec_over_contains(c0, d, w));
    }
}

/// Whether `v` holds the id `w`.
pub fn contains_id(v: &Vec<WidgetId>, w: WidgetId) -> (r: bool)
    ensures
        r == v@.contains(w),
{
    let mut i: usize = 0;
    while i < v.len()
        invariant
            0 <= i <= v@.len(),
            forall|j: int| 0 <= j < i ==> v@[j] != w,
        decreases v@.len() - i,
    {
        if v[i] == w {
            return true;
        }
        i = i + 1;
    }
    false
}

impl EventContext {
    /// Fresh routing state: no devices known yet.
    pub fn new() -> (r: EventContext)
        ensures
            r.cursors@.len() == 0,
            r.keyboards@.len() == 0,
            forall|n: int| ctx_wf(r, n),
    {
        EventContext { cursors: Vec::new(), keyboards: Vec::new() }
    }

    /// The position of cursor device `d`'s context, or `None` if the device
    /// has not been seen.
    pub fn try_get_cursor_context(&self, cursor_index: usize) -> (r: Option<usize>)
        ensures
            match r {
                Some(i) => i as int == find_cursor(self.cursors@, cursor_index, 0),
                None => find_cursor(self.cursors@, cursor_index, 0) == -1,
            },
    {
        let mut i: usize = 0;
        while i < self.cursors.len()
            invariant
                0 <= i <= self.cursors@.len(),
                find_cursor(self.cursors@, cursor_index, 0)
                    == find_cursor(self.cursors@, cursor_index, i as int),
            decreases self.cursors@.len() - i,
        {
            if self.cursors[i].cursor_index == cursor_index {
                return Some(i);
            }
            i = i + 1;
        }
        None
    }

    /// The position of keyboard device `d`'s context, or `None` if the
    /// device has not been seen.
    pub fn try_get_keyboard_context(&self, keyboard_index: usize) -> (r: Option<usize>)
        ensures
            match r {
                Some(i) => i as int == find_keyboard(self.keyboards@, keyboard_index, 0),
                None => find_keyboard(self.keyboards@, keyboard_index, 0) == -1,
            },
    {
        let mut i: usize = 0;
        while i < self.keyboards.len()
            invariant
                0 <= i <= self.keyboards@.len(),
                find_keyboard(self.keyboards@, keyboard_index, 0)
                    == find_keyboard(self.keyboards@, keyboard_index, i as int),
            decreases self.keyboards@.len() - i,
        {
            if self.keyboards[i].keyboard_index == keyboard_index {
                return Some(i);
            }
            i = i + 1;
        }
        None
    }

    /// The position of cursor device `d`'s context, created empty on first
    /// use.
    pub fn get_cursor_context(&mut self, cursor_index: usize, n: Ghost<int>) -> (r: usize)
        requires
            ctx_wf(*old(self), n@),
        ensures
            ctx_wf(*final(self), n@),
            final(self).keyboards == old(self).keyboards,
            r < final(self).cursors@.len(),
            r == find_cursor(final(self).cursors@, cursor_index, 0),
            final(self).cursors@[r as int].cursor_index == cursor_index,
            if find_cursor(old(self).cursors@, cursor_index, 0) >= 0 {
                final(self).cursors@ == old(self).cursors@
            } else {
                &&& final(self).cursors@.len() == old(self).cursors@.len() + 1
                &&& final(self).cursors@.take(old(self).cursors@.len() as int)
                    == old(self).cursors@
                &&& r as int == old(self).cursors@.len()
                &&& final(self).cursors@[r as int].last_over_widgets@.len() == 0
                &&& final(self).cursors@[r as int].captured_by_widget is None
                &&& final(self).cursors@[r as int].about_to_be_clicked is None
            },
            forall|d: usize, w: WidgetId| spec_over_contains(*final(self), d, w)
                == spec_over_contains(*old(self), d, w),
            forall|d: usize| spec_captured(*final(self), d) == spec_captured(*old(self), d)
                || (d == cursor_index && spec_captured(*old(self), d) is None
                    && spec_captured(*final(self), d) == Some(None::<WidgetId>)),
    {
        proof {
            lemma_find_cursor(self.cursors@, cursor_index, 0);
        }
        let found = self.try_get_cursor_context(cursor_index);
        match found {
            Some(i) => {
                proof {
                    assert(find_cursor(self.cursors@, cursor_index, 0) == i as int);
                    assert(self.cursors@[i as int].cursor_index == cursor_index);
                }
                i
            },
            None => {
                let ghost cs0 = self.cursors@;
                let i = self.cursors.len();
                self.cursors.push(CursorEventContext {
                    cursor_index,
                    last_over_widgets: Vec::new(),
                    captured_by_widget: None,
                    about_to_be_clicked: None,
                });
                proof {
                    assert(self.cursors@.len() == cs0.len() + 1);
                    assert forall|m: int| 0 <= m < cs0.len()
                        implies self.cursors@[m] == cs0[m] by {}
                    assert(self.cursors@.take(cs0.len() as int) =~= cs0);
                    assert forall|m: int| 0 <= m < cs0.len()
                        implies (#[trigger] cs0[m]).cursor_index != cursor_index by {
                        lemma_find_cursor(cs0, cursor_index, 0);
                    }
                    lemma_find_first_is_min_cursor(self.cursors@, cursor_index, 0, i as int);
                    assert forall|d: usize, w: WidgetId|
                        spec_over_contains(*self, d, w)
                            == spec_over_contains(*old(self), d, w) by {
                        if d == cursor_index {
                            lemma_find_cursor(cs0, d, 0);
                            lemma_find_first_is_min_cursor(self.cursors@, d, 0, i as int);
                            assert(!spec_over_contains(*old(self), d, w));
                            let c = self.cursors@[i as int];
                            if c.last_over_widgets@.contains(w) {
                                let j = choose|j: int|
                                    0 <= j < c.last_over_widgets@.len()
                                        && #[trigger] c.last_over_widgets@[j] == w;
                                assert(false);
                            }
                        } else {
                            lemma_find_cursor_stable(cs0, self.cursors@, d, 0);
                            let f = find_cursor(cs0, d, 0);
                            lemma_find_cursor(cs0, d, 0);
                            if f >= 0 {
                                assert(self.cursors@[f] == cs0[f]);
                            }
                        }
                    }
                    assert forall|d: usize|
                        spec_captured(*self, d) == spec_captured(*old(self), d)
                            || (d == cursor_index && spec_captured(*old(self), d) is None
                                && spec_captured(*self, d) == Some(None::<WidgetId>)) by {
                        if d == cursor_index {
                            lemma_find_cursor(cs0, d, 0);
                            lemma_find_first_is_min_cursor(self.cursors@, d, 0, i as int);
                        } else {
                            lemma_find_cursor_stable(cs0, self.cursors@, d, 0);
                            let f = find_cursor(cs0, d, 0);
                            lemma_find_cursor(cs0, d, 0);
                            if f >= 0 {
                                assert(self.cursors@[f] == cs0[f]);
                            }
                        }
                    }
                }
                i
            },
        }
    }

    /// The position of keyboard device `d`'s context, created unfocused on
    /// first use.
    pub fn get_keyboard_context(&mut self, keyboard_index: usize, n: Ghost<int>) -> (r: usize)
        requires
            ctx_wf(*old(self), n@),
        ensures
            ctx_wf(*final(self), n@),
            final(self).cursors == old(self).cursors,
            r < final(self).keyboards@.len(),
            r == find_keyboard(final(self).keyboards@, keyboard_index, 0),
            final(self).keyboards@[r as int].keyboard_index == keyboard_index,
            if find_keyboard(old(self).keyboards@, keyboard_index, 0) >= 0 {
                final(self).keyboards@ == old(self).keyboards@
            } else {
                &&& final(self).keyboards@.len() == old(self).keyboards@.len() + 1
                &&& final(self).keyboards@.take(old(self).keyboards@.len() as int)
                    == old(self).keyboards@
                &&& r as int == old(self).keyboards@.len()
                &&& final(self).keyboards@[r as int].focused_widget is None
            },
    {
        proof {
            lemma_find_keyboard(self.keyboards@, keyboard_index, 0);
        }
        let found = self.try_get_keyboard_context(keyboard_index);
        match found {
            Some(i) => {
                proof {
                    assert(find_keyboard(self.keyboards@, keyboard_index, 0) == i as int);
                    assert(self.keyboards@[i as int].keyboard_index == keyboard_index);
                }
                i
            },
            None => {
                let ghost ks0 = self.keyboards@;
                let i = self.keyboards.len();
                self.keyboards.push(KeyboardEventContext {
                    keyboard_index,
                    focused_widget: None,
                });
                proof {
                    assert forall|m: int| 0 <= m < ks0.len()
                        implies self.keyboards@[m] == ks0[m] by {}
                    assert(self.keyboards@.take(ks0.len() as int) =~= ks0);
                    assert forall|m: int| 0 <= m < ks0.len()
                        implies (#[trigger] ks0[m]).keyboard_index != keyboard_index by {
                        lemma_find_keyboard(ks0, keyboard_index, 0);
                    }
                    lemma_find_first_is_min_keyboard(self.keyboards@, keyboard_index, 0, i as int);
                }
                i
            },
        }
    }
}

/// Appending one record changes each count by exactly that record's
/// contribution.
pub proof fn lemma_count_push(log: Seq<DispatchRecord>, r: DispatchRecord, w: WidgetId, d: usize)
    ensures
        count_enters(log.push(r), w, d) == count_enters(log, w, d)
            + if is_enter(r, w, d) { 1int } else { 0 },
        count_leaves(log.push(r), w, d) == count_leaves(log, w, d)
            + if is_leave(r, w, d) { 1int } else { 0 },
{
    assert(log.push(r).drop_last() =~= log);
    assert(log.push(r).last() == r);
}

/// The dispatch records of a focus hand-over on keyboard `kb`: the old
/// holder is unfocused first, the new holder focused after.
pub open spec fn spec_focus_records(
    oldf: Option<WidgetId>,
    newf: Option<WidgetId>,
    kb: usize,
) -> Seq<DispatchRecord> {
    (match oldf {
        Some(w) => seq![
            DispatchRecord { target: w, event: WidgetEvent::OnUnfocus { keyboard: kb } },
        ],
        None => Seq::<DispatchRecord>::empty(),
    }) + (match newf {
        Some(w) => seq![
            DispatchRecord { target: w, event: WidgetEvent::OnFocus { keyboard: kb } },
        ],
        None => Seq::<DispatchRecord>::empty(),
    })
}

/// Whether `a` and `b` are the same optional widget.
pub fn opt_id_eq(a: &Option<WidgetId>, b: &Option<WidgetId>) -> (r: bool)
    ensures
        r == (a == b),
{
    match (a, b) {
        (Some(x), Some(y)) => x == y,
        (None, None) => true,
        _ => false,
    }
}

impl KeyboardEventContext {
    /// Moves this keyboard's focus to `widget`: a no-op if it is already
    /// focused, otherwise the old holder receives `OnUnfocus` before the
    /// new holder receives `OnFocus`, and the new holder is recorded — a
    /// keyboard focuses at most one widget at a time.
    pub fn change_focus(&mut self, tree: &mut WidgetTree, widget: Option<WidgetId>)
        requires
            tree_wf(*old(tree)),
            match widget {
                Some(w) => w < old(tree).nodes@.len(),
                None => true,
            },
            match old(self).focused_widget {
                Some(w) => w < old(tree).nodes@.len(),
                None => true,
            },
        ensures
            tree_wf(*final(tree)),
            final(tree).nodes@.len() == old(tree).nodes@.len(),
            final(self).keyboard_index == old(self).keyboard_index,
            if old(self).focused_widget == widget {
                &&& *final(self) == *old(self)
                &&& *final(tree) == *old(tree)
            } else {
                &&& final(self).focused_widget == widget
                &&& final(tree).dispatched@ == old(tree).dispatched@ + spec_focus_records(
                    old(self).focused_widget, widget, old(self).keyboard_index)
                &&& ({
                    let t1 = match old(self).focused_widget {
                        Some(w) => old(tree).nodes@.update(
                            w as int,
                            spec_node_step(old(tree).nodes@[w as int], WidgetEvent::OnUnfocus {
                                keyboard: old(self).keyboard_index,
                            }),
                        ),
                        None => old(tree).nodes@,
                    };
                    final(tree).nodes@ == match widget {
                        Some(w) => t1.update(
                            w as int,
                            spec_node_step(t1[w as int], WidgetEvent::OnFocus {
                                keyboard: old(self).keyboard_index,
                            }),
                        ),
                        None => t1,
                    }
                })
            },
            old(tree).dispatched@.len() <= final(tree).dispatched@.len(),
            final(tree).dispatched@.take(old(tree).dispatched@.len() as int)
                == old(tree).dispatched@,
            forall|i: int| old(tree).dispatched@.len() <= i < final(tree).dispatched@.len() ==> {
                &&& ((#[trigger] final(tree).dispatched@[i]).event is OnFocus
                    || final(tree).dispatched@[i].event is OnUnfocus)
            },
    {
        if opt_id_eq(&self.focused_widget, &widget) {
            proof {
                assert(final(tree).dispatched@.take(old(tree).dispatched@.len() as int)
                    =~= old(tree).dispatched@);
            }
            return;
        }
        let kb = self.keyboard_index;
        match self.focused_widget {
            Some(already_focused) => {
                tree.dispatch_event(already_focused, &WidgetEvent::OnUnfocus { keyboard: kb });
            },
            None => {},
        }
        match widget {
            Some(w) => {
                tree.dispatch_event(w, &WidgetEvent::OnFocus { keyboard: kb });
            },
            None => {},
        }
        self.focused_widget = widget;
        proof {
            assert(tree.dispatched@ =~= old(tree).dispatched@ + spec_focus_records(
                old(self).focused_widget, widget, kb));
            assert(tree.dispatched@.take(old(tree).dispatched@.len() as int)
                =~= old(tree).dispatched@);
        }
    }
}

/// The dispatch records of leave notifications to each widget of an
/// over-set, in stored order.
pub open spec fn spec_leave_records(over: Seq<WidgetId>, d: usize) -> Seq<DispatchRecord> {
    Seq::new(over.len(), |j: int| DispatchRecord {
        target: over[j],
        event: WidgetEvent::OnCursorLeave { cursor: d },
    })
}

impl EventContext {
    /// Moves keyboard `keyboard`'s focus to `widget`, creating the device's
    /// context on first use: the old holder is unfocused before the new one
    /// is focused, and afterwards the device focuses exactly `widget`.
    pub fn change_focus(
        &mut self,
        tree: &mut WidgetTree,
        keyboard: usize,
        widget: Option<WidgetId>,
    )
        requires
            tree_wf(*old(tree)),
            ctx_wf(*old(self), old(tree).nodes@.len() as int),
            match widget {
                Some(w) => w < old(tree).nodes@.len(),
                None => true,
            },
        ensures
            tree_wf(*final(tree)),
            final(tree).nodes@.len() == old(tree).nodes@.len(),
            final(tree).nodes@ == old(tree).nodes@,
            ctx_wf(*final(self), final(tree).nodes@.len() as int),
            final(self).cursors == old(self).cursors,
            spec_focused(*final(self), keyboard) == Some(widget),
            forall|d: usize| d != keyboard
                ==> spec_focused(*final(self), d) == spec_focused(*old(self), d),
            old(tree).dispatched@.len() <= final(tree).dispatched@.len(),
            final(tree).dispatched@.take(old(tree).dispatched@.len() as int)
                == old(tree).dispatched@,
            forall|i: int| old(tree).dispatched@.len() <= i < final(tree).dispatched@.len()
                ==> ((#[trigger] final(tree).dispatched@[i]).event is OnFocus
                    || final(tree).dispatched@[i].event is OnUnfocus),
            cursor_balance(*old(tree), *old(self))
                ==> cursor_balance(*final(tree), *final(self)),
    {
        let ghost n = old(tree).nodes@.len() as int;
        let i = self.get_keyboard_context(keyboard, Ghost(old(tree).nodes@.len() as int));
        let ghost mid = self.keyboards@;
        let kb = &mut self.keyboards[i];
        kb.change_focus(tree, widget);
        proof {
            assert(self.keyboards@ == mid.update(i as int, self.keyboards@[i as int]));
            assert forall|m: int| 0 <= m < self.keyboards@.len()
                implies (#[trigger] self.keyboards@[m]).keyboard_index
                    == mid[m].keyboard_index by {}
            lemma_find_keyboard_stable(mid, self.keyboards@, keyboard, 0);
            assert(find_keyboard(self.keyboards@, keyboard, 0) == i as int);
            assert(self.keyboards@[i as int].focused_widget == widget);
            assert forall|d: usize| d != keyboard
                implies spec_focused(*self, d) == spec_focused(*old(self), d) by {
                lemma_find_keyboard_stable(mid, self.keyboards@, d, 0);
                lemma_find_keyboard(mid, d, 0);
                if find_keyboard(old(self).keyboards@, d, 0) >= 0 {
                    lemma_find_keyboard_stable(
                        old(self).keyboards@, mid, d, 0);
                    lemma_find_keyboard(old(self).keyboards@, d, 0);
                    assert(self.keyboards@[find_keyboard(mid, d, 0)]
                        == mid[find_keyboard(mid, d, 0)]);
                } else {
                    lemma_find_keyboard(old(self).keyboards@, d, 0);
                    lemma_find_keyboard_stable(old(self).keyboards@, mid, d, 0);
                }
            }
            assert(tree.nodes@ =~= old(tree).nodes@) by {
                let oldf = mid[i as int].focused_widget;
                let kbi = mid[i as int].keyboard_index;
                if oldf != widget {
                    let t0 = old(tree).nodes@;
                    let t1 = match oldf {
                        Some(w) => t0.update(w as int, spec_node_step(
                            t0[w as int], WidgetEvent::OnUnfocus { keyboard: kbi })),
                        None => t0,
                    };
                    match oldf {
                        Some(w) => {
                            assert(spec_node_step(
                                t0[w as int],
                                WidgetEvent::OnUnfocus { keyboard: kbi },
                            ) == t0[w as int]);
                            assert(t1 =~= t0);
                        },
                        None => {},
                    }
                    match widget {
                        Some(w) => {
                            assert(spec_node_step(
                                t1[w as int],
                                WidgetEvent::OnFocus { keyboard: kbi },
                            ) == t1[w as int]);
                        },
                        None => {},
                    }
                }
            }
            if cursor_balance(*old(tree), *old(self)) {
                assert forall|d: usize, w: WidgetId| spec_over_contains(*self, d, w)
                    == spec_over_contains(*old(self), d, w) by {}
                lemma_balance_preserved(*old(tree), *tree, *old(self), *self);
            }
        }
    }

    /// Delivers a key-press to keyboard `keyboard_index`'s focused widget,
    /// if that device is known and focuses one; there is no bubbling.
    pub fn handle_key_down(
        &self,
        tree: &mut WidgetTree,
        keyboard_index: usize,
        key_physical: usize,
        key: Option<u32>,
    )
        requires
            tree_wf(*old(tree)),
            ctx_wf(*self, old(tree).nodes@.len() as int),
        ensures
            tree_wf(*final(tree)),
            final(tree).nodes@ == old(tree).nodes@,
            final(tree).dispatched@ == old(tree).dispatched@ + (
                match spec_focused(*self, keyboard_index) {
                    Some(Some(w)) => seq![
                        DispatchRecord {
                            target: w,
                            event: WidgetEvent::OnKeyDown {
                                keyboard: keyboard_index, key_physical, key,
                            },
                        },
                    ],
                    _ => Seq::<DispatchRecord>::empty(),
                }),
            cursor_balance(*old(tree), *self) ==> cursor_balance(*final(tree), *self),
    {
        let found = self.try_get_keyboard_context(keyboard_index);
        match found {
            Some(i) => {
                proof {
                    lemma_find_keyboard(self.keyboards@, keyboard_index, 0);
                }
                match self.keyboards[i].focused_widget {
                    Some(focused_widget) => {
                        tree.dispatch_event(focused_widget, &WidgetEvent::OnKeyDown {
                            keyboard: keyboard_index,
                            key_physical,
                            key,
                        });
                        proof {
                            lemma_one_neutral_dispatch(
                                *old(tree), *tree, *self, focused_widget);
                        }
                    },
                    None => {
                        proof {
                            lemma_no_dispatch(*old(tree), *tree, *self);
                        }
                    },
                }
            },
            None => {
                proof {
                    lemma_no_dispatch(*old(tree), *tree, *self);
                }
            },
        }
    }

    /// Delivers a key-release to the focused widget, as [`Self::handle_key_down`].
    pub fn handle_key_up(
        &self,
        tree: &mut WidgetTree,
        keyboard_index: usize,
        key_physical: usize,
        key: Option<u32>,
    )
        requires
            tree_wf(*old(tree)),
            ctx_wf(*self, old(tree).nodes@.len() as int),
        ensures
            tree_wf(*final(tree)),
            final(tree).nodes@ == old(tree).nodes@,
            final(tree).dispatched@ == old(tree).dispatched@ + (
                match spec_focused(*self, keyboard_index) {
                    Some(Some(w)) => seq![
                        DispatchRecord {
                            target: w,
                            event: WidgetEvent::OnKeyUp {
                                keyboard: keyboard_index, key_physical, key,
                            },
                        },
                    ],
                    _ => Seq::<DispatchRecord>::empty(),
                }),
            cursor_balance(*old(tree), *self) ==> cursor_balance(*final(tree), *self),
    {
        let found = self.try_get_keyboard_context(keyboard_index);
        match found {
            Some(i) => {
                proof {
                    lemma_find_keyboard(self.keyboards@, keyboard_index, 0);
                }
                match self.keyboards[i].focused_widget {
                    Some(focused_widget) => {
                        tree.dispatch_event(focused_widget, &WidgetEvent::OnKeyUp {
                            keyboard: keyboard_index,
                            key_physical,
                            key,
                        });
                        proof {
                            lemma_one_neutral_dispatch(
                                *old(tree), *tree, *self, focused_widget);
                        }
                    },
                    None => {
                        proof {
                            lemma_no_dispatch(*old(tree), *tree, *self);
                        }
                    },
                }
            },
            None => {
                proof {
                    lemma_no_dispatch(*old(tree), *tree, *self);
                }
            },
        }
    }

    /// Delivers a text character to the focused widget, as
    /// [`Self::handle_key_down`].
    pub fn handle_text(&self, tree: &mut WidgetTree, keyboard_index: usize, character: char)
        requires
            tree_wf(*old(tree)),
            ctx_wf(*self, old(tree).nodes@.len() as int),
        ensures
            tree_wf(*final(tree)),
            final(tree).nodes@ == old(tree).nodes@,
            final(tree).dispatched@ == old(tree).dispatched@ + (
                match spec_focused(*self, keyboard_index) {
                    Some(Some(w)) => seq![
                        DispatchRecord {
                            target: w,
                            event: WidgetEvent::OnText { keyboard: keyboard_index, character },
                        },
                    ],
                    _ => Seq::<DispatchRecord>::empty(),
                }),
            cursor_balance(*old(tree), *self) ==> cursor_balance(*final(tree), *self),
    {
        let found = self.try_get_keyboard_context(keyboard_index);
        match found {
            Some(i) => {
                proof {
                    lemma_find_keyboard(self.keyboards@, keyboard_index, 0);
                }
                match self.keyboards[i].focused_widget {
                    Some(focused_widget) => {
                        tree.dispatch_event(focused_widget, &WidgetEvent::OnText {
                            keyboard: keyboard_index,
                            character,
                        });
                        proof {
                            lemma_one_neutral_dispatch(
                                *old(tree), *tree, *self, focused_widget);
                        }
                    },
                    None => {
                        proof {
                            lemma_no_dispatch(*old(tree), *tree, *self);
                        }
                    },
                }
            },
            None => {
                proof {
                    lemma_no_dispatch(*old(tree), *tree, *self);
                }
            },
        }
    }

    /// The cursor left all widgets: every widget in the device's over-set
    /// receives `OnCursorLeave` and the set is emptied, so enters and
    /// leaves stay balanced.
    pub fn handle_cursor_leave(&mut self, tree: &mut WidgetTree, cursor_index: usize)
        requires
            tree_wf(*old(tree)),
            ctx_wf(*old(self), old(tree).nodes@.len() as int),
        ensures
            tree_wf(*final(tree)),
            final(tree).nodes@ == old(tree).nodes@,
            ctx_wf(*final(self), final(tree).nodes@.len() as int),
            final(self).keyboards == old(self).keyboards,
            forall|w: WidgetId| !spec_over_contains(*final(self), cursor_index, w),
            forall|d: usize, w: WidgetId| d != cursor_index
                ==> spec_over_contains(*final(self), d, w)
                    == spec_over_contains(*old(self), d, w),
            forall|d: usize| spec_captured(*final(self), d) == spec_captured(*old(self), d),
            final(tree).dispatched@ == old(tree).dispatched@ + (
                if find_cursor(old(self).cursors@, cursor_index, 0) >= 0 {
                    spec_leave_records(
                        spec_over_seq(*old(self), cursor_index), cursor_index)
                } else {
                    Seq::<DispatchRecord>::empty()
                }),
            cursor_balance(*old(tree), *old(self))
                ==> cursor_balance(*final(tree), *final(self)),
    {
        let ghost n = old(tree).nodes@.len() as int;
        let found = self.try_get_cursor_context(cursor_index);
        match found {
            Some(i) => {
                proof {
                    lemma_find_cursor(self.cursors@, cursor_index, 0);
                }
                let over = copy_ids(&self.cursors[i].last_over_widgets);
                let ghost overs = over@;
                let mut j: usize = 0;
                while j < over.len()
                    invariant
                        tree_wf(*tree),
                        tree.nodes@ == old(tree).nodes@,
                        overs == over@,
                        0 <= j <= overs.len(),
                        forall|m: int| 0 <= m < overs.len() ==> (#[trigger] overs[m]) < n,
                        forall|m: int, k: int| 0 <= m < k < overs.len()
                            ==> overs[m] != overs[k],
                        n == old(tree).nodes@.len(),
                        tree.dispatched@ == old(tree).dispatched@
                            + spec_leave_records(overs.take(j as int), cursor_index),
                        forall|w: WidgetId, d2: usize| count_enters(tree.dispatched@, w, d2)
                            == count_enters(old(tree).dispatched@, w, d2),
                        forall|w: WidgetId, d2: usize| count_leaves(tree.dispatched@, w, d2)
                            == count_leaves(old(tree).dispatched@, w, d2)
                                + if d2 == cursor_index && overs.take(j as int).contains(w) {
                                    1int
                                } else {
                                    0
                                },
                    decreases overs.len() - j,
                {
                    let w = over[j];
                    let ghost log0 = tree.dispatched@;
                    tree.dispatch_event(w, &WidgetEvent::OnCursorLeave { cursor: cursor_index });
                    proof {
                        let r = DispatchRecord {
                            target: w,
                            event: WidgetEvent::OnCursorLeave { cursor: cursor_index },
                        };
                        assert(tree.dispatched@ == log0.push(r));
                        assert(tree.dispatched@ =~= old(tree).dispatched@
                            + spec_leave_records(overs.take(j + 1), cursor_index));
                        assert forall|w2: WidgetId, d2: usize|
                            count_enters(tree.dispatched@, w2, d2)
                                == count_enters(old(tree).dispatched@, w2, d2)
                            && count_leaves(tree.dispatched@, w2, d2)
                                == count_leaves(old(tree).dispatched@, w2, d2)
                                    + if d2 == cursor_index && overs.take(j + 1).contains(w2) {
                                        1int
                                    } else {
                                        0
                                    } by {
                            lemma_count_push(log0, r, w2, d2);
                            if d2 == cursor_index {
                                if w2 == w {
                                    assert(overs.take(j + 1).contains(w2)) by {
                                        assert(overs.take(j + 1)[j as int] == w);
                                    }
                                    assert(!overs.take(j as int).contains(w2));
                                } else {
                                    assert(overs.take(j + 1).contains(w2)
                                        == overs.take(j as int).contains(w2)) by {
                                        if overs.take(j as int).contains(w2) {
                                            let m = choose|m: int|
                                                0 <= m < j && #[trigger] overs.take(
                                                    j as int)[m] == w2;
                                            assert(overs.take(j + 1)[m] == w2);
                                        }
                                        if overs.take(j + 1).contains(w2) {
                                            let m = choose|m: int|
                                                0 <= m < j + 1 && #[trigger] overs.take(
                                                    j + 1)[m] == w2;
                                            assert(m < j);
                                            assert(overs.take(j as int)[m] == w2);
                                        }
                                    }
                                }
                            }
                        }
                        assert(tree.nodes@ =~= old(tree).nodes@) by {
                            lemma_leave_step_keeps_node(old(tree).nodes@, w as int, cursor_index);
                        }
                    }
                    j = j + 1;
                }
                let ghost cs_mid = self.cursors@;
                let c = &mut self.cursors[i];
                c.last_over_widgets = Vec::new();
                proof {
                    assert(overs.take(overs.len() as int) =~= overs);
                    assert forall|m: int| 0 <= m < self.cursors@.len()
                        implies (#[trigger] self.cursors@[m]).cursor_index
                            == cs_mid[m].cursor_index by {}
                    lemma_find_cursor_stable(cs_mid, self.cursors@, cursor_index, 0);
                    assert forall|d: usize| spec_captured(*self, d)
                        == spec_captured(*old(self), d) by {
                        lemma_find_cursor_stable(cs_mid, self.cursors@, d, 0);
                        lemma_find_cursor(cs_mid, d, 0);
                        let f = find_cursor(cs_mid, d, 0);
                        if f >= 0 && f != i as int {
                            assert(self.cursors@[f] == cs_mid[f]);
                        }
                    }
                    assert forall|d: usize, w: WidgetId| d != cursor_index
                        implies spec_over_contains(*self, d, w)
                            == spec_over_contains(*old(self), d, w) by {
                        lemma_find_cursor_stable(cs_mid, self.cursors@, d, 0);
                        lemma_find_cursor(cs_mid, d, 0);
                        let f = find_cursor(cs_mid, d, 0);
                        if f >= 0 {
                            assert(cs_mid[f].cursor_index == d);
                            assert(f != i as int);
                            assert(self.cursors@[f] == cs_mid[f]);
                        }
                    }
                    if cursor_balance(*old(tree), *old(self)) {
                        assert forall|d: usize, w: WidgetId|
                            count_enters(tree.dispatched@, w, d)
                                - count_leaves(tree.dispatched@, w, d)
                                == if spec_over_contains(*self, d, w) { 1int } else { 0 } by {
                            if d == cursor_index {
                                assert(spec_over_contains(*old(self), d, w)
                                    == overs.contains(w));
                                assert(!spec_over_contains(*self, d, w));
                            }
                        }
                    }
                }
            },
            None => {
                proof {
                    lemma_find_cursor(self.cursors@, cursor_index, 0);
                    assert(tree.dispatched@ =~= old(tree).dispatched@
                        + Seq::<DispatchRecord>::empty());
                }
            },
        }
    }
}

/// A cursor-leave delivery leaves the node's state unchanged.
proof fn lemma_leave_step_keeps_node(
    t: Seq<crate::widget::WidgetState>,
    w: int,
    d: usize,
)
    requires
        0 <= w < t.len(),
    ensures
        t.update(w, spec_node_step(t[w], WidgetEvent::OnCursorLeave { cursor: d })) =~= t,
{
    assert(spec_node_step(t[w], WidgetEvent::OnCursorLeave { cursor: d }) == t[w]);
}

/// A single delivery of a non-cursor event preserves the balance and, for
/// events no widget's step reacts to, the nodes themselves.
proof fn lemma_one_neutral_dispatch(
    t0: WidgetTree,
    t1: WidgetTree,
    ctx: EventContext,
    w: WidgetId,
)
    requires
        t1.dispatched@.len() == t0.dispatched@.len() + 1,
        forall|i: int| 0 <= i < t0.dispatched@.len()
            ==> #[trigger] t1.dispatched@[i] == t0.dispatched@[i],
        !(t1.dispatched@.last().event is OnCursorEnter),
        !(t1.dispatched@.last().event is OnCursorLeave),
    ensures
        cursor_balance(t0, ctx) ==> cursor_balance(t1, ctx),
{
    if cursor_balance(t0, ctx) {
        assert(t1.dispatched@.take(t0.dispatched@.len() as int) =~= t0.dispatched@);
        lemma_balance_preserved(t0, t1, ctx, ctx);
    }
}

/// No delivery at all preserves the balance.
proof fn lemma_no_dispatch(t0: WidgetTree, t1: WidgetTree, ctx: EventContext)
    requires
        t1.dispatched@ == t0.dispatched@,
    ensures
        cursor_balance(t0, ctx) ==> cursor_balance(t1, ctx),
{
    if cursor_balance(t0, ctx) {
        assert(t1.dispatched@.take(t0.dispatched@.len() as int) =~= t0.dispatched@);
        lemma_balance_preserved(t0, t1, ctx, ctx);
    }
}

/// The deliveries a routing entry point has appended to the dispatch log.
pub open spec fn spec_appended(t0: WidgetTree, t1: WidgetTree) -> Seq<DispatchRecord> {
    t1.dispatched@.skip(t0.dispatched@.len() as int)
}

/// One delivery extends the applied record suffix by exactly itself.
proof fn lemma_applied_push(
    t0: WidgetTree,
    t_pre: WidgetTree,
    t_now: WidgetTree,
    r: DispatchRecord,
)
    requires
        t0.dispatched@.len() <= t_pre.dispatched@.len(),
        t_now.dispatched@ == t_pre.dispatched@.push(r),
        t_pre.nodes@ == crate::dispatch::spec_apply_records(
            t0.nodes@, spec_appended(t0, t_pre)),
        t_now.nodes@ == (if 0 <= r.target < t_pre.nodes@.len() {
            t_pre.nodes@.update(
                r.target as int,
                spec_node_step(t_pre.nodes@[r.target as int], r.event),
            )
        } else {
            t_pre.nodes@
        }),
    ensures
        t_now.nodes@ == crate::dispatch::spec_apply_records(
            t0.nodes@, spec_appended(t0, t_now)),
{
    assert(spec_appended(t0, t_now) =~= spec_appended(t0, t_pre).push(r));
    crate::dispatch::lemma_apply_push(t0.nodes@, spec_appended(t0, t_pre), r);
}

/// A focus-only log extension leaves the applied suffix's effect unchanged.
proof fn lemma_applied_focus(t0: WidgetTree, t_pre: WidgetTree, t_now: WidgetTree)
    requires
        t0.dispatched@.len() <= t_pre.dispatched@.len(),
        t_pre.dispatched@.len() <= t_now.dispatched@.len(),
        t_now.dispatched@.take(t_pre.dispatched@.len() as int) == t_pre.dispatched@,
        forall|i: int| t_pre.dispatched@.len() <= i < t_now.dispatched@.len()
            ==> ((#[trigger] t_now.dispatched@[i]).event is OnFocus
                || t_now.dispatched@[i].event is OnUnfocus),
        t_now.nodes@ == t_pre.nodes@,
        t_pre.nodes@ == crate::dispatch::spec_apply_records(
            t0.nodes@, spec_appended(t0, t_pre)),
    ensures
        t_now.nodes@ == crate::dispatch::spec_apply_records(
            t0.nodes@, spec_appended(t0, t_now)),
{
    let base = t0.dispatched@.len() as int;
    let snew = spec_appended(t0, t_now);
    let k = t_pre.dispatched@.len() - base;
    assert(snew.take(k) =~= spec_appended(t0, t_pre)) by {
        assert forall|m: int| 0 <= m < k
            implies snew[m] == spec_appended(t0, t_pre)[m] by {
            assert(t_now.dispatched@[base + m] == t_pre.dispatched@[base + m]);
        }
    }
    crate::dispatch::lemma_apply_focus_suffix(t0.nodes@, snew, k);
}

/// The stored over-set of cursor device `d`, or empty if the device is
/// unknown.
pub open spec fn spec_over_seq(ctx: EventContext, d: usize) -> Seq<WidgetId> {
    let i = find_cursor(ctx.cursors@, d, 0);
    if i >= 0 {
        ctx.cursors@[i].last_over_widgets@
    } else {
        Seq::empty()
    }
}

/// The records an uncaptured cursor move dispatches for the first `k`
/// widgets of the bubble order: per first occurrence, an enter if the
/// widget was not already under the cursor, then a move — enter always
/// precedes move.
pub open spec fn spec_enter_move_records(
    order: Seq<WidgetId>,
    k: int,
    old_over: Seq<WidgetId>,
    d: usize,
    pos: Vec2,
) -> Seq<DispatchRecord>
    decreases k,
{
    if k <= 0 {
        Seq::empty()
    } else {
        let rest = spec_enter_move_records(order, k - 1, old_over, d, pos);
        let w = order[k - 1];
        if order.take(k - 1).contains(w) {
            rest
        } else if old_over.contains(w) {
            rest + seq![
                DispatchRecord {
                    target: w,
                    event: WidgetEvent::OnCursorMove { cursor: d, pos },
                },
            ]
        } else {
            rest + seq![
                DispatchRecord { target: w, event: WidgetEvent::OnCursorEnter { cursor: d } },
                DispatchRecord {
                    target: w,
                    event: WidgetEvent::OnCursorMove { cursor: d, pos },
                },
            ]
        }
    }
}

/// The leave records an uncaptured cursor move dispatches for the first `k`
/// widgets of the previous over-set: one per widget no longer under the
/// cursor.
pub open spec fn spec_leave_filtered_records(
    old_over: Seq<WidgetId>,
    k: int,
    order: Seq<WidgetId>,
    d: usize,
) -> Seq<DispatchRecord>
    decreases k,
{
    if k <= 0 {
        Seq::empty()
    } else {
        let rest = spec_leave_filtered_records(old_over, k - 1, order, d);
        let w = old_over[k - 1];
        if order.contains(w) {
            rest
        } else {
            rest + seq![
                DispatchRecord { target: w, event: WidgetEvent::OnCursorLeave { cursor: d } },
            ]
        }
    }
}

/// Enter and leave counts distribute over log concatenation.
pub proof fn lemma_count_concat(
    a: Seq<DispatchRecord>,
    b: Seq<DispatchRecord>,
    w: WidgetId,
    d: usize,
)
    ensures
        count_enters(a + b, w, d) == count_enters(a, w, d) + count_enters(b, w, d),
        count_leaves(a + b, w, d) == count_leaves(a, w, d) + count_leaves(b, w, d),
    decreases b.len(),
{
    if b.len() == 0 {
        assert(a + b =~= a);
    } else {
        lemma_count_concat(a, b.drop_last(), w, d);
        assert((a + b).drop_last() =~= a + b.drop_last());
        assert((a + b).last() == b.last());
    }
}

/// Counts over a single-record log.
pub proof fn lemma_count_single(r: DispatchRecord, w: WidgetId, d: usize)
    ensures
        count_enters(seq![r], w, d) == if is_enter(r, w, d) { 1int } else { 0 },
        count_leaves(seq![r], w, d) == if is_leave(r, w, d) { 1int } else { 0 },
{
    let s = seq![r];
    assert(s.len() == 1);
    assert(s.drop_last() =~= Seq::<DispatchRecord>::empty());
    assert(s.last() == r);
    assert(count_enters(s.drop_last(), w, d) == 0);
    assert(count_leaves(s.drop_last(), w, d) == 0);
}

/// Membership in a sequence extended by one element.
pub proof fn lemma_push_contains(s: Seq<WidgetId>, x: WidgetId, y: WidgetId)
    ensures
        s.push(x).contains(y) == (s.contains(y) || y == x),
{
    if s.contains(y) {
        let m = choose|m: int| 0 <= m < s.len() && #[trigger] s[m] == y;
        assert(s.push(x)[m] == y);
    }
    if y == x {
        assert(s.push(x)[s.len() as int] == y);
    }
    if s.push(x).contains(y) {
        let m = choose|m: int| 0 <= m < s.push(x).len() && #[trigger] s.push(x)[m] == y;
        if m < s.len() {
            assert(s[m] == y);
        }
    }
}

/// Membership in a one-longer prefix.
pub proof fn lemma_take_succ_contains(s: Seq<WidgetId>, k: int, y: WidgetId)
    requires
        0 <= k < s.len(),
    ensures
        s.take(k + 1).contains(y) == (s.take(k).contains(y) || y == s[k]),
{
    assert(s.take(k + 1) =~= s.take(k).push(s[k]));
    lemma_push_contains(s.take(k), s[k], y);
}

/// The counts contributed by the enter/move records of a cursor move: one
/// enter for each newly entered widget, no leaves.
pub proof fn lemma_enter_move_counts(
    order: Seq<WidgetId>,
    k: int,
    old_over: Seq<WidgetId>,
    d: usize,
    pos: Vec2,
    w: WidgetId,
    d2: usize,
)
    requires
        0 <= k <= order.len(),
    ensures
        count_enters(spec_enter_move_records(order, k, old_over, d, pos), w, d2)
            == if d2 == d && order.take(k).contains(w) && !old_over.contains(w) {
                1int
            } else {
                0
            },
        count_leaves(spec_enter_move_records(order, k, old_over, d, pos), w, d2) == 0,
    decreases k,
{
    if k > 0 {
        lemma_enter_move_counts(order, k - 1, old_over, d, pos, w, d2);
        let rest = spec_enter_move_records(order, k - 1, old_over, d, pos);
        let wk = order[k - 1];
        assert forall|ww: WidgetId| order.take(k).contains(ww)
            == (order.take(k - 1).contains(ww) || ww == wk) by {
            if order.take(k).contains(ww) {
                let m = choose|m: int| 0 <= m < k && #[trigger] order.take(k)[m] == ww;
                if m < k - 1 {
                    assert(order.take(k - 1)[m] == ww);
                }
            }
            if order.take(k - 1).contains(ww) {
                let m = choose|m: int| 0 <= m < k - 1 && #[trigger] order.take(k - 1)[m] == ww;
                assert(order.take(k)[m] == ww);
            }
            if ww == wk {
                assert(order.take(k)[k - 1] == wk);
            }
        }
        let mv = DispatchRecord {
            target: wk,
            event: WidgetEvent::OnCursorMove { cursor: d, pos },
        };
        let en = DispatchRecord { target: wk, event: WidgetEvent::OnCursorEnter { cursor: d } };
        if order.take(k - 1).contains(wk) {
        } else if old_over.contains(wk) {
            lemma_count_concat(rest, seq![mv], w, d2);
            lemma_count_single(mv, w, d2);
        } else {
            assert(rest + seq![en, mv] =~= (rest + seq![en]) + seq![mv]);
            lemma_count_concat(rest + seq![en], seq![mv], w, d2);
            lemma_count_concat(rest, seq![en], w, d2);
            lemma_count_single(mv, w, d2);
            lemma_count_single(en, w, d2);
        }
    }
}

/// The counts contributed by the leave records of a cursor move: one leave
/// for each departed widget, no enters.
pub proof fn lemma_leave_filtered_counts(
    old_over: Seq<WidgetId>,
    k: int,
    order: Seq<WidgetId>,
    d: usize,
    w: WidgetId,
    d2: usize,
)
    requires
        0 <= k <= old_over.len(),
        forall|m: int, j: int| 0 <= m < j < old_over.len() ==> old_over[m] != old_over[j],
    ensures
        count_leaves(spec_leave_filtered_records(old_over, k, order, d), w, d2)
            == if d2 == d && old_over.take(k).contains(w) && !order.contains(w) {
                1int
            } else {
                0
            },
        count_enters(spec_leave_filtered_records(old_over, k, order, d), w, d2) == 0,
    decreases k,
{
    if k > 0 {
        lemma_leave_filtered_counts(old_over, k - 1, order, d, w, d2);
        let rest = spec_leave_filtered_records(old_over, k - 1, order, d);
        let wk = old_over[k - 1];
        assert forall|ww: WidgetId| old_over.take(k).contains(ww)
            == (old_over.take(k - 1).contains(ww) || ww == wk) by {
            if old_over.take(k).contains(ww) {
                let m = choose|m: int| 0 <= m < k && #[trigger] old_over.take(k)[m] == ww;
                if m < k - 1 {
                    assert(old_over.take(k - 1)[m] == ww);
                }
            }
            if old_over.take(k - 1).contains(ww) {
                let m = choose|m: int| 0 <= m < k - 1
                    && #[trigger] old_over.take(k - 1)[m] == ww;
                assert(old_over.take(k)[m] == ww);
            }
            if ww == wk {
                assert(old_over.take(k)[k - 1] == wk);
            }
        }
        assert(!old_over.take(k - 1).contains(wk)) by {
            if old_over.take(k - 1).contains(wk) {
                let m = choose|m: int| 0 <= m < k - 1 && #[trigger] old_over.take(k - 1)[m] == wk;
                assert(old_over[m] == old_over[k - 1]);
            }
        }
        if !order.contains(wk) {
            let lv = DispatchRecord { target: wk, event: WidgetEvent::OnCursorLeave { cursor: d } };
            lemma_count_concat(rest, seq![lv], w, d2);
            lemma_count_single(lv, w, d2);
        }
    }
}

impl EventContext {
    /// Routes a cursor move. A captured device forwards the move to its
    /// capturing widget alone. Otherwise every widget of the hit path's
    /// bubble order receives the move, each newly entered widget receives
    /// `OnCursorEnter` first, every widget no longer under the cursor
    /// receives `OnCursorLeave`, and the over-set becomes the set of
    /// widgets on the path.
    pub fn handle_mouse_move(
        &mut self,
        tree: &mut WidgetTree,
        widget_path: &WidgetPath,
        cursor_index: usize,
        pos: &Vec2,
    )
        requires
            tree_wf(*old(tree)),
            ctx_wf(*old(self), old(tree).nodes@.len() as int),
            spec_path_below(*widget_path, old(tree).nodes@.len() as int),
        ensures
            tree_wf(*final(tree)),
            final(tree).nodes@.len() == old(tree).nodes@.len(),
            ctx_wf(*final(self), final(tree).nodes@.len() as int),
            final(self).keyboards == old(self).keyboards,
            forall|d: usize| spec_focused(*final(self), d) == spec_focused(*old(self), d),
            forall|d: usize| spec_captured(*final(self), d) == spec_captured(*old(self), d)
                || (d == cursor_index && spec_captured(*old(self), d) is None
                    && spec_captured(*final(self), d) == Some(None::<WidgetId>)),
            match spec_captured(*old(self), cursor_index) {
                Some(Some(w)) => {
                    &&& final(tree).dispatched@ == old(tree).dispatched@.push(DispatchRecord {
                        target: w,
                        event: WidgetEvent::OnCursorMove { cursor: cursor_index, pos: *pos },
                    })
                    &&& forall|d: usize, w2: WidgetId| spec_over_contains(*final(self), d, w2)
                        == spec_over_contains(*old(self), d, w2)
                },
                _ => {
                    &&& final(tree).dispatched@ == old(tree).dispatched@
                        + spec_enter_move_records(
                            spec_bubble(*widget_path),
                            spec_bubble(*widget_path).len() as int,
                            spec_over_seq(*old(self), cursor_index),
                            cursor_index,
                            *pos,
                        )
                        + spec_leave_filtered_records(
                            spec_over_seq(*old(self), cursor_index),
                            spec_over_seq(*old(self), cursor_index).len() as int,
                            spec_bubble(*widget_path),
                            cursor_index,
                        )
                    &&& forall|w2: WidgetId| spec_over_contains(*final(self), cursor_index, w2)
                        == spec_bubble(*widget_path).contains(w2)
                    &&& forall|d: usize, w2: WidgetId| d != cursor_index
                        ==> spec_over_contains(*final(self), d, w2)
                            == spec_over_contains(*old(self), d, w2)
                },
            },
            cursor_balance(*old(tree), *old(self))
                ==> cursor_balance(*final(tree), *final(self)),
            // the nodes end exactly as the dispatched deliveries step them
            final(tree).nodes@ == crate::dispatch::spec_apply_records(
                old(tree).nodes@, spec_appended(*old(tree), *final(tree))),
    {
        let ghost n = old(tree).nodes@.len() as int;
        let i = self.get_cursor_context(cursor_index, Ghost(old(tree).nodes@.len() as int));
        let ghost cs0 = self.cursors@;
        proof {
            assert(cursor_ctx_ok(self.cursors@[i as int], n));
            assert(spec_appended(*old(tree), *tree) =~= Seq::<DispatchRecord>::empty());
        }
        match self.cursors[i].captured_by_widget {
            Some(captured) => {
                let ghost tp = *tree;
                tree.dispatch_event(captured, &WidgetEvent::OnCursorMove {
                    cursor: cursor_index,
                    pos: *pos,
                });
                proof {
                    lemma_applied_push(*old(tree), tp, *tree, DispatchRecord {
                        target: captured,
                        event: WidgetEvent::OnCursorMove { cursor: cursor_index, pos: *pos },
                    });
                    if cursor_balance(*old(tree), *old(self)) {
                        lemma_one_neutral_dispatch(*old(tree), *tree, *old(self), captured);
                        assert(tree.dispatched@.take(tree.dispatched@.len() as int)
                            =~= tree.dispatched@);
                        lemma_balance_preserved(*tree, *tree, *old(self), *self);
                    }
                }
            },
            None => {
                let order = widget_path.bubble();
                let ghost ord = order@;
                proof {
                    crate::path::lemma_bubble_below(*widget_path, n);
                }
                let old_over = copy_ids(&self.cursors[i].last_over_widgets);
                let ghost oldov = old_over@;
                proof {
                    assert(oldov == spec_over_seq(*old(self), cursor_index));
                }
                let mut new_over: Vec<WidgetId> = Vec::new();
                let mut k: usize = 0;
                while k < order.len()
                    invariant
                        tree_wf(*tree),
                        tree.nodes@.len() == n,
                        n == old(tree).nodes@.len(),
                        ord == order@,
                        oldov == old_over@,
                        forall|m: int| 0 <= m < ord.len() ==> (#[trigger] ord[m]) < n,
                        0 <= k <= ord.len(),
                        forall|w2: WidgetId| new_over@.contains(w2)
                            == ord.take(k as int).contains(w2),
                        forall|m: int, j: int| 0 <= m < j < new_over@.len()
                            ==> new_over@[m] != new_over@[j],
                        forall|m: int| 0 <= m < new_over@.len()
                            ==> (#[trigger] new_over@[m]) < n,
                        tree.dispatched@ == old(tree).dispatched@
                            + spec_enter_move_records(ord, k as int, oldov, cursor_index, *pos),
                        tree.nodes@ == crate::dispatch::spec_apply_records(
                            old(tree).nodes@, spec_appended(*old(tree), *tree)),
                    decreases ord.len() - k,
                {
                    let w = order[k];
                    let ghost log0 = tree.dispatched@;
                    proof {
                        assert(ord.take(k + 1).drop_last() =~= ord.take(k as int));
                        assert(ord.take(k + 1)[k as int] == w);
                    }
                    if !contains_id(&new_over, w) {
                        if !contains_id(&old_over, w) {
                            let ghost tp = *tree;
                            tree.dispatch_event(w, &WidgetEvent::OnCursorEnter {
                                cursor: cursor_index,
                            });
                            proof {
                                lemma_applied_push(*old(tree), tp, *tree, DispatchRecord {
                                    target: w,
                                    event: WidgetEvent::OnCursorEnter {
                                        cursor: cursor_index,
                                    },
                                });
                            }
                        }
                        let ghost tp = *tree;
                        tree.dispatch_event(w, &WidgetEvent::OnCursorMove {
                            cursor: cursor_index,
                            pos: *pos,
                        });
                        proof {
                            lemma_applied_push(*old(tree), tp, *tree, DispatchRecord {
                                target: w,
                                event: WidgetEvent::OnCursorMove {
                                    cursor: cursor_index,
                                    pos: *pos,
                                },
                            });
                        }
                        let ghost prev = new_over@;
                        new_over.push(w);
                        proof {
                            assert(tree.dispatched@ =~= old(tree).dispatched@
                                + spec_enter_move_records(
                                    ord, k + 1, oldov, cursor_index, *pos));
                            assert(new_over@ == prev.push(w));
                            assert forall|w2: WidgetId| new_over@.contains(w2)
                                == ord.take(k + 1).contains(w2) by {
                                lemma_push_contains(prev, w, w2);
                                lemma_take_succ_contains(ord, k as int, w2);
                            }
                            assert forall|m: int, j: int| 0 <= m < j < new_over@.len()
                                implies new_over@[m] != new_over@[j] by {
                                if j == new_over@.len() - 1 {
                                    assert(prev.contains(prev[m]));
                                }
                            }
                        }
                    } else {
                        proof {
                            assert(ord.take(k as int).contains(w));
                            assert(tree.dispatched@ =~= old(tree).dispatched@
                                + spec_enter_move_records(
                                    ord, k + 1, oldov, cursor_index, *pos));
                            assert forall|w2: WidgetId| new_over@.contains(w2)
                                == ord.take(k + 1).contains(w2) by {
                                lemma_take_succ_contains(ord, k as int, w2);
                            }
                        }
                    }
                    k = k + 1;
                }
                proof {
                    assert(ord.take(ord.len() as int) =~= ord);
                }
                let mut m: usize = 0;
                while m < old_over.len()
                    invariant
                        tree_wf(*tree),
                        tree.nodes@.len() == n,
                        n == old(tree).nodes@.len(),
                        ord == order@,
                        oldov == old_over@,
                        forall|j: int| 0 <= j < oldov.len() ==> (#[trigger] oldov[j]) < n,
                        forall|w2: WidgetId| new_over@.contains(w2) == ord.contains(w2),
                        0 <= m <= oldov.len(),
                        tree.dispatched@ == old(tree).dispatched@
                            + spec_enter_move_records(
                                ord, ord.len() as int, oldov, cursor_index, *pos)
                            + spec_leave_filtered_records(
                                oldov, m as int, ord, cursor_index),
                        tree.nodes@ == crate::dispatch::spec_apply_records(
                            old(tree).nodes@, spec_appended(*old(tree), *tree)),
                    decreases oldov.len() - m,
                {
                    let w = old_over[m];
                    proof {
                        assert(oldov.take(m + 1).drop_last() =~= oldov.take(m as int));
                        assert(oldov.take(m + 1)[m as int] == w);
                    }
                    if !contains_id(&new_over, w) {
                        let ghost tp = *tree;
                        tree.dispatch_event(w, &WidgetEvent::OnCursorLeave {
                            cursor: cursor_index,
                        });
                        proof {
                            lemma_applied_push(*old(tree), tp, *tree, DispatchRecord {
                                target: w,
                                event: WidgetEvent::OnCursorLeave { cursor: cursor_index },
                            });
                        }
                    }
                    proof {
                        assert(tree.dispatched@ =~= old(tree).dispatched@
                            + spec_enter_move_records(
                                ord, ord.len() as int, oldov, cursor_index, *pos)
                            + spec_leave_filtered_records(
                                oldov, m + 1, ord, cursor_index));
                    }
                    m = m + 1;
                }
                let ghost cs_mid = self.cursors@;
                let ghost newov = new_over@;
                let c = &mut self.cursors[i];
                c.last_over_widgets = new_over;
                proof {
                    assert forall|j: int| 0 <= j < self.cursors@.len()
                        implies (#[trigger] self.cursors@[j]).cursor_index
                            == cs_mid[j].cursor_index by {}
                    lemma_find_cursor_stable(cs_mid, self.cursors@, cursor_index, 0);
                    assert(find_cursor(self.cursors@, cursor_index, 0) == i as int);
                    assert forall|d: usize, w2: WidgetId| d != cursor_index
                        implies spec_over_contains(*self, d, w2)
                            == spec_over_contains(*old(self), d, w2) by {
                        lemma_find_cursor_stable(cs_mid, self.cursors@, d, 0);
                        lemma_find_cursor(cs_mid, d, 0);
                        let f = find_cursor(cs_mid, d, 0);
                        if f >= 0 {
                            assert(f != i as int);
                            assert(self.cursors@[f] == cs_mid[f]);
                        }
                    }
                    assert forall|d: usize| spec_captured(*self, d)
                        == spec_captured(*old(self), d)
                        || (d == cursor_index && spec_captured(*old(self), d) is None
                            && spec_captured(*self, d) == Some(None::<WidgetId>)) by {
                        lemma_find_cursor_stable(cs_mid, self.cursors@, d, 0);
                        lemma_find_cursor(cs_mid, d, 0);
                        let f = find_cursor(cs_mid, d, 0);
                        if f >= 0 && f != i as int {
                            assert(self.cursors@[f] == cs_mid[f]);
                        }
                    }
                    if cursor_balance(*old(tree), *old(self)) {
                        assert forall|d: usize, w2: WidgetId|
                            count_enters(tree.dispatched@, w2, d)
                                - count_leaves(tree.dispatched@, w2, d)
                                == if spec_over_contains(*self, d, w2) { 1int } else { 0 } by {
                            let a = spec_enter_move_records(
                                ord, ord.len() as int, oldov, cursor_index, *pos);
                            let b = spec_leave_filtered_records(
                                oldov, oldov.len() as int, ord, cursor_index);
                            lemma_count_concat(old(tree).dispatched@ + a, b, w2, d);
                            lemma_count_concat(old(tree).dispatched@, a, w2, d);
                            lemma_enter_move_counts(
                                ord, ord.len() as int, oldov, cursor_index, *pos, w2, d);
                            lemma_leave_filtered_counts(
                                oldov, oldov.len() as int, ord, cursor_index, w2, d);
                            assert(oldov.take(oldov.len() as int) =~= oldov);
                            assert(spec_over_contains(*old(self), cursor_index, w2)
                                == oldov.contains(w2));
                            if d == cursor_index {
                                assert(spec_over_contains(*self, d, w2) == newov.contains(w2));
                            }
                        }
                    }
                }
            },
        }
    }
}

/// The capture state of a device, with an unknown device counting as
/// uncaptured.
pub open spec fn spec_cap_of(pre: Option<Option<WidgetId>>) -> Option<WidgetId> {
    match pre {
        Some(x) => x,
        None => None,
    }
}

/// The focus state of a device, with an unknown device counting as
/// unfocused.
pub open spec fn spec_focus_of(pre: Option<Option<WidgetId>>) -> Option<WidgetId> {
    match pre {
        Some(x) => x,
        None => None,
    }
}

/// Whether applying `reply` from `widget` grants a cursor capture: only if
/// the reply was handled, requested one, and the device has no capture yet.
pub open spec fn spec_capture_granted(ctx: EventContext, widget: WidgetId, reply: Reply) -> bool {
    &&& reply.handled
    &&& match reply.capture_cursor {
        Some(c) => spec_cap_of(spec_captured(ctx, c)) is None,
        None => false,
    }
}

/// The capture state of device `c` after the capture request of `reply` is
/// applied.
pub open spec fn spec_captured_mid(
    ctx: EventContext,
    widget: WidgetId,
    reply: Reply,
    c: usize,
) -> Option<WidgetId> {
    let pre = spec_cap_of(spec_captured(ctx, c));
    if reply.handled && reply.capture_cursor == Some(c) && pre is None {
        Some(widget)
    } else {
        pre
    }
}

/// Whether applying `reply` from `widget` releases a cursor capture: only
/// if the reply was handled, requested one, and the requesting widget is
/// the one holding the capture.
pub open spec fn spec_release_granted(ctx: EventContext, widget: WidgetId, reply: Reply) -> bool {
    &&& reply.handled
    &&& match reply.release_cursor {
        Some(c) => spec_captured_mid(ctx, widget, reply, c) == Some(widget),
        None => false,
    }
}

/// The capture state of device `c` after the whole reply is applied.
pub open spec fn spec_captured_post(
    ctx: EventContext,
    widget: WidgetId,
    reply: Reply,
    c: usize,
) -> Option<WidgetId> {
    let mid = spec_captured_mid(ctx, widget, reply, c);
    if reply.handled && reply.release_cursor == Some(c) && mid == Some(widget) {
        None
    } else {
        mid
    }
}

impl EventContext {
    /// Applies the side-effect requests of a handled reply.
    ///
    /// Focus requests move or clear focus per keyboard (unfocus always
    /// precedes focus). A capture request succeeds only while the device
    /// has no capture — once a widget holds a device, another widget's
    /// request is a no-op until the holder releases it — and a release
    /// succeeds only for the holder. Granted capture changes are reported
    /// to the platform boundary.
    #[verifier::rlimit(100)]
    pub fn process_reply(
        &mut self,
        tree: &mut WidgetTree,
        widget: WidgetId,
        reply: &Reply,
        platform: &mut Vec<PlatformRequest>,
    )
        requires
            tree_wf(*old(tree)),
            ctx_wf(*old(self), old(tree).nodes@.len() as int),
            widget < old(tree).nodes@.len(),
        ensures
            !reply.handled ==> *final(tree) == *old(tree) && *final(self) == *old(self)
                && final(platform)@ == old(platform)@,
            reply.take_focus is None && reply.free_focus is None
                ==> final(tree).dispatched@ == old(tree).dispatched@
                    && final(self).keyboards == old(self).keyboards,
            forall|m: int| old(self).cursors@.len() <= m < final(self).cursors@.len()
                ==> (reply.capture_cursor
                        == Some((#[trigger] final(self).cursors@[m]).cursor_index)
                    || reply.release_cursor == Some(final(self).cursors@[m].cursor_index)),
            forall|m: int| old(self).cursors@.len() <= m < final(self).cursors@.len()
                ==> (#[trigger] final(self).cursors@[m]).about_to_be_clicked is None,
            tree_wf(*final(tree)),
            final(tree).nodes@ == old(tree).nodes@,
            ctx_wf(*final(self), final(tree).nodes@.len() as int),
            // the log gains only focus hand-over records
            old(tree).dispatched@.len() <= final(tree).dispatched@.len(),
            final(tree).dispatched@.take(old(tree).dispatched@.len() as int)
                == old(tree).dispatched@,
            forall|i: int| old(tree).dispatched@.len() <= i < final(tree).dispatched@.len()
                ==> ((#[trigger] final(tree).dispatched@[i]).event is OnFocus
                    || final(tree).dispatched@[i].event is OnUnfocus),
            // device entries only accumulate; their identity, over-sets and
            // pending clicks stay
            final(self).cursors@.len() >= old(self).cursors@.len(),
            forall|m: int| 0 <= m < old(self).cursors@.len() ==> {
                &&& (#[trigger] final(self).cursors@[m]).cursor_index
                    == old(self).cursors@[m].cursor_index
                &&& final(self).cursors@[m].last_over_widgets
                    == old(self).cursors@[m].last_over_widgets
                &&& final(self).cursors@[m].about_to_be_clicked
                    == old(self).cursors@[m].about_to_be_clicked
            },
            forall|d: usize, w: WidgetId| spec_over_contains(*final(self), d, w)
                == spec_over_contains(*old(self), d, w),
            // capture exclusivity: each device's capture moves exactly per
            // the granted requests
            forall|c: usize| spec_cap_of(spec_captured(*final(self), c))
                == spec_captured_post(*old(self), widget, *reply, c),
            // granted capture changes are reported to the platform
            final(platform)@ == old(platform)@
                + (if spec_capture_granted(*old(self), widget, *reply) {
                    seq![
                        PlatformRequest::SetCaptureCursor {
                            cursor: reply.capture_cursor->0,
                            capture: true,
                        },
                    ]
                } else {
                    Seq::<PlatformRequest>::empty()
                })
                + (if spec_release_granted(*old(self), widget, *reply) {
                    seq![
                        PlatformRequest::SetCaptureCursor {
                            cursor: reply.release_cursor->0,
                            capture: false,
                        },
                    ]
                } else {
                    Seq::<PlatformRequest>::empty()
                }),
            // focus: a handled take-focus reply focuses the widget on the
            // listed (or all known) keyboards; a free-focus reply clears
            // only what the widget itself holds
            !reply.handled ==> forall|d: usize| spec_focused(*final(self), d)
                == spec_focused(*old(self), d),
            reply.handled ==> (match reply.take_focus {
                Some(WidgetFocusChange::KeyboardList(l)) => {
                    &&& forall|j: int| 0 <= j < l@.len()
                        ==> spec_focused(*final(self), #[trigger] l@[j])
                            == Some(Some(widget))
                    &&& forall|d: usize| !l@.contains(d)
                        ==> spec_focused(*final(self), d) == spec_focused(*old(self), d)
                },
                Some(WidgetFocusChange::AllKeyboards) => {
                    &&& forall|m: int| 0 <= m < old(self).keyboards@.len()
                        ==> spec_focused(
                            *final(self),
                            (#[trigger] old(self).keyboards@[m]).keyboard_index,
                        ) == Some(Some(widget))
                    &&& forall|d: usize| find_keyboard(old(self).keyboards@, d, 0) == -1
                        ==> spec_focused(*final(self), d) == spec_focused(*old(self), d)
                },
                None => match reply.free_focus {
                    Some(WidgetFocusChange::KeyboardList(l)) => {
                        &&& forall|j: int| 0 <= j < l@.len()
                            ==> spec_focused(*final(self), #[trigger] l@[j]) == Some(
                                spec_free_step(spec_focused(*old(self), l@[j]), widget))
                        &&& forall|d: usize| !l@.contains(d)
                            ==> spec_focused(*final(self), d) == spec_focused(*old(self), d)
                    },
                    Some(WidgetFocusChange::AllKeyboards) => {
                        &&& forall|m: int| 0 <= m < old(self).keyboards@.len()
                            ==> spec_focus_of(spec_focused(
                                *final(self),
                                (#[trigger] old(self).keyboards@[m]).keyboard_index,
                            )) == spec_free_step(
                                spec_focused(
                                    *old(self),
                                    old(self).keyboards@[m].keyboard_index,
                                ),
                                widget,
                            )
                        &&& forall|d: usize| find_keyboard(old(self).keyboards@, d, 0) == -1
                            ==> spec_focused(*final(self), d)
                                == spec_focused(*old(self), d)
                    },
                    None => forall|d: usize| spec_focused(*final(self), d)
                        == spec_focused(*old(self), d),
                },
            }),
            cursor_balance(*old(tree), *old(self))
                ==> cursor_balance(*final(tree), *final(self)),
    {
        let ghost n = old(tree).nodes@.len() as int;
        if !reply.handled {
            proof {
                assert(final(tree).dispatched@.take(old(tree).dispatched@.len() as int)
                    =~= old(tree).dispatched@);
                assert(platform@ =~= old(platform)@
                    + Seq::<PlatformRequest>::empty() + Seq::<PlatformRequest>::empty());
            }
            return;
        }
        match &reply.take_focus {
            Some(WidgetFocusChange::KeyboardList(list)) => {
                let ghost l = list@;
                let mut j: usize = 0;
                while j < list.len()
                    invariant
                        tree_wf(*tree),
                        tree.nodes@ == old(tree).nodes@,
                        n == old(tree).nodes@.len(),
                        widget < n,
                        ctx_wf(*self, n),
                        l == list@,
                        0 <= j <= l.len(),
                        self.cursors == old(self).cursors,
                        forall|jj: int| 0 <= jj < j
                            ==> spec_focused(*self, #[trigger] l[jj]) == Some(Some(widget)),
                        forall|d: usize| !l.take(j as int).contains(d)
                            ==> spec_focused(*self, d) == spec_focused(*old(self), d),
                        old(tree).dispatched@.len() <= tree.dispatched@.len(),
                        tree.dispatched@.take(old(tree).dispatched@.len() as int)
                            == old(tree).dispatched@,
                        forall|i: int| old(tree).dispatched@.len() <= i < tree.dispatched@.len()
                            ==> ((#[trigger] tree.dispatched@[i]).event is OnFocus
                                || tree.dispatched@[i].event is OnUnfocus),
                    decreases l.len() - j,
                {
                    let kb = list[j];
                    let ghost pre = *self;
                    let ghost log_pre = tree.dispatched@;
                    self.change_focus(tree, kb, Some(widget));
                    proof {
                        assert forall|jj: int| 0 <= jj < j + 1
                            implies spec_focused(*self, #[trigger] l[jj])
                                == Some(Some(widget)) by {
                            if l[jj] != kb {
                                assert(spec_focused(*self, l[jj])
                                    == spec_focused(pre, l[jj]));
                            }
                        }
                        assert forall|d: usize| !l.take(j + 1).contains(d)
                            implies spec_focused(*self, d)
                                == spec_focused(*old(self), d) by {
                            lemma_take_succ_contains(l, j as int, d);
                        }
                        assert(tree.dispatched@.take(old(tree).dispatched@.len() as int)
                            =~= old(tree).dispatched@) by {
                            assert(tree.dispatched@.take(log_pre.len() as int) == log_pre);
                            assert forall|i: int| 0 <= i < old(tree).dispatched@.len()
                                implies tree.dispatched@[i] == old(tree).dispatched@[i] by {
                                assert(tree.dispatched@[i] == log_pre[i]);
                            }
                        }
                        assert forall|i2: int| old(tree).dispatched@.len() <= i2
                            < tree.dispatched@.len()
                            implies ((#[trigger] tree.dispatched@[i2]).event is OnFocus
                                || tree.dispatched@[i2].event is OnUnfocus) by {
                            if i2 < log_pre.len() {
                                assert(tree.dispatched@[i2] == log_pre[i2]);
                            }
                        }
                    }
                    j = j + 1;
                }
                proof {
                    assert(l.take(l.len() as int) =~= l);
                    assert forall|d: usize| !l.contains(d)
                        implies spec_focused(*self, d) == spec_focused(*old(self), d) by {}
                }
            },
            Some(WidgetFocusChange::AllKeyboards) => {
                let ghost ks0 = self.keyboards@;
                let mut m: usize = 0;
                while m < self.keyboards.len()
                    invariant
                        tree_wf(*tree),
                        tree.nodes@ == old(tree).nodes@,
                        n == old(tree).nodes@.len(),
                        widget < n,
                        ctx_wf(*self, n),
                        ks0 == old(self).keyboards@,
                        self.keyboards@.len() == ks0.len(),
                        forall|mm: int| 0 <= mm < ks0.len()
                            ==> (#[trigger] self.keyboards@[mm]).keyboard_index
                                == ks0[mm].keyboard_index,
                        0 <= m <= ks0.len(),
                        self.cursors == old(self).cursors,
                        forall|mm: int| 0 <= mm < m
                            ==> (#[trigger] self.keyboards@[mm]).focused_widget
                                == Some(widget),
                        forall|mm: int| m <= mm < ks0.len()
                            ==> (#[trigger] self.keyboards@[mm]).focused_widget
                                == ks0[mm].focused_widget,
                        old(tree).dispatched@.len() <= tree.dispatched@.len(),
                        tree.dispatched@.take(old(tree).dispatched@.len() as int)
                            == old(tree).dispatched@,
                        forall|i: int| old(tree).dispatched@.len() <= i < tree.dispatched@.len()
                            ==> ((#[trigger] tree.dispatched@[i]).event is OnFocus
                                || tree.dispatched@[i].event is OnUnfocus),
                    decreases ks0.len() - m,
                {
                    let ghost ks_pre = self.keyboards@;
                    let ghost log_pre = tree.dispatched@;
                    proof {
                        assert(match self.keyboards@[m as int].focused_widget {
                            Some(w) => w < n,
                            None => true,
                        });
                    }
                    let kb = &mut self.keyboards[m];
                    kb.change_focus(tree, Some(widget));
                    proof {
                        assert(self.keyboards@ == ks_pre.update(
                            m as int, self.keyboards@[m as int]));
                        assert(tree.dispatched@.take(old(tree).dispatched@.len() as int)
                            =~= old(tree).dispatched@) by {
                            assert(tree.dispatched@.take(log_pre.len() as int) == log_pre);
                            assert forall|i: int| 0 <= i < old(tree).dispatched@.len()
                                implies tree.dispatched@[i] == old(tree).dispatched@[i] by {
                                assert(tree.dispatched@[i] == log_pre[i]);
                            }
                        }
                        assert forall|i2: int| old(tree).dispatched@.len() <= i2
                            < tree.dispatched@.len()
                            implies ((#[trigger] tree.dispatched@[i2]).event is OnFocus
                                || tree.dispatched@[i2].event is OnUnfocus) by {
                            if i2 < log_pre.len() {
                                assert(tree.dispatched@[i2] == log_pre[i2]);
                            }
                        }
                    }
                    m = m + 1;
                }
                proof {
                    assert forall|mm: int| 0 <= mm < old(self).keyboards@.len()
                        implies spec_focused(
                            *self,
                            (#[trigger] old(self).keyboards@[mm]).keyboard_index,
                        ) == Some(Some(widget)) by {
                        let d = old(self).keyboards@[mm].keyboard_index;
                        lemma_find_keyboard_stable(ks0, self.keyboards@, d, 0);
                        lemma_find_keyboard(ks0, d, 0);
                        let f = find_keyboard(ks0, d, 0);
                        assert(f >= 0) by {
                            if f == -1 {
                                lemma_find_keyboard(ks0, d, 0);
                            }
                        }
                    }
                    assert forall|d: usize| find_keyboard(old(self).keyboards@, d, 0) == -1
                        implies spec_focused(*self, d) == spec_focused(*old(self), d) by {
                        lemma_find_keyboard_stable(ks0, self.keyboards@, d, 0);
                    }
                }
            },
            None => {
                match &reply.free_focus {
                    Some(WidgetFocusChange::KeyboardList(list)) => {
                        let ghost l = list@;
                        let mut j: usize = 0;
                        while j < list.len()
                            invariant
                                tree_wf(*tree),
                                tree.nodes@ == old(tree).nodes@,
                                n == old(tree).nodes@.len(),
                                widget < n,
                                ctx_wf(*self, n),
                                l == list@,
                                0 <= j <= l.len(),
                                self.cursors == old(self).cursors,
                                forall|d: usize| spec_focused(*self, d) == spec_focused(
                                    *old(self), d)
                                    || (l.take(j as int).contains(d) && spec_focused(*self, d)
                                        == Some(spec_free_step(spec_focused(*old(self), d),
                                            widget))),
                                forall|jj: int| 0 <= jj < j
                                    ==> spec_focused(*self, #[trigger] l[jj]) == Some(
                                        spec_free_step(spec_focused(*old(self), l[jj]), widget)),
                                old(tree).dispatched@.len() <= tree.dispatched@.len(),
                                tree.dispatched@.take(old(tree).dispatched@.len() as int)
                                    == old(tree).dispatched@,
                                forall|i: int| old(tree).dispatched@.len() <= i
                                    < tree.dispatched@.len()
                                    ==> ((#[trigger] tree.dispatched@[i]).event is OnFocus
                                        || tree.dispatched@[i].event is OnUnfocus),
                            decreases l.len() - j,
                        {
                            let kb = list[j];
                            let ghost pre = *self;
                            let ghost log_pre = tree.dispatched@;
                            let ki = self.get_keyboard_context(kb, Ghost(n));
                            let has_focused = opt_id_eq(
                                &self.keyboards[ki].focused_widget, &Some(widget));
                            let ghost mid = *self;
                            proof {
                                lemma_keyboard_get_keeps_focus(pre, mid, kb);
                            }
                            if has_focused {
                                self.change_focus(tree, kb, None);
                            }
                            proof {
                                if !has_focused {
                                    assert(spec_focused(*self, kb)
                                        == Some(self.keyboards@[ki as int].focused_widget));
                                }
                                assert forall|jj: int| 0 <= jj < j + 1
                                    implies spec_focused(*self, #[trigger] l[jj]) == Some(
                                        spec_free_step(spec_focused(*old(self), l[jj]),
                                            widget)) by {
                                    if l[jj] != kb {
                                        assert(spec_focused(*self, l[jj])
                                            == spec_focused(pre, l[jj]));
                                    }
                                }
                                assert forall|d: usize| spec_focused(*self, d)
                                    == spec_focused(*old(self), d)
                                    || (l.take(j + 1).contains(d) && spec_focused(*self, d)
                                        == Some(spec_free_step(
                                            spec_focused(*old(self), d), widget))) by {
                                    lemma_take_succ_contains(l, j as int, d);
                                    if d != kb {
                                        assert(spec_focused(*self, d)
                                            == spec_focused(pre, d));
                                    }
                                }
                                assert(tree.dispatched@.take(
                                    old(tree).dispatched@.len() as int)
                                    =~= old(tree).dispatched@) by {
                                    assert(tree.dispatched@.take(log_pre.len() as int)
                                        == log_pre);
                                    assert forall|i: int| 0 <= i < old(tree).dispatched@.len()
                                        implies tree.dispatched@[i]
                                            == old(tree).dispatched@[i] by {
                                        assert(tree.dispatched@[i] == log_pre[i]);
                                    }
                                }
                                assert forall|i2: int| old(tree).dispatched@.len() <= i2
                                    < tree.dispatched@.len()
                                    implies ((#[trigger] tree.dispatched@[i2]).event
                                        is OnFocus
                                        || tree.dispatched@[i2].event is OnUnfocus) by {
                                    if i2 < log_pre.len() {
                                        assert(tree.dispatched@[i2] == log_pre[i2]);
                                    }
                                }
                            }
                            j = j + 1;
                        }
                    },
                    Some(WidgetFocusChange::AllKeyboards) => {
                        let ghost ks0 = self.keyboards@;
                        let mut m: usize = 0;
                        while m < self.keyboards.len()
                            invariant
                                tree_wf(*tree),
                                tree.nodes@ == old(tree).nodes@,
                                n == old(tree).nodes@.len(),
                                widget < n,
                                ctx_wf(*self, n),
                                ks0 == old(self).keyboards@,
                                self.keyboards@.len() == ks0.len(),
                                forall|mm: int| 0 <= mm < ks0.len()
                                    ==> (#[trigger] self.keyboards@[mm]).keyboard_index
                                        == ks0[mm].keyboard_index,
                                0 <= m <= ks0.len(),
                                self.cursors == old(self).cursors,
                                forall|mm: int| 0 <= mm < m
                                    ==> (#[trigger] self.keyboards@[mm]).focused_widget
                                        == spec_free_step(Some(ks0[mm].focused_widget), widget),
                                forall|mm: int| m <= mm < ks0.len()
                                    ==> (#[trigger] self.keyboards@[mm]).focused_widget
                                        == ks0[mm].focused_widget,
                                old(tree).dispatched@.len() <= tree.dispatched@.len(),
                                tree.dispatched@.take(old(tree).dispatched@.len() as int)
                                    == old(tree).dispatched@,
                                forall|i: int| old(tree).dispatched@.len() <= i
                                    < tree.dispatched@.len()
                                    ==> ((#[trigger] tree.dispatched@[i]).event is OnFocus
                                        || tree.dispatched@[i].event is OnUnfocus),
                            decreases ks0.len() - m,
                        {
                            let ghost ks_pre = self.keyboards@;
                            let ghost log_pre = tree.dispatched@;
                            let has_focused = opt_id_eq(
                                &self.keyboards[m].focused_widget, &Some(widget));
                            if has_focused {
                                proof {
                                    assert(match self.keyboards@[m as int].focused_widget {
                                        Some(w) => w < n,
                                        None => true,
                                    });
                                }
                                let kb = &mut self.keyboards[m];
                                kb.change_focus(tree, None);
                                proof {
                                    assert(self.keyboards@ == ks_pre.update(
                                        m as int, self.keyboards@[m as int]));
                                }
                            }
                            proof {
                                assert(tree.dispatched@.take(
                                    old(tree).dispatched@.len() as int)
                                    =~= old(tree).dispatched@) by {
                                    assert(tree.dispatched@.take(log_pre.len() as int)
                                        == log_pre);
                                    assert forall|i: int| 0 <= i < old(tree).dispatched@.len()
                                        implies tree.dispatched@[i]
                                            == old(tree).dispatched@[i] by {
                                        assert(tree.dispatched@[i] == log_pre[i]);
                                    }
                                }
                                assert forall|i2: int| old(tree).dispatched@.len() <= i2
                                    < tree.dispatched@.len()
                                    implies ((#[trigger] tree.dispatched@[i2]).event
                                        is OnFocus
                                        || tree.dispatched@[i2].event is OnUnfocus) by {
                                    if i2 < log_pre.len() {
                                        assert(tree.dispatched@[i2] == log_pre[i2]);
                                    }
                                }
                            }
                            m = m + 1;
                        }
                        proof {
                            assert forall|mm: int| 0 <= mm < ks0.len()
                                implies spec_focus_of(spec_focused(
                                    *self,
                                    (#[trigger] ks0[mm]).keyboard_index,
                                )) == spec_free_step(
                                    spec_focused(*old(self), ks0[mm].keyboard_index),
                                    widget,
                                ) by {
                                let d = ks0[mm].keyboard_index;
                                lemma_find_keyboard_stable(ks0, self.keyboards@, d, 0);
                                lemma_find_keyboard(ks0, d, 0);
                                let f = find_keyboard(ks0, d, 0);
                                assert(f >= 0);
                                assert(f == mm) by {
                                    if f < mm {
                                        assert(old(self).keyboards@[f].keyboard_index
                                            == old(self).keyboards@[mm].keyboard_index);
                                    } else if f > mm {
                                        assert(old(self).keyboards@[mm].keyboard_index
                                            == old(self).keyboards@[f].keyboard_index);
                                    }
                                }
                            }
                            assert forall|d: usize| find_keyboard(
                                old(self).keyboards@, d, 0) == -1
                                implies spec_focused(*self, d)
                                    == spec_focused(*old(self), d) by {
                                lemma_find_keyboard_stable(ks0, self.keyboards@, d, 0);
                            }
                        }
                    },
                    None => {},
                }
            },
        }
        let ghost self_after_focus = *self;
        proof {
            assert(tree.dispatched@.take(old(tree).dispatched@.len() as int)
                =~= old(tree).dispatched@);
        }
        match reply.capture_cursor {
            Some(c) => {
                let i = self.get_cursor_context(c, Ghost(n));
                let ghost self_got = *self;
                match self.cursors[i].captured_by_widget {
                    None => {
                        let ghost cs_pre = self.cursors@;
                        let cc = &mut self.cursors[i];
                        cc.captured_by_widget = Some(widget);
                        platform.push(PlatformRequest::SetCaptureCursor {
                            cursor: c,
                            capture: true,
                        });
                        proof {
                            assert(self.cursors@ == cs_pre.update(
                                i as int, self.cursors@[i as int]));
                            lemma_capture_field_update(self_got, *self, i as int, c);
                        }
                    },
                    Some(_) => {},
                }
                proof {
                    lemma_phase_summary_capture(
                        *old(self), self_after_focus, self_got, *self, widget, *reply, c);
                }
            },
            None => {},
        }
        let ghost self_after_capture = *self;
        let ghost platform_after_capture = platform@;
        proof {
            assert forall|d: usize| spec_captured_weak(self_after_capture, d)
                == spec_captured_mid(*old(self), widget, *reply, d) by {
                if reply.capture_cursor is None {
                    assert(self_after_capture.cursors == old(self).cursors);
                }
            }
            assert forall|m: int| 0 <= m < old(self).cursors@.len() implies {
                &&& (#[trigger] self_after_capture.cursors@[m]).cursor_index
                    == old(self).cursors@[m].cursor_index
                &&& self_after_capture.cursors@[m].last_over_widgets
                    == old(self).cursors@[m].last_over_widgets
                &&& self_after_capture.cursors@[m].about_to_be_clicked
                    == old(self).cursors@[m].about_to_be_clicked
            } by {}
            assert(platform_after_capture == old(platform)@
                + (if spec_capture_granted(*old(self), widget, *reply) {
                    seq![
                        PlatformRequest::SetCaptureCursor {
                            cursor: reply.capture_cursor->0,
                            capture: true,
                        },
                    ]
                } else {
                    Seq::<PlatformRequest>::empty()
                })) by {
                if spec_capture_granted(*old(self), widget, *reply) {
                    assert(platform_after_capture =~= old(platform)@ + seq![
                        PlatformRequest::SetCaptureCursor {
                            cursor: reply.capture_cursor->0,
                            capture: true,
                        },
                    ]);
                } else {
                    assert(platform_after_capture =~= old(platform)@
                        + Seq::<PlatformRequest>::empty());
                }
            }
        }
        match reply.release_cursor {
            Some(c) => {
                let i = self.get_cursor_context(c, Ghost(n));
                let ghost self_got = *self;
                let is_holder = match self.cursors[i].captured_by_widget {
                    Some(holder) => holder == widget,
                    None => false,
                };
                if is_holder {
                    let ghost cs_pre = self.cursors@;
                    let cc = &mut self.cursors[i];
                    cc.captured_by_widget = None;
                    platform.push(PlatformRequest::SetCaptureCursor {
                        cursor: c,
                        capture: false,
                    });
                    proof {
                        assert(self.cursors@ == cs_pre.update(
                            i as int, self.cursors@[i as int]));
                        lemma_capture_field_update(self_got, *self, i as int, c);
                    }
                }
                proof {
                    lemma_phase_summary_release(
                        self_after_capture, self_got, *self, widget, *reply, c);
                }
            },
            None => {},
        }
        proof {
            assert forall|c2: usize| spec_cap_of(spec_captured(*self, c2))
                == spec_captured_post(*old(self), widget, *reply, c2) by {
                if reply.release_cursor is None {
                    assert(self.cursors == self_after_capture.cursors);
                }
            }
            assert(platform@ == old(platform)@
                + (if spec_capture_granted(*old(self), widget, *reply) {
                    seq![
                        PlatformRequest::SetCaptureCursor {
                            cursor: reply.capture_cursor->0,
                            capture: true,
                        },
                    ]
                } else {
                    Seq::<PlatformRequest>::empty()
                })
                + (if spec_release_granted(*old(self), widget, *reply) {
                    seq![
                        PlatformRequest::SetCaptureCursor {
                            cursor: reply.release_cursor->0,
                            capture: false,
                        },
                    ]
                } else {
                    Seq::<PlatformRequest>::empty()
                })) by {
                if spec_release_granted(*old(self), widget, *reply) {
                    assert(platform@ =~= platform_after_capture + seq![
                        PlatformRequest::SetCaptureCursor {
                            cursor: reply.release_cursor->0,
                            capture: false,
                        },
                    ]);
                } else {
                    assert(platform@ =~= platform_after_capture
                        + Seq::<PlatformRequest>::empty());
                }
            }
            // focus state is untouched by the capture phases
            assert(self.keyboards == self_after_focus.keyboards);
            assert forall|d: usize| spec_focused(*self, d)
                == spec_focused(self_after_focus, d) by {}
            assert forall|d: usize, l: Seq<usize>, j: int| !l.contains(d) && 0 <= j <= l.len()
                implies !l.take(j).contains(d) by {
                if l.take(j).contains(d) {
                    let m = choose|m: int| 0 <= m < j && #[trigger] l.take(j)[m] == d;
                    assert(l[m] == d);
                }
            }
            assert forall|m: int| 0 <= m < old(self).cursors@.len() implies {
                &&& (#[trigger] self.cursors@[m]).cursor_index
                    == self_after_capture.cursors@[m].cursor_index
                &&& self.cursors@[m].last_over_widgets
                    == self_after_capture.cursors@[m].last_over_widgets
                &&& self.cursors@[m].about_to_be_clicked
                    == self_after_capture.cursors@[m].about_to_be_clicked
            } by {}
            // over-sets survive all phases
            assert forall|d: usize, w: WidgetId| spec_over_contains(*self, d, w)
                == spec_over_contains(*old(self), d, w) by {}
            if cursor_balance(*old(tree), *old(self)) {
                lemma_balance_preserved(*old(tree), *tree, *old(self), *self);
            }
        }
    }
}

/// What a free-focus request leaves on one keyboard: focus is cleared only
/// if the requesting widget held it.
pub open spec fn spec_free_step(
    pre: Option<Option<WidgetId>>,
    widget: WidgetId,
) -> Option<WidgetId> {
    if spec_focus_of(pre) == Some(widget) {
        None
    } else {
        spec_focus_of(pre)
    }
}

/// Creating a keyboard context does not change any device's focus state.
proof fn lemma_keyboard_get_keeps_focus(pre: EventContext, post: EventContext, kb: usize)
    requires
        pre.keyboards@.len() <= post.keyboards@.len(),
        forall|m: int| 0 <= m < pre.keyboards@.len()
            ==> #[trigger] post.keyboards@[m] == pre.keyboards@[m],
        forall|m: int| pre.keyboards@.len() <= m < post.keyboards@.len()
            ==> (#[trigger] post.keyboards@[m]).keyboard_index == kb
                && post.keyboards@[m].focused_widget is None,
        find_keyboard(pre.keyboards@, kb, 0) >= 0 ==> post.keyboards@ == pre.keyboards@,
    ensures
        forall|d: usize| spec_focus_of(spec_focused(post, d))
            == spec_focus_of(spec_focused(pre, d)),
        forall|d: usize| d != kb ==> spec_focused(post, d) == spec_focused(pre, d),
{
    assert forall|d: usize| spec_focus_of(spec_focused(post, d))
        == spec_focus_of(spec_focused(pre, d))
        && (d != kb ==> spec_focused(post, d) == spec_focused(pre, d)) by {
        if post.keyboards@ == pre.keyboards@ {
        } else {
            if d == kb {
                lemma_find_keyboard(pre.keyboards@, d, 0);
                lemma_find_keyboard(post.keyboards@, d, 0);
            } else {
                lemma_find_keyboard_stable(pre.keyboards@, post.keyboards@, d, 0);
                lemma_find_keyboard(pre.keyboards@, d, 0);
                let f = find_keyboard(pre.keyboards@, d, 0);
                if f >= 0 {
                    assert(post.keyboards@[f] == pre.keyboards@[f]);
                }
            }
        }
    }
}

/// Rewriting one cursor entry's capture field moves only that device's
/// capture state: lookups, over-sets, pending clicks and focus stay.
proof fn lemma_capture_field_update(c0: EventContext, c1: EventContext, i: int, d_i: usize)
    requires
        c1.keyboards == c0.keyboards,
        c1.cursors@.len() == c0.cursors@.len(),
        0 <= i < c0.cursors@.len(),
        forall|m: int| 0 <= m < c0.cursors@.len() && m != i
            ==> #[trigger] c1.cursors@[m] == c0.cursors@[m],
        c1.cursors@[i].cursor_index == c0.cursors@[i].cursor_index,
        c1.cursors@[i].last_over_widgets == c0.cursors@[i].last_over_widgets,
        c1.cursors@[i].about_to_be_clicked == c0.cursors@[i].about_to_be_clicked,
        c0.cursors@[i].cursor_index == d_i,
        find_cursor(c0.cursors@, d_i, 0) == i,
    ensures
        forall|d: usize| #[trigger] find_cursor(c1.cursors@, d, 0)
            == find_cursor(c0.cursors@, d, 0),
        forall|d: usize, w: WidgetId| spec_over_contains(c1, d, w)
            == spec_over_contains(c0, d, w),
        forall|d: usize| d != d_i ==> #[trigger] spec_captured(c1, d) == spec_captured(c0, d),
        spec_captured(c1, d_i) == Some(c1.cursors@[i].captured_by_widget),
{
    assert forall|d: usize| #[trigger] find_cursor(c1.cursors@, d, 0)
        == find_cursor(c0.cursors@, d, 0) by {
        lemma_find_cursor_stable(c0.cursors@, c1.cursors@, d, 0);
    }
    assert forall|d: usize, w: WidgetId| spec_over_contains(c1, d, w)
        == spec_over_contains(c0, d, w) by {
        lemma_find_cursor(c0.cursors@, d, 0);
        let f = find_cursor(c0.cursors@, d, 0);
        if f >= 0 && f != i {
            assert(c1.cursors@[f] == c0.cursors@[f]);
        }
    }
    assert forall|d: usize| d != d_i
        implies #[trigger] spec_captured(c1, d) == spec_captured(c0, d) by {
        lemma_find_cursor(c0.cursors@, d, 0);
        let f = find_cursor(c0.cursors@, d, 0);
        if f >= 0 {
            assert(f != i);
            assert(c1.cursors@[f] == c0.cursors@[f]);
        }
    }
}

/// Summarizes the capture phase: the capture state of each device after the
/// phase equals the mid-state formula, and untouched state survives.
proof fn lemma_phase_summary_capture(
    c_orig: EventContext,
    c_focus: EventContext,
    c_got: EventContext,
    c_now: EventContext,
    widget: WidgetId,
    reply: Reply,
    c: usize,
)
    requires
        reply.handled,
        reply.capture_cursor == Some(c),
        c_focus.cursors == c_orig.cursors,
        c_got.keyboards == c_focus.keyboards,
        // the getter kept or created the device entry
        forall|d: usize, w: WidgetId| spec_over_contains(c_got, d, w)
            == spec_over_contains(c_focus, d, w),
        forall|d: usize| spec_captured(c_got, d) == spec_captured(c_focus, d)
            || (d == c && spec_captured(c_focus, d) is None
                && spec_captured(c_got, d) == Some(None::<WidgetId>)),
        find_cursor(c_got.cursors@, c, 0) >= 0,
        spec_captured(c_got, c)
            == Some(c_got.cursors@[find_cursor(c_got.cursors@, c, 0)].captured_by_widget),
        // what the branch did
        (c_got.cursors@[find_cursor(c_got.cursors@, c, 0)].captured_by_widget is None ==> {
            &&& forall|d: usize| #[trigger] find_cursor(c_now.cursors@, d, 0)
                == find_cursor(c_got.cursors@, d, 0)
            &&& forall|d: usize, w: WidgetId| spec_over_contains(c_now, d, w)
                == spec_over_contains(c_got, d, w)
            &&& forall|d: usize| d != c ==> #[trigger] spec_captured(c_now, d)
                == spec_captured(c_got, d)
            &&& spec_captured(c_now, c) == Some(Some(widget))
            &&& c_now.keyboards == c_got.keyboards
        }),
        (!(c_got.cursors@[find_cursor(c_got.cursors@, c, 0)].captured_by_widget is None)
            ==> c_now == c_got),
    ensures
        forall|d: usize| spec_captured_weak(c_now, d)
            == spec_captured_mid(c_orig, widget, reply, d),
        forall|d: usize, w: WidgetId| spec_over_contains(c_now, d, w)
            == spec_over_contains(c_orig, d, w),
        c_now.keyboards == c_focus.keyboards,
{
    assert forall|d: usize| spec_captured_weak(c_now, d)
        == spec_captured_mid(c_orig, widget, reply, d) by {
        if d != c {
            assert(spec_captured(c_now, d) == spec_captured(c_got, d));
        }
    }
}

/// Summarizes the release phase against the state after the capture phase.
proof fn lemma_phase_summary_release(
    c_cap: EventContext,
    c_got: EventContext,
    c_now: EventContext,
    widget: WidgetId,
    reply: Reply,
    c: usize,
)
    requires
        reply.handled,
        reply.release_cursor == Some(c),
        c_got.keyboards == c_cap.keyboards,
        forall|d: usize, w: WidgetId| spec_over_contains(c_got, d, w)
            == spec_over_contains(c_cap, d, w),
        forall|d: usize| spec_captured(c_got, d) == spec_captured(c_cap, d)
            || (d == c && spec_captured(c_cap, d) is None
                && spec_captured(c_got, d) == Some(None::<WidgetId>)),
        find_cursor(c_got.cursors@, c, 0) >= 0,
        spec_captured(c_got, c)
            == Some(c_got.cursors@[find_cursor(c_got.cursors@, c, 0)].captured_by_widget),
        (c_got.cursors@[find_cursor(c_got.cursors@, c, 0)].captured_by_widget == Some(widget)
            ==> {
            &&& forall|d: usize| #[trigger] find_cursor(c_now.cursors@, d, 0)
                == find_cursor(c_got.cursors@, d, 0)
            &&& forall|d: usize, w: WidgetId| spec_over_contains(c_now, d, w)
                == spec_over_contains(c_got, d, w)
            &&& forall|d: usize| d != c ==> #[trigger] spec_captured(c_now, d)
                == spec_captured(c_got, d)
            &&& spec_captured(c_now, c) == Some(None::<WidgetId>)
            &&& c_now.keyboards == c_got.keyboards
        }),
        (!(c_got.cursors@[find_cursor(c_got.cursors@, c, 0)].captured_by_widget
            == Some(widget)) ==> c_now == c_got),
    ensures
        forall|d: usize| spec_captured_weak(c_now, d) == (
            if spec_captured_weak(c_cap, d) == Some(widget) && d == c {
                None::<WidgetId>
            } else {
                spec_captured_weak(c_cap, d)
            }),
        forall|d: usize, w: WidgetId| spec_over_contains(c_now, d, w)
            == spec_over_contains(c_cap, d, w),
        c_now.keyboards == c_cap.keyboards,
{
    assert forall|d: usize| spec_captured_weak(c_now, d) == (
        if spec_captured_weak(c_cap, d) == Some(widget) && d == c {
            None::<WidgetId>
        } else {
            spec_captured_weak(c_cap, d)
        }) by {
        if d != c {
            assert(spec_captured(c_now, d) == spec_captured(c_got, d));
        }
    }
}

/// The capture state collapsed over missing devices.
pub open spec fn spec_captured_weak(ctx: EventContext, d: usize) -> Option<WidgetId> {
    spec_cap_of(spec_captured(ctx, d))
}

/// The capture state of device `c` after a button press handled by
/// `handler` is applied: the handler's capture request is granted only on a
/// device with no capture yet; a press releases nothing.
pub open spec fn spec_down_capture_outcome(
    ctx: EventContext,
    t: Seq<crate::widget::WidgetState>,
    handler: WidgetId,
    ev: WidgetEvent,
    c: usize,
) -> Option<WidgetId> {
    if crate::dispatch::spec_reply_capture(t[handler as int], ev) == Some(c)
        && spec_cap_of(spec_captured(ctx, c)) is None {
        Some(handler)
    } else {
        spec_cap_of(spec_captured(ctx, c))
    }
}

impl EventContext {
    /// Routes a button press. A captured device forwards it to the
    /// capturing widget and applies its reply. Otherwise the press bubbles
    /// along the hit path, each reply is applied as it arrives (so a press
    /// can take a capture before the release), the bubble stops at the
    /// first consumer, and every visited widget is recorded as the device's
    /// pending-click set.
    pub fn handle_mouse_button_down(
        &mut self,
        tree: &mut WidgetTree,
        platform: &mut Vec<PlatformRequest>,
        widget_path: &WidgetPath,
        mouse_index: usize,
        button: MouseButton,
        pos: &Vec2,
    )
        requires
            tree_wf(*old(tree)),
            ctx_wf(*old(self), old(tree).nodes@.len() as int),
            spec_path_below(*widget_path, old(tree).nodes@.len() as int),
        ensures
            tree_wf(*final(tree)),
            final(tree).nodes@.len() == old(tree).nodes@.len(),
            ctx_wf(*final(self), final(tree).nodes@.len() as int),
            forall|d: usize, w: WidgetId| spec_over_contains(*final(self), d, w)
                == spec_over_contains(*old(self), d, w),
            cursor_balance(*old(tree), *old(self))
                ==> cursor_balance(*final(tree), *final(self)),
            // a press never moves keyboard focus
            forall|d: usize| spec_focused(*final(self), d) == spec_focused(*old(self), d),
            // the nodes end exactly as the dispatched deliveries step them
            final(tree).nodes@ == crate::dispatch::spec_apply_records(
                old(tree).nodes@, spec_appended(*old(tree), *final(tree))),
            ({
                let ev = WidgetEvent::OnMouseButtonDown {
                    mouse: mouse_index, button, pos: *pos,
                };
                match spec_cap_of(spec_captured(*old(self), mouse_index)) {
                    Some(w) => {
                        // the capturing widget alone receives the press —
                        // no bubbling, no pending-click set recorded — and
                        // a captured device grants no further capture
                        &&& final(tree).dispatched@ == old(tree).dispatched@.push(
                            DispatchRecord { target: w, event: ev })
                        &&& forall|c: usize| spec_cap_of(spec_captured(*final(self), c))
                            == spec_cap_of(spec_captured(*old(self), c))
                        &&& final(platform)@ == old(platform)@
                        &&& forall|d: usize| spec_pending_of(*final(self), d)
                            == spec_pending_of(*old(self), d)
                    },
                    None => {
                        let order = spec_bubble(*widget_path);
                        let k = spec_bubble_count(old(tree).nodes@, order, ev);
                        &&& final(tree).dispatched@ == old(tree).dispatched@
                            + crate::dispatch::spec_records(order, k, ev)
                        &&& spec_pending(*final(self), mouse_index) matches Some(Some(v))
                            && (forall|w: WidgetId| v@.contains(w)
                                == order.take(k).contains(w))
                        &&& forall|d: usize| d != mouse_index
                            ==> spec_pending_of(*final(self), d)
                                == spec_pending_of(*old(self), d)
                        // each visited widget's reply was applied as it
                        // arrived: only the consuming widget's reply has an
                        // effect, and it may take the capture
                        &&& if spec_bubble_handled(old(tree).nodes@, order, ev) {
                            let hw = order[k - 1];
                            &&& forall|c: usize| spec_cap_of(spec_captured(*final(self), c))
                                == spec_down_capture_outcome(
                                    *old(self), old(tree).nodes@, hw, ev, c)
                            &&& final(platform)@ == old(platform)@
                                + (match crate::dispatch::spec_reply_capture(
                                    old(tree).nodes@[hw as int], ev) {
                                    Some(cc) => if spec_cap_of(
                                        spec_captured(*old(self), cc)) is None {
                                        seq![PlatformRequest::SetCaptureCursor {
                                            cursor: cc, capture: true }]
                                    } else {
                                        Seq::<PlatformRequest>::empty()
                                    },
                                    None => Seq::<PlatformRequest>::empty(),
                                })
                        } else {
                            &&& forall|c: usize| spec_cap_of(spec_captured(*final(self), c))
                                == spec_cap_of(spec_captured(*old(self), c))
                            &&& final(platform)@ == old(platform)@
                        }
                    },
                }
            }),
    {
        let ghost n = old(tree).nodes@.len() as int;
        let ev = WidgetEvent::OnMouseButtonDown { mouse: mouse_index, button, pos: *pos };
        let i0 = self.get_cursor_context(mouse_index, Ghost(old(tree).nodes@.len() as int));
        let ghost self_got = *self;
        proof {
            assert(cursor_ctx_ok(self.cursors@[i0 as int], n));
            assert(spec_appended(*old(tree), *tree) =~= Seq::<DispatchRecord>::empty());
        }
        match self.cursors[i0].captured_by_widget {
            Some(captured) => {
                let ghost tp = *tree;
                let reply = tree.dispatch_event(captured, &ev);
                let ghost tp2 = *tree;
                self.process_reply(tree, captured, &reply, platform);
                proof {
                    lemma_applied_push(*old(tree), tp, tp2, DispatchRecord {
                        target: captured,
                        event: ev,
                    });
                    lemma_applied_focus(*old(tree), tp2, *tree);
                    // a press reply never carries a focus request, so the
                    // appended records are just the press itself
                    assert(reply.take_focus is None);
                    assert(tree.dispatched@ =~= old(tree).dispatched@.push(
                        DispatchRecord { target: captured, event: ev }));
                    if cursor_balance(*old(tree), *old(self)) {
                        lemma_one_neutral_dispatch(*old(tree), *tree, *old(self), captured);
                        assert(tree.dispatched@.take(tree.dispatched@.len() as int)
                            =~= tree.dispatched@);
                        lemma_balance_preserved(*tree, *tree, *old(self), *self);
                    }
                    // a capture request from the holder targets its own,
                    // already captured, device: nothing changes
                    assert(spec_captured(self_got, mouse_index) == Some(Some(captured)));
                    assert forall|c: usize| spec_cap_of(spec_captured(*self, c))
                        == spec_cap_of(spec_captured(*old(self), c)) by {
                        assert(spec_cap_of(spec_captured(self_got, c))
                            == spec_cap_of(spec_captured(*old(self), c)));
                        assert(spec_cap_of(spec_captured(*self, c))
                            == spec_captured_post(self_got, captured, reply, c));
                    }
                    assert(!spec_capture_granted(self_got, captured, reply));
                    assert(!spec_release_granted(self_got, captured, reply));
                    assert(platform@ =~= old(platform)@);
                    assert(self.keyboards == old(self).keyboards);
                    assert forall|d: usize| spec_focused(*self, d)
                        == spec_focused(*old(self), d) by {}
                    lemma_pending_of_preserved(*old(self), self_got, n);
                    lemma_pending_of_preserved(self_got, *self, n);
                }
            },
            None => {
                let order = widget_path.bubble();
                let ghost ord = order@;
                proof {
                    crate::path::lemma_bubble_below(*widget_path, n);
                    assert(crate::dispatch::spec_records(ord, 0, ev)
                        =~= Seq::<DispatchRecord>::empty());
                    assert(tree.dispatched@ =~= old(tree).dispatched@
                        + crate::dispatch::spec_records(ord, 0, ev));
                    lemma_pending_of_preserved(*old(self), self_got, n);
                }
                let mut down_widgets: Vec<WidgetId> = Vec::new();
                let mut i: usize = 0;
                let mut handled = false;
                while i < order.len() && !handled
                    invariant
                        tree_wf(*tree),
                        tree.nodes@.len() == n,
                        n == old(tree).nodes@.len(),
                        ctx_wf(*self, n),
                        ord == order@,
                        ev == (WidgetEvent::OnMouseButtonDown {
                            mouse: mouse_index, button, pos: *pos,
                        }),
                        widget_path.widget < n && ord == spec_bubble(*widget_path),
                        forall|d: usize, w2: WidgetId| spec_over_contains(self_got, d, w2)
                            == spec_over_contains(*old(self), d, w2),
                        forall|c: usize| spec_cap_of(spec_captured(self_got, c))
                            == spec_cap_of(spec_captured(*old(self), c)),
                        self_got.keyboards == old(self).keyboards,
                        forall|d: usize| #[trigger] spec_pending_of(*self, d)
                            == spec_pending_of(*old(self), d),
                        tree.nodes@ == crate::dispatch::spec_apply_records(
                            old(tree).nodes@, spec_appended(*old(tree), *tree)),
                        forall|m: int| 0 <= m < ord.len() ==> (#[trigger] ord[m]) < n,
                        0 <= i <= ord.len(),
                        forall|w2: WidgetId| down_widgets@.contains(w2)
                            == ord.take(i as int).contains(w2),
                        forall|m: int, j: int| 0 <= m < j < down_widgets@.len()
                            ==> down_widgets@[m] != down_widgets@[j],
                        forall|m: int| 0 <= m < down_widgets@.len()
                            ==> (#[trigger] down_widgets@[m]) < n,
                        !handled ==> {
                            &&& *self == self_got
                            &&& platform@ == old(platform)@
                            &&& forall|m: int| 0 <= m < i
                                ==> !crate::dispatch::spec_reply_handled(
                                    old(tree).nodes@[(#[trigger] ord[m]) as int], ev)
                            &&& tree.dispatched@ == old(tree).dispatched@
                                + crate::dispatch::spec_records(ord, i as int, ev)
                            &&& tree.nodes@ == crate::dispatch::spec_apply_records(
                                old(tree).nodes@,
                                crate::dispatch::spec_records(ord, i as int, ev),
                            )
                        },
                        handled ==> {
                            &&& i >= 1
                            &&& spec_bubble_count(old(tree).nodes@, ord, ev) == i
                            &&& spec_bubble_handled(old(tree).nodes@, ord, ev)
                            &&& tree.dispatched@ == old(tree).dispatched@
                                + crate::dispatch::spec_records(ord, i as int, ev)
                            &&& forall|d: usize, w2: WidgetId|
                                spec_over_contains(*self, d, w2)
                                    == spec_over_contains(self_got, d, w2)
                            &&& self.cursors@.len() >= self_got.cursors@.len()
                            &&& (forall|m: int| 0 <= m < self_got.cursors@.len() ==> {
                                &&& (#[trigger] self.cursors@[m]).cursor_index
                                    == self_got.cursors@[m].cursor_index
                                &&& self.cursors@[m].last_over_widgets
                                    == self_got.cursors@[m].last_over_widgets
                                &&& self.cursors@[m].about_to_be_clicked
                                    == self_got.cursors@[m].about_to_be_clicked
                            })
                            &&& (cursor_balance(*old(tree), *old(self))
                                ==> cursor_balance(*tree, *self))
                            &&& self.keyboards == old(self).keyboards
                            &&& (forall|c: usize| spec_cap_of(spec_captured(*self, c))
                                == spec_down_capture_outcome(
                                    *old(self),
                                    old(tree).nodes@,
                                    ord[spec_bubble_count(old(tree).nodes@, ord, ev) - 1],
                                    ev,
                                    c,
                                ))
                            &&& platform@ == old(platform)@
                                + (match crate::dispatch::spec_reply_capture(
                                    old(tree).nodes@[ord[spec_bubble_count(
                                        old(tree).nodes@, ord, ev) - 1] as int], ev) {
                                    Some(cc) => if spec_cap_of(
                                        spec_captured(*old(self), cc)) is None {
                                        seq![PlatformRequest::SetCaptureCursor {
                                            cursor: cc, capture: true }]
                                    } else {
                                        Seq::<PlatformRequest>::empty()
                                    },
                                    None => Seq::<PlatformRequest>::empty(),
                                })
                        },
                    decreases ord.len() - i,
                {
                    let w = order[i];
                    proof {
                        lemma_apply_keeps_replies(old(tree).nodes@, ord, ev, i as int, w as int);
                        assert(crate::dispatch::spec_records(ord, i + 1, ev).drop_last()
                            =~= crate::dispatch::spec_records(ord, i as int, ev));
                    }
                    if !contains_id(&down_widgets, w) {
                        let ghost prev = down_widgets@;
                        down_widgets.push(w);
                        proof {
                            assert forall|w2: WidgetId| down_widgets@.contains(w2)
                                == ord.take(i + 1).contains(w2) by {
                                lemma_push_contains(prev, w, w2);
                                lemma_take_succ_contains(ord, i as int, w2);
                            }
                            assert forall|m: int, j: int| 0 <= m < j < down_widgets@.len()
                                implies down_widgets@[m] != down_widgets@[j] by {
                                if j == down_widgets@.len() - 1 {
                                    assert(prev.contains(prev[m]));
                                }
                            }
                        }
                    } else {
                        proof {
                            assert forall|w2: WidgetId| down_widgets@.contains(w2)
                                == ord.take(i + 1).contains(w2) by {
                                lemma_take_succ_contains(ord, i as int, w2);
                            }
                        }
                    }
                    let ghost log_pre = tree.dispatched@;
                    let ghost tp = *tree;
                    let reply = tree.dispatch_event(w, &ev);
                    let ghost tp2 = *tree;
                    proof {
                        assert(reply.take_focus is None);
                        lemma_applied_push(*old(tree), tp, tp2, DispatchRecord {
                            target: w,
                            event: ev,
                        });
                    }
                    self.process_reply(tree, w, &reply, platform);
                    proof {
                        lemma_applied_focus(*old(tree), tp2, *tree);
                    }
                    if reply.handled {
                        handled = true;
                        proof {
                            lemma_unhandled_from(old(tree).nodes@, ord, ev, 0, i as int);
                            assert(tree.dispatched@ =~= old(tree).dispatched@
                                + crate::dispatch::spec_records(ord, i + 1, ev));
                            // only this consuming reply has an effect; a
                            // press releases and focuses nothing, but it
                            // may take the capture
                            assert(reply.take_focus is None);
                            assert(reply.capture_cursor
                                == crate::dispatch::spec_reply_capture(
                                    old(tree).nodes@[w as int], ev));
                            assert(reply.release_cursor is None);
                            lemma_pending_of_preserved(self_got, *self, n);
                            assert forall|c: usize| spec_cap_of(spec_captured(*self, c))
                                == spec_down_capture_outcome(
                                    *old(self), old(tree).nodes@, w, ev, c) by {
                                assert(spec_cap_of(spec_captured(*self, c))
                                    == spec_captured_post(self_got, w, reply, c));
                                assert(spec_cap_of(spec_captured(self_got, c))
                                    == spec_cap_of(spec_captured(*old(self), c)));
                            }
                            assert(platform@ == old(platform)@
                                + (match reply.capture_cursor {
                                    Some(cc) => if spec_cap_of(
                                        spec_captured(*old(self), cc)) is None {
                                        seq![PlatformRequest::SetCaptureCursor {
                                            cursor: cc, capture: true }]
                                    } else {
                                        Seq::<PlatformRequest>::empty()
                                    },
                                    None => Seq::<PlatformRequest>::empty(),
                                })) by {
                                if spec_capture_granted(self_got, w, reply) {
                                    assert(platform@ =~= old(platform)@ + seq![
                                        PlatformRequest::SetCaptureCursor {
                                            cursor: reply.capture_cursor->0,
                                            capture: true,
                                        },
                                    ]);
                                } else {
                                    assert(platform@ =~= old(platform)@);
                                    match reply.capture_cursor {
                                        Some(cc) => {
                                            assert(!(spec_cap_of(
                                                spec_captured(self_got, cc)) is None));
                                        },
                                        None => {},
                                    }
                                }
                            }
                            if cursor_balance(*old(tree), *old(self)) {
                                assert(tree.dispatched@.take(
                                    old(tree).dispatched@.len() as int)
                                    =~= old(tree).dispatched@);
                                assert forall|i2: int| old(tree).dispatched@.len() <= i2
                                    < tree.dispatched@.len()
                                    implies !((#[trigger] tree.dispatched@[i2]).event
                                        is OnCursorEnter)
                                        && !(tree.dispatched@[i2].event is OnCursorLeave) by {
                                    let recs = crate::dispatch::spec_records(
                                        ord, i + 1, ev);
                                    assert(tree.dispatched@[i2]
                                        == recs[i2 - old(tree).dispatched@.len()]);
                                }
                                assert forall|d: usize, w2: WidgetId|
                                    spec_over_contains(*self, d, w2)
                                        == spec_over_contains(*old(self), d, w2) by {
                                    assert(spec_over_contains(*self, d, w2)
                                        == spec_over_contains(self_got, d, w2));
                                    assert(spec_over_contains(self_got, d, w2)
                                        == spec_over_contains(*old(self), d, w2));
                                }
                                lemma_balance_preserved(
                                    *old(tree), *tree, *old(self), *self);
                            }
                        }
                    } else {
                        proof {
                            assert(tree.dispatched@ =~= old(tree).dispatched@
                                + crate::dispatch::spec_records(ord, i + 1, ev));
                        }
                    }
                    i = i + 1;
                }
                proof {
                    if !handled {
                        lemma_unhandled_from(old(tree).nodes@, ord, ev, 0, ord.len() as int);
                        assert(ord.take(ord.len() as int) =~= ord);
                        if cursor_balance(*old(tree), *old(self)) {
                            assert(tree.dispatched@.take(old(tree).dispatched@.len() as int)
                                =~= old(tree).dispatched@);
                            assert forall|i2: int| old(tree).dispatched@.len() <= i2
                                < tree.dispatched@.len()
                                implies !((#[trigger] tree.dispatched@[i2]).event
                                    is OnCursorEnter)
                                    && !(tree.dispatched@[i2].event is OnCursorLeave) by {
                                let recs = crate::dispatch::spec_records(
                                    ord, ord.len() as int, ev);
                                assert(tree.dispatched@[i2]
                                    == recs[i2 - old(tree).dispatched@.len()]);
                            }
                            lemma_balance_preserved(*old(tree), *tree, *old(self), *self);
                        }
                    }
                    assert(spec_bubble_count(old(tree).nodes@, ord, ev) == i);
                    assert(ord.len() >= 1) by {
                        assert(spec_bubble(*widget_path) == spec_bubble_prefix(
                            widget_path.children@,
                            widget_path.children@.len() as int,
                        ) + seq![widget_path.widget]);
                    }
                    assert(down_widgets@.len() > 0) by {
                        assert(i >= 1);
                        assert(ord.take(i as int)[0] == ord[0]);
                        assert(ord.take(i as int).contains(ord[0]));
                        assert(down_widgets@.contains(ord[0]));
                        let m = choose|m: int| 0 <= m < down_widgets@.len()
                            && #[trigger] down_widgets@[m] == ord[0];
                    }
                }
                if down_widgets.len() > 0 {
                    let ghost cs_pre = self.cursors@;
                    let ghost self_pre = *self;
                    proof {
                        lemma_find_cursor_stable_grow(self_got, *self, mouse_index, i0 as int);
                    }
                    let c = &mut self.cursors[i0];
                    c.about_to_be_clicked = Some(down_widgets);
                    proof {
                        assert(self.cursors@ == cs_pre.update(i0 as int, self.cursors@[i0 as int]));
                        lemma_pending_field_update(self_pre, *self, i0 as int, mouse_index);
                        if cursor_balance(*old(tree), *old(self)) {
                            assert(tree.dispatched@.take(tree.dispatched@.len() as int)
                                =~= tree.dispatched@);
                            lemma_balance_preserved(*tree, *tree, self_pre, *self);
                        }
                        assert forall|d: usize| d != mouse_index
                            implies spec_pending_of(*self, d)
                                == spec_pending_of(*old(self), d) by {
                            assert(spec_pending(*self, d) == spec_pending(self_pre, d));
                            assert(spec_pending_of(self_pre, d)
                                == spec_pending_of(*old(self), d));
                        }
                    }
                }
                proof {
                    assert(self.keyboards == old(self).keyboards);
                    assert forall|d: usize| spec_focused(*self, d)
                        == spec_focused(*old(self), d) by {}
                }
            },
        }
    }
}

/// A grown cursor list still finds the original device at its original
/// position, as long as grown entries are for other devices and original
/// entries kept their identity.
proof fn lemma_find_cursor_stable_grow(
    c0: EventContext,
    c1: EventContext,
    d: usize,
    i: int,
)
    requires
        0 <= i < c0.cursors@.len(),
        c0.cursors@[i].cursor_index == d,
        find_cursor(c0.cursors@, d, 0) == i,
        c1.cursors@.len() >= c0.cursors@.len(),
        forall|m: int| 0 <= m < c0.cursors@.len()
            ==> (#[trigger] c1.cursors@[m]).cursor_index == c0.cursors@[m].cursor_index,
        forall|i2: int, j2: int| 0 <= i2 < j2 < c1.cursors@.len()
            ==> c1.cursors@[i2].cursor_index != c1.cursors@[j2].cursor_index,
    ensures
        find_cursor(c1.cursors@, d, 0) == i,
{
    lemma_find_prefix_mismatch_cursor(c0.cursors@, d, 0, i);
    assert forall|m: int| 0 <= m < i
        implies (#[trigger] c1.cursors@[m]).cursor_index != d by {
        assert(c0.cursors@[m].cursor_index != d);
    }
    lemma_find_first_is_min_cursor(c1.cursors@, d, 0, i);
}

/// Nothing before a found position matches the searched-for device.
proof fn lemma_find_prefix_mismatch_cursor(
    cs: Seq<CursorEventContext>,
    d: usize,
    j: int,
    i: int,
)
    requires
        0 <= j <= cs.len(),
        find_cursor(cs, d, j) == i,
        j <= i,
    ensures
        forall|m: int| j <= m < i ==> (#[trigger] cs[m]).cursor_index != d,
    decreases cs.len() - j,
{
    if j < cs.len() && cs[j].cursor_index != d && j < i {
        lemma_find_prefix_mismatch_cursor(cs, d, j + 1, i);
    }
}

/// Whether a record is a focus hand-over delivery.
pub open spec fn is_focus_record(r: DispatchRecord) -> bool {
    r.event is OnFocus || r.event is OnUnfocus
}

/// The non-focus records of a log, in order: the skeleton of a routing pass
/// with the focus hand-overs left out.
pub open spec fn spec_non_focus_records(s: Seq<DispatchRecord>) -> Seq<DispatchRecord>
    decreases s.len(),
{
    if s.len() == 0 {
        Seq::empty()
    } else {
        spec_non_focus_records(s.drop_last()) + (if is_focus_record(s.last()) {
            Seq::<DispatchRecord>::empty()
        } else {
            seq![s.last()]
        })
    }
}

/// Appending one record extends the non-focus skeleton by that record,
/// unless it is a focus hand-over.
proof fn lemma_non_focus_push(pre: Seq<DispatchRecord>, now: Seq<DispatchRecord>)
    requires
        now.len() == pre.len() + 1,
        forall|m: int| 0 <= m < pre.len() ==> #[trigger] now[m] == pre[m],
    ensures
        spec_non_focus_records(now) == spec_non_focus_records(pre)
            + (if is_focus_record(now.last()) {
                Seq::<DispatchRecord>::empty()
            } else {
                seq![now.last()]
            }),
{
    assert(now.drop_last() =~= pre);
}

/// A log extension made of focus hand-overs alone keeps the non-focus
/// skeleton.
proof fn lemma_non_focus_extend(log: Seq<DispatchRecord>, n: int)
    requires
        0 <= n <= log.len(),
        forall|i: int| n <= i < log.len() ==> is_focus_record(#[trigger] log[i]),
    ensures
        spec_non_focus_records(log) == spec_non_focus_records(log.take(n)),
    decreases log.len() - n,
{
    if n < log.len() {
        assert(log.take(log.len() as int) =~= log);
        lemma_non_focus_extend(log.drop_last(), n);
        assert(log.drop_last().take(n) =~= log.take(n));
        assert(spec_non_focus_records(log) =~= spec_non_focus_records(log.drop_last()));
    } else {
        assert(log.take(n) =~= log);
    }
}

/// The widget a button release confirms as the click target, walking the
/// bubble order from position `j` with `confirmed` already decided: a click
/// is attempted while no target is confirmed, or for members of the
/// pending-click set; the first consumed attempt confirms; the walk stops
/// at the first widget consuming the release.
pub open spec fn spec_up_confirmed(
    t: Seq<crate::widget::WidgetState>,
    order: Seq<WidgetId>,
    j: int,
    confirmed: Option<WidgetId>,
    pending: Option<Seq<WidgetId>>,
    up_ev: WidgetEvent,
    click_ev: WidgetEvent,
) -> Option<WidgetId>
    decreases order.len() - j,
{
    if j < 0 || j >= order.len() {
        confirmed
    } else {
        let w = order[j];
        let attempt = pending is Some && (confirmed is None || pending->0.contains(w));
        let confirmed2 = if confirmed is None && attempt
            && crate::dispatch::spec_reply_handled(t[w as int], click_ev) {
            Some(w)
        } else {
            confirmed
        };
        if crate::dispatch::spec_reply_handled(t[w as int], up_ev) {
            confirmed2
        } else {
            spec_up_confirmed(t, order, j + 1, confirmed2, pending, up_ev, click_ev)
        }
    }
}

/// The release and click deliveries a button release makes, walking the
/// bubble order from position `j`: each widget receives the release, then
/// the click if the pending set admits an attempt, and the walk stops after
/// the first widget consuming the release.
pub open spec fn spec_up_records(
    t: Seq<crate::widget::WidgetState>,
    order: Seq<WidgetId>,
    j: int,
    confirmed: Option<WidgetId>,
    pending: Option<Seq<WidgetId>>,
    up_ev: WidgetEvent,
    click_ev: WidgetEvent,
) -> Seq<DispatchRecord>
    decreases order.len() - j,
{
    if j < 0 || j >= order.len() {
        Seq::empty()
    } else {
        let w = order[j];
        let attempt = pending is Some && (confirmed is None || pending->0.contains(w));
        let confirmed2 = if confirmed is None && attempt
            && crate::dispatch::spec_reply_handled(t[w as int], click_ev) {
            Some(w)
        } else {
            confirmed
        };
        seq![DispatchRecord { target: w, event: up_ev }]
            + (if attempt {
                seq![DispatchRecord { target: w, event: click_ev }]
            } else {
                Seq::<DispatchRecord>::empty()
            })
            + (if crate::dispatch::spec_reply_handled(t[w as int], up_ev) {
                Seq::<DispatchRecord>::empty()
            } else {
                spec_up_records(t, order, j + 1, confirmed2, pending, up_ev, click_ev)
            })
    }
}

/// The pending-click set of device `d` as a sequence, with a missing device
/// or an empty slot counting as no recorded press.
pub open spec fn spec_pending_of(ctx: EventContext, d: usize) -> Option<Seq<WidgetId>> {
    match spec_pending(ctx, d) {
        Some(Some(v)) => Some(v@),
        _ => None,
    }
}

/// Which keyboards a confirmed click on `node` takes focus on: the listed
/// ones, or — for an all-keyboards request — the devices `ctx` knows.
pub open spec fn spec_click_focus_covers(
    node: crate::widget::WidgetState,
    ctx: EventContext,
    d: usize,
) -> bool {
    match node.kind {
        WidgetKind::TestWidget(s) => s.handle_click && match s.click_focus_keyboards {
            None => false,
            Some(None) => find_keyboard(ctx.keyboards@, d, 0) >= 0,
            Some(Some(ids)) => ids@.contains(d),
        },
        _ => false,
    }
}

/// The focus of keyboard `d` after the click phase of a button release:
/// the confirmed widget holds it on the keyboards its request covers,
/// everything else is untouched.
pub open spec fn spec_up_focus_mid(
    ctx: EventContext,
    t: Seq<crate::widget::WidgetState>,
    clicked: Option<WidgetId>,
    d: usize,
) -> Option<WidgetId> {
    match clicked {
        Some(hc) => if spec_click_focus_covers(t[hc as int], ctx, d) {
            Some(hc)
        } else {
            spec_focus_of(spec_focused(ctx, d))
        },
        None => spec_focus_of(spec_focused(ctx, d)),
    }
}

/// Stepping a node with any delivered event never changes how it replies to
/// a button release or a click: those replies read only configuration the
/// steps preserve.
proof fn lemma_step_keeps_up_click_profile(
    node: crate::widget::WidgetState,
    e1: WidgetEvent,
    up_ev: WidgetEvent,
    click_ev: WidgetEvent,
)
    requires
        up_ev is OnMouseButtonUp,
        click_ev is OnClick,
    ensures
        crate::dispatch::spec_reply_handled(spec_node_step(node, e1), up_ev)
            == crate::dispatch::spec_reply_handled(node, up_ev),
        crate::dispatch::spec_reply_handled(spec_node_step(node, e1), click_ev)
            == crate::dispatch::spec_reply_handled(node, click_ev),
        forall|x: Option<WidgetFocusChange>| crate::dispatch::spec_reply_take_focus_matches(
            spec_node_step(node, e1), click_ev, x)
            == crate::dispatch::spec_reply_take_focus_matches(node, click_ev, x),
        crate::dispatch::spec_reply_release(spec_node_step(node, e1), up_ev)
            == crate::dispatch::spec_reply_release(node, up_ev),
{
}

impl EventContext {
    /// Routes a button release and detects clicks.
    ///
    /// A captured device forwards the release to its capturing widget alone
    /// and applies its reply, which may release the capture; no click is
    /// detected. Otherwise the release bubbles along the hit path, stopping
    /// at the first consumer; independently, each visited widget receives
    /// `OnClick` while no click is confirmed yet or if it is in the
    /// pending-click set recorded at the matching press; the first widget
    /// whose click reply is consumed becomes the confirmed target and only
    /// its reply is applied. Afterwards the pending-click set is cleared,
    /// and keyboard 0 loses focus unless its focused widget is the
    /// confirmed target.
    ///
    /// Returns the confirmed click target, if any.
    #[verifier::rlimit(100)]
    pub fn handle_mouse_button_up(
        &mut self,
        tree: &mut WidgetTree,
        platform: &mut Vec<PlatformRequest>,
        widget_path: &WidgetPath,
        cursor_index: usize,
        button: MouseButton,
        pos: &Vec2,
    ) -> (clicked: Option<WidgetId>)
        requires
            tree_wf(*old(tree)),
            ctx_wf(*old(self), old(tree).nodes@.len() as int),
            spec_path_below(*widget_path, old(tree).nodes@.len() as int),
        ensures
            tree_wf(*final(tree)),
            final(tree).nodes@.len() == old(tree).nodes@.len(),
            ctx_wf(*final(self), final(tree).nodes@.len() as int),
            forall|d: usize, w: WidgetId| spec_over_contains(*final(self), d, w)
                == spec_over_contains(*old(self), d, w),
            cursor_balance(*old(tree), *old(self))
                ==> cursor_balance(*final(tree), *final(self)),
            match clicked {
                Some(hc) => hc < old(tree).nodes@.len(),
                None => true,
            },
            // the nodes end exactly as the dispatched deliveries step them
            final(tree).nodes@ == crate::dispatch::spec_apply_records(
                old(tree).nodes@, spec_appended(*old(tree), *final(tree))),
            ({
                let up_ev = WidgetEvent::OnMouseButtonUp {
                    mouse: cursor_index, button, pos: *pos,
                };
                let click_ev = WidgetEvent::OnClick {
                    mouse: cursor_index, button, pos: *pos,
                };
                match spec_cap_of(spec_captured(*old(self), cursor_index)) {
                    Some(w) => {
                        // forwarded to the holder alone; its reply may
                        // release the capture; no click, no focus change
                        &&& clicked is None
                        &&& final(tree).dispatched@ == old(tree).dispatched@.push(
                            DispatchRecord { target: w, event: up_ev })
                        &&& forall|c: usize| spec_cap_of(spec_captured(*final(self), c))
                            == (if crate::dispatch::spec_reply_release(
                                old(tree).nodes@[w as int], up_ev) == Some(c)
                                && spec_cap_of(spec_captured(*old(self), c)) == Some(w) {
                                None::<WidgetId>
                            } else {
                                spec_cap_of(spec_captured(*old(self), c))
                            })
                        &&& final(platform)@ == old(platform)@
                            + (match crate::dispatch::spec_reply_release(
                                old(tree).nodes@[w as int], up_ev) {
                                Some(cc) => if spec_cap_of(
                                    spec_captured(*old(self), cc)) == Some(w) {
                                    seq![PlatformRequest::SetCaptureCursor {
                                        cursor: cc, capture: false }]
                                } else {
                                    Seq::<PlatformRequest>::empty()
                                },
                                None => Seq::<PlatformRequest>::empty(),
                            })
                        &&& forall|d: usize| spec_focused(*final(self), d)
                            == spec_focused(*old(self), d)
                        &&& forall|d: usize| spec_pending_of(*final(self), d)
                            == spec_pending_of(*old(self), d)
                    },
                    None => {
                        let order = spec_bubble(*widget_path);
                        let pend = spec_pending_of(*old(self), cursor_index);
                        // the confirmed target and the release/click
                        // deliveries follow the pending-click protocol
                        &&& clicked == spec_up_confirmed(
                            old(tree).nodes@, order, 0, None, pend, up_ev, click_ev)
                        &&& spec_non_focus_records(final(tree).dispatched@)
                            == spec_non_focus_records(old(tree).dispatched@)
                                + spec_up_records(
                                    old(tree).nodes@, order, 0, None, pend, up_ev, click_ev)
                        // a release grants and releases no capture
                        &&& forall|c: usize| spec_cap_of(spec_captured(*final(self), c))
                            == spec_cap_of(spec_captured(*old(self), c))
                        &&& final(platform)@ == old(platform)@
                        // the pending-click set is consumed; other devices
                        // keep theirs
                        &&& spec_pending(*final(self), cursor_index)
                            == Some(None::<Vec<WidgetId>>)
                        &&& forall|d: usize| d != cursor_index
                            ==> spec_pending_of(*final(self), d)
                                == spec_pending_of(*old(self), d)
                        // focus follows the confirmed click, then keyboard 0
                        // keeps it only on the confirmed target
                        &&& forall|d: usize| d != 0 ==> spec_focus_of(
                            spec_focused(*final(self), d)) == spec_up_focus_mid(
                                *old(self), old(tree).nodes@, clicked, d)
                        &&& spec_focus_of(spec_focused(*final(self), 0)) == (match clicked {
                            None => None::<WidgetId>,
                            Some(hc) => if spec_up_focus_mid(
                                *old(self), old(tree).nodes@, clicked, 0) == Some(hc) {
                                Some(hc)
                            } else {
                                None::<WidgetId>
                            },
                        })
                    },
                }
            }),
    {
        let ghost n = old(tree).nodes@.len() as int;
        let ghost t0 = old(tree).nodes@;
        let up_ev = WidgetEvent::OnMouseButtonUp { mouse: cursor_index, button, pos: *pos };
        let click_ev = WidgetEvent::OnClick { mouse: cursor_index, button, pos: *pos };
        let i0 = self.get_cursor_context(cursor_index, Ghost(old(tree).nodes@.len() as int));
        let ghost self_got = *self;
        proof {
            assert(cursor_ctx_ok(self.cursors@[i0 as int], n));
            assert(spec_appended(*old(tree), *tree) =~= Seq::<DispatchRecord>::empty());
        }
        match self.cursors[i0].captured_by_widget {
            Some(captured) => {
                let ghost tp = *tree;
                let reply = tree.dispatch_event(captured, &up_ev);
                let ghost tp2 = *tree;
                self.process_reply(tree, captured, &reply, platform);
                proof {
                    lemma_applied_push(*old(tree), tp, tp2, DispatchRecord {
                        target: captured,
                        event: up_ev,
                    });
                    lemma_applied_focus(*old(tree), tp2, *tree);
                    assert(reply.take_focus is None);
                    assert(reply.capture_cursor is None);
                    assert(reply.release_cursor == crate::dispatch::spec_reply_release(
                        t0[captured as int], up_ev));
                    assert(tree.dispatched@ =~= old(tree).dispatched@.push(
                        DispatchRecord { target: captured, event: up_ev }));
                    if cursor_balance(*old(tree), *old(self)) {
                        lemma_one_neutral_dispatch(*old(tree), *tree, *old(self), captured);
                        assert(tree.dispatched@.take(tree.dispatched@.len() as int)
                            =~= tree.dispatched@);
                        lemma_balance_preserved(*tree, *tree, *old(self), *self);
                    }
                    assert(spec_captured(self_got, cursor_index) == Some(Some(captured)));
                    assert forall|c: usize| spec_cap_of(spec_captured(*self, c))
                        == (if crate::dispatch::spec_reply_release(
                            t0[captured as int], up_ev) == Some(c)
                            && spec_cap_of(spec_captured(*old(self), c)) == Some(captured) {
                            None::<WidgetId>
                        } else {
                            spec_cap_of(spec_captured(*old(self), c))
                        }) by {
                        assert(spec_cap_of(spec_captured(self_got, c))
                            == spec_cap_of(spec_captured(*old(self), c)));
                        assert(spec_cap_of(spec_captured(*self, c))
                            == spec_captured_post(self_got, captured, reply, c));
                    }
                    assert(!spec_capture_granted(self_got, captured, reply));
                    assert(final(platform)@ == old(platform)@
                        + (match crate::dispatch::spec_reply_release(
                            t0[captured as int], up_ev) {
                            Some(cc) => if spec_cap_of(
                                spec_captured(*old(self), cc)) == Some(captured) {
                                seq![PlatformRequest::SetCaptureCursor {
                                    cursor: cc, capture: false }]
                            } else {
                                Seq::<PlatformRequest>::empty()
                            },
                            None => Seq::<PlatformRequest>::empty(),
                        })) by {
                        if spec_release_granted(self_got, captured, reply) {
                            assert(platform@ =~= old(platform)@ + seq![
                                PlatformRequest::SetCaptureCursor {
                                    cursor: reply.release_cursor->0,
                                    capture: false,
                                },
                            ]);
                        } else {
                            assert(platform@ =~= old(platform)@);
                            match reply.release_cursor {
                                Some(cc) => {
                                    assert(spec_captured_mid(self_got, captured, reply, cc)
                                        == spec_cap_of(spec_captured(self_got, cc)));
                                },
                                None => {},
                            }
                        }
                    }
                    assert(self.keyboards == old(self).keyboards);
                    assert forall|d: usize| spec_focused(*self, d)
                        == spec_focused(*old(self), d) by {}
                    lemma_pending_of_preserved(*old(self), self_got, n);
                    lemma_pending_of_preserved(self_got, *self, n);
                }
                None
            },
            None => {
                let order = widget_path.bubble();
                let ghost ord = order@;
                let about: Option<Vec<WidgetId>> = match &self.cursors[i0].about_to_be_clicked {
                    Some(ab) => Some(copy_ids(ab)),
                    None => None,
                };
                let ghost pend = spec_pending_of(*old(self), cursor_index);
                proof {
                    crate::path::lemma_bubble_below(*widget_path, n);
                    lemma_pending_of_preserved(*old(self), self_got, n);
                    assert(pend == match about {
                        Some(ab) => Some(ab@),
                        None => None::<Seq<WidgetId>>,
                    });
                    assert(spec_non_focus_records(tree.dispatched@)
                        =~= spec_non_focus_records(old(tree).dispatched@)
                            + Seq::<DispatchRecord>::empty());
                }
                let mut handled_click: Option<WidgetId> = None;
                let ghost mut built: Seq<DispatchRecord> = Seq::empty();
                let mut i: usize = 0;
                let mut up_handled = false;
                while i < order.len() && !up_handled
                    invariant
                        tree_wf(*tree),
                        tree.nodes@.len() == n,
                        n == old(tree).nodes@.len(),
                        t0 == old(tree).nodes@,
                        ctx_wf(*self, n),
                        ord == order@,
                        up_ev == (WidgetEvent::OnMouseButtonUp {
                            mouse: cursor_index, button, pos: *pos,
                        }),
                        click_ev == (WidgetEvent::OnClick {
                            mouse: cursor_index, button, pos: *pos,
                        }),
                        pend == (match about {
                            Some(ab) => Some(ab@),
                            None => None::<Seq<WidgetId>>,
                        }),
                        forall|m: int| 0 <= m < ord.len() ==> (#[trigger] ord[m]) < n,
                        0 <= i <= ord.len(),
                        match handled_click {
                            Some(hc) => hc < n,
                            None => true,
                        },
                        // reply profiles for the release and the click are
                        // stable across the pass
                        forall|w2: int| 0 <= w2 < n ==> {
                            &&& crate::dispatch::spec_reply_handled(
                                (#[trigger] tree.nodes@[w2]), up_ev)
                                == crate::dispatch::spec_reply_handled(t0[w2], up_ev)
                            &&& crate::dispatch::spec_reply_handled(
                                tree.nodes@[w2], click_ev)
                                == crate::dispatch::spec_reply_handled(t0[w2], click_ev)
                            &&& crate::dispatch::spec_reply_release(
                                tree.nodes@[w2], up_ev)
                                == crate::dispatch::spec_reply_release(t0[w2], up_ev)
                            &&& forall|x: Option<WidgetFocusChange>|
                                crate::dispatch::spec_reply_take_focus_matches(
                                    tree.nodes@[w2], click_ev, x)
                                    == crate::dispatch::spec_reply_take_focus_matches(
                                        t0[w2], click_ev, x)
                        },
                        // bookkeeping facts about the getter's snapshot
                        forall|d: usize, w2: WidgetId| spec_over_contains(self_got, d, w2)
                            == spec_over_contains(*old(self), d, w2),
                        forall|c: usize| spec_cap_of(spec_captured(self_got, c))
                            == spec_cap_of(spec_captured(*old(self), c)),
                        self_got.keyboards == old(self).keyboards,
                        forall|d: usize| #[trigger] spec_pending_of(*self, d)
                            == spec_pending_of(*old(self), d),
                        tree.nodes@ == crate::dispatch::spec_apply_records(
                            old(tree).nodes@, spec_appended(*old(tree), *tree)),
                        // the log so far: the protocol skeleton plus focus
                        // hand-overs
                        spec_non_focus_records(tree.dispatched@)
                            == spec_non_focus_records(old(tree).dispatched@) + built,
                        spec_up_records(t0, ord, 0, None, pend, up_ev, click_ev)
                            == built + (if up_handled {
                                Seq::<DispatchRecord>::empty()
                            } else {
                                spec_up_records(
                                    t0, ord, i as int, handled_click, pend, up_ev, click_ev)
                            }),
                        spec_up_confirmed(t0, ord, 0, None, pend, up_ev, click_ev)
                            == (if up_handled {
                                handled_click
                            } else {
                                spec_up_confirmed(
                                    t0, ord, i as int, handled_click, pend, up_ev, click_ev)
                            }),
                        // routing state: captures and platform untouched,
                        // focus moved only by the confirmed click
                        forall|c: usize| spec_cap_of(spec_captured(*self, c))
                            == spec_cap_of(spec_captured(*old(self), c)),
                        platform@ == old(platform)@,
                        forall|d: usize, w2: WidgetId| spec_over_contains(*self, d, w2)
                            == spec_over_contains(*old(self), d, w2),
                        self.cursors@.len() >= self_got.cursors@.len(),
                        forall|m: int| 0 <= m < self_got.cursors@.len() ==> {
                            &&& (#[trigger] self.cursors@[m]).cursor_index
                                == self_got.cursors@[m].cursor_index
                            &&& self.cursors@[m].last_over_widgets
                                == self_got.cursors@[m].last_over_widgets
                            &&& self.cursors@[m].about_to_be_clicked
                                == self_got.cursors@[m].about_to_be_clicked
                        },
                        match handled_click {
                            None => self.keyboards == old(self).keyboards,
                            Some(hc) => forall|d: usize| spec_focus_of(
                                spec_focused(*self, d)) == spec_up_focus_mid(
                                    *old(self), t0, Some(hc), d),
                        },
                        old(tree).dispatched@.len() <= tree.dispatched@.len(),
                        tree.dispatched@.take(old(tree).dispatched@.len() as int)
                            == old(tree).dispatched@,
                        forall|i2: int| old(tree).dispatched@.len() <= i2
                            < tree.dispatched@.len() ==> {
                            &&& !((#[trigger] tree.dispatched@[i2]).event is OnCursorEnter)
                            &&& !(tree.dispatched@[i2].event is OnCursorLeave)
                        },
                    decreases ord.len() - i,
                {
                    let w = order[i];
                    let ghost tree_pre = *tree;
                    let up_reply = tree.dispatch_event(w, &up_ev);
                    proof {
                        lemma_log_push(tree_pre, *tree, *old(tree));
                        lemma_non_focus_push(tree_pre.dispatched@, tree.dispatched@);
                        lemma_applied_push(*old(tree), tree_pre, *tree, DispatchRecord {
                            target: w,
                            event: up_ev,
                        });
                        built = built.push(DispatchRecord { target: w, event: up_ev });
                        assert(spec_non_focus_records(tree.dispatched@)
                            =~= spec_non_focus_records(old(tree).dispatched@) + built);
                        assert forall|w2: int| 0 <= w2 < n implies
                            tree.nodes@[w2] == tree_pre.nodes@[w2]
                                || tree.nodes@[w2] == spec_node_step(
                                    tree_pre.nodes@[w2], up_ev) by {}
                        assert forall|w2: int| 0 <= w2 < n implies {
                            &&& crate::dispatch::spec_reply_handled(
                                (#[trigger] tree.nodes@[w2]), up_ev)
                                == crate::dispatch::spec_reply_handled(t0[w2], up_ev)
                            &&& crate::dispatch::spec_reply_handled(
                                tree.nodes@[w2], click_ev)
                                == crate::dispatch::spec_reply_handled(t0[w2], click_ev)
                            &&& crate::dispatch::spec_reply_release(
                                tree.nodes@[w2], up_ev)
                                == crate::dispatch::spec_reply_release(t0[w2], up_ev)
                            &&& forall|x: Option<WidgetFocusChange>|
                                crate::dispatch::spec_reply_take_focus_matches(
                                    tree.nodes@[w2], click_ev, x)
                                    == crate::dispatch::spec_reply_take_focus_matches(
                                        t0[w2], click_ev, x)
                        } by {
                            if w2 == w as int {
                                lemma_step_keeps_up_click_profile(
                                    tree_pre.nodes@[w2], up_ev, up_ev, click_ev);
                            }
                        }
                    }
                    let attempt = match &about {
                        Some(ab) => handled_click.is_none() || contains_id(ab, w),
                        None => false,
                    };
                    let was_unconfirmed = handled_click.is_none();
                    if attempt {
                        let ghost tree_mid = *tree;
                        let click_reply = tree.dispatch_event(w, &click_ev);
                        proof {
                            lemma_log_push(tree_mid, *tree, *old(tree));
                            lemma_non_focus_push(tree_mid.dispatched@, tree.dispatched@);
                            lemma_applied_push(*old(tree), tree_mid, *tree, DispatchRecord {
                                target: w,
                                event: click_ev,
                            });
                            built = built.push(
                                DispatchRecord { target: w, event: click_ev });
                            assert(spec_non_focus_records(tree.dispatched@)
                                =~= spec_non_focus_records(old(tree).dispatched@) + built);
                            assert forall|w2: int| 0 <= w2 < n implies {
                                &&& crate::dispatch::spec_reply_handled(
                                    (#[trigger] tree.nodes@[w2]), up_ev)
                                    == crate::dispatch::spec_reply_handled(t0[w2], up_ev)
                                &&& crate::dispatch::spec_reply_handled(
                                    tree.nodes@[w2], click_ev)
                                    == crate::dispatch::spec_reply_handled(
                                        t0[w2], click_ev)
                                &&& crate::dispatch::spec_reply_release(
                                    tree.nodes@[w2], up_ev)
                                    == crate::dispatch::spec_reply_release(t0[w2], up_ev)
                                &&& forall|x: Option<WidgetFocusChange>|
                                    crate::dispatch::spec_reply_take_focus_matches(
                                        tree.nodes@[w2], click_ev, x)
                                        == crate::dispatch::spec_reply_take_focus_matches(
                                            t0[w2], click_ev, x)
                            } by {
                                if w2 == w as int {
                                    lemma_step_keeps_up_click_profile(
                                        tree_mid.nodes@[w2], click_ev, up_ev, click_ev);
                                }
                            }
                        }
                        if click_reply.handled && was_unconfirmed {
                            handled_click = Some(w);
                            let ghost tree_mid2 = *tree;
                            let ghost self_pre = *self;
                            self.process_reply(tree, w, &click_reply, platform);
                            proof {
                                lemma_log_extends(tree_mid2, *tree, *old(tree));
                                lemma_applied_focus(*old(tree), tree_mid2, *tree);
                                lemma_non_focus_extend(
                                    tree.dispatched@, tree_mid2.dispatched@.len() as int);
                                assert(tree.dispatched@.take(
                                    tree_mid2.dispatched@.len() as int)
                                    == tree_mid2.dispatched@);
                                assert(spec_non_focus_records(tree.dispatched@)
                                    == spec_non_focus_records(old(tree).dispatched@)
                                        + built);
                                // the click reply carries no capture work
                                assert(click_reply.capture_cursor is None);
                                assert(click_reply.release_cursor is None);
                                assert(click_reply.free_focus is None);
                                assert forall|c: usize|
                                    spec_cap_of(spec_captured(*self, c))
                                        == spec_cap_of(spec_captured(*old(self), c)) by {
                                    assert(spec_cap_of(spec_captured(*self, c))
                                        == spec_captured_post(self_pre, w, click_reply, c));
                                }
                                assert(!spec_capture_granted(self_pre, w, click_reply));
                                assert(!spec_release_granted(self_pre, w, click_reply));
                                assert(platform@ =~= old(platform)@);
                                lemma_pending_of_preserved(self_pre, *self, n);
                                assert forall|d: usize, w2: WidgetId|
                                    spec_over_contains(*self, d, w2)
                                        == spec_over_contains(*old(self), d, w2) by {
                                    assert(spec_over_contains(*self, d, w2)
                                        == spec_over_contains(self_pre, d, w2));
                                }
                                // the confirmed reply's focus request is the
                                // leaf's configured one, applied now
                                assert(crate::dispatch::spec_reply_take_focus_matches(
                                    t0[w as int], click_ev, click_reply.take_focus));
                                assert forall|d: usize| spec_focus_of(
                                    spec_focused(*self, d)) == spec_up_focus_mid(
                                        *old(self), t0, Some(w), d) by {
                                    lemma_up_focus_applied(
                                        self_pre, *self, t0, w, click_ev,
                                        click_reply.take_focus, d);
                                }
                            }
                        }
                    }
                    if up_reply.handled {
                        up_handled = true;
                    }
                    proof {
                        if up_handled {
                            assert(spec_up_records(
                                t0, ord, 0, None, pend, up_ev, click_ev)
                                =~= built);
                        } else {
                            assert(spec_up_records(
                                t0, ord, 0, None, pend, up_ev, click_ev)
                                =~= built + spec_up_records(
                                    t0, ord, i + 1, handled_click, pend, up_ev, click_ev));
                        }
                    }
                    i = i + 1;
                }
                // the press's pending-click set is consumed
                let ghost self_loop = *self;
                proof {
                    lemma_find_cursor_stable_grow(self_got, *self, cursor_index, i0 as int);
                }
                let c = &mut self.cursors[i0];
                c.about_to_be_clicked = None;
                proof {
                    assert(self.cursors@ == self_loop.cursors@.update(
                        i0 as int, self.cursors@[i0 as int]));
                    lemma_pending_field_update(self_loop, *self, i0 as int, cursor_index);
                }
                // focus follows the confirmed click on keyboard 0
                let found_kb = self.try_get_keyboard_context(0);
                let ghost self_mid = *self;
                match found_kb {
                    Some(ki) => {
                        proof {
                            lemma_find_keyboard(self.keyboards@, 0, 0);
                        }
                        let focused = self.keyboards[ki].focused_widget;
                        let clear = match (&handled_click, &focused) {
                            (None, _) => true,
                            (Some(hc), Some(fw)) => *hc != *fw,
                            (Some(_), None) => false,
                        };
                        let ghost tree_mid = *tree;
                        if clear {
                            self.change_focus(tree, 0, None);
                            proof {
                                lemma_log_extends(tree_mid, *tree, *old(tree));
                                lemma_applied_focus(*old(tree), tree_mid, *tree);
                                lemma_non_focus_extend(
                                    tree.dispatched@, tree_mid.dispatched@.len() as int);
                                assert(tree.dispatched@.take(
                                    tree_mid.dispatched@.len() as int)
                                    == tree_mid.dispatched@);
                                assert forall|d: usize, w2: WidgetId|
                                    spec_over_contains(*self, d, w2)
                                        == spec_over_contains(self_mid, d, w2) by {}
                            }
                        }
                    },
                    None => {
                        proof {
                            lemma_find_keyboard(self.keyboards@, 0, 0);
                        }
                    },
                }
                proof {
                    if cursor_balance(*old(tree), *old(self)) {
                        assert forall|d: usize, w2: WidgetId|
                            spec_over_contains(*self, d, w2)
                                == spec_over_contains(*old(self), d, w2) by {}
                        lemma_balance_preserved(*old(tree), *tree, *old(self), *self);
                    }
                    // captures and the pending slots pass through the focus
                    // phase untouched
                    assert(self.cursors == self_mid.cursors);
                    assert forall|d: usize| d != cursor_index
                        implies spec_pending_of(*self, d)
                            == spec_pending_of(*old(self), d) by {
                        assert(spec_pending(*self, d) == spec_pending(self_mid, d));
                        assert(spec_pending(self_mid, d) == spec_pending(self_loop, d));
                        assert(spec_pending_of(self_loop, d)
                            == spec_pending_of(*old(self), d));
                    }
                    assert forall|c: usize| spec_cap_of(spec_captured(*self, c))
                        == spec_cap_of(spec_captured(*old(self), c)) by {
                        assert(spec_captured(*self, c) == spec_captured(self_mid, c));
                        assert(spec_captured(self_mid, c) == spec_captured(self_loop, c));
                    }
                    assert(spec_pending(*self, cursor_index)
                        == spec_pending(self_mid, cursor_index));
                    // keyboard focus: untouched except keyboard 0's final rule
                    assert forall|d: usize| d != 0 implies spec_focus_of(
                        spec_focused(*self, d)) == spec_up_focus_mid(
                            *old(self), t0, handled_click, d) by {
                        assert(spec_focused(*self, d) == spec_focused(self_mid, d));
                        assert(self_mid.keyboards == self_loop.keyboards);
                    }
                }
                handled_click
            },
        }
    }
}

/// Applying the confirmed click's focus request leaves each keyboard
/// focused per the click's configured coverage.
proof fn lemma_up_focus_applied(
    pre: EventContext,
    post: EventContext,
    t0: Seq<crate::widget::WidgetState>,
    hc: WidgetId,
    click_ev: WidgetEvent,
    take_focus: Option<WidgetFocusChange>,
    d: usize,
)
    requires
        0 <= hc < t0.len(),
        click_ev is OnClick,
        crate::dispatch::spec_reply_take_focus_matches(t0[hc as int], click_ev, take_focus),
        match take_focus {
            Some(WidgetFocusChange::KeyboardList(l)) => {
                &&& forall|j: int| 0 <= j < l@.len()
                    ==> spec_focused(post, #[trigger] l@[j]) == Some(Some(hc))
                &&& forall|dd: usize| !l@.contains(dd)
                    ==> spec_focused(post, dd) == spec_focused(pre, dd)
            },
            Some(WidgetFocusChange::AllKeyboards) => {
                &&& forall|m: int| 0 <= m < pre.keyboards@.len()
                    ==> spec_focused(post,
                        (#[trigger] pre.keyboards@[m]).keyboard_index) == Some(Some(hc))
                &&& forall|dd: usize| find_keyboard(pre.keyboards@, dd, 0) == -1
                    ==> spec_focused(post, dd) == spec_focused(pre, dd)
            },
            None => forall|dd: usize| spec_focused(post, dd) == spec_focused(pre, dd),
        },
    ensures
        spec_focus_of(spec_focused(post, d)) == spec_up_focus_mid(pre, t0, Some(hc), d),
{
    match t0[hc as int].kind {
        WidgetKind::TestWidget(s) => {
            if s.handle_click {
                match s.click_focus_keyboards {
                    None => {
                        assert(take_focus is None);
                        assert(spec_focused(post, d) == spec_focused(pre, d));
                        assert(!spec_click_focus_covers(t0[hc as int], pre, d));
                    },
                    Some(None) => {
                        assert(take_focus matches Some(WidgetFocusChange::AllKeyboards));
                        lemma_find_keyboard(pre.keyboards@, d, 0);
                        if find_keyboard(pre.keyboards@, d, 0) >= 0 {
                            lemma_find_keyboard(pre.keyboards@, d, 0);
                            let f = find_keyboard(pre.keyboards@, d, 0);
                            assert(pre.keyboards@[f].keyboard_index == d);
                            assert(spec_focused(post, d) == Some(Some(hc)));
                            assert(spec_click_focus_covers(t0[hc as int], pre, d));
                        } else {
                            assert(spec_focused(post, d) == spec_focused(pre, d));
                            assert(!spec_click_focus_covers(t0[hc as int], pre, d));
                        }
                    },
                    Some(Some(ids)) => {
                        match take_focus {
                            Some(WidgetFocusChange::KeyboardList(l)) => {
                                if ids@.contains(d) {
                                    let j = choose|j: int| 0 <= j < ids@.len()
                                        && #[trigger] ids@[j] == d;
                                    assert(l@[j] == d);
                                    assert(spec_focused(post, d) == Some(Some(hc)));
                                    assert(spec_click_focus_covers(t0[hc as int], pre, d));
                                } else {
                                    assert(!l@.contains(d)) by {
                                        if l@.contains(d) {
                                            let j = choose|j: int| 0 <= j < l@.len()
                                                && #[trigger] l@[j] == d;
                                            assert(ids@[j] == d);
                                            assert(ids@.contains(d));
                                        }
                                    }
                                    assert(spec_focused(post, d) == spec_focused(pre, d));
                                    assert(!spec_click_focus_covers(t0[hc as int], pre, d));
                                }
                            },
                            _ => {
                                assert(false);
                            },
                        }
                    },
                }
            } else {
                assert(take_focus is None);
                assert(spec_focused(post, d) == spec_focused(pre, d));
            }
        },
        _ => {
            assert(take_focus is None);
            assert(spec_focused(post, d) == spec_focused(pre, d));
        },
    }
}

/// One appended non-cursor record keeps the log-extension facts./// One appended non-cursor record keeps the log-extension facts.
proof fn lemma_log_push(t_pre: WidgetTree, t_now: WidgetTree, t_base: WidgetTree)
    requires
        t_base.dispatched@.len() <= t_pre.dispatched@.len(),
        t_pre.dispatched@.take(t_base.dispatched@.len() as int) == t_base.dispatched@,
        forall|i2: int| t_base.dispatched@.len() <= i2 < t_pre.dispatched@.len() ==> {
            &&& !((#[trigger] t_pre.dispatched@[i2]).event is OnCursorEnter)
            &&& !(t_pre.dispatched@[i2].event is OnCursorLeave)
        },
        t_now.dispatched@.len() == t_pre.dispatched@.len() + 1,
        forall|m: int| 0 <= m < t_pre.dispatched@.len()
            ==> #[trigger] t_now.dispatched@[m] == t_pre.dispatched@[m],
        !(t_now.dispatched@.last().event is OnCursorEnter),
        !(t_now.dispatched@.last().event is OnCursorLeave),
    ensures
        t_base.dispatched@.len() <= t_now.dispatched@.len(),
        t_now.dispatched@.take(t_base.dispatched@.len() as int) == t_base.dispatched@,
        forall|i2: int| t_base.dispatched@.len() <= i2 < t_now.dispatched@.len() ==> {
            &&& !((#[trigger] t_now.dispatched@[i2]).event is OnCursorEnter)
            &&& !(t_now.dispatched@[i2].event is OnCursorLeave)
        },
{
    assert(t_now.dispatched@.take(t_base.dispatched@.len() as int)
        =~= t_base.dispatched@) by {
        assert forall|m: int| 0 <= m < t_base.dispatched@.len()
            implies t_now.dispatched@[m] == t_base.dispatched@[m] by {
            assert(t_now.dispatched@[m] == t_pre.dispatched@[m]);
        }
    }
    assert forall|i2: int| t_base.dispatched@.len() <= i2 < t_now.dispatched@.len()
        implies {
            &&& !((#[trigger] t_now.dispatched@[i2]).event is OnCursorEnter)
            &&& !(t_now.dispatched@[i2].event is OnCursorLeave)
        } by {
        if i2 < t_pre.dispatched@.len() {
            assert(t_now.dispatched@[i2] == t_pre.dispatched@[i2]);
        } else {
            assert(t_now.dispatched@[i2] == t_now.dispatched@.last());
        }
    }
}

/// Chains log-extension facts across successive mutations.
proof fn lemma_log_extends(t_mid: WidgetTree, t_now: WidgetTree, t_base: WidgetTree)
    requires
        t_base.dispatched@.len() <= t_mid.dispatched@.len(),
        t_mid.dispatched@.take(t_base.dispatched@.len() as int) == t_base.dispatched@,
        forall|i2: int| t_base.dispatched@.len() <= i2 < t_mid.dispatched@.len() ==> {
            &&& !((#[trigger] t_mid.dispatched@[i2]).event is OnCursorEnter)
            &&& !(t_mid.dispatched@[i2].event is OnCursorLeave)
        },
        t_mid.dispatched@.len() <= t_now.dispatched@.len(),
        t_now.dispatched@.take(t_mid.dispatched@.len() as int) == t_mid.dispatched@,
        forall|i2: int| t_mid.dispatched@.len() <= i2 < t_now.dispatched@.len() ==> {
            &&& !((#[trigger] t_now.dispatched@[i2]).event is OnCursorEnter)
            &&& !(t_now.dispatched@[i2].event is OnCursorLeave)
        },
    ensures
        t_base.dispatched@.len() <= t_now.dispatched@.len(),
        t_now.dispatched@.take(t_base.dispatched@.len() as int) == t_base.dispatched@,
        forall|i2: int| t_base.dispatched@.len() <= i2 < t_now.dispatched@.len() ==> {
            &&& !((#[trigger] t_now.dispatched@[i2]).event is OnCursorEnter)
            &&& !(t_now.dispatched@[i2].event is OnCursorLeave)
        },
{
    assert(t_now.dispatched@.take(t_base.dispatched@.len() as int)
        =~= t_base.dispatched@) by {
        assert forall|m: int| 0 <= m < t_base.dispatched@.len()
            implies t_now.dispatched@[m] == t_base.dispatched@[m] by {
            assert(t_now.dispatched@[m] == t_mid.dispatched@[m]);
        }
    }
    assert forall|i2: int| t_base.dispatched@.len() <= i2 < t_now.dispatched@.len()
        implies {
            &&& !((#[trigger] t_now.dispatched@[i2]).event is OnCursorEnter)
            &&& !(t_now.dispatched@[i2].event is OnCursorLeave)
        } by {
        if i2 < t_mid.dispatched@.len() {
            assert(t_now.dispatched@[i2] == t_mid.dispatched@[i2]);
        }
    }
}

/// Capture exclusivity: while a device is captured by one widget, any other
/// widget's reply — whatever it requests — leaves that capture in place,
/// grants nothing, and releases nothing.
pub proof fn lemma_capture_exclusive(
    ctx: EventContext,
    holder: WidgetId,
    other: WidgetId,
    reply: Reply,
    c: usize,
)
    requires
        spec_cap_of(spec_captured(ctx, c)) == Some(holder),
        other != holder,
    ensures
        spec_captured_post(ctx, other, reply, c) == Some(holder),
        !(reply.capture_cursor == Some(c) && spec_capture_granted(ctx, other, reply)),
{
}

/// The pending-click set of cursor device `d`: `None` if the device is
/// unknown.
pub open spec fn spec_pending(ctx: EventContext, d: usize) -> Option<Option<Vec<WidgetId>>> {
    let i = find_cursor(ctx.cursors@, d, 0);
    if i >= 0 {
        Some(ctx.cursors@[i].about_to_be_clicked)
    } else {
        None
    }
}

/// Device entries that only accumulate — identities and pending sets kept
/// on existing entries, new entries carrying no pending set — keep every
/// device's recorded pending set, a missing entry counting as none.
proof fn lemma_pending_of_preserved(c0: EventContext, c1: EventContext, n: int)
    requires
        ctx_wf(c1, n),
        c0.cursors@.len() <= c1.cursors@.len(),
        forall|m: int| 0 <= m < c0.cursors@.len() ==> {
            &&& (#[trigger] c1.cursors@[m]).cursor_index == c0.cursors@[m].cursor_index
            &&& c1.cursors@[m].about_to_be_clicked == c0.cursors@[m].about_to_be_clicked
        },
        forall|m: int| c0.cursors@.len() <= m < c1.cursors@.len()
            ==> (#[trigger] c1.cursors@[m]).about_to_be_clicked is None,
    ensures
        forall|d: usize| #[trigger] spec_pending_of(c1, d) == spec_pending_of(c0, d),
{
    assert forall|d: usize| #[trigger] spec_pending_of(c1, d) == spec_pending_of(c0, d) by {
        lemma_find_cursor(c0.cursors@, d, 0);
        lemma_find_cursor(c1.cursors@, d, 0);
        let f0 = find_cursor(c0.cursors@, d, 0);
        let f1 = find_cursor(c1.cursors@, d, 0);
        if f0 >= 0 {
            // the tail cannot duplicate an existing device
            assert forall|m: int| c0.cursors@.len() <= m < c1.cursors@.len()
                implies (#[trigger] c1.cursors@[m]).cursor_index != d by {
                if c1.cursors@[m].cursor_index == d {
                    assert(c1.cursors@[f0].cursor_index == d);
                }
            }
            lemma_find_cursor_stable(c0.cursors@, c1.cursors@, d, 0);
        } else {
            if f1 >= 0 {
                assert(f1 >= c0.cursors@.len());
                assert(c1.cursors@[f1].about_to_be_clicked is None);
            }
        }
    }
}

/// Rewriting one cursor entry's pending-click field changes only that
/// device's pending set.
proof fn lemma_pending_field_update(c0: EventContext, c1: EventContext, i: int, d_i: usize)
    requires
        c1.keyboards == c0.keyboards,
        c1.cursors@.len() == c0.cursors@.len(),
        0 <= i < c0.cursors@.len(),
        forall|m: int| 0 <= m < c0.cursors@.len() && m != i
            ==> #[trigger] c1.cursors@[m] == c0.cursors@[m],
        c1.cursors@[i].cursor_index == c0.cursors@[i].cursor_index,
        c1.cursors@[i].last_over_widgets == c0.cursors@[i].last_over_widgets,
        c1.cursors@[i].captured_by_widget == c0.cursors@[i].captured_by_widget,
        c0.cursors@[i].cursor_index == d_i,
        find_cursor(c0.cursors@, d_i, 0) == i,
    ensures
        forall|d: usize| #[trigger] find_cursor(c1.cursors@, d, 0)
            == find_cursor(c0.cursors@, d, 0),
        forall|d: usize, w: WidgetId| spec_over_contains(c1, d, w)
            == spec_over_contains(c0, d, w),
        forall|d: usize| #[trigger] spec_captured(c1, d) == spec_captured(c0, d),
        forall|d: usize| d != d_i ==> #[trigger] spec_pending(c1, d) == spec_pending(c0, d),
        spec_pending(c1, d_i) == Some(c1.cursors@[i].about_to_be_clicked),
{
    assert forall|d: usize| #[trigger] find_cursor(c1.cursors@, d, 0)
        == find_cursor(c0.cursors@, d, 0) by {
        lemma_find_cursor_stable(c0.cursors@, c1.cursors@, d, 0);
    }
    assert forall|d: usize, w: WidgetId| spec_over_contains(c1, d, w)
        == spec_over_contains(c0, d, w) by {
        lemma_find_cursor(c0.cursors@, d, 0);
        let f = find_cursor(c0.cursors@, d, 0);
        if f >= 0 && f != i {
            assert(c1.cursors@[f] == c0.cursors@[f]);
        }
    }
    assert forall|d: usize| #[trigger] spec_captured(c1, d) == spec_captured(c0, d) by {
        lemma_find_cursor(c0.cursors@, d, 0);
        let f = find_cursor(c0.cursors@, d, 0);
        if f >= 0 && f != i {
            assert(c1.cursors@[f] == c0.cursors@[f]);
        }
    }
    assert forall|d: usize| d != d_i
        implies #[trigger] spec_pending(c1, d) == spec_pending(c0, d) by {
        lemma_find_cursor(c0.cursors@, d, 0);
        let f = find_cursor(c0.cursors@, d, 0);
        if f >= 0 {
            assert(f != i);
            assert(c1.cursors@[f] == c0.cursors@[f]);
        }
    }
}

/// If nothing before position `i` matches and position `i` does, the search
/// from any earlier position finds `i`.
proof fn lemma_find_first_is_min_cursor(cs: Seq<CursorEventContext>, d: usize, j: int, i: int)
    requires
        0 <= j <= i < cs.len(),
        cs[i].cursor_index == d,
        forall|m: int| 0 <= m < i ==> (#[trigger] cs[m]).cursor_index != d,
    ensures
        find_cursor(cs, d, j) == i,
    decreases i - j,
{
    if j < i {
        lemma_find_first_is_min_cursor(cs, d, j + 1, i);
    }
}

proof fn lemma_find_first_is_min_keyboard(
    ks: Seq<KeyboardEventContext>,
    d: usize,
    j: int,
    i: int,
)
    requires
        0 <= j <= i < ks.len(),
        ks[i].keyboard_index == d,
        forall|m: int| 0 <= m < i ==> (#[trigger] ks[m]).keyboard_index != d,
    ensures
        find_keyboard(ks, d, j) == i,
    decreases i - j,
{
    if j < i {
        lemma_find_first_is_min_keyboard(ks, d, j + 1, i);
    }
}

} // verus!
