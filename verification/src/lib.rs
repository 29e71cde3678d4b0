//! A retained-mode UI core: a tree of widget nodes that compute their own
//! preferred size, are arranged into absolute screen regions, are painted in
//! arrangement order, and receive routed input events with focus and
//! pointer-capture semantics.
//!
//! Widgets live in an arena ([`widget::WidgetTree`]); a node refers to its
//! children by index, and every child index is strictly below the parent's,
//! so tree walks terminate by construction and no runtime borrow tracking is
//! needed. All coordinates are integer device pixels. Painting produces a
//! display list of [`paint::PaintCmd`]; platform side effects of event
//! routing are returned as [`events::PlatformRequest`] data for the embedder
//! to perform.

pub mod geometry;
pub mod layout;
pub mod linear;
pub mod events;
pub mod test_widget;
pub mod scroll_bar;
pub mod box_panel;
pub mod linear_panel;
pub mod overlay_panel;
pub mod scroll_panel;
pub mod window;
pub mod widget;
pub mod arrange;
pub mod dispatch;
pub mod path;
pub mod context;
pub mod paint;
pub mod builder;
