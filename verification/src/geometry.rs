//! Integer 2D geometry: vectors, the per-widget `Geometry` record, and the
//! absolute-position containment test used for hit-testing.

use vstd::prelude::*;

verus! {

/// A 2D vector of integer device pixels.
#[derive(Clone, Copy, PartialEq, Eq, Structural, Debug)]
pub struct Vec2 {
    pub x: i64,
    pub y: i64,
}

impl Vec2 {
    pub fn new(x: i64, y: i64) -> (r: Vec2)
        ensures
            r.x == x,
            r.y == y,
    {
        Vec2 { x, y }
    }

    /// The zero vector.
    pub fn zero() -> (r: Vec2)
        ensures
            r.x == 0,
            r.y == 0,
    {
        Vec2 { x: 0, y: 0 }
    }
}

/// Largest desired size a single widget may declare on an axis.
pub const MAX_DESIRED: i64 = 0x1000_0000;

/// Largest number of nodes a widget tree may hold.
pub const TREE_CAP: usize = 0x1_0000;

/// Per-level growth allowance for local sizes: a child may be assigned at
/// most `MAX_DESIRED` more space than its parent received, so a size bound
/// that widens by `SIZE_UNIT` per level is preserved down the tree.
pub const SIZE_UNIT: i64 = 0x2000_0000;

/// Bound on any single child offset within its parent, and the per-level
/// allowance for absolute positions.
pub const POS_UNIT: i64 = 0x4000_0000_0000;

/// Flat bound on local sizes anywhere in a tree: `TREE_CAP * SIZE_UNIT`.
pub const MAX_SIZE: i64 = 0x2000_0000_0000;

/// Flat bound on absolute positions anywhere in a tree:
/// `TREE_CAP * POS_UNIT`.
pub const MAX_ABS: i64 = 0x4000_0000_0000_0000;

/// The geometry a widget is arranged with: position and size relative to the
/// immediate parent, position relative to the window root, and a scale
/// factor carried through for the embedder.
#[derive(Clone, Copy, PartialEq, Eq, Structural, Debug)]
pub struct Geometry {
    pub local_pos: Vec2,
    pub local_size: Vec2,
    pub absolute_pos: Vec2,
    pub scale: Vec2,
}

/// Whether a point lies in the closed rectangle `[pos, pos + size]`
/// (both edges inclusive, as the hit test demands).
pub open spec fn spec_contains(g: Geometry, p: Vec2) -> bool {
    &&& g.absolute_pos.x <= p.x
    &&& g.absolute_pos.y <= p.y
    &&& p.x <= g.absolute_pos.x + g.local_size.x
    &&& p.y <= g.absolute_pos.y + g.local_size.y
}

/// Geometry fields small enough that containment tests and child
/// derivations cannot overflow.
pub open spec fn geom_sane(g: Geometry) -> bool {
    &&& 0 <= g.local_size.x <= MAX_SIZE
    &&& 0 <= g.local_size.y <= MAX_SIZE
    &&& -MAX_ABS <= g.local_pos.x <= MAX_ABS
    &&& -MAX_ABS <= g.local_pos.y <= MAX_ABS
    &&& -MAX_ABS <= g.absolute_pos.x <= MAX_ABS
    &&& -MAX_ABS <= g.absolute_pos.y <= MAX_ABS
}

/// Geometry bounds for a node with index `id`: sizes and absolute positions
/// may widen as the arrangement walks down the tree, and child indices are
/// strictly below their parent's, so the allowance grows as `id` shrinks.
pub open spec fn geom_ok(g: Geometry, id: int) -> bool {
    &&& 0 <= id < TREE_CAP
    &&& 0 <= g.local_size.x <= (TREE_CAP - id) * SIZE_UNIT
    &&& 0 <= g.local_size.y <= (TREE_CAP - id) * SIZE_UNIT
    &&& -POS_UNIT <= g.local_pos.x <= POS_UNIT
    &&& -POS_UNIT <= g.local_pos.y <= POS_UNIT
    &&& -(TREE_CAP - id) * POS_UNIT <= g.absolute_pos.x <= (TREE_CAP - id) * POS_UNIT
    &&& -(TREE_CAP - id) * POS_UNIT <= g.absolute_pos.y <= (TREE_CAP - id) * POS_UNIT
}

/// Geometry within the `geom_ok` envelope is also flatly bounded.
pub proof fn lemma_geom_ok_sane(g: Geometry, id: int)
    requires
        geom_ok(g, id),
    ensures
        geom_sane(g),
{
    assert((TREE_CAP - id) * SIZE_UNIT <= TREE_CAP * SIZE_UNIT) by (nonlinear_arith)
        requires 0 <= id < TREE_CAP;
    assert((TREE_CAP - id) * POS_UNIT <= TREE_CAP * POS_UNIT) by (nonlinear_arith)
        requires 0 <= id < TREE_CAP;
}

impl Geometry {
    pub fn new(local_pos: Vec2, local_size: Vec2, absolute_pos: Vec2, scale: Vec2) -> (r: Geometry)
        ensures
            r.local_pos == local_pos,
            r.local_size == local_size,
            r.absolute_pos == absolute_pos,
            r.scale == scale,
    {
        Geometry { local_pos, local_size, absolute_pos, scale }
    }

    pub fn local_pos(&self) -> (r: Vec2)
        ensures
            r == self.local_pos,
    {
        self.local_pos
    }

    pub fn set_local_pos(&mut self, pos: Vec2)
        ensures
            *final(self) == (Geometry { local_pos: pos, ..*old(self) }),
    {
        self.local_pos = pos;
    }

    pub fn local_size(&self) -> (r: Vec2)
        ensures
            r == self.local_size,
    {
        self.local_size
    }

    pub fn set_local_size(&mut self, size: Vec2)
        ensures
            *final(self) == (Geometry { local_size: size, ..*old(self) }),
    {
        self.local_size = size;
    }

    pub fn absolute_pos(&self) -> (r: Vec2)
        ensures
            r == self.absolute_pos,
    {
        self.absolute_pos
    }

    pub fn set_absolute_pos(&mut self, pos: Vec2)
        ensures
            *final(self) == (Geometry { absolute_pos: pos, ..*old(self) }),
    {
        self.absolute_pos = pos;
    }

    pub fn scale(&self) -> (r: Vec2)
        ensures
            r == self.scale,
    {
        self.scale
    }

    pub fn set_scale(&mut self, scale: Vec2)
        ensures
            *final(self) == (Geometry { scale, ..*old(self) }),
    {
        self.scale = scale;
    }

    /// The geometry a parent with this geometry assigns to a child placed at
    /// offset `pos` with size `size`: the offset is added to the parent's
    /// absolute position, the requested size is substituted, and the
    /// parent's scale factor carries over.
    pub fn child_geometry(&self, pos: Vec2, size: Vec2) -> (r: Geometry)
        requires
            i64::MIN <= self.absolute_pos.x + pos.x <= i64::MAX,
            i64::MIN <= self.absolute_pos.y + pos.y <= i64::MAX,
        ensures
            r.local_pos == pos,
            r.local_size == size,
            r.absolute_pos.x == self.absolute_pos.x + pos.x,
            r.absolute_pos.y == self.absolute_pos.y + pos.y,
            r.scale == self.scale,
    {
        Geometry {
            local_pos: pos,
            local_size: size,
            absolute_pos: Vec2 { x: self.absolute_pos.x + pos.x, y: self.absolute_pos.y + pos.y },
            scale: self.scale,
        }
    }

    /// Closed-interval containment of an absolute position: a point on the
    /// top-left corner is inside, and so is one on the bottom-right corner.
    pub fn contains_absolute_pos(&self, pos: &Vec2) -> (r: bool)
        requires
            geom_sane(*self),
        ensures
            r == spec_contains(*self, *pos),
    {
        if self.absolute_pos.x > pos.x || self.absolute_pos.y > pos.y {
            return false;
        }
        let max_x = self.absolute_pos.x + self.local_size.x;
        let max_y = self.absolute_pos.y + self.local_size.y;
        if max_x < pos.x || max_y < pos.y {
            return false;
        }
        true
    }
}

impl Default for Geometry {
    /// The all-zero geometry, reported for widgets never yet arranged.
    fn default() -> (r: Geometry)
        ensures
            r.local_pos == (Vec2 { x: 0, y: 0 }),
            r.local_size == (Vec2 { x: 0, y: 0 }),
            r.absolute_pos == (Vec2 { x: 0, y: 0 }),
            r.scale == (Vec2 { x: 0, y: 0 }),
    {
        Geometry {
            local_pos: Vec2 { x: 0, y: 0 },
            local_size: Vec2 { x: 0, y: 0 },
            absolute_pos: Vec2 { x: 0, y: 0 },
            scale: Vec2 { x: 0, y: 0 },
        }
    }
}

/// Hit-testing is reflexive at the top-left corner: the point at a widget's
/// own absolute position is always contained.
pub proof fn lemma_contains_top_left(g: Geometry)
    requires
        0 <= g.local_size.x,
        0 <= g.local_size.y,
    ensures
        spec_contains(g, g.absolute_pos),
{
}

/// A point one unit past the bottom-right corner is not contained.
pub proof fn lemma_beyond_bottom_right(g: Geometry, p: Vec2)
    requires
        p.x == g.absolute_pos.x + g.local_size.x + 1 || p.y == g.absolute_pos.y + g.local_size.y + 1,
    ensures
        !spec_contains(g, p),
{
}

} // verus!
