//! A binary-tree bin packer over a fixed canvas.
//!
//! Each node covers a rectangle. A leaf is empty or filled; an inner node has
//! two children whose rectangles split the parent's rectangle exactly. Nodes
//! are only ever split, never merged, so placements are permanent.
use vstd::prelude::*;

verus! {

/// Width and height of a rectangle, in pixels.
#[derive(PartialEq, Eq, Structural, Clone, Copy, Debug)]
pub struct RectSize {
    pub height: u32,
    pub width: u32,
}

impl RectSize {
    /// Whether a rectangle of this size fits inside one of size `other`.
    pub fn fits_in(&self, other: RectSize) -> (r: bool)
        ensures
            r == (self.width <= other.width && self.height <= other.height),
    {
        other.width >= self.width && other.height >= self.height
    }

    pub fn area(&self) -> (r: u32)
        requires
            self.height * self.width <= u32::MAX,
        ensures
            r == self.height * self.width,
    {
        self.height * self.width
    }
}

/// A rectangle whose upper-left corner is at `(x, y)`.
#[derive(PartialEq, Eq, Structural, Clone, Copy, Debug)]
pub struct Rect {
    pub x: u32,
    pub y: u32,
    pub size: RectSize,
}

impl Rect {
    pub open spec fn right(self) -> int {
        self.x + self.size.width
    }

    pub open spec fn bottom(self) -> int {
        self.y + self.size.height
    }

    /// Every pixel of `self` lies inside `outer`.
    pub open spec fn within(self, outer: Rect) -> bool {
        outer.x <= self.x && self.right() <= outer.right() && outer.y <= self.y && self.bottom()
            <= outer.bottom()
    }

    /// The two rectangles share at least one pixel.
    pub open spec fn overlaps(self, other: Rect) -> bool {
        self.x < other.right() && other.x < self.right() && self.y < other.bottom() && other.y
            < self.bottom()
    }

    pub fn new(x: u32, y: u32, width: u32, height: u32) -> (r: Rect)
        ensures
            r == (Rect { x, y, size: RectSize { height, width } }),
    {
        Rect { x, y, size: RectSize { height, width } }
    }
}

/// `left` and `right` cut `parent` in two along one axis, with `left` at the
/// parent's origin and no gap between them.
pub open spec fn is_split(parent: Rect, left: Rect, right: Rect) -> bool {
    &&& left.x == parent.x
    &&& left.y == parent.y
    &&& {
        ||| {
            &&& left.size.height == parent.size.height
            &&& right.size.height == parent.size.height
            &&& left.size.width <= parent.size.width
            &&& right.x == parent.x + left.size.width
            &&& right.y == parent.y
            &&& right.size.width == parent.size.width - left.size.width
        }
        ||| {
            &&& left.size.width == parent.size.width
            &&& right.size.width == parent.size.width
            &&& left.size.height <= parent.size.height
            &&& right.x == parent.x
            &&& right.y == parent.y + left.size.height
            &&& right.size.height == parent.size.height - left.size.height
        }
    }
}

/// A node of the packing tree. A leaf is free or `filled`; an inner node has
/// two children that split its rectangle. The operations require and keep
/// `wf`.
pub struct PackingNode {
    pub children: Option<(Box<PackingNode>, Box<PackingNode>)>,
    pub rect: Rect,
    pub filled: bool,
}

/// The two parts a free leaf of `rect` is cut into for a request of `size`:
/// along the width when it has more slack there, else along the height. The
/// first part is sized to the request along the cut axis.
pub open spec fn split_rects(rect: Rect, size: RectSize) -> (Rect, Rect) {
    let width_diff = rect.size.width - size.width;
    let height_diff = rect.size.height - size.height;
    if width_diff > height_diff {
        (
            Rect { x: rect.x, y: rect.y, size: RectSize { height: rect.size.height, width: size.width } },
            Rect {
                x: (rect.x + size.width) as u32,
                y: rect.y,
                size: RectSize { height: rect.size.height, width: (rect.size.width - size.width) as u32 },
            },
        )
    } else {
        (
            Rect { x: rect.x, y: rect.y, size: RectSize { height: size.height, width: rect.size.width } },
            Rect {
                x: rect.x,
                y: (rect.y + size.height) as u32,
                size: RectSize { height: (rect.size.height - size.height) as u32, width: rect.size.width },
            },
        )
    }
}

/// `node` is what a free leaf over `rect` becomes when a request of `size`
/// that fits it is placed: filled when the size is exact, else split by
/// `split_rects`, with the request placed in the first part and the second
/// part left free.
pub open spec fn fills_fresh(rect: Rect, size: RectSize, node: PackingNode) -> bool
    decreases (rect.size.width - size.width) + (rect.size.height - size.height),
{
    &&& node.rect == rect
    &&& size.width <= rect.size.width
    &&& size.height <= rect.size.height
    &&& if size == rect.size {
        node.children is None && node.filled
    } else {
        &&& !node.filled
        &&& match node.children {
            Some((first, second)) => {
                &&& second.rect == split_rects(rect, size).1
                &&& second.children is None
                &&& !second.filled
                &&& fills_fresh(split_rects(rect, size).0, size, *first)
            },
            None => false,
        }
    }
}

/// One call of `insert_rect` for `size` takes the tree `before` to `after`
/// and returns `r`: a request that does not fit or is the empty size
/// changes nothing; an inner node passes the request to its left child if
/// that child accepts it, else to its right child; a filled leaf refuses it;
/// a free leaf takes it at its upper-left corner.
pub open spec fn inserts(
    before: PackingNode,
    after: PackingNode,
    size: RectSize,
    r: Option<(u32, u32)>,
) -> bool
    decreases before,
{
    if !(size.width <= before.rect.size.width && size.height <= before.rect.size.height) || (
    size.width == 0 && size.height == 0) {
        after == before && r is None
    } else {
        match before.children {
            Some((left, right)) => match after.children {
                Some((new_left, new_right)) => {
                    &&& after.rect == before.rect
                    &&& after.filled == before.filled
                    &&& if left.accepts(size) {
                        inserts(*left, *new_left, size, r) && new_right == right
                    } else {
                        new_left == left && inserts(*right, *new_right, size, r)
                    }
                },
                None => false,
            },
            None => if before.filled {
                after == before && r is None
            } else {
                r == Some((before.rect.x, before.rect.y)) && fills_fresh(before.rect, size, after)
            },
        }
    }
}


impl PackingNode {
    /// The rectangle this node covers.
    pub open spec fn bounds(self) -> Rect {
        self.rect
    }

    /// The rectangles placed so far in this subtree.
    pub open spec fn placed(self) -> Set<Rect>
        decreases self,
    {
        match self.children {
            Some((left, right)) => left.placed().union(right.placed()),
            None => if self.filled {
                set![self.rect]
            } else {
                Set::empty()
            },
        }
    }

    /// A request of `size` succeeds here: it fits this node, is not the empty
    /// size, and either this node is a free leaf or one of its children
    /// accepts it.
    pub open spec fn accepts(self, size: RectSize) -> bool
        decreases self,
    {
        &&& size.width <= self.rect.size.width
        &&& size.height <= self.rect.size.height
        &&& !(size.width == 0 && size.height == 0)
        &&& match self.children {
            Some((left, right)) => left.accepts(size) || right.accepts(size),
            None => !self.filled,
        }
    }

    /// Where an accepted request lands: the first accepting leaf, left before
    /// right, at its upper-left corner.
    pub open spec fn first_fit(self, size: RectSize) -> (u32, u32)
        decreases self,
    {
        match self.children {
            Some((left, right)) => if left.accepts(size) {
                left.first_fit(size)
            } else {
                right.first_fit(size)
            },
            None => (self.rect.x, self.rect.y),
        }
    }

    /// Every split and every filled leaf of `before` is still here, over the
    /// same rectangles: the tree only grows.
    pub open spec fn extends(self, before: PackingNode) -> bool
        decreases before,
    {
        &&& self.rect == before.rect
        &&& before.filled ==> self.filled
        &&& match before.children {
            Some((left, right)) => match self.children {
                Some((new_left, new_right)) => new_left.extends(*left) && new_right.extends(*right),
                None => false,
            },
            None => true,
        }
    }

    /// A node that has never been split nor filled.
    pub open spec fn is_fresh(self) -> bool {
        self.children is None && !self.filled
    }

    pub open spec fn node_count(self) -> nat
        decreases self,
    {
        match self.children {
            Some((left, right)) => 1 + left.node_count() + right.node_count(),
            None => 1,
        }
    }

    /// Coordinates stay within `u32`, and every inner node is split exactly
    /// in two by its children.
    pub open spec fn wf(self) -> bool
        decreases self,
    {
        &&& self.rect.right() <= u32::MAX
        &&& self.rect.bottom() <= u32::MAX
        &&& match self.children {
            Some((left, right)) => {
                &&& !self.filled
                &&& is_split(self.rect, left.rect, right.rect)
                &&& left.wf()
                &&& right.wf()
            },
            None => true,
        }
    }

    /// An empty packer over a `width` × `height` canvas.
    pub fn new(width: u32, height: u32) -> (r: PackingNode)
        ensures
            r.wf(),
            r.is_fresh(),
            r.bounds() == (Rect { x: 0, y: 0, size: RectSize { height, width } }),
            r.placed() == Set::<Rect>::empty(),
            r == (PackingNode {
                children: None,
                rect: Rect { x: 0, y: 0, size: RectSize { height, width } },
                filled: false,
            }),
    {
        PackingNode { children: None, rect: Rect::new(0, 0, width, height), filled: false }
    }

    fn new_from_rect(rect: Rect) -> (r: PackingNode)
        requires
            rect.right() <= u32::MAX,
            rect.bottom() <= u32::MAX,
        ensures
            r.wf(),
            r.is_fresh(),
            r.bounds() == rect,
            r.placed() == Set::<Rect>::empty(),
    {
        PackingNode { children: None, rect, filled: false }
    }
    /// Places a rectangle of size `rect`, first fit, depth first. Returns its
    /// upper-left corner, or `None` when the size does not fit the canvas,
    /// is the empty size, or finds no free leaf.
    pub fn insert_rect(&mut self, rect: RectSize) -> (r: Option<(u32, u32)>)
        requires
            old(self).wf(),
        ensures
            final(self).wf(),
            final(self).bounds() == old(self).bounds(),
            inserts(*old(self), *final(self), rect, r),
            final(self).extends(*old(self)),
            r is None ==> *final(self) == *old(self),
            !(rect.width <= old(self).bounds().size.width && rect.height <= old(self).bounds().size.height)
                ==> r is None,
            rect.width == 0 && rect.height == 0 ==> r is None,
            r is Some <==> old(self).accepts(rect),
            r is Some ==> r == Some(old(self).first_fit(rect)),
            old(self).is_fresh() && rect.width <= old(self).bounds().size.width && rect.height
                <= old(self).bounds().size.height && !(rect.width == 0 && rect.height == 0) ==> r
                == Some((old(self).bounds().x, old(self).bounds().y)),
            match r {
                Some((x, y)) => {
                    let q = Rect { x, y, size: rect };
                    &&& q.within(old(self).bounds())
                    &&& forall|p: Rect| #[trigger] old(self).placed().contains(p) ==> !q.overlaps(p)
                    &&& final(self).placed() == old(self).placed().insert(q)
                },
                None => final(self).placed() == old(self).placed(),
            },
        decreases old(self).node_count(),
            (old(self).bounds().size.width - rect.width) + (old(self).bounds().size.height - rect.height),
    {
        if !rect.fits_in(self.rect.size) {
            // A rectangle too large for this node cannot fit anywhere under it.
            proof {
                lemma_extends_itself(*self);
            }
            return None;
        }
        if rect.width == 0 && rect.height == 0 {
            proof {
                lemma_extends_itself(*self);
            }
            return None;
        }
        if self.children.is_some() {
            // An inner node is occupied: try the children, left first.
            let children = self.children.take();
            let (left_box, right_box) = children.unwrap();
            let mut left = *left_box;
            let mut right = *right_box;
            proof {
                lemma_placed_within(left);
                lemma_placed_within(right);
            }
            let ghost left0 = left;
            let ghost right0 = right;
            let result = left.insert_rect(rect);
            let result = if result.is_some() {
                result
            } else {
                right.insert_rect(rect)
            };
            proof {
                lemma_placed_within(right);
                if let Some((x, y)) = result {
                    let q = Rect { x, y, size: rect };
                    assert forall|p: Rect| #[trigger] old(self).placed().contains(p) implies !q.overlaps(p) by {
                        if left0.placed().contains(p) {
                        } else {
                            assert(right0.placed().contains(p));
                        }
                    }
                    assert(left.placed().union(right.placed()) =~= old(self).placed().insert(q));
                } else {
                    assert(left.placed().union(right.placed()) =~= old(self).placed());
                }
            }
            self.children = Some((Box::new(left), Box::new(right)));
            proof {
                lemma_inserts_extends(*old(self), *self, rect, result);
            }
            return result;
        }
        if self.filled {
            // A filled leaf holds an exact fit.
            return None;
        }
        if rect == self.rect.size {
            // An exact fit fills the leaf without splitting it.
            self.filled = true;
            proof {
                assert(self.placed() =~= old(self).placed().insert(self.rect));
            }
            return Some((self.rect.x, self.rect.y));
        }
        // Split along the axis with more slack; the left part is sized to
        // the request along that axis.
        let width_diff = self.rect.size.width - rect.width;
        let height_diff = self.rect.size.height - rect.height;
        let (left_rect, right_rect) = if width_diff > height_diff {
            let left_rect = Rect::new(self.rect.x, self.rect.y, rect.width, self.rect.size.height);
            let right_rect = Rect::new(
                self.rect.x + rect.width,
                self.rect.y,
                self.rect.size.width - rect.width,
                self.rect.size.height,
            );
            (left_rect, right_rect)
        } else {
            let left_rect = Rect::new(self.rect.x, self.rect.y, self.rect.size.width, rect.height);
            let right_rect = Rect::new(
                self.rect.x,
                self.rect.y + rect.height,
                self.rect.size.width,
                self.rect.size.height - rect.height,
            );
            (left_rect, right_rect)
        };
        let mut left_node = PackingNode::new_from_rect(left_rect);
        let result = left_node.insert_rect(rect);
        let right_node = PackingNode::new_from_rect(right_rect);
        self.children = Some((Box::new(left_node), Box::new(right_node)));
        proof {
            assert(self.placed() =~= old(self).placed().insert(Rect { x: self.rect.x, y: self.rect.y, size: rect }));
        }
        result
    }
}

/// Where a node accepts a request, the rectangle it would use lies inside
/// the node and shares no pixel with anything placed there.
proof fn lemma_accepts_has_room(node: PackingNode, size: RectSize)
    requires
        node.wf(),
        node.accepts(size),
    ensures
        ({
            let q = Rect { x: node.first_fit(size).0, y: node.first_fit(size).1, size };
            &&& q.within(node.bounds())
            &&& forall|p: Rect| #[trigger] node.placed().contains(p) ==> !q.overlaps(p)
        }),
    decreases node,
{
    if let Some((left, right)) = node.children {
        lemma_placed_within(*left);
        lemma_placed_within(*right);
        assert(node.placed() == left.placed().union(right.placed()));
        if left.accepts(size) {
            lemma_accepts_has_room(*left, size);
        } else {
            lemma_accepts_has_room(*right, size);
        }
    }
}

/// A request the size of the whole canvas succeeds on a fresh packer, and
/// fails on any packer that already holds a rectangle covering the canvas.
pub proof fn lemma_canvas_sized_request_once(node: PackingNode)
    requires
        node.wf(),
        node.bounds().size.width > 0,
        node.bounds().size.height > 0,
    ensures
        node.is_fresh() ==> node.accepts(node.bounds().size),
        node.placed().contains(node.bounds()) ==> !node.accepts(node.bounds().size),
{
    if node.placed().contains(node.bounds()) && node.accepts(node.bounds().size) {
        lemma_accepts_has_room(node, node.bounds().size);
        let q = Rect {
            x: node.first_fit(node.bounds().size).0,
            y: node.first_fit(node.bounds().size).1,
            size: node.bounds().size,
        };
        assert(q.overlaps(node.bounds()));
    }
}

proof fn lemma_extends_itself(node: PackingNode)
    ensures
        node.extends(node),
    decreases node,
{
    if let Some((left, right)) = node.children {
        lemma_extends_itself(*left);
        lemma_extends_itself(*right);
    }
}

/// An insertion only grows the tree: every split and every filled leaf stays,
/// over the same rectangle.
pub proof fn lemma_inserts_extends(
    before: PackingNode,
    after: PackingNode,
    size: RectSize,
    r: Option<(u32, u32)>,
)
    requires
        inserts(before, after, size, r),
    ensures
        after.extends(before),
    decreases before,
{
    lemma_extends_itself(before);
    if let Some((left, right)) = before.children {
        if size.width <= before.rect.size.width && size.height <= before.rect.size.height && !(
        size.width == 0 && size.height == 0) {
            if let Some((new_left, new_right)) = after.children {
                if left.accepts(size) {
                    lemma_inserts_extends(*left, *new_left, size, r);
                } else {
                    lemma_inserts_extends(*right, *new_right, size, r);
                }
            }
        }
    }
}

proof fn lemma_placed_within(node: PackingNode)
    requires
        node.wf(),
    ensures
        forall|q: Rect| #[trigger] node.placed().contains(q) ==> q.within(node.bounds()),
    decreases node,
{
    if let Some((left, right)) = node.children {
        lemma_placed_within(*left);
        lemma_placed_within(*right);
        assert(node.placed() == left.placed().union(right.placed()));
        assert forall|q: Rect| #[trigger] node.placed().contains(q) implies q.within(
            node.bounds(),
        ) by {
            if left.placed().contains(q) {
                assert(q.within(left.bounds()));
            } else {
                assert(q.within(right.bounds()));
            }
        }
    }
}

/// Every rectangle placed in a well-formed packer lies inside its canvas, and
/// no two distinct placed rectangles share a pixel.
pub proof fn lemma_placements_disjoint(node: PackingNode)
    requires
        node.wf(),
    ensures
        forall|q: Rect| #[trigger] node.placed().contains(q) ==> q.within(node.bounds()),
        forall|a: Rect, b: Rect|
            #[trigger] node.placed().contains(a) && #[trigger] node.placed().contains(b) && a != b
                ==> !a.overlaps(b),
    decreases node,
{
    lemma_placed_within(node);
    if let Some((left, right)) = node.children {
        lemma_placements_disjoint(*left);
        lemma_placements_disjoint(*right);
        assert(node.placed() == left.placed().union(right.placed()));
        assert forall|a: Rect, b: Rect|
            #[trigger] node.placed().contains(a) && #[trigger] node.placed().contains(b) && a
                != b implies !a.overlaps(b) by {
            if left.placed().contains(a) && right.placed().contains(b) {
                assert(a.within(left.bounds()) && b.within(right.bounds()));
            } else if right.placed().contains(a) && left.placed().contains(b) {
                assert(b.within(left.bounds()) && a.within(right.bounds()));
            }
        }
    } else if node.filled {
        assert(node.placed() == set![node.rect]);
    }
}

} // verus!
