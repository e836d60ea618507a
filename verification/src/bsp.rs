//! The partition node data model, its well-formedness invariant, and the
//! split, traversal, and query operations of the BSP tree.

use vstd::prelude::*;

use crate::rng::RandomSource;

verus! {

/// Errors reported by tree operations.
///
/// `InvalidDimensions` covers construction or splitting with a non-positive
/// extent, and a split position outside the open interior of the node's span.
/// `InvalidOperation` covers a resize that would desynchronize an already
/// split tree.
#[derive(Clone, Copy, Debug, PartialEq, Eq, Structural)]
pub enum BspError {
    InvalidDimensions,
    InvalidOperation,
}

/// One node of the BSP tree: a rectangle, the split that divided it (if any),
/// its depth, and arena indices linking it to its children and parent.
///
/// `position` and `horizontal` are meaningful only on a split node; on a
/// leaf they keep their construction defaults (`0` and `false`).
#[derive(Clone, Copy, Debug)]
pub struct Partition {
    /// Left edge of the rectangle this node covers.
    pub x: i32,
    /// Top edge of the rectangle this node covers.
    pub y: i32,
    /// Width of the rectangle; positive on every live node.
    pub w: i32,
    /// Height of the rectangle; positive on every live node.
    pub h: i32,
    /// Absolute coordinate of the split line, along the split axis.
    pub position: i32,
    /// True if the split line is horizontal (children stacked vertically).
    pub horizontal: bool,
    /// Depth from the root; the root is at level 0.
    pub level: usize,
    /// Arena index of the left (or top) child, if this node is split.
    pub left: Option<usize>,
    /// Arena index of the right (or bottom) child, if this node is split.
    pub right: Option<usize>,
    /// Arena index of the parent; `None` on the root.
    pub parent: Option<usize>,
}

/// Half-open rectangle membership: `n.x <= cx < n.x + n.w` and
/// `n.y <= cy < n.y + n.h`.
pub open spec fn rect_contains(n: Partition, cx: int, cy: int) -> bool {
    &&& n.x <= cx < n.x + n.w
    &&& n.y <= cy < n.y + n.h
}

/// The rectangle of `a` lies within the rectangle of `b`.
pub open spec fn rect_within(a: Partition, b: Partition) -> bool {
    &&& b.x <= a.x
    &&& a.x + a.w <= b.x + b.w
    &&& b.y <= a.y
    &&& a.y + a.h <= b.y + b.h
}

/// The split relation between node `i` and its two children: the children
/// link back to `i`, sit one level deeper, and their rectangles are exactly
/// the two parts of `i`'s rectangle on either side of `position` along the
/// axis given by `horizontal`.
pub open spec fn children_ok(s: Seq<Partition>, i: int) -> bool {
    let p = s[i];
    let l = p.left->0 as int;
    let r = p.right->0 as int;
    &&& 0 <= l < s.len()
    &&& 0 <= r < s.len()
    &&& s[l].parent == Some(i as usize)
    &&& s[r].parent == Some(i as usize)
    &&& s[l].level == p.level + 1
    &&& s[r].level == p.level + 1
    &&& if p.horizontal {
        &&& p.y < p.position < p.y + p.h
        &&& s[l].x == p.x && s[l].y == p.y && s[l].w == p.w && s[l].h == p.position - p.y
        &&& s[r].x == p.x && s[r].y == p.position && s[r].w == p.w && s[r].h == p.y + p.h
            - p.position
    } else {
        &&& p.x < p.position < p.x + p.w
        &&& s[l].x == p.x && s[l].y == p.y && s[l].w == p.position - p.x && s[l].h == p.h
        &&& s[r].x == p.position && s[r].y == p.y && s[r].w == p.x + p.w - p.position && s[r].h
            == p.h
    }
}

/// Per-node well-formedness: a positive rectangle whose far edges fit in
/// `i32`, a depth bounded by the arena size, and either no children or a
/// pair of children satisfying the split relation.
pub open spec fn node_inv(s: Seq<Partition>, i: int) -> bool {
    let n = s[i];
    &&& n.w > 0
    &&& n.h > 0
    &&& n.x + n.w <= i32::MAX
    &&& n.y + n.h <= i32::MAX
    &&& n.level < s.len()
    &&& (n.left is Some <==> n.right is Some)
    &&& (n.left is Some ==> children_ok(s, i))
}

/// Well-formedness of the whole arena: the root lives at index 0, has no
/// parent, sits at level 0, and every node satisfies `node_inv`.
pub open spec fn tree_inv(s: Seq<Partition>) -> bool {
    &&& s.len() >= 1
    &&& s[0].level == 0
    &&& s[0].parent is None
    &&& forall|i: int| 0 <= i < s.len() ==> node_inv(s, i)
}

/// The left (or top) child produced by splitting `p` at `position` along the
/// axis given by `horizontal`, as a fresh leaf linked back to index `parent`.
pub open spec fn spec_left_child(p: Partition, horizontal: bool, position: i32, parent: usize) -> Partition {
    Partition {
        x: p.x,
        y: p.y,
        w: if horizontal {
            p.w
        } else {
            (position - p.x) as i32
        },
        h: if horizontal {
            (position - p.y) as i32
        } else {
            p.h
        },
        position: 0,
        horizontal: false,
        level: (p.level + 1) as usize,
        left: None,
        right: None,
        parent: Some(parent),
    }
}

/// The right (or bottom) child produced by splitting `p` at `position` along
/// the axis given by `horizontal`, as a fresh leaf linked back to `parent`.
pub open spec fn spec_right_child(p: Partition, horizontal: bool, position: i32, parent: usize) -> Partition {
    Partition {
        x: if horizontal {
            p.x
        } else {
            position
        },
        y: if horizontal {
            position
        } else {
            p.y
        },
        w: if horizontal {
            p.w
        } else {
            (p.x + p.w - position) as i32
        },
        h: if horizontal {
            (p.y + p.h - position) as i32
        } else {
            p.h
        },
        position: 0,
        horizontal: false,
        level: (p.level + 1) as usize,
        left: None,
        right: None,
        parent: Some(parent),
    }
}

/// The split position is strictly inside the node's span along the chosen
/// axis, so both children get a positive extent.
pub open spec fn valid_split(p: Partition, horizontal: bool, position: i32) -> bool {
    if horizontal {
        p.y < position < p.y + p.h
    } else {
        p.x < position < p.x + p.w
    }
}

/// An exact positive rational, used for the maximum width/height ratios that
/// steer recursive splitting. A node wider than `num/den` times its height
/// is forced to split vertically, and vice versa.
#[derive(Clone, Copy, Debug)]
pub struct Ratio {
    /// Numerator of the ratio.
    pub num: u32,
    /// Denominator of the ratio; must be positive.
    pub den: u32,
}

/// The fields a split leaves untouched on the node it splits: rectangle,
/// level, and parent of `b` agree with `a`.
pub open spec fn same_node_shape(a: Partition, b: Partition) -> bool {
    &&& b.x == a.x
    &&& b.y == a.y
    &&& b.w == a.w
    &&& b.h == a.h
    &&& b.level == a.level
    &&& b.parent == a.parent
}

/// Minimum-size guarantee for node `j`, created by a recursive split whose
/// target was node `target` and which created exactly the nodes from index
/// `lo` up: `j`'s parent is the target or another created node, and along
/// the axis the parent split, `j`'s extent is at least the corresponding
/// minimum size.
pub open spec fn created_min_ok(
    s: Seq<Partition>,
    j: int,
    target: int,
    lo: int,
    min_h_size: i32,
    min_v_size: i32,
) -> bool {
    let pj = s[j].parent;
    &&& pj is Some
    &&& 0 <= pj->0 < s.len()
    &&& (pj->0 == target || lo <= pj->0)
    &&& (s[pj->0 as int].horizontal ==> s[j].h >= min_h_size)
    &&& (!s[pj->0 as int].horizontal ==> s[j].w >= min_v_size)
}

/// The product of a non-negative `i32`-sized value and a `u32`-sized value
/// fits in an `i64`.
proof fn lemma_prod_fits(a: int, b: int)
    by (nonlinear_arith)
    requires
        0 <= a <= 0x7fff_ffff,
        0 <= b <= 0xffff_ffff,
    ensures
        0 <= a * b <= 0x7fff_ffff_ffff_ffff,
{
}

/// The leaf that the descent from node `i` reaches for the point
/// `(cx, cy)`: `None` when the point lies outside node `i`'s rectangle,
/// otherwise the result of stepping into whichever child contains the point
/// until a leaf is reached.
pub open spec fn find_from(s: Seq<Partition>, i: int, cx: int, cy: int) -> Option<usize>
    decreases s.len() - s[i].level,
    when tree_inv(s) && 0 <= i < s.len()
{
    if !rect_contains(s[i], cx, cy) {
        None
    } else if s[i].left is Some {
        proof {
            assert(node_inv(s, i));
            assert(children_ok(s, i));
        }
        let l = s[i].left->0 as int;
        let r = s[i].right->0 as int;
        if rect_contains(s[l], cx, cy) {
            find_from(s, l, cx, cy)
        } else {
            find_from(s, r, cx, cy)
        }
    } else {
        Some(i as usize)
    }
}

/// Node `i` lies in the subtree rooted at node `a`: it is `a` itself or is
/// reached from `a` by following child links downward. Detached nodes (left
/// behind by `remove_sons` or a re-split) are reachable from no node of the
/// tree.
pub open spec fn reachable_from(s: Seq<Partition>, a: int, i: int) -> bool
    decreases s.len() - s[a].level,
    when tree_inv(s) && 0 <= a < s.len()
{
    a == i || (s[a].left is Some && {
        proof {
            assert(node_inv(s, a));
            assert(children_ok(s, a));
        }
        let l = s[a].left->0 as int;
        let r = s[a].right->0 as int;
        reachable_from(s, l, i) || reachable_from(s, r, i)
    })
}

/// A BSP tree: an arena of partition nodes rooted at index 0. The arena owns
/// every node; all links between nodes are indices into it.
pub struct BSP {
    nodes: Vec<Partition>,
}

impl View for BSP {
    type V = Seq<Partition>;

    closed spec fn view(&self) -> Seq<Partition> {
        self.nodes@
    }
}

impl BSP {
    /// The tree's well-formedness invariant, established by construction and
    /// preserved by every operation.
    pub open spec fn wf(&self) -> bool {
        tree_inv(self@)
    }

    /// Creates a tree whose root covers the rectangle at `(x, y)` with the
    /// given width and height. Rejects non-positive dimensions.
    pub fn new_with_size(x: i32, y: i32, w: i32, h: i32) -> (res: Result<BSP, BspError>)
        requires
            w > 0 ==> x + w <= i32::MAX,
            h > 0 ==> y + h <= i32::MAX,
        ensures
            res is Ok <==> (w > 0 && h > 0),
            res is Err ==> res->Err_0 == BspError::InvalidDimensions,
            res is Ok ==> ({
                let t = res->Ok_0;
                &&& t.wf()
                &&& t@.len() == 1
                &&& t@[0] == (Partition {
                    x,
                    y,
                    w,
                    h,
                    position: 0,
                    horizontal: false,
                    level: 0,
                    left: None,
                    right: None,
                    parent: None,
                })
            }),
    {
        if w <= 0 || h <= 0 {
            return Err(BspError::InvalidDimensions);
        }
        let root = Partition {
            x,
            y,
            w,
            h,
            position: 0,
            horizontal: false,
            level: 0,
            left: None,
            right: None,
            parent: None,
        };
        let mut nodes: Vec<Partition> = Vec::new();
        nodes.push(root);
        Ok(BSP { nodes })
    }

    /// Splits node `id` at the absolute coordinate `position` along the axis
    /// given by `horizontal`, replacing it in place by an internal node with
    /// two fresh leaf children one level deeper. A node already split loses
    /// its previous children first (they are detached from the tree). A
    /// position outside the open interior of the node's span is rejected and
    /// the tree is left unchanged.
    pub fn split_once(&mut self, id: usize, horizontal: bool, position: i32) -> (res: Result<
        (),
        BspError,
    >)
        requires
            old(self).wf(),
            id < old(self)@.len(),
        ensures
            final(self).wf(),
            res is Ok <==> valid_split(old(self)@[id as int], horizontal, position),
            res is Err ==> res->Err_0 == BspError::InvalidDimensions && final(self)@ == old(
                self,
            )@,
            res is Ok ==> ({
                let p = old(self)@[id as int];
                let li = old(self)@.len() as usize;
                let ri = (old(self)@.len() + 1) as usize;
                &&& final(self)@.len() == old(self)@.len() + 2
                &&& (forall|j: int|
                    0 <= j < old(self)@.len() && j != id ==> final(self)@[j] == old(self)@[j])
                &&& final(self)@[id as int] == (Partition {
                    position,
                    horizontal,
                    left: Some(li),
                    right: Some(ri),
                    ..p
                })
                &&& final(self)@[li as int] == spec_left_child(p, horizontal, position, id)
                &&& final(self)@[ri as int] == spec_right_child(p, horizontal, position, id)
            }),
    {
        let p = self.nodes[id];
        proof {
            assert(node_inv(self@, id as int));
        }
        let ok = if horizontal {
            p.y < position && position < p.y + p.h
        } else {
            p.x < position && position < p.x + p.w
        };
        if !ok {
            return Err(BspError::InvalidDimensions);
        }
        let li = self.nodes.len();
        let child_level = p.level + 1;
        let (lw, lh) = if horizontal {
            (p.w, position - p.y)
        } else {
            (position - p.x, p.h)
        };
        let (rx, ry, rw, rh) = if horizontal {
            (p.x, position, p.w, p.y + p.h - position)
        } else {
            (position, p.y, p.x + p.w - position, p.h)
        };
        self.nodes.push(
            Partition {
                x: p.x,
                y: p.y,
                w: lw,
                h: lh,
                position: 0,
                horizontal: false,
                level: child_level,
                left: None,
                right: None,
                parent: Some(id),
            },
        );
        let ri = self.nodes.len();
        self.nodes.push(
            Partition {
                x: rx,
                y: ry,
                w: rw,
                h: rh,
                position: 0,
                horizontal: false,
                level: child_level,
                left: None,
                right: None,
                parent: Some(id),
            },
        );
        self.nodes[id] = Partition { position, horizontal, left: Some(li), right: Some(ri), ..p };
        proof {
            let pre = old(self)@;
            let post = self@;
            assert forall|j: int| 0 <= j < post.len() implies node_inv(post, j) by {
                if j < pre.len() {
                    assert(node_inv(pre, j));
                    if j != id && pre[j].left is Some {
                        assert(children_ok(pre, j));
                        assert(children_ok(post, j));
                    }
                }
            }
        }
        Ok(())
    }

    /// Returns the node at index `id`, for reading its fields.
    pub fn node(&self, id: usize) -> (res: &Partition)
        requires
            id < self@.len(),
        ensures
            *res == self@[id as int],
    {
        &self.nodes[id]
    }

    /// Returns the arena index of the left (or top) child of node `id`, or
    /// `None` if `id` is a leaf.
    pub fn left(&self, id: usize) -> (res: Option<usize>)
        requires
            id < self@.len(),
        ensures
            res == self@[id as int].left,
    {
        self.nodes[id].left
    }

    /// Returns the arena index of the right (or bottom) child of node `id`,
    /// or `None` if `id` is a leaf.
    pub fn right(&self, id: usize) -> (res: Option<usize>)
        requires
            id < self@.len(),
        ensures
            res == self@[id as int].right,
    {
        self.nodes[id].right
    }

    /// Returns the arena index of the parent of node `id`, or `None` on the
    /// root.
    pub fn father(&self, id: usize) -> (res: Option<usize>)
        requires
            id < self@.len(),
        ensures
            res == self@[id as int].parent,
    {
        self.nodes[id].parent
    }

    /// True iff node `id` has no children.
    pub fn is_leaf(&self, id: usize) -> (res: bool)
        requires
            id < self@.len(),
        ensures
            res == (self@[id as int].left is None && self@[id as int].right is None),
    {
        self.nodes[id].left.is_none() && self.nodes[id].right.is_none()
    }

    /// Returns the split-axis flag of node `id`.
    pub fn horizontal(&self, id: usize) -> (res: bool)
        requires
            id < self@.len(),
        ensures
            res == self@[id as int].horizontal,
    {
        self.nodes[id].horizontal
    }

    /// Sets the split-axis flag of node `id`. The flag ties a split node's
    /// children to an axis, so only a leaf (where the flag is meaningless)
    /// may have it rewritten.
    pub fn set_horizontal(&mut self, id: usize, horizontal: bool)
        requires
            old(self).wf(),
            id < old(self)@.len(),
            old(self)@[id as int].left is None,
        ensures
            final(self).wf(),
            final(self)@ == old(self)@.update(
                id as int,
                (Partition { horizontal, ..old(self)@[id as int] }),
            ),
    {
        let p = self.nodes[id];
        self.nodes[id] = Partition { horizontal, ..p };
        proof {
            let pre = old(self)@;
            let post = self@;
            assert forall|j: int| 0 <= j < post.len() implies node_inv(post, j) by {
                assert(node_inv(pre, j));
                if j != id && pre[j].left is Some {
                    assert(children_ok(pre, j));
                    assert(children_ok(post, j));
                }
            }
        }
    }

    /// Half-open rectangle test: true iff `(cx, cy)` lies inside the
    /// rectangle of node `id`.
    pub fn contains(&self, id: usize, cx: i32, cy: i32) -> (res: bool)
        requires
            self.wf(),
            id < self@.len(),
        ensures
            res == rect_contains(self@[id as int], cx as int, cy as int),
    {
        proof {
            assert(node_inv(self@, id as int));
        }
        let n = &self.nodes[id];
        cx >= n.x && cx < n.x + n.w && cy >= n.y && cy < n.y + n.h
    }

    /// Descends from node `id` to the leaf whose rectangle contains the
    /// point `(cx, cy)`. Returns `None` exactly when the point lies outside
    /// the rectangle of `id` itself; otherwise the returned leaf contains
    /// the point, lies within `id`'s rectangle, and is at least as deep.
    pub fn find_node(&self, id: usize, cx: i32, cy: i32) -> (res: Option<usize>)
        requires
            self.wf(),
            id < self@.len(),
        ensures
            res == find_from(self@, id as int, cx as int, cy as int),
            res is Some <==> rect_contains(self@[id as int], cx as int, cy as int),
            res is Some ==> ({
                let j = res->0 as int;
                &&& 0 <= j < self@.len()
                &&& self@[j].left is None && self@[j].right is None
                &&& rect_contains(self@[j], cx as int, cy as int)
                &&& rect_within(self@[j], self@[id as int])
                &&& self@[j].level >= self@[id as int].level
            }),
        decreases self@.len() - self@[id as int].level,
    {
        proof {
            assert(node_inv(self@, id as int));
        }
        if !self.contains(id, cx, cy) {
            return None;
        }
        let n = self.nodes[id];
        match (n.left, n.right) {
            (Some(l), Some(r)) => {
                proof {
                    assert(children_ok(self@, id as int));
                    assert(node_inv(self@, l as int));
                    assert(node_inv(self@, r as int));
                }
                if self.contains(l, cx, cy) {
                    self.find_node(l, cx, cy)
                } else {
                    self.find_node(r, cx, cy)
                }
            },
            _ => Some(id),
        }
    }

    /// Rewrites the root's rectangle to the given bounds. Children's
    /// rectangles are derived from their parent's at split time, so a bounds
    /// change cannot cascade soundly: resizing is accepted only while the
    /// root is a leaf, and rejected with `InvalidOperation`
    /// once the root has children. Non-positive dimensions are rejected with
    /// `InvalidDimensions`.
    pub fn resize(&mut self, x: i32, y: i32, w: i32, h: i32) -> (res: Result<(), BspError>)
        requires
            old(self).wf(),
            w > 0 ==> x + w <= i32::MAX,
            h > 0 ==> y + h <= i32::MAX,
        ensures
            final(self).wf(),
            res is Ok <==> (w > 0 && h > 0 && old(self)@[0].left is None),
            res is Ok ==> final(self)@ == old(self)@.update(
                0,
                (Partition { x, y, w, h, ..old(self)@[0] }),
            ),
            res is Err ==> final(self)@ == old(self)@,
            res is Err ==> (res->Err_0 == BspError::InvalidDimensions <==> !(w > 0 && h > 0)),
            res is Err ==> (res->Err_0 == BspError::InvalidOperation <==> (w > 0 && h > 0
                && old(self)@[0].left is Some)),
    {
        if w <= 0 || h <= 0 {
            return Err(BspError::InvalidDimensions);
        }
        let p = self.nodes[0];
        if p.left.is_some() {
            return Err(BspError::InvalidOperation);
        }
        self.nodes[0] = Partition { x, y, w, h, ..p };
        proof {
            let pre = old(self)@;
            let post = self@;
            assert forall|j: int| 0 <= j < post.len() implies node_inv(post, j) by {
                assert(node_inv(pre, j));
                if j != 0 && pre[j].left is Some {
                    assert(children_ok(pre, j));
                    let l = pre[j].left->0 as int;
                    let r = pre[j].right->0 as int;
                    assert(pre[l].parent == Some(j as usize));
                    assert(pre[r].parent == Some(j as usize));
                    assert(children_ok(post, j));
                }
            }
        }
        Ok(())
    }

    /// Recursively and randomly subdivides node `id` through `nb` levels of
    /// splitting, or until no axis can keep both children at the minimum
    /// sizes, whichever comes first.
    ///
    /// Per node: a node wider than `max_h_ratio` times its height must split
    /// vertically, one taller than `max_v_ratio` times its width must split
    /// horizontally; otherwise the axis is drawn uniformly (a draw of 1 from
    /// `[0, 1]` means horizontal). An axis admits a split only when twice
    /// its minimum size (`min_h_size` for horizontal, `min_v_size` for
    /// vertical, each taken as at least 1) fits in the node's extent; if the
    /// chosen axis does not and the other does, the other is used, and if
    /// neither does the node stays a leaf. The split position is drawn
    /// uniformly from the positions leaving both children the minimum size.
    /// Draw order is fixed so that seeded generators reproduce the same
    /// tree: the axis draw (when no axis is forced), then the position, then
    /// all draws of the left subtree, then those of the right.
    ///
    /// Every node this call creates keeps, along the axis its parent split,
    /// an extent of at least the corresponding minimum size, and sits at
    /// most `nb` levels below the target. The target is certainly split
    /// whenever some axis admits the minimum sizes, and a node over a
    /// maximum ratio is split along the forced axis whenever that axis
    /// admits them.
    pub fn split_recursive<R: RandomSource>(
        &mut self,
        id: usize,
        rng: &mut R,
        nb: i32,
        min_h_size: i32,
        min_v_size: i32,
        max_h_ratio: Ratio,
        max_v_ratio: Ratio,
    )
        requires
            old(self).wf(),
            id < old(self)@.len(),
            max_h_ratio.den >= 1,
            max_v_ratio.den >= 1,
        ensures
            final(self).wf(),
            old(self)@.len() <= final(self)@.len(),
            forall|j: int|
                0 <= j < old(self)@.len() && j != id ==> final(self)@[j] == old(self)@[j],
            same_node_shape(old(self)@[id as int], final(self)@[id as int]),
            forall|j: int|
                old(self)@.len() <= j < final(self)@.len() ==> created_min_ok(
                    final(self)@,
                    j,
                    id as int,
                    old(self)@.len() as int,
                    min_h_size,
                    min_v_size,
                ),
            nb <= 0 ==> final(self)@ == old(self)@,
            forall|j: int|
                old(self)@.len() <= j < final(self)@.len() ==> #[trigger] final(self)@[j].level
                    <= old(self)@[id as int].level + nb,
            nb > 0 ==> ({
                let p = old(self)@[id as int];
                let q = final(self)@[id as int];
                let mh: int = if min_h_size < 1 {
                    1
                } else {
                    min_h_size as int
                };
                let mv: int = if min_v_size < 1 {
                    1
                } else {
                    min_v_size as int
                };
                &&& ((2 * mh <= p.h || 2 * mv <= p.w) ==> q.left is Some)
                &&& (p.w > p.h && p.w * max_h_ratio.den > p.h * max_h_ratio.num && 2 * mv <= p.w
                    ==> q.left is Some && !q.horizontal)
                &&& (p.h > p.w && p.h * max_v_ratio.den > p.w * max_v_ratio.num && 2 * mh <= p.h
                    ==> q.left is Some && q.horizontal)
            }),
        decreases nb,
    {
        if nb <= 0 {
            return ;
        }
        let p = self.nodes[id];
        proof {
            assert(node_inv(self@, id as int));
        }
        let w = p.w;
        let h = p.h;
        proof {
            lemma_prod_fits(w as int, max_h_ratio.den as int);
            lemma_prod_fits(h as int, max_h_ratio.num as int);
            lemma_prod_fits(h as int, max_v_ratio.den as int);
            lemma_prod_fits(w as int, max_v_ratio.num as int);
        }
        let mut horiz: bool;
        if w > h && (w as i64) * (max_h_ratio.den as i64) > (h as i64) * (max_h_ratio.num
            as i64) {
            horiz = false;
        } else if h > w && (h as i64) * (max_v_ratio.den as i64) > (w as i64) * (max_v_ratio.num
            as i64) {
            horiz = true;
        } else {
            horiz = rng.rand_between(0, 1) == 1;
        }
        let mh: i32 = if min_h_size < 1 {
            1
        } else {
            min_h_size
        };
        let mv: i32 = if min_v_size < 1 {
            1
        } else {
            min_v_size
        };
        let can_h = 2 * (mh as i64) <= (h as i64);
        let can_v = 2 * (mv as i64) <= (w as i64);
        if horiz && !can_h {
            if can_v {
                horiz = false;
            } else {
                return ;
            }
        } else if !horiz && !can_v {
            if can_h {
                horiz = true;
            } else {
                return ;
            }
        }
        let (lo, hi) = if horiz {
            (p.y + mh, p.y + p.h - mh)
        } else {
            (p.x + mv, p.x + p.w - mv)
        };
        let position = rng.rand_between(lo, hi);
        let li = self.nodes.len();
        let ghost s0 = self@;
        let res = self.split_once(id, horiz, position);
        proof {
            assert(res is Ok);
        }
        let ri = self.nodes.len() - 1;
        let ghost s1 = self@;
        self.split_recursive(li, rng, nb - 1, min_h_size, min_v_size, max_h_ratio, max_v_ratio);
        let ghost s2 = self@;
        self.split_recursive(ri, rng, nb - 1, min_h_size, min_v_size, max_h_ratio, max_v_ratio);
        proof {
            let s3 = self@;
            assert(s2[id as int] == s1[id as int]);
            assert(s3[id as int] == s1[id as int]);
            assert forall|j: int|
                s0.len() <= j < s3.len() implies s3[j].level <= s0[id as int].level + nb by {
                if j == li {
                    assert(same_node_shape(s1[li as int], s2[li as int]));
                    assert(s3[li as int] == s2[li as int]);
                } else if j == ri {
                    assert(same_node_shape(s2[ri as int], s3[ri as int]));
                    assert(s2[ri as int] == s1[ri as int]);
                } else if j < s2.len() {
                    assert(s2[j].level <= s1[li as int].level + (nb - 1));
                    assert(s3[j] == s2[j]);
                } else {
                    assert(s3[j].level <= s2[ri as int].level + (nb - 1));
                    assert(s2[ri as int] == s1[ri as int]);
                }
            }
            assert forall|j: int|
                s0.len() <= j < s3.len() implies created_min_ok(
                s3,
                j,
                id as int,
                s0.len() as int,
                min_h_size,
                min_v_size,
            ) by {
                if j == li {
                    assert(same_node_shape(s1[li as int], s2[li as int]));
                    assert(s3[li as int] == s2[li as int]);
                    assert(s3[id as int] == s1[id as int]);
                } else if j == ri {
                    assert(same_node_shape(s2[ri as int], s3[ri as int]));
                    assert(s2[ri as int] == s1[ri as int]);
                    assert(s3[id as int] == s1[id as int]);
                } else if j < s2.len() {
                    assert(created_min_ok(s2, j, li as int, s1.len() as int, min_h_size,
                        min_v_size));
                    assert(s3[j] == s2[j]);
                    let pj = s2[j].parent->0;
                    assert(s3[pj as int] == s2[pj as int]);
                } else {
                    assert(created_min_ok(s3, j, ri as int, s2.len() as int, min_h_size,
                        min_v_size));
                }
            }
        }
    }

    /// Detaches the subtree below node `id`, turning it back into a leaf.
    /// The node's own rectangle, split fields, and level are unchanged. The
    /// detached nodes stay in the arena (their memory is released when the
    /// tree is dropped) but are no longer reachable from the root.
    pub fn remove_sons(&mut self, id: usize)
        requires
            old(self).wf(),
            id < old(self)@.len(),
        ensures
            final(self).wf(),
            final(self)@.len() == old(self)@.len(),
            forall|j: int| 0 <= j < old(self)@.len() && j != id ==> final(self)@[j] == old(self)@[j],
            final(self)@[id as int] == (Partition { left: None, right: None, ..old(self)@[id as int] }),
    {
        let p = self.nodes[id];
        self.nodes[id] = Partition { left: None, right: None, ..p };
        proof {
            let pre = old(self)@;
            let post = self@;
            assert forall|j: int| 0 <= j < post.len() implies node_inv(post, j) by {
                assert(node_inv(pre, j));
                if j != id && pre[j].left is Some {
                    assert(children_ok(pre, j));
                    assert(children_ok(post, j));
                }
            }
        }
    }
}

/// Coverage: the rectangles of a split node's two children partition the
/// parent's rectangle exactly. A point lies in the parent iff it lies in one
/// of the children, and never in both.
pub proof fn lemma_coverage_partition(t: &BSP, i: int, cx: int, cy: int)
    requires
        t.wf(),
        0 <= i < t@.len(),
        t@[i].left is Some,
    ensures
        rect_contains(t@[i], cx, cy) <==> (rect_contains(t@[t@[i].left->0 as int], cx, cy)
            || rect_contains(t@[t@[i].right->0 as int], cx, cy)),
        !(rect_contains(t@[t@[i].left->0 as int], cx, cy) && rect_contains(
            t@[t@[i].right->0 as int],
            cx,
            cy,
        )),
{
    assert(node_inv(t@, i));
    assert(children_ok(t@, i));
}

/// Level monotonicity: the root sits at level 0 and each child sits exactly
/// one level below its parent.
pub proof fn lemma_level_monotonic(t: &BSP, i: int)
    requires
        t.wf(),
        0 <= i < t@.len(),
        t@[i].left is Some,
    ensures
        t@[0].level == 0,
        t@[t@[i].left->0 as int].level == t@[i].level + 1,
        t@[t@[i].right->0 as int].level == t@[i].level + 1,
{
    assert(node_inv(t@, i));
    assert(children_ok(t@, i));
}

/// A node that lists `i` among its children is `i`'s stored parent, so no
/// two nodes can list the same child: `father` names the one node that does.
pub proof fn lemma_parent_unique(t: &BSP, q: int, i: usize)
    requires
        t.wf(),
        0 <= q < t@.len(),
        t@[q].left == Some(i) || t@[q].right == Some(i),
    ensures
        i < t@.len(),
        t@[i as int].parent == Some(q as usize),
{
    assert(node_inv(t@, q));
    assert(children_ok(t@, q));
}

/// Within the subtree rooted at `a`, the stored parent link of any node
/// other than `a` itself names a node of that subtree that has it among its
/// two children.
proof fn lemma_subtree_parent(s: Seq<Partition>, a: int, i: int)
    requires
        tree_inv(s),
        s.len() <= usize::MAX,
        0 <= a < s.len(),
        reachable_from(s, a, i),
        i != a,
    ensures
        0 <= i < s.len(),
        s[i].parent is Some,
        ({
            let q = s[i].parent->0 as int;
            &&& 0 <= q < s.len()
            &&& (s[q].left == Some(i as usize) || s[q].right == Some(i as usize))
            &&& reachable_from(s, a, q)
        }),
    decreases s.len() - s[a].level,
{
    assert(node_inv(s, a));
    assert(children_ok(s, a));
    let l = s[a].left->0 as int;
    let r = s[a].right->0 as int;
    if reachable_from(s, l, i) {
        if i == l {
            assert(s[i].parent == Some(a as usize));
            assert(reachable_from(s, a, a));
        } else {
            lemma_subtree_parent(s, l, i);
            let q = s[i].parent->0 as int;
            assert(reachable_from(s, l, q));
            assert(reachable_from(s, a, q));
        }
    } else {
        assert(reachable_from(s, r, i));
        if i == r {
            assert(s[i].parent == Some(a as usize));
            assert(reachable_from(s, a, a));
        } else {
            lemma_subtree_parent(s, r, i);
            let q = s[i].parent->0 as int;
            assert(reachable_from(s, r, q));
            assert(reachable_from(s, a, q));
        }
    }
}

/// The `father` backlink: for any non-root node reachable from the root,
/// the stored parent link names a node that is itself reachable from the
/// root and has this node among its two children. (For a detached node the
/// link is stale: its old parent no longer lists it.)
pub proof fn lemma_father_backlink(t: &BSP, i: int)
    requires
        t.wf(),
        reachable_from(t@, 0, i),
        i != 0,
    ensures
        0 <= i < t@.len(),
        t@[i].parent is Some,
        ({
            let q = t@[i].parent->0 as int;
            &&& 0 <= q < t@.len()
            &&& (t@[q].left == Some(i as usize) || t@[q].right == Some(i as usize))
            &&& reachable_from(t@, 0, q)
        }),
{
    assert(t@.len() <= usize::MAX) by {
        assert(vstd::std_specs::vec::spec_vec_len(&t.nodes) == t.nodes@.len());
    }
    lemma_subtree_parent(t@, 0, i);
}

/// Leaf/child consistency: a node has a left child iff it has a right one,
/// so `is_leaf` is true exactly when both `left` and `right` are `None`.
pub proof fn lemma_leaf_consistency(t: &BSP, i: int)
    requires
        t.wf(),
        0 <= i < t@.len(),
    ensures
        t@[i].left is Some <==> t@[i].right is Some,
        (t@[i].left is None && t@[i].right is None) <==> t@[i].left is None,
{
    assert(node_inv(t@, i));
}

} // verus!
