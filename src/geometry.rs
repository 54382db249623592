use vstd::prelude::*;

verus! {

/// Axis along which a container lays out its children.
#[derive(Clone, Copy, PartialEq, Eq, Debug, Structural)]
pub enum Orientation {
    Vertical,
    Horizontal,
}

impl Orientation {
    pub open spec fn inverted(self) -> Orientation {
        match self {
            Orientation::Vertical => Orientation::Horizontal,
            Orientation::Horizontal => Orientation::Vertical,
        }
    }

    /// The other orientation.
    pub fn invert(&self) -> (r: Orientation)
        ensures
            r == self.inverted(),
    {
        match self {
            Orientation::Vertical => Orientation::Horizontal,
            Orientation::Horizontal => Orientation::Vertical,
        }
    }
}

} // verus!

verus! {

/// The ratio that stands for a whole container edge: a ratio `r` gives a
/// child `r / RATIO_SCALE` of its parent's main axis.
pub const RATIO_SCALE: u64 = 1_000_000;

/// A rectangle in logical pixels: its top-left corner and its size.
#[derive(Clone, Copy, PartialEq, Eq, Debug, Structural)]
pub struct Rectangle {
    pub x: i32,
    pub y: i32,
    pub width: i32,
    pub height: i32,
}

impl Rectangle {
    /// Sizes are not negative and the far edges are representable.
    pub open spec fn is_sane(self) -> bool {
        &&& self.width >= 0
        &&& self.height >= 0
        &&& self.x + self.width <= i32::MAX
        &&& self.y + self.height <= i32::MAX
    }

    /// A rectangle from its corner and its size.
    pub fn from_loc_and_size(x: i32, y: i32, width: i32, height: i32) -> (r: Rectangle)
        ensures
            r == (Rectangle { x, y, width, height }),
    {
        Rectangle { x, y, width, height }
    }

    pub open spec fn zero_spec() -> Rectangle {
        Rectangle { x: 0, y: 0, width: 0, height: 0 }
    }

    /// The empty rectangle at the origin, which nodes hold before their first layout.
    pub fn zero() -> (r: Rectangle)
        ensures
            r == Rectangle::zero_spec(),
            r.is_sane(),
    {
        Rectangle { x: 0, y: 0, width: 0, height: 0 }
    }

    pub open spec fn edge_spec(self, o: Orientation) -> int {
        match o {
            Orientation::Vertical => self.height as int,
            Orientation::Horizontal => self.width as int,
        }
    }

    /// The size along the main axis of `orientation`.
    pub fn edge(&self, orientation: Orientation) -> (r: i32)
        ensures
            r == self.edge_spec(orientation),
    {
        match orientation {
            Orientation::Vertical => self.height,
            Orientation::Horizontal => self.width,
        }
    }
}

/// Sum of the explicit ratios among the first `n` entries.
pub open spec fn explicit_sum(rs: Seq<Option<u32>>, n: int) -> int
    decreases n,
{
    if n <= 0 {
        0
    } else {
        explicit_sum(rs, n - 1) + match rs[n - 1] {
            Some(r) => r as int,
            None => 0,
        }
    }
}

/// Number of entries without an explicit ratio among the first `n`.
pub open spec fn default_count(rs: Seq<Option<u32>>, n: int) -> int
    decreases n,
{
    if n <= 0 {
        0
    } else {
        default_count(rs, n - 1) + if rs[n - 1].is_none() {
            1int
        } else {
            0int
        }
    }
}

/// The share left to the entries without a ratio, all together. When the
/// explicit ratios take the whole edge or more, a share of one unit is kept
/// so that no size comes out negative.
pub open spec fn remaining_share(rs: Seq<Option<u32>>) -> int {
    let s = explicit_sum(rs, rs.len() as int);
    if s < RATIO_SCALE {
        RATIO_SCALE - s
    } else {
        1
    }
}

/// The main-axis size that child `i` asks for along an edge of `edge` pixels:
/// its share of the edge, to the nearest pixel for an explicit ratio, rounded
/// down for an equal split of what is left.
pub open spec fn wanted_size(edge: int, rs: Seq<Option<u32>>, i: int) -> int {
    match rs[i] {
        Some(r) => (edge * r + RATIO_SCALE as int / 2) / RATIO_SCALE as int,
        None => edge * remaining_share(rs) / RATIO_SCALE as int / default_count(
            rs,
            rs.len() as int,
        ),
    }
}

/// Where child `i` starts along the main axis, relative to the container.
/// Each child gets what it asks for, cut to what is left of the edge.
pub open spec fn offset(edge: int, rs: Seq<Option<u32>>, i: int) -> int
    decreases i,
{
    if i <= 0 {
        0
    } else {
        let o = offset(edge, rs, i - 1);
        let w = wanted_size(edge, rs, i - 1);
        o + if w <= edge - o {
            w
        } else {
            edge - o
        }
    }
}

/// Main-axis size of child `i`.
pub open spec fn child_size(edge: int, rs: Seq<Option<u32>>, i: int) -> int {
    offset(edge, rs, i + 1) - offset(edge, rs, i)
}

/// The rectangle of child `i` of a container with rectangle `p` and orientation `o`.
pub open spec fn child_rect(p: Rectangle, o: Orientation, rs: Seq<Option<u32>>, i: int) -> Rectangle {
    let e = p.edge_spec(o);
    match o {
        Orientation::Horizontal => Rectangle {
            x: (p.x + offset(e, rs, i)) as i32,
            y: p.y,
            width: child_size(e, rs, i) as i32,
            height: p.height,
        },
        Orientation::Vertical => Rectangle {
            x: p.x,
            y: (p.y + offset(e, rs, i)) as i32,
            width: p.width,
            height: child_size(e, rs, i) as i32,
        },
    }
}

proof fn lemma_explicit_sum_nonneg(rs: Seq<Option<u32>>, n: int)
    ensures
        explicit_sum(rs, n) >= 0,
        default_count(rs, n) >= 0,
    decreases n,
{
    if n > 0 {
        lemma_explicit_sum_nonneg(rs, n - 1);
    }
}

proof fn lemma_default_count_pos(rs: Seq<Option<u32>>, n: int, i: int)
    requires
        0 <= i < n,
        rs[i].is_none(),
    ensures
        default_count(rs, n) >= 1,
    decreases n,
{
    lemma_explicit_sum_nonneg(rs, n - 1);
    if i < n - 1 {
        lemma_default_count_pos(rs, n - 1, i);
    }
}

/// The wanted sizes are never negative.
proof fn lemma_wanted_nonneg(edge: int, rs: Seq<Option<u32>>, i: int)
    requires
        0 <= edge,
        0 <= i < rs.len(),
    ensures
        wanted_size(edge, rs, i) >= 0,
{
    lemma_explicit_sum_nonneg(rs, rs.len() as int);
    match rs[i] {
        Some(r) => {
            assert(edge * r >= 0) by (nonlinear_arith)
                requires
                    edge >= 0,
                    r >= 0,
            ;
        },
        None => {
            lemma_default_count_pos(rs, rs.len() as int, i);
            let a = edge * remaining_share(rs);
            assert(a >= 0) by (nonlinear_arith)
                requires
                    edge >= 0,
                    remaining_share(rs) >= 0,
                    a == edge * remaining_share(rs),
            ;
        },
    }
}

/// Children are placed one after the other and never leave the container.
pub proof fn lemma_offset_bounds(edge: int, rs: Seq<Option<u32>>, i: int)
    requires
        0 <= edge,
        0 <= i <= rs.len(),
    ensures
        0 <= offset(edge, rs, i) <= edge,
        i < rs.len() ==> 0 <= child_size(edge, rs, i),
        i < rs.len() ==> offset(edge, rs, i) + child_size(edge, rs, i) <= edge,
    decreases i,
{
    if i > 0 {
        lemma_offset_bounds(edge, rs, i - 1);
        lemma_wanted_nonneg(edge, rs, i - 1);
    }
    if i < rs.len() {
        lemma_wanted_nonneg(edge, rs, i);
    }
}

} // verus!

verus! {

/// Rectangles of the children of a container with rectangle `parent` and
/// orientation `orientation`, whose children have the given ratios, in order.
/// Children with a ratio take that share of the main axis; the others share
/// what is left equally; each gets the full cross axis.
pub fn layout_children(parent: Rectangle, orientation: Orientation, ratios: &Vec<Option<u32>>) -> (r:
    Vec<Rectangle>)
    requires
        parent.is_sane(),
    ensures
        r@.len() == ratios@.len(),
        forall|i: int| 0 <= i < r@.len() ==> r@[i] == child_rect(parent, orientation, ratios@, i),
        forall|i: int| 0 <= i < r@.len() ==> (#[trigger] r@[i]).is_sane(),
{
    let rs = Ghost(ratios@);
    let n = ratios.len();
    let mut total: u64 = 0;
    let mut count: u64 = 0;
    let mut i: usize = 0;
    while i < n
        invariant
            n == ratios@.len(),
            rs@ == ratios@,
            0 <= i <= n,
            total as int == if explicit_sum(rs@, i as int) < RATIO_SCALE {
                explicit_sum(rs@, i as int)
            } else {
                RATIO_SCALE as int
            },
            count as int == default_count(rs@, i as int),
            count <= i,
        decreases n - i,
    {
        proof {
            lemma_explicit_sum_nonneg(rs@, i as int);
        }
        match ratios[i] {
            Some(v) => {
                let s = total + v as u64;
                total = if s > RATIO_SCALE {
                    RATIO_SCALE
                } else {
                    s
                };
            },
            None => {
                count = count + 1;
            },
        }
        i = i + 1;
    }
    let remaining: u64 = if total < RATIO_SCALE {
        RATIO_SCALE - total
    } else {
        1
    };
    assert(remaining == remaining_share(rs@));
    let edge = parent.edge(orientation);
    let e = edge as u64;
    let mut used: u64 = 0;
    let mut out: Vec<Rectangle> = Vec::new();
    let mut j: usize = 0;
    while j < n
        invariant
            n == ratios@.len(),
            rs@ == ratios@,
            parent.is_sane(),
            edge as int == parent.edge_spec(orientation),
            e == edge,
            0 <= edge,
            remaining == remaining_share(rs@),
            0 < remaining <= RATIO_SCALE,
            count as int == default_count(rs@, n as int),
            0 <= j <= n,
            out@.len() == j,
            used as int == offset(edge as int, rs@, j as int),
            forall|k: int| 0 <= k < j ==> out@[k] == child_rect(parent, orientation, rs@, k),
            forall|k: int| 0 <= k < j ==> (#[trigger] out@[k]).is_sane(),
        decreases n - j,
    {
        proof {
            lemma_offset_bounds(edge as int, rs@, j as int);
            lemma_offset_bounds(edge as int, rs@, (j + 1) as int);
        }
        let wanted: u64 = match ratios[j] {
            Some(v) => {
                assert(e * (v as u64) <= 0x7fff_ffffu64 * 0xffff_ffffu64) by (nonlinear_arith)
                    requires
                        e <= 0x7fff_ffffu64,
                ;
                (e * (v as u64) + RATIO_SCALE / 2) / RATIO_SCALE
            },
            None => {
                proof {
                    lemma_default_count_pos(rs@, n as int, j as int);
                }
                assert(e * remaining <= 0x7fff_ffffu64 * RATIO_SCALE) by (nonlinear_arith)
                    requires
                        e <= 0x7fff_ffffu64,
                        remaining <= RATIO_SCALE,
                ;
                e * remaining / RATIO_SCALE / count
            },
        };
        assert(wanted as int == wanted_size(edge as int, rs@, j as int));
        let size: u64 = if wanted <= e - used {
            wanted
        } else {
            e - used
        };
        let rect = match orientation {
            Orientation::Horizontal => Rectangle {
                x: parent.x + used as i32,
                y: parent.y,
                width: size as i32,
                height: parent.height,
            },
            Orientation::Vertical => Rectangle {
                x: parent.x,
                y: parent.y + used as i32,
                width: parent.width,
                height: size as i32,
            },
        };
        out.push(rect);
        used = used + size;
        j = j + 1;
    }
    out
}

} // verus!

verus! {

/// Ratio conservation: when the explicit ratios leave room, they and the
/// share split among the children without a ratio make up exactly one whole
/// edge; when they leave none, that share is still positive. Either way the
/// children's main-axis sizes are non-negative and add up to no more than the
/// container's edge.
pub proof fn lemma_ratio_conservation(edge: int, rs: Seq<Option<u32>>)
    requires
        edge >= 0,
    ensures
        explicit_sum(rs, rs.len() as int) < RATIO_SCALE ==> explicit_sum(rs, rs.len() as int)
            + remaining_share(rs) == RATIO_SCALE,
        remaining_share(rs) > 0,
        forall|i: int| 0 <= i < rs.len() ==> #[trigger] child_size(edge, rs, i) >= 0,
        offset(edge, rs, rs.len() as int) <= edge,
        offset(edge, rs, rs.len() as int) == sum_sizes(edge, rs, rs.len() as int),
{
    lemma_explicit_sum_nonneg(rs, rs.len() as int);
    lemma_offset_bounds(edge, rs, rs.len() as int);
    assert forall|i: int| 0 <= i < rs.len() implies #[trigger] child_size(edge, rs, i) >= 0 by {
        lemma_offset_bounds(edge, rs, i);
    }
    lemma_sum_sizes(edge, rs, rs.len() as int);
}

/// Sum of the main-axis sizes of the first `n` children.
pub open spec fn sum_sizes(edge: int, rs: Seq<Option<u32>>, n: int) -> int
    decreases n,
{
    if n <= 0 {
        0
    } else {
        sum_sizes(edge, rs, n - 1) + child_size(edge, rs, n - 1)
    }
}

proof fn lemma_sum_sizes(edge: int, rs: Seq<Option<u32>>, n: int)
    requires
        n >= 0,
    ensures
        offset(edge, rs, n) == sum_sizes(edge, rs, n),
    decreases n,
{
    if n > 0 {
        lemma_sum_sizes(edge, rs, n - 1);
    }
}

} // verus!
