//! Logic kernel of a hexagonal-grid puzzle board.
//!
//! The library maintains a finite hexagonal tiling addressed by cube
//! coordinates, per-cell region state, and per-edge tri-state markers, and
//! implements the cascading constraint-propagation rule that resolves
//! ambiguous edges from the states of their neighbors.
use vstd::prelude::*;

verus! {

/// One tile of the board, addressed by cube coordinates `(q, r, s)` with
/// `q + r + s == 0`.
#[derive(Clone, Copy, Debug, PartialEq, Eq)]
pub struct Hex {
    pub q: i32,
    pub r: i32,
    pub s: i32,
    /// Region state: 0 = Background, 1 = Active, 2 = Inactive.
    pub active: u8,
    /// Optional puzzle clue in `0..=7`.
    pub target_count: Option<u8>,
    /// Display flag, independent of propagation.
    pub show_number: bool,
    /// Edge states indexed by direction `0..6`:
    /// 0 = Neutral, 1 = Active, 2 = Inactive, 3 = ForcedOff.
    pub active_edges: [u8; 6],
}

/// Displacement in `q` of the neighbor across edge `d` (direction table).
pub open spec fn dir_dq(d: int) -> int {
    if d == 0 {
        1
    } else if d == 1 {
        0
    } else if d == 2 {
        -1
    } else if d == 3 {
        -1
    } else if d == 4 {
        0
    } else if d == 5 {
        1
    } else {
        0
    }
}

/// Displacement in `r` of the neighbor across edge `d` (direction table).
pub open spec fn dir_dr(d: int) -> int {
    if d == 0 {
        0
    } else if d == 1 {
        1
    } else if d == 2 {
        1
    } else if d == 3 {
        0
    } else if d == 4 {
        -1
    } else if d == 5 {
        -1
    } else {
        0
    }
}

/// Directions `d` and `(d + 3) % 6` are opposite: following one and then the
/// other returns to the starting cell, and mirroring twice is the identity.
pub proof fn lemma_opposite_direction(d: int)
    requires
        0 <= d < 6,
    ensures
        0 <= (d + 3) % 6 < 6,
        dir_dq((d + 3) % 6) == -dir_dq(d),
        dir_dr((d + 3) % 6) == -dir_dr(d),
        ((d + 3) % 6 + 3) % 6 == d,
        (d + 3) % 6 != d,
{
}

/// The largest radius the coordinate arithmetic supports: `2 * radius` must
/// stay within `i32`, since `s = -q - r` can reach that magnitude.
pub const MAX_RADIUS: i32 = 0x3fff_ffff;

/// A coordinate lies in the hexagonal board of the given radius.
pub open spec fn in_bounds(radius: int, q: int, r: int) -> bool {
    &&& -radius <= q <= radius
    &&& -radius <= r <= radius
    &&& -radius <= q + r <= radius
}

/// Well-formedness of a single cell: cube-coordinate identity and field
/// ranges.
pub open spec fn hex_wf(h: Hex) -> bool {
    &&& h.s == -h.q - h.r
    &&& h.active <= 2
    &&& (h.target_count matches Some(c) ==> c <= 7)
    &&& forall|k: int| 0 <= k < 6 ==> h.active_edges@[k] <= 3
}

/// Strict lexicographic order on coordinates; cells are stored in this order,
/// which is exactly the order the generation loop visits them in.
pub open spec fn lex_lt(q1: int, r1: int, q2: int, r2: int) -> bool {
    q1 < q2 || (q1 == q2 && r1 < r2)
}

pub open spec fn cells_sorted(s: Seq<Hex>) -> bool {
    forall|i: int, j: int|
        0 <= i < j < s.len() ==> lex_lt(
            (#[trigger] s[i]).q as int,
            s[i].r as int,
            (#[trigger] s[j]).q as int,
            s[j].r as int,
        )
}

pub open spec fn coords_unique(s: Seq<Hex>) -> bool {
    forall|i: int, j: int|
        0 <= i < s.len() && 0 <= j < s.len() && i != j ==> !((#[trigger] s[i]).q == (
        #[trigger] s[j]).q && s[i].r == s[j].r)
}

/// Some cell of the sequence carries the given coordinate.
pub open spec fn has_coord(s: Seq<Hex>, q: int, r: int) -> bool {
    exists|i: int| 0 <= i < s.len() && (#[trigger] s[i]).q == q && s[i].r == r
}

/// Index of the cell with the given coordinate (meaningful when `has_coord`
/// holds and coordinates are unique).
pub open spec fn idx_of(s: Seq<Hex>, q: int, r: int) -> int {
    choose|i: int| 0 <= i < s.len() && (#[trigger] s[i]).q == q && s[i].r == r
}

/// The cell at the given coordinate.
pub open spec fn at_coord(s: Seq<Hex>, q: int, r: int) -> Hex {
    s[idx_of(s, q, r)]
}

/// The state of edge `d` of the cell at `(q, r)`.
pub open spec fn edge_at(s: Seq<Hex>, q: int, r: int, d: int) -> u8 {
    at_coord(s, q, r).active_edges@[d]
}

pub open spec fn cells_wf(s: Seq<Hex>, radius: int) -> bool {
    forall|i: int|
        0 <= i < s.len() ==> hex_wf(#[trigger] s[i]) && in_bounds(radius, s[i].q as int, s[i].r as int)
}

/// Every in-bounds coordinate is present.
pub open spec fn cells_complete(s: Seq<Hex>, radius: int) -> bool {
    forall|q: int, r: int| in_bounds(radius, q, r) ==> #[trigger] has_coord(s, q, r)
}

/// A shared physical edge carries the same state on both of its owners: edge
/// `d` of `(q, r)` agrees with edge `(d + 3) % 6` of the neighbor across it.
pub open spec fn mirror_ok(s: Seq<Hex>, q: int, r: int, d: int) -> bool {
    has_coord(s, q, r) && has_coord(s, q + dir_dq(d), r + dir_dr(d)) ==> edge_at(s, q, r, d)
        == edge_at(s, q + dir_dq(d), r + dir_dr(d), (d + 3) % 6)
}

pub open spec fn mirrored(s: Seq<Hex>) -> bool {
    forall|q: int, r: int, d: int| 0 <= d < 6 ==> #[trigger] mirror_ok(s, q, r, d)
}

/// Full well-formedness of a board of the given radius.
pub open spec fn grid_wf(s: Seq<Hex>, radius: int) -> bool {
    &&& 0 <= radius <= MAX_RADIUS
    &&& cells_wf(s, radius)
    &&& cells_sorted(s)
    &&& coords_unique(s)
    &&& cells_complete(s, radius)
    &&& mirrored(s)
}

/// Number of `Neutral` entries in an edge array; the termination measure of
/// the propagation cascade counts these across the whole board.
pub open spec fn edge_neutrals(es: Seq<u8>) -> int
    decreases es.len(),
{
    if es.len() == 0 {
        0
    } else {
        edge_neutrals(es.drop_last()) + if es.last() == 0 {
            1int
        } else {
            0int
        }
    }
}

pub open spec fn hex_neutrals(h: Hex) -> int {
    edge_neutrals(h.active_edges@)
}

pub open spec fn total_neutrals(s: Seq<Hex>) -> int
    decreases s.len(),
{
    if s.len() == 0 {
        0
    } else {
        total_neutrals(s.drop_last()) + hex_neutrals(s.last())
    }
}

pub proof fn lemma_edge_neutrals_nonneg(es: Seq<u8>)
    ensures
        edge_neutrals(es) >= 0,
    decreases es.len(),
{
    if es.len() > 0 {
        lemma_edge_neutrals_nonneg(es.drop_last());
    }
}

pub proof fn lemma_total_neutrals_nonneg(s: Seq<Hex>)
    ensures
        total_neutrals(s) >= 0,
    decreases s.len(),
{
    if s.len() > 0 {
        lemma_total_neutrals_nonneg(s.drop_last());
        lemma_edge_neutrals_nonneg(s.last().active_edges@);
    }
}

/// Updating one entry of an edge array changes the neutral count exactly by
/// the difference the two values make.
pub proof fn lemma_edge_neutrals_update(es: Seq<u8>, k: int, v: u8)
    requires
        0 <= k < es.len(),
    ensures
        edge_neutrals(es.update(k, v)) == edge_neutrals(es) - (if es[k] == 0 {
            1int
        } else {
            0int
        }) + (if v == 0 {
            1int
        } else {
            0int
        }),
    decreases es.len(),
{
    let es2 = es.update(k, v);
    if k == es.len() - 1 {
        assert(es2.drop_last() =~= es.drop_last());
    } else {
        assert(es2.drop_last() =~= es.drop_last().update(k, v));
        lemma_edge_neutrals_update(es.drop_last(), k, v);
        assert(es2.last() == es.last());
    }
}

/// Replacing one cell changes the total neutral count by the difference of
/// the two cells' counts.
pub proof fn lemma_total_neutrals_update(s: Seq<Hex>, i: int, h: Hex)
    requires
        0 <= i < s.len(),
    ensures
        total_neutrals(s.update(i, h)) == total_neutrals(s) - hex_neutrals(s[i]) + hex_neutrals(h),
    decreases s.len(),
{
    let s2 = s.update(i, h);
    if i == s.len() - 1 {
        assert(s2.drop_last() =~= s.drop_last());
    } else {
        assert(s2.drop_last() =~= s.drop_last().update(i, h));
        lemma_total_neutrals_update(s.drop_last(), i, h);
        assert(s2.last() == s.last());
    }
}

/// Pointwise evolution a cascade step allows an edge: keep its value, or turn
/// a `Neutral` edge into `ForcedOff`.
pub open spec fn edges_monotone(a: Seq<u8>, b: Seq<u8>) -> bool {
    a.len() == b.len() && forall|k: int|
        0 <= k < a.len() ==> b[k] == a[k] || (#[trigger] a[k] == 0 && #[trigger] b[k] == 3)
}

pub open spec fn edges_monotone_seq(s1: Seq<Hex>, s2: Seq<Hex>) -> bool {
    s1.len() == s2.len() && forall|i: int|
        0 <= i < s1.len() ==> edges_monotone((#[trigger] s1[i]).active_edges@, (
        #[trigger] s2[i]).active_edges@)
}

/// Everything but the edge states is unchanged between the two snapshots.
pub open spec fn same_skeleton(s1: Seq<Hex>, s2: Seq<Hex>) -> bool {
    s1.len() == s2.len() && forall|i: int|
        0 <= i < s1.len() ==> {
            let a = #[trigger] s1[i];
            let b = #[trigger] s2[i];
            b.q == a.q && b.r == a.r && b.s == a.s && b.active == a.active && b.target_count
                == a.target_count && b.show_number == a.show_number
        }
}

pub proof fn lemma_skeleton_trans(s1: Seq<Hex>, s2: Seq<Hex>, s3: Seq<Hex>)
    requires
        same_skeleton(s1, s2),
        same_skeleton(s2, s3),
    ensures
        same_skeleton(s1, s3),
{
    assert forall|i: int| 0 <= i < s1.len() implies {
        let a = #[trigger] s1[i];
        let b = #[trigger] s3[i];
        b.q == a.q && b.r == a.r && b.s == a.s && b.active == a.active && b.target_count
            == a.target_count && b.show_number == a.show_number
    } by {
        assert(s2[i].q == s1[i].q && s2[i].r == s1[i].r && s2[i].s == s1[i].s && s2[i].active
            == s1[i].active && s2[i].target_count == s1[i].target_count && s2[i].show_number
            == s1[i].show_number);
    }
}

pub proof fn lemma_monotone_seq_refl(s: Seq<Hex>)
    ensures
        edges_monotone_seq(s, s),
{
}

pub proof fn lemma_monotone_seq_trans(s1: Seq<Hex>, s2: Seq<Hex>, s3: Seq<Hex>)
    requires
        edges_monotone_seq(s1, s2),
        edges_monotone_seq(s2, s3),
    ensures
        edges_monotone_seq(s1, s3),
{
    assert forall|i: int| 0 <= i < s1.len() implies edges_monotone(
        (#[trigger] s1[i]).active_edges@,
        s3[i].active_edges@,
    ) by {
        let a = s1[i].active_edges@;
        let b = s2[i].active_edges@;
        let c = s3[i].active_edges@;
        assert(edges_monotone(a, b));
        assert(edges_monotone(b, c));
        assert forall|k: int| 0 <= k < a.len() implies c[k] == a[k] || (#[trigger] a[k] == 0 && (
        #[trigger] c[k]) == 3) by {
            assert(b[k] == a[k] || (a[k] == 0 && b[k] == 3));
            assert(c[k] == b[k] || (b[k] == 0 && c[k] == 3));
        }
    }
}

/// A cell of index `i` is the one `idx_of` finds for its own coordinate.
pub proof fn lemma_at_index(s: Seq<Hex>, i: int)
    requires
        coords_unique(s),
        0 <= i < s.len(),
    ensures
        has_coord(s, s[i].q as int, s[i].r as int),
        idx_of(s, s[i].q as int, s[i].r as int) == i,
        at_coord(s, s[i].q as int, s[i].r as int) == s[i],
{
    let q = s[i].q as int;
    let r = s[i].r as int;
    assert(0 <= i < s.len() && s[i].q == q && s[i].r == r);
    let j = idx_of(s, q, r);
    assert(0 <= j < s.len() && s[j].q == q && s[j].r == r);
    if i != j {
        assert(!(s[i].q == s[j].q && s[i].r == s[j].r));
    }
}

/// Replacing one cell by another with the same coordinate leaves every
/// coordinate-level fact unchanged.
pub proof fn lemma_update_same_coords(s: Seq<Hex>, i: int, h: Hex)
    requires
        coords_unique(s),
        0 <= i < s.len(),
        h.q == s[i].q,
        h.r == s[i].r,
    ensures
        coords_unique(s.update(i, h)),
        cells_sorted(s) ==> cells_sorted(s.update(i, h)),
        forall|a: int, b: int| #[trigger] has_coord(s.update(i, h), a, b) == has_coord(s, a, b),
        forall|a: int, b: int|
            has_coord(s, a, b) ==> #[trigger] idx_of(s.update(i, h), a, b) == idx_of(s, a, b),
{
    let s2 = s.update(i, h);
    assert forall|a: int, b: int| #[trigger] has_coord(s2, a, b) == has_coord(s, a, b) by {
        if has_coord(s, a, b) {
            let j = idx_of(s, a, b);
            assert(0 <= j < s.len() && s[j].q == a && s[j].r == b);
            assert(s2[j].q == a && s2[j].r == b);
        }
        if has_coord(s2, a, b) {
            let j = choose|j: int| 0 <= j < s2.len() && (#[trigger] s2[j]).q == a && s2[j].r == b;
            assert(s[j].q == a && s[j].r == b);
        }
    }
    assert forall|a: int, b: int| has_coord(s, a, b) implies #[trigger] idx_of(s2, a, b) == idx_of(
        s,
        a,
        b,
    ) by {
        let j1 = idx_of(s, a, b);
        assert(0 <= j1 < s.len() && s[j1].q == a && s[j1].r == b);
        assert(has_coord(s2, a, b));
        let j2 = idx_of(s2, a, b);
        assert(0 <= j2 < s2.len() && s2[j2].q == a && s2[j2].r == b);
        assert(s[j2].q == a && s[j2].r == b);
        if j1 != j2 {
            assert(!(s[j1].q == s[j2].q && s[j1].r == s[j2].r));
        }
    }
}

/// The board: the set of cells for the current radius, in generation order.
pub struct Grid {
    radius: i32,
    cells: Vec<Hex>,
}

impl View for Grid {
    type V = Seq<Hex>;

    closed spec fn view(&self) -> Seq<Hex> {
        self.cells@
    }
}

impl Grid {
    pub closed spec fn spec_radius(&self) -> int {
        self.radius as int
    }

    pub open spec fn wf(&self) -> bool {
        grid_wf(self@, self.spec_radius())
    }

    /// Index of the cell at `(q, r)`, if present.
    fn find(&self, q: i32, r: i32) -> (res: Option<usize>)
        ensures
            match res {
                Some(i) => i < self@.len() && self@[i as int].q == q && self@[i as int].r == r,
                None => !has_coord(self@, q as int, r as int),
            },
    {
        let mut i: usize = 0;
        while i < self.cells.len()
            invariant
                i <= self.cells.len(),
                forall|j: int| 0 <= j < i ==> !((#[trigger] self.cells@[j]).q == q && self.cells@[j].r == r),
            decreases self.cells.len() - i,
        {
            if self.cells[i].q == q && self.cells[i].r == r {
                return Some(i);
            }
            i += 1;
        }
        None
    }

    /// Current radius of the board.
    pub fn radius(&self) -> (res: i32)
        ensures
            res as int == self.spec_radius(),
    {
        self.radius
    }

    /// Builds a fresh board: one default cell for every in-bounds coordinate,
    /// visited with `q` ascending and, within a row, `r` ascending.
    ///
    /// The radius must be non-negative and small enough for the coordinate
    /// arithmetic (`MAX_RADIUS`).
    pub fn new(radius: i32) -> (g: Grid)
        requires
            0 <= radius <= MAX_RADIUS,
        ensures
            g.wf(),
            g.spec_radius() == radius as int,
            g@.len() == 3 * (radius as int) * (radius as int) + 3 * (radius as int) + 1,
            forall|i: int| 0 <= i < g@.len() ==> default_cell_ok(#[trigger] g@[i], radius as int),
    {
        let g = Grid { radius, cells: generate_cells(radius) };
        g
    }
}

/// A freshly generated cell: background region, no clue, all edges `Neutral`.
pub open spec fn default_cell_ok(h: Hex, radius: int) -> bool {
    &&& hex_wf(h)
    &&& in_bounds(radius, h.q as int, h.r as int)
    &&& h.q + h.r + h.s == 0
    &&& h.active == 0
    &&& h.target_count is None
    &&& !h.show_number
    &&& forall|k: int| 0 <= k < 6 ==> h.active_edges@[k] == 0
}

/// First `r` of the row at `q`: `max(-radius, -q - radius)`.
pub open spec fn row_min(radius: int, q: int) -> int {
    if -radius >= -q - radius {
        -radius
    } else {
        -q - radius
    }
}

/// Last `r` of the row at `q`: `min(radius, -q + radius)`.
pub open spec fn row_max(radius: int, q: int) -> int {
    if radius <= -q + radius {
        radius
    } else {
        -q + radius
    }
}

pub open spec fn row_len(radius: int, q: int) -> int {
    row_max(radius, q) - row_min(radius, q) + 1
}

/// Number of cells in all rows before `q`.
pub open spec fn prefix_count(radius: int, q: int) -> int
    decreases q + radius,
{
    if q <= -radius {
        0
    } else {
        prefix_count(radius, q - 1) + row_len(radius, q - 1)
    }
}

/// Closed form of `prefix_count`, doubled to stay within integers.
proof fn lemma_prefix_count_closed(radius: int, q: int)
    requires
        radius >= 0,
        -radius <= q <= radius + 1,
    ensures
        2 * prefix_count(radius, q) == if q <= 0 {
            2 * (q + radius) * radius + (q + radius) * (q + radius + 1)
        } else {
            3 * radius * radius + radius + 2 * q * (2 * radius + 1) - q * (q - 1)
        },
    decreases q + radius,
{
    if q <= -radius {
        assert(q == -radius);
        assert(2 * (q + radius) * radius + (q + radius) * (q + radius + 1) == 0)
            by (nonlinear_arith)
            requires q + radius == 0;
    } else {
        lemma_prefix_count_closed(radius, q - 1);
        let p = prefix_count(radius, q - 1);
        assert(prefix_count(radius, q) == p + row_len(radius, q - 1));
        if q - 1 <= 0 {
            assert(row_len(radius, q - 1) == 2 * radius + q);
            if q <= 0 {
                assert(2 * (q - 1 + radius) * radius + (q - 1 + radius) * (q + radius) + 2 * (2
                    * radius + q) == 2 * (q + radius) * radius + (q + radius) * (q + radius + 1))
                    by (nonlinear_arith);
            } else {
                assert(q == 1);
                assert(2 * (radius) * radius + (radius) * (radius + 1) + 2 * (2 * radius + 1) == 3
                    * radius * radius + radius + 2 * 1 * (2 * radius + 1) - 1 * (1 - 1))
                    by (nonlinear_arith);
            }
        } else {
            assert(row_len(radius, q - 1) == 2 * radius + 2 - q);
            assert(3 * radius * radius + radius + 2 * (q - 1) * (2 * radius + 1) - (q - 1) * (q - 2)
                + 2 * (2 * radius + 2 - q) == 3 * radius * radius + radius + 2 * q * (2 * radius
                + 1) - q * (q - 1)) by (nonlinear_arith);
        }
    }
}

/// The board of radius `R` holds exactly `3 R^2 + 3 R + 1` cells.
pub proof fn lemma_cell_count(radius: int)
    requires
        radius >= 0,
    ensures
        prefix_count(radius, radius + 1) == 3 * radius * radius + 3 * radius + 1,
{
    lemma_prefix_count_closed(radius, radius + 1);
    assert(3 * radius * radius + radius + 2 * (radius + 1) * (2 * radius + 1) - (radius + 1)
        * radius == 2 * (3 * radius * radius + 3 * radius + 1)) by (nonlinear_arith);
}

/// Builds the cell store for a fresh board of the given radius.
fn generate_cells(radius: i32) -> (res: Vec<Hex>)
    requires
        0 <= radius <= MAX_RADIUS,
    ensures
        grid_wf(res@, radius as int),
        res@.len() == 3 * (radius as int) * (radius as int) + 3 * (radius as int) + 1,
        forall|i: int| 0 <= i < res@.len() ==> default_cell_ok(#[trigger] res@[i], radius as int),
{
    let mut cells: Vec<Hex> = Vec::new();
    let mut q: i32 = -radius;
    while q <= radius
        invariant
            0 <= radius <= MAX_RADIUS,
            -radius <= q <= radius + 1,
            cells@.len() == prefix_count((radius as int), q as int),
            forall|i: int|
                0 <= i < cells@.len() ==> default_cell_ok(#[trigger] cells@[i], (radius as int))
                    && (cells@[i].q as int) < q as int,
            cells_sorted(cells@),
            forall|a: int, b: int|
                in_bounds((radius as int), a, b) && a < q as int ==> #[trigger] has_coord(cells@, a, b),
        decreases radius + 1 - q,
    {
        let r1: i32 = if -radius >= -q - radius {
            -radius
        } else {
            -q - radius
        };
        let r2: i32 = if radius <= -q + radius {
            radius
        } else {
            -q + radius
        };
        assert(r1 as int == row_min((radius as int), q as int));
        assert(r2 as int == row_max((radius as int), q as int));
        let mut r: i32 = r1;
        while r <= r2
            invariant
                0 <= radius <= MAX_RADIUS,
                -radius <= q <= radius,
                r1 as int == row_min((radius as int), q as int),
                r2 as int == row_max((radius as int), q as int),
                r1 <= r,
                r as int <= r2 as int + 1,
                cells@.len() == prefix_count((radius as int), q as int) + (r as int - r1 as int),
                forall|i: int|
                    0 <= i < cells@.len() ==> default_cell_ok(#[trigger] cells@[i], (radius as int))
                        && lex_lt(cells@[i].q as int, cells@[i].r as int, q as int, r as int),
                cells_sorted(cells@),
                forall|a: int, b: int|
                    in_bounds((radius as int), a, b) && lex_lt(a, b, q as int, r as int) ==> #[trigger] has_coord(
                        cells@,
                        a,
                        b,
                    ),
            decreases r2 + 1 - r,
        {
            let s: i32 = -q - r;
            let h = Hex {
                q,
                r,
                s,
                active: 0,
                target_count: None,
                show_number: false,
                active_edges: [0, 0, 0, 0, 0, 0],
            };
            let ghost old_cells = cells@;
            cells.push(h);
            proof {
                assert(h.active_edges@ =~= seq![0u8, 0u8, 0u8, 0u8, 0u8, 0u8]);
                assert(forall|k: int| 0 <= k < 6 ==> h.active_edges@[k] == 0);
                assert(in_bounds((radius as int), q as int, r as int));
                assert(default_cell_ok(h, (radius as int)));
                assert(cells@ == old_cells.push(h));
                assert(cells@[old_cells.len() as int] == h);
                assert(forall|i: int| 0 <= i < old_cells.len() ==> cells@[i] == old_cells[i]);
                assert forall|a: int, b: int|
                    in_bounds((radius as int), a, b) && lex_lt(a, b, q as int, r as int + 1) implies #[trigger] has_coord(
                    cells@,
                    a,
                    b,
                ) by {
                    if a == q as int && b == r as int {
                        assert(cells@[old_cells.len() as int].q == q && cells@[old_cells.len() as int].r == r);
                    } else {
                        assert(lex_lt(a, b, q as int, r as int));
                        assert(has_coord(old_cells, a, b));
                        let w = choose|i: int|
                            0 <= i < old_cells.len() && (#[trigger] old_cells[i]).q == a
                                && old_cells[i].r == b;
                        assert(cells@[w].q == a && cells@[w].r == b);
                    }
                }
            }
            r += 1;
        }
        proof {
            assert(prefix_count((radius as int), q as int + 1) == prefix_count((radius as int), q as int) + row_len(
                (radius as int),
                q as int,
            ));
            assert forall|a: int, b: int| in_bounds((radius as int), a, b) && a < q as int + 1 implies #[trigger] has_coord(
                cells@,
                a,
                b,
            ) by {
                if a == q as int {
                    assert(row_min((radius as int), q as int) <= b <= row_max((radius as int), q as int));
                    assert(lex_lt(a, b, q as int, r as int));
                }
            }
        }
        q += 1;
    }
    proof {
        lemma_cell_count((radius as int));
        assert forall|a: int, b: int| in_bounds((radius as int), a, b) implies #[trigger] has_coord(cells@, a, b) by {
            assert(a < q as int);
        }
        assert(coords_unique(cells@)) by {
            assert forall|i: int, j: int|
                0 <= i < cells@.len() && 0 <= j < cells@.len() && i != j implies !((
            #[trigger] cells@[i]).q == (#[trigger] cells@[j]).q && cells@[i].r == cells@[j].r) by {
                if i < j {
                    assert(lex_lt(cells@[i].q as int, cells@[i].r as int, cells@[j].q as int, cells@[j].r as int));
                } else {
                    assert(lex_lt(cells@[j].q as int, cells@[j].r as int, cells@[i].q as int, cells@[i].r as int));
                }
            }
        }
        assert(mirrored(cells@)) by {
            assert forall|a: int, b: int, d: int| 0 <= d < 6 implies #[trigger] mirror_ok(
                cells@,
                a,
                b,
                d,
            ) by {
                if has_coord(cells@, a, b) && has_coord(cells@, a + dir_dq(d), b + dir_dr(d)) {
                    let i1 = idx_of(cells@, a, b);
                    assert(0 <= i1 < cells@.len() && cells@[i1].q == a && cells@[i1].r == b);
                    let i2 = idx_of(cells@, a + dir_dq(d), b + dir_dr(d));
                    assert(0 <= i2 < cells@.len() && cells@[i2].q == a + dir_dq(d) && cells@[i2].r
                        == b + dir_dr(d));
                    assert(edge_at(cells@, a, b, d) == 0);
                    assert(edge_at(cells@, a + dir_dq(d), b + dir_dr(d), (d + 3) % 6) == 0);
                }
            }
        }
    }
    cells
}

impl Grid {
    /// Snapshot of the cell at `(q, r)`, or `None` when the coordinate is not
    /// on the board.
    pub fn get_hex(&self, q: i32, r: i32) -> (res: Option<Hex>)
        requires
            self.wf(),
        ensures
            res matches Some(h) ==> has_coord(self@, q as int, r as int) && h == at_coord(
                self@,
                q as int,
                r as int,
            ),
            res is None ==> !has_coord(self@, q as int, r as int),
    {
        match self.find(q, r) {
            Some(i) => {
                proof {
                    lemma_at_index(self@, i as int);
                }
                Some(self.cells[i])
            },
            None => None,
        }
    }

    /// Snapshot of the neighbor of `(q, r)` across edge `direction`.
    ///
    /// Directions outside `0..=5` are rejected by precondition; treating
    /// them as a zero displacement would silently return the cell itself.
    pub fn get_neighbor(&self, q: i32, r: i32, direction: usize) -> (res: Option<Hex>)
        requires
            self.wf(),
            direction < 6,
        ensures
            res matches Some(h) ==> has_coord(
                self@,
                q + dir_dq(direction as int),
                r + dir_dr(direction as int),
            ) && h == at_coord(self@, q + dir_dq(direction as int), r + dir_dr(direction as int)),
            res is None ==> !has_coord(
                self@,
                q + dir_dq(direction as int),
                r + dir_dr(direction as int),
            ),
    {
        let (dq, dr) = direction_offsets(direction);
        let nq: i64 = q as i64 + dq as i64;
        let nr: i64 = r as i64 + dr as i64;
        if nq < -(self.radius as i64) || nq > self.radius as i64 || nr < -(self.radius as i64) || nr
            > self.radius as i64 {
            proof {
                if has_coord(self@, nq as int, nr as int) {
                    let w = idx_of(self@, nq as int, nr as int);
                    assert(in_bounds(self.spec_radius(), self@[w].q as int, self@[w].r as int));
                }
            }
            None
        } else {
            self.get_hex(nq as i32, nr as i32)
        }
    }

    /// Snapshot of every cell, in generation order.
    pub fn get_all_hexes(&self) -> (res: Vec<Hex>)
        ensures
            res@ == self@,
    {
        let mut res: Vec<Hex> = Vec::new();
        let mut i: usize = 0;
        while i < self.cells.len()
            invariant
                i <= self.cells.len(),
                res@ =~= self.cells@.subrange(0, i as int),
            decreases self.cells.len() - i,
        {
            res.push(self.cells[i]);
            i += 1;
        }
        proof {
            assert(res@ =~= self@);
        }
        res
    }

    /// Overwrites the region state of the cell at `(q, r)`; a silent no-op
    /// when the coordinate is absent. Never touches any edge of any cell.
    pub fn set_hex_active(&mut self, q: i32, r: i32, active: u8)
        requires
            old(self).wf(),
            active <= 2,
        ensures
            final(self).wf(),
            final(self).spec_radius() == old(self).spec_radius(),
            final(self)@.len() == old(self)@.len(),
            forall|i: int|
                0 <= i < old(self)@.len() ==> {
                    let a = #[trigger] old(self)@[i];
                    let b = #[trigger] final(self)@[i];
                    b.q == a.q && b.r == a.r && b.s == a.s && b.target_count == a.target_count
                        && b.show_number == a.show_number && b.active_edges == a.active_edges
                },
            !has_coord(old(self)@, q as int, r as int) ==> final(self)@ == old(self)@,
            has_coord(old(self)@, q as int, r as int) ==> at_coord(
                final(self)@,
                q as int,
                r as int,
            ).active == active,
            forall|i: int|
                0 <= i < old(self)@.len() && !((#[trigger] old(self)@[i]).q == q && old(self)@[i].r
                    == r) ==> (#[trigger] final(self)@[i]).active == old(self)@[i].active,
    {
        let idx = match self.find(q, r) {
            Some(i) => i,
            None => {
                return ;
            },
        };
        let ghost s0 = self@;
        let mut h = self.cells[idx];
        h.active = active;
        self.cells[idx] = h;
        proof {
            lemma_update_same_coords(s0, idx as int, h);
            lemma_at_index(s0, idx as int);
            assert(self@ =~= s0.update(idx as int, h));
            lemma_at_index(self@, idx as int);
            assert(cells_complete(self@, self.spec_radius())) by {
                assert forall|a: int, b: int| in_bounds(self.spec_radius(), a, b) implies #[trigger] has_coord(
                    self@,
                    a,
                    b,
                ) by {
                    assert(has_coord(s0, a, b));
                }
            }
            assert(mirrored(self@)) by {
                assert forall|a: int, b: int, d: int| 0 <= d < 6 implies #[trigger] mirror_ok(
                    self@,
                    a,
                    b,
                    d,
                ) by {
                    lemma_edge_at_same(s0, self@, a, b, d);
                    lemma_edge_at_same(s0, self@, a + dir_dq(d), b + dir_dr(d), (d + 3) % 6);
                    assert(mirror_ok(s0, a, b, d));
                }
            }
        }
    }
}

/// Two snapshots with pointwise equal coordinates and edge arrays give every
/// present coordinate the same edge states.
proof fn lemma_edge_at_same(s1: Seq<Hex>, s2: Seq<Hex>, q: int, r: int, d: int)
    requires
        coords_unique(s1),
        s1.len() == s2.len(),
        forall|i: int|
            0 <= i < s1.len() ==> (#[trigger] s2[i]).q == s1[i].q && s2[i].r == s1[i].r
                && s2[i].active_edges == s1[i].active_edges,
    ensures
        has_coord(s1, q, r) == has_coord(s2, q, r),
        has_coord(s1, q, r) ==> edge_at(s2, q, r, d) == edge_at(s1, q, r, d),
{
    if has_coord(s1, q, r) {
        let j = idx_of(s1, q, r);
        assert(0 <= j < s1.len() && s1[j].q == q && s1[j].r == r);
        assert(s2[j].q == q && s2[j].r == r);
        assert(has_coord(s2, q, r));
        let j2 = idx_of(s2, q, r);
        assert(0 <= j2 < s2.len() && s2[j2].q == q && s2[j2].r == r);
        assert(s1[j2].q == q && s1[j2].r == r);
        if j != j2 {
            assert(!(s1[j].q == s1[j2].q && s1[j].r == s1[j2].r));
        }
        assert(at_coord(s2, q, r).active_edges == at_coord(s1, q, r).active_edges);
    }
    if has_coord(s2, q, r) {
        let j = choose|j: int| 0 <= j < s2.len() && (#[trigger] s2[j]).q == q && s2[j].r == r;
        assert(s1[j].q == q && s1[j].r == r);
    }
}

/// Under a skeleton-preserving, edge-monotone step, a present cell keeps its
/// index and each of its edges either keeps its value or goes `Neutral` to
/// `ForcedOff`.
proof fn lemma_monotone_edge_at(s1: Seq<Hex>, s2: Seq<Hex>, q: int, r: int, d: int)
    requires
        coords_unique(s1),
        same_skeleton(s1, s2),
        edges_monotone_seq(s1, s2),
        has_coord(s1, q, r),
        0 <= d < 6,
    ensures
        has_coord(s2, q, r),
        idx_of(s2, q, r) == idx_of(s1, q, r),
        edge_at(s2, q, r, d) == edge_at(s1, q, r, d) || (edge_at(s1, q, r, d) == 0 && edge_at(
            s2,
            q,
            r,
            d,
        ) == 3),
{
    let j = idx_of(s1, q, r);
    assert(0 <= j < s1.len() && s1[j].q == q && s1[j].r == r);
    assert(s2[j].q == q && s2[j].r == r);
    assert(has_coord(s2, q, r));
    let j2 = idx_of(s2, q, r);
    assert(0 <= j2 < s2.len() && s2[j2].q == q && s2[j2].r == r);
    assert(s1[j2].q == q && s1[j2].r == r);
    if j != j2 {
        assert(!(s1[j].q == s1[j2].q && s1[j].r == s1[j2].r));
    }
    assert(edges_monotone(s1[j].active_edges@, s2[j].active_edges@));
}

/// Has-coordinate facts transfer across a skeleton-preserving step.
proof fn lemma_skeleton_has_coord(s1: Seq<Hex>, s2: Seq<Hex>)
    requires
        same_skeleton(s1, s2),
    ensures
        forall|a: int, b: int| #[trigger] has_coord(s2, a, b) == has_coord(s1, a, b),
        coords_unique(s1) ==> coords_unique(s2),
        cells_sorted(s1) ==> cells_sorted(s2),
{
    assert forall|a: int, b: int| #[trigger] has_coord(s2, a, b) == has_coord(s1, a, b) by {
        if has_coord(s1, a, b) {
            let w = choose|i: int|
                0 <= i < s1.len() && (#[trigger] s1[i]).q == a && s1[i].r == b;
            assert(s2[w].q == a && s2[w].r == b);
        }
        if has_coord(s2, a, b) {
            let w = choose|i: int|
                0 <= i < s2.len() && (#[trigger] s2[i]).q == a && s2[i].r == b;
            assert(s1[w].q == a && s1[w].r == b);
        }
    }
    if coords_unique(s1) {
        assert forall|i: int, j: int|
            0 <= i < s2.len() && 0 <= j < s2.len() && i != j implies !((#[trigger] s2[i]).q == (
        #[trigger] s2[j]).q && s2[i].r == s2[j].r) by {
            assert(s1[i].q == s2[i].q && s1[i].r == s2[i].r);
            assert(s1[j].q == s2[j].q && s1[j].r == s2[j].r);
            assert(!(s1[i].q == s1[j].q && s1[i].r == s1[j].r));
        }
    }
    if cells_sorted(s1) {
        assert forall|i: int, j: int| 0 <= i < j < s2.len() implies lex_lt(
            (#[trigger] s2[i]).q as int,
            s2[i].r as int,
            (#[trigger] s2[j]).q as int,
            s2[j].r as int,
        ) by {
            assert(s1[i].q == s2[i].q && s1[i].r == s2[i].r);
            assert(s1[j].q == s2[j].q && s1[j].r == s2[j].r);
            assert(lex_lt(s1[i].q as int, s1[i].r as int, s1[j].q as int, s1[j].r as int));
        }
    }
}

impl Grid {
    /// Writes edge `d` of the present cell at `(q, r)` and simultaneously the
    /// matching edge `(d + 3) % 6` of the neighbor across it, when that
    /// neighbor exists. No propagation; the mirror invariant is restored
    /// before returning.
    fn write_edge_pair(&mut self, q: i32, r: i32, d: usize, v: u8)
        requires
            old(self).wf(),
            has_coord(old(self)@, q as int, r as int),
            d < 6,
            v <= 3,
        ensures
            final(self).wf(),
            final(self).spec_radius() == old(self).spec_radius(),
            same_skeleton(old(self)@, final(self)@),
            forall|a: int, b: int| #[trigger] has_coord(final(self)@, a, b) == has_coord(
                old(self)@,
                a,
                b,
            ),
            edge_at(final(self)@, q as int, r as int, d as int) == v,
            has_coord(old(self)@, q + dir_dq(d as int), r + dir_dr(d as int)) ==> edge_at(
                final(self)@,
                q + dir_dq(d as int),
                r + dir_dr(d as int),
                (d as int + 3) % 6,
            ) == v,
            forall|a: int, b: int, k: int|
                has_coord(old(self)@, a, b) && 0 <= k < 6 && !(a == q as int && b == r as int && k
                    == d as int) && !(a == q + dir_dq(d as int) && b == r + dir_dr(d as int) && k
                    == (d as int + 3) % 6) ==> #[trigger] edge_at(final(self)@, a, b, k) == edge_at(
                    old(self)@,
                    a,
                    b,
                    k,
                ),
            edge_at(old(self)@, q as int, r as int, d as int) == 0 && v != 0 ==> total_neutrals(
                final(self)@,
            ) < total_neutrals(old(self)@),
            v != 0 ==> total_neutrals(final(self)@) <= total_neutrals(old(self)@),
    {
        let ghost s0 = self@;
        let ghost qi = q as int;
        let ghost ri = r as int;
        let ghost di = d as int;
        let ghost nqs = qi + dir_dq(di);
        let ghost nrs = ri + dir_dr(di);
        let ghost mds = (di + 3) % 6;
        proof {
            lemma_opposite_direction(di);
        }
        let idx = match self.find(q, r) {
            Some(i) => i,
            None => {
                proof {
                    assert(false);
                }
                0
            },
        };
        proof {
            lemma_at_index(s0, idx as int);
        }
        let mut h = self.cells[idx];
        h.active_edges[d] = v;
        self.cells[idx] = h;
        let ghost s1 = self@;
        proof {
            assert(s1 =~= s0.update(idx as int, h));
            assert(h.active_edges@ =~= s0[idx as int].active_edges@.update(di, v));
            lemma_update_same_coords(s0, idx as int, h);
            lemma_edge_neutrals_update(s0[idx as int].active_edges@, di, v);
            lemma_total_neutrals_update(s0, idx as int, h);
            lemma_at_index(s1, idx as int);
        }
        let (dq, dr) = direction_offsets(d);
        let nq: i32 = q + dq;
        let nr: i32 = r + dr;
        let ghost mid_total = total_neutrals(s1);
        let mirror = self.find(nq, nr);
        match mirror {
            Some(j) => {
                proof {
                    lemma_at_index(s1, j as int);
                    assert(j as int != idx as int);
                }
                let md = (d + 3) % 6;
                let mut h2 = self.cells[j];
                h2.active_edges[md] = v;
                self.cells[j] = h2;
                proof {
                    assert(self@ =~= s1.update(j as int, h2));
                    assert(h2.active_edges@ =~= s1[j as int].active_edges@.update(mds, v));
                    lemma_update_same_coords(s1, j as int, h2);
                    lemma_edge_neutrals_update(s1[j as int].active_edges@, mds, v);
                    lemma_total_neutrals_update(s1, j as int, h2);
                }
            },
            None => {},
        }
        proof {
            let s2 = self@;
            assert(same_skeleton(s0, s2));
            lemma_skeleton_has_coord(s0, s2);
            assert(idx_of(s2, qi, ri) == idx as int);
            assert(edge_at(s2, qi, ri, di) == v);
            if has_coord(s0, nqs, nrs) {
                let j = idx_of(s1, nqs, nrs);
                assert(edge_at(s2, nqs, nrs, mds) == v);
            }
            assert forall|a: int, b: int, k: int|
                has_coord(s0, a, b) && 0 <= k < 6 && !(a == qi && b == ri && k == di) && !(a == nqs
                    && b == nrs && k == mds) implies #[trigger] edge_at(s2, a, b, k) == edge_at(
                s0,
                a,
                b,
                k,
            ) by {
                let w = idx_of(s0, a, b);
                lemma_at_index(s0, w);
                assert(idx_of(s1, a, b) == w && idx_of(s2, a, b) == w);
            }
            // the two halves of the written physical edge agree again, and no
            // other pair was touched, so the mirror invariant carries over
            assert forall|a: int, b: int, k: int| 0 <= k < 6 implies #[trigger] mirror_ok(
                s2,
                a,
                b,
                k,
            ) by {
                if has_coord(s2, a, b) && has_coord(s2, a + dir_dq(k), b + dir_dr(k)) {
                    lemma_opposite_direction(k);
                    let pa = a + dir_dq(k);
                    let pb = b + dir_dr(k);
                    let pk = (k + 3) % 6;
                    if a == qi && b == ri && k == di {
                        assert(edge_at(s2, pa, pb, pk) == v);
                    } else if a == nqs && b == nrs && k == mds {
                        assert(pa == qi && pb == ri && pk == di);
                        assert(edge_at(s2, a, b, k) == v);
                    } else {
                        if pa == qi && pb == ri && pk == di {
                            assert(k == mds && a == nqs && b == nrs);
                            assert(false);
                        }
                        if pa == nqs && pb == nrs && pk == mds {
                            assert(k == di && a == qi && b == ri);
                            assert(false);
                        }
                        assert(edge_at(s2, a, b, k) == edge_at(s0, a, b, k));
                        assert(edge_at(s2, pa, pb, pk) == edge_at(s0, pa, pb, pk));
                        assert(mirror_ok(s0, a, b, k));
                    }
                }
            }
            assert(cells_wf(s2, self.spec_radius())) by {
                assert forall|i: int| 0 <= i < s2.len() implies hex_wf(#[trigger] s2[i])
                    && in_bounds(self.spec_radius(), s2[i].q as int, s2[i].r as int) by {
                    assert(hex_wf(s0[i]));
                    assert(in_bounds(self.spec_radius(), s0[i].q as int, s0[i].r as int));
                }
            }
            assert(cells_complete(s2, self.spec_radius())) by {
                assert forall|a: int, b: int| in_bounds(self.spec_radius(), a, b) implies #[trigger] has_coord(
                    s2,
                    a,
                    b,
                ) by {
                    assert(has_coord(s0, a, b));
                }
            }
        }
    }
}

/// First of the two own edges meeting at corner `c`: edge `(c + 5) % 6`.
pub open spec fn corner_e1(c: int) -> int {
    (c + 5) % 6
}

/// State of the third edge at corner `c` of `(q, r)`: the edge between the
/// two neighbors across the corner's own edges. When the first neighbor
/// exists it owns that edge at direction `(c + 1) % 6`; otherwise the second
/// neighbor owns it at `(c + 4) % 6`; at the outer rim, where neither exists,
/// the missing side counts as `ForcedOff`.
pub open spec fn vertex_s3(s: Seq<Hex>, q: int, r: int, c: int) -> u8 {
    let n1q = q + dir_dq(corner_e1(c));
    let n1r = r + dir_dr(corner_e1(c));
    let n2q = q + dir_dq(c);
    let n2r = r + dir_dr(c);
    if has_coord(s, n1q, n1r) {
        edge_at(s, n1q, n1r, (c + 1) % 6)
    } else if has_coord(s, n2q, n2r) {
        edge_at(s, n2q, n2r, (c + 4) % 6)
    } else {
        3u8
    }
}

pub open spec fn cnt(b: bool) -> int {
    if b {
        1
    } else {
        0
    }
}

/// `Inactive` and `ForcedOff` both count as determined-off.
pub open spec fn is_det_off(v: u8) -> bool {
    v == 2 || v == 3
}

/// The 2-against-1 resolution rule: a vertex fires exactly when one of its
/// three edges is `Neutral` and the other two agree (both `Active`, or both
/// determined-off).
pub open spec fn vertex_fires(s: Seq<Hex>, q: int, r: int, c: int) -> bool {
    let s1 = edge_at(s, q, r, corner_e1(c));
    let s2 = edge_at(s, q, r, c);
    let s3 = vertex_s3(s, q, r, c);
    &&& cnt(s1 == 0) + cnt(s2 == 0) + cnt(s3 == 0) == 1
    &&& (cnt(s1 == 1) + cnt(s2 == 1) + cnt(s3 == 1) == 2 || cnt(is_det_off(s1)) + cnt(
        is_det_off(s2),
    ) + cnt(is_det_off(s3)) == 2)
}

impl Grid {
    /// Inspects the three edges meeting at corner `corner` of the cell at
    /// `(q, r)` and, when the 2-against-1 rule fires, forces the single
    /// `Neutral` edge among them to `ForcedOff`, cascading further.
    ///
    /// When the rule does not fire, the board is left exactly as it was.
    pub fn check_vertex(&mut self, q: i32, r: i32, corner: usize)
        requires
            old(self).wf(),
            has_coord(old(self)@, q as int, r as int),
            corner < 6,
        ensures
            final(self).wf(),
            final(self).spec_radius() == old(self).spec_radius(),
            same_skeleton(old(self)@, final(self)@),
            edges_monotone_seq(old(self)@, final(self)@),
            total_neutrals(final(self)@) <= total_neutrals(old(self)@),
            !vertex_fires(old(self)@, q as int, r as int, corner as int) ==> final(self)@ == old(
                self,
            )@,
            vertex_fires(old(self)@, q as int, r as int, corner as int) ==> {
                let s1 = edge_at(old(self)@, q as int, r as int, corner_e1(corner as int));
                let s2 = edge_at(old(self)@, q as int, r as int, corner as int);
                &&& (s1 == 0 ==> edge_at(
                    final(self)@,
                    q as int,
                    r as int,
                    corner_e1(corner as int),
                ) == 3)
                &&& (s1 != 0 && s2 == 0 ==> edge_at(final(self)@, q as int, r as int, corner as int)
                    == 3)
                &&& (s1 != 0 && s2 != 0 ==> vertex_s3(final(self)@, q as int, r as int, corner as int)
                    == 3)
            },
        decreases total_neutrals(self@), 1int,
    {
        let ghost s0 = self@;
        let ghost qi = q as int;
        let ghost ri = r as int;
        let ghost ci = corner as int;
        proof {
            lemma_monotone_seq_refl(s0);
        }
        let idx = match self.find(q, r) {
            Some(i) => i,
            None => {
                proof {
                    assert(false);
                }
                0
            },
        };
        proof {
            lemma_at_index(s0, idx as int);
        }
        let e1 = (corner + 5) % 6;
        let s1 = self.cells[idx].active_edges[e1];
        let e2 = corner;
        let s2 = self.cells[idx].active_edges[e2];
        proof {
            assert(s1 == edge_at(s0, qi, ri, corner_e1(ci)));
            assert(s2 == edge_at(s0, qi, ri, ci));
        }
        let (dq1, dr1) = direction_offsets(e1);
        let n1q = q + dq1;
        let n1r = r + dr1;
        let (dq2, dr2) = direction_offsets(e2);
        let n2q = q + dq2;
        let n2r = r + dr2;
        let d12 = (corner + 1) % 6;
        let d21 = (corner + 4) % 6;
        let mut s3: u8 = 3;
        let mut s3_target: Option<(i32, i32, usize)> = None;
        match self.find(n1q, n1r) {
            Some(j) => {
                proof {
                    lemma_at_index(s0, j as int);
                }
                s3 = self.cells[j].active_edges[d12];
                s3_target = Some((n1q, n1r, d12));
            },
            None => {
                match self.find(n2q, n2r) {
                    Some(j) => {
                        proof {
                            lemma_at_index(s0, j as int);
                        }
                        s3 = self.cells[j].active_edges[d21];
                        s3_target = Some((n2q, n2r, d21));
                    },
                    None => {},
                }
            },
        }
        proof {
            assert(s3 == vertex_s3(s0, qi, ri, ci));
        }
        let active_count: u32 = (if s1 == 1 {
            1
        } else {
            0
        }) + (if s2 == 1 {
            1
        } else {
            0
        }) + (if s3 == 1 {
            1
        } else {
            0
        });
        let inactive_count: u32 = (if s1 == 2 || s1 == 3 {
            1
        } else {
            0
        }) + (if s2 == 2 || s2 == 3 {
            1
        } else {
            0
        }) + (if s3 == 2 || s3 == 3 {
            1
        } else {
            0
        });
        let neutral_count: u32 = (if s1 == 0 {
            1
        } else {
            0
        }) + (if s2 == 0 {
            1
        } else {
            0
        }) + (if s3 == 0 {
            1
        } else {
            0
        });
        if neutral_count == 1 && (active_count == 2 || inactive_count == 2) {
            assert(vertex_fires(s0, qi, ri, ci));
            if s1 == 0 {
                self.force_edge_off(q, r, e1);
            } else if s2 == 0 {
                self.force_edge_off(q, r, e2);
            } else {
                match s3_target {
                    Some((tq, tr, ti)) => {
                        self.force_edge_off(tq, tr, ti);
                        proof {
                            lemma_skeleton_has_coord(s0, self@);
                        }
                    },
                    None => {
                        proof {
                            assert(false);
                        }
                    },
                }
            }
        } else {
            assert(!vertex_fires(s0, qi, ri, ci));
        }
    }

    /// Forces a present `Neutral` edge to `ForcedOff` (mirroring onto the
    /// neighbor) and re-checks the two corners of that edge, continuing the
    /// cascade. Each such write strictly reduces the number of `Neutral`
    /// edges on the board, which bounds the recursion.
    fn force_edge_off(&mut self, q: i32, r: i32, d: usize)
        requires
            old(self).wf(),
            has_coord(old(self)@, q as int, r as int),
            d < 6,
            edge_at(old(self)@, q as int, r as int, d as int) == 0,
        ensures
            final(self).wf(),
            final(self).spec_radius() == old(self).spec_radius(),
            same_skeleton(old(self)@, final(self)@),
            edges_monotone_seq(old(self)@, final(self)@),
            total_neutrals(final(self)@) < total_neutrals(old(self)@),
            edge_at(final(self)@, q as int, r as int, d as int) == 3,
        decreases total_neutrals(self@), 0int,
    {
        let ghost s0 = self@;
        let ghost qi = q as int;
        let ghost ri = r as int;
        let ghost di = d as int;
        self.write_edge_pair(q, r, d, 3);
        let ghost s1 = self@;
        proof {
            assert(total_neutrals(s1) < total_neutrals(s0));
            lemma_total_neutrals_nonneg(s1);
            lemma_pair_write_monotone(s0, s1, qi, ri, di);
            lemma_skeleton_has_coord(s0, s1);
        }
        self.check_vertex(q, r, d);
        let ghost s2 = self@;
        proof {
            lemma_total_neutrals_nonneg(s2);
            lemma_monotone_seq_trans(s0, s1, s2);
            lemma_skeleton_has_coord(s1, s2);
            lemma_monotone_edge_at(s1, s2, qi, ri, di);
        }
        let d_next = (d + 1) % 6;
        self.check_vertex(q, r, d_next);
        proof {
            let s3 = self@;
            lemma_monotone_seq_trans(s0, s2, s3);
            lemma_skeleton_trans(s0, s1, s2);
            lemma_skeleton_trans(s0, s2, s3);
            lemma_monotone_edge_at(s2, s3, qi, ri, di);
        }
    }
}

/// Whether writing `v` into edge `d` of `(q, r)` makes the corner `d` of
/// that cell fire: the written edge takes the place of the corner's second
/// own edge, while the other two edge states are read from the board as it
/// was before the write (the write itself cannot change them).
pub open spec fn write_fires_corner(s: Seq<Hex>, q: int, r: int, d: int, v: u8) -> bool {
    let s1 = edge_at(s, q, r, corner_e1(d));
    let s3 = vertex_s3(s, q, r, d);
    &&& cnt(s1 == 0) + cnt(v == 0) + cnt(s3 == 0) == 1
    &&& (cnt(s1 == 1) + cnt(v == 1) + cnt(s3 == 1) == 2 || cnt(is_det_off(s1)) + cnt(
        is_det_off(v),
    ) + cnt(is_det_off(s3)) == 2)
}

/// A monotone step keeps a third edge that was already `ForcedOff` at
/// `ForcedOff`.
proof fn lemma_monotone_vertex_s3(s1: Seq<Hex>, s2: Seq<Hex>, q: int, r: int, c: int)
    requires
        coords_unique(s1),
        same_skeleton(s1, s2),
        edges_monotone_seq(s1, s2),
        0 <= c < 6,
        vertex_s3(s1, q, r, c) == 3,
    ensures
        vertex_s3(s2, q, r, c) == 3,
{
    lemma_skeleton_has_coord(s1, s2);
    let n1q = q + dir_dq(corner_e1(c));
    let n1r = r + dir_dr(corner_e1(c));
    let n2q = q + dir_dq(c);
    let n2r = r + dir_dr(c);
    if has_coord(s1, n1q, n1r) {
        lemma_monotone_edge_at(s1, s2, n1q, n1r, (c + 1) % 6);
    } else if has_coord(s1, n2q, n2r) {
        lemma_monotone_edge_at(s1, s2, n2q, n2r, (c + 4) % 6);
    }
}

impl Grid {
    /// Writes edge `edge_index` of the cell at `(q, r)`.
    ///
    /// A silent no-op when the coordinate is absent or the edge already holds
    /// `new_state` (the guard that bounds the cascade). Otherwise the edge is
    /// overwritten, the write is mirrored onto the neighbor sharing the edge,
    /// and the two corners of the edge are re-checked, cascading: any further
    /// edge the cascade touches only ever goes `Neutral` to `ForcedOff`.
    pub fn set_edge_state(&mut self, q: i32, r: i32, edge_index: usize, new_state: u8)
        requires
            old(self).wf(),
            edge_index < 6,
            new_state <= 3,
        ensures
            final(self).wf(),
            final(self).spec_radius() == old(self).spec_radius(),
            same_skeleton(old(self)@, final(self)@),
            forall|a: int, b: int| #[trigger] has_coord(final(self)@, a, b) == has_coord(
                old(self)@,
                a,
                b,
            ),
            !has_coord(old(self)@, q as int, r as int) ==> final(self)@ == old(self)@,
            has_coord(old(self)@, q as int, r as int) && edge_at(
                old(self)@,
                q as int,
                r as int,
                edge_index as int,
            ) == new_state ==> final(self)@ == old(self)@,
            has_coord(old(self)@, q as int, r as int) && new_state != 0 ==> edge_at(
                final(self)@,
                q as int,
                r as int,
                edge_index as int,
            ) == new_state,
            has_coord(old(self)@, q as int, r as int) && new_state == 0 && edge_at(
                old(self)@,
                q as int,
                r as int,
                edge_index as int,
            ) != 0 ==> (edge_at(final(self)@, q as int, r as int, edge_index as int) == 0
                || edge_at(final(self)@, q as int, r as int, edge_index as int) == 3),
            has_coord(old(self)@, q as int, r as int) && has_coord(
                old(self)@,
                q + dir_dq(edge_index as int),
                r + dir_dr(edge_index as int),
            ) ==> edge_at(
                final(self)@,
                q + dir_dq(edge_index as int),
                r + dir_dr(edge_index as int),
                (edge_index as int + 3) % 6,
            ) == edge_at(final(self)@, q as int, r as int, edge_index as int),
            forall|a: int, b: int, k: int|
                has_coord(old(self)@, a, b) && 0 <= k < 6 && !(a == q as int && b == r as int && k
                    == edge_index as int) && !(a == q + dir_dq(edge_index as int) && b == r
                    + dir_dr(edge_index as int) && k == (edge_index as int + 3) % 6)
                    ==> #[trigger] edge_at(final(self)@, a, b, k) == edge_at(old(self)@, a, b, k)
                    || (edge_at(old(self)@, a, b, k) == 0 && edge_at(final(self)@, a, b, k) == 3),
            has_coord(old(self)@, q as int, r as int) && edge_at(
                old(self)@,
                q as int,
                r as int,
                edge_index as int,
            ) != new_state && write_fires_corner(
                old(self)@,
                q as int,
                r as int,
                edge_index as int,
                new_state,
            ) ==> {
                let s1 = edge_at(old(self)@, q as int, r as int, corner_e1(edge_index as int));
                &&& (s1 == 0 ==> edge_at(final(self)@, q as int, r as int, corner_e1(
                    edge_index as int,
                )) == 3)
                &&& (s1 != 0 && new_state == 0 ==> edge_at(
                    final(self)@,
                    q as int,
                    r as int,
                    edge_index as int,
                ) == 3)
                &&& (s1 != 0 && new_state != 0 ==> vertex_s3(
                    final(self)@,
                    q as int,
                    r as int,
                    edge_index as int,
                ) == 3)
            },
    {
        let ghost s0 = self@;
        let ghost qi = q as int;
        let ghost ri = r as int;
        let ghost di = edge_index as int;
        let idx = match self.find(q, r) {
            Some(i) => i,
            None => {
                proof {
                    if has_coord(s0, qi, ri) {
                        assert(false);
                    }
                }
                return ;
            },
        };
        proof {
            lemma_at_index(s0, idx as int);
        }
        if self.cells[idx].active_edges[edge_index] == new_state {
            proof {
                assert(mirror_ok(s0, qi, ri, di));
            }
            return ;
        }
        self.write_edge_pair(q, r, edge_index, new_state);
        let ghost s1 = self@;
        self.check_vertex(q, r, edge_index);
        let ghost s2 = self@;
        let corner2 = (edge_index + 1) % 6;
        self.check_vertex(q, r, corner2);
        proof {
            let s3 = self@;
            lemma_monotone_seq_trans(s1, s2, s3);
            lemma_skeleton_trans(s1, s2, s3);
            lemma_skeleton_trans(s0, s1, s2);
            lemma_skeleton_trans(s0, s2, s3);
            lemma_skeleton_has_coord(s0, s3);
            lemma_monotone_edge_at(s1, s3, qi, ri, di);
            if has_coord(s0, qi + dir_dq(di), ri + dir_dr(di)) {
                lemma_monotone_edge_at(s1, s3, qi + dir_dq(di), ri + dir_dr(di), (di + 3) % 6);
                assert(mirror_ok(s3, qi, ri, di));
            }
            assert forall|a: int, b: int, k: int|
                has_coord(s0, a, b) && 0 <= k < 6 && !(a == qi && b == ri && k == di) && !(a == qi
                    + dir_dq(di) && b == ri + dir_dr(di) && k == (di + 3) % 6)
                    implies #[trigger] edge_at(s3, a, b, k) == edge_at(s0, a, b, k) || (edge_at(
                s0,
                a,
                b,
                k,
            ) == 0 && edge_at(s3, a, b, k) == 3) by {
                assert(edge_at(s1, a, b, k) == edge_at(s0, a, b, k));
                lemma_monotone_edge_at(s1, s3, a, b, k);
            }
            if write_fires_corner(s0, qi, ri, di, new_state) {
                lemma_skeleton_has_coord(s0, s1);
                let e1 = corner_e1(di);
                assert(0 <= e1 < 6 && e1 != di);
                assert(edge_at(s1, qi, ri, e1) == edge_at(s0, qi, ri, e1));
                assert(vertex_s3(s1, qi, ri, di) == vertex_s3(s0, qi, ri, di)) by {
                    let n1q = qi + dir_dq(e1);
                    let n1r = ri + dir_dr(e1);
                    let n2q = qi + dir_dq(di);
                    let n2r = ri + dir_dr(di);
                    if has_coord(s0, n1q, n1r) {
                        assert(!(n1q == qi && n1r == ri));
                        assert(!(n1q == n2q && n1r == n2r));
                        assert(edge_at(s1, n1q, n1r, (di + 1) % 6) == edge_at(
                            s0,
                            n1q,
                            n1r,
                            (di + 1) % 6,
                        ));
                    } else if has_coord(s0, n2q, n2r) {
                        assert((di + 4) % 6 != (di + 3) % 6 && (di + 4) % 6 != di);
                        assert(!(n2q == qi && n2r == ri));
                        assert(edge_at(s1, n2q, n2r, (di + 4) % 6) == edge_at(
                            s0,
                            n2q,
                            n2r,
                            (di + 4) % 6,
                        ));
                    }
                }
                assert(vertex_fires(s1, qi, ri, di));
                let s1val = edge_at(s0, qi, ri, e1);
                if s1val == 0 {
                    assert(edge_at(s2, qi, ri, e1) == 3);
                    lemma_monotone_edge_at(s2, s3, qi, ri, e1);
                } else if new_state == 0 {
                    assert(edge_at(s2, qi, ri, di) == 3);
                    lemma_monotone_edge_at(s2, s3, qi, ri, di);
                } else {
                    assert(vertex_s3(s2, qi, ri, di) == 3);
                    lemma_monotone_vertex_s3(s2, s3, qi, ri, di);
                }
            }
        }
    }
}

/// A mirrored pair-write of `ForcedOff` onto a `Neutral` edge is a monotone
/// step: the written half goes `0 -> 3`, its mirror half was also `0` by the
/// mirror invariant and goes to `3`, and every other slot is untouched.
proof fn lemma_pair_write_monotone(s0: Seq<Hex>, s1: Seq<Hex>, q: int, r: int, d: int)
    requires
        coords_unique(s0),
        mirrored(s0),
        same_skeleton(s0, s1),
        0 <= d < 6,
        has_coord(s0, q, r),
        edge_at(s0, q, r, d) == 0,
        edge_at(s1, q, r, d) == 3,
        has_coord(s0, q + dir_dq(d), r + dir_dr(d)) ==> edge_at(
            s1,
            q + dir_dq(d),
            r + dir_dr(d),
            (d + 3) % 6,
        ) == 3,
        forall|a: int, b: int, kk: int|
            has_coord(s0, a, b) && 0 <= kk < 6 && !(a == q && b == r && kk == d) && !(a == q
                + dir_dq(d) && b == r + dir_dr(d) && kk == (d + 3) % 6) ==> #[trigger] edge_at(
                s1,
                a,
                b,
                kk,
            ) == edge_at(s0, a, b, kk),
    ensures
        edges_monotone_seq(s0, s1),
{
    lemma_skeleton_has_coord(s0, s1);
    assert forall|i: int| 0 <= i < s0.len() implies edges_monotone(
        (#[trigger] s0[i]).active_edges@,
        s1[i].active_edges@,
    ) by {
        let a = s0[i].q as int;
        let b = s0[i].r as int;
        lemma_at_index(s0, i);
        assert(s1[i].q == s0[i].q && s1[i].r == s0[i].r);
        lemma_at_index(s1, i);
        assert forall|k: int| 0 <= k < 6 implies s1[i].active_edges@[k] == s0[i].active_edges@[k]
            || ((#[trigger] s0[i].active_edges@[k]) == 0 && (#[trigger] s1[i].active_edges@[k])
            == 3) by {
            assert(edge_at(s0, a, b, k) == s0[i].active_edges@[k]);
            assert(edge_at(s1, a, b, k) == s1[i].active_edges@[k]);
            if a == q && b == r && k == d {
                assert(edge_at(s0, a, b, k) == 0 && edge_at(s1, a, b, k) == 3);
            } else if a == q + dir_dq(d) && b == r + dir_dr(d) && k == (d + 3) % 6 {
                assert(mirror_ok(s0, q, r, d));
                assert(edge_at(s0, a, b, k) == edge_at(s0, q, r, d));
                assert(edge_at(s1, a, b, k) == 3);
            } else {
                assert(edge_at(s1, a, b, k) == edge_at(s0, a, b, k));
            }
        }
        assert(s0[i].active_edges@.len() == 6 && s1[i].active_edges@.len() == 6);
    }
}

/// Mirror invariant: on a well-formed board, the two halves of every shared
/// physical edge agree — edge `d` of a present cell equals edge `(d + 3) % 6`
/// of the present neighbor across it. Every operation of this library
/// preserves this.
pub proof fn lemma_mirror_invariant(g: Grid, q: int, r: int, d: int)
    requires
        g.wf(),
        0 <= d < 6,
        has_coord(g@, q, r),
        has_coord(g@, q + dir_dq(d), r + dir_dr(d)),
    ensures
        edge_at(g@, q, r, d) == edge_at(g@, q + dir_dq(d), r + dir_dr(d), (d + 3) % 6),
{
    assert(mirror_ok(g@, q, r, d));
}

/// Region state decoded from a cell byte: bit 0 set means `Active`,
/// otherwise `Inactive` (a loaded map never yields `Background`).
pub open spec fn region_of_byte(b: u8) -> u8 {
    if b & 1 == 1 {
        1u8
    } else {
        2u8
    }
}

/// Clue value decoded from a cell byte: bits 1..=3.
pub open spec fn count_of_byte(b: u8) -> u8 {
    (b >> 1) & 7
}

/// Display flag decoded from a cell byte: bit 4.
pub open spec fn show_of_byte(b: u8) -> bool {
    (b >> 4) & 1 == 1
}

/// The cell byte that encodes the given fields.
pub open spec fn encode_cell_byte(active: u8, count: u8, show: bool) -> u8 {
    (if active == 1 {
        1u8
    } else {
        0u8
    }) | (count << 1) | (if show {
        16u8
    } else {
        0u8
    })
}

/// Binary-map round trip: encoding a loadable region state, clue and display
/// flag into a cell byte and decoding that byte returns the same fields.
pub proof fn lemma_cell_byte_round_trip(active: u8, count: u8, show: bool)
    requires
        active == 1 || active == 2,
        count <= 7,
    ensures
        region_of_byte(encode_cell_byte(active, count, show)) == active,
        count_of_byte(encode_cell_byte(active, count, show)) == count,
        show_of_byte(encode_cell_byte(active, count, show)) == show,
{
    let on: u8 = if active == 1 {
        1u8
    } else {
        0u8
    };
    let sh: u8 = if show {
        16u8
    } else {
        0u8
    };
    assert((on == 0 || on == 1) && (sh == 0 || sh == 16) && count <= 7 ==> (((on | (count << 1)
        | sh) & 1 == 1) <==> on == 1) && (((on | (count << 1) | sh) >> 1) & 7 == count) && ((((on
        | (count << 1) | sh) >> 4) & 1 == 1) <==> sh == 16)) by (bit_vector);
}

/// Pointwise equal coordinates transfer every coordinate-level property.
proof fn lemma_same_coords_facts(s1: Seq<Hex>, s2: Seq<Hex>)
    requires
        s1.len() == s2.len(),
        forall|i: int| 0 <= i < s1.len() ==> (#[trigger] s2[i]).q == s1[i].q && s2[i].r == s1[i].r,
    ensures
        forall|a: int, b: int| #[trigger] has_coord(s2, a, b) == has_coord(s1, a, b),
        coords_unique(s1) ==> coords_unique(s2),
        cells_sorted(s1) ==> cells_sorted(s2),
{
    assert forall|a: int, b: int| #[trigger] has_coord(s2, a, b) == has_coord(s1, a, b) by {
        if has_coord(s1, a, b) {
            let w = choose|i: int| 0 <= i < s1.len() && (#[trigger] s1[i]).q == a && s1[i].r == b;
            assert(s2[w].q == a && s2[w].r == b);
        }
        if has_coord(s2, a, b) {
            let w = choose|i: int| 0 <= i < s2.len() && (#[trigger] s2[i]).q == a && s2[i].r == b;
            assert(s1[w].q == a && s1[w].r == b);
        }
    }
    if coords_unique(s1) {
        assert forall|i: int, j: int|
            0 <= i < s2.len() && 0 <= j < s2.len() && i != j implies !((#[trigger] s2[i]).q == (
        #[trigger] s2[j]).q && s2[i].r == s2[j].r) by {
            assert(!(s1[i].q == s1[j].q && s1[i].r == s1[j].r));
        }
    }
    if cells_sorted(s1) {
        assert forall|i: int, j: int| 0 <= i < j < s2.len() implies lex_lt(
            (#[trigger] s2[i]).q as int,
            s2[i].r as int,
            (#[trigger] s2[j]).q as int,
            s2[j].r as int,
        ) by {
            assert(lex_lt(s1[i].q as int, s1[i].r as int, s1[j].q as int, s1[j].r as int));
        }
    }
}

impl Grid {
    /// Replaces the whole board with the one described by a binary map: byte
    /// 0 is the new radius, and each following byte carries one cell's
    /// region flag (bit 0), clue (bits 1..=3) and display flag (bit 4), in
    /// generation order. All edges reset to `Neutral`; cells beyond the end
    /// of the data keep their freshly generated defaults.
    pub fn load_binary_map(&mut self, data: &[u8])
        requires
            data@.len() >= 1,
        ensures
            final(self).wf(),
            final(self).spec_radius() == data@[0] as int,
            final(self)@.len() == 3 * (data@[0] as int) * (data@[0] as int) + 3 * (data@[0] as int)
                + 1,
            forall|i: int|
                0 <= i < final(self)@.len() ==> {
                    let h = #[trigger] final(self)@[i];
                    &&& h.q + h.r + h.s == 0
                    &&& in_bounds(data@[0] as int, h.q as int, h.r as int)
                    &&& (forall|k: int| 0 <= k < 6 ==> h.active_edges@[k] == 0)
                    &&& (i + 1 < data@.len() ==> h.active == region_of_byte(data@[i + 1])
                        && h.target_count == Some(count_of_byte(data@[i + 1])) && h.show_number
                        == show_of_byte(data@[i + 1]))
                    &&& (i + 1 >= data@.len() ==> h.active == 0 && h.target_count is None
                        && !h.show_number)
                },
    {
        let rad8: u8 = data[0];
        let radius: i32 = rad8 as i32;
        let cells = generate_cells(radius);
        self.radius = radius;
        self.cells = cells;
        let ghost g0 = self@;
        let avail: usize = data.len() - 1;
        let n: usize = self.cells.len();
        let m: usize = if avail < n {
            avail
        } else {
            n
        };
        let mut i: usize = 0;
        while i < m
            invariant
                data@.len() >= 1,
                0 <= radius <= MAX_RADIUS,
                radius as int == data@[0] as int,
                m <= n,
                n == g0.len(),
                m as int == if data@.len() - 1 < n as int {
                    data@.len() - 1
                } else {
                    n as int
                },
                i <= m,
                self.spec_radius() == radius as int,
                grid_wf(g0, radius as int),
                forall|j: int| 0 <= j < g0.len() ==> default_cell_ok(#[trigger] g0[j], radius as int),
                self@.len() == g0.len(),
                forall|j: int|
                    0 <= j < g0.len() ==> (#[trigger] self@[j]).q == g0[j].q && self@[j].r
                        == g0[j].r && self@[j].s == g0[j].s && self@[j].active_edges
                        == g0[j].active_edges,
                forall|j: int| i <= j < g0.len() ==> #[trigger] self@[j] == g0[j],
                forall|j: int|
                    0 <= j < i ==> {
                        let h = #[trigger] self@[j];
                        h.active == region_of_byte(data@[j + 1]) && h.target_count == Some(
                            count_of_byte(data@[j + 1]),
                        ) && h.show_number == show_of_byte(data@[j + 1])
                    },
            decreases m - i,
        {
            let b: u8 = data[i + 1];
            let mut h = self.cells[i];
            h.active = if b & 1 == 1 {
                1
            } else {
                2
            };
            h.target_count = Some((b >> 1) & 7);
            h.show_number = (b >> 4) & 1 == 1;
            self.cells[i] = h;
            i += 1;
        }
        proof {
            let s2 = self@;
            assert(forall|j: int|
                0 <= j < g0.len() ==> (#[trigger] s2[j]).q == g0[j].q && s2[j].r == g0[j].r);
            lemma_same_coords_facts(g0, s2);
            assert(cells_wf(s2, radius as int)) by {
                assert forall|j: int| 0 <= j < s2.len() implies hex_wf(#[trigger] s2[j])
                    && in_bounds(radius as int, s2[j].q as int, s2[j].r as int) by {
                    assert(default_cell_ok(g0[j], radius as int));
                    if j < m {
                        let b = data@[j + 1];
                        assert((b >> 1) & 7 <= 7) by (bit_vector);
                    }
                }
            }
            assert(cells_complete(s2, radius as int)) by {
                assert forall|a: int, b: int| in_bounds(radius as int, a, b) implies #[trigger] has_coord(
                    s2,
                    a,
                    b,
                ) by {
                    assert(has_coord(g0, a, b));
                }
            }
            assert(mirrored(s2)) by {
                assert forall|a: int, b: int, d: int| 0 <= d < 6 implies #[trigger] mirror_ok(
                    s2,
                    a,
                    b,
                    d,
                ) by {
                    lemma_edge_at_same(g0, s2, a, b, d);
                    lemma_edge_at_same(g0, s2, a + dir_dq(d), b + dir_dr(d), (d + 3) % 6);
                    assert(mirror_ok(g0, a, b, d));
                }
            }
            assert forall|j: int| 0 <= j < s2.len() implies {
                let h = #[trigger] s2[j];
                forall|k: int| 0 <= k < 6 ==> h.active_edges@[k] == 0
            } by {
                assert(default_cell_ok(g0[j], radius as int));
                assert(s2[j].active_edges == g0[j].active_edges);
                assert(forall|k: int|
                    0 <= k < 6 ==> s2[j].active_edges@[k] == g0[j].active_edges@[k]);
            }
        }
    }
}

/// Executable form of the direction table.
fn direction_offsets(direction: usize) -> (res: (i32, i32))
    requires
        direction < 6,
    ensures
        res.0 as int == dir_dq(direction as int),
        res.1 as int == dir_dr(direction as int),
{
    match direction {
        0 => (1, 0),
        1 => (0, 1),
        2 => (-1, 1),
        3 => (-1, 0),
        4 => (0, -1),
        _ => (1, -1),
    }
}

} // verus!
