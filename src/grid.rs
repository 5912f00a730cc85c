use vstd::prelude::*;

verus! {

/// One coordinate of a cell.
pub type GridIxType = u16;

/// A (row, column) pair.
pub type GridIxT = (GridIxType, GridIxType);

/// Flat offset of a cell in a row-major grid with `cols` columns.
pub open spec fn flat_offset(pos: GridIxT, cols: GridIxType) -> int {
    pos.0 as int * cols as int + pos.1 as int
}

/// A cell of an elevation grid: its coordinates and its flat offset.
#[derive(Clone, Copy, Debug)]
pub struct GridIx {
    pub pos: GridIxT,
    pub ix: usize,
}

impl PartialEq for GridIx {
    fn eq(&self, other: &GridIx) -> (r: bool)
        ensures
            r == (self.ix == other.ix),
    {
        self.ix == other.ix
    }
}

impl vstd::std_specs::cmp::PartialEqSpecImpl for GridIx {
    open spec fn obeys_eq_spec() -> bool {
        true
    }

    open spec fn eq_spec(&self, other: &GridIx) -> bool {
        self.ix == other.ix
    }
}

impl Eq for GridIx {

}

impl GridIx {
    /// The cell lies in a grid of `shape` and its offset is the row-major one.
    pub open spec fn wf_in(self, shape: GridIxT) -> bool {
        &&& self.pos.0 < shape.0
        &&& self.pos.1 < shape.1
        &&& self.ix as int == flat_offset(self.pos, shape.1)
    }

    pub fn new(pos: GridIxT, ix: usize) -> (r: GridIx)
        ensures
            r.pos == pos,
            r.ix == ix,
    {
        GridIx { pos, ix }
    }

    /// The cell at `pos` of a grid of `grid_shape`, with its row-major offset.
    pub fn from_grid(pos: GridIxT, grid_shape: GridIxT) -> (r: GridIx)
        ensures
            r.pos == pos,
            r.ix as int == flat_offset(pos, grid_shape.1),
    {
        proof {
            lemma_offset_fits(pos, grid_shape.1);
        }
        GridIx { pos, ix: pos.0 as usize * grid_shape.1 as usize + pos.1 as usize }
    }
}

proof fn lemma_offset_fits(pos: GridIxT, cols: GridIxType)
    ensures
        0 <= flat_offset(pos, cols) <= 0xffff * 0xffff + 0xffff,
        pos.0 as int * cols as int <= 0xffff * 0xffff,
{
    assert(pos.0 as int * cols as int <= 0xffff * 0xffff) by (nonlinear_arith)
        requires
            pos.0 <= 0xffff,
            cols <= 0xffff,
    ;
    assert(0 <= pos.0 as int * cols as int) by (nonlinear_arith);
}

/// Row-major division and remainder recover a cell from its offset.
proof fn lemma_div_mod_offset(index: int, cols: int)
    requires
        cols > 0,
        index >= 0,
    ensures
        index == (index / cols) * cols + index % cols,
        0 <= index % cols < cols,
        index / cols >= 0,
{
    vstd::arithmetic::div_mod::lemma_fundamental_div_mod(index, cols);
    vstd::arithmetic::mul::lemma_mul_is_commutative(cols, index / cols);
    vstd::arithmetic::div_mod::lemma_mod_bound(index, cols);
    vstd::arithmetic::div_mod::lemma_div_pos_is_pos(index, cols);
}

/// The cell whose row-major offset in a grid of `grid_shape` is `index`.
pub fn to_ix(grid_shape: GridIxT, index: usize) -> (r: GridIx)
    requires
        grid_shape.1 > 0,
        index < grid_shape.0 as int * grid_shape.1 as int,
    ensures
        r.wf_in(grid_shape),
        r.ix == index,
{
    let cols = grid_shape.1 as usize;
    proof {
        lemma_div_mod_offset(index as int, cols as int);
        let q = index as int / cols as int;
        if q >= grid_shape.0 {
            assert(q * cols as int >= grid_shape.0 as int * cols as int) by (nonlinear_arith)
                requires
                    q >= grid_shape.0,
                    cols > 0,
            ;
        }
    }
    let row = (index / cols) as u16;
    let col = (index % cols) as u16;
    GridIx::new((row, col), index)
}

/// Signed difference `a - b` of two cells, per coordinate.
pub fn l2_diff(a: &GridIxT, b: &GridIxT) -> (r: (i32, i32))
    ensures
        r.0 == a.0 as int - b.0 as int,
        r.1 == a.1 as int - b.1 as int,
{
    (a.0 as i32 - b.0 as i32, a.1 as i32 - b.1 as i32)
}

/// Two cells form a straight segment when they share a row or a column.
pub open spec fn straight(a: GridIxT, b: GridIxT) -> bool {
    a.0 == b.0 || a.1 == b.1
}

pub fn is_straight(a: &GridIxT, b: &GridIxT) -> (r: bool)
    ensures
        r == straight(*a, *b),
{
    a.0 == b.0 || a.1 == b.1
}

/// `point` lies on the straight segment from `start` to `end`, ends included.
pub open spec fn in_line(point: GridIxT, start: GridIxT, end: GridIxT) -> bool {
    if point.0 == start.0 && point.0 == end.0 {
        (start.1 <= point.1 <= end.1) || (end.1 <= point.1 <= start.1)
    } else if point.1 == start.1 && point.1 == end.1 {
        (start.0 <= point.0 <= end.0) || (end.0 <= point.0 <= start.0)
    } else {
        false
    }
}

pub fn is_in_line(point: &GridIxT, start: &GridIxT, end: &GridIxT) -> (r: bool)
    ensures
        r == in_line(*point, *start, *end),
{
    if point.0 == start.0 && point.0 == end.0 {
        let lo = if start.1 <= end.1 { start.1 } else { end.1 };
        let hi = if start.1 <= end.1 { end.1 } else { start.1 };
        lo <= point.1 && point.1 <= hi
    } else if point.1 == start.1 && point.1 == end.1 {
        let lo = if start.0 <= end.0 { start.0 } else { end.0 };
        let hi = if start.0 <= end.0 { end.0 } else { start.0 };
        lo <= point.0 && point.0 <= hi
    } else {
        false
    }
}

/// Two optional references name the same cell (or are both absent).
pub open spec fn same_reference(a: Option<GridIx>, b: Option<GridIx>) -> bool {
    match (a, b) {
        (None, None) => true,
        (Some(x), Some(y)) => x.ix == y.ix,
        _ => false,
    }
}

pub fn is_same_reference(a: &Option<GridIx>, b: &Option<GridIx>) -> (r: bool)
    ensures
        r == same_reference(*a, *b),
{
    match (a, b) {
        (None, None) => true,
        (Some(x), Some(y)) => x.ix == y.ix,
        _ => false,
    }
}

/// The common ancestor of two neighbours, from which both are reached in one
/// straight glide: the shared reference, or the reference of one neighbour when
/// the other neighbour's reference lies on its straight segment.
pub open spec fn paths_intersection(
    ix_1: GridIx,
    ref_1: Option<GridIx>,
    ix_2: GridIx,
    ref_2: Option<GridIx>,
) -> Option<GridIx> {
    if same_reference(ref_1, ref_2) {
        ref_1
    } else {
        match (ref_1, ref_2) {
            (Some(a), Some(b)) => {
                if straight(ix_1.pos, a.pos) && in_line(b.pos, ix_1.pos, a.pos) {
                    ref_2
                } else if straight(ix_2.pos, b.pos) && in_line(a.pos, ix_2.pos, b.pos) {
                    ref_1
                } else {
                    None
                }
            },
            _ => None,
        }
    }
}

pub fn ref_paths_intersection(
    ix_1: &GridIx,
    ref_1: &Option<GridIx>,
    ix_2: &GridIx,
    ref_2: &Option<GridIx>,
) -> (r: Option<GridIx>)
    ensures
        r == paths_intersection(*ix_1, *ref_1, *ix_2, *ref_2),
{
    if is_same_reference(ref_1, ref_2) {
        return *ref_1;
    }
    match (ref_1, ref_2) {
        (Some(a), Some(b)) => {
            if is_straight(&ix_1.pos, &a.pos) && is_in_line(&b.pos, &ix_1.pos, &a.pos) {
                *ref_2
            } else if is_straight(&ix_2.pos, &b.pos) && is_in_line(&a.pos, &ix_2.pos, &b.pos) {
                *ref_1
            } else {
                None
            }
        },
        _ => None,
    }
}

/// The rook neighbours of `pos` inside a grid of `shape`, in the order up, left,
/// down, right.
pub open spec fn neighbor_positions(pos: GridIxT, shape: GridIxT) -> Seq<GridIxT> {
    let up: Seq<GridIxT> = if pos.0 > 0 { seq![((pos.0 - 1) as u16, pos.1)] } else { seq![] };
    let left: Seq<GridIxT> = if pos.1 > 0 { seq![(pos.0, (pos.1 - 1) as u16)] } else { seq![] };
    let down: Seq<GridIxT> = if pos.0 + 1 < shape.0 { seq![((pos.0 + 1) as u16, pos.1)] } else { seq![] };
    let right: Seq<GridIxT> = if pos.1 + 1 < shape.1 { seq![(pos.0, (pos.1 + 1) as u16)] } else { seq![] };
    up + left + down + right
}

pub fn get_neighbor_indices(ix: &GridIx, grid_shape: GridIxT) -> (r: Vec<GridIx>)
    requires
        ix.pos.0 < grid_shape.0,
        ix.pos.1 < grid_shape.1,
    ensures
        r@.len() == neighbor_positions(ix.pos, grid_shape).len(),
        forall|i: int|
            0 <= i < r@.len() ==> r@[i].pos == neighbor_positions(ix.pos, grid_shape)[i]
                && #[trigger] r@[i].wf_in(grid_shape),
{
    let mut result: Vec<GridIx> = Vec::with_capacity(4);
    let ghost pos = ix.pos;
    let ghost up: Seq<GridIxT> = if pos.0 > 0 { seq![((pos.0 - 1) as u16, pos.1)] } else { seq![] };
    let ghost left: Seq<GridIxT> = if pos.1 > 0 { seq![(pos.0, (pos.1 - 1) as u16)] } else { seq![] };
    let ghost down: Seq<GridIxT> = if pos.0 + 1 < grid_shape.0 { seq![((pos.0 + 1) as u16, pos.1)] } else { seq![] };
    let ghost right: Seq<GridIxT> = if pos.1 + 1 < grid_shape.1 { seq![(pos.0, (pos.1 + 1) as u16)] } else { seq![] };
    if ix.pos.0 > 0 {
        result.push(GridIx::from_grid((ix.pos.0 - 1, ix.pos.1), grid_shape));
    }
    assert(result@.map_values(|g: GridIx| g.pos) =~= up);
    if ix.pos.1 > 0 {
        result.push(GridIx::from_grid((ix.pos.0, ix.pos.1 - 1), grid_shape));
    }
    assert(result@.map_values(|g: GridIx| g.pos) =~= up + left);
    if ix.pos.0 < grid_shape.0 - 1 {
        result.push(GridIx::from_grid((ix.pos.0 + 1, ix.pos.1), grid_shape));
    }
    assert(result@.map_values(|g: GridIx| g.pos) =~= up + left + down);
    if ix.pos.1 < grid_shape.1 - 1 {
        result.push(GridIx::from_grid((ix.pos.0, ix.pos.1 + 1), grid_shape));
    }
    assert(result@.map_values(|g: GridIx| g.pos) =~= up + left + down + right);
    assert forall|i: int| 0 <= i < result@.len() implies result@[i].pos == neighbor_positions(
        ix.pos,
        grid_shape,
    )[i] by {
        assert(result@.map_values(|g: GridIx| g.pos)[i] == result@[i].pos);
    }
    result
}


/// The ancestor reached from `start` by following `references` while each
/// reference shares a row or a column with `target`, taking at most `fuel`
/// steps.
pub open spec fn straight_ancestor(
    target: GridIxT,
    start: GridIx,
    references: Seq<Option<GridIx>>,
    fuel: nat,
) -> GridIx
    decreases fuel,
{
    if fuel == 0 || start.ix >= references.len() {
        start
    } else {
        match references[start.ix as int] {
            Some(r) => if straight(r.pos, target) {
                straight_ancestor(target, r, references, (fuel - 1) as nat)
            } else {
                start
            },
            None => start,
        }
    }
}

/// Collapses a reference for `ix`: walks from `neighbor` up its chain of
/// references (`references` holds the reference of each cell by offset) while
/// the next ancestor is straight from `ix`, and returns the farthest one. A
/// chain of references ends at the start cell, so it has fewer steps than
/// there are cells.
pub fn get_straight_line_ref(ix: &GridIx, neighbor: GridIx, references: &Vec<Option<GridIx>>) -> (r: GridIx)
    ensures
        r == straight_ancestor(ix.pos, neighbor, references@, references@.len()),
{
    let mut n = neighbor;
    let mut fuel = references.len();
    while fuel > 0
        invariant
            straight_ancestor(ix.pos, n, references@, fuel as nat) == straight_ancestor(
                ix.pos,
                neighbor,
                references@,
                references@.len(),
            ),
        ensures
            n == straight_ancestor(ix.pos, neighbor, references@, references@.len()),
        decreases fuel,
    {
        if n.ix >= references.len() {
            break;
        }
        match references[n.ix] {
            Some(reference) => {
                if is_straight(&reference.pos, &ix.pos) {
                    n = reference;
                } else {
                    break;
                }
            },
            None => {
                break;
            },
        }
        fuel = fuel - 1;
    }
    n
}

/// Moves a cell of a grid into the sub-grid whose first row is `lats.0` and
/// first column is `lons.0`, and which has `grid_shape`.
pub open spec fn shifted(pos: GridIxT, lats: GridIxT, lons: GridIxT) -> GridIxT {
    ((pos.0 - lats.0) as u16, (pos.1 - lons.0) as u16)
}

/// The cell `ix` in the sub-grid cut out at rows `lats` and columns `lons`.
pub fn reindex_ix(ix: &GridIx, lats: GridIxT, lons: GridIxT, grid_shape: GridIxT) -> (r: GridIx)
    requires
        lats.0 <= ix.pos.0,
        lons.0 <= ix.pos.1,
    ensures
        r.pos == shifted(ix.pos, lats, lons),
        r.ix as int == flat_offset(r.pos, grid_shape.1),
{
    GridIx::from_grid((ix.pos.0 - lats.0, ix.pos.1 - lons.0), grid_shape)
}

/// A reference in the sub-grid cut out at rows `lats` and columns `lons`.
pub fn reindex_reference(
    reference: &Option<GridIx>,
    lats: GridIxT,
    lons: GridIxT,
    grid_shape: GridIxT,
) -> (r: Option<GridIx>)
    requires
        reference matches Some(g) ==> lats.0 <= g.pos.0 && lons.0 <= g.pos.1,
    ensures
        r is Some <==> reference is Some,
        reference matches Some(g) ==> r->0.pos == shifted(g.pos, lats, lons) && r->0.ix as int == flat_offset(
            r->0.pos,
            grid_shape.1,
        ),
{
    match reference {
        Some(g) => Some(reindex_ix(g, lats, lons, grid_shape)),
        None => None,
    }
}

/// Re-indexing translates: a reference lands at its old position less the
/// corner of the cut, and cells keep their offsets from one another.
pub proof fn lemma_reindex_translates(a: GridIxT, b: GridIxT, lats: GridIxT, lons: GridIxT)
    requires
        lats.0 <= a.0,
        lons.0 <= a.1,
        lats.0 <= b.0,
        lons.0 <= b.1,
    ensures
        shifted(a, lats, lons).0 + lats.0 == a.0,
        shifted(a, lats, lons).1 + lons.0 == a.1,
        shifted(a, lats, lons).0 - shifted(b, lats, lons).0 == a.0 - b.0,
        shifted(a, lats, lons).1 - shifted(b, lats, lons).1 == a.1 - b.1,
        straight(shifted(a, lats, lons), shifted(b, lats, lons)) == straight(a, b),
{
}

/// The smallest box of rows and columns that holds every cell of `cells`, as
/// `((first row, last row), (first column, last column))`.
pub open spec fn is_bounding_box(cells: Seq<GridIxT>, b: (GridIxT, GridIxT)) -> bool {
    &&& forall|i: int| 0 <= i < cells.len() ==> b.0.0 <= (#[trigger] cells[i]).0 <= b.0.1 && b.1.0 <= cells[i].1 <= b.1.1
    &&& exists|i: int| 0 <= i < cells.len() && (#[trigger] cells[i]).0 == b.0.0
    &&& exists|i: int| 0 <= i < cells.len() && (#[trigger] cells[i]).0 == b.0.1
    &&& exists|i: int| 0 <= i < cells.len() && (#[trigger] cells[i]).1 == b.1.0
    &&& exists|i: int| 0 <= i < cells.len() && (#[trigger] cells[i]).1 == b.1.1
}

/// The bounding box of `cells`, or `None` when there are none.
pub fn bounding_box(cells: &Vec<GridIxT>) -> (r: Option<(GridIxT, GridIxT)>)
    ensures
        r is None <==> cells@.len() == 0,
        r matches Some(b) ==> is_bounding_box(cells@, b),
{
    if cells.len() == 0 {
        return None;
    }
    let mut lat_min = cells[0].0;
    let mut lat_max = cells[0].0;
    let mut lon_min = cells[0].1;
    let mut lon_max = cells[0].1;
    let mut i: usize = 1;
    while i < cells.len()
        invariant
            1 <= i <= cells@.len(),
            forall|k: int| 0 <= k < i ==> lat_min <= (#[trigger] cells@[k]).0 <= lat_max && lon_min <= cells@[k].1 <= lon_max,
            exists|k: int| 0 <= k < i && (#[trigger] cells@[k]).0 == lat_min,
            exists|k: int| 0 <= k < i && (#[trigger] cells@[k]).0 == lat_max,
            exists|k: int| 0 <= k < i && (#[trigger] cells@[k]).1 == lon_min,
            exists|k: int| 0 <= k < i && (#[trigger] cells@[k]).1 == lon_max,
        decreases cells@.len() - i,
    {
        let c = cells[i];
        if c.0 < lat_min {
            lat_min = c.0;
        }
        if c.0 > lat_max {
            lat_max = c.0;
        }
        if c.1 < lon_min {
            lon_min = c.1;
        }
        if c.1 > lon_max {
            lon_max = c.1;
        }
        i = i + 1;
    }
    Some(((lat_min, lat_max), (lon_min, lon_max)))
}

} // verus!
