//! The rings around the valid pixels of a raster.
//!
//! The raster is seen with a border of invalid pixels. Wherever a valid and an invalid
//! pixel are neighbors, a point of a ring stands in the middle between them, on the side
//! that they share. Four pixels that meet in a corner form a cell; two points that are
//! sides of one cell follow each other in a ring. Where two valid pixels of a cell meet in
//! the corner alone, the cell has four points; the two around an invalid pixel follow each
//! other, so that the valid ones stay together.
use crate::arith::lemma_mul_bound;
use crate::raster::lemma_cell2;
use vstd::prelude::*;

verus! {

/// The side between a pixel and its neighbor on the right, where `across` is set, or
/// below. Rows and columns are counted with the border.
#[derive(Debug, Clone, Copy, PartialEq, Eq, Structural)]
pub struct Side {
    pub across: bool,
    pub row: usize,
    pub col: usize,
}

/// The four pixels around a corner, named by the upper left one.
#[derive(Debug, Clone, Copy, PartialEq, Eq, Structural)]
pub struct Cell {
    pub row: usize,
    pub col: usize,
}

/// Valid pixels, row by row: those whose byte is not zero.
pub struct Bitmap {
    pub valid: Seq<u8>,
    pub width: nat,
    pub height: nat,
}

impl Bitmap {
    /// Whether a pixel is valid, rows and columns counted with the border.
    pub open spec fn pixel(self, row: int, col: int) -> bool {
        &&& 1 <= row <= self.height
        &&& 1 <= col <= self.width
        &&& self.valid[(row - 1) * self.width + (col - 1)] != 0
    }

    /// Whether a valid and an invalid pixel share a side.
    pub open spec fn border(self, side: Side) -> bool {
        let row = side.row as int;
        let col = side.col as int;
        if side.across {
            self.pixel(row, col) != self.pixel(row, col + 1)
        } else {
            self.pixel(row, col) != self.pixel(row + 1, col)
        }
    }

    /// Whether of the pixels of a cell two are valid that share no side.
    pub open spec fn diagonal(self, row: int, col: int) -> bool {
        &&& self.pixel(row, col) == self.pixel(row + 1, col + 1)
        &&& self.pixel(row, col + 1) == self.pixel(row + 1, col)
        &&& self.pixel(row, col) != self.pixel(row, col + 1)
    }

    /// Whether an invalid pixel lies at both sides.
    pub open spec fn around_invalid(self, side: Side, other: Side) -> bool {
        exists|row: int, col: int|
            #![trigger touches(side, row, col), touches(other, row, col)]
            touches(side, row, col) && touches(other, row, col) && !self.pixel(row, col)
    }

    /// Whether two points of a cell follow each other in a ring: they are all its points, or
    /// lie around the same invalid pixel.
    pub open spec fn paired(self, cell: Cell, side: Side, other: Side) -> bool {
        &&& self.border(side)
        &&& self.border(other)
        &&& side != other
        &&& has_side(cell, side)
        &&& has_side(cell, other)
        &&& self.diagonal(cell.row as int, cell.col as int) ==> self.around_invalid(side, other)
    }

    /// Whether two points follow each other in a ring.
    pub open spec fn joined(self, side: Side, other: Side) -> bool {
        exists|cell: Cell| #[trigger] self.paired(cell, side, other)
    }

    /// Whether points form a ring: they are different, and each is followed by the next
    /// one, the last by the first.
    #[verifier::opaque]
    pub open spec fn is_ring(self, ring: Seq<Side>) -> bool {
        &&& ring.len() >= 3
        &&& ring.no_duplicates()
        &&& forall|i: int| 0 <= i < ring.len() ==> self.border(#[trigger] ring[i])
        &&& forall|i: int|
            0 <= i < ring.len() ==> self.joined(#[trigger] ring[i], ring[following(ring, i)])
    }
}

/// The place of the next point in a ring.
pub open spec fn following(ring: Seq<Side>, i: int) -> int {
    if i + 1 == ring.len() {
        0
    } else {
        i + 1
    }
}

/// Whether a side lies between two pixels of a cell.
pub open spec fn has_side(cell: Cell, side: Side) -> bool {
    if side.across {
        side.col == cell.col && (side.row == cell.row || side.row == cell.row + 1)
    } else {
        side.row == cell.row && (side.col == cell.col || side.col == cell.col + 1)
    }
}

/// Whether a pixel is one of the two that share a side.
pub open spec fn touches(side: Side, row: int, col: int) -> bool {
    if side.across {
        row == side.row && (col == side.col || col == side.col + 1)
    } else {
        col == side.col && (row == side.row || row == side.row + 1)
    }
}

/// Where a point stands, in half pixels from the upper left corner of the border.
pub open spec fn point_of(side: Side) -> (int, int) {
    if side.across {
        (2 * side.col + 1, 2 * side.row as int)
    } else {
        (2 * side.col as int, 2 * side.row + 1)
    }
}

/// The point of a cell that follows a point.
#[verifier::opaque]
spec fn partner(map: Bitmap, cell: Cell, side: Side) -> Side {
    let top = Side { across: true, row: cell.row, col: cell.col };
    let right = Side { across: false, row: cell.row, col: (cell.col + 1) as usize };
    let bottom = Side { across: true, row: (cell.row + 1) as usize, col: cell.col };
    let left = Side { across: false, row: cell.row, col: cell.col };
    if map.diagonal(cell.row as int, cell.col as int) {
        if map.pixel(cell.row as int, cell.col as int) {
            if side == top {
                right
            } else if side == right {
                top
            } else if side == bottom {
                left
            } else {
                bottom
            }
        } else {
            if side == top {
                left
            } else if side == left {
                top
            } else if side == bottom {
                right
            } else {
                bottom
            }
        }
    } else if map.border(top) && top != side {
        top
    } else if map.border(right) && right != side {
        right
    } else if map.border(bottom) && bottom != side {
        bottom
    } else {
        left
    }
}

/// The other cell that a side belongs to.
spec fn other_cell(side: Side, cell: Cell) -> Cell {
    if side.across {
        if cell.row == side.row {
            Cell { row: (side.row - 1) as usize, col: side.col }
        } else {
            Cell { row: side.row, col: side.col }
        }
    } else {
        if cell.col == side.col {
            Cell { row: side.row, col: (side.col - 1) as usize }
        } else {
            Cell { row: side.row, col: side.col }
        }
    }
}

/// Whether a cell lies within the raster with its border.
pub open spec fn cell_inside(map: Bitmap, cell: Cell) -> bool {
    cell.row <= map.height && cell.col <= map.width
}

/// The raster with its border can be addressed.
pub open spec fn addressable(map: Bitmap) -> bool {
    &&& map.width + 2 <= usize::MAX
    &&& map.height + 2 <= usize::MAX
}

proof fn lemma_border_side(map: Bitmap, side: Side)
    requires
        map.border(side),
        addressable(map),
    ensures
        side.row <= map.height,
        side.col <= map.width,
        side.across ==> 1 <= side.row,
        !side.across ==> 1 <= side.col,
{
}

/// A point belongs to two cells, one of which is the other cell of the other.
proof fn lemma_cells(map: Bitmap, side: Side, cell: Cell)
    requires
        map.border(side),
        addressable(map),
        has_side(cell, side),
        cell_inside(map, cell),
    ensures
        has_side(other_cell(side, cell), side),
        cell_inside(map, other_cell(side, cell)),
        other_cell(side, cell) != cell,
        forall|c: Cell| #[trigger] has_side(c, side) ==> c == cell || c == other_cell(side, cell),
{
    lemma_border_side(map, side);
}

/// In a cell with a point one point follows it, and that is followed by the first.
proof fn lemma_partner(map: Bitmap, cell: Cell, side: Side)
    requires
        map.border(side),
        addressable(map),
        has_side(cell, side),
        cell_inside(map, cell),
    ensures
        map.border(partner(map, cell, side)),
        has_side(cell, partner(map, cell, side)),
        partner(map, cell, side) != side,
        partner(map, cell, partner(map, cell, side)) == side,
        map.paired(cell, side, partner(map, cell, side)),
        map.joined(side, partner(map, cell, side)),
        map.joined(partner(map, cell, side), side),
        forall|other: Side|
            #[trigger] map.paired(cell, side, other) ==> other == partner(map, cell, side),
{
    let row = cell.row as int;
    let col = cell.col as int;
    let found = partner(map, cell, side);
    reveal(partner);
    if map.diagonal(row, col) {
        lemma_diagonal_partner(map, cell, side);
    }
    assert(map.paired(cell, side, found));
    assert(map.paired(cell, found, side));
}

/// In a cell where valid pixels meet in the corner alone, the points around one invalid
/// pixel follow each other.
proof fn lemma_diagonal_partner(map: Bitmap, cell: Cell, side: Side)
    requires
        map.border(side),
        addressable(map),
        has_side(cell, side),
        cell_inside(map, cell),
        map.diagonal(cell.row as int, cell.col as int),
    ensures
        map.around_invalid(side, partner(map, cell, side)),
        map.around_invalid(partner(map, cell, side), side),
        forall|other: Side|
            #[trigger] map.paired(cell, side, other) ==> other == partner(map, cell, side),
{
    let row = cell.row as int;
    let col = cell.col as int;
    let found = partner(map, cell, side);
    reveal(partner);
    let corner = if map.pixel(row, col) {
        if side.across && side.row == row || !side.across && side.col == col + 1 {
            (row, col + 1)
        } else {
            (row + 1, col)
        }
    } else {
        if side.across && side.row == row || !side.across && side.col == col {
            (row, col)
        } else {
            (row + 1, col + 1)
        }
    };
    assert(touches(side, corner.0, corner.1) && touches(found, corner.0, corner.1));
    assert(!map.pixel(corner.0, corner.1));
}

/// Two different cells share one side at most.
proof fn lemma_shared_side(a: Cell, b: Cell, side: Side, other: Side)
    requires
        a != b,
        has_side(a, side),
        has_side(b, side),
        has_side(a, other),
        has_side(b, other),
    ensures
        side == other,
{
}

/// Which points have been visited.
struct Marks {
    cols: usize,
    rows: usize,
    across: Vec<bool>,
    down: Vec<bool>,
}

/// How many entries are not set.
spec fn unset(marks: Seq<bool>) -> nat
    decreases marks.len(),
{
    if marks.len() == 0 {
        0
    } else {
        unset(marks.drop_last()) + (if marks.last() {
            0nat
        } else {
            1nat
        })
    }
}

proof fn lemma_unset(marks: Seq<bool>, at: int)
    requires
        0 <= at < marks.len(),
        !marks[at],
    ensures
        unset(marks.update(at, true)) + 1 == unset(marks),
    decreases marks.len(),
{
    let changed = marks.update(at, true);
    if at == marks.len() - 1 {
        assert(changed.drop_last() =~= marks.drop_last());
    } else {
        lemma_unset(marks.drop_last(), at);
        assert(changed.drop_last() =~= marks.drop_last().update(at, true));
    }
}

impl Marks {
    spec fn well_formed(&self) -> bool {
        &&& self.across@.len() == self.rows * self.cols
        &&& self.down@.len() == self.rows * self.cols
    }

    spec fn has(&self, side: Side) -> bool {
        side.row < self.rows && side.col < self.cols
    }

    spec fn marked(&self, side: Side) -> bool {
        let at = side.row * self.cols + side.col;
        if side.across {
            self.across@[at]
        } else {
            self.down@[at]
        }
    }

    spec fn left(&self) -> nat {
        unset(self.across@) + unset(self.down@)
    }

    fn new(rows: usize, cols: usize) -> (marks: Marks)
        requires
            rows * cols <= usize::MAX,
        ensures
            marks.well_formed(),
            marks.rows == rows,
            marks.cols == cols,
            forall|side: Side| marks.has(side) ==> !#[trigger] marks.marked(side),
    {
        let count: usize = rows * cols;
        let mut across: Vec<bool> = Vec::new();
        let mut down: Vec<bool> = Vec::new();
        let mut i: usize = 0;
        while i < count
            invariant
                i <= count,
                across@.len() == i,
                down@.len() == i,
                forall|j: int| 0 <= j < i ==> !#[trigger] across@[j],
                forall|j: int| 0 <= j < i ==> !#[trigger] down@[j],
            decreases count - i,
        {
            across.push(false);
            down.push(false);
            i = i + 1;
        }
        let marks = Marks { cols, rows, across, down };
        proof {
            assert forall|side: Side| marks.has(side) implies !#[trigger] marks.marked(side) by {
                lemma_cell2(rows as int, cols as int, side.row as int, side.col as int);
            }
        }
        marks
    }

    fn is_marked(&self, side: Side) -> (marked: bool)
        requires
            self.well_formed(),
            self.has(side),
        ensures
            marked == self.marked(side),
    {
        let length: usize = self.across.len();
        proof {
            lemma_cell2(self.rows as int, self.cols as int, side.row as int, side.col as int);
            lemma_mul_bound(
                side.row as int,
                self.cols as int,
                self.rows as int,
                self.cols as int,
            );
        }
        let at: usize = side.row * self.cols + side.col;
        if side.across {
            self.across[at]
        } else {
            self.down[at]
        }
    }

    fn mark(&mut self, side: Side)
        requires
            old(self).well_formed(),
            old(self).has(side),
            !old(self).marked(side),
        ensures
            final(self).well_formed(),
            final(self).rows == old(self).rows,
            final(self).cols == old(self).cols,
            final(self).left() + 1 == old(self).left(),
            forall|other: Side|
                final(self).has(other) ==> #[trigger] final(self).marked(other) == (old(self).marked(
                    other,
                ) || other == side),
    {
        let length: usize = self.across.len();
        let ghost rows = self.rows as int;
        let ghost cols = self.cols as int;
        proof {
            lemma_cell2(rows, cols, side.row as int, side.col as int);
            lemma_mul_bound(side.row as int, cols, rows, cols);
        }
        let at: usize = side.row * self.cols + side.col;
        if side.across {
            proof {
                lemma_unset(self.across@, at as int);
            }
            self.across.set(at, true);
        } else {
            proof {
                lemma_unset(self.down@, at as int);
            }
            self.down.set(at, true);
        }
        proof {
            assert forall|other: Side| self.has(other) implies #[trigger] self.marked(other) == (old(
                self,
            ).marked(other) || other == side) by {
                lemma_cell2(rows, cols, other.row as int, other.col as int);
            }
        }
    }
}

fn pixel(valid: &[u8], width: usize, height: usize, row: usize, col: usize) -> (set: bool)
    requires
        height * width <= valid@.len(),
    ensures
        set == (Bitmap { valid: valid@, width: width as nat, height: height as nat }).pixel(
            row as int,
            col as int,
        ),
{
    let length: usize = valid.len();
    if row < 1 || row > height || col < 1 || col > width {
        return false;
    }
    proof {
        lemma_cell2(height as int, width as int, row - 1, col - 1);
        lemma_mul_bound(row - 1, width as int, height as int, width as int);
    }
    valid[(row - 1) * width + (col - 1)] != 0
}

fn is_border(valid: &[u8], width: usize, height: usize, side: Side) -> (border: bool)
    requires
        height * width <= valid@.len(),
        side.row < usize::MAX,
        side.col < usize::MAX,
    ensures
        border == (Bitmap { valid: valid@, width: width as nat, height: height as nat }).border(
            side,
        ),
{
    let first: bool = pixel(valid, width, height, side.row, side.col);
    let second: bool = if side.across {
        pixel(valid, width, height, side.row, side.col + 1)
    } else {
        pixel(valid, width, height, side.row + 1, side.col)
    };
    first != second
}

fn find_partner(valid: &[u8], width: usize, height: usize, cell: Cell, side: Side) -> (other: Side)
    requires
        height * width <= valid@.len(),
        cell.row < usize::MAX - 1,
        cell.col < usize::MAX - 1,
    ensures
        other == partner(
            Bitmap { valid: valid@, width: width as nat, height: height as nat },
            cell,
            side,
        ),
{
    proof {
        reveal(partner);
    }
    let top = Side { across: true, row: cell.row, col: cell.col };
    let right = Side { across: false, row: cell.row, col: cell.col + 1 };
    let bottom = Side { across: true, row: cell.row + 1, col: cell.col };
    let left = Side { across: false, row: cell.row, col: cell.col };
    let first: bool = pixel(valid, width, height, cell.row, cell.col);
    let second: bool = pixel(valid, width, height, cell.row, cell.col + 1);
    let third: bool = pixel(valid, width, height, cell.row + 1, cell.col);
    let fourth: bool = pixel(valid, width, height, cell.row + 1, cell.col + 1);
    if first == fourth && second == third && first != second {
        if first {
            if side == top {
                right
            } else if side == right {
                top
            } else if side == bottom {
                left
            } else {
                bottom
            }
        } else {
            if side == top {
                left
            } else if side == left {
                top
            } else if side == bottom {
                right
            } else {
                bottom
            }
        }
    } else if is_border(valid, width, height, top) && top != side {
        top
    } else if is_border(valid, width, height, right) && right != side {
        right
    } else if is_border(valid, width, height, bottom) && bottom != side {
        bottom
    } else {
        left
    }
}

/// Whether points follow each other along cells: each is left through its cell to the
/// next one, and that is left through its other cell.
spec fn is_path(map: Bitmap, ring: Seq<Side>, cells: Seq<Cell>) -> bool {
    &&& ring.len() > 0
    &&& cells.len() == ring.len()
    &&& forall|i: int|
        0 <= i < ring.len() ==> map.border(#[trigger] ring[i]) && has_side(cells[i], ring[i])
            && cell_inside(map, cells[i])
    &&& forall|i: int|
        0 <= i < ring.len() - 1 ==> #[trigger] ring[i + 1] == partner(map, cells[i], ring[i])
            && cells[i + 1] == other_cell(ring[i + 1], cells[i])
}

/// The next point of a path is not one of those behind the first.
proof fn lemma_path_goes_on(map: Bitmap, ring: Seq<Side>, cells: Seq<Cell>, i: int)
    requires
        addressable(map),
        is_path(map, ring, cells),
        ring.no_duplicates(),
        1 <= i < ring.len(),
    ensures
        partner(map, cells.last(), ring.last()) != ring[i],
{
    let k = ring.len() - 1;
    let next = partner(map, cells[k], ring[k]);
    lemma_partner(map, cells[k], ring[k]);
    if next == ring[i] {
        // Both cells of this point are cells of the path next to it.
        assert(ring[(i - 1) + 1] == partner(map, cells[i - 1], ring[i - 1]));
        lemma_partner(map, cells[i - 1], ring[i - 1]);
        lemma_cells(map, ring[i], cells[i - 1]);
        assert(has_side(cells[k], ring[i]));
        assert(cells[k] == cells[i - 1] || cells[k] == cells[i]);
        if cells[k] == cells[i - 1] {
            assert(ring[k] == ring[i - 1]);
        } else {
            if i < k {
                assert(ring[i + 1] == partner(map, cells[i], ring[i]));
                lemma_partner(map, cells[i], ring[i]);
                assert(ring[k] == ring[i + 1]);
                assert(k == i + 1);
                lemma_cells(map, ring[k], cells[i]);
                assert(cells[k] == other_cell(ring[k], cells[i]));
            }
        }
    }
}

/// A path that comes back to its first point comes through the cell by which it did not
/// leave.
proof fn lemma_path_closes(map: Bitmap, ring: Seq<Side>, cells: Seq<Cell>)
    requires
        addressable(map),
        is_path(map, ring, cells),
        ring.no_duplicates(),
        partner(map, cells.last(), ring.last()) == ring[0],
    ensures
        ring.len() >= 3,
        cells.last() == other_cell(ring[0], cells[0]),
        map.is_ring(ring),
{
    reveal(Bitmap::is_ring);
    let n = ring.len();
    let k = n - 1;
    lemma_partner(map, cells[k], ring[k]);
    lemma_partner(map, cells[0], ring[0]);
    lemma_cells(map, ring[0], cells[0]);
    assert(k != 0);
    assert(ring[0int + 1] == partner(map, cells[0], ring[0]));
    if cells[k] == cells[0] {
        assert(ring[k] == ring[1]);
        assert(k == 1);
        lemma_cells(map, ring[1], cells[0]);
        assert(cells[1] == other_cell(ring[0int + 1], cells[0]));
    }
    if n == 2 {
        lemma_shared_side(cells[0], cells[1], ring[0], ring[1]);
    }
    assert forall|i: int| 0 <= i < n implies map.joined(#[trigger] ring[i], ring[following(ring, i)]) by {
        lemma_partner(map, cells[i], ring[i]);
        if i < k {
            assert(ring[i + 1] == partner(map, cells[i], ring[i]));
        }
    }
}

/// Everything that is joined to a point of a closed path is a point of it.
proof fn lemma_ring_closed(map: Bitmap, ring: Seq<Side>, cells: Seq<Cell>, i: int, other: Side)
    requires
        addressable(map),
        is_path(map, ring, cells),
        ring.no_duplicates(),
        partner(map, cells.last(), ring.last()) == ring[0],
        0 <= i < ring.len(),
        map.joined(ring[i], other),
    ensures
        ring.contains(other),
{
    lemma_path_closes(map, ring, cells);
    let k = ring.len() - 1;
    let cell = choose|cell: Cell| #[trigger] map.paired(cell, ring[i], other);
    lemma_cells(map, ring[i], cells[i]);
    lemma_partner(map, cells[i], ring[i]);
    let before: int = if i == 0 {
        k
    } else {
        i - 1
    };
    lemma_partner(map, cells[before], ring[before]);
    if i > 0 {
        assert(ring[(i - 1) + 1] == partner(map, cells[i - 1], ring[i - 1]));
        assert(cells[(i - 1) + 1] == other_cell(ring[i], cells[i - 1]));
        lemma_cells(map, ring[i], cells[i - 1]);
    }
    assert(cell == cells[i] || cell == cells[before]);
    assert(has_side(cells[before], ring[i]));
    if cell == cells[i] {
        if i < k {
            assert(ring[i + 1] == partner(map, cells[i], ring[i]));
            assert(ring[i + 1] == other);
        } else {
            assert(ring[0] == other);
        }
    } else {
        assert(partner(map, cells[before], ring[i]) == ring[before]);
        lemma_partner(map, cells[before], ring[i]);
        assert(ring[before] == other);
    }
}

/// Whether rings outline the valid pixels: they are rings, and each point that stands
/// between a valid and an invalid pixel lies on exactly one of them.
pub open spec fn outlines(map: Bitmap, rings: Seq<Seq<Side>>) -> bool {
    &&& forall|k: int| 0 <= k < rings.len() ==> map.is_ring(#[trigger] rings[k])
    &&& disjoint_rings(rings)
    &&& forall|side: Side| #[trigger] map.border(side) ==> on_outline(rings, side)
}

/// Whether no point lies on two rings.
#[verifier::opaque]
pub open spec fn disjoint_rings(rings: Seq<Seq<Side>>) -> bool {
    forall|k: int, l: int, side: Side|
        #![trigger rings[k].contains(side), rings[l].contains(side)]
        0 <= k < rings.len() && 0 <= l < rings.len() && rings[k].contains(side)
            && rings[l].contains(side) ==> k == l
}

/// Whether a point lies on one of the rings.
pub open spec fn on_outline(rings: Seq<Seq<Side>>, side: Side) -> bool {
    exists|k: int| 0 <= k < rings.len() && #[trigger] rings[k].contains(side)
}

/// The points of a ring.
pub open spec fn points_of(ring: Seq<Side>) -> Seq<(int, int)> {
    Seq::new(ring.len(), |i: int| point_of(ring[i]))
}

/// The points of rings.
pub open spec fn rings_points(rings: Seq<Seq<Side>>) -> Seq<Seq<(int, int)>> {
    rings.map_values(|ring: Seq<Side>| points_of(ring))
}

/// Points given in machine integers.
pub open spec fn point_values(points: Seq<(i64, i64)>) -> Seq<(int, int)> {
    Seq::new(points.len(), |i: int| (points[i].0 as int, points[i].1 as int))
}

/// The rings of points behind machine integers.
pub open spec fn ring_values(rings: Seq<Vec<(i64, i64)>>) -> Seq<Seq<(int, int)>> {
    Seq::new(rings.len(), |k: int| point_values(rings[k]@))
}

/// Whether everything that is joined to a marked point is marked.
spec fn closed_under_joins(map: Bitmap, marks: Marks) -> bool {
    forall|side: Side, other: Side|
        #![trigger marks.marked(side), marks.marked(other)]
        marks.has(side) && marks.has(other) && marks.marked(side) && map.joined(side, other)
            ==> marks.marked(other)
}

/// Walks from a point from cell to cell until the point is reached again, and marks the
/// points on the way.
fn walk(valid: &[u8], width: usize, height: usize, start: Side, marks: &mut Marks) -> (ring: Vec<
    Side,
>)
    requires
        height * width <= valid@.len(),
        width < usize::MAX - 2,
        height < usize::MAX - 2,
        (Bitmap { valid: valid@, width: width as nat, height: height as nat }).border(start),
        old(marks).well_formed(),
        old(marks).rows == height + 2,
        old(marks).cols == width + 2,
        !old(marks).marked(start),
        closed_under_joins(
            Bitmap { valid: valid@, width: width as nat, height: height as nat },
            *old(marks),
        ),
    ensures
        (Bitmap { valid: valid@, width: width as nat, height: height as nat }).is_ring(ring@),
        ring@[0] == start,
        forall|i: int| 0 <= i < ring@.len() ==> !old(marks).marked(#[trigger] ring@[i]),
        final(marks).well_formed(),
        final(marks).rows == old(marks).rows,
        final(marks).cols == old(marks).cols,
        forall|side: Side|
            final(marks).has(side) ==> #[trigger] final(marks).marked(side) == (old(marks).marked(
                side,
            ) || ring@.contains(side)),
        closed_under_joins(
            Bitmap { valid: valid@, width: width as nat, height: height as nat },
            *final(marks),
        ),
{
    let ghost map = Bitmap { valid: valid@, width: width as nat, height: height as nat };
    let ghost before = *marks;
    proof {
        lemma_border_side(map, start);
    }
    marks.mark(start);
    let mut ring: Vec<Side> = Vec::new();
    ring.push(start);
    let mut cell = Cell { row: start.row, col: start.col };
    let ghost mut cells = seq![cell];
    let mut next = find_partner(valid, width, height, cell, start);
    while next != start
        invariant
            height * width <= valid@.len(),
            width < usize::MAX - 2,
            height < usize::MAX - 2,
            map == (Bitmap { valid: valid@, width: width as nat, height: height as nat }),
                map.border(start),
            before.rows == height + 2,
            before.cols == width + 2,
            !before.marked(start),
            closed_under_joins(map, before),
            marks.well_formed(),
            marks.rows == before.rows,
            marks.cols == before.cols,
            is_path(map, ring@, cells),
            ring@.no_duplicates(),
            ring@[0] == start,
            cells.last() == cell,
            next == partner(map, cell, ring@.last()),
            forall|i: int| 0 <= i < ring@.len() ==> !before.marked(#[trigger] ring@[i]),
            forall|side: Side|
                marks.has(side) ==> #[trigger] marks.marked(side) == (before.marked(side)
                    || ring@.contains(side)),
        decreases marks.left(),
    {
        let ghost ring_before = ring@;
        let ghost cells_before = cells;
        let ghost last = ring@.last();
        let ghost entered = cell;
        proof {
            lemma_partner(map, cell, last);
            lemma_border_side(map, next);
            lemma_border_side(map, last);
            assert forall|i: int| 0 <= i < ring@.len() implies ring@[i] != next by {
                if i > 0 {
                    lemma_path_goes_on(map, ring@, cells, i);
                }
            }
            assert(!ring@.contains(next));
            assert(before.has(next) && before.has(last));
            assert(map.joined(next, last));
            assert(!before.marked(ring@[ring@.len() - 1]));
            assert(!before.marked(next));
            lemma_cells(map, next, cell);
        }
        marks.mark(next);
        ring.push(next);
        cell = if next.across {
            if cell.row == next.row {
                Cell { row: next.row - 1, col: next.col }
            } else {
                Cell { row: next.row, col: next.col }
            }
        } else {
            if cell.col == next.col {
                Cell { row: next.row, col: next.col - 1 }
            } else {
                Cell { row: next.row, col: next.col }
            }
        };
        proof {
            cells = cells.push(cell);
            assert(cell == other_cell(next, entered));
            assert forall|i: int| 0 <= i < ring@.len() - 1 implies #[trigger] ring@[i + 1]
                == partner(map, cells[i], ring@[i]) && cells[i + 1] == other_cell(
                ring@[i + 1],
                cells[i],
            ) by {
                if i < ring_before.len() - 1 {
                    assert(ring_before[i + 1] == partner(map, cells_before[i], ring_before[i]));
                }
            }
            assert forall|side: Side| marks.has(side) implies #[trigger] marks.marked(side) == (
            before.marked(side) || ring@.contains(side)) by {
                if ring_before.contains(side) {
                    let i = choose|i: int| 0 <= i < ring_before.len() && ring_before[i] == side;
                    assert(ring@[i] == side);
                }
                if ring@.contains(side) && side != next {
                    let i = choose|i: int| 0 <= i < ring@.len() && ring@[i] == side;
                    assert(ring_before[i] == side);
                }
                if side == next {
                    assert(ring@[ring@.len() - 1] == side);
                }
            }
        }
        next = find_partner(valid, width, height, cell, next);
    }
    proof {
        lemma_path_closes(map, ring@, cells);
        assert forall|side: Side, other: Side|
            #![trigger marks.marked(side), marks.marked(other)]
            marks.has(side) && marks.has(other) && marks.marked(side) && map.joined(
                side,
                other,
            ) implies marks.marked(other) by {
            if before.marked(side) {
                assert(before.marked(other));
            } else {
                let i = choose|i: int| 0 <= i < ring@.len() && ring@[i] == side;
                lemma_ring_closed(map, ring@, cells, i, other);
            }
        }
    }
    ring
}

/// The raster with its border can be kept in memory.
pub open spec fn measurable(width: int, height: int) -> bool {
    (height + 2) * (width + 2) <= isize::MAX
}

proof fn lemma_measurable(width: int, height: int)
    requires
        0 <= width,
        0 <= height,
        measurable(width, height),
    ensures
        2 * (width + 2) <= isize::MAX,
        2 * (height + 2) <= isize::MAX,
{
    assert((height + 2) * (width + 2) >= 2 * (width + 2)) by (nonlinear_arith)
        requires
            height >= 0,
            width >= 0,
    ;
    assert((height + 2) * (width + 2) >= 2 * (height + 2)) by (nonlinear_arith)
        requires
            height >= 0,
            width >= 0,
    ;
}

fn point(side: Side) -> (at: (i64, i64))
    requires
        2 * (side.row + 2) <= isize::MAX,
        2 * (side.col + 2) <= isize::MAX,
    ensures
        (at.0 as int, at.1 as int) == point_of(side),
{
    if side.across {
        (2 * side.col as i64 + 1, 2 * side.row as i64)
    } else {
        (2 * side.col as i64, 2 * side.row as i64 + 1)
    }
}

fn to_points(width: usize, height: usize, ring: &Vec<Side>) -> (points: Vec<(i64, i64)>)
    requires
        measurable(width as int, height as int),
        forall|i: int|
            0 <= i < ring@.len() ==> (#[trigger] ring@[i]).row <= height && ring@[i].col <= width,
    ensures
        point_values(points@) == points_of(ring@),
{
    let mut points: Vec<(i64, i64)> = Vec::new();
    let mut i: usize = 0;
    while i < ring.len()
        invariant
            i <= ring@.len(),
            points@.len() == i,
            measurable(width as int, height as int),
            forall|j: int|
                0 <= j < ring@.len() ==> (#[trigger] ring@[j]).row <= height && ring@[j].col
                    <= width,
            forall|j: int|
                0 <= j < i ==> ((#[trigger] points@[j]).0 as int, points@[j].1 as int) == point_of(
                    ring@[j],
                ),
        decreases ring@.len() - i,
    {
        let side = ring[i];
        proof {
            lemma_measurable(width as int, height as int);
        }
        points.push(point(side));
        i = i + 1;
    }
    assert(point_values(points@) =~= points_of(ring@));
    points
}

/// The rings found so far.
struct Tracer {
    marks: Marks,
    rings: Vec<Vec<(i64, i64)>>,
    found: Ghost<Seq<Seq<Side>>>,
}

impl Tracer {
    /// The points are those of rings that have no point in common.
    spec fn well_formed(&self, map: Bitmap) -> bool {
        let found = self.found@;
        &&& self.marks.well_formed()
        &&& self.marks.rows == map.height + 2
        &&& self.marks.cols == map.width + 2
        &&& self.rings@.len() == found.len()
        &&& forall|k: int|
            0 <= k < found.len() ==> point_values((#[trigger] self.rings@[k])@) == points_of(
                found[k],
            )
        &&& forall|k: int| 0 <= k < found.len() ==> map.is_ring(#[trigger] found[k])
        &&& disjoint_rings(found)
    }

    /// Whether a point has been visited.
    spec fn seen(&self, side: Side) -> bool {
        self.marks.has(side) && self.marks.marked(side)
    }

    /// The points that were visited are those of the rings.
    spec fn complete(&self) -> bool {
        forall|side: Side| #[trigger] self.seen(side) <==> on_outline(self.found@, side)
    }

    /// Visits a point, and with it the ring that it lies on.
    fn visit(&mut self, valid: &[u8], width: usize, height: usize, side: Side)
        requires
            height * width <= valid@.len(),
            measurable(width as int, height as int),
            side.row <= height,
            side.col <= width,
            old(self).well_formed(
                Bitmap { valid: valid@, width: width as nat, height: height as nat },
            ),
            old(self).complete(),
            closed_under_joins(
                Bitmap { valid: valid@, width: width as nat, height: height as nat },
                old(self).marks,
            ),
        ensures
            final(self).well_formed(
                Bitmap { valid: valid@, width: width as nat, height: height as nat },
            ),
            final(self).complete(),
            closed_under_joins(
                Bitmap { valid: valid@, width: width as nat, height: height as nat },
                final(self).marks,
            ),
            forall|other: Side| #[trigger] old(self).seen(other) ==> final(self).seen(other),
            (Bitmap { valid: valid@, width: width as nat, height: height as nat }).border(side)
                ==> final(self).seen(side),
    {
        let ghost map = Bitmap { valid: valid@, width: width as nat, height: height as nat };
        proof {
            lemma_measurable(width as int, height as int);
        }
        if is_border(valid, width, height, side) && !self.marks.is_marked(side) {
            let ghost before = self.found@;
            let ring = walk(valid, width, height, side, &mut self.marks);
            proof {
                reveal(Bitmap::is_ring);
                assert(ring@[0] == side);
                assert(ring@.contains(side));
                assert forall|i: int| 0 <= i < ring@.len() implies (#[trigger] ring@[i]).row
                    <= height && ring@[i].col <= width by {
                    lemma_border_side(map, ring@[i]);
                }
            }
            self.rings.push(to_points(width, height, &ring));
            proof {
                self.found@ = before.push(ring@);
                assert forall|other: Side| #[trigger] self.seen(other) == (old(self).seen(other)
                    || ring@.contains(other)) by {
                    if ring@.contains(other) {
                        let i = choose|i: int| 0 <= i < ring@.len() && ring@[i] == other;
                        assert(ring@[i].row <= height && ring@[i].col <= width);
                    }
                    if self.marks.has(other) {
                        assert(self.marks.marked(other) == (old(self).marks.marked(other)
                            || ring@.contains(other)));
                    }
                }
                assert forall|other: Side| ring@.contains(other) implies !#[trigger] old(self).seen(
                    other,
                ) by {
                    let i = choose|i: int| 0 <= i < ring@.len() && ring@[i] == other;
                    assert(!old(self).marks.marked(ring@[i]));
                }
                lemma_ring_added(*old(self), *self, ring@);
                assert(self.seen(side));
            }
        }
    }
}

/// A ring of points that were not visited can be added.
proof fn lemma_ring_added(before: Tracer, after: Tracer, ring: Seq<Side>)
    requires
        before.complete(),
        disjoint_rings(before.found@),
        after.found@ == before.found@.push(ring),
        forall|side: Side| #[trigger]
            after.seen(side) == (before.seen(side) || ring.contains(side)),
        forall|side: Side| ring.contains(side) ==> !#[trigger] before.seen(side),
    ensures
        after.complete(),
        disjoint_rings(after.found@),
{
    let rings = before.found@;
    lemma_more_rings(rings, ring);
    assert forall|k: int, side: Side|
        0 <= k < rings.len() && #[trigger] rings[k].contains(side) implies !ring.contains(side) by {
        assert(on_outline(rings, side));
        assert(before.seen(side));
    }
    lemma_still_disjoint(rings, ring);
    assert forall|side: Side| #[trigger] after.seen(side) <==> on_outline(after.found@, side) by {
        assert(before.seen(side) <==> on_outline(rings, side));
    }
}

/// A further ring adds its points.
proof fn lemma_more_rings(rings: Seq<Seq<Side>>, ring: Seq<Side>)
    ensures
        forall|side: Side| #[trigger]
            on_outline(rings.push(ring), side) <==> on_outline(rings, side) || ring.contains(side),
{
    let more = rings.push(ring);
    assert forall|side: Side| #[trigger] on_outline(more, side) <==> on_outline(rings, side)
        || ring.contains(side) by {
        if on_outline(rings, side) {
            let k = choose|k: int| 0 <= k < rings.len() && #[trigger] rings[k].contains(side);
            assert(more[k].contains(side));
        }
        if ring.contains(side) {
            assert(more[rings.len() as int].contains(side));
        }
        if on_outline(more, side) {
            let k = choose|k: int| 0 <= k < more.len() && #[trigger] more[k].contains(side);
            if k < rings.len() {
                assert(rings[k].contains(side));
            }
        }
    }
}

/// Rings stay apart where a ring of new points is added.
proof fn lemma_still_disjoint(rings: Seq<Seq<Side>>, ring: Seq<Side>)
    requires
        disjoint_rings(rings),
        forall|k: int, side: Side|
            0 <= k < rings.len() && #[trigger] rings[k].contains(side) ==> !ring.contains(side),
    ensures
        disjoint_rings(rings.push(ring)),
{
    reveal(disjoint_rings);
    let more = rings.push(ring);
    assert forall|k: int, l: int, side: Side|
        #![trigger more[k].contains(side), more[l].contains(side)]
        0 <= k < more.len() && 0 <= l < more.len() && more[k].contains(side) && more[l].contains(
            side,
        ) implies k == l by {
        if k < rings.len() {
            assert(rings[k].contains(side));
        }
        if l < rings.len() {
            assert(rings[l].contains(side));
        }
    }
}

/// The rings around the valid pixels of a raster, given row by row, in half pixels from
/// the upper left corner of its border. Each has three points or more, and there are none
/// if no pixel is valid.
pub fn trace_rings(valid: &[u8], width: usize, height: usize) -> (rings: Vec<Vec<(i64, i64)>>)
    requires
        height * width <= valid@.len(),
        width > 0 && height > 0 ==> measurable(width as int, height as int),
    ensures
        exists|sides: Seq<Seq<Side>>| #[trigger]
            outlines(
                Bitmap { valid: valid@, width: width as nat, height: height as nat },
                sides,
            ) && ring_values(rings@) == rings_points(sides),
        forall|k: int| 0 <= k < rings@.len() ==> (#[trigger] rings@[k])@.len() >= 3,
        rings@.len() > 0 <==> exists|row: int, col: int| #[trigger]
            (Bitmap { valid: valid@, width: width as nat, height: height as nat }).pixel(row, col),
{
    let ghost map = Bitmap { valid: valid@, width: width as nat, height: height as nat };
    if width == 0 || height == 0 {
        let rings: Vec<Vec<(i64, i64)>> = Vec::new();
        proof {
            let none = Seq::<Seq<Side>>::empty();
            reveal(disjoint_rings);
            assert(outlines(map, none));
            assert(ring_values(rings@) =~= rings_points(none));
        }
        return rings;
    }
    proof {
        lemma_measurable(width as int, height as int);
    }
    let mut tracer = Tracer {
        marks: Marks::new(height + 2, width + 2),
        rings: Vec::new(),
        found: Ghost(Seq::empty()),
    };
    proof {
        reveal(disjoint_rings);
    }
    let mut row: usize = 0;
    while row <= height
        invariant
            row <= height + 1,
            height * width <= valid@.len(),
            measurable(width as int, height as int),
            2 * (width + 2) <= isize::MAX,
            2 * (height + 2) <= isize::MAX,
            map == (Bitmap { valid: valid@, width: width as nat, height: height as nat }),
            tracer.well_formed(map),
            tracer.complete(),
            closed_under_joins(map, tracer.marks),
            forall|side: Side|
                #![trigger map.border(side)]
                #![trigger tracer.seen(side)]
                side.row < row && side.col <= width && map.border(side) ==> tracer.seen(side),
        decreases height + 1 - row,
    {
        let mut col: usize = 0;
        while col <= width
            invariant
                row <= height,
                col <= width + 1,
                height * width <= valid@.len(),
                measurable(width as int, height as int),
                2 * (width + 2) <= isize::MAX,
                2 * (height + 2) <= isize::MAX,
                map == (Bitmap { valid: valid@, width: width as nat, height: height as nat }),
                tracer.well_formed(map),
                tracer.complete(),
                closed_under_joins(map, tracer.marks),
                forall|side: Side|
                    #![trigger map.border(side)]
                    #![trigger tracer.seen(side)]
                    side.row < row && side.col <= width && map.border(side) ==> tracer.seen(side),
                forall|side: Side|
                    #![trigger map.border(side)]
                    #![trigger tracer.seen(side)]
                    side.row == row && side.col < col && map.border(side) ==> tracer.seen(side),
            decreases width + 1 - col,
        {
            tracer.visit(valid, width, height, Side { across: true, row, col });
            tracer.visit(valid, width, height, Side { across: false, row, col });
            col = col + 1;
        }
        row = row + 1;
    }
    proof {
        let found = tracer.found@;
        assert forall|side: Side| #[trigger] map.border(side) implies on_outline(found, side) by {
            lemma_border_side(map, side);
            assert(tracer.seen(side));
        }
        assert(outlines(map, found));
        assert(ring_values(tracer.rings@) =~= rings_points(found));
        lemma_traced_rings(map, found, tracer.rings@);
    }
    tracer.rings
}

proof fn lemma_traced_rings(map: Bitmap, sides: Seq<Seq<Side>>, rings: Seq<Vec<(i64, i64)>>)
    requires
        addressable(map),
        outlines(map, sides),
        ring_values(rings) == rings_points(sides),
    ensures
        forall|k: int| 0 <= k < rings.len() ==> (#[trigger] rings[k])@.len() >= 3,
        rings.len() > 0 <==> exists|row: int, col: int| #[trigger] map.pixel(row, col),
{
    assert(rings.len() == ring_values(rings).len());
    assert(sides.len() == rings_points(sides).len());
    assert forall|k: int| 0 <= k < rings.len() implies (#[trigger] rings[k])@.len() >= 3 by {
        assert(map.is_ring(sides[k]));
        reveal(Bitmap::is_ring);
        assert(ring_values(rings)[k] == point_values(rings[k]@));
        assert(rings_points(sides)[k] == points_of(sides[k]));
        assert(point_values(rings[k]@).len() == points_of(sides[k]).len());
    }
    law_rings_show_valid_pixels(map, sides);
}

/// A valid pixel has a border to its left.
proof fn lemma_border_left_of(map: Bitmap, row: int, col: int) -> (side: Side)
    requires
        addressable(map),
        map.pixel(row, col),
    ensures
        map.border(side),
    decreases col,
{
    let side = Side { across: true, row: row as usize, col: (col - 1) as usize };
    if map.pixel(row, col - 1) {
        lemma_border_left_of(map, row, col - 1)
    } else {
        assert(map.border(side));
        side
    }
}

proof fn lemma_border_has_pixel(map: Bitmap, side: Side)
    requires
        map.border(side),
    ensures
        exists|row: int, col: int| #[trigger] map.pixel(row, col),
{
    let row = side.row as int;
    let col = side.col as int;
    assert(map.pixel(row, col) || map.pixel(row, col + 1) || map.pixel(row + 1, col));
}

proof fn lemma_ring_has_border(map: Bitmap, ring: Seq<Side>)
    requires
        map.is_ring(ring),
    ensures
        map.border(ring[0]),
{
    reveal(Bitmap::is_ring);
}

/// A raster has a ring exactly if it has a valid pixel.
pub proof fn law_rings_show_valid_pixels(map: Bitmap, rings: Seq<Seq<Side>>)
    requires
        addressable(map),
        outlines(map, rings),
    ensures
        rings.len() > 0 <==> exists|row: int, col: int| #[trigger] map.pixel(row, col),
{
    if rings.len() > 0 {
        assert(map.is_ring(rings[0]));
        lemma_ring_has_border(map, rings[0]);
        lemma_border_has_pixel(map, rings[0][0]);
    } else if exists|row: int, col: int| #[trigger] map.pixel(row, col) {
        let (row, col) = choose|row: int, col: int| #[trigger] map.pixel(row, col);
        let side = lemma_border_left_of(map, row, col);
        assert(on_outline(rings, side));
    }
}

/// How many points of a ring stand straight to the left of the middle of a pixel. Between
/// two points a ring keeps within a cell, so that these are the places where the ring
/// crosses the line from the pixel to the left.
pub open spec fn crossings(ring: Seq<Side>, row: int, col: int) -> nat
    decreases ring.len(),
{
    if ring.len() == 0 {
        0
    } else {
        let last = ring.last();
        crossings(ring.drop_last(), row, col) + (if last.across && last.row == row && last.col
            < col {
            1nat
        } else {
            0nat
        })
    }
}

/// Whether a pixel lies inside a ring: a line from it to the left crosses the ring an odd
/// number of times.
pub open spec fn encloses(ring: Seq<Side>, row: int, col: int) -> bool {
    crossings(ring, row, col) % 2 == 1
}

/// How many rings a pixel lies inside of.
pub open spec fn enclosing(rings: Seq<Seq<Side>>, row: int, col: int) -> nat
    decreases rings.len(),
{
    if rings.len() == 0 {
        0
    } else {
        enclosing(rings.drop_last(), row, col) + (if encloses(rings.last(), row, col) {
            1nat
        } else {
            0nat
        })
    }
}

proof fn lemma_next_crossing(ring: Seq<Side>, row: int, col: int)
    requires
        ring.no_duplicates(),
        0 <= row <= usize::MAX,
        0 <= col <= usize::MAX,
    ensures
        crossings(ring, row, col + 1) == crossings(ring, row, col) + (if ring.contains(
            Side { across: true, row: row as usize, col: col as usize },
        ) {
            1nat
        } else {
            0nat
        }),
    decreases ring.len(),
{
    let side = Side { across: true, row: row as usize, col: col as usize };
    if ring.len() > 0 {
        let front = ring.drop_last();
        lemma_next_crossing(front, row, col);
        if front.contains(side) {
            let i = choose|i: int| 0 <= i < front.len() && front[i] == side;
            assert(ring[i] == side);
            assert(ring[ring.len() - 1] != side);
        } else if ring.contains(side) {
            let i = choose|i: int| 0 <= i < ring.len() && ring[i] == side;
            if i < front.len() {
                assert(front[i] == side);
            }
        }
        if ring.last() == side {
            assert(ring[ring.len() - 1] == side);
        }
    }
}

proof fn lemma_no_crossing(ring: Seq<Side>, row: int)
    ensures
        crossings(ring, row, 0) == 0,
    decreases ring.len(),
{
    if ring.len() > 0 {
        lemma_no_crossing(ring.drop_last(), row);
    }
}

/// One column further to the right, a pixel lies inside one ring more or less where a ring
/// passes in between, and otherwise inside the same rings.
proof fn lemma_next_enclosing(rings: Seq<Seq<Side>>, row: int, col: int)
    requires
        forall|k: int| 0 <= k < rings.len() ==> (#[trigger] rings[k]).no_duplicates(),
        disjoint_rings(rings),
        0 <= row <= usize::MAX,
        0 <= col <= usize::MAX,
    ensures
        ({
            let side = Side { across: true, row: row as usize, col: col as usize };
            (enclosing(rings, row, col + 1) + enclosing(rings, row, col)) % 2 == (if on_outline(
                rings,
                side,
            ) {
                1int
            } else {
                0int
            })
        }),
    decreases rings.len(),
{
    let side = Side { across: true, row: row as usize, col: col as usize };
    reveal(disjoint_rings);
    if rings.len() > 0 {
        let front = rings.drop_last();
        let last = rings.last();
        assert(last == rings[rings.len() - 1]);
        assert forall|k: int| 0 <= k < front.len() implies (
        #[trigger] front[k]).no_duplicates() by {
            assert(front[k] == rings[k]);
        }
        assert forall|k: int, l: int, other: Side|
            #![trigger front[k].contains(other), front[l].contains(other)]
            0 <= k < front.len() && 0 <= l < front.len() && front[k].contains(other)
                && front[l].contains(other) implies k == l by {
            assert(rings[k].contains(other) && rings[l].contains(other));
        }
        lemma_next_enclosing(front, row, col);
        lemma_next_crossing(last, row, col);
        lemma_more_rings(front, last);
        assert(front.push(last) =~= rings);
        if on_outline(front, side) && last.contains(side) {
            let k = choose|k: int| 0 <= k < front.len() && #[trigger] front[k].contains(side);
            assert(rings[k].contains(side) && rings[rings.len() - 1].contains(side));
        }
        assert(on_outline(rings, side) <==> on_outline(front, side) || last.contains(side));
    }
}

proof fn lemma_none_enclosing(rings: Seq<Seq<Side>>, row: int)
    ensures
        enclosing(rings, row, 0) == 0,
    decreases rings.len(),
{
    if rings.len() > 0 {
        lemma_none_enclosing(rings.drop_last(), row);
        lemma_no_crossing(rings.last(), row);
    }
}

proof fn lemma_some_enclosing(rings: Seq<Seq<Side>>, row: int, col: int)
    requires
        enclosing(rings, row, col) > 0,
    ensures
        exists|k: int| 0 <= k < rings.len() && encloses(#[trigger] rings[k], row, col),
    decreases rings.len(),
{
    let last = rings[rings.len() - 1];
    if !encloses(last, row, col) {
        let front = rings.drop_last();
        lemma_some_enclosing(front, row, col);
        let k = choose|k: int| 0 <= k < front.len() && encloses(#[trigger] front[k], row, col);
        assert(encloses(rings[k], row, col));
    }
}

proof fn lemma_outline(map: Bitmap, rings: Seq<Seq<Side>>, side: Side)
    requires
        outlines(map, rings),
    ensures
        map.border(side) <==> on_outline(rings, side),
        forall|k: int| 0 <= k < rings.len() ==> (#[trigger] rings[k]).no_duplicates(),
        disjoint_rings(rings),
{
    reveal(Bitmap::is_ring);
    assert forall|k: int| 0 <= k < rings.len() implies (#[trigger] rings[k]).no_duplicates() by {
        assert(map.is_ring(rings[k]));
    }
    if on_outline(rings, side) {
        let k = choose|k: int| 0 <= k < rings.len() && #[trigger] rings[k].contains(side);
        assert(map.is_ring(rings[k]));
        let i = choose|i: int| 0 <= i < rings[k].len() && rings[k][i] == side;
        assert(map.border(rings[k][i]));
    }
}

proof fn lemma_enclosing_tells_pixels(map: Bitmap, rings: Seq<Seq<Side>>, row: int, col: int)
    requires
        addressable(map),
        outlines(map, rings),
        0 <= row <= map.height + 1,
        0 <= col <= map.width + 1,
    ensures
        map.pixel(row, col) <==> enclosing(rings, row, col) % 2 == 1,
    decreases col,
{
    if col == 0 {
        lemma_none_enclosing(rings, row);
    } else {
        lemma_enclosing_tells_pixels(map, rings, row, col - 1);
        let side = Side { across: true, row: row as usize, col: (col - 1) as usize };
        lemma_outline(map, rings, side);
        lemma_next_enclosing(rings, row, col - 1);
        assert(map.border(side) <==> map.pixel(row, col - 1) != map.pixel(row, col));
    }
}

/// The rings tell the valid pixels: a pixel is valid exactly if it lies inside an odd
/// number of rings. So every valid pixel lies inside a ring.
pub proof fn law_rings_enclose_valid_pixels(
    map: Bitmap,
    rings: Seq<Seq<Side>>,
    row: int,
    col: int,
)
    requires
        addressable(map),
        outlines(map, rings),
        0 <= row <= map.height + 1,
        0 <= col <= map.width + 1,
    ensures
        map.pixel(row, col) <==> enclosing(rings, row, col) % 2 == 1,
        map.pixel(row, col) ==> exists|k: int|
            0 <= k < rings.len() && encloses(#[trigger] rings[k], row, col),
{
    lemma_enclosing_tells_pixels(map, rings, row, col);
    if map.pixel(row, col) {
        lemma_some_enclosing(rings, row, col);
    }
}

/// A point of a ring stands halfway between the pixels whose validity differs there. Pixels
/// are two half pixels apart.
pub proof fn law_points_lie_between_pixels(map: Bitmap, ring: Seq<Side>, i: int)
    requires
        map.is_ring(ring),
        0 <= i < ring.len(),
    ensures
        ({
            let (x, y) = points_of(ring)[i];
            exists|row: int, col: int, other_row: int, other_col: int|
                {
                    &&& #[trigger] map.pixel(row, col)
                    &&& !#[trigger] map.pixel(other_row, other_col)
                    &&& 2 * x == 2 * col + 2 * other_col
                    &&& 2 * y == 2 * row + 2 * other_row
                    &&& (row == other_row && (col - other_col == 1 || other_col - col == 1)) || (col
                        == other_col && (row - other_row == 1 || other_row - row == 1))
                }
        }),
{
    reveal(Bitmap::is_ring);
    let side = ring[i];
    assert(map.border(side));
    let row = side.row as int;
    let col = side.col as int;
    if side.across {
        if map.pixel(row, col) {
            assert(!map.pixel(row, col + 1));
        } else {
            assert(map.pixel(row, col + 1));
            assert(!map.pixel(row, col));
        }
    } else {
        if map.pixel(row, col) {
            assert(!map.pixel(row + 1, col));
        } else {
            assert(map.pixel(row + 1, col));
            assert(!map.pixel(row, col));
        }
    }
}

/// Neighboring points of a ring are at most a pixel apart, and the ring is closed.
pub proof fn law_neighboring_points_are_near(map: Bitmap, ring: Seq<Side>, i: int)
    requires
        map.is_ring(ring),
        0 <= i < ring.len(),
    ensures
        ({
            let (x, y) = points_of(ring)[i];
            let (next_x, next_y) = points_of(ring)[if i + 1 < ring.len() {
                i + 1
            } else {
                0
            }];
            &&& -2 <= next_x - x <= 2
            &&& -2 <= next_y - y <= 2
            &&& next_x != x || next_y != y
        }),
{
    reveal(Bitmap::is_ring);
    let next = ring[following(ring, i)];
    assert(map.joined(ring[i], next));
    let cell = choose|cell: Cell| #[trigger] map.paired(cell, ring[i], next);
    assert(map.paired(cell, ring[i], next));
}

} // verus!
