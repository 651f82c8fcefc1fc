//! The mathematical vocabulary for grids of cells: cell lookup by
//! coordinates, neighbor-count sums, counting cells that satisfy a
//! predicate, and the lemmas that connect them.

use vstd::prelude::*;

use crate::field::Field;
use crate::position::Position;
use crate::tile::Tile;

verus! {

pub open spec fn b2i(b: bool) -> int {
    if b {
        1
    } else {
        0
    }
}

pub open spec fn in_bounds(width: usize, height: usize, x: int, y: int) -> bool {
    0 <= x < width && 0 <= y < height
}

/// The cell at coordinates `(x, y)` of a row-major grid `width` wide.
pub open spec fn cell_at(g: Seq<Field>, width: usize, x: int, y: int) -> Field {
    g[y * width + x]
}

pub open spec fn mine_at(g: Seq<Field>, width: usize, height: usize, x: int, y: int) -> bool {
    in_bounds(width, height, x, y) && cell_at(g, width, x, y).tile is Mine
}

pub open spec fn flagged_at(g: Seq<Field>, width: usize, height: usize, x: int, y: int) -> bool {
    in_bounds(width, height, x, y) && cell_at(g, width, x, y).visibility is Flagged
}

pub open spec fn closed_at(g: Seq<Field>, width: usize, height: usize, x: int, y: int) -> bool {
    in_bounds(width, height, x, y) && cell_at(g, width, x, y).visibility is Closed
}

pub open spec fn not_open_at(g: Seq<Field>, width: usize, height: usize, x: int, y: int) -> bool {
    in_bounds(width, height, x, y) && !(cell_at(g, width, x, y).visibility is Open)
}

/// How many of the 8 neighbor coordinates of `(x, y)` satisfy `f`.
pub open spec fn neighbor_sum(f: spec_fn(int, int) -> bool, x: int, y: int) -> int {
    b2i(f(x - 1, y - 1)) + b2i(f(x, y - 1)) + b2i(f(x + 1, y - 1)) + b2i(f(x - 1, y)) + b2i(
        f(x + 1, y),
    ) + b2i(f(x - 1, y + 1)) + b2i(f(x, y + 1)) + b2i(f(x + 1, y + 1))
}

pub open spec fn mine_neighbor_count(
    g: Seq<Field>,
    width: usize,
    height: usize,
    x: int,
    y: int,
) -> int {
    neighbor_sum(|nx: int, ny: int| mine_at(g, width, height, nx, ny), x, y)
}

pub open spec fn flagged_neighbor_count(
    g: Seq<Field>,
    width: usize,
    height: usize,
    x: int,
    y: int,
) -> int {
    neighbor_sum(|nx: int, ny: int| flagged_at(g, width, height, nx, ny), x, y)
}

pub open spec fn closed_neighbor_count(
    g: Seq<Field>,
    width: usize,
    height: usize,
    x: int,
    y: int,
) -> int {
    neighbor_sum(|nx: int, ny: int| closed_at(g, width, height, nx, ny), x, y)
}

pub open spec fn not_open_neighbor_count(
    g: Seq<Field>,
    width: usize,
    height: usize,
    x: int,
    y: int,
) -> int {
    neighbor_sum(|nx: int, ny: int| not_open_at(g, width, height, nx, ny), x, y)
}

/// The tile recorded for a non-mine cell with `n` neighboring mines:
/// zero is stored as `Empty`, anything else as `Number(n)`.
pub open spec fn count_tile(n: int) -> Tile {
    if n == 0 {
        Tile::Empty
    } else {
        Tile::Number(n as u8)
    }
}

/// A non-mine cell's tile matches its neighbor-mine count.
pub open spec fn cell_numbered(g: Seq<Field>, width: usize, height: usize, x: int, y: int) -> bool {
    cell_at(g, width, x, y).tile is Mine || cell_at(g, width, x, y).tile == count_tile(
        mine_neighbor_count(g, width, height, x, y),
    )
}

/// Every non-mine cell's tile is the exact count of its in-bounds
/// mine-neighbors, with 0 represented as `Empty`.
pub open spec fn numbers_correct(g: Seq<Field>, width: usize, height: usize) -> bool {
    forall|x: int, y: int|
        in_bounds(width, height, x, y) ==> #[trigger] cell_numbered(g, width, height, x, y)
}

/// How many cells of `g` satisfy `pred`.
pub open spec fn count_cells(g: Seq<Field>, pred: spec_fn(Field) -> bool) -> int
    decreases g.len(),
{
    if g.len() == 0 {
        0
    } else {
        count_cells(g.drop_last(), pred) + b2i(pred(g.last()))
    }
}

pub open spec fn count_open(g: Seq<Field>) -> int {
    count_cells(g, |f: Field| f.visibility is Open)
}

pub open spec fn count_flagged(g: Seq<Field>) -> int {
    count_cells(g, |f: Field| f.visibility is Flagged)
}

pub open spec fn count_closed(g: Seq<Field>) -> int {
    count_cells(g, |f: Field| f.visibility is Closed)
}

pub open spec fn count_mines(g: Seq<Field>) -> int {
    count_cells(g, |f: Field| f.tile is Mine)
}

pub proof fn lemma_count_cells_bounds(g: Seq<Field>, pred: spec_fn(Field) -> bool)
    ensures
        0 <= count_cells(g, pred) <= g.len(),
    decreases g.len(),
{
    if g.len() > 0 {
        lemma_count_cells_bounds(g.drop_last(), pred);
    }
}

pub proof fn lemma_count_cells_update(g: Seq<Field>, pred: spec_fn(Field) -> bool, i: int, f: Field)
    requires
        0 <= i < g.len(),
    ensures
        count_cells(g.update(i, f), pred) == count_cells(g, pred) - b2i(pred(g[i])) + b2i(pred(f)),
    decreases g.len(),
{
    let gu = g.update(i, f);
    if i == g.len() - 1 {
        assert(gu.drop_last() =~= g.drop_last());
    } else {
        assert(gu.drop_last() =~= g.drop_last().update(i, f));
        assert(gu.last() == g.last());
        lemma_count_cells_update(g.drop_last(), pred, i, f);
    }
}

pub proof fn lemma_count_cells_all_false(g: Seq<Field>, pred: spec_fn(Field) -> bool)
    requires
        forall|i: int| 0 <= i < g.len() ==> !pred(#[trigger] g[i]),
    ensures
        count_cells(g, pred) == 0,
    decreases g.len(),
{
    if g.len() > 0 {
        lemma_count_cells_all_false(g.drop_last(), pred);
    }
}

/// Two grids that agree pointwise have the same counts.
pub proof fn lemma_count_cells_agree(
    g1: Seq<Field>,
    g2: Seq<Field>,
    pred: spec_fn(Field) -> bool,
)
    requires
        g1.len() == g2.len(),
        forall|i: int| 0 <= i < g1.len() ==> pred(#[trigger] g1[i]) == pred(#[trigger] g2[i]),
    ensures
        count_cells(g1, pred) == count_cells(g2, pred),
    decreases g1.len(),
{
    if g1.len() > 0 {
        lemma_count_cells_agree(g1.drop_last(), g2.drop_last(), pred);
    }
}

/// Every cell is closed (the state of a freshly generated grid).
pub open spec fn all_closed(g: Seq<Field>) -> bool {
    forall|i: int| 0 <= i < g.len() ==> (#[trigger] g[i]).visibility is Closed
}

pub open spec fn all_wf(g: Seq<Field>) -> bool {
    forall|i: int| 0 <= i < g.len() ==> (#[trigger] g[i]).wf()
}

/// What every generator owes: a closed grid of the right size whose
/// mines number `mine_amount` and whose number tiles count them.
pub open spec fn generated_grid(g: Seq<Field>, width: usize, height: usize, mine_amount: usize) -> bool {
    &&& g.len() == width * height
    &&& all_closed(g)
    &&& all_wf(g)
    &&& numbers_correct(g, width, height)
    &&& count_mines(g) == mine_amount
}

/// No mine cell is open (holds while a session is still undecided).
pub open spec fn no_mine_open(g: Seq<Field>) -> bool {
    forall|i: int|
        0 <= i < g.len() && (#[trigger] g[i]).tile is Mine ==> !(g[i].visibility is Open)
}

/// Neighbor-mine counts only read tiles, so a change of visibility
/// alone preserves `numbers_correct`.
pub proof fn lemma_numbers_correct_same_tiles(
    g0: Seq<Field>,
    g1: Seq<Field>,
    width: usize,
    height: usize,
)
    requires
        g0.len() == g1.len(),
        g0.len() == width * height,
        forall|i: int| 0 <= i < g0.len() ==> g0[i].tile == (#[trigger] g1[i]).tile,
        numbers_correct(g0, width, height),
    ensures
        numbers_correct(g1, width, height),
{
    assert forall|ax: int, ay: int|
        mine_at(g1, width, height, ax, ay) == mine_at(g0, width, height, ax, ay) by {
        if in_bounds(width, height, ax, ay) {
            lemma_index_bounds(width, height, ax, ay);
        }
    }
    assert forall|x: int, y: int|
        in_bounds(width, height, x, y) implies #[trigger] cell_numbered(g1, width, height, x, y) by {
        assert(cell_numbered(g0, width, height, x, y));
        lemma_index_bounds(width, height, x, y);
        assert(mine_neighbor_count(g1, width, height, x, y) == mine_neighbor_count(
            g0,
            width,
            height,
            x,
            y,
        ));
    }
}

/// A cell whose tile is `Empty` has no mine among its neighbors.
pub proof fn lemma_empty_has_no_mine_neighbor(
    g: Seq<Field>,
    width: usize,
    height: usize,
    m: Position,
    q: Position,
)
    requires
        g.len() == width * height,
        numbers_correct(g, width, height),
        m.valid(width, height),
        g[m.spec_index(width)].tile is Empty,
        q.valid(width, height),
        m.spec_is_near(q),
        q != m,
    ensures
        !(g[q.spec_index(width)].tile is Mine),
{
    let x = m.x as int;
    let y = m.y as int;
    assert(cell_numbered(g, width, height, x, y));
    lemma_index_bounds(width, height, x, y);
    assert(cell_at(g, width, x, y) == g[m.spec_index(width)]);
    assert(mine_neighbor_count(g, width, height, x, y) == 0);
    lemma_index_bounds(width, height, q.x as int, q.y as int);
    assert(!mine_at(g, width, height, q.x as int, q.y as int));
    assert(cell_at(g, width, q.x as int, q.y as int) == g[q.spec_index(width)]);
}

/// Row-major coordinates stay inside the cell array.
pub proof fn lemma_index_bounds(width: usize, height: usize, x: int, y: int)
    requires
        in_bounds(width, height, x, y),
    ensures
        0 <= y * width + x < width * height,
{
    assert(0 <= y * width + x < width * height) by (nonlinear_arith)
        requires
            0 <= x < width,
            0 <= y < height,
    ;
}

/// Two distinct valid positions have distinct row-major indices.
pub proof fn lemma_index_injective(width: usize, height: usize, p: Position, q: Position)
    requires
        p.valid(width, height),
        q.valid(width, height),
        p.spec_index(width) == q.spec_index(width),
    ensures
        p == q,
{
    assert(p.x == q.x && p.y == q.y) by (nonlinear_arith)
        requires
            p.x < width,
            q.x < width,
            p.y * width + p.x == q.y * width + q.x,
    ;
}

/// A linear index splits into unique row-major coordinates.
pub proof fn lemma_index_to_xy(width: usize, height: usize, i: int)
    requires
        width > 0,
        0 <= i < width * height,
    ensures
        in_bounds(width, height, i % (width as int), i / (width as int)),
        (i / (width as int)) * width + i % (width as int) == i,
{
    vstd::arithmetic::div_mod::lemma_fundamental_div_mod(i, width as int);
    assert(width as int * (i / (width as int)) == (i / (width as int)) * width as int)
        by (nonlinear_arith);
    assert(i / (width as int) < height) by (nonlinear_arith)
        requires
            width > 0,
            0 <= i < width * height,
            i == (i / (width as int)) * width + i % (width as int),
            0 <= i % (width as int) < width,
    ;
}

/// The cell at `(x, y)` of a row-major cell array.
pub fn grid_field_at(fields: &Vec<Field>, width: usize, height: usize, x: usize, y: usize) -> (r:
    Field)
    requires
        fields@.len() == width * height,
        width * height <= usize::MAX,
        x < width,
        y < height,
    ensures
        r == cell_at(fields@, width, x as int, y as int),
{
    proof {
        lemma_index_bounds(width, height, x as int, y as int);
    }
    fields[y * width + x]
}

/// Counts the flagged cells among the in-bounds neighbors of `position`.
#[verifier::rlimit(50)]
pub fn count_flagged_neighbors(
    fields: &Vec<Field>,
    width: usize,
    height: usize,
    position: &Position,
) -> (r: usize)
    requires
        fields@.len() == width * height,
        width * height <= usize::MAX,
        position.valid(width, height),
    ensures
        r == flagged_neighbor_count(fields@, width, height, position.x as int, position.y as int),
{
    let x = position.x;
    let y = position.y;
    let mut c: usize = 0;
    if y > 0 {
        if x > 0 {
            if grid_field_at(fields, width, height, x - 1, y - 1).is_flagged() {
                c += 1;
            }
        }
        if grid_field_at(fields, width, height, x, y - 1).is_flagged() {
            c += 1;
        }
        if x + 1 < width {
            if grid_field_at(fields, width, height, x + 1, y - 1).is_flagged() {
                c += 1;
            }
        }
    }
    if x > 0 {
        if grid_field_at(fields, width, height, x - 1, y).is_flagged() {
            c += 1;
        }
    }
    if x + 1 < width {
        if grid_field_at(fields, width, height, x + 1, y).is_flagged() {
            c += 1;
        }
    }
    if y + 1 < height {
        if x > 0 {
            if grid_field_at(fields, width, height, x - 1, y + 1).is_flagged() {
                c += 1;
            }
        }
        if grid_field_at(fields, width, height, x, y + 1).is_flagged() {
            c += 1;
        }
        if x + 1 < width {
            if grid_field_at(fields, width, height, x + 1, y + 1).is_flagged() {
                c += 1;
            }
        }
    }
    c
}

/// Counts the closed cells among the in-bounds neighbors of `position`.
#[verifier::rlimit(50)]
pub fn count_closed_neighbors(
    fields: &Vec<Field>,
    width: usize,
    height: usize,
    position: &Position,
) -> (r: usize)
    requires
        fields@.len() == width * height,
        width * height <= usize::MAX,
        position.valid(width, height),
    ensures
        r == closed_neighbor_count(fields@, width, height, position.x as int, position.y as int),
{
    let x = position.x;
    let y = position.y;
    let mut c: usize = 0;
    if y > 0 {
        if x > 0 {
            if grid_field_at(fields, width, height, x - 1, y - 1).is_closed() {
                c += 1;
            }
        }
        if grid_field_at(fields, width, height, x, y - 1).is_closed() {
            c += 1;
        }
        if x + 1 < width {
            if grid_field_at(fields, width, height, x + 1, y - 1).is_closed() {
                c += 1;
            }
        }
    }
    if x > 0 {
        if grid_field_at(fields, width, height, x - 1, y).is_closed() {
            c += 1;
        }
    }
    if x + 1 < width {
        if grid_field_at(fields, width, height, x + 1, y).is_closed() {
            c += 1;
        }
    }
    if y + 1 < height {
        if x > 0 {
            if grid_field_at(fields, width, height, x - 1, y + 1).is_closed() {
                c += 1;
            }
        }
        if grid_field_at(fields, width, height, x, y + 1).is_closed() {
            c += 1;
        }
        if x + 1 < width {
            if grid_field_at(fields, width, height, x + 1, y + 1).is_closed() {
                c += 1;
            }
        }
    }
    c
}

/// Counts the not-open (closed or flagged) cells among the in-bounds
/// neighbors of `position`.
#[verifier::rlimit(100)]
pub fn count_not_open_neighbors(
    fields: &Vec<Field>,
    width: usize,
    height: usize,
    position: &Position,
) -> (r: usize)
    requires
        fields@.len() == width * height,
        width * height <= usize::MAX,
        position.valid(width, height),
    ensures
        r == not_open_neighbor_count(fields@, width, height, position.x as int, position.y as int),
{
    let x = position.x;
    let y = position.y;
    let mut c: usize = 0;
    if y > 0 {
        if x > 0 {
            if !grid_field_at(fields, width, height, x - 1, y - 1).is_open() {
                c += 1;
            }
        }
        if !grid_field_at(fields, width, height, x, y - 1).is_open() {
            c += 1;
        }
        if x + 1 < width {
            if !grid_field_at(fields, width, height, x + 1, y - 1).is_open() {
                c += 1;
            }
        }
    }
    if x > 0 {
        if !grid_field_at(fields, width, height, x - 1, y).is_open() {
            c += 1;
        }
    }
    if x + 1 < width {
        if !grid_field_at(fields, width, height, x + 1, y).is_open() {
            c += 1;
        }
    }
    if y + 1 < height {
        if x > 0 {
            if !grid_field_at(fields, width, height, x - 1, y + 1).is_open() {
                c += 1;
            }
        }
        if !grid_field_at(fields, width, height, x, y + 1).is_open() {
            c += 1;
        }
        if x + 1 < width {
            if !grid_field_at(fields, width, height, x + 1, y + 1).is_open() {
                c += 1;
            }
        }
    }
    c
}

/// Counts the mines among the in-bounds neighbors of `position`.
#[verifier::rlimit(50)]
pub fn count_mine_neighbors(
    fields: &Vec<Field>,
    width: usize,
    height: usize,
    position: &Position,
) -> (r: usize)
    requires
        fields@.len() == width * height,
        width * height <= usize::MAX,
        position.valid(width, height),
    ensures
        r == mine_neighbor_count(fields@, width, height, position.x as int, position.y as int),
        r <= 8,
{
    let x = position.x;
    let y = position.y;
    let mut c: usize = 0;
    if y > 0 {
        if x > 0 {
            if grid_field_at(fields, width, height, x - 1, y - 1).is_mine() {
                c += 1;
            }
        }
        if grid_field_at(fields, width, height, x, y - 1).is_mine() {
            c += 1;
        }
        if x + 1 < width {
            if grid_field_at(fields, width, height, x + 1, y - 1).is_mine() {
                c += 1;
            }
        }
    }
    if x > 0 {
        if grid_field_at(fields, width, height, x - 1, y).is_mine() {
            c += 1;
        }
    }
    if x + 1 < width {
        if grid_field_at(fields, width, height, x + 1, y).is_mine() {
            c += 1;
        }
    }
    if y + 1 < height {
        if x > 0 {
            if grid_field_at(fields, width, height, x - 1, y + 1).is_mine() {
                c += 1;
            }
        }
        if grid_field_at(fields, width, height, x, y + 1).is_mine() {
            c += 1;
        }
        if x + 1 < width {
            if grid_field_at(fields, width, height, x + 1, y + 1).is_mine() {
                c += 1;
            }
        }
    }
    c
}

} // verus!
