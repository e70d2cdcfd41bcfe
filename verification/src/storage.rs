//! Dense integer arrays that the network model is stored in.
//!
//! The arrays themselves are `ndarray` arrays. Each array type here names the
//! entries it holds as nested sequences, and every operation on it states its
//! effect over those entries.

use ndarray::ShapeBuilder;
use vstd::prelude::*;

verus! {

/// `n`, or one where `n` is zero: the factor an axis of length `n` adds to the
/// number of addressable cells of an array.
pub open spec fn axis_factor(n: usize) -> int {
    if n == 0 {
        1
    } else {
        n as int
    }
}

/// Whether `entries` is a table of `rows` rows with `cols` cells each.
pub open spec fn is_table<A>(entries: Seq<Seq<A>>, rows: int, cols: int) -> bool {
    &&& entries.len() == rows
    &&& forall|r: int| 0 <= r < rows ==> (#[trigger] entries[r]).len() == cols
}

/// Whether `entries` is a stack of `depth` tables, each of `rows` rows with
/// `cols` cells.
pub open spec fn is_stack<A>(entries: Seq<Seq<Seq<A>>>, depth: int, rows: int, cols: int) -> bool {
    &&& entries.len() == depth
    &&& forall|d: int| 0 <= d < depth ==> is_table(#[trigger] entries[d], rows, cols)
}

/// A square matrix of edge marks, one row per parent and one column per child.
#[verifier::external_body]
pub struct AdjacencyMatrix {
    cells: ndarray::Array2<u16>,
}

/// The marks held by an adjacency matrix: `adjacency_entries(m)[p][c]` is the
/// mark of the edge from `p` to `c`.
pub uninterp spec fn adjacency_entries(m: AdjacencyMatrix) -> Seq<Seq<u16>>;

impl AdjacencyMatrix {
    /// Whether this is a matrix over `n` nodes.
    pub open spec fn has_order(&self, n: int) -> bool {
        is_table(adjacency_entries(*self), n, n)
    }

    /// `ndarray::Array2::<u16>::zeros` with a column-major `n` by `n` shape:
    /// the result has `n` rows of `n` zero marks. The call panics when the
    /// cell count or the byte size of the buffer exceeds `isize::MAX`, which
    /// the precondition leaves out.
    #[verifier::external_body]
    pub(crate) fn zeros(n: usize) -> (m: AdjacencyMatrix)
        requires
            2 * (axis_factor(n) * axis_factor(n)) <= isize::MAX,
        ensures
            is_table(adjacency_entries(m), n as int, n as int),
            forall|p: int, c: int|
                0 <= p < n && 0 <= c < n ==> (#[trigger] adjacency_entries(m)[p][c]) == 0,
    {
        AdjacencyMatrix { cells: ndarray::Array2::<u16>::zeros((n, n).f()) }
    }

    /// Index assignment on `ndarray::Array2<u16>` at `[parent, child]`: that
    /// one mark becomes `mark` and every other mark stays. Indexing panics
    /// out of bounds, which the precondition leaves out.
    #[verifier::external_body]
    pub(crate) fn set(&mut self, parent: usize, child: usize, mark: u16)
        requires
            parent < adjacency_entries(*old(self)).len(),
            child < adjacency_entries(*old(self))[parent as int].len(),
        ensures
            adjacency_entries(*final(self)) == adjacency_entries(*old(self)).update(
                parent as int,
                adjacency_entries(*old(self))[parent as int].update(child as int, mark),
            ),
    {
        self.cells[[parent, child]] = mark;
    }

    /// `ndarray::ArrayBase::column`, copied out top to bottom: the marks of
    /// the edges into `child`, by parent. The call panics when `child` is no
    /// column of the matrix, which the precondition leaves out.
    #[verifier::external_body]
    pub(crate) fn column(&self, child: usize) -> (marks: Vec<u16>)
        requires
            adjacency_entries(*self).len() > 0,
            forall|p: int|
                0 <= p < adjacency_entries(*self).len() ==> child < (
                #[trigger] adjacency_entries(*self)[p]).len(),
        ensures
            marks@.len() == adjacency_entries(*self).len(),
            forall|p: int|
                0 <= p < marks@.len() ==> #[trigger] marks@[p] == adjacency_entries(
                    *self,
                )[p][child as int],
    {
        self.cells.column(child).iter().map(|x| *x).collect()
    }

    /// `ndarray::ArrayBase::row`, copied out left to right: the marks of the
    /// edges out of `parent`, by child. The call panics when `parent` is no
    /// row of the matrix, which the precondition leaves out.
    #[verifier::external_body]
    pub(crate) fn row(&self, parent: usize) -> (marks: Vec<u16>)
        requires
            parent < adjacency_entries(*self).len(),
        ensures
            marks@ == adjacency_entries(*self)[parent as int],
    {
        self.cells.row(parent).iter().map(|x| *x).collect()
    }
}

/// Transition counts of one node: a stack with one table per parent
/// configuration, whose cell `[from][to]` counts the moves from state `from`
/// to state `to`.
#[verifier::external_body]
pub struct TransitionCounts {
    cells: ndarray::Array3<usize>,
}

/// The counts held: `transition_entries(m)[u][x][y]` is the count for parent
/// configuration `u`, from state `x`, to state `y`.
pub uninterp spec fn transition_entries(m: TransitionCounts) -> Seq<Seq<Seq<usize>>>;

/// The three axis lengths of the array of counts.
pub uninterp spec fn transition_dims(m: TransitionCounts) -> (usize, usize, usize);

/// Whether an array of the three axis lengths, of cells of `cell_bytes` bytes
/// each, can be allocated: neither the number of addressable cells nor the
/// size of the buffer may exceed `isize::MAX`.
pub open spec fn stack_fits(depth: usize, rows: usize, cols: usize, cell_bytes: int) -> bool {
    cell_bytes * (axis_factor(depth) * axis_factor(rows) * axis_factor(cols)) <= isize::MAX
}

/// The bytes that one count occupies.
pub open spec fn count_bytes() -> int {
    usize::BITS as int / 8
}

impl TransitionCounts {
    /// Whether the counts form a stack with the axis lengths recorded for
    /// them.
    pub open spec fn well_formed(&self) -> bool {
        is_stack(
            transition_entries(*self),
            transition_dims(*self).0 as int,
            transition_dims(*self).1 as int,
            transition_dims(*self).2 as int,
        )
    }

    /// `ndarray::Array3::<usize>::zeros` with the shape `(depth, rows, cols)`:
    /// every count of the result is zero. The call panics when the shape
    /// cannot be allocated, which the precondition leaves out.
    #[verifier::external_body]
    pub(crate) fn zeros(depth: usize, rows: usize, cols: usize) -> (m: TransitionCounts)
        requires
            stack_fits(depth, rows, cols, count_bytes()),
        ensures
            transition_dims(m) == (depth, rows, cols),
            is_stack(transition_entries(m), depth as int, rows as int, cols as int),
            forall|u: int, x: int, y: int|
                0 <= u < depth && 0 <= x < rows && 0 <= y < cols ==> (
                #[trigger] transition_entries(m)[u][x][y]) == 0,
    {
        TransitionCounts { cells: ndarray::Array3::<usize>::zeros((depth, rows, cols)) }
    }

    /// `ndarray::ArrayBase::dim` of the array of counts: its three axis
    /// lengths, which are those of the stack of counts that it holds.
    #[verifier::external_body]
    pub(crate) fn dims(&self) -> (d: (usize, usize, usize))
        ensures
            d == transition_dims(*self),
            is_stack(transition_entries(*self), d.0 as int, d.1 as int, d.2 as int),
    {
        self.cells.dim()
    }

    /// Indexing of `ndarray::Array3<usize>` at `[u, x, y]`: the count held
    /// there. Indexing panics out of bounds, which the precondition leaves
    /// out.
    #[verifier::external_body]
    pub(crate) fn get(&self, u: usize, x: usize, y: usize) -> (count: usize)
        requires
            u < transition_dims(*self).0,
            x < transition_dims(*self).1,
            y < transition_dims(*self).2,
        ensures
            count == transition_entries(*self)[u as int][x as int][y as int],
    {
        self.cells[[u, x, y]]
    }

    /// Index assignment on `ndarray::Array3<usize>` at `[u, x, y]`: that one
    /// count becomes `count`, every other count and the shape stay. Indexing
    /// panics out of bounds, which the precondition leaves out.
    #[verifier::external_body]
    pub(crate) fn set(&mut self, u: usize, x: usize, y: usize, count: usize)
        requires
            u < transition_dims(*old(self)).0,
            x < transition_dims(*old(self)).1,
            y < transition_dims(*old(self)).2,
        ensures
            transition_dims(*final(self)) == transition_dims(*old(self)),
            transition_entries(*final(self)) == transition_entries(*old(self)).update(
                u as int,
                transition_entries(*old(self))[u as int].update(
                    x as int,
                    transition_entries(*old(self))[u as int][x as int].update(y as int, count),
                ),
            ),
    {
        self.cells[[u, x, y]] = count;
    }

    /// `Clone::clone` of `ndarray::Array3<usize>`: an array of the same shape
    /// with the same counts.
    #[verifier::external_body]
    pub(crate) fn duplicate(&self) -> (m: TransitionCounts)
        ensures
            transition_dims(m) == transition_dims(*self),
            transition_entries(m) == transition_entries(*self),
    {
        TransitionCounts { cells: self.cells.clone() }
    }
}

/// Whether an array of counts of the three axis lengths can be allocated.
pub fn counts_fit(depth: usize, rows: usize, cols: usize) -> (fit: bool)
    ensures
        fit == stack_fits(depth, rows, cols, count_bytes()),
{
    let a: usize = if depth == 0 {
        1
    } else {
        depth
    };
    let b: usize = if rows == 0 {
        1
    } else {
        rows
    };
    let c: usize = if cols == 0 {
        1
    } else {
        cols
    };
    let bytes: usize = (usize::BITS / 8) as usize;
    let limit: usize = isize::MAX as usize;
    proof {
        assert(bytes == 4 || bytes == 8);
        assert(a * b * c >= a * b) by (nonlinear_arith)
            requires
                a >= 1,
                b >= 1,
                c >= 1,
        ;
        assert(bytes * (a * b * c) >= a * b * c) by (nonlinear_arith)
            requires
                bytes >= 1,
                a * b * c >= 0,
        ;
    }
    match a.checked_mul(b) {
        None => false,
        Some(ab) => match ab.checked_mul(c) {
            None => false,
            Some(abc) => match abc.checked_mul(bytes) {
                None => false,
                Some(size) => {
                    assert(size == bytes * (a * b * c)) by (nonlinear_arith)
                        requires
                            size == abc * bytes,
                            abc == ab * c,
                            ab == a * b,
                    ;
                    size <= limit
                },
            },
        },
    }
}

impl TransitionCounts {
    /// The axis lengths: parent configurations, source states, target
    /// states.
    pub fn shape(&self) -> (shape: (usize, usize, usize))
        ensures
            shape == transition_dims(*self),
            self.well_formed(),
    {
        self.dims()
    }

    /// The count of the moves from state `x` to state `y` under parent
    /// configuration `u`, or nothing where the array has no such cell.
    pub fn count(&self, u: usize, x: usize, y: usize) -> (count: Option<usize>)
        ensures
            count is Some <==> (u < transition_dims(*self).0 && x < transition_dims(*self).1 && y
                < transition_dims(*self).2),
            count matches Some(c) ==> c == transition_entries(*self)[u as int][x as int][y as int],
    {
        let (depth, rows, cols) = self.dims();
        if u < depth && x < rows && y < cols {
            Some(self.get(u, x, y))
        } else {
            None
        }
    }
}

impl Clone for TransitionCounts {
    fn clone(&self) -> (m: TransitionCounts)
        ensures
            transition_dims(m) == transition_dims(*self),
            transition_entries(m) == transition_entries(*self),
    {
        self.duplicate()
    }
}

/// The states observed along one trajectory: one row per sample, one column
/// per variable.
#[verifier::external_body]
pub struct EventTable {
    cells: ndarray::Array2<usize>,
}

/// The states held: `event_entries(e)[k][v]` is the state of variable `v` in
/// sample `k`.
pub uninterp spec fn event_entries(e: EventTable) -> Seq<Seq<usize>>;

/// The number of samples and the number of variables of a table of states.
pub uninterp spec fn event_dims(e: EventTable) -> (usize, usize);

/// Whether a table of the two axis lengths can be addressed.
pub open spec fn table_fits(rows: usize, cols: usize) -> bool {
    axis_factor(rows) * axis_factor(cols) <= isize::MAX
}

impl EventTable {
    /// Whether the states form a table with the axis lengths recorded for
    /// them.
    pub open spec fn well_formed(&self) -> bool {
        is_table(event_entries(*self), event_dims(*self).0 as int, event_dims(*self).1 as int)
    }

    /// `ndarray::Array2::<usize>::from_shape_vec` with the shape
    /// `(rows, cols)` in row-major order: the table exists exactly when
    /// `cells` holds one state per cell and the shape can be addressed, and
    /// then cell `[k][v]` is `cells[k * cols + v]`.
    #[verifier::external_body]
    pub(crate) fn from_cells(rows: usize, cols: usize, cells: Vec<usize>) -> (e: Option<EventTable>)
        ensures
            e is Some <==> (cells@.len() == rows * cols && table_fits(rows, cols)),
            e is Some ==> event_dims(e->0) == (rows, cols),
            e is Some ==> is_table(event_entries(e->0), rows as int, cols as int),
            e is Some ==> forall|k: int, v: int|
                0 <= k < rows && 0 <= v < cols ==> (#[trigger] event_entries(e->0)[k][v])
                    == cells@[k * cols + v],
    {
        match ndarray::Array2::<usize>::from_shape_vec((rows, cols), cells) {
            Ok(a) => Some(EventTable { cells: a }),
            Err(_) => None,
        }
    }

    /// `ndarray::ArrayBase::dim` of the table: its number of rows and of
    /// columns, which are those of the table of states that it holds.
    #[verifier::external_body]
    pub(crate) fn dims(&self) -> (d: (usize, usize))
        ensures
            d == event_dims(*self),
            is_table(event_entries(*self), d.0 as int, d.1 as int),
    {
        self.cells.dim()
    }

    /// `ndarray::ArrayBase::row`, copied out left to right: the states of
    /// sample `k`. The call panics when `k` is no row of the table, which the
    /// precondition leaves out.
    #[verifier::external_body]
    pub(crate) fn row(&self, k: usize) -> (states: Vec<usize>)
        requires
            k < event_dims(*self).0,
        ensures
            states@ == event_entries(*self)[k as int],
    {
        self.cells.row(k).iter().map(|x| *x).collect()
    }

    /// `Clone::clone` of `ndarray::Array2<usize>`: a table of the same shape
    /// with the same states.
    #[verifier::external_body]
    pub(crate) fn duplicate(&self) -> (e: EventTable)
        ensures
            event_dims(e) == event_dims(*self),
            event_entries(e) == event_entries(*self),
    {
        EventTable { cells: self.cells.clone() }
    }
}

/// In a row-major table of `cols` columns, the cell `w` of row `i` lies
/// before the first cell of any later row `k`.
pub proof fn lemma_cell_offset(i: int, w: int, k: int, cols: int)
    requires
        0 <= i < k,
        0 <= w < cols,
    ensures
        0 <= i * cols + w < k * cols,
{
    assert(i * cols + cols <= k * cols) by (nonlinear_arith)
        requires
            i + 1 <= k,
            cols >= 0,
    ;
    assert(0 <= i * cols) by (nonlinear_arith)
        requires
            0 <= i,
            cols >= 0,
    ;
}

/// Whether every row of `rows` has `cols` cells.
pub open spec fn rectangular(rows: Seq<Vec<usize>>, cols: int) -> bool {
    forall|k: int| 0 <= k < rows.len() ==> (#[trigger] rows[k])@.len() == cols
}

/// The number of cells of the first row, or zero where there is no row.
pub open spec fn first_width(rows: Seq<Vec<usize>>) -> int {
    if rows.len() == 0 {
        0
    } else {
        rows[0]@.len() as int
    }
}

impl EventTable {
    /// The table with the given rows, one per sample. There is one exactly
    /// when all rows have the same number of cells and the shape can be
    /// addressed.
    pub fn from_rows(rows: &Vec<Vec<usize>>) -> (table: Option<EventTable>)
        ensures
            table is Some <==> (rectangular(rows@, first_width(rows@)) && axis_factor(rows.len())
                * axis_factor(first_width(rows@) as usize) <= isize::MAX),
            table matches Some(t) ==> {
                &&& t.well_formed()
                &&& event_dims(t) == (rows.len(), first_width(rows@) as usize)
                &&& forall|k: int|
                    0 <= k < rows@.len() ==> #[trigger] event_entries(t)[k] == rows@[k]@
            },
    {
        let cols: usize = if rows.len() == 0 {
            0
        } else {
            rows[0].len()
        };
        let mut cells: Vec<usize> = Vec::new();
        let mut k: usize = 0;
        while k < rows.len()
            invariant
                k <= rows@.len(),
                cols == first_width(rows@),
                rectangular(rows@.take(k as int), cols as int),
                cells@.len() == k * cols,
                forall|i: int, v: int|
                    0 <= i < k && 0 <= v < cols ==> cells@[i * cols + v] == (#[trigger] rows@[i]@[v]),
            decreases rows@.len() - k,
        {
            let row = &rows[k];
            if row.len() != cols {
                proof {
                    assert(rows@[k as int]@.len() != cols);
                }
                return None;
            }
            let mut v: usize = 0;
            while v < cols
                invariant
                    v <= cols,
                    k < rows@.len(),
                    row@ == rows@[k as int]@,
                    row@.len() == cols,
                    cells@.len() == k * cols + v,
                    forall|i: int, w: int|
                        0 <= i < k && 0 <= w < cols ==> cells@[i * cols + w] == (
                        #[trigger] rows@[i]@[w]),
                    forall|w: int| 0 <= w < v ==> cells@[k * cols + w] == #[trigger] row@[w],
                decreases cols - v,
            {
                let ghost earlier = cells@;
                cells.push(row[v]);
                proof {
                    assert forall|i: int, w: int| 0 <= i < k && 0 <= w < cols implies cells@[i
                        * cols + w] == (#[trigger] rows@[i]@[w]) by {
                        lemma_cell_offset(i, w, k as int, cols as int);
                        assert(cells@[i * cols + w] == earlier[i * cols + w]);
                    }
                }
                v += 1;
            }
            proof {
                assert((k + 1) * cols == k * cols + cols) by (nonlinear_arith);
                assert(rows@.take(k + 1) =~= rows@.take(k as int).push(rows@[k as int]));
            }
            k += 1;
        }
        proof {
            assert(rows@.take(k as int) =~= rows@);
        }
        let table = EventTable::from_cells(rows.len(), cols, cells);
        proof {
            if table is Some {
                let t = table->0;
                assert forall|i: int| 0 <= i < rows@.len() implies #[trigger] event_entries(t)[i]
                    == rows@[i]@ by {
                    assert(event_entries(t)[i].len() == cols);
                    assert forall|w: int| 0 <= w < cols implies event_entries(t)[i][w]
                        == rows@[i]@[w] by {}
                    assert(event_entries(t)[i] =~= rows@[i]@);
                }
            }
        }
        table
    }

    /// The number of samples.
    pub fn samples(&self) -> (samples: usize)
        ensures
            samples == event_dims(*self).0,
            self.well_formed(),
    {
        self.dims().0
    }

    /// The number of variables.
    pub fn variables(&self) -> (variables: usize)
        ensures
            variables == event_dims(*self).1,
            self.well_formed(),
    {
        self.dims().1
    }

    /// The states of sample `k`, one per variable, or nothing where the
    /// table has no such sample.
    pub fn sample(&self, k: usize) -> (states: Option<Vec<usize>>)
        ensures
            states is Some <==> k < event_dims(*self).0,
            states matches Some(row) ==> row@ == event_entries(*self)[k as int],
    {
        if k < self.dims().0 {
            Some(self.row(k))
        } else {
            None
        }
    }
}

impl Clone for EventTable {
    fn clone(&self) -> (e: EventTable)
        ensures
            event_dims(e) == event_dims(*self),
            event_entries(e) == event_entries(*self),
    {
        self.duplicate()
    }
}

} // verus!
