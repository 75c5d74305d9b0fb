use vstd::prelude::*;

verus! {

/// A dense weight matrix held as rows of cells.  The rows are stored as
/// given; operations that walk the first row require the matrix to be
/// nonempty and rectangular.
pub struct WeightedAdjacencyMatrix {
    matrix: Vec<Vec<u64>>,
}

impl WeightedAdjacencyMatrix {
    /// The rows of the matrix as sequences of cells.
    pub closed spec fn m(self) -> Seq<Seq<u64>> {
        Seq::new(self.matrix@.len(), |i: int| self.matrix@[i]@)
    }

    /// Every row has the length of the first.
    pub open spec fn rectangular(self) -> bool {
        forall|i: int|
            0 <= i < self.m().len() ==> (#[trigger] self.m()[i]).len() == self.m()[0].len()
    }

    /// Wraps the given rows without copying or checking them.
    pub fn new(matrix: Vec<Vec<u64>>) -> (r: Self)
        ensures
            r.m().len() == matrix@.len(),
            forall|i: int| 0 <= i < matrix@.len() ==> r.m()[i] == (#[trigger] matrix@[i])@,
    {
        WeightedAdjacencyMatrix { matrix }
    }

    /// Reads the cell at `(row, col)`, or `None` when either index is out
    /// of range.
    pub fn get_value(&self, row: usize, col: usize) -> (r: Option<u64>)
        ensures
            row < self.m().len() && col < self.m()[row as int].len() ==> r == Some(
                self.m()[row as int][col as int],
            ),
            !(row < self.m().len() && col < self.m()[row as int].len()) ==> r is None,
    {
        if row < self.matrix.len() {
            let rv = &self.matrix[row];
            if col < rv.len() {
                return Some(rv[col]);
            }
        }
        None
    }

    /// Overwrites the cell at `(row, col)`; out-of-range coordinates are
    /// reported and change nothing.
    pub fn set_value(&mut self, row: usize, col: usize, value: u64) -> (r: Result<
        (),
        &'static str,
    >)
        ensures
            row < old(self).m().len() && col < old(self).m()[row as int].len() ==> r is Ok
                && final(self).m() == old(self).m().update(
                row as int,
                old(self).m()[row as int].update(col as int, value),
            ),
            !(row < old(self).m().len() && col < old(self).m()[row as int].len()) ==> (r matches
            Err(e) && e@ == "Coordinates out of bounds"@ && final(self).m() == old(self).m()),
    {
        if row < self.matrix.len() {
            if col < self.matrix[row].len() {
                let rv = &mut self.matrix[row];
                rv.set(col, value);
                proof {
                    assert(final(self).m() =~~= old(self).m().update(
                        row as int,
                        old(self).m()[row as int].update(col as int, value),
                    ));
                }
                return Ok(());
            }
        }
        Err("Coordinates out of bounds")
    }

    /// Builds the transpose of a nonempty rectangular matrix.
    pub fn transpose(&self) -> (r: WeightedAdjacencyMatrix)
        requires
            self.m().len() > 0,
            self.rectangular(),
        ensures
            r.m().len() == self.m()[0].len(),
            forall|i: int| 0 <= i < r.m().len() ==> (#[trigger] r.m()[i]).len() == self.m().len(),
            forall|i: int, j: int|
                0 <= i < r.m().len() && 0 <= j < self.m().len() ==> (#[trigger] r.m()[i][j])
                    == self.m()[j][i],
    {
        let cols = self.matrix[0].len();
        let rows = self.matrix.len();
        let mut transposed: Vec<Vec<u64>> = Vec::new();
        let mut i: usize = 0;
        while i < cols
            invariant
                i <= cols,
                rows == self.m().len() > 0,
                cols == self.m()[0].len(),
                self.rectangular(),
                transposed@.len() == i,
                forall|a: int| 0 <= a < i ==> (#[trigger] transposed@[a])@.len() == rows,
                forall|a: int, b: int|
                    #![trigger transposed@[a]@[b]]
                    0 <= a < i && 0 <= b < rows ==> transposed@[a]@[b] == self.m()[b][a],
            decreases cols - i,
        {
            let mut new_row: Vec<u64> = Vec::new();
            let mut j: usize = 0;
            while j < rows
                invariant
                    j <= rows,
                    i < cols,
                    rows == self.m().len(),
                    cols == self.m()[0].len(),
                    self.rectangular(),
                    new_row@.len() == j,
                    forall|b: int| 0 <= b < j ==> #[trigger] new_row@[b] == self.m()[b][i as int],
                decreases rows - j,
            {
                let rv = &self.matrix[j];
                proof {
                    assert(self.m()[j as int].len() == self.m()[0].len());
                    assert(rv@ == self.m()[j as int]);
                }
                new_row.push(rv[i]);
                j = j + 1;
            }
            transposed.push(new_row);
            i = i + 1;
        }
        let r = WeightedAdjacencyMatrix::new(transposed);
        proof {
            assert forall|a: int, b: int|
                0 <= a < r.m().len() && 0 <= b < rows implies (#[trigger] r.m()[a][b]) == self.m()[
                b][a] by {
                assert(r.m()[a] == transposed@[a]@);
            }
            assert forall|a: int| 0 <= a < r.m().len() implies (#[trigger] r.m()[a]).len()
                == rows by {
                assert(r.m()[a] == transposed@[a]@);
            }
        }
        r
    }

    /// Borrows the row at `row_index`, or `None` when out of range.
    pub fn get_row(&self, row_index: usize) -> (r: Option<&Vec<u64>>)
        ensures
            row_index < self.m().len() ==> (r matches Some(v) && v@ == self.m()[row_index as int]),
            row_index >= self.m().len() ==> r is None,
    {
        if row_index < self.matrix.len() {
            Some(&self.matrix[row_index])
        } else {
            None
        }
    }

    /// Copies the column at `col_index` of a nonempty rectangular matrix,
    /// or `None` when the index is out of range.
    pub fn get_column(&self, col_index: usize) -> (r: Option<Vec<u64>>)
        requires
            self.m().len() > 0,
            self.rectangular(),
        ensures
            col_index < self.m()[0].len() ==> (r matches Some(v) && v@.len() == self.m().len() && (
            forall|j: int|
                0 <= j < self.m().len() ==> #[trigger] v@[j] == self.m()[j][col_index as int])),
            col_index >= self.m()[0].len() ==> r is None,
    {
        if col_index >= self.matrix[0].len() {
            return None;
        }
        let rows = self.matrix.len();
        let mut column: Vec<u64> = Vec::new();
        let mut j: usize = 0;
        while j < rows
            invariant
                j <= rows,
                rows == self.m().len() > 0,
                self.rectangular(),
                col_index < self.m()[0].len(),
                column@.len() == j,
                forall|b: int|
                    0 <= b < j ==> #[trigger] column@[b] == self.m()[b][col_index as int],
            decreases rows - j,
        {
            let rv = &self.matrix[j];
            proof {
                assert(self.m()[j as int].len() == self.m()[0].len());
                assert(rv@ == self.m()[j as int]);
            }
            column.push(rv[col_index]);
            j = j + 1;
        }
        Some(column)
    }

    /// Multiplies every cell by `scalar`; every product must fit in `u64`.
    pub fn multiply_scalar(&mut self, scalar: u64)
        requires
            forall|i: int, j: int|
                0 <= i < old(self).m().len() && 0 <= j < old(self).m()[i].len() ==> (#[trigger] old(
                    self,
                ).m()[i][j]) * scalar <= u64::MAX,
        ensures
            final(self).m().len() == old(self).m().len(),
            forall|i: int|
                0 <= i < old(self).m().len() ==> (#[trigger] final(self).m()[i]).len() == old(
                    self,
                ).m()[i].len(),
            forall|i: int, j: int|
                0 <= i < old(self).m().len() && 0 <= j < old(self).m()[i].len() ==> (
                #[trigger] final(self).m()[i][j]) == old(self).m()[i][j] * scalar,
    {
        let rows = self.matrix.len();
        let mut i: usize = 0;
        while i < rows
            invariant
                i <= rows,
                rows == self.m().len() == old(self).m().len(),
                forall|a: int, b: int|
                    0 <= a < old(self).m().len() && 0 <= b < old(self).m()[a].len() ==> (
                    #[trigger] old(self).m()[a][b]) * scalar <= u64::MAX,
                forall|a: int|
                    0 <= a < rows ==> (#[trigger] self.m()[a]).len() == old(self).m()[a].len(),
                forall|a: int, b: int|
                    0 <= a < i && 0 <= b < old(self).m()[a].len() ==> (#[trigger] self.m()[a][b])
                        == old(self).m()[a][b] * scalar,
                forall|a: int, b: int|
                    i <= a < rows && 0 <= b < old(self).m()[a].len() ==> (#[trigger] self.m()[a][b])
                        == old(self).m()[a][b],
            decreases rows - i,
        {
            let cols = self.matrix[i].len();
            proof {
                assert(self.m()[i as int] == self.matrix@[i as int]@);
                assert(cols == old(self).m()[i as int].len());
            }
            let mut j: usize = 0;
            while j < cols
                invariant
                    j <= cols,
                    i < rows,
                    rows == self.m().len() == old(self).m().len(),
                    cols == old(self).m()[i as int].len(),
                    forall|a: int, b: int|
                        0 <= a < old(self).m().len() && 0 <= b < old(self).m()[a].len() ==> (
                        #[trigger] old(self).m()[a][b]) * scalar <= u64::MAX,
                    forall|a: int|
                        0 <= a < rows ==> (#[trigger] self.m()[a]).len() == old(self).m()[a].len(),
                    forall|a: int, b: int|
                        0 <= a < i && 0 <= b < old(self).m()[a].len() ==> (#[trigger] self.m()[a][b])
                            == old(self).m()[a][b] * scalar,
                    forall|a: int, b: int|
                        i < a < rows && 0 <= b < old(self).m()[a].len() ==> (#[trigger] self.m()[a][
                            b]) == old(self).m()[a][b],
                    forall|b: int|
                        0 <= b < j ==> (#[trigger] self.m()[i as int][b]) == old(self).m()[i as int][
                            b] * scalar,
                    forall|b: int|
                        j <= b < cols ==> (#[trigger] self.m()[i as int][b]) == old(self).m()[
                            i as int][b],
                decreases cols - j,
            {
                proof {
                    assert(self.m()[i as int] == self.matrix@[i as int]@);
                    assert(self.m()[i as int][j as int] == old(self).m()[i as int][j as int]);
                    assert(old(self).m()[i as int][j as int] * scalar <= u64::MAX);
                }
                let ghost pre = *self;
                let cur = self.matrix[i][j];
                let rv = &mut self.matrix[i];
                rv.set(j, cur * scalar);
                proof {
                    assert(self.matrix@ == pre.matrix@.update(
                        i as int,
                        self.matrix@[i as int],
                    ));
                    assert forall|a: int| 0 <= a < rows && a != i implies #[trigger] self.m()[a]
                        == pre.m()[a] by {
                        assert(self.matrix@[a] == pre.matrix@[a]);
                    }
                    assert(self.m()[i as int] =~= pre.m()[i as int].update(
                        j as int,
                        (cur * scalar) as u64,
                    ));
                }
                j = j + 1;
            }
            i = i + 1;
        }
    }

    /// Adds `other` cell by cell into `self`; matrices whose dimensions
    /// differ are rejected and left unchanged.  Every sum must fit in
    /// `u64`.
    pub fn add_matrix(&mut self, other: &WeightedAdjacencyMatrix) -> (r: Option<()>)
        requires
            old(self).m().len() > 0,
            other.m().len() > 0,
            old(self).rectangular(),
            other.rectangular(),
            (old(self).m().len() == other.m().len() && old(self).m()[0].len()
                == other.m()[0].len()) ==> forall|i: int, j: int|
                0 <= i < old(self).m().len() && 0 <= j < old(self).m()[i].len() ==> (#[trigger] old(
                    self,
                ).m()[i][j]) + other.m()[i][j] <= u64::MAX,
        ensures
            !(old(self).m().len() == other.m().len() && old(self).m()[0].len()
                == other.m()[0].len()) ==> r is None && final(self).m() == old(self).m(),
            (old(self).m().len() == other.m().len() && old(self).m()[0].len()
                == other.m()[0].len()) ==> r is Some && final(self).m().len() == old(
                self,
            ).m().len() && (forall|i: int|
                0 <= i < old(self).m().len() ==> (#[trigger] final(self).m()[i]).len() == old(
                    self,
                ).m()[i].len()) && (forall|i: int, j: int|
                0 <= i < old(self).m().len() && 0 <= j < old(self).m()[i].len() ==> (
                #[trigger] final(self).m()[i][j]) == old(self).m()[i][j] + other.m()[i][j]),
    {
        if self.matrix.len() != other.matrix.len() || self.matrix[0].len()
            != other.matrix[0].len() {
            return None;
        }
        let rows = self.matrix.len();
        let mut i: usize = 0;
        while i < rows
            invariant
                i <= rows,
                rows == self.m().len() == old(self).m().len() == other.m().len(),
                old(self).rectangular(),
                other.rectangular(),
                old(self).m()[0].len() == other.m()[0].len(),
                rows > 0,
                forall|a: int, b: int|
                    0 <= a < old(self).m().len() && 0 <= b < old(self).m()[a].len() ==> (
                    #[trigger] old(self).m()[a][b]) + other.m()[a][b] <= u64::MAX,
                forall|a: int|
                    0 <= a < rows ==> (#[trigger] self.m()[a]).len() == old(self).m()[a].len(),
                forall|a: int, b: int|
                    0 <= a < i && 0 <= b < old(self).m()[a].len() ==> (#[trigger] self.m()[a][b])
                        == old(self).m()[a][b] + other.m()[a][b],
                forall|a: int, b: int|
                    i <= a < rows && 0 <= b < old(self).m()[a].len() ==> (#[trigger] self.m()[a][b])
                        == old(self).m()[a][b],
            decreases rows - i,
        {
            let cols = self.matrix[i].len();
            proof {
                assert(self.m()[i as int] == self.matrix@[i as int]@);
                assert(cols == old(self).m()[i as int].len());
                assert(other.m()[i as int].len() == other.m()[0].len());
                assert(old(self).m()[i as int].len() == old(self).m()[0].len());
            }
            let mut j: usize = 0;
            while j < cols
                invariant
                    j <= cols,
                    i < rows,
                    rows == self.m().len() == old(self).m().len() == other.m().len(),
                    cols == old(self).m()[i as int].len(),
                    cols == other.m()[i as int].len(),
                    forall|a: int, b: int|
                        0 <= a < old(self).m().len() && 0 <= b < old(self).m()[a].len() ==> (
                        #[trigger] old(self).m()[a][b]) + other.m()[a][b] <= u64::MAX,
                    forall|a: int|
                        0 <= a < rows ==> (#[trigger] self.m()[a]).len() == old(self).m()[a].len(),
                    forall|a: int, b: int|
                        0 <= a < i && 0 <= b < old(self).m()[a].len() ==> (#[trigger] self.m()[a][b])
                            == old(self).m()[a][b] + other.m()[a][b],
                    forall|a: int, b: int|
                        i < a < rows && 0 <= b < old(self).m()[a].len() ==> (#[trigger] self.m()[a][
                            b]) == old(self).m()[a][b],
                    forall|b: int|
                        0 <= b < j ==> (#[trigger] self.m()[i as int][b]) == old(self).m()[i as int][
                            b] + other.m()[i as int][b],
                    forall|b: int|
                        j <= b < cols ==> (#[trigger] self.m()[i as int][b]) == old(self).m()[
                            i as int][b],
                decreases cols - j,
            {
                proof {
                    assert(self.m()[i as int] == self.matrix@[i as int]@);
                    assert(other.m()[i as int] == other.matrix@[i as int]@);
                    assert(self.m()[i as int][j as int] == old(self).m()[i as int][j as int]);
                    assert(old(self).m()[i as int][j as int] + other.m()[i as int][j as int]
                        <= u64::MAX);
                }
                let ghost pre = *self;
                let cur = self.matrix[i][j];
                let ov = other.matrix[i][j];
                let rv = &mut self.matrix[i];
                rv.set(j, cur + ov);
                proof {
                    assert forall|a: int| 0 <= a < rows && a != i implies #[trigger] self.m()[a]
                        == pre.m()[a] by {
                        assert(self.matrix@[a] == pre.matrix@[a]);
                    }
                    assert(self.m()[i as int] =~= pre.m()[i as int].update(
                        j as int,
                        (cur + ov) as u64,
                    ));
                }
                j = j + 1;
            }
            i = i + 1;
        }
        proof {
            assert(final(self).m() =~~= self.m());
        }
        Some(())
    }

    /// Subtracts `other` cell by cell from `self`; matrices whose
    /// dimensions differ are rejected and left unchanged.  No cell may
    /// drop below zero.
    pub fn subtract_matrix(&mut self, other: &WeightedAdjacencyMatrix) -> (r: Option<()>)
        requires
            old(self).m().len() > 0,
            other.m().len() > 0,
            old(self).rectangular(),
            other.rectangular(),
            (old(self).m().len() == other.m().len() && old(self).m()[0].len()
                == other.m()[0].len()) ==> forall|i: int, j: int|
                0 <= i < old(self).m().len() && 0 <= j < old(self).m()[i].len() ==> (#[trigger] old(
                    self,
                ).m()[i][j]) >= other.m()[i][j],
        ensures
            !(old(self).m().len() == other.m().len() && old(self).m()[0].len()
                == other.m()[0].len()) ==> r is None && final(self).m() == old(self).m(),
            (old(self).m().len() == other.m().len() && old(self).m()[0].len()
                == other.m()[0].len()) ==> r is Some && final(self).m().len() == old(
                self,
            ).m().len() && (forall|i: int|
                0 <= i < old(self).m().len() ==> (#[trigger] final(self).m()[i]).len() == old(
                    self,
                ).m()[i].len()) && (forall|i: int, j: int|
                0 <= i < old(self).m().len() && 0 <= j < old(self).m()[i].len() ==> (
                #[trigger] final(self).m()[i][j]) == old(self).m()[i][j] - other.m()[i][j]),
    {
        if self.matrix.len() != other.matrix.len() || self.matrix[0].len()
            != other.matrix[0].len() {
            return None;
        }
        let rows = self.matrix.len();
        let mut i: usize = 0;
        while i < rows
            invariant
                i <= rows,
                rows == self.m().len() == old(self).m().len() == other.m().len(),
                old(self).rectangular(),
                other.rectangular(),
                old(self).m()[0].len() == other.m()[0].len(),
                rows > 0,
                forall|a: int, b: int|
                    0 <= a < old(self).m().len() && 0 <= b < old(self).m()[a].len() ==> (
                    #[trigger] old(self).m()[a][b]) >= other.m()[a][b],
                forall|a: int|
                    0 <= a < rows ==> (#[trigger] self.m()[a]).len() == old(self).m()[a].len(),
                forall|a: int, b: int|
                    0 <= a < i && 0 <= b < old(self).m()[a].len() ==> (#[trigger] self.m()[a][b])
                        == old(self).m()[a][b] - other.m()[a][b],
                forall|a: int, b: int|
                    i <= a < rows && 0 <= b < old(self).m()[a].len() ==> (#[trigger] self.m()[a][b])
                        == old(self).m()[a][b],
            decreases rows - i,
        {
            let cols = self.matrix[i].len();
            proof {
                assert(self.m()[i as int] == self.matrix@[i as int]@);
                assert(cols == old(self).m()[i as int].len());
                assert(other.m()[i as int].len() == other.m()[0].len());
                assert(old(self).m()[i as int].len() == old(self).m()[0].len());
            }
            let mut j: usize = 0;
            while j < cols
                invariant
                    j <= cols,
                    i < rows,
                    rows == self.m().len() == old(self).m().len() == other.m().len(),
                    cols == old(self).m()[i as int].len(),
                    cols == other.m()[i as int].len(),
                    forall|a: int, b: int|
                        0 <= a < old(self).m().len() && 0 <= b < old(self).m()[a].len() ==> (
                        #[trigger] old(self).m()[a][b]) >= other.m()[a][b],
                    forall|a: int|
                        0 <= a < rows ==> (#[trigger] self.m()[a]).len() == old(self).m()[a].len(),
                    forall|a: int, b: int|
                        0 <= a < i && 0 <= b < old(self).m()[a].len() ==> (#[trigger] self.m()[a][b])
                            == old(self).m()[a][b] - other.m()[a][b],
                    forall|a: int, b: int|
                        i < a < rows && 0 <= b < old(self).m()[a].len() ==> (#[trigger] self.m()[a][
                            b]) == old(self).m()[a][b],
                    forall|b: int|
                        0 <= b < j ==> (#[trigger] self.m()[i as int][b]) == old(self).m()[i as int][
                            b] - other.m()[i as int][b],
                    forall|b: int|
                        j <= b < cols ==> (#[trigger] self.m()[i as int][b]) == old(self).m()[
                            i as int][b],
                decreases cols - j,
            {
                proof {
                    assert(self.m()[i as int] == self.matrix@[i as int]@);
                    assert(other.m()[i as int] == other.matrix@[i as int]@);
                    assert(self.m()[i as int][j as int] == old(self).m()[i as int][j as int]);
                    assert(old(self).m()[i as int][j as int] >= other.m()[i as int][j as int]);
                }
                let ghost pre = *self;
                let cur = self.matrix[i][j];
                let ov = other.matrix[i][j];
                let rv = &mut self.matrix[i];
                rv.set(j, cur - ov);
                proof {
                    assert forall|a: int| 0 <= a < rows && a != i implies #[trigger] self.m()[a]
                        == pre.m()[a] by {
                        assert(self.matrix@[a] == pre.matrix@[a]);
                    }
                    assert(self.m()[i as int] =~= pre.m()[i as int].update(
                        j as int,
                        (cur - ov) as u64,
                    ));
                }
                j = j + 1;
            }
            i = i + 1;
        }
        proof {
            assert(final(self).m() =~~= self.m());
        }
        Some(())
    }
}

} // verus!
