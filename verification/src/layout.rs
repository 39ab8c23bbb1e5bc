//! A memory-layout description: labelled cells grouped into scopes, stacked
//! into a column, with pointers between cells. This is the pure data model a
//! renderer consumes; it owns no drawing logic.

use vstd::prelude::*;

verus! {

/// Models one "variable" in memory. Could be multiple "bytes".
#[derive(Clone)]
pub struct Cell {
    /// The "name" of the "variable". Shown to the left of the "ladder".
    pub label: String,
    /// The "value" of the "variable". Shown inside the "ladder". For cells
    /// with size > 1, this is displayed in the first "byte".
    pub content: String,
    /// The "address" of the "variable". Shown to the right of the "ladder".
    pub address: String,
    /// The number of units this cell occupies in the "ladder".
    pub size: usize,
}

impl Default for Cell {
    /// An unnamed, empty cell of one unit.
    fn default() -> (r: Self)
        ensures
            r.label@ =~= Seq::<char>::empty(),
            r.content@ =~= Seq::<char>::empty(),
            r.address@ =~= Seq::<char>::empty(),
            r.size == 1,
    {
        Self { label: String::new(), content: String::new(), address: String::new(), size: 1 }
    }
}

impl Cell {
    /// Whether the address will be displayed or not. Currently the address
    /// is not shown if `address` is empty.
    pub fn showAddress(&self) -> (r: bool)
        ensures
            r == (self.address@.len() != 0),
    {
        !self.address.as_str().is_empty()
    }
}

/// The total number of units occupied by a sequence of cells.
pub open spec fn cells_size(cells: Seq<Cell>) -> int
    decreases cells.len(),
{
    if cells.len() == 0 {
        0
    } else {
        cells_size(cells.drop_last()) + cells.last().size
    }
}

/// A prefix of a cell sequence never occupies more units than the whole.
pub proof fn lemma_cells_size_prefix(cells: Seq<Cell>, n: int)
    requires
        0 <= n <= cells.len(),
    ensures
        0 <= cells_size(cells.take(n)) <= cells_size(cells),
    decreases cells.len(),
{
    if cells.len() == 0 {
        assert(cells.take(n) =~= cells);
    } else if n == cells.len() {
        assert(cells.take(n) =~= cells);
        lemma_cells_size_prefix(cells.drop_last(), cells.len() - 1);
    } else {
        assert(cells.take(n) =~= cells.drop_last().take(n));
        lemma_cells_size_prefix(cells.drop_last(), n);
    }
}

/// Models a continuous section of memory. This is usually used to display
/// the scope of a function.
#[derive(Clone)]
pub struct Scope {
    /// Name of the scope.
    pub name: String,
    pub cells: Vec<Cell>,
}

impl Scope {
    /// An empty scope with the given name.
    pub fn new(name: &str) -> (r: Self)
        ensures
            r.name@ == name@,
            r.cells@.len() == 0,
    {
        Scope { name: name.to_owned(), cells: Vec::new() }
    }

    /// Whether the name will be displayed: it is shown unless empty.
    pub fn showName(&self) -> (r: bool)
        ensures
            r == (self.name@.len() != 0),
    {
        !self.name.as_str().is_empty()
    }

    /// The total number of units occupied by the cells of this scope.
    pub fn size(&self) -> (r: usize)
        requires
            cells_size(self.cells@) <= usize::MAX,
        ensures
            r == cells_size(self.cells@),
    {
        let mut total: usize = 0;
        let mut i: usize = 0;
        while i < self.cells.len()
            invariant
                0 <= i <= self.cells@.len(),
                total == cells_size(self.cells@.take(i as int)),
                cells_size(self.cells@) <= usize::MAX,
            decreases self.cells@.len() - i,
        {
            proof {
                lemma_cells_size_prefix(self.cells@, i + 1);
                assert(self.cells@.take(i + 1).drop_last() =~= self.cells@.take(i as int));
            }
            total = total + self.cells[i].size;
            i = i + 1;
        }
        proof {
            assert(self.cells@.take(self.cells@.len() as int) =~= self.cells@);
        }
        total
    }

    /// Add a cell to the scope. The cell will be appended at the bottom.
    pub fn addCell(&mut self, cell: Cell)
        ensures
            final(self).cells@ == old(self).cells@.push(cell),
            final(self).name == old(self).name,
    {
        self.cells.push(cell);
    }

    /// The first cell labelled `label`, if any.
    pub fn findCell(&self, label: &str) -> (r: Option<&Cell>)
        ensures
            match r {
                Some(c) => exists|i: int|
                    0 <= i < self.cells@.len() && *c == self.cells@[i] && self.cells@[i].label@
                        == label@ && (forall|j: int|
                        0 <= j < i ==> self.cells@[j].label@ != label@),
                None => forall|i: int|
                    0 <= i < self.cells@.len() ==> self.cells@[i].label@ != label@,
            },
    {
        let lab: String = label.to_owned();
        let mut i: usize = 0;
        while i < self.cells.len()
            invariant
                lab@ == label@,
                0 <= i <= self.cells@.len(),
                forall|j: int| 0 <= j < i ==> self.cells@[j].label@ != label@,
            decreases self.cells@.len() - i,
        {
            if self.cells[i].label == lab {
                return Some(&self.cells[i]);
            }
            i = i + 1;
        }
        None
    }

    /// The position of the first cell labelled `label`, if any.
    pub fn findCellIndex(&self, label: &str) -> (r: Option<usize>)
        ensures
            match r {
                Some(i) => 0 <= i < self.cells@.len() && self.cells@[i as int].label@ == label@
                    && (forall|j: int| 0 <= j < i ==> self.cells@[j].label@ != label@),
                None => forall|i: int|
                    0 <= i < self.cells@.len() ==> self.cells@[i].label@ != label@,
            },
    {
        let lab: String = label.to_owned();
        let mut i: usize = 0;
        while i < self.cells.len()
            invariant
                lab@ == label@,
                0 <= i <= self.cells@.len(),
                forall|j: int| 0 <= j < i ==> self.cells@[j].label@ != label@,
            decreases self.cells@.len() - i,
        {
            if self.cells[i].label == lab {
                return Some(i);
            }
            i = i + 1;
        }
        None
    }

    /// The unit offset at which the cell at `index` begins: the total size
    /// of the cells above it.
    pub fn cellBegin(&self, index: usize) -> (r: usize)
        requires
            index <= self.cells@.len(),
            cells_size(self.cells@.take(index as int)) <= usize::MAX,
        ensures
            r == cells_size(self.cells@.take(index as int)),
    {
        let mut total: usize = 0;
        let mut i: usize = 0;
        while i < index
            invariant
                0 <= i <= index <= self.cells@.len(),
                total == cells_size(self.cells@.take(i as int)),
                cells_size(self.cells@.take(index as int)) <= usize::MAX,
            decreases index - i,
        {
            proof {
                lemma_cells_size_prefix(self.cells@.take(index as int), i + 1);
                assert(self.cells@.take(index as int).take(i + 1) =~= self.cells@.take(i + 1));
                assert(self.cells@.take(i + 1).drop_last() =~= self.cells@.take(i as int));
            }
            total = total + self.cells[i].size;
            i = i + 1;
        }
        total
    }
}

/// The position of a cell within a column: which scope, and which cell in it.
#[derive(Clone, Copy)]
pub struct CellIndex {
    pub scope: usize,
    pub cell: usize,
}

/// A cell named by the scope it sits in and its label.
#[derive(Clone)]
pub struct CellName {
    pub scope: String,
    pub cell: String,
}

/// An arrow from one named cell to another.
#[derive(Clone)]
pub struct Pointer {
    pub from: CellName,
    pub to: CellName,
}

impl Pointer {
    /// A pointer between two cells, each given as `(scope, cell)` names.
    pub fn new(from: (&str, &str), to: (&str, &str)) -> (r: Self)
        ensures
            r.from.scope@ == from.0@,
            r.from.cell@ == from.1@,
            r.to.scope@ == to.0@,
            r.to.cell@ == to.1@,
    {
        Self {
            from: CellName { scope: from.0.to_owned(), cell: from.1.to_owned() },
            to: CellName { scope: to.0.to_owned(), cell: to.1.to_owned() },
        }
    }
}

/// A vertical stack of scopes with pointers between their cells.
pub struct Column {
    pub scopes: Vec<Scope>,
    pub pointers: Vec<Pointer>,
}

impl Column {
    /// An empty column.
    pub fn new() -> (r: Self)
        ensures
            r.scopes@.len() == 0,
            r.pointers@.len() == 0,
    {
        Self { scopes: Vec::new(), pointers: Vec::new() }
    }

    /// Append a scope at the bottom of the column.
    pub fn addScope(&mut self, scope: Scope)
        ensures
            final(self).scopes@ == old(self).scopes@.push(scope),
            final(self).pointers@ == old(self).pointers@,
    {
        self.scopes.push(scope);
    }

    /// Add a pointer to the column.
    pub fn addPointer(&mut self, pointer: Pointer)
        ensures
            final(self).pointers@ == old(self).pointers@.push(pointer),
            final(self).scopes@ == old(self).scopes@,
    {
        self.pointers.push(pointer);
    }

    /// The first cell labelled `cell_label` within the first scope named
    /// `scope_name`; `None` if no scope matches, or the first matching
    /// scope has no such cell.
    pub fn findCell(&self, scope_name: &str, cell_label: &str) -> (r: Option<&Cell>)
        ensures
            match r {
                Some(c) => exists|si: int|
                    0 <= si < self.scopes@.len() && self.scopes@[si].name@ == scope_name@ && (
                    forall|sj: int| 0 <= sj < si ==> self.scopes@[sj].name@ != scope_name@)
                        && exists|i: int|
                        0 <= i < self.scopes@[si].cells@.len() && *c == self.scopes@[si].cells@[i]
                            && self.scopes@[si].cells@[i].label@ == cell_label@ && (forall|j: int|
                            0 <= j < i ==> self.scopes@[si].cells@[j].label@ != cell_label@),
                None => forall|si: int|
                    0 <= si < self.scopes@.len() && self.scopes@[si].name@ == scope_name@ && (
                    forall|sj: int| 0 <= sj < si ==> self.scopes@[sj].name@ != scope_name@)
                        ==> forall|i: int|
                        0 <= i < self.scopes@[si].cells@.len() ==> self.scopes@[si].cells@[i].label@
                            != cell_label@,
            },
    {
        let sname: String = scope_name.to_owned();
        let mut si: usize = 0;
        while si < self.scopes.len()
            invariant
                sname@ == scope_name@,
                0 <= si <= self.scopes@.len(),
                forall|sj: int| 0 <= sj < si ==> self.scopes@[sj].name@ != scope_name@,
            decreases self.scopes@.len() - si,
        {
            if self.scopes[si].name == sname {
                return self.scopes[si].findCell(cell_label);
            }
            si = si + 1;
        }
        None
    }

    /// The position of the first cell labelled `cell_label`, searching every
    /// scope named `scope_name` in order until one holds such a cell.
    pub fn findCellIndex(&self, scope_name: &str, cell_label: &str) -> (r: Option<CellIndex>)
        ensures
            match r {
                Some(ci) => 0 <= ci.scope < self.scopes@.len() && self.scopes@[
                    ci.scope as int].name@ == scope_name@ && 0 <= ci.cell < self.scopes@[
                    ci.scope as int].cells@.len() && self.scopes@[ci.scope as int].cells@[
                    ci.cell as int].label@ == cell_label@ && (forall|j: int|
                    0 <= j < ci.cell ==> self.scopes@[ci.scope as int].cells@[j].label@
                        != cell_label@) && (forall|sj: int, j: int|
                    0 <= sj < ci.scope && self.scopes@[sj].name@ == scope_name@ && 0 <= j
                        < self.scopes@[sj].cells@.len() ==> self.scopes@[sj].cells@[j].label@
                        != cell_label@),
                None => forall|sj: int, j: int|
                    0 <= sj < self.scopes@.len() && self.scopes@[sj].name@ == scope_name@ && 0 <= j
                        < self.scopes@[sj].cells@.len() ==> self.scopes@[sj].cells@[j].label@
                        != cell_label@,
            },
    {
        let sname: String = scope_name.to_owned();
        let mut si: usize = 0;
        while si < self.scopes.len()
            invariant
                sname@ == scope_name@,
                0 <= si <= self.scopes@.len(),
                forall|sj: int, j: int|
                    0 <= sj < si && self.scopes@[sj].name@ == scope_name@ && 0 <= j
                        < self.scopes@[sj].cells@.len() ==> self.scopes@[sj].cells@[j].label@
                        != cell_label@,
            decreases self.scopes@.len() - si,
        {
            if self.scopes[si].name == sname {
                if let Some(j) = self.scopes[si].findCellIndex(cell_label) {
                    return Some(CellIndex { scope: si, cell: j });
                }
            }
            si = si + 1;
        }
        None
    }
}

} // verus!
