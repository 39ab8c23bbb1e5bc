use triangulation::error::Error;
use triangulation::layout::{Cell, Column, Pointer, Scope};

fn cell(label: &str, content: &str, address: &str, size: usize) -> Cell {
    Cell {
        label: label.to_owned(),
        content: content.to_owned(),
        address: address.to_owned(),
        size,
    }
}

#[test]
fn default_cell_is_one_empty_unit() {
    let c = Cell::default();
    assert_eq!(c.label, "");
    assert_eq!(c.content, "");
    assert_eq!(c.address, "");
    assert_eq!(c.size, 1);
    assert!(!c.showAddress());
}

#[test]
fn show_address_only_when_present() {
    assert!(cell("x", "1", "0xff00", 1).showAddress());
    assert!(!cell("x", "1", "", 1).showAddress());
}

#[test]
fn scope_size_sums_cell_sizes() {
    let mut s = Scope::new("main");
    assert!(s.showName());
    assert!(!Scope::new("").showName());
    assert_eq!(s.size(), 0);
    s.addCell(cell("a", "1", "", 1));
    s.addCell(cell("b", "2", "", 4));
    s.addCell(cell("c", "3", "", 2));
    assert_eq!(s.size(), 7);
    assert_eq!(s.cellBegin(0), 0);
    assert_eq!(s.cellBegin(1), 1);
    assert_eq!(s.cellBegin(2), 5);
    assert_eq!(s.cellBegin(3), 7);
}

#[test]
fn find_cell_returns_first_match() {
    let mut s = Scope::new("main");
    s.addCell(cell("a", "1", "", 1));
    s.addCell(cell("b", "2", "", 1));
    s.addCell(cell("b", "3", "", 1));
    assert_eq!(s.findCellIndex("b"), Some(1));
    assert_eq!(s.findCell("b").unwrap().content, "2");
    assert_eq!(s.findCellIndex("z"), None);
    assert!(s.findCell("z").is_none());
}

#[test]
fn column_finds_cells_across_scopes() {
    let mut c = Column::new();
    let mut s1 = Scope::new("first");
    s1.addCell(cell("x", "1", "", 1));
    let mut s2 = Scope::new("second");
    s2.addCell(cell("y", "2", "", 1));
    s2.addCell(cell("z", "3", "", 1));
    c.addScope(s1);
    c.addScope(s2);
    c.addPointer(Pointer::new(("first", "x"), ("second", "z")));
    assert_eq!(c.scopes.len(), 2);
    assert_eq!(c.pointers.len(), 1);
    assert_eq!(c.pointers[0].from.scope, "first");
    assert_eq!(c.pointers[0].to.cell, "z");
    let found = c.findCell("second", "z").expect("the cell exists");
    assert_eq!(found.content, "3");
    assert!(c.findCell("second", "x").is_none());
    assert!(c.findCell("third", "x").is_none());
    let idx = c.findCellIndex("second", "y").expect("the cell exists");
    assert_eq!(idx.scope, 1);
    assert_eq!(idx.cell, 0);
    assert!(c.findCellIndex("second", "w").is_none());
}

#[test]
fn error_carries_its_message() {
    let e = Error::RuntimeError("something broke".to_owned());
    assert_eq!(e.message(), "something broke");
    let e2 = e.clone();
    assert_eq!(e, e2);
}
