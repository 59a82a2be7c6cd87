use palapelify::{GeographicalHeader, Table, Vfs, VfsDirectory};

#[test]
fn geographical_header_splits_fields() {
    let header = GeographicalHeader::new("PLST|RI|750|00||Block 3030|");
    assert_eq!(header.len(), 7);
    assert_eq!(header.field(0), Some("PLST"));
    assert_eq!(header.field(4), Some(""));
    assert_eq!(header.field(5), Some("Block 3030"));
    assert_eq!(header.field(6), Some(""));
    assert_eq!(header.field(7), None);
}

#[test]
fn geographical_header_of_empty_line_has_one_field() {
    let header = GeographicalHeader::new("");
    assert_eq!(header.len(), 1);
    assert_eq!(header.field(0), Some(""));
}

#[test]
fn tables_compare_by_variant() {
    assert_eq!(Table::P1, Table::P1);
    assert_ne!(Table::P1, Table::H1);
}

#[test]
fn empty_vfs_has_no_roots() {
    assert_eq!(Vfs::empty().root_count(), 0);
}

#[test]
fn added_root_is_an_unresolved_directory() {
    let mut vfs = Vfs::empty();
    vfs.add_root_from_dir("data/");
    vfs.add_root_from_dir("shapes/");
    assert_eq!(vfs.root_count(), 2);
    assert_eq!(vfs.root_dirname(0), Some("data/"));
    assert_eq!(vfs.root_dirname(1), Some("shapes/"));
    let dir = VfsDirectory::new("x");
    assert_eq!(dir.dirname(), "x");
    assert!(!dir.resolved());
}
