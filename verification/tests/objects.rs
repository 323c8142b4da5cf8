use pdf2::names::name;
use pdf2::object::{bytes_clone, bytes_eq, Dictionary, Object, Stream};
use pdf2::table::{NotFound, ObjectTable};

#[test]
fn name_spells_ascii_bytes() {
    assert_eq!(name("Type"), vec![84u8, 121, 112, 101]);
    assert_eq!(name(""), Vec::<u8>::new());
}

#[test]
fn bytes_eq_compares_contents() {
    assert!(bytes_eq(&[1, 2, 3], &[1, 2, 3]));
    assert!(!bytes_eq(&[1, 2, 3], &[1, 2, 4]));
    assert!(!bytes_eq(&[1, 2, 3], &[1, 2]));
    assert!(bytes_eq(&[], &[]));
    assert_eq!(bytes_clone(&[7, 8, 9]), vec![7u8, 8, 9]);
}

#[test]
fn dictionary_set_then_get() {
    let mut dict = Dictionary::new();
    assert_eq!(dict.len(), 0);
    assert!(dict.get(&name("Title")).is_none());
    dict.set(name("Title"), Object::Integer(1));
    dict.set(name("Author"), Object::Integer(2));
    assert_eq!(dict.len(), 2);
    assert_eq!(dict.get(&name("Title")), Some(&Object::Integer(1)));
    assert_eq!(dict.get(&name("Author")), Some(&Object::Integer(2)));
    assert_eq!(dict.position(&name("Author")), Some(1));
    assert!(dict.has(&name("Author")));
    assert!(!dict.has(&name("Subject")));
}

#[test]
fn dictionary_set_replaces_in_place() {
    let mut dict = Dictionary::new();
    dict.set(name("A"), Object::Integer(1));
    dict.set(name("B"), Object::Integer(2));
    dict.set(name("A"), Object::Integer(3));
    assert_eq!(dict.len(), 2);
    assert_eq!(dict.entries[0], (name("A"), Object::Integer(3)));
    assert_eq!(dict.entries[1], (name("B"), Object::Integer(2)));
}

#[test]
fn dictionary_looks_up_first_entry() {
    let dict = Dictionary {
        entries: vec![(name("A"), Object::Integer(1)), (name("A"), Object::Integer(2))],
    };
    assert_eq!(dict.get(&name("A")), Some(&Object::Integer(1)));
    assert_eq!(dict.position(&name("A")), Some(0));
}

#[test]
fn clone_is_deep_and_equal() {
    let inner = Dictionary { entries: vec![(name("F1"), Object::Reference((4, 0)))] };
    let object = Object::Array(vec![
        Object::Null,
        Object::Boolean(true),
        Object::Integer(-5),
        Object::Real(0x3f80_0000),
        Object::String(vec![1, 2]),
        Object::Name(name("N")),
        Object::Dictionary(inner.clone()),
        Object::Stream(Stream { dict: inner, content: vec![9, 9] }),
        Object::Reference((7, 1)),
    ]);
    let copy = object.clone();
    assert_eq!(copy, object);
}

#[test]
fn table_allocates_fresh_identifiers() {
    let mut table = ObjectTable::new();
    assert_eq!(table.len(), 0);
    assert_eq!(table.max_id(), 0);
    let first = table.allocate(Object::Integer(1));
    let second = table.allocate(Object::Integer(2));
    assert_eq!(first, (1, 0));
    assert_eq!(second, (2, 0));
    assert_eq!(table.max_id(), 2);
    assert_eq!(table.len(), 2);
    assert_eq!(table.get(first), Ok(&Object::Integer(1)));
    assert_eq!(table.get(second), Ok(&Object::Integer(2)));
}

#[test]
fn table_get_of_absent_identifier_fails() {
    let mut table = ObjectTable::new();
    table.allocate(Object::Null);
    assert_eq!(table.get((9, 0)), Err(NotFound { id: (9, 0) }));
    assert_eq!(table.get((1, 1)), Err(NotFound { id: (1, 1) }));
    assert!(!table.contains((9, 0)));
    assert!(table.contains((1, 0)));
}

#[test]
fn table_set_overwrites_and_raises_max_id() {
    let mut table = ObjectTable::new();
    let id = table.allocate(Object::Integer(1));
    table.set(id, Object::Integer(5));
    assert_eq!(table.get(id), Ok(&Object::Integer(5)));
    assert_eq!(table.len(), 1);
    assert_eq!(table.max_id(), 1);
    table.set((10, 0), Object::Null);
    assert_eq!(table.max_id(), 10);
    assert_eq!(table.allocate(Object::Null), (11, 0));
}

#[test]
fn table_ids_lists_each_identifier_once() {
    let mut table = ObjectTable::new();
    table.set((5, 0), Object::Null);
    table.set((2, 1), Object::Null);
    table.set((2, 0), Object::Null);
    table.set((5, 0), Object::Integer(1));
    assert_eq!(table.ids(), vec![(2, 0), (2, 1), (5, 0)]);
}

#[test]
fn table_get_mut_changes_in_place() {
    let mut table = ObjectTable::new();
    let id = table.allocate(Object::Integer(1));
    let other = table.allocate(Object::Integer(2));
    *table.get_mut(id).unwrap() = Object::Boolean(true);
    assert_eq!(table.get(id), Ok(&Object::Boolean(true)));
    assert_eq!(table.get(other), Ok(&Object::Integer(2)));
    assert_eq!(table.get_mut((9, 0)), Err(NotFound { id: (9, 0) }));
    assert_eq!(table.len(), 2);
    assert_eq!(table.max_id(), 2);
}
