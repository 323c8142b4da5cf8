use pdf2::document::ObjectGraph;
use pdf2::error::{ParseError, PdfError, ValidationError};
use pdf2::names::name;
use pdf2::object::{Dictionary, Object, ObjectId, Stream};
use pdf2::operations::{merge_pdfs, select_pages, split_pdf};
use pdf2::pages::{build_page_tree, node_at, page_ids, reference_ids, walk_pages, Node};
use pdf2::rotate::{rem_360, rotate_object, rotate_pdf, turn};

fn dict(entries: Vec<(&str, Object)>) -> Object {
    Object::Dictionary(Dictionary {
        entries: entries.into_iter().map(|(k, v)| (name(k), v)).collect(),
    })
}

fn create_dummy_pdf(text: &str, page_count: u32) -> ObjectGraph {
    let mut doc = ObjectGraph::new();
    let pages_id = doc.objects.allocate(Object::Null);
    let font_id = doc.objects.allocate(dict(vec![
        ("Type", Object::Name(name("Font"))),
        ("Subtype", Object::Name(name("Type1"))),
        ("BaseFont", Object::Name(name("Helvetica"))),
    ]));
    let resources_id =
        doc.objects.allocate(dict(vec![("Font", dict(vec![("F1", Object::Reference(font_id))]))]));
    let mut page_ids = vec![];
    for i in 0..page_count {
        let content = format!("BT /F1 24 Tf 100 700 Td ({} {}) Tj ET", text, i + 1);
        let content_id = doc.objects.allocate(Object::Stream(Stream {
            dict: Dictionary::new(),
            content: content.as_bytes().to_vec(),
        }));
        let page_id = doc.objects.allocate(dict(vec![
            ("Type", Object::Name(name("Page"))),
            ("Parent", Object::Reference(pages_id)),
            ("Resources", Object::Reference(resources_id)),
            ("Contents", Object::Reference(content_id)),
            (
                "MediaBox",
                Object::Array(vec![
                    Object::Integer(0),
                    Object::Integer(0),
                    Object::Integer(595),
                    Object::Integer(842),
                ]),
            ),
            ("Rotate", Object::Integer(0)),
        ]));
        page_ids.push(Object::Reference(page_id));
    }
    doc.objects.set(
        pages_id,
        dict(vec![
            ("Type", Object::Name(name("Pages"))),
            ("Kids", Object::Array(page_ids)),
            ("Count", Object::Integer(page_count as i64)),
        ]),
    );
    let catalog_id = doc.objects.allocate(dict(vec![
        ("Type", Object::Name(name("Catalog"))),
        ("Pages", Object::Reference(pages_id)),
    ]));
    doc.trailer.set(name("Root"), Object::Reference(catalog_id));
    doc
}

fn entry<'a>(doc: &'a ObjectGraph, id: ObjectId, key: &str) -> &'a Object {
    match doc.objects.get(id) {
        Ok(Object::Dictionary(d)) => d.get(&name(key)).unwrap(),
        other => panic!("no dictionary under {:?}: {:?}", id, other),
    }
}

fn reference(doc: &ObjectGraph, id: ObjectId, key: &str) -> ObjectId {
    match entry(doc, id, key) {
        Object::Reference(r) => *r,
        other => panic!("no reference under {}: {:?}", key, other),
    }
}

fn page_text(doc: &ObjectGraph, page: ObjectId) -> String {
    match doc.objects.get(reference(doc, page, "Contents")) {
        Ok(Object::Stream(stream)) => String::from_utf8(stream.content.clone()).unwrap(),
        other => panic!("no content stream: {:?}", other),
    }
}

fn rotation(doc: &ObjectGraph, page: ObjectId) -> i64 {
    match entry(doc, page, "Rotate") {
        Object::Integer(v) => *v,
        other => panic!("no rotation: {:?}", other),
    }
}

#[test]
fn test_merge_pdfs() {
    let doc1 = create_dummy_pdf("Doc1", 1);
    let doc2 = create_dummy_pdf("Doc2", 1);

    let merged_doc = merge_pdfs(&vec![doc1, doc2]).unwrap();

    let pages = page_ids(&merged_doc).unwrap();
    assert_eq!(pages.len(), 2);
    let page1_text = page_text(&merged_doc, pages[0]);
    assert!(page1_text.contains("Doc1"));
    let page2_text = page_text(&merged_doc, pages[1]);
    assert!(page2_text.contains("Doc2"));
}

#[test]
fn test_split_pdf() {
    let doc = create_dummy_pdf("Page", 3);

    let split_doc = split_pdf(&doc, 2, 3).unwrap();

    let pages = page_ids(&split_doc).unwrap();
    assert_eq!(pages.len(), 2);
    let page1_text = page_text(&split_doc, pages[0]);
    assert!(page1_text.contains("Page 2"));
    let page2_text = page_text(&split_doc, pages[1]);
    assert!(page2_text.contains("Page 3"));
}

#[test]
fn test_rotate_pdf() {
    let mut doc = create_dummy_pdf("Page", 1);

    rotate_pdf(&mut doc, 90).unwrap();

    let page_id = page_ids(&doc).unwrap()[0];
    assert_eq!(rotation(&doc, page_id), 90);
}

#[test]
fn merge_lists_pages_in_source_order() {
    let a = create_dummy_pdf("A", 2);
    let b = create_dummy_pdf("B", 3);
    let merged = merge_pdfs(&vec![a, b]).unwrap();
    let pages = page_ids(&merged).unwrap();
    let texts: Vec<String> = pages.iter().map(|p| page_text(&merged, *p)).collect();
    assert_eq!(
        texts,
        vec![
            "BT /F1 24 Tf 100 700 Td (A 1) Tj ET",
            "BT /F1 24 Tf 100 700 Td (A 2) Tj ET",
            "BT /F1 24 Tf 100 700 Td (B 1) Tj ET",
            "BT /F1 24 Tf 100 700 Td (B 2) Tj ET",
            "BT /F1 24 Tf 100 700 Td (B 3) Tj ET",
        ]
    );
}

#[test]
fn merge_builds_a_fresh_page_tree() {
    let a = create_dummy_pdf("A", 2);
    let merged = merge_pdfs(&vec![a]).unwrap();
    let catalog = match merged.trailer.get(&name("Root")) {
        Some(Object::Reference(id)) => *id,
        other => panic!("no root: {:?}", other),
    };
    assert_eq!(merged.trailer.len(), 1);
    assert_eq!(entry(&merged, catalog, "Type"), &Object::Name(name("Catalog")));
    let root = reference(&merged, catalog, "Pages");
    let pages = page_ids(&merged).unwrap();
    assert_eq!(
        merged.objects.get(root),
        Ok(&dict(vec![
            ("Type", Object::Name(name("Pages"))),
            ("Kids", Object::Array(pages.iter().map(|p| Object::Reference(*p)).collect())),
            ("Count", Object::Integer(2)),
        ]))
    );
    // two pages, two content streams, resources, font, the copied old page
    // tree node, the new node and the catalog
    assert_eq!(merged.objects.len(), 9);
}

#[test]
fn merge_shares_a_font_within_a_source_and_not_across_sources() {
    let a = create_dummy_pdf("A", 2);
    let b = create_dummy_pdf("B", 1);
    let merged = merge_pdfs(&vec![a, b]).unwrap();
    let pages = page_ids(&merged).unwrap();
    let fonts: Vec<ObjectId> = pages
        .iter()
        .map(|p| {
            let resources = reference(&merged, *p, "Resources");
            match entry(&merged, resources, "Font") {
                Object::Dictionary(d) => match d.get(&name("F1")) {
                    Some(Object::Reference(font)) => *font,
                    other => panic!("no font: {:?}", other),
                },
                other => panic!("no font dictionary: {:?}", other),
            }
        })
        .collect();
    assert_eq!(fonts[0], fonts[1]);
    assert_ne!(fonts[0], fonts[2]);
    assert_eq!(merged.objects.get(fonts[0]), merged.objects.get(fonts[2]));
    assert_eq!(
        entry(&merged, fonts[0], "BaseFont"),
        &Object::Name(name("Helvetica"))
    );
}

#[test]
fn merge_of_nothing_is_an_empty_document() {
    let merged = merge_pdfs(&vec![]).unwrap();
    assert_eq!(page_ids(&merged).unwrap(), vec![]);
    assert_eq!(merged.objects.len(), 2);
}

#[test]
fn merge_fails_without_catalog() {
    let a = create_dummy_pdf("A", 1);
    let b = ObjectGraph::new();
    assert_eq!(
        merge_pdfs(&vec![a, b]).err(),
        Some(PdfError::Parse(ParseError::MissingCatalog))
    );
}

#[test]
fn merge_fails_on_dangling_reference() {
    let mut a = create_dummy_pdf("A", 1);
    let page = page_ids(&a).unwrap()[0];
    a.objects.set(
        page,
        dict(vec![
            ("Type", Object::Name(name("Page"))),
            ("Contents", Object::Reference((77, 0))),
        ]),
    );
    assert_eq!(
        merge_pdfs(&vec![a]).err(),
        Some(PdfError::Parse(ParseError::DanglingReference((77, 0))))
    );
}

#[test]
fn split_outside_the_bounds_takes_the_intersection() {
    let doc = create_dummy_pdf("Page", 3);
    let texts = |start: u32, end: u32| -> Vec<String> {
        let split = split_pdf(&doc, start, end).unwrap();
        page_ids(&split).unwrap().iter().map(|p| page_text(&split, *p)).collect()
    };
    assert_eq!(texts(2, 10).len(), 2);
    assert!(texts(2, 10)[1].contains("Page 3"));
    assert_eq!(texts(0, 1).len(), 1);
    assert!(texts(0, 1)[0].contains("Page 1"));
    assert_eq!(texts(0, u32::MAX).len(), 3);
    assert_eq!(texts(4, 9).len(), 0);
    assert_eq!(texts(3, 2).len(), 0);
    assert_eq!(texts(0, 0).len(), 0);
    assert_eq!(texts(1, 1).len(), 1);
    assert_eq!(texts(1, 3).len(), 3);
}

#[test]
fn select_pages_counts_from_one() {
    let pages = vec![(10, 0), (11, 0), (12, 0), (13, 0)];
    assert_eq!(select_pages(&pages, 2, 3), vec![(11, 0), (12, 0)]);
    assert_eq!(select_pages(&pages, 1, 4), pages);
    assert_eq!(select_pages(&pages, 0, 1), vec![(10, 0)]);
    assert_eq!(select_pages(&pages, 4, 100), vec![(13, 0)]);
    assert_eq!(select_pages(&pages, 5, 100), vec![]);
    assert_eq!(select_pages(&pages, 3, 1), vec![]);
}

#[test]
fn split_fails_without_catalog() {
    assert_eq!(
        split_pdf(&ObjectGraph::new(), 1, 1).err(),
        Some(PdfError::Parse(ParseError::MissingCatalog))
    );
}

#[test]
fn split_ignores_dangling_references_outside_the_range() {
    let mut doc = create_dummy_pdf("Page", 2);
    let pages = page_ids(&doc).unwrap();
    doc.objects.set(
        pages[1],
        dict(vec![("Type", Object::Name(name("Page"))), ("Contents", Object::Reference((88, 0)))]),
    );
    // the first page leads to the second through its parent
    assert_eq!(
        split_pdf(&doc, 1, 1).err(),
        Some(PdfError::Parse(ParseError::DanglingReference((88, 0))))
    );
    let mut lone = ObjectGraph::new();
    let good = lone.objects.allocate(dict(vec![("Type", Object::Name(name("Page")))]));
    let bad = lone.objects.allocate(dict(vec![
        ("Type", Object::Name(name("Page"))),
        ("Contents", Object::Reference((88, 0))),
    ]));
    build_page_tree(&mut lone, &vec![good, bad]);
    assert_eq!(page_ids(&split_pdf(&lone, 1, 1).unwrap()).unwrap().len(), 1);
    assert_eq!(
        split_pdf(&lone, 1, 2).err(),
        Some(PdfError::Parse(ParseError::DanglingReference((88, 0))))
    );
}

#[test]
fn rotate_twice_by_90_is_rotate_by_180() {
    let mut twice = create_dummy_pdf("Page", 2);
    rotate_pdf(&mut twice, 90).unwrap();
    rotate_pdf(&mut twice, 90).unwrap();
    let mut once = create_dummy_pdf("Page", 2);
    rotate_pdf(&mut once, 180).unwrap();
    for id in once.objects.ids() {
        assert_eq!(twice.objects.get(id), once.objects.get(id));
    }
    let page = page_ids(&once).unwrap()[1];
    assert_eq!(rotation(&once, page), 180);
}

#[test]
fn four_quarter_turns_restore_the_rotation() {
    let mut doc = create_dummy_pdf("Page", 1);
    let page = page_ids(&doc).unwrap()[0];
    let mut seen = vec![];
    for _ in 0..4 {
        rotate_pdf(&mut doc, 90).unwrap();
        seen.push(rotation(&doc, page));
    }
    assert_eq!(seen, vec![90, 180, 270, 0]);
}

#[test]
fn rotate_by_45_fails_without_touching_a_page() {
    let mut doc = create_dummy_pdf("Page", 2);
    let before: Vec<Object> =
        doc.objects.ids().iter().map(|id| doc.objects.get(*id).unwrap().clone()).collect();
    assert_eq!(
        rotate_pdf(&mut doc, 45),
        Err(PdfError::Validation(ValidationError::InvalidAngle))
    );
    let after: Vec<Object> =
        doc.objects.ids().iter().map(|id| doc.objects.get(*id).unwrap().clone()).collect();
    assert_eq!(before, after);
}

#[test]
fn rotate_fails_without_catalog() {
    let mut doc = ObjectGraph::new();
    assert_eq!(rotate_pdf(&mut doc, 90), Err(PdfError::Parse(ParseError::MissingCatalog)));
    assert_eq!(
        rotate_pdf(&mut doc, 1),
        Err(PdfError::Validation(ValidationError::InvalidAngle))
    );
}

#[test]
fn rotate_adds_a_missing_rotation() {
    let mut doc = ObjectGraph::new();
    let page = doc.objects.allocate(dict(vec![("Type", Object::Name(name("Page")))]));
    build_page_tree(&mut doc, &vec![page]);
    rotate_pdf(&mut doc, 270).unwrap();
    assert_eq!(
        doc.objects.get(page),
        Ok(&dict(vec![("Type", Object::Name(name("Page"))), ("Rotate", Object::Integer(270))]))
    );
}

#[test]
fn rotation_is_the_sum_modulo_360() {
    assert_eq!(turn(0, 90), 90);
    assert_eq!(turn(270, 90), 0);
    assert_eq!(turn(270, 180), 90);
    assert_eq!(turn(0, -90), 270);
    assert_eq!(turn(90, -450), 0);
    assert_eq!(turn(-90, 0), 270);
    assert_eq!(turn(450, 0), 90);
    assert_eq!(turn(0, 360), 0);
    assert_eq!(turn(i64::MAX, i32::MAX), ((i64::MAX % 360) + (i32::MAX as i64 % 360)) % 360);
    assert_eq!(turn(i64::MIN, i32::MIN), (i64::MIN.rem_euclid(360) + (i32::MIN as i64).rem_euclid(360)) % 360);
    assert_eq!(rem_360(-1), 359);
    assert_eq!(rem_360(-360), 0);
    assert_eq!(rem_360(-361), 359);
    assert_eq!(rem_360(719), 359);
    assert_eq!(rem_360(i64::MIN), i64::MIN.rem_euclid(360));
}

#[test]
fn rotate_object_leaves_other_objects_alone() {
    let mut number = Object::Integer(3);
    rotate_object(&mut number, 90);
    assert_eq!(number, Object::Integer(3));
    let mut page = dict(vec![("Rotate", Object::Name(name("x"))), ("Type", Object::Null)]);
    rotate_object(&mut page, 90);
    assert_eq!(page, dict(vec![("Rotate", Object::Integer(90)), ("Type", Object::Null)]));
    rotate_object(&mut page, -180);
    assert_eq!(page, dict(vec![("Rotate", Object::Integer(270)), ("Type", Object::Null)]));
}

#[test]
fn negative_quarter_turns_are_accepted() {
    let mut doc = create_dummy_pdf("Page", 1);
    rotate_pdf(&mut doc, -90).unwrap();
    let page = page_ids(&doc).unwrap()[0];
    assert_eq!(rotation(&doc, page), 270);
    rotate_pdf(&mut doc, -270).unwrap();
    assert_eq!(rotation(&doc, page), 0);
}

#[test]
fn page_walk_flattens_nested_nodes_in_order() {
    let mut doc = ObjectGraph::new();
    let page = |doc: &mut ObjectGraph| {
        doc.objects.allocate(dict(vec![("Type", Object::Name(name("Page")))]))
    };
    let p1 = page(&mut doc);
    let p2 = page(&mut doc);
    let p3 = page(&mut doc);
    let p4 = page(&mut doc);
    let inner = doc.objects.allocate(dict(vec![
        ("Type", Object::Name(name("Pages"))),
        ("Kids", Object::Array(vec![Object::Reference(p2), Object::Reference(p3)])),
        ("Count", Object::Integer(99)),
    ]));
    let other = doc.objects.allocate(dict(vec![("Type", Object::Name(name("Font")))]));
    let root = doc.objects.allocate(dict(vec![
        ("Type", Object::Name(name("Pages"))),
        (
            "Kids",
            Object::Array(vec![
                Object::Reference(p1),
                Object::Integer(5),
                Object::Reference(inner),
                Object::Reference(other),
                Object::Reference((500, 0)),
                Object::Reference(p4),
            ]),
        ),
        ("Count", Object::Integer(1)),
    ]));
    let catalog = doc.objects.allocate(dict(vec![
        ("Type", Object::Name(name("Catalog"))),
        ("Pages", Object::Reference(root)),
    ]));
    doc.trailer.set(name("Root"), Object::Reference(catalog));
    assert_eq!(page_ids(&doc), Ok(vec![p1, p2, p3, p4]));
    assert_eq!(walk_pages(&doc.objects, inner), vec![p2, p3]);
    assert_eq!(node_at(&doc.objects, p1), Node::Page);
    assert_eq!(node_at(&doc.objects, inner), Node::Pages(vec![p2, p3]));
    assert_eq!(node_at(&doc.objects, other), Node::Other);
    assert_eq!(node_at(&doc.objects, (500, 0)), Node::Other);
}

#[test]
fn page_walk_leaves_a_cyclic_tree() {
    let mut doc = ObjectGraph::new();
    let page = doc.objects.allocate(dict(vec![("Type", Object::Name(name("Page")))]));
    let root = doc.objects.allocate(Object::Null);
    doc.objects.set(
        root,
        dict(vec![
            ("Type", Object::Name(name("Pages"))),
            (
                "Kids",
                Object::Array(vec![
                    Object::Reference(page),
                    Object::Reference(root),
                    Object::Reference(root),
                ]),
            ),
        ]),
    );
    // three objects: the root is opened three times, then passed over
    doc.objects.allocate(Object::Null);
    assert_eq!(walk_pages(&doc.objects, root), vec![page, page, page]);
}

#[test]
fn page_list_needs_a_catalog() {
    let mut doc = ObjectGraph::new();
    assert_eq!(page_ids(&doc), Err(ParseError::MissingCatalog));
    doc.trailer.set(name("Root"), Object::Reference((1, 0)));
    assert_eq!(page_ids(&doc), Err(ParseError::MissingCatalog));
    doc.objects.allocate(Object::Integer(1));
    assert_eq!(page_ids(&doc), Err(ParseError::MissingCatalog));
    doc.objects.set((1, 0), dict(vec![("Type", Object::Name(name("Catalog")))]));
    assert_eq!(page_ids(&doc), Ok(vec![]));
}

#[test]
fn reference_ids_passes_over_what_is_no_reference() {
    assert_eq!(
        reference_ids(&vec![
            Object::Reference((1, 0)),
            Object::Null,
            Object::Reference((2, 3)),
            Object::Integer(4),
        ]),
        vec![(1, 0), (2, 3)]
    );
}

#[test]
fn built_tree_lists_its_pages() {
    let mut doc = ObjectGraph::new();
    let p1 = doc.objects.allocate(dict(vec![("Type", Object::Name(name("Page")))]));
    let p2 = doc.objects.allocate(dict(vec![("Type", Object::Name(name("Page")))]));
    let (pages_id, catalog_id) = build_page_tree(&mut doc, &vec![p2, p1, p2]);
    assert_eq!(pages_id, (3, 0));
    assert_eq!(catalog_id, (4, 0));
    assert_eq!(page_ids(&doc), Ok(vec![p2, p1, p2]));
    assert_eq!(entry(&doc, pages_id, "Count"), &Object::Integer(3));
}
