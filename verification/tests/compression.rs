use pdf2::compress::{compress, compress_object};
use pdf2::document::ObjectGraph;
use pdf2::names::name;
use pdf2::object::{Dictionary, Object, Stream};
use pdf2::pages::{build_page_tree, page_ids};

fn stream(entries: Vec<(&str, Object)>, content: Vec<u8>) -> Object {
    Object::Stream(Stream {
        dict: Dictionary { entries: entries.into_iter().map(|(k, v)| (name(k), v)).collect() },
        content,
    })
}

fn inflate(object: &Object) -> Vec<u8> {
    match object {
        Object::Stream(s) => {
            let mut dict = lopdf::Dictionary::new();
            dict.set("Filter", lopdf::Object::Name(b"FlateDecode".to_vec()));
            lopdf::Stream::new(dict, s.content.clone()).decompressed_content().unwrap()
        }
        other => panic!("no stream: {:?}", other),
    }
}

#[test]
fn a_long_payload_is_deflated() {
    let payload: Vec<u8> = (0..2000u32).map(|i| (i % 7) as u8).collect();
    let mut object = stream(vec![("Kind", Object::Integer(1))], payload.clone());
    compress_object(&mut object);
    match &object {
        Object::Stream(s) => {
            assert!(s.content.len() + 19 < payload.len());
            assert_eq!(
                s.dict.entries,
                vec![
                    (name("Kind"), Object::Integer(1)),
                    (name("Filter"), Object::Name(name("FlateDecode"))),
                    (name("Length"), Object::Integer(s.content.len() as i64)),
                ]
            );
        }
        other => panic!("no stream: {:?}", other),
    }
    assert_eq!(inflate(&object), payload);
}

#[test]
fn an_old_length_is_replaced() {
    let payload = vec![b'a'; 500];
    let mut object = stream(vec![("Length", Object::Integer(500))], payload.clone());
    compress_object(&mut object);
    match &object {
        Object::Stream(s) => {
            assert_eq!(
                s.dict.entries,
                vec![
                    (name("Length"), Object::Integer(s.content.len() as i64)),
                    (name("Filter"), Object::Name(name("FlateDecode"))),
                ]
            );
            assert!(s.content.len() < 481);
        }
        other => panic!("no stream: {:?}", other),
    }
    assert_eq!(inflate(&object), payload);
}

#[test]
fn a_short_payload_is_left_alone() {
    let short = stream(vec![], b"BT /F1 24 Tf ET".to_vec());
    let mut object = short.clone();
    compress_object(&mut object);
    assert_eq!(object, short);
    let empty = stream(vec![], vec![]);
    let mut object = empty.clone();
    compress_object(&mut object);
    assert_eq!(object, empty);
}

#[test]
fn a_filtered_stream_is_left_alone() {
    let filtered = stream(vec![("Filter", Object::Name(name("DCTDecode")))], vec![0u8; 4000]);
    let mut object = filtered.clone();
    compress_object(&mut object);
    assert_eq!(object, filtered);
}

#[test]
fn other_objects_are_left_alone() {
    let mut object = Object::String(vec![0u8; 4000]);
    compress_object(&mut object);
    assert_eq!(object, Object::String(vec![0u8; 4000]));
}

#[test]
fn compress_reaches_every_stream_and_keeps_the_pages() {
    let mut doc = ObjectGraph::new();
    let content = doc.objects.allocate(stream(vec![], vec![b'x'; 3000]));
    let small = doc.objects.allocate(stream(vec![], vec![b'y'; 3]));
    let page = doc.objects.allocate(Object::Dictionary(Dictionary {
        entries: vec![
            (name("Type"), Object::Name(name("Page"))),
            (name("Contents"), Object::Reference(content)),
        ],
    }));
    build_page_tree(&mut doc, &vec![page]);
    let before: Vec<Object> =
        doc.objects.ids().iter().map(|id| doc.objects.get(*id).unwrap().clone()).collect();
    let trailer = doc.trailer.clone();
    compress(&mut doc);
    assert_eq!(page_ids(&doc), Ok(vec![page]));
    assert_eq!(doc.trailer, trailer);
    assert_eq!(doc.objects.len(), 5);
    assert_eq!(doc.objects.max_id(), 5);
    assert_eq!(inflate(doc.objects.get(content).unwrap()), vec![b'x'; 3000]);
    for (i, id) in doc.objects.ids().iter().enumerate() {
        if *id != content {
            assert_eq!(doc.objects.get(*id).unwrap(), &before[i]);
        }
    }
    assert_eq!(doc.objects.get(small), Ok(&stream(vec![], vec![b'y'; 3])));
    let once: Vec<Object> =
        doc.objects.ids().iter().map(|id| doc.objects.get(*id).unwrap().clone()).collect();
    compress(&mut doc);
    let twice: Vec<Object> =
        doc.objects.ids().iter().map(|id| doc.objects.get(*id).unwrap().clone()).collect();
    assert_eq!(once, twice);
}
