use chrono::{FixedOffset, TimeZone, Utc};
use pdf2::date::{
    digits_of, find_last, format_pdf_date, instant, parse_pdf_date, zone_seconds, zone_split,
    PdfDate,
};
use pdf2::document::ObjectGraph;
use pdf2::error::{ParseError, PdfError, ValidationError};
use pdf2::metadata::{date_of, date_string_of, get_metadata, set_metadata, set_text, text_of, Metadata};
use pdf2::names::name;
use pdf2::object::{Dictionary, Object};
use pdf2::pages::build_page_tree;

fn new_document() -> ObjectGraph {
    let mut doc = ObjectGraph::new();
    let page = doc.objects.allocate(Object::Dictionary(Dictionary {
        entries: vec![(name("Type"), Object::Name(name("Page")))],
    }));
    build_page_tree(&mut doc, &vec![page]);
    doc
}

fn info<'a>(doc: &'a ObjectGraph) -> &'a Dictionary {
    let id = match doc.trailer.get(&name("Info")) {
        Some(Object::Reference(id)) => *id,
        other => panic!("no info: {:?}", other),
    };
    match doc.objects.get(id) {
        Ok(Object::Dictionary(d)) => d,
        other => panic!("no dictionary: {:?}", other),
    }
}

#[test]
fn test_get_and_set_metadata() {
    let mut doc = new_document();
    let now = Utc::now().with_timezone(&FixedOffset::east_opt(0).unwrap());
    let now = PdfDate { timestamp: now.timestamp(), offset: now.offset().local_minus_utc() };

    let initial_metadata = Metadata {
        title: Some("Initial Title".to_string()),
        author: Some("Initial Author".to_string()),
        subject: Some("Initial Subject".to_string()),
        keywords: Some("Initial, Keywords".to_string()),
        creator: Some("Initial Creator".to_string()),
        producer: Some("Initial Producer".to_string()),
        creation_date: Some(now),
        mod_date: Some(now),
    };

    set_metadata(&mut doc, &initial_metadata).unwrap();

    let retrieved_metadata = get_metadata(&doc);
    assert_eq!(retrieved_metadata.title, initial_metadata.title);
    assert_eq!(retrieved_metadata.author, initial_metadata.author);
    assert_eq!(retrieved_metadata.subject, initial_metadata.subject);
    assert_eq!(retrieved_metadata.keywords, initial_metadata.keywords);
    assert_eq!(retrieved_metadata.creator, initial_metadata.creator);
    assert_eq!(retrieved_metadata.producer, initial_metadata.producer);
    assert_eq!(
        retrieved_metadata.creation_date.unwrap().timestamp,
        initial_metadata.creation_date.unwrap().timestamp
    );
    assert_eq!(
        retrieved_metadata.mod_date.unwrap().timestamp,
        initial_metadata.mod_date.unwrap().timestamp
    );

    let updated_metadata = Metadata {
        title: Some("Updated Title".to_string()),
        author: Some("Updated Author".to_string()),
        ..Default::default()
    };

    set_metadata(&mut doc, &updated_metadata).unwrap();

    let retrieved_metadata_after_update = get_metadata(&doc);
    assert_eq!(retrieved_metadata_after_update.title, updated_metadata.title);
    assert_eq!(retrieved_metadata_after_update.author, updated_metadata.author);
}

#[test]
fn test_get_metadata_no_info_dict() {
    let doc = new_document();
    assert!(doc.trailer.get(&name("Info")).is_none());

    let metadata = get_metadata(&doc);

    assert!(metadata.title.is_none());
    assert!(metadata.author.is_none());
}

#[test]
fn setting_some_fields_leaves_the_others() {
    let mut doc = new_document();
    let first = Metadata {
        subject: Some("Kept Subject".to_string()),
        title: Some("Old Title".to_string()),
        creation_date: Some(PdfDate { timestamp: 1704092400, offset: 18000 }),
        ..Metadata::new()
    };
    set_metadata(&mut doc, &first).unwrap();
    let id = match doc.trailer.get(&name("Info")) {
        Some(Object::Reference(id)) => *id,
        other => panic!("no info: {:?}", other),
    };
    let mut with_more = info(&doc).clone();
    with_more.set(name("Trapped"), Object::Name(name("False")));
    doc.objects.set(id, Object::Dictionary(with_more));
    let second = Metadata {
        title: Some("New Title".to_string()),
        author: Some("New Author".to_string()),
        ..Metadata::new()
    };
    set_metadata(&mut doc, &second).unwrap();
    assert_eq!(
        get_metadata(&doc),
        Metadata {
            title: Some("New Title".to_string()),
            author: Some("New Author".to_string()),
            subject: Some("Kept Subject".to_string()),
            creation_date: Some(PdfDate { timestamp: 1704092400, offset: 18000 }),
            ..Metadata::new()
        }
    );
    assert_eq!(info(&doc).get(&name("Trapped")), Some(&Object::Name(name("False"))));
    assert_eq!(doc.trailer.get(&name("Info")), Some(&Object::Reference(id)));
}

#[test]
fn set_metadata_writes_texts_and_date_strings() {
    let mut doc = ObjectGraph::new();
    let metadata = Metadata {
        title: Some("T".to_string()),
        keywords: Some("é".to_string()),
        mod_date: Some(PdfDate { timestamp: 1704139200, offset: -28800 }),
        ..Metadata::new()
    };
    set_metadata(&mut doc, &metadata).unwrap();
    assert_eq!(doc.trailer.get(&name("Info")), Some(&Object::Reference((1, 0))));
    assert_eq!(
        doc.objects.get((1, 0)),
        Ok(&Object::Dictionary(Dictionary {
            entries: vec![
                (name("Title"), Object::String(vec![b'T'])),
                (name("Keywords"), Object::String(vec![0xc3, 0xa9])),
                (name("ModDate"), Object::String(b"D:20240101120000-0800".to_vec())),
            ],
        }))
    );
}

#[test]
fn default_metadata_is_empty() {
    let empty = Metadata {
        title: None,
        author: None,
        subject: None,
        keywords: None,
        creator: None,
        producer: None,
        creation_date: None,
        mod_date: None,
    };
    assert_eq!(Metadata::new(), empty);
    assert_eq!(Metadata::default(), empty);
    let mut doc = ObjectGraph::new();
    set_metadata(&mut doc, &empty).unwrap();
    assert_eq!(doc.objects.get((1, 0)), Ok(&Object::Dictionary(Dictionary::new())));
    assert_eq!(get_metadata(&doc), empty);
}

#[test]
fn get_metadata_passes_over_what_is_no_string() {
    let mut doc = ObjectGraph::new();
    let id = doc.objects.allocate(Object::Dictionary(Dictionary {
        entries: vec![
            (name("Title"), Object::Integer(3)),
            (name("Author"), Object::String(vec![0x41, 0xff, 0x42])),
            (name("CreationDate"), Object::String(b"yesterday".to_vec())),
            (name("ModDate"), Object::String(b"D:20240101120000Z".to_vec())),
        ],
    }));
    doc.trailer.set(name("Info"), Object::Reference(id));
    let metadata = get_metadata(&doc);
    assert_eq!(metadata.title, None);
    assert_eq!(metadata.author, Some("A\u{fffd}B".to_string()));
    assert_eq!(metadata.creation_date, None);
    assert_eq!(metadata.mod_date, Some(PdfDate { timestamp: 1704110400, offset: 0 }));
    assert_eq!(text_of(info(&doc), &name("Author")), Some("A\u{fffd}B".to_string()));
    assert_eq!(text_of(info(&doc), &name("Subject")), None);
    assert_eq!(date_of(info(&doc), &name("ModDate")), metadata.mod_date);
}

#[test]
fn get_metadata_without_a_dictionary_is_empty() {
    let mut doc = ObjectGraph::new();
    doc.trailer.set(name("Info"), Object::Reference((5, 0)));
    assert_eq!(get_metadata(&doc), Metadata::new());
    doc.objects.set((5, 0), Object::Integer(1));
    assert_eq!(get_metadata(&doc), Metadata::new());
    doc.trailer.set(name("Info"), Object::Integer(1));
    assert_eq!(get_metadata(&doc), Metadata::new());
}

#[test]
fn set_metadata_fails_without_changing_the_document() {
    let mut doc = ObjectGraph::new();
    doc.trailer.set(name("Info"), Object::Reference((5, 0)));
    let title = Metadata { title: Some("T".to_string()), ..Metadata::new() };
    assert_eq!(
        set_metadata(&mut doc, &title),
        Err(PdfError::Parse(ParseError::DanglingReference((5, 0))))
    );
    assert_eq!(doc.objects.len(), 0);
    doc.objects.set((5, 0), Object::Integer(1));
    assert_eq!(
        set_metadata(&mut doc, &title),
        Err(PdfError::Parse(ParseError::NotADictionary((5, 0))))
    );
    assert_eq!(doc.objects.get((5, 0)), Ok(&Object::Integer(1)));
    let late = Metadata {
        creation_date: Some(PdfDate { timestamp: i64::MAX, offset: 0 }),
        ..Metadata::new()
    };
    assert_eq!(
        set_metadata(&mut doc, &late),
        Err(PdfError::Validation(ValidationError::InvalidDate))
    );
    let far = Metadata {
        mod_date: Some(PdfDate { timestamp: 0, offset: 86400 }),
        ..Metadata::new()
    };
    assert_eq!(
        set_metadata(&mut doc, &far),
        Err(PdfError::Validation(ValidationError::InvalidDate))
    );
    assert_eq!(doc.trailer.len(), 1);
}

#[test]
fn set_metadata_replaces_an_info_entry_that_is_no_reference() {
    let mut doc = ObjectGraph::new();
    doc.objects.allocate(Object::Null);
    doc.trailer.set(name("Info"), Object::Integer(1));
    set_metadata(&mut doc, &Metadata { title: Some("T".to_string()), ..Metadata::new() }).unwrap();
    assert_eq!(doc.trailer.get(&name("Info")), Some(&Object::Reference((2, 0))));
    assert_eq!(get_metadata(&doc).title, Some("T".to_string()));
}

#[test]
fn set_text_stores_what_is_present() {
    let mut dict = Dictionary::new();
    set_text(&mut dict, name("Title"), &None);
    assert_eq!(dict.len(), 0);
    set_text(&mut dict, name("Title"), &Some("ab".to_string()));
    assert_eq!(dict.get(&name("Title")), Some(&Object::String(vec![97, 98])));
    assert_eq!(date_string_of(&None), Ok(None));
    assert_eq!(
        date_string_of(&Some(PdfDate { timestamp: 0, offset: 0 })),
        Ok(Some("D:19700101000000+0000".to_string()))
    );
    assert_eq!(
        date_string_of(&Some(PdfDate { timestamp: 0, offset: -86400 })),
        Err(ValidationError::InvalidDate)
    );
}

#[test]
fn parse_reads_the_zone_forms() {
    assert_eq!(
        parse_pdf_date("D:20240101120000+05'00'"),
        Some(PdfDate { timestamp: 1704092400, offset: 18000 })
    );
    assert_eq!(
        parse_pdf_date("D:20240101120000+0500"),
        Some(PdfDate { timestamp: 1704092400, offset: 18000 })
    );
    assert_eq!(
        parse_pdf_date("D:20240101120000-08'00'"),
        Some(PdfDate { timestamp: 1704139200, offset: -28800 })
    );
    assert_eq!(
        parse_pdf_date("D:20240101120000Z"),
        Some(PdfDate { timestamp: 1704110400, offset: 0 })
    );
    assert_eq!(
        parse_pdf_date("D:20240101120000"),
        Some(PdfDate { timestamp: 1704110400, offset: 0 })
    );
    assert_eq!(
        parse_pdf_date("20240101120000"),
        Some(PdfDate { timestamp: 1704110400, offset: 0 })
    );
    assert_eq!(
        parse_pdf_date("D:19700101000000+05'30'"),
        Some(PdfDate { timestamp: -19800, offset: 19800 })
    );
    assert_eq!(
        parse_pdf_date("D:20240229235959+23'59'"),
        Some(PdfDate { timestamp: 1709251199 - 86340, offset: 86340 })
    );
}

#[test]
fn parse_agrees_with_chrono() {
    let zone = FixedOffset::east_opt(19800).unwrap();
    let expected = zone.with_ymd_and_hms(2023, 7, 9, 1, 2, 3).unwrap();
    let parsed = parse_pdf_date("D:20230709010203+05'30'").unwrap();
    assert_eq!(parsed.timestamp, expected.timestamp());
    assert_eq!(parsed.offset, 19800);
}

#[test]
fn parse_refuses_malformed_dates() {
    assert_eq!(parse_pdf_date(""), None);
    assert_eq!(parse_pdf_date("D:"), None);
    assert_eq!(parse_pdf_date("D:2024"), None);
    assert_eq!(parse_pdf_date("D:20240230120000Z"), None);
    assert_eq!(parse_pdf_date("D:20240101120000+5"), None);
    assert_eq!(parse_pdf_date("D:20240101120000+05"), None);
    assert_eq!(parse_pdf_date("D:20240101120000+"), None);
    assert_eq!(parse_pdf_date("D:20240101120000+0a00"), None);
    assert_eq!(parse_pdf_date("D:20240101120000+2400"), None);
    assert_eq!(parse_pdf_date("D:20240101120000+239999999999999999999999"), None);
    assert_eq!(parse_pdf_date("D:20240101120000-é500"), None);
    assert_eq!(parse_pdf_date("D:20240101120000X"), None);
    assert_eq!(parse_pdf_date("Z"), None);
}

#[test]
fn zone_is_taken_after_the_last_sign() {
    assert_eq!(zone_split("D:2024+0100", 2), Some((6, 3600)));
    assert_eq!(zone_split("D:2024-0100", 2), Some((6, -3600)));
    assert_eq!(zone_split("D:20-24+0100", 2), Some((7, 3600)));
    assert_eq!(zone_split("D:20+24-0100", 2), None);
    assert_eq!(zone_split("D:2024Z", 2), Some((6, 0)));
    assert_eq!(zone_split("D:2024", 2), Some((6, 0)));
    assert_eq!(zone_split("D:2024", 6), Some((6, 0)));
    assert_eq!(zone_split("2024-01'90'", 0), Some((4, -9000)));
    assert_eq!(find_last("a+b+c", 0, 5, '+'), Some(3));
    assert_eq!(find_last("a+b+c", 0, 3, '+'), Some(1));
    assert_eq!(find_last("a+b+c", 2, 3, '+'), None);
    assert_eq!(digits_of("+05'00'", 1, 7), vec!['0', '5', '0', '0']);
    assert_eq!(digits_of("''", 0, 2), Vec::<char>::new());
}

#[test]
fn zone_seconds_reads_hours_and_minutes() {
    let zone = |text: &str| zone_seconds(&text.chars().collect());
    assert_eq!(zone("0000"), Some(0));
    assert_eq!(zone("0530"), Some(19800));
    assert_eq!(zone("2359"), Some(86340));
    assert_eq!(zone("2360"), None);
    assert_eq!(zone("0090"), Some(5400));
    assert_eq!(zone("120"), Some(43200));
    assert_eq!(zone("1200000"), Some(43200));
    assert_eq!(zone("001439"), Some(86340));
    assert_eq!(zone("001440"), None);
    assert_eq!(zone("9900"), None);
    assert_eq!(zone("12"), None);
    assert_eq!(zone(""), None);
    assert_eq!(zone("12x0"), None);
    assert_eq!(zone("+500"), None);
}

#[test]
fn instant_is_local_time_less_the_offset() {
    assert_eq!(instant(Some(3600), 3600), Some(PdfDate { timestamp: 0, offset: 3600 }));
    assert_eq!(instant(Some(0), -60), Some(PdfDate { timestamp: 60, offset: -60 }));
    assert_eq!(instant(None, 0), None);
    assert_eq!(instant(Some(0), 86400), None);
    assert_eq!(instant(Some(0), -86400), None);
    assert_eq!(instant(Some(i64::MAX), -1), None);
    assert_eq!(instant(Some(i64::MIN), 1), None);
    assert_eq!(
        instant(Some(i64::MAX), 1),
        Some(PdfDate { timestamp: i64::MAX - 1, offset: 1 })
    );
}

#[test]
fn format_writes_local_time_and_offset() {
    assert_eq!(
        format_pdf_date(&PdfDate { timestamp: 1704092400, offset: 18000 }),
        Some("D:20240101120000+0500".to_string())
    );
    assert_eq!(
        format_pdf_date(&PdfDate { timestamp: 1704139200, offset: -28800 }),
        Some("D:20240101120000-0800".to_string())
    );
    assert_eq!(
        format_pdf_date(&PdfDate { timestamp: 0, offset: 0 }),
        Some("D:19700101000000+0000".to_string())
    );
    assert_eq!(format_pdf_date(&PdfDate { timestamp: 0, offset: 86400 }), None);
    assert_eq!(format_pdf_date(&PdfDate { timestamp: 0, offset: -86400 }), None);
    assert_eq!(format_pdf_date(&PdfDate { timestamp: i64::MAX, offset: 0 }), None);
    assert_eq!(format_pdf_date(&PdfDate { timestamp: i64::MIN, offset: 0 }), None);
}

#[test]
fn a_written_date_is_read_back() {
    for date in [
        PdfDate { timestamp: 0, offset: 0 },
        PdfDate { timestamp: 1704092400, offset: 18000 },
        PdfDate { timestamp: 951782400, offset: -34200 },
        PdfDate { timestamp: -1, offset: 3600 },
        PdfDate { timestamp: 253402300799, offset: 0 },
    ] {
        let text = format_pdf_date(&date).unwrap();
        assert_eq!(parse_pdf_date(&text), Some(date));
    }
}
