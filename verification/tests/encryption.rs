use lopdf::content::{Content, Operation};
use lopdf::encryption::crypt_filters::{Aes128CryptFilter, CryptFilter};
use lopdf::{Dictionary, Document, EncryptionState, EncryptionVersion, Object, Permissions, Stream};
use pdf2::encryption::{encryption_settings, EncryptionSettings, ALL_PERMISSIONS, KEY_LENGTH};
use pdf2::fixture::TestFixture;
use rand::random;
use std::collections::BTreeMap;
use std::sync::Arc;

fn create_dummy_pdf() -> Document {
    let mut doc = Document::with_version("1.5");
    let pages_id = doc.new_object_id();
    let font_id = doc.add_object(Dictionary::from_iter(vec![
        ("Type", Object::Name(b"Font".to_vec())),
        ("Subtype", Object::Name(b"Type1".to_vec())),
        ("BaseFont", Object::Name(b"Courier".to_vec())),
    ]));
    let resources_id = doc.add_object(Dictionary::from_iter(vec![(
        "Font",
        Dictionary::from_iter(vec![("F1", font_id.into())]).into(),
    )]));
    let content = Content {
        operations: vec![
            Operation::new("BT", vec![]),
            Operation::new("Tf", vec!["F1".into(), 48.into()]),
            Operation::new("Td", vec![100.into(), 600.into()]),
            Operation::new("Tj", vec![Object::string_literal("Hello World!")]),
            Operation::new("ET", vec![]),
        ],
    };
    let content_id = doc.add_object(Stream::new(Dictionary::new(), content.encode().unwrap()));
    let page_id = doc.add_object(Dictionary::from_iter(vec![
        ("Type", Object::Name(b"Page".to_vec())),
        ("Parent", pages_id.into()),
        ("Contents", content_id.into()),
        ("Resources", resources_id.into()),
        ("MediaBox", vec![0.into(), 0.into(), 595.into(), 842.into()].into()),
    ]));
    let pages = Dictionary::from_iter(vec![
        ("Type", Object::Name(b"Pages".to_vec())),
        ("Kids", vec![page_id.into()].into()),
        ("Count", 1.into()),
    ]);
    doc.objects.insert(pages_id, Object::Dictionary(pages));
    let catalog_id = doc.add_object(Dictionary::from_iter(vec![
        ("Type", Object::Name(b"Catalog".to_vec())),
        ("Pages", pages_id.into()),
    ]));
    doc.trailer.set("Root", catalog_id);

    let id1: [u8; 16] = random();
    let id2: [u8; 16] = random();
    doc.trailer.set(
        "ID",
        vec![Object::string_literal(id1.to_vec()), Object::string_literal(id2.to_vec())],
    );
    doc
}

fn encrypt(doc: &mut Document, settings: &EncryptionSettings) -> Vec<u8> {
    let crypt_filter: Arc<dyn CryptFilter> = Arc::new(Aes128CryptFilter);
    let version = EncryptionVersion::V4 {
        document: doc,
        encrypt_metadata: settings.encrypt_metadata,
        crypt_filters: BTreeMap::from([(settings.filter.clone(), crypt_filter)]),
        stream_filter: settings.filter.clone(),
        string_filter: settings.filter.clone(),
        owner_password: &settings.owner_password,
        user_password: &settings.user_password,
        permissions: Permissions::from_bits_truncate(settings.permissions),
    };
    let state = EncryptionState::try_from(version).unwrap();
    doc.encrypt(&state).unwrap();
    let mut bytes = Vec::new();
    doc.save_to(&mut bytes).unwrap();
    bytes
}

#[test]
fn test_encrypt_pdf_with_correct_password() {
    let mut input = create_dummy_pdf();
    let user_password = "password".to_string();

    let settings = encryption_settings(user_password.clone(), None);
    let output = encrypt(&mut input, &settings);

    let mut doc = Document::load_mem(&output).unwrap();
    assert!(doc.is_encrypted());
    assert!(doc.decrypt(&user_password).is_ok());
}

#[test]
fn test_encrypt_pdf_with_incorrect_password() {
    let mut input = create_dummy_pdf();
    let user_password = "password".to_string();
    let wrong_password = "wrong_password".to_string();

    let settings = encryption_settings(user_password.clone(), None);
    let output = encrypt(&mut input, &settings);

    let mut doc = Document::load_mem(&output).unwrap();
    assert!(doc.is_encrypted());
    assert!(doc.decrypt(&wrong_password).is_err());
}

#[test]
fn owner_password_defaults_to_the_user_password() {
    let settings = encryption_settings("secret".to_string(), None);
    assert_eq!(
        settings,
        EncryptionSettings {
            user_password: "secret".to_string(),
            owner_password: "secret".to_string(),
            encrypt_metadata: true,
            filter: b"StdCF".to_vec(),
            key_length: 128,
            permissions: 3900,
        }
    );
    let settings = encryption_settings("secret".to_string(), Some("owner".to_string()));
    assert_eq!(settings.user_password, "secret");
    assert_eq!(settings.owner_password, "owner");
    let settings = encryption_settings("secret".to_string(), Some(String::new()));
    assert_eq!(settings.owner_password, "");
}

#[test]
fn all_permissions_are_those_of_the_security_handler() {
    assert_eq!(ALL_PERMISSIONS, Permissions::all().bits());
    assert_eq!(KEY_LENGTH, 128);
}

#[test]
fn fixture_names_input_and_output() {
    let fixture = TestFixture::new();
    assert_eq!(fixture.input_path, "test_input.pdf");
    assert_eq!(fixture.output_path, "test_output.pdf");
}
