//! The metadata of a document: the texts and dates of its information
//! dictionary.

use crate::date::{date_text, format_pdf_date, parse_pdf_date, parsed_date, PdfDate};
use crate::document::ObjectGraph;
use crate::error::{ParseError, PdfError, ValidationError};
use crate::graph::TableModel;
use crate::names::{ascii, name};
use crate::object::{
    dict_get, dict_set, lemma_dict_set_other, lemma_dict_set_same, DictModel, Dictionary, Object,
    ObjectId, ObjectModel,
};
use vstd::prelude::*;
use vstd::string::StrSliceExecFns;
use vstd::utf8::{decode_utf8, encode_utf8, encode_utf8_decode_utf8, encode_utf8_valid_utf8, valid_utf8};

verus! {

/// The metadata of a document. A field that is `None` is absent.
#[derive(Clone, Debug, PartialEq, Eq)]
pub struct Metadata {
    pub title: Option<String>,
    pub author: Option<String>,
    pub subject: Option<String>,
    pub keywords: Option<String>,
    pub creator: Option<String>,
    pub producer: Option<String>,
    pub creation_date: Option<PdfDate>,
    pub mod_date: Option<PdfDate>,
}

/// What a [`Metadata`] is, as a mathematical value.
pub struct MetadataModel {
    pub title: Option<Seq<char>>,
    pub author: Option<Seq<char>>,
    pub subject: Option<Seq<char>>,
    pub keywords: Option<Seq<char>>,
    pub creator: Option<Seq<char>>,
    pub producer: Option<Seq<char>>,
    pub creation_date: Option<PdfDate>,
    pub mod_date: Option<PdfDate>,
}

/// The characters of a text that may be absent.
pub open spec fn text_view(text: Option<String>) -> Option<Seq<char>> {
    match text {
        Some(t) => Some(t@),
        None => None,
    }
}

impl View for Metadata {
    type V = MetadataModel;

    open spec fn view(&self) -> MetadataModel {
        MetadataModel {
            title: text_view(self.title),
            author: text_view(self.author),
            subject: text_view(self.subject),
            keywords: text_view(self.keywords),
            creator: text_view(self.creator),
            producer: text_view(self.producer),
            creation_date: self.creation_date,
            mod_date: self.mod_date,
        }
    }
}

/// Metadata without any field.
pub open spec fn no_metadata() -> MetadataModel {
    MetadataModel {
        title: None,
        author: None,
        subject: None,
        keywords: None,
        creator: None,
        producer: None,
        creation_date: None,
        mod_date: None,
    }
}

impl Metadata {
    /// Metadata without any field.
    pub fn new() -> (m: Metadata)
        ensures
            m@ == no_metadata(),
    {
        Metadata {
            title: None,
            author: None,
            subject: None,
            keywords: None,
            creator: None,
            producer: None,
            creation_date: None,
            mod_date: None,
        }
    }
}

impl Default for Metadata {
    fn default() -> (m: Metadata)
        ensures
            m@ == no_metadata(),
    {
        Metadata::new()
    }
}

/// What `String::from_utf8_lossy` makes of bytes that are no valid UTF-8.
pub uninterp spec fn repaired_text(bytes: Seq<u8>) -> Seq<char>;

/// The text that a byte string stands for: the characters that it encodes
/// where it is valid UTF-8, and else a repaired text.
pub open spec fn lossy_text(bytes: Seq<u8>) -> Seq<char> {
    if valid_utf8(bytes) {
        decode_utf8(bytes)
    } else {
        repaired_text(bytes)
    }
}

/// Turns bytes into text with `String::from_utf8_lossy`: bytes that are
/// valid UTF-8 give the text that they encode; of other bytes the result
/// is only named.
#[verifier::external_body]
fn text_from_bytes(bytes: &[u8]) -> (text: String)
    ensures
        valid_utf8(bytes@) ==> text@ == decode_utf8(bytes@),
        !valid_utf8(bytes@) ==> text@ == repaired_text(bytes@),
{
    String::from_utf8_lossy(bytes).into_owned()
}

/// The key of the field with the number `i`: title, author, subject,
/// keywords, creator, producer, creation date, modification date.
pub open spec fn field_key(i: int) -> Seq<u8> {
    if i == 0 {
        ascii("Title"@)
    } else if i == 1 {
        ascii("Author"@)
    } else if i == 2 {
        ascii("Subject"@)
    } else if i == 3 {
        ascii("Keywords"@)
    } else if i == 4 {
        ascii("Creator"@)
    } else if i == 5 {
        ascii("Producer"@)
    } else if i == 6 {
        ascii("CreationDate"@)
    } else {
        ascii("ModDate"@)
    }
}

/// The date string of a date that may be absent.
pub open spec fn date_string(date: Option<PdfDate>) -> Option<Seq<char>> {
    match date {
        Some(d) => date_text(d.timestamp as int, d.offset as int),
        None => None,
    }
}

/// The text that is written for the field with the number `i`.
pub open spec fn field_text(m: MetadataModel, i: int) -> Option<Seq<char>> {
    if i == 0 {
        m.title
    } else if i == 1 {
        m.author
    } else if i == 2 {
        m.subject
    } else if i == 3 {
        m.keywords
    } else if i == 4 {
        m.creator
    } else if i == 5 {
        m.producer
    } else if i == 6 {
        date_string(m.creation_date)
    } else {
        date_string(m.mod_date)
    }
}

/// The dates of `m` can be written.
pub open spec fn writable(m: MetadataModel) -> bool {
    &&& m.creation_date is Some ==> date_string(m.creation_date) is Some
    &&& m.mod_date is Some ==> date_string(m.mod_date) is Some
}

/// The text under `key` in an information dictionary: that of a string
/// object, and none for anything else.
pub open spec fn text_field(info: DictModel, key: Seq<u8>) -> Option<Seq<char>> {
    match dict_get(info, key) {
        Some(ObjectModel::String(bytes)) => Some(lossy_text(bytes)),
        _ => None,
    }
}

/// The date under `key` in an information dictionary.
pub open spec fn date_field(info: DictModel, key: Seq<u8>) -> Option<PdfDate> {
    match text_field(info, key) {
        Some(text) => parsed_date(text),
        None => None,
    }
}

/// The metadata that an information dictionary holds.
pub open spec fn metadata_in(info: DictModel) -> MetadataModel {
    MetadataModel {
        title: text_field(info, field_key(0)),
        author: text_field(info, field_key(1)),
        subject: text_field(info, field_key(2)),
        keywords: text_field(info, field_key(3)),
        creator: text_field(info, field_key(4)),
        producer: text_field(info, field_key(5)),
        creation_date: date_field(info, field_key(6)),
        mod_date: date_field(info, field_key(7)),
    }
}

/// The identifier that the trailer names under `Info`.
pub open spec fn info_id(trailer: DictModel) -> Option<ObjectId> {
    match dict_get(trailer, ascii("Info"@)) {
        Some(ObjectModel::Reference(id)) => Some(id),
        _ => None,
    }
}

/// The information dictionary of a document, where the trailer names one.
pub open spec fn info_of(table: TableModel, trailer: DictModel) -> Option<DictModel> {
    match info_id(trailer) {
        Some(id) => if table.contains_key(id) {
            match table[id] {
                ObjectModel::Dictionary(info) => Some(info),
                _ => None,
            }
        } else {
            None
        },
        None => None,
    }
}

/// The metadata of a document: that of its information dictionary, and
/// none where it has no such dictionary.
pub open spec fn metadata_of(table: TableModel, trailer: DictModel) -> MetadataModel {
    match info_of(table, trailer) {
        Some(info) => metadata_in(info),
        None => no_metadata(),
    }
}

/// The string object that holds `text`.
pub open spec fn text_object(text: Seq<char>) -> ObjectModel {
    ObjectModel::String(encode_utf8(text))
}

/// `info` with `text` stored under `key`, where there is a text.
pub open spec fn with_text(info: DictModel, key: Seq<u8>, text: Option<Seq<char>>) -> DictModel {
    match text {
        Some(t) => dict_set(info, key, text_object(t)),
        None => info,
    }
}

/// `info` with the first `count` fields of `m` stored, each that is
/// present under its key.
pub open spec fn with_fields(info: DictModel, m: MetadataModel, count: nat) -> DictModel
    decreases count,
{
    if count == 0 {
        info
    } else {
        with_text(with_fields(info, m, (count - 1) as nat), field_key(count - 1), field_text(m, count - 1))
    }
}

/// The text under `key` of an information dictionary.
pub fn text_of(info: &Dictionary, key: &[u8]) -> (text: Option<String>)
    ensures
        text_view(text) == text_field(info@, key@),
{
    match info.get(key) {
        Some(Object::String(bytes)) => Some(text_from_bytes(bytes.as_slice())),
        _ => None,
    }
}

/// The date under `key` of an information dictionary.
pub fn date_of(info: &Dictionary, key: &[u8]) -> (date: Option<PdfDate>)
    ensures
        date == date_field(info@, key@),
{
    match text_of(info, key) {
        Some(text) => parse_pdf_date(text.as_str()),
        None => None,
    }
}

/// The metadata of a document. A document without an information
/// dictionary has none; a field that holds no string is absent.
pub fn get_metadata(graph: &ObjectGraph) -> (m: Metadata)
    ensures
        m@ == metadata_of(graph.objects@, graph.trailer@),
{
    proof {
        reveal_strlit("Info");
        reveal_strlit("Title");
        reveal_strlit("Author");
        reveal_strlit("Subject");
        reveal_strlit("Keywords");
        reveal_strlit("Creator");
        reveal_strlit("Producer");
        reveal_strlit("CreationDate");
        reveal_strlit("ModDate");
    }
    let id = match graph.trailer.get(name("Info").as_slice()) {
        Some(Object::Reference(id)) => *id,
        _ => {
            return Metadata::new();
        },
    };
    let info = match graph.objects.get(id) {
        Ok(Object::Dictionary(info)) => info,
        _ => {
            return Metadata::new();
        },
    };
    Metadata {
        title: text_of(info, name("Title").as_slice()),
        author: text_of(info, name("Author").as_slice()),
        subject: text_of(info, name("Subject").as_slice()),
        keywords: text_of(info, name("Keywords").as_slice()),
        creator: text_of(info, name("Creator").as_slice()),
        producer: text_of(info, name("Producer").as_slice()),
        creation_date: date_of(info, name("CreationDate").as_slice()),
        mod_date: date_of(info, name("ModDate").as_slice()),
    }
}

/// Stores `text` under `key`, where there is a text.
pub fn set_text(info: &mut Dictionary, key: Vec<u8>, text: &Option<String>)
    ensures
        final(info)@ == with_text(old(info)@, key@, text_view(*text)),
{
    match text {
        Some(t) => {
            info.set(key, Object::String(t.as_str().as_bytes_vec()));
        },
        None => {},
    }
}

/// The date string of a date that may be absent; an error for a date that
/// cannot be written.
pub fn date_string_of(date: &Option<PdfDate>) -> (r: Result<Option<String>, ValidationError>)
    ensures
        match r {
            Ok(text) => text_view(text) == date_string(*date) && (*date is Some ==> text is Some),
            Err(e) => e is InvalidDate && *date is Some && date_string(*date) is None,
        },
{
    match date {
        Some(d) => match format_pdf_date(d) {
            Some(text) => Ok(Some(text)),
            None => Err(ValidationError::InvalidDate),
        },
        None => Ok(None),
    }
}

/// The document after `m` was stored in it: the fields of `m` that are
/// present stand in the information dictionary, which is the one that the
/// trailer named or else a new one under the identifier after `max_id`,
/// and the trailer names that dictionary.
pub open spec fn stored(
    table: TableModel,
    trailer: DictModel,
    max_id: int,
    m: MetadataModel,
) -> (TableModel, DictModel) {
    match info_id(trailer) {
        Some(id) => (
            table.insert(id, ObjectModel::Dictionary(with_fields(table[id]->Dictionary_0, m, 8))),
            dict_set(trailer, ascii("Info"@), ObjectModel::Reference(id)),
        ),
        None => {
            let id = ((max_id + 1) as u32, 0u16);
            (
                table.insert(id, ObjectModel::Dictionary(with_fields(Seq::empty(), m, 8))),
                dict_set(trailer, ascii("Info"@), ObjectModel::Reference(id)),
            )
        },
    }
}

/// Why `m` cannot be stored in a document, if it cannot: a date cannot be
/// written, or the trailer names an information dictionary that is absent
/// or no dictionary.
pub open spec fn store_failure(table: TableModel, trailer: DictModel, m: MetadataModel) -> Option<
    PdfError,
> {
    if !writable(m) {
        Some(PdfError::Validation(ValidationError::InvalidDate))
    } else {
        match info_id(trailer) {
            Some(id) => if !table.contains_key(id) {
                Some(PdfError::Parse(ParseError::DanglingReference(id)))
            } else if !(table[id] is Dictionary) {
                Some(PdfError::Parse(ParseError::NotADictionary(id)))
            } else {
                None
            },
            None => None,
        }
    }
}

/// Stores the fields of `metadata` that are present in the information
/// dictionary of the document, each under its key: texts as they are,
/// dates as date strings. What else the dictionary holds is left as it
/// is. A document whose trailer names no information dictionary gets a
/// new one. On an error the document is unchanged.
pub fn set_metadata(graph: &mut ObjectGraph, metadata: &Metadata) -> (r: Result<(), PdfError>)
    requires
        info_id(old(graph).trailer@) is None ==> old(graph).objects.max_id() < u32::MAX,
    ensures
        match r {
            Ok(()) => store_failure(old(graph).objects@, old(graph).trailer@, metadata@) is None
                && (final(graph).objects@, final(graph).trailer@) == stored(
                old(graph).objects@,
                old(graph).trailer@,
                old(graph).objects.max_id() as int,
                metadata@,
            ),
            Err(e) => store_failure(old(graph).objects@, old(graph).trailer@, metadata@) == Some(e)
                && final(graph).objects@ == old(graph).objects@ && final(graph).trailer@ == old(
                graph,
            ).trailer@,
        },
{
    proof {
        reveal_strlit("Info");
        reveal_strlit("Title");
        reveal_strlit("Author");
        reveal_strlit("Subject");
        reveal_strlit("Keywords");
        reveal_strlit("Creator");
        reveal_strlit("Producer");
        reveal_strlit("CreationDate");
        reveal_strlit("ModDate");
    }
    let creation = match date_string_of(&metadata.creation_date) {
        Ok(text) => text,
        Err(e) => {
            return Err(PdfError::Validation(e));
        },
    };
    let modified = match date_string_of(&metadata.mod_date) {
        Ok(text) => text,
        Err(e) => {
            return Err(PdfError::Validation(e));
        },
    };
    let known: Option<ObjectId> = match graph.trailer.get(name("Info").as_slice()) {
        Some(Object::Reference(id)) => Some(*id),
        _ => None,
    };
    let mut info = match known {
        Some(id) => match graph.objects.get(id) {
            Ok(Object::Dictionary(info)) => info.clone(),
            Ok(_) => {
                return Err(PdfError::Parse(ParseError::NotADictionary(id)));
            },
            Err(_) => {
                return Err(PdfError::Parse(ParseError::DanglingReference(id)));
            },
        },
        None => Dictionary::new(),
    };
    let ghost before = info@;
    let ghost m = metadata@;
    assert(with_fields(before, m, 0) == before);
    set_text(&mut info, name("Title"), &metadata.title);
    assert(info@ == with_fields(before, m, 1));
    set_text(&mut info, name("Author"), &metadata.author);
    assert(info@ == with_fields(before, m, 2));
    set_text(&mut info, name("Subject"), &metadata.subject);
    assert(info@ == with_fields(before, m, 3));
    set_text(&mut info, name("Keywords"), &metadata.keywords);
    assert(info@ == with_fields(before, m, 4));
    set_text(&mut info, name("Creator"), &metadata.creator);
    assert(info@ == with_fields(before, m, 5));
    set_text(&mut info, name("Producer"), &metadata.producer);
    assert(info@ == with_fields(before, m, 6));
    set_text(&mut info, name("CreationDate"), &creation);
    assert(info@ == with_fields(before, m, 7));
    set_text(&mut info, name("ModDate"), &modified);
    assert(info@ == with_fields(before, m, 8));
    let id = match known {
        Some(id) => {
            graph.objects.set(id, Object::Dictionary(info));
            id
        },
        None => graph.objects.allocate(Object::Dictionary(info)),
    };
    graph.trailer.set(name("Info"), Object::Reference(id));
    Ok(())
}

/// No two fields share a key.
pub proof fn lemma_field_keys_differ(a: int, b: int)
    requires
        0 <= a < 8,
        0 <= b < 8,
        a != b,
    ensures
        field_key(a) != field_key(b),
{
    reveal_strlit("Title");
    reveal_strlit("Author");
    reveal_strlit("Subject");
    reveal_strlit("Keywords");
    reveal_strlit("Creator");
    reveal_strlit("Producer");
    reveal_strlit("CreationDate");
    reveal_strlit("ModDate");
    let x = field_key(a);
    let y = field_key(b);
    assert(field_key(0).len() == 5 && field_key(0)[0] == 'T' as u8);
    assert(field_key(1).len() == 6 && field_key(1)[0] == 'A' as u8);
    assert(field_key(2).len() == 7 && field_key(2)[0] == 'S' as u8);
    assert(field_key(3).len() == 8 && field_key(3)[0] == 'K' as u8);
    assert(field_key(4).len() == 7 && field_key(4)[0] == 'C' as u8);
    assert(field_key(5).len() == 8 && field_key(5)[0] == 'P' as u8);
    assert(field_key(6).len() == 12 && field_key(6)[0] == 'C' as u8);
    assert(field_key(7).len() == 7 && field_key(7)[0] == 'M' as u8);
    assert(x.len() != y.len() || x[0] != y[0]);
}

/// What a dictionary holds under the key of a field after the first
/// `count` fields were stored: the text of the field where it was stored,
/// and else what it held before.
pub proof fn lemma_with_fields_get(info: DictModel, m: MetadataModel, count: nat, j: int)
    requires
        count <= 8,
        0 <= j < 8,
    ensures
        dict_get(with_fields(info, m, count), field_key(j)) == if j < count && field_text(m, j)
            is Some {
            Some(text_object(field_text(m, j)->0))
        } else {
            dict_get(info, field_key(j))
        },
    decreases count,
{
    if count > 0 {
        let i = count - 1;
        let inner = with_fields(info, m, i as nat);
        lemma_with_fields_get(info, m, i as nat, j);
        match field_text(m, i) {
            Some(t) => {
                if i == j {
                    lemma_dict_set_same(inner, field_key(i), text_object(t));
                } else {
                    lemma_field_keys_differ(i, j);
                    lemma_dict_set_other(inner, field_key(i), text_object(t), field_key(j));
                }
            },
            None => {},
        }
    }
}

/// The text that was stored for a field is the text that is read back; a
/// field for which nothing was stored reads as before.
pub proof fn lemma_stored_field_reads_back(info: DictModel, m: MetadataModel, j: int)
    requires
        0 <= j < 8,
    ensures
        text_field(with_fields(info, m, 8), field_key(j)) == if field_text(m, j) is Some {
            field_text(m, j)
        } else {
            text_field(info, field_key(j))
        },
{
    lemma_with_fields_get(info, m, 8, j);
    if let Some(t) = field_text(m, j) {
        encode_utf8_valid_utf8(t);
        encode_utf8_decode_utf8(t);
    }
}

/// Metadata that was stored in a document is read back from it: each text
/// that was present comes back as it was, each date that was present as
/// the date that its date string stands for, and each field that was
/// absent as the document had it before.
pub proof fn law_metadata_round_trip(
    table: TableModel,
    trailer: DictModel,
    max_id: int,
    m: MetadataModel,
)
    requires
        store_failure(table, trailer, m) is None,
        max_id < u32::MAX,
        forall|id: ObjectId| table.contains_key(id) ==> id.0 <= max_id,
    ensures
        ({
            let (table2, trailer2) = stored(table, trailer, max_id, m);
            let got = metadata_of(table2, trailer2);
            let had = metadata_of(table, trailer);
            &&& got.title == if m.title is Some { m.title } else { had.title }
            &&& got.author == if m.author is Some { m.author } else { had.author }
            &&& got.subject == if m.subject is Some { m.subject } else { had.subject }
            &&& got.keywords == if m.keywords is Some { m.keywords } else { had.keywords }
            &&& got.creator == if m.creator is Some { m.creator } else { had.creator }
            &&& got.producer == if m.producer is Some { m.producer } else { had.producer }
            &&& got.creation_date == if m.creation_date is Some {
                parsed_date(date_string(m.creation_date)->0)
            } else {
                had.creation_date
            }
            &&& got.mod_date == if m.mod_date is Some {
                parsed_date(date_string(m.mod_date)->0)
            } else {
                had.mod_date
            }
        }),
{
    let (table2, trailer2) = stored(table, trailer, max_id, m);
    let key = ascii("Info"@);
    let fresh = ((max_id + 1) as u32, 0u16);
    let id = match info_id(trailer) {
        Some(id) => id,
        None => fresh,
    };
    let base: DictModel = match info_id(trailer) {
        Some(id) => table[id]->Dictionary_0,
        None => Seq::empty(),
    };
    lemma_dict_set_same(trailer, key, ObjectModel::Reference(id));
    assert(info_id(trailer2) == Some(id));
    assert(info_of(table2, trailer2) == Some(with_fields(base, m, 8)));
    if info_id(trailer) is None {
        assert(!table.contains_key(fresh));
        assert forall|j: int| 0 <= j < 8 implies text_field(base, field_key(j)) is None by {
            crate::object::lemma_dict_absent(base, field_key(j));
        }
    } else {
        assert(info_of(table, trailer) == Some(base));
    }
    lemma_stored_field_reads_back(base, m, 0);
    lemma_stored_field_reads_back(base, m, 1);
    lemma_stored_field_reads_back(base, m, 2);
    lemma_stored_field_reads_back(base, m, 3);
    lemma_stored_field_reads_back(base, m, 4);
    lemma_stored_field_reads_back(base, m, 5);
    lemma_stored_field_reads_back(base, m, 6);
    lemma_stored_field_reads_back(base, m, 7);
}

} // verus!
