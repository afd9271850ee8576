//! The document normalizer: turning an accepted record into a `Document`.
//!
//! Only records whose type header says they are a fetched response are
//! forwarded.  The origin URL comes from the record's target-URI header
//! when present; the content type defaults to the most common one for
//! this corpus.
use vstd::prelude::*;

use crate::codec::copy_range;
use crate::record::RawRecord;
use crate::record::RecordModel;

verus! {

/// The mathematical shape of one document: its content bytes, its origin
/// URL when known, and its content type when known.
pub struct DocumentModel {
    pub data: Seq<u8>,
    pub url: Option<Seq<u8>>,
    pub mime: Option<Seq<u8>>,
}

/// One document, ready for dispatch to the scan engines.
pub struct Document {
    pub data: Vec<u8>,
    pub url: Option<Vec<u8>>,
    pub mime: Option<Vec<u8>>,
}

impl View for Document {
    type V = DocumentModel;

    open spec fn view(&self) -> DocumentModel {
        DocumentModel {
            data: self.data@,
            url: match self.url {
                Some(u) => Some(u@),
                None => None,
            },
            mime: match self.mime {
                Some(m) => Some(m@),
                None => None,
            },
        }
    }
}

impl DeepView for Document {
    type V = DocumentModel;

    open spec fn deep_view(&self) -> DocumentModel {
        self.view()
    }
}

/// The value of the first header with the given name, if any.
pub open spec fn header_lookup(hs: Seq<(Seq<u8>, Seq<u8>)>, name: Seq<u8>) -> Option<Seq<u8>>
    decreases hs.len(),
{
    if hs.len() == 0 {
        None
    } else if hs[0].0 == name {
        Some(hs[0].1)
    } else {
        header_lookup(hs.drop_first(), name)
    }
}

/// The name of the record-type header: `WARC-Type`.
pub open spec fn warc_type_name() -> Seq<u8> {
    seq![87u8, 65u8, 82u8, 67u8, 45u8, 84u8, 121u8, 112u8, 101u8]
}

/// The type value that marks a fetched response: `response`.
pub open spec fn response_value() -> Seq<u8> {
    seq![114u8, 101u8, 115u8, 112u8, 111u8, 110u8, 115u8, 101u8]
}

/// The name of the origin-URL header: `WARC-Target-URI`.
pub open spec fn target_uri_name() -> Seq<u8> {
    seq![
        87u8,
        65u8,
        82u8,
        67u8,
        45u8,
        84u8,
        97u8,
        114u8,
        103u8,
        101u8,
        116u8,
        45u8,
        85u8,
        82u8,
        73u8,
    ]
}

/// The default content type for this corpus: `text/html`.
pub open spec fn default_mime() -> Seq<u8> {
    seq![116u8, 101u8, 120u8, 116u8, 47u8, 104u8, 116u8, 109u8, 108u8]
}

/// A record counts as a fetched response exactly when its type header
/// says `response`.
pub open spec fn is_response_spec(r: RecordModel) -> bool {
    header_lookup(r.headers, warc_type_name()) == Some(response_value())
}

/// What normalization makes of an accepted record.
pub open spec fn normalize_spec(r: RecordModel) -> DocumentModel {
    DocumentModel {
        data: r.content,
        url: header_lookup(r.headers, target_uri_name()),
        mime: Some(default_mime()),
    }
}

/// Byte-for-byte equality of two byte vectors.
pub(crate) fn bytes_eq(a: &Vec<u8>, b: &Vec<u8>) -> (r: bool)
    ensures
        r <==> a@ == b@,
{
    if a.len() != b.len() {
        return false;
    }
    let mut i: usize = 0;
    while i < a.len()
        invariant
            a@.len() == b@.len(),
            i <= a@.len(),
            forall|k: int| 0 <= k < i ==> a@[k] == b@[k],
        decreases a@.len() - i,
    {
        if a[i] != b[i] {
            return false;
        }
        i = i + 1;
    }
    assert(a@ =~= b@);
    true
}

/// The `WARC-Type` header name as bytes.
pub fn warc_type_bytes() -> (v: Vec<u8>)
    ensures
        v@ == warc_type_name(),
{
    let mut v: Vec<u8> = Vec::new();
    v.push(87);
    v.push(65);
    v.push(82);
    v.push(67);
    v.push(45);
    v.push(84);
    v.push(121);
    v.push(112);
    v.push(101);
    assert(v@ =~= warc_type_name());
    v
}

/// The `response` type value as bytes.
pub fn response_bytes() -> (v: Vec<u8>)
    ensures
        v@ == response_value(),
{
    let mut v: Vec<u8> = Vec::new();
    v.push(114);
    v.push(101);
    v.push(115);
    v.push(112);
    v.push(111);
    v.push(110);
    v.push(115);
    v.push(101);
    assert(v@ =~= response_value());
    v
}

/// The `WARC-Target-URI` header name as bytes.
pub fn target_uri_bytes() -> (v: Vec<u8>)
    ensures
        v@ == target_uri_name(),
{
    let mut v: Vec<u8> = Vec::new();
    v.push(87);
    v.push(65);
    v.push(82);
    v.push(67);
    v.push(45);
    v.push(84);
    v.push(97);
    v.push(114);
    v.push(103);
    v.push(101);
    v.push(116);
    v.push(45);
    v.push(85);
    v.push(82);
    v.push(73);
    assert(v@ =~= target_uri_name());
    v
}

/// The default content type as bytes.
pub fn default_mime_bytes() -> (v: Vec<u8>)
    ensures
        v@ == default_mime(),
{
    let mut v: Vec<u8> = Vec::new();
    v.push(116);
    v.push(101);
    v.push(120);
    v.push(116);
    v.push(47);
    v.push(104);
    v.push(116);
    v.push(109);
    v.push(108);
    assert(v@ =~= default_mime());
    v
}

/// Skipping past one non-matching header leaves the lookup unchanged.
proof fn lemma_lookup_skip(hs: Seq<(Seq<u8>, Seq<u8>)>, name: Seq<u8>, i: int)
    requires
        0 <= i < hs.len(),
        hs[i].0 != name,
    ensures
        header_lookup(hs.skip(i), name) == header_lookup(hs.skip(i + 1), name),
{
    assert(hs.skip(i)[0] == hs[i]);
    assert(hs.skip(i).drop_first() =~= hs.skip(i + 1));
}

/// Find the value of the first header with the given name, copied out.
pub fn find_header(rec: &RawRecord, name: &Vec<u8>) -> (r: Option<Vec<u8>>)
    ensures
        match r {
            Some(v) => header_lookup(rec@.headers, name@) == Some(v@),
            None => header_lookup(rec@.headers, name@) is None,
        },
{
    let ghost hs = rec@.headers;
    let mut i: usize = 0;
    proof {
        assert(hs.skip(0) =~= hs);
    }
    while i < rec.headers.len()
        invariant
            i <= rec.headers@.len(),
            hs == rec@.headers,
            hs.len() == rec.headers@.len(),
            header_lookup(hs, name@) == header_lookup(hs.skip(i as int), name@),
        decreases rec.headers@.len() - i,
    {
        proof {
            assert(hs[i as int] == (rec.headers@[i as int].name@, rec.headers@[i as int].value@));
        }
        if bytes_eq(&rec.headers[i].name, name) {
            let v = copy_range(&rec.headers[i].value, 0, rec.headers[i].value.len());
            proof {
                assert(hs.skip(i as int)[0] == hs[i as int]);
                assert(v@ =~= hs[i as int].1);
            }
            return Some(v);
        }
        proof {
            lemma_lookup_skip(hs, name@, i as int);
        }
        i = i + 1;
    }
    proof {
        assert(hs.skip(i as int) =~= Seq::<(Seq<u8>, Seq<u8>)>::empty());
    }
    None
}

/// Does the record's type header mark it as a fetched response?
pub fn is_response(rec: &RawRecord) -> (r: bool)
    ensures
        r == is_response_spec(rec@),
{
    let name = warc_type_bytes();
    let response = response_bytes();
    match find_header(rec, &name) {
        Some(v) => bytes_eq(&v, &response),
        None => false,
    }
}

/// Normalize an accepted record into a document: content becomes the
/// document data, the target-URI header (when present) the origin URL,
/// and the content type is set to the corpus default.
pub fn warc_to_document(rec: RawRecord) -> (d: Document)
    ensures
        d@ == normalize_spec(rec@),
{
    let name = target_uri_bytes();
    let url = find_header(&rec, &name);
    let mime = default_mime_bytes();
    Document { data: rec.content, url, mime: Some(mime) }
}

} // verus!
