//! The record extractor pipeline: from a byte stream to documents.
//!
//! Framing splits the stream at each boundary marker; every frame then
//! goes through the record parser.  A frame that does not read as a
//! record is discarded and extraction continues — a recoverable skip,
//! not an error.  Only records whose type header marks them as a fetched
//! response are normalized into documents.
use vstd::prelude::*;

use crate::codec::concat_all;
use crate::codec::extract_frames;
use crate::codec::frames_of;
use crate::codec::lemma_framing_exact;
use crate::codec::lemma_truncated_framing;
use crate::codec::marker_at;
use crate::codec::well_formed_frame;
use crate::decode::decode_stream;
use crate::decode::gzip_members;
use crate::document::Document;
use crate::document::DocumentModel;
use crate::document::is_response;
use crate::document::is_response_spec;
use crate::document::normalize_spec;
use crate::document::warc_to_document;
use crate::record::RecordModel;
use crate::record::encode_record_spec;
use crate::record::lemma_encode_well_formed;
use crate::record::lemma_record_round_trip;
use crate::record::parse_record;
use crate::record::parse_record_spec;
use crate::record::record_content_ok;
use crate::record::valid_record;

verus! {

/// The documents one frame contributes: one for a record marked as a
/// fetched response, none for anything else.
pub open spec fn frame_docs(f: Seq<u8>) -> Seq<DocumentModel> {
    match parse_record_spec(f) {
        Some(r) => if is_response_spec(r) {
            seq![normalize_spec(r)]
        } else {
            Seq::<DocumentModel>::empty()
        },
        None => Seq::<DocumentModel>::empty(),
    }
}

/// The documents a sequence of frames contributes, in order.
pub open spec fn docs_of_frames(fs: Seq<Seq<u8>>) -> Seq<DocumentModel>
    decreases fs.len(),
{
    if fs.len() == 0 {
        Seq::<DocumentModel>::empty()
    } else {
        frame_docs(fs[0]) + docs_of_frames(fs.drop_first())
    }
}

/// All documents a decompressed archive stream yields.
pub open spec fn documents_of(s: Seq<u8>) -> Seq<DocumentModel> {
    docs_of_frames(frames_of(s))
}

/// Appending one frame appends its contribution.
proof fn lemma_docs_of_frames_snoc(fs: Seq<Seq<u8>>, f: Seq<u8>)
    ensures
        docs_of_frames(fs.push(f)) == docs_of_frames(fs) + frame_docs(f),
    decreases fs.len(),
{
    if fs.len() == 0 {
        assert(fs.push(f).drop_first() =~= Seq::<Seq<u8>>::empty());
        assert(frame_docs(f) + docs_of_frames(Seq::<Seq<u8>>::empty()) =~= frame_docs(f));
        assert(docs_of_frames(fs) + frame_docs(f) =~= frame_docs(f));
    } else {
        assert(fs.push(f).drop_first() =~= fs.drop_first().push(f));
        lemma_docs_of_frames_snoc(fs.drop_first(), f);
        assert(frame_docs(fs[0]) + (docs_of_frames(fs.drop_first()) + frame_docs(f)) =~= (
        frame_docs(fs[0]) + docs_of_frames(fs.drop_first())) + frame_docs(f));
    }
}

/// Extract every document from a decompressed byte stream.
pub fn extract_documents(data: &Vec<u8>) -> (docs: Vec<Document>)
    ensures
        docs.deep_view() == documents_of(data@),
{
    let frames = extract_frames(data);
    let ghost fs = frames.deep_view();
    let mut docs: Vec<Document> = Vec::new();
    let mut i: usize = 0;
    proof {
        assert(fs.skip(0) =~= fs);
        assert(docs.deep_view() + docs_of_frames(fs) =~= docs_of_frames(fs));
    }
    while i < frames.len()
        invariant
            i <= frames@.len(),
            fs == frames.deep_view(),
            fs.len() == frames@.len(),
            fs == frames_of(data@),
            docs_of_frames(fs) == docs.deep_view() + docs_of_frames(fs.skip(i as int)),
        decreases frames@.len() - i,
    {
        let ghost fr = fs[i as int];
        proof {
            assert(fr == frames@[i as int]@);
            assert(fs.skip(i as int)[0] == fr);
            assert(fs.skip(i as int).drop_first() =~= fs.skip(i + 1));
        }
        match parse_record(&frames[i]) {
            Some(rec) => {
                if is_response(&rec) {
                    let d = warc_to_document(rec);
                    let ghost dm = d@;
                    let ghost old_dv = docs.deep_view();
                    docs.push(d);
                    proof {
                        assert(docs.deep_view() =~~= old_dv.push(dm));
                        assert(frame_docs(fr) == seq![dm]);
                        assert(old_dv + (seq![dm] + docs_of_frames(fs.skip(i + 1))) =~= old_dv.push(
                            dm,
                        ) + docs_of_frames(fs.skip(i + 1)));
                    }
                } else {
                    proof {
                        assert(frame_docs(fr) =~= Seq::<DocumentModel>::empty());
                        assert(frame_docs(fr) + docs_of_frames(fs.skip(i + 1)) =~= docs_of_frames(
                            fs.skip(i + 1),
                        ));
                    }
                }
            },
            None => {
                proof {
                    assert(frame_docs(fr) =~= Seq::<DocumentModel>::empty());
                    assert(frame_docs(fr) + docs_of_frames(fs.skip(i + 1)) =~= docs_of_frames(
                        fs.skip(i + 1),
                    ));
                }
            },
        }
        i = i + 1;
    }
    proof {
        assert(fs.skip(fs.len() as int) =~= Seq::<Seq<u8>>::empty());
        assert(docs.deep_view() + Seq::<DocumentModel>::empty() =~= docs.deep_view());
    }
    docs
}

/// Decompress a fetched archive object and extract its documents.  A
/// stream that does not decode is treated as an exhausted archive and
/// yields no documents.
pub fn process_archive(compressed: &Vec<u8>) -> (docs: Vec<Document>)
    ensures
        forall|ms: Seq<Seq<u8>>|
            ms.len() >= 1 && compressed@ == #[trigger] gzip_members(ms) ==> docs.deep_view()
                == documents_of(concat_all(ms)),
{
    match decode_stream(compressed) {
        Some(plain) => extract_documents(&plain),
        None => Vec::new(),
    }
}

/// Boundary framing, end to end: a stream that is the concatenation of
/// well-formed record frames yields exactly those frames' documents, in
/// order — and the empty stream yields none.
pub proof fn lemma_extraction_exact(fs: Seq<Seq<u8>>)
    requires
        forall|k: int| 0 <= k < fs.len() ==> well_formed_frame(#[trigger] fs[k]),
    ensures
        documents_of(concat_all(fs)) == docs_of_frames(fs),
{
    lemma_framing_exact(fs);
}

/// The documents one record contributes once extracted: one for a
/// fetched response, none otherwise.
pub open spec fn record_docs(r: RecordModel) -> Seq<DocumentModel> {
    if is_response_spec(r) {
        seq![normalize_spec(r)]
    } else {
        Seq::<DocumentModel>::empty()
    }
}

/// The documents a sequence of records contributes, in order.
pub open spec fn records_docs(rs: Seq<RecordModel>) -> Seq<DocumentModel>
    decreases rs.len(),
{
    if rs.len() == 0 {
        Seq::<DocumentModel>::empty()
    } else {
        record_docs(rs[0]) + records_docs(rs.drop_first())
    }
}

/// Frame by frame, a stream of encoded records contributes exactly the
/// records' own documents.
proof fn lemma_docs_of_encoded(rs: Seq<RecordModel>)
    requires
        forall|k: int|
            0 <= k < rs.len() ==> valid_record(#[trigger] rs[k]) && record_content_ok(
                rs[k].content,
            ),
    ensures
        docs_of_frames(rs.map_values(|r: RecordModel| encode_record_spec(r))) == records_docs(rs),
    decreases rs.len(),
{
    let fs = rs.map_values(|r: RecordModel| encode_record_spec(r));
    if rs.len() == 0 {
        assert(fs.len() == 0);
    } else {
        let tail = rs.drop_first();
        assert(forall|k: int|
            0 <= k < tail.len() ==> valid_record(#[trigger] tail[k]) && record_content_ok(
                tail[k].content,
            ));
        lemma_docs_of_encoded(tail);
        assert(fs.drop_first() =~= tail.map_values(|r: RecordModel| encode_record_spec(r)));
        lemma_record_round_trip(rs[0]);
        assert(fs[0] == encode_record_spec(rs[0]));
        assert(frame_docs(fs[0]) == record_docs(rs[0]));
    }
}

/// Boundary framing over whole records: an archive stream that is the
/// concatenation of N well-formed encoded records yields exactly those
/// records' documents, in order — one per fetched response, none for any
/// other record, and none at all for the empty stream.
pub proof fn lemma_record_stream_extraction(rs: Seq<RecordModel>)
    requires
        forall|k: int|
            0 <= k < rs.len() ==> valid_record(#[trigger] rs[k]) && record_content_ok(
                rs[k].content,
            ),
    ensures
        documents_of(concat_all(rs.map_values(|r: RecordModel| encode_record_spec(r))))
            == records_docs(rs),
{
    let fs = rs.map_values(|r: RecordModel| encode_record_spec(r));
    assert forall|k: int| 0 <= k < fs.len() implies well_formed_frame(#[trigger] fs[k]) by {
        lemma_encode_well_formed(rs[k]);
    }
    lemma_extraction_exact(fs);
    lemma_docs_of_encoded(rs);
}

/// Partial-record recovery: truncating a stream of well-formed record
/// frames strictly inside its last record neither breaks extraction nor
/// yields a document for the truncated tail — exactly the documents of
/// the prior complete records come out.
pub proof fn lemma_partial_record_recovery(fs: Seq<Seq<u8>>, f: Seq<u8>, partial: Seq<u8>)
    requires
        forall|k: int| 0 <= k < fs.len() ==> well_formed_frame(#[trigger] fs[k]),
        well_formed_frame(f),
        0 < partial.len() < f.len(),
        partial == f.subrange(0, partial.len() as int),
    ensures
        documents_of(concat_all(fs) + partial) == documents_of(concat_all(fs)),
{
    lemma_truncated_framing(fs, f, partial);
    lemma_framing_exact(fs);
    assert(parse_record_spec(partial) is None) by {
        if partial.len() >= 4 {
            assert(!marker_at(partial, partial.len() - 4));
        }
    }
    lemma_docs_of_frames_snoc(fs, partial);
    assert(frame_docs(partial) =~= Seq::<DocumentModel>::empty());
    assert(docs_of_frames(fs) + Seq::<DocumentModel>::empty() =~= docs_of_frames(fs));
}

} // verus!
