use mieql::codec::extract_frames;
use mieql::codec::RecordExtractor;
use mieql::decode::compress_member;
use mieql::decode::decode_stream;
use mieql::document::is_response;
use mieql::document::warc_to_document;
use mieql::extract::extract_documents;
use mieql::extract::process_archive;
use mieql::record::encode_record;
use mieql::record::parse_record;
use mieql::record::Header;
use mieql::record::RawRecord;

fn header(name: &str, value: &str) -> Header {
    Header { name: name.as_bytes().to_vec(), value: value.as_bytes().to_vec() }
}

fn record_bytes(headers: &[(&str, &str)], content: &[u8]) -> Vec<u8> {
    let mut v = b"WARC/1.0\r\n".to_vec();
    v.extend_from_slice(format!("Content-Length: {}\r\n", content.len()).as_bytes());
    for (name, value) in headers {
        v.extend_from_slice(format!("{}: {}\r\n", name, value).as_bytes());
    }
    v.extend_from_slice(content);
    v.extend_from_slice(b"\r\n\r\n");
    v
}

fn response_record(url: &str, content: &[u8]) -> Vec<u8> {
    record_bytes(&[("WARC-Type", "response"), ("WARC-Target-URI", url)], content)
}

#[test]
fn boundary_framing_yields_each_record() {
    let r1 = response_record("http://one.example", b"alpha");
    let r2 = response_record("http://two.example", b"beta");
    let r3 = response_record("http://three.example", b"gamma");
    let mut stream = Vec::new();
    stream.extend_from_slice(&r1);
    stream.extend_from_slice(&r2);
    stream.extend_from_slice(&r3);
    let frames = extract_frames(&stream);
    assert_eq!(frames.len(), 3);
    assert_eq!(frames[0], r1);
    assert_eq!(frames[1], r2);
    assert_eq!(frames[2], r3);
}

#[test]
fn empty_stream_yields_no_frames() {
    let empty: Vec<u8> = Vec::new();
    assert_eq!(extract_frames(&empty).len(), 0);
    assert_eq!(extract_documents(&empty).len(), 0);
}

#[test]
fn partial_record_is_recovered_from() {
    let r1 = response_record("http://one.example", b"alpha");
    let r2 = response_record("http://two.example", b"beta");
    let r3 = response_record("http://three.example", b"gamma");
    // Truncate the third record somewhere strictly inside it.
    let cut = r3.len() / 2;
    let mut stream = Vec::new();
    stream.extend_from_slice(&r1);
    stream.extend_from_slice(&r2);
    stream.extend_from_slice(&r3[..cut]);
    let docs = extract_documents(&stream);
    assert_eq!(docs.len(), 2);
    assert_eq!(docs[0].data, b"alpha".to_vec());
    assert_eq!(docs[1].data, b"beta".to_vec());
}

#[test]
fn incremental_assembly_across_chunk_cuts() {
    let r1 = response_record("http://one.example", b"alpha");
    let r2 = response_record("http://two.example", b"beta");
    let mut stream = Vec::new();
    stream.extend_from_slice(&r1);
    stream.extend_from_slice(&r2);
    // Feed the stream in chunks that cut records anywhere.
    let mut assembler = RecordExtractor::new();
    let mut frames: Vec<Vec<u8>> = Vec::new();
    for chunk in stream.chunks(7) {
        frames.extend(assembler.push_chunk(&chunk.to_vec()));
    }
    assert_eq!(frames.len(), 2);
    assert_eq!(frames[0], r1);
    assert_eq!(frames[1], r2);
    // Ending exactly at a record boundary is the well-formed termination.
    assert!(assembler.finish().is_none());
}

#[test]
fn incremental_assembly_keeps_a_truncated_tail_apart() {
    let r1 = response_record("http://one.example", b"alpha");
    let r2 = response_record("http://two.example", b"beta");
    let cut = r2.len() - 6;
    let mut assembler = RecordExtractor::new();
    let mut frames = assembler.push_chunk(&r1);
    frames.extend(assembler.push_chunk(&r2[..cut].to_vec()));
    assert_eq!(frames.len(), 1);
    assert_eq!(frames[0], r1);
    let tail = assembler.finish().expect("the truncated record stays buffered");
    assert_eq!(tail, r2[..cut].to_vec());
}

#[test]
fn record_round_trip() {
    let rec = RawRecord {
        headers: vec![
            header("WARC-Type", "response"),
            header("WARC-Target-URI", "http://site.example/page"),
        ],
        content: b"some page content\r\nwith a line break".to_vec(),
    };
    let frame = encode_record(&rec);
    let parsed = parse_record(&frame).expect("an encoded record must parse");
    assert_eq!(parsed.headers.len(), 2);
    assert_eq!(parsed.headers[0].name, b"WARC-Type".to_vec());
    assert_eq!(parsed.headers[0].value, b"response".to_vec());
    assert_eq!(parsed.headers[1].name, b"WARC-Target-URI".to_vec());
    assert_eq!(parsed.headers[1].value, b"http://site.example/page".to_vec());
    assert_eq!(parsed.content, rec.content);
}

#[test]
fn record_round_trip_with_no_headers_and_empty_values() {
    let bare = RawRecord { headers: vec![], content: b"x".to_vec() };
    let parsed = parse_record(&encode_record(&bare)).expect("a headerless record parses");
    assert_eq!(parsed.headers.len(), 0);
    assert_eq!(parsed.content, b"x".to_vec());
    let empty_value = RawRecord { headers: vec![header("Flag", "")], content: b"y".to_vec() };
    let parsed = parse_record(&encode_record(&empty_value)).expect("an empty value parses");
    assert_eq!(parsed.headers[0].name, b"Flag".to_vec());
    assert_eq!(parsed.headers[0].value, b"".to_vec());
}

#[test]
fn forged_marker_in_content_skips_that_record_only() {
    // A record whose content holds the boundary marker splits early; the
    // pieces fail to parse and are skipped, and extraction recovers at
    // the next record.
    let bad = response_record("http://bad.example", b"first half\r\n\r\nsecond half");
    let good = response_record("http://good.example", b"fine");
    let mut stream = Vec::new();
    stream.extend_from_slice(&bad);
    stream.extend_from_slice(&good);
    let docs = extract_documents(&stream);
    assert_eq!(docs.len(), 1);
    assert_eq!(docs[0].url, Some(b"http://good.example".to_vec()));
}

#[test]
fn parse_rejects_unterminated_frame() {
    let mut frame = response_record("http://x.example", b"data");
    frame.truncate(frame.len() - 4);
    assert!(parse_record(&frame).is_none());
}

#[test]
fn parse_rejects_wrong_version() {
    let good = response_record("http://x.example", b"data");
    let mut bad = good.clone();
    bad[0] = b'X';
    assert!(parse_record(&good).is_some());
    assert!(parse_record(&bad).is_none());
}

#[test]
fn parse_rejects_wrong_content_length() {
    let frame = record_bytes(&[("WARC-Type", "response")], b"12345");
    assert!(parse_record(&frame).is_some());
    // Claim six content bytes where there are five.
    let lied = {
        let mut v = b"WARC/1.0\r\nContent-Length: 6\r\n".to_vec();
        v.extend_from_slice(b"WARC-Type: response\r\n");
        v.extend_from_slice(b"12345");
        v.extend_from_slice(b"\r\n\r\n");
        v
    };
    assert!(parse_record(&lied).is_none());
}

#[test]
fn response_filter_and_normalization() {
    let keep = parse_record(&response_record("http://keep.example", b"kept")).unwrap();
    let drop = parse_record(&record_bytes(&[("WARC-Type", "request")], b"dropped")).unwrap();
    assert!(is_response(&keep));
    assert!(!is_response(&drop));
    let doc = warc_to_document(keep);
    assert_eq!(doc.data, b"kept".to_vec());
    assert_eq!(doc.url, Some(b"http://keep.example".to_vec()));
    assert_eq!(doc.mime, Some(b"text/html".to_vec()));
}

#[test]
fn normalization_without_target_uri() {
    let rec = parse_record(&record_bytes(&[("WARC-Type", "response")], b"bare")).unwrap();
    let doc = warc_to_document(rec);
    assert_eq!(doc.url, None);
    assert_eq!(doc.mime, Some(b"text/html".to_vec()));
}

#[test]
fn multi_member_decompression_round_trip() {
    let a = b"first independently compressed segment".to_vec();
    let b = b"and the second one, back to back".to_vec();
    let ca = compress_member(&a);
    let cb = compress_member(&b);
    // Compression must actually transform its input.
    assert_ne!(ca, a);
    let mut stream = Vec::new();
    stream.extend_from_slice(&ca);
    stream.extend_from_slice(&cb);
    let plain = decode_stream(&stream).expect("two members must decode");
    let mut expected = a.clone();
    expected.extend_from_slice(&b);
    assert_eq!(plain, expected);
}

#[test]
fn single_member_decompression_round_trip() {
    let a = b"just one member".to_vec();
    let ca = compress_member(&a);
    assert_eq!(decode_stream(&ca), Some(a));
}

#[test]
fn decode_rejects_garbage() {
    let garbage = b"this is not a compressed stream".to_vec();
    assert!(decode_stream(&garbage).is_none());
}

#[test]
fn archive_pipeline_keeps_only_responses() {
    // Three fetched responses and two records of other kinds.
    let mut plain = Vec::new();
    plain.extend_from_slice(&response_record("http://a.example", b"page a"));
    plain.extend_from_slice(&record_bytes(&[("WARC-Type", "request")], b"req"));
    plain.extend_from_slice(&response_record("http://b.example", b"page b"));
    plain.extend_from_slice(&record_bytes(&[("WARC-Type", "metadata")], b"meta"));
    plain.extend_from_slice(&response_record("http://c.example", b"page c"));
    let docs = extract_documents(&plain);
    assert_eq!(docs.len(), 3);
    assert_eq!(docs[0].url, Some(b"http://a.example".to_vec()));
    assert_eq!(docs[1].url, Some(b"http://b.example".to_vec()));
    assert_eq!(docs[2].url, Some(b"http://c.example".to_vec()));
    // The same archive compressed as two members end to end.
    let half1 = response_record("http://a.example", b"page a");
    let mut half2 = Vec::new();
    half2.extend_from_slice(&record_bytes(&[("WARC-Type", "request")], b"req"));
    half2.extend_from_slice(&response_record("http://b.example", b"page b"));
    half2.extend_from_slice(&record_bytes(&[("WARC-Type", "metadata")], b"meta"));
    half2.extend_from_slice(&response_record("http://c.example", b"page c"));
    let mut compressed = compress_member(&half1);
    compressed.extend_from_slice(&compress_member(&half2));
    let docs2 = process_archive(&compressed);
    assert_eq!(docs2.len(), 3);
    assert_eq!(docs2[2].data, b"page c".to_vec());
}

#[test]
fn undecodable_archive_yields_no_documents() {
    let garbage = b"not gzip at all".to_vec();
    assert_eq!(process_archive(&garbage).len(), 0);
}
