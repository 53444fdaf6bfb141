use static_serve::conditional::entity_tag;
use static_serve::errors::{error_status, HandlerError};
use static_serve::fs_model::{FileMetadata, FileTime, FsFile};
use static_serve::handlers::{FilePathExtractor, FileSystemHandler};
use static_serve::media::mime_for_path;
use static_serve::negotiate::{encoding_candidates, parse_qvalue, ContentEncoding};
use static_serve::resolve::{normalize_path, percent_decode, resolve_request_path};
use static_serve::respond::{error_response, RequestHeaders, ResponseDescriptor};

fn b(s: &str) -> Vec<u8> {
    s.as_bytes().to_vec()
}

fn file(path: &str, data: &str, secs: u64, nanos: u32) -> FsFile {
    FsFile {
        path: b(path),
        meta: FileMetadata {
            size: data.len() as u64,
            modified: Some(FileTime { secs, nanos }),
        },
        data: b(data),
    }
}

fn headers(
    inm: Option<&str>,
    ims: Option<u64>,
    accept: Option<&str>,
) -> RequestHeaders {
    RequestHeaders {
        if_none_match: inm.map(b),
        if_modified_since: ims,
        accept_encoding: accept.map(b),
    }
}

fn doc_fs() -> Vec<FsFile> {
    vec![file("root/doc.html", "<html>I am a doc.</html>", 2000, 5)]
}

fn doc_fs_with_gzip() -> Vec<FsFile> {
    vec![
        file("root/doc.html", "<html>I am a doc.</html>", 2000, 5),
        file("root/doc.html.gz", "gzipped-bytes", 2000, 5),
    ]
}

fn doc_fs_with_both() -> Vec<FsFile> {
    vec![
        file("root/doc.html", "<html>I am a doc.</html>", 2000, 5),
        file("root/doc.html.gz", "gzipped-bytes", 2000, 5),
        file("root/doc.html.br", "brotli-bytes", 2000, 5),
    ]
}

fn serve(fs: &Vec<FsFile>, tail: &str, h: RequestHeaders) -> ResponseDescriptor {
    FileSystemHandler::new(b("root")).handle(&b(tail), &h, fs)
}

#[test]
fn entity_tag_exact_format() {
    let meta = FileMetadata {
        size: 0x10,
        modified: Some(FileTime { secs: 0x20, nanos: 0x3 }),
    };
    let tag = entity_tag(&meta).unwrap();
    assert_eq!(tag, b("W/\"10-20.3\""));
}

#[test]
fn entity_tag_absent_without_modified_time() {
    let meta = FileMetadata { size: 5, modified: None };
    assert!(entity_tag(&meta).is_none());
}

#[test]
fn entity_tag_changes_with_metadata() {
    let base = FileMetadata {
        size: 24,
        modified: Some(FileTime { secs: 2000, nanos: 5 }),
    };
    let bigger = FileMetadata {
        size: 25,
        modified: Some(FileTime { secs: 2000, nanos: 5 }),
    };
    let later = FileMetadata {
        size: 24,
        modified: Some(FileTime { secs: 2001, nanos: 5 }),
    };
    let tag = entity_tag(&base).unwrap();
    assert_eq!(tag, entity_tag(&base).unwrap());
    assert_ne!(tag, entity_tag(&bigger).unwrap());
    assert_ne!(tag, entity_tag(&later).unwrap());
}

#[test]
fn if_none_match_wildcard_not_modified() {
    let response = serve(&doc_fs(), "doc.html", headers(Some("*"), None, None));
    assert_eq!(response.status.code(), 304);
    assert!(response.body.is_empty());
    assert!(response.etag.is_none());
    assert!(response.last_modified.is_none());
    assert!(response.content_type.is_none());
}

#[test]
fn if_none_match_non_matching_tag_serves_body() {
    let response = serve(
        &doc_fs(),
        "doc.html",
        headers(Some("W/\"dead-beef.1\""), None, None),
    );
    assert_eq!(response.status.code(), 200);
    assert_eq!(&response.body[..], b"<html>I am a doc.</html>");
}

#[test]
fn if_none_match_takes_precedence_over_if_modified_since() {
    // The tag does not match, so the response is fresh even though the
    // If-Modified-Since value alone would say not-modified.
    let response = serve(
        &doc_fs(),
        "doc.html",
        headers(Some("W/\"dead-beef.1\""), Some(9999), None),
    );
    assert_eq!(response.status.code(), 200);
}

#[test]
fn if_modified_since_earlier_serves_body() {
    let response = serve(&doc_fs(), "doc.html", headers(None, Some(1999), None));
    assert_eq!(response.status.code(), 200);
    assert_eq!(&response.body[..], b"<html>I am a doc.</html>");
}

#[test]
fn if_modified_since_equal_not_modified() {
    let response = serve(&doc_fs(), "doc.html", headers(None, Some(2000), None));
    assert_eq!(response.status.code(), 304);
    assert!(response.body.is_empty());
}

#[test]
fn gzip_sibling_served_when_acceptable() {
    let response = serve(
        &doc_fs_with_gzip(),
        "doc.html",
        headers(None, None, Some("gzip;q=1.0")),
    );
    assert_eq!(response.status.code(), 200);
    assert_eq!(response.content_encoding, Some(b("gzip")));
    assert_eq!(&response.body[..], b"gzipped-bytes");
    // The content type still comes from the base file's extension.
    assert_eq!(response.content_type, Some(b("text/html")));
}

#[test]
fn missing_gzip_sibling_serves_identity() {
    let response = serve(&doc_fs(), "doc.html", headers(None, None, Some("gzip;q=1.0")));
    assert_eq!(response.status.code(), 200);
    assert!(response.content_encoding.is_none());
    assert_eq!(&response.body[..], b"<html>I am a doc.</html>");
}

#[test]
fn brotli_wins_quality_tie() {
    let response = serve(
        &doc_fs_with_both(),
        "doc.html",
        headers(None, None, Some("gzip, br")),
    );
    assert_eq!(response.content_encoding, Some(b("br")));
    assert_eq!(&response.body[..], b"brotli-bytes");
}

#[test]
fn higher_quality_encoding_wins() {
    let response = serve(
        &doc_fs_with_both(),
        "doc.html",
        headers(None, None, Some("br;q=0.4, gzip;q=0.8")),
    );
    assert_eq!(response.content_encoding, Some(b("gzip")));
    assert_eq!(&response.body[..], b"gzipped-bytes");
}

#[test]
fn zero_quality_encoding_is_not_used() {
    let response = serve(
        &doc_fs_with_gzip(),
        "doc.html",
        headers(None, None, Some("gzip;q=0")),
    );
    assert!(response.content_encoding.is_none());
    assert_eq!(&response.body[..], b"<html>I am a doc.</html>");
}

#[test]
fn malformed_accept_encoding_serves_identity() {
    let response = serve(
        &doc_fs_with_gzip(),
        "doc.html",
        headers(None, None, Some("gzip;q=banana")),
    );
    assert!(response.content_encoding.is_none());
    assert_eq!(&response.body[..], b"<html>I am a doc.</html>");
}

#[test]
fn unknown_extension_gets_octet_stream() {
    let fs = vec![file("root/data.unknownext", "mystery", 1, 1)];
    let response = serve(&fs, "data.unknownext", headers(None, None, None));
    assert_eq!(response.status.code(), 200);
    assert_eq!(response.content_type, Some(b("application/octet-stream")));
}

#[test]
fn mime_for_path_ignores_encoding_suffix() {
    // The type is computed from the base path, so a compressed sibling
    // still reports the underlying type.
    assert_eq!(mime_for_path(&b("a/doc.html")), b("text/html"));
    assert_eq!(mime_for_path(&b("style.css")), b("text/css"));
    assert_eq!(mime_for_path(&b("noext")), b("application/octet-stream"));
}

#[test]
fn malformed_percent_escape_is_rejected() {
    let response = serve(&doc_fs(), "doc%zz.html", headers(None, None, None));
    assert_eq!(response.status.code(), 404);
    let response = serve(&doc_fs(), "doc%2", headers(None, None, None));
    assert_eq!(response.status.code(), 404);
}

#[test]
fn null_byte_is_rejected() {
    let response = serve(&doc_fs(), "doc%00.html", headers(None, None, None));
    assert_eq!(response.status.code(), 404);
}

#[test]
fn empty_tail_is_rejected() {
    let response = serve(&doc_fs(), "", headers(None, None, None));
    assert_eq!(response.status.code(), 404);
}

#[test]
fn error_statuses_map_per_failure() {
    assert_eq!(error_status(&HandlerError::PathTraversal).code(), 404);
    assert_eq!(error_status(&HandlerError::ResourceNotFound).code(), 404);
    assert_eq!(error_status(&HandlerError::AccessDenied).code(), 403);
    assert_eq!(error_status(&HandlerError::IoFailure).code(), 500);
    assert_eq!(error_status(&HandlerError::MalformedRequestPath).code(), 400);
    let denied = error_response(&HandlerError::AccessDenied);
    assert_eq!(denied.status.code(), 403);
    assert!(denied.body.is_empty());
}

#[test]
fn qvalue_parsing_in_thousandths() {
    assert_eq!(parse_qvalue(&b("0")), Some(0));
    assert_eq!(parse_qvalue(&b("1")), Some(1000));
    assert_eq!(parse_qvalue(&b("0.8")), Some(800));
    assert_eq!(parse_qvalue(&b("0.85")), Some(850));
    assert_eq!(parse_qvalue(&b("0.851")), Some(851));
    assert_eq!(parse_qvalue(&b("1.000")), Some(1000));
    assert_eq!(parse_qvalue(&b("1.001")), None);
    assert_eq!(parse_qvalue(&b("0.8512")), None);
    assert_eq!(parse_qvalue(&b("2")), None);
    assert_eq!(parse_qvalue(&b("")), None);
}

#[test]
fn candidates_follow_quality_order() {
    assert_eq!(
        encoding_candidates(&Some(b("gzip;q=0.5, br;q=0.9"))),
        vec![ContentEncoding::Brotli, ContentEncoding::Gzip]
    );
    assert_eq!(
        encoding_candidates(&Some(b("gzip;q=0.9, br;q=0.5"))),
        vec![ContentEncoding::Gzip, ContentEncoding::Brotli]
    );
    assert_eq!(encoding_candidates(&Some(b("identity"))), vec![]);
    assert_eq!(encoding_candidates(&None), vec![]);
}

#[test]
fn percent_decoding_decodes_once() {
    assert_eq!(percent_decode(&b("a%20b")).unwrap(), b("a b"));
    assert_eq!(percent_decode(&b("%252e")).unwrap(), b("%2e"));
    assert!(percent_decode(&b("%g1")).is_err());
}

#[test]
fn normalize_path_folds_components() {
    let parts = vec![b("a"), b(".."), b("b"), b("."), b("c")];
    let folded = normalize_path(&parts).unwrap();
    assert_eq!(folded, vec![b("b"), b("c")]);
    assert!(normalize_path(&vec![b("..")]).is_err());
    assert!(normalize_path(&vec![b("a"), b(".."), b("..")]).is_err());
}

#[test]
fn resolve_discards_root_components() {
    let segs = resolve_request_path(&b("/etc/passwd")).unwrap();
    assert_eq!(segs, vec![b("etc"), b("passwd")]);
}

#[test]
fn body_is_what_was_read_even_if_size_disagrees() {
    // The stat-time length only sizes the read buffer; the body is the
    // bytes actually read, and only the entity tag uses the stat length.
    let fs = vec![FsFile {
        path: b("root/doc.html"),
        meta: FileMetadata {
            size: 1000,
            modified: Some(FileTime { secs: 2000, nanos: 5 }),
        },
        data: b("<html>I am a doc.</html>"),
    }];
    let response = serve(&fs, "doc.html", headers(None, None, None));
    assert_eq!(response.status.code(), 200);
    assert_eq!(&response.body[..], b"<html>I am a doc.</html>");
    assert_eq!(response.etag, Some(b("W/\"3e8-7d0.5\"")));
}

#[test]
fn extractor_rebuilds_tail_and_validates() {
    let extractor = FilePathExtractor::new(vec![b("styles"), b("style.css")]);
    assert_eq!(extractor.tail(), b("styles/style.css"));
    assert!(extractor.validate().is_ok());

    let bad = FilePathExtractor::new(vec![b("sty/les")]);
    assert_eq!(bad.validate().unwrap_err(), HandlerError::MalformedRequestPath);
}
