use static_serve::fs_model::{FileMetadata, FileTime, FsFile};
use static_serve::handlers::{FileHandler, FileSystemHandler};
use static_serve::respond::{RequestHeaders, ResponseDescriptor};

fn b(s: &str) -> Vec<u8> {
    s.as_bytes().to_vec()
}

fn file(path: &str, data: &str, secs: u64, nanos: u32) -> FsFile {
    FsFile {
        path: b(path),
        meta: FileMetadata {
            size: data.len() as u64,
            modified: Some(FileTime { secs, nanos }),
        },
        data: b(data),
    }
}

fn no_headers() -> RequestHeaders {
    RequestHeaders {
        if_none_match: None,
        if_modified_since: None,
        accept_encoding: None,
    }
}

const ROOT: &str = "resources/test/static_files";

fn test_fs() -> Vec<FsFile> {
    vec![
        file(
            "resources/test/static_files/doc.html",
            "<html>I am a doc.</html>",
            1_500_000_000,
            123,
        ),
        file(
            "resources/test/static_files/file.txt",
            "I am a file",
            1_500_000_001,
            456,
        ),
        file(
            "resources/test/static_files/styles/style.css",
            ".styled { border: none; }",
            1_500_000_002,
            789,
        ),
        file(
            "resources/test/static_files/scripts/script.js",
            "console.log('I am javascript!');",
            1_500_000_003,
            12,
        ),
    ]
}

fn serve(tail: &str, headers: RequestHeaders) -> ResponseDescriptor {
    let handler = FileSystemHandler::new(b(ROOT));
    handler.handle(&b(tail), &headers, &test_fs())
}

#[test]
fn static_files_guesses_content_type() {
    let expected_docs = vec![
        ("doc.html", "text/html", "<html>I am a doc.</html>"),
        ("file.txt", "text/plain", "I am a file"),
        ("styles/style.css", "text/css", ".styled { border: none; }"),
        (
            "scripts/script.js",
            "application/javascript",
            "console.log('I am javascript!');",
        ),
    ];

    for doc in expected_docs {
        let response = serve(doc.0, no_headers());
        assert_eq!(response.status.code(), 200);
        assert_eq!(response.content_type, Some(b(doc.1)));
        assert_eq!(&response.body[..], doc.2.as_bytes());
    }
}

// Examples derived from widely published path-traversal attack vectors.
#[test]
fn static_path_traversal() {
    let traversal_attempts = vec![
        r"../private_files/secret.txt",
        r"%2e%2e%2fprivate_files/secret.txt",
        r"%2e%2e/private_files/secret.txt",
        r"..%2fprivate_files/secret.txt",
        r"%2e%2e%5cprivate_files/secret.txt",
        r"%2e%2e\private_files/secret.txt",
        r"..%5cprivate_files/secret.txt",
        r"%252e%252e%255cprivate_files/secret.txt",
        r"..%255cprivate_files/secret.txt",
        r"..%c0%afprivate_files/secret.txt",
        r"..%c1%9cprivate_files/secret.txt",
        "/etc/passwd",
    ];
    for attempt in traversal_attempts {
        let response = serve(attempt, no_headers());
        assert_eq!(response.status.code(), 404);
    }
}

#[test]
fn static_single_file() {
    let handler = FileHandler::new(b("resources/test/static_files/doc.html"));
    let response = handler.handle(&no_headers(), &test_fs());

    assert_eq!(response.status.code(), 200);
    assert_eq!(response.content_type, Some(b("text/html")));
    assert!(response.last_modified.is_some());
    assert!(response.etag.is_some());
    assert_eq!(&response.body[..], b"<html>I am a doc.</html>");
}

#[test]
fn static_if_modified_since() {
    let headers = RequestHeaders {
        if_none_match: None,
        if_modified_since: Some(1_600_000_000),
        accept_encoding: None,
    };
    let response = serve("doc.html", headers);
    assert_eq!(response.status.code(), 304);
}

#[test]
fn static_if_none_match() {
    let response = serve("doc.html", no_headers());
    let etag = response.etag.unwrap();

    let headers = RequestHeaders {
        if_none_match: Some(etag.clone()),
        if_modified_since: None,
        accept_encoding: None,
    };
    let next_response = serve("doc.html", headers);
    assert_eq!(next_response.status.code(), 304);
}
