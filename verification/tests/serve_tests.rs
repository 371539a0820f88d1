use std::io::Write;
use zipserve::serve::{handle_request, reply_for, resolve_entry_name, HandleError, ReplyBody};

fn archive_with(entries: &[(&str, &[u8])]) -> Vec<u8> {
    let mut cursor = std::io::Cursor::new(Vec::new());
    {
        let mut writer = zip::ZipWriter::new(&mut cursor);
        for (name, bytes) in entries {
            writer
                .start_file(*name, zip::write::SimpleFileOptions::default())
                .unwrap();
            writer.write_all(bytes).unwrap();
        }
        writer.finish().unwrap();
    }
    cursor.into_inner()
}

#[test]
fn resolves_entry_names() {
    assert_eq!(resolve_entry_name("/"), "index.html");
    assert_eq!(resolve_entry_name("/style.css"), "style.css");
    assert_eq!(resolve_entry_name("/docs/"), "docs/index.html");
    assert_eq!(resolve_entry_name("/docs/a.html"), "docs/a.html");
    assert_eq!(resolve_entry_name(""), "");
    assert_eq!(resolve_entry_name("//"), "/index.html");
    assert_eq!(resolve_entry_name("plain"), "plain");
}

#[test]
fn root_serves_index_html() {
    let body = b"<html>hello</html>";
    let archive = archive_with(&[("index.html", body)]);
    let outcome = handle_request(&archive, "/");
    assert_eq!(outcome.reply.status, 200);
    match outcome.reply.body {
        ReplyBody::Bytes(b) => assert_eq!(b, body),
        _ => panic!("a success must carry the stored bytes"),
    }
    assert!(outcome.log.is_none());
}

#[test]
fn nested_directory_serves_its_index() {
    let archive = archive_with(&[("docs/index.html", b"docs"), ("index.html", b"root")]);
    let outcome = handle_request(&archive, "/docs/");
    assert_eq!(outcome.reply.status, 200);
    match outcome.reply.body {
        ReplyBody::Bytes(b) => assert_eq!(b, b"docs"),
        _ => panic!("a success must carry the stored bytes"),
    }
}

#[test]
fn exact_entry_bytes_are_returned() {
    let stored: Vec<u8> = (0..=255u16).map(|v| (v % 251) as u8).collect();
    let archive = archive_with(&[("data.bin", &stored)]);
    let outcome = handle_request(&archive, "/data.bin");
    assert_eq!(outcome.reply.status, 200);
    match outcome.reply.body {
        ReplyBody::Bytes(b) => assert_eq!(b, stored),
        _ => panic!("a success must carry the stored bytes"),
    }
}

#[test]
fn missing_entry_is_a_plain_404() {
    let archive = archive_with(&[("index.html", b"hi")]);
    let before = archive.clone();
    let outcome = handle_request(&archive, "/nope.html");
    assert_eq!(outcome.reply.status, 404);
    match outcome.reply.body {
        ReplyBody::Text(t) => {
            assert!(!t.is_empty());
            assert_eq!(t, "NOT FOUND");
        }
        _ => panic!("a miss must carry a plain-text body"),
    }
    assert_eq!(outcome.log.as_deref(), Some("not found: /nope.html"));
    assert_eq!(archive, before);
}

#[test]
fn corrupted_archive_is_a_500_and_logs_the_path() {
    let mut broken = archive_with(&[("index.html", b"hi")]);
    broken.truncate(7);
    let outcome = handle_request(&broken, "/index.html");
    assert_eq!(outcome.reply.status, 500);
    match outcome.reply.body {
        ReplyBody::Text(t) => assert_eq!(t, "internal server error"),
        _ => panic!("a failure must carry a plain-text body"),
    }
    let line = outcome.log.expect("a failure must be logged");
    assert!(line.contains("/index.html"), "log line {:?} must name the path", line);
}

#[test]
fn garbage_bytes_are_a_500() {
    let garbage = vec![0x47u8; 64];
    let outcome = handle_request(&garbage, "/index.html");
    assert_eq!(outcome.reply.status, 500);
    assert!(outcome.log.is_some());
}

#[test]
fn identical_requests_get_identical_replies() {
    let archive = archive_with(&[("index.html", b"same on every transport")]);
    let first = handle_request(&archive, "/index.html");
    let second = handle_request(&archive, "/index.html");
    assert_eq!(first.reply.status, 200);
    assert_eq!(second.reply.status, 200);
    let a = match first.reply.body {
        ReplyBody::Bytes(b) => b,
        _ => panic!("expected bytes"),
    };
    let b = match second.reply.body {
        ReplyBody::Bytes(b) => b,
        _ => panic!("expected bytes"),
    };
    assert_eq!(a, b);
}

#[test]
fn io_failure_reply_names_path_and_cause() {
    let outcome = reply_for(
        "/x",
        Err(HandleError::IOFailure(String::from("file vanished"))),
    );
    assert_eq!(outcome.reply.status, 500);
    assert_eq!(
        outcome.log.as_deref(),
        Some("io error serving /x: file vanished")
    );
}

#[test]
fn invalid_archive_reply_names_path_and_cause() {
    let outcome = reply_for(
        "/y",
        Err(HandleError::InvalidArchive(String::from("bad header"))),
    );
    assert_eq!(outcome.reply.status, 500);
    assert_eq!(
        outcome.log.as_deref(),
        Some("invalid archive serving /y: bad header")
    );
}
