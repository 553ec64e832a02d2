use jjmagit_language_server::pages::PageKind;
use jjmagit_language_server::path_codec::decode;
use jjmagit_language_server::path_codec::encode;
use jjmagit_language_server::path_codec::CodecError;

#[test]
fn encode_status_no_args() {
    let args: Vec<String> = vec![];
    let path = encode("/r", PageKind::Status, &args).unwrap();
    assert_eq!(path, "/r/.control/status.page");
}

#[test]
fn decode_status_no_args() {
    let id = decode("/r/.control/status.page").unwrap();
    assert_eq!(id.workspace, "/r");
    assert_eq!(id.kind, PageKind::Status);
    assert!(id.args.is_empty());
}

#[test]
fn encode_annotate_slash_argument() {
    let args = vec![String::from("src/a.js")];
    let path = encode("/r", PageKind::Annotate, &args).unwrap();
    assert_eq!(path, "/r/.control/annotate/src'a.js.page");
}

#[test]
fn decode_annotate_slash_argument() {
    let id = decode("/r/.control/annotate/src'a.js.page").unwrap();
    assert_eq!(id.workspace, "/r");
    assert_eq!(id.kind, PageKind::Annotate);
    assert_eq!(id.args, vec![String::from("src/a.js")]);
}

#[test]
fn round_trip_multiple_args() {
    let args = vec![String::from("a/b"), String::from("c.txt")];
    let path = encode("/home/me/repo", PageKind::Commit, &args).unwrap();
    assert_eq!(path, "/home/me/repo/.control/commit/a'b/c.txt.page");
    let id = decode(&path).unwrap();
    assert_eq!(id.workspace, "/home/me/repo");
    assert_eq!(id.kind, PageKind::Commit);
    assert_eq!(id.args, args);
}

#[test]
fn reserved_character_rejected() {
    let args = vec![String::from("a<b")];
    let r = encode("/r", PageKind::Annotate, &args);
    assert_eq!(r.unwrap_err(), CodecError::ReservedCharacter);
    for c in ["<", ">", ":", "\"", "\\", "|", "?", "*"] {
        let args = vec![format!("x{}y", c)];
        assert_eq!(
            encode("/r", PageKind::Annotate, &args).unwrap_err(),
            CodecError::ReservedCharacter
        );
    }
}

#[test]
fn decode_without_marker_fails() {
    assert_eq!(decode("/r/status.page").unwrap_err(), CodecError::MarkerNotFound);
}

#[test]
fn decode_marker_leading_fails() {
    assert_eq!(decode(".control/status.page").unwrap_err(), CodecError::MarkerNotFound);
}

#[test]
fn decode_missing_kind_fails() {
    assert_eq!(decode("/r/.control").unwrap_err(), CodecError::MissingKind);
}

#[test]
fn decode_missing_extension_fails() {
    assert_eq!(decode("/r/.control/status").unwrap_err(), CodecError::MissingExtension);
}

#[test]
fn decode_unknown_kind_fails() {
    assert_eq!(decode("/r/.control/blame.page").unwrap_err(), CodecError::UnknownKind);
}

#[test]
fn encode_empty_workspace() {
    let args: Vec<String> = vec![];
    let path = encode("", PageKind::Split, &args).unwrap();
    assert_eq!(path, "/.control/split.page");
    let id = decode(&path).unwrap();
    assert_eq!(id.workspace, "");
    assert_eq!(id.kind, PageKind::Split);
}
