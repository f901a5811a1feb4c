use backend_frontend::proxy::{
    content_type_for, decode_download, decode_server_icon, ends_with, file_name_of,
    format_dashed_uuid, parse_file_action, strip_dashes, FileAction, FileActionError,
};

#[test]
fn a_plain_identifier_is_dashed_8_4_4_4_12() {
    let dashed = format_dashed_uuid("069a79f444e94726a5befca90e38aaf5").expect("32 characters");
    assert_eq!(dashed, "069a79f4-44e9-4726-a5be-fca90e38aaf5");
}

#[test]
fn a_short_identifier_is_refused() {
    assert!(format_dashed_uuid("069a79f4").is_none());
    assert!(format_dashed_uuid("").is_none());
}

#[test]
fn dashing_and_stripping_round_trip() {
    let plain = "069a79f444e94726a5befca90e38aaf5";
    let dashed = format_dashed_uuid(plain).expect("32 characters");
    assert_eq!(strip_dashes(&dashed), plain);
    assert_eq!(strip_dashes(plain), plain);
    assert_eq!(strip_dashes("--a-b--"), "ab");
}

#[test]
fn content_types_follow_the_file_ending() {
    assert_eq!(content_type_for("server.txt"), "text/plain");
    assert_eq!(content_type_for("ops.json"), "application/json");
    assert_eq!(content_type_for("config.yml"), "text/yaml");
    assert_eq!(content_type_for("config.yaml"), "text/yaml");
    assert_eq!(content_type_for("server.properties"), "text/plain");
    assert_eq!(content_type_for("plugin.jar"), "application/java-archive");
    assert_eq!(content_type_for("latest.log"), "text/plain");
    assert_eq!(content_type_for("world.dat"), "application/octet-stream");
    assert_eq!(content_type_for(""), "application/octet-stream");
}

#[test]
fn suffix_matching_is_exact() {
    assert!(ends_with("latest.log", ".log"));
    assert!(!ends_with("latest.log.gz", ".log"));
    assert!(!ends_with("og", ".log"));
    assert!(ends_with("x", ""));
}

#[test]
fn the_download_name_is_the_last_path_segment() {
    assert_eq!(file_name_of("plugins/config.yml"), "config.yml");
    assert_eq!(file_name_of("a/b/c.txt"), "c.txt");
    assert_eq!(file_name_of("file.txt"), "file.txt");
    assert_eq!(file_name_of("dir/"), "");
    assert_eq!(file_name_of(""), "");
}

#[test]
fn file_actions_are_decided_exactly() {
    assert!(matches!(
        parse_file_action("rename", Some(String::from("new.txt"))),
        Ok(FileAction::Rename(m)) if m == "new.txt"
    ));
    assert_eq!(
        parse_file_action("rename", None).err(),
        Some(FileActionError::MissingNewName)
    );
    assert!(matches!(
        parse_file_action("mkdir", None),
        Ok(FileAction::CreateDirectory)
    ));
    assert_eq!(
        parse_file_action("move", Some(String::from("x"))).err(),
        Some(FileActionError::UnknownAction)
    );
}

#[test]
fn a_server_icon_is_decoded_from_base64() {
    assert_eq!(decode_server_icon("AQID"), Some(vec![1u8, 2, 3]));
    assert_eq!(decode_server_icon("aGVsbG8="), Some(Vec::from("hello".as_bytes())));
    assert_eq!(decode_server_icon("not base64!"), None);
}

#[test]
fn downloads_decode_base64_only_when_marked() {
    assert_eq!(decode_download("aGVsbG8=", true), Some(Vec::from("hello".as_bytes())));
    assert_eq!(decode_download("aGVsbG8=", false), Some(Vec::from("aGVsbG8=".as_bytes())));
    assert_eq!(decode_download("%%%", true), None);
    assert_eq!(decode_download("plain text", false), Some(Vec::from("plain text".as_bytes())));
}
