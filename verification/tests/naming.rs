use saql_editor::naming::{infer_kind, resolve_upload, stem, UploadError};

#[test]
fn infer_kind_reads_json_and_csv() {
    assert_eq!(infer_kind("people.json"), Some("json".to_string()));
    assert_eq!(infer_kind("people.csv"), Some("csv".to_string()));
    assert_eq!(infer_kind("dir/sub/people.csv"), Some("csv".to_string()));
    assert_eq!(infer_kind(".json"), Some("json".to_string()));
}

#[test]
fn infer_kind_ignores_ascii_case() {
    assert_eq!(infer_kind("PEOPLE.JSON"), Some("json".to_string()));
    assert_eq!(infer_kind("People.Csv"), Some("csv".to_string()));
    assert_eq!(infer_kind("x.jSoN"), Some("json".to_string()));
}

#[test]
fn infer_kind_rejects_other_names() {
    assert_eq!(infer_kind("people.txt"), None);
    assert_eq!(infer_kind("json"), None);
    assert_eq!(infer_kind("csv"), None);
    assert_eq!(infer_kind(""), None);
    assert_eq!(infer_kind("people.json.gz"), None);
    assert_eq!(infer_kind("people.jsonl"), None);
    assert_eq!(infer_kind("people.ｊson"), None);
}

#[test]
fn stem_drops_directory_and_extension() {
    assert_eq!(stem("people.json"), "people");
    assert_eq!(stem("dir/people.csv"), "people");
    assert_eq!(stem("/a/b/archive.tar.gz"), "archive.tar");
    assert_eq!(stem("noext"), "noext");
    assert_eq!(stem(".bashrc"), ".bashrc");
    assert_eq!(stem("trailing."), "trailing");
    assert_eq!(stem("été.csv"), "été");
}

#[test]
fn stem_of_paths_that_name_no_file_is_empty() {
    assert_eq!(stem(""), "");
    assert_eq!(stem("/"), "");
    assert_eq!(stem("."), "");
    assert_eq!(stem(".."), "");
    assert_eq!(stem("a/.."), "");
    assert_eq!(stem("./"), "");
}

#[test]
fn stem_agrees_with_std_path() {
    let cases = [
        "", "/", "//", ".", "..", "...", "./", "./.", "../", "a", "a.b", "a.b.c", ".a", ".a.b",
        "a.", "a..", "dir/", "dir/.", "dir/./", "dir//x.json", "/usr/bin/", "tmp/foo.txt",
        "foo.txt/.", "foo.txt/.//", "foo.txt/..", "a/./b.csv", "./data.json", "x/..y", "x/..y.z",
        "/.", "/..", "a/b/", "a b/c d.csv", ".x/", "x/.hidden", "x/.hidden.json", "report.2024.csv",
    ];
    for case in cases {
        let expected = std::path::Path::new(case)
            .file_stem()
            .map(|s| s.to_string_lossy().to_string())
            .unwrap_or_default();
        assert_eq!(stem(case), expected, "path {:?}", case);
    }
}

#[test]
fn resolve_upload_prefers_given_name_and_kind() {
    let t = resolve_upload(true, "people", "csv", "whatever.json").unwrap();
    assert_eq!(t.name, "people");
    assert_eq!(t.kind, "csv");
}

#[test]
fn resolve_upload_falls_back_to_the_file_name() {
    let t = resolve_upload(true, "", "", "uploads/People.JSON").unwrap();
    assert_eq!(t.name, "People");
    assert_eq!(t.kind, "json");
}

#[test]
fn resolve_upload_errors() {
    assert!(matches!(resolve_upload(false, "a", "json", "a.json"), Err(UploadError::MissingFile)));
    assert!(matches!(resolve_upload(true, "a", "", "a.txt"), Err(UploadError::UnknownKind)));
    assert!(matches!(resolve_upload(true, "", "", ""), Err(UploadError::UnknownKind)));
    assert!(matches!(resolve_upload(true, "", "csv", ""), Err(UploadError::MissingName)));
    assert!(matches!(resolve_upload(true, "", "json", "dir/.."), Err(UploadError::MissingName)));
    // a missing file is reported before anything else
    assert!(matches!(resolve_upload(false, "", "", ""), Err(UploadError::MissingFile)));
}

#[test]
fn upload_error_messages() {
    assert_eq!(UploadError::MissingFile.message(), "missing `file` field");
    assert_eq!(
        UploadError::UnknownKind.message(),
        "could not determine kind; pass json or csv"
    );
    assert_eq!(UploadError::MissingName.message(), "missing table name");
}
