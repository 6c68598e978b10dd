use bump::cli::CmdArgs;
use bump::cli::Command;
use bump::error::BumpError;
use bump::patcher::bump_content;
use bump::patcher::extract_version_payload;
use bump::patcher::replace_version_payload;
use bump::version::Version;
use bump::version::VersionType;

#[test]
fn extract_payload() {
    let content = "name: app\nversion: 1.0.0+1\ndescription: x";
    assert_eq!(extract_version_payload(content).unwrap(), "1.0.0+1");
}

#[test]
fn extract_takes_first_version_line() {
    let content = "version: 1.0.0+1\nversion: 2.0.0+2";
    assert_eq!(extract_version_payload(content).unwrap(), "1.0.0+1");
}

#[test]
fn extract_needs_exact_prefix() {
    // The prefix includes the trailing space.
    let content = "version:1.0.0+1\nVersion: 2.0.0+2";
    assert_eq!(extract_version_payload(content), Err(BumpError::NotFound));
}

#[test]
fn extract_empty_payload() {
    // Extraction itself does not reject an empty payload; parsing does.
    let content = "version: ";
    assert_eq!(extract_version_payload(content).unwrap(), "");
    assert_eq!(
        bump_content(content, &VersionType::Patch),
        Err(BumpError::InvalidVersionString)
    );
}

#[test]
fn extract_keeps_rest_of_line() {
    // Everything after the first `: ` of the line is the payload.
    let content = "version: 1.0.0+1: x";
    assert_eq!(extract_version_payload(content).unwrap(), "1.0.0+1: x");
}

#[test]
fn extract_missing_line() {
    let content = "name: app\ndescription: x";
    assert_eq!(extract_version_payload(content), Err(BumpError::NotFound));
}

#[test]
fn replace_rewrites_only_version_line() {
    let content = "name: app\nversion: 1.0.0+1\ndescription: x";
    let v = Version { major: 1, minor: 1, patch: 0, code: 2 };
    assert_eq!(
        replace_version_payload(content, &v).unwrap(),
        "name: app\nversion: 1.1.0+2\ndescription: x"
    );
}

#[test]
fn replace_touches_first_version_line_only() {
    let content = "version: 1.0.0+1\nversion: 2.0.0+2";
    let v = Version { major: 3, minor: 0, patch: 0, code: 3 };
    assert_eq!(
        replace_version_payload(content, &v).unwrap(),
        "version: 3.0.0+3\nversion: 2.0.0+2"
    );
}

#[test]
fn replace_missing_line() {
    let v = Version { major: 1, minor: 0, patch: 0, code: 1 };
    assert_eq!(
        replace_version_payload("name: app", &v),
        Err(BumpError::NotFound)
    );
}

#[test]
fn bump_minor_end_to_end() {
    let content = "name: app\nversion: 1.0.0+1\ndescription: x";
    let (new_content, v) = bump_content(content, &VersionType::Minor).unwrap();
    assert_eq!(new_content, "name: app\nversion: 1.1.0+2\ndescription: x");
    assert_eq!(v, Version { major: 1, minor: 1, patch: 0, code: 2 });
    assert_eq!(v.to_string(), "1.1.0+2");
}

#[test]
fn bump_patch_end_to_end() {
    let content = "version: 0.3.9+41";
    let (new_content, v) = bump_content(content, &VersionType::Patch).unwrap();
    assert_eq!(new_content, "version: 0.3.10+42");
    assert_eq!(v.to_string(), "0.3.10+42");
}

#[test]
fn bump_major_end_to_end() {
    let content = "a: b\nversion: 1.2.3+10";
    let (new_content, v) = bump_content(content, &VersionType::Major).unwrap();
    assert_eq!(new_content, "a: b\nversion: 2.0.0+11");
    assert_eq!(v.to_string(), "2.0.0+11");
}

#[test]
fn bump_missing_line() {
    let content = "name: app\ndescription: x";
    assert_eq!(
        bump_content(content, &VersionType::Minor),
        Err(BumpError::NotFound)
    );
    assert_eq!(BumpError::NotFound.message(), "version not found");
}

#[test]
fn bump_overflow_on_max_patch() {
    let content = "version: 1.2.65535+3";
    assert_eq!(
        bump_content(content, &VersionType::Patch),
        Err(BumpError::Overflow)
    );
}

#[test]
fn bump_bad_payload() {
    let content = "version: 1.2.3";
    assert_eq!(
        bump_content(content, &VersionType::Patch),
        Err(BumpError::InvalidVersionString)
    );
}

#[test]
fn bump_normalizes_line_endings() {
    // Rewriting joins lines with a single newline: a carriage return before
    // the separator and a trailing newline are dropped.
    let content = "name: app\r\nversion: 1.0.0+1\r\n";
    let (new_content, _) = bump_content(content, &VersionType::Patch).unwrap();
    assert_eq!(new_content, "name: app\nversion: 1.0.1+2");
}

#[test]
fn bump_drops_trailing_newline() {
    let content = "version: 1.0.0+1\n";
    let (new_content, _) = bump_content(content, &VersionType::Patch).unwrap();
    assert_eq!(new_content, "version: 1.0.1+2");
}

#[test]
fn final_segment_keeps_carriage_return() {
    // No separator follows the last segment, so its `\r` is no line
    // ending: it stays in the payload and the code field fails to parse.
    let content = "version: 1.0.0+1\r";
    assert_eq!(
        bump_content(content, &VersionType::Patch),
        Err(BumpError::InvalidVersionCode)
    );
}

#[test]
fn inner_carriage_return_survives() {
    let content = "k: a\rb\nversion: 1.0.0+1";
    let (new_content, _) = bump_content(content, &VersionType::Patch).unwrap();
    assert_eq!(new_content, "k: a\rb\nversion: 1.0.1+2");
}

#[test]
fn bump_keeps_blank_lines() {
    let content = "name: app\n\nversion: 1.0.0+1\n\ntail: y";
    let (new_content, _) = bump_content(content, &VersionType::Patch).unwrap();
    assert_eq!(new_content, "name: app\n\nversion: 1.0.1+2\n\ntail: y");
}

#[test]
fn command_selects_kind_and_path() {
    let cmd = Command::Minor(CmdArgs { file_path: String::from("./pubspec.yaml") });
    assert_eq!(cmd.version_type(), VersionType::Minor);
    assert_eq!(cmd.file_path(), "./pubspec.yaml");
    let cmd = Command::Patch(CmdArgs { file_path: String::from("a.yaml") });
    assert_eq!(cmd.version_type(), VersionType::Patch);
    let cmd = Command::Major(CmdArgs { file_path: String::from("b.yaml") });
    assert_eq!(cmd.version_type(), VersionType::Major);
}
