//! The functions on texts.

use smartcrab_release::backend::BumpKind;
use smartcrab_release::backends::bun::{dep_names, extract_workspace_patterns, topo_sort_dirs};
use smartcrab_release::backends::bun_lock::{match_brace, replace_workspace_version_in_lockfile};
use smartcrab_release::backends::cargo_toml::{self, LayoutOf};
use smartcrab_release::backends::dotnet_text::{
    extract_version, has_version_element, parse_sln_project_paths, replace_version,
};
use smartcrab_release::backends::pnpm_workspace::parse_pnpm_workspace_patterns;
use smartcrab_release::backends::{julia, pnpm, uv};
use smartcrab_release::config::parse_publish_flag;
use smartcrab_release::data::{Data, Entry};
use smartcrab_release::error::{Error, ErrorOf, Part};
use smartcrab_release::graph::arrange;
use smartcrab_release::packages::Package;
use smartcrab_release::version::{bump, bump_if_possible};
use smartcrab_release::{json, toml};

#[test]
fn bump_patch_rolls_units() {
    assert_eq!(bump("0.0.9", BumpKind::Patch).unwrap(), "0.0.10");
}

#[test]
fn bump_minor_resets_patch() {
    assert_eq!(bump("1.9.9", BumpKind::Minor).unwrap(), "1.10.0");
}

#[test]
fn bump_major_resets_minor_and_patch() {
    assert_eq!(bump("1.2.3", BumpKind::Major).unwrap(), "2.0.0");
}

#[test]
fn bump_patch_from_zero() {
    assert_eq!(bump("0.0.0", BumpKind::Patch).unwrap(), "0.0.1");
}

#[test]
fn reject_non_semver() {
    assert!(bump("1.2", BumpKind::Patch).is_err());
    assert!(bump("1.2.3.4", BumpKind::Patch).is_err());
    assert!(bump("abc", BumpKind::Patch).is_err());
    assert!(bump("1.2.3-rc1", BumpKind::Patch).is_err());
}

#[test]
fn replace_workspace_version_updates_member_block() {
    let lock = "{\n  \"workspaces\": {\n    \"\": {\n      \"name\": \"root\"\n    },\n    \"packages/cli\": {\n      \"name\": \"@x/cli\",\n      \"version\": \"0.1.14\",\n      \"dependencies\": {\n        \"@x/sdk\": \"workspace:^\"\n      }\n    },\n    \"packages/sdk\": {\n      \"name\": \"@x/sdk\",\n      \"version\": \"0.1.14\"\n    }\n  }\n}\n";
    let updated = replace_workspace_version_in_lockfile(lock, "packages/cli", "0.1.18").unwrap();
    assert!(updated.contains("\"packages/cli\""), "{updated}");
    let cli_block_start = updated
        .find("\"packages/cli\"")
        .unwrap_or_else(|| panic!("missing cli key"));
    let cli_block_end = updated[cli_block_start..]
        .find("\"packages/sdk\"")
        .map(|x| cli_block_start + x)
        .unwrap_or_else(|| panic!("missing sdk key"));
    let cli_block = &updated[cli_block_start..cli_block_end];
    assert!(
        cli_block.contains("\"version\": \"0.1.18\""),
        "cli block did not get bumped: {cli_block}"
    );
    // sdk block must be untouched
    let sdk_block = &updated[cli_block_end..];
    assert!(
        sdk_block.contains("\"version\": \"0.1.14\""),
        "sdk block was modified: {sdk_block}"
    );
}

#[test]
fn replace_workspace_version_handles_root_key() {
    let lock = "{\n  \"workspaces\": {\n    \"\": {\n      \"name\": \"root\",\n      \"version\": \"0.1.14\"\n    }\n  }\n}\n";
    let updated = replace_workspace_version_in_lockfile(lock, "", "0.2.0").unwrap();
    assert!(updated.contains("\"version\": \"0.2.0\""), "{updated}");
}

#[test]
fn replace_workspace_version_is_noop_when_key_missing() {
    let lock = "{\n  \"workspaces\": {\n    \"packages/a\": { \"name\": \"@x/a\", \"version\": \"1.0.0\" }\n  }\n}\n";
    let updated = replace_workspace_version_in_lockfile(lock, "packages/b", "9.9.9").unwrap();
    assert_eq!(updated, lock);
}

#[test]
fn replace_workspace_version_is_noop_when_block_has_no_version() {
    let lock =
        "{\n  \"workspaces\": {\n    \"\": { \"name\": \"root\", \"private\": true }\n  }\n}\n";
    let updated = replace_workspace_version_in_lockfile(lock, "", "9.9.9").unwrap();
    assert_eq!(updated, lock);
}

#[test]
fn match_brace_skips_braces_inside_strings() {
    let s = r#"{ "k": "value with } brace", "n": 1 }"#;
    let close = match_brace(s, 0).unwrap();
    assert_eq!(&s[close..=close], "}");
    assert_eq!(close, s.len() - 1);
}

#[test]
fn extract_patterns_handles_both_forms() {
    let arr = json::read(r#"{"workspaces":["packages/*","apps/*"]}"#).unwrap();
    assert_eq!(
        extract_workspace_patterns(&arr),
        vec!["packages/*".to_owned(), "apps/*".to_owned()]
    );
    let obj = json::read(r#"{"workspaces":{"packages":["packages/*"]}}"#).unwrap();
    assert_eq!(
        extract_workspace_patterns(&obj),
        vec!["packages/*".to_owned()]
    );
    let none = json::read(r#"{"name":"x"}"#).unwrap();
    assert!(extract_workspace_patterns(&none).is_empty());
}

#[test]
fn parse_packages_from_simple_yaml() {
    let yaml = "packages:\n  - \"packages/*\"\n  - 'apps/*'\n  - crates/*\n";
    let got = parse_pnpm_workspace_patterns(yaml);
    assert_eq!(
        got,
        vec![
            "packages/*".to_owned(),
            "apps/*".to_owned(),
            "crates/*".to_owned()
        ]
    );
}

#[test]
fn parse_packages_stops_at_other_top_level_key() {
    let yaml = "packages:\n  - packages/*\nonlyBuiltDependencies:\n  - esbuild\n";
    let got = parse_pnpm_workspace_patterns(yaml);
    assert_eq!(got, vec!["packages/*".to_owned()]);
}

#[test]
fn parse_sln_paths_handles_backslashes() {
    let text = "Project(\"{GUID}\") = \"Foo\", \"sub\\Foo.csproj\", \"{G2}\"\nEndProject\n";
    let got = parse_sln_project_paths(text);
    assert_eq!(got, vec!["sub/Foo.csproj".to_owned()]);
}

#[test]
fn replace_version_tolerates_whitespace_inside_tags() {
    let text =
        "<Project><PropertyGroup><Version>  1.2.3 \n</Version></PropertyGroup></Project>";
    assert_eq!(extract_version(text).as_deref(), Some("1.2.3"));
    let out = replace_version(text, "1.2.3", "1.2.4")
        .unwrap_or_else(|| panic!("replace_version returned None"));
    assert!(out.contains("<Version>1.2.4</Version>"));
    assert!(!out.contains("1.2.3"));
}

// ---------------------------------------------------------------------------
// Versions
// ---------------------------------------------------------------------------

#[test]
fn bump_says_what_is_wrong() {
    assert_eq!(bump("1.2", BumpKind::Patch), Err(ErrorOf::MissingPart(Part::Patch)));
    assert_eq!(bump("abc", BumpKind::Patch), Err(ErrorOf::MissingPart(Part::Minor)));
    assert_eq!(
        bump("1.2.3.4", BumpKind::Patch),
        Err(ErrorOf::TooManyParts("1.2.3.4".to_owned()))
    );
    assert_eq!(
        bump("1.2.3-rc1", BumpKind::Patch),
        Err(ErrorOf::NotANumber(Part::Patch, "3-rc1".to_owned()))
    );
    assert_eq!(
        bump("x.2.3", BumpKind::Patch),
        Err(ErrorOf::NotANumber(Part::Major, "x".to_owned()))
    );
    assert_eq!(
        bump("1..3", BumpKind::Patch),
        Err(ErrorOf::NotANumber(Part::Minor, String::new()))
    );
}

#[test]
fn bump_accepts_what_numbers_accept() {
    assert_eq!(bump(" 1.2.3\n", BumpKind::Patch).unwrap(), "1.2.4");
    assert_eq!(bump("01.002.+3", BumpKind::Minor).unwrap(), "1.3.0");
    assert_eq!(
        bump("0.18446744073709551616.0", BumpKind::Patch),
        Err(ErrorOf::NotANumber(Part::Minor, "18446744073709551616".to_owned()))
    );
}

#[test]
fn the_largest_number_cannot_be_raised() {
    let version = "0.0.18446744073709551615";
    assert_eq!(
        bump_if_possible(version, BumpKind::Patch),
        Err(ErrorOf::VersionTooLarge(version.to_owned()))
    );
    assert_eq!(bump_if_possible(version, BumpKind::Minor).unwrap(), "0.1.0");
    assert_eq!(bump_if_possible("1.9.9", BumpKind::Minor).unwrap(), "1.10.0");
}

#[test]
fn a_bumped_version_can_be_bumped_again() {
    let once = bump("9.9.9", BumpKind::Major).unwrap();
    assert_eq!(once, "10.0.0");
    let twice = bump(&once, BumpKind::Patch).unwrap();
    assert_eq!(twice, "10.0.1");
}

// ---------------------------------------------------------------------------
// bun.lock
// ---------------------------------------------------------------------------

const LOCK: &str = "{ \"workspaces\": { \"a\": { \"name\": \"{\", \"version\": \"1.0.0\" }, \
     \"b\": { \"version\": \"1.0.0\" } }, \"packages\": {} }";

#[test]
fn a_lockfile_holds_the_version_that_was_put_there() {
    let once = replace_workspace_version_in_lockfile(LOCK, "b", "10.20.30").unwrap();
    assert_eq!(
        once,
        "{ \"workspaces\": { \"a\": { \"name\": \"{\", \"version\": \"1.0.0\" }, \
         \"b\": { \"version\": \"10.20.30\" } }, \"packages\": {} }"
    );
    // What was put there is found and replaced again.
    assert_eq!(replace_workspace_version_in_lockfile(&once, "b", "1.0.0").unwrap(), LOCK);
}

#[test]
fn a_lockfile_without_workspaces_stays() {
    for lock in ["", "{}", "{ \"workspaces\": 1 }", "\"workspaces\":"] {
        assert_eq!(replace_workspace_version_in_lockfile(lock, "a", "2.0.0").unwrap(), lock);
    }
}

#[test]
fn malformed_lockfiles_are_told() {
    let malformed = |what: &str| Err(ErrorOf::Malformed(format!("bun.lock: {what}")));
    assert_eq!(
        replace_workspace_version_in_lockfile("{ \"workspaces\": { \"a\": {", "a", "2"),
        malformed("unbalanced braces")
    );
    assert_eq!(
        replace_workspace_version_in_lockfile("{ \"workspaces\": { \"a\": { } \"", "a", "2"),
        malformed("unbalanced braces")
    );
    assert_eq!(
        replace_workspace_version_in_lockfile(
            "{\"workspaces\":{\"a\":{\"version\": 1}}}",
            "a",
            "2"
        ),
        malformed("version value not quoted")
    );
    assert_eq!(
        replace_workspace_version_in_lockfile(
            "{\"workspaces\":{\"a\\\":{}}, \"b\":{\"version\":\"1",
            "a\\",
            "2"
        ),
        malformed("unbalanced braces")
    );
}

#[test]
fn comments_in_a_lockfile_are_passed_over() {
    for (before, after) in [
        ("// a { \"comment\n{\"workspaces\":{\"a\":{\"version\":\"", "\"}}}"),
        ("\u{feff}{\"workspaces\":{\"a\":{\"version\":\"", "\"}}}"),
        ("{\"workspaces\": /* \"{ */ {\"a\": // }\n {\"version\": /**/ \"", "\"}}}"),
        ("{/* \"workspaces\": { */\"workspaces\":{\"a\":{\"version\":\"", "\"}}} // {"),
        ("\"workspaces\":{\"a\":{\"version\":\"", "\"}}"),
        ("{\"packages\": {\"workspaces\": {\"a\": {\"version\": \"", "\"}}}}"),
        ("{\"x\": \"http://y\", \"workspaces\":{\"a\":{\"n\":\"//\",\"version\":\"", "\"}}}"),
    ] {
        let lock = format!("{before}1.0.0{after}");
        assert_eq!(
            replace_workspace_version_in_lockfile(&lock, "a", "2.0.0").unwrap(),
            format!("{before}2.0.0{after}")
        );
    }
}

#[test]
fn the_first_string_behind_the_version_key_is_replaced() {
    assert_eq!(
        replace_workspace_version_in_lockfile(
            "{\"workspaces\":{\"a\":{\"version\": 1, \"name\": \"x\"}}}",
            "a",
            "2"
        )
        .unwrap(),
        "{\"workspaces\":{\"a\":{\"version\": 1, \"2\": \"x\"}}}"
    );
    assert_eq!(
        replace_workspace_version_in_lockfile(
            "{\"workspaces\":{\"a\":{\"version\": 1}}, \"b",
            "a",
            "2"
        ),
        Err(ErrorOf::Malformed("bun.lock: unterminated version string".to_owned()))
    );
}

#[test]
fn a_key_across_an_object_is_found_as_it_stands() {
    let lock = "{\"workspaces\":{\"a\": {\"b\": {\"version\": \"1\"}}}}";
    let once = replace_workspace_version_in_lockfile(lock, "a\": {\"b", "2").unwrap();
    assert_eq!(once, lock.replace("\"1\"", "\"2\""));
    assert_eq!(replace_workspace_version_in_lockfile(&once, "a\": {\"b", "1").unwrap(), lock);
}

#[test]
fn keys_of_inner_objects_are_not_those_of_a_lockfile() {
    for (lock, key) in [
        ("{\"workspaces\": {\"\": {\"dependencies\": {\"version\": \"1.0.0\"}}}}", ""),
        ("{\"workspaces\": {\"a\": {\"name\": {\"version\": \"1.0.0\"}}}}", "name"),
        ("{\"workspaces\": {\"a\": 1, \"b\": {\"version\": \"1.0.0\"}}}", "a"),
        ("{\"workspaces\": {\"a\": {}}, \"b\": {\"version\": \"1.0.0\"}}", "b"),
        ("{\"workspaces\": {\"a\": {\"x\": \"\\\"version\\\":\"}}}", "a"),
    ] {
        assert_eq!(replace_workspace_version_in_lockfile(lock, key, "2.0.0").unwrap(), lock);
    }
    assert_eq!(
        replace_workspace_version_in_lockfile(
            "{\"workspaces\":{\"a\":{\"d\":{\"version\":\"1\"},\"version\" : \"0\",\"version\":\n\"\\\"1\"}}}",
            "a",
            "2"
        )
        .unwrap(),
        "{\"workspaces\":{\"a\":{\"d\":{\"version\":\"1\"},\"version\" : \"0\",\"version\":\n\"2\"}}}"
    );
}

#[test]
fn of_two_versions_in_a_lockfile_the_last_one_stays() {
    let put = |lock: &str, version: &str| {
        replace_workspace_version_in_lockfile(lock, "a", version).unwrap()
    };
    assert_eq!(put(&put(LOCK, "2.0.0"), "3.0.0-rc.1"), put(LOCK, "3.0.0-rc.1"));
    assert_eq!(put(&put(LOCK, "\\\"{"), "3"), put(LOCK, "3"));
}

#[test]
fn match_brace_counts_bytes() {
    let s = "é{ \"\\\"}\" {} }";
    assert_eq!(match_brace(s, 2).unwrap(), s.len() - 1);
    assert_eq!(match_brace("{}", 0).unwrap(), 1);
}

#[test]
fn match_brace_needs_an_opening_brace() {
    let wrong = ErrorOf::Absent("internal: match_brace called on non-`{` byte".to_owned());
    assert_eq!(match_brace("x{}", 0), Err(wrong));
    assert!(match_brace("{}", 2).is_err());
    assert_eq!(
        match_brace("{ { }", 0),
        Err(ErrorOf::Malformed("bun.lock: unbalanced braces".to_owned()))
    );
}

// ---------------------------------------------------------------------------
// package.json
// ---------------------------------------------------------------------------

fn with_version(text: &str, new: &str) -> Option<String> {
    pnpm::replace_version(&json::Doc::parse(text).unwrap(), new)
}

#[test]
fn the_entry_is_replaced_as_it_is_written() {
    assert_eq!(
        with_version("{ \"version\": \"1.0.0\", \"x\": [1 ,2] }", "2.0.0").unwrap(),
        "{ \"version\": \"2.0.0\", \"x\": [1 ,2] }"
    );
    assert_eq!(
        with_version("{\"x\":1,\"version\":\"1.0.0\"}", "2.0.0").unwrap(),
        "{\"x\":1,\"version\":\"2.0.0\"}"
    );
}

#[test]
fn a_document_that_is_written_otherwise_is_printed_anew() {
    let printed = with_version("{\"name\":\"x\",\n \"version\" : \"1.0.0\"}", "2.0.0").unwrap();
    assert_eq!(printed, "{\n  \"name\": \"x\",\n  \"version\": \"2.0.0\"\n}");
    assert_eq!(with_version(&printed, "3.0.0").unwrap().matches("3.0.0").count(), 1);
}

#[test]
fn a_document_without_version_is_left_alone() {
    assert_eq!(with_version("{\"version\": 1}", "2.0.0"), None);
    assert_eq!(with_version("[\"version\"]", "2.0.0"), None);
    assert_eq!(with_version("{}", "2.0.0"), None);
}

#[test]
fn json_is_read_piece_by_piece() {
    let Data::Table(entries) = json::read(
        r#"{"t": "x", "b": true, "l": ["a", 1], "o": {"k": null}, "n": 1, "t": "y"}"#,
    )
    .unwrap() else {
        panic!("not an object");
    };
    let find = |key: &str| entries.iter().rev().find(|e| e.key == key).map(|e| &e.value);
    assert!(matches!(find("t"), Some(Data::Text(t)) if t == "y"));
    assert!(matches!(find("b"), Some(Data::Flag(true))));
    let Some(Data::List(list)) = find("l") else {
        panic!("not a list");
    };
    assert_eq!(list, &vec![Some("a".to_owned()), None]);
    assert!(matches!(find("o"), Some(Data::Table(inner)) if inner.len() == 1));
    assert!(matches!(find("n"), Some(Data::Other)));
    assert!(json::read("{").is_err());
}

#[test]
fn dependencies_of_all_kinds_are_collected() {
    let data = json::read(
        r#"{"dependencies":{"a":"1"},"devDependencies":{"b":"1","a":"1"},
            "peerDependencies":{"c":"1"},"optionalDependencies":{"d":"1"},"bundled":{"e":"1"}}"#,
    )
    .unwrap();
    let mut names = dep_names(&data);
    names.sort();
    assert_eq!(names, vec!["a", "b", "c", "d"]);
}

#[test]
fn private_or_unversioned_packages_are_not_publishable() {
    for (text, publishable) in [
        (r#"{"version":"1.0.0"}"#, true),
        (r#"{"version":"1.0.0","private":false}"#, true),
        (r#"{"version":"1.0.0","private":true}"#, false),
        (r#"{"version":"1.0.0","private":"true"}"#, true),
        (r#"{"private":false}"#, false),
        (r#"[]"#, false),
    ] {
        assert_eq!(pnpm::is_publishable_json(&json::read(text).unwrap()), publishable, "{text}");
    }
}

// ---------------------------------------------------------------------------
// TOML
// ---------------------------------------------------------------------------

fn entries(text: &str) -> Vec<Entry> {
    toml::read(text).unwrap()
}

fn doc(text: &str) -> toml::Doc {
    toml::Doc::parse(text).unwrap()
}

fn names(list: &[&str]) -> Vec<String> {
    list.iter().map(|n| (*n).to_owned()).collect()
}

#[test]
fn toml_is_read_piece_by_piece() {
    let all = entries("t = 'x'\nb = false\nl = ['a', 1]\ni = { k = 1 }\nn = 1.5\n[s]\nk = 'v'\n");
    let keys: Vec<&str> = all.iter().map(|e| e.key.as_str()).collect();
    assert_eq!(keys, vec!["t", "b", "l", "i", "n", "s"]);
    assert!(matches!(&all[0].value, Data::Text(t) if t == "x"));
    assert!(matches!(&all[1].value, Data::Flag(false)));
    assert!(matches!(&all[2].value, Data::List(l) if *l == vec![Some("a".to_owned()), None]));
    assert!(matches!(&all[3].value, Data::Inline(inner) if inner.len() == 1));
    assert!(matches!(&all[4].value, Data::Other));
    assert!(matches!(&all[5].value, Data::Table(inner) if inner[0].key == "k"));
    assert!(toml::read("x = [").is_err());
}

#[test]
fn layouts_are_told_apart() {
    assert!(matches!(
        cargo_toml::classify(&entries("[package]\nversion = '1.0.0'\n")),
        LayoutOf::Package
    ));
    assert!(matches!(
        cargo_toml::classify(&entries("[workspace]\n[workspace.package]\nversion = '1.0.0'\n")),
        LayoutOf::WorkspacePackage
    ));
    let LayoutOf::VirtualOrMembers(patterns) =
        cargo_toml::classify(&entries("[workspace]\nmembers = ['a', 'b/*']\n"))
    else {
        panic!("not a virtual workspace");
    };
    assert_eq!(patterns, vec!["a", "b/*"]);
}

#[test]
fn dependency_names_come_from_every_table() {
    let mut got = cargo_toml::member_dep_names(&entries(
        "[dependencies]\na = '1'\nb2 = { package = 'b' }\n[dev-dependencies]\nc = '1'\n\
         [build-dependencies]\nd = '1'\n[target.'cfg(unix)'.dependencies]\ne = '1'\n\
         [workspace.dependencies]\nf = '1'\n",
    ));
    got.sort();
    assert_eq!(got, vec!["a", "b", "c", "d", "e"]);
}

#[test]
fn only_versions_of_members_change() {
    let text = "[package]\nname = \"x\"\nversion = \"1.0.0\"\n\n[dependencies]\n\
                a = \"1.0.0\"\nb = { path = \"../b\" }\nc = { package = \"a\", version = \"1\" }\n\
                serde = \"1.0.0\"\n\n[target.'cfg(unix)'.build-dependencies]\na = \"1.0.0\"\n\n\
                [workspace.dependencies]\na = { version = \"1.0.0\" } # shared\n";
    let members = names(&["a", "b"]);
    let slots = cargo_toml::find_dep_slots(doc(text).entries(), &members);
    assert_eq!(
        slots,
        vec![
            names(&["dependencies", "a"]),
            names(&["dependencies", "c", "version"]),
            names(&["target", "cfg(unix)", "build-dependencies", "a"]),
            names(&["workspace", "dependencies", "a", "version"]),
        ]
    );
    let after =
        cargo_toml::rewrite_intra_workspace_dep_versions(&doc(text), &members, "2.0.0").unwrap();
    assert_eq!(after.matches("2.0.0").count(), 4);
    assert!(after.contains("serde = \"1.0.0\""), "{after}");
    assert!(after.contains("version = \"1.0.0\"\n\n[dependencies]"), "{after}");
    assert!(after.contains("b = { path = \"../b\" }"), "{after}");
    assert!(after.contains("# shared"), "{after}");
    // Nothing to change, nothing to write.
    assert_eq!(
        cargo_toml::rewrite_intra_workspace_dep_versions(&doc(text), &names(&["z"]), "2.0.0"),
        None
    );
}

#[test]
fn the_version_of_a_manifest_reads_back() {
    let members = names(&["a"]);
    let package = "[package]\nname = \"a\"\nversion = \"1.0.0\" # here\n";
    let after = cargo_toml::rewrite_package(&doc(package), "2.0.0").unwrap();
    assert_eq!(cargo_toml::package_version(&entries(&after)).unwrap(), "2.0.0");
    assert_eq!(cargo_toml::rewrite_package(&doc("[workspace]\n"), "2.0.0"), None);

    let locked = cargo_toml::rewrite_in_lockstep(&doc(package), &members, "3.0.0").unwrap();
    assert_eq!(cargo_toml::package_version(&entries(&locked)).unwrap(), "3.0.0");
    assert_eq!(
        cargo_toml::rewrite_in_lockstep(&doc("[package]\nname = 'a'\n"), &members, "3.0.0"),
        None
    );

    let shared = "[workspace]\n[workspace.package]\nversion = \"1.0.0\"\n";
    let after = cargo_toml::rewrite_shared(&doc(shared), &members, "2.0.0");
    assert_eq!(after, "[workspace]\n[workspace.package]\nversion = \"2.0.0\"\n");
    assert_eq!(cargo_toml::shared_version(&entries(&after)).unwrap(), "2.0.0");
}

#[test]
fn python_and_julia_versions_read_back() {
    let project = doc("[project]\nversion = \"1.0.0\"\n");
    let after = uv::replace_version(&project, "2.0.0").unwrap();
    assert_eq!(uv::find_version(&entries(&after)).unwrap(), "2.0.0");
    assert_eq!(
        uv::replace_version(&doc("x = 1\n"), "2.0.0"),
        Err(ErrorOf::Absent("no [project] table in pyproject.toml".to_owned()))
    );
    assert_eq!(uv::replace_member_version(&doc("[project]\nname = 'a'\n"), "2.0.0"), None);

    let package = doc("name = \"D\"\nversion = \"1.0.0\"\n");
    let after = julia::replace_version(&package, "2.0.0").unwrap();
    assert_eq!(after, "name = \"D\"\nversion = \"2.0.0\"\n");
    assert_eq!(
        julia::find_version(&entries("name = 'D'\n")),
        Err(ErrorOf::Absent("no top-level `version` in Project.toml".to_owned()))
    );
}

#[test]
fn configurations_are_checked() {
    assert!(parse_publish_flag("", "c").unwrap());
    assert!(!parse_publish_flag("publish = false", "c").unwrap());
    assert_eq!(
        parse_publish_flag("publish = true\nextra = 1\n", "c"),
        Err(ErrorOf::UnknownKey("extra".to_owned(), "c".to_owned()))
    );
    assert_eq!(
        parse_publish_flag("publish = 1", "c"),
        Err(ErrorOf::PublishNotBool("c".to_owned()))
    );
    assert!(matches!(parse_publish_flag("publish", "c"), Err(ErrorOf::Parse(p, _)) if p == "c"));
}

// ---------------------------------------------------------------------------
// Project files and workspaces
// ---------------------------------------------------------------------------

#[test]
fn only_the_version_element_changes() {
    let text = "<P><Version> 1.0 </Version><V>1.0</V><Version>1.0</Version></P>";
    let after = replace_version(text, "1.0", "2.0").unwrap();
    assert_eq!(after, "<P><Version>2.0</Version><V>1.0</V><Version>1.0</Version></P>");
    assert_eq!(extract_version(&after).unwrap(), "2.0");
    assert_eq!(replace_version(text, "1.1", "2.0"), None);
    assert_eq!(extract_version("<Version>1.0"), None);
    assert!(!has_version_element("</Version><Version>"));
}

#[test]
fn solutions_list_projects_only() {
    let text = "Project(\"{G}\") = \"A\", \"A\\A.csproj\", \"{1}\"\n\
                Project(\"{G}\") = \"Docs\", \"Docs\", \"{2}\"\n\
                  Project(\"{G}\") = \"B\", \"B.FSPROJ\", \"{3}\"\n\
                Global\n";
    assert_eq!(parse_sln_project_paths(text), vec!["A/A.csproj", "B.FSPROJ"]);
}

#[test]
fn workspace_lists_tolerate_comments() {
    let yaml = "# all\nname: x\npackages: # here\n\n  # apps\n  - 'a/*' # one\n  -\n  - b\nx:\n  - c\n";
    assert_eq!(parse_pnpm_workspace_patterns(yaml), vec!["a/*", "b"]);
}

#[test]
fn publish_order_puts_dependencies_first() {
    let package = |name: &str, deps: &[&str]| Package {
        place: format!("p/{name}"),
        name: Some(name.to_owned()),
        intra_deps: names(deps),
    };
    let pkgs =
        vec![package("c", &["a", "b"]), package("b", &[]), package("a", &["b"]), package("d", &[])];
    let order = topo_sort_dirs(&pkgs).unwrap();
    assert_eq!(order, vec!["p/b", "p/d", "p/a", "p/c"]);

    let stuck = vec![package("a", &["b"]), package("b", &["a"]), package("c", &[])];
    assert_eq!(
        topo_sort_dirs(&stuck),
        Err(ErrorOf::Cycle("packages".to_owned(), names(&["a", "b"])))
    );
}

#[test]
fn graphs_are_arranged() {
    assert_eq!(arrange(&vec![vec![1], vec![2], vec![]]), Ok(vec![2, 1, 0]));
    assert_eq!(arrange(&vec![vec![], vec![], vec![]]), Ok(vec![0, 1, 2]));
    assert_eq!(arrange(&vec![vec![], vec![2], vec![1], vec![1]]), Err(vec![1, 2, 3]));
    assert_eq!(arrange(&Vec::new()), Ok(vec![]));
}

// ---------------------------------------------------------------------------
// Errors
// ---------------------------------------------------------------------------

#[test]
fn errors_tell_what_happened() {
    let s = |t: &str| t.to_owned();
    let cases: Vec<(Error, &str, Vec<&str>)> = vec![
        (ErrorOf::MissingPart(Part::Major), "missing MAJOR", vec![]),
        (
            ErrorOf::TooManyParts(s("1.2.3.4")),
            "version '1.2.3.4' has too many components (expected MAJOR.MINOR.PATCH)",
            vec![],
        ),
        (
            ErrorOf::NotANumber(Part::Minor, s("x")),
            "MINOR 'x' is not a number",
            vec!["invalid digit found in string"],
        ),
        (
            ErrorOf::NotANumber(Part::Major, s("")),
            "MAJOR '' is not a number",
            vec!["cannot parse integer from empty string"],
        ),
        (
            ErrorOf::NotANumber(Part::Patch, s("+18446744073709551616")),
            "PATCH '+18446744073709551616' is not a number",
            vec!["number too large to fit in target type"],
        ),
        (
            ErrorOf::NotANumber(Part::Patch, s("18446744073709551615a")),
            "PATCH '18446744073709551615a' is not a number",
            vec!["invalid digit found in string"],
        ),
        (ErrorOf::Read(s("f"), s("denied")), "read f", vec!["denied"]),
        (ErrorOf::Write(s("f"), s("full")), "write f", vec!["full"]),
        (ErrorOf::Plain(s("denied")), "denied", vec![]),
        (ErrorOf::Parse(s("f"), s("line 1")), "parse f", vec!["line 1"]),
        (ErrorOf::Failed(s("git"), names(&["push", "x"])), "git push x failed", vec![]),
        (ErrorOf::NotRun(s("uv"), names(&["lock"]), s("none")), "run uv lock", vec!["none"]),
        (
            ErrorOf::NotUtf8(s("decode branch name as utf-8"), s("byte 0")),
            "decode branch name as utf-8",
            vec!["byte 0"],
        ),
        (ErrorOf::OddPattern(s("/w/a*")), "non-utf8 workspace pattern: /w/a*", vec![]),
        (
            ErrorOf::During(
                s("write"),
                Box::new(ErrorOf::During(s("update"), Box::new(ErrorOf::Parse(s("f"), s("eof"))))),
            ),
            "write",
            vec!["update", "parse f", "eof"],
        ),
        (ErrorOf::NotAbsolute(s("."), s("gone")), "make . absolute", vec!["gone"]),
        (
            ErrorOf::NoBackend(s(".")),
            "could not detect a supported package manager in .",
            vec![],
        ),
        (
            ErrorOf::UnknownKey(s("k"), s("f")),
            "unknown key `k` in f (supported keys: publish)",
            vec![],
        ),
        (
            ErrorOf::PublishNotBool(s("f")),
            "`publish` in f must be a boolean (true or false)",
            vec![],
        ),
        (ErrorOf::NotARepository, "not inside a git repository", vec![]),
        (
            ErrorOf::Uncommitted,
            "uncommitted changes exist. Please commit or stash them before releasing.",
            vec![],
        ),
        (ErrorOf::NotOnMain(s("dev")), "not on main branch (current: dev)", vec![]),
        (ErrorOf::Malformed(s("bun.lock: x")), "malformed bun.lock: x", vec![]),
        (
            ErrorOf::Cycle(s("members"), names(&["a", "b"])),
            "workspace dependency cycle prevents publish; affected members: a, b",
            vec![],
        ),
    ];
    for (error, message, causes) in cases {
        assert_eq!(error.message(), message);
        assert_eq!(error.causes(), causes);
    }
}

// ---------------------------------------------------------------------------
// package.json and pnpm-workspace.yaml
// ---------------------------------------------------------------------------

#[test]
fn only_the_own_version_of_a_package_changes() {
    let renewed = |t: &str, new: &str| pnpm::replace_version(&json::Doc::parse(t).unwrap(), new);
    for (before, after) in [
        (
            r#"{"engine":{"version":"1.0.0"},"version":"1.0.0"}"#,
            r#"{"engine":{"version":"1.0.0"},"version":"2.0.0"}"#,
        ),
        (
            r#"{"version": "1.0.0", "engine": {"version": "1.0.0"}}"#,
            r#"{"version": "2.0.0", "engine": {"version": "1.0.0"}}"#,
        ),
        (
            r#"{"engine":{"version": "1.0.0"},"version":"1.0.0"}"#,
            r#"{"engine":{"version": "1.0.0"},"version":"2.0.0"}"#,
        ),
        (
            r#"{"version":"1.0.0","version":"1.0.0"}"#,
            r#"{"version":"1.0.0","version":"2.0.0"}"#,
        ),
        (
            "{\"engine\":{\"version\":\"1.0.0\"},\"version\" : \"1.0.0\"}",
            "{\n  \"engine\": {\n    \"version\": \"1.0.0\"\n  },\n  \"version\": \"2.0.0\"\n}",
        ),
    ] {
        assert_eq!(renewed(before, "2.0.0").as_deref(), Some(after), "{before}");
    }
    assert_eq!(renewed(r#"{"engine":{"version":"1.0.0"}}"#, "2.0.0"), None);
    // A version that cannot stand between quotes as it is.
    assert_eq!(
        renewed(r#"{"version":"1.0.0"}"#, "a\"b").as_deref(),
        Some("{\n  \"version\": \"a\\\"b\"\n}")
    );
}

#[test]
fn packages_are_listed_at_the_top_level_only() {
    let none: Vec<String> = Vec::new();
    assert_eq!(parse_pnpm_workspace_patterns("foo:\n  packages:\n    - x\n"), none);
    assert_eq!(
        parse_pnpm_workspace_patterns("foo:\n  packages:\n    - x\npackages:\n- y\n  z:\n  - w\nb:\n- v\n"),
        ["y", "w"]
    );
}

#[test]
fn a_version_between_tags_can_hold_other_tags() {
    let before = "<Version>1.0.0</Version>";
    let after = replace_version(before, "1.0.0", "<x></Versio").unwrap();
    assert_eq!(after, "<Version><x></Versio</Version>");
    assert_eq!(extract_version(&after).unwrap(), "<x></Versio");
}

#[test]
fn dependencies_that_are_up_to_date_do_not_change() {
    let members = names(&["a"]);
    let doc = toml::Doc::parse("[dependencies]\na = \"1.1.0\"\nb = \"1.0.0\"\n").unwrap();
    assert!(!cargo_toml::do_deps_change(doc.entries(), &members, "1.1.0"));
    assert_eq!(cargo_toml::rewrite_intra_workspace_dep_versions(&doc, &members, "1.1.0"), None);
    assert_eq!(
        cargo_toml::rewrite_intra_workspace_dep_versions(&doc, &members, "1.2.0").unwrap(),
        "[dependencies]\na = \"1.2.0\"\nb = \"1.0.0\"\n"
    );
}
