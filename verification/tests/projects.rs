//! Releases of projects that exist in memory only.

use std::collections::{BTreeMap, BTreeSet};

use smartcrab_release::backend::Backend;
use smartcrab_release::backends::bun::{sync_bun_lockfile_workspace_versions, Bun};
use smartcrab_release::backends::cargo::Cargo;
use smartcrab_release::backends::dotnet::Dotnet;
use smartcrab_release::backends::go::Go;
use smartcrab_release::backends::julia::Julia;
use smartcrab_release::backends::pnpm::{
    read_package_json_version, write_package_json_version_if_present, Pnpm,
};
use smartcrab_release::backends::uv::Uv;
use smartcrab_release::backends::make;
use smartcrab_release::backends::workspace::{child_manifests, child_package_jsons};
use smartcrab_release::cli::{BackendName, BumpArg, Cli};
use smartcrab_release::config::{is_publish_enabled, FILE_NAME};
use smartcrab_release::detect::detect;
use smartcrab_release::error::{Error, ErrorOf};
use smartcrab_release::git::{current_branch, is_clean, is_inside_repo, latest_v_tag};
use smartcrab_release::session::{Answer, Ask, AskOf, Found, Kind, Listed, Session, Step};
use smartcrab_release::{run, run_publish, run_with};

/// Where the project is, unless a test moves it.
const ROOT: &str = "/work";

/// The version that previews are asked for.
const PREVIEWED: &str = "9.9.9";

/// A machine without disk, programs or network.
struct Host {
    root: String,
    files: BTreeMap<String, String>,
    dirs: BTreeSet<String>,
    /// The project is in a git repository.
    repo: bool,
    /// The repository has no changes.
    clean: bool,
    branch: Option<String>,
    tag: Option<String>,
    /// The registry knows the user.
    logged_in: bool,
    /// Command lines that fail.
    failing: Vec<String>,
    /// Why no program can be run.
    broken: Option<String>,
    /// What was written or run.
    log: Vec<String>,
    said: Vec<String>,
    warned: Vec<String>,
}

impl Host {
    fn new() -> Host {
        let mut host = Host {
            root: ROOT.to_owned(),
            files: BTreeMap::new(),
            dirs: BTreeSet::new(),
            repo: true,
            clean: true,
            branch: Some("main".to_owned()),
            tag: None,
            logged_in: true,
            failing: Vec::new(),
            broken: None,
            log: Vec::new(),
            said: Vec::new(),
            warned: Vec::new(),
        };
        host.dir("");
        host
    }

    fn absolute(&self, path: &str) -> String {
        if path.starts_with('/') {
            path.to_owned()
        } else if path.is_empty() {
            self.root.clone()
        } else {
            format!("{}/{}", self.root, path)
        }
    }

    fn dir(&mut self, path: impl AsRef<str>) {
        let mut at = self.absolute(path.as_ref());
        while !at.is_empty() {
            self.dirs.insert(at.clone());
            let cut = at.rfind('/').unwrap_or(0);
            at.truncate(cut);
        }
    }

    fn put(&mut self, path: &str, text: &str) {
        let at = self.absolute(path);
        if let Some(cut) = at.rfind('/') {
            let parent = at[..cut].to_owned();
            self.dir(parent);
        }
        self.files.insert(at, text.to_owned());
    }

    fn text(&self, path: &str) -> String {
        self.files[&self.absolute(path)].clone()
    }

    fn listing(&self, path: &str) -> Answer {
        let dir = self.absolute(path);
        if !self.dirs.contains(&dir) {
            return Answer::Failed("no such directory".to_owned());
        }
        let prefix = format!("{dir}/");
        let mut entries = Vec::new();
        for at in self.dirs.iter().chain(self.files.keys()) {
            if let Some(name) = at.strip_prefix(&prefix) {
                if !name.contains('/') {
                    let kind = if self.dirs.contains(at) { Kind::Dir } else { Kind::Other };
                    entries.push(Listed::Entry(name.to_owned(), true, kind));
                }
            }
        }
        Answer::Listing(entries)
    }

    fn matches(&self, pattern: &str) -> Answer {
        let parsed = match glob::Pattern::new(pattern) {
            Ok(parsed) => parsed,
            Err(e) => return Answer::BadPattern(e.to_string()),
        };
        let options = glob::MatchOptions {
            case_sensitive: true,
            require_literal_separator: true,
            require_literal_leading_dot: false,
        };
        let prefix = format!("{}/", self.root);
        let mut found: Vec<String> = Vec::new();
        for at in self.dirs.iter().chain(self.files.keys()) {
            if let Some(path) = at.strip_prefix(&prefix) {
                if parsed.matches_with(path, options) {
                    found.push(path.to_owned());
                }
            }
        }
        found.sort();
        Answer::Matches(found.into_iter().map(Found::Path).collect())
    }

    fn ancestors(&self) -> Answer {
        let mut paths = Vec::new();
        let mut at = self.root.clone();
        while !at.is_empty() {
            paths.push(at.clone());
            let cut = at.rfind('/').unwrap_or(0);
            at.truncate(cut);
        }
        paths.push("/".to_owned());
        Answer::Paths(paths)
    }

    fn ran(&mut self, line: String) -> Answer {
        if let Some(why) = &self.broken {
            return Answer::Failed(why.clone());
        }
        let fails = self.failing.contains(&line);
        self.log.push(line);
        if fails { Answer::No } else { Answer::Yes }
    }

    fn yes(&self, so: bool) -> Answer {
        if so { Answer::Yes } else { Answer::No }
    }

    fn answer(&mut self, ask: Ask) -> Answer {
        match ask {
            AskOf::IsFile(path) => self.yes(self.files.contains_key(&self.absolute(&path))),
            AskOf::IsDir(path) => self.yes(self.dirs.contains(&self.absolute(&path))),
            AskOf::Exists(path) => {
                let at = self.absolute(&path);
                self.yes(self.files.contains_key(&at) || self.dirs.contains(&at))
            }
            AskOf::Read(path) => {
                let at = self.absolute(&path);
                match self.files.get(&at) {
                    Some(text) => Answer::Text(text.clone()),
                    None if self.dirs.contains(&at) => {
                        Answer::Failed("Is a directory".to_owned())
                    }
                    None => Answer::Missing("No such file or directory".to_owned()),
                }
            }
            AskOf::List(path) => self.listing(&path),
            AskOf::Glob(pattern) => self.matches(&pattern),
            AskOf::Ancestors => self.ancestors(),
            AskOf::GitCheck(_) => self.yes(self.clean),
            AskOf::GitOutput(args) => match args[0].as_str() {
                "rev-parse" => Answer::Output(self.repo, Ok("true\n".to_owned())),
                "symbolic-ref" => Answer::Output(
                    self.branch.is_some(),
                    Ok(self.branch.as_ref().map(|b| format!("{b}\n")).unwrap_or_default()),
                ),
                "describe" => Answer::Output(
                    self.tag.is_some(),
                    Ok(self.tag.as_ref().map(|t| format!("{t}\n")).unwrap_or_default()),
                ),
                other => panic!("unexpected git {other}"),
            },
            AskOf::Write(path, text) => {
                self.put(&path, &text);
                self.log.push(format!("write {path}"));
                Answer::Yes
            }
            AskOf::Git(args) => self.ran(format!("git {}", args.join(" "))),
            AskOf::Run(dir, program, args) => {
                let line = format!("{} {}", program, args.join(" "));
                if dir.is_empty() {
                    self.ran(line)
                } else {
                    self.ran(format!("({dir}) {line}"))
                }
            }
            AskOf::Probe(program, args) => {
                self.log.push(format!("probe {} {}", program, args.join(" ")));
                self.yes(self.logged_in)
            }
            AskOf::Say(line) => {
                self.said.push(line);
                Answer::Yes
            }
            AskOf::Warn(line) => {
                self.warned.push(line);
                Answer::Yes
            }
        }
    }

    /// Take a step to its end, answering what it asks.
    fn drive<T>(&mut self, step: impl for<'a> Fn(&mut Session<'a>) -> Step<T>) -> T {
        let root = self.root.clone();
        let mut answers: Vec<Answer> = Vec::new();
        loop {
            let outcome = {
                let mut session = Session::new(&root, '/', &answers);
                step(&mut session)
            };
            match outcome {
                Ok(value) => return value,
                Err(ask) => answers.push(self.answer(ask)),
            }
        }
    }

    fn read_version(&mut self, b: &impl Backend) -> Result<String, Error> {
        self.drive(|s| b.read_version(s))
    }

    fn write_version(&mut self, b: &impl Backend, new: &str) -> Result<(), Error> {
        self.drive(|s| b.write_version(s, new))
    }

    fn update_lockfile(&mut self, b: &impl Backend) -> Result<(), Error> {
        self.drive(|s| b.update_lockfile(s))
    }

    /// The one command that updating the lockfile runs, if any.
    fn lock_log(&mut self, b: &impl Backend) -> Option<String> {
        self.log.clear();
        self.update_lockfile(b).unwrap();
        assert!(self.log.len() <= 1, "{:?}", self.log);
        self.log.pop()
    }

    fn files_to_stage(&mut self, b: &impl Backend) -> Vec<String> {
        self.drive(|s| b.files_to_stage(s))
    }

    fn publish(&mut self, b: &impl Backend) -> Result<(), Error> {
        self.drive(|s| b.publish(s))
    }

    fn publish_command_preview(&mut self, b: &impl Backend) -> Result<Option<String>, Error> {
        self.drive(|s| b.publish_command_preview(s))
    }

    fn additional_write_previews(&mut self, b: &impl Backend) -> Result<Vec<String>, Error> {
        self.drive(|s| b.additional_write_previews(s, PREVIEWED))
    }

    fn is_publishable(&mut self, b: &impl Backend) -> Result<bool, Error> {
        self.drive(|s| b.is_publishable(s))
    }

    fn package_version(&mut self, path: &str) -> String {
        self.drive(|s| read_package_json_version(s, path)).unwrap()
    }

    fn set_package_version(&mut self, path: &str, new: &str) -> bool {
        self.drive(|s| write_package_json_version_if_present(s, path, new)).unwrap()
    }

    fn children(&mut self, patterns: &[&str], manifest: &str) -> Vec<String> {
        let patterns: Vec<String> = patterns.iter().map(|p| (*p).to_owned()).collect();
        self.drive(|s| child_manifests(s, &patterns, manifest)).unwrap()
    }

    fn child_package_jsons(&mut self, patterns: &[&str]) -> Vec<String> {
        let patterns: Vec<String> = patterns.iter().map(|p| (*p).to_owned()).collect();
        self.drive(|s| child_package_jsons(s, &patterns)).unwrap()
    }

    fn detect(&mut self) -> Result<BackendName, Error> {
        self.drive(|s| detect(s))
    }

    fn is_publish_enabled(&mut self) -> Result<bool, Error> {
        self.drive(|s| is_publish_enabled(s))
    }

    fn run(&mut self, cli: &Cli) -> Result<(), Error> {
        self.drive(|s| run_with(cli, s))
    }
}

fn patch(backend: BackendName) -> Cli {
    Cli {
        bump: BumpArg::Patch,
        no_publish: false,
        only_publish: false,
        dry_run: false,
        backend: Some(backend),
    }
}

// ---------------------------------------------------------------------------
// Detection
// ---------------------------------------------------------------------------

#[test]
fn detects_cargo() {
    let mut host = Host::new();
    host.put("Cargo.toml", "[package]\nname=\"x\"\nversion=\"0.1.0\"\n");
    assert_eq!(host.detect().unwrap(), BackendName::Cargo);
}

#[test]
fn detects_uv() {
    let mut host = Host::new();
    host.put("pyproject.toml", "[project]\nname=\"x\"\nversion=\"0.1.0\"\n");
    host.put("uv.lock", "");
    assert_eq!(host.detect().unwrap(), BackendName::Uv);
}

#[test]
fn detects_pnpm() {
    let mut host = Host::new();
    host.put("package.json", "{\"version\":\"1.0.0\"}");
    host.put("pnpm-lock.yaml", "");
    assert_eq!(host.detect().unwrap(), BackendName::Pnpm);
}

#[test]
fn detects_bun_lock() {
    let mut host = Host::new();
    host.put("package.json", "{\"version\":\"1.0.0\"}");
    host.put("bun.lock", "");
    assert_eq!(host.detect().unwrap(), BackendName::Bun);
}

#[test]
fn detects_bun_lockb() {
    let mut host = Host::new();
    host.put("package.json", "{\"version\":\"1.0.0\"}");
    host.put("bun.lockb", "");
    assert_eq!(host.detect().unwrap(), BackendName::Bun);
}

#[test]
fn package_json_alone_falls_back_to_pnpm() {
    let mut host = Host::new();
    host.put("package.json", "{\"version\":\"1.0.0\"}");
    assert_eq!(host.detect().unwrap(), BackendName::Pnpm);
}

#[test]
fn detects_julia() {
    let mut host = Host::new();
    host.put("Project.toml", "name = \"Demo\"\nuuid = \"12345678-1234-5678-1234-567812345678\"\nversion = \"0.1.0\"\n");
    assert_eq!(host.detect().unwrap(), BackendName::Julia);
}

#[test]
fn detects_dotnet_csproj() {
    let mut host = Host::new();
    host.put("demo.csproj", "<Project></Project>");
    assert_eq!(host.detect().unwrap(), BackendName::Dotnet);
}

#[test]
fn detects_dotnet_fsproj() {
    let mut host = Host::new();
    host.put("demo.fsproj", "<Project></Project>");
    assert_eq!(host.detect().unwrap(), BackendName::Dotnet);
}

#[test]
fn detects_dotnet_directory_build_props() {
    let mut host = Host::new();
    host.put("Directory.Build.props", "<Project></Project>");
    assert_eq!(host.detect().unwrap(), BackendName::Dotnet);
}

#[test]
fn detects_dotnet_sln() {
    let mut host = Host::new();
    host.put("Solution.sln", "");
    assert_eq!(host.detect().unwrap(), BackendName::Dotnet);
}

#[test]
fn detects_go() {
    let mut host = Host::new();
    host.put("go.mod", "module example.com/demo\n\ngo 1.22\n");
    assert_eq!(host.detect().unwrap(), BackendName::Go);
}

#[test]
fn cargo_wins_over_others() {
    let mut host = Host::new();
    host.put("Cargo.toml", "[package]\nname=\"x\"\nversion=\"0.1.0\"\n");
    host.put("go.mod", "module x\n");
    assert_eq!(host.detect().unwrap(), BackendName::Cargo);
}

#[test]
fn errors_on_empty_dir() {
    let mut host = Host::new();
    assert!(host.detect().is_err());
}

// ---------------------------------------------------------------------------
// Configuration
// ---------------------------------------------------------------------------

#[test]
fn publish_enabled_when_no_config_file() {
    let mut host = Host::new();
    assert!(host.is_publish_enabled().unwrap());
}

#[test]
fn publish_enabled_when_config_has_no_publish_key() {
    let mut host = Host::new();
    host.put(FILE_NAME, "");
    assert!(host.is_publish_enabled().unwrap());
}

#[test]
fn publish_false_disables() {
    let mut host = Host::new();
    host.put(FILE_NAME, "publish = false\n");
    assert!(!host.is_publish_enabled().unwrap());
}

#[test]
fn publish_true_stays_enabled() {
    let mut host = Host::new();
    host.put(FILE_NAME, "publish = true\n");
    assert!(host.is_publish_enabled().unwrap());
}

#[test]
fn unknown_key_errors() {
    let mut host = Host::new();
    host.put(FILE_NAME, "Publish = false\n");
    match host.is_publish_enabled() {
        Err(e) => {
            assert!(e.message().contains("unknown key"), "{e:?}");
        }
        Ok(_) => panic!("expected an error for an unknown key"),
    }
}

#[test]
fn ancestor_search_finds_parent_release_toml() {
    let mut host = Host::new();
    host.put(FILE_NAME, "publish = false\n");
    host.dir("sub/nested");
    host.root = format!("{ROOT}/sub/nested");
    assert!(!host.is_publish_enabled().unwrap());
}

#[test]
fn git_boundary_stops_search_at_repository_root() {
    let mut host = Host::new();
    host.put(FILE_NAME, "publish = false\n");
    host.dir("repo/.git");
    host.dir("repo/sub");
    host.root = format!("{ROOT}/repo/sub");
    // The outer `.release.toml` must not be picked up: the search stops
    // at `repo` (which contains `.git`) before ever reaching `outer`.
    assert!(host.is_publish_enabled().unwrap());
}

#[test]
fn release_toml_as_directory_errors() {
    let mut host = Host::new();
    host.dir(FILE_NAME);
    assert!(host.is_publish_enabled().is_err());
}

#[test]
fn invalid_toml_errors() {
    let mut host = Host::new();
    host.put(FILE_NAME, "publish = [\n");
    match host.is_publish_enabled() {
        Err(e) => {
            assert!(e.message().contains("parse"), "{e:?}");
        }
        Ok(_) => panic!("expected an error for invalid TOML"),
    }
}

#[test]
fn non_bool_publish_value_errors() {
    let mut host = Host::new();
    host.put(FILE_NAME, "publish = \"no\"\n");
    match host.is_publish_enabled() {
        Err(e) => {
            assert!(e.message().contains("boolean"), "{e:?}");
        }
        Ok(_) => panic!("expected an error for non-boolean `publish`"),
    }
}

// ---------------------------------------------------------------------------
// Workspaces
// ---------------------------------------------------------------------------

#[test]
fn expands_single_level_star() {
    let mut host = Host::new();
    host.dir("packages/a");
    host.dir("packages/b");
    host.put("packages/a/package.json", "{}");
    host.put("packages/b/package.json", "{}");

    let got = host.child_package_jsons(&["packages/*"]);
    let mut got_strs: Vec<String> = got.clone();
    got_strs.sort();
    assert_eq!(
        got_strs,
        vec![
            "packages/a/package.json".to_owned(),
            "packages/b/package.json".to_owned()
        ]
    );
}

#[test]
fn skips_dirs_without_package_json() {
    let mut host = Host::new();
    host.dir("packages/a");
    host.dir("packages/empty");
    host.put("packages/a/package.json", "{}");

    let got = host.child_package_jsons(&["packages/*"]);
    assert_eq!(got.len(), 1);
    assert_eq!(got[0], "packages/a/package.json".to_owned());
}

#[test]
fn deduplicates_overlapping_patterns() {
    let mut host = Host::new();
    host.dir("packages/a");
    host.put("packages/a/package.json", "{}");

    let got = host.child_package_jsons(&["packages/*", "packages/a"]);
    assert_eq!(got.len(), 1);
}

#[test]
fn warns_and_skips_unsupported_patterns() {
    let mut host = Host::new();
    host.dir("packages/a");
    host.put("packages/a/package.json", "{}");

    let got = host.child_package_jsons(&["!**/test/**", "**/foo", "packages/*"]);
    assert_eq!(got.len(), 1);
    assert_eq!(got[0], "packages/a/package.json".to_owned());
}

#[test]
fn child_manifests_works_with_cargo_toml() {
    let mut host = Host::new();
    host.dir("crates/a");
    host.dir("crates/b");
    host.put("crates/a/Cargo.toml", "[package]\n");
    host.put("crates/b/Cargo.toml", "[package]\n");

    let got = host.children(&["crates/*"], "Cargo.toml");
    let mut got_strs: Vec<String> = got.clone();
    got_strs.sort();
    assert_eq!(
        got_strs,
        vec![
            "crates/a/Cargo.toml".to_owned(),
            "crates/b/Cargo.toml".to_owned()
        ]
    );
}

#[test]
fn child_manifests_works_with_pyproject_toml() {
    let mut host = Host::new();
    host.dir("packages/a");
    host.dir("packages/b");
    host.put("packages/a/pyproject.toml", "[project]\n");
    host.put("packages/b/pyproject.toml", "[project]\n");

    let got = host.children(&["packages/*"], "pyproject.toml");
    assert_eq!(got.len(), 2);
}

// ---------------------------------------------------------------------------
// cargo
// ---------------------------------------------------------------------------

#[test]
fn roundtrip_plain_package() {
    let mut host = Host::new();
    let manifest = "[package]\nname = \"demo\"\nversion = \"0.1.2\"\nedition = \"2021\"\n";
    host.put("Cargo.toml", manifest);
    let b = Cargo;
    assert_eq!(host.read_version(&b).unwrap(), "0.1.2");
    host.write_version(&b, "0.1.3").unwrap();
    let after = host.text("Cargo.toml");
    assert!(after.contains("version = \"0.1.3\""));
    assert!(after.contains("name = \"demo\""));
    assert_eq!(host.read_version(&b).unwrap(), "0.1.3");
}

#[test]
fn roundtrip_workspace_package() {
    let mut host = Host::new();
    let manifest =
        "[workspace]\nmembers = [\"a\"]\n\n[workspace.package]\nversion = \"2.0.0\"\n";
    host.put("Cargo.toml", manifest);
    let b = Cargo;
    assert_eq!(host.read_version(&b).unwrap(), "2.0.0");
    host.write_version(&b, "2.0.1").unwrap();
    let after = host.text("Cargo.toml");
    assert!(after.contains("version = \"2.0.1\""));
    assert!(after.contains("[workspace.package]"));
}

#[test]
fn workspace_package_does_not_touch_members() {
    let mut host = Host::new();
    host.put("Cargo.toml", "[workspace]\nmembers = [\"crates/*\"]\n\n[workspace.package]\nversion = \"1.0.0\"\n");
    host.dir("crates/a");
    let child = "[package]\nname = \"a\"\nversion.workspace = true\n";
    host.put("crates/a/Cargo.toml", child);

    let b = Cargo;
    host.write_version(&b, "1.0.1").unwrap();
    let after_child = host.text("crates/a/Cargo.toml");
    assert!(after_child.contains("version.workspace = true"));
}

#[test]
fn virtual_workspace_lockstep_updates_members() {
    let mut host = Host::new();
    host.put("Cargo.toml", "[workspace]\nmembers = [\"crates/*\"]\nresolver = \"2\"\n");
    host.dir("crates/a");
    host.dir("crates/b");
    host.put("crates/a/Cargo.toml", "[package]\nname = \"a\"\nversion = \"0.1.0\"\nedition = \"2021\"\n");
    host.put("crates/b/Cargo.toml", "[package]\nname = \"b\"\nversion = \"0.1.0\"\nedition = \"2021\"\n");

    let b = Cargo;
    assert_eq!(host.read_version(&b).unwrap(), "0.1.0");
    host.write_version(&b, "0.2.0").unwrap();

    let a_after = host.text("crates/a/Cargo.toml");
    let b_after = host.text("crates/b/Cargo.toml");
    assert!(a_after.contains("version = \"0.2.0\""));
    assert!(b_after.contains("version = \"0.2.0\""));

    let staged = host.files_to_stage(&b);
    assert!(staged.contains(&"Cargo.toml".to_owned()));
    assert!(staged.contains(&"crates/a/Cargo.toml".to_owned()));
    assert!(staged.contains(&"crates/b/Cargo.toml".to_owned()));
}

#[test]
fn root_package_plus_members_updates_both() {
    let mut host = Host::new();
    host.put("Cargo.toml", "[workspace]\nmembers = [\"crates/*\"]\n\n[package]\nname = \"root\"\nversion = \"0.1.0\"\nedition = \"2021\"\n");
    host.dir("crates/a");
    host.put("crates/a/Cargo.toml", "[package]\nname = \"a\"\nversion = \"0.1.0\"\n");

    let b = Cargo;
    host.write_version(&b, "0.1.1").unwrap();

    let root_after = host.text("Cargo.toml");
    let a_after = host.text("crates/a/Cargo.toml");
    assert!(root_after.contains("version = \"0.1.1\""));
    assert!(a_after.contains("version = \"0.1.1\""));
}

#[test]
fn publish_preview_orders_dependency_first() {
    // cli depends on sdk, so sdk must be published before cli even though
    // `members` lists cli first.
    let mut host = Host::new();
    host.put("Cargo.toml", "[workspace]\nmembers = [\"crates/cli\", \"crates/sdk\"]\nresolver = \"2\"\n");
    host.dir("crates/cli");
    host.dir("crates/sdk");
    host.put("crates/cli/Cargo.toml", "[package]\nname = \"cli\"\nversion = \"0.1.0\"\n\n[dependencies]\nsdk = { path = \"../sdk\" }\n");
    host.put("crates/sdk/Cargo.toml", "[package]\nname = \"sdk\"\nversion = \"0.1.0\"\n");

    let backend = Cargo;
    let preview = host.publish_command_preview(&backend).unwrap().unwrap_or_default();
    let sdk_pos = preview
        .find("cargo publish -p sdk")
        .unwrap_or_else(|| panic!("sdk not in preview {preview}"));
    let cli_pos = preview
        .find("cargo publish -p cli")
        .unwrap_or_else(|| panic!("cli not in preview {preview}"));
    assert!(sdk_pos < cli_pos, "expected sdk before cli in {preview}");
}

#[test]
fn publish_preview_orders_via_dev_dependencies() {
    let mut host = Host::new();
    host.put("Cargo.toml", "[workspace]\nmembers = [\"crates/cli\", \"crates/sdk\"]\nresolver = \"2\"\n");
    host.dir("crates/cli");
    host.dir("crates/sdk");
    host.put("crates/cli/Cargo.toml", "[package]\nname = \"cli\"\nversion = \"0.1.0\"\n\n[dev-dependencies]\nsdk = { path = \"../sdk\" }\n");
    host.put("crates/sdk/Cargo.toml", "[package]\nname = \"sdk\"\nversion = \"0.1.0\"\n");

    let backend = Cargo;
    let preview = host.publish_command_preview(&backend).unwrap().unwrap_or_default();
    let sdk_pos = preview
        .find("cargo publish -p sdk")
        .unwrap_or_else(|| panic!("sdk not in preview {preview}"));
    let cli_pos = preview
        .find("cargo publish -p cli")
        .unwrap_or_else(|| panic!("cli not in preview {preview}"));
    assert!(sdk_pos < cli_pos, "expected sdk before cli in {preview}");
}

#[test]
fn publish_preview_ignores_external_deps() {
    let mut host = Host::new();
    host.put("Cargo.toml", "[workspace]\nmembers = [\"crates/a\"]\nresolver = \"2\"\n");
    host.dir("crates/a");
    host.put("crates/a/Cargo.toml", "[package]\nname = \"a\"\nversion = \"0.1.0\"\n\n[dependencies]\nserde = \"1\"\n");

    let backend = Cargo;
    let preview = host.publish_command_preview(&backend).unwrap().unwrap_or_default();
    assert_eq!(preview, "cargo publish -p a", "{preview}");
}

#[test]
fn publish_preview_errors_on_cycle() {
    let mut host = Host::new();
    host.put("Cargo.toml", "[workspace]\nmembers = [\"crates/a\", \"crates/b\"]\nresolver = \"2\"\n");
    host.dir("crates/a");
    host.dir("crates/b");
    host.put("crates/a/Cargo.toml", "[package]\nname = \"a\"\nversion = \"0.1.0\"\n\n[dependencies]\nb = { path = \"../b\" }\n");
    host.put("crates/b/Cargo.toml", "[package]\nname = \"b\"\nversion = \"0.1.0\"\n\n[dependencies]\na = { path = \"../a\" }\n");

    let backend = Cargo;
    let err = match host.publish_command_preview(&backend) {
        Err(e) => e.message(),
        Ok(_) => panic!("expected cycle error"),
    };
    assert!(err.contains("cycle"), "{err}");
    let affected = err.rsplit("affected members: ").next().unwrap_or_default();
    assert!(affected.contains('a'), "{err}");
    assert!(affected.contains('b'), "{err}");
    match host.publish(&backend) {
        Err(e) => assert!(e.message().contains("cycle"), "{e:?}"),
        Ok(()) => panic!("expected publish to error on cycle"),
    }
}

#[test]
fn publish_preview_orders_via_renamed_dependency() {
    // cli renames the sdk crate via `package = "sdk"`; the edge must still
    // be detected so sdk is published before cli.
    let mut host = Host::new();
    host.put("Cargo.toml", "[workspace]\nmembers = [\"crates/cli\", \"crates/sdk\"]\nresolver = \"2\"\n");
    host.dir("crates/cli");
    host.dir("crates/sdk");
    host.put("crates/cli/Cargo.toml", "[package]\nname = \"cli\"\nversion = \"0.1.0\"\n\n[dependencies]\nsdk_alias = { package = \"sdk\", path = \"../sdk\" }\n");
    host.put("crates/sdk/Cargo.toml", "[package]\nname = \"sdk\"\nversion = \"0.1.0\"\n");

    let backend = Cargo;
    let preview = host.publish_command_preview(&backend).unwrap().unwrap_or_default();
    let sdk_pos = preview
        .find("cargo publish -p sdk")
        .unwrap_or_else(|| panic!("sdk not in preview {preview}"));
    let cli_pos = preview
        .find("cargo publish -p cli")
        .unwrap_or_else(|| panic!("cli not in preview {preview}"));
    assert!(sdk_pos < cli_pos, "expected sdk before cli in {preview}");
}

#[test]
fn publish_preview_chains_three_members() {
    // c -> b -> a. Expected order: a, b, c.
    let mut host = Host::new();
    host.put("Cargo.toml", "[workspace]\nmembers = [\"crates/c\", \"crates/b\", \"crates/a\"]\nresolver = \"2\"\n");
    for m in ["a", "b", "c"] {
        host.dir(format!("crates/{m}"));
    }
    host.put("crates/a/Cargo.toml", "[package]\nname = \"a\"\nversion = \"0.1.0\"\n");
    host.put("crates/b/Cargo.toml", "[package]\nname = \"b\"\nversion = \"0.1.0\"\n\n[dependencies]\na = { path = \"../a\" }\n");
    host.put("crates/c/Cargo.toml", "[package]\nname = \"c\"\nversion = \"0.1.0\"\n\n[dependencies]\nb = { path = \"../b\" }\n");

    let backend = Cargo;
    let preview = host.publish_command_preview(&backend).unwrap().unwrap_or_default();
    let a = preview
        .find("publish -p a")
        .unwrap_or_else(|| panic!("a not in {preview}"));
    let b = preview
        .find("publish -p b")
        .unwrap_or_else(|| panic!("b not in {preview}"));
    let c = preview
        .find("publish -p c")
        .unwrap_or_else(|| panic!("c not in {preview}"));
    assert!(a < b && b < c, "expected a < b < c in {preview}");
}

#[test]
fn workspace_package_layout_updates_intra_dep_versions() {
    // Given: [workspace.package].version layout with members A and B,
    // where B has a path+version dependency on A
    let mut host = Host::new();
    host.put("Cargo.toml", "[workspace]\nmembers = [\"crates/a\", \"crates/b\"]\n\n[workspace.package]\nversion = \"1.0.0\"\n");
    host.dir("crates/a");
    host.dir("crates/b");
    host.put("crates/a/Cargo.toml", "[package]\nname = \"a\"\nversion.workspace = true\n");
    host.put("crates/b/Cargo.toml", "[package]\nname = \"b\"\nversion.workspace = true\n\n[dependencies]\na = { path = \"../a\", version = \"1.0.0\" }\n");

    // When: bumping to 1.1.0
    let backend = Cargo;
    host.write_version(&backend, "1.1.0").unwrap();

    // Then: central version is updated AND B's intra-dep version requirement tracks
    let root_after = host.text("Cargo.toml");
    assert!(
        root_after.contains("version = \"1.1.0\""),
        "central version not updated: {root_after}"
    );
    let b_after = host.text("crates/b/Cargo.toml");
    assert!(
        b_after.contains("version = \"1.1.0\""),
        "intra-dep version not updated in B: {b_after}"
    );
}

#[test]
fn virtual_workspace_layout_updates_intra_dep_versions() {
    // Given: virtual workspace with members A and B,
    // where B has a path+version dependency on A
    let mut host = Host::new();
    host.put("Cargo.toml", "[workspace]\nmembers = [\"crates/a\", \"crates/b\"]\nresolver = \"2\"\n");
    host.dir("crates/a");
    host.dir("crates/b");
    host.put("crates/a/Cargo.toml", "[package]\nname = \"a\"\nversion = \"1.0.0\"\n");
    host.put("crates/b/Cargo.toml", "[package]\nname = \"b\"\nversion = \"1.0.0\"\n\n[dependencies]\na = { path = \"../a\", version = \"1.0.0\" }\n");

    // When: bumping to 1.1.0
    let backend = Cargo;
    host.write_version(&backend, "1.1.0").unwrap();

    // Then: both member package versions and B's intra-dep version are updated.
    let b_after = host.text("crates/b/Cargo.toml");
    assert!(
        b_after.contains("version = \"1.1.0\""),
        "package version not updated in B: {b_after}"
    );
    assert!(
        b_after.contains("a = { path = \"../a\", version = \"1.1.0\" }"),
        "intra-dep version not updated in B: {b_after}"
    );
}

#[test]
fn intra_dep_without_version_key_is_not_modified() {
    // Given: member B depends on A with path only -- no version key
    let mut host = Host::new();
    host.put("Cargo.toml", "[workspace]\nmembers = [\"crates/a\", \"crates/b\"]\nresolver = \"2\"\n");
    host.dir("crates/a");
    host.dir("crates/b");
    host.put("crates/a/Cargo.toml", "[package]\nname = \"a\"\nversion = \"1.0.0\"\n");
    host.put("crates/b/Cargo.toml", "[package]\nname = \"b\"\nversion = \"1.0.0\"\n\n[dependencies]\na = { path = \"../a\" }\n");

    // When: bumping to 1.1.0
    let backend = Cargo;
    host.write_version(&backend, "1.1.0").unwrap();

    // Then: B's path-only dependency must not gain a new version key
    let b_after = host.text("crates/b/Cargo.toml");
    assert!(
        b_after.contains("a = { path = \"../a\" }"),
        "path-only dep was unexpectedly modified: {b_after}"
    );
    assert!(
        !b_after.contains("a = { path = \"../a\", version"),
        "version key was wrongly added to path-only dep: {b_after}"
    );
}

#[test]
fn external_dependencies_are_not_modified_on_version_bump() {
    // Given: member B has an external dep (serde) alongside an intra-workspace dep
    let mut host = Host::new();
    host.put("Cargo.toml", "[workspace]\nmembers = [\"crates/a\", \"crates/b\"]\nresolver = \"2\"\n");
    host.dir("crates/a");
    host.dir("crates/b");
    host.put("crates/a/Cargo.toml", "[package]\nname = \"a\"\nversion = \"1.0.0\"\n");
    host.put("crates/b/Cargo.toml", "[package]\nname = \"b\"\nversion = \"1.0.0\"\n\n[dependencies]\nserde = \"1\"\na = { path = \"../a\", version = \"1.0.0\" }\n");

    // When: bumping to 1.1.0
    let backend = Cargo;
    host.write_version(&backend, "1.1.0").unwrap();

    // Then: external dep serde is untouched; both [package].version and the
    // intra-dep requirement are updated.
    let b_after = host.text("crates/b/Cargo.toml");
    assert!(
        b_after.contains("serde = \"1\""),
        "external dep serde was unexpectedly modified: {b_after}"
    );
    assert!(
        b_after.contains("version = \"1.1.0\""),
        "package version not updated in B: {b_after}"
    );
    assert!(
        b_after.contains("a = { path = \"../a\", version = \"1.1.0\" }"),
        "intra-dep version not updated in B: {b_after}"
    );
}

#[test]
fn renamed_intra_dep_is_updated_via_package_field() {
    // Given: member B depends on A using an alias key with package = "a"
    let mut host = Host::new();
    host.put("Cargo.toml", "[workspace]\nmembers = [\"crates/a\", \"crates/b\"]\nresolver = \"2\"\n");
    host.dir("crates/a");
    host.dir("crates/b");
    host.put("crates/a/Cargo.toml", "[package]\nname = \"a\"\nversion = \"1.0.0\"\n");
    host.put("crates/b/Cargo.toml", "[package]\nname = \"b\"\nversion = \"1.0.0\"\n\n[dependencies]\na_alias = { package = \"a\", path = \"../a\", version = \"1.0.0\" }\n");

    // When: bumping to 1.1.0
    let backend = Cargo;
    host.write_version(&backend, "1.1.0").unwrap();

    // Then: the real crate name "a" is a workspace member, so the aliased
    // dependency's version requirement must also be updated.
    let b_after = host.text("crates/b/Cargo.toml");
    assert!(
        b_after.contains("version = \"1.1.0\""),
        "package version not updated in B: {b_after}"
    );
    assert!(
        b_after.contains("a_alias = { package = \"a\", path = \"../a\", version = \"1.1.0\" }"),
        "aliased intra-dep version not updated in B: {b_after}"
    );
}

#[test]
fn shorthand_intra_dep_version_is_updated() {
    // Given: member B depends on A using plain-string shorthand `a = "1.0.0"`
    let mut host = Host::new();
    host.put("Cargo.toml", "[workspace]\nmembers = [\"crates/a\", \"crates/b\"]\nresolver = \"2\"\n");
    host.dir("crates/a");
    host.dir("crates/b");
    host.put("crates/a/Cargo.toml", "[package]\nname = \"a\"\nversion = \"1.0.0\"\n");
    host.put("crates/b/Cargo.toml", "[package]\nname = \"b\"\nversion = \"1.0.0\"\n\n[dependencies]\na = \"1.0.0\"\n");

    // When: bumping to 1.1.0
    let backend = Cargo;
    host.write_version(&backend, "1.1.0").unwrap();

    // Then: the shorthand version string must also be updated
    let b_after = host.text("crates/b/Cargo.toml");
    assert!(
        b_after.contains("a = \"1.1.0\""),
        "shorthand intra-dep version not updated: {b_after}"
    );
}

#[test]
fn root_crate_dep_version_is_updated_in_member() {
    // Given: workspace root is also a crate, and a member depends on it
    let mut host = Host::new();
    host.put("Cargo.toml", "[workspace]\nmembers = [\"crates/a\"]\n\n[package]\nname = \"root-crate\"\nversion = \"1.0.0\"\n");
    host.dir("crates/a");
    host.put("crates/a/Cargo.toml", "[package]\nname = \"a\"\nversion = \"1.0.0\"\n\n[dependencies]\nroot-crate = { path = \"../..\", version = \"1.0.0\" }\n");

    // When: bumping to 1.1.0
    let backend = Cargo;
    host.write_version(&backend, "1.1.0").unwrap();

    // Then: the member's version requirement on the root crate must be updated
    let a_after = host.text("crates/a/Cargo.toml");
    assert!(
        a_after.contains("root-crate = { path = \"../..\", version = \"1.1.0\" }"),
        "member's dep version on root crate not updated: {a_after}"
    );
}

#[test]
fn workspace_dependencies_table_intra_dep_version_is_updated() {
    // Given: root uses [workspace.dependencies] to centralize path+version for A
    let mut host = Host::new();
    host.put("Cargo.toml", "[workspace]\nmembers = [\"crates/a\", \"crates/b\"]\n\n[workspace.package]\nversion = \"1.0.0\"\n\n[workspace.dependencies]\na = { path = \"crates/a\", version = \"1.0.0\" }\n");
    host.dir("crates/a");
    host.dir("crates/b");
    host.put("crates/a/Cargo.toml", "[package]\nname = \"a\"\nversion.workspace = true\n");
    host.put("crates/b/Cargo.toml", "[package]\nname = \"b\"\nversion.workspace = true\n\n[dependencies]\na.workspace = true\n");

    // When: bumping to 1.1.0
    let backend = Cargo;
    host.write_version(&backend, "1.1.0").unwrap();

    // Then: [workspace.package].version is updated AND [workspace.dependencies].a's
    // version requirement also tracks the new version.
    let root_after = host.text("Cargo.toml");
    assert!(
        root_after.contains("version = \"1.1.0\""),
        "workspace.package.version not updated: {root_after}"
    );
    assert!(
        root_after.contains("a = { path = \"crates/a\", version = \"1.1.0\" }"),
        "workspace.dependencies.a version not updated: {root_after}"
    );
}

// ---------------------------------------------------------------------------
// bun
// ---------------------------------------------------------------------------

#[test]
fn bun_roundtrip() {
    let mut host = Host::new();
    host.put("package.json", "{\n  \"name\": \"demo\",\n  \"version\": \"0.0.9\"\n}\n");
    let b = Bun;
    assert_eq!(host.read_version(&b).unwrap(), "0.0.9");
    host.write_version(&b, "0.0.10").unwrap();
    assert_eq!(host.read_version(&b).unwrap(), "0.0.10");
}

#[test]
fn workspace_write_updates_children_string_array() {
    let mut host = Host::new();

    host.put("package.json", "{\n  \"name\": \"root\",\n  \"version\": \"0.5.0\",\n  \"private\": true,\n  \"workspaces\": [\"packages/*\"]\n}\n");
    host.dir("packages/a");
    host.dir("packages/b");
    host.put("packages/a/package.json", "{ \"name\": \"@x/a\", \"version\": \"0.5.0\" }\n");
    host.put("packages/b/package.json", "{ \"name\": \"@x/b\", \"version\": \"0.5.0\" }\n");

    let backend = Bun;
    host.write_version(&backend, "0.6.0").unwrap();
    assert_eq!(host.read_version(&backend).unwrap(), "0.6.0");
    assert_eq!(
        host.package_version("packages/a/package.json"),
        "0.6.0"
    );
    assert_eq!(
        host.package_version("packages/b/package.json"),
        "0.6.0"
    );

    let staged = host.files_to_stage(&backend);
    assert!(staged.contains(&"packages/a/package.json".to_owned()));
    assert!(staged.contains(&"packages/b/package.json".to_owned()));
}

#[test]
fn workspace_write_updates_children_object_form() {
    let mut host = Host::new();

    host.put("package.json", "{\n  \"name\": \"root\",\n  \"version\": \"0.5.0\",\n  \"private\": true,\n  \"workspaces\": { \"packages\": [\"packages/*\"] }\n}\n");
    host.dir("packages/a");
    host.dir("packages/b");
    host.put("packages/a/package.json", "{ \"name\": \"@x/a\", \"version\": \"0.5.0\" }\n");
    host.put("packages/b/package.json", "{ \"name\": \"@x/b\", \"version\": \"0.5.0\" }\n");

    let backend = Bun;
    host.write_version(&backend, "0.7.0").unwrap();
    assert_eq!(
        host.package_version("packages/a/package.json"),
        "0.7.0"
    );
    assert_eq!(
        host.package_version("packages/b/package.json"),
        "0.7.0"
    );
}

#[test]
fn bun_workspace_root_without_version_reads_from_child() {
    let mut host = Host::new();

    host.put("package.json", "{\n  \"name\": \"root\",\n  \"private\": true,\n  \"workspaces\": [\"packages/*\"]\n}\n");
    host.dir("packages/a");
    host.put("packages/a/package.json", "{ \"name\": \"@x/a\", \"version\": \"0.4.0\" }\n");

    let backend = Bun;
    assert_eq!(host.read_version(&backend).unwrap(), "0.4.0");
    host.write_version(&backend, "0.4.1").unwrap();
    let root_after = host.text("package.json");
    assert!(!root_after.contains("\"version\""));
    assert_eq!(
        host.package_version("packages/a/package.json"),
        "0.4.1"
    );

    let staged = host.files_to_stage(&backend);
    assert!(!staged.contains(&"package.json".to_owned()));
    assert!(staged.contains(&"packages/a/package.json".to_owned()));
}

#[test]
fn bun_publish_preview_single_package() {
    let mut host = Host::new();
    host.put("package.json", "{ \"name\": \"solo\", \"version\": \"1.0.0\" }\n");
    let backend = Bun;
    assert_eq!(
        host.publish_command_preview(&backend).unwrap(),
        Some("bun publish".into())
    );
}

#[test]
fn publish_preview_workspace_skips_private_root() {
    let mut host = Host::new();
    host.put("package.json", "{ \"name\": \"root\", \"private\": true, \"workspaces\": [\"packages/*\"] }\n");
    host.dir("packages/a");
    host.dir("packages/b");
    host.put("packages/a/package.json", "{ \"name\": \"@x/a\", \"version\": \"0.1.0\" }\n");
    host.put("packages/b/package.json", "{ \"name\": \"@x/b\", \"version\": \"0.1.0\" }\n");

    let backend = Bun;
    let preview = host.publish_command_preview(&backend).unwrap().unwrap_or_default();
    assert!(
        preview.contains("(cd packages/a && bun publish)"),
        "{preview}"
    );
    assert!(
        preview.contains("(cd packages/b && bun publish)"),
        "{preview}"
    );
    assert!(!preview.contains("(cd . &&"), "{preview}");
}

#[test]
fn publish_preview_workspace_includes_publishable_root() {
    let mut host = Host::new();
    host.put("package.json", "{ \"name\": \"root\", \"version\": \"1.0.0\", \"workspaces\": [\"packages/*\"] }\n");
    host.dir("packages/a");
    host.put("packages/a/package.json", "{ \"name\": \"@x/a\", \"version\": \"1.0.0\" }\n");

    let backend = Bun;
    let preview = host.publish_command_preview(&backend).unwrap().unwrap_or_default();
    assert!(preview.contains("(cd . && bun publish)"), "{preview}");
    assert!(
        preview.contains("(cd packages/a && bun publish)"),
        "{preview}"
    );
}

#[test]
fn publish_preview_workspace_skips_private_child() {
    let mut host = Host::new();
    host.put("package.json", "{ \"name\": \"root\", \"private\": true, \"workspaces\": [\"packages/*\"] }\n");
    host.dir("packages/pub");
    host.dir("packages/priv");
    host.put("packages/pub/package.json", "{ \"name\": \"@x/pub\", \"version\": \"0.1.0\" }\n");
    host.put("packages/priv/package.json", "{ \"name\": \"@x/priv\", \"version\": \"0.1.0\", \"private\": true }\n");

    let backend = Bun;
    let preview = host.publish_command_preview(&backend).unwrap().unwrap_or_default();
    assert!(
        preview.contains("(cd packages/pub && bun publish)"),
        "{preview}"
    );
    assert!(!preview.contains("packages/priv"), "{preview}");
}

#[test]
fn private_single_package_is_not_publishable() {
    let mut host = Host::new();
    host.put("package.json", "{ \"name\": \"solo\", \"version\": \"1.0.0\", \"private\": true }\n");
    let backend = Bun;
    assert!(!host.is_publishable(&backend).unwrap());
    assert_eq!(host.publish_command_preview(&backend).unwrap(), None);
    host.publish(&backend).unwrap();
}

#[test]
fn workspace_with_all_private_packages_is_not_publishable() {
    let mut host = Host::new();
    host.put("package.json", "{ \"name\": \"root\", \"private\": true, \"workspaces\": [\"packages/*\"] }\n");
    host.dir("packages/a");
    host.put("packages/a/package.json", "{ \"name\": \"@x/a\", \"version\": \"0.1.0\", \"private\": true }\n");

    let backend = Bun;
    assert!(!host.is_publishable(&backend).unwrap());
    assert_eq!(host.publish_command_preview(&backend).unwrap(), None);
    host.publish(&backend).unwrap();
}

#[test]
fn publish_topo_orders_dependencies_first() {
    // packages/a depends on packages/b, so b must run before a.
    let mut host = Host::new();
    host.put("package.json", "{ \"name\": \"root\", \"private\": true, \"workspaces\": [\"packages/*\"] }\n");
    host.dir("packages/a");
    host.dir("packages/b");
    host.put("packages/a/package.json", "{ \"name\": \"@x/a\", \"version\": \"0.1.0\", \"dependencies\": { \"@x/b\": \"workspace:*\" } }\n");
    host.put("packages/b/package.json", "{ \"name\": \"@x/b\", \"version\": \"0.1.0\" }\n");

    let backend = Bun;
    let preview = host.publish_command_preview(&backend).unwrap().unwrap_or_default();
    let b_pos = preview
        .find("packages/b")
        .unwrap_or_else(|| panic!("b not in preview {preview}"));
    let a_pos = preview
        .find("packages/a")
        .unwrap_or_else(|| panic!("a not in preview {preview}"));
    assert!(b_pos < a_pos, "expected b before a in {preview}");
}

#[test]
fn publish_topo_orders_via_dev_dependencies() {
    let mut host = Host::new();
    host.put("package.json", "{ \"name\": \"root\", \"private\": true, \"workspaces\": [\"packages/*\"] }\n");
    host.dir("packages/a");
    host.dir("packages/b");
    host.put("packages/a/package.json", "{ \"name\": \"@x/a\", \"version\": \"0.1.0\", \"devDependencies\": { \"@x/b\": \"workspace:*\" } }\n");
    host.put("packages/b/package.json", "{ \"name\": \"@x/b\", \"version\": \"0.1.0\" }\n");

    let backend = Bun;
    let preview = host.publish_command_preview(&backend).unwrap().unwrap_or_default();
    let b_pos = preview
        .find("packages/b")
        .unwrap_or_else(|| panic!("b not in preview {preview}"));
    let a_pos = preview
        .find("packages/a")
        .unwrap_or_else(|| panic!("a not in preview {preview}"));
    assert!(b_pos < a_pos, "expected b before a in {preview}");
}

#[test]
fn publish_topo_ignores_external_deps() {
    let mut host = Host::new();
    host.put("package.json", "{ \"name\": \"root\", \"private\": true, \"workspaces\": [\"packages/*\"] }\n");
    host.dir("packages/a");
    host.put("packages/a/package.json", "{ \"name\": \"@x/a\", \"version\": \"0.1.0\", \"dependencies\": { \"react\": \"^18\" } }\n");

    let backend = Bun;
    let preview = host.publish_command_preview(&backend).unwrap().unwrap_or_default();
    assert!(
        preview.contains("(cd packages/a && bun publish)"),
        "{preview}"
    );
}

#[test]
fn publish_topo_skips_private_dep_target() {
    // A private workspace package isn't publishable, so a dep edge to it
    // shouldn't constrain ordering.
    let mut host = Host::new();
    host.put("package.json", "{ \"name\": \"root\", \"private\": true, \"workspaces\": [\"packages/*\"] }\n");
    host.dir("packages/a");
    host.dir("packages/priv");
    host.put("packages/a/package.json", "{ \"name\": \"@x/a\", \"version\": \"0.1.0\", \"dependencies\": { \"@x/priv\": \"workspace:*\" } }\n");
    host.put("packages/priv/package.json", "{ \"name\": \"@x/priv\", \"version\": \"0.1.0\", \"private\": true }\n");

    let backend = Bun;
    let preview = host.publish_command_preview(&backend).unwrap().unwrap_or_default();
    assert!(
        preview.contains("(cd packages/a && bun publish)"),
        "{preview}"
    );
    assert!(!preview.contains("packages/priv"), "{preview}");
}

#[test]
fn publish_topo_errors_on_cycle() {
    let mut host = Host::new();
    host.put("package.json", "{ \"name\": \"root\", \"private\": true, \"workspaces\": [\"packages/*\"] }\n");
    host.dir("packages/a");
    host.dir("packages/b");
    host.put("packages/a/package.json", "{ \"name\": \"@x/a\", \"version\": \"0.1.0\", \"dependencies\": { \"@x/b\": \"workspace:*\" } }\n");
    host.put("packages/b/package.json", "{ \"name\": \"@x/b\", \"version\": \"0.1.0\", \"dependencies\": { \"@x/a\": \"workspace:*\" } }\n");

    let backend = Bun;
    let err = match host.publish_command_preview(&backend) {
        Err(e) => e.message(),
        Ok(_) => panic!("expected cycle error"),
    };
    assert!(err.contains("cycle"), "{err}");
    assert!(err.contains("@x/a"), "{err}");
    assert!(err.contains("@x/b"), "{err}");
    match host.publish(&backend) {
        Err(e) => assert!(e.message().contains("cycle"), "{e:?}"),
        Ok(()) => panic!("expected publish to error on cycle"),
    }
}

#[test]
fn publish_topo_dedupes_dep_across_keys() {
    // The same workspace dep listed in both dependencies and
    // devDependencies must not double-count an edge.
    let mut host = Host::new();
    host.put("package.json", "{ \"name\": \"root\", \"private\": true, \"workspaces\": [\"packages/*\"] }\n");
    host.dir("packages/a");
    host.dir("packages/b");
    host.put("packages/a/package.json", "{ \"name\": \"@x/a\", \"version\": \"0.1.0\", \"dependencies\": { \"@x/b\": \"workspace:*\" }, \"devDependencies\": { \"@x/b\": \"workspace:*\" } }\n");
    host.put("packages/b/package.json", "{ \"name\": \"@x/b\", \"version\": \"0.1.0\" }\n");

    let backend = Bun;
    let preview = host.publish_command_preview(&backend).unwrap().unwrap_or_default();
    let b_pos = preview
        .find("packages/b")
        .unwrap_or_else(|| panic!("b not in {preview}"));
    let a_pos = preview
        .find("packages/a")
        .unwrap_or_else(|| panic!("a not in {preview}"));
    assert!(b_pos < a_pos, "expected b before a in {preview}");
}

#[test]
fn publish_topo_chains_three_packages() {
    // c → b → a (c depends on b, b depends on a). Expected order: a, b, c.
    let mut host = Host::new();
    host.put("package.json", "{ \"name\": \"root\", \"private\": true, \"workspaces\": [\"packages/*\"] }\n");
    host.dir("packages/a");
    host.dir("packages/b");
    host.dir("packages/c");
    host.put("packages/a/package.json", "{ \"name\": \"@x/a\", \"version\": \"0.1.0\" }\n");
    host.put("packages/b/package.json", "{ \"name\": \"@x/b\", \"version\": \"0.1.0\", \"dependencies\": { \"@x/a\": \"workspace:*\" } }\n");
    host.put("packages/c/package.json", "{ \"name\": \"@x/c\", \"version\": \"0.1.0\", \"dependencies\": { \"@x/b\": \"workspace:*\" } }\n");

    let backend = Bun;
    let preview = host.publish_command_preview(&backend).unwrap().unwrap_or_default();
    let a = preview
        .find("packages/a")
        .unwrap_or_else(|| panic!("a not in {preview}"));
    let b = preview
        .find("packages/b")
        .unwrap_or_else(|| panic!("b not in {preview}"));
    let c = preview
        .find("packages/c")
        .unwrap_or_else(|| panic!("c not in {preview}"));
    assert!(a < b && b < c, "expected a < b < c in {preview}");
}

#[test]
fn sync_bun_lockfile_workspace_versions_updates_members() {
    let mut host = Host::new();
    host.put("package.json", "{\n  \"name\": \"root\",\n  \"version\": \"0.2.0\",\n  \"private\": true,\n  \"workspaces\": [\"packages/*\"]\n}\n");
    host.dir("packages/cli");
    host.dir("packages/sdk");
    host.put("packages/cli/package.json", "{ \"name\": \"@x/cli\", \"version\": \"0.2.0\", \"dependencies\": { \"@x/sdk\": \"workspace:^\" } }\n");
    host.put("packages/sdk/package.json", "{ \"name\": \"@x/sdk\", \"version\": \"0.2.0\" }\n");
    // Lockfile carries the *previous* versions (0.1.0) — what we get from a
    // stale `bun install`.
    host.put("bun.lock", "{\n  \"workspaces\": {\n    \"\": { \"name\": \"root\", \"version\": \"0.1.0\" },\n    \"packages/cli\": { \"name\": \"@x/cli\", \"version\": \"0.1.0\", \"dependencies\": { \"@x/sdk\": \"workspace:^\" } },\n    \"packages/sdk\": { \"name\": \"@x/sdk\", \"version\": \"0.1.0\" }\n  }\n}\n");

    host.drive(|s| sync_bun_lockfile_workspace_versions(s)).unwrap();

    let after = host.text("bun.lock");
    // All three workspace entries should now reflect 0.2.0.
    assert_eq!(
        after.matches("\"version\": \"0.2.0\"").count(),
        3,
        "{after}"
    );
    assert!(!after.contains("\"version\": \"0.1.0\""), "{after}");
}

// ---------------------------------------------------------------------------
// pnpm
// ---------------------------------------------------------------------------

#[test]
fn roundtrip_formatted() {
    let mut host = Host::new();
    host.put("package.json", "{\n  \"name\": \"demo\",\n  \"version\": \"2.3.4\"\n}\n");
    assert_eq!(host.package_version("package.json"), "2.3.4");
    host.set_package_version("package.json", "3.0.0");
    let after = host.text("package.json");
    assert!(after.contains("\"version\": \"3.0.0\""));
    assert!(after.contains("\"name\": \"demo\""));
}

#[test]
fn roundtrip_compact() {
    let mut host = Host::new();
    host.put("package.json", "{\"name\":\"demo\",\"version\":\"1.0.0\"}");
    host.set_package_version("package.json", "1.0.1");
    let after = host.text("package.json");
    assert!(after.contains("\"version\":\"1.0.1\""));
}

#[test]
fn workspace_write_updates_root_and_children() {
    let mut host = Host::new();

    host.put("package.json", "{\n  \"name\": \"root\",\n  \"version\": \"1.0.0\",\n  \"private\": true\n}\n");
    host.put("pnpm-workspace.yaml", "packages:\n  - \"packages/*\"\n");
    host.dir("packages/a");
    host.dir("packages/b");
    host.put("packages/a/package.json", "{ \"name\": \"@x/a\", \"version\": \"1.0.0\" }\n");
    host.put("packages/b/package.json", "{ \"name\": \"@x/b\", \"version\": \"1.0.0\" }\n");

    let backend = Pnpm;
    host.write_version(&backend, "1.1.0").unwrap();

    assert_eq!(host.read_version(&backend).unwrap(), "1.1.0");
    assert_eq!(
        host.package_version("packages/a/package.json"),
        "1.1.0"
    );
    assert_eq!(
        host.package_version("packages/b/package.json"),
        "1.1.0"
    );

    let staged = host.files_to_stage(&backend);
    assert!(staged.contains(&"package.json".to_owned()));
    assert!(staged.contains(&"packages/a/package.json".to_owned()));
    assert!(staged.contains(&"packages/b/package.json".to_owned()));
}

#[test]
fn pnpm_workspace_root_without_version_reads_from_child() {
    let mut host = Host::new();

    host.put("package.json", "{\n  \"name\": \"root\",\n  \"private\": true\n}\n");
    host.put("pnpm-workspace.yaml", "packages:\n  - \"packages/*\"\n");
    host.dir("packages/a");
    host.dir("packages/b");
    host.put("packages/a/package.json", "{ \"name\": \"@x/a\", \"version\": \"1.2.3\" }\n");
    host.put("packages/b/package.json", "{ \"name\": \"@x/b\", \"version\": \"1.2.3\" }\n");

    let backend = Pnpm;
    assert_eq!(host.read_version(&backend).unwrap(), "1.2.3");

    host.write_version(&backend, "1.3.0").unwrap();
    let root_after = host.text("package.json");
    assert!(!root_after.contains("\"version\""));
    assert_eq!(
        host.package_version("packages/a/package.json"),
        "1.3.0"
    );
    assert_eq!(
        host.package_version("packages/b/package.json"),
        "1.3.0"
    );

    let staged = host.files_to_stage(&backend);
    assert!(!staged.contains(&"package.json".to_owned()));
    assert!(staged.contains(&"packages/a/package.json".to_owned()));
    assert!(staged.contains(&"packages/b/package.json".to_owned()));
}

#[test]
fn pnpm_publish_preview_single_package() {
    let mut host = Host::new();
    host.put("package.json", "{ \"name\": \"solo\", \"version\": \"1.0.0\" }\n");
    let backend = Pnpm;
    assert_eq!(
        host.publish_command_preview(&backend).unwrap(),
        Some("pnpm publish --no-git-checks".into())
    );
}

#[test]
fn publish_preview_workspace_uses_recursive_flag() {
    let mut host = Host::new();
    host.put("package.json", "{ \"name\": \"root\", \"private\": true }\n");
    host.put("pnpm-workspace.yaml", "packages:\n  - \"packages/*\"\n");
    host.dir("packages/a");
    host.put("packages/a/package.json", "{ \"name\": \"@x/a\", \"version\": \"0.1.0\" }\n");

    let backend = Pnpm;
    assert_eq!(
        host.publish_command_preview(&backend).unwrap(),
        Some("pnpm -r publish --no-git-checks".into())
    );
}

// ---------------------------------------------------------------------------
// dotnet
// ---------------------------------------------------------------------------

#[test]
fn roundtrip_csproj() {
    let mut host = Host::new();
    let proj = "<Project Sdk=\"Microsoft.NET.Sdk\">\n  <PropertyGroup>\n    <Version>1.2.3</Version>\n    <TargetFramework>net8.0</TargetFramework>\n  </PropertyGroup>\n</Project>\n";
    host.put("demo.csproj", proj);
    let b = Dotnet;
    assert_eq!(host.read_version(&b).unwrap(), "1.2.3");
    host.write_version(&b, "1.2.4").unwrap();
    let after = host.text("demo.csproj");
    assert!(after.contains("<Version>1.2.4</Version>"));
    assert!(after.contains("<TargetFramework>net8.0</TargetFramework>"));
}

#[test]
fn roundtrip_directory_build_props() {
    let mut host = Host::new();
    let props = "<Project>\n  <PropertyGroup>\n    <Version>0.1.0</Version>\n  </PropertyGroup>\n</Project>\n";
    host.put("Directory.Build.props", props);
    let b = Dotnet;
    assert_eq!(host.read_version(&b).unwrap(), "0.1.0");
    host.write_version(&b, "0.2.0").unwrap();
    let after = host.text("Directory.Build.props");
    assert!(after.contains("<Version>0.2.0</Version>"));
}

#[test]
fn directory_build_props_does_not_touch_children() {
    let mut host = Host::new();
    host.put("Directory.Build.props", "<Project><PropertyGroup><Version>2.0.0</Version></PropertyGroup></Project>");
    host.dir("Apps/X");
    host.put("Apps/X/X.csproj", "<Project Sdk=\"Microsoft.NET.Sdk\"><PropertyGroup><TargetFramework>net8.0</TargetFramework></PropertyGroup></Project>");

    let b = Dotnet;
    host.write_version(&b, "2.1.0").unwrap();
    let staged = host.files_to_stage(&b);
    assert_eq!(staged, vec!["Directory.Build.props".to_owned()]);
    let child = host.text("Apps/X/X.csproj");
    // Child untouched: still no <Version> element.
    assert!(!child.contains("<Version>"));
}

#[test]
fn sln_updates_all_referenced_projects() {
    let mut host = Host::new();
    host.dir("A");
    host.dir("B");
    host.put("A/A.csproj", "<Project Sdk=\"Microsoft.NET.Sdk\"><PropertyGroup><Version>1.0.0</Version><TargetFramework>net8.0</TargetFramework></PropertyGroup></Project>");
    host.put("B/B.csproj", "<Project Sdk=\"Microsoft.NET.Sdk\"><PropertyGroup><Version>1.0.0</Version><TargetFramework>net8.0</TargetFramework></PropertyGroup></Project>");
    let sln = "Microsoft Visual Studio Solution File, Format Version 12.00\n\
Project(\"{FAE04EC0-301F-11D3-BF4B-00C04F79EFBC}\") = \"A\", \"A/A.csproj\", \"{11111111-1111-1111-1111-111111111111}\"\nEndProject\n\
Project(\"{FAE04EC0-301F-11D3-BF4B-00C04F79EFBC}\") = \"B\", \"B/B.csproj\", \"{22222222-2222-2222-2222-222222222222}\"\nEndProject\n";
    host.put("Solution.sln", sln);

    let b = Dotnet;
    assert_eq!(host.read_version(&b).unwrap(), "1.0.0");
    host.write_version(&b, "1.1.0").unwrap();
    let a = host.text("A/A.csproj");
    let bs = host.text("B/B.csproj");
    assert!(a.contains("<Version>1.1.0</Version>"));
    assert!(bs.contains("<Version>1.1.0</Version>"));

    let staged = host.files_to_stage(&b);
    assert!(staged.contains(&"A/A.csproj".to_owned()));
    assert!(staged.contains(&"B/B.csproj".to_owned()));
}

#[test]
fn recursive_discovery_without_sln() {
    let mut host = Host::new();
    host.dir("libs/one");
    host.dir("libs/two");
    host.put("libs/one/One.csproj", "<Project><PropertyGroup><Version>0.1.0</Version></PropertyGroup></Project>");
    host.put("libs/two/Two.fsproj", "<Project><PropertyGroup><Version>0.1.0</Version></PropertyGroup></Project>");

    let b = Dotnet;
    host.write_version(&b, "0.2.0").unwrap();
    let one = host.text("libs/one/One.csproj");
    let two = host.text("libs/two/Two.fsproj");
    assert!(one.contains("<Version>0.2.0</Version>"));
    assert!(two.contains("<Version>0.2.0</Version>"));
}

#[test]
fn sln_skips_project_without_version_element() {
    let mut host = Host::new();
    host.dir("A");
    host.dir("B");
    // A has <Version>, B does not.
    host.put("A/A.csproj", "<Project Sdk=\"Microsoft.NET.Sdk\"><PropertyGroup><Version>1.0.0</Version></PropertyGroup></Project>");
    host.put("B/B.csproj", "<Project Sdk=\"Microsoft.NET.Sdk\"><PropertyGroup><TargetFramework>net8.0</TargetFramework></PropertyGroup></Project>");
    let sln = "Project(\"{G}\") = \"A\", \"A/A.csproj\", \"{G1}\"\nEndProject\n\
Project(\"{G}\") = \"B\", \"B/B.csproj\", \"{G2}\"\nEndProject\n";
    host.put("Solution.sln", sln);

    let b = Dotnet;
    host.write_version(&b, "1.1.0").unwrap();

    let staged = host.files_to_stage(&b);
    assert!(staged.contains(&"A/A.csproj".to_owned()));
    assert!(!staged.contains(&"B/B.csproj".to_owned()));
}

// ---------------------------------------------------------------------------
// go
// ---------------------------------------------------------------------------

#[test]
fn tag_only_write_is_noop() {
    let mut host = Host::new();
    host.put("go.mod", "module example.com/demo\n\ngo 1.22\n");
    let b = Go;
    host.write_version(&b, "0.0.1").unwrap();
    assert_eq!(host.files_to_stage(&b).len(), 0);
}

// ---------------------------------------------------------------------------
// julia
// ---------------------------------------------------------------------------

#[test]
fn julia_roundtrip() {
    let mut host = Host::new();
    let manifest = "name = \"Demo\"\nuuid = \"12345678-1234-5678-1234-567812345678\"\nversion = \"0.5.0\"\n";
    host.put("Project.toml", manifest);
    let b = Julia;
    assert_eq!(host.read_version(&b).unwrap(), "0.5.0");
    host.write_version(&b, "0.6.0").unwrap();
    let after = host.text("Project.toml");
    assert!(after.contains("version = \"0.6.0\""));
    assert!(after.contains("name = \"Demo\""));
}

// ---------------------------------------------------------------------------
// uv
// ---------------------------------------------------------------------------

#[test]
fn uv_roundtrip() {
    let mut host = Host::new();
    let manifest = "[project]\nname = \"demo\"\nversion = \"1.0.0\"\n";
    host.put("pyproject.toml", manifest);
    let b = Uv;
    assert_eq!(host.read_version(&b).unwrap(), "1.0.0");
    host.write_version(&b, "1.1.0").unwrap();
    let after = host.text("pyproject.toml");
    assert!(after.contains("version = \"1.1.0\""));
    assert!(after.contains("name = \"demo\""));
}

#[test]
fn workspace_lockstep_updates_members() {
    let mut host = Host::new();
    let root_manifest = "[project]\nname = \"root\"\nversion = \"1.0.0\"\n\n[tool.uv.workspace]\nmembers = [\"packages/*\"]\n";
    host.put("pyproject.toml", root_manifest);
    host.dir("packages/a");
    host.dir("packages/b");
    host.put("packages/a/pyproject.toml", "[project]\nname = \"a\"\nversion = \"1.0.0\"\n");
    host.put("packages/b/pyproject.toml", "[project]\nname = \"b\"\nversion = \"1.0.0\"\n");

    let b = Uv;
    host.write_version(&b, "1.1.0").unwrap();

    assert_eq!(host.read_version(&b).unwrap(), "1.1.0");
    let a = host.text("packages/a/pyproject.toml");
    let bs = host.text("packages/b/pyproject.toml");
    assert!(a.contains("version = \"1.1.0\""));
    assert!(bs.contains("version = \"1.1.0\""));

    let staged = host.files_to_stage(&b);
    assert!(staged.contains(&"pyproject.toml".to_owned()));
    assert!(staged.contains(&"packages/a/pyproject.toml".to_owned()));
    assert!(staged.contains(&"packages/b/pyproject.toml".to_owned()));
}

// ---------------------------------------------------------------------------
// The flow
// ---------------------------------------------------------------------------

/// A host on which every program fails loudly if it is run, so tests can prove
/// that publishing was skipped (rather than that it happened to succeed).
fn host_without_programs() -> Host {
    let mut host = Host::new();
    host.broken = Some("publish should not run when disabled by .release.toml".to_owned());
    host
}

#[test]
fn run_publish_skips_when_publish_disabled() {
    let mut host = host_without_programs();

    // Neither a real run nor a dry-run should touch publish/preview.
    host.drive(|s| run_publish(&Uv, s, false, false)).unwrap();
    host.drive(|s| run_publish(&Uv, s, true, false)).unwrap();
    let skipped = "Skipping publish: disabled by .release.toml.";
    assert_eq!(host.said, [skipped, skipped]);
}

#[test]
fn run_publish_runs_when_publish_enabled() {
    let mut host = host_without_programs();
    let Err(err) = host.drive(|s| run_publish(&Uv, s, false, true)) else {
        panic!("expected publish to run (and fail) but it did not");
    };
    assert!(format!("{err:?}").contains("should not run"), "{err:?}");
}

#[test]
fn run_with_only_publish_skips_when_release_toml_disables() {
    let mut host = Host::new();
    host.put("package.json", r#"{"name":"demo","version":"1.0.0"}"#);
    host.put("bun.lock", "");
    host.put(FILE_NAME, "publish = false\n");

    host.repo = false;
    let cli = Cli {
        bump: BumpArg::Patch,
        no_publish: false,
        only_publish: true,
        dry_run: true,
        backend: Some(BackendName::Bun),
    };

    // The project is not in a git repository. `--only-publish` combined with
    // `--dry-run` must reach the disabled-by-`.release.toml` skip path
    // without ever needing git or running an external command.
    host.run(&cli).unwrap();
}

#[test]
fn run_with_validates_release_toml_before_git_state() {
    let mut host = Host::new();
    host.put(FILE_NAME, "publish = [\n");

    host.repo = false;
    let cli = Cli {
        bump: BumpArg::Patch,
        no_publish: true,
        only_publish: false,
        dry_run: false,
        backend: Some(BackendName::Bun),
    };

    // The project is not in a git repository and `--no-publish` means the publish
    // step would never run anyway. If `.release.toml` were validated
    // lazily (inside the publish step, or after git validation), this
    // would either not fail at all or fail with a git error instead.
    let Err(err) = host.run(&cli) else {
        panic!("expected an error from the invalid .release.toml");
    };
    let message = format!("{err:?}");
    assert!(message.contains("release.toml"), "{message}");
    assert!(!message.contains("git repository"), "{message}");
}

// ---------------------------------------------------------------------------
// Whole releases
// ---------------------------------------------------------------------------

/// A python project.
fn python() -> Host {
    let mut host = Host::new();
    host.put("pyproject.toml", "[project]\nname = \"x\"\nversion = \"1.0.9\"\n");
    host.put("uv.lock", "");
    host
}

#[test]
fn a_release_takes_its_steps_in_order() {
    let mut host = python();
    host.run(&patch(BackendName::Uv)).unwrap();
    assert_eq!(
        host.log,
        vec![
            "git pull --ff-only origin main",
            "write pyproject.toml",
            "uv lock",
            "git add -- pyproject.toml uv.lock",
            "git commit -m chore: bump version to 1.0.10",
            "git tag v1.0.10",
            "git push origin main",
            "git push origin v1.0.10",
            "uv publish",
        ]
    );
    assert_eq!(host.said, vec!["Bumping version: 1.0.9 -> 1.0.10 (backend: uv)"]);
    assert_eq!(host.read_version(&Uv).unwrap(), "1.0.10");
}

#[test]
fn a_dry_run_changes_nothing() {
    let mut host = python();
    host.clean = false;
    host.branch = None;
    let before = host.files.clone();
    host.run(&Cli { dry_run: true, bump: BumpArg::Minor, ..patch(BackendName::Uv) }).unwrap();
    assert!(host.log.is_empty(), "{:?}", host.log);
    assert_eq!(host.files, before);
    assert_eq!(
        host.said,
        vec![
            "would run: git pull --ff-only origin main",
            "Bumping version: 1.0.9 -> 1.1.0 (backend: uv)",
            "would write: manifest version -> 1.1.0",
            "would run: uv lock",
            "would run: git add pyproject.toml uv.lock",
            "would run: git commit -m \"chore: bump version to 1.1.0\"",
            "would run: git tag v1.1.0",
            "would run: git push origin main",
            "would run: git push origin v1.1.0",
            "would run: uv publish",
        ]
    );
    assert_eq!(
        host.warned,
        vec![
            "warning: uncommitted changes exist (ignored in --dry-run)",
            "warning: not on main branch (current: <detached>) (ignored in --dry-run)",
        ]
    );
}

#[test]
fn a_dry_run_of_every_backend_changes_nothing() {
    for name in [
        BackendName::Cargo,
        BackendName::Pnpm,
        BackendName::Bun,
        BackendName::Go,
        BackendName::Dotnet,
        BackendName::Julia,
        BackendName::Uv,
    ] {
        let mut host = python();
        host.put("Cargo.toml", "[package]\nname = \"x\"\nversion = \"1.0.0\"\n");
        host.put("package.json", "{ \"name\": \"x\", \"version\": \"1.0.0\" }");
        host.put("x.csproj", "<P><Version>1.0.0</Version></P>");
        host.put("Project.toml", "version = \"1.0.0\"\n");
        host.tag = Some("v1.0.0".to_owned());
        host.run(&Cli { dry_run: true, ..patch(name) }).unwrap();
        assert!(host.log.is_empty(), "{name:?}: {:?}", host.log);
    }
}

#[test]
fn only_publish_leaves_files_and_repository_alone() {
    let mut host = python();
    host.repo = false;
    host.run(&Cli { only_publish: true, ..patch(BackendName::Uv) }).unwrap();
    assert_eq!(host.log, vec!["uv publish"]);
}

#[test]
fn no_publish_stops_before_publishing() {
    let mut host = python();
    host.run(&Cli { no_publish: true, ..patch(BackendName::Uv) }).unwrap();
    assert_eq!(host.log.last().unwrap(), "git push origin v1.0.10");
    assert_eq!(host.said.last().unwrap(), "Skipping publish (--no-publish specified).");
}

#[test]
fn disabled_publishing_stops_before_publishing() {
    let mut host = python();
    host.put(FILE_NAME, "publish = false\n");
    host.run(&patch(BackendName::Uv)).unwrap();
    assert_eq!(host.log.last().unwrap(), "git push origin v1.0.10");
    assert_eq!(host.said.last().unwrap(), "Skipping publish: disabled by .release.toml.");
}

#[test]
fn a_failed_push_stops_the_release() {
    let mut host = python();
    host.failing = vec!["git push origin main".to_owned()];
    assert_eq!(
        host.run(&patch(BackendName::Uv)),
        Err(ErrorOf::During(
            "git push origin main".to_owned(),
            Box::new(ErrorOf::Failed(
                "git".to_owned(),
                vec!["push".to_owned(), "origin".to_owned(), "main".to_owned()]
            ))
        ))
    );
    assert_eq!(host.log.last().unwrap(), "git push origin main");
}

#[test]
fn a_release_is_refused_unless_all_is_in_order() {
    let refuse = |prepare: fn(&mut Host)| {
        let mut host = python();
        prepare(&mut host);
        let result = host.run(&patch(BackendName::Uv));
        assert!(host.log.is_empty(), "{:?}", host.log);
        result
    };
    assert_eq!(refuse(|h| h.repo = false), Err(ErrorOf::NotARepository));
    assert_eq!(refuse(|h| h.clean = false), Err(ErrorOf::Uncommitted));
    assert_eq!(
        refuse(|h| h.branch = Some("dev".to_owned())),
        Err(ErrorOf::NotOnMain("dev".to_owned()))
    );
    assert_eq!(refuse(|h| h.branch = None), Err(ErrorOf::NotOnMain("<detached>".to_owned())));
}

#[test]
fn a_program_that_cannot_be_run_is_told() {
    let mut host = python();
    host.broken = Some("not found".to_owned());
    let Err(error) = host.run(&patch(BackendName::Uv)) else {
        panic!("expected an error");
    };
    assert_eq!(error.message(), "git pull --ff-only origin main");
    assert_eq!(error.causes(), ["run git pull --ff-only origin main", "not found"]);
}

#[test]
fn a_version_that_is_none_stops_the_release() {
    let mut host = python();
    host.put("pyproject.toml", "[project]\nversion = \"1.0\"\n");
    assert!(matches!(host.run(&patch(BackendName::Uv)), Err(ErrorOf::MissingPart(_))));
    assert_eq!(host.log, vec!["git pull --ff-only origin main"]);

    host.put("pyproject.toml", "[project]\nversion = \"1.0.18446744073709551615\"\n");
    assert!(matches!(host.run(&patch(BackendName::Uv)), Err(ErrorOf::VersionTooLarge(_))));
}

#[test]
fn a_go_release_is_an_empty_commit_with_a_tag() {
    let mut host = Host::new();
    host.put("go.mod", "module x\n");
    host.tag = Some("v0.3.9".to_owned());
    host.run(&Cli { bump: BumpArg::Minor, backend: None, ..patch(BackendName::Go) }).unwrap();
    assert_eq!(
        host.log,
        vec![
            "git pull --ff-only origin main",
            "git commit --allow-empty -m chore: bump version to 0.4.0",
            "git tag v0.4.0",
            "git push origin main",
            "git push origin v0.4.0",
        ]
    );
    host.tag = None;
    assert_eq!(host.read_version(&Go).unwrap(), "0.0.0");
    assert_eq!(host.publish_command_preview(&Go).unwrap(), None);
}

#[test]
fn a_dry_go_release_stages_nothing() {
    let mut host = Host::new();
    host.run(&Cli { dry_run: true, ..patch(BackendName::Go) }).unwrap();
    assert!(host.said.contains(&"would run: git add (nothing to stage)".to_owned()));
    assert_eq!(host.said.last().unwrap(), "No publish step for backend 'go'.");
}

#[test]
fn the_lockfile_command_is_the_one_that_is_shown() {
    let mut host = python();
    for (run, shown) in [
        (host.lock_log(&Cargo), Cargo.lockfile_command_preview()),
        (host.lock_log(&Pnpm), Pnpm.lockfile_command_preview()),
        (host.lock_log(&Bun), Bun.lockfile_command_preview()),
        (host.lock_log(&Go), Go.lockfile_command_preview()),
        (host.lock_log(&Dotnet), Dotnet.lockfile_command_preview()),
        (host.lock_log(&Julia), Julia.lockfile_command_preview()),
        (host.lock_log(&Uv), Uv.lockfile_command_preview()),
    ] {
        assert_eq!(run, shown);
    }
}

#[test]
fn names_are_those_that_the_user_gives() {
    assert_eq!(
        [
            make(BackendName::Cargo).name(),
            make(BackendName::Pnpm).name(),
            make(BackendName::Bun).name(),
            make(BackendName::Go).name(),
            make(BackendName::Dotnet).name(),
            make(BackendName::Julia).name(),
            make(BackendName::Uv).name(),
        ],
        ["cargo", "pnpm", "bun", "go", "dotnet", "julia", "uv"]
    );
}

#[test]
fn the_flow_asks_one_thing_at_a_time() {
    let cli = Cli { backend: None, ..patch(BackendName::Cargo) };
    let mut answers = Vec::new();
    assert_eq!(run(&cli, '/', &answers), Err(AskOf::IsFile("Cargo.toml".to_owned())));
    answers.push(Answer::No);
    assert_eq!(run(&cli, '/', &answers), Err(AskOf::IsFile("pyproject.toml".to_owned())));
    answers.push(Answer::No);
    assert_eq!(run(&cli, '/', &answers), Err(AskOf::IsFile("package.json".to_owned())));
    answers.push(Answer::Yes);
    assert_eq!(run(&cli, '/', &answers), Err(AskOf::IsFile("pnpm-lock.yaml".to_owned())));
    answers.push(Answer::Yes);
    assert_eq!(run(&cli, '/', &answers), Err(AskOf::Ancestors));
    answers.push(Answer::Failed("gone".to_owned()));
    let ended = Ok(Err(ErrorOf::NotAbsolute(".".to_owned(), "gone".to_owned())));
    assert_eq!(run(&cli, '/', &answers), ended);
    // What has ended stays so.
    answers.push(Answer::Yes);
    assert_eq!(run(&cli, '/', &answers), ended);
}

// ---------------------------------------------------------------------------
// More of the package managers
// ---------------------------------------------------------------------------

#[test]
fn a_user_who_is_not_logged_in_is_asked_to() {
    let mut host = Host::new();
    host.put("package.json", "{ \"name\": \"x\", \"version\": \"1.0.0\" }");
    host.logged_in = false;
    host.publish(&Bun).unwrap();
    assert_eq!(host.log, vec!["probe bun pm whoami", "npm login", "bun publish"]);
    assert_eq!(host.warned, vec!["not logged in to npm registry; running `npm login`"]);

    host.log.clear();
    host.logged_in = true;
    host.publish(&Pnpm).unwrap();
    assert_eq!(host.log, vec!["probe pnpm whoami", "pnpm publish --no-git-checks"]);
}

#[test]
fn bun_publishes_each_package_in_its_directory() {
    let mut host = Host::new();
    host.put("package.json", "{ \"private\": true, \"workspaces\": [\"p/*\"] }");
    host.put(
        "p/a/package.json",
        "{ \"name\": \"a\", \"version\": \"1.0.0\", \"peerDependencies\": { \"b\": \"*\" } }",
    );
    host.put("p/b/package.json", "{ \"name\": \"b\", \"version\": \"1.0.0\" }");
    host.publish(&Bun).unwrap();
    assert_eq!(host.log, vec!["probe bun pm whoami", "(p/b) bun publish", "(p/a) bun publish"]);
    assert_eq!(
        host.publish_command_preview(&Bun).unwrap().unwrap(),
        "(cd p/b && bun publish) && (cd p/a && bun publish)"
    );
}

#[test]
fn bun_locks_the_versions_before_it_installs() {
    let mut host = Host::new();
    host.put("package.json", "{ \"version\": \"2.0.0\" }");
    host.put("bun.lock", "{ \"workspaces\": { \"\": { \"version\": \"1.0.0\" } } }");
    host.update_lockfile(&Bun).unwrap();
    assert_eq!(host.log, vec!["write bun.lock", "bun install"]);
    assert_eq!(host.text("bun.lock"), "{ \"workspaces\": { \"\": { \"version\": \"2.0.0\" } } }");
    assert_eq!(host.files_to_stage(&Bun), vec!["package.json", "bun.lock"]);
}

#[test]
fn a_private_pnpm_package_is_not_publishable() {
    let mut host = Host::new();
    host.put("package.json", "{ \"version\": \"1.0.0\", \"private\": true }");
    assert!(!host.is_publishable(&Pnpm).unwrap());
    host.run(&Cli { only_publish: true, ..patch(BackendName::Pnpm) }).unwrap();
    assert!(host.log.is_empty());
    assert_eq!(
        host.said,
        vec!["Skipping publish: no publishable packages found (backend: pnpm)."]
    );
    host.put("pnpm-workspace.yaml", "packages:\n  - p/*\n");
    host.put("p/a/package.json", "{ \"version\": \"1.0.0\" }");
    assert!(host.is_publishable(&Pnpm).unwrap());
}

#[test]
fn a_cargo_package_can_refuse_to_be_published() {
    let mut host = Host::new();
    host.put("Cargo.toml", "[package]\nname = \"x\"\nversion = \"1.0.0\"\npublish = false\n");
    assert!(!host.is_publishable(&Cargo).unwrap());
    host.put("Cargo.toml", "[package]\nname = \"x\"\nversion = \"1.0.0\"\n");
    assert!(host.is_publishable(&Cargo).unwrap());
    host.publish(&Cargo).unwrap();
    assert_eq!(host.log, vec!["cargo publish"]);

    host.put("Cargo.toml", "[workspace]\nmembers = [\"a\", \"b\"]\n");
    host.put("a/Cargo.toml", "[package]\nname = \"a\"\npublish = false\n");
    host.put("b/Cargo.toml", "[package]\nname = \"b\"\npublish = false\n");
    assert!(!host.is_publishable(&Cargo).unwrap());
    host.put("b/Cargo.toml", "[package]\nname = \"b\"\n");
    assert!(host.is_publishable(&Cargo).unwrap());
}

#[test]
fn cargo_publishes_members_by_name() {
    let mut host = Host::new();
    host.put("Cargo.toml", "[workspace]\nmembers = [\"a\", \"b\", \"c\"]\n");
    host.put("a/Cargo.toml", "[package]\nname = \"a\"\n[dependencies]\nb = \"1\"\n");
    host.put("b/Cargo.toml", "[package]\nname = \"b\"\n");
    host.put("c/Cargo.toml", "[lib]\n");
    host.publish(&Cargo).unwrap();
    assert_eq!(host.log, vec!["cargo publish -p b", "cargo publish -p a"]);
    assert_eq!(
        host.warned,
        vec!["warning: skipping publish of c/Cargo.toml (no [package].name)"]
    );
    assert_eq!(
        host.publish_command_preview(&Cargo).unwrap().unwrap(),
        "cargo publish -p b && cargo publish -p a"
    );
}

#[test]
fn cargo_previews_the_members_that_change() {
    let mut host = Host::new();
    host.put("Cargo.toml", "[workspace]\nmembers = [\"a\", \"b\"]\n[workspace.package]\nversion = \"1.0.0\"\n");
    host.put("a/Cargo.toml", "[package]\nname = \"a\"\nversion.workspace = true\n");
    host.put(
        "b/Cargo.toml",
        "[package]\nname = \"b\"\nversion.workspace = true\n[dependencies]\na = { path = \"../a\", version = \"1.0.0\" }\n",
    );
    assert_eq!(host.additional_write_previews(&Cargo).unwrap(), vec!["b/Cargo.toml"]);
    host.write_version(&Cargo, "1.1.0").unwrap();
    assert_eq!(host.log, vec!["write Cargo.toml", "write b/Cargo.toml"]);
    host.said.clear();
    host.run(&Cli { dry_run: true, ..patch(BackendName::Cargo) }).unwrap();
    assert!(host.said.contains(&"would write: b/Cargo.toml".to_owned()), "{:?}", host.said);
}

#[test]
fn an_unreadable_workspace_is_warned_about() {
    let mut host = Host::new();
    host.put("Cargo.toml", "[workspace");
    assert_eq!(host.files_to_stage(&Cargo), vec!["Cargo.toml"]);
    assert_eq!(host.warned, vec!["warning: failed to read Cargo.toml at /work: parse /work/Cargo.toml"]);
}

#[test]
fn bad_patterns_are_warned_about() {
    let mut host = Host::new();
    host.put("a/Cargo.toml", "");
    assert_eq!(host.children(&["a[", " a ", "", "a"], "Cargo.toml"), vec!["a/Cargo.toml"]);
    assert_eq!(host.warned.len(), 1);
    assert!(host.warned[0].starts_with("warning: invalid workspace pattern 'a[': "));
    assert!(host.warned[0].ends_with("; skipping"));
}

#[test]
fn matches_that_cannot_be_read_are_warned_about() {
    let patterns = vec!["a/*".to_owned()];
    let answers = vec![
        Answer::Matches(vec![Found::Failed("denied".to_owned()), Found::Path("a/b".to_owned())]),
        Answer::Yes,
        Answer::No,
    ];
    let mut session = Session::new(ROOT, '/', &answers);
    assert_eq!(child_manifests(&mut session, &patterns, "m"), Ok(Ok(Vec::new())));
    let answers = vec![Answer::Matches(vec![Found::Failed("denied".to_owned())])];
    let mut session = Session::new(ROOT, '/', &answers);
    assert_eq!(
        child_manifests(&mut session, &patterns, "m"),
        Err(AskOf::Warn("warning: failed to read workspace entry: denied".to_owned()))
    );
}

#[test]
fn a_member_is_listed_once_however_its_path_is_written() {
    let patterns: Vec<String> =
        ["packages/*", "packages/./*", "packages//a"].iter().map(|p| (*p).to_owned()).collect();
    let one = |path: &str| Answer::Matches(vec![Found::Path(path.to_owned())]);
    let answers = vec![
        one("packages/a"),
        Answer::Yes,
        Answer::Yes,
        one("packages/./a"),
        Answer::Yes,
        Answer::Yes,
        one("packages//a"),
        Answer::Yes,
        Answer::Yes,
    ];
    let mut session = Session::new(ROOT, '/', &answers);
    assert_eq!(
        child_manifests(&mut session, &patterns, "package.json"),
        Ok(Ok(vec!["packages/a/package.json".to_owned()]))
    );
    let answers = vec![one("a"), Answer::Yes, Answer::Yes, one("./a"), Answer::Yes, Answer::Yes];
    let mut session = Session::new(ROOT, '/', &answers);
    assert_eq!(
        child_manifests(&mut session, &vec!["a".to_owned(), "./a".to_owned()], "m"),
        Ok(Ok(vec!["a/m".to_owned(), "./a/m".to_owned()]))
    );
}

#[test]
fn a_version_that_was_written_is_the_one_that_is_read() {
    let mut host = Host::new();
    host.put("Cargo.toml", "[workspace]\nmembers = [\"a\", \"b\"]\n");
    host.put("a/Cargo.toml", "[package]\nname = \"a\"\n");
    host.put("b/Cargo.toml", "[package]\nname = \"b\"\nversion = \"1.0.0\"\n");
    host.put("package.json", "{\"workspaces\": [\"c\", \"d\"]}");
    host.put("pnpm-workspace.yaml", "packages:\n  - c\n  - d\n");
    host.put("c/package.json", "{\"name\": \"c\"}");
    host.put("d/package.json", "{\"name\": \"d\", \"version\": \"1.0.0\"}");
    host.put("e/e.csproj", "<Project/>");
    host.put("f/f.csproj", "<Project><Version> 1.0.0 </Version></Project>");
    assert_eq!(host.read_version(&Cargo).unwrap(), "1.0.0");
    host.write_version(&Cargo, "2.0.0").unwrap();
    assert_eq!(host.read_version(&Cargo).unwrap(), "2.0.0");
    assert_eq!(host.read_version(&Pnpm).unwrap(), "1.0.0");
    host.write_version(&Pnpm, "3.0.0").unwrap();
    assert_eq!(host.read_version(&Pnpm).unwrap(), "3.0.0");
    host.write_version(&Bun, "4.0.0").unwrap();
    assert_eq!(host.read_version(&Bun).unwrap(), "4.0.0");
    assert_eq!(host.read_version(&Dotnet).unwrap(), "1.0.0");
    host.write_version(&Dotnet, " 5.0.0").unwrap();
    assert_eq!(host.read_version(&Dotnet).unwrap(), "5.0.0");
}

#[test]
fn paths_are_joined_by_the_hosts_separator() {
    let patterns = vec!["packages/*".to_owned()];
    let found = vec![Found::Path("packages\\a".to_owned()), Found::Path("packages/a".to_owned())];
    let answers =
        vec![Answer::Matches(found), Answer::Yes, Answer::Yes, Answer::Yes, Answer::Yes];
    let mut session = Session::new("C:\\work", '\\', &answers);
    assert_eq!(
        child_manifests(&mut session, &patterns, "package.json"),
        Ok(Ok(vec!["packages\\a\\package.json".to_owned()]))
    );
    let answers = vec![Answer::Failed("denied".to_owned())];
    let mut session = Session::new("C:\\work", '\\', &answers);
    assert_eq!(
        Julia.read_version(&mut session),
        Ok(Err(ErrorOf::Read("C:\\work\\Project.toml".to_owned(), "denied".to_owned())))
    );
}

#[test]
fn a_julia_project_that_cannot_be_read_is_told_plainly() {
    let answers = vec![
        Answer::No,
        Answer::No,
        Answer::No,
        Answer::Yes,
        Answer::Failed("denied".to_owned()),
    ];
    let mut session = Session::new(ROOT, '/', &answers);
    let Ok(Err(error)) = detect(&mut session) else {
        panic!("expected an error");
    };
    assert_eq!(error, ErrorOf::Plain("denied".to_owned()));
    assert_eq!(error.message(), "denied");
    assert!(error.causes().is_empty());
}

#[test]
fn a_member_that_cannot_be_updated_is_named() {
    let mut host = Host::new();
    host.put(
        "pyproject.toml",
        "[project]\nversion = \"1.0.0\"\n[tool.uv.workspace]\nmembers = [\"a\"]\n",
    );
    host.put("a/pyproject.toml", "[project");
    let Err(error) = host.write_version(&Uv, "2.0.0") else {
        panic!("expected an error");
    };
    assert_eq!(error.message(), "update member a/pyproject.toml");
    assert_eq!(error.causes()[0], "parse /work/a/pyproject.toml");
}

#[test]
fn answers_that_fit_no_pattern_are_errors() {
    let patterns = vec!["a/*".to_owned()];
    let answers = vec![Answer::Yes];
    let mut session = Session::new(ROOT, '/', &answers);
    assert_eq!(
        child_manifests(&mut session, &patterns, "m"),
        Ok(Err(ErrorOf::OddPattern("/work/a/*".to_owned())))
    );
}

#[test]
fn missing_and_broken_manifests_are_told() {
    let mut host = Host::new();
    assert_eq!(
        host.read_version(&Uv),
        Err(ErrorOf::Read(
            "/work/pyproject.toml".to_owned(),
            "No such file or directory".to_owned()
        ))
    );
    host.put("pyproject.toml", "[project");
    assert!(matches!(host.read_version(&Uv), Err(ErrorOf::Parse(p, _)) if p == "/work/pyproject.toml"));
    host.put("package.json", "{");
    assert!(matches!(host.read_version(&Bun), Err(ErrorOf::Parse(p, _)) if p == "/work/package.json"));
    host.put("package.json", "{}");
    assert_eq!(
        host.read_version(&Pnpm),
        Err(ErrorOf::Absent(
            "no string \"version\" in /work/package.json or any workspace child".to_owned()
        ))
    );
}

#[test]
fn a_file_that_cannot_be_written_is_told() {
    let answers =
        vec![Answer::Text("version = \"1.0.0\"\n".to_owned()), Answer::Failed("full".to_owned())];
    let mut session = Session::new(ROOT, '/', &answers);
    assert_eq!(
        Julia.write_version(&mut session, "2.0.0"),
        Ok(Err(ErrorOf::Write("/work/Project.toml".to_owned(), "full".to_owned())))
    );
    let answers = vec![Answer::Text("version = \"1.0.0\"\n".to_owned())];
    let mut session = Session::new(ROOT, '/', &answers);
    assert_eq!(
        Julia.write_version(&mut session, "2.0.0"),
        Err(AskOf::Write("Project.toml".to_owned(), "version = \"2.0.0\"\n".to_owned()))
    );
}

#[test]
fn a_directory_that_cannot_be_listed_is_told() {
    let answers = vec![
        Answer::No,
        Answer::No,
        Answer::No,
        Answer::No,
        Answer::No,
        Answer::Failed("denied".to_owned()),
    ];
    let mut session = Session::new(ROOT, '/', &answers);
    assert_eq!(
        detect(&mut session),
        Ok(Err(ErrorOf::Plain("denied".to_owned())))
    );
}

#[test]
fn output_that_is_no_text_is_told() {
    let answers = vec![Answer::Output(true, Err("byte 0".to_owned()))];
    let mut session = Session::new(ROOT, '/', &answers);
    assert_eq!(
        current_branch(&mut session),
        Ok(Err(ErrorOf::NotUtf8("decode branch name as utf-8".to_owned(), "byte 0".to_owned())))
    );
    let mut session = Session::new(ROOT, '/', &answers);
    assert_eq!(
        latest_v_tag(&mut session),
        Ok(Err(ErrorOf::NotUtf8("decode git describe output".to_owned(), "byte 0".to_owned())))
    );
}

#[test]
fn walks_pass_over_links_and_build_directories() {
    let entry = |name: &str, kind: Kind| Listed::Entry(name.to_owned(), true, kind);
    let answers = vec![
        Answer::No,
        Answer::Listing(vec![]),
        Answer::Listing(vec![
            entry("link", Kind::Symlink),
            entry("bin", Kind::Dir),
            Listed::Entry("x.csproj".to_owned(), false, Kind::Other),
            entry("src", Kind::Dir),
            entry("b.csproj", Kind::Other),
            entry("c.vbproj", Kind::Other),
        ]),
        Answer::Listing(vec![entry("a.fsproj", Kind::Other)]),
        Answer::Text("<Version>1.0.0</Version>".to_owned()),
        Answer::Text("nothing".to_owned()),
    ];
    let mut session = Session::new(ROOT, '/', &answers);
    assert_eq!(
        Dotnet.files_to_stage(&mut session),
        Ok(vec!["src/a.fsproj".to_owned()])
    );
}

#[test]
fn an_entry_of_unknown_kind_ends_the_walk() {
    let answers = vec![
        Answer::No,
        Answer::Listing(vec![]),
        Answer::Listing(vec![Listed::Entry(
            "x".to_owned(),
            true,
            Kind::Unknown("denied".to_owned()),
        )]),
    ];
    let mut session = Session::new(ROOT, '/', &answers);
    assert_eq!(
        Dotnet.read_version(&mut session),
        Ok(Err(ErrorOf::Plain("denied".to_owned())))
    );
}

#[test]
fn lookups_that_cannot_be_run_are_told_by_their_first_word() {
    let answers = vec![Answer::Failed("gone".to_owned())];
    for (step, told) in [
        (is_inside_repo(&mut Session::new(ROOT, '/', &answers)).map(|r| r.map(|_| ())), "run git rev-parse"),
        (current_branch(&mut Session::new(ROOT, '/', &answers)).map(|r| r.map(|_| ())), "run git symbolic-ref"),
        (latest_v_tag(&mut Session::new(ROOT, '/', &answers)).map(|r| r.map(|_| ())), "run git describe"),
        (is_clean(&mut Session::new(ROOT, '/', &answers)).map(|r| r.map(|_| ())), "run git diff --quiet"),
    ] {
        let Ok(Err(error)) = step else {
            panic!("expected an error");
        };
        assert_eq!(error.message(), told);
        assert_eq!(error.causes(), ["gone"]);
    }
}

/// What is told when this step of a release fails.
fn told(host: &mut Host, backend: BackendName) -> Vec<String> {
    let Err(error) = host.run(&patch(backend)) else {
        panic!("expected an error");
    };
    let mut all = vec![error.message()];
    all.extend(error.causes());
    all
}

#[test]
fn errors_tell_what_was_being_done() {
    let failing = |line: &str| {
        let mut host = python();
        host.failing.push(line.to_owned());
        told(&mut host, BackendName::Uv)
    };
    assert_eq!(
        failing("uv lock"),
        ["update lockfile with backend 'uv'", "uv lock failed"]
    );
    assert_eq!(failing("uv publish"), ["publish with backend 'uv'", "uv publish failed"]);
    assert_eq!(failing("git tag v1.0.10"), ["git tag", "git tag v1.0.10 failed"]);
    assert_eq!(
        failing("git push origin main"),
        ["git push origin main", "git push origin main failed"]
    );
    assert_eq!(
        failing("git push origin v1.0.10"),
        ["git push origin v1.0.10", "git push origin v1.0.10 failed"]
    );
    assert_eq!(
        failing("git commit -m chore: bump version to 1.0.10"),
        ["git commit", "git commit -m chore: bump version to 1.0.10 failed"]
    );

    let mut host = python();
    host.put("pyproject.toml", "[project]\n");
    assert_eq!(
        told(&mut host, BackendName::Uv),
        [
            "read current version with backend 'uv'",
            "no [project].version in pyproject.toml"
        ]
    );
}

#[test]
fn a_broken_member_is_told_with_its_manifest() {
    for backend in [BackendName::Pnpm, BackendName::Bun] {
        let mut host = Host::new();
        host.put("package.json", r#"{"version":"1.0.0","workspaces":["a"]}"#);
        host.put("pnpm-workspace.yaml", "packages:\n  - a\n");
        host.put("a/package.json", "{");
        let all = told(&mut host, backend);
        assert_eq!(all[1], "update child manifest a/package.json");
        assert_eq!(all[2], "parse /work/a/package.json");
        assert_eq!(all.len(), 4);

        let mut cli = patch(backend);
        cli.dry_run = true;
        let Err(error) = host.run(&cli) else {
            panic!("expected an error");
        };
        assert!(error.message().starts_with("preview additional writes with backend '"));
        assert_eq!(error.causes()[0], "parse /work/a/package.json");
    }
}

#[test]
fn what_is_written_is_listed_beforehand() {
    let mut host = Host::new();
    host.put("package.json", r#"{"version":"1.0.0","workspaces":["a","b"]}"#);
    host.put("pnpm-workspace.yaml", "packages:\n  - a\n  - b\n");
    host.put("a/package.json", r#"{"version":"1.0.0"}"#);
    host.put("b/package.json", r#"{"name":"b"}"#);
    assert_eq!(host.additional_write_previews(&Pnpm).unwrap(), ["a/package.json"]);
    assert_eq!(host.additional_write_previews(&Bun).unwrap(), ["a/package.json"]);
    host.write_version(&Pnpm, "1.1.0").unwrap();
    assert_eq!(host.log, ["write package.json", "write a/package.json"]);

    let mut host = Host::new();
    host.put(
        "pyproject.toml",
        "[project]\nversion = \"1.0.0\"\n[tool.uv.workspace]\nmembers = [\"a\", \"b\"]\n",
    );
    host.put("a/pyproject.toml", "[project]\nname = \"a\"\n");
    host.put("b/pyproject.toml", "[project]\nversion = \"1.0.0\"\n");
    assert_eq!(host.additional_write_previews(&Uv).unwrap(), ["b/pyproject.toml"]);
    host.write_version(&Uv, "1.1.0").unwrap();
    assert_eq!(host.log, ["write pyproject.toml", "write b/pyproject.toml"]);

    let mut host = Host::new();
    host.put("a.csproj", "<Version>1.0.0</Version>");
    host.put("b.csproj", "<Project/>");
    assert_eq!(host.additional_write_previews(&Dotnet).unwrap(), ["a.csproj"]);
    host.write_version(&Dotnet, "1.1.0").unwrap();
    assert_eq!(host.log, ["write a.csproj"]);
    host.put("Directory.Build.props", "<Version>1.0.0</Version>");
    let none: [&str; 0] = [];
    assert_eq!(host.additional_write_previews(&Dotnet).unwrap(), none);
}

#[test]
fn a_member_that_is_up_to_date_is_not_written() {
    let mut host = Host::new();
    host.put(
        "Cargo.toml",
        "[workspace]\nmembers = [\"a\", \"b\"]\n[workspace.package]\nversion = \"1.0.0\"\n",
    );
    host.put("a/Cargo.toml", "[package]\nname = \"a\"\nversion.workspace = true\n");
    host.put(
        "b/Cargo.toml",
        "[package]\nname = \"b\"\nversion.workspace = true\n[dependencies]\na = { path = \"../a\", version = \"NEW\" }\n",
    );
    let none: [&str; 0] = [];
    let up_to_date = host.text("b/Cargo.toml").replace("NEW", PREVIEWED);
    host.put("b/Cargo.toml", &up_to_date);
    assert_eq!(host.additional_write_previews(&Cargo).unwrap(), none);
    host.write_version(&Cargo, PREVIEWED).unwrap();
    assert_eq!(host.log, ["write Cargo.toml"]);
    assert_eq!(host.text("b/Cargo.toml"), up_to_date);
    host.put("b/Cargo.toml", &up_to_date.replace(PREVIEWED, "0.1.0"));
    assert_eq!(host.additional_write_previews(&Cargo).unwrap(), ["b/Cargo.toml"]);
    assert_eq!(host.read_version(&Cargo).unwrap(), PREVIEWED);
}

#[test]
fn patterns_that_find_nothing_new_add_nothing() {
    let mut host = Host::new();
    host.put("a/m", "");
    host.put("b/m", "");
    assert_eq!(host.children(&["b", "", "*", "!a", "**", "a", "b"], "m"), ["b/m", "a/m"]);
}
