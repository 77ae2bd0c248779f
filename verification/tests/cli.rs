//! The developer command.
use canopy::cli::{
    canopy_crates, cargo_toml, cmd_build, cmd_new, command, ensure_empty_dir, main_rs, readme, scaffold,
    styles_css, validate_name, CliError, Command, Found, ProjectFile,
};
use canopy::templates::USAGE;

fn args(words: &[&str]) -> Vec<String> {
    words.iter().map(|w| w.to_string()).collect()
}

#[test]
fn validate_name_rejects_path_like_names() {
    assert!(validate_name("ok-name").is_ok());
    assert!(validate_name("").is_err());
    assert!(validate_name("a/b").is_err());
    assert!(validate_name("..").is_err());
}

#[test]
fn the_first_argument_picks_the_command() {
    assert_eq!(command(&args(&[])), Command::Help);
    for word in ["-h", "--help", "help"] {
        assert_eq!(command(&args(&[word])), Command::Help);
    }
    assert_eq!(command(&args(&["new", "x"])), Command::New);
    assert_eq!(command(&args(&["build"])), Command::Build);
    assert_eq!(command(&args(&["frobnicate"])), Command::Unknown);
    assert!(USAGE.contains("canopy new"));
    assert!(USAGE.contains("canopy build"));
}

#[test]
fn each_refusal_has_its_message() {
    let refused = |r: Result<String, CliError>| r.unwrap_err().message();
    assert_eq!(refused(cmd_new(&args(&["--fast", "x"]))), "unknown option `--fast` for `canopy new`");
    assert_eq!(
        refused(cmd_new(&args(&["x", "y"]))),
        "expected a single project name; got more than one argument"
    );
    assert_eq!(refused(cmd_new(&args(&[]))), "missing project name (usage: canopy new <name>)");
    assert_eq!(refused(cmd_new(&args(&[""]))), "project name must not be empty");
    for bad in ["a/b", "a\\b", ".", ".."] {
        assert_eq!(
            refused(cmd_new(&args(&[bad]))),
            format!("invalid project name `{bad}`: must be a plain directory name")
        );
    }
    assert_eq!(cmd_new(&args(&["my-app"])), Ok("my-app".to_string()));
    assert_eq!(
        cmd_build(&args(&["--relese"])).unwrap_err().message(),
        "unknown option `--relese` for `canopy build` (try --release)"
    );
}

#[test]
fn release_builds_are_asked_for_by_flag() {
    assert_eq!(cmd_build(&args(&[])), Ok(false));
    assert_eq!(cmd_build(&args(&["--release"])), Ok(true));
    assert_eq!(cmd_build(&args(&["-r"])), Ok(true));
    assert_eq!(cmd_build(&args(&["-r", "x"])), Err(CliError::BuildOption("x".to_string())));
}

fn contents(files: &[ProjectFile], path: &str) -> String {
    files.iter().find(|f| f.path == path).expect("file").contents.clone()
}

#[test]
fn scaffold_creates_expected_files_with_sane_contents() {
    let files = scaffold(Found::Nothing, "my-app", "my-app", None)
        .expect("scaffold should succeed into a fresh dir");
    assert_eq!(files.len(), 4);

    let cargo_txt = contents(&files, "Cargo.toml");
    assert!(cargo_txt.contains("name = \"my-app\""), "package name present");
    assert!(cargo_txt.contains("canopy-view"), "depends on canopy-view");
    assert!(cargo_txt.contains("canopy-render-text"), "depends on the sharp-text renderer");
    assert!(cargo_txt.contains("winit"), "wires the winit window dep");
    assert!(cargo_txt.contains("softbuffer"), "wires softbuffer");
    assert!(cargo_txt.contains("default = [\"window\"]"), "window feature on by default");

    let main_txt = contents(&files, "src/main.rs");
    assert!(main_txt.contains("App"), "main.rs references App");
    assert!(main_txt.contains("signal"), "main.rs creates a signal");
    assert!(main_txt.contains("on_click"), "main.rs wires a button click");
    assert!(main_txt.contains("count is"), "main.rs has the label");
    assert!(main_txt.contains("ROOT"), "main.rs mounts under the root");
    assert!(main_txt.contains("Canopy"), "main.rs has the Canopy heading");
    assert!(main_txt.contains("no JavaScript runtime"), "main.rs has the tagline");

    let styles_txt = contents(&files, "styles.css");
    assert!(styles_txt.contains("border-radius"), "styles.css uses rounded corners");
    assert!(styles_txt.contains("#1e1e2e"), "styles.css uses the dark canvas color");
    assert!(styles_txt.contains(":hover"), "styles.css has the hover cascade");

    assert_eq!(main_txt, main_rs("my-app"));
    assert_eq!(styles_txt, styles_css());
    assert_eq!(contents(&files, "README.md"), readme("my-app"));
}

#[test]
fn scaffold_with_crates_root_emits_path_deps_for_every_crate() {
    let files = scaffold(Found::Nothing, "pathy", "pathy", Some("/tmp/canopy-checkout")).unwrap();
    let cargo_txt = contents(&files, "Cargo.toml");
    assert_eq!(canopy_crates().len(), 10);
    for krate in canopy_crates() {
        let expected = format!("path = \"/tmp/canopy-checkout/crates/{krate}\"");
        assert!(cargo_txt.contains(&expected), "expected path dep for `{krate}`, got:\n{cargo_txt}");
    }
}

#[test]
fn scaffold_without_crates_root_emits_version_placeholders_for_every_crate() {
    let files = scaffold(Found::Nothing, "verp", "verp", None).unwrap();
    let cargo_txt = contents(&files, "Cargo.toml");
    for krate in canopy_crates() {
        assert!(
            cargo_txt.contains(&format!("{krate} = \"0.0.0\"")),
            "expected version placeholder for `{krate}`, got:\n{cargo_txt}"
        );
    }
    assert!(cargo_txt.contains("CANOPY_CRATES_PATH"));
    assert_eq!(cargo_txt, cargo_toml("verp", None));
}

#[test]
fn scaffold_refuses_non_empty_dir() {
    let err = scaffold(Found::FilledDirectory, "/w/occupied", "occupied", None)
        .expect_err("scaffolding into a non-empty dir must error");
    assert_eq!(err, CliError::NotEmpty("/w/occupied".to_string()));
    assert_eq!(err.message(), "`/w/occupied` already exists and is not empty");

    let err = ensure_empty_dir(Found::Other, "/w/file").unwrap_err();
    assert_eq!(err.message(), "`/w/file` exists and is not a directory");
}

#[test]
fn scaffold_into_empty_existing_dir_is_allowed() {
    let files = scaffold(Found::EmptyDirectory, "blank", "blank", None)
        .expect("an empty existing dir is fine");
    assert_eq!(files[0].path, "Cargo.toml");
    assert!(ensure_empty_dir(Found::Nothing, "blank").is_ok());
}
