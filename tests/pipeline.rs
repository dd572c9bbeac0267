use crane::actions::{
    Action, Common, ExecuteAction, FileExistsAction, InsertFileAction, ModifyFileAction,
    RunCommandAction,
};
use crane::brick::{
    brick_files, bricks, Brick, BrickConfig, BrickFile, BrickProgress, ConfigFile, FoundDir,
    ListedFile,
};
use crane::context::ActionContext;
use crane::error::ActionError;
use crane::text::ModifyType;
use crane::workspace::{
    file_append_content, file_create_new, file_read_content, file_replace_content, Workspace,
    WorkspaceFile,
};

const TEST_TOML: &str = "[package]\nname = \"test\"\n\n[dependencies]\ncrane = \"9.9.9\"\n";

fn ws(files: &[(&str, &str)]) -> Workspace {
    Workspace::new(
        files
            .iter()
            .map(|(p, c)| WorkspaceFile {
                path: p.to_string(),
                content: c.to_string(),
                written: false,
            })
            .collect(),
    )
}

fn read(w: &Workspace, p: &str) -> Option<String> {
    file_read_content(&ActionContext::new(false), w, &p.to_string()).ok()
}

fn file(name: &str, content: &str) -> BrickFile {
    BrickFile::new(name.to_string(), content.to_string())
}

fn sources(names: &[&str]) -> Common {
    Common { working_dir: None, sources: names.iter().map(|s| s.to_string()).collect() }
}

fn modify_brick(name: &str, op: ModifyType, content: &str, selector: &str) -> Brick {
    let action = Action::ModifyFile(ModifyFileAction {
        common: sources(&["Test.toml"]),
        modify_type: op,
        content: Some(content.to_string()),
        selector: selector.to_string(),
    });
    Brick::new_with_config(BrickConfig::new(name.to_string(), vec![action]), name.to_string())
}

#[test]
fn test_insert_file() {
    let action = Action::InsertFile(InsertFileAction {
        common: sources(&["TEST_A"]),
        if_file_exists: FileExistsAction::Append,
    });
    let brick = Brick::new_with_config(
        BrickConfig::new(String::from("insert_with_config"), vec![action]),
        String::from("insert_with_config"),
    );
    let files = brick_files(vec![
        ListedFile { name: "TEST_A".into(), is_file: true, content: "a".into() },
        ListedFile { name: "TEST_B".into(), is_file: true, content: "b".into() },
        ListedFile { name: "brick.toml".into(), is_file: true, content: "name = \"x\"".into() },
    ]);
    let ctx = ActionContext { dry_run: false };
    let mut w = ws(&[]);
    brick.execute(&ctx, &files, &mut w, 0).unwrap();
    assert!(w.has_file(&"TEST_A".to_string()));
    assert!(!w.has_file(&"TEST_B".to_string()));
    assert!(!w.has_file(&"brick.toml".to_string()));
}

#[test]
fn test_without_config() {
    let brick = Brick::new(String::from("insert_no_config"), String::from("insert_no_config"));
    assert_eq!(1, brick.config().actions().len());
    let files = vec![file("TEST_B", "b")];
    let ctx = ActionContext { dry_run: false };
    let mut w = ws(&[]);
    brick.execute(&ctx, &files, &mut w, 0).unwrap();
    assert!(w.has_file(&"TEST_B".to_string()));
}

#[test]
fn test_modify_append() {
    let brick = modify_brick("modify_append", ModifyType::Append, "\nserde = \"1\"", "[dependencies]");
    let ctx = ActionContext { dry_run: false };
    let mut w = ws(&[("Test.toml", TEST_TOML)]);
    brick.execute(&ctx, &vec![], &mut w, 0).unwrap();
    let res_content = read(&w, "Test.toml").unwrap();
    assert!(res_content.contains("[dependencies]\nserde = \"1\"\n"))
}

#[test]
fn test_modify_prepend() {
    let brick = modify_brick("modify_prepend", ModifyType::Prepend, "serde = \"1\"\n", "[dependencies]");
    let ctx = ActionContext { dry_run: false };
    let mut w = ws(&[("Test.toml", TEST_TOML)]);
    brick.execute(&ctx, &vec![], &mut w, 0).unwrap();
    let res_content = read(&w, "Test.toml").unwrap();
    assert!(res_content.contains("serde = \"1\"\n[dependencies]"))
}

#[test]
fn test_modify_replace() {
    let brick = modify_brick("modify_replace", ModifyType::Replace, "[dev-dependencies]", "[dependencies]");
    let ctx = ActionContext { dry_run: false };
    let mut w = ws(&[("Test.toml", TEST_TOML)]);
    brick.execute(&ctx, &vec![], &mut w, 0).unwrap();
    let res_content = read(&w, "Test.toml").unwrap();
    assert!(!res_content.contains("[dependencies]"));
    assert!(res_content.contains("[dev-dependencies]"));
}

#[test]
fn test_command() {
    let action = Action::RunCommand(RunCommandAction {
        common: Common::default(),
        command: String::from("echo hi > test.txt"),
    });
    let brick = Brick::new_with_config(
        BrickConfig::new(String::from("run_command"), vec![action]),
        String::from("run_command"),
    );
    let ctx = ActionContext { dry_run: false };
    let mut w = ws(&[]);
    assert_eq!(brick.execute(&ctx, &vec![], &mut w, 0), Ok(BrickProgress::RunCommand(0)));
    assert_eq!(brick.execute(&ctx, &vec![], &mut w, 1), Ok(BrickProgress::Finished));
}

#[test]
fn insert_creates_missing_file_with_template() {
    let a = InsertFileAction { common: Common::default(), if_file_exists: FileExistsAction::Pass };
    let mut w = ws(&[]);
    let ctx = ActionContext::new(false);
    a.execute(&ctx, &vec![file("LICENSE", "MIT")], &mut w).unwrap();
    assert_eq!(read(&w, "LICENSE").unwrap(), "MIT");
}

#[test]
fn insert_pass_keeps_existing_content() {
    let a = InsertFileAction { common: Common::default(), if_file_exists: FileExistsAction::Pass };
    let mut w = ws(&[("LICENSE", "old")]);
    a.execute(&ActionContext::new(false), &vec![file("LICENSE", "MIT")], &mut w).unwrap();
    assert_eq!(read(&w, "LICENSE").unwrap(), "old");
}

#[test]
fn insert_append_and_replace_policies() {
    let append = InsertFileAction { common: Common::default(), if_file_exists: FileExistsAction::Append };
    let replace = InsertFileAction { common: Common::default(), if_file_exists: FileExistsAction::Replace };
    let ctx = ActionContext::new(false);
    let mut w = ws(&[("a", "1")]);
    append.execute(&ctx, &vec![file("a", "2")], &mut w).unwrap();
    assert_eq!(read(&w, "a").unwrap(), "12");
    replace.execute(&ctx, &vec![file("a", "3")], &mut w).unwrap();
    assert_eq!(read(&w, "a").unwrap(), "3");
}

#[test]
fn working_dir_prefixes_target_path() {
    let a = InsertFileAction {
        common: Common { working_dir: Some(String::from("src")), sources: vec![] },
        if_file_exists: FileExistsAction::Append,
    };
    let mut w = ws(&[]);
    a.execute(&ActionContext::new(false), &vec![file("main.rs", "fn main() {}")], &mut w).unwrap();
    assert_eq!(read(&w, "src/main.rs").unwrap(), "fn main() {}");
}

#[test]
fn modify_missing_target_fails() {
    let brick = modify_brick("m", ModifyType::Append, "x", "[dependencies]");
    let mut w = ws(&[]);
    assert_eq!(
        brick.execute(&ActionContext::new(false), &vec![], &mut w, 0),
        Err(ActionError::TargetFileMissing)
    );
}

#[test]
fn modify_without_match_leaves_file() {
    let brick = modify_brick("m", ModifyType::Append, "x", "[workspace]");
    let mut w = ws(&[("Test.toml", TEST_TOML)]);
    assert_eq!(
        brick.execute(&ActionContext::new(false), &vec![], &mut w, 0),
        Err(ActionError::NoSelectorMatch)
    );
    assert_eq!(read(&w, "Test.toml").unwrap(), TEST_TOML);
    assert!(w.files().iter().all(|f| !f.written));
}

#[test]
fn first_failure_stops_later_actions() {
    let failing = Action::ModifyFile(ModifyFileAction {
        common: sources(&["Missing.toml"]),
        modify_type: ModifyType::Append,
        content: None,
        selector: String::from("1"),
    });
    let insert = Action::InsertFile(InsertFileAction::default());
    let brick = Brick::new_with_config(
        BrickConfig::new(String::from("b"), vec![insert.clone(), failing, insert]),
        String::from("b"),
    );
    let mut w = ws(&[]);
    let r = brick.execute(&ActionContext::new(false), &vec![file("a", "1")], &mut w, 0);
    assert_eq!(r, Err(ActionError::TargetFileMissing));
    assert_eq!(read(&w, "a").unwrap(), "1");
}

fn dry_and_real(brick: &Brick, files: &Vec<BrickFile>, start: &[(&str, &str)]) -> (Workspace, Workspace) {
    let mut dry = ws(start);
    let mut real = ws(start);
    let rd = brick.execute(&ActionContext::new(true), files, &mut dry, 0);
    let rr = brick.execute(&ActionContext::new(false), files, &mut real, 0);
    assert_eq!(rd, rr);
    (dry, real)
}

#[test]
fn dry_run_writes_nothing() {
    let insert = Action::InsertFile(InsertFileAction::default());
    let modify = Action::ModifyFile(ModifyFileAction {
        common: sources(&["Test.toml"]),
        modify_type: ModifyType::Replace,
        content: Some(String::from("[dev-dependencies]")),
        selector: String::from("[dependencies]"),
    });
    let command = Action::RunCommand(RunCommandAction { common: Common::default(), command: String::from("true") });
    let inserting = Brick::new_with_config(BrickConfig::new(String::from("i"), vec![insert]), String::from("i"));
    let modifying = Brick::new_with_config(
        BrickConfig::new(String::from("m"), vec![modify, command]),
        String::from("m"),
    );
    let ctx = ActionContext::new(true);
    let mut w = ws(&[("Test.toml", TEST_TOML)]);
    assert_eq!(inserting.execute(&ctx, &vec![file("new.txt", "n")], &mut w, 0), Ok(BrickProgress::Finished));
    assert_eq!(modifying.execute(&ctx, &vec![], &mut w, 0), Ok(BrickProgress::Finished));
    assert!(w.files().iter().all(|f| !f.written));
}

#[test]
fn dry_run_matches_real_run() {
    let insert = Action::InsertFile(InsertFileAction::default());
    let modify = Action::ModifyFile(ModifyFileAction {
        common: Common::default(),
        modify_type: ModifyType::Append,
        content: Some(String::from("!")),
        selector: String::from("hello"),
    });
    let brick = Brick::new_with_config(BrickConfig::new(String::from("b"), vec![insert, modify]), String::from("b"));
    let files = vec![file("greeting.txt", "hello")];
    let (dry, real) = dry_and_real(&brick, &files, &[]);
    assert_eq!(read(&dry, "greeting.txt").unwrap(), "hello!");
    assert_eq!(read(&real, "greeting.txt").unwrap(), "hello!");
    assert!(dry.files().iter().all(|f| !f.written));
    assert!(real.files().iter().all(|f| f.written));
}

#[test]
fn real_run_marks_every_change() {
    let replace = Action::InsertFile(InsertFileAction { common: Common::default(), if_file_exists: FileExistsAction::Replace });
    let brick = Brick::new_with_config(BrickConfig::new(String::from("b"), vec![replace]), String::from("b"));
    let mut w = ws(&[("a", "old"), ("untouched", "u")]);
    brick.execute(&ActionContext::new(false), &vec![file("a", "new")], &mut w, 0).unwrap();
    let written: Vec<&str> = w.files().iter().filter(|f| f.written).map(|f| f.path.as_str()).collect();
    assert_eq!(written, vec!["a"]);
    assert_eq!(read(&w, "untouched").unwrap(), "u");
}

#[test]
fn gateway_primitives() {
    let real = ActionContext::new(false);
    let dry = ActionContext::new(true);
    let p = String::from("f");
    let mut w = ws(&[]);
    assert_eq!(file_read_content(&real, &w, &p), Err(ActionError::NotFound));
    assert_eq!(file_read_content(&dry, &w, &p), Ok(String::new()));
    file_create_new(&real, &mut w, &p, Some(String::from("x"))).unwrap();
    assert_eq!(file_create_new(&real, &mut w, &p, None), Err(ActionError::FileAlreadyExists));
    assert_eq!(file_create_new(&dry, &mut w, &p, None), Ok(()));
    file_append_content(&real, &mut w, &p, &String::from("y"));
    assert_eq!(read(&w, "f").unwrap(), "xy");
    file_replace_content(&real, &mut w, &p, &String::from("z"));
    assert_eq!(read(&w, "f").unwrap(), "z");
    let q = String::from("g");
    file_create_new(&dry, &mut w, &q, Some(String::from("d"))).unwrap();
    file_append_content(&dry, &mut w, &q, &String::from("e"));
    assert_eq!(read(&w, "g").unwrap(), "de");
    let written: Vec<&str> = w.files().iter().filter(|f| f.written).map(|f| f.path.as_str()).collect();
    assert_eq!(written, vec!["f"]);
}

#[test]
fn spawn_failure_is_the_only_command_error() {
    assert_eq!(RunCommandAction::spawn_result(true), Ok(()));
    assert_eq!(RunCommandAction::spawn_result(false), Err(ActionError::ProcessSpawnFailure));
}

#[test]
fn discovery_skips_invalid_and_defaults_missing_config() {
    let cfg = BrickConfig::new(String::from("configured"), vec![]);
    let found = vec![
        FoundDir { name: Some("plain".into()), path: "/b/plain".into(), config: ConfigFile::Absent },
        FoundDir { name: Some("broken".into()), path: "/b/broken".into(), config: ConfigFile::Invalid },
        FoundDir { name: Some("dir".into()), path: "/b/dir".into(), config: ConfigFile::Parsed(cfg) },
    ];
    let bs = bricks(found);
    assert_eq!(bs.len(), 2);
    assert_eq!(bs[0].name(), "plain");
    assert_eq!(bs[0].path(), "/b/plain");
    assert_eq!(bs[0].config().actions().len(), 1);
    assert_eq!(bs[1].name(), "configured");
    assert_eq!(bs[1].config().actions().len(), 0);
}

#[test]
fn last_brick_of_a_name_wins() {
    let first = BrickConfig::new(String::from("rust"), vec![]);
    let second = BrickConfig::new(String::from("rust"), vec![Action::InsertFile(InsertFileAction::default())]);
    let found = vec![
        FoundDir { name: Some("a".into()), path: "/b/a".into(), config: ConfigFile::Parsed(first) },
        FoundDir { name: Some("rust".into()), path: "/b/rust".into(), config: ConfigFile::Absent },
        FoundDir { name: Some("mit".into()), path: "/b/mit".into(), config: ConfigFile::Absent },
        FoundDir { name: Some("c".into()), path: "/b/c".into(), config: ConfigFile::Parsed(second) },
    ];
    let bs = bricks(found);
    let names: Vec<&str> = bs.iter().map(|b| b.name()).collect();
    assert_eq!(names, vec!["mit", "rust"]);
    assert_eq!(bs[1].path(), "/b/c");
    assert_eq!(bs[1].config().actions().len(), 1);
}

#[test]
fn brick_files_skip_config_and_directories() {
    let fs = brick_files(vec![
        ListedFile { name: "README.md".into(), is_file: true, content: "r".into() },
        ListedFile { name: "sub".into(), is_file: false, content: String::new() },
        ListedFile { name: "brick.toml".into(), is_file: true, content: "c".into() },
    ]);
    assert_eq!(fs.len(), 1);
    assert_eq!(fs[0].name(), "README.md");
    assert_eq!(fs[0].content(), "r");
}
