use gitmelt::decorator::ContentDecorator;
use gitmelt::decorator::DefaultDecorator;
use gitmelt::decorator::FileTreeDecorator;
use gitmelt::decorator::GlobalDecorator;
use gitmelt::decorator::MarkdownDecorator;
use gitmelt::decorator::PrologueMode;
use gitmelt::decorator::XmlDecorator;
use gitmelt::decorator::format_path;
use gitmelt::decorator::file_tree::strip_root;
use gitmelt::text::path_extension;
use gitmelt::text::trim_end_exec;

#[test]
fn test_format_path_unix() {
    let path = "src/main.rs";
    assert_eq!(format_path(path), "src/main.rs");
}

#[test]
fn test_format_path_windows() {
    let path = "src\\main.rs";
    assert_eq!(format_path(path), "src/main.rs");
}

#[test]
fn test_format_path_with_dot() {
    let path = "./src/main.rs";
    assert_eq!(format_path(path), "src/main.rs");
}

#[test]
fn test_format_path_collapses_repeats() {
    assert_eq!(format_path("a//b/"), "a/b");
    assert_eq!(format_path(""), "");
    assert_eq!(format_path("."), "");
    assert_eq!(format_path("a/./b"), "a/b");
    assert_eq!(format_path(".hidden"), ".hidden");
}

#[test]
fn test_xml_decorator() {
    let decorator = XmlDecorator;
    let path = "src/main.rs";
    let content = "println!(\"hello\");".to_string();

    let before = decorator.before(path).unwrap();
    let after = decorator.after(path).unwrap();
    let transformed = decorator.transform(path, content.clone());

    assert_eq!(before, "<file path=\"src/main.rs\">");
    assert_eq!(after, "</file>");
    assert_eq!(transformed, content);
}

#[test]
fn test_default_decorator() {
    let decorator = DefaultDecorator;
    let path = "a.txt";
    let before = decorator.before(path).unwrap();
    assert_eq!(
        before,
        "================================================\nFILE: a.txt\n================================================\n"
    );
    assert_eq!(decorator.after(path).unwrap(), "");
    assert_eq!(decorator.transform(path, "body".to_string()), "body");
}

#[test]
fn test_markdown_decorator() {
    let decorator = MarkdownDecorator;
    assert_eq!(
        decorator.before("src/main.rs").unwrap(),
        "## File: src/main.rs\n```rs"
    );
    assert_eq!(decorator.before("README").unwrap(), "## File: README\n```");
    assert_eq!(decorator.after("src/main.rs").unwrap(), "```");
    assert_eq!(
        decorator.transform("src/main.rs", "text".to_string()),
        "text"
    );
}

#[test]
fn test_path_extension() {
    assert_eq!(path_extension("a/b/c.tar.gz"), "gz");
    assert_eq!(path_extension("a/b/.gitignore"), "");
    assert_eq!(path_extension("noext"), "");
    assert_eq!(path_extension("dir.d/noext"), "");
    assert_eq!(path_extension("trailing."), "");
}

#[test]
fn test_strip_root() {
    assert_eq!(strip_root("root", "root/a.txt"), "/a.txt");
    assert_eq!(strip_root("root", "rooted.txt"), "rooted.txt");
    assert_eq!(strip_root("root", "elsewhere/a.txt"), "elsewhere/a.txt");
    assert_eq!(strip_root("", "a.txt"), "a.txt");
    assert_eq!(strip_root("root/", "root/a.txt"), "a.txt");
}

#[test]
fn test_trim_end() {
    assert_eq!(trim_end_exec("abc \n\t "), "abc");
    assert_eq!(trim_end_exec(""), "");
    assert_eq!(trim_end_exec("  x"), "  x");
}

#[test]
fn test_prologue_off() {
    let decorator = FileTreeDecorator {
        root: "root".to_string(),
        mode: PrologueMode::Off,
    };
    let files = vec!["root/a.txt".to_string()];
    assert!(decorator.prologue(&files).is_none());
}

#[test]
fn test_prologue_list() {
    let decorator = FileTreeDecorator {
        root: "root".to_string(),
        mode: PrologueMode::List,
    };
    let files = vec!["root/a.txt".to_string(), "root/b/c.txt".to_string()];
    let prologue = decorator.prologue(&files).unwrap();
    assert_eq!(
        prologue,
        "Files included in this digest:\n- a.txt\n- b/c.txt\n\n"
    );
}

#[test]
fn test_prologue_tree() {
    let decorator = FileTreeDecorator {
        root: "root".to_string(),
        mode: PrologueMode::Tree,
    };
    let files = vec![
        "root/src/main.rs".to_string(),
        "root/Cargo.lock".to_string(),
        "root/src/test.lock".to_string(),
    ];
    let prologue = decorator.prologue(&files).unwrap();
    assert_eq!(
        prologue,
        "File structure:\n├── Cargo.lock\n└── src/\n    ├── main.rs\n    └── test.lock\n\n"
    );
}

#[test]
fn test_prologue_tree_marks_directories() {
    let decorator = FileTreeDecorator {
        root: "r".to_string(),
        mode: PrologueMode::Tree,
    };
    let files = vec!["r/only.txt".to_string()];
    let prologue = decorator.prologue(&files).unwrap();
    assert_eq!(prologue, "File structure:\n└── only.txt\n\n");
}
