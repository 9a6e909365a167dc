use files_to_prompt::language::initialize_ext_to_lang;
use files_to_prompt::run::{process_inputs, process_path, run};
use files_to_prompt::session::{Format, Session};
use files_to_prompt::tree::{Content, Directory, Entry, Input, Listing, Node, Options};
use files_to_prompt::walk::{order_entries, walk_directory, FailureKind};

fn file(name: &str, text: &str) -> Entry {
    Entry { name: name.to_string(), node: Node::File(Content::Text(text.to_string())) }
}

fn unreadable(name: &str, reason: &str) -> Entry {
    Entry { name: name.to_string(), node: Node::File(Content::Unreadable(reason.to_string())) }
}

fn other(name: &str) -> Entry {
    Entry { name: name.to_string(), node: Node::Other }
}

fn directory(gitignore: Option<&str>, entries: Vec<Entry>) -> Directory {
    Directory {
        gitignore: gitignore.map(|text| Content::Text(text.to_string())),
        listing: Listing::Entries(entries),
    }
}

fn dir(name: &str, gitignore: Option<&str>, entries: Vec<Entry>) -> Entry {
    Entry { name: name.to_string(), node: Node::Dir(directory(gitignore, entries)) }
}

fn input(path: &str, node: Node) -> Input {
    Input { path: path.to_string(), parent_gitignore: None, node: Some(node) }
}

fn strings(items: &[&str]) -> Vec<String> {
    items.iter().map(|item| item.to_string()).collect()
}

fn paths_of(output: &str) -> Vec<String> {
    let lines: Vec<&str> = output.lines().collect();
    let mut found = Vec::new();
    for i in 1..lines.len() {
        if lines[i] == "---" && (i == 1 || lines[i - 2] == "---") {
            found.push(lines[i - 1].to_string());
        }
    }
    found
}

fn walked(root: Directory, options: &Options) -> Vec<String> {
    let outcome = run(&vec![input("root", Node::Dir(root))], options);
    assert!(outcome.failure.is_none());
    paths_of(&outcome.output)
}

#[test]
fn walk_is_by_name_and_in_depth() {
    let root = directory(
        None,
        vec![
            file("zeta.txt", "z"),
            dir("beta", None, vec![file("two.txt", "2"), file("one.txt", "1")]),
            file("alpha.txt", "a"),
            dir("gamma", None, vec![dir("inner", None, vec![file("deep.txt", "d")]), file("a.txt", "g")]),
            file("Upper.txt", "u"),
        ],
    );
    assert_eq!(
        walked(root, &Options::new()),
        strings(&[
            "root/Upper.txt",
            "root/alpha.txt",
            "root/beta/one.txt",
            "root/beta/two.txt",
            "root/gamma/a.txt",
            "root/gamma/inner/deep.txt",
            "root/zeta.txt",
        ])
    );
}

#[test]
fn walk_does_not_depend_on_the_listing_order() {
    let names = ["d.txt", "a.txt", "c.txt", "b.txt", "e.txt"];
    let orders: [[usize; 5]; 4] = [[0, 1, 2, 3, 4], [4, 3, 2, 1, 0], [2, 0, 4, 1, 3], [1, 3, 0, 4, 2]];
    let mut outputs = Vec::new();
    for order in orders {
        let entries = order.iter().map(|&k| file(names[k], names[k])).collect();
        let outcome = run(&vec![input("root", Node::Dir(directory(None, entries)))], &Options::new());
        outputs.push(outcome.output);
    }
    assert_eq!(
        paths_of(&outputs[0]),
        strings(&["root/a.txt", "root/b.txt", "root/c.txt", "root/d.txt", "root/e.txt"])
    );
    for output in &outputs {
        assert_eq!(output, &outputs[0]);
    }
}

#[test]
fn order_of_entries_is_stable_for_equal_names() {
    let entries =
        vec![file("b", "first b"), file("a", "a"), file("b", "second b"), file(".h", "hidden")];
    let order = order_entries(&entries, &Vec::new(), &Options::new());
    assert_eq!(order, vec![1, 0, 2]);
    let mut options = Options::new();
    options.include_hidden = true;
    assert_eq!(order_entries(&entries, &Vec::new(), &options), vec![3, 1, 0, 2]);
    assert_eq!(order_entries(&Vec::new(), &Vec::new(), &options), Vec::<usize>::new());
}

#[test]
fn hidden_entries_are_left_out_at_every_depth() {
    let tree = || {
        directory(
            None,
            vec![
                file(".env", "secret"),
                file("shown.txt", "shown"),
                dir(".git", None, vec![file("config", "git config")]),
                dir(
                    "src",
                    None,
                    vec![file(".cache", "cache"), dir(".idea", None, vec![file("x.xml", "idea")]), file("lib.rs", "lib")],
                ),
            ],
        )
    };
    assert_eq!(walked(tree(), &Options::new()), strings(&["root/shown.txt", "root/src/lib.rs"]));
    let mut options = Options::new();
    options.include_hidden = true;
    assert_eq!(
        walked(tree(), &options),
        strings(&[
            "root/.env",
            "root/.git/config",
            "root/shown.txt",
            "root/src/.cache",
            "root/src/.idea/x.xml",
            "root/src/lib.rs",
        ])
    );
}

#[test]
fn gitignore_rules_hold_for_the_directory_and_below_only() {
    let root = directory(
        Some("top.txt"),
        vec![
            dir(
                "a",
                Some("inner.txt\n"),
                vec![
                    file("inner.txt", "a inner"),
                    file("top.txt", "a top"),
                    file("kept.txt", "a kept"),
                    dir("deep", None, vec![file("inner.txt", "deep inner"), file("ok.txt", "deep ok")]),
                ],
            ),
            dir("b", None, vec![file("inner.txt", "b inner"), file("top.txt", "b top")]),
            file("inner.txt", "root inner"),
            file("top.txt", "root top"),
        ],
    );
    assert_eq!(
        walked(root, &Options::new()),
        strings(&["root/a/deep/ok.txt", "root/a/kept.txt", "root/b/inner.txt", "root/inner.txt"])
    );
}

#[test]
fn gitignore_beside_an_input_holds_for_that_input_only() {
    let first = Input {
        path: "one".to_string(),
        parent_gitignore: Some(Content::Text("skip.txt".to_string())),
        node: Some(Node::Dir(directory(None, vec![file("skip.txt", "1"), file("keep.txt", "2")]))),
    };
    let second = input("two", Node::Dir(directory(None, vec![file("skip.txt", "3")])));
    let outcome = run(&vec![first, second], &Options::new());
    assert!(outcome.failure.is_none());
    assert_eq!(paths_of(&outcome.output), strings(&["one/keep.txt", "two/skip.txt"]));
}

#[test]
fn ignore_gitignore_leaves_every_gitignore_unread() {
    let tree = || Input {
        path: "root".to_string(),
        parent_gitignore: Some(Content::Unreadable("permission denied".to_string())),
        node: Some(Node::Dir(Directory {
            gitignore: Some(Content::Text("*".to_string())),
            listing: Listing::Entries(vec![
                file("a.txt", "a"),
                Entry {
                    name: "sub".to_string(),
                    node: Node::Dir(Directory {
                        gitignore: Some(Content::Unreadable("permission denied".to_string())),
                        listing: Listing::Entries(vec![file("b.txt", "b")]),
                    }),
                },
            ]),
        })),
    };
    let mut options = Options::new();
    options.ignore_gitignore = true;
    let outcome = run(&vec![tree()], &options);
    assert!(outcome.failure.is_none());
    assert_eq!(paths_of(&outcome.output), strings(&["root/a.txt", "root/sub/b.txt"]));

    let outcome = run(&vec![tree()], &Options::new());
    let failure = outcome.failure.unwrap();
    assert_eq!(failure.kind, FailureKind::UnreadableGitignore);
    assert_eq!(failure.path, "root");
    assert_eq!(failure.reason, "permission denied");
    assert_eq!(outcome.output, "");
}

#[test]
fn ignore_files_only_spares_directories() {
    let tree = || {
        directory(
            None,
            vec![
                dir("docs", None, vec![file("docs", "a file called docs"), file("guide.md", "guide")]),
                file("docs.txt", "docs text"),
                file("main.rs", "main"),
            ],
        )
    };
    let mut options = Options::new();
    options.ignore_patterns = strings(&["docs*"]);
    assert_eq!(walked(tree(), &options), strings(&["root/main.rs"]));
    options.ignore_files_only = true;
    assert_eq!(walked(tree(), &options), strings(&["root/docs/guide.md", "root/main.rs"]));
}

#[test]
fn ignore_pattern_leaves_no_trace() {
    let root = directory(None, vec![file("keep.md", "kept content"), file("skip.txt", "skipped content")]);
    let mut options = Options::new();
    options.ignore_patterns = strings(&["*.txt"]);
    let outcome = run(&vec![input("dir", Node::Dir(root))], &options);
    assert!(outcome.failure.is_none());
    assert_eq!(outcome.output, "dir/keep.md\n---\nkept content\n\n---\n");
    assert!(outcome.output.contains("keep.md"));
    assert!(!outcome.output.contains("skip.txt"));
    assert!(!outcome.output.contains("skipped content"));
    assert!(outcome.diagnostics.is_empty());
}

#[test]
fn xml_round_trip() {
    let root = directory(None, vec![file("b.py", "world"), file("a.txt", "hello")]);
    let mut options = Options::new();
    options.format = Format::Xml;
    let outcome = run(&vec![input("dir", Node::Dir(root))], &options);
    assert!(outcome.failure.is_none());
    assert_eq!(
        outcome.output,
        "<documents>\n\
         <document index=\"1\">\n<source>dir/a.txt</source>\n<document_content>\nhello\n</document_content>\n</document>\n\
         <document index=\"2\">\n<source>dir/b.py</source>\n<document_content>\nworld\n</document_content>\n</document>\n\
         </documents>\n"
    );
    assert_eq!(outcome.output.matches("<document index=").count(), 2);
}

#[test]
fn xml_index_skips_no_number_for_unread_files() {
    let root = directory(
        None,
        vec![file("a.txt", "a"), unreadable("b.bin", "invalid utf-8"), other("c.sock"), file("d.txt", "d")],
    );
    let mut options = Options::new();
    options.format = Format::Xml;
    let inputs = vec![
        Input { path: "missing".to_string(), parent_gitignore: None, node: None },
        input("dir", Node::Dir(root)),
        input("single.txt", Node::File(Content::Text("s".to_string()))),
    ];
    let outcome = run(&inputs, &options);
    assert!(outcome.failure.is_none());
    let indices: Vec<&str> =
        outcome.output.lines().filter(|line| line.starts_with("<document index=")).collect();
    assert_eq!(
        indices,
        vec!["<document index=\"1\">", "<document index=\"2\">", "<document index=\"3\">"]
    );
    assert!(!outcome.output.contains("b.bin"));
    assert_eq!(
        outcome.diagnostics,
        strings(&[
            "Path does not exist: missing",
            "Warning: Skipping file dir/b.bin due to error: invalid utf-8",
        ])
    );
}

#[test]
fn xml_wrapper_needs_an_input() {
    let mut options = Options::new();
    options.format = Format::Xml;
    let outcome = run(&Vec::new(), &options);
    assert_eq!(outcome.output, "");
    assert!(outcome.failure.is_none());

    let missing = Input { path: "nowhere".to_string(), parent_gitignore: None, node: None };
    let outcome = run(&vec![missing], &options);
    assert_eq!(outcome.output, "<documents>\n</documents>\n");
    assert_eq!(outcome.diagnostics, strings(&["Path does not exist: nowhere"]));
}

#[test]
fn file_given_directly_passes_every_filter() {
    let mut options = Options::new();
    options.extensions = strings(&["py"]);
    options.ignore_patterns = strings(&["*"]);
    let hidden = Input {
        path: "dir/.hidden.txt".to_string(),
        parent_gitignore: Some(Content::Text("*".to_string())),
        node: Some(Node::File(Content::Text("still here".to_string()))),
    };
    let outcome = run(&vec![hidden], &options);
    assert!(outcome.failure.is_none());
    assert_eq!(outcome.output, "dir/.hidden.txt\n---\nstill here\n\n---\n");
}

#[test]
fn unreadable_directory_stops_the_run() {
    let root = directory(
        None,
        vec![
            file("a.txt", "a"),
            Entry {
                name: "locked".to_string(),
                node: Node::Dir(Directory {
                    gitignore: None,
                    listing: Listing::Unreadable("permission denied".to_string()),
                }),
            },
            file("z.txt", "z"),
        ],
    );
    let mut options = Options::new();
    options.format = Format::Xml;
    let inputs = vec![input("root", Node::Dir(root)), input("later.txt", Node::File(Content::Text("l".to_string())))];
    let outcome = run(&inputs, &options);
    let failure = outcome.failure.unwrap();
    assert_eq!(failure.kind, FailureKind::UnreadableDirectory);
    assert_eq!(failure.path, "root/locked");
    assert_eq!(failure.reason, "permission denied");
    assert_eq!(
        outcome.output,
        "<documents>\n<document index=\"1\">\n<source>root/a.txt</source>\n<document_content>\na\n</document_content>\n</document>\n"
    );
}

#[test]
fn unreadable_directory_that_is_passed_over_is_no_failure() {
    let root = directory(
        Some("locked"),
        vec![
            file("a.txt", "a"),
            Entry {
                name: "locked".to_string(),
                node: Node::Dir(Directory {
                    gitignore: None,
                    listing: Listing::Unreadable("permission denied".to_string()),
                }),
            },
        ],
    );
    assert_eq!(walked(root, &Options::new()), strings(&["root/a.txt"]));
}

#[test]
fn unreadable_gitignore_stops_the_walk_of_its_directory() {
    let table = initialize_ext_to_lang();
    let mut session = Session::new();
    let sub = Directory {
        gitignore: Some(Content::Unreadable("is a directory".to_string())),
        listing: Listing::Entries(vec![file("x.txt", "x")]),
    };
    let root = directory(None, vec![file("a.txt", "a"), Entry { name: "sub".to_string(), node: Node::Dir(sub) }]);
    let result = walk_directory(&root, "root", &Vec::new(), &Options::new(), &table, &mut session);
    let error = result.unwrap_err();
    assert_eq!(error.kind, FailureKind::UnreadableGitignore);
    assert_eq!(error.path, "root/sub");
    assert_eq!(error.reason, "is a directory");
    assert_eq!(session.output(), "root/a.txt\n---\na\n\n---\n");
}

#[test]
fn walk_directory_inherits_rules() {
    let table = initialize_ext_to_lang();
    let root = || directory(None, vec![file("a.txt", "a"), file("b.md", "b")]);
    let mut session = Session::new();
    let result = walk_directory(&root(), "", &strings(&["*.md"]), &Options::new(), &table, &mut session);
    assert!(result.is_ok());
    assert_eq!(session.output(), "a.txt\n---\na\n\n---\n");

    let mut session = Session::new();
    let result = walk_directory(&root(), "here/", &Vec::new(), &Options::new(), &table, &mut session);
    assert!(result.is_ok());
    assert_eq!(session.output(), "here/a.txt\n---\na\n\n---\nhere/b.md\n---\nb\n\n---\n");
}

#[test]
fn extension_filter_is_exact() {
    let tree = || {
        directory(
            None,
            vec![
                file("a.py", "a"),
                file("b.PY", "b"),
                file("c.pyc", "c"),
                file("py", "d"),
                file(".py", "e"),
                file("f.tar.py", "f"),
            ],
        )
    };
    let mut options = Options::new();
    options.include_hidden = true;
    options.extensions = strings(&["py"]);
    assert_eq!(walked(tree(), &options), strings(&["root/a.py", "root/f.tar.py"]));
    options.extensions = strings(&[""]);
    assert_eq!(walked(tree(), &options), strings(&["root/.py", "root/py"]));
}

#[test]
fn process_path_handles_each_kind() {
    let table = initialize_ext_to_lang();
    let options = Options::new();
    let mut session = Session::new();
    let text = Node::File(Content::Text("t".to_string()));
    assert!(process_path(&text, ".hidden", &strings(&["*"]), &options, &table, &mut session).is_ok());
    assert_eq!(session.output(), ".hidden\n---\nt\n\n---\n");

    let bad = Node::File(Content::Unreadable("broken".to_string()));
    assert!(process_path(&bad, "bad.bin", &Vec::new(), &options, &table, &mut session).is_ok());
    assert_eq!(session.diagnostics(), strings(&["Warning: Skipping file bad.bin due to error: broken"]));

    assert!(process_path(&Node::Other, "pipe", &Vec::new(), &options, &table, &mut session).is_ok());
    let tree = Node::Dir(directory(None, vec![file("in.txt", "i")]));
    assert!(process_path(&tree, "d", &Vec::new(), &options, &table, &mut session).is_ok());
    assert_eq!(session.output(), ".hidden\n---\nt\n\n---\nd/in.txt\n---\ni\n\n---\n");
}

#[test]
fn process_inputs_stops_at_the_first_failure() {
    let table = initialize_ext_to_lang();
    let mut session = Session::new();
    let inputs = vec![
        input("a.txt", Node::File(Content::Text("a".to_string()))),
        input(
            "locked",
            Node::Dir(Directory { gitignore: None, listing: Listing::Unreadable("denied".to_string()) }),
        ),
        input("b.txt", Node::File(Content::Text("b".to_string()))),
    ];
    let error = process_inputs(&inputs, &Options::new(), &table, &mut session).unwrap_err();
    assert_eq!(error.kind, FailureKind::UnreadableDirectory);
    assert_eq!(error.path, "locked");
    assert_eq!(session.output(), "a.txt\n---\na\n\n---\n");
}

#[test]
fn invalid_rule_excludes_everything() {
    let root = directory(Some("["), vec![file("a.txt", "a"), dir("sub", None, vec![file("b.txt", "b")])]);
    assert_eq!(walked(root, &Options::new()), Vec::<String>::new());
}

#[test]
fn markdown_with_line_numbers() {
    let root = directory(None, vec![file("s.sh", "echo `date`\nexit\n")]);
    let mut options = Options::new();
    options.format = Format::Markdown;
    options.line_numbers = true;
    let outcome = run(&vec![input("bin", Node::Dir(root))], &options);
    assert_eq!(outcome.output, "bin/s.sh\n```bash\n1  echo `date`\n2  exit\n```\n");
}
