use files_to_prompt::run::{run, split_paths, Outcome};
use files_to_prompt::session::Format;
use files_to_prompt::tree::{Content, Directory, Entry, Input, Listing, Node, Options};

fn file(name: &str, text: &str) -> Entry {
    Entry { name: name.to_string(), node: Node::File(Content::Text(text.to_string())) }
}

fn binary(name: &str) -> Entry {
    Entry {
        name: name.to_string(),
        node: Node::File(Content::Unreadable("stream did not contain valid UTF-8".to_string())),
    }
}

fn directory(gitignore: Option<&str>, entries: Vec<Entry>) -> Directory {
    Directory {
        gitignore: gitignore.map(|text| Content::Text(text.to_string())),
        listing: Listing::Entries(entries),
    }
}

fn dir(name: &str, gitignore: Option<&str>, entries: Vec<Entry>) -> Entry {
    Entry { name: name.to_string(), node: Node::Dir(directory(gitignore, entries)) }
}

fn dir_input(path: &str, gitignore: Option<&str>, entries: Vec<Entry>) -> Input {
    Input {
        path: path.to_string(),
        parent_gitignore: None,
        node: Some(Node::Dir(directory(gitignore, entries))),
    }
}

fn file_input(path: &str, text: &str) -> Input {
    Input {
        path: path.to_string(),
        parent_gitignore: None,
        node: Some(Node::File(Content::Text(text.to_string()))),
    }
}

fn strings(items: &[&str]) -> Vec<String> {
    items.iter().map(|item| item.to_string()).collect()
}

fn finished(inputs: Vec<Input>, options: &Options) -> Outcome {
    let outcome = run(&inputs, options);
    assert!(outcome.failure.is_none());
    outcome
}

fn sources(output: &str) -> Vec<String> {
    let mut found = Vec::new();
    for line in output.lines() {
        if let Some(rest) = line.strip_prefix("<source>") {
            if let Some(path) = rest.strip_suffix("</source>") {
                found.push(path.to_string());
            }
        }
    }
    found
}

#[test]
fn test_basic_functionality() {
    let inputs = vec![dir_input(
        "test_dir",
        None,
        vec![file("file1.txt", "Contents of file1"), file("file2.txt", "Contents of file2")],
    )];
    let outcome = finished(inputs, &Options::new());
    let stdout = outcome.output;
    assert!(stdout.contains("test_dir/file1.txt"));
    assert!(stdout.contains("Contents of file1"));
    assert!(stdout.contains("test_dir/file2.txt"));
    assert!(stdout.contains("Contents of file2"));
}

#[test]
fn test_include_hidden() {
    let tree = || vec![dir_input("test_dir", None, vec![file(".hidden.txt", "Contents of hidden file")])];

    let outcome = finished(tree(), &Options::new());
    assert!(!outcome.output.contains("test_dir/.hidden.txt"));

    let mut options = Options::new();
    options.include_hidden = true;
    let outcome = finished(tree(), &options);
    assert!(outcome.output.contains("test_dir/.hidden.txt"));
    assert!(outcome.output.contains("Contents of hidden file"));
}

fn gitignore_tree() -> Vec<Input> {
    vec![dir_input(
        "test_dir",
        Some("ignored.txt"),
        vec![
            dir("nested_include", None, vec![file("included2.txt", "This nested file should be included")]),
            dir(
                "nested_ignore",
                Some("nested_ignore.txt"),
                vec![
                    file(".gitignore", "nested_ignore.txt"),
                    file("nested_ignore.txt", "This nested file should not be included"),
                    file("actually_include.txt", "This nested file should actually be included"),
                ],
            ),
            file(".gitignore", "ignored.txt"),
            file("ignored.txt", "This file should be ignored"),
            file("included.txt", "This file should be included"),
        ],
    )]
}

#[test]
fn test_ignore_gitignore() {
    let mut options = Options::new();
    options.format = Format::Xml;
    let outcome = finished(gitignore_tree(), &options);
    let mut filenames = sources(&outcome.output);
    filenames.sort();
    let mut expected = strings(&[
        "test_dir/included.txt",
        "test_dir/nested_include/included2.txt",
        "test_dir/nested_ignore/actually_include.txt",
    ]);
    expected.sort();
    assert_eq!(filenames, expected);

    options.ignore_gitignore = true;
    let outcome = finished(gitignore_tree(), &options);
    let mut filenames = sources(&outcome.output);
    filenames.sort();
    let mut expected = strings(&[
        "test_dir/included.txt",
        "test_dir/ignored.txt",
        "test_dir/nested_include/included2.txt",
        "test_dir/nested_ignore/nested_ignore.txt",
        "test_dir/nested_ignore/actually_include.txt",
    ]);
    expected.sort();
    assert_eq!(filenames, expected);
}

#[test]
fn test_multiple_paths() {
    let inputs = vec![
        dir_input("test_dir1", None, vec![file("file1.txt", "Contents of file1")]),
        dir_input("test_dir2", None, vec![file("file2.txt", "Contents of file2")]),
        file_input("single_file.txt", "Contents of single file"),
    ];
    let stdout = finished(inputs, &Options::new()).output;
    assert!(stdout.contains("test_dir1/file1.txt"));
    assert!(stdout.contains("Contents of file1"));
    assert!(stdout.contains("test_dir2/file2.txt"));
    assert!(stdout.contains("Contents of file2"));
    assert!(stdout.contains("single_file.txt"));
    assert!(stdout.contains("Contents of single file"));
}

#[test]
fn test_ignore_patterns() {
    let flat = || {
        vec![dir_input(
            "test_dir",
            None,
            vec![
                file("file_to_ignore.txt", "This file should be ignored due to ignore patterns"),
                file("file_to_include.txt", "This file should be included"),
            ],
        )]
    };
    let mut options = Options::new();
    options.ignore_patterns = strings(&["*.txt"]);
    let stdout = finished(flat(), &options).output;
    assert!(!stdout.contains("test_dir/file_to_ignore.txt"));
    assert!(!stdout.contains("This file should be ignored due to ignore patterns"));
    assert!(!stdout.contains("test_dir/file_to_include.txt"));

    let deep = || {
        vec![dir_input(
            "test_dir",
            None,
            vec![
                file("file_to_ignore.txt", "This file should be ignored due to ignore patterns"),
                file("file_to_include.txt", "This file should be included"),
                dir(
                    "test_subdir",
                    None,
                    vec![file(
                        "any_file.txt",
                        "This entire subdirectory should be ignored due to ignore patterns",
                    )],
                ),
            ],
        )]
    };
    options.ignore_patterns = strings(&["*subdir*"]);
    let stdout = finished(deep(), &options).output;
    assert!(!stdout.contains("test_dir/test_subdir/any_file.txt"));
    assert!(!stdout.contains("This entire subdirectory should be ignored due to ignore patterns"));
    assert!(stdout.contains("test_dir/file_to_include.txt"));
    assert!(stdout.contains("This file should be included"));

    options.ignore_files_only = true;
    let stdout = finished(deep(), &options).output;
    assert!(stdout.contains("test_dir/test_subdir/any_file.txt"));
}

#[test]
fn test_specific_extensions() {
    let inputs = vec![dir_input(
        "test_dir",
        None,
        vec![
            file("one.txt", "This is one.txt"),
            file("one.py", "This is one.py"),
            dir(
                "two",
                None,
                vec![file("two.txt", "This is two/two.txt"), file("two.py", "This is two/two.py")],
            ),
            file("three.md", "This is three.md"),
        ],
    )];
    let mut options = Options::new();
    options.extensions = strings(&["py", "md"]);
    let stdout = finished(inputs, &options).output;
    assert!(!stdout.contains(".txt"));
    assert!(stdout.contains("test_dir/one.py"));
    assert!(stdout.contains("test_dir/two/two.py"));
    assert!(stdout.contains("test_dir/three.md"));
}

fn mixed_tree() -> Vec<Input> {
    let rules = "ignored_in_gitignore.txt\n.hidden_ignored_in_gitignore.txt";
    vec![
        dir_input(
            "test_dir",
            Some(rules),
            vec![
                file(".gitignore", rules),
                file("ignored_in_gitignore.txt", "This file should be ignored by .gitignore"),
                file(
                    ".hidden_ignored_in_gitignore.txt",
                    "This hidden file should be ignored by .gitignore",
                ),
                file("included.txt", "This file should be included"),
                file(".hidden_included.txt", "This hidden file should be included"),
            ],
        ),
        file_input("single_file.txt", "Contents of single file"),
    ]
}

#[test]
fn test_mixed_paths_with_options() {
    let mut options = Options::new();
    let stdout = finished(mixed_tree(), &options).output;
    assert!(!stdout.contains("test_dir/ignored_in_gitignore.txt"));
    assert!(!stdout.contains("test_dir/.hidden_ignored_in_gitignore.txt"));
    assert!(stdout.contains("test_dir/included.txt"));
    assert!(!stdout.contains("test_dir/.hidden_included.txt"));
    assert!(stdout.contains("single_file.txt"));
    assert!(stdout.contains("Contents of single file"));

    options.include_hidden = true;
    let stdout = finished(mixed_tree(), &options).output;
    assert!(!stdout.contains("test_dir/ignored_in_gitignore.txt"));
    assert!(!stdout.contains("test_dir/.hidden_ignored_in_gitignore.txt"));
    assert!(stdout.contains("test_dir/included.txt"));
    assert!(stdout.contains("test_dir/.hidden_included.txt"));
    assert!(stdout.contains("single_file.txt"));

    options.include_hidden = false;
    options.ignore_gitignore = true;
    let stdout = finished(mixed_tree(), &options).output;
    assert!(stdout.contains("test_dir/ignored_in_gitignore.txt"));
    assert!(!stdout.contains("test_dir/.hidden_ignored_in_gitignore.txt"));
    assert!(stdout.contains("test_dir/included.txt"));
    assert!(!stdout.contains("test_dir/.hidden_included.txt"));
    assert!(stdout.contains("single_file.txt"));

    options.include_hidden = true;
    let stdout = finished(mixed_tree(), &options).output;
    assert!(stdout.contains("test_dir/ignored_in_gitignore.txt"));
    assert!(stdout.contains("test_dir/.hidden_ignored_in_gitignore.txt"));
    assert!(stdout.contains("test_dir/included.txt"));
    assert!(stdout.contains("test_dir/.hidden_included.txt"));
    assert!(stdout.contains("single_file.txt"));
}

#[test]
fn test_binary_file_warning() {
    let inputs = vec![dir_input(
        "test_dir",
        None,
        vec![binary("binary_file.bin"), file("text_file.txt", "This is a text file")],
    )];
    let outcome = finished(inputs, &Options::new());
    let stdout = outcome.output;
    assert!(stdout.contains("test_dir/text_file.txt"));
    assert!(stdout.contains("This is a text file"));
    assert!(!stdout.contains("\ntest_dir/binary_file.bin"));
    assert!(!stdout.contains("test_dir/binary_file.bin"));
    assert_eq!(
        outcome.diagnostics,
        strings(&[
            "Warning: Skipping file test_dir/binary_file.bin due to error: stream did not contain valid UTF-8"
        ])
    );
}

#[test]
fn test_xml_format_dir() {
    let expected = "<documents>
<document index=\"1\">
<source>test_dir/file1.txt</source>
<document_content>
Contents of file1.txt
</document_content>
</document>
<document index=\"2\">
<source>test_dir/file2.txt</source>
<document_content>
Contents of file2.txt
</document_content>
</document>
</documents>
";
    let mut options = Options::new();
    options.format = Format::Xml;
    let inputs = vec![dir_input(
        "test_dir",
        None,
        vec![file("file2.txt", "Contents of file2.txt"), file("file1.txt", "Contents of file1.txt")],
    )];
    assert_eq!(finished(inputs, &options).output, expected);

    let inputs = vec![
        file_input("test_dir/file1.txt", "Contents of file1.txt"),
        file_input("test_dir/file2.txt", "Contents of file2.txt"),
    ];
    assert_eq!(finished(inputs, &options).output, expected);
}

#[test]
fn test_output_option() {
    let inputs = vec![dir_input(
        "test_dir",
        None,
        vec![file("file1.txt", "Contents of file1.txt"), file("file2.txt", "Contents of file2.txt")],
    )];
    let expected = "test_dir/file1.txt
---
Contents of file1.txt

---
test_dir/file2.txt
---
Contents of file2.txt

---
";
    let outcome = finished(inputs, &Options::new());
    assert_eq!(outcome.output, expected);
    assert!(outcome.diagnostics.is_empty());
}

#[test]
fn test_line_numbers() {
    let test_content = "First line\nSecond line\nThird line\nFourth line\n";
    let tree = || vec![dir_input("test_dir", None, vec![file("multiline.txt", test_content)])];

    let mut options = Options::new();
    let stdout = finished(tree(), &options).output;
    assert!(!stdout.contains("1  First line"));
    assert!(stdout.contains(test_content));

    options.line_numbers = true;
    let stdout = finished(tree(), &options).output;
    assert!(stdout.contains("1  First line"));
    assert!(stdout.contains("2  Second line"));
    assert!(stdout.contains("3  Third line"));
    assert!(stdout.contains("4  Fourth line"));
    assert_eq!(
        stdout,
        "test_dir/multiline.txt\n---\n1  First line\n2  Second line\n3  Third line\n4  Fourth line\n\n---\n"
    );
}

#[test]
fn test_reading_paths_from_stdin() {
    let paths = split_paths("test_dir1/file1.txt\ntest_dir2/file2.txt", false);
    assert_eq!(paths, strings(&["test_dir1/file1.txt", "test_dir2/file2.txt"]));

    let paths = split_paths("test_dir1/file1.txt\0test_dir2/file2.txt", true);
    assert_eq!(paths, strings(&["test_dir1/file1.txt", "test_dir2/file2.txt"]));

    let inputs = vec![
        file_input(&paths[0], "Contents of file1"),
        file_input(&paths[1], "Contents of file2"),
    ];
    let stdout = finished(inputs, &Options::new()).output;
    assert!(stdout.contains("test_dir1/file1.txt"));
    assert!(stdout.contains("Contents of file1"));
    assert!(stdout.contains("test_dir2/file2.txt"));
    assert!(stdout.contains("Contents of file2"));
}

#[test]
fn test_paths_from_arguments_and_stdin() {
    let piped = split_paths("test_dir2/file2.txt", false);
    assert_eq!(piped, strings(&["test_dir2/file2.txt"]));
    let inputs = vec![
        dir_input("test_dir1", None, vec![file("file1.txt", "Contents of file1")]),
        file_input(&piped[0], "Contents of file2"),
    ];
    let stdout = finished(inputs, &Options::new()).output;
    assert!(stdout.contains("test_dir1/file1.txt"));
    assert!(stdout.contains("Contents of file1"));
    assert!(stdout.contains("test_dir2/file2.txt"));
    assert!(stdout.contains("Contents of file2"));
}

#[test]
fn test_markdown() {
    let inputs = vec![dir_input(
        "test_dir",
        None,
        vec![
            file("python.py", "This is python"),
            file("python_with_quad_backticks.py", "This is python with ```` in it already"),
            file("code.js", "This is javascript"),
            file("code.unknown", "This is an unknown file type"),
        ],
    )];
    let mut options = Options::new();
    options.format = Format::Markdown;
    let actual = finished(inputs, &options).output;
    let expected = "test_dir/code.js
```javascript
This is javascript
```
test_dir/code.unknown
```
This is an unknown file type
```
test_dir/python.py
```python
This is python
```
test_dir/python_with_quad_backticks.py
`````python
This is python with ```` in it already
`````
";
    assert_eq!(expected, actual);
}
