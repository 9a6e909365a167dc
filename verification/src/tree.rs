//! A directory tree as a value: what the walk reads of the file system,
//! taken down before it starts.

use vstd::prelude::*;

verus! {

/// What reading a file gave.
#[derive(Debug)]
pub enum Content {
    /// The file's text.
    Text(String),
    /// The file could not be read as text; the reason is given.
    Unreadable(String),
}

/// What listing a directory gave.
#[derive(Debug)]
pub enum Listing {
    /// The entries of the directory, in the order in which they were met.
    Entries(Vec<Entry>),
    /// The directory could not be listed; the reason is given.
    Unreadable(String),
}

/// A directory.
#[derive(Debug)]
pub struct Directory {
    /// What reading the directory's own `.gitignore` file gave; `None` where
    /// it has no such file.
    pub gitignore: Option<Content>,
    /// The entries of the directory.
    pub listing: Listing,
}

/// What a path leads to.
#[derive(Debug)]
pub enum Node {
    /// A file.
    File(Content),
    /// A directory.
    Dir(Directory),
    /// Something that is neither.
    Other,
}

/// An entry of a directory.
#[derive(Debug)]
pub struct Entry {
    /// The entry's name within its directory.
    pub name: String,
    /// What the entry is.
    pub node: Node,
}

/// A path that the run was asked to process.
#[derive(Debug)]
pub struct Input {
    /// The path as it was given.
    pub path: String,
    /// What reading the `.gitignore` file beside the path gave; `None` where
    /// there is no such file.
    pub parent_gitignore: Option<Content>,
    /// What the path leads to; `None` where it leads to nothing.
    pub node: Option<Node>,
}

/// The options of a run.
#[derive(Debug)]
pub struct Options {
    /// The extensions of the files that a walk yields; all files where the
    /// list is empty.
    pub extensions: Vec<String>,
    /// Whether entries whose names start with a dot are walked.
    pub include_hidden: bool,
    /// Whether the ignore patterns leave directories alone.
    pub ignore_files_only: bool,
    /// Whether `.gitignore` files are left unread.
    pub ignore_gitignore: bool,
    /// Patterns for the names of entries that a walk passes over.
    pub ignore_patterns: Vec<String>,
    /// The envelope of the documents.
    pub format: crate::session::Format,
    /// Whether the lines of a document are numbered.
    pub line_numbers: bool,
}

/// The options of a run, as the contracts read them.
pub struct OptionsView {
    pub extensions: Seq<Seq<char>>,
    pub include_hidden: bool,
    pub ignore_files_only: bool,
    pub ignore_gitignore: bool,
    pub ignore_patterns: Seq<Seq<char>>,
    pub format: crate::session::Format,
    pub line_numbers: bool,
}

impl View for Options {
    type V = OptionsView;

    open spec fn view(&self) -> OptionsView {
        OptionsView {
            extensions: crate::text::texts(self.extensions@),
            include_hidden: self.include_hidden,
            ignore_files_only: self.ignore_files_only,
            ignore_gitignore: self.ignore_gitignore,
            ignore_patterns: crate::text::texts(self.ignore_patterns@),
            format: self.format,
            line_numbers: self.line_numbers,
        }
    }
}

impl Options {
    /// The options of a run that was asked for nothing: every file, hidden
    /// ones left out, `.gitignore` files heeded, the default envelope, no
    /// line numbers.
    pub fn new() -> (options: Options)
        ensures
            options@ == (OptionsView {
                extensions: Seq::empty(),
                include_hidden: false,
                ignore_files_only: false,
                ignore_gitignore: false,
                ignore_patterns: Seq::empty(),
                format: crate::session::Format::Default,
                line_numbers: false,
            }),
    {
        let options = Options {
            extensions: Vec::new(),
            include_hidden: false,
            ignore_files_only: false,
            ignore_gitignore: false,
            ignore_patterns: Vec::new(),
            format: crate::session::Format::Default,
            line_numbers: false,
        };
        proof {
            assert(crate::text::texts(options.extensions@) == Seq::<Seq<char>>::empty());
            assert(crate::text::texts(options.ignore_patterns@) == Seq::<Seq<char>>::empty());
        }
        options
    }
}

} // verus!
