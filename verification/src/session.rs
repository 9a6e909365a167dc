//! One run's output: the text written so far, the diagnostics, the index of
//! the next document, and the three envelopes a document can be written in.

use vstd::prelude::*;
use vstd::string::StringExecFns;
use crate::decimal::decimal;
use crate::fence::{backticks, fence_for, fence_length};
use crate::index::DocumentIndex;
use crate::language::{language_for, language_of, pairs};
use crate::numbering::{add_line_numbers, numbered};
use crate::paths::{extension, extension_of};
use crate::text::{append_chars, chars_of, clone_strings, string_of, texts};

verus! {

/// The envelope that documents are written in.
#[derive(Clone, Copy, Debug, PartialEq, Eq, Structural)]
pub enum Format {
    /// The path, a rule, the content, an empty line and a rule.
    Default,
    /// Tags around the path and the content, with the document's index.
    Xml,
    /// The path and a fenced code block.
    Markdown,
}

impl Format {
    /// The envelope that two switches ask for. Where both are set the tagged
    /// envelope wins.
    pub open spec fn chosen(cxml: bool, markdown: bool) -> Format {
        if cxml {
            Format::Xml
        } else if markdown {
            Format::Markdown
        } else {
            Format::Default
        }
    }

    /// The envelope that two switches ask for.
    pub fn from_flags(cxml: bool, markdown: bool) -> (format: Format)
        ensures
            format == Format::chosen(cxml, markdown),
    {
        if cxml {
            Format::Xml
        } else if markdown {
            Format::Markdown
        } else {
            Format::Default
        }
    }
}

/// `text` as a line of the output: with a line feed behind it.
pub open spec fn line(text: Seq<char>) -> Seq<char> {
    text.push('\n')
}

/// The content as it stands in a document: numbered where line numbers are
/// asked for, else as it is.
pub open spec fn shown(content: Seq<char>, line_numbers: bool) -> Seq<char> {
    if line_numbers {
        numbered(content)
    } else {
        content
    }
}

/// A document in the default envelope.
pub open spec fn default_document(
    path: Seq<char>,
    content: Seq<char>,
    line_numbers: bool,
) -> Seq<char> {
    line(path) + line("---"@) + line(shown(content, line_numbers)) + line(Seq::empty()) + line(
        "---"@,
    )
}

/// The document with the given index in the tagged envelope.
pub open spec fn xml_document(
    index: nat,
    path: Seq<char>,
    content: Seq<char>,
    line_numbers: bool,
) -> Seq<char> {
    line("<document index=\""@ + decimal(index) + "\">"@) + line(
        "<source>"@ + path + "</source>"@,
    ) + line("<document_content>"@) + line(shown(content, line_numbers)) + line(
        "</document_content>"@,
    ) + line("</document>"@)
}

/// A document in the Markdown envelope. The fence is measured on the content
/// as it was read; the language is the one that `table` gives for the
/// path's extension.
pub open spec fn markdown_document(
    path: Seq<char>,
    content: Seq<char>,
    line_numbers: bool,
    table: Seq<(Seq<char>, Seq<char>)>,
) -> Seq<char> {
    line(path) + line(backticks(fence_length(content)) + language_of(table, extension(path)))
        + line(shown(content, line_numbers)) + line(backticks(fence_length(content)))
}

/// A document in the envelope `format`. Only the tagged envelope shows the
/// index.
pub open spec fn document(
    format: Format,
    index: nat,
    path: Seq<char>,
    content: Seq<char>,
    line_numbers: bool,
    table: Seq<(Seq<char>, Seq<char>)>,
) -> Seq<char> {
    match format {
        Format::Xml => xml_document(index, path, content, line_numbers),
        Format::Markdown => markdown_document(path, content, line_numbers, table),
        Format::Default => default_document(path, content, line_numbers),
    }
}

/// The diagnostic for a file that could not be read.
pub open spec fn skip_warning(path: Seq<char>, reason: Seq<char>) -> Seq<char> {
    "Warning: Skipping file "@ + path + " due to error: "@ + reason
}

/// The diagnostic for a path that names nothing.
pub open spec fn missing_warning(path: Seq<char>) -> Seq<char> {
    "Path does not exist: "@ + path
}

/// What a session holds.
pub struct SessionView {
    /// The index that the next document in the tagged envelope gets.
    pub next_index: nat,
    /// All that was written to the output, in order.
    pub output: Seq<char>,
    /// The diagnostics, in order.
    pub diagnostics: Seq<Seq<char>>,
}

impl SessionView {
    /// A session in which nothing has happened.
    pub open spec fn fresh() -> SessionView {
        SessionView { next_index: 1, output: Seq::empty(), diagnostics: Seq::empty() }
    }

    /// The session after `text` was written to the output.
    pub open spec fn wrote(self, text: Seq<char>) -> SessionView {
        SessionView { output: self.output + text, ..self }
    }

    /// The session after a diagnostic.
    pub open spec fn warned(self, message: Seq<char>) -> SessionView {
        SessionView { diagnostics: self.diagnostics.push(message), ..self }
    }

    /// The session after a document was written: the document stands at the
    /// end of the output, and in the tagged envelope the index has moved on
    /// by one.
    pub open spec fn printed(
        self,
        format: Format,
        path: Seq<char>,
        content: Seq<char>,
        line_numbers: bool,
        table: Seq<(Seq<char>, Seq<char>)>,
    ) -> SessionView {
        SessionView {
            next_index: if format == Format::Xml {
                self.next_index + 1
            } else {
                self.next_index
            },
            output: self.output + document(
                format,
                self.next_index,
                path,
                content,
                line_numbers,
                table,
            ),
            diagnostics: self.diagnostics,
        }
    }
}

/// The state of one run: what was written, what was reported, and the index
/// of the next document.
pub struct Session {
    index: DocumentIndex,
    output: String,
    diagnostics: Vec<String>,
}

impl View for Session {
    type V = SessionView;

    closed spec fn view(&self) -> SessionView {
        SessionView {
            next_index: self.index.value(),
            output: self.output@,
            diagnostics: texts(self.diagnostics@),
        }
    }
}

impl Session {
    /// A session in which nothing has happened: the next index is 1.
    pub fn new() -> (session: Session)
        ensures
            session@ == SessionView::fresh(),
    {
        let session = Session {
            index: DocumentIndex::new(),
            output: String::new(),
            diagnostics: Vec::new(),
        };
        proof {
            assert(texts(session.diagnostics@) == Seq::<Seq<char>>::empty());
        }
        session
    }

    /// All that was written to the output.
    pub fn output(&self) -> (text: &str)
        ensures
            text@ == self@.output,
    {
        self.output.as_str()
    }

    /// The diagnostics, in order.
    pub fn diagnostics(&self) -> (list: Vec<String>)
        ensures
            texts(list@) == self@.diagnostics,
    {
        clone_strings(&self.diagnostics)
    }

    /// The index that the next document in the tagged envelope gets, in
    /// decimal.
    pub fn next_index(&self) -> (text: String)
        ensures
            text@ == decimal(self@.next_index),
    {
        string_of(&self.index.digits())
    }

    /// Ends the session and hands out all that was written to the output,
    /// and the diagnostics.
    pub fn into_parts(self) -> (parts: (String, Vec<String>))
        ensures
            parts.0@ == self@.output,
            texts(parts.1@) == self@.diagnostics,
    {
        (self.output, self.diagnostics)
    }

    /// Adds a diagnostic.
    pub fn warn(&mut self, message: String)
        ensures
            final(self)@ == old(self)@.warned(message@),
    {
        proof {
            assert(texts(self.diagnostics@.push(message)) == texts(self.diagnostics@).push(
                message@,
            ));
        }
        self.diagnostics.push(message);
    }

    /// Reports that the file at `path` is left out because it could not be
    /// read.
    pub fn skip(&mut self, path: &str, reason: &str)
        ensures
            final(self)@ == old(self)@.warned(skip_warning(path@, reason@)),
    {
        let mut message = String::from_str("Warning: Skipping file ");
        message.append(path);
        message.append(" due to error: ");
        message.append(reason);
        self.warn(message);
    }

    /// Reports that `path` names nothing.
    pub fn report_missing(&mut self, path: &str)
        ensures
            final(self)@ == old(self)@.warned(missing_warning(path@)),
    {
        let mut message = String::from_str("Path does not exist: ");
        message.append(path);
        self.warn(message);
    }
}

/// Writes `content` to the output as one line.
pub fn write_output(content: &str, session: &mut Session)
    ensures
        final(session)@ == old(session)@.wrote(line(content@)),
{
    session.output.append(content);
    session.output.push('\n');
    proof {
        assert(session.output@ == old(session).output@ + line(content@));
    }
}

fn write_shown(content: &str, session: &mut Session, line_numbers: bool)
    ensures
        final(session)@ == old(session)@.wrote(line(shown(content@, line_numbers))),
{
    if line_numbers {
        let numbered = add_line_numbers(content);
        write_output(numbered.as_str(), session);
    } else {
        write_output(content, session);
    }
}

/// Writes the document in the default envelope: the path, a rule of three
/// dashes, the content, an empty line and a rule.
pub fn print_default(path: &str, content: &str, session: &mut Session, line_numbers: bool)
    ensures
        final(session)@ == old(session)@.wrote(default_document(path@, content@, line_numbers)),
{
    write_output(path, session);
    write_output("---", session);
    write_shown(content, session, line_numbers);
    write_output("", session);
    write_output("---", session);
    proof {
        reveal_strlit("");
        assert(""@ == Seq::<char>::empty());
        assert(session@.output == old(session)@.output + default_document(
            path@,
            content@,
            line_numbers,
        ));
    }
}

/// Writes the document in the tagged envelope. It gets the session's next
/// index, and the index moves on by one.
pub fn print_as_xml(path: &str, content: &str, session: &mut Session, line_numbers: bool)
    ensures
        final(session)@ == (SessionView {
            next_index: old(session)@.next_index + 1,
            ..old(session)@.wrote(
                xml_document(old(session)@.next_index, path@, content@, line_numbers),
            )
        }),
{
    let digits = session.index.digits();
    session.index.advance();
    let mut opening = String::from_str("<document index=\"");
    append_chars(&mut opening, &digits);
    opening.append("\">");
    let mut source = String::from_str("<source>");
    source.append(path);
    source.append("</source>");
    write_output(opening.as_str(), session);
    write_output(source.as_str(), session);
    write_output("<document_content>", session);
    write_shown(content, session, line_numbers);
    write_output("</document_content>", session);
    write_output("</document>", session);
    proof {
        assert(session@.output == old(session)@.output + xml_document(
            old(session)@.next_index,
            path@,
            content@,
            line_numbers,
        ));
    }
}

/// Writes the document in the Markdown envelope: the path and the content
/// in a fenced code block. The fence is the shortest row of three or more
/// backticks that the content does not hold, and the opening fence names
/// the language that `ext_to_lang` gives for the path's extension.
pub fn print_as_markdown(
    path: &str,
    content: &str,
    session: &mut Session,
    line_numbers: bool,
    ext_to_lang: &Vec<(String, String)>,
)
    ensures
        final(session)@ == old(session)@.wrote(
            markdown_document(path@, content@, line_numbers, pairs(ext_to_lang@)),
        ),
{
    let extension = extension_of(path);
    let language = language_for(ext_to_lang, extension.as_str());
    let fence = string_of(&fence_for(&chars_of(content)));
    let mut opening = fence.clone();
    opening.append(language.as_str());
    write_output(path, session);
    write_output(opening.as_str(), session);
    write_shown(content, session, line_numbers);
    write_output(fence.as_str(), session);
    proof {
        assert(session@.output == old(session)@.output + markdown_document(
            path@,
            content@,
            line_numbers,
            pairs(ext_to_lang@),
        ));
    }
}

/// Writes the document for the file at `path` with the given content, in
/// the envelope `format`.
pub fn print_path(
    path: &str,
    content: &str,
    session: &mut Session,
    format: Format,
    line_numbers: bool,
    ext_to_lang: &Vec<(String, String)>,
)
    ensures
        final(session)@ == old(session)@.printed(
            format,
            path@,
            content@,
            line_numbers,
            pairs(ext_to_lang@),
        ),
{
    match format {
        Format::Xml => print_as_xml(path, content, session, line_numbers),
        Format::Markdown => print_as_markdown(path, content, session, line_numbers, ext_to_lang),
        Format::Default => print_default(path, content, session, line_numbers),
    }
}

} // verus!
