//! A whole run: the paths that were asked for, one after the other, and the
//! text that comes of them.

use vstd::prelude::*;
use crate::language::{initialize_ext_to_lang, language_table, pairs};
use crate::session::{line, missing_warning, print_path, write_output, Format, Session, SessionView};
use crate::text::{chars_of, fields, rows, split_fields, string_of, texts};
use crate::tree::{Content, Input, Node, Options, OptionsView};
use crate::walk::{
    directory_walk, failure_of, gitignore_failure, record, record_all, rules_within,
    walk_directory, Failure, FailureKind, Visit, Walk, WalkError,
};

verus! {

/// The paths that a text names: its fields, parted by null characters
/// where `use_null_separator` holds and by white space where it does not.
pub fn split_paths(content: &str, use_null_separator: bool) -> (paths: Vec<String>)
    ensures
        texts(paths@) == fields(content@, use_null_separator),
{
    let text = chars_of(content);
    let found = split_fields(&text, use_null_separator);
    let mut paths: Vec<String> = Vec::new();
    let mut i: usize = 0;
    while i < found.len()
        invariant
            i <= found.len(),
            texts(paths@) == rows(found@).take(i as int),
        decreases found.len() - i,
    {
        let path = string_of(&found[i]);
        proof {
            assert(rows(found@)[i as int] == path@);
            assert(rows(found@).take(i + 1) == rows(found@).take(i as int).push(path@));
            assert(texts(paths@.push(path)) == texts(paths@).push(path@));
        }
        paths.push(path);
        i += 1;
    }
    proof {
        assert(rows(found@).take(found.len() as int) == rows(found@));
    }
    paths
}

/// The walk that a path leads to: the one file that it names, whatever its
/// name or extension, or the walk of the directory that it names.
pub open spec fn path_walk(
    node: Node,
    path: Seq<char>,
    rules: Seq<Seq<char>>,
    options: OptionsView,
) -> Walk {
    match node {
        Node::File(content) => Walk::single(Visit { route: Seq::empty(), path, content }),
        Node::Dir(dir) => directory_walk(dir, path, rules, options),
        Node::Other => Walk::nothing(),
    }
}

/// Processes what `path` leads to: a file is written out as a document, or
/// reported where it could not be read; a directory is walked.
pub fn process_path(
    node: &Node,
    path: &str,
    gitignore_rules: &Vec<String>,
    options: &Options,
    ext_to_lang: &Vec<(String, String)>,
    session: &mut Session,
) -> (result: Result<(), WalkError>)
    ensures
        final(session)@ == record_all(
            old(session)@,
            path_walk(*node, path@, texts(gitignore_rules@), options@).visits,
            options@,
            pairs(ext_to_lang@),
        ),
        failure_of(result) == path_walk(*node, path@, texts(gitignore_rules@), options@).failure,
{
    match node {
        Node::File(content) => {
            let ghost before = session@;
            match content {
                Content::Text(text) => {
                    print_path(
                        path,
                        text.as_str(),
                        session,
                        options.format,
                        options.line_numbers,
                        ext_to_lang,
                    );
                },
                Content::Unreadable(reason) => {
                    session.skip(path, reason.as_str());
                },
            }
            proof {
                let visit = Visit { route: Seq::empty(), path: path@, content: *content };
                let visits = seq![visit];
                assert(visits.drop_last() == Seq::<Visit>::empty());
                assert(visits.last() == visit);
                assert(record_all(before, visits.drop_last(), options@, pairs(ext_to_lang@))
                    == before);
                assert(record(before, visit, options@, pairs(ext_to_lang@)) == session@);
            }
            Ok(())
        },
        Node::Dir(dir) => walk_directory(dir, path, gitignore_rules, options, ext_to_lang, session),
        Node::Other => Ok(()),
    }
}

/// How far a run has come: the session, and the failure that stopped it, if
/// one did.
pub struct Progress {
    pub session: SessionView,
    pub failure: Option<Failure>,
}

/// The run of one input.
///
/// A path that leads to nothing is reported and passed over. For any other
/// the `.gitignore` file beside it is read first, unless such files are
/// left unread: the run stops where that cannot be done, and its rules are
/// in force for this input and no other.
pub open spec fn input_run(
    session: SessionView,
    input: Input,
    options: OptionsView,
    table: Seq<(Seq<char>, Seq<char>)>,
) -> Progress {
    match input.node {
        None => Progress { session: session.warned(missing_warning(input.path@)), failure: None },
        Some(node) => match gitignore_failure(input.path@, input.parent_gitignore, options) {
            Some(failure) => Progress { session, failure: Some(failure) },
            None => {
                let walk = path_walk(
                    node,
                    input.path@,
                    rules_within(Seq::empty(), input.parent_gitignore, options),
                    options,
                );
                Progress {
                    session: record_all(session, walk.visits, options, table),
                    failure: walk.failure,
                }
            },
        },
    }
}

/// The run of the inputs, one after the other, up to the first that fails.
pub open spec fn inputs_run(
    session: SessionView,
    inputs: Seq<Input>,
    options: OptionsView,
    table: Seq<(Seq<char>, Seq<char>)>,
) -> Progress
    decreases inputs.len(),
{
    if inputs.len() == 0 {
        Progress { session, failure: None }
    } else {
        let first = input_run(session, inputs[0], options, table);
        if first.failure is Some {
            first
        } else {
            inputs_run(first.session, inputs.drop_first(), options, table)
        }
    }
}

/// Processes one input.
pub fn process_input(
    input: &Input,
    options: &Options,
    ext_to_lang: &Vec<(String, String)>,
    session: &mut Session,
) -> (result: Result<(), WalkError>)
    ensures
        final(session)@ == input_run(old(session)@, *input, options@, pairs(ext_to_lang@)).session,
        failure_of(result) == input_run(
            old(session)@,
            *input,
            options@,
            pairs(ext_to_lang@),
        ).failure,
{
    let node = match &input.node {
        None => {
            session.report_missing(input.path.as_str());
            return Ok(());
        },
        Some(node) => node,
    };
    let mut rules: Vec<String> = Vec::new();
    proof {
        assert(texts(rules@) == Seq::<Seq<char>>::empty());
    }
    if !options.ignore_gitignore {
        match &input.parent_gitignore {
            Some(Content::Unreadable(reason)) => {
                return Err(
                    WalkError {
                        kind: FailureKind::UnreadableGitignore,
                        path: input.path.clone(),
                        reason: reason.clone(),
                    },
                );
            },
            Some(Content::Text(text)) => {
                rules = crate::ignore::parse_gitignore(text.as_str());
                proof {
                    assert(Seq::<Seq<char>>::empty() + texts(rules@) == texts(rules@));
                }
            },
            None => {},
        }
    }
    process_path(node, input.path.as_str(), &rules, options, ext_to_lang, session)
}

/// Processes the inputs in order and stops at the first that fails.
pub fn process_inputs(
    inputs: &Vec<Input>,
    options: &Options,
    ext_to_lang: &Vec<(String, String)>,
    session: &mut Session,
) -> (result: Result<(), WalkError>)
    ensures
        final(session)@ == inputs_run(
            old(session)@,
            inputs@,
            options@,
            pairs(ext_to_lang@),
        ).session,
        failure_of(result) == inputs_run(
            old(session)@,
            inputs@,
            options@,
            pairs(ext_to_lang@),
        ).failure,
{
    let ghost whole = inputs_run(old(session)@, inputs@, options@, pairs(ext_to_lang@));
    let mut i: usize = 0;
    proof {
        assert(inputs@.skip(0) == inputs@);
    }
    while i < inputs.len()
        invariant
            i <= inputs.len(),
            whole == inputs_run(old(session)@, inputs@, options@, pairs(ext_to_lang@)),
            whole == inputs_run(session@, inputs@.skip(i as int), options@, pairs(ext_to_lang@)),
        decreases inputs.len() - i,
    {
        proof {
            assert(inputs@.skip(i as int)[0] == inputs@[i as int]);
            assert(inputs@.skip(i as int).drop_first() == inputs@.skip(i + 1));
        }
        let result = process_input(&inputs[i], options, ext_to_lang, session);
        if result.is_err() {
            return result;
        }
        i += 1;
    }
    Ok(())
}

/// What a run comes to.
pub struct Outcome {
    /// The text for the output.
    pub output: String,
    /// The diagnostics for the error channel, in order.
    pub diagnostics: Vec<String>,
    /// The error that stopped the run, if one did.
    pub failure: Option<WalkError>,
}

/// What a run comes to, as the contracts read it.
pub struct OutcomeView {
    pub output: Seq<char>,
    pub diagnostics: Seq<Seq<char>>,
    pub failure: Option<Failure>,
}

impl View for Outcome {
    type V = OutcomeView;

    open spec fn view(&self) -> OutcomeView {
        OutcomeView {
            output: self.output@,
            diagnostics: texts(self.diagnostics@),
            failure: match self.failure {
                Some(error) => Some(error@),
                None => None,
            },
        }
    }
}

/// Whether the documents of a run stand between an opening and a closing
/// tag: they do in the tagged envelope, where there is at least one input.
pub open spec fn wrapped(inputs: Seq<Input>, options: OptionsView) -> bool {
    options.format == Format::Xml && inputs.len() > 0
}

/// What the run of `inputs` comes to.
///
/// The session starts afresh. The inputs are processed in order, with the
/// table of languages of this crate. Where the documents are wrapped, the
/// opening tag is written before the first input, and the closing tag after
/// the last unless the run was stopped.
pub open spec fn run_outcome(inputs: Seq<Input>, options: OptionsView) -> OutcomeView {
    let start = if wrapped(inputs, options) {
        SessionView::fresh().wrote(line("<documents>"@))
    } else {
        SessionView::fresh()
    };
    let progress = inputs_run(start, inputs, options, language_table());
    let end = if wrapped(inputs, options) && progress.failure is None {
        progress.session.wrote(line("</documents>"@))
    } else {
        progress.session
    };
    OutcomeView { output: end.output, diagnostics: end.diagnostics, failure: progress.failure }
}

/// Runs over `inputs` and gives the text that comes of them, the
/// diagnostics, and the error that stopped the run, if one did.
pub fn run(inputs: &Vec<Input>, options: &Options) -> (outcome: Outcome)
    ensures
        outcome@ == run_outcome(inputs@, options@),
{
    let ext_to_lang = initialize_ext_to_lang();
    let mut session = Session::new();
    let wrap = match options.format {
        Format::Xml => inputs.len() > 0,
        _ => false,
    };
    if wrap {
        write_output("<documents>", &mut session);
    }
    let result = process_inputs(inputs, options, &ext_to_lang, &mut session);
    let failure = match result {
        Ok(_) => None,
        Err(error) => Some(error),
    };
    if wrap && failure.is_none() {
        write_output("</documents>", &mut session);
    }
    let (output, diagnostics) = session.into_parts();
    Outcome { output, diagnostics, failure }
}

} // verus!
