//! The walk through a directory tree: which entries are passed over, in
//! which order the others are visited, and what the files met on the way
//! add to the session.

use vstd::prelude::*;
use vstd::string::StringExecFns;
use crate::ignore::{excluded, gitignore_rules, parse_gitignore, should_ignore};
use crate::language::pairs;
use crate::order::{ascending, by_name, insert_by_name, positions};
use crate::paths::{extension, extension_of, join, join_path};
use crate::session::{print_path, skip_warning, Session, SessionView};
use crate::text::{chars_of, clone_strings, rows, texts};
use crate::tree::{Content, Directory, Entry, Listing, Node, Options, OptionsView};

verus! {

/// Why a walk stopped.
#[derive(Clone, Copy, Debug, PartialEq, Eq, Structural)]
pub enum FailureKind {
    /// A directory could not be listed.
    UnreadableDirectory,
    /// A `.gitignore` file could not be read.
    UnreadableGitignore,
}

/// The error that stops a walk.
#[derive(Debug)]
pub struct WalkError {
    /// Why the walk stopped.
    pub kind: FailureKind,
    /// The path at which it stopped.
    pub path: String,
    /// The reason that the file system gave.
    pub reason: String,
}

/// The error that stops a walk, as the contracts read it.
pub struct Failure {
    pub kind: FailureKind,
    pub path: Seq<char>,
    pub reason: Seq<char>,
}

impl View for WalkError {
    type V = Failure;

    open spec fn view(&self) -> Failure {
        Failure { kind: self.kind, path: self.path@, reason: self.reason@ }
    }
}

/// The failure that a result stands for, if any.
pub open spec fn failure_of(result: Result<(), WalkError>) -> Option<Failure> {
    match result {
        Ok(_) => None,
        Err(error) => Some(error@),
    }
}

/// A file met on a walk.
pub struct Visit {
    /// The names of the entries that led to the file, from the directory
    /// walked down to the file itself. Empty for a file that was not reached
    /// through a directory.
    pub route: Seq<Seq<char>>,
    /// The file's path.
    pub path: Seq<char>,
    /// What reading the file gave.
    pub content: Content,
}

/// What a walk comes to: the files met, in order, and the failure that
/// stopped it, if one did.
pub struct Walk {
    pub visits: Seq<Visit>,
    pub failure: Option<Failure>,
}

impl Walk {
    /// The walk that meets nothing.
    pub open spec fn nothing() -> Walk {
        Walk { visits: Seq::empty(), failure: None }
    }

    /// The walk that stops at once.
    pub open spec fn stopped(failure: Failure) -> Walk {
        Walk { visits: Seq::empty(), failure: Some(failure) }
    }

    /// The walk that meets one file.
    pub open spec fn single(visit: Visit) -> Walk {
        Walk { visits: seq![visit], failure: None }
    }

    /// This walk and then `next`, which is not begun where this one failed.
    pub open spec fn followed_by(self, next: Walk) -> Walk {
        if self.failure is Some {
            self
        } else {
            Walk { visits: self.visits + next.visits, failure: next.failure }
        }
    }

    /// This walk as part of the walk of the directory that holds the entry
    /// `name`: every route is led by that name.
    pub open spec fn under(self, name: Seq<char>) -> Walk {
        Walk {
            visits: self.visits.map_values(
                |visit: Visit| Visit { route: seq![name] + visit.route, ..visit },
            ),
            failure: self.failure,
        }
    }
}

/// The names of the entries.
pub open spec fn names(entries: Seq<Entry>) -> Seq<Seq<char>> {
    entries.map_values(|entry: Entry| entry.name@)
}

/// Whether a name is hidden: whether it starts with a dot.
pub open spec fn is_hidden(name: Seq<char>) -> bool {
    name.len() > 0 && name[0] == '.'
}

/// Whether the walk takes up an entry called `name`, a directory where
/// `is_dir` holds, under the rules gathered from `.gitignore` files.
///
/// A hidden entry is passed over unless hidden entries are included. An
/// entry that a rule excludes is passed over unless `.gitignore` files are
/// left unread. An entry whose name an ignore pattern hits is passed over,
/// unless it is a directory and the patterns are for files only.
pub open spec fn admitted(
    name: Seq<char>,
    is_dir: bool,
    rules: Seq<Seq<char>>,
    options: OptionsView,
) -> bool {
    &&& options.include_hidden || !is_hidden(name)
    &&& options.ignore_gitignore || !excluded(rules, name, is_dir)
    &&& (is_dir && options.ignore_files_only) || !excluded(options.ignore_patterns, name, false)
}

/// The positions in a listing of `n` entries, in order.
pub open spec fn listing_positions(n: nat) -> Seq<int> {
    Seq::new(n, |i: int| i)
}

/// The entries that the walk takes up, by their positions in the listing
/// and in its order.
pub open spec fn kept(entries: Seq<Entry>, rules: Seq<Seq<char>>, options: OptionsView) -> Seq<
    int,
> {
    listing_positions(entries.len()).filter(
        |i: int| admitted(entries[i].name@, entries[i].node is Dir, rules, options),
    )
}

/// The entries that the walk takes up, in the order in which it visits
/// them: by name.
pub open spec fn visiting_order(
    entries: Seq<Entry>,
    rules: Seq<Seq<char>>,
    options: OptionsView,
) -> Seq<int> {
    by_name(names(entries), kept(entries, rules, options))
}

/// Whether a file with the given extension is yielded: every file where no
/// extensions are asked for, else those whose extension is one of them.
pub open spec fn extension_allowed(extension: Seq<char>, extensions: Seq<Seq<char>>) -> bool {
    extensions.len() == 0 || extensions.contains(extension)
}

/// The rules in force within a directory: those it inherits, and behind
/// them those of its own `.gitignore` file. Where `.gitignore` files are
/// left unread the rules stay as they are.
pub open spec fn rules_within(
    inherited: Seq<Seq<char>>,
    gitignore: Option<Content>,
    options: OptionsView,
) -> Seq<Seq<char>> {
    match gitignore {
        Some(Content::Text(text)) if !options.ignore_gitignore => inherited + gitignore_rules(
            text@,
        ),
        _ => inherited,
    }
}

/// The failure of a `.gitignore` file that is to be read and cannot be.
pub open spec fn gitignore_failure(
    path: Seq<char>,
    gitignore: Option<Content>,
    options: OptionsView,
) -> Option<Failure> {
    match gitignore {
        Some(Content::Unreadable(reason)) if !options.ignore_gitignore => Some(
            Failure { kind: FailureKind::UnreadableGitignore, path, reason: reason@ },
        ),
        _ => None,
    }
}

/// The walk of the directory `dir`, which stands at `path` and inherits the
/// rules `inherited`.
///
/// The directory's own `.gitignore` file is read first; then its entries
/// are listed, those not admitted are passed over, and the others are
/// walked in the order of their names, directories in depth.
pub open spec fn directory_walk(
    dir: Directory,
    path: Seq<char>,
    inherited: Seq<Seq<char>>,
    options: OptionsView,
) -> Walk
    decreases dir, 2nat, 0nat,
{
    match gitignore_failure(path, dir.gitignore, options) {
        Some(failure) => Walk::stopped(failure),
        None => match dir.listing {
            Listing::Unreadable(reason) => Walk::stopped(
                Failure { kind: FailureKind::UnreadableDirectory, path, reason: reason@ },
            ),
            Listing::Entries(entries) => {
                let rules = rules_within(inherited, dir.gitignore, options);
                entries_walk(dir, visiting_order(entries@, rules, options), path, rules, options)
            },
        },
    }
}

/// The walk of the entries `order` of the directory `dir`, one after the
/// other, up to the first that fails.
pub open spec fn entries_walk(
    dir: Directory,
    order: Seq<int>,
    path: Seq<char>,
    rules: Seq<Seq<char>>,
    options: OptionsView,
) -> Walk
    decreases dir, 1nat, order.len(),
{
    if order.len() == 0 {
        Walk::nothing()
    } else {
        entry_walk(dir, order[0], path, rules, options).followed_by(
            entries_walk(dir, order.drop_first(), path, rules, options),
        )
    }
}

/// The walk of the entry at position `k` of the directory `dir`: the walk
/// of a directory, the one file where it is a file with an extension that
/// is asked for, and nothing else.
pub open spec fn entry_walk(
    dir: Directory,
    k: int,
    path: Seq<char>,
    rules: Seq<Seq<char>>,
    options: OptionsView,
) -> Walk
    decreases dir, 0nat, 0nat,
{
    match dir.listing {
        Listing::Entries(entries) if 0 <= k < entries.len() => {
            let name = entries[k].name@;
            let entry_path = join_path(path, name);
            match entries[k].node {
                Node::Dir(sub) => directory_walk(sub, entry_path, rules, options).under(name),
                Node::File(content) => if extension_allowed(
                    extension(entry_path),
                    options.extensions,
                ) {
                    Walk::single(Visit { route: seq![name], path: entry_path, content })
                } else {
                    Walk::nothing()
                },
                Node::Other => Walk::nothing(),
            }
        },
        _ => Walk::nothing(),
    }
}

/// The session after a file was met: a file that was read is written out as
/// a document, for one that was not a diagnostic is added.
pub open spec fn record(
    session: SessionView,
    visit: Visit,
    options: OptionsView,
    table: Seq<(Seq<char>, Seq<char>)>,
) -> SessionView {
    match visit.content {
        Content::Text(text) => session.printed(
            options.format,
            visit.path,
            text@,
            options.line_numbers,
            table,
        ),
        Content::Unreadable(reason) => session.warned(skip_warning(visit.path, reason@)),
    }
}

/// The session after the files `visits` were met, in order.
pub open spec fn record_all(
    session: SessionView,
    visits: Seq<Visit>,
    options: OptionsView,
    table: Seq<(Seq<char>, Seq<char>)>,
) -> SessionView
    decreases visits.len(),
{
    if visits.len() == 0 {
        session
    } else {
        record(
            record_all(session, visits.drop_last(), options, table),
            visits.last(),
            options,
            table,
        )
    }
}

/// Meeting `first` and then `second` is meeting the two in a row.
pub proof fn lemma_record_all_concat(
    session: SessionView,
    first: Seq<Visit>,
    second: Seq<Visit>,
    options: OptionsView,
    table: Seq<(Seq<char>, Seq<char>)>,
)
    ensures
        record_all(session, first + second, options, table) == record_all(
            record_all(session, first, options, table),
            second,
            options,
            table,
        ),
    decreases second.len(),
{
    if second.len() == 0 {
        assert(first + second == first);
    } else {
        lemma_record_all_concat(session, first, second.drop_last(), options, table);
        assert((first + second).drop_last() == first + second.drop_last());
    }
}

/// What the session makes of a file does not depend on the route to it.
pub proof fn lemma_record_all_under(
    session: SessionView,
    walk: Walk,
    name: Seq<char>,
    options: OptionsView,
    table: Seq<(Seq<char>, Seq<char>)>,
)
    ensures
        record_all(session, walk.under(name).visits, options, table) == record_all(
            session,
            walk.visits,
            options,
            table,
        ),
    decreases walk.visits.len(),
{
    if walk.visits.len() > 0 {
        let head = Walk { visits: walk.visits.drop_last(), failure: walk.failure };
        lemma_record_all_under(session, head, name, options, table);
        assert(walk.under(name).visits.drop_last() == head.under(name).visits);
    }
}

/// Whether `name` is hidden.
pub fn hidden(name: &str) -> (hide: bool)
    ensures
        hide == is_hidden(name@),
{
    let text = chars_of(name);
    text.len() > 0 && text[0] == '.'
}

/// Whether the walk takes up an entry called `name`, a directory where
/// `is_dir` holds, under the rules `gitignore_rules`.
pub fn admits(
    name: &str,
    is_dir: bool,
    gitignore_rules: &Vec<String>,
    options: &Options,
) -> (take: bool)
    ensures
        take == admitted(name@, is_dir, texts(gitignore_rules@), options@),
{
    if !options.include_hidden && hidden(name) {
        return false;
    }
    if !options.ignore_gitignore && should_ignore(name, is_dir, gitignore_rules) {
        return false;
    }
    if !(is_dir && options.ignore_files_only) && should_ignore(
        name,
        false,
        &options.ignore_patterns,
    ) {
        return false;
    }
    true
}

/// Whether a file with the extension `extension` is yielded where the
/// extensions `extensions` are asked for.
pub fn allows_extension(extension: &str, extensions: &Vec<String>) -> (allow: bool)
    ensures
        allow == extension_allowed(extension@, texts(extensions@)),
{
    if extensions.len() == 0 {
        return true;
    }
    let wanted = String::from_str(extension);
    let mut i: usize = 0;
    while i < extensions.len()
        invariant
            i <= extensions.len(),
            wanted@ == extension@,
            forall|k: int| 0 <= k < i ==> texts(extensions@)[k] != extension@,
        decreases extensions.len() - i,
    {
        if extensions[i] == wanted {
            proof {
                assert(texts(extensions@)[i as int] == extension@);
            }
            return true;
        }
        i += 1;
    }
    false
}

/// The positions of the entries that the walk takes up, in the order in
/// which it visits them.
pub fn order_entries(
    entries: &Vec<Entry>,
    gitignore_rules: &Vec<String>,
    options: &Options,
) -> (order: Vec<usize>)
    ensures
        positions(order@) == visiting_order(entries@, texts(gitignore_rules@), options@),
        forall|j: int| 0 <= j < order.len() ==> order[j] < entries.len(),
        ascending(names(entries@), positions(order@)),
        positions(order@).no_duplicates(),
        forall|k: int|
            #[trigger] positions(order@).contains(k) <==> (0 <= k < entries.len() && admitted(
                entries[k].name@,
                entries[k].node is Dir,
                texts(gitignore_rules@),
                options@,
            )),
{
    let n = entries.len();
    let mut all_names: Vec<Vec<char>> = Vec::new();
    let mut i: usize = 0;
    while i < n
        invariant
            i <= n == entries.len(),
            all_names.len() == i,
            forall|k: int| 0 <= k < i ==> all_names[k]@ == entries[k].name@,
        decreases n - i,
    {
        all_names.push(chars_of(entries[i].name.as_str()));
        i += 1;
    }
    proof {
        assert(rows(all_names@) =~= names(entries@));
    }
    let ghost rules = texts(gitignore_rules@);
    let ghost all = listing_positions(n as nat);
    let ghost keep = |i: int| admitted(entries@[i].name@, entries@[i].node is Dir, rules, options@);
    let mut order: Vec<usize> = Vec::new();
    let mut i: usize = 0;
    proof {
        reveal(Seq::filter);
        assert(all.take(0).filter(keep) == Seq::<int>::empty());
        assert(positions(order@) == Seq::<int>::empty());
    }
    while i < n
        invariant
            i <= n == entries.len(),
            all_names.len() == n,
            rows(all_names@) == names(entries@),
            rules == texts(gitignore_rules@),
            all == listing_positions(n as nat),
            keep == |i: int|
                admitted(entries@[i].name@, entries@[i].node is Dir, rules, options@),
            positions(order@) == by_name(names(entries@), all.take(i as int).filter(keep)),
            forall|j: int| 0 <= j < order.len() ==> order[j] < n,
        decreases n - i,
    {
        let is_dir = match &entries[i].node {
            Node::Dir(_) => true,
            _ => false,
        };
        proof {
            assert(all.take(i + 1) == all.take(i as int).push(i as int));
            all.take(i as int).lemma_filter_push(i as int, keep);
        }
        if admits(entries[i].name.as_str(), is_dir, gitignore_rules, options) {
            proof {
                assert(all.take(i as int).filter(keep).push(i as int).drop_last() == all.take(
                    i as int,
                ).filter(keep));
            }
            insert_by_name(&all_names, &mut order, i);
        }
        i += 1;
    }
    proof {
        assert(all.take(n as int) == all);
        crate::laws::lemma_visiting_order(entries@, rules, options@);
    }
    order
}

/// The rules in force within a directory that inherits `inherited` and
/// whose own `.gitignore` file reads `gitignore`.
pub fn gather_rules(
    inherited: &Vec<String>,
    gitignore: &Option<Content>,
    options: &Options,
) -> (rules: Vec<String>)
    ensures
        texts(rules@) == rules_within(texts(inherited@), *gitignore, options@),
{
    let mut rules = clone_strings(inherited);
    if !options.ignore_gitignore {
        if let Some(Content::Text(text)) = gitignore {
            let mut own = parse_gitignore(text.as_str());
            proof {
                assert(texts(rules@ + own@) =~= texts(rules@) + texts(own@));
            }
            rules.append(&mut own);
        }
    }
    rules
}

/// Walks the directory `dir`, which stands at `path`, and adds what it
/// meets to the session.
///
/// The rules of the directory's own `.gitignore` file join the rules
/// `gitignore_rules` for this directory and all below it, and for no other.
/// Entries are visited in the order of their names, directories in depth;
/// of the files, those with an extension that is asked for are written out
/// as documents, and for each that could not be read a diagnostic is added.
/// The walk stops with an error at the first directory that could not be
/// listed and at the first `.gitignore` file that could not be read; what
/// was met before stays in the session.
pub fn walk_directory(
    dir: &Directory,
    path: &str,
    gitignore_rules: &Vec<String>,
    options: &Options,
    ext_to_lang: &Vec<(String, String)>,
    session: &mut Session,
) -> (result: Result<(), WalkError>)
    ensures
        final(session)@ == record_all(
            old(session)@,
            directory_walk(*dir, path@, texts(gitignore_rules@), options@).visits,
            options@,
            pairs(ext_to_lang@),
        ),
        failure_of(result) == directory_walk(
            *dir,
            path@,
            texts(gitignore_rules@),
            options@,
        ).failure,
    decreases dir,
{
    if !options.ignore_gitignore {
        if let Some(Content::Unreadable(reason)) = &dir.gitignore {
            return Err(
                WalkError {
                    kind: FailureKind::UnreadableGitignore,
                    path: String::from_str(path),
                    reason: reason.clone(),
                },
            );
        }
    }
    let entries = match &dir.listing {
        Listing::Unreadable(reason) => {
            return Err(
                WalkError {
                    kind: FailureKind::UnreadableDirectory,
                    path: String::from_str(path),
                    reason: reason.clone(),
                },
            );
        },
        Listing::Entries(entries) => entries,
    };
    let rules = gather_rules(gitignore_rules, &dir.gitignore, options);
    let order = order_entries(entries, &rules, options);
    let ghost table = pairs(ext_to_lang@);
    let ghost whole = entries_walk(*dir, positions(order@), path@, texts(rules@), options@);
    let ghost mut done: Seq<Visit> = Seq::empty();
    let mut j: usize = 0;
    proof {
        assert(positions(order@).skip(0) == positions(order@));
        assert(done + whole.visits == whole.visits);
    }
    while j < order.len()
        invariant
            j <= order.len(),
            dir.listing is Entries,
            dir.listing->Entries_0 == *entries,
            forall|i: int| 0 <= i < order.len() ==> order[i] < entries.len(),
            table == pairs(ext_to_lang@),
            whole == entries_walk(*dir, positions(order@), path@, texts(rules@), options@),
            whole == directory_walk(*dir, path@, texts(gitignore_rules@), options@),
            whole.visits == done + entries_walk(
                *dir,
                positions(order@).skip(j as int),
                path@,
                texts(rules@),
                options@,
            ).visits,
            whole.failure == entries_walk(
                *dir,
                positions(order@).skip(j as int),
                path@,
                texts(rules@),
                options@,
            ).failure,
            session@ == record_all(old(session)@, done, options@, table),
        decreases order.len() - j,
    {
        let k = order[j];
        let entry = &entries[k];
        let entry_path = join(path, entry.name.as_str());
        let ghost todo = positions(order@).skip(j as int);
        let ghost first = entry_walk(*dir, k as int, path@, texts(rules@), options@);
        let ghost rest = entries_walk(*dir, todo.drop_first(), path@, texts(rules@), options@);
        let ghost before = session@;
        proof {
            assert(todo[0] == k as int);
            assert(todo.drop_first() == positions(order@).skip(j + 1));
            assert(entries_walk(*dir, todo, path@, texts(rules@), options@) == first.followed_by(rest));
        }
        match &entry.node {
            Node::Dir(sub) => {
                proof {
                    assert(decreases_to!(dir => dir.listing));
                    assert(decreases_to!(dir.listing => dir.listing->Entries_0));
                    assert(decreases_to!(*entries => entries[k as int]));
                    assert(decreases_to!(entries[k as int] => entries[k as int].node));
                    assert(decreases_to!(entries[k as int].node => *sub));
                }
                let result = walk_directory(
                    sub,
                    entry_path.as_str(),
                    &rules,
                    options,
                    ext_to_lang,
                    session,
                );
                proof {
                    lemma_record_all_under(
                        before,
                        directory_walk(*sub, entry_path@, texts(rules@), options@),
                        entry.name@,
                        options@,
                        table,
                    );
                    lemma_record_all_concat(old(session)@, done, first.visits, options@, table);
                }
                if result.is_err() {
                    proof {
                        assert(whole.visits == done + first.visits);
                    }
                    return result;
                }
            },
            Node::File(content) => {
                let ext = extension_of(entry_path.as_str());
                if allows_extension(ext.as_str(), &options.extensions) {
                    match content {
                        Content::Text(text) => {
                            print_path(
                                entry_path.as_str(),
                                text.as_str(),
                                session,
                                options.format,
                                options.line_numbers,
                                ext_to_lang,
                            );
                        },
                        Content::Unreadable(reason) => {
                            session.skip(entry_path.as_str(), reason.as_str());
                        },
                    }
                    proof {
                        let visit = Visit {
                            route: seq![entry.name@],
                            path: entry_path@,
                            content: *content,
                        };
                        assert(first == Walk::single(visit));
                        assert(first.visits.drop_last() == Seq::<Visit>::empty());
                        assert(first.visits.last() == visit);
                        assert(record_all(before, first.visits.drop_last(), options@, table)
                            == before);
                        assert(record(before, visit, options@, table) == session@);
                        assert(record_all(before, first.visits, options@, table) == session@);
                    }
                }
                proof {
                    lemma_record_all_concat(old(session)@, done, first.visits, options@, table);
                }
            },
            Node::Other => {
                proof {
                    lemma_record_all_concat(old(session)@, done, first.visits, options@, table);
                }
            },
        }
        proof {
            assert(done + (first.visits + rest.visits) == (done + first.visits) + rest.visits);
            done = done + first.visits;
        }
        j += 1;
    }
    proof {
        assert(positions(order@).skip(order.len() as int) == Seq::<int>::empty());
        assert(done + Seq::<Visit>::empty() == done);
    }
    Ok(())
}

} // verus!
