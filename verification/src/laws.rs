//! What holds of every walk: the order of the visits, what the filters keep
//! out, how far the rules of a `.gitignore` file reach, and how the index of
//! the documents moves.

use vstd::prelude::*;
use crate::ignore::{excluded, gitignore_rules, rule_excludes};
use crate::order::{ascending, lemma_by_name};
use crate::session::{xml_document, Format, SessionView};
use crate::tree::{Content, Directory, Entry, Listing, Node, OptionsView};
use crate::walk::{
    admitted, directory_walk, entries_walk, entry_walk, is_hidden, kept, listing_positions,
    names, record_all, rules_within, visiting_order, Visit, Walk,
};

verus! {

/// The entries of a directory are visited in the order of their names: the
/// visiting order holds every entry that is admitted, once, and no other,
/// and the names along it never go down.
pub proof fn lemma_visiting_order(
    entries: Seq<Entry>,
    rules: Seq<Seq<char>>,
    options: OptionsView,
)
    ensures
        ascending(names(entries), visiting_order(entries, rules, options)),
        visiting_order(entries, rules, options).no_duplicates(),
        forall|k: int|
            #[trigger] visiting_order(entries, rules, options).contains(k) <==> (0 <= k
                < entries.len() && admitted(
                entries[k].name@,
                entries[k].node is Dir,
                rules,
                options,
            )),
{
    broadcast use vstd::seq_lib::group_to_multiset_ensures;

    let keep = |i: int| admitted(entries[i].name@, entries[i].node is Dir, rules, options);
    let chosen = kept(entries, rules, options);
    let order = visiting_order(entries, rules, options);
    lemma_by_name(names(entries), chosen);
    lemma_kept(entries, rules, options);
    assert forall|k: int| #[trigger] order.contains(k) <==> chosen.contains(k) by {
        assert(order.to_multiset().count(k) == chosen.to_multiset().count(k));
    }
    chosen.lemma_multiset_has_no_duplicates();
    assert forall|k: int| order.to_multiset().count(k) <= 1 by {
        assert(order.to_multiset().count(k) == chosen.to_multiset().count(k));
    }
    order.lemma_multiset_has_no_duplicates_conv();
}

/// The entries that are kept are those that are admitted, each once, in the
/// order of the listing.
pub proof fn lemma_kept(entries: Seq<Entry>, rules: Seq<Seq<char>>, options: OptionsView)
    ensures
        kept(entries, rules, options).no_duplicates(),
        forall|k: int|
            #[trigger] kept(entries, rules, options).contains(k) <==> (0 <= k < entries.len()
                && admitted(
                entries[k].name@,
                entries[k].node is Dir,
                rules,
                options,
            )),
{
    let keep = |i: int| admitted(entries[i].name@, entries[i].node is Dir, rules, options);
    lemma_kept_upto(entries.len() as int, keep);
}

proof fn lemma_kept_upto(n: int, keep: spec_fn(int) -> bool)
    requires
        0 <= n,
    ensures
        listing_positions(n as nat).filter(keep).no_duplicates(),
        forall|k: int|
            #[trigger] listing_positions(n as nat).filter(keep).contains(k) <==> (0 <= k < n
                && keep(k)),
    decreases n,
{
    reveal(Seq::filter);
    let all = listing_positions(n as nat);
    if n > 0 {
        let head = listing_positions((n - 1) as nat);
        lemma_kept_upto(n - 1, keep);
        assert(all.drop_last() == head);
        let before = head.filter(keep);
        if keep(n - 1) {
            assert(all.filter(keep) == before.push(n - 1));
            assert forall|k: int| #[trigger]
                all.filter(keep).contains(k) <==> (0 <= k < n && keep(k)) by {
                if all.filter(keep).contains(k) {
                    let j = choose|j: int|
                        0 <= j < all.filter(keep).len() && all.filter(keep)[j] == k;
                    if j < before.len() {
                        assert(before[j] == k);
                        assert(before.contains(k));
                    }
                }
                if 0 <= k < n && keep(k) {
                    if k == n - 1 {
                        assert(all.filter(keep)[before.len() as int] == k);
                    } else {
                        assert(before.contains(k));
                        let j = choose|j: int| 0 <= j < before.len() && before[j] == k;
                        assert(all.filter(keep)[j] == k);
                    }
                }
            }
            assert forall|i: int, j: int|
                0 <= i < all.filter(keep).len() && 0 <= j < all.filter(keep).len() && i
                    != j implies all.filter(keep)[i] != all.filter(keep)[j] by {
                if i < before.len() {
                    assert(before.contains(before[i]));
                }
                if j < before.len() {
                    assert(before.contains(before[j]));
                }
            }
        } else {
            assert(all.filter(keep) == before);
        }
    } else {
        assert(all.filter(keep) == Seq::<int>::empty());
    }
}

/// Whether every name on a route was admitted under `rules`: the last as
/// the name of a file, those before it as names of directories.
pub open spec fn route_admitted(
    route: Seq<Seq<char>>,
    rules: Seq<Seq<char>>,
    options: OptionsView,
) -> bool {
    forall|i: int|
        0 <= i < route.len() ==> admitted(#[trigger] route[i], i + 1 < route.len(), rules, options)
}

/// Whether every file that a walk meets was reached through entries that
/// were admitted under `rules`.
pub open spec fn walk_admitted(walk: Walk, rules: Seq<Seq<char>>, options: OptionsView) -> bool {
    forall|i: int|
        0 <= i < walk.visits.len() ==> (#[trigger] walk.visits[i]).route.len() > 0
            && route_admitted(walk.visits[i].route, rules, options)
}

/// An entry that is admitted under some rules is admitted under fewer.
pub proof fn lemma_admitted_under_fewer(
    name: Seq<char>,
    is_dir: bool,
    rules: Seq<Seq<char>>,
    more: Seq<Seq<char>>,
    options: OptionsView,
)
    requires
        admitted(name, is_dir, rules + more, options),
    ensures
        admitted(name, is_dir, rules, options),
{
    if excluded(rules, name, is_dir) {
        let i = choose|i: int|
            0 <= i < rules.len() && rule_excludes(
                #[trigger] rules[i],
                name,
                is_dir,
            );
        assert((rules + more)[i] == rules[i]);
    }
}

/// The rules in force within a directory hold for the directory and for all
/// that lies below it: every file that the walk of the directory meets was
/// reached through entries that these rules, the hidden filter and the
/// ignore patterns admit.
pub proof fn lemma_walk_admitted(
    dir: Directory,
    path: Seq<char>,
    inherited: Seq<Seq<char>>,
    options: OptionsView,
)
    ensures
        walk_admitted(
            directory_walk(dir, path, inherited, options),
            rules_within(inherited, dir.gitignore, options),
            options,
        ),
    decreases dir, 2nat, 0nat,
{
    let rules = rules_within(inherited, dir.gitignore, options);
    match dir.listing {
        Listing::Entries(entries) => {
            lemma_visiting_order(entries@, rules, options);
            let order = visiting_order(entries@, rules, options);
            assert forall|j: int| 0 <= j < order.len() implies 0 <= #[trigger] order[j]
                < entries.len() && admitted(
                entries[order[j]].name@,
                entries[order[j]].node is Dir,
                rules,
                options,
            ) by {
                assert(order.contains(order[j]));
            }
            lemma_entries_admitted(dir, order, path, rules, options);
        },
        _ => {},
    }
}

proof fn lemma_entries_admitted(
    dir: Directory,
    order: Seq<int>,
    path: Seq<char>,
    rules: Seq<Seq<char>>,
    options: OptionsView,
)
    requires
        dir.listing is Entries,
        forall|j: int|
            0 <= j < order.len() ==> 0 <= #[trigger] order[j] < dir.listing->Entries_0.len()
                && admitted(
                dir.listing->Entries_0[order[j]].name@,
                dir.listing->Entries_0[order[j]].node is Dir,
                rules,
                options,
            ),
    ensures
        walk_admitted(entries_walk(dir, order, path, rules, options), rules, options),
    decreases dir, 1nat, order.len(),
{
    if order.len() > 0 {
        let first = entry_walk(dir, order[0], path, rules, options);
        let rest = entries_walk(dir, order.drop_first(), path, rules, options);
        lemma_entry_admitted(dir, order[0], path, rules, options);
        assert forall|j: int| 0 <= j < order.drop_first().len() implies 0
            <= #[trigger] order.drop_first()[j] < dir.listing->Entries_0.len() && admitted(
            dir.listing->Entries_0[order.drop_first()[j]].name@,
            dir.listing->Entries_0[order.drop_first()[j]].node is Dir,
            rules,
            options,
        ) by {
            assert(order.drop_first()[j] == order[j + 1]);
        }
        lemma_entries_admitted(dir, order.drop_first(), path, rules, options);
        let whole = first.followed_by(rest);
        assert forall|i: int|
            0 <= i < whole.visits.len() implies (#[trigger] whole.visits[i]).route.len()
            > 0 && route_admitted(whole.visits[i].route, rules, options) by {
            if i < first.visits.len() {
                assert(whole.visits[i] == first.visits[i]);
            } else {
                assert(whole.visits[i] == rest.visits[i - first.visits.len()]);
            }
        }
    }
}

proof fn lemma_entry_admitted(
    dir: Directory,
    k: int,
    path: Seq<char>,
    rules: Seq<Seq<char>>,
    options: OptionsView,
)
    requires
        dir.listing is Entries,
        0 <= k < dir.listing->Entries_0.len(),
        admitted(
            dir.listing->Entries_0[k].name@,
            dir.listing->Entries_0[k].node is Dir,
            rules,
            options,
        ),
    ensures
        walk_admitted(entry_walk(dir, k, path, rules, options), rules, options),
    decreases dir, 0nat, 0nat,
{
    let entries = dir.listing->Entries_0;
    let name = entries[k].name@;
    let walk = entry_walk(dir, k, path, rules, options);
    match entries[k].node {
        Node::Dir(sub) => {
            let entry_path = crate::paths::join_path(path, name);
            let below = directory_walk(sub, entry_path, rules, options);
            lemma_walk_admitted(sub, entry_path, rules, options);
            let deeper = rules_within(rules, sub.gitignore, options);
            assert forall|i: int|
                0 <= i < walk.visits.len() implies (#[trigger] walk.visits[i]).route.len()
                > 0 && route_admitted(walk.visits[i].route, rules, options) by {
                let inner = below.visits[i].route;
                let outer = walk.visits[i].route;
                assert(outer == seq![name] + inner);
                assert(route_admitted(inner, deeper, options));
                assert forall|j: int| 0 <= j < outer.len() implies admitted(
                    #[trigger] outer[j],
                    j + 1 < outer.len(),
                    rules,
                    options,
                ) by {
                    if j > 0 {
                        assert(outer[j] == inner[j - 1]);
                        assert(admitted(inner[j - 1], j < inner.len(), deeper, options));
                        if deeper != rules {
                            let more = gitignore_rules(
                                sub.gitignore->Some_0->Text_0@,
                            );
                            assert(deeper == rules + more);
                            lemma_admitted_under_fewer(
                                inner[j - 1],
                                j < inner.len(),
                                rules,
                                more,
                                options,
                            );
                        }
                    }
                }
            }
        },
        Node::File(content) => {
            assert forall|i: int|
                0 <= i < walk.visits.len() implies (#[trigger] walk.visits[i]).route.len()
                > 0 && route_admitted(walk.visits[i].route, rules, options) by {
                assert(walk.visits[i].route == seq![name]);
            }
        },
        Node::Other => {},
    }
}

/// Unless hidden entries are included, no file that a walk meets was
/// reached through a hidden entry, and none is hidden itself.
pub proof fn lemma_hidden_left_out(
    dir: Directory,
    path: Seq<char>,
    inherited: Seq<Seq<char>>,
    options: OptionsView,
    i: int,
    j: int,
)
    requires
        !options.include_hidden,
        0 <= i < directory_walk(dir, path, inherited, options).visits.len(),
        0 <= j < directory_walk(dir, path, inherited, options).visits[i].route.len(),
    ensures
        !is_hidden(directory_walk(dir, path, inherited, options).visits[i].route[j]),
{
    lemma_walk_admitted(dir, path, inherited, options);
    let walk = directory_walk(dir, path, inherited, options);
    let rules = rules_within(inherited, dir.gitignore, options);
    assert(route_admitted(walk.visits[i].route, rules, options));
}

/// The rules of a `.gitignore` file hold for its own directory and for all
/// below it: no rule in force within a directory, inherited or its own,
/// excludes an entry through which the walk of the directory reaches a
/// file, nor the file itself, at whatever depth it lies.
pub proof fn lemma_gitignore_reaches_down(
    dir: Directory,
    path: Seq<char>,
    inherited: Seq<Seq<char>>,
    options: OptionsView,
    i: int,
    j: int,
)
    requires
        !options.ignore_gitignore,
        0 <= i < directory_walk(dir, path, inherited, options).visits.len(),
        0 <= j < directory_walk(dir, path, inherited, options).visits[i].route.len(),
    ensures
        ({
            let route = directory_walk(dir, path, inherited, options).visits[i].route;
            &&& !excluded(
                rules_within(inherited, dir.gitignore, options),
                route[j],
                j + 1 < route.len(),
            )
            &&& !excluded(inherited, route[j], j + 1 < route.len())
            &&& dir.gitignore matches Some(Content::Text(text)) ==> !excluded(
                gitignore_rules(text@),
                route[j],
                j + 1 < route.len(),
            )
        }),
{
    lemma_walk_admitted(dir, path, inherited, options);
    let walk = directory_walk(dir, path, inherited, options);
    let rules = rules_within(inherited, dir.gitignore, options);
    let route = walk.visits[i].route;
    let is_dir = j + 1 < route.len();
    assert(route_admitted(route, rules, options));
    assert(admitted(route[j], is_dir, rules, options));
    if excluded(inherited, route[j], is_dir) {
        let k = choose|k: int|
            0 <= k < inherited.len() && rule_excludes(#[trigger] inherited[k], route[j], is_dir);
        assert(rules[k] == inherited[k]);
    }
    match dir.gitignore {
        Some(Content::Text(text)) => {
            let own = gitignore_rules(text@);
            if excluded(own, route[j], is_dir) {
                let k = choose|k: int|
                    0 <= k < own.len() && rule_excludes(#[trigger] own[k], route[j], is_dir);
                assert(rules[inherited.len() + k] == own[k]);
            }
        },
        _ => {},
    }
}

/// Where the ignore patterns are for files only, a directory is admitted
/// whatever the patterns are, while no file that a walk meets has a name
/// that a pattern hits. Where they are for all entries, no pattern hits a
/// name on the route to a file either.
pub proof fn lemma_ignore_patterns(
    dir: Directory,
    path: Seq<char>,
    inherited: Seq<Seq<char>>,
    options: OptionsView,
    name: Seq<char>,
    rules: Seq<Seq<char>>,
    i: int,
    j: int,
)
    requires
        0 <= i < directory_walk(dir, path, inherited, options).visits.len(),
        0 <= j < directory_walk(dir, path, inherited, options).visits[i].route.len(),
    ensures
        options.ignore_files_only ==> admitted(name, true, rules, options) == admitted(
            name,
            true,
            rules,
            OptionsView { ignore_patterns: Seq::empty(), ..options },
        ),
        !excluded(
            options.ignore_patterns,
            directory_walk(dir, path, inherited, options).visits[i].route.last(),
            false,
        ),
        !options.ignore_files_only ==> !excluded(
            options.ignore_patterns,
            directory_walk(dir, path, inherited, options).visits[i].route[j],
            false,
        ),
{
    lemma_walk_admitted(dir, path, inherited, options);
    let walk = directory_walk(dir, path, inherited, options);
    let within = rules_within(inherited, dir.gitignore, options);
    let route = walk.visits[i].route;
    assert(route_admitted(route, within, options));
    assert(admitted(route[route.len() - 1], false, within, options));
}

/// Two filters that agree on every item of a list keep the same items.
pub proof fn lemma_filter_agrees<A>(s: Seq<A>, p: spec_fn(A) -> bool, q: spec_fn(A) -> bool)
    requires
        forall|i: int| 0 <= i < s.len() ==> p(#[trigger] s[i]) == q(s[i]),
    ensures
        s.filter(p) == s.filter(q),
    decreases s.len(),
{
    reveal(Seq::filter);
    if s.len() > 0 {
        assert forall|i: int| 0 <= i < s.drop_last().len() implies p(#[trigger] s.drop_last()[i])
            == q(s.drop_last()[i]) by {
            assert(s.drop_last()[i] == s[i]);
        }
        lemma_filter_agrees(s.drop_last(), p, q);
    }
}

/// The order in which the entries of a directory are visited depends on
/// their names and on which of them are directories, and on nothing that
/// lies within them.
pub proof fn lemma_visiting_order_reads_names(
    first: Seq<Entry>,
    second: Seq<Entry>,
    rules: Seq<Seq<char>>,
    options: OptionsView,
)
    requires
        first.len() == second.len(),
        forall|i: int|
            0 <= i < first.len() ==> (#[trigger] first[i]).name@ == second[i].name@ && (
            first[i].node is Dir) == (second[i].node is Dir),
    ensures
        visiting_order(first, rules, options) == visiting_order(second, rules, options),
{
    let all = listing_positions(first.len());
    let p = |i: int| admitted(first[i].name@, first[i].node is Dir, rules, options);
    let q = |i: int| admitted(second[i].name@, second[i].node is Dir, rules, options);
    lemma_filter_agrees(all, p, q);
    assert(names(first) =~= names(second));
}

/// The rules of a `.gitignore` file reach no further than its own
/// directory: whatever a subdirectory holds, its `.gitignore` file
/// included, the entries beside it are visited in the same order, under the
/// same rules, and their walks come to the same.
pub proof fn lemma_gitignore_stays_within(
    first: Directory,
    second: Directory,
    k: int,
    path: Seq<char>,
    inherited: Seq<Seq<char>>,
    options: OptionsView,
    j: int,
)
    requires
        first.gitignore == second.gitignore,
        first.listing is Entries,
        second.listing is Entries,
        first.listing->Entries_0.len() == second.listing->Entries_0.len(),
        0 <= k < first.listing->Entries_0.len(),
        first.listing->Entries_0[k].name@ == second.listing->Entries_0[k].name@,
        first.listing->Entries_0[k].node is Dir,
        second.listing->Entries_0[k].node is Dir,
        forall|i: int|
            0 <= i < first.listing->Entries_0.len() && i != k ==> first.listing->Entries_0[i]
                == second.listing->Entries_0[i],
        j != k,
    ensures
        visiting_order(
            first.listing->Entries_0@,
            rules_within(inherited, first.gitignore, options),
            options,
        ) == visiting_order(
            second.listing->Entries_0@,
            rules_within(inherited, second.gitignore, options),
            options,
        ),
        entry_walk(first, j, path, rules_within(inherited, first.gitignore, options), options)
            == entry_walk(
            second,
            j,
            path,
            rules_within(inherited, second.gitignore, options),
            options,
        ),
{
    let rules = rules_within(inherited, first.gitignore, options);
    let a = first.listing->Entries_0@;
    let b = second.listing->Entries_0@;
    assert forall|i: int|
        0 <= i < a.len() implies (#[trigger] a[i]).name@ == b[i].name@ && (a[i].node is Dir) == (
        b[i].node is Dir) by {
        if i != k {
            assert(first.listing->Entries_0[i] == second.listing->Entries_0[i]);
        }
    }
    lemma_visiting_order_reads_names(a, b, rules, options);
    if 0 <= j < a.len() {
        assert(first.listing->Entries_0[j] == second.listing->Entries_0[j]);
    }
}

/// Whether two directories hold the same but for what reading their
/// `.gitignore` files gave, at every depth.
pub open spec fn same_but_gitignore(first: Directory, second: Directory) -> bool
    decreases first,
{
    match (first.listing, second.listing) {
        (Listing::Entries(a), Listing::Entries(b)) => a.len() == b.len() && forall|i: int|
            0 <= i < a.len() ==> (#[trigger] a[i]).name@ == b[i].name@ && match (
                a[i].node,
                b[i].node,
            ) {
                (Node::Dir(below), Node::Dir(other)) => same_but_gitignore(below, other),
                (Node::File(content), Node::File(other)) => content == other,
                (Node::Other, Node::Other) => true,
                _ => false,
            },
        (Listing::Unreadable(reason), Listing::Unreadable(other)) => reason@ == other@,
        _ => false,
    }
}

/// Where `.gitignore` files are left unread, nothing is excluded on their
/// account: whatever rules are inherited and whatever the `.gitignore`
/// files of the tree hold, readable or not, the walk comes to the same.
pub proof fn lemma_gitignore_unread(
    first: Directory,
    second: Directory,
    path: Seq<char>,
    rules: Seq<Seq<char>>,
    other_rules: Seq<Seq<char>>,
    options: OptionsView,
)
    requires
        options.ignore_gitignore,
        same_but_gitignore(first, second),
    ensures
        directory_walk(first, path, rules, options) == directory_walk(
            second,
            path,
            other_rules,
            options,
        ),
    decreases first, 2nat, 0nat,
{
    match (first.listing, second.listing) {
        (Listing::Entries(a), Listing::Entries(b)) => {
            let all = listing_positions(a.len() as nat);
            let p = |i: int| admitted(a@[i].name@, a@[i].node is Dir, rules, options);
            let q = |i: int| admitted(b@[i].name@, b@[i].node is Dir, other_rules, options);
            assert forall|i: int| 0 <= i < all.len() implies p(#[trigger] all[i]) == q(all[i]) by {
                assert(a[all[i]].name@ == b[all[i]].name@);
            }
            lemma_filter_agrees(all, p, q);
            assert(names(a@) =~= names(b@)) by {
                assert forall|i: int| 0 <= i < a.len() implies names(a@)[i] == names(b@)[i] by {
                    assert(a[i].name@ == b[i].name@);
                }
            }
            let order = visiting_order(a@, rules, options);
            assert(order == visiting_order(b@, other_rules, options));
            lemma_entries_gitignore_unread(
                first,
                second,
                order,
                path,
                rules,
                other_rules,
                options,
            );
        },
        _ => {},
    }
}

proof fn lemma_entries_gitignore_unread(
    first: Directory,
    second: Directory,
    order: Seq<int>,
    path: Seq<char>,
    rules: Seq<Seq<char>>,
    other_rules: Seq<Seq<char>>,
    options: OptionsView,
)
    requires
        options.ignore_gitignore,
        same_but_gitignore(first, second),
        first.listing is Entries,
    ensures
        entries_walk(first, order, path, rules, options) == entries_walk(
            second,
            order,
            path,
            other_rules,
            options,
        ),
    decreases first, 1nat, order.len(),
{
    if order.len() > 0 {
        lemma_entry_gitignore_unread(first, second, order[0], path, rules, other_rules, options);
        lemma_entries_gitignore_unread(
            first,
            second,
            order.drop_first(),
            path,
            rules,
            other_rules,
            options,
        );
    }
}

proof fn lemma_entry_gitignore_unread(
    first: Directory,
    second: Directory,
    k: int,
    path: Seq<char>,
    rules: Seq<Seq<char>>,
    other_rules: Seq<Seq<char>>,
    options: OptionsView,
)
    requires
        options.ignore_gitignore,
        same_but_gitignore(first, second),
        first.listing is Entries,
    ensures
        entry_walk(first, k, path, rules, options) == entry_walk(
            second,
            k,
            path,
            other_rules,
            options,
        ),
    decreases first, 0nat, 0nat,
{
    let a = first.listing->Entries_0;
    let b = second.listing->Entries_0;
    if 0 <= k < a.len() {
        assert(a[k].name@ == b[k].name@);
        match (a[k].node, b[k].node) {
            (Node::Dir(below), Node::Dir(other)) => {
                lemma_gitignore_unread(
                    below,
                    other,
                    crate::paths::join_path(path, a[k].name@),
                    rules,
                    other_rules,
                    options,
                );
            },
            _ => {},
        }
    }
}

/// Whether no two of the entries have one name.
pub open spec fn distinct_names(entries: Seq<Entry>) -> bool {
    forall|i: int, j: int|
        0 <= i < j < entries.len() ==> (#[trigger] entries[i]).name@ != (
        #[trigger] entries[j]).name@
}

/// Whether two directories hold the same but for the order of their
/// listings, at every depth. No name stands twice in a listing.
pub open spec fn reordered(first: Directory, second: Directory) -> bool
    decreases first,
{
    first.gitignore == second.gitignore && match (first.listing, second.listing) {
        (Listing::Entries(a), Listing::Entries(b)) => {
            &&& distinct_names(a@)
            &&& distinct_names(b@)
            &&& forall|i: int|
                0 <= i < a.len() ==> exists|j: int|
                    0 <= j < b.len() && (#[trigger] b[j]).name@ == (#[trigger] a[i]).name@
                        && node_reordered(a[i].node, b[j].node)
            &&& forall|j: int|
                0 <= j < b.len() ==> exists|i: int|
                    0 <= i < a.len() && (#[trigger] a[i]).name@ == (#[trigger] b[j]).name@
        },
        (Listing::Unreadable(reason), Listing::Unreadable(other)) => reason@ == other@,
        _ => false,
    }
}

/// Whether two entries are the same but for the order of the listings
/// within them.
pub open spec fn node_reordered(first: Node, second: Node) -> bool
    decreases first,
{
    match (first, second) {
        (Node::Dir(below), Node::Dir(other)) => reordered(below, other),
        (Node::File(content), Node::File(other)) => content == other,
        (Node::Other, Node::Other) => true,
        _ => false,
    }
}

proof fn lemma_partner(first: Directory, second: Directory, i: int, j: int)
    requires
        reordered(first, second),
        first.listing is Entries,
        0 <= i < first.listing->Entries_0.len(),
        0 <= j < second.listing->Entries_0.len(),
        first.listing->Entries_0[i].name@ == second.listing->Entries_0[j].name@,
    ensures
        node_reordered(first.listing->Entries_0[i].node, second.listing->Entries_0[j].node),
        (first.listing->Entries_0[i].node is Dir) == (second.listing->Entries_0[j].node is Dir),
{
    let a = first.listing->Entries_0;
    let b = second.listing->Entries_0;
    let other = choose|other: int|
        0 <= other < b.len() && (#[trigger] b[other]).name@ == a[i].name@ && node_reordered(
            a[i].node,
            b[other].node,
        );
    if other < j {
        assert(b@[other].name@ != b@[j].name@);
    } else if j < other {
        assert(b@[j].name@ != b@[other].name@);
    }
}

/// Two lists of names that hold the same names, each once, in ascending
/// order, are one list.
pub proof fn lemma_ascending_names_unique(first: Seq<Seq<char>>, second: Seq<Seq<char>>)
    requires
        first.no_duplicates(),
        second.no_duplicates(),
        forall|i: int, j: int|
            0 <= i < j < first.len() ==> crate::order::name_le(
                #[trigger] first[i],
                #[trigger] first[j],
            ),
        forall|i: int, j: int|
            0 <= i < j < second.len() ==> crate::order::name_le(
                #[trigger] second[i],
                #[trigger] second[j],
            ),
        forall|name: Seq<char>| #[trigger] first.contains(name) <==> second.contains(name),
    ensures
        first == second,
    decreases first.len(),
{
    if first.len() == 0 {
        if second.len() > 0 {
            assert(second.contains(second[0]));
            assert(first.contains(second[0]));
        }
        assert(first =~= second);
    } else {
        assert(first.contains(first[0]));
        assert(second.contains(first[0]));
        let i = choose|i: int| 0 <= i < second.len() && second[i] == first[0];
        assert(second.contains(second[0]));
        assert(first.contains(second[0]));
        let j = choose|j: int| 0 <= j < first.len() && first[j] == second[0];
        if i > 0 {
            assert(crate::order::name_le(second[0], second[i]));
            if j > 0 {
                assert(crate::order::name_le(first[0], first[j]));
                crate::order::lemma_name_le_antisymmetric(first[0], second[0]);
            }
        }
        assert(first[0] == second[0]);
        let a = first.drop_first();
        let b = second.drop_first();
        assert forall|name: Seq<char>| #[trigger] a.contains(name) <==> b.contains(name) by {
            if a.contains(name) {
                let k = choose|k: int| 0 <= k < a.len() && a[k] == name;
                assert(first[k + 1] == name);
                assert(first.contains(name));
                let m = choose|m: int| 0 <= m < second.len() && second[m] == name;
                assert(first[k + 1] != first[0]);
                assert(m > 0);
                assert(b[m - 1] == name);
            }
            if b.contains(name) {
                let k = choose|k: int| 0 <= k < b.len() && b[k] == name;
                assert(second[k + 1] == name);
                assert(second.contains(name));
                assert(first.contains(name));
                let m = choose|m: int| 0 <= m < first.len() && first[m] == name;
                assert(second[k + 1] != second[0]);
                assert(m > 0);
                assert(a[m - 1] == name);
            }
        }
        assert forall|i: int, j: int| 0 <= i < j < a.len() implies crate::order::name_le(
            #[trigger] a[i],
            #[trigger] a[j],
        ) by {
            assert(crate::order::name_le(first[i + 1], first[j + 1]));
        }
        assert forall|i: int, j: int| 0 <= i < j < b.len() implies crate::order::name_le(
            #[trigger] b[i],
            #[trigger] b[j],
        ) by {
            assert(crate::order::name_le(second[i + 1], second[j + 1]));
        }
        lemma_ascending_names_unique(a, b);
        assert(first =~= seq![first[0]] + a);
        assert(second =~= seq![second[0]] + b);
    }
}

/// The names of the entries `order`, in that order.
pub open spec fn names_along(entries: Seq<Entry>, order: Seq<int>) -> Seq<Seq<char>> {
    order.map_values(|k: int| entries[k].name@)
}

proof fn lemma_same_names_visited(
    first: Directory,
    second: Directory,
    rules: Seq<Seq<char>>,
    options: OptionsView,
)
    requires
        reordered(first, second),
        first.listing is Entries,
    ensures
        names_along(
            first.listing->Entries_0@,
            visiting_order(first.listing->Entries_0@, rules, options),
        ) == names_along(
            second.listing->Entries_0@,
            visiting_order(second.listing->Entries_0@, rules, options),
        ),
{
    let a = first.listing->Entries_0@;
    let b = second.listing->Entries_0@;
    let oa = visiting_order(a, rules, options);
    let ob = visiting_order(b, rules, options);
    let na = names_along(a, oa);
    let nb = names_along(b, ob);
    lemma_visiting_order(a, rules, options);
    lemma_visiting_order(b, rules, options);
    lemma_names_along(a, oa);
    lemma_names_along(b, ob);
    assert forall|name: Seq<char>| #[trigger] na.contains(name) <==> nb.contains(name) by {
        if na.contains(name) {
            let p = choose|p: int| 0 <= p < na.len() && na[p] == name;
            let i = oa[p];
            assert(oa.contains(i));
            let j = choose|j: int|
                0 <= j < b.len() && (#[trigger] b[j]).name@ == a[i].name@ && node_reordered(
                    a[i].node,
                    b[j].node,
                );
            lemma_partner(first, second, i, j);
            assert(ob.contains(j));
            let q = choose|q: int| 0 <= q < ob.len() && ob[q] == j;
            assert(nb[q] == name);
        }
        if nb.contains(name) {
            let q = choose|q: int| 0 <= q < nb.len() && nb[q] == name;
            let j = ob[q];
            assert(ob.contains(j));
            let i = choose|i: int| 0 <= i < a.len() && (#[trigger] a[i]).name@ == b[j].name@;
            lemma_partner(first, second, i, j);
            assert(oa.contains(i));
            let p = choose|p: int| 0 <= p < oa.len() && oa[p] == i;
            assert(na[p] == name);
        }
    }
    lemma_ascending_names_unique(na, nb);
}

proof fn lemma_names_along(entries: Seq<Entry>, order: Seq<int>)
    requires
        distinct_names(entries),
        order.no_duplicates(),
        ascending(names(entries), order),
        forall|k: int| #[trigger] order.contains(k) ==> 0 <= k < entries.len(),
    ensures
        names_along(entries, order).no_duplicates(),
        forall|i: int, j: int|
            0 <= i < j < order.len() ==> crate::order::name_le(
                #[trigger] names_along(entries, order)[i],
                #[trigger] names_along(entries, order)[j],
            ),
{
    let along = names_along(entries, order);
    assert forall|i: int, j: int| 0 <= i < along.len() && 0 <= j < along.len() && i
        != j implies along[i] != along[j] by {
        assert(order.contains(order[i]));
        assert(order.contains(order[j]));
        assert(order[i] != order[j]);
        if order[i] < order[j] {
            assert(entries[order[i]].name@ != entries[order[j]].name@);
        } else {
            assert(entries[order[j]].name@ != entries[order[i]].name@);
        }
    }
    assert forall|i: int, j: int| 0 <= i < j < order.len() implies crate::order::name_le(
        #[trigger] along[i],
        #[trigger] along[j],
    ) by {
        assert(order.contains(order[i]));
        assert(order.contains(order[j]));
        assert(crate::order::name_le(names(entries)[order[i]], names(entries)[order[j]]));
    }
}

/// The walk of a directory does not depend on the order in which the file
/// system lists its entries, nor those of any directory below it: the files
/// are met name by name at every depth.
pub proof fn lemma_walk_ignores_listing_order(
    first: Directory,
    second: Directory,
    path: Seq<char>,
    inherited: Seq<Seq<char>>,
    options: OptionsView,
)
    requires
        reordered(first, second),
    ensures
        directory_walk(first, path, inherited, options) == directory_walk(
            second,
            path,
            inherited,
            options,
        ),
    decreases first, 2nat, 0nat,
{
    let rules = rules_within(inherited, first.gitignore, options);
    match (first.listing, second.listing) {
        (Listing::Entries(a), Listing::Entries(b)) => {
            let oa = visiting_order(a@, rules, options);
            let ob = visiting_order(b@, rules, options);
            lemma_same_names_visited(first, second, rules, options);
            lemma_visiting_order(a@, rules, options);
            lemma_visiting_order(b@, rules, options);
            assert(names_along(a@, oa).len() == names_along(b@, ob).len());
            assert forall|p: int| 0 <= p < oa.len() implies 0 <= #[trigger] oa[p] < a.len() && 0
                <= ob[p] < b.len() && a[oa[p]].name@ == b[ob[p]].name@ by {
                assert(oa.contains(oa[p]));
                assert(ob.contains(ob[p]));
                assert(names_along(a@, oa)[p] == names_along(b@, ob)[p]);
            }
            lemma_reordered_entries(first, second, oa, ob, path, rules, options);
        },
        _ => {},
    }
}

proof fn lemma_reordered_entries(
    first: Directory,
    second: Directory,
    oa: Seq<int>,
    ob: Seq<int>,
    path: Seq<char>,
    rules: Seq<Seq<char>>,
    options: OptionsView,
)
    requires
        reordered(first, second),
        first.listing is Entries,
        oa.len() == ob.len(),
        forall|p: int|
            0 <= p < oa.len() ==> 0 <= #[trigger] oa[p] < first.listing->Entries_0.len() && 0
                <= ob[p] < second.listing->Entries_0.len()
                && first.listing->Entries_0[oa[p]].name@
                == second.listing->Entries_0[ob[p]].name@,
    ensures
        entries_walk(first, oa, path, rules, options) == entries_walk(
            second,
            ob,
            path,
            rules,
            options,
        ),
    decreases first, 1nat, oa.len(),
{
    if oa.len() > 0 {
        assert(0 <= oa[0] < first.listing->Entries_0.len());
        lemma_reordered_entry(first, second, oa[0], ob[0], path, rules, options);
        assert forall|p: int| 0 <= p < oa.drop_first().len() implies 0
            <= #[trigger] oa.drop_first()[p] < first.listing->Entries_0.len() && 0
            <= ob.drop_first()[p] < second.listing->Entries_0.len()
            && first.listing->Entries_0[oa.drop_first()[p]].name@
            == second.listing->Entries_0[ob.drop_first()[p]].name@ by {
            assert(oa.drop_first()[p] == oa[p + 1]);
            assert(ob.drop_first()[p] == ob[p + 1]);
        }
        lemma_reordered_entries(
            first,
            second,
            oa.drop_first(),
            ob.drop_first(),
            path,
            rules,
            options,
        );
    }
}

proof fn lemma_reordered_entry(
    first: Directory,
    second: Directory,
    i: int,
    j: int,
    path: Seq<char>,
    rules: Seq<Seq<char>>,
    options: OptionsView,
)
    requires
        reordered(first, second),
        first.listing is Entries,
        0 <= i < first.listing->Entries_0.len(),
        0 <= j < second.listing->Entries_0.len(),
        first.listing->Entries_0[i].name@ == second.listing->Entries_0[j].name@,
    ensures
        entry_walk(first, i, path, rules, options) == entry_walk(second, j, path, rules, options),
    decreases first, 0nat, 0nat,
{
    let a = first.listing->Entries_0;
    let b = second.listing->Entries_0;
    lemma_partner(first, second, i, j);
    match (a[i].node, b[j].node) {
        (Node::Dir(below), Node::Dir(other)) => {
            lemma_walk_ignores_listing_order(
                below,
                other,
                crate::paths::join_path(path, a[i].name@),
                rules,
                options,
            );
        },
        _ => {},
    }
}

/// How many of the files met were read.
pub open spec fn documents(visits: Seq<Visit>) -> nat
    decreases visits.len(),
{
    if visits.len() == 0 {
        0
    } else {
        documents(visits.drop_last()) + if visits.last().content is Text {
            1nat
        } else {
            0nat
        }
    }
}

/// In the tagged envelope the index moves on by one for each file that was
/// read and written out, and stays for each that was not. In the other
/// envelopes it stays as it is.
pub proof fn lemma_index_counts_documents(
    session: SessionView,
    visits: Seq<Visit>,
    options: OptionsView,
    table: Seq<(Seq<char>, Seq<char>)>,
)
    ensures
        record_all(session, visits, options, table).next_index == if options.format
            == Format::Xml {
            session.next_index + documents(visits)
        } else {
            session.next_index
        },
    decreases visits.len(),
{
    if visits.len() > 0 {
        lemma_index_counts_documents(session, visits.drop_last(), options, table);
    }
}

/// In the tagged envelope the first document of a fresh session has the
/// index 1, and each document has the index of the one before it and one
/// more: the document of the file at position `i` carries the index that
/// the session began with, raised by the number of files read before it.
pub proof fn lemma_document_indices(
    session: SessionView,
    visits: Seq<Visit>,
    options: OptionsView,
    table: Seq<(Seq<char>, Seq<char>)>,
    i: int,
)
    requires
        options.format == Format::Xml,
        0 <= i < visits.len(),
        visits[i].content is Text,
    ensures
        SessionView::fresh().next_index == 1,
        record_all(session, visits.take(i + 1), options, table).output == record_all(
            session,
            visits.take(i),
            options,
            table,
        ).output + xml_document(
            session.next_index + documents(visits.take(i)),
            visits[i].path,
            visits[i].content->Text_0@,
            options.line_numbers,
        ),
{
    lemma_index_counts_documents(session, visits.take(i), options, table);
    assert(visits.take(i + 1).drop_last() == visits.take(i));
    assert(visits.take(i + 1).last() == visits[i]);
}

} // verus!
