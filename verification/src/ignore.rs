//! Ignore rules: glob patterns that names are held against, and the rules
//! that a `.gitignore` file holds.

use vstd::prelude::*;
use vstd::string::StringExecFns;
use crate::text::{chars_of, lines, rows, split_lines, string_of, texts, trim, trimmed};

verus! {

/// What the `glob` crate makes of `pattern` and `text`: `None` where it
/// does not take `pattern` for a pattern, else whether the pattern matches
/// `text`.
pub uninterp spec fn glob_match(pattern: Seq<char>, text: Seq<char>) -> Option<bool>;

/// Compiles `pattern` with `glob::Pattern::new` and holds `text` against it
/// with `glob::Pattern::matches`.
///
/// Nothing is proved of this function. Its contract claims that the outcome
/// is a function of the two texts alone, which `glob_match` names: `None`
/// where `Pattern::new` returns an error, else `Some` of what `matches`
/// returns. Both read nothing but their arguments; the path separators they
/// know are those of the platform the crate is built for.
#[verifier::external_body]
fn glob_matches(pattern: &str, text: &str) -> (outcome: Option<bool>)
    ensures
        outcome == glob_match(pattern@, text@),
{
    match glob::Pattern::new(pattern) {
        Ok(compiled) => Some(compiled.matches(text)),
        Err(_) => None,
    }
}

/// The pattern that stands in for one that does not compile.
pub open spec fn wildcard() -> Seq<char> {
    "*"@
}

/// Whether a rule hits, given what `glob` made of the rule itself (`own`)
/// and of the wildcard (`any`) on the same text. A rule that compiles
/// decides for itself; for one that does not, the wildcard decides.
pub open spec fn verdict(own: Option<bool>, any: Option<bool>) -> bool {
    match own {
        Some(hit) => hit,
        None => any == Some(true),
    }
}

/// Whether a rule hits, given what `glob` made of the rule itself and of the
/// wildcard on the same text.
pub fn settle(own: Option<bool>, any: Option<bool>) -> (hit: bool)
    ensures
        hit == verdict(own, any),
{
    match own {
        Some(hit) => hit,
        None => match any {
            Some(hit) => hit,
            None => false,
        },
    }
}

/// Whether `rule` hits `text`: whether it matches as a glob pattern, and for
/// a rule that is no pattern, whether the wildcard does.
pub open spec fn rule_hits(rule: Seq<char>, text: Seq<char>) -> bool {
    verdict(glob_match(rule, text), glob_match(wildcard(), text))
}

/// Whether `rule` hits `text`.
pub fn rule_matches(rule: &str, text: &str) -> (hit: bool)
    ensures
        hit == rule_hits(rule@, text@),
{
    let own = glob_matches(rule, text);
    if own.is_some() {
        settle(own, None)
    } else {
        settle(own, glob_matches("*", text))
    }
}

/// Whether `rule` excludes an entry called `name`: it does where it hits
/// the name, and for a directory also where it hits the name with a `/`
/// behind it.
pub open spec fn rule_excludes(rule: Seq<char>, name: Seq<char>, is_dir: bool) -> bool {
    rule_hits(rule, name) || (is_dir && rule_hits(rule, name.push('/')))
}

/// Whether one of `rules` excludes an entry called `name`.
pub open spec fn excluded(rules: Seq<Seq<char>>, name: Seq<char>, is_dir: bool) -> bool {
    exists|i: int| 0 <= i < rules.len() && rule_excludes(#[trigger] rules[i], name, is_dir)
}

/// Whether one of `gitignore_rules` excludes the entry called `name`, which
/// is a directory where `is_dir` holds.
pub fn should_ignore(name: &str, is_dir: bool, gitignore_rules: &Vec<String>) -> (ignore: bool)
    ensures
        ignore == excluded(texts(gitignore_rules@), name@, is_dir),
{
    let mut with_slash = String::from_str(name);
    with_slash.push('/');
    let mut i: usize = 0;
    while i < gitignore_rules.len()
        invariant
            i <= gitignore_rules.len(),
            with_slash@ == name@.push('/'),
            forall|k: int|
                0 <= k < i ==> !rule_excludes(
                    #[trigger] texts(gitignore_rules@)[k],
                    name@,
                    is_dir,
                ),
        decreases gitignore_rules.len() - i,
    {
        let rule = gitignore_rules[i].as_str();
        proof {
            assert(texts(gitignore_rules@)[i as int] == rule@);
        }
        if rule_matches(rule, name) {
            return true;
        }
        if is_dir && rule_matches(rule, with_slash.as_str()) {
            return true;
        }
        i += 1;
    }
    false
}

/// Whether a trimmed line of a `.gitignore` file is a rule: it is unless it
/// is empty or a comment, which starts with `#`.
pub open spec fn is_rule(line: Seq<char>) -> bool {
    line.len() > 0 && line[0] != '#'
}

/// The rules that a `.gitignore` file with the content `text` holds: its
/// lines, without white space at either end, that are neither empty nor
/// comments.
pub open spec fn gitignore_rules(text: Seq<char>) -> Seq<Seq<char>> {
    lines(text).map_values(|line: Seq<char>| trimmed(line)).filter(|line: Seq<char>| is_rule(line))
}

/// The rules that a `.gitignore` file with the content `text` holds.
pub fn parse_gitignore(text: &str) -> (rules: Vec<String>)
    ensures
        texts(rules@) == gitignore_rules(text@),
{
    let content = chars_of(text);
    let all = split_lines(&content);
    let ghost trim_line = |line: Seq<char>| trimmed(line);
    let ghost keep = |line: Seq<char>| is_rule(line);
    let mut rules: Vec<String> = Vec::new();
    let mut i: usize = 0;
    proof {
        assert(lines(text@).take(0).map_values(trim_line) == Seq::<Seq<char>>::empty());
        reveal(Seq::filter);
        assert(texts(rules@) == lines(text@).take(0).map_values(trim_line).filter(keep));
    }
    while i < all.len()
        invariant
            i <= all.len(),
            rows(all@) == lines(text@),
            trim_line == |line: Seq<char>| trimmed(line),
            keep == |line: Seq<char>| is_rule(line),
            texts(rules@) == lines(text@).take(i as int).map_values(trim_line).filter(keep),
        decreases all.len() - i,
    {
        let line = trim(&all[i]);
        proof {
            let done = lines(text@).take(i as int);
            assert(rows(all@)[i as int] == all@[i as int]@);
            assert(lines(text@).take(i + 1) == done.push(lines(text@)[i as int]));
            assert(done.push(lines(text@)[i as int]).map_values(trim_line) == done.map_values(
                trim_line,
            ).push(line@));
            done.map_values(trim_line).lemma_filter_push(line@, keep);
        }
        if line.len() > 0 && line[0] != '#' {
            let rule = string_of(&line);
            proof {
                assert(texts(rules@.push(rule)) == texts(rules@).push(rule@));
            }
            rules.push(rule);
        }
        i += 1;
    }
    proof {
        assert(lines(text@).take(all.len() as int) == lines(text@));
    }
    rules
}

} // verus!
