//! Line numbers in front of the lines of a text.

use vstd::prelude::*;
use crate::decimal::{decimal, decimal_digits, lemma_decimal_len};
use crate::text::{chars_of, join_lines, lines, rows, split_lines};

verus! {

/// `n` spaces.
pub open spec fn spaces(n: nat) -> Seq<char> {
    Seq::new(n, |i: int| ' ')
}

/// `text` moved to the right end of a column `width` wide. A text wider than
/// the column stays as it is.
pub open spec fn right_aligned(text: Seq<char>, width: nat) -> Seq<char> {
    if text.len() < width {
        spaces((width - text.len()) as nat) + text
    } else {
        text
    }
}

/// What stands in front of the line with the given number: the number,
/// right-aligned in a column `width` wide, and two spaces.
pub open spec fn line_prefix(number: nat, width: nat) -> Seq<char> {
    right_aligned(decimal(number), width) + seq![' ', ' ']
}

/// How wide the column of the numbers is where `count` lines are numbered:
/// as wide as the number of the last line.
pub open spec fn number_width(count: nat) -> nat {
    decimal(count).len()
}

/// Each line behind its number. The first line has the number 1.
pub open spec fn numbered_lines(lines: Seq<Seq<char>>) -> Seq<Seq<char>> {
    Seq::new(
        lines.len(),
        |i: int| line_prefix((i + 1) as nat, number_width(lines.len())) + lines[i],
    )
}

/// `content` with each of its lines behind its number. The lines are joined
/// by line feeds, and no line feed follows the last.
pub open spec fn numbered(content: Seq<char>) -> Seq<char> {
    join_lines(numbered_lines(lines(content)))
}

/// Every numbered line is its number's column, two spaces and the line as it
/// was: the column is as wide as the last line's number, and behind the
/// prefix the line stands unchanged.
pub proof fn lemma_numbering_keeps_lines(content: Seq<char>, i: int)
    requires
        0 <= i < lines(content).len(),
    ensures
        numbered_lines(lines(content)).len() == lines(content).len(),
        ({
            let all = lines(content);
            let width = decimal(all.len()).len() as int;
            let line = numbered_lines(all)[i];
            &&& line.len() == width + 2 + all[i].len()
            &&& line.take(width + 2) == line_prefix((i + 1) as nat, width as nat)
            &&& line.skip(width + 2) == all[i]
        }),
{
    let all = lines(content);
    let width = number_width(all.len()) as int;
    let prefix = line_prefix((i + 1) as nat, width as nat);
    lemma_decimal_len((i + 1) as nat, all.len());
    assert(right_aligned(decimal((i + 1) as nat), width as nat).len() == width);
    assert(prefix.len() == width + 2);
    let whole = prefix + all[i];
    assert(numbered_lines(all)[i] == whole);
    assert(whole.take(width + 2) == prefix);
    assert(whole.skip(width + 2) == all[i]);
}

/// Appends `n` spaces to `out`.
fn push_spaces(out: &mut Vec<char>, n: usize)
    ensures
        final(out)@ == old(out)@ + spaces(n as nat),
{
    let mut i: usize = 0;
    while i < n
        invariant
            i <= n,
            out@ == old(out)@ + spaces(i as nat),
        decreases n - i,
    {
        out.push(' ');
        proof {
            assert(spaces((i + 1) as nat) == spaces(i as nat).push(' '));
        }
        i += 1;
    }
}

/// Appends the characters of `more` to `out`.
pub fn extend_chars(out: &mut Vec<char>, more: &Vec<char>)
    ensures
        final(out)@ == old(out)@ + more@,
{
    let mut i: usize = 0;
    while i < more.len()
        invariant
            i <= more.len(),
            out@ == old(out)@ + more@.take(i as int),
        decreases more.len() - i,
    {
        out.push(more[i]);
        proof {
            assert(more@.take(i + 1) == more@.take(i as int).push(more@[i as int]));
        }
        i += 1;
    }
    proof {
        assert(more@.take(more.len() as int) == more@);
    }
}

/// The lines of `text`, each behind its number, joined by line feeds.
pub fn number_lines(text: &Vec<char>) -> (out: Vec<char>)
    ensures
        out@ == numbered(text@),
{
    let all = split_lines(text);
    let count = all.len();
    let width = decimal_digits(count).len();
    let ghost target = numbered_lines(lines(text@));
    let mut out: Vec<char> = Vec::new();
    let mut i: usize = 0;
    proof {
        assert(target.take(0) == Seq::<Seq<char>>::empty());
    }
    while i < count
        invariant
            i <= count == all.len(),
            rows(all@) == lines(text@),
            width == number_width(count as nat),
            target == numbered_lines(lines(text@)),
            out@ == join_lines(target.take(i as int)),
        decreases count - i,
    {
        let ghost before = out@;
        if i > 0 {
            out.push('\n');
        }
        let number = decimal_digits(i + 1);
        if number.len() < width {
            push_spaces(&mut out, width - number.len());
        }
        extend_chars(&mut out, &number);
        out.push(' ');
        out.push(' ');
        extend_chars(&mut out, &all[i]);
        proof {
            let line = line_prefix((i + 1) as nat, width as nat) + lines(text@)[i as int];
            assert(rows(all@)[i as int] == all@[i as int]@);
            assert(target[i as int] == line);
            let sep = if i > 0 {
                seq!['\n']
            } else {
                Seq::<char>::empty()
            };
            assert(out@ == before + sep + line);
            let done = target.take(i + 1);
            assert(done.drop_last() == target.take(i as int));
            assert(done.last() == line);
            if i == 0 {
                assert(done.len() == 1);
                assert(before == Seq::<char>::empty());
                assert(out@ == line);
            }
        }
        i += 1;
    }
    proof {
        assert(target.take(count as int) == target);
    }
    out
}

/// `content` with a line number in front of each of its lines.
///
/// The numbers start at 1 and are right-aligned in a column as wide as the
/// number of the last line; two spaces part a number from its line. The
/// numbered lines are joined by line feeds: line endings of `content` are
/// not kept, and the result ends without one.
pub fn add_line_numbers(content: &str) -> (out: String)
    ensures
        out@ == numbered(content@),
{
    let text = chars_of(content);
    let out = number_lines(&text);
    crate::text::string_of(&out)
}

} // verus!
