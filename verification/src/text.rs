//! Text as sequences of characters.
//!
//! Every contract of this crate speaks of text as a `Seq<char>`. The functions
//! here carry a `str` into a `Vec<char>` and back, and give the small
//! operations on characters that the rest of the crate is built from:
//! slices, whitespace, trimming, lines and fields.

use vstd::prelude::*;

verus! {

/// `String::push` appends the character to the end of the string and leaves
/// what was there before untouched.
pub assume_specification[ String::push ](s: &mut String, c: char)
    ensures
        final(s)@ == old(s)@.push(c),
;

/// The views of the rows of a table of characters.
pub open spec fn rows(v: Seq<Vec<char>>) -> Seq<Seq<char>> {
    v.map_values(|row: Vec<char>| row@)
}

/// The views of a list of strings.
pub open spec fn texts(v: Seq<String>) -> Seq<Seq<char>> {
    v.map_values(|s: String| s@)
}

/// The characters of `s`, in order.
pub fn chars_of(s: &str) -> (v: Vec<char>)
    ensures
        v@ == s@,
{
    let mut v: Vec<char> = Vec::new();
    for c in it: s.chars()
        invariant
            v@ == it.seq().take(it.index() as int),
    {
        v.push(c);
    }
    v
}

/// Appends the characters of `chars` to `out`.
pub fn append_chars(out: &mut String, chars: &Vec<char>)
    ensures
        final(out)@ == old(out)@ + chars@,
{
    let mut i: usize = 0;
    while i < chars.len()
        invariant
            i <= chars.len(),
            out@ == old(out)@ + chars@.take(i as int),
        decreases chars.len() - i,
    {
        out.push(chars[i]);
        i += 1;
    }
}

/// The string made of the characters of `chars`.
pub fn string_of(chars: &Vec<char>) -> (s: String)
    ensures
        s@ == chars@,
{
    let mut s = String::new();
    append_chars(&mut s, chars);
    s
}

/// A copy of a list of strings.
pub fn clone_strings(list: &Vec<String>) -> (copy: Vec<String>)
    ensures
        texts(copy@) == texts(list@),
{
    let mut copy: Vec<String> = Vec::new();
    let mut i: usize = 0;
    while i < list.len()
        invariant
            i <= list.len(),
            texts(copy@) == texts(list@.take(i as int)),
        decreases list.len() - i,
    {
        let item = list[i].clone();
        proof {
            assert(list@.take(i + 1) == list@.take(i as int).push(list@[i as int]));
            assert(texts(copy@.push(item)) == texts(copy@).push(item@));
            assert(texts(list@.take(i as int).push(list@[i as int])) == texts(
                list@.take(i as int),
            ).push(list@[i as int]@));
        }
        copy.push(item);
        i += 1;
    }
    proof {
        assert(list@.take(list.len() as int) == list@);
    }
    copy
}

/// The characters of `text` from position `from` up to, not including, `to`.
pub(crate) fn slice(text: &Vec<char>, from: usize, to: usize) -> (out: Vec<char>)
    requires
        from <= to <= text.len(),
    ensures
        out@ == text@.subrange(from as int, to as int),
{
    let mut out: Vec<char> = Vec::new();
    let mut i: usize = from;
    while i < to
        invariant
            from <= i <= to <= text.len(),
            out@ == text@.subrange(from as int, i as int),
        decreases to - i,
    {
        out.push(text[i]);
        i += 1;
    }
    out
}

/// The characters with the Unicode property `White_Space`.
pub open spec fn is_space(c: char) -> bool {
    let u = c as u32;
    ||| 0x09 <= u <= 0x0D
    ||| u == 0x20
    ||| u == 0x85
    ||| u == 0xA0
    ||| u == 0x1680
    ||| 0x2000 <= u <= 0x200A
    ||| u == 0x2028
    ||| u == 0x2029
    ||| u == 0x202F
    ||| u == 0x205F
    ||| u == 0x3000
}

/// Whether `c` is white space.
pub fn is_whitespace(c: char) -> (b: bool)
    ensures
        b == is_space(c),
{
    let u: u32 = c as u32;
    (0x09 <= u && u <= 0x0D) || u == 0x20 || u == 0x85 || u == 0xA0 || u == 0x1680 || (0x2000 <= u
        && u <= 0x200A) || u == 0x2028 || u == 0x2029 || u == 0x202F || u == 0x205F || u == 0x3000
}

/// `s` without the white space it starts with.
pub open spec fn trim_start(s: Seq<char>) -> Seq<char>
    decreases s.len(),
{
    if s.len() > 0 && is_space(s[0]) {
        trim_start(s.drop_first())
    } else {
        s
    }
}

/// `s` without the white space it ends with.
pub open spec fn trim_end(s: Seq<char>) -> Seq<char>
    decreases s.len(),
{
    if s.len() > 0 && is_space(s.last()) {
        trim_end(s.drop_last())
    } else {
        s
    }
}

/// `s` without white space at either end.
pub open spec fn trimmed(s: Seq<char>) -> Seq<char> {
    trim_end(trim_start(s))
}

/// `text` without white space at either end.
pub fn trim(text: &Vec<char>) -> (out: Vec<char>)
    ensures
        out@ == trimmed(text@),
{
    let n = text.len();
    let mut a: usize = 0;
    proof {
        assert(text@.skip(0) == text@);
    }
    while a < n && is_whitespace(text[a])
        invariant
            a <= n == text.len(),
            trim_start(text@) == trim_start(text@.skip(a as int)),
        decreases n - a,
    {
        proof {
            assert(text@.skip(a as int).drop_first() == text@.skip(a + 1));
        }
        a += 1;
    }
    proof {
        assert(text@.skip(a as int) == text@.subrange(a as int, n as int));
    }
    let mut b: usize = n;
    while b > a && is_whitespace(text[b - 1])
        invariant
            a <= b <= n == text.len(),
            trimmed(text@) == trim_end(text@.subrange(a as int, b as int)),
        decreases b,
    {
        proof {
            assert(text@.subrange(a as int, b as int).drop_last() == text@.subrange(
                a as int,
                b - 1,
            ));
        }
        b -= 1;
    }
    slice(text, a, b)
}

/// The position of the first `c` in `s`, or the length of `s` where there is
/// none.
pub open spec fn first_index(s: Seq<char>, c: char) -> nat
    decreases s.len(),
{
    if s.len() == 0 || s[0] == c {
        0
    } else {
        1 + first_index(s.drop_first(), c)
    }
}

/// A position that only other characters precede, and where a `c` stands
/// unless it is the end, is the `first_index`.
pub proof fn lemma_first_index_at(s: Seq<char>, c: char, k: int)
    requires
        0 <= k <= s.len(),
        forall|j: int| 0 <= j < k ==> s[j] != c,
        k < s.len() ==> s[k] == c,
    ensures
        first_index(s, c) == k,
    decreases s.len(),
{
    if s.len() == 0 || s[0] == c {
    } else {
        let rest = s.drop_first();
        assert forall|j: int| 0 <= j < k - 1 implies rest[j] != c by {
            assert(rest[j] == s[j + 1]);
        }
        lemma_first_index_at(rest, c, k - 1);
    }
}

/// `line` without a carriage return at its end.
pub open spec fn strip_cr(line: Seq<char>) -> Seq<char> {
    if line.len() > 0 && line.last() == '\r' {
        line.drop_last()
    } else {
        line
    }
}

/// The lines of `s`. A line ends at a line feed, and a carriage return just
/// before that line feed belongs to the line ending. The last line needs no
/// line ending, and an empty last line is no line.
pub open spec fn lines(s: Seq<char>) -> Seq<Seq<char>>
    decreases s.len(),
{
    if s.len() == 0 {
        Seq::empty()
    } else {
        let k = first_index(s, '\n');
        if k >= s.len() {
            seq![s]
        } else {
            seq![strip_cr(s.take(k as int))] + lines(s.skip(k as int + 1))
        }
    }
}

/// The lines of `text`.
pub fn split_lines(text: &Vec<char>) -> (out: Vec<Vec<char>>)
    ensures
        rows(out@) == lines(text@),
{
    let n = text.len();
    let mut out: Vec<Vec<char>> = Vec::new();
    let mut start: usize = 0;
    let mut i: usize = 0;
    proof {
        assert(text@.skip(0) == text@);
        assert(rows(out@) + lines(text@) == lines(text@));
    }
    while i < n
        invariant
            start <= i <= n == text.len(),
            forall|j: int| start <= j < i ==> text@[j] != '\n',
            lines(text@) == rows(out@) + lines(text@.skip(start as int)),
        decreases n - i,
    {
        if text[i] == '\n' {
            let end = if i > start && text[i - 1] == '\r' {
                i - 1
            } else {
                i
            };
            let line = slice(text, start, end);
            proof {
                let rest = text@.skip(start as int);
                assert forall|j: int| 0 <= j < i - start implies rest[j] != '\n' by {
                    assert(rest[j] == text@[start + j]);
                }
                lemma_first_index_at(rest, '\n', i - start);
                assert(rest.take(i - start) == text@.subrange(start as int, i as int));
                assert(strip_cr(text@.subrange(start as int, i as int)) == line@);
                assert(rest.skip(i - start + 1) == text@.skip(i + 1));
                assert(lines(rest) == seq![line@] + lines(text@.skip(i + 1)));
                assert(rows(out@.push(line)) == rows(out@) + seq![line@]);
            }
            out.push(line);
            start = i + 1;
        }
        i += 1;
    }
    proof {
        let rest = text@.skip(start as int);
        if start < n {
            assert forall|j: int| 0 <= j < n - start implies rest[j] != '\n' by {
                assert(rest[j] == text@[start + j]);
            }
            lemma_first_index_at(rest, '\n', n - start);
            assert(lines(rest) == seq![rest]);
            assert(rest == text@.subrange(start as int, n as int));
        } else {
            assert(lines(rest) == Seq::<Seq<char>>::empty());
        }
    }
    if start < n {
        let line = slice(text, start, n);
        proof {
            assert(rows(out@.push(line)) == rows(out@) + seq![line@]);
        }
        out.push(line);
    }
    out
}

/// The lines joined again, with one line feed between each two.
pub open spec fn join_lines(lines: Seq<Seq<char>>) -> Seq<char>
    decreases lines.len(),
{
    if lines.len() == 0 {
        Seq::empty()
    } else if lines.len() == 1 {
        lines[0]
    } else {
        join_lines(lines.drop_last()) + seq!['\n'] + lines.last()
    }
}

/// Whether `c` parts two fields: the null character where the fields are
/// null-separated, white space where they are not.
pub open spec fn is_separator(c: char, null_separated: bool) -> bool {
    if null_separated {
        c == '\0'
    } else {
        is_space(c)
    }
}

/// How many characters at the start of `s` are no separators.
pub open spec fn field_length(s: Seq<char>, null_separated: bool) -> nat
    decreases s.len(),
{
    if s.len() == 0 || is_separator(s[0], null_separated) {
        0
    } else {
        1 + field_length(s.drop_first(), null_separated)
    }
}

/// `field_length` lies within `s`.
pub proof fn lemma_field_length_bound(s: Seq<char>, null_separated: bool)
    ensures
        field_length(s, null_separated) <= s.len(),
    decreases s.len(),
{
    if s.len() == 0 || is_separator(s[0], null_separated) {
    } else {
        lemma_field_length_bound(s.drop_first(), null_separated);
    }
}

/// A position that no separator precedes, and where a separator stands
/// unless it is the end, is the `field_length`.
pub proof fn lemma_field_length_at(s: Seq<char>, null_separated: bool, k: int)
    requires
        0 <= k <= s.len(),
        forall|j: int| 0 <= j < k ==> !is_separator(s[j], null_separated),
        k < s.len() ==> is_separator(s[k], null_separated),
    ensures
        field_length(s, null_separated) == k,
    decreases s.len(),
{
    if s.len() == 0 || is_separator(s[0], null_separated) {
    } else {
        let rest = s.drop_first();
        assert forall|j: int| 0 <= j < k - 1 implies !is_separator(rest[j], null_separated) by {
            assert(rest[j] == s[j + 1]);
        }
        lemma_field_length_at(rest, null_separated, k - 1);
    }
}

/// The fields of `s`: its longest stretches without a separator, none of
/// them empty, in order.
pub open spec fn fields(s: Seq<char>, null_separated: bool) -> Seq<Seq<char>>
    decreases s.len(),
{
    if s.len() == 0 {
        Seq::empty()
    } else if is_separator(s[0], null_separated) {
        fields(s.drop_first(), null_separated)
    } else {
        let n = field_length(s, null_separated);
        proof {
            lemma_field_length_bound(s, null_separated);
        }
        seq![s.take(n as int)] + fields(s.skip(n as int), null_separated)
    }
}

/// Whether `c` parts two fields.
pub fn parts_fields(c: char, null_separated: bool) -> (b: bool)
    ensures
        b == is_separator(c, null_separated),
{
    if null_separated {
        c == '\0'
    } else {
        is_whitespace(c)
    }
}

/// The fields of `text`.
pub fn split_fields(text: &Vec<char>, null_separated: bool) -> (out: Vec<Vec<char>>)
    ensures
        rows(out@) == fields(text@, null_separated),
{
    let n = text.len();
    let mut out: Vec<Vec<char>> = Vec::new();
    let mut i: usize = 0;
    proof {
        assert(text@.skip(0) == text@);
        assert(rows(out@) + fields(text@, null_separated) == fields(text@, null_separated));
    }
    while i < n
        invariant
            i <= n == text.len(),
            fields(text@, null_separated) == rows(out@) + fields(
                text@.skip(i as int),
                null_separated,
            ),
        decreases n - i,
    {
        if parts_fields(text[i], null_separated) {
            proof {
                assert(text@.skip(i as int).drop_first() == text@.skip(i + 1));
            }
            i += 1;
        } else {
            let start = i;
            while i < n && !parts_fields(text[i], null_separated)
                invariant
                    start <= i <= n == text.len(),
                    forall|j: int| start <= j < i ==> !is_separator(text@[j], null_separated),
                decreases n - i,
            {
                i += 1;
            }
            let field = slice(text, start, i);
            proof {
                let rest = text@.skip(start as int);
                assert forall|j: int| 0 <= j < i - start implies !is_separator(
                    rest[j],
                    null_separated,
                ) by {
                    assert(rest[j] == text@[start + j]);
                }
                lemma_field_length_at(rest, null_separated, i - start);
                assert(rest.take(i - start) == field@);
                assert(rest.skip(i - start) == text@.skip(i as int));
                assert(rows(out@.push(field)) == rows(out@) + seq![field@]);
            }
            out.push(field);
        }
    }
    proof {
        assert(fields(text@.skip(n as int), null_separated) == Seq::<Seq<char>>::empty());
    }
    out
}

} // verus!
