//! The index of the next document: a counter without an upper bound, kept
//! as the decimal digits that are written out.

use vstd::prelude::*;
use crate::decimal::{decimal, digit};
use crate::text::slice;

verus! {

/// The digit after `c`.
pub open spec fn next_digit(c: char) -> char {
    if c == '0' {
        '1'
    } else if c == '1' {
        '2'
    } else if c == '2' {
        '3'
    } else if c == '3' {
        '4'
    } else if c == '4' {
        '5'
    } else if c == '5' {
        '6'
    } else if c == '6' {
        '7'
    } else if c == '7' {
        '8'
    } else {
        '9'
    }
}

/// The numeral after `digits`: a last digit below nine is raised; a nine
/// becomes a zero and the numeral in front of it is followed in turn.
pub open spec fn successor(digits: Seq<char>) -> Seq<char>
    decreases digits.len(),
{
    if digits.len() == 0 {
        seq!['1']
    } else if digits.last() == '9' {
        successor(digits.drop_last()).push('0')
    } else {
        digits.drop_last().push(next_digit(digits.last()))
    }
}

/// The numeral after the decimal of `n` is the decimal of `n + 1`.
pub proof fn lemma_successor(n: nat)
    ensures
        successor(decimal(n)) == decimal(n + 1),
    decreases n,
{
    if n < 10 {
        assert(decimal(n).drop_last() == Seq::<char>::empty());
        if n == 9 {
            assert(decimal(10) == decimal(1).push(digit(0)));
            assert(successor(Seq::<char>::empty()).push('0') == decimal(1).push(digit(0)));
        } else {
            assert(Seq::<char>::empty().push(next_digit(digit(n))) == seq![digit(n + 1)]);
        }
    } else {
        let head = decimal(n / 10);
        assert(decimal(n) == head.push(digit(n % 10)));
        assert(decimal(n).drop_last() == head);
        assert(decimal(n + 1) == decimal((n + 1) / 10).push(digit((n + 1) % 10)));
        if n % 10 == 9 {
            lemma_successor(n / 10);
            assert((n + 1) / 10 == n / 10 + 1);
        } else {
            assert((n + 1) / 10 == n / 10);
            assert(next_digit(digit(n % 10)) == digit((n + 1) % 10));
        }
    }
}

fn following_digit(c: char) -> (next: char)
    ensures
        next == next_digit(c),
{
    if c == '0' {
        '1'
    } else if c == '1' {
        '2'
    } else if c == '2' {
        '3'
    } else if c == '3' {
        '4'
    } else if c == '4' {
        '5'
    } else if c == '5' {
        '6'
    } else if c == '6' {
        '7'
    } else if c == '7' {
        '8'
    } else {
        '9'
    }
}

fn successor_digits(digits: &Vec<char>, len: usize) -> (out: Vec<char>)
    requires
        len <= digits.len(),
    ensures
        out@ == successor(digits@.take(len as int)),
    decreases len,
{
    if len == 0 {
        let mut out: Vec<char> = Vec::new();
        out.push('1');
        out
    } else if digits[len - 1] == '9' {
        let mut out = successor_digits(digits, len - 1);
        out.push('0');
        proof {
            assert(digits@.take(len as int).drop_last() == digits@.take(len - 1));
        }
        out
    } else {
        let mut out = slice(digits, 0, len - 1);
        out.push(following_digit(digits[len - 1]));
        proof {
            assert(digits@.take(len as int).drop_last() == digits@.subrange(0, len - 1));
        }
        out
    }
}

/// The index that the next document gets. It starts at 1, goes up by one at
/// a time, and has no upper bound.
pub struct DocumentIndex {
    digits: Vec<char>,
    value: Ghost<nat>,
}

impl DocumentIndex {
    #[verifier::type_invariant]
    spec fn digits_spell_value(&self) -> bool {
        self.digits@ == decimal(self.value@)
    }

    /// The index as a number.
    pub closed spec fn value(&self) -> nat {
        self.value@
    }

    /// The first index: 1.
    pub fn new() -> (index: DocumentIndex)
        ensures
            index.value() == 1,
    {
        let mut digits: Vec<char> = Vec::new();
        digits.push('1');
        DocumentIndex { digits, value: Ghost(1) }
    }

    /// The index in decimal.
    pub fn digits(&self) -> (text: Vec<char>)
        ensures
            text@ == decimal(self.value()),
    {
        proof {
            use_type_invariant(self);
        }
        let text = slice(&self.digits, 0, self.digits.len());
        proof {
            assert(self.digits@.subrange(0, self.digits@.len() as int) == self.digits@);
        }
        text
    }

    /// Moves on to the next index.
    pub fn advance(&mut self)
        ensures
            final(self).value() == old(self).value() + 1,
    {
        proof {
            use_type_invariant(&*self);
            lemma_successor(self.value@);
            assert(self.digits@.take(self.digits@.len() as int) == self.digits@);
        }
        let next = successor_digits(&self.digits, self.digits.len());
        let ghost value = self.value@ + 1;
        *self = DocumentIndex { digits: next, value: Ghost(value) };
    }
}

} // verus!
