//! The fence of a Markdown code block: a row of backticks longer than any
//! that the fenced text holds.

use vstd::prelude::*;

verus! {

/// `n` backticks.
pub open spec fn backticks(n: nat) -> Seq<char> {
    Seq::new(n, |i: int| '`')
}

/// Whether `n` backticks in a row stand somewhere in `s`.
pub open spec fn has_run(s: Seq<char>, n: nat) -> bool {
    exists|i: int| 0 <= i && i + n <= s.len() && #[trigger] s.subrange(i, i + n) == backticks(n)
}

/// The least length from `n` on of which `s` holds no row of backticks.
pub open spec fn fence_from(s: Seq<char>, n: nat) -> nat
    decreases s.len() + 1 - n,
{
    if n <= s.len() && has_run(s, n) {
        fence_from(s, n + 1)
    } else {
        n
    }
}

/// How long the fence around `s` is: the least length, from 3 on, of which
/// `s` holds no row of backticks.
pub open spec fn fence_length(s: Seq<char>) -> nat {
    fence_from(s, 3)
}

/// How many backticks in a row end just before position `i` of `s`.
pub open spec fn run_before(s: Seq<char>, i: int) -> nat
    decreases i,
{
    if i <= 0 || i > s.len() || s[i - 1] != '`' {
        0
    } else {
        1 + run_before(s, i - 1)
    }
}

/// The longest row of backticks within the first `i` characters of `s`.
pub open spec fn longest_run(s: Seq<char>, i: int) -> nat
    decreases i,
{
    if i <= 0 {
        0
    } else if longest_run(s, i - 1) < run_before(s, i) {
        run_before(s, i)
    } else {
        longest_run(s, i - 1)
    }
}

proof fn lemma_run_before_holds(s: Seq<char>, i: int)
    requires
        0 <= i <= s.len(),
    ensures
        run_before(s, i) <= i,
        forall|j: int| i - run_before(s, i) <= j < i ==> s[j] == '`',
    decreases i,
{
    if i <= 0 || s[i - 1] != '`' {
    } else {
        lemma_run_before_holds(s, i - 1);
    }
}

proof fn lemma_run_before_reaches(s: Seq<char>, start: int, n: nat)
    requires
        0 <= start,
        start + n <= s.len(),
        forall|j: int| start <= j < start + n ==> s[j] == '`',
    ensures
        run_before(s, start + n) >= n,
    decreases n,
{
    if n > 0 {
        lemma_run_before_reaches(s, start, (n - 1) as nat);
    }
}

proof fn lemma_longest_run_bounds(s: Seq<char>, i: int, j: int)
    requires
        0 <= j <= i <= s.len(),
    ensures
        run_before(s, j) <= longest_run(s, i) <= i,
    decreases i,
{
    lemma_run_before_holds(s, i);
    if j < i {
        lemma_longest_run_bounds(s, i - 1, j);
    } else if i > 0 {
        lemma_longest_run_bounds(s, i - 1, i - 1);
    }
}

proof fn lemma_longest_run_is_run(s: Seq<char>, i: int) -> (j: int)
    requires
        0 <= i <= s.len(),
    ensures
        0 <= j <= i,
        run_before(s, j) == longest_run(s, i),
    decreases i,
{
    if i <= 0 {
        0
    } else if longest_run(s, i - 1) < run_before(s, i) {
        i
    } else {
        lemma_longest_run_is_run(s, i - 1)
    }
}

/// `s` holds a row of `n` backticks exactly when its longest row has at least
/// `n`.
pub proof fn lemma_has_run(s: Seq<char>, n: nat)
    ensures
        has_run(s, n) <==> n <= longest_run(s, s.len() as int),
{
    let longest = longest_run(s, s.len() as int);
    if has_run(s, n) {
        let i = choose|i: int|
            0 <= i && i + n <= s.len() && #[trigger] s.subrange(i, i + n) == backticks(n);
        assert forall|j: int| i <= j < i + n implies s[j] == '`' by {
            assert(s[j] == s.subrange(i, i + n)[j - i]);
        }
        lemma_run_before_reaches(s, i, n);
        lemma_longest_run_bounds(s, s.len() as int, i + n);
    }
    if n <= longest {
        let j = lemma_longest_run_is_run(s, s.len() as int);
        lemma_run_before_holds(s, j);
        assert(s.subrange(j - n, j - n + n) =~= backticks(n));
    }
}

proof fn lemma_fence_from(s: Seq<char>, n: nat)
    ensures
        fence_from(s, n) == if n <= longest_run(s, s.len() as int) {
            longest_run(s, s.len() as int) + 1
        } else {
            n
        },
    decreases s.len() + 1 - n,
{
    lemma_has_run(s, n);
    lemma_longest_run_bounds(s, s.len() as int, 0);
    if n <= s.len() && has_run(s, n) {
        lemma_fence_from(s, n + 1);
    }
}

/// The fence is one backtick longer than the longest row of backticks in the
/// text, and never shorter than three.
pub proof fn lemma_fence_length(s: Seq<char>)
    ensures
        fence_length(s) == if longest_run(s, s.len() as int) < 3 {
            3
        } else {
            longest_run(s, s.len() as int) + 1
        },
{
    lemma_fence_from(s, 3);
}

/// Where the longest row of backticks in a text has exactly `k`, the fence
/// has `k + 1`, and three where that is less.
pub proof fn lemma_fence_outgrows_runs(s: Seq<char>, k: nat)
    requires
        has_run(s, k),
        !has_run(s, k + 1),
    ensures
        fence_length(s) == if k + 1 < 3 {
            3
        } else {
            k + 1
        },
{
    lemma_has_run(s, k);
    lemma_has_run(s, k + 1);
    lemma_fence_length(s);
}

/// No row of backticks in the text is as long as the fence, and every
/// shorter row of three or more is in the text.
pub proof fn lemma_fence_is_least(s: Seq<char>, n: nat)
    ensures
        !has_run(s, fence_length(s)),
        3 <= fence_length(s),
        3 <= n < fence_length(s) ==> has_run(s, n),
{
    lemma_fence_length(s);
    lemma_has_run(s, fence_length(s));
    lemma_has_run(s, n);
}

/// The fence for `content`: the shortest row of backticks, of three or more,
/// that does not stand in `content`.
pub fn fence_for(content: &Vec<char>) -> (fence: Vec<char>)
    ensures
        fence@ == backticks(fence_length(content@)),
        fence.len() >= 3,
        !has_run(content@, fence.len() as nat),
        forall|n: nat| 3 <= n < fence.len() ==> has_run(content@, n),
{
    let n = content.len();
    let mut longest: usize = 0;
    let mut current: usize = 0;
    let mut i: usize = 0;
    while i < n
        invariant
            i <= n == content.len(),
            current == run_before(content@, i as int),
            longest == longest_run(content@, i as int),
            current <= i,
            longest <= i,
        decreases n - i,
    {
        if content[i] == '`' {
            current += 1;
        } else {
            current = 0;
        }
        if current > longest {
            longest = current;
        }
        i += 1;
    }
    let mut fence: Vec<char> = Vec::new();
    let mut k: usize = 0;
    while k < longest || k < 2
        invariant
            fence@ == backticks(k as nat),
            k <= longest || k <= 2,
        decreases (if longest < 2 { 2 } else { longest as int }) - k,
    {
        fence.push('`');
        proof {
            assert(backticks((k + 1) as nat) == backticks(k as nat).push('`'));
        }
        k += 1;
    }
    fence.push('`');
    proof {
        lemma_fence_length(content@);
        assert(backticks((k + 1) as nat) == backticks(k as nat).push('`'));
        assert forall|n: nat| 3 <= n < fence_length(content@) implies has_run(content@, n) by {
            lemma_fence_is_least(content@, n);
        }
        lemma_fence_is_least(content@, 0);
    }
    fence
}

} // verus!
