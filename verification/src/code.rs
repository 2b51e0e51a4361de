//! Verification codes: runs of digits of the right length.
use vstd::prelude::*;
use vstd::slice::slice_subrange;

use crate::text::is_digit;

verus! {

/// A run of exactly `n` digits stands in `s` at `i`: no digit comes before it, and none
/// after.
pub open spec fn run_at(s: Seq<char>, i: int, n: int) -> bool {
    &&& 0 <= i
    &&& i + n <= s.len()
    &&& forall|k: int| i <= k < i + n ==> is_digit(#[trigger] s[k])
    &&& i > 0 ==> !is_digit(s[i - 1])
    &&& i + n < s.len() ==> !is_digit(s[i + n])
}

/// The place of the first run of exactly `n` digits from `from` on.
pub open spec fn first_run(s: Seq<char>, n: int, from: int) -> Option<int>
    decreases s.len() - from,
{
    if from < 0 || from >= s.len() {
        None
    } else if run_at(s, from, n) {
        Some(from)
    } else {
        first_run(s, n, from + 1)
    }
}

/// The first of the longest runs of `least` to `most` digits.
pub open spec fn longest_code(s: Seq<char>, least: int, most: int) -> Option<Seq<char>>
    decreases most - least + 1,
{
    if most < least {
        None
    } else {
        match first_run(s, most, 0) {
            Some(i) => Some(s.subrange(i, i + most)),
            None => longest_code(s, least, most - 1),
        }
    }
}

/// Whether a run of exactly `n` digits stands in `s` at `i`.
pub fn is_run_at(s: &[char], i: usize, n: usize) -> (r: bool)
    requires
        i < s@.len(),
    ensures
        r == run_at(s@, i as int, n as int),
{
    if n > s.len() - i {
        return false;
    }
    if i > 0 && '0' <= s[i - 1] && s[i - 1] <= '9' {
        return false;
    }
    let mut k: usize = 0;
    while k < n
        invariant
            k <= n,
            i + n <= s.len(),
            forall|j: int| i <= j < i + k ==> is_digit(#[trigger] s@[j]),
        decreases n - k,
    {
        let c: char = s[i + k];
        if !('0' <= c && c <= '9') {
            assert(!is_digit(s@[i + k]));
            return false;
        }
        k += 1;
    }
    !(n < s.len() - i && '0' <= s[i + n] && s[i + n] <= '9')
}

/// The place of the first run of exactly `n` digits.
pub fn find_run(s: &[char], n: usize) -> (r: Option<usize>)
    ensures
        match r {
            Some(i) => first_run(s@, n as int, 0) == Some(i as int) && i + n <= s.len(),
            None => first_run(s@, n as int, 0) is None,
        },
{
    let mut i: usize = 0;
    while i < s.len()
        invariant
            i <= s@.len(),
            first_run(s@, n as int, 0) == first_run(s@, n as int, i as int),
        decreases s.len() - i,
    {
        if is_run_at(s, i, n) {
            assert(i + n <= s.len());
            return Some(i);
        }
        i += 1;
    }
    None
}

/// The first of the longest runs of `least` to `most` digits.
pub fn find_code<'a>(s: &'a [char], least: usize, most: usize) -> (r: Option<&'a [char]>)
    requires
        0 < least <= most,
    ensures
        match r {
            Some(c) => longest_code(s@, least as int, most as int) == Some(c@),
            None => longest_code(s@, least as int, most as int) is None,
        },
{
    let mut n: usize = most;
    while n >= least
        invariant
            0 < least <= most,
            least - 1 <= n <= most,
            longest_code(s@, least as int, most as int) == longest_code(
                s@,
                least as int,
                n as int,
            ),
        decreases n,
    {
        match find_run(s, n) {
            Some(i) => {
                return Some(slice_subrange(s, i, i + n));
            },
            None => {},
        }
        n -= 1;
    }
    None
}

// ───────────────────────── laws ─────────────────────────

/// What `first_run` finds is a run of that length, and there is none before it.
pub proof fn lemma_first_run(s: Seq<char>, n: int, from: int)
    requires
        0 <= from,
        0 < n,
    ensures
        first_run(s, n, from) matches Some(i) ==> from <= i && run_at(s, i, n) && forall|j: int|
            from <= j < i ==> !run_at(s, j, n),
        first_run(s, n, from) is None ==> forall|j: int| from <= j ==> !run_at(s, j, n),
    decreases s.len() - from,
{
    if from < s.len() && !run_at(s, from, n) {
        lemma_first_run(s, n, from + 1);
    }
}

/// The run of `n` digits at `i` is a code: no run of at most `most` digits is longer, and none
/// of the same length comes before it.
pub open spec fn best_run(s: Seq<char>, i: int, n: int, most: int) -> bool {
    &&& run_at(s, i, n)
    &&& forall|j: int, m: int| n < m <= most ==> !#[trigger] run_at(s, j, m)
    &&& forall|j: int| j < i ==> !#[trigger] run_at(s, j, n)
}

/// A code is a run of `least` to `most` digits that no digit touches. No run of a length in
/// that range is longer, and none of the same length comes before it. There is no code only
/// where there is no such run.
pub proof fn code_is_first_longest_run(s: Seq<char>, least: int, most: int)
    requires
        0 < least,
    ensures
        longest_code(s, least, most) matches Some(c) ==> least <= c.len() <= most && exists|i: int|
            #[trigger] best_run(s, i, c.len() as int, most) && c == s.subrange(i, i + c.len()),
        longest_code(s, least, most) is None ==> forall|j: int, n: int|
            least <= n <= most ==> !#[trigger] run_at(s, j, n),
    decreases most - least + 1,
{
    if least <= most {
        lemma_first_run(s, most, 0);
        match first_run(s, most, 0) {
            Some(i) => {
                let c = s.subrange(i, i + most);
                assert(c.len() == most);
                assert(best_run(s, i, c.len() as int, most));
            },
            None => {
                code_is_first_longest_run(s, least, most - 1);
                assert forall|j: int| !#[trigger] run_at(s, j, most) by {}
                if let Some(c) = longest_code(s, least, most - 1) {
                    let i = choose|i: int|
                        #[trigger] best_run(s, i, c.len() as int, most - 1) && c == s.subrange(
                            i,
                            i + c.len(),
                        );
                    assert(best_run(s, i, c.len() as int, most));
                }
            },
        }
    }
}

/// The first of the longest runs is the code.
pub proof fn code_is_found(s: Seq<char>, i: int, n: int, least: int, most: int)
    requires
        0 < least <= n <= most,
        best_run(s, i, n, most),
    ensures
        longest_code(s, least, most) == Some(s.subrange(i, i + n)),
    decreases most - n,
{
    lemma_first_run(s, most, 0);
    if most == n {
        let j = first_run(s, most, 0);
        if j is None {
            assert(run_at(s, i, n));
            assert(false);
        }
        if (j->0) < i {
            assert(run_at(s, j->0, n));
        }
    } else {
        if first_run(s, most, 0) is Some {
            assert(run_at(s, first_run(s, most, 0)->0, most));
        }
        assert(best_run(s, i, n, most - 1));
        code_is_found(s, i, n, least, most - 1);
    }
}

/// What stands around a run of digits, other than digits right beside it, does not matter: it is
/// found where it is the only run that can be a code.
pub proof fn a_lone_code_is_found(
    before: Seq<char>,
    code: Seq<char>,
    after: Seq<char>,
    least: int,
    most: int,
)
    requires
        0 < least <= code.len() <= most,
        forall|k: int| 0 <= k < code.len() ==> is_digit(#[trigger] code[k]),
        forall|k: int| 0 <= k < before.len() ==> !is_digit(#[trigger] before[k]),
        forall|k: int| 0 <= k < after.len() ==> !is_digit(#[trigger] after[k]),
    ensures
        longest_code(before + code + after, least, most) == Some(code),
{
    let s = before + code + after;
    let i = before.len() as int;
    let n = code.len() as int;
    assert forall|k: int| i <= k < i + n implies is_digit(#[trigger] s[k]) by {
        assert(s[k] == code[k - i]);
    }
    assert forall|k: int| 0 <= k < i implies !is_digit(#[trigger] s[k]) by {
        assert(s[k] == before[k]);
    }
    assert forall|k: int| i + n <= k < s.len() implies !is_digit(#[trigger] s[k]) by {
        assert(s[k] == after[k - i - n]);
    }
    assert forall|j: int, m: int| n < m <= most implies !#[trigger] run_at(s, j, m) by {
        if run_at(s, j, m) {
            assert(is_digit(s[j]));
            assert(is_digit(s[j + m - 1]));
        }
    }
    assert forall|j: int| j < i implies !#[trigger] run_at(s, j, n) by {
        if run_at(s, j, n) {
            assert(is_digit(s[j]));
        }
    }
    code_is_found(s, i, n, least, most);
    assert(s.subrange(i, i + n) =~= code);
}

} // verus!
