//! Verified text helpers: character-level string comparison and the
//! statement/token splitting the dispatcher works with.

use vstd::prelude::*;
use vstd::string::StrSliceExecFns;

verus! {

/// Character-by-character string equality.
pub fn str_eq(a: &str, b: &str) -> (r: bool)
    ensures
        r == (a@ == b@),
{
    let la = a.unicode_len();
    let lb = b.unicode_len();
    if la != lb {
        return false;
    }
    let mut i: usize = 0;
    while i < la
        invariant
            la == a@.len(),
            la == b@.len(),
            i <= la,
            forall|j: int| 0 <= j < i ==> a@[j] == b@[j],
        decreases la - i,
    {
        if a.get_char(i) != b.get_char(i) {
            return false;
        }
        i += 1;
    }
    proof {
        assert(a@ =~= b@);
    }
    true
}

/// The whitespace characters token splitting recognizes.
pub open spec fn is_space(c: char) -> bool {
    c == ' ' || c == '\t' || c == '\r' || c == '\n'
}

pub fn is_space_char(c: char) -> (r: bool)
    ensures
        r == is_space(c),
{
    c == ' ' || c == '\t' || c == '\r' || c == '\n'
}

/// The index of the first statement separator at or after `i`, or the
/// length.
pub open spec fn find_semi(s: Seq<char>, i: int) -> int
    decreases s.len() - i,
{
    if i < 0 || i >= s.len() {
        s.len() as int
    } else if s[i] == ';' {
        i
    } else {
        find_semi(s, i + 1)
    }
}

pub proof fn lemma_find_semi(s: Seq<char>, i: int)
    requires
        0 <= i <= s.len(),
    ensures
        i <= find_semi(s, i) <= s.len(),
        find_semi(s, i) < s.len() ==> s[find_semi(s, i)] == ';',
        forall|t: int| i <= t < find_semi(s, i) ==> s[t] != ';',
    decreases s.len() - i,
{
    if i < s.len() && s[i] != ';' {
        lemma_find_semi(s, i + 1);
    }
}

/// The statement pieces of `s` from `i` on: split at every separator,
/// keeping empty pieces.
pub open spec fn split_semi_from(s: Seq<char>, i: int) -> Seq<Seq<char>>
    decreases s.len() - i,
    when 0 <= i <= s.len()
    via split_semi_from_dec
{
    let j = find_semi(s, i);
    if j >= s.len() {
        seq![s.subrange(i, s.len() as int)]
    } else {
        seq![s.subrange(i, j)] + split_semi_from(s, j + 1)
    }
}

#[via_fn]
proof fn split_semi_from_dec(s: Seq<char>, i: int) {
    lemma_find_semi(s, i);
}

/// The statement pieces of `s`: what splitting at every `;` leaves, in
/// order, empty pieces kept.
pub open spec fn split_semi(s: Seq<char>) -> Seq<Seq<char>> {
    split_semi_from(s, 0)
}

/// Split `s` at every statement separator, keeping empty pieces.
pub fn split_on_semi(s: &str) -> (r: Vec<String>)
    ensures
        r.deep_view() == split_semi(s@),
{
    let len = s.unicode_len();
    let mut out: Vec<String> = Vec::new();
    let mut start: usize = 0;
    loop
        invariant
            start <= len,
            len == s@.len(),
            split_semi(s@) == out.deep_view() + split_semi_from(s@, start as int),
        decreases len - start,
    {
        let mut j: usize = start;
        while j < len && s.get_char(j) != ';'
            invariant
                start <= j <= len,
                len == s@.len(),
                forall|t: int| start <= t < j ==> s@[t] != ';',
            decreases len - j,
        {
            j += 1;
        }
        proof {
            lemma_find_semi(s@, start as int);
            assert(j == find_semi(s@, start as int));
        }
        let ghost pre = out.deep_view();
        out.push(String::from_str(s.substring_char(start, j)));
        proof {
            assert(out.deep_view() =~= pre.push(s@.subrange(start as int, j as int)));
        }
        if j == len {
            proof {
                assert(split_semi_from(s@, start as int) =~= seq![
                    s@.subrange(start as int, len as int),
                ]);
                assert(split_semi(s@) =~= out.deep_view());
            }
            return out;
        }
        proof {
            assert(split_semi_from(s@, start as int) == seq![
                s@.subrange(start as int, j as int),
            ] + split_semi_from(s@, j as int + 1));
            assert(split_semi(s@) =~= out.deep_view() + split_semi_from(s@, j as int + 1));
        }
        start = j + 1;
    }
}

/// The index of the first non-space character at or after `i`, or the
/// length.
pub open spec fn find_non_space(s: Seq<char>, i: int) -> int
    decreases s.len() - i,
{
    if i < 0 || i >= s.len() {
        s.len() as int
    } else if !is_space(s[i]) {
        i
    } else {
        find_non_space(s, i + 1)
    }
}

pub proof fn lemma_find_non_space(s: Seq<char>, i: int)
    requires
        0 <= i <= s.len(),
    ensures
        i <= find_non_space(s, i) <= s.len(),
        find_non_space(s, i) < s.len() ==> !is_space(s[find_non_space(s, i)]),
        forall|t: int| i <= t < find_non_space(s, i) ==> is_space(s[t]),
    decreases s.len() - i,
{
    if i < s.len() && is_space(s[i]) {
        lemma_find_non_space(s, i + 1);
    }
}

/// The index of the first space character at or after `i`, or the length.
pub open spec fn find_space(s: Seq<char>, i: int) -> int
    decreases s.len() - i,
{
    if i < 0 || i >= s.len() {
        s.len() as int
    } else if is_space(s[i]) {
        i
    } else {
        find_space(s, i + 1)
    }
}

pub proof fn lemma_find_space(s: Seq<char>, i: int)
    requires
        0 <= i <= s.len(),
    ensures
        i <= find_space(s, i) <= s.len(),
        find_space(s, i) < s.len() ==> is_space(s[find_space(s, i)]),
        forall|t: int| i <= t < find_space(s, i) ==> !is_space(s[t]),
    decreases s.len() - i,
{
    if i < s.len() && !is_space(s[i]) {
        lemma_find_space(s, i + 1);
    }
}

/// The whitespace-separated tokens of `s` from `i` on.
pub open spec fn tokens_from(s: Seq<char>, i: int) -> Seq<Seq<char>>
    decreases s.len() - i,
    when 0 <= i <= s.len()
    via tokens_from_dec
{
    let b = find_non_space(s, i);
    if b >= s.len() {
        Seq::empty()
    } else {
        let e = find_space(s, b);
        seq![s.subrange(b, e)] + tokens_from(s, e)
    }
}

#[via_fn]
proof fn tokens_from_dec(s: Seq<char>, i: int) {
    lemma_find_non_space(s, i);
    if find_non_space(s, i) < s.len() {
        lemma_find_space(s, find_non_space(s, i));
    }
}

/// The whitespace-separated tokens of `s`: maximal runs of non-space
/// characters, in order, never empty.
pub open spec fn tokens(s: Seq<char>) -> Seq<Seq<char>> {
    tokens_from(s, 0)
}

/// Split `s` into its whitespace-separated tokens.
pub fn tokenize(s: &str) -> (r: Vec<String>)
    ensures
        r.deep_view() == tokens(s@),
{
    let len = s.unicode_len();
    let mut out: Vec<String> = Vec::new();
    let mut i: usize = 0;
    loop
        invariant
            i <= len,
            len == s@.len(),
            tokens(s@) == out.deep_view() + tokens_from(s@, i as int),
        decreases len - i,
    {
        let mut b: usize = i;
        while b < len && is_space_char(s.get_char(b))
            invariant
                i <= b <= len,
                len == s@.len(),
                forall|t: int| i <= t < b ==> is_space(s@[t]),
            decreases len - b,
        {
            b += 1;
        }
        proof {
            lemma_find_non_space(s@, i as int);
            assert(b == find_non_space(s@, i as int));
        }
        if b == len {
            proof {
                assert(tokens_from(s@, i as int) =~= Seq::<Seq<char>>::empty());
                assert(tokens(s@) =~= out.deep_view());
            }
            return out;
        }
        let mut e: usize = b;
        while e < len && !is_space_char(s.get_char(e))
            invariant
                b <= e <= len,
                len == s@.len(),
                forall|t: int| b <= t < e ==> !is_space(s@[t]),
            decreases len - e,
        {
            e += 1;
        }
        proof {
            lemma_find_space(s@, b as int);
            assert(e == find_space(s@, b as int));
        }
        let ghost pre = out.deep_view();
        out.push(String::from_str(s.substring_char(b, e)));
        proof {
            assert(out.deep_view() =~= pre.push(s@.subrange(b as int, e as int)));
            assert(tokens_from(s@, i as int) == seq![s@.subrange(b as int, e as int)]
                + tokens_from(s@, e as int));
            assert(tokens(s@) =~= out.deep_view() + tokens_from(s@, e as int));
        }
        i = e;
    }
}

} // verus!
