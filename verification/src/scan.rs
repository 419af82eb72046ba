//! Token scanning over a line of text.
//!
//! The todo.txt grammar is a fixed set of lexical token shapes carved out of a
//! free-text line: `+project`, `@context`, `(priority)`, `key:value` tags and
//! bare `YYYY-MM-DD` dates.  This module defines, over a `Seq<char>`, where
//! each token shape matches, the leftmost-match scans that pick tokens out,
//! and the residual of a line once every token is removed; and it provides the
//! executable scanners proved against those definitions.  All scans are
//! leftmost-first and non-overlapping, the behaviour of a conventional regex
//! `find`/`find_iter`/`replace_all` over the same shapes.

use vstd::prelude::*;
use vstd::string::StrSliceExecFns;
use crate::chars::{is_word_char, is_digit_char, is_space_char, word_char, digit_char, space_char};

verus! {

// ---------------------------------------------------------------------------
// Maximal character runs
// ---------------------------------------------------------------------------

/// End of the maximal run of word characters starting at `i`.
pub open spec fn word_end(s: Seq<char>, i: int) -> int
    decreases s.len() - i,
    when 0 <= i
{
    if i < s.len() && is_word_char(s[i]) {
        word_end(s, i + 1)
    } else {
        i
    }
}

/// End of the maximal run of non-whitespace characters starting at `i`.
pub open spec fn nonspace_end(s: Seq<char>, i: int) -> int
    decreases s.len() - i,
    when 0 <= i
{
    if i < s.len() && !is_space_char(s[i]) {
        nonspace_end(s, i + 1)
    } else {
        i
    }
}

pub proof fn lemma_word_end_bounds(s: Seq<char>, i: int)
    requires
        0 <= i,
    ensures
        i <= word_end(s, i),
        i <= s.len() ==> word_end(s, i) <= s.len(),
    decreases s.len() - i,
{
    if i < s.len() && is_word_char(s[i]) {
        lemma_word_end_bounds(s, i + 1);
    }
}

pub proof fn lemma_nonspace_end_bounds(s: Seq<char>, i: int)
    requires
        0 <= i,
    ensures
        i <= nonspace_end(s, i),
        i <= s.len() ==> nonspace_end(s, i) <= s.len(),
    decreases s.len() - i,
{
    if i < s.len() && !is_space_char(s[i]) {
        lemma_nonspace_end_bounds(s, i + 1);
    }
}

/// Every character inside a word run is a word character, and the run is
/// maximal.
pub proof fn lemma_word_end_chars(s: Seq<char>, i: int)
    requires
        0 <= i <= s.len(),
    ensures
        forall|j: int| i <= j < word_end(s, i) ==> is_word_char(s[j]),
        word_end(s, i) < s.len() ==> !is_word_char(s[word_end(s, i)]),
    decreases s.len() - i,
{
    lemma_word_end_bounds(s, i);
    if i < s.len() && is_word_char(s[i]) {
        lemma_word_end_chars(s, i + 1);
    }
}

/// A run of word characters up to a non-word boundary (or the end) is what
/// the word scan finds.
pub proof fn lemma_word_end_determined(s: Seq<char>, i: int, e: int)
    requires
        0 <= i <= e <= s.len(),
        forall|j: int| i <= j < e ==> is_word_char(s[j]),
        e < s.len() ==> !is_word_char(s[e]),
    ensures
        word_end(s, i) == e,
    decreases e - i,
{
    if i < e {
        lemma_word_end_determined(s, i + 1, e);
    }
}

/// Every character inside a non-space run is not whitespace, and the run is
/// maximal.
pub proof fn lemma_nonspace_end_chars(s: Seq<char>, i: int)
    requires
        0 <= i <= s.len(),
    ensures
        forall|j: int| i <= j < nonspace_end(s, i) ==> !is_space_char(s[j]),
        nonspace_end(s, i) < s.len() ==> is_space_char(s[nonspace_end(s, i)]),
    decreases s.len() - i,
{
    lemma_nonspace_end_bounds(s, i);
    if i < s.len() && !is_space_char(s[i]) {
        lemma_nonspace_end_chars(s, i + 1);
    }
}

/// A run of non-space characters up to a whitespace boundary (or the end) is
/// what the non-space scan finds.
pub proof fn lemma_nonspace_end_determined(s: Seq<char>, i: int, e: int)
    requires
        0 <= i <= e <= s.len(),
        forall|j: int| i <= j < e ==> !is_space_char(s[j]),
        e < s.len() ==> is_space_char(s[e]),
    ensures
        nonspace_end(s, i) == e,
    decreases e - i,
{
    if i < e {
        lemma_nonspace_end_determined(s, i + 1, e);
    }
}

// ---------------------------------------------------------------------------
// Token shapes
// ---------------------------------------------------------------------------

/// A `+word` project token starts at `i`.
pub open spec fn plus_at(s: Seq<char>, i: int) -> bool {
    0 <= i && i + 1 < s.len() && s[i] == '+' && is_word_char(s[i + 1])
}

/// An `@word` context token starts at `i`.
pub open spec fn ctx_at(s: Seq<char>, i: int) -> bool {
    0 <= i && i + 1 < s.len() && s[i] == '@' && is_word_char(s[i + 1])
}

/// A `(word)` priority token starts at `i`: an opening parenthesis, a
/// non-empty word run, and a closing parenthesis right after the run.
pub open spec fn prio_at(s: Seq<char>, i: int) -> bool {
    0 <= i && i < s.len() && s[i] == '(' && {
        let e = word_end(s, i + 1);
        e > i + 1 && e < s.len() && s[e] == ')'
    }
}

/// A `key:value` tag token starts at `i`: a non-empty word run, a colon right
/// after it, and a non-whitespace character right after the colon.
pub open spec fn tag_at(s: Seq<char>, i: int) -> bool {
    0 <= i && i < s.len() && {
        let e = word_end(s, i);
        e > i && e < s.len() && s[e] == ':' && e + 1 < s.len() && !is_space_char(s[e + 1])
    }
}

/// The ten characters starting at `i` have the shape `DDDD-DD-DD`.
pub open spec fn date_shape_at(s: Seq<char>, i: int) -> bool {
    0 <= i && i + 10 <= s.len()
        && is_digit_char(s[i]) && is_digit_char(s[i + 1])
        && is_digit_char(s[i + 2]) && is_digit_char(s[i + 3])
        && s[i + 4] == '-'
        && is_digit_char(s[i + 5]) && is_digit_char(s[i + 6])
        && s[i + 7] == '-'
        && is_digit_char(s[i + 8]) && is_digit_char(s[i + 9])
}

/// A bare date token starts at `i`: a date shape not immediately preceded by
/// a colon.  The colon guard is what keeps the value of a `due:2024-01-01`
/// tag from being read as a bare date.
pub open spec fn date_at(s: Seq<char>, i: int) -> bool {
    date_shape_at(s, i) && (i == 0 || s[i - 1] != ':')
}

/// A `due:YYYY-MM-DD` token starts at `i`.
pub open spec fn due_at(s: Seq<char>, i: int) -> bool {
    0 <= i && i + 4 <= s.len()
        && s[i] == 'd' && s[i + 1] == 'u' && s[i + 2] == 'e' && s[i + 3] == ':'
        && date_shape_at(s, i + 4)
}

// ---------------------------------------------------------------------------
// Leftmost matches
// ---------------------------------------------------------------------------

/// Position of the leftmost `+word` token at or after `i`.
pub open spec fn find_plus_from(s: Seq<char>, i: int) -> Option<int>
    decreases s.len() - i,
    when 0 <= i
{
    if i >= s.len() {
        None
    } else if plus_at(s, i) {
        Some(i)
    } else {
        find_plus_from(s, i + 1)
    }
}

/// Position of the leftmost `@word` token at or after `i`.
pub open spec fn find_ctx_from(s: Seq<char>, i: int) -> Option<int>
    decreases s.len() - i,
    when 0 <= i
{
    if i >= s.len() {
        None
    } else if ctx_at(s, i) {
        Some(i)
    } else {
        find_ctx_from(s, i + 1)
    }
}

/// Position of the leftmost `(word)` token at or after `i`.
pub open spec fn find_prio_from(s: Seq<char>, i: int) -> Option<int>
    decreases s.len() - i,
    when 0 <= i
{
    if i >= s.len() {
        None
    } else if prio_at(s, i) {
        Some(i)
    } else {
        find_prio_from(s, i + 1)
    }
}

/// Position of the leftmost `due:YYYY-MM-DD` token at or after `i`.
pub open spec fn find_due_from(s: Seq<char>, i: int) -> Option<int>
    decreases s.len() - i,
    when 0 <= i
{
    if i >= s.len() {
        None
    } else if due_at(s, i) {
        Some(i)
    } else {
        find_due_from(s, i + 1)
    }
}

/// The leftmost `+word` match is a match and nothing before it matches.
pub proof fn lemma_find_plus_from(s: Seq<char>, i: int)
    requires
        0 <= i,
    ensures
        match find_plus_from(s, i) {
            Some(j) => i <= j < s.len() && plus_at(s, j) && forall|k: int| i <= k < j ==> !plus_at(s, k),
            None => forall|k: int| i <= k < s.len() ==> !plus_at(s, k),
        },
    decreases s.len() - i,
{
    if i < s.len() && !plus_at(s, i) {
        lemma_find_plus_from(s, i + 1);
    }
}

/// The leftmost `@word` match is a match and nothing before it matches.
pub proof fn lemma_find_ctx_from(s: Seq<char>, i: int)
    requires
        0 <= i,
    ensures
        match find_ctx_from(s, i) {
            Some(j) => i <= j < s.len() && ctx_at(s, j) && forall|k: int| i <= k < j ==> !ctx_at(s, k),
            None => forall|k: int| i <= k < s.len() ==> !ctx_at(s, k),
        },
    decreases s.len() - i,
{
    if i < s.len() && !ctx_at(s, i) {
        lemma_find_ctx_from(s, i + 1);
    }
}

/// The leftmost `(word)` match is a match and nothing before it matches.
pub proof fn lemma_find_prio_from(s: Seq<char>, i: int)
    requires
        0 <= i,
    ensures
        match find_prio_from(s, i) {
            Some(j) => i <= j < s.len() && prio_at(s, j) && forall|k: int| i <= k < j ==> !prio_at(s, k),
            None => forall|k: int| i <= k < s.len() ==> !prio_at(s, k),
        },
    decreases s.len() - i,
{
    if i < s.len() && !prio_at(s, i) {
        lemma_find_prio_from(s, i + 1);
    }
}

/// The leftmost `due:` match is a match and nothing before it matches.
pub proof fn lemma_find_due_from(s: Seq<char>, i: int)
    requires
        0 <= i,
    ensures
        match find_due_from(s, i) {
            Some(j) => i <= j < s.len() && due_at(s, j) && forall|k: int| i <= k < j ==> !due_at(s, k),
            None => forall|k: int| i <= k < s.len() ==> !due_at(s, k),
        },
    decreases s.len() - i,
{
    if i < s.len() && !due_at(s, i) {
        lemma_find_due_from(s, i + 1);
    }
}

// ---------------------------------------------------------------------------
// Tag and date scans
// ---------------------------------------------------------------------------

/// All `key:value` tokens at or after `i`, leftmost-first and non-overlapping:
/// after a match the scan resumes past the value.  Each element is the pair of
/// the key and the value.
pub open spec fn scan_tags_from(s: Seq<char>, i: int) -> Seq<(Seq<char>, Seq<char>)>
    decreases s.len() - i,
    when 0 <= i
    via scan_tags_from_dec
{
    if i >= s.len() {
        Seq::empty()
    } else if tag_at(s, i) {
        let e = word_end(s, i);
        let ve = nonspace_end(s, e + 1);
        seq![(s.subrange(i, e), s.subrange(e + 1, ve))] + scan_tags_from(s, ve)
    } else {
        scan_tags_from(s, i + 1)
    }
}

#[via_fn]
proof fn scan_tags_from_dec(s: Seq<char>, i: int) {
    if 0 <= i && i < s.len() && tag_at(s, i) {
        let e = word_end(s, i);
        lemma_word_end_bounds(s, i);
        lemma_nonspace_end_bounds(s, e + 1);
    }
}

/// Start positions of all bare date tokens at or after `i`, leftmost-first
/// and non-overlapping: after a match the scan resumes past its ten
/// characters.
pub open spec fn scan_dates_from(s: Seq<char>, i: int) -> Seq<int>
    decreases s.len() - i,
    when 0 <= i
{
    if i >= s.len() {
        Seq::empty()
    } else if date_at(s, i) {
        seq![i] + scan_dates_from(s, i + 10)
    } else {
        scan_dates_from(s, i + 1)
    }
}

/// All `#word` tokens at or after `i`, kept with their `#` prefix,
/// leftmost-first and non-overlapping.
pub open spec fn scan_hashtags_from(s: Seq<char>, i: int) -> Seq<Seq<char>>
    decreases s.len() - i,
    when 0 <= i
    via scan_hashtags_from_dec
{
    if i >= s.len() {
        Seq::empty()
    } else if hash_at(s, i) {
        let e = word_end(s, i + 1);
        seq![s.subrange(i, e)] + scan_hashtags_from(s, e)
    } else {
        scan_hashtags_from(s, i + 1)
    }
}

#[via_fn]
proof fn scan_hashtags_from_dec(s: Seq<char>, i: int) {
    if 0 <= i && i < s.len() && hash_at(s, i) {
        lemma_word_end_bounds(s, i + 1);
    }
}

/// A `#word` hashtag token starts at `i`.
pub open spec fn hash_at(s: Seq<char>, i: int) -> bool {
    0 <= i && i + 1 < s.len() && s[i] == '#' && is_word_char(s[i + 1])
}

// ---------------------------------------------------------------------------
// Title residual
// ---------------------------------------------------------------------------

/// Length of the token starting at `i`, if one does: the alternatives are
/// tried in the fixed order project, context, priority, tag, bare date, and
/// the first that matches decides the length.
pub open spec fn token_len_at(s: Seq<char>, i: int) -> Option<int> {
    if plus_at(s, i) {
        Some(word_end(s, i + 1) - i)
    } else if ctx_at(s, i) {
        Some(word_end(s, i + 1) - i)
    } else if prio_at(s, i) {
        Some(word_end(s, i + 1) + 1 - i)
    } else if tag_at(s, i) {
        Some(nonspace_end(s, word_end(s, i) + 1) - i)
    } else if date_at(s, i) {
        Some(10)
    } else {
        None
    }
}

/// Every token has at least one character and ends within the line.
pub proof fn lemma_token_len_at(s: Seq<char>, i: int)
    requires
        0 <= i < s.len(),
        token_len_at(s, i) is Some,
    ensures
        1 <= token_len_at(s, i)->0,
        i + token_len_at(s, i)->0 <= s.len(),
{
    if plus_at(s, i) || ctx_at(s, i) {
        lemma_word_end_bounds(s, i + 2);
    } else if prio_at(s, i) {
        lemma_word_end_bounds(s, i + 1);
    } else if tag_at(s, i) {
        let e = word_end(s, i);
        lemma_word_end_bounds(s, i);
        lemma_nonspace_end_bounds(s, e + 1);
    }
}

/// The residual of the line from `i` on: every token is dropped, every other
/// character is kept.
pub open spec fn strip_tokens_from(s: Seq<char>, i: int) -> Seq<char>
    decreases s.len() - i,
    when 0 <= i
    via strip_tokens_from_dec
{
    if i >= s.len() {
        Seq::empty()
    } else {
        match token_len_at(s, i) {
            Some(l) => strip_tokens_from(s, i + l),
            None => seq![s[i]] + strip_tokens_from(s, i + 1),
        }
    }
}

#[via_fn]
proof fn strip_tokens_from_dec(s: Seq<char>, i: int) {
    if 0 <= i && i < s.len() && token_len_at(s, i) is Some {
        lemma_token_len_at(s, i);
    }
}

// ---------------------------------------------------------------------------
// Trimming
// ---------------------------------------------------------------------------

/// First index at or after `i` that does not hold whitespace.
pub open spec fn ltrim_idx(s: Seq<char>, i: int) -> int
    decreases s.len() - i,
    when 0 <= i
{
    if i < s.len() && is_space_char(s[i]) {
        ltrim_idx(s, i + 1)
    } else {
        i
    }
}

/// Last index at or before `i` such that no whitespace stands right before it.
pub open spec fn rtrim_idx(s: Seq<char>, i: int) -> int
    decreases i,
    when i <= s.len()
{
    if 0 < i && i <= s.len() && is_space_char(s[i - 1]) {
        rtrim_idx(s, i - 1)
    } else {
        i
    }
}

/// The line with leading and trailing whitespace removed.
pub open spec fn trim_spaces(s: Seq<char>) -> Seq<char> {
    let a = ltrim_idx(s, 0);
    let b = rtrim_idx(s, s.len() as int);
    if a <= b {
        s.subrange(a, b)
    } else {
        Seq::empty()
    }
}

pub proof fn lemma_ltrim_idx_bounds(s: Seq<char>, i: int)
    requires
        0 <= i <= s.len(),
    ensures
        i <= ltrim_idx(s, i) <= s.len(),
    decreases s.len() - i,
{
    if i < s.len() && is_space_char(s[i]) {
        lemma_ltrim_idx_bounds(s, i + 1);
    }
}

pub proof fn lemma_rtrim_idx_bounds(s: Seq<char>, i: int)
    requires
        0 <= i <= s.len(),
    ensures
        0 <= rtrim_idx(s, i) <= i,
    decreases i,
{
    if 0 < i && is_space_char(s[i - 1]) {
        lemma_rtrim_idx_bounds(s, i - 1);
    }
}

// ---------------------------------------------------------------------------
// Executable scanners
// ---------------------------------------------------------------------------

/// End of the maximal word run starting at `start`.
pub fn word_end_x(s: &str, l: usize, start: usize) -> (r: usize)
    requires
        l == s@.len(),
        start <= l,
    ensures
        r == word_end(s@, start as int),
        start <= r <= l,
{
    let mut i = start;
    while i < l && word_char(s.get_char(i))
        invariant
            start <= i <= l,
            l == s@.len(),
            word_end(s@, start as int) == word_end(s@, i as int),
        decreases l - i,
    {
        i = i + 1;
    }
    i
}

/// End of the maximal non-whitespace run starting at `start`.
pub fn nonspace_end_x(s: &str, l: usize, start: usize) -> (r: usize)
    requires
        l == s@.len(),
        start <= l,
    ensures
        r == nonspace_end(s@, start as int),
        start <= r <= l,
{
    let mut i = start;
    while i < l && !space_char(s.get_char(i))
        invariant
            start <= i <= l,
            l == s@.len(),
            nonspace_end(s@, start as int) == nonspace_end(s@, i as int),
        decreases l - i,
    {
        i = i + 1;
    }
    i
}

/// Does a `+word` token start at `i`?
pub fn plus_at_x(s: &str, l: usize, i: usize) -> (r: bool)
    requires
        l == s@.len(),
        i < l,
    ensures
        r == plus_at(s@, i as int),
{
    s.get_char(i) == '+' && i + 1 < l && word_char(s.get_char(i + 1))
}

/// Does an `@word` token start at `i`?
pub fn ctx_at_x(s: &str, l: usize, i: usize) -> (r: bool)
    requires
        l == s@.len(),
        i < l,
    ensures
        r == ctx_at(s@, i as int),
{
    s.get_char(i) == '@' && i + 1 < l && word_char(s.get_char(i + 1))
}

/// Does a `#word` token start at `i`?
pub fn hash_at_x(s: &str, l: usize, i: usize) -> (r: bool)
    requires
        l == s@.len(),
        i < l,
    ensures
        r == hash_at(s@, i as int),
{
    s.get_char(i) == '#' && i + 1 < l && word_char(s.get_char(i + 1))
}

/// Does a `(word)` token start at `i`?
pub fn prio_at_x(s: &str, l: usize, i: usize) -> (r: bool)
    requires
        l == s@.len(),
        i < l,
    ensures
        r == prio_at(s@, i as int),
{
    if s.get_char(i) != '(' {
        return false;
    }
    let e = word_end_x(s, l, i + 1);
    e > i + 1 && e < l && s.get_char(e) == ')'
}

/// Does a `key:value` token start at `i`?
pub fn tag_at_x(s: &str, l: usize, i: usize) -> (r: bool)
    requires
        l == s@.len(),
        i < l,
    ensures
        r == tag_at(s@, i as int),
{
    let e = word_end_x(s, l, i);
    e > i && e < l && s.get_char(e) == ':' && e + 1 < l && !space_char(s.get_char(e + 1))
}

/// Do the ten characters starting at `i` have the date shape?
pub fn date_shape_at_x(s: &str, l: usize, i: usize) -> (r: bool)
    requires
        l == s@.len(),
        i <= l,
    ensures
        r == date_shape_at(s@, i as int),
{
    l - i >= 10
        && digit_char(s.get_char(i)) && digit_char(s.get_char(i + 1))
        && digit_char(s.get_char(i + 2)) && digit_char(s.get_char(i + 3))
        && s.get_char(i + 4) == '-'
        && digit_char(s.get_char(i + 5)) && digit_char(s.get_char(i + 6))
        && s.get_char(i + 7) == '-'
        && digit_char(s.get_char(i + 8)) && digit_char(s.get_char(i + 9))
}

/// Does a bare date token start at `i`?
pub fn date_at_x(s: &str, l: usize, i: usize) -> (r: bool)
    requires
        l == s@.len(),
        i <= l,
    ensures
        r == date_at(s@, i as int),
{
    date_shape_at_x(s, l, i) && (i == 0 || s.get_char(i - 1) != ':')
}

/// Does a `due:YYYY-MM-DD` token start at `i`?
pub fn due_at_x(s: &str, l: usize, i: usize) -> (r: bool)
    requires
        l == s@.len(),
        i < l,
    ensures
        r == due_at(s@, i as int),
{
    l - i >= 4
        && s.get_char(i) == 'd' && s.get_char(i + 1) == 'u'
        && s.get_char(i + 2) == 'e' && s.get_char(i + 3) == ':'
        && date_shape_at_x(s, l, i + 4)
}

/// Leftmost `+word` token in the line.
pub fn find_plus_x(s: &str) -> (r: Option<usize>)
    ensures
        match r {
            Some(j) => find_plus_from(s@, 0) == Some(j as int),
            None => find_plus_from(s@, 0) is None,
        },
{
    let l = s.unicode_len();
    let mut i: usize = 0;
    while i < l
        invariant
            0 <= i <= l,
            l == s@.len(),
            find_plus_from(s@, 0) == find_plus_from(s@, i as int),
        decreases l - i,
    {
        if plus_at_x(s, l, i) {
            return Some(i);
        }
        i = i + 1;
    }
    None
}

/// Leftmost `@word` token in the line.
pub fn find_ctx_x(s: &str) -> (r: Option<usize>)
    ensures
        match r {
            Some(j) => find_ctx_from(s@, 0) == Some(j as int),
            None => find_ctx_from(s@, 0) is None,
        },
{
    let l = s.unicode_len();
    let mut i: usize = 0;
    while i < l
        invariant
            0 <= i <= l,
            l == s@.len(),
            find_ctx_from(s@, 0) == find_ctx_from(s@, i as int),
        decreases l - i,
    {
        if ctx_at_x(s, l, i) {
            return Some(i);
        }
        i = i + 1;
    }
    None
}

/// Leftmost `(word)` token in the line.
pub fn find_prio_x(s: &str) -> (r: Option<usize>)
    ensures
        match r {
            Some(j) => find_prio_from(s@, 0) == Some(j as int),
            None => find_prio_from(s@, 0) is None,
        },
{
    let l = s.unicode_len();
    let mut i: usize = 0;
    while i < l
        invariant
            0 <= i <= l,
            l == s@.len(),
            find_prio_from(s@, 0) == find_prio_from(s@, i as int),
        decreases l - i,
    {
        if prio_at_x(s, l, i) {
            return Some(i);
        }
        i = i + 1;
    }
    None
}

/// Leftmost `due:YYYY-MM-DD` token in the line.
pub fn find_due_x(s: &str) -> (r: Option<usize>)
    ensures
        match r {
            Some(j) => find_due_from(s@, 0) == Some(j as int),
            None => find_due_from(s@, 0) is None,
        },
{
    let l = s.unicode_len();
    let mut i: usize = 0;
    while i < l
        invariant
            0 <= i <= l,
            l == s@.len(),
            find_due_from(s@, 0) == find_due_from(s@, i as int),
        decreases l - i,
    {
        if due_at_x(s, l, i) {
            return Some(i);
        }
        i = i + 1;
    }
    None
}

/// The view of a vector of string pairs, as a sequence of pairs of views.
pub open spec fn pairs_view(v: Seq<(String, String)>) -> Seq<(Seq<char>, Seq<char>)> {
    v.map_values(|p: (String, String)| (p.0@, p.1@))
}

/// All `key:value` tokens of the line, leftmost-first and non-overlapping.
pub fn scan_tags_x(s: &str) -> (r: Vec<(String, String)>)
    ensures
        pairs_view(r@) == scan_tags_from(s@, 0),
{
    let l = s.unicode_len();
    let mut r: Vec<(String, String)> = Vec::new();
    let mut i: usize = 0;
    while i < l
        invariant
            0 <= i <= l,
            l == s@.len(),
            scan_tags_from(s@, 0) == pairs_view(r@) + scan_tags_from(s@, i as int),
        decreases l - i,
    {
        if tag_at_x(s, l, i) {
            let e = word_end_x(s, l, i);
            let ve = nonspace_end_x(s, l, e + 1);
            let key = s.substring_char(i, e).to_owned();
            let val = s.substring_char(e + 1, ve).to_owned();
            r.push((key, val));
            proof {
                assert(pairs_view(r@) =~= pairs_view(r@.drop_last()) + seq![(s@.subrange(
                    i as int, e as int), s@.subrange(e as int + 1, ve as int))]);
            }
            i = ve;
        } else {
            i = i + 1;
        }
    }
    proof {
        assert(pairs_view(r@) + scan_tags_from(s@, i as int) =~= pairs_view(r@));
    }
    r
}

/// The start positions of all bare date tokens of the line.
pub fn scan_dates_x(s: &str) -> (r: Vec<usize>)
    ensures
        r@.map_values(|u: usize| u as int) == scan_dates_from(s@, 0),
{
    let l = s.unicode_len();
    let mut r: Vec<usize> = Vec::new();
    let mut i: usize = 0;
    while i < l
        invariant
            0 <= i <= l,
            l == s@.len(),
            scan_dates_from(s@, 0) == r@.map_values(|u: usize| u as int) + scan_dates_from(
                s@, i as int),
        decreases l - i,
    {
        if date_at_x(s, l, i) {
            r.push(i);
            proof {
                assert(r@.map_values(|u: usize| u as int) =~= r@.drop_last().map_values(
                    |u: usize| u as int) + seq![i as int]);
            }
            i = i + 10;
        } else {
            i = i + 1;
        }
    }
    proof {
        assert(r@.map_values(|u: usize| u as int) + scan_dates_from(s@, i as int)
            =~= r@.map_values(|u: usize| u as int));
    }
    r
}

/// The view of a vector of strings, as a sequence of views.
pub open spec fn strings_view(v: Seq<String>) -> Seq<Seq<char>> {
    v.map_values(|t: String| t@)
}

/// All `#word` tokens of the line, kept with their `#` prefix.
pub fn scan_hashtags_x(s: &str) -> (r: Vec<String>)
    ensures
        strings_view(r@) == scan_hashtags_from(s@, 0),
{
    let l = s.unicode_len();
    let mut r: Vec<String> = Vec::new();
    let mut i: usize = 0;
    while i < l
        invariant
            0 <= i <= l,
            l == s@.len(),
            scan_hashtags_from(s@, 0) == strings_view(r@) + scan_hashtags_from(s@, i as int),
        decreases l - i,
    {
        if hash_at_x(s, l, i) {
            let e = word_end_x(s, l, i + 1);
            let tag = s.substring_char(i, e).to_owned();
            r.push(tag);
            proof {
                assert(strings_view(r@) =~= strings_view(r@.drop_last()) + seq![s@.subrange(
                    i as int, e as int)]);
            }
            i = e;
        } else {
            i = i + 1;
        }
    }
    proof {
        assert(strings_view(r@) + scan_hashtags_from(s@, i as int) =~= strings_view(r@));
    }
    r
}

/// Length of the token starting at `i`, if one does.
pub fn token_len_at_x(s: &str, l: usize, i: usize) -> (r: Option<usize>)
    requires
        l == s@.len(),
        i < l,
    ensures
        match r {
            Some(n) => token_len_at(s@, i as int) == Some(n as int) && 1 <= n && i + n <= l,
            None => token_len_at(s@, i as int) is None,
        },
{
    proof {
        lemma_word_end_bounds(s@, i as int + 1);
        lemma_word_end_bounds(s@, i as int + 2);
    }
    if plus_at_x(s, l, i) || ctx_at_x(s, l, i) {
        let e = word_end_x(s, l, i + 1);
        Some(e - i)
    } else if prio_at_x(s, l, i) {
        let e = word_end_x(s, l, i + 1);
        Some(e + 1 - i)
    } else if tag_at_x(s, l, i) {
        let e = word_end_x(s, l, i);
        let ve = nonspace_end_x(s, l, e + 1);
        Some(ve - i)
    } else if date_at_x(s, l, i) {
        Some(10)
    } else {
        None
    }
}

/// The residual of the line once every token is removed.
pub fn strip_tokens_x(s: &str) -> (r: String)
    ensures
        r@ == strip_tokens_from(s@, 0),
{
    let l = s.unicode_len();
    let mut out = String::new();
    let mut i: usize = 0;
    while i < l
        invariant
            0 <= i <= l,
            l == s@.len(),
            strip_tokens_from(s@, 0) == out@ + strip_tokens_from(s@, i as int),
        decreases l - i,
    {
        match token_len_at_x(s, l, i) {
            Some(n) => {
                i = i + n;
            },
            None => {
                out.append(s.substring_char(i, i + 1));
                proof {
                    assert(s@.subrange(i as int, i as int + 1) =~= seq![s@[i as int]]);
                }
                i = i + 1;
            },
        }
    }
    proof {
        assert(out@ + strip_tokens_from(s@, i as int) =~= out@);
    }
    out
}

/// The needle `q` stands in `s` at position `i`.
pub open spec fn contains_at(s: Seq<char>, q: Seq<char>, i: int) -> bool {
    0 <= i && i + q.len() <= s.len() && s.subrange(i, i + q.len() as int) == q
}

/// The needle `q` stands somewhere in `s`.
pub open spec fn seq_contains(s: Seq<char>, q: Seq<char>) -> bool {
    exists|i: int| contains_at(s, q, i)
}

/// Whether `q` stands in `s` at position `i`.
fn match_at_x(s: &str, ls: usize, q: &str, lq: usize, i: usize) -> (r: bool)
    requires
        ls == s@.len(),
        lq == q@.len(),
        i + lq <= ls,
    ensures
        r == contains_at(s@, q@, i as int),
{
    let mut j: usize = 0;
    while j < lq
        invariant
            0 <= j <= lq,
            ls == s@.len(),
            lq == q@.len(),
            i + lq <= ls,
            forall|w: int| 0 <= w < j ==> s@[i as int + w] == q@[w],
        decreases lq - j,
    {
        if s.get_char(i + j) != q.get_char(j) {
            proof {
                assert(s@.subrange(i as int, i as int + lq as int)[j as int] != q@[j as int]);
            }
            return false;
        }
        j = j + 1;
    }
    proof {
        assert(s@.subrange(i as int, i as int + lq as int) =~= q@);
    }
    true
}

/// Whether the needle `q` stands somewhere in `s`.
pub fn str_contains_x(s: &str, q: &str) -> (r: bool)
    ensures
        r == seq_contains(s@, q@),
{
    let ls = s.unicode_len();
    let lq = q.unicode_len();
    if lq > ls {
        proof {
            assert(forall|i: int| !contains_at(s@, q@, i));
        }
        return false;
    }
    if lq == 0 {
        proof {
            assert(s@.subrange(0, 0) =~= q@);
            assert(contains_at(s@, q@, 0));
        }
        return true;
    }
    let bound = ls - lq;
    let mut i: usize = 0;
    while i <= bound
        invariant
            0 <= i,
            i <= bound + 1,
            bound == ls - lq,
            ls == s@.len(),
            lq == q@.len(),
            1 <= lq <= ls,
            forall|w: int| 0 <= w < i ==> !contains_at(s@, q@, w),
        decreases ls - i,
    {
        if match_at_x(s, ls, q, lq, i) {
            return true;
        }
        i = i + 1;
    }
    proof {
        assert(forall|w: int| w >= i ==> !contains_at(s@, q@, w));
    }
    false
}

/// The line with leading and trailing whitespace removed.
pub fn trim_x(s: &str) -> (r: String)
    ensures
        r@ == trim_spaces(s@),
{
    let l = s.unicode_len();
    let mut a: usize = 0;
    while a < l && space_char(s.get_char(a))
        invariant
            0 <= a <= l,
            l == s@.len(),
            ltrim_idx(s@, 0) == ltrim_idx(s@, a as int),
        decreases l - a,
    {
        a = a + 1;
    }
    let mut b: usize = l;
    while b > a && space_char(s.get_char(b - 1))
        invariant
            a <= b <= l,
            l == s@.len(),
            rtrim_idx(s@, l as int) == rtrim_idx(s@, b as int),
        decreases b,
    {
        b = b - 1;
    }
    if a < b {
        s.substring_char(a, b).to_owned()
    } else {
        proof {
            lemma_rtrim_idx_bounds(s@, b as int);
            assert(trim_spaces(s@) =~= Seq::<char>::empty());
        }
        String::new()
    }
}

} // verus!
