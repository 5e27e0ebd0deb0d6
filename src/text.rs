//! Lexical padding: separators, line endings, comments and terminators.
//!
//! Every recognizer reads the input as a sequence of characters and a start
//! position, and answers with the position just after what it consumed, or
//! `None` when it does not match there.

use vstd::prelude::*;

verus! {

/// Space, tab, form feed and vertical tab: never a terminator.
pub open spec fn is_separator(c: char) -> bool {
    c == ' ' || c == '\t' || c == '\x0c' || c == '\x0b'
}

pub open spec fn is_line_break(c: char) -> bool {
    c == '\n' || c == '\r'
}

pub open spec fn is_whitespace(c: char) -> bool {
    is_separator(c) || is_line_break(c)
}

/// `s` holds the character `c` at position `p`.
pub open spec fn char_at(s: Seq<char>, p: int, c: char) -> bool {
    0 <= p < s.len() && s[p] == c
}

/// An exec position answer agrees with a spec one.
pub open spec fn same_end(r: Option<usize>, e: Option<int>) -> bool {
    match r {
        Some(q) => e == Some(q as int),
        None => e is None,
    }
}

/// `\n`, `\r\n` or `\r` at `p`.
pub open spec fn line_ending_end(s: Seq<char>, p: int) -> Option<int> {
    if char_at(s, p, '\n') {
        Some(p + 1)
    } else if char_at(s, p, '\r') {
        if char_at(s, p + 1, '\n') {
            Some(p + 2)
        } else {
            Some(p + 1)
        }
    } else {
        None
    }
}

/// The first position at or after `i` that holds a line break, or the end.
pub open spec fn line_end(s: Seq<char>, i: int) -> int
    decreases s.len() - i,
{
    if i < 0 || i >= s.len() || is_line_break(s[i]) {
        i
    } else {
        line_end(s, i + 1)
    }
}

/// The position just after the first `*/` that starts at or after `i`.
pub open spec fn block_close(s: Seq<char>, i: int) -> Option<int>
    decreases s.len() - i,
{
    if i < 0 || i + 1 >= s.len() {
        None
    } else if s[i] == '*' && s[i + 1] == '/' {
        Some(i + 2)
    } else {
        block_close(s, i + 1)
    }
}

/// A line comment (`#` or `//` up to, not including, the line ending).
pub open spec fn line_comment_end(s: Seq<char>, p: int) -> Option<int> {
    if char_at(s, p, '#') {
        Some(line_end(s, p + 1))
    } else if char_at(s, p, '/') && char_at(s, p + 1, '/') {
        Some(line_end(s, p + 2))
    } else {
        None
    }
}

/// A block comment `/* ... */`, which does not nest.
pub open spec fn block_comment_end(s: Seq<char>, p: int) -> Option<int> {
    if char_at(s, p, '/') && char_at(s, p + 1, '*') {
        block_close(s, p + 2)
    } else {
        None
    }
}

pub open spec fn comment_end(s: Seq<char>, p: int) -> Option<int> {
    match line_comment_end(s, p) {
        Some(q) => Some(q),
        None => block_comment_end(s, p),
    }
}

/// One separator or one comment.
pub open spec fn scpad_end(s: Seq<char>, p: int) -> Option<int> {
    if 0 <= p < s.len() && is_separator(s[p]) {
        Some(p + 1)
    } else {
        comment_end(s, p)
    }
}

/// One whitespace character or one comment.
pub open spec fn wcpad_end(s: Seq<char>, p: int) -> Option<int> {
    if 0 <= p < s.len() && is_whitespace(s[p]) {
        Some(p + 1)
    } else {
        comment_end(s, p)
    }
}

/// As many separators and comments as follow `p`.
pub open spec fn skip_scpad(s: Seq<char>, p: int) -> int
    decreases s.len() - p,
{
    match scpad_end(s, p) {
        Some(q) => if p < q <= s.len() {
            skip_scpad(s, q)
        } else {
            p
        },
        None => p,
    }
}

/// As much whitespace and as many comments as follow `p`.
pub open spec fn skip_wcpad(s: Seq<char>, p: int) -> int
    decreases s.len() - p,
{
    match wcpad_end(s, p) {
        Some(q) => if p < q <= s.len() {
            skip_wcpad(s, q)
        } else {
            p
        },
        None => p,
    }
}

/// As many separators as follow `p`.
pub open spec fn skip_separators(s: Seq<char>, p: int) -> int
    decreases s.len() - p,
{
    if 0 <= p < s.len() && is_separator(s[p]) {
        skip_separators(s, p + 1)
    } else {
        p
    }
}

/// `;` after any separators, or a line ending.
pub open spec fn terminator_end(s: Seq<char>, p: int) -> Option<int> {
    let q = skip_separators(s, p);
    if char_at(s, q, ';') {
        Some(q + 1)
    } else {
        line_ending_end(s, p)
    }
}

pub proof fn lemma_line_end_bounds(s: Seq<char>, i: int)
    requires
        0 <= i <= s.len(),
    ensures
        i <= line_end(s, i) <= s.len(),
    decreases s.len() - i,
{
    if i < s.len() && !is_line_break(s[i]) {
        lemma_line_end_bounds(s, i + 1);
    }
}

pub proof fn lemma_block_close_bounds(s: Seq<char>, i: int)
    requires
        0 <= i,
    ensures
        block_close(s, i) matches Some(q) ==> i + 2 <= q <= s.len(),
    decreases s.len() - i,
{
    if i + 1 < s.len() && !(s[i] == '*' && s[i + 1] == '/') {
        lemma_block_close_bounds(s, i + 1);
    }
}

/// What a comment consumes stays inside the input and is not empty.
pub proof fn lemma_comment_bounds(s: Seq<char>, p: int)
    requires
        0 <= p <= s.len(),
    ensures
        comment_end(s, p) matches Some(q) ==> p < q <= s.len(),
{
    if char_at(s, p, '#') {
        lemma_line_end_bounds(s, p + 1);
    } else if char_at(s, p, '/') && char_at(s, p + 1, '/') {
        lemma_line_end_bounds(s, p + 2);
    } else if char_at(s, p, '/') && char_at(s, p + 1, '*') {
        lemma_block_close_bounds(s, p + 2);
    }
}

pub proof fn lemma_skip_separators_bounds(s: Seq<char>, p: int)
    requires
        0 <= p <= s.len(),
    ensures
        p <= skip_separators(s, p) <= s.len(),
    decreases s.len() - p,
{
    if p < s.len() && is_separator(s[p]) {
        lemma_skip_separators_bounds(s, p + 1);
    }
}

pub proof fn lemma_skip_scpad_bounds(s: Seq<char>, p: int)
    requires
        0 <= p <= s.len(),
    ensures
        p <= skip_scpad(s, p) <= s.len(),
    decreases s.len() - p,
{
    if let Some(q) = scpad_end(s, p) {
        if p < q <= s.len() {
            lemma_skip_scpad_bounds(s, q);
        }
    }
}

pub proof fn lemma_skip_wcpad_bounds(s: Seq<char>, p: int)
    requires
        0 <= p <= s.len(),
    ensures
        p <= skip_wcpad(s, p) <= s.len(),
    decreases s.len() - p,
{
    if let Some(q) = wcpad_end(s, p) {
        if p < q <= s.len() {
            lemma_skip_wcpad_bounds(s, q);
        }
    }
}

pub proof fn lemma_terminator_bounds(s: Seq<char>, p: int)
    requires
        0 <= p <= s.len(),
    ensures
        terminator_end(s, p) matches Some(q) ==> p < q <= s.len(),
{
    lemma_skip_separators_bounds(s, p);
}

fn is_separator_char(c: char) -> (r: bool)
    ensures
        r == is_separator(c),
{
    c == ' ' || c == '\t' || c == '\x0c' || c == '\x0b'
}

fn is_whitespace_char(c: char) -> (r: bool)
    ensures
        r == is_whitespace(c),
{
    is_separator_char(c) || c == '\n' || c == '\r'
}

/// Whether `s` holds `c` at `p`.
pub fn has_char(s: &Vec<char>, p: usize, c: char) -> (r: bool)
    ensures
        r == char_at(s@, p as int, c),
{
    p < s.len() && s[p] == c
}

/// Recognizes one separator.
pub fn separator(s: &Vec<char>, p: usize) -> (r: Option<usize>)
    ensures
        same_end(r, if 0 <= p < s@.len() && is_separator(s@[p as int]) { Some(p + 1) } else { None }),
{
    if p < s.len() && is_separator_char(s[p]) {
        Some(p + 1)
    } else {
        None
    }
}

/// Recognizes one whitespace character.
pub fn whitespace(s: &Vec<char>, p: usize) -> (r: Option<usize>)
    ensures
        same_end(r, if 0 <= p < s@.len() && is_whitespace(s@[p as int]) { Some(p + 1) } else { None }),
{
    if p < s.len() && is_whitespace_char(s[p]) {
        Some(p + 1)
    } else {
        None
    }
}

/// Recognizes a line ending.
pub fn line_ending(s: &Vec<char>, p: usize) -> (r: Option<usize>)
    requires
        p <= s.len(),
    ensures
        same_end(r, line_ending_end(s@, p as int)),
{
    if has_char(s, p, '\n') {
        Some(p + 1)
    } else if has_char(s, p, '\r') {
        if has_char(s, p + 1, '\n') {
            Some(p + 2)
        } else {
            Some(p + 1)
        }
    } else {
        None
    }
}

fn find_line_end(s: &Vec<char>, i: usize) -> (r: usize)
    requires
        i <= s.len(),
    ensures
        r as int == line_end(s@, i as int),
{
    let mut j = i;
    while j < s.len() && !(s[j] == '\n' || s[j] == '\r')
        invariant
            i <= j <= s.len(),
            line_end(s@, j as int) == line_end(s@, i as int),
        decreases s.len() - j,
    {
        j = j + 1;
    }
    j
}

fn find_block_close(s: &Vec<char>, i: usize) -> (r: Option<usize>)
    requires
        i <= s.len(),
    ensures
        same_end(r, block_close(s@, i as int)),
{
    let mut j = i;
    while j < s.len() && s.len() - j > 1 && !(s[j] == '*' && s[j + 1] == '/')
        invariant
            i <= j <= s.len(),
            block_close(s@, j as int) == block_close(s@, i as int),
        decreases s.len() - j,
    {
        j = j + 1;
    }
    if j < s.len() && s.len() - j > 1 {
        Some(j + 2)
    } else {
        None
    }
}

/// Recognizes a line comment: `#` or `//` up to, not including, the line
/// ending.
pub fn line_comment(s: &Vec<char>, p: usize) -> (r: Option<usize>)
    requires
        p <= s.len(),
    ensures
        same_end(r, line_comment_end(s@, p as int)),
{
    if has_char(s, p, '#') {
        Some(find_line_end(s, p + 1))
    } else if has_char(s, p, '/') && has_char(s, p + 1, '/') {
        Some(find_line_end(s, p + 2))
    } else {
        None
    }
}

/// Recognizes a block comment `/* ... */`.
pub fn block_comment(s: &Vec<char>, p: usize) -> (r: Option<usize>)
    requires
        p <= s.len(),
    ensures
        same_end(r, block_comment_end(s@, p as int)),
{
    if has_char(s, p, '/') && has_char(s, p + 1, '*') {
        find_block_close(s, p + 2)
    } else {
        None
    }
}

/// Recognizes a line comment or a block comment.
pub fn comment(s: &Vec<char>, p: usize) -> (r: Option<usize>)
    requires
        p <= s.len(),
    ensures
        same_end(r, comment_end(s@, p as int)),
        r matches Some(q) ==> p < q <= s.len(),
{
    proof {
        lemma_comment_bounds(s@, p as int);
    }
    match line_comment(s, p) {
        Some(q) => Some(q),
        None => block_comment(s, p),
    }
}

/// Recognizes one separator or one comment.
pub fn scpad(s: &Vec<char>, p: usize) -> (r: Option<usize>)
    requires
        p <= s.len(),
    ensures
        same_end(r, scpad_end(s@, p as int)),
        r matches Some(q) ==> p < q <= s.len(),
{
    match separator(s, p) {
        Some(q) => Some(q),
        None => comment(s, p),
    }
}

/// Recognizes one whitespace character or one comment.
pub fn wcpad(s: &Vec<char>, p: usize) -> (r: Option<usize>)
    requires
        p <= s.len(),
    ensures
        same_end(r, wcpad_end(s@, p as int)),
        r matches Some(q) ==> p < q <= s.len(),
{
    match whitespace(s, p) {
        Some(q) => Some(q),
        None => comment(s, p),
    }
}

/// Skips separators and comments.
pub fn skip_scpads(s: &Vec<char>, p: usize) -> (r: usize)
    requires
        p <= s.len(),
    ensures
        r as int == skip_scpad(s@, p as int),
        p <= r <= s.len(),
{
    let mut j = p;
    loop
        invariant
            p <= j <= s.len(),
            skip_scpad(s@, j as int) == skip_scpad(s@, p as int),
        decreases s.len() - j,
    {
        match scpad(s, j) {
            Some(q) => {
                j = q;
            },
            None => {
                return j;
            },
        }
    }
}

/// Skips whitespace and comments.
pub fn skip_wcpads(s: &Vec<char>, p: usize) -> (r: usize)
    requires
        p <= s.len(),
    ensures
        r as int == skip_wcpad(s@, p as int),
        p <= r <= s.len(),
{
    let mut j = p;
    loop
        invariant
            p <= j <= s.len(),
            skip_wcpad(s@, j as int) == skip_wcpad(s@, p as int),
        decreases s.len() - j,
    {
        match wcpad(s, j) {
            Some(q) => {
                j = q;
            },
            None => {
                return j;
            },
        }
    }
}

/// Recognizes a terminator: `;` after any separators, or a line ending.
pub fn terminator(s: &Vec<char>, p: usize) -> (r: Option<usize>)
    requires
        p <= s.len(),
    ensures
        same_end(r, terminator_end(s@, p as int)),
        r matches Some(q) ==> p < q <= s.len(),
{
    let mut j = p;
    while j < s.len() && is_separator_char(s[j])
        invariant
            p <= j <= s.len(),
            skip_separators(s@, j as int) == skip_separators(s@, p as int),
        decreases s.len() - j,
    {
        j = j + 1;
    }
    if has_char(s, j, ';') {
        Some(j + 1)
    } else {
        line_ending(s, p)
    }
}

} // verus!

verus! {

/// Relies on `str::chars` collected into a `Vec`: the characters of `s`, in order.
#[verifier::external_body]
pub fn chars_of(s: &str) -> (r: Vec<char>)
    ensures
        r@ == s@,
{
    s.chars().collect()
}

/// Relies on `String`'s `FromIterator<&char>`: the string of the characters
/// `s[from..to]`, in order.
#[verifier::external_body]
pub fn string_of(s: &Vec<char>, from: usize, to: usize) -> (r: String)
    requires
        from <= to <= s.len(),
    ensures
        r@ == s@.subrange(from as int, to as int),
{
    s[from..to].iter().collect()
}

} // verus!
