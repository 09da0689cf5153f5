//! Recognising the mapping record of a domain: a line that starts with a
//! dotted-quad address and whitespace, and holds the domain as a whole word.

use vstd::prelude::*;
use crate::text::chars_of;

verus! {

/// Whether a non-ASCII character is a word character.
pub uninterp spec fn is_word_char(c: char) -> bool;

pub open spec fn is_ascii_word(c: char) -> bool {
    ('0' <= c && c <= '9') || ('a' <= c && c <= 'z') || ('A' <= c && c <= 'Z') || c == '_'
}

/// Word characters as the word boundaries of matching see them: on ASCII,
/// letters, digits and underscore.
pub open spec fn word_class(c: char) -> bool {
    if (c as u32) < 128 {
        is_ascii_word(c)
    } else {
        is_word_char(c)
    }
}

/// Relies on `regex_syntax::is_word_character`, the class that the regex
/// crate's Unicode `\b` uses; below 128 it holds exactly of `[0-9A-Za-z_]`.
#[verifier::external_body]
fn word_char(c: char) -> (r: bool)
    ensures
        (c as u32) < 128 ==> r == is_ascii_word(c),
        (c as u32) >= 128 ==> r == is_word_char(c),
{
    regex_syntax::is_word_character(c)
}

pub open spec fn is_digit(c: char) -> bool {
    '0' <= c && c <= '9'
}

/// The POSIX `space` class: space, tab, line feed, vertical tab, form feed
/// and carriage return.
pub open spec fn is_space(c: char) -> bool {
    c == ' ' || c == '\t' || c == '\n' || c == '\x0B' || c == '\x0C' || c == '\r'
}

/// The end of the run of digits that starts at `i`.
pub open spec fn digits_end(l: Seq<char>, i: int) -> int
    decreases l.len() - i,
{
    if 0 <= i < l.len() && is_digit(l[i]) {
        digits_end(l, i + 1)
    } else {
        i
    }
}

/// `l` starts with four dot-separated runs of digits followed by whitespace.
pub open spec fn address_prefix(l: Seq<char>) -> bool {
    let e1 = digits_end(l, 0);
    let e2 = digits_end(l, e1 + 1);
    let e3 = digits_end(l, e2 + 1);
    let e4 = digits_end(l, e3 + 1);
    &&& 0 < e1 && e1 < l.len() && l[e1] == '.'
    &&& e1 + 1 < e2 && e2 < l.len() && l[e2] == '.'
    &&& e2 + 1 < e3 && e3 < l.len() && l[e3] == '.'
    &&& e3 + 1 < e4 && e4 < l.len() && is_space(l[e4])
}

pub open spec fn word_at(l: Seq<char>, i: int) -> bool {
    0 <= i < l.len() && word_class(l[i])
}

/// A word boundary lies before position `i` of `l`.
pub open spec fn boundary_at(l: Seq<char>, i: int) -> bool {
    word_at(l, i - 1) != word_at(l, i)
}

/// `d` occurs in `l` at `i`, with a word boundary on each side.
pub open spec fn token_at(l: Seq<char>, d: Seq<char>, i: int) -> bool {
    &&& 0 <= i && i + d.len() <= l.len()
    &&& l.subrange(i, i + d.len()) == d
    &&& boundary_at(l, i)
    &&& boundary_at(l, i + d.len())
}

pub open spec fn has_token(l: Seq<char>, d: Seq<char>) -> bool {
    exists|i: int| token_at(l, d, i)
}

/// `l` is a mapping record for the domain `d`.
pub open spec fn is_record_for(l: Seq<char>, d: Seq<char>) -> bool {
    address_prefix(l) && has_token(l, d)
}

fn skip_digits(l: &Vec<char>, i: usize) -> (r: usize)
    requires
        i <= l.len(),
    ensures
        r as int == digits_end(l@, i as int),
        i <= r <= l.len(),
{
    let mut j: usize = i;
    while j < l.len() && '0' <= l[j] && l[j] <= '9'
        invariant
            i <= j <= l.len(),
            digits_end(l@, j as int) == digits_end(l@, i as int),
        decreases l.len() - j,
    {
        j = j + 1;
    }
    j
}

/// Whether the line starts with a dotted-quad address and whitespace.
pub fn has_address_prefix(l: &Vec<char>) -> (r: bool)
    ensures
        r == address_prefix(l@),
{
    let e1 = skip_digits(l, 0);
    if !(0 < e1 && e1 < l.len() && l[e1] == '.') {
        return false;
    }
    let e2 = skip_digits(l, e1 + 1);
    if !(e1 + 1 < e2 && e2 < l.len() && l[e2] == '.') {
        return false;
    }
    let e3 = skip_digits(l, e2 + 1);
    if !(e2 + 1 < e3 && e3 < l.len() && l[e3] == '.') {
        return false;
    }
    let e4 = skip_digits(l, e3 + 1);
    if !(e3 + 1 < e4 && e4 < l.len()) {
        return false;
    }
    let c = l[e4];
    c == ' ' || c == '\t' || c == '\n' || c == '\x0B' || c == '\x0C' || c == '\r'
}

fn word_before(l: &Vec<char>, i: usize) -> (r: bool)
    requires
        i <= l.len(),
    ensures
        r == word_at(l@, i - 1),
{
    if i == 0 {
        false
    } else {
        word_char(l[i - 1])
    }
}

fn word_after(l: &Vec<char>, i: usize) -> (r: bool)
    requires
        i <= l.len(),
    ensures
        r == word_at(l@, i as int),
{
    if i == l.len() {
        false
    } else {
        word_char(l[i])
    }
}

pub(crate) fn occurs_at(l: &Vec<char>, d: &Vec<char>, i: usize) -> (r: bool)
    requires
        i + d.len() <= l.len(),
    ensures
        r == (l@.subrange(i as int, i + d.len()) == d@),
{
    let mut j: usize = 0;
    while j < d.len()
        invariant
            j <= d.len(),
            i + d.len() <= l.len(),
            forall|k: int| 0 <= k < j ==> l@[i + k] == d@[k],
        decreases d.len() - j,
    {
        if l[i + j] != d[j] {
            assert(l@.subrange(i as int, i + d.len())[j as int] != d@[j as int]);
            return false;
        }
        j = j + 1;
    }
    assert(l@.subrange(i as int, i + d.len()) =~= d@);
    true
}

fn token_here(l: &Vec<char>, d: &Vec<char>, i: usize) -> (r: bool)
    requires
        i + d.len() <= l.len(),
    ensures
        r == token_at(l@, d@, i as int),
{
    occurs_at(l, d, i) && word_before(l, i) != word_after(l, i) && word_before(l, i + d.len())
        != word_after(l, i + d.len())
}

/// Whether `d` occurs in `l` as a whole word.
pub fn find_token(l: &Vec<char>, d: &Vec<char>) -> (r: bool)
    ensures
        r == has_token(l@, d@),
{
    if d.len() > l.len() {
        return false;
    }
    let last: usize = l.len() - d.len();
    let mut i: usize = 0;
    while i < last
        invariant
            i <= last,
            last + d.len() == l.len(),
            forall|k: int| 0 <= k < i ==> !token_at(l@, d@, k),
        decreases last - i,
    {
        if token_here(l, d, i) {
            return true;
        }
        i = i + 1;
    }
    if token_here(l, d, last) {
        return true;
    }
    assert forall|k: int| !token_at(l@, d@, k) by {
        if 0 <= k && k + d.len() <= l.len() {
            assert(k <= last);
        }
    }
    false
}

/// Whether the line is a mapping record for the domain.
pub fn line_is_record(l: &Vec<char>, d: &Vec<char>) -> (r: bool)
    ensures
        r == is_record_for(l@, d@),
{
    has_address_prefix(l) && find_token(l, d)
}

/// Whether `line` is a mapping record for `domain`: it starts with a
/// dotted-quad address followed by whitespace, and `domain` occurs in it as a
/// whole word.
pub fn is_mapping_for(line: &str, domain: &str) -> (r: bool)
    ensures
        r == is_record_for(line@, domain@),
{
    let l = chars_of(line);
    let d = chars_of(domain);
    line_is_record(&l, &d)
}

} // verus!
