//! The four operations on the text of a hosts file: delete, create, update
//! and search.

use vstd::prelude::*;
use crate::error::HostsError;
use crate::matcher::{is_record_for, line_is_record, occurs_at};
use crate::text::{
    chars_of, copy_line, ends_with_newline, lines_of, render, render_lines, split_lines,
    string_of, views,
};

verus! {

/// Some line of `ls` is a mapping record for `d`.
pub open spec fn any_record(ls: Seq<Seq<char>>, d: Seq<char>) -> bool {
    exists|k: int| 0 <= k < ls.len() && is_record_for(#[trigger] ls[k], d)
}

/// The lines of `ls` that are not mapping records for `d`, in order.
pub open spec fn without_records(ls: Seq<Seq<char>>, d: Seq<char>) -> Seq<Seq<char>>
    decreases ls.len(),
{
    if ls.len() == 0 {
        Seq::<Seq<char>>::empty()
    } else {
        let r = without_records(ls.drop_last(), d);
        if is_record_for(ls.last(), d) {
            r
        } else {
            r.push(ls.last())
        }
    }
}

/// The text of a successful result, or its error.
pub open spec fn outcome(r: Result<String, HostsError>) -> Result<Seq<char>, HostsError> {
    match r {
        Ok(s) => Ok(s@),
        Err(e) => Err(e),
    }
}

/// Deleting every mapping record for `d` from `content`.
pub open spec fn delete_result(content: Seq<char>, d: Seq<char>) -> Result<
    Seq<char>,
    HostsError,
> {
    let ls = lines_of(content);
    if any_record(ls, d) {
        Ok(render(without_records(ls, d), ends_with_newline(content)))
    } else {
        Err(HostsError::DomainNotFound)
    }
}

pub(crate) fn text_ends_with_newline(text: &Vec<char>) -> (r: bool)
    ensures
        r == ends_with_newline(text@),
{
    text.len() > 0 && text[text.len() - 1] == '\n'
}

/// Removes every mapping record for `domain` from `content`; fails with
/// `DomainNotFound` when there is none. The other lines keep their order, and
/// the result ends with a newline exactly when `content` does.
pub fn remove_domain(content: &str, domain: &str) -> (r: Result<String, HostsError>)
    ensures
        outcome(r) == delete_result(content@, domain@),
{
    let text = chars_of(content);
    let d = chars_of(domain);
    let ls = split_lines(&text);
    let mut kept: Vec<Vec<char>> = Vec::new();
    let mut found = false;
    let mut k: usize = 0;
    assert(views(ls@).subrange(0, 0) =~= Seq::<Seq<char>>::empty());
    while k < ls.len()
        invariant
            k <= ls.len(),
            views(kept@) == without_records(views(ls@).subrange(0, k as int), d@),
            views(ls@) == lines_of(content@),
            d@ == domain@,
            text@ == content@,
            found == any_record(views(ls@).subrange(0, k as int), d@),
        decreases ls.len() - k,
    {
        let ghost prefix = views(ls@).subrange(0, k + 1);
        assert(prefix.drop_last() =~= views(ls@).subrange(0, k as int));
        assert(prefix.last() == ls@[k as int]@);
        if line_is_record(&ls[k], &d) {
            found = true;
            assert(is_record_for(prefix[k as int], d@));
        } else {
            kept.push(copy_line(&ls[k]));
            assert(views(kept@) =~= without_records(prefix, d@));
            assert(found == any_record(prefix, d@)) by {
                if any_record(prefix, d@) {
                    let j = choose|j: int| 0 <= j < prefix.len() && is_record_for(#[trigger] prefix[j], d@);
                    assert(views(ls@).subrange(0, k as int)[j] == prefix[j]);
                }
            }
        }
        k = k + 1;
    }
    assert(views(ls@).subrange(0, ls.len() as int) =~= views(ls@));
    if !found {
        return Err(HostsError::DomainNotFound);
    }
    let out = render_lines(&kept, text_ends_with_newline(&text));
    Ok(string_of(&out))
}


/// The index of the first mapping record for `d` in `ls` at or after `i`, or
/// the length of `ls` when there is none.
pub open spec fn first_record_from(ls: Seq<Seq<char>>, d: Seq<char>, i: int) -> int
    decreases ls.len() - i,
{
    if 0 <= i < ls.len() {
        if is_record_for(ls[i], d) {
            i
        } else {
            first_record_from(ls, d, i + 1)
        }
    } else {
        ls.len() as int
    }
}

pub open spec fn created_tag() -> Seq<char> {
    "# created by hostm "@
}

pub open spec fn updated_tag() -> Seq<char> {
    "# updated by hostm "@
}

/// The record line `<ip> <domain> <tag><stamp>`.
pub open spec fn record_line(ip: Seq<char>, d: Seq<char>, tag: Seq<char>, stamp: Seq<char>) -> Seq<
    char,
> {
    ip + seq![' '] + d + seq![' '] + tag + stamp
}

/// Adding a record for `d` at the end of `content`.
pub open spec fn create_result(
    content: Seq<char>,
    d: Seq<char>,
    ip: Seq<char>,
    stamp: Seq<char>,
) -> Result<Seq<char>, HostsError> {
    let ls = lines_of(content);
    if any_record(ls, d) {
        Err(HostsError::DomainAlreadyExists)
    } else {
        Ok(render(ls.push(record_line(ip, d, created_tag(), stamp)), ends_with_newline(content)))
    }
}

/// Replacing the first record for `d` in `content`.
pub open spec fn update_result(
    content: Seq<char>,
    d: Seq<char>,
    ip: Seq<char>,
    stamp: Seq<char>,
) -> Result<Seq<char>, HostsError> {
    let ls = lines_of(content);
    let k = first_record_from(ls, d, 0);
    if k < ls.len() {
        Ok(render(ls.update(k, record_line(ip, d, updated_tag(), stamp)), ends_with_newline(content)))
    } else {
        Err(HostsError::DomainNotFound)
    }
}

fn append(out: &mut Vec<char>, s: &Vec<char>)
    ensures
        final(out)@ == old(out)@ + s@,
{
    let mut i: usize = 0;
    let ghost start = out@;
    while i < s.len()
        invariant
            i <= s.len(),
            out@ == start + s@.subrange(0, i as int),
        decreases s.len() - i,
    {
        out.push(s[i]);
        i = i + 1;
        assert(out@ =~= start + s@.subrange(0, i as int));
    }
    assert(s@.subrange(0, i as int) =~= s@);
}

fn make_record_line(ip: &Vec<char>, d: &Vec<char>, tag: &Vec<char>, stamp: &Vec<char>) -> (r: Vec<
    char,
>)
    ensures
        r@ == record_line(ip@, d@, tag@, stamp@),
{
    let mut r: Vec<char> = Vec::new();
    append(&mut r, ip);
    r.push(' ');
    append(&mut r, d);
    r.push(' ');
    append(&mut r, tag);
    append(&mut r, stamp);
    assert(r@ =~= record_line(ip@, d@, tag@, stamp@));
    r
}

/// Relies on `chrono::Local::now` and its `%Y-%m-%d %H:%M:%S` formatting: the
/// local time now, as text.
#[verifier::external_body]
fn local_timestamp() -> (r: String) {
    chrono::Local::now().format("%Y-%m-%d %H:%M:%S").to_string()
}

/// Adds the record `<ip> <domain> # created by hostm <stamp>` as a new last
/// line of `content`; fails with `DomainAlreadyExists` when a record for
/// `domain` is present. No other line changes, and the result ends with a
/// newline exactly when `content` does.
pub fn create_record(content: &str, domain: &str, ip: &str, stamp: &str) -> (r: Result<
    String,
    HostsError,
>)
    ensures
        outcome(r) == create_result(content@, domain@, ip@, stamp@),
{
    let text = chars_of(content);
    let d = chars_of(domain);
    let mut ls = split_lines(&text);
    let mut k: usize = 0;
    while k < ls.len()
        invariant
            k <= ls.len(),
            views(ls@) == lines_of(content@),
            d@ == domain@,
            text@ == content@,
            forall|j: int| 0 <= j < k ==> !is_record_for(#[trigger] views(ls@)[j], d@),
        decreases ls.len() - k,
    {
        if line_is_record(&ls[k], &d) {
            assert(is_record_for(views(ls@)[k as int], d@));
            assert(any_record(views(ls@), d@));
            return Err(HostsError::DomainAlreadyExists);
        }
        k = k + 1;
    }
    let line = make_record_line(&chars_of(ip), &d, &chars_of("# created by hostm "), &chars_of(stamp));
    let ghost before = views(ls@);
    ls.push(line);
    assert(views(ls@) =~= before.push(line@));
    let out = render_lines(&ls, text_ends_with_newline(&text));
    Ok(string_of(&out))
}

/// Adds a record for `domain` stamped with the local time now, as
/// `create_record` does.
pub fn add_new_domain(content: &str, domain: &str, ip: &str) -> (r: Result<String, HostsError>)
    ensures
        exists|stamp: Seq<char>| outcome(r) == create_result(content@, domain@, ip@, stamp),
{
    let stamp = local_timestamp();
    create_record(content, domain, ip, stamp.as_str())
}

/// Replaces the first mapping record for `domain` in `content` with
/// `<ip> <domain> # updated by hostm <stamp>`; fails with `DomainNotFound`
/// when there is none. No other line changes, and the result ends with a
/// newline exactly when `content` does.
pub fn update_record(content: &str, domain: &str, ip: &str, stamp: &str) -> (r: Result<
    String,
    HostsError,
>)
    ensures
        outcome(r) == update_result(content@, domain@, ip@, stamp@),
{
    let text = chars_of(content);
    let d = chars_of(domain);
    let ls = split_lines(&text);
    let ghost lv = views(ls@);
    let mut out_lines: Vec<Vec<char>> = Vec::new();
    let mut k: usize = 0;
    while k < ls.len()
        invariant
            k <= ls.len(),
            lv == views(ls@),
            lv == lines_of(content@),
            d@ == domain@,
            text@ == content@,
            first_record_from(lv, d@, 0) == first_record_from(lv, d@, k as int),
            views(out_lines@) == lv.subrange(0, k as int),
        decreases ls.len() - k,
    {
        if line_is_record(&ls[k], &d) {
            let line = make_record_line(
                &chars_of(ip),
                &d,
                &chars_of("# updated by hostm "),
                &chars_of(stamp),
            );
            let ghost prior = views(out_lines@);
            out_lines.push(line);
            assert(views(out_lines@) =~= prior.push(line@));
            assert(views(out_lines@) =~= lv.update(k as int, line@).subrange(0, k + 1));
            assert(first_record_from(lv, d@, k as int) == k as int);
            let mut j: usize = k + 1;
            while j < ls.len()
                invariant
                    k < j <= ls.len(),
                    lv == views(ls@),
                    views(out_lines@) == lv.update(k as int, line@).subrange(0, j as int),
                decreases ls.len() - j,
            {
                let ghost prior = views(out_lines@);
                let copy = copy_line(&ls[j]);
                assert(copy@ == lv[j as int]);
                out_lines.push(copy);
                assert(views(out_lines@) =~= prior.push(copy@));
                j = j + 1;
                assert(views(out_lines@) =~= lv.update(k as int, line@).subrange(0, j as int));
            }
            assert(lv.update(k as int, line@).subrange(0, j as int) =~= lv.update(
                k as int,
                line@,
            ));
            let out = render_lines(&out_lines, text_ends_with_newline(&text));
            return Ok(string_of(&out));
        }
        let ghost prior = views(out_lines@);
        let copy = copy_line(&ls[k]);
        out_lines.push(copy);
        assert(views(out_lines@) =~= prior.push(copy@));
        k = k + 1;
        assert(views(out_lines@) =~= lv.subrange(0, k as int));
    }
    Err(HostsError::DomainNotFound)
}

/// Replaces the first record for `domain`, stamped with the local time now,
/// as `update_record` does.
pub fn update_existing_domain(content: &str, domain: &str, ip: &str) -> (r: Result<
    String,
    HostsError,
>)
    ensures
        exists|stamp: Seq<char>| outcome(r) == update_result(content@, domain@, ip@, stamp),
{
    let stamp = local_timestamp();
    update_record(content, domain, ip, stamp.as_str())
}


/// `d` occurs in `l` as a substring.
pub open spec fn contains_text(l: Seq<char>, d: Seq<char>) -> bool {
    exists|i: int| 0 <= i && i + d.len() <= l.len() && #[trigger] l.subrange(i, i + d.len()) == d
}

/// The lines of `ls` that contain `d`, each with its line number counted
/// from one, in order.
pub open spec fn search_hits(ls: Seq<Seq<char>>, d: Seq<char>) -> Seq<(int, Seq<char>)>
    decreases ls.len(),
{
    if ls.len() == 0 {
        Seq::<(int, Seq<char>)>::empty()
    } else {
        let h = search_hits(ls.drop_last(), d);
        if contains_text(ls.last(), d) {
            h.push((ls.len() as int, ls.last()))
        } else {
            h
        }
    }
}

pub open spec fn hit_views(r: Seq<(usize, String)>) -> Seq<(int, Seq<char>)> {
    r.map_values(|h: (usize, String)| (h.0 as int, h.1@))
}

fn line_contains(l: &Vec<char>, d: &Vec<char>) -> (r: bool)
    ensures
        r == contains_text(l@, d@),
{
    if d.len() > l.len() {
        return false;
    }
    let last: usize = l.len() - d.len();
    let mut i: usize = 0;
    while i < last
        invariant
            i <= last,
            last + d.len() == l.len(),
            forall|k: int| 0 <= k < i ==> #[trigger] l@.subrange(k, k + d.len()) != d@,
        decreases last - i,
    {
        if occurs_at(l, d, i) {
            return true;
        }
        i = i + 1;
    }
    if occurs_at(l, d, last) {
        return true;
    }
    assert forall|k: int| 0 <= k && k + d.len() <= l.len() implies #[trigger] l@.subrange(
        k,
        k + d.len(),
    ) != d@ by {
        assert(k <= last);
    }
    false
}

/// Reports every line of `content` that contains `domain` as a plain
/// substring, with its line number counted from one.
pub fn search_domain(content: &str, domain: &str) -> (r: Vec<(usize, String)>)
    ensures
        hit_views(r@) == search_hits(lines_of(content@), domain@),
{
    let text = chars_of(content);
    let d = chars_of(domain);
    let ls = split_lines(&text);
    let mut hits: Vec<(usize, String)> = Vec::new();
    let mut k: usize = 0;
    assert(views(ls@).subrange(0, 0) =~= Seq::<Seq<char>>::empty());
    while k < ls.len()
        invariant
            k <= ls.len(),
            views(ls@) == lines_of(content@),
            d@ == domain@,
            hit_views(hits@) == search_hits(views(ls@).subrange(0, k as int), d@),
        decreases ls.len() - k,
    {
        let ghost prefix = views(ls@).subrange(0, k + 1);
        assert(prefix.drop_last() =~= views(ls@).subrange(0, k as int));
        assert(prefix.last() == ls@[k as int]@);
        if line_contains(&ls[k], &d) {
            let ghost prior = hit_views(hits@);
            let text_of_line = string_of(&ls[k]);
            hits.push((k + 1, text_of_line));
            assert(hit_views(hits@) =~= prior.push(((k + 1) as int, ls@[k as int]@)));
        }
        k = k + 1;
    }
    assert(views(ls@).subrange(0, ls.len() as int) =~= views(ls@));
    hits
}

} // verus!
