//! Properties that relate the operations to each other, proved over their
//! specifications.

use vstd::prelude::*;
use crate::edit::{
    any_record, contains_text, create_result, created_tag, delete_result, first_record_from,
    record_line, search_hits, update_result, updated_tag, without_records,
};
use crate::error::HostsError;
use crate::matcher::{
    address_prefix, boundary_at, digits_end, is_record_for, token_at, word_at, word_class,
};
use crate::text::{
    all_single, ends_with_newline, join_lines, lemma_lines_render, lemma_lines_render_any,
    lemma_render_lines, lines_of, no_newline, render,
};

verus! {

/// `ip`, followed by a space, begins with a dotted-quad address and whitespace.
pub open spec fn starts_with_address(ip: Seq<char>) -> bool {
    address_prefix(ip.push(' '))
}

/// `d` is not empty, and begins and ends with a word character.
pub open spec fn word_edged(d: Seq<char>) -> bool {
    d.len() > 0 && word_class(d[0]) && word_class(d.last())
}

pub open spec fn ends_with_two_newlines(s: Seq<char>) -> bool {
    s.len() >= 2 && s[s.len() - 1] == '\n' && s[s.len() - 2] == '\n'
}

proof fn lemma_digits_end_bounds(s: Seq<char>, i: int)
    requires
        0 <= i <= s.len(),
    ensures
        i <= digits_end(s, i) <= s.len(),
    decreases s.len() - i,
{
    if i < s.len() && crate::matcher::is_digit(s[i]) {
        lemma_digits_end_bounds(s, i + 1);
    }
}

proof fn lemma_digits_end_extend(s: Seq<char>, t: Seq<char>, i: int)
    requires
        0 <= i <= s.len(),
        digits_end(s, i) < s.len(),
    ensures
        digits_end(s + t, i) == digits_end(s, i),
    decreases s.len() - i,
{
    if i < s.len() && crate::matcher::is_digit(s[i]) {
        assert((s + t)[i] == s[i]);
        lemma_digits_end_bounds(s, i + 1);
        lemma_digits_end_extend(s, t, i + 1);
    } else {
        assert((s + t)[i] == s[i]);
    }
}

proof fn lemma_address_prefix_extend(s: Seq<char>, t: Seq<char>)
    requires
        address_prefix(s),
    ensures
        address_prefix(s + t),
{
    let e1 = digits_end(s, 0);
    let e2 = digits_end(s, e1 + 1);
    let e3 = digits_end(s, e2 + 1);
    let e4 = digits_end(s, e3 + 1);
    lemma_digits_end_extend(s, t, 0);
    lemma_digits_end_extend(s, t, e1 + 1);
    lemma_digits_end_extend(s, t, e2 + 1);
    lemma_digits_end_extend(s, t, e3 + 1);
    assert((s + t)[e1] == s[e1]);
    assert((s + t)[e2] == s[e2]);
    assert((s + t)[e3] == s[e3]);
    assert((s + t)[e4] == s[e4]);
}

/// A record line built from an address and a word-edged domain is a mapping
/// record for that domain.
pub proof fn lemma_record_line_is_record(
    ip: Seq<char>,
    d: Seq<char>,
    tag: Seq<char>,
    stamp: Seq<char>,
)
    requires
        starts_with_address(ip),
        word_edged(d),
    ensures
        is_record_for(record_line(ip, d, tag, stamp), d),
{
    let x = record_line(ip, d, tag, stamp);
    let rest = d + seq![' '] + tag + stamp;
    assert(x =~= ip.push(' ') + rest);
    lemma_address_prefix_extend(ip.push(' '), rest);
    let p: int = ip.len() as int + 1;
    assert(x.subrange(p, p + d.len()) =~= d);
    assert(x[p - 1] == ' ');
    assert(x[p] == d[0]);
    assert(x[p + d.len() - 1] == d.last());
    assert(x[p + d.len()] == ' ');
    assert(!word_at(x, p - 1));
    assert(word_at(x, p));
    assert(boundary_at(x, p));
    assert(word_at(x, p + d.len() - 1));
    assert(!word_at(x, p + d.len()));
    assert(token_at(x, d, p));
}

/// A record line holds no newline when its parts hold none.
pub proof fn lemma_record_line_single(ip: Seq<char>, d: Seq<char>, tag: Seq<char>, stamp: Seq<char>)
    requires
        no_newline(ip),
        no_newline(d),
        no_newline(tag),
        no_newline(stamp),
    ensures
        no_newline(record_line(ip, d, tag, stamp)),
        record_line(ip, d, tag, stamp).len() > 0,
{
    let x = record_line(ip, d, tag, stamp);
    assert forall|i: int| 0 <= i < x.len() implies x[i] != '\n' by {
        let a = ip.len() as int;
        let b = a + 1 + d.len();
        let c = b + 1 + tag.len();
        if i < a {
            assert(x[i] == ip[i]);
        } else if i == a {
            assert(x[i] == ' ');
        } else if i < b {
            assert(x[i] == d[i - a - 1]);
        } else if i == b {
            assert(x[i] == ' ');
        } else if i < c {
            assert(x[i] == tag[i - b - 1]);
        } else {
            assert(x[i] == stamp[i - c]);
        }
    }
}

proof fn lemma_tags_single()
    ensures
        no_newline(created_tag()),
        no_newline(updated_tag()),
{
    reveal_strlit("# created by hostm ");
    reveal_strlit("# updated by hostm ");
}


proof fn lemma_without_records(ls: Seq<Seq<char>>, d: Seq<char>)
    requires
        all_single(ls),
    ensures
        all_single(without_records(ls, d)),
        forall|k: int|
            0 <= k < without_records(ls, d).len() ==> !is_record_for(
                #[trigger] without_records(ls, d)[k],
                d,
            ),
    decreases ls.len(),
{
    if ls.len() > 0 {
        let init = ls.drop_last();
        assert forall|k: int| 0 <= k < init.len() implies no_newline(#[trigger] init[k]) by {
            assert(init[k] == ls[k]);
        }
        lemma_without_records(init, d);
        assert(no_newline(ls[ls.len() - 1]));
        let r = without_records(init, d);
        let f = without_records(ls, d);
        assert forall|k: int| 0 <= k < f.len() implies no_newline(#[trigger] f[k]) && !is_record_for(f[k], d) by {
            if k < r.len() {
                assert(f[k] == r[k]);
            }
        }
    }
}

proof fn lemma_first_record(ls: Seq<Seq<char>>, d: Seq<char>, i: int, k: int)
    requires
        0 <= i <= k < ls.len(),
        is_record_for(ls[k], d),
        forall|j: int| 0 <= j < k ==> !is_record_for(#[trigger] ls[j], d),
    ensures
        first_record_from(ls, d, i) == k,
    decreases k - i,
{
    if i < k {
        lemma_first_record(ls, d, i + 1, k);
    }
}

/// A line that is a mapping record is never empty.
proof fn lemma_record_nonempty(l: Seq<char>, d: Seq<char>)
    requires
        is_record_for(l, d),
    ensures
        l.len() > 0,
{
}

/// The end of rendered text: it ends with a newline exactly when asked to,
/// and never with two, when the last line is not blank.
proof fn lemma_render_end(ls: Seq<Seq<char>>, newline: bool)
    requires
        all_single(ls),
        ls.len() == 0 || ls.last().len() > 0,
    ensures
        ends_with_newline(render(ls, newline)) == newline,
        !ends_with_two_newlines(render(ls, newline)),
{
    let j = join_lines(ls);
    if ls.len() > 0 {
        assert(no_newline(ls[ls.len() - 1]));
        if ls.len() == 1 {
            assert(j == ls[0]);
        } else {
            assert(j == join_lines(ls.drop_last()).push('\n') + ls.last());
        }
        assert(j.len() > 0 && j.last() == ls.last().last());
        assert(j.last() != '\n');
    } else {
        assert(j.len() == 0);
    }
    if newline {
        assert(render(ls, newline).drop_last() =~= j);
    }
}

/// Text that does not end with two newlines has a last line that is not
/// blank, unless it is a single newline.
proof fn lemma_last_line(content: Seq<char>)
    requires
        !ends_with_two_newlines(content),
        lines_of(content).len() >= 2 || (lines_of(content).len() == 1 && lines_of(content)[0].len()
            > 0) || !ends_with_newline(content),
    ensures
        lines_of(content).len() == 0 || lines_of(content).last().len() > 0,
{
    lemma_render_lines(content);
    let ls = lines_of(content);
    if ends_with_newline(content) && ls.len() >= 2 && ls.last().len() == 0 {
        let j = join_lines(ls);
        assert(j == join_lines(ls.drop_last()).push('\n') + ls.last());
        assert(j =~= join_lines(ls.drop_last()).push('\n'));
        assert(content == j.push('\n'));
        assert(content[content.len() - 2] == '\n');
    }
}

/// Deleting a domain that has no mapping record fails with `DomainNotFound`
/// and yields no new text.
pub proof fn lemma_delete_absent(content: Seq<char>, d: Seq<char>)
    requires
        !any_record(lines_of(content), d),
    ensures
        delete_result(content, d) == Err::<Seq<char>, HostsError>(HostsError::DomainNotFound),
{
}

/// Creating a record for a domain that has none, with a domain, address and
/// stamp free of newlines, adds exactly one line to what a search for the
/// domain reports: the new last line, which holds both the domain and the
/// address.
pub proof fn lemma_create_then_search(
    content: Seq<char>,
    d: Seq<char>,
    ip: Seq<char>,
    stamp: Seq<char>,
)
    requires
        !any_record(lines_of(content), d),
        no_newline(ip),
        no_newline(d),
        no_newline(stamp),
    ensures
        create_result(content, d, ip, stamp) is Ok,
        ({
            let out = create_result(content, d, ip, stamp)->Ok_0;
            let x = record_line(ip, d, created_tag(), stamp);
            &&& search_hits(lines_of(out), d) == search_hits(lines_of(content), d).push(
                ((lines_of(content).len() + 1) as int, x),
            )
            &&& contains_text(x, d)
            &&& contains_text(x, ip)
        }),
{
    let ls = lines_of(content);
    let x = record_line(ip, d, created_tag(), stamp);
    lemma_render_lines(content);
    lemma_tags_single();
    lemma_record_line_single(ip, d, created_tag(), stamp);
    let f = ls.push(x);
    assert forall|k: int| 0 <= k < f.len() implies no_newline(#[trigger] f[k]) by {
        if k < ls.len() {
            assert(f[k] == ls[k]);
        }
    }
    lemma_lines_render(f, ends_with_newline(content));
    assert(f.drop_last() =~= ls);
    let p: int = ip.len() as int + 1;
    assert(x.subrange(p, p + d.len()) =~= d);
    assert(x.subrange(0, ip.len() as int) =~= ip);
    assert(x.subrange(0, 0 + ip.len() as int) == ip);
    assert(contains_text(x, d));
    assert(contains_text(x, ip));
    assert(f.last() == x);
    assert(search_hits(f, d) == search_hits(ls, d).push((f.len() as int, x)));
}

/// Updating a domain that has exactly one mapping record, at line `k`, to an
/// address that begins with a dotted quad, when the domain is word-edged and
/// no part holds a newline: line `k` is replaced by one that begins with the
/// new address, every other line is kept as it was, and exactly one record
/// for the domain remains.
pub proof fn lemma_update_single(
    content: Seq<char>,
    d: Seq<char>,
    ip: Seq<char>,
    stamp: Seq<char>,
    k: int,
)
    requires
        0 <= k < lines_of(content).len(),
        is_record_for(lines_of(content)[k], d),
        forall|j: int|
            0 <= j < lines_of(content).len() && j != k ==> !is_record_for(
                #[trigger] lines_of(content)[j],
                d,
            ),
        starts_with_address(ip),
        word_edged(d),
        no_newline(ip),
        no_newline(d),
        no_newline(stamp),
    ensures
        update_result(content, d, ip, stamp) is Ok,
        ({
            let after = lines_of(update_result(content, d, ip, stamp)->Ok_0);
            let before = lines_of(content);
            &&& after.len() == before.len()
            &&& after[k] == record_line(ip, d, updated_tag(), stamp)
            &&& after[k].subrange(0, ip.len() as int + 1) == ip.push(' ')
            &&& forall|j: int| 0 <= j < before.len() && j != k ==> after[j] == before[j]
            &&& is_record_for(after[k], d)
            &&& forall|j: int|
                0 <= j < after.len() && j != k ==> !is_record_for(#[trigger] after[j], d)
        }),
{
    let ls = lines_of(content);
    let x = record_line(ip, d, updated_tag(), stamp);
    lemma_render_lines(content);
    lemma_first_record(ls, d, 0, k);
    lemma_tags_single();
    lemma_record_line_single(ip, d, updated_tag(), stamp);
    lemma_record_line_is_record(ip, d, updated_tag(), stamp);
    let f = ls.update(k, x);
    assert forall|j: int| 0 <= j < f.len() implies no_newline(#[trigger] f[j]) by {
        if j != k {
            assert(f[j] == ls[j]);
        }
    }
    lemma_lines_render(f, ends_with_newline(content));
    assert(x.subrange(0, ip.len() as int + 1) =~= ip.push(' '));
    assert forall|j: int| 0 <= j < f.len() && j != k implies !is_record_for(#[trigger] f[j], d) by {
        assert(f[j] == ls[j]);
    }
}

/// Creating a record and then creating one for the same domain again fails
/// the second time with `DomainAlreadyExists`, when the first address begins
/// with a dotted quad, the domain is word-edged, and the parts are free of
/// newlines.
pub proof fn lemma_create_twice(
    content: Seq<char>,
    d: Seq<char>,
    ip: Seq<char>,
    stamp: Seq<char>,
    ip2: Seq<char>,
    stamp2: Seq<char>,
)
    requires
        create_result(content, d, ip, stamp) is Ok,
        starts_with_address(ip),
        word_edged(d),
        no_newline(ip),
        no_newline(d),
        no_newline(stamp),
    ensures
        create_result(create_result(content, d, ip, stamp)->Ok_0, d, ip2, stamp2) == Err::<
            Seq<char>,
            HostsError,
        >(HostsError::DomainAlreadyExists),
{
    let ls = lines_of(content);
    let x = record_line(ip, d, created_tag(), stamp);
    lemma_render_lines(content);
    lemma_tags_single();
    lemma_record_line_single(ip, d, created_tag(), stamp);
    lemma_record_line_is_record(ip, d, created_tag(), stamp);
    let f = ls.push(x);
    assert forall|k: int| 0 <= k < f.len() implies no_newline(#[trigger] f[k]) by {
        if k < ls.len() {
            assert(f[k] == ls[k]);
        }
    }
    lemma_lines_render(f, ends_with_newline(content));
    let after = lines_of(create_result(content, d, ip, stamp)->Ok_0);
    assert(after[ls.len() as int] == x);
    assert(any_record(after, d));
}

/// Deleting a domain and then deleting it again fails the second time with
/// `DomainNotFound`.
pub proof fn lemma_delete_twice(content: Seq<char>, d: Seq<char>)
    requires
        delete_result(content, d) is Ok,
    ensures
        delete_result(delete_result(content, d)->Ok_0, d) == Err::<Seq<char>, HostsError>(
            HostsError::DomainNotFound,
        ),
{
    let ls = lines_of(content);
    lemma_render_lines(content);
    let f = without_records(ls, d);
    lemma_without_records(ls, d);
    lemma_lines_render_any(f, ends_with_newline(content));
    let after = lines_of(delete_result(content, d)->Ok_0);
    assert forall|k: int| 0 <= k < after.len() implies !is_record_for(#[trigger] after[k], d) by {
        if after[k].len() == 0 {
            if is_record_for(after[k], d) {
                lemma_record_nonempty(after[k], d);
            }
        }
    }
}


proof fn lemma_first_record_is(ls: Seq<Seq<char>>, d: Seq<char>, i: int)
    requires
        0 <= i,
        first_record_from(ls, d, i) < ls.len(),
    ensures
        i <= first_record_from(ls, d, i),
        is_record_for(ls[first_record_from(ls, d, i)], d),
    decreases ls.len() - i,
{
    if i < ls.len() && !is_record_for(ls[i], d) {
        lemma_first_record_is(ls, d, i + 1);
    }
}

/// Creating a record keeps the text's final newline convention: the result
/// ends with a newline exactly when the input does, and never with two, when
/// the parts of the new line are free of newlines.
pub proof fn lemma_create_keeps_newline(
    content: Seq<char>,
    d: Seq<char>,
    ip: Seq<char>,
    stamp: Seq<char>,
)
    requires
        create_result(content, d, ip, stamp) is Ok,
        no_newline(ip),
        no_newline(d),
        no_newline(stamp),
    ensures
        ends_with_newline(create_result(content, d, ip, stamp)->Ok_0) == ends_with_newline(
            content,
        ),
        !ends_with_two_newlines(create_result(content, d, ip, stamp)->Ok_0),
{
    let ls = lines_of(content);
    let x = record_line(ip, d, created_tag(), stamp);
    lemma_render_lines(content);
    lemma_tags_single();
    lemma_record_line_single(ip, d, created_tag(), stamp);
    let f = ls.push(x);
    assert forall|k: int| 0 <= k < f.len() implies no_newline(#[trigger] f[k]) by {
        if k < ls.len() {
            assert(f[k] == ls[k]);
        }
    }
    lemma_render_end(f, ends_with_newline(content));
}

/// Updating a record keeps the text's final newline convention: the result
/// ends with a newline exactly when the input does, and with a single one
/// when the input does not end with two, when the parts of the new line are
/// free of newlines.
pub proof fn lemma_update_keeps_newline(
    content: Seq<char>,
    d: Seq<char>,
    ip: Seq<char>,
    stamp: Seq<char>,
)
    requires
        update_result(content, d, ip, stamp) is Ok,
        !ends_with_two_newlines(content),
        no_newline(ip),
        no_newline(d),
        no_newline(stamp),
    ensures
        ends_with_newline(update_result(content, d, ip, stamp)->Ok_0) == ends_with_newline(
            content,
        ),
        !ends_with_two_newlines(update_result(content, d, ip, stamp)->Ok_0),
{
    let ls = lines_of(content);
    let x = record_line(ip, d, updated_tag(), stamp);
    let k = first_record_from(ls, d, 0);
    lemma_render_lines(content);
    lemma_first_record_is(ls, d, 0);
    lemma_record_nonempty(ls[k], d);
    lemma_last_line(content);
    lemma_tags_single();
    lemma_record_line_single(ip, d, updated_tag(), stamp);
    let f = ls.update(k, x);
    assert forall|j: int| 0 <= j < f.len() implies no_newline(#[trigger] f[j]) by {
        if j != k {
            assert(f[j] == ls[j]);
        }
    }
    assert(f.last().len() > 0);
    lemma_render_end(f, ends_with_newline(content));
}

/// Deleting records keeps the text's final newline convention: the result
/// ends with a newline exactly when the input does, and never with two, when
/// the last line that remains is not blank.
pub proof fn lemma_delete_keeps_newline(content: Seq<char>, d: Seq<char>)
    requires
        delete_result(content, d) is Ok,
        without_records(lines_of(content), d).len() == 0 || without_records(
            lines_of(content),
            d,
        ).last().len() > 0,
    ensures
        ends_with_newline(delete_result(content, d)->Ok_0) == ends_with_newline(content),
        !ends_with_two_newlines(delete_result(content, d)->Ok_0),
{
    let ls = lines_of(content);
    lemma_render_lines(content);
    lemma_without_records(ls, d);
    lemma_render_end(without_records(ls, d), ends_with_newline(content));
}

} // verus!
