//! Splitting text into lines and joining lines back into text.

use vstd::prelude::*;

verus! {

/// The pieces of `s` that lie between newline characters; there is always at
/// least one (the empty text is one empty piece).
pub open spec fn pieces(s: Seq<char>) -> Seq<Seq<char>>
    decreases s.len(),
{
    if s.len() == 0 {
        seq![Seq::<char>::empty()]
    } else {
        let p = pieces(s.drop_last());
        if s.last() == '\n' {
            p.push(Seq::<char>::empty())
        } else {
            p.update(p.len() - 1, p.last().push(s.last()))
        }
    }
}

/// The lines of `s`: its pieces, where a newline at the very end closes the
/// last line rather than opening an empty one.
pub open spec fn lines_of(s: Seq<char>) -> Seq<Seq<char>> {
    let p = pieces(s);
    if p.last().len() == 0 {
        p.drop_last()
    } else {
        p
    }
}

/// The lines separated by single newline characters.
pub open spec fn join_lines(ls: Seq<Seq<char>>) -> Seq<char>
    decreases ls.len(),
{
    if ls.len() == 0 {
        Seq::<char>::empty()
    } else if ls.len() == 1 {
        ls[0]
    } else {
        join_lines(ls.drop_last()).push('\n') + ls.last()
    }
}

pub open spec fn ends_with_newline(s: Seq<char>) -> bool {
    s.len() > 0 && s.last() == '\n'
}

/// The text made of `ls`, with a final newline when `newline` holds.
pub open spec fn render(ls: Seq<Seq<char>>, newline: bool) -> Seq<char> {
    if newline {
        join_lines(ls).push('\n')
    } else {
        join_lines(ls)
    }
}

pub open spec fn no_newline(l: Seq<char>) -> bool {
    forall|i: int| 0 <= i < l.len() ==> l[i] != '\n'
}

pub open spec fn all_single(ls: Seq<Seq<char>>) -> bool {
    forall|k: int| 0 <= k < ls.len() ==> no_newline(#[trigger] ls[k])
}

pub open spec fn views(v: Seq<Vec<char>>) -> Seq<Seq<char>> {
    v.map_values(|l: Vec<char>| l@)
}

pub proof fn lemma_pieces_shape(s: Seq<char>)
    ensures
        pieces(s).len() >= 1,
        all_single(pieces(s)),
    decreases s.len(),
{
    if s.len() > 0 {
        lemma_pieces_shape(s.drop_last());
        let p = pieces(s.drop_last());
        if s.last() != '\n' {
            let q = pieces(s);
            assert forall|k: int| 0 <= k < q.len() implies no_newline(#[trigger] q[k]) by {
                if k == q.len() - 1 {
                    assert(no_newline(p[k]));
                } else {
                    assert(q[k] == p[k]);
                }
            }
        } else {
            let q = pieces(s);
            assert forall|k: int| 0 <= k < q.len() implies no_newline(#[trigger] q[k]) by {
                if k < p.len() {
                    assert(q[k] == p[k]);
                }
            }
        }
    }
}


/// Text without newlines lengthens the last piece.
pub proof fn lemma_pieces_extend(s: Seq<char>, x: Seq<char>)
    requires
        no_newline(x),
    ensures
        pieces(s + x) == pieces(s).update(pieces(s).len() - 1, pieces(s).last() + x),
    decreases x.len(),
{
    lemma_pieces_shape(s);
    if x.len() == 0 {
        assert(s + x =~= s);
        assert(pieces(s).last() + x =~= pieces(s).last());
        assert(pieces(s).update(pieces(s).len() - 1, pieces(s).last()) =~= pieces(s));
    } else {
        let y = x.drop_last();
        lemma_pieces_extend(s, y);
        assert((s + x).drop_last() =~= s + y);
        assert((s + x).last() == x.last());
        assert(pieces(s).last() + y + seq![x.last()] =~= pieces(s).last() + x);
        assert((pieces(s).last() + y).push(x.last()) =~= pieces(s).last() + x);
        assert(pieces(s + x) =~= pieces(s).update(pieces(s).len() - 1, pieces(s).last() + x));
    }
}

/// Joining lines that hold no newline and splitting the result gives them back.
pub proof fn lemma_pieces_join(ls: Seq<Seq<char>>)
    requires
        ls.len() >= 1,
        all_single(ls),
    ensures
        pieces(join_lines(ls)) == ls,
    decreases ls.len(),
{
    if ls.len() == 1 {
        assert(no_newline(ls[0]));
        lemma_pieces_extend(Seq::<char>::empty(), ls[0]);
        assert(Seq::<char>::empty() + ls[0] =~= ls[0]);
        assert(pieces(Seq::<char>::empty()) =~= seq![Seq::<char>::empty()]);
        assert(Seq::<char>::empty() + ls[0] =~= ls[0]);
        assert(pieces(ls[0]) =~= ls);
    } else {
        let init = ls.drop_last();
        assert forall|k: int| 0 <= k < init.len() implies no_newline(#[trigger] init[k]) by {
            assert(init[k] == ls[k]);
        }
        lemma_pieces_join(init);
        let a = join_lines(init).push('\n');
        assert(a.drop_last() =~= join_lines(init));
        assert(pieces(a) == init.push(Seq::<char>::empty()));
        assert(no_newline(ls[ls.len() - 1]));
        lemma_pieces_extend(a, ls.last());
        assert(Seq::<char>::empty() + ls.last() =~= ls.last());
        assert(init.push(Seq::<char>::empty()).update(init.len() as int, ls.last()) =~= ls);
    }
}

/// Appending text without newlines to the last line appends it to the join.
pub proof fn lemma_join_extend(ls: Seq<Seq<char>>, x: Seq<char>)
    requires
        ls.len() >= 1,
    ensures
        join_lines(ls.update(ls.len() - 1, ls.last() + x)) == join_lines(ls) + x,
{
    let u = ls.update(ls.len() - 1, ls.last() + x);
    if ls.len() == 1 {
        assert(u[0] == ls[0] + x);
    } else {
        assert(u.drop_last() =~= ls.drop_last());
        assert(join_lines(ls.drop_last()).push('\n') + (ls.last() + x) =~= join_lines(
            ls.drop_last(),
        ).push('\n') + ls.last() + x);
    }
}

/// Splitting text into pieces and joining them gives the text back.
pub proof fn lemma_join_pieces(s: Seq<char>)
    ensures
        join_lines(pieces(s)) == s,
    decreases s.len(),
{
    if s.len() > 0 {
        let t = s.drop_last();
        lemma_join_pieces(t);
        lemma_pieces_shape(t);
        let p = pieces(t);
        if s.last() == '\n' {
            let q = p.push(Seq::<char>::empty());
            assert(q.drop_last() =~= p);
            assert(join_lines(q) =~= t.push('\n'));
            assert(t.push('\n') =~= s);
        } else {
            lemma_join_extend(p, seq![s.last()]);
            assert(p.last().push(s.last()) =~= p.last() + seq![s.last()]);
            assert(t + seq![s.last()] =~= s);
        }
    }
}

/// Splitting text into lines and rendering them back gives the text back.
pub proof fn lemma_render_lines(s: Seq<char>)
    ensures
        render(lines_of(s), ends_with_newline(s)) == s,
        all_single(lines_of(s)),
        !ends_with_newline(s) && lines_of(s).len() > 0 ==> lines_of(s).last().len() > 0,
{
    lemma_pieces_shape(s);
    lemma_join_pieces(s);
    let p = pieces(s);
    if s.len() == 0 {
        assert(lines_of(s) =~= Seq::<Seq<char>>::empty());
    } else if s.last() == '\n' {
        lemma_pieces_shape(s.drop_last());
        assert(p.drop_last() =~= pieces(s.drop_last()));
        lemma_join_pieces(s.drop_last());
        assert(s.drop_last().push('\n') =~= s);
    } else {
        assert(p.last().len() > 0);
    }
    let l = lines_of(s);
    assert forall|k: int| 0 <= k < l.len() implies no_newline(#[trigger] l[k]) by {
        assert(l[k] == p[k]);
    }
}

/// Rendering lines and splitting the result gives back the lines, when the
/// last one is not lost to the final newline convention.
pub proof fn lemma_lines_render(ls: Seq<Seq<char>>, newline: bool)
    requires
        all_single(ls),
        ls.len() > 0,
        newline || ls.last().len() > 0,
    ensures
        lines_of(render(ls, newline)) == ls,
{
    lemma_pieces_join(ls);
    if newline {
        let a = join_lines(ls).push('\n');
        assert(a.drop_last() =~= join_lines(ls));
        assert(pieces(a).drop_last() =~= ls);
    }
}

/// Every line of the rendered text is one of the lines, at the same place, or
/// is empty.
pub proof fn lemma_lines_render_any(ls: Seq<Seq<char>>, newline: bool)
    requires
        all_single(ls),
    ensures
        forall|k: int|
            0 <= k < lines_of(render(ls, newline)).len() ==> (k < ls.len() && #[trigger] lines_of(
                render(ls, newline),
            )[k] == ls[k]) || lines_of(render(ls, newline))[k].len() == 0,
{
    let r = lines_of(render(ls, newline));
    if ls.len() == 0 {
        if newline {
            let a = Seq::<char>::empty().push('\n');
            assert(a.drop_last() =~= Seq::<char>::empty());
            assert(a.last() == '\n');
            assert(pieces(a.drop_last()) =~= seq![Seq::<char>::empty()]);
            assert(pieces(a) =~= seq![Seq::<char>::empty(), Seq::<char>::empty()]);
            assert(r =~= seq![Seq::<char>::empty()]);
        } else {
            assert(r.len() == 0);
        }
    } else if newline || ls.last().len() > 0 {
        lemma_lines_render(ls, newline);
    } else {
        lemma_pieces_join(ls);
        assert(r =~= ls.drop_last());
    }
}


/// Relies on `str::chars` collected into a `Vec`: the characters of the text,
/// in order.
#[verifier::external_body]
pub(crate) fn chars_of(s: &str) -> (r: Vec<char>)
    ensures
        r@ == s@,
{
    s.chars().collect()
}

/// Relies on collecting characters into a `String` (`FromIterator<&char>`):
/// the text of the characters, in order.
#[verifier::external_body]
pub(crate) fn string_of(v: &Vec<char>) -> (r: String)
    ensures
        r@ == v@,
{
    v.iter().collect()
}

/// A copy of a line.
pub fn copy_line(l: &Vec<char>) -> (r: Vec<char>)
    ensures
        r@ == l@,
{
    let mut r: Vec<char> = Vec::new();
    let mut i: usize = 0;
    while i < l.len()
        invariant
            i <= l.len(),
            r@ == l@.subrange(0, i as int),
        decreases l.len() - i,
    {
        r.push(l[i]);
        i = i + 1;
    }
    assert(r@ =~= l@);
    r
}

/// Splits text into its lines.
pub fn split_lines(text: &Vec<char>) -> (r: Vec<Vec<char>>)
    ensures
        views(r@) == lines_of(text@),
{
    let mut out: Vec<Vec<char>> = Vec::new();
    let mut cur: Vec<char> = Vec::new();
    let mut i: usize = 0;
    assert(text@.subrange(0, 0) =~= Seq::<char>::empty());
    assert(views(out@).push(cur@) =~= pieces(text@.subrange(0, 0)));
    while i < text.len()
        invariant
            i <= text.len(),
            views(out@).push(cur@) == pieces(text@.subrange(0, i as int)),
        decreases text.len() - i,
    {
        let c = text[i];
        let ghost before = text@.subrange(0, i as int);
        assert(text@.subrange(0, i + 1).drop_last() =~= before);
        if c == '\n' {
            out.push(cur);
            cur = Vec::new();
            assert(views(out@).push(cur@) =~= pieces(before).push(Seq::<char>::empty()));
        } else {
            let ghost old_cur = cur@;
            cur.push(c);
            assert(views(out@).push(cur@) =~= pieces(before).update(
                pieces(before).len() - 1,
                old_cur.push(c),
            ));
        }
        i = i + 1;
    }
    assert(text@.subrange(0, text.len() as int) =~= text@);
    if cur.len() > 0 {
        out.push(cur);
        assert(views(out@) =~= lines_of(text@));
    } else {
        assert(views(out@) =~= lines_of(text@));
    }
    out
}

/// Joins lines with newlines, adding a final newline when `newline` holds.
pub fn render_lines(ls: &Vec<Vec<char>>, newline: bool) -> (r: Vec<char>)
    ensures
        r@ == render(views(ls@), newline),
{
    let mut r: Vec<char> = Vec::new();
    let mut k: usize = 0;
    assert(views(ls@).subrange(0, 0) =~= Seq::<Seq<char>>::empty());
    while k < ls.len()
        invariant
            k <= ls.len(),
            r@ == join_lines(views(ls@).subrange(0, k as int)),
        decreases ls.len() - k,
    {
        let ghost base = r@;
        if k > 0 {
            r.push('\n');
        }
        let line = &ls[k];
        let mut j: usize = 0;
        let ghost start = r@;
        while j < line.len()
            invariant
                j <= line.len(),
                line == ls@[k as int],
                r@ == start + line@.subrange(0, j as int),
            decreases line.len() - j,
        {
            r.push(line[j]);
            j = j + 1;
            assert(r@ =~= start + line@.subrange(0, j as int));
        }
        let ghost next = views(ls@).subrange(0, k + 1);
        assert(next.drop_last() =~= views(ls@).subrange(0, k as int));
        assert(line@.subrange(0, j as int) =~= line@);
        if k == 0 {
            assert(r@ =~= join_lines(next));
        } else {
            assert(r@ =~= join_lines(next));
        }
        k = k + 1;
    }
    assert(views(ls@).subrange(0, ls.len() as int) =~= views(ls@));
    if newline {
        r.push('\n');
    }
    r
}

} // verus!
