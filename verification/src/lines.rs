//! Splitting a document into lines and joining lines back into a document.
//!
//! A document is a sequence of characters; its lines are the pieces between
//! newline characters. A single trailing newline terminates the last line
//! rather than opening an empty one, so a document with and without a final
//! newline has the same lines. Joining writes every line back followed by a
//! newline, which is how the inserter normalises its output.

use vstd::prelude::*;
use vstd::string::StrSliceExecFns;
use vstd::string::StringExecFns;

verus! {

/// Split at every newline, with no special case for a trailing one: the
/// result always has one more element than the text has newlines.
pub open spec fn raw_split(s: Seq<char>) -> Seq<Seq<char>>
    decreases s.len(),
{
    if s.len() == 0 {
        seq![Seq::<char>::empty()]
    } else if s[0] == '\n' {
        seq![Seq::<char>::empty()] + raw_split(s.drop_first())
    } else {
        let rest = raw_split(s.drop_first());
        seq![seq![s[0]] + rest[0]] + rest.drop_first()
    }
}

/// The lines of a document: split at newlines, where a single trailing
/// newline closes the last line instead of adding an empty one.
pub open spec fn spec_lines(t: Seq<char>) -> Seq<Seq<char>> {
    if t.len() == 0 {
        Seq::<Seq<char>>::empty()
    } else if t.last() == '\n' {
        raw_split(t.drop_last())
    } else {
        raw_split(t)
    }
}

/// Join lines into a document: every line, including the last, is followed
/// by exactly one newline.
pub open spec fn spec_join(ls: Seq<Seq<char>>) -> Seq<char>
    decreases ls.len(),
{
    if ls.len() == 0 {
        Seq::<char>::empty()
    } else {
        ls[0] + seq!['\n'] + spec_join(ls.drop_first())
    }
}

/// A document with its trailing newline supplied when it was missing.
pub open spec fn spec_normalize(t: Seq<char>) -> Seq<char> {
    if t.len() == 0 {
        t
    } else if t.last() == '\n' {
        t
    } else {
        t + seq!['\n']
    }
}

/// Extend the first piece of a split on the left; the splits of a text and
/// of any suffix of it are related this way.
spec fn extend_first(p: Seq<char>, ls: Seq<Seq<char>>) -> Seq<Seq<char>> {
    seq![p + ls[0]] + ls.drop_first()
}

pub proof fn lemma_raw_split_len(s: Seq<char>)
    ensures
        raw_split(s).len() >= 1,
    decreases s.len(),
{
    if s.len() != 0 {
        lemma_raw_split_len(s.drop_first());
    }
}

pub proof fn lemma_raw_split_no_newline(s: Seq<char>)
    ensures
        forall|i: int| 0 <= i < raw_split(s).len() ==> !(#[trigger] raw_split(s)[i]).contains('\n'),
    decreases s.len(),
{
    if s.len() == 0 {
        assert forall|i: int| 0 <= i < raw_split(s).len() implies !(#[trigger] raw_split(s)[i]).contains('\n') by {
            assert(raw_split(s)[i] =~= Seq::<char>::empty());
        }
    } else {
        lemma_raw_split_no_newline(s.drop_first());
        lemma_raw_split_len(s.drop_first());
        let rest = raw_split(s.drop_first());
        if s[0] == '\n' {
            assert forall|i: int| 0 <= i < raw_split(s).len() implies !(#[trigger] raw_split(s)[i]).contains('\n') by {
                if i == 0 {
                    assert(raw_split(s)[0] =~= Seq::<char>::empty());
                } else {
                    assert(raw_split(s)[i] == rest[i - 1]);
                }
            }
        } else {
            assert forall|i: int| 0 <= i < raw_split(s).len() implies !(#[trigger] raw_split(s)[i]).contains('\n') by {
                if i == 0 {
                    let first = seq![s[0]] + rest[0];
                    assert(!rest[0].contains('\n'));
                    assert forall|j: int| 0 <= j < first.len() implies first[j] != '\n' by {
                        if j == 0 {
                        } else {
                            assert(first[j] == rest[0][j - 1]);
                            assert(!rest[0].contains('\n'));
                        }
                    }
                    if first.contains('\n') {
                        let j = choose|j: int| 0 <= j < first.len() && first[j] == '\n';
                        assert(false);
                    }
                } else {
                    assert(raw_split(s)[i] == rest.drop_first()[i - 1]);
                    assert(rest.drop_first()[i - 1] == rest[i]);
                }
            }
        }
    }
}

pub proof fn lemma_join_concat(a: Seq<Seq<char>>, b: Seq<Seq<char>>)
    ensures
        spec_join(a + b) == spec_join(a) + spec_join(b),
    decreases a.len(),
{
    if a.len() == 0 {
        assert(a + b =~= b);
        assert(spec_join(a) + spec_join(b) =~= spec_join(b));
    } else {
        lemma_join_concat(a.drop_first(), b);
        assert((a + b).drop_first() =~= a.drop_first() + b);
        assert(spec_join(a + b) =~= spec_join(a) + spec_join(b));
    }
}

pub proof fn lemma_join_singleton(l: Seq<char>)
    ensures
        spec_join(seq![l]) == l + seq!['\n'],
{
    assert(spec_join(Seq::<Seq<char>>::empty()) == Seq::<char>::empty());
    assert(seq![l].drop_first() =~= Seq::<Seq<char>>::empty());
    assert(spec_join(seq![l]) == seq![l][0] + seq!['\n'] + spec_join(seq![l].drop_first()));
    assert(spec_join(seq![l]) =~= l + seq!['\n']);
}

/// Joining what a raw split produced restores the text, with one newline added.
pub proof fn lemma_join_raw_split(s: Seq<char>)
    ensures
        spec_join(raw_split(s)) == s + seq!['\n'],
    decreases s.len(),
{
    lemma_raw_split_len(s);
    if s.len() == 0 {
        lemma_join_singleton(Seq::<char>::empty());
        assert(raw_split(s) =~= seq![Seq::<char>::empty()]);
        assert(spec_join(raw_split(s)) =~= s + seq!['\n']);
    } else if s[0] == '\n' {
        lemma_join_raw_split(s.drop_first());
        assert(raw_split(s).drop_first() =~= raw_split(s.drop_first()));
        assert(raw_split(s)[0] =~= Seq::<char>::empty());
        assert(spec_join(raw_split(s)) == raw_split(s)[0] + seq!['\n'] + spec_join(
            raw_split(s).drop_first(),
        ));
        assert(spec_join(raw_split(s)) =~= s + seq!['\n']);
    } else {
        lemma_join_raw_split(s.drop_first());
        lemma_raw_split_len(s.drop_first());
        let rest = raw_split(s.drop_first());
        assert(raw_split(s).drop_first() =~= rest.drop_first());
        assert(rest =~= seq![rest[0]] + rest.drop_first());
        lemma_join_concat(seq![rest[0]], rest.drop_first());
        lemma_join_singleton(rest[0]);
        assert(spec_join(rest) == rest[0] + seq!['\n'] + spec_join(rest.drop_first()));
        assert(raw_split(s)[0] == seq![s[0]] + rest[0]);
        assert(spec_join(raw_split(s)) == raw_split(s)[0] + seq!['\n'] + spec_join(
            raw_split(s).drop_first(),
        ));
        assert(spec_join(raw_split(s)) == seq![s[0]] + rest[0] + seq!['\n'] + spec_join(
            rest.drop_first(),
        ));
        assert(seq![s[0]] + rest[0] + seq!['\n'] + spec_join(rest.drop_first()) =~= seq![s[0]]
            + spec_join(rest));
        assert(seq![s[0]] + spec_join(rest) =~= s + seq!['\n']);
    }
}

/// A text that ends in a newline splits into the lines of the text without
/// it, plus one empty final piece.
pub proof fn lemma_raw_split_trailing_newline(s: Seq<char>)
    requires
        s.len() > 0,
        s.last() == '\n',
    ensures
        raw_split(s) == raw_split(s.drop_last()) + seq![Seq::<char>::empty()],
    decreases s.len(),
{
    if s.len() == 1 {
        assert(s[0] == '\n');
        assert(s.drop_first() =~= Seq::<char>::empty());
        assert(s.drop_last() =~= Seq::<char>::empty());
        assert(raw_split(s) =~= raw_split(s.drop_last()) + seq![Seq::<char>::empty()]);
    } else {
        let d = s.drop_first();
        assert(d.len() > 0 && d.last() == s.last());
        lemma_raw_split_trailing_newline(d);
        let r = raw_split(d.drop_last());
        lemma_raw_split_len(d.drop_last());
        assert(d.drop_last() =~= s.drop_last().drop_first());
        assert(s.drop_last().len() > 0);
        assert(s.drop_last()[0] == s[0]);
        if s[0] == '\n' {
            assert(raw_split(s) =~= raw_split(s.drop_last()) + seq![Seq::<char>::empty()]);
        } else {
            assert(raw_split(d)[0] == r[0]);
            assert(raw_split(d).drop_first() =~= r.drop_first() + seq![Seq::<char>::empty()]);
            assert(raw_split(s) =~= raw_split(s.drop_last()) + seq![Seq::<char>::empty()]);
        }
    }
}

/// A text without a newline is a single piece.
pub proof fn lemma_raw_split_single(s: Seq<char>)
    requires
        !s.contains('\n'),
    ensures
        raw_split(s) == seq![s],
    decreases s.len(),
{
    if s.len() == 0 {
        assert(raw_split(s) =~~= seq![s]);
    } else {
        assert(s[0] != '\n');
        assert(!s.drop_first().contains('\n')) by {
            if s.drop_first().contains('\n') {
                let j = choose|j: int| 0 <= j < s.drop_first().len() && s.drop_first()[j] == '\n';
                assert(s[j + 1] == '\n');
            }
        }
        lemma_raw_split_single(s.drop_first());
        assert(raw_split(s) =~~= seq![s]);
    }
}

/// Splitting starts over right after a newline: a newline-free prefix is the
/// first piece, and the rest splits on its own.
pub proof fn lemma_raw_split_prefix(a: Seq<char>, b: Seq<char>)
    requires
        !a.contains('\n'),
    ensures
        raw_split(a + seq!['\n'] + b) == seq![a] + raw_split(b),
    decreases a.len(),
{
    let s = a + seq!['\n'] + b;
    if a.len() == 0 {
        assert(s[0] == '\n');
        assert(s.drop_first() =~= b);
        assert(raw_split(s) =~~= seq![a] + raw_split(b));
    } else {
        assert(s[0] == a[0]);
        assert(a[0] != '\n');
        assert(!a.drop_first().contains('\n')) by {
            if a.drop_first().contains('\n') {
                let j = choose|j: int| 0 <= j < a.drop_first().len() && a.drop_first()[j] == '\n';
                assert(a[j + 1] == '\n');
            }
        }
        lemma_raw_split_prefix(a.drop_first(), b);
        assert(s.drop_first() =~= a.drop_first() + seq!['\n'] + b);
        lemma_raw_split_len(s.drop_first());
        assert(raw_split(s.drop_first())[0] == a.drop_first());
        assert(raw_split(s) =~~= seq![a] + raw_split(b));
    }
}

/// Splitting what a join produced restores the lines, provided no line holds
/// a newline of its own.
pub proof fn lemma_lines_of_join(ls: Seq<Seq<char>>)
    requires
        forall|i: int| 0 <= i < ls.len() ==> !(#[trigger] ls[i]).contains('\n'),
    ensures
        spec_lines(spec_join(ls)) == ls,
    decreases ls.len(),
{
    if ls.len() == 0 {
        assert(spec_join(ls).len() == 0);
        assert(spec_lines(spec_join(ls)) =~~= ls);
    } else {
        let j = spec_join(ls);
        lemma_join_last_newline(ls);
        assert(j.len() > 0 && j.last() == '\n');
        lemma_raw_split_of_join_but_last(ls);
        assert(spec_lines(j) == raw_split(j.drop_last()));
    }
}

/// The join of at least one line is nonempty and ends with a newline.
pub proof fn lemma_join_last_newline(ls: Seq<Seq<char>>)
    requires
        ls.len() > 0,
    ensures
        spec_join(ls).len() > 0,
        spec_join(ls).last() == '\n',
    decreases ls.len(),
{
    if ls.len() == 1 {
        assert(spec_join(ls.drop_first()) =~= Seq::<char>::empty());
        assert(spec_join(ls) =~= ls[0] + seq!['\n']);
    } else {
        lemma_join_last_newline(ls.drop_first());
        assert(spec_join(ls).last() == spec_join(ls.drop_first()).last());
    }
}

/// Splitting a join, with the final newline taken off, gives the lines back.
proof fn lemma_raw_split_of_join_but_last(ls: Seq<Seq<char>>)
    requires
        ls.len() > 0,
        forall|i: int| 0 <= i < ls.len() ==> !(#[trigger] ls[i]).contains('\n'),
    ensures
        raw_split(spec_join(ls).drop_last()) == ls,
    decreases ls.len(),
{
    if ls.len() == 1 {
        assert(spec_join(ls.drop_first()) =~= Seq::<char>::empty());
        assert(spec_join(ls).drop_last() =~= ls[0]);
        lemma_raw_split_single(ls[0]);
    } else {
        lemma_raw_split_of_join_but_last(ls.drop_first());
        lemma_join_last_newline(ls.drop_first());
        let tail_join = spec_join(ls.drop_first());
        assert(spec_join(ls).drop_last() =~= ls[0] + seq!['\n'] + tail_join.drop_last());
        lemma_raw_split_prefix(ls[0], tail_join.drop_last());
        assert(raw_split(spec_join(ls).drop_last()) =~~= ls);
    }
}

/// Joining a document's lines yields the document, normalised to end with a
/// newline.
pub proof fn lemma_join_of_lines(t: Seq<char>)
    ensures
        spec_join(spec_lines(t)) == spec_normalize(t),
{
    if t.len() == 0 {
        assert(spec_join(spec_lines(t)) =~= t);
    } else if t.last() == '\n' {
        lemma_join_raw_split(t.drop_last());
        assert(t.drop_last() + seq!['\n'] =~= t);
    } else {
        lemma_join_raw_split(t);
    }
}

/// Cut a document into its lines. A trailing newline closes the last line;
/// it does not open an empty one.
pub fn split_lines<'a>(text: &'a str) -> (lines: Vec<&'a str>)
    ensures
        lines.deep_view() == spec_lines(text@),
{
    let t = Ghost(text@);
    let n = text.unicode_len();
    let mut lines: Vec<&'a str> = Vec::new();
    let mut start: usize = 0;
    let mut i: usize = 0;
    proof {
        lemma_raw_split_len(t@.skip(0));
        assert(t@.skip(0) =~= t@);
        assert(t@.subrange(0, 0) =~= Seq::<char>::empty());
        assert(extend_first(t@.subrange(0, 0), raw_split(t@)) =~~= raw_split(t@));
        assert(lines.deep_view() =~~= Seq::<Seq<char>>::empty());
    }
    while i < n
        invariant
            n == t@.len(),
            t@ == text@,
            start <= i <= n,
            start == 0 || t@[start - 1] == '\n',
            forall|j: int| start <= j < i ==> t@[j] != '\n',
            raw_split(t@) == lines.deep_view() + extend_first(
                t@.subrange(start as int, i as int),
                raw_split(t@.skip(i as int)),
            ),
        decreases n - i,
    {
        let c = text.get_char(i);
        proof {
            assert(t@.skip(i as int)[0] == t@[i as int]);
            assert(t@.skip(i as int).drop_first() =~= t@.skip(i + 1));
            lemma_raw_split_len(t@.skip(i + 1));
        }
        if c == '\n' {
            let piece = text.substring_char(start, i);
            let ghost old_deep = lines.deep_view();
            lines.push(piece);
            proof {
                assert(piece.deep_view() == t@.subrange(start as int, i as int));
                assert(lines.deep_view() =~~= old_deep.push(piece@));
                let rr = raw_split(t@.skip(i + 1));
                assert(raw_split(t@.skip(i as int)) == seq![Seq::<char>::empty()] + rr);
                assert(extend_first(t@.subrange(start as int, i as int), raw_split(t@.skip(i as int)))
                    =~~= seq![t@.subrange(start as int, i as int)] + rr);
                assert(extend_first(t@.subrange(i + 1, i + 1), rr) =~~= rr);
                assert(raw_split(t@) =~~= lines.deep_view() + extend_first(
                    t@.subrange(i + 1, i + 1),
                    raw_split(t@.skip(i + 1)),
                ));
            }
            start = i + 1;
        } else {
            proof {
                let rr = raw_split(t@.skip(i + 1));
                assert(raw_split(t@.skip(i as int)) == seq![seq![t@[i as int]] + rr[0]]
                    + rr.drop_first());
                assert(extend_first(t@.subrange(start as int, i as int), raw_split(t@.skip(i as int)))
                    =~~= extend_first(t@.subrange(start as int, i + 1), rr));
            }
        }
        i += 1;
    }
    proof {
        assert(t@.skip(n as int) =~= Seq::<char>::empty());
        assert(raw_split(t@.skip(n as int)) == seq![Seq::<char>::empty()]);
        assert(extend_first(t@.subrange(start as int, n as int), raw_split(t@.skip(n as int)))
            =~~= seq![t@.subrange(start as int, n as int)]);
    }
    if start < n {
        let piece = text.substring_char(start, n);
        let ghost old_deep = lines.deep_view();
        lines.push(piece);
        proof {
            assert(t@[n - 1] != '\n');
            assert(t@.last() != '\n');
            assert(piece.deep_view() == t@.subrange(start as int, n as int));
            assert(lines.deep_view() =~~= old_deep.push(piece@));
            assert(lines.deep_view() =~~= spec_lines(t@));
        }
    } else {
        proof {
            if n == 0 {
                assert(raw_split(t@) == seq![Seq::<char>::empty()]);
                assert(lines.deep_view().len() == 0);
                assert(lines.deep_view() =~~= spec_lines(t@));
            } else {
                assert(t@.last() == '\n');
                lemma_raw_split_trailing_newline(t@);
                assert(t@.subrange(n as int, n as int) =~= Seq::<char>::empty());
                assert(raw_split(t@) == lines.deep_view() + seq![Seq::<char>::empty()]);
                assert(raw_split(t@) == raw_split(t@.drop_last()) + seq![Seq::<char>::empty()]);
                assert forall|j: int|
                    0 <= j < lines.deep_view().len() implies lines.deep_view()[j] == raw_split(
                    t@.drop_last(),
                )[j] by {
                    assert(raw_split(t@)[j] == (lines.deep_view() + seq![Seq::<char>::empty()])[j]);
                    assert(raw_split(t@)[j] == (raw_split(t@.drop_last()) + seq![
                        Seq::<char>::empty(),
                    ])[j]);
                }
                assert(lines.deep_view() =~~= raw_split(t@.drop_last()));
            }
        }
    }
    lines
}

/// Write one line and its newline onto the end of the output.
fn push_line(out: &mut String, l: &str)
    ensures
        final(out)@ == old(out)@ + l@ + seq!['\n'],
{
    out.append(l);
    out.append("\n");
    proof {
        reveal_strlit("\n");
        assert("\n"@ =~= seq!['\n']);
    }
}

/// Join lines back into one document, a newline after every line.
pub fn join_lines(lines: &Vec<&str>) -> (r: String)
    ensures
        r@ == spec_join(lines.deep_view()),
{
    let ghost ls = lines.deep_view();
    let mut out = String::new();
    let mut i: usize = 0;
    proof {
        assert(ls.subrange(0, 0) =~~= Seq::<Seq<char>>::empty());
    }
    while i < lines.len()
        invariant
            i <= lines.len(),
            ls == lines.deep_view(),
            out@ == spec_join(ls.subrange(0, i as int)),
        decreases lines.len() - i,
    {
        let l = lines[i];
        proof {
            assert(l.deep_view() == ls[i as int]);
        }
        push_line(&mut out, l);
        proof {
            lemma_join_concat(ls.subrange(0, i as int), seq![ls[i as int]]);
            lemma_join_singleton(ls[i as int]);
            assert(ls.subrange(0, i + 1) =~~= ls.subrange(0, i as int) + seq![ls[i as int]]);
            assert(out@ =~= spec_join(ls.subrange(0, i + 1)));
        }
        i += 1;
    }
    proof {
        assert(ls.subrange(0, lines.len() as int) =~~= ls);
    }
    out
}

/// Join lines back into one document with one extra line inserted at `pos`.
pub fn join_lines_inserting(lines: &Vec<&str>, pos: usize, line: &str) -> (r: String)
    requires
        pos <= lines.len(),
    ensures
        r@ == spec_join(
            lines.deep_view().subrange(0, pos as int) + seq![line@] + lines.deep_view().subrange(
                pos as int,
                lines.len() as int,
            ),
        ),
{
    let ghost ls = lines.deep_view();
    let ghost target = ls.subrange(0, pos as int) + seq![line@] + ls.subrange(
        pos as int,
        ls.len() as int,
    );
    let mut out = String::new();
    let mut i: usize = 0;
    proof {
        assert(ls.subrange(0, 0) =~~= Seq::<Seq<char>>::empty());
    }
    while i < pos
        invariant
            i <= pos <= lines.len(),
            ls == lines.deep_view(),
            out@ == spec_join(ls.subrange(0, i as int)),
        decreases pos - i,
    {
        let l = lines[i];
        proof {
            assert(l.deep_view() == ls[i as int]);
        }
        push_line(&mut out, l);
        proof {
            lemma_join_concat(ls.subrange(0, i as int), seq![ls[i as int]]);
            lemma_join_singleton(ls[i as int]);
            assert(ls.subrange(0, i + 1) =~~= ls.subrange(0, i as int) + seq![ls[i as int]]);
            assert(out@ =~= spec_join(ls.subrange(0, i + 1)));
        }
        i += 1;
    }
    push_line(&mut out, line);
    proof {
        lemma_join_concat(ls.subrange(0, pos as int), seq![line@]);
        lemma_join_singleton(line@);
        assert(out@ =~= spec_join(ls.subrange(0, pos as int) + seq![line@]));
    }
    let ghost head = ls.subrange(0, pos as int) + seq![line@];
    proof {
        assert(head + ls.subrange(pos as int, pos as int) =~~= head);
    }
    while i < lines.len()
        invariant
            pos <= i <= lines.len(),
            ls == lines.deep_view(),
            head == ls.subrange(0, pos as int) + seq![line@],
            out@ == spec_join(head + ls.subrange(pos as int, i as int)),
        decreases lines.len() - i,
    {
        let l = lines[i];
        proof {
            assert(l.deep_view() == ls[i as int]);
        }
        push_line(&mut out, l);
        proof {
            lemma_join_concat(head + ls.subrange(pos as int, i as int), seq![ls[i as int]]);
            lemma_join_singleton(ls[i as int]);
            assert(head + ls.subrange(pos as int, i + 1) =~~= (head + ls.subrange(
                pos as int,
                i as int,
            )) + seq![ls[i as int]]);
            assert(out@ =~= spec_join(head + ls.subrange(pos as int, i + 1)));
        }
        i += 1;
    }
    proof {
        assert(head + ls.subrange(pos as int, lines.len() as int) =~~= target);
    }
    out
}

} // verus!
