//! Placing a new entry line into a document.
//!
//! Entry lines are the lines that start with a marker prefix, the sigil.
//! The new line goes immediately before the first entry line, unless a line
//! equal to it already stands at or before that point; with no entry line
//! present it goes to the end, unless it is already somewhere in the
//! document. The result is the document's lines, with the one addition,
//! joined with a newline after every line.

use vstd::prelude::*;
use vstd::string::StrSliceExecFns;
use crate::lines::{
    spec_lines, spec_join, raw_split, spec_normalize, split_lines, join_lines,
    join_lines_inserting, lemma_raw_split_no_newline, lemma_join_concat, lemma_join_singleton,
    lemma_lines_of_join, lemma_join_last_newline, lemma_join_of_lines,
};

verus! {

/// One sequence begins with the other.
pub open spec fn spec_starts_with(l: Seq<char>, p: Seq<char>) -> bool {
    p.len() <= l.len() && l.subrange(0, p.len() as int) == p
}

/// The index of the first line at or after `i` that starts with the sigil;
/// the number of lines when there is none.
pub open spec fn first_sigil_from(ls: Seq<Seq<char>>, sigil: Seq<char>, i: int) -> int
    decreases ls.len() - i,
{
    if i < 0 || i >= ls.len() {
        ls.len() as int
    } else if spec_starts_with(ls[i], sigil) {
        i
    } else {
        first_sigil_from(ls, sigil, i + 1)
    }
}

/// What the insertion does to a document's lines: add the new line before
/// the first sigil line, or at the end when there is none, and add nothing
/// when an equal line has already been passed by then.
pub open spec fn spec_insert_lines(line: Seq<char>, sigil: Seq<char>, ls: Seq<Seq<char>>) -> Seq<
    Seq<char>,
> {
    let m = first_sigil_from(ls, sigil, 0);
    if m < ls.len() {
        if ls.subrange(0, m + 1).contains(line) {
            ls
        } else {
            ls.subrange(0, m) + seq![line] + ls.subrange(m, ls.len() as int)
        }
    } else {
        if ls.contains(line) {
            ls
        } else {
            ls + seq![line]
        }
    }
}

/// The full operation on a document: split into lines, insert, and join
/// back with a single newline after every line.
pub open spec fn spec_insert_text(line: Seq<char>, sigil: Seq<char>, text: Seq<char>) -> Seq<
    char,
> {
    spec_join(spec_insert_lines(line, sigil, spec_lines(text)))
}

/// Everything `first_sigil_from` promises: the index is the first hit at or
/// after the start, or one past the end when nothing hits.
pub proof fn lemma_first_sigil_props(ls: Seq<Seq<char>>, sigil: Seq<char>, i: int)
    requires
        0 <= i <= ls.len(),
    ensures
        i <= first_sigil_from(ls, sigil, i) <= ls.len(),
        first_sigil_from(ls, sigil, i) < ls.len() ==> spec_starts_with(
            ls[first_sigil_from(ls, sigil, i)],
            sigil,
        ),
        forall|j: int|
            i <= j < first_sigil_from(ls, sigil, i) ==> !spec_starts_with(#[trigger] ls[j], sigil),
    decreases ls.len() - i,
{
    if i < ls.len() && !spec_starts_with(ls[i], sigil) {
        lemma_first_sigil_props(ls, sigil, i + 1);
    }
}

/// The first-hit index is pinned down by being a hit with no hit before it.
pub proof fn lemma_first_sigil_is(ls: Seq<Seq<char>>, sigil: Seq<char>, k: int)
    requires
        0 <= k < ls.len(),
        spec_starts_with(ls[k], sigil),
        forall|j: int| 0 <= j < k ==> !spec_starts_with(#[trigger] ls[j], sigil),
    ensures
        first_sigil_from(ls, sigil, 0) == k,
{
    lemma_first_sigil_props(ls, sigil, 0);
    let m = first_sigil_from(ls, sigil, 0);
    if m < k {
        assert(!spec_starts_with(ls[m], sigil));
    }
    if m > k {
        assert(!spec_starts_with(ls[k], sigil));
    }
}

/// No line starts with the sigil, so the first-hit index is one past the end.
pub proof fn lemma_first_sigil_none(ls: Seq<Seq<char>>, sigil: Seq<char>)
    requires
        forall|j: int| 0 <= j < ls.len() ==> !spec_starts_with(#[trigger] ls[j], sigil),
    ensures
        first_sigil_from(ls, sigil, 0) == ls.len(),
{
    lemma_first_sigil_props(ls, sigil, 0);
    let m = first_sigil_from(ls, sigil, 0);
    if m < ls.len() {
        assert(!spec_starts_with(ls[m], sigil));
    }
}

/// No line of a document contains a newline of its own.
pub proof fn lemma_lines_no_newline(t: Seq<char>)
    ensures
        forall|i: int|
            0 <= i < spec_lines(t).len() ==> !(#[trigger] spec_lines(t)[i]).contains('\n'),
{
    if t.len() == 0 {
    } else if t.last() == '\n' {
        lemma_raw_split_no_newline(t.drop_last());
    } else {
        lemma_raw_split_no_newline(t);
    }
}

/// At the level of lines the insertion is idempotent for every input: a
/// second application finds the line it put there and adds nothing.
pub proof fn lemma_insert_lines_idempotent(line: Seq<char>, sigil: Seq<char>, ls: Seq<Seq<char>>)
    ensures
        spec_insert_lines(line, sigil, spec_insert_lines(line, sigil, ls)) == spec_insert_lines(
            line,
            sigil,
            ls,
        ),
{
    lemma_first_sigil_props(ls, sigil, 0);
    let m = first_sigil_from(ls, sigil, 0);
    let r = spec_insert_lines(line, sigil, ls);
    if m < ls.len() {
        if ls.subrange(0, m + 1).contains(line) {
            // nothing was added, so the second application decides as the first did
        } else {
            assert(r == ls.subrange(0, m) + seq![line] + ls.subrange(m, ls.len() as int));
            assert forall|j: int| 0 <= j < m implies r[j] == ls[j] by {}
            assert(r[m] == line);
            if spec_starts_with(line, sigil) {
                assert forall|j: int| 0 <= j < m implies !spec_starts_with(
                    #[trigger] r[j],
                    sigil,
                ) by {
                    assert(r[j] == ls[j]);
                }
                lemma_first_sigil_is(r, sigil, m);
                assert(r.subrange(0, m + 1).contains(line)) by {
                    assert(r.subrange(0, m + 1)[m] == line);
                }
            } else {
                assert(r[m + 1] == ls[m]);
                assert forall|j: int| 0 <= j < m + 1 implies !spec_starts_with(
                    #[trigger] r[j],
                    sigil,
                ) by {
                    if j < m {
                        assert(r[j] == ls[j]);
                    }
                }
                lemma_first_sigil_is(r, sigil, m + 1);
                assert(r.subrange(0, m + 2).contains(line)) by {
                    assert(r.subrange(0, m + 2)[m] == line);
                }
            }
        }
    } else {
        if ls.contains(line) {
            // nothing was added
        } else {
            assert(r == ls + seq![line]);
            assert forall|j: int| 0 <= j < ls.len() implies r[j] == ls[j] by {}
            assert(r[ls.len() as int] == line);
            if spec_starts_with(line, sigil) {
                assert forall|j: int| 0 <= j < ls.len() implies !spec_starts_with(
                    #[trigger] r[j],
                    sigil,
                ) by {
                    assert(r[j] == ls[j]);
                }
                lemma_first_sigil_is(r, sigil, ls.len() as int);
                assert(r.subrange(0, ls.len() as int + 1).contains(line)) by {
                    assert(r.subrange(0, ls.len() as int + 1)[ls.len() as int] == line);
                }
            } else {
                assert forall|j: int| 0 <= j < r.len() implies !spec_starts_with(
                    #[trigger] r[j],
                    sigil,
                ) by {
                    if j < ls.len() {
                        assert(r[j] == ls[j]);
                    } else {
                        assert(r[j] == line);
                    }
                }
                lemma_first_sigil_none(r, sigil);
                assert(r.contains(line)) by {
                    assert(r[ls.len() as int] == line);
                }
            }
        }
    }
}

/// Idempotence: applying the insertion twice gives what applying it once
/// gives, for every sigil and document and every single-line entry. (An
/// entry holding a newline of its own splits into several lines on the way
/// back in, so only newline-free entries are covered.)
pub proof fn lemma_insert_idempotent(line: Seq<char>, sigil: Seq<char>, text: Seq<char>)
    requires
        !line.contains('\n'),
    ensures
        spec_insert_text(line, sigil, spec_insert_text(line, sigil, text)) == spec_insert_text(
            line,
            sigil,
            text,
        ),
{
    let ls = spec_lines(text);
    let m = first_sigil_from(ls, sigil, 0);
    let r = spec_insert_lines(line, sigil, ls);
    lemma_first_sigil_props(ls, sigil, 0);
    lemma_lines_no_newline(text);
    assert forall|i: int| 0 <= i < r.len() implies !(#[trigger] r[i]).contains('\n') by {
        if m < ls.len() && !ls.subrange(0, m + 1).contains(line) {
            assert(r == ls.subrange(0, m) + seq![line] + ls.subrange(m, ls.len() as int));
            if i < m {
                assert(r[i] == ls[i]);
            } else if i == m {
                assert(r[i] == line);
            } else {
                assert(r[i] == ls[i - 1]);
            }
        } else if m == ls.len() && !ls.contains(line) {
            assert(r == ls + seq![line]);
            if i < ls.len() {
                assert(r[i] == ls[i]);
            } else {
                assert(r[i] == line);
            }
        } else {
            assert(r == ls);
        }
    }
    lemma_lines_of_join(r);
    lemma_insert_lines_idempotent(line, sigil, ls);
}

/// Appending: when no line starts with the sigil and the entry is not yet
/// present, the result is the document, its trailing newline supplied, with
/// the entry and a final newline after it.
pub proof fn lemma_no_sigil_append(line: Seq<char>, sigil: Seq<char>, text: Seq<char>)
    requires
        forall|j: int|
            0 <= j < spec_lines(text).len() ==> !spec_starts_with(
                #[trigger] spec_lines(text)[j],
                sigil,
            ),
        !spec_lines(text).contains(line),
    ensures
        spec_insert_text(line, sigil, text) == spec_normalize(text) + line + seq!['\n'],
{
    let ls = spec_lines(text);
    lemma_first_sigil_none(ls, sigil);
    lemma_join_concat(ls, seq![line]);
    lemma_join_singleton(line);
    lemma_join_of_lines(text);
    assert(spec_normalize(text) + (line + seq!['\n']) =~= spec_normalize(text) + line
        + seq!['\n']);
}

/// Insertion: when the document has a first sigil line and no line at or
/// before it equals the entry, the entry goes exactly there: the lines
/// before it, the entry, then the first sigil line and everything after it.
pub proof fn lemma_insert_before_first_sigil(line: Seq<char>, sigil: Seq<char>, text: Seq<char>)
    requires
        first_sigil_from(spec_lines(text), sigil, 0) < spec_lines(text).len(),
        forall|j: int|
            0 <= j <= first_sigil_from(spec_lines(text), sigil, 0) ==> #[trigger] spec_lines(
                text,
            )[j] != line,
    ensures
        spec_insert_text(line, sigil, text) == spec_join(
            spec_lines(text).subrange(0, first_sigil_from(spec_lines(text), sigil, 0)),
        ) + line + seq!['\n'] + spec_join(
            spec_lines(text).subrange(
                first_sigil_from(spec_lines(text), sigil, 0),
                spec_lines(text).len() as int,
            ),
        ),
{
    let ls = spec_lines(text);
    let m = first_sigil_from(ls, sigil, 0);
    lemma_first_sigil_props(ls, sigil, 0);
    assert(!ls.subrange(0, m + 1).contains(line)) by {
        if ls.subrange(0, m + 1).contains(line) {
            let j = choose|j: int|
                0 <= j < m + 1 && #[trigger] ls.subrange(0, m + 1)[j] == line;
            assert(ls[j] == line);
        }
    }
    let pre = ls.subrange(0, m);
    let suf = ls.subrange(m, ls.len() as int);
    lemma_join_concat(pre + seq![line], suf);
    lemma_join_concat(pre, seq![line]);
    lemma_join_singleton(line);
    assert(spec_join(pre) + (line + seq!['\n']) + spec_join(suf) =~= spec_join(pre) + line
        + seq!['\n'] + spec_join(suf));
}

/// Skipping: when the first sigil line already equals the entry, nothing is
/// added; the result is the document, normalised to end with a newline.
pub proof fn lemma_self_match_skip(line: Seq<char>, sigil: Seq<char>, text: Seq<char>)
    requires
        first_sigil_from(spec_lines(text), sigil, 0) < spec_lines(text).len(),
        spec_lines(text)[first_sigil_from(spec_lines(text), sigil, 0)] == line,
    ensures
        spec_insert_text(line, sigil, text) == spec_normalize(text),
{
    let ls = spec_lines(text);
    let m = first_sigil_from(ls, sigil, 0);
    lemma_first_sigil_props(ls, sigil, 0);
    assert(ls.subrange(0, m + 1).contains(line)) by {
        assert(ls.subrange(0, m + 1)[m] == line);
    }
    lemma_join_of_lines(text);
}

/// The result is never empty and always ends with a newline, whatever the
/// document ended with.
pub proof fn lemma_ends_with_newline(line: Seq<char>, sigil: Seq<char>, text: Seq<char>)
    ensures
        spec_insert_text(line, sigil, text).len() > 0,
        spec_insert_text(line, sigil, text).last() == '\n',
{
    let ls = spec_lines(text);
    let m = first_sigil_from(ls, sigil, 0);
    lemma_first_sigil_props(ls, sigil, 0);
    let r = spec_insert_lines(line, sigil, ls);
    assert(r.len() > 0) by {
        if m < ls.len() {
            if !ls.subrange(0, m + 1).contains(line) {
                assert(r.len() == ls.len() + 1);
            }
        } else {
            if !ls.contains(line) {
                assert(r.len() == ls.len() + 1);
            }
        }
    }
    lemma_join_last_newline(r);
}

/// The newline at the end is the only one there, for a nonempty entry of a
/// single line going into a document whose own last line, if it has one, is
/// not empty. (An empty entry appended, or an empty last line kept, ends the
/// result with an empty line, whose newline stands right after the previous
/// one.)
pub proof fn lemma_single_trailing_newline(line: Seq<char>, sigil: Seq<char>, text: Seq<char>)
    requires
        line.len() > 0,
        !line.contains('\n'),
        spec_lines(text).len() == 0 || spec_lines(text).last().len() > 0,
    ensures
        spec_insert_text(line, sigil, text).len() >= 2,
        spec_insert_text(line, sigil, text).last() == '\n',
        spec_insert_text(line, sigil, text)[spec_insert_text(line, sigil, text).len() - 2]
            != '\n',
{
    let ls = spec_lines(text);
    let m = first_sigil_from(ls, sigil, 0);
    lemma_first_sigil_props(ls, sigil, 0);
    lemma_lines_no_newline(text);
    let r = spec_insert_lines(line, sigil, ls);
    assert(r.len() > 0 && r.last().len() > 0 && !r.last().contains('\n')) by {
        if m < ls.len() {
            if !ls.subrange(0, m + 1).contains(line) {
                assert(r == ls.subrange(0, m) + seq![line] + ls.subrange(m, ls.len() as int));
                assert(r.last() == ls.last());
            }
        } else {
            if ls.contains(line) {
                assert(ls.len() > 0) by {
                    if ls.len() == 0 {
                        let j = choose|j: int| 0 <= j < ls.len() && ls[j] == line;
                    }
                }
            } else {
                assert(r == ls + seq![line]);
                assert(r.last() == line);
            }
        }
    }
    lemma_join_concat(r.drop_last(), seq![r.last()]);
    lemma_join_singleton(r.last());
    assert(r =~= r.drop_last() + seq![r.last()]);
    let out = spec_join(r);
    assert(out == spec_join(r.drop_last()) + (r.last() + seq!['\n']));
    assert(out.len() >= 2);
    assert(out.last() == '\n');
    assert(out[out.len() - 2] == r.last().last());
    assert(!r.last().contains('\n'));
    assert(r.last()[r.last().len() - 1] != '\n');
}

/// A missing trailing newline on the way in makes no difference: the
/// document with one supplied is treated the same.
pub proof fn lemma_trailing_newline_irrelevant(line: Seq<char>, sigil: Seq<char>, text: Seq<char>)
    requires
        text.len() > 0,
        text.last() != '\n',
    ensures
        spec_insert_text(line, sigil, text + seq!['\n']) == spec_insert_text(line, sigil, text),
{
    let u = text + seq!['\n'];
    assert(u.last() == '\n');
    assert(u.drop_last() =~= text);
    assert(spec_lines(u) == raw_split(text));
    assert(spec_lines(text) == raw_split(text));
}

/// Character-for-character equality of two string slices.
fn str_eq(a: &str, b: &str) -> (r: bool)
    ensures
        r == (a@ == b@),
{
    let n = a.unicode_len();
    if n != b.unicode_len() {
        proof {
            assert(a@.len() != b@.len());
        }
        return false;
    }
    let mut i: usize = 0;
    while i < n
        invariant
            n == a@.len() == b@.len(),
            i <= n,
            forall|j: int| 0 <= j < i ==> a@[j] == b@[j],
        decreases n - i,
    {
        if a.get_char(i) != b.get_char(i) {
            return false;
        }
        i += 1;
    }
    proof {
        assert(a@ =~= b@);
    }
    true
}

/// Whether one string slice begins with the other.
fn str_starts_with(l: &str, p: &str) -> (r: bool)
    ensures
        r == spec_starts_with(l@, p@),
{
    let np = p.unicode_len();
    if np > l.unicode_len() {
        return false;
    }
    let mut i: usize = 0;
    while i < np
        invariant
            np == p@.len() <= l@.len(),
            i <= np,
            forall|j: int| 0 <= j < i ==> l@[j] == p@[j],
        decreases np - i,
    {
        if l.get_char(i) != p.get_char(i) {
            proof {
                assert(l@.subrange(0, np as int)[i as int] != p@[i as int]);
            }
            return false;
        }
        i += 1;
    }
    proof {
        assert(l@.subrange(0, np as int) =~= p@);
    }
    true
}

/// The index of the first line starting with the sigil, or the number of
/// lines when none does.
fn first_sigil_index(lines: &Vec<&str>, sigil: &str) -> (m: usize)
    ensures
        m == first_sigil_from(lines.deep_view(), sigil@, 0),
        m <= lines.len(),
{
    let ghost ls = lines.deep_view();
    let mut i: usize = 0;
    while i < lines.len()
        invariant
            ls == lines.deep_view(),
            i <= lines.len(),
            ls.len() == lines.len(),
            first_sigil_from(ls, sigil@, 0) == first_sigil_from(ls, sigil@, i as int),
        decreases lines.len() - i,
    {
        let l = lines[i];
        proof {
            assert(l.deep_view() == ls[i as int]);
        }
        if str_starts_with(l, sigil) {
            return i;
        }
        i += 1;
    }
    i
}

/// Whether one of the first `end` lines equals the given line.
fn contains_line_upto(lines: &Vec<&str>, line: &str, end: usize) -> (r: bool)
    requires
        end <= lines.len(),
    ensures
        r == lines.deep_view().subrange(0, end as int).contains(line@),
{
    let ghost ls = lines.deep_view();
    let mut i: usize = 0;
    while i < end
        invariant
            ls == lines.deep_view(),
            i <= end <= lines.len(),
            ls.len() == lines.len(),
            forall|j: int| 0 <= j < i ==> ls[j] != line@,
        decreases end - i,
    {
        let l = lines[i];
        proof {
            assert(l.deep_view() == ls[i as int]);
        }
        if str_eq(l, line) {
            proof {
                assert(ls.subrange(0, end as int)[i as int] == line@);
            }
            return true;
        }
        i += 1;
    }
    proof {
        if ls.subrange(0, end as int).contains(line@) {
            let j = choose|j: int|
                0 <= j < end && ls.subrange(0, end as int)[j] == line@;
            assert(ls[j] == line@);
        }
    }
    false
}

/// Insert the new line right before the first line starting with the sigil.
/// If there is no such line, insert the line after all other lines.
/// If there is already a matching line, don't insert.
/// The result ends with a newline whether or not the input did.
pub fn insert_line_before_sigil(line: &str, sigil: &str, text: &str) -> (r: String)
    ensures
        r@ == spec_insert_text(line@, sigil@, text@),
{
    let lines = split_lines(text);
    let ghost ls = lines.deep_view();
    let m = first_sigil_index(&lines, sigil);
    if m < lines.len() {
        if contains_line_upto(&lines, line, m + 1) {
            join_lines(&lines)
        } else {
            join_lines_inserting(&lines, m, line)
        }
    } else {
        if contains_line_upto(&lines, line, lines.len()) {
            proof {
                assert(ls.subrange(0, ls.len() as int) =~~= ls);
            }
            join_lines(&lines)
        } else {
            proof {
                assert(ls.subrange(0, ls.len() as int) =~~= ls);
                assert(ls.subrange(0, ls.len() as int) + seq![line@] + ls.subrange(
                    ls.len() as int,
                    ls.len() as int,
                ) =~~= ls + seq![line@]);
            }
            join_lines_inserting(&lines, lines.len(), line)
        }
    }
}

} // verus!