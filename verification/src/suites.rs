//! The generated test suites: what a sync writes and removes, and how a suite on disk is compared
//! with the one the declaration generates.
//!
//! A tree may be checked out with either line-ending convention, so suites are compared with their
//! endings normalised, and written back in the convention the committed copy already uses.

use vstd::prelude::*;

use crate::text::{
    chars_of, join, join_spec, lines, lines_spec, push_all, push_str, split_char, split_sep,
    split_spec, split_str, string_of, views,
};

verus! {

/// Every enrolled chart's suites, and every generated suite that no longer has a document.
#[derive(Debug, Default)]
pub struct Generated {
    /// The suites, by the path each is written to, in path order.
    pub suites: Vec<(String, String)>,
    /// Generated suites whose document is gone.
    pub stale: Vec<String>,
    /// Charts skipped for carrying no enrolment.
    pub unenrolled: Vec<String>,
}

/// What a sync or a check did or would do.
#[derive(Debug, Default)]
pub struct Outcome {
    /// Suites written, or that would be.
    pub written: Vec<String>,
    /// Suites removed, or that would be.
    pub removed: Vec<String>,
    /// The differences, for a check that reports rather than writes.
    pub drift: Vec<String>,
}

/// A text with every `\r\n` written as `\n`.
pub open spec fn normalised_spec(text: Seq<char>) -> Seq<char> {
    join_spec(split_sep(text, "\r\n"@), "\n"@)
}

/// One suite's text with its line endings normalised.
pub fn normalised(text: &str) -> (s: String)
    ensures
        s@ == normalised_spec(text@),
{
    proof {
        reveal_strlit("\r\n");
    }
    let held = chars_of(text);
    let crlf = chars_of("\r\n");
    let pieces = split_str(&held, &crlf);
    let lf = chars_of("\n");
    let joined = join(&pieces, &lf);
    string_of(&joined)
}

/// One suite as it is written back: in the convention the committed copy already uses, or
/// `native_crlf`'s for a file that does not exist yet.
pub open spec fn as_written_spec(text: Seq<char>, current: Option<Seq<char>>, native_crlf: bool) -> Seq<char> {
    let crlf = match current {
        Some(held) => crate::text::contains_spec(held, "\r\n"@),
        None => native_crlf,
    };
    let plain = normalised_spec(text);
    if crlf {
        join_spec(split_spec(plain, '\n'), "\r\n"@)
    } else {
        plain
    }
}

/// One suite as it is written back, keeping whatever convention the committed copy already used.
///
/// Preserved rather than imposed: a regeneration then touches only what a rule actually changed.
/// A file that does not exist yet has no convention to keep, and takes the platform's, which the
/// caller passes as `native_crlf`.
pub fn as_written(text: &str, current: Option<&str>, native_crlf: bool) -> (s: String)
    ensures
        s@ == as_written_spec(text@, match current { Some(held) => Some(held@), None => None }, native_crlf),
{
    let crlf = match current {
        Some(held) => crate::text::contains_str(&chars_of(held), "\r\n"),
        None => native_crlf,
    };
    let plain = chars_of(normalised(text).as_str());
    if crlf {
        let pieces = split_char(&plain, '\n');
        let ending = chars_of("\r\n");
        string_of(&join(&pieces, &ending))
    } else {
        string_of(&plain)
    }
}

/// The lines of `these` that `others` does not hold, each indented, marked and ended.
pub open spec fn moved(these: Seq<Seq<char>>, others: Seq<Seq<char>>, mark: char) -> Seq<char>
    decreases these.len(),
{
    if these.len() == 0 {
        seq![]
    } else {
        moved(these.drop_last(), others, mark) + if others.contains(these.last()) {
            seq![]
        } else {
            seq![' ', ' ', mark] + these.last() + seq!['\n']
        }
    }
}

/// The listing of moved lines is taken line by line: the listing of two runs of lines one after
/// the other is the listing of the first followed by that of the second, and one line is listed
/// — indented, marked and ended — exactly when the other side does not hold it. So every line
/// absent from the other side is listed, not only the first.
pub proof fn every_moved_line_is_listed(these: Seq<Seq<char>>, more: Seq<Seq<char>>, others: Seq<Seq<char>>, mark: char)
    ensures
        moved(these + more, others, mark) == moved(these, others, mark) + moved(more, others, mark),
        forall|line: Seq<char>| #[trigger] moved(seq![line], others, mark) == if others.contains(line) {
            Seq::<char>::empty()
        } else {
            seq![' ', ' ', mark] + line + seq!['\n']
        },
    decreases more.len(),
{
    assert forall|line: Seq<char>| #[trigger] moved(seq![line], others, mark) == if others.contains(line) {
        Seq::<char>::empty()
    } else {
        seq![' ', ' ', mark] + line + seq!['\n']
    } by {
        assert(seq![line].drop_last() =~= Seq::<Seq<char>>::empty());
        assert(moved(Seq::<Seq<char>>::empty(), others, mark) =~= Seq::<char>::empty());
    }
    if more.len() == 0 {
        assert(these + more =~= these);
        assert(moved(more, others, mark) =~= Seq::<char>::empty());
    } else {
        every_moved_line_is_listed(these, more.drop_last(), others, mark);
        assert((these + more).drop_last() =~= these + more.drop_last());
        assert((these + more).last() == more.last());
    }
}

/// The lines that moved between a suite on disk and the one generated, endings normalised.
pub open spec fn moved_lines_spec(before: Seq<char>, after: Seq<char>) -> Seq<char> {
    let b = lines_spec(normalised_spec(before));
    let a = lines_spec(normalised_spec(after));
    moved(b, a, '-') + moved(a, b, '+')
}

/// Whether a list of lines holds one.
fn holds(all: &Vec<Vec<char>>, line: &Vec<char>) -> (b: bool)
    ensures
        b == views(all@).contains(line@),
{
    let mut i: usize = 0;
    while i < all.len()
        invariant
            i <= all@.len(),
            forall|k: int| 0 <= k < i ==> views(all@)[k] != line@,
        decreases all.len() - i,
    {
        if crate::text::same(&all[i], line) {
            assert(views(all@)[i as int] == line@);
            return true;
        }
        i = i + 1;
    }
    false
}

/// Append the lines of `these` that `others` does not hold.
fn push_moved(out: &mut Vec<char>, these: &Vec<Vec<char>>, others: &Vec<Vec<char>>, mark: char)
    ensures
        final(out)@ == old(out)@ + moved(views(these@), views(others@), mark),
{
    let ghost ts = views(these@);
    let mut i: usize = 0;
    while i < these.len()
        invariant
            i <= these@.len(),
            ts == views(these@),
            out@ == old(out)@ + moved(ts.take(i as int), views(others@), mark),
        decreases these.len() - i,
    {
        assert(ts.take(i + 1).drop_last() =~= ts.take(i as int));
        assert(ts.take(i + 1).last() == these@[i as int]@);
        if !holds(others, &these[i]) {
            out.push(' ');
            out.push(' ');
            out.push(mark);
            push_all(out, &these[i]);
            out.push('\n');
        }
        assert(out@ =~= old(out)@ + moved(ts.take(i + 1), views(others@), mark));
        i = i + 1;
    }
    assert(ts.take(these@.len() as int) =~= ts);
}

/// The lines that moved, as a failing check prints them: those only the suite
/// on disk holds, then those only the generated one does.
pub fn moved_lines(before: &str, after: &str) -> (s: String)
    ensures
        s@ == moved_lines_spec(before@, after@),
{
    let b = lines(&chars_of(normalised(before).as_str()));
    let a = lines(&chars_of(normalised(after).as_str()));
    let mut out: Vec<char> = Vec::new();
    push_moved(&mut out, &b, &a, '-');
    push_moved(&mut out, &a, &b, '+');
    string_of(&out)
}

} // verus!
