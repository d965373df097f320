//! How a text split on a line ending and the pieces joined back on it relate, and what that gives
//! the README block: splicing is stable.
//!
//! Splitting and joining undo each other: pieces that hold no separator are the pieces of their
//! own join. With that, the markers a spliced template carries stand where they stood, its line
//! ending is the one it had, and splicing the same block again writes the same text.

use vstd::prelude::*;

use crate::readme::{
    ending_of, indented, leading_ws, marked, splice_spec, spliced, CLOSE, OPEN,
};
use crate::text::{
    contains_spec, find_from, is_ws, join_spec, lemma_find_from, occurs_at, split_sep, split_sep_from,
    trim_spec,
};

verus! {

/// Joining at least two pieces is the first, a separator, and the join of the rest.
pub proof fn lemma_join_first(parts: Seq<Seq<char>>, sep: Seq<char>)
    requires
        parts.len() >= 2,
    ensures
        join_spec(parts, sep) == parts[0] + sep + join_spec(parts.drop_first(), sep),
    decreases parts.len(),
{
    if parts.len() == 2 {
        assert(parts.drop_last() =~= seq![parts[0]]);
        assert(parts.drop_first() =~= seq![parts[1]]);
        assert(join_spec(parts.drop_first(), sep) == parts[1]);
        assert(join_spec(parts.drop_last(), sep) == parts[0]);
    } else {
        let front = parts.drop_last();
        lemma_join_first(front, sep);
        assert(front.drop_first() =~= parts.drop_first().drop_last());
        assert(parts.drop_first().last() == parts.last());
        assert(front[0] == parts[0]);
    }
}

/// No occurrence after `i` leaves the search at the end.
pub proof fn lemma_find_none(s: Seq<char>, p: Seq<char>, i: int)
    requires
        0 <= i <= s.len(),
        forall|j: int| i <= j < s.len() ==> !occurs_at(s, p, j),
    ensures
        find_from(s, p, i) == s.len(),
    decreases s.len() - i,
{
    if i < s.len() {
        lemma_find_none(s, p, i + 1);
    }
}

/// The search from `i` stops at the first occurrence.
pub proof fn lemma_find_first(s: Seq<char>, p: Seq<char>, i: int, k: int)
    requires
        0 <= i <= k < s.len(),
        occurs_at(s, p, k),
        forall|j: int| i <= j < k ==> !occurs_at(s, p, j),
    ensures
        find_from(s, p, i) == k,
    decreases k - i,
{
    if i < k {
        lemma_find_first(s, p, i + 1, k);
    }
}

/// Searching past a prefix is searching what follows it.
proof fn lemma_find_shift(a: Seq<char>, b: Seq<char>, p: Seq<char>, i: int)
    requires
        0 <= i <= b.len(),
        p.len() > 0,
    ensures
        find_from(a + b, p, a.len() + i) == a.len() + find_from(b, p, i),
    decreases b.len() - i,
{
    let w = a + b;
    if i < b.len() {
        assert(occurs_at(w, p, a.len() + i) == occurs_at(b, p, i)) by {
            if i + p.len() <= b.len() {
                assert(w.subrange(a.len() + i, a.len() + i + p.len()) =~= b.subrange(i, i + p.len()));
            }
        }
        lemma_find_shift(a, b, p, i + 1);
    }
}

/// Splitting past a prefix is splitting what follows it.
pub proof fn lemma_split_shift(a: Seq<char>, b: Seq<char>, p: Seq<char>, i: int)
    requires
        0 <= i <= b.len(),
        p.len() > 0,
    ensures
        split_sep_from(a + b, p, a.len() + i) == split_sep_from(b, p, i),
    decreases b.len() - i,
{
    let w = a + b;
    lemma_find_shift(a, b, p, i);
    lemma_find_from(b, p, i);
    lemma_find_from(w, p, a.len() + i);
    let e = find_from(b, p, i);
    if e >= b.len() {
        assert(w.subrange(a.len() + i, w.len() as int) =~= b.subrange(i, b.len() as int));
    } else {
        assert(w.subrange(a.len() + i, a.len() + e) =~= b.subrange(i, e));
        lemma_split_shift(a, b, p, e + p.len());
    }
}

/// Whether a separator is a line ending: `\n` or `\r\n`.
pub open spec fn is_ending(sep: Seq<char>) -> bool {
    sep == seq!['\n'] || sep == seq!['\r', '\n']
}

/// Pieces that hold no line ending are the pieces of their own join.
pub proof fn lemma_split_join(parts: Seq<Seq<char>>, sep: Seq<char>)
    requires
        is_ending(sep),
        parts.len() >= 1,
        forall|k: int| 0 <= k < parts.len() ==> !contains_spec(#[trigger] parts[k], sep),
    ensures
        split_sep(join_spec(parts, sep), sep) == parts,
    decreases parts.len(),
{
    let p0 = parts[0];
    if parts.len() == 1 {
        assert(join_spec(parts, sep) == p0);
        assert forall|j: int| 0 <= j < p0.len() implies !occurs_at(p0, sep, j) by {
            assert(!contains_spec(parts[0], sep));
        }
        lemma_find_none(p0, sep, 0);
        assert(p0.subrange(0, p0.len() as int) =~= p0);
        assert(parts =~= seq![p0]);
    } else {
        let rest = parts.drop_first();
        lemma_join_first(parts, sep);
        let r = join_spec(rest, sep);
        let w = p0 + sep + r;
        assert forall|k: int| 0 <= k < rest.len() implies !contains_spec(#[trigger] rest[k], sep) by {
            assert(rest[k] == parts[k + 1]);
        }
        lemma_split_join(rest, sep);
        assert(occurs_at(w, sep, p0.len() as int)) by {
            assert(w.subrange(p0.len() as int, (p0.len() + sep.len()) as int) =~= sep);
        }
        assert forall|j: int| 0 <= j < p0.len() implies !occurs_at(w, sep, j) by {
            if j + sep.len() <= p0.len() {
                if occurs_at(w, sep, j) {
                    assert(w.subrange(j, j + sep.len()) =~= p0.subrange(j, j + sep.len()));
                    assert(occurs_at(p0, sep, j));
                    assert(!contains_spec(parts[0], sep));
                }
            } else {
                assert(sep.len() == 2 && j == p0.len() - 1);
                if occurs_at(w, sep, j) {
                    assert(w.subrange(j, j + 2)[1] == w[j + 1]);
                    assert(w[j + 1] == sep[0]);
                }
            }
        }
        lemma_find_first(w, sep, 0, p0.len() as int);
        assert(w.subrange(0, p0.len() as int) =~= p0);
        assert(w =~= (p0 + sep) + r);
        lemma_split_shift(p0 + sep, r, sep, 0);
        assert(split_sep_from(w, sep, (p0.len() + sep.len()) as int) == split_sep_from(r, sep, 0));
        assert(parts =~= seq![p0] + rest);
    }
}

/// No piece of a split holds the separator.
pub proof fn lemma_split_pieces(s: Seq<char>, p: Seq<char>, i: int)
    requires
        p.len() > 0,
        0 <= i <= s.len(),
    ensures
        forall|k: int|
            0 <= k < split_sep_from(s, p, i).len() ==> !contains_spec(
                #[trigger] split_sep_from(s, p, i)[k],
                p,
            ),
    decreases s.len() - i,
{
    lemma_find_from(s, p, i);
    let e = find_from(s, p, i);
    let piece = s.subrange(i, e);
    assert forall|j: int| !occurs_at(piece, p, j) by {
        if occurs_at(piece, p, j) {
            assert(s.subrange(i + j, i + j + p.len()) =~= piece.subrange(j, j + p.len()));
            assert(occurs_at(s, p, i + j));
        }
    }
    if e >= s.len() {
        assert(split_sep_from(s, p, i) =~= seq![piece]);
    } else {
        lemma_split_pieces(s, p, e + p.len());
        let rest = split_sep_from(s, p, e + p.len());
        assert(split_sep_from(s, p, i) =~= seq![piece] + rest);
        assert forall|k: int| 0 <= k < split_sep_from(s, p, i).len() implies !contains_spec(
            #[trigger] split_sep_from(s, p, i)[k],
            p,
        ) by {
            if k > 0 {
                assert(split_sep_from(s, p, i)[k] == rest[k - 1]);
            }
        }
    }
}

/// Split on `\n`, a text with no `\r\n` has no piece but the last that ends in `\r`.
pub proof fn lemma_split_cr(s: Seq<char>, i: int)
    requires
        0 <= i <= s.len(),
        !contains_spec(s, seq!['\r', '\n']),
    ensures
        forall|k: int|
            0 <= k < split_sep_from(s, seq!['\n'], i).len() - 1 ==> (#[trigger] split_sep_from(
                s,
                seq!['\n'],
                i,
            )[k]).len() == 0 || split_sep_from(s, seq!['\n'], i)[k].last() != '\r',
    decreases s.len() - i,
{
    let p = seq!['\n'];
    lemma_find_from(s, p, i);
    let e = find_from(s, p, i);
    if e < s.len() {
        let piece = s.subrange(i, e);
        let rest = split_sep_from(s, p, e + 1);
        lemma_split_cr(s, e + 1);
        assert(split_sep_from(s, p, i) =~= seq![piece] + rest);
        if piece.len() > 0 && piece.last() == '\r' {
            assert(s.subrange(e - 1, e + 1) =~= seq!['\r', '\n']) by {
                assert(s.subrange(e, e + 1)[0] == '\n');
            }
            assert(occurs_at(s, seq!['\r', '\n'], e - 1));
        }
        assert forall|k: int| 0 <= k < split_sep_from(s, p, i).len() - 1 implies (
        #[trigger] split_sep_from(s, p, i)[k]).len() == 0 || split_sep_from(s, p, i)[k].last()
            != '\r' by {
            if k > 0 {
                assert(split_sep_from(s, p, i)[k] == rest[k - 1]);
            }
        }
    }
}

/// Pieces with no `\n`, of which none but the last ends in `\r`, join on `\n` into a text with
/// no `\r\n`; the join ends in `\r` only where the last piece does.
pub proof fn lemma_join_no_crlf(parts: Seq<Seq<char>>)
    requires
        forall|k: int, j: int|
            0 <= k < parts.len() && 0 <= j < parts[k].len() ==> #[trigger] parts[k][j] != '\n',
        forall|k: int|
            0 <= k < parts.len() - 1 ==> (#[trigger] parts[k]).len() == 0 || parts[k].last()
                != '\r',
    ensures
        !contains_spec(join_spec(parts, seq!['\n']), seq!['\r', '\n']),
        ({
            let t = join_spec(parts, seq!['\n']);
            t.len() > 0 && t.last() == '\r' ==> parts.last().len() > 0 && parts.last().last()
                == '\r'
        }),
    decreases parts.len(),
{
    let sep = seq!['\n'];
    let crlf = seq!['\r', '\n'];
    let t = join_spec(parts, sep);
    if parts.len() == 1 {
        assert forall|j: int| !occurs_at(t, crlf, j) by {
            if occurs_at(t, crlf, j) {
                assert(t.subrange(j, j + 2)[1] == t[j + 1]);
                assert(parts[0][j + 1] != '\n');
            }
        }
    } else if parts.len() >= 2 {
        let front = parts.drop_last();
        let x = parts.last();
        lemma_join_no_crlf(front);
        let f = join_spec(front, sep);
        assert(t == f + sep + x);
        assert(front.last() == parts[parts.len() - 2]);
        assert forall|j: int| !occurs_at(t, crlf, j) by {
            if occurs_at(t, crlf, j) {
                assert(t.subrange(j, j + 2)[0] == t[j]);
                assert(t.subrange(j, j + 2)[1] == t[j + 1]);
                if j + 2 <= f.len() {
                    assert(t.subrange(j, j + 2) =~= f.subrange(j, j + 2));
                    assert(occurs_at(f, crlf, j));
                } else if j + 1 == f.len() {
                    assert(t[j] == f.last());
                } else if j == f.len() {
                    assert(t[j] == '\n');
                } else {
                    assert(t[j + 1] == x[j + 1 - f.len() - 1]);
                }
            }
        }
    }
}

/// At least two pieces joined hold the separator.
pub proof fn lemma_join_holds_sep(parts: Seq<Seq<char>>, sep: Seq<char>)
    requires
        parts.len() >= 2,
    ensures
        contains_spec(join_spec(parts, sep), sep),
{
    lemma_join_first(parts, sep);
    let t = join_spec(parts, sep);
    let n = parts[0].len() as int;
    assert(t.subrange(n, n + sep.len()) =~= sep);
    assert(occurs_at(t, sep, n));
}

/// What the marked indices are: each is below `n` and names a line that trims to the marker, and
/// every such line below `n` is among them.
pub proof fn lemma_marked_members(lines: Seq<Seq<char>>, marker: Seq<char>, n: int)
    requires
        0 <= n <= lines.len(),
    ensures
        forall|k: int|
            0 <= k < n && trim_spec(#[trigger] lines[k]) == marker ==> marked(
                lines,
                marker,
                n,
            ).contains(k),
        forall|j: int|
            0 <= j < marked(lines, marker, n).len() ==> 0 <= #[trigger] marked(lines, marker, n)[j]
                < n && trim_spec(lines[marked(lines, marker, n)[j]]) == marker,
    decreases n,
{
    if n > 0 {
        lemma_marked_members(lines, marker, n - 1);
        let prev = marked(lines, marker, n - 1);
        if trim_spec(lines[n - 1]) == marker {
            let now = prev.push(n - 1);
            assert(now[now.len() - 1] == n - 1);
            assert forall|k: int|
                0 <= k < n && trim_spec(#[trigger] lines[k]) == marker implies now.contains(k) by {
                if k < n - 1 {
                    let at = choose|at: int| 0 <= at < prev.len() && prev[at] == k;
                    assert(now[at] == k);
                } else {
                    assert(now[now.len() - 1] == k);
                }
            }
            assert forall|j: int| 0 <= j < now.len() implies 0 <= #[trigger] now[j] < n
                && trim_spec(lines[now[j]]) == marker by {
                if j < prev.len() {
                    assert(now[j] == prev[j]);
                }
            }
        }
    }
}

/// No line below `n` trims to the marker: none is marked.
proof fn lemma_marked_none(lines: Seq<Seq<char>>, marker: Seq<char>, n: int)
    requires
        0 <= n <= lines.len(),
        forall|k: int| 0 <= k < n ==> trim_spec(#[trigger] lines[k]) != marker,
    ensures
        marked(lines, marker, n) == Seq::<int>::empty(),
    decreases n,
{
    if n > 0 {
        lemma_marked_none(lines, marker, n - 1);
    }
}

/// Exactly one line below `n` trims to the marker: it is the one marked.
pub proof fn lemma_marked_unique(lines: Seq<Seq<char>>, marker: Seq<char>, n: int, i: int)
    requires
        0 <= i < n <= lines.len(),
        trim_spec(lines[i]) == marker,
        forall|k: int| 0 <= k < n && k != i ==> trim_spec(#[trigger] lines[k]) != marker,
    ensures
        marked(lines, marker, n) == seq![i],
    decreases n,
{
    if n - 1 == i {
        lemma_marked_none(lines, marker, n - 1);
        assert(marked(lines, marker, n) =~= seq![i]);
    } else {
        lemma_marked_unique(lines, marker, n - 1, i);
    }
}

/// Whitespace put in front of a line does not change what it trims to.
pub proof fn lemma_trim_ws_prefix(w: Seq<char>, line: Seq<char>)
    requires
        forall|j: int| 0 <= j < w.len() ==> is_ws(#[trigger] w[j]),
    ensures
        trim_spec(w + line) == trim_spec(line),
    decreases w.len(),
{
    if w.len() == 0 {
        assert(w + line =~= line);
    } else {
        lemma_trim_ws_prefix(w.drop_first(), line);
        assert((w + line)[0] == w[0]);
        assert((w + line).drop_first() =~= w.drop_first() + line);
    }
}

/// A line with no line break, indented by the opening of a piece that holds no line ending,
/// holds none either, nor any `\n` where the piece has none.
proof fn lemma_indented_clean(host: Seq<char>, n: int, line: Seq<char>, sep: Seq<char>)
    requires
        is_ending(sep),
        0 <= n <= host.len(),
        !contains_spec(host, sep),
        forall|j: int| 0 <= j < line.len() ==> #[trigger] line[j] != '\n' && line[j] != '\r',
    ensures
        !contains_spec(indented(line, host.take(n)), sep),
        forall|j: int|
            0 <= j < indented(line, host.take(n)).len() && (forall|i: int|
                0 <= i < host.len() ==> host[i] != '\n') ==> #[trigger] indented(
                line,
                host.take(n),
            )[j] != '\n',
        indented(line, host.take(n)).len() == 0 || (indented(line, host.take(n)).last() != '\r'),
{
    let ind = host.take(n);
    let t = indented(line, ind);
    if line.len() > 0 {
        assert(t == ind + line);
        assert forall|j: int| !occurs_at(t, sep, j) by {
            if occurs_at(t, sep, j) {
                let m = sep.len() as int;
                if j + m <= n {
                    assert(host.subrange(j, j + m) =~= t.subrange(j, j + m));
                    assert(occurs_at(host, sep, j));
                } else {
                    assert(t.subrange(j, j + m)[m - 1] == t[j + m - 1]);
                    assert(t[j + m - 1] == line[j + m - 1 - n]);
                }
            }
        }
        assert(t.last() == line[line.len() - 1]);
        assert forall|j: int|
            0 <= j < t.len() && (forall|i: int| 0 <= i < host.len() ==> host[i] != '\n') implies
            #[trigger] t[j] != '\n' by {
            if j < n {
                assert(t[j] == host[j]);
            } else {
                assert(t[j] == line[j - n]);
            }
        }
    }
}

/// Regenerating a README block that is already up to date changes nothing: splicing a block of
/// plain lines (no line break in any, none a marker once trimmed) into the text that splicing it
/// produced gives that same text back. This is what lets the check that regenerates and compares
/// pass once the block has been written.
pub proof fn splicing_again_changes_nothing(
    text: Seq<char>,
    block: Seq<Seq<char>>,
    where_: Seq<char>,
)
    requires
        splice_spec(text, block, where_) is Ok,
        forall|k: int, j: int|
            0 <= k < block.len() && 0 <= j < block[k].len() ==> #[trigger] block[k][j] != '\n'
                && block[k][j] != '\r',
        forall|k: int|
            0 <= k < block.len() ==> trim_spec(#[trigger] block[k]) != OPEN@ && trim_spec(
                block[k],
            ) != CLOSE@,
    ensures
        splice_spec(splice_spec(text, block, where_)->Ok_0, block, where_) == splice_spec(
            text,
            block,
            where_,
        ),
{
    reveal_strlit("\r\n");
    reveal_strlit("\n");
    reveal_strlit("<!-- @config-credentials -->");
    reveal_strlit("<!-- @config-credentials end -->");
    assert(OPEN@.len() != CLOSE@.len());
    assert("\r\n"@ =~= seq!['\r', '\n']);
    assert("\n"@ =~= seq!['\n']);
    let written = splice_spec(text, block, where_)->Ok_0;
    let e = ending_of(text);
    assert(is_ending(e));
    let lines = split_sep(text, e);
    lemma_split_pieces(text, e, 0);
    let opens = marked(lines, OPEN@, lines.len() as int);
    let closes = marked(lines, CLOSE@, lines.len() as int);
    lemma_marked_members(lines, OPEN@, lines.len() as int);
    lemma_marked_members(lines, CLOSE@, lines.len() as int);
    let o = opens[0];
    let c = closes[0];
    assert(trim_spec(lines[o]) == OPEN@);
    assert(trim_spec(lines[c]) == CLOSE@);
    assert forall|k: int|
        0 <= k < lines.len() && trim_spec(#[trigger] lines[k]) == OPEN@ implies k == o by {
        let at = choose|at: int| 0 <= at < opens.len() && opens[at] == k;
    }
    assert forall|k: int|
        0 <= k < lines.len() && trim_spec(#[trigger] lines[k]) == CLOSE@ implies k == c by {
        let at = choose|at: int| 0 <= at < closes.len() && closes[at] == k;
    }
    assert(o < c);
    let host = lines[o];
    let n = crate::text::skip_ws(host, 0);
    crate::text::lemma_skip_ws(host, 0);
    let indent = host.take(n);
    assert(indent == leading_ws(host));
    let body = block.map_values(|line: Seq<char>| indented(line, indent));
    let parts = spliced(lines, o, c, block);
    assert(parts == lines.take(o + 1) + body + lines.skip(c));
    assert(written == join_spec(parts, e));
    let b = block.len() as int;
    let size = parts.len() as int;
    assert(size == o + 1 + b + lines.len() - c);
    assert forall|k: int| 0 <= k <= o implies #[trigger] parts[k] == lines[k] by {}
    assert forall|k: int| o < k <= o + b implies #[trigger] parts[k] == indented(
        block[k - o - 1],
        indent,
    ) by {}
    assert forall|k: int| o + b < k < size implies #[trigger] parts[k] == lines[c + k - o - 1
        - b] by {}
    // The pieces hold no line ending, so splitting the written text gives them back.
    assert forall|k: int| 0 <= k < size implies !contains_spec(#[trigger] parts[k], e) by {
        if o < k <= o + b {
            lemma_indented_clean(host, n, block[k - o - 1], e);
        } else if k > o + b {
            assert(parts[k] == lines[c + k - o - 1 - b]);
        }
    }
    lemma_split_join(parts, e);
    // The written text keeps the line ending.
    if e == seq!['\r', '\n'] {
        lemma_join_holds_sep(parts, e);
        assert(ending_of(written) == e);
    } else {
        assert(!contains_spec(text, seq!['\r', '\n']));
        lemma_split_cr(text, 0);
        assert forall|k: int, j: int|
            0 <= k < lines.len() && 0 <= j < lines[k].len() implies #[trigger] lines[k][j]
            != '\n' by {
            if lines[k][j] == '\n' {
                assert(lines[k].subrange(j, j + 1) =~= e);
                assert(occurs_at(lines[k], e, j));
            }
        }
        assert forall|k: int, j: int|
            0 <= k < size && 0 <= j < parts[k].len() implies #[trigger] parts[k][j] != '\n' by {
            if o < k <= o + b {
                lemma_indented_clean(host, n, block[k - o - 1], e);
                assert(forall|i: int| 0 <= i < host.len() ==> host[i] == lines[o][i]);
            } else if k > o + b {
                assert(parts[k] == lines[c + k - o - 1 - b]);
            }
        }
        assert forall|k: int| 0 <= k < size - 1 implies (#[trigger] parts[k]).len() == 0
            || parts[k].last() != '\r' by {
            if o < k <= o + b {
                lemma_indented_clean(host, n, block[k - o - 1], e);
            } else if k > o + b {
                assert(parts[k] == lines[c + k - o - 1 - b]);
            }
        }
        lemma_join_no_crlf(parts);
        assert(ending_of(written) == e);
    }
    // The markers stand where they stood, one of each.
    assert forall|k: int| 0 <= k < size && k != o implies trim_spec(#[trigger] parts[k])
        != OPEN@ by {
        if o < k <= o + b {
            let line = block[k - o - 1];
            if line.len() > 0 {
                lemma_trim_ws_prefix(indent, line);
            }
        } else if k > o + b {
            assert(parts[k] == lines[c + k - o - 1 - b]);
        }
    }
    let shut = o + b + 1;
    assert(parts[shut] == lines[c]);
    assert forall|k: int| 0 <= k < size && k != shut implies trim_spec(#[trigger] parts[k])
        != CLOSE@ by {
        if o < k <= o + b {
            let line = block[k - o - 1];
            if line.len() > 0 {
                lemma_trim_ws_prefix(indent, line);
            }
        } else if k > o + b {
            assert(parts[k] == lines[c + k - o - 1 - b]);
        }
    }
    lemma_marked_unique(parts, OPEN@, size, o);
    lemma_marked_unique(parts, CLOSE@, size, shut);
    // Splicing again puts back the very pieces.
    assert(parts[o] == host);
    assert(parts.take(o + 1) =~= lines.take(o + 1));
    assert(parts.skip(shut) =~= lines.skip(c));
    assert(spliced(parts, o, shut, block) =~= parts);
}

} // verus!
