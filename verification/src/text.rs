//! Character-level text handling shared by every reader here.
//!
//! Text is held as `Vec<char>` while it is being taken apart, and each operation is stated over
//! the `Seq<char>` it views as, in the terms `str` documents for the method of the same name.

use vstd::prelude::*;

verus! {

/// The views of a list of character vectors.
pub open spec fn views(v: Seq<Vec<char>>) -> Seq<Seq<char>> {
    v.map_values(|x: Vec<char>| x@)
}

/// The views of a list of strings.
pub open spec fn strs(v: Seq<String>) -> Seq<Seq<char>> {
    v.map_values(|x: String| x@)
}

/// Whether a character carries the Unicode `White_Space` property, which is what
/// `char::is_whitespace` answers.
pub open spec fn is_ws(c: char) -> bool {
    let n = c as u32;
    (0x09 <= n && n <= 0x0D) || n == 0x20 || n == 0x85 || n == 0xA0 || n == 0x1680 || (0x2000
        <= n && n <= 0x200A) || n == 0x2028 || n == 0x2029 || n == 0x202F || n == 0x205F || n
        == 0x3000
}

/// Whether a character is Unicode whitespace.
pub fn is_whitespace(c: char) -> (b: bool)
    ensures
        b == is_ws(c),
{
    let n = c as u32;
    (0x09 <= n && n <= 0x0D) || n == 0x20 || n == 0x85 || n == 0xA0 || n == 0x1680 || (0x2000
        <= n && n <= 0x200A) || n == 0x2028 || n == 0x2029 || n == 0x202F || n == 0x205F || n
        == 0x3000
}

/// An ASCII letter.
pub open spec fn is_alpha(c: char) -> bool {
    ('a' <= c && c <= 'z') || ('A' <= c && c <= 'Z')
}

/// An ASCII digit.
pub open spec fn is_digit(c: char) -> bool {
    '0' <= c && c <= '9'
}

/// An ASCII letter or digit.
pub open spec fn is_alnum(c: char) -> bool {
    is_alpha(c) || is_digit(c)
}

/// Whether a character is an ASCII letter.
pub fn is_ascii_alphabetic(c: char) -> (b: bool)
    ensures
        b == is_alpha(c),
{
    ('a' <= c && c <= 'z') || ('A' <= c && c <= 'Z')
}

/// Whether a character is an ASCII letter or digit.
pub fn is_ascii_alphanumeric(c: char) -> (b: bool)
    ensures
        b == is_alnum(c),
{
    ('a' <= c && c <= 'z') || ('A' <= c && c <= 'Z') || ('0' <= c && c <= '9')
}

/// The ASCII lowercase of one character; every other character is itself.
pub open spec fn lower(c: char) -> char {
    if 'A' <= c && c <= 'Z' {
        ((c as u8) + 32) as char
    } else {
        c
    }
}

/// The text with its leading whitespace removed.
pub open spec fn trim_start_spec(s: Seq<char>) -> Seq<char>
    decreases s.len(),
{
    if s.len() > 0 && is_ws(s[0]) {
        trim_start_spec(s.drop_first())
    } else {
        s
    }
}

/// The text with its trailing whitespace removed.
pub open spec fn trim_end_spec(s: Seq<char>) -> Seq<char>
    decreases s.len(),
{
    if s.len() > 0 && is_ws(s.last()) {
        trim_end_spec(s.drop_last())
    } else {
        s
    }
}

/// The text with whitespace removed at both ends.
pub open spec fn trim_spec(s: Seq<char>) -> Seq<char> {
    trim_end_spec(trim_start_spec(s))
}

/// The first index at or after `i` that is not whitespace, or the length.
pub open spec fn skip_ws(s: Seq<char>, i: int) -> int
    decreases s.len() - i,
{
    if i >= s.len() {
        s.len() as int
    } else if is_ws(s[i]) {
        skip_ws(s, i + 1)
    } else {
        i
    }
}

/// The end of the text once the whitespace before `j` is dropped.
pub open spec fn skip_ws_back(s: Seq<char>, j: int) -> int
    decreases j,
{
    if j <= 0 {
        0
    } else if is_ws(s[j - 1]) {
        skip_ws_back(s, j - 1)
    } else {
        j
    }
}

proof fn lemma_trim_start_skip(s: Seq<char>, i: int)
    requires
        0 <= i <= s.len(),
    ensures
        trim_start_spec(s.subrange(i, s.len() as int)) == s.subrange(skip_ws(s, i), s.len() as int),
        i <= skip_ws(s, i) <= s.len(),
    decreases s.len() - i,
{
    if i < s.len() && is_ws(s[i]) {
        assert(s.subrange(i, s.len() as int).drop_first() == s.subrange(i + 1, s.len() as int));
        lemma_trim_start_skip(s, i + 1);
    }
}

proof fn lemma_trim_end_skip(s: Seq<char>, j: int)
    requires
        0 <= j <= s.len(),
    ensures
        trim_end_spec(s.subrange(0, j)) == s.subrange(0, skip_ws_back(s, j)),
        0 <= skip_ws_back(s, j) <= j,
    decreases j,
{
    if j > 0 && is_ws(s[j - 1]) {
        assert(s.subrange(0, j).drop_last() == s.subrange(0, j - 1));
        lemma_trim_end_skip(s, j - 1);
    }
}

/// The characters of `s` from `a` to `b`.
pub fn slice_of(s: &[char], a: usize, b: usize) -> (v: Vec<char>)
    requires
        a <= b <= s@.len(),
    ensures
        v@ == s@.subrange(a as int, b as int),
{
    let mut v: Vec<char> = Vec::new();
    let mut i = a;
    while i < b
        invariant
            a <= i <= b <= s@.len(),
            v@ == s@.subrange(a as int, i as int),
        decreases b - i,
    {
        v.push(s[i]);
        i = i + 1;
    }
    v
}

/// Append every character of `s`.
pub fn push_all(out: &mut Vec<char>, s: &[char])
    ensures
        final(out)@ == old(out)@ + s@,
{
    let mut i: usize = 0;
    while i < s.len()
        invariant
            i <= s@.len(),
            out@ == old(out)@ + s@.subrange(0, i as int),
        decreases s.len() - i,
    {
        out.push(s[i]);
        i = i + 1;
        assert(s@.subrange(0, i as int) == s@.subrange(0, i - 1) .push(s@[i - 1]));
    }
    assert(s@.subrange(0, s@.len() as int) == s@);
}

/// Append every character of a literal.
pub fn push_str(out: &mut Vec<char>, s: &str)
    ensures
        final(out)@ == old(out)@ + s@,
{
    let v = chars_of(s);
    push_all(out, &v);
}

/// Where the text begins once its leading whitespace is skipped.
pub fn trim_start_at(s: &[char]) -> (i: usize)
    ensures
        i <= s@.len(),
        s@.subrange(i as int, s@.len() as int) == trim_start_spec(s@),
        i as int == skip_ws(s@, 0),
{
    let mut i: usize = 0;
    while i < s.len() && is_whitespace(s[i])
        invariant
            i <= s@.len(),
            skip_ws(s@, 0) == skip_ws(s@, i as int),
        decreases s.len() - i,
    {
        i = i + 1;
    }
    proof {
        lemma_trim_start_skip(s@, 0);
        assert(s@.subrange(0, s@.len() as int) == s@);
    }
    i
}

/// Where the text ends once its trailing whitespace is dropped.
pub fn trim_end_at(s: &[char]) -> (j: usize)
    ensures
        j <= s@.len(),
        s@.subrange(0, j as int) == trim_end_spec(s@),
        j as int == skip_ws_back(s@, s@.len() as int),
{
    let mut j: usize = s.len();
    while j > 0 && is_whitespace(s[j - 1])
        invariant
            j <= s@.len(),
            skip_ws_back(s@, s@.len() as int) == skip_ws_back(s@, j as int),
        decreases j,
    {
        j = j - 1;
    }
    proof {
        lemma_trim_end_skip(s@, s@.len() as int);
        assert(s@.subrange(0, s@.len() as int) == s@);
    }
    j
}

/// `str::trim_start`.
pub fn trim_start(s: &[char]) -> (v: Vec<char>)
    ensures
        v@ == trim_start_spec(s@),
{
    let i = trim_start_at(s);
    slice_of(s, i, s.len())
}

/// `str::trim_end`.
pub fn trim_end(s: &[char]) -> (v: Vec<char>)
    ensures
        v@ == trim_end_spec(s@),
{
    let j = trim_end_at(s);
    slice_of(s, 0, j)
}

/// `str::trim`.
pub fn trim(s: &[char]) -> (v: Vec<char>)
    ensures
        v@ == trim_spec(s@),
{
    let t = trim_start(s);
    trim_end(&t)
}

/// Whether two texts are the same.
pub fn same(a: &[char], b: &[char]) -> (r: bool)
    ensures
        r == (a@ == b@),
{
    if a.len() != b.len() {
        return false;
    }
    let mut i: usize = 0;
    while i < a.len()
        invariant
            a@.len() == b@.len(),
            i <= a@.len(),
            forall|k: int| 0 <= k < i ==> a@[k] == b@[k],
        decreases a.len() - i,
    {
        if a[i] != b[i] {
            return false;
        }
        i = i + 1;
    }
    assert(a@ =~= b@);
    true
}

/// Whether a text equals a literal.
pub fn is_lit(a: &[char], lit: &str) -> (r: bool)
    ensures
        r == (a@ == lit@),
{
    let b = chars_of(lit);
    same(a, &b)
}

/// Whether `p` opens `s`.
pub open spec fn starts_with_spec(s: Seq<char>, p: Seq<char>) -> bool {
    p.len() <= s.len() && s.subrange(0, p.len() as int) == p
}

/// `str::starts_with` for a text prefix.
pub fn starts_with(s: &[char], p: &[char]) -> (r: bool)
    ensures
        r == starts_with_spec(s@, p@),
{
    if p.len() > s.len() {
        return false;
    }
    let mut i: usize = 0;
    while i < p.len()
        invariant
            p@.len() <= s@.len(),
            i <= p@.len(),
            forall|k: int| 0 <= k < i ==> s@[k] == p@[k],
        decreases p.len() - i,
    {
        if s[i] != p[i] {
            assert(s@.subrange(0, p@.len() as int)[i as int] != p@[i as int]);
            return false;
        }
        i = i + 1;
    }
    assert(s@.subrange(0, p@.len() as int) =~= p@);
    true
}

/// Whether a literal opens `s`.
pub fn starts_with_str(s: &[char], p: &str) -> (r: bool)
    ensures
        r == starts_with_spec(s@, p@),
{
    let q = chars_of(p);
    starts_with(s, &q)
}

/// The first index at or after `i` holding `c`, or the length.
pub open spec fn next_char(s: Seq<char>, c: char, i: int) -> int
    decreases s.len() - i,
{
    if i >= s.len() {
        s.len() as int
    } else if s[i] == c {
        i
    } else {
        next_char(s, c, i + 1)
    }
}

pub proof fn lemma_next_char(s: Seq<char>, c: char, i: int)
    requires
        0 <= i,
    ensures
        i <= next_char(s, c, i) || (i > s.len() && next_char(s, c, i) == s.len()),
        next_char(s, c, i) <= s.len() || i > s.len(),
        next_char(s, c, i) < s.len() ==> s[next_char(s, c, i)] == c,
        forall|k: int| i <= k < next_char(s, c, i) ==> s[k] != c,
    decreases s.len() - i,
{
    if i < s.len() && s[i] != c {
        lemma_next_char(s, c, i + 1);
    }
}

/// The first index at or after `i` holding `c`, or the length.
pub fn find_char(s: &[char], c: char, i: usize) -> (e: usize)
    requires
        i <= s@.len(),
    ensures
        e as int == next_char(s@, c, i as int),
        i <= e <= s@.len(),
{
    let mut e = i;
    while e < s.len() && s[e] != c
        invariant
            i <= e <= s@.len(),
            next_char(s@, c, i as int) == next_char(s@, c, e as int),
        decreases s.len() - e,
    {
        e = e + 1;
    }
    e
}

/// Whether `c` occurs anywhere in `s`.
pub fn contains_char(s: &[char], c: char) -> (r: bool)
    ensures
        r == s@.contains(c),
{
    let e = find_char(s, c, 0);
    proof {
        lemma_next_char(s@, c, 0);
    }
    e < s.len()
}

/// A line without the carriage return a `\r\n` ending leaves behind.
pub open spec fn strip_cr(l: Seq<char>) -> Seq<char> {
    if l.len() > 0 && l.last() == '\r' {
        l.drop_last()
    } else {
        l
    }
}

/// `str::lines` from index `i`: split on `\n`, a `\r` before the `\n` dropped, and no empty line
/// after a final `\n`.
pub open spec fn lines_from(s: Seq<char>, i: int) -> Seq<Seq<char>>
    decreases s.len() - i,
{
    if i < 0 || i >= s.len() {
        seq![]
    } else {
        let e = next_char(s, '\n', i);
        if e >= s.len() {
            seq![s.subrange(i, s.len() as int)]
        } else {
            proof {
                lemma_next_char(s, '\n', i);
            }
            seq![strip_cr(s.subrange(i, e))] + lines_from(s, e + 1)
        }
    }
}

/// `str::lines`.
pub open spec fn lines_spec(s: Seq<char>) -> Seq<Seq<char>> {
    lines_from(s, 0)
}

/// `str::lines`.
pub fn lines(s: &[char]) -> (out: Vec<Vec<char>>)
    ensures
        views(out@) == lines_spec(s@),
{
    let mut out: Vec<Vec<char>> = Vec::new();
    let mut i: usize = 0;
    while i < s.len()
        invariant
            i <= s@.len(),
            views(out@) + lines_from(s@, i as int) == lines_spec(s@),
        decreases s.len() - i,
    {
        let e = find_char(s, '\n', i);
        let ghost before = views(out@);
        if e == s.len() {
            let piece = slice_of(s, i, e);
            out.push(piece);
            assert(views(out@) == before.push(piece@));
            assert(lines_from(s@, e as int) == Seq::<Seq<char>>::empty());
            i = e;
        } else {
            let mut piece = slice_of(s, i, e);
            if piece.len() > 0 && piece[piece.len() - 1] == '\r' {
                piece.pop();
            }
            assert(piece@ == strip_cr(s@.subrange(i as int, e as int)));
            out.push(piece);
            assert(views(out@) == before.push(piece@));
            i = e + 1;
        }
    }
    assert(views(out@) + lines_from(s@, i as int) == views(out@));
    out
}

/// `str::split_whitespace` from index `i`: the runs of non-whitespace.
pub open spec fn words_from(s: Seq<char>, i: int) -> Seq<Seq<char>>
    decreases s.len() - i,
{
    let a = skip_ws(s, i);
    if i < 0 || a >= s.len() {
        seq![]
    } else {
        let b = next_ws(s, a);
        proof {
            lemma_skip_ws(s, i);
            lemma_next_ws(s, a);
        }
        seq![s.subrange(a, b)] + words_from(s, b)
    }
}

/// `str::split_whitespace`.
pub open spec fn words(s: Seq<char>) -> Seq<Seq<char>> {
    words_from(s, 0)
}

/// The first whitespace index at or after `i`, or the length.
pub open spec fn next_ws(s: Seq<char>, i: int) -> int
    decreases s.len() - i,
{
    if i >= s.len() {
        s.len() as int
    } else if is_ws(s[i]) {
        i
    } else {
        next_ws(s, i + 1)
    }
}

pub proof fn lemma_skip_ws(s: Seq<char>, i: int)
    requires
        0 <= i,
    ensures
        i <= s.len() ==> i <= skip_ws(s, i) <= s.len(),
        skip_ws(s, i) < s.len() ==> !is_ws(s[skip_ws(s, i)]),
        forall|k: int| i <= k < skip_ws(s, i) ==> is_ws(s[k]),
    decreases s.len() - i,
{
    if i < s.len() && is_ws(s[i]) {
        lemma_skip_ws(s, i + 1);
    }
}

pub proof fn lemma_next_ws(s: Seq<char>, i: int)
    requires
        0 <= i,
    ensures
        i <= s.len() ==> i <= next_ws(s, i) <= s.len(),
        next_ws(s, i) < s.len() ==> is_ws(s[next_ws(s, i)]),
        forall|k: int| i <= k < next_ws(s, i) ==> !is_ws(s[k]),
    decreases s.len() - i,
{
    if i < s.len() && !is_ws(s[i]) {
        lemma_next_ws(s, i + 1);
    }
}

/// `str::split_whitespace`.
pub fn split_whitespace(s: &[char]) -> (out: Vec<Vec<char>>)
    ensures
        views(out@) == words(s@),
{
    let mut out: Vec<Vec<char>> = Vec::new();
    let mut i: usize = 0;
    while i < s.len()
        invariant
            i <= s@.len(),
            views(out@) + words_from(s@, i as int) == words(s@),
        decreases s.len() - i,
    {
        let mut a = i;
        while a < s.len() && is_whitespace(s[a])
            invariant
                i <= a <= s@.len(),
                skip_ws(s@, i as int) == skip_ws(s@, a as int),
            decreases s.len() - a,
        {
            a = a + 1;
        }
        if a == s.len() {
            assert(words_from(s@, i as int) == Seq::<Seq<char>>::empty());
            assert(words_from(s@, a as int) == Seq::<Seq<char>>::empty());
            i = a;
        } else {
            let mut b = a;
            while b < s.len() && !is_whitespace(s[b])
                invariant
                    a <= b <= s@.len(),
                    next_ws(s@, a as int) == next_ws(s@, b as int),
                decreases s.len() - b,
            {
                b = b + 1;
            }
            let ghost before = views(out@);
            let piece = slice_of(s, a, b);
            out.push(piece);
            assert(views(out@) == before.push(piece@));
            i = b;
        }
    }
    assert(views(out@) + words_from(s@, i as int) == views(out@));
    out
}

/// `str::split` on one character from index `i`: every piece, empty ones included.
pub open spec fn split_from(s: Seq<char>, c: char, i: int) -> Seq<Seq<char>>
    decreases s.len() - i,
{
    let e = next_char(s, c, i);
    if i < 0 || i > s.len() || e >= s.len() {
        seq![s.subrange(i, s.len() as int)]
    } else {
        proof {
            lemma_next_char(s, c, i);
        }
        seq![s.subrange(i, e)] + split_from(s, c, e + 1)
    }
}

/// `str::split` on one character.
pub open spec fn split_spec(s: Seq<char>, c: char) -> Seq<Seq<char>> {
    split_from(s, c, 0)
}

/// `str::split` on one character.
pub fn split_char(s: &[char], c: char) -> (out: Vec<Vec<char>>)
    ensures
        views(out@) == split_spec(s@, c),
        out@.len() >= 1,
{
    let mut out: Vec<Vec<char>> = Vec::new();
    let mut i: usize = 0;
    loop
        invariant
            i <= s@.len(),
            views(out@) + split_from(s@, c, i as int) == split_spec(s@, c),
        decreases s.len() - i,
    {
        let e = find_char(s, c, i);
        let ghost before = views(out@);
        let piece = slice_of(s, i, e);
        out.push(piece);
        assert(views(out@) == before.push(piece@));
        if e == s.len() {
            assert(views(out@) =~= split_spec(s@, c));
            return out;
        }
        i = e + 1;
    }
}

/// The pieces joined with a separator between each two.
pub open spec fn join_spec(parts: Seq<Seq<char>>, sep: Seq<char>) -> Seq<char>
    decreases parts.len(),
{
    if parts.len() == 0 {
        seq![]
    } else if parts.len() == 1 {
        parts[0]
    } else {
        join_spec(parts.drop_last(), sep) + sep + parts.last()
    }
}

/// The pieces joined with a separator between each two.
pub fn join(parts: &Vec<Vec<char>>, sep: &[char]) -> (out: Vec<char>)
    ensures
        out@ == join_spec(views(parts@), sep@),
{
    let mut out: Vec<char> = Vec::new();
    let mut i: usize = 0;
    while i < parts.len()
        invariant
            i <= parts@.len(),
            out@ == join_spec(views(parts@).take(i as int), sep@),
        decreases parts.len() - i,
    {
        let ghost prev = views(parts@).take(i as int);
        if i > 0 {
            push_all(&mut out, sep);
        }
        push_all(&mut out, &parts[i]);
        proof {
            let next = views(parts@).take(i + 1);
            assert(next.drop_last() =~= prev);
            if i == 0 {
                assert(next =~= seq![parts@[0]@]);
            }
        }
        i = i + 1;
    }
    assert(views(parts@).take(parts@.len() as int) =~= views(parts@));
    out
}

/// Texts joined with a separator between each two.
pub fn join_strings(parts: &Vec<String>, sep: &str) -> (out: Vec<char>)
    ensures
        out@ == join_spec(strs(parts@), sep@),
{
    let mut out: Vec<char> = Vec::new();
    let mut i: usize = 0;
    while i < parts.len()
        invariant
            i <= parts@.len(),
            out@ == join_spec(strs(parts@).take(i as int), sep@),
        decreases parts.len() - i,
    {
        let ghost prev = strs(parts@).take(i as int);
        if i > 0 {
            push_str(&mut out, sep);
        }
        push_str(&mut out, parts[i].as_str());
        proof {
            let next = strs(parts@).take(i + 1);
            assert(next.drop_last() =~= prev);
            if i == 0 {
                assert(next =~= seq![parts@[0]@]);
            }
        }
        i = i + 1;
    }
    assert(strs(parts@).take(parts@.len() as int) =~= strs(parts@));
    out
}

/// A copy of some bytes.
pub fn bytes_of(s: &[u8]) -> (v: Vec<u8>)
    ensures
        v@ == s@,
{
    let mut v: Vec<u8> = Vec::new();
    let mut k: usize = 0;
    while k < s.len()
        invariant
            k <= s@.len(),
            v@ == s@.take(k as int),
        decreases s.len() - k,
    {
        v.push(s[k]);
        assert(s@.take(k + 1) =~= s@.take(k as int).push(s@[k as int]));
        k = k + 1;
    }
    assert(s@.take(s@.len() as int) =~= s@);
    v
}

/// The index of the first character at or after `i` that is not `c`, or the length.
pub open spec fn skip_from(s: Seq<char>, c: char, i: int) -> int
    decreases s.len() - i,
{
    if i < 0 || i >= s.len() {
        s.len() as int
    } else if s[i] == c {
        skip_from(s, c, i + 1)
    } else {
        i
    }
}

/// The index of the first character that is not `c`, or the length: where `c` stops leading.
pub open spec fn skip_leading(s: Seq<char>, c: char) -> int {
    skip_from(s, c, 0)
}

/// Where `c` stops leading `s`.
pub fn skip_leading_at(s: &[char], c: char) -> (i: usize)
    ensures
        i as int == skip_leading(s@, c),
        i <= s@.len(),
{
    let mut i: usize = 0;
    while i < s.len() && s[i] == c
        invariant
            i <= s@.len(),
            skip_from(s@, c, 0) == skip_from(s@, c, i as int),
        decreases s.len() - i,
    {
        i = i + 1;
    }
    i
}

/// The decimal digit for `d`.
pub open spec fn digit(d: nat) -> char {
    if d == 0 { '0' } else if d == 1 { '1' } else if d == 2 { '2' } else if d == 3 { '3' }
    else if d == 4 { '4' } else if d == 5 { '5' } else if d == 6 { '6' } else if d == 7 { '7' }
    else if d == 8 { '8' } else { '9' }
}

/// A number as its decimal spelling, with no leading zeros.
pub open spec fn decimal(n: nat) -> Seq<char>
    decreases n,
{
    if n < 10 {
        seq![digit(n)]
    } else {
        decimal(n / 10).push(digit(n % 10))
    }
}

fn digit_char(d: u64) -> (c: char)
    requires
        d < 10,
    ensures
        c == digit(d as nat),
{
    match d {
        0 => '0',
        1 => '1',
        2 => '2',
        3 => '3',
        4 => '4',
        5 => '5',
        6 => '6',
        7 => '7',
        8 => '8',
        _ => '9',
    }
}

/// A number as its decimal spelling.
pub fn decimal_of(n: u64) -> (v: Vec<char>)
    ensures
        v@ == decimal(n as nat),
    decreases n,
{
    if n < 10 {
        let mut v: Vec<char> = Vec::new();
        v.push(digit_char(n));
        assert(v@ =~= seq![digit(n as nat)]);
        v
    } else {
        let mut v = decimal_of(n / 10);
        v.push(digit_char(n % 10));
        v
    }
}

/// The characters of a text, in order.
pub fn chars_of(s: &str) -> (v: Vec<char>)
    ensures
        v@ == s@,
{
    let mut v: Vec<char> = Vec::new();
    for c in it: s.chars()
        invariant
            v@ == it.seq().take(it.index() as int),
    {
        v.push(c);
    }
    v
}

/// The characters of a string, in order.
pub fn chars(s: &String) -> (v: Vec<char>)
    ensures
        v@ == s@,
{
    chars_of(s.as_str())
}

/// `String::from_iter` over characters.
#[verifier::external_body]
pub fn string_of(v: &[char]) -> (s: String)
    ensures
        s@ == v@,
{
    String::from_iter(v)
}

} // verus!

verus! {

/// The value of a run of decimal digits.
pub open spec fn digits_value(s: Seq<char>) -> nat
    decreases s.len(),
{
    if s.len() == 0 {
        0
    } else {
        digits_value(s.drop_last()) * 10 + ((s.last() as u32) - ('0' as u32)) as nat
    }
}

/// Whether every character is a decimal digit.
pub open spec fn all_digits(d: Seq<char>) -> bool {
    forall|i: int| 0 <= i < d.len() ==> is_digit(#[trigger] d[i])
}

/// A number's text without the `+` it may open with.
pub open spec fn unsigned_part(s: Seq<char>) -> Seq<char> {
    if s.len() > 0 && s[0] == '+' {
        s.drop_first()
    } else {
        s
    }
}

/// What `str::parse::<u64>` accepts: an optional `+`, then one or more digits whose value fits.
pub open spec fn parse_u64_spec(s: Seq<char>) -> Option<u64> {
    let d = unsigned_part(s);
    if d.len() > 0 && all_digits(d) && digits_value(d) <= u64::MAX {
        Some(digits_value(d) as u64)
    } else {
        None
    }
}

proof fn lemma_digits_monotone(d: Seq<char>, i: int)
    requires
        0 <= i <= d.len(),
        forall|k: int| 0 <= k < d.len() ==> is_digit(#[trigger] d[k]),
    ensures
        digits_value(d.take(i)) <= digits_value(d),
    decreases d.len() - i,
{
    if i < d.len() {
        lemma_digits_monotone(d, i + 1);
        assert(d.take(i + 1).drop_last() == d.take(i));
    } else {
        assert(d.take(i) == d);
    }
}

/// `str::parse::<u64>`.
pub fn parse_u64(s: &[char]) -> (r: Option<u64>)
    ensures
        r == parse_u64_spec(s@),
{
    let start: usize = if s.len() > 0 && s[0] == '+' {
        1
    } else {
        0
    };
    let ghost d = if s@.len() > 0 && s@[0] == '+' {
        s@.drop_first()
    } else {
        s@
    };
    assert(d == s@.skip(start as int));
    if start >= s.len() {
        return None;
    }
    let mut value: u64 = 0;
    let mut i = start;
    while i < s.len()
        invariant
            start <= i <= s@.len(),
            d == s@.skip(start as int),
            d == unsigned_part(s@),
            forall|k: int| 0 <= k < i - start ==> is_digit(#[trigger] d[k]),
            value as nat == digits_value(d.take(i - start)),
        decreases s.len() - i,
    {
        let c = s[i];
        assert(d[i - start] == s@[i as int]);
        if !('0' <= c && c <= '9') {
            assert(!is_digit(d[i - start]));
            assert(!(forall|k: int| 0 <= k < d.len() ==> is_digit(#[trigger] d[k])));
            return None;
        }
        let digit = (c as u32 - '0' as u32) as u64;
        assert(d.take(i - start + 1).drop_last() == d.take(i - start));
        proof {
            let j = i - start;
            assert(digits_value(d.take(j + 1)) == digits_value(d.take(j)) * 10 + digit);
            if forall|k: int| 0 <= k < d.len() ==> is_digit(#[trigger] d[k]) {
                lemma_digits_monotone(d, j + 1);
                if value > 1844674407370955161 || (value == 1844674407370955161 && digit > 5) {
                    assert(digits_value(d.take(j + 1)) > u64::MAX);
                }
            }
        }
        if value > 1844674407370955161 || (value == 1844674407370955161 && digit > 5) {
            return None;
        }
        value = value * 10 + digit;
        i = i + 1;
    }
    assert(d.take(i - start) == d);
    Some(value)
}

} // verus!

verus! {

/// Whether `a` sorts before `b` as Rust orders two vectors: element by element, a proper prefix
/// first.
pub open spec fn lex_lt(a: Seq<u64>, b: Seq<u64>) -> bool
    decreases a.len(),
{
    if a.len() == 0 {
        b.len() > 0
    } else if b.len() == 0 {
        false
    } else if a[0] < b[0] {
        true
    } else if a[0] > b[0] {
        false
    } else {
        lex_lt(a.drop_first(), b.drop_first())
    }
}

/// `a < b` on two vectors of numbers.
pub fn less_than(a: &[u64], b: &[u64]) -> (r: bool)
    ensures
        r == lex_lt(a@, b@),
{
    let mut i: usize = 0;
    assert(a@.skip(0) == a@);
    assert(b@.skip(0) == b@);
    while i < a.len() && i < b.len()
        invariant
            i <= a@.len(),
            i <= b@.len(),
            lex_lt(a@, b@) == lex_lt(a@.skip(i as int), b@.skip(i as int)),
        decreases a.len() - i,
    {
        assert(a@.skip(i as int)[0] == a@[i as int]);
        assert(b@.skip(i as int)[0] == b@[i as int]);
        if a[i] < b[i] {
            return true;
        }
        if a[i] > b[i] {
            return false;
        }
        assert(a@.skip(i as int).drop_first() == a@.skip(i + 1));
        assert(b@.skip(i as int).drop_first() == b@.skip(i + 1));
        i = i + 1;
    }
    assert(a@.skip(i as int).len() == a@.len() - i);
    assert(b@.skip(i as int).len() == b@.len() - i);
    i == a.len() && i < b.len()
}

/// Whether `p` occurs in `s` at index `i`.
pub open spec fn occurs_at(s: Seq<char>, p: Seq<char>, i: int) -> bool {
    0 <= i && i + p.len() <= s.len() && s.subrange(i, i + p.len()) == p
}

/// Whether `p` occurs anywhere in `s`.
pub open spec fn contains_spec(s: Seq<char>, p: Seq<char>) -> bool {
    exists|i: int| occurs_at(s, p, i)
}

/// `str::contains` for a text pattern.
pub fn contains(s: &[char], p: &[char]) -> (r: bool)
    ensures
        r == contains_spec(s@, p@),
{
    if p.len() > s.len() {
        assert forall|i: int| !occurs_at(s@, p@, i) by {}
        return false;
    }
    if p.len() == 0 {
        assert(s@.subrange(0, 0) =~= p@);
        assert(occurs_at(s@, p@, 0));
        return true;
    }
    let mut i: usize = 0;
    let last = s.len() - p.len();
    while i <= last
        invariant
            1 <= p@.len() <= s@.len() <= usize::MAX,
            last == s@.len() - p@.len(),
            i <= last + 1,
            forall|k: int| 0 <= k < i ==> !occurs_at(s@, p@, k),
        decreases last + 1 - i,
    {
        let mut j: usize = 0;
        let mut matched = true;
        while j < p.len()
            invariant
                i <= last,
                1 <= p@.len() <= s@.len() <= usize::MAX,
                last == s@.len() - p@.len(),
                j <= p@.len(),
                matched == (forall|k: int| 0 <= k < j ==> s@[i + k] == p@[k]),
            decreases p.len() - j,
        {
            if s[i + j] != p[j] {
                matched = false;
            }
            j = j + 1;
        }
        if matched {
            assert(s@.subrange(i as int, i + p@.len()) =~= p@);
            assert(occurs_at(s@, p@, i as int));
            return true;
        }
        assert(!occurs_at(s@, p@, i as int)) by {
            if occurs_at(s@, p@, i as int) {
                assert forall|k: int| 0 <= k < p@.len() implies s@[i + k] == p@[k] by {
                    assert(s@.subrange(i as int, i + p@.len())[k] == s@[i + k]);
                }
            }
        }
        i = i + 1;
    }
    assert forall|k: int| !occurs_at(s@, p@, k) by {
        if 0 <= k && k + p@.len() <= s@.len() {
            assert(k < i);
        }
    }
    false
}

/// `str::contains` for a literal pattern.
pub fn contains_str(s: &[char], p: &str) -> (r: bool)
    ensures
        r == contains_spec(s@, p@),
{
    let q = chars_of(p);
    contains(s, &q)
}

/// The pieces of `splitn(3, char::is_whitespace)`: split on single whitespace characters, at
/// most twice, the third piece keeping the rest.
pub open spec fn split3_ws(s: Seq<char>) -> Seq<Seq<char>> {
    let a = next_ws(s, 0);
    if a >= s.len() {
        seq![s]
    } else {
        let b = next_ws(s, a + 1);
        if b >= s.len() {
            seq![s.take(a), s.subrange(a + 1, s.len() as int)]
        } else {
            seq![s.take(a), s.subrange(a + 1, b), s.skip(b + 1)]
        }
    }
}

fn next_ws_at(s: &[char], i: usize) -> (e: usize)
    requires
        i <= s@.len(),
    ensures
        e as int == next_ws(s@, i as int),
        i <= e <= s@.len(),
{
    let mut e = i;
    while e < s.len() && !is_whitespace(s[e])
        invariant
            i <= e <= s@.len(),
            next_ws(s@, i as int) == next_ws(s@, e as int),
        decreases s.len() - e,
    {
        e = e + 1;
    }
    e
}

/// `splitn(3, char::is_whitespace)`.
pub fn split3_whitespace(s: &[char]) -> (out: Vec<Vec<char>>)
    ensures
        views(out@) == split3_ws(s@),
{
    let mut out: Vec<Vec<char>> = Vec::new();
    let a = next_ws_at(s, 0);
    if a >= s.len() {
        out.push(slice_of(s, 0, s.len()));
        assert(s@.subrange(0, s@.len() as int) == s@);
        assert(views(out@) =~= split3_ws(s@));
        return out;
    }
    let b = next_ws_at(s, a + 1);
    out.push(slice_of(s, 0, a));
    if b >= s.len() {
        out.push(slice_of(s, a + 1, s.len()));
        assert(views(out@) =~= split3_ws(s@));
        return out;
    }
    out.push(slice_of(s, a + 1, b));
    out.push(slice_of(s, b + 1, s.len()));
    assert(views(out@) =~= split3_ws(s@));
    out
}

} // verus!

verus! {

/// The first index at or after `i` where `p` occurs, or the length when it occurs nowhere after.
pub open spec fn find_from(s: Seq<char>, p: Seq<char>, i: int) -> int
    decreases s.len() - i,
{
    if i >= s.len() {
        s.len() as int
    } else if occurs_at(s, p, i) {
        i
    } else {
        find_from(s, p, i + 1)
    }
}

pub proof fn lemma_find_from(s: Seq<char>, p: Seq<char>, i: int)
    requires
        0 <= i <= s.len(),
    ensures
        i <= find_from(s, p, i) <= s.len(),
        find_from(s, p, i) < s.len() ==> occurs_at(s, p, find_from(s, p, i)),
        forall|k: int| i <= k < find_from(s, p, i) ==> !occurs_at(s, p, k),
    decreases s.len() - i,
{
    if i < s.len() && !occurs_at(s, p, i) {
        lemma_find_from(s, p, i + 1);
    }
}

/// `str::split` on a non-empty text pattern, from index `i`: every piece, empty ones included.
pub open spec fn split_sep_from(s: Seq<char>, p: Seq<char>, i: int) -> Seq<Seq<char>>
    decreases s.len() - i,
{
    if p.len() == 0 || i < 0 || i > s.len() {
        seq![s]
    } else {
        let e = find_from(s, p, i);
        if e >= s.len() {
            seq![s.subrange(i, s.len() as int)]
        } else {
            proof {
                lemma_find_from(s, p, i);
            }
            seq![s.subrange(i, e)] + split_sep_from(s, p, e + p.len())
        }
    }
}

/// `str::split` on a non-empty text pattern.
pub open spec fn split_sep(s: Seq<char>, p: Seq<char>) -> Seq<Seq<char>> {
    split_sep_from(s, p, 0)
}

/// Whether `p` occurs in `s` at `i`.
fn occurs_here(s: &[char], p: &[char], i: usize) -> (r: bool)
    requires
        i <= s@.len(),
    ensures
        r == occurs_at(s@, p@, i as int),
{
    if p.len() > s.len() - i {
        return false;
    }
    let mut j: usize = 0;
    while j < p.len()
        invariant
            i + p@.len() <= s@.len() <= usize::MAX,
            j <= p@.len(),
            forall|k: int| 0 <= k < j ==> s@[i + k] == p@[k],
        decreases p.len() - j,
    {
        if s[i + j] != p[j] {
            assert(s@.subrange(i as int, i + p@.len())[j as int] != p@[j as int]);
            return false;
        }
        j = j + 1;
    }
    assert(s@.subrange(i as int, i + p@.len()) =~= p@);
    true
}

/// The first index at or after `i` where `p` occurs, or the length.
pub fn find_str(s: &[char], p: &[char], i: usize) -> (e: usize)
    requires
        i <= s@.len(),
    ensures
        e as int == find_from(s@, p@, i as int),
        i <= e <= s@.len(),
{
    let mut j = i;
    while j < s.len()
        invariant
            i <= j <= s@.len(),
            find_from(s@, p@, i as int) == find_from(s@, p@, j as int),
        decreases s.len() - j,
    {
        if occurs_here(s, p, j) {
            return j;
        }
        j = j + 1;
    }
    j
}

/// `str::split` on a non-empty text pattern.
pub fn split_str(s: &[char], p: &[char]) -> (out: Vec<Vec<char>>)
    requires
        p@.len() > 0,
    ensures
        views(out@) == split_sep(s@, p@),
        out@.len() >= 1,
{
    let mut out: Vec<Vec<char>> = Vec::new();
    let mut i: usize = 0;
    loop
        invariant
            p@.len() > 0,
            i <= s@.len(),
            views(out@) + split_sep_from(s@, p@, i as int) == split_sep(s@, p@),
        decreases s.len() - i,
    {
        let e = find_str(s, p, i);
        proof {
            lemma_find_from(s@, p@, i as int);
        }
        let ghost before = views(out@);
        if e == s.len() {
            let piece = slice_of(s, i, e);
            out.push(piece);
            assert(views(out@) == before.push(piece@));
            assert(views(out@) =~= split_sep(s@, p@));
            return out;
        }
        let piece = slice_of(s, i, e);
        out.push(piece);
        assert(views(out@) == before.push(piece@));
        i = e + p.len();
    }
}

/// What one pass over a list of charts comes to, chart by chart: the problems each reported and
/// the text each is to write, if any.
pub type Passes = Seq<(Seq<Seq<char>>, Option<Seq<char>>)>;

/// The problems of every pass, one chart after another.
pub open spec fn all_problems(passes: Passes) -> Seq<Seq<char>>
    decreases passes.len(),
{
    if passes.len() == 0 {
        seq![]
    } else {
        all_problems(passes.drop_last()) + passes.last().0
    }
}

/// The files the passes write, in chart order: each chart with a text, by the path it goes to.
pub open spec fn all_writes(paths: Seq<Seq<char>>, passes: Passes) -> Seq<(Seq<char>, Seq<char>)>
    decreases passes.len(),
{
    if passes.len() == 0 {
        seq![]
    } else {
        let rest = all_writes(paths, passes.drop_last());
        match passes.last().1 {
            Some(t) => rest.push((paths[passes.len() - 1], t)),
            None => rest,
        }
    }
}

/// Pairs of texts, by their views.
pub open spec fn pairs(v: Seq<(String, String)>) -> Seq<(Seq<char>, Seq<char>)> {
    v.map_values(|p: (String, String)| (p.0@, p.1@))
}

} // verus!
