//! The order `str` compares texts in, and lists kept sorted and free of repeats by it.
//!
//! Texts compare character by character by code point, a proper prefix first: the order `Ord` on
//! `str` gives, since UTF-8 preserves code point order byte by byte.

use vstd::prelude::*;

use crate::text::strs;

verus! {

/// Whether `a` sorts strictly before `b`.
pub open spec fn text_lt(a: Seq<char>, b: Seq<char>) -> bool
    decreases a.len(),
{
    if b.len() == 0 {
        false
    } else if a.len() == 0 {
        true
    } else if a[0] != b[0] {
        a[0] < b[0]
    } else {
        text_lt(a.drop_first(), b.drop_first())
    }
}

/// No text sorts before itself.
pub proof fn lemma_lt_irreflexive(a: Seq<char>)
    ensures
        !text_lt(a, a),
    decreases a.len(),
{
    if a.len() > 0 {
        lemma_lt_irreflexive(a.drop_first());
    }
}

/// Two different texts sort one way or the other, and never both.
pub proof fn lemma_lt_total(a: Seq<char>, b: Seq<char>)
    ensures
        a != b ==> (text_lt(a, b) || text_lt(b, a)),
        !(text_lt(a, b) && text_lt(b, a)),
    decreases a.len(),
{
    if a.len() > 0 && b.len() > 0 && a[0] == b[0] {
        lemma_lt_total(a.drop_first(), b.drop_first());
        if a != b {
            assert(a.drop_first() != b.drop_first()) by {
                if a.drop_first() == b.drop_first() {
                    assert(a =~= seq![a[0]] + a.drop_first());
                    assert(b =~= seq![b[0]] + b.drop_first());
                }
            }
        }
    } else if a.len() == 0 && b.len() == 0 {
        assert(a =~= b);
    }
}

/// The order is transitive.
pub proof fn lemma_lt_transitive(a: Seq<char>, b: Seq<char>, c: Seq<char>)
    requires
        text_lt(a, b),
        text_lt(b, c),
    ensures
        text_lt(a, c),
    decreases a.len(),
{
    if a.len() > 0 && a[0] == b[0] && b[0] == c[0] {
        lemma_lt_transitive(a.drop_first(), b.drop_first(), c.drop_first());
    }
}

/// Whether `a` sorts before `b`, compared the way `str` compares.
pub fn less(a: &str, b: &str) -> (r: bool)
    ensures
        r == text_lt(a@, b@),
{
    let x = crate::text::chars_of(a);
    let y = crate::text::chars_of(b);
    let mut i: usize = 0;
    assert(x@.skip(0) =~= x@);
    assert(y@.skip(0) =~= y@);
    while i < x.len() && i < y.len()
        invariant
            i <= x@.len(),
            i <= y@.len(),
            x@.subrange(0, i as int) == y@.subrange(0, i as int),
            text_lt(a@, b@) == text_lt(x@.skip(i as int), y@.skip(i as int)),
            x@ == a@,
            y@ == b@,
        decreases x.len() - i,
    {
        if x[i] != y[i] {
            assert(x@.skip(i as int)[0] == x@[i as int]);
            assert(y@.skip(i as int)[0] == y@[i as int]);
            return x[i] < y[i];
        }
        assert(x@.skip(i as int).drop_first() =~= x@.skip(i + 1));
        assert(y@.skip(i as int).drop_first() =~= y@.skip(i + 1));
        assert(x@.subrange(0, i + 1) =~= x@.subrange(0, i as int).push(x@[i as int]));
        assert(y@.subrange(0, i + 1) =~= y@.subrange(0, i as int).push(y@[i as int]));
        i = i + 1;
    }
    i < y.len()
}

/// Whether a list of texts is in strictly increasing order, and so holds no text twice.
pub open spec fn ascending(s: Seq<Seq<char>>) -> bool {
    forall|i: int, j: int| 0 <= i < j < s.len() ==> text_lt(#[trigger] s[i], #[trigger] s[j])
}

/// A list of texts, as the set it holds.
pub open spec fn held(s: Seq<Seq<char>>) -> Set<Seq<char>> {
    s.to_set()
}

/// Add one text to a list kept in ascending order, unless it is already there.
pub fn insert_sorted(list: &mut Vec<String>, item: String)
    requires
        ascending(strs(old(list)@)),
    ensures
        ascending(strs(final(list)@)),
        held(strs(final(list)@)) == held(strs(old(list)@)).insert(item@),
{
    let ghost before = strs(list@);
    let mut at: usize = 0;
    while at < list.len() && less(list[at].as_str(), item.as_str())
        invariant
            at <= list@.len(),
            strs(list@) == before,
            ascending(before),
            forall|k: int| 0 <= k < at ==> text_lt(#[trigger] before[k], item@),
        decreases list.len() - at,
    {
        at = at + 1;
    }
    if at < list.len() && crate::text::same(&crate::text::chars(&list[at]), &crate::text::chars(&item)) {
        assert(before[at as int] == item@);
        assert(held(before) =~= held(before).insert(item@)) by {
            assert(before.contains(item@));
        }
        return;
    }
    proof {
        if at < before.len() {
            lemma_lt_total(before[at as int], item@);
        }
    }
    list.insert(at, item);
    let ghost after = strs(list@);
    assert(after =~= before.insert(at as int, item@));
    assert forall|i: int, j: int| 0 <= i < j < after.len() implies text_lt(
        #[trigger] after[i],
        #[trigger] after[j],
    ) by {
        if j < at {
        } else if i < at && j == at {
        } else if i < at && j > at {
            assert(after[j] == before[j - 1]);
            assert(text_lt(before[i], before[at as int])) by {
                if i < at {
                }
            }
            if j - 1 > at {
                assert(text_lt(before[at as int], before[j - 1]));
                lemma_lt_transitive(before[i], before[at as int], before[j - 1]);
            }
        } else if i == at {
            assert(after[j] == before[j - 1]);
            if j - 1 > at {
                assert(text_lt(before[at as int], before[j - 1]));
                lemma_lt_transitive(item@, before[at as int], before[j - 1]);
            }
        } else {
            assert(after[i] == before[i - 1]);
            assert(after[j] == before[j - 1]);
        }
    }
    assert(held(after) =~= held(before).insert(item@)) by {
        assert forall|t: Seq<char>| held(after).contains(t) implies held(before).insert(
            item@,
        ).contains(t) by {
            let k = choose|k: int| 0 <= k < after.len() && after[k] == t;
            if k < at {
                assert(before[k] == t);
            } else if k > at {
                assert(before[k - 1] == t);
            }
        }
        assert forall|t: Seq<char>| held(before).insert(item@).contains(t) implies held(
            after,
        ).contains(t) by {
            if t == item@ {
                assert(after[at as int] == t);
            } else {
                let k = choose|k: int| 0 <= k < before.len() && before[k] == t;
                if k < at {
                    assert(after[k] == t);
                } else {
                    assert(after[k + 1] == t);
                }
            }
        }
    }
}

} // verus!

verus! {

/// Whether one list of texts sorts strictly before another of the same length, compared the way
/// a tuple of texts compares: by the first component that differs.
#[verifier::opaque]
pub open spec fn texts_lt(a: Seq<Seq<char>>, b: Seq<Seq<char>>) -> bool
    decreases a.len(),
{
    if a.len() == 0 || b.len() == 0 {
        false
    } else if a[0] != b[0] {
        text_lt(a[0], b[0])
    } else {
        texts_lt(a.drop_first(), b.drop_first())
    }
}

/// Two different tuples of one length sort one way or the other, and never both; none sorts
/// before itself.
pub proof fn lemma_texts_total(a: Seq<Seq<char>>, b: Seq<Seq<char>>)
    requires
        a.len() == b.len(),
    ensures
        a != b ==> (texts_lt(a, b) || texts_lt(b, a)),
        !(texts_lt(a, b) && texts_lt(b, a)),
        !texts_lt(a, a),
    decreases a.len(),
{
    reveal(texts_lt);
    if a.len() > 0 {
        lemma_lt_total(a[0], b[0]);
        lemma_lt_irreflexive(a[0]);
        lemma_texts_total(a.drop_first(), b.drop_first());
        lemma_texts_total(a.drop_first(), a.drop_first());
        if a != b && a[0] == b[0] {
            assert(a.drop_first() != b.drop_first()) by {
                if a.drop_first() == b.drop_first() {
                    assert(a =~= seq![a[0]] + a.drop_first());
                    assert(b =~= seq![b[0]] + b.drop_first());
                }
            }
        }
    } else {
        assert(a =~= b);
    }
}

/// The tuple order is transitive.
pub proof fn lemma_texts_transitive(a: Seq<Seq<char>>, b: Seq<Seq<char>>, c: Seq<Seq<char>>)
    requires
        a.len() == b.len() == c.len(),
        texts_lt(a, b),
        texts_lt(b, c),
    ensures
        texts_lt(a, c),
    decreases a.len(),
{
    reveal(texts_lt);
    if a.len() > 0 {
        if a[0] == b[0] && b[0] == c[0] {
            lemma_texts_transitive(a.drop_first(), b.drop_first(), c.drop_first());
        } else if a[0] != b[0] && b[0] != c[0] {
            lemma_lt_transitive(a[0], b[0], c[0]);
            if a[0] == c[0] {
                lemma_lt_total(a[0], b[0]);
            }
        } else if a[0] == b[0] {
        } else {
        }
    }
}

/// Three texts as a tuple.
pub open spec fn triple(a: Seq<char>, b: Seq<char>, c: Seq<char>) -> Seq<Seq<char>> {
    seq![a, b, c]
}

/// Four texts as a tuple.
pub open spec fn quadruple(a: Seq<char>, b: Seq<char>, c: Seq<char>, d: Seq<char>) -> Seq<
    Seq<char>,
> {
    seq![a, b, c, d]
}

/// Whether one triple of texts sorts before another.
pub fn less3(a0: &String, a1: &String, a2: &String, b0: &String, b1: &String, b2: &String) -> (r:
    bool)
    ensures
        r == texts_lt(triple(a0@, a1@, a2@), triple(b0@, b1@, b2@)),
{
    let ghost a = triple(a0@, a1@, a2@);
    let ghost b = triple(b0@, b1@, b2@);
    assert(a.drop_first() =~= seq![a1@, a2@]);
    assert(b.drop_first() =~= seq![b1@, b2@]);
    assert(a.drop_first().drop_first() =~= seq![a2@]);
    assert(b.drop_first().drop_first() =~= seq![b2@]);
    assert(a.drop_first().drop_first().drop_first() =~= Seq::<Seq<char>>::empty());
    proof {
        reveal_with_fuel(texts_lt, 4);
        lemma_lt_irreflexive(a2@);
    }
    if *a0 != *b0 {
        return less(a0.as_str(), b0.as_str());
    }
    if *a1 != *b1 {
        return less(a1.as_str(), b1.as_str());
    }
    less(a2.as_str(), b2.as_str())
}

/// Whether one quadruple of texts sorts before another.
pub fn less4(
    a0: &String,
    a1: &String,
    a2: &String,
    a3: &String,
    b0: &String,
    b1: &String,
    b2: &String,
    b3: &String,
) -> (r: bool)
    ensures
        r == texts_lt(quadruple(a0@, a1@, a2@, a3@), quadruple(b0@, b1@, b2@, b3@)),
{
    let ghost a = quadruple(a0@, a1@, a2@, a3@);
    let ghost b = quadruple(b0@, b1@, b2@, b3@);
    assert(a.drop_first() =~= triple(a1@, a2@, a3@));
    assert(b.drop_first() =~= triple(b1@, b2@, b3@));
    proof {
        reveal_with_fuel(texts_lt, 2);
    }
    if *a0 != *b0 {
        return less(a0.as_str(), b0.as_str());
    }
    less3(a1, a2, a3, b1, b2, b3)
}

} // verus!

verus! {

/// Whether one list of texts sorts strictly before another, compared the way `Vec<String>`
/// compares: by the first element that differs, a proper prefix first.
pub open spec fn list_lt(a: Seq<Seq<char>>, b: Seq<Seq<char>>) -> bool
    decreases a.len(),
{
    if b.len() == 0 {
        false
    } else if a.len() == 0 {
        true
    } else if a[0] != b[0] {
        text_lt(a[0], b[0])
    } else {
        list_lt(a.drop_first(), b.drop_first())
    }
}

/// Two different lists sort one way or the other, and never both; none sorts before itself.
pub proof fn lemma_list_total(a: Seq<Seq<char>>, b: Seq<Seq<char>>)
    ensures
        a != b ==> (list_lt(a, b) || list_lt(b, a)),
        !(list_lt(a, b) && list_lt(b, a)),
        !list_lt(a, a),
    decreases a.len(),
{
    if a.len() > 0 {
        lemma_list_total(a.drop_first(), a.drop_first());
    }
    if a.len() > 0 && b.len() > 0 {
        lemma_lt_total(a[0], b[0]);
        lemma_lt_irreflexive(a[0]);
        lemma_list_total(a.drop_first(), b.drop_first());
        if a != b && a[0] == b[0] {
            assert(a.drop_first() != b.drop_first()) by {
                if a.drop_first() == b.drop_first() {
                    assert(a =~= seq![a[0]] + a.drop_first());
                    assert(b =~= seq![b[0]] + b.drop_first());
                }
            }
        }
    } else if a.len() == 0 && b.len() == 0 {
        assert(a =~= b);
    }
}

/// The list order is transitive.
pub proof fn lemma_list_transitive(a: Seq<Seq<char>>, b: Seq<Seq<char>>, c: Seq<Seq<char>>)
    requires
        list_lt(a, b),
        list_lt(b, c),
    ensures
        list_lt(a, c),
    decreases a.len(),
{
    if a.len() > 0 && b.len() > 0 && c.len() > 0 {
        if a[0] == b[0] && b[0] == c[0] {
            lemma_list_transitive(a.drop_first(), b.drop_first(), c.drop_first());
        } else if a[0] != b[0] && b[0] != c[0] {
            lemma_lt_transitive(a[0], b[0], c[0]);
            if a[0] == c[0] {
                lemma_lt_total(a[0], b[0]);
            }
        }
    }
}

/// The views of a list of lists of texts.
pub open spec fn lists_of(v: Seq<Vec<String>>) -> Seq<Seq<Seq<char>>> {
    v.map_values(|x: Vec<String>| strs(x@))
}

/// Whether lists are in strictly increasing order, and so hold none twice.
pub open spec fn lists_ascending(s: Seq<Seq<Seq<char>>>) -> bool {
    forall|i: int, j: int| 0 <= i < j < s.len() ==> list_lt(#[trigger] s[i], #[trigger] s[j])
}

/// Whether one list of texts sorts before another.
pub fn list_less(a: &Vec<String>, b: &Vec<String>) -> (r: bool)
    ensures
        r == list_lt(strs(a@), strs(b@)),
{
    let ghost (x, y) = (strs(a@), strs(b@));
    let mut i: usize = 0;
    assert(x.skip(0) =~= x);
    assert(y.skip(0) =~= y);
    while i < a.len() && i < b.len()
        invariant
            i <= a@.len(),
            i <= b@.len(),
            x == strs(a@),
            y == strs(b@),
            list_lt(x, y) == list_lt(x.skip(i as int), y.skip(i as int)),
        decreases a.len() - i,
    {
        if a[i] != b[i] {
            assert(x.skip(i as int)[0] == a@[i as int]@);
            assert(y.skip(i as int)[0] == b@[i as int]@);
            return less(a[i].as_str(), b[i].as_str());
        }
        assert(x.skip(i as int).drop_first() =~= x.skip(i + 1));
        assert(y.skip(i as int).drop_first() =~= y.skip(i + 1));
        i = i + 1;
    }
    i < b.len()
}

/// A list of lists, as the set it holds.
pub open spec fn lists_held(s: Seq<Seq<Seq<char>>>) -> Set<Seq<Seq<char>>> {
    s.to_set()
}

/// Add one list of texts to lists kept in ascending order, unless it is already there.
pub fn insert_sorted_list(list: &mut Vec<Vec<String>>, item: Vec<String>)
    requires
        lists_ascending(lists_of(old(list)@)),
    ensures
        lists_ascending(lists_of(final(list)@)),
        lists_held(lists_of(final(list)@)) == lists_held(lists_of(old(list)@)).insert(strs(item@)),
{
    let ghost before = lists_of(list@);
    let ghost it = strs(item@);
    let mut at: usize = 0;
    while at < list.len() && list_less(&list[at], &item)
        invariant
            at <= list@.len(),
            lists_of(list@) == before,
            lists_ascending(before),
            it == strs(item@),
            forall|k: int| 0 <= k < at ==> list_lt(#[trigger] before[k], it),
        decreases list.len() - at,
    {
        at = at + 1;
    }
    if at < list.len() && !list_less(&item, &list[at]) {
        proof {
            lemma_list_total(before[at as int], it);
        }
        assert(before[at as int] == it);
        assert(lists_held(before) =~= lists_held(before).insert(it)) by {
            assert(before.contains(it));
        }
        return;
    }
    list.insert(at, item);
    let ghost after = lists_of(list@);
    assert(after =~= before.insert(at as int, it));
    assert forall|i: int, j: int| 0 <= i < j < after.len() implies list_lt(
        #[trigger] after[i],
        #[trigger] after[j],
    ) by {
        if j < at {
        } else if i < at && j == at {
        } else if i < at && j > at {
            assert(after[j] == before[j - 1]);
            if j - 1 > at {
                assert(list_lt(before[at as int], before[j - 1]));
                lemma_list_transitive(it, before[at as int], before[j - 1]);
            }
            lemma_list_transitive(before[i], it, before[j - 1]);
        } else if i == at {
            assert(after[j] == before[j - 1]);
            if j - 1 > at {
                assert(list_lt(before[at as int], before[j - 1]));
                lemma_list_transitive(it, before[at as int], before[j - 1]);
            }
        } else {
            assert(after[i] == before[i - 1]);
            assert(after[j] == before[j - 1]);
        }
    }
    assert(lists_held(after) =~= lists_held(before).insert(it)) by {
        assert forall|t: Seq<Seq<char>>| lists_held(after).contains(t) implies lists_held(
            before,
        ).insert(it).contains(t) by {
            let k = choose|k: int| 0 <= k < after.len() && after[k] == t;
            if k < at {
                assert(before[k] == t);
            } else if k > at {
                assert(before[k - 1] == t);
            }
        }
        assert forall|t: Seq<Seq<char>>| lists_held(before).insert(it).contains(t) implies lists_held(
            after,
        ).contains(t) by {
            if t == it {
                assert(after[at as int] == t);
            } else {
                let k = choose|k: int| 0 <= k < before.len() && before[k] == t;
                if k < at {
                    assert(after[k] == t);
                } else {
                    assert(after[k + 1] == t);
                }
            }
        }
    }
}

} // verus!

verus! {

/// Whether a list of texts is in order, repeats allowed.
pub open spec fn nondecreasing(s: Seq<Seq<char>>) -> bool {
    forall|i: int, j: int| 0 <= i < j < s.len() ==> !text_lt(#[trigger] s[j], #[trigger] s[i])
}

/// Add one text to a list kept in order, repeats kept.
pub fn insert_keeping(list: &mut Vec<String>, item: String)
    requires
        nondecreasing(strs(old(list)@)),
    ensures
        nondecreasing(strs(final(list)@)),
        strs(final(list)@).to_multiset() == strs(old(list)@).to_multiset().insert(item@),
{
    let ghost before = strs(list@);
    let ghost it = item@;
    let mut at: usize = 0;
    while at < list.len() && !less(item.as_str(), list[at].as_str())
        invariant
            at <= list@.len(),
            strs(list@) == before,
            nondecreasing(before),
            it == item@,
            forall|k: int| 0 <= k < at ==> !text_lt(it, #[trigger] before[k]),
        decreases list.len() - at,
    {
        at = at + 1;
    }
    list.insert(at, item);
    let ghost after = strs(list@);
    assert(after =~= before.insert(at as int, it));
    proof {
        vstd::seq_lib::to_multiset_insert(before, at as int, it);
    }
    assert forall|i: int, j: int| 0 <= i < j < after.len() implies !text_lt(
        #[trigger] after[j],
        #[trigger] after[i],
    ) by {
        if j < at {
            assert(after[i] == before[i] && after[j] == before[j]);
        } else if j == at {
            assert(after[i] == before[i]);
        } else if i < at {
            assert(after[i] == before[i] && after[j] == before[j - 1]);
            assert(i < j - 1);
        } else if i == at {
            assert(after[j] == before[j - 1]);
            assert(text_lt(it, before[at as int]));
            if text_lt(before[j - 1], it) {
                lemma_lt_transitive(before[j - 1], it, before[at as int]);
                if j - 1 == at {
                    lemma_lt_irreflexive(before[at as int]);
                }
            }
        } else {
            assert(after[i] == before[i - 1] && after[j] == before[j - 1]);
        }
    }
}

} // verus!

verus! {

/// The texts of a list in order, repeats kept: the one list in order that holds each text as often
/// as `s` does.
pub open spec fn in_order(s: Seq<Seq<char>>) -> Seq<Seq<char>> {
    choose|u: Seq<Seq<char>>| nondecreasing(u) && u.to_multiset() == s.to_multiset()
}

/// The texts of a list in order, each once: the one strictly increasing list that holds the same
/// texts as `s`.
pub open spec fn in_order_once(s: Seq<Seq<char>>) -> Seq<Seq<char>> {
    choose|u: Seq<Seq<char>>| ascending(u) && held(u) == held(s)
}

/// Two lists in order that hold the same texts as often are the same list.
pub proof fn lemma_one_order(a: Seq<Seq<char>>, b: Seq<Seq<char>>)
    requires
        nondecreasing(a),
        nondecreasing(b),
        a.to_multiset() == b.to_multiset(),
    ensures
        a == b,
    decreases a.len(),
{
    broadcast use vstd::seq_lib::group_to_multiset_ensures;

    vstd::seq_lib::to_multiset_len(a);
    vstd::seq_lib::to_multiset_len(b);
    assert(a.len() == b.len());
    if a.len() == 0 {
        assert(a =~= b);
    } else {
        assert(a.contains(a[0]));
        assert(b.to_multiset().count(a[0]) > 0);
        assert(b.contains(a[0]));
        assert(b.contains(b[0]));
        assert(a.to_multiset().count(b[0]) > 0);
        assert(a.contains(b[0]));
        let k = choose|k: int| 0 <= k < b.len() && b[k] == a[0];
        let m = choose|m: int| 0 <= m < a.len() && a[m] == b[0];
        if k > 0 {
            assert(!text_lt(b[k], b[0]));
        }
        if m > 0 {
            assert(!text_lt(a[m], a[0]));
        }
        lemma_lt_total(a[0], b[0]);
        lemma_lt_irreflexive(a[0]);
        assert(a[0] == b[0]);
        assert(a.remove(0) =~= a.drop_first());
        assert(b.remove(0) =~= b.drop_first());
        assert(a.drop_first().to_multiset() == b.drop_first().to_multiset());
        lemma_one_order(a.drop_first(), b.drop_first());
        assert(a =~= seq![a[0]] + a.drop_first());
        assert(b =~= seq![b[0]] + b.drop_first());
    }
}

/// A list in order holding each text of `s` as often as `s` does is `in_order(s)`.
pub proof fn lemma_in_order(s: Seq<Seq<char>>, u: Seq<Seq<char>>)
    requires
        nondecreasing(u),
        u.to_multiset() == s.to_multiset(),
    ensures
        in_order(s) == u,
{
    let w = in_order(s);
    assert(nondecreasing(w) && w.to_multiset() == s.to_multiset());
    lemma_one_order(w, u);
}

/// Two strictly increasing lists that hold the same texts are the same list.
pub proof fn lemma_one_ascending(a: Seq<Seq<char>>, b: Seq<Seq<char>>)
    requires
        ascending(a),
        ascending(b),
        held(a) == held(b),
    ensures
        a == b,
    decreases a.len(),
{
    if a.len() == 0 {
        if b.len() > 0 {
            assert(held(b).contains(b[0]));
        }
        assert(a =~= b);
    } else if b.len() == 0 {
        assert(held(a).contains(a[0]));
    } else {
        assert(held(a).contains(a[0]));
        assert(held(b).contains(b[0]));
        let k = choose|k: int| 0 <= k < b.len() && b[k] == a[0];
        let m = choose|m: int| 0 <= m < a.len() && a[m] == b[0];
        if k > 0 {
            assert(text_lt(b[0], b[k]));
        }
        if m > 0 {
            assert(text_lt(a[0], a[m]));
        }
        lemma_lt_total(a[0], b[0]);
        assert(a[0] == b[0]);
        let (x, y) = (a.drop_first(), b.drop_first());
        assert forall|t: Seq<char>| held(x).contains(t) <==> held(y).contains(t) by {
            if held(x).contains(t) {
                let i = choose|i: int| 0 <= i < x.len() && x[i] == t;
                assert(text_lt(a[0], a[i + 1]));
                assert(held(a).contains(t));
                let j = choose|j: int| 0 <= j < b.len() && b[j] == t;
                if j == 0 {
                    lemma_lt_irreflexive(t);
                }
                assert(y[j - 1] == t);
            }
            if held(y).contains(t) {
                let i = choose|i: int| 0 <= i < y.len() && y[i] == t;
                assert(text_lt(b[0], b[i + 1]));
                assert(held(b).contains(t));
                let j = choose|j: int| 0 <= j < a.len() && a[j] == t;
                if j == 0 {
                    lemma_lt_irreflexive(t);
                }
                assert(x[j - 1] == t);
            }
        }
        assert(held(x) =~= held(y));
        lemma_one_ascending(x, y);
        assert(a =~= seq![a[0]] + x);
        assert(b =~= seq![b[0]] + y);
    }
}

/// A strictly increasing list holding the texts of `s` is `in_order_once(s)`.
pub proof fn lemma_in_order_once(s: Seq<Seq<char>>, u: Seq<Seq<char>>)
    requires
        ascending(u),
        held(u) == held(s),
    ensures
        in_order_once(s) == u,
{
    let w = in_order_once(s);
    assert(ascending(w) && held(w) == held(s));
    lemma_one_ascending(w, u);
}

} // verus!
