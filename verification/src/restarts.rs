//! `templates/_config-reload.tpl`: the part of each document a chart rolls its pods for.
//!
//! A chart rolls a workload by changing its pod template, and the usual way is a `checksum/`
//! annotation over the configuration it mounts. The contract says which keys a process reads
//! only at start, so the chart hashes exactly those, and this module writes the list it hashes.
//!
//! A key is in a document's set when any image that reads the document classes it restart, or
//! the chart promotes it. An image that does not rebuild in place, or does not watch a layer,
//! puts the whole of that layer in the set.

use vstd::prelude::*;

use crate::declaration::{Document, Restarted};
use crate::json::{json_string, to_json_string};
use crate::order::{
    ascending, held, insert_sorted, insert_sorted_list, lists_ascending, lists_held, lists_of,
};
use crate::text::{
    all_problems, all_writes, chars, chars_of, pairs, push_all, push_str, split_char, split_spec, string_of,
    strs, views, Passes,
};

verus! {

/// Where the generated file lives, relative to the chart.
pub const TEMPLATE: &'static str = "templates/_config-reload.tpl";

/// The comment every generated file opens with.
pub const HEADER: &'static str = "{{- /*
Generated by `terrace-contract reload` from the contracts this chart vendors. Do not
edit: `terrace-contract reload --check` fails when this file and the contracts disagree.

One define per configuration document, naming the parts of it only a process restart
applies. A pod annotation hashing exactly those parts rolls the workload for a change
that needs it, and leaves every other change to the image's in-place reload. `all: true`
means the whole of that half is restart content.
*/}}
";

/// One key of one contract, as far as a restart set reads it.
#[derive(Debug, Clone)]
pub struct ReloadKey {
    /// The configuration path.
    pub path: String,
    /// The other paths that address it.
    pub aliases: Vec<String>,
    /// The secrets-directory file that supplies it, where one can.
    pub secrets_file: Option<String>,
    /// The other file names that supply it.
    pub secrets_file_aliases: Vec<String>,
    /// Whether it is read from the environment before the layers exist.
    pub reserved: bool,
    /// Whether the image's reload rules leave it to a restart: its class is `restart`, or the
    /// rules cannot place it.
    pub restart_class: bool,
}

/// One contract, as far as a restart set reads it.
#[derive(Debug, Clone)]
pub struct ReloadContract {
    /// Whether the image rebuilds its configuration in place.
    pub rebuilds: bool,
    /// Whether its reload watches the configuration document.
    pub watches_document: bool,
    /// Whether its reload watches the secrets directory.
    pub watches_secrets_dir: bool,
    /// Every key it declares.
    pub keys: Vec<ReloadKey>,
}

/// The keys of one document a chart rolls its pods for.
#[derive(Debug, Clone, PartialEq, Eq)]
pub struct RestartSet {
    /// The document, as the declaration names it.
    pub document: String,
    /// Whether the whole rendered document is restart content.
    pub document_all: bool,
    /// The restart-class key paths, aliases included, each as its segments. Sorted.
    pub paths: Vec<Vec<String>>,
    /// Whether every file in the chart's Secret is restart content.
    pub secrets_all: bool,
    /// The restart-class secrets-directory file names, aliases included. Sorted.
    pub files: Vec<String>,
}

/// What one pass over the chart tree found.
#[derive(Debug, Default)]
pub struct Written {
    /// Everything that stopped a file being written or made it wrong.
    pub problems: Vec<String>,
    /// How many files were written.
    pub touched: usize,
}

// ------------------------------------------------------------------------------------------------
// What a set holds
// ------------------------------------------------------------------------------------------------

/// Every key the contracts declare, contract after contract.
pub open spec fn flat(cs: Seq<(String, ReloadContract)>) -> Seq<ReloadKey>
    decreases cs.len(),
{
    if cs.len() == 0 {
        seq![]
    } else {
        flat(cs.drop_last()) + cs.last().1.keys@
    }
}

/// The keys the chart promotes to restart in one document.
pub open spec fn overridden(restart: Seq<Restarted>) -> Set<Seq<char>> {
    Set::new(
        |k: Seq<char>|
            exists|i: int, j: int|
                0 <= i < restart.len() && 0 <= j < restart[i].keys@.len() && #[trigger] restart[i].keys@[j]@
                    == k,
    )
}

/// The paths a list of keys declares.
pub open spec fn declared_paths(keys: Seq<ReloadKey>) -> Set<Seq<char>> {
    Set::new(|p: Seq<char>| exists|n: int| 0 <= n < keys.len() && #[trigger] keys[n].path@ == p)
}

/// Whether a key is restart content: not reserved, and either classed restart or promoted.
pub open spec fn restarts(key: ReloadKey, promoted: Set<Seq<char>>) -> bool {
    !key.reserved && (key.restart_class || promoted.contains(key.path@))
}

/// Every path that addresses a key, each as its segments.
pub open spec fn key_paths(key: ReloadKey) -> Set<Seq<Seq<char>>> {
    Set::new(
        |p: Seq<Seq<char>>|
            p == split_spec(key.path@, '.') || exists|a: int|
                0 <= a < key.aliases@.len() && p == split_spec(#[trigger] key.aliases@[a]@, '.'),
    )
}

/// Every secrets-directory file name that supplies a key.
pub open spec fn key_files(key: ReloadKey) -> Set<Seq<char>> {
    Set::new(
        |f: Seq<char>|
            (key.secrets_file matches Some(s) && s@ == f) || exists|a: int|
                0 <= a < key.secrets_file_aliases@.len() && #[trigger] key.secrets_file_aliases@[a]@
                    == f,
    )
}

/// The paths of every restart key in a list.
pub open spec fn restart_paths(keys: Seq<ReloadKey>, promoted: Set<Seq<char>>) -> Set<Seq<Seq<char>>> {
    Set::new(
        |p: Seq<Seq<char>>|
            exists|n: int|
                0 <= n < keys.len() && restarts(keys[n], promoted) && #[trigger] key_paths(
                    keys[n],
                ).contains(p),
    )
}

/// The file names of every restart key in a list.
pub open spec fn restart_files(keys: Seq<ReloadKey>, promoted: Set<Seq<char>>) -> Set<Seq<char>> {
    Set::new(
        |f: Seq<char>|
            exists|n: int|
                0 <= n < keys.len() && restarts(keys[n], promoted) && #[trigger] key_files(
                    keys[n],
                ).contains(f),
    )
}

/// Whether every contract rebuilds in place and watches the document.
pub open spec fn all_watch_document(cs: Seq<(String, ReloadContract)>) -> bool {
    forall|i: int| 0 <= i < cs.len() ==> #[trigger] cs[i].1.rebuilds && cs[i].1.watches_document
}

/// Whether every contract rebuilds in place and watches the secrets directory.
pub open spec fn all_watch_secrets(cs: Seq<(String, ReloadContract)>) -> bool {
    forall|i: int| 0 <= i < cs.len() ==> #[trigger] cs[i].1.rebuilds && cs[i].1.watches_secrets_dir
}

/// The refusal for one promoted key no contract declares.
pub open spec fn stale_message(path: Seq<char>) -> Seq<char> {
    "`restart` names `"@ + path
        + "`, which no contract this document reads declares; drop the entry, or correct the path"@
}

/// The promoted keys, in order, that no contract declares.
pub open spec fn stale_of(promoted: Seq<Seq<char>>, declared: Set<Seq<char>>) -> Seq<Seq<char>>
    decreases promoted.len(),
{
    if promoted.len() == 0 {
        seq![]
    } else if declared.contains(promoted.last()) {
        stale_of(promoted.drop_last(), declared)
    } else {
        stale_of(promoted.drop_last(), declared).push(promoted.last())
    }
}

/// Whether `set` is the restart set of `document` read by `cs`.
pub open spec fn is_restart_set(set: RestartSet, document: Document, cs: Seq<(String, ReloadContract)>) -> bool {
    let promoted = overridden(document.restart@);
    &&& set.document@ == document.name@
    &&& set.document_all == !all_watch_document(cs)
    &&& set.secrets_all == !all_watch_secrets(cs)
    &&& lists_ascending(lists_of(set.paths@))
    &&& lists_held(lists_of(set.paths@)) == if set.document_all {
        Set::empty()
    } else {
        restart_paths(flat(cs), promoted)
    }
    &&& ascending(strs(set.files@))
    &&& held(strs(set.files@)) == if set.secrets_all {
        Set::empty()
    } else {
        restart_files(flat(cs), promoted)
    }
}

/// Whether `problems` refuses `document` for the promoted keys no contract of `cs` declares.
pub open spec fn refuses(problems: Seq<Seq<char>>, document: Document, cs: Seq<(String, ReloadContract)>) -> bool {
    exists|promoted: Seq<Seq<char>>|
        ascending(promoted) && held(promoted) == overridden(document.restart@) && {
            let stale = stale_of(promoted, declared_paths(flat(cs)));
            stale.len() > 0 && problems == stale.map_values(|p: Seq<char>| stale_message(p))
        }
}

// ------------------------------------------------------------------------------------------------
// Computing one
// ------------------------------------------------------------------------------------------------

proof fn lemma_flat_step(cs: Seq<(String, ReloadContract)>, i: int)
    requires
        0 <= i < cs.len(),
    ensures
        flat(cs.take(i + 1)) == flat(cs.take(i)) + cs[i].1.keys@,
{
    assert(cs.take(i + 1).drop_last() =~= cs.take(i));
}

/// The keys the chart promotes, sorted and once each.
fn promoted_keys(restart: &Vec<Restarted>) -> (keys: Vec<String>)
    ensures
        ascending(strs(keys@)),
        held(strs(keys@)) == overridden(restart@),
{
    let mut keys: Vec<String> = Vec::new();
    let mut i: usize = 0;
    assert(held(strs(keys@)) =~= Set::empty());
    while i < restart.len()
        invariant
            i <= restart@.len(),
            ascending(strs(keys@)),
            held(strs(keys@)) == overridden(restart@.take(i as int)),
        decreases restart.len() - i,
    {
        let entry = &restart[i];
        let ghost upto = restart@.take(i as int);
        let mut j: usize = 0;
        while j < entry.keys.len()
            invariant
                j <= entry.keys@.len(),
                *entry == restart@[i as int],
                i < restart@.len(),
                upto == restart@.take(i as int),
                ascending(strs(keys@)),
                held(strs(keys@)) == overridden(upto).union(
                    Set::new(|k: Seq<char>| exists|q: int| 0 <= q < j && #[trigger] entry.keys@[q]@ == k),
                ),
            decreases entry.keys.len() - j,
        {
            insert_sorted(&mut keys, entry.keys[j].clone());
            assert(held(strs(keys@)) =~= overridden(upto).union(
                Set::new(|k: Seq<char>| exists|q: int| 0 <= q < j + 1 && #[trigger] entry.keys@[q]@ == k),
            )) by {
                assert forall|k: Seq<char>| held(strs(keys@)).contains(k) implies overridden(upto).union(
                    Set::new(|k: Seq<char>| exists|q: int| 0 <= q < j + 1 && #[trigger] entry.keys@[q]@ == k),
                ).contains(k) by {
                    if k == entry.keys@[j as int]@ {
                    } else if !overridden(upto).contains(k) {
                        let q = choose|q: int| 0 <= q < j && #[trigger] entry.keys@[q]@ == k;
                        assert(0 <= q < j + 1);
                    }
                }
                assert forall|k: Seq<char>| overridden(upto).union(
                    Set::new(|k: Seq<char>| exists|q: int| 0 <= q < j + 1 && #[trigger] entry.keys@[q]@ == k),
                ).contains(k) implies held(strs(keys@)).contains(k) by {
                    if !overridden(upto).contains(k) {
                        let q = choose|q: int| 0 <= q < j + 1 && #[trigger] entry.keys@[q]@ == k;
                        if q < j {
                            assert(entry.keys@[q]@ == k);
                        }
                    }
                }
            }
            j = j + 1;
        }
        let ghost next = restart@.take(i + 1);
        assert(next =~= upto.push(*entry));
        assert(held(strs(keys@)) =~= overridden(next)) by {
            assert forall|k: Seq<char>| #[trigger] overridden(next).contains(k) implies held(strs(keys@)).contains(k) by {
                let (a, b) = choose|a: int, b: int|
                    0 <= a < next.len() && 0 <= b < next[a].keys@.len() && #[trigger] next[a].keys@[b]@ == k;
                if a < upto.len() {
                    assert(upto[a] == next[a]);
                    assert(upto[a].keys@[b]@ == k);
                    assert(overridden(upto).contains(k));
                } else {
                    assert(entry.keys@[b]@ == k);
                }
            }
            assert forall|k: Seq<char>| held(strs(keys@)).contains(k) implies #[trigger] overridden(next).contains(k) by {
                if overridden(upto).contains(k) {
                    let (a, b) = choose|a: int, b: int|
                        0 <= a < upto.len() && 0 <= b < upto[a].keys@.len() && #[trigger] upto[a].keys@[b]@ == k;
                    assert(next[a] == upto[a]);
                    assert(next[a].keys@[b]@ == k);
                } else {
                    let q = choose|q: int| 0 <= q < entry.keys@.len() && #[trigger] entry.keys@[q]@ == k;
                    assert(next[i as int].keys@[q]@ == k);
                }
            }
        }
        i = i + 1;
    }
    assert(restart@.take(restart@.len() as int) =~= restart@);
    keys
}

/// Whether any contract declares a path.
fn is_declared(contracts: &Vec<(String, ReloadContract)>, path: &String) -> (b: bool)
    ensures
        b == declared_paths(flat(contracts@)).contains(path@),
{
    let ghost cs = contracts@;
    let mut i: usize = 0;
    while i < contracts.len()
        invariant
            i <= cs.len(),
            cs == contracts@,
            !declared_paths(flat(cs.take(i as int))).contains(path@),
        decreases contracts.len() - i,
    {
        let keys = &contracts[i].1.keys;
        let mut j: usize = 0;
        proof {
            lemma_flat_step(cs, i as int);
        }
        let ghost before = flat(cs.take(i as int));
        while j < keys.len()
            invariant
                j <= keys@.len(),
                i < cs.len(),
                cs == contracts@,
                *keys == cs[i as int].1.keys,
                before == flat(cs.take(i as int)),
                flat(cs.take(i + 1)) == before + keys@,
                !declared_paths(before).contains(path@),
                forall|q: int| 0 <= q < j ==> #[trigger] keys@[q].path@ != path@,
            decreases keys.len() - j,
        {
            if keys[j].path == *path {
                proof {
                    let all = flat(cs);
                    lemma_flat_prefix(cs, i + 1);
                    let n = before.len() + j;
                    assert(flat(cs.take(i + 1))[n] == keys@[j as int]);
                    assert(all[n] == keys@[j as int]);
                    assert(declared_paths(all).contains(path@));
                }
                return true;
            }
            j = j + 1;
        }
        assert(!declared_paths(flat(cs.take(i + 1))).contains(path@)) by {
            if declared_paths(flat(cs.take(i + 1))).contains(path@) {
                let n = choose|n: int|
                    0 <= n < flat(cs.take(i + 1)).len() && #[trigger] flat(cs.take(i + 1))[n].path@ == path@;
                if n < before.len() {
                    assert(flat(cs.take(i + 1))[n] == before[n]);
                    assert(declared_paths(before).contains(path@));
                } else {
                    assert(flat(cs.take(i + 1))[n] == keys@[n - before.len()]);
                }
            }
        }
        i = i + 1;
    }
    assert(cs.take(cs.len() as int) =~= cs);
    false
}

/// The keys of the first contracts are a prefix of every key.
proof fn lemma_flat_prefix(cs: Seq<(String, ReloadContract)>, i: int)
    requires
        0 <= i <= cs.len(),
    ensures
        flat(cs.take(i)).len() <= flat(cs).len(),
        forall|n: int| 0 <= n < flat(cs.take(i)).len() ==> #[trigger] flat(cs)[n] == flat(cs.take(i))[n],
    decreases cs.len() - i,
{
    if i < cs.len() {
        lemma_flat_prefix(cs, i + 1);
        lemma_flat_step(cs, i);
    } else {
        assert(cs.take(i) =~= cs);
    }
}

/// A path as its dot-separated segments.
fn segments(path: &String) -> (parts: Vec<String>)
    ensures
        strs(parts@) == split_spec(path@, '.'),
{
    let pieces = split_char(&chars(path), '.');
    let mut parts: Vec<String> = Vec::new();
    let mut k: usize = 0;
    while k < pieces.len()
        invariant
            k <= pieces@.len(),
            strs(parts@) == views(pieces@).take(k as int),
        decreases pieces.len() - k,
    {
        let ghost was = strs(parts@);
        parts.push(string_of(&pieces[k]));
        assert(strs(parts@) == was.push(pieces@[k as int]@));
        assert(views(pieces@).take(k + 1) =~= views(pieces@).take(k as int).push(pieces@[k as int]@));
        k = k + 1;
    }
    assert(views(pieces@).take(pieces@.len() as int) =~= views(pieces@));
    parts
}

/// The paths of a key's first `a` aliases.
pub open spec fn alias_paths(key: ReloadKey, a: int) -> Set<Seq<Seq<char>>> {
    Set::new(|p: Seq<Seq<char>>| exists|q: int| 0 <= q < a && p == split_spec(#[trigger] key.aliases@[q]@, '.'))
}

/// The file names of a key's first `a` file aliases.
pub open spec fn alias_files(key: ReloadKey, a: int) -> Set<Seq<char>> {
    Set::new(|f: Seq<char>| exists|q: int| 0 <= q < a && #[trigger] key.secrets_file_aliases@[q]@ == f)
}

/// Add every path that addresses a key.
fn add_key_paths(paths: &mut Vec<Vec<String>>, key: &ReloadKey)
    requires
        lists_ascending(lists_of(old(paths)@)),
    ensures
        lists_ascending(lists_of(final(paths)@)),
        lists_held(lists_of(final(paths)@)) == lists_held(lists_of(old(paths)@)).union(key_paths(*key)),
{
    let ghost start = lists_held(lists_of(paths@));
    insert_sorted_list(paths, segments(&key.path));
    let mut a: usize = 0;
    while a < key.aliases.len()
        invariant
            a <= key.aliases@.len(),
            lists_ascending(lists_of(paths@)),
            lists_held(lists_of(paths@)) == start.insert(split_spec(key.path@, '.')).union(
                alias_paths(*key, a as int),
            ),
        decreases key.aliases.len() - a,
    {
        insert_sorted_list(paths, segments(&key.aliases[a]));
        assert(lists_held(lists_of(paths@)) =~= start.insert(split_spec(key.path@, '.')).union(
            alias_paths(*key, a + 1),
        )) by {
            assert forall|p: Seq<Seq<char>>| #[trigger] alias_paths(*key, a + 1).contains(p)
                == (alias_paths(*key, a as int).contains(p) || p == split_spec(key.aliases@[a as int]@, '.')) by {
                if exists|q: int| 0 <= q < a + 1 && p == split_spec(#[trigger] key.aliases@[q]@, '.') {
                    let q = choose|q: int| 0 <= q < a + 1 && p == split_spec(#[trigger] key.aliases@[q]@, '.');
                    if q < a {
                        assert(p == split_spec(key.aliases@[q]@, '.'));
                    }
                }
                if exists|q: int| 0 <= q < a && p == split_spec(#[trigger] key.aliases@[q]@, '.') {
                    let q = choose|q: int| 0 <= q < a && p == split_spec(#[trigger] key.aliases@[q]@, '.');
                    assert(0 <= q < a + 1 && p == split_spec(key.aliases@[q]@, '.'));
                }
                if p == split_spec(key.aliases@[a as int]@, '.') {
                    assert(0 <= a < a + 1 && p == split_spec(key.aliases@[a as int]@, '.'));
                }
            }
        }
        a = a + 1;
    }
    assert(lists_held(lists_of(paths@)) =~= start.union(key_paths(*key)));
}

/// Add every file name that supplies a key.
fn add_key_files(files: &mut Vec<String>, key: &ReloadKey)
    requires
        ascending(strs(old(files)@)),
    ensures
        ascending(strs(final(files)@)),
        held(strs(final(files)@)) == held(strs(old(files)@)).union(key_files(*key)),
{
    let ghost start = held(strs(files@));
    let ghost first: Set<Seq<char>> = if key.secrets_file is Some {
        set![key.secrets_file->0@]
    } else {
        Set::empty()
    };
    match &key.secrets_file {
        Some(f) => {
            insert_sorted(files, f.clone());
            assert(held(strs(files@)) =~= start.union(first));
        },
        None => {
            assert(held(strs(files@)) =~= start.union(first));
        },
    }
    let mut a: usize = 0;
    while a < key.secrets_file_aliases.len()
        invariant
            a <= key.secrets_file_aliases@.len(),
            ascending(strs(files@)),
            held(strs(files@)) == start.union(first).union(
                alias_files(*key, a as int),
            ),
        decreases key.secrets_file_aliases.len() - a,
    {
        insert_sorted(files, key.secrets_file_aliases[a].clone());
        assert(held(strs(files@)) =~= start.union(first).union(
            alias_files(*key, a + 1),
        )) by {
            assert forall|f: Seq<char>| #[trigger] alias_files(*key, a + 1).contains(f)
                == (alias_files(*key, a as int).contains(f) || f == key.secrets_file_aliases@[a as int]@) by {
                if exists|q: int| 0 <= q < a + 1 && #[trigger] key.secrets_file_aliases@[q]@ == f {
                    let q = choose|q: int| 0 <= q < a + 1 && #[trigger] key.secrets_file_aliases@[q]@ == f;
                    if q < a {
                        assert(key.secrets_file_aliases@[q]@ == f);
                    }
                }
                if exists|q: int| 0 <= q < a && #[trigger] key.secrets_file_aliases@[q]@ == f {
                    let q = choose|q: int| 0 <= q < a && #[trigger] key.secrets_file_aliases@[q]@ == f;
                    assert(0 <= q < a + 1 && key.secrets_file_aliases@[q]@ == f);
                }
                if f == key.secrets_file_aliases@[a as int]@ {
                    assert(key.secrets_file_aliases@[a as int]@ == f);
                }
            }
        }
        a = a + 1;
    }
    assert(held(strs(files@)) =~= start.union(key_files(*key)));
}

/// Whether a sorted list of texts holds one.
fn listed(list: &Vec<String>, item: &String) -> (b: bool)
    ensures
        b == strs(list@).contains(item@),
{
    let mut k: usize = 0;
    while k < list.len()
        invariant
            k <= list@.len(),
            forall|q: int| 0 <= q < k ==> #[trigger] strs(list@)[q] != item@,
        decreases list.len() - k,
    {
        if list[k] == *item {
            assert(strs(list@)[k as int] == item@);
            return true;
        }
        k = k + 1;
    }
    false
}

proof fn lemma_restart_step(ks: Seq<ReloadKey>, k: ReloadKey, promoted: Set<Seq<char>>)
    ensures
        restart_paths(ks.push(k), promoted) == restart_paths(ks, promoted).union(
            if restarts(k, promoted) {
                key_paths(k)
            } else {
                Set::empty()
            },
        ),
        restart_files(ks.push(k), promoted) == restart_files(ks, promoted).union(
            if restarts(k, promoted) {
                key_files(k)
            } else {
                Set::empty()
            },
        ),
{
    let next = ks.push(k);
    assert forall|p: Seq<Seq<char>>| #[trigger] restart_paths(next, promoted).contains(p) == restart_paths(ks, promoted).union(
        if restarts(k, promoted) { key_paths(k) } else { Set::empty() },
    ).contains(p) by {
        if restart_paths(next, promoted).contains(p) {
            let n = choose|n: int| 0 <= n < next.len() && restarts(next[n], promoted) && #[trigger] key_paths(next[n]).contains(p);
            if n < ks.len() {
                assert(next[n] == ks[n]);
                assert(key_paths(ks[n]).contains(p));
            }
        }
        if restart_paths(ks, promoted).contains(p) {
            let n = choose|n: int| 0 <= n < ks.len() && restarts(ks[n], promoted) && #[trigger] key_paths(ks[n]).contains(p);
            assert(next[n] == ks[n]);
            assert(key_paths(next[n]).contains(p));
        }
        if restarts(k, promoted) && key_paths(k).contains(p) {
            assert(next[ks.len() as int] == k);
            assert(key_paths(next[ks.len() as int]).contains(p));
        }
    }
    assert forall|f: Seq<char>| #[trigger] restart_files(next, promoted).contains(f) == restart_files(ks, promoted).union(
        if restarts(k, promoted) { key_files(k) } else { Set::empty() },
    ).contains(f) by {
        if restart_files(next, promoted).contains(f) {
            let n = choose|n: int| 0 <= n < next.len() && restarts(next[n], promoted) && #[trigger] key_files(next[n]).contains(f);
            if n < ks.len() {
                assert(next[n] == ks[n]);
                assert(key_files(ks[n]).contains(f));
            }
        }
        if restart_files(ks, promoted).contains(f) {
            let n = choose|n: int| 0 <= n < ks.len() && restarts(ks[n], promoted) && #[trigger] key_files(ks[n]).contains(f);
            assert(next[n] == ks[n]);
            assert(key_files(next[n]).contains(f));
        }
        if restarts(k, promoted) && key_files(k).contains(f) {
            assert(next[ks.len() as int] == k);
            assert(key_files(next[ks.len() as int]).contains(f));
        }
    }
    assert(restart_paths(next, promoted) =~= restart_paths(ks, promoted).union(
        if restarts(k, promoted) { key_paths(k) } else { Set::empty() },
    ));
    assert(restart_files(next, promoted) =~= restart_files(ks, promoted).union(
        if restarts(k, promoted) { key_files(k) } else { Set::empty() },
    ));
}

proof fn lemma_no_stale(promoted: Seq<Seq<char>>, declared: Set<Seq<char>>)
    requires
        stale_of(promoted, declared).len() == 0,
    ensures
        forall|k: int| 0 <= k < promoted.len() ==> declared.contains(#[trigger] promoted[k]),
    decreases promoted.len(),
{
    if promoted.len() > 0 {
        lemma_no_stale(promoted.drop_last(), declared);
        assert forall|k: int| 0 <= k < promoted.len() implies declared.contains(#[trigger] promoted[k]) by {
            if k < promoted.len() - 1 {
                assert(promoted.drop_last()[k] == promoted[k]);
            }
        }
    }
}

/// A key the refusal names is one the chart promotes and no contract declares.
proof fn lemma_stale_undeclared(promoted: Seq<Seq<char>>, declared: Set<Seq<char>>, i: int)
    requires
        0 <= i < stale_of(promoted, declared).len(),
    ensures
        promoted.contains(stale_of(promoted, declared)[i]),
        !declared.contains(stale_of(promoted, declared)[i]),
    decreases promoted.len(),
{
    let x = stale_of(promoted, declared)[i];
    let rest = stale_of(promoted.drop_last(), declared);
    if declared.contains(promoted.last()) || i < rest.len() {
        assert(rest[i] == x);
        lemma_stale_undeclared(promoted.drop_last(), declared, i);
        let j = choose|j: int| 0 <= j < promoted.drop_last().len() && promoted.drop_last()[j] == x;
        assert(promoted[j] == x);
    } else {
        assert(x == promoted.last());
        assert(promoted[promoted.len() - 1] == x);
    }
}

/// The stale keys of an ascending list are ascending, and are exactly its keys no contract
/// declares.
proof fn lemma_stale_of(promoted: Seq<Seq<char>>, declared: Set<Seq<char>>)
    requires
        ascending(promoted),
    ensures
        ascending(stale_of(promoted, declared)),
        forall|x: Seq<char>| #[trigger] stale_of(promoted, declared).contains(x) == (promoted.contains(x) && !declared.contains(x)),
    decreases promoted.len(),
{
    if promoted.len() > 0 {
        let rest = promoted.drop_last();
        let last = promoted.last();
        assert(ascending(rest)) by {
            assert forall|i: int, j: int| 0 <= i < j < rest.len() implies crate::order::text_lt(#[trigger] rest[i], #[trigger] rest[j]) by {
                assert(rest[i] == promoted[i] && rest[j] == promoted[j]);
            }
        }
        lemma_stale_of(rest, declared);
        let before = stale_of(rest, declared);
        assert forall|x: Seq<char>| promoted.contains(x) == (rest.contains(x) || x == last) by {
            if promoted.contains(x) {
                let i = choose|i: int| 0 <= i < promoted.len() && promoted[i] == x;
                if i < promoted.len() - 1 {
                    assert(rest[i] == x);
                }
            }
            if rest.contains(x) {
                let i = choose|i: int| 0 <= i < rest.len() && rest[i] == x;
                assert(promoted[i] == x);
            }
            if x == last {
                assert(promoted[promoted.len() - 1] == x);
            }
        }
        if !declared.contains(last) {
            assert forall|x: Seq<char>| #[trigger] before.push(last).contains(x) == (before.contains(x) || x == last) by {
                if before.push(last).contains(x) {
                    let i = choose|i: int| 0 <= i < before.push(last).len() && before.push(last)[i] == x;
                    if i < before.len() {
                        assert(before[i] == x);
                    }
                }
                if before.contains(x) {
                    let i = choose|i: int| 0 <= i < before.len() && before[i] == x;
                    assert(before.push(last)[i] == x);
                }
                if x == last {
                    assert(before.push(last)[before.len() as int] == x);
                }
            }
            assert forall|i: int, j: int| 0 <= i < j < before.push(last).len() implies crate::order::text_lt(
                #[trigger] before.push(last)[i],
                #[trigger] before.push(last)[j],
            ) by {
                if j == before.len() {
                    assert(before.contains(before[i]));
                    assert(rest.contains(before[i]));
                    let q = choose|q: int| 0 <= q < rest.len() && rest[q] == before[i];
                    assert(promoted[q] == before[i]);
                    assert(promoted[promoted.len() - 1] == last);
                } else {
                    assert(before.push(last)[i] == before[i] && before.push(last)[j] == before[j]);
                }
            }
        }
    }
}

/// A refusal names each promoted key no contract declares once, in order: one message for each
/// distinct such key, and no other.
pub proof fn refusals_name_each_stale_key_once(problems: Seq<Seq<char>>, document: Document, cs: Seq<(String, ReloadContract)>)
    requires
        refuses(problems, document, cs),
    ensures
        exists|stale: Seq<Seq<char>>|
            ascending(stale) && held(stale) == overridden(document.restart@).filter(
                |k: Seq<char>| !declared_paths(flat(cs)).contains(k),
            ) && problems == stale.map_values(|p: Seq<char>| stale_message(p)),
{
    let declared = declared_paths(flat(cs));
    let promoted = choose|promoted: Seq<Seq<char>>|
        ascending(promoted) && held(promoted) == overridden(document.restart@) && {
            let stale = stale_of(promoted, declared);
            stale.len() > 0 && problems == stale.map_values(|p: Seq<char>| stale_message(p))
        };
    let stale = stale_of(promoted, declared);
    lemma_stale_of(promoted, declared);
    assert(held(stale) =~= overridden(document.restart@).filter(|k: Seq<char>| !declared.contains(k))) by {
        assert forall|x: Seq<char>| held(stale).contains(x) == overridden(document.restart@).filter(|k: Seq<char>| !declared.contains(k)).contains(x) by {
            assert(stale.contains(x) == (promoted.contains(x) && !declared.contains(x)));
            assert(held(promoted).contains(x) == promoted.contains(x));
        }
    }
}

/// One document's restart set, from the contracts of the images that read it.
///
/// Refused, with one message per key, when the declaration promotes a key none of the contracts
/// declares: an entry that has outlived the key it described would otherwise promise a rollout
/// for a setting nothing reads.
pub fn restart_set(document: &Document, contracts: &Vec<(String, ReloadContract)>) -> (r: Result<
    RestartSet,
    Vec<String>,
>)
    ensures
        match r {
            Ok(set) => is_restart_set(set, *document, contracts@) && overridden(
                document.restart@,
            ).subset_of(declared_paths(flat(contracts@))),
            Err(problems) => refuses(strs(problems@), *document, contracts@) && !overridden(
                document.restart@,
            ).subset_of(declared_paths(flat(contracts@))),
        },
{
    let ghost cs = contracts@;
    let promoted = promoted_keys(&document.restart);
    let ghost ps = strs(promoted@);
    let ghost declared = declared_paths(flat(cs));
    let mut problems: Vec<String> = Vec::new();
    let mut k: usize = 0;
    while k < promoted.len()
        invariant
            k <= promoted@.len(),
            ps == strs(promoted@),
            cs == contracts@,
            declared == declared_paths(flat(cs)),
            strs(problems@) == stale_of(ps.take(k as int), declared).map_values(
                |p: Seq<char>| stale_message(p),
            ),
        decreases promoted.len() - k,
    {
        assert(ps.take(k + 1).drop_last() =~= ps.take(k as int));
        assert(ps.take(k + 1).last() == promoted@[k as int]@);
        if !is_declared(contracts, &promoted[k]) {
            let mut message = chars_of("`restart` names `");
            push_all(&mut message, &chars(&promoted[k]));
            push_str(
                &mut message,
                "`, which no contract this document reads declares; drop the entry, or correct the path",
            );
            let ghost was = strs(problems@);
            problems.push(string_of(&message));
            assert(strs(problems@) == was.push(message@));
            assert(strs(problems@) =~= stale_of(ps.take(k + 1), declared).map_values(
                |p: Seq<char>| stale_message(p),
            ));
        }
        k = k + 1;
    }
    assert(ps.take(promoted@.len() as int) =~= ps);
    if problems.len() > 0 {
        assert(refuses(strs(problems@), *document, cs));
        proof {
            lemma_stale_undeclared(ps, declared, 0);
            let x = stale_of(ps, declared)[0];
            assert(held(ps).contains(x));
            assert(!declared.contains(x));
        }
        return Err(problems);
    }
    proof {
        lemma_no_stale(ps, declared);
        assert forall|x: Seq<char>| overridden(document.restart@).contains(x) implies declared.contains(x) by {
            assert(held(ps).contains(x));
            let q = choose|q: int| 0 <= q < ps.len() && ps[q] == x;
        }
    }
    let mut watch_document = true;
    let mut watch_secrets = true;
    let mut i: usize = 0;
    while i < contracts.len()
        invariant
            i <= cs.len(),
            cs == contracts@,
            watch_document == all_watch_document(cs.take(i as int)),
            watch_secrets == all_watch_secrets(cs.take(i as int)),
        decreases contracts.len() - i,
    {
        let c = &contracts[i].1;
        let ghost (t0, t1) = (cs.take(i as int), cs.take(i + 1));
        assert(t1 =~= t0.push(cs[i as int]));
        assert(all_watch_document(t1) == (all_watch_document(t0) && c.rebuilds && c.watches_document)) by {
            if all_watch_document(t0) && c.rebuilds && c.watches_document {
                assert forall|q: int| 0 <= q < t1.len() implies #[trigger] t1[q].1.rebuilds && t1[q].1.watches_document by {
                    if q < t0.len() {
                        assert(t1[q] == t0[q]);
                    }
                }
            }
            if all_watch_document(t1) {
                assert(t1[i as int].1.rebuilds);
                assert forall|q: int| 0 <= q < t0.len() implies #[trigger] t0[q].1.rebuilds && t0[q].1.watches_document by {
                    assert(t1[q] == t0[q]);
                    assert(t1[q].1.rebuilds);
                }
            }
        }
        assert(all_watch_secrets(t1) == (all_watch_secrets(t0) && c.rebuilds && c.watches_secrets_dir)) by {
            if all_watch_secrets(t0) && c.rebuilds && c.watches_secrets_dir {
                assert forall|q: int| 0 <= q < t1.len() implies #[trigger] t1[q].1.rebuilds && t1[q].1.watches_secrets_dir by {
                    if q < t0.len() {
                        assert(t1[q] == t0[q]);
                    }
                }
            }
            if all_watch_secrets(t1) {
                assert(t1[i as int].1.rebuilds);
                assert forall|q: int| 0 <= q < t0.len() implies #[trigger] t0[q].1.rebuilds && t0[q].1.watches_secrets_dir by {
                    assert(t1[q] == t0[q]);
                    assert(t1[q].1.rebuilds);
                }
            }
        }
        watch_document = watch_document && c.rebuilds && c.watches_document;
        watch_secrets = watch_secrets && c.rebuilds && c.watches_secrets_dir;
        i = i + 1;
    }
    assert(cs.take(cs.len() as int) =~= cs);
    let ghost pr = overridden(document.restart@);
    let mut paths: Vec<Vec<String>> = Vec::new();
    let mut files: Vec<String> = Vec::new();
    assert(lists_held(lists_of(paths@)) =~= Set::empty());
    assert(held(strs(files@)) =~= Set::empty());
    let mut i: usize = 0;
    while i < contracts.len()
        invariant
            i <= cs.len(),
            cs == contracts@,
            pr == overridden(document.restart@),
            held(strs(promoted@)) == pr,
            lists_ascending(lists_of(paths@)),
            ascending(strs(files@)),
            lists_held(lists_of(paths@)) == restart_paths(flat(cs.take(i as int)), pr),
            held(strs(files@)) == restart_files(flat(cs.take(i as int)), pr),
        decreases contracts.len() - i,
    {
        let keys = &contracts[i].1.keys;
        let ghost before = flat(cs.take(i as int));
        proof {
            lemma_flat_step(cs, i as int);
        }
        let mut j: usize = 0;
        assert(before + keys@.take(0) =~= before);
        while j < keys.len()
            invariant
                j <= keys@.len(),
                i < cs.len(),
                *keys == cs[i as int].1.keys,
                pr == overridden(document.restart@),
                held(strs(promoted@)) == pr,
                lists_ascending(lists_of(paths@)),
                ascending(strs(files@)),
                lists_held(lists_of(paths@)) == restart_paths(before + keys@.take(j as int), pr),
                held(strs(files@)) == restart_files(before + keys@.take(j as int), pr),
            decreases keys.len() - j,
        {
            let key = &keys[j];
            proof {
                lemma_restart_step(before + keys@.take(j as int), *key, pr);
                assert(before + keys@.take(j + 1) =~= (before + keys@.take(j as int)).push(*key));
            }
            let hit = !key.reserved && (key.restart_class || listed(&promoted, &key.path));
            assert(hit == restarts(*key, pr));
            if hit {
                add_key_paths(&mut paths, key);
                add_key_files(&mut files, key);
            } else {
                assert(lists_held(lists_of(paths@)) =~= lists_held(lists_of(paths@)).union(Set::empty()));
                assert(held(strs(files@)) =~= held(strs(files@)).union(Set::empty()));
            }
            j = j + 1;
        }
        assert(keys@.take(keys@.len() as int) =~= keys@);
        i = i + 1;
    }
    assert(cs.take(cs.len() as int) =~= cs);
    let document_all = !watch_document;
    let secrets_all = !watch_secrets;
    if document_all {
        paths = Vec::new();
        assert(lists_held(lists_of(paths@)) =~= Set::empty());
    }
    if secrets_all {
        files = Vec::new();
        assert(held(strs(files@)) =~= Set::empty());
    }
    Ok(RestartSet { document: document.name.clone(), document_all, paths, secrets_all, files })
}

// ------------------------------------------------------------------------------------------------
// The file
// ------------------------------------------------------------------------------------------------

/// One character as the template engine may read it: braces written as their JSON escapes.
pub open spec fn inert_char(c: char) -> Seq<char> {
    if c == '{' {
        "\\u007b"@
    } else if c == '}' {
        "\\u007d"@
    } else {
        seq![c]
    }
}

/// A YAML double-quoted string that is also inert to the template engine.
pub open spec fn quoted_spec(text: Seq<char>) -> Seq<char> {
    json_string(text).map_values(|c: char| inert_char(c)).flatten()
}

/// A YAML double-quoted string that is also inert to the template engine.
///
/// JSON escaping is valid YAML double-quoted escaping, and braces are escaped on top of it: a key
/// path is whatever a producer published, and `{{` in one would open a template action.
pub fn quoted(text: &str) -> (s: String)
    ensures
        s@ == quoted_spec(text@),
{
    let json = chars_of(to_json_string(text).as_str());
    let ghost js = json@;
    let mut out: Vec<char> = Vec::new();
    let mut k: usize = 0;
    while k < json.len()
        invariant
            k <= json@.len(),
            js == json@,
            out@ == js.take(k as int).map_values(|c: char| inert_char(c)).flatten(),
        decreases json.len() - k,
    {
        let c = json[k];
        proof {
            assert(js.take(k + 1) =~= js.take(k as int).push(c));
            assert(js.take(k + 1).map_values(|c: char| inert_char(c)) =~= js.take(k as int).map_values(
                |c: char| inert_char(c),
            ).push(inert_char(c)));
            js.take(k as int).map_values(|c: char| inert_char(c)).lemma_flatten_push(inert_char(c));
        }
        if c == '{' {
            push_str(&mut out, "\\u007b");
        } else if c == '}' {
            push_str(&mut out, "\\u007d");
        } else {
            out.push(c);
            assert(seq![c] =~= inert_char(c));
        }
        k = k + 1;
    }
    assert(js.take(json@.len() as int) =~= js);
    string_of(&out)
}

/// `true` or `false`, as YAML writes a boolean.
pub open spec fn yes(b: bool) -> Seq<char> {
    if b {
        "true"@
    } else {
        "false"@
    }
}

/// One YAML list under a two-space indent, in flow form when it is empty.
pub open spec fn items_block(name: Seq<char>, items: Seq<Seq<char>>) -> Seq<char> {
    if items.len() == 0 {
        "  "@ + name + ": []\n"@
    } else {
        "  "@ + name + ":\n"@ + items.map_values(|item: Seq<char>| "    - "@ + item + "\n"@).flatten()
    }
}

/// One key path as a YAML flow list of its quoted segments.
pub open spec fn path_item(segments: Seq<Seq<char>>) -> Seq<char> {
    "["@ + crate::text::join_spec(segments.map_values(|s: Seq<char>| quoted_spec(s)), ", "@) + "]"@
}

/// The define for one document.
pub open spec fn section(chart: Seq<char>, set: RestartSet) -> Seq<char> {
    "\n{{- define "@ + quoted_spec(chart + ".terrace.reload."@ + set.document@) + " -}}\ndocument:\n"@
        + "  all: "@ + yes(set.document_all) + "\n"@ + items_block(
        "paths"@,
        lists_of(set.paths@).map_values(|p: Seq<Seq<char>>| path_item(p)),
    ) + "secrets:\n  all: "@ + yes(set.secrets_all) + "\n"@ + items_block(
        "files"@,
        strs(set.files@).map_values(|f: Seq<char>| quoted_spec(f)),
    ) + "{{- end -}}\n"@
}

/// The define for a document opens with its document half, whose `all` is whether the whole
/// document is restart content, and ends with its secrets half: `all` there is whether every
/// secret is restart content, whatever the document half says, then the files. Two sets that
/// differ only in the document half's `all` render differently.
pub proof fn the_secrets_half_follows_secrets_all(chart: Seq<char>, set: RestartSet)
    ensures
        ({
            let s = section(chart, set);
            let tail = "secrets:\n  all: "@ + yes(set.secrets_all) + "\n"@ + items_block(
                "files"@,
                strs(set.files@).map_values(|f: Seq<char>| quoted_spec(f)),
            ) + "{{- end -}}\n"@;
            let head = "\n{{- define "@ + quoted_spec(chart + ".terrace.reload."@ + set.document@) + " -}}\ndocument:\n"@
                + "  all: "@ + yes(set.document_all) + "\n"@;
            &&& s.len() >= tail.len()
            &&& s.skip(s.len() - tail.len()) == tail
            &&& s.take(head.len() as int) == head
        }),
        forall|other: RestartSet|
            other.secrets_all == set.secrets_all && other.files@ == set.files@ && other.document@ == set.document@
                && other.paths@ == set.paths@ ==> (#[trigger] section(chart, other) == section(chart, set)
                <==> other.document_all == set.document_all),
{
    let s = section(chart, set);
    let tail = "secrets:\n  all: "@ + yes(set.secrets_all) + "\n"@ + items_block(
        "files"@,
        strs(set.files@).map_values(|f: Seq<char>| quoted_spec(f)),
    ) + "{{- end -}}\n"@;
    let head = "\n{{- define "@ + quoted_spec(chart + ".terrace.reload."@ + set.document@) + " -}}\ndocument:\n"@
        + "  all: "@ + yes(set.document_all) + "\n"@ + items_block(
        "paths"@,
        lists_of(set.paths@).map_values(|p: Seq<Seq<char>>| path_item(p)),
    );
    assert(s =~= head + tail);
    assert(s.skip(s.len() - tail.len()) =~= tail);
    let opening = "\n{{- define "@ + quoted_spec(chart + ".terrace.reload."@ + set.document@) + " -}}\ndocument:\n"@
        + "  all: "@ + yes(set.document_all) + "\n"@;
    assert(head =~= opening + items_block(
        "paths"@,
        lists_of(set.paths@).map_values(|p: Seq<Seq<char>>| path_item(p)),
    ));
    assert(s.take(opening.len() as int) =~= opening);
    assert forall|other: RestartSet|
        other.secrets_all == set.secrets_all && other.files@ == set.files@ && other.document@ == set.document@
            && other.paths@ == set.paths@ implies (#[trigger] section(chart, other) == section(chart, set)
            <==> other.document_all == set.document_all) by {
        if other.document_all != set.document_all {
            reveal_strlit("true");
            reveal_strlit("false");
            let pre = "\n{{- define "@ + quoted_spec(chart + ".terrace.reload."@ + set.document@) + " -}}\ndocument:\n"@
                + "  all: "@;
            let k = pre.len() as int;
            assert(section(chart, other)[k] != section(chart, set)[k]);
        }
    }
}

/// The names of the documents `order` picks.
pub open spec fn picked_names(sets: Seq<RestartSet>, order: Seq<int>) -> Set<Seq<char>> {
    Set::new(|n: Seq<char>| exists|k: int| 0 <= k < order.len() && #[trigger] sets[order[k]].document@ == n)
}

/// The names of the first `i` documents.
pub open spec fn names_below(sets: Seq<RestartSet>, i: int) -> Set<Seq<char>> {
    Set::new(|n: Seq<char>| exists|j: int| 0 <= j < i && #[trigger] sets[j].document@ == n)
}

/// Whether `order` picks, among the first `i` sets, the last one of each name, by name.
pub open spec fn picks(sets: Seq<RestartSet>, order: Seq<int>, i: int) -> bool {
    &&& forall|k: int| 0 <= k < order.len() ==> 0 <= #[trigger] order[k] < i
    &&& forall|k: int, q: int|
        0 <= k < q < order.len() ==> crate::order::text_lt(
            #[trigger] sets[order[k]].document@,
            #[trigger] sets[order[q]].document@,
        )
    &&& forall|k: int, j: int|
        0 <= k < order.len() && order[k] < j < i ==> #[trigger] sets[j].document@ != #[trigger] sets[order[k]].document@
    &&& picked_names(sets, order) == names_below(sets, i)
}

/// The whole file for one chart: the header, then one define per document name, in name order,
/// for the last set of each name.
pub open spec fn rendered(chart: Seq<char>, sets: Seq<RestartSet>, order: Seq<int>) -> Seq<char> {
    HEADER@ + order.map_values(|i: int| section(chart, sets[i])).flatten()
}

/// Append one YAML list.
fn push_items(out: &mut Vec<char>, name: &str, items: &Vec<Vec<char>>)
    ensures
        final(out)@ == old(out)@ + items_block(name@, views(items@)),
{
    push_str(out, "  ");
    push_str(out, name);
    if items.len() == 0 {
        push_str(out, ": []\n");
        return;
    }
    push_str(out, ":\n");
    let ghost start = out@;
    let ghost vs = views(items@);
    let mut k: usize = 0;
    while k < items.len()
        invariant
            k <= items@.len(),
            vs == views(items@),
            out@ == start + vs.take(k as int).map_values(|item: Seq<char>| "    - "@ + item + "\n"@).flatten(),
        decreases items.len() - k,
    {
        proof {
            assert(vs.take(k + 1).map_values(|item: Seq<char>| "    - "@ + item + "\n"@) =~= vs.take(k as int).map_values(
                |item: Seq<char>| "    - "@ + item + "\n"@,
            ).push("    - "@ + vs[k as int] + "\n"@));
            vs.take(k as int).map_values(|item: Seq<char>| "    - "@ + item + "\n"@).lemma_flatten_push("    - "@ + vs[k as int] + "\n"@);
        }
        push_str(out, "    - ");
        push_all(out, &items[k]);
        push_str(out, "\n");
        k = k + 1;
    }
    assert(vs.take(items@.len() as int) =~= vs);
}

/// One key path as a YAML flow list of its quoted segments.
fn path_text(segments: &Vec<String>) -> (v: Vec<char>)
    ensures
        v@ == path_item(strs(segments@)),
{
    let mut parts: Vec<Vec<char>> = Vec::new();
    let mut k: usize = 0;
    while k < segments.len()
        invariant
            k <= segments@.len(),
            views(parts@) == strs(segments@).take(k as int).map_values(|s: Seq<char>| quoted_spec(s)),
        decreases segments.len() - k,
    {
        let q = quoted(segments[k].as_str());
        let ghost was = views(parts@);
        parts.push(chars(&q));
        assert(views(parts@) == was.push(q@));
        assert(strs(segments@).take(k + 1).map_values(|s: Seq<char>| quoted_spec(s)) =~= strs(segments@).take(
            k as int,
        ).map_values(|s: Seq<char>| quoted_spec(s)).push(quoted_spec(segments@[k as int]@)));
        k = k + 1;
    }
    assert(strs(segments@).take(segments@.len() as int) =~= strs(segments@));
    let mut out = chars_of("[");
    let sep = chars_of(", ");
    let joined = crate::text::join(&parts, &sep);
    push_all(&mut out, &joined);
    push_str(&mut out, "]");
    out
}

/// The define for one document.
#[verifier::spinoff_prover]
#[verifier::rlimit(40)]
fn push_section(out: &mut Vec<char>, chart: &str, set: &RestartSet)
    ensures
        final(out)@ == old(out)@ + section(chart@, *set),
{
    let mut name = chars_of(chart);
    push_str(&mut name, ".terrace.reload.");
    push_all(&mut name, &chars(&set.document));
    let q = quoted(string_of(&name).as_str());
    push_str(out, "\n{{- define ");
    push_all(out, &chars(&q));
    push_str(out, " -}}\ndocument:\n");
    push_str(out, "  all: ");
    push_str(out, if set.document_all { "true" } else { "false" });
    push_str(out, "\n");
    let mut paths: Vec<Vec<char>> = Vec::new();
    let mut k: usize = 0;
    while k < set.paths.len()
        invariant
            k <= set.paths@.len(),
            views(paths@) == lists_of(set.paths@).take(k as int).map_values(|p: Seq<Seq<char>>| path_item(p)),
        decreases set.paths.len() - k,
    {
        let item = path_text(&set.paths[k]);
        let ghost was = views(paths@);
        paths.push(item);
        assert(views(paths@) == was.push(item@));
        assert(lists_of(set.paths@).take(k + 1).map_values(|p: Seq<Seq<char>>| path_item(p)) =~= lists_of(
            set.paths@,
        ).take(k as int).map_values(|p: Seq<Seq<char>>| path_item(p)).push(path_item(strs(set.paths@[k as int]@))));
        k = k + 1;
    }
    assert(lists_of(set.paths@).take(set.paths@.len() as int) =~= lists_of(set.paths@));
    push_items(out, "paths", &paths);
    push_str(out, "secrets:\n  all: ");
    push_str(out, if set.secrets_all { "true" } else { "false" });
    push_str(out, "\n");
    let mut files: Vec<Vec<char>> = Vec::new();
    let mut k: usize = 0;
    while k < set.files.len()
        invariant
            k <= set.files@.len(),
            views(files@) == strs(set.files@).take(k as int).map_values(|f: Seq<char>| quoted_spec(f)),
        decreases set.files.len() - k,
    {
        let q = quoted(set.files[k].as_str());
        let ghost was = views(files@);
        files.push(chars(&q));
        assert(views(files@) == was.push(q@));
        assert(strs(set.files@).take(k + 1).map_values(|f: Seq<char>| quoted_spec(f)) =~= strs(set.files@).take(
            k as int,
        ).map_values(|f: Seq<char>| quoted_spec(f)).push(quoted_spec(set.files@[k as int]@)));
        k = k + 1;
    }
    assert(strs(set.files@).take(set.files@.len() as int) =~= strs(set.files@));
    push_items(out, "files", &files);
    push_str(out, "{{- end -}}\n");
    assert(out@ =~= old(out)@ + section(chart@, *set));
}

/// The whole file for one chart.
///
/// One define per document name, in name order; where two sets name one document, the later one
/// is the one written.
pub fn render(chart: &str, sets: &Vec<RestartSet>) -> (s: String)
    ensures
        exists|order: Seq<int>| picks(sets@, order, sets@.len() as int) && s@ == rendered(chart@, sets@, order),
{
    let ghost ss = sets@;
    let mut chosen: Vec<usize> = Vec::new();
    let mut i: usize = 0;
    assert(chosen@.map_values(|x: usize| x as int) =~= Seq::<int>::empty());
    assert(picked_names(ss, seq![]) =~= names_below(ss, 0));
    while i < sets.len()
        invariant
            i <= ss.len(),
            ss == sets@,
            picks(ss, chosen@.map_values(|x: usize| x as int), i as int),
        decreases sets.len() - i,
    {
        let ghost order = chosen@.map_values(|x: usize| x as int);
        assert forall|k: int| 0 <= k < chosen@.len() implies (#[trigger] chosen@[k] as int) < i by {
            assert(order[k] == chosen@[k] as int);
        }
        let name = &sets[i].document;
        let mut at: usize = 0;
        while at < chosen.len() && crate::order::less(sets[chosen[at]].document.as_str(), name.as_str())
            invariant
                at <= chosen@.len(),
                ss == sets@,
                i < ss.len(),
                order == chosen@.map_values(|x: usize| x as int),
                picks(ss, order, i as int),
                forall|k: int| 0 <= k < chosen@.len() ==> (#[trigger] chosen@[k] as int) < i,
                *name == ss[i as int].document,
                forall|k: int| 0 <= k < at ==> crate::order::text_lt(#[trigger] ss[order[k]].document@, name@),
            decreases chosen.len() - at,
        {
            at = at + 1;
        }
        let same = at < chosen.len() && sets[chosen[at]].document == *name;
        let ghost next_i = i + 1;
        if same {
            chosen.remove(at);
            chosen.insert(at, i);
            proof {
                let next = chosen@.map_values(|x: usize| x as int);
                assert(next =~= order.update(at as int, i as int));
                assert forall|k: int, q: int| 0 <= k < q < next.len() implies crate::order::text_lt(
                    #[trigger] ss[next[k]].document@,
                    #[trigger] ss[next[q]].document@,
                ) by {
                    assert(ss[next[at as int]].document@ == ss[order[at as int]].document@);
                }
                assert forall|k: int, j: int|
                    0 <= k < next.len() && next[k] < j < i + 1 implies #[trigger] ss[j].document@ != #[trigger] ss[next[k]].document@ by {
                    if k != at {
                        if j == i {
                            crate::order::lemma_lt_total(ss[order[k]].document@, ss[order[at as int]].document@);
                            crate::order::lemma_lt_irreflexive(ss[order[k]].document@);
                        }
                    }
                }
                assert(picked_names(ss, next) =~= names_below(ss, i + 1)) by {
                    assert forall|n: Seq<char>| #[trigger] picked_names(ss, next).contains(n) implies names_below(ss, i + 1).contains(n) by {
                        let k = choose|k: int| 0 <= k < next.len() && #[trigger] ss[next[k]].document@ == n;
                        assert(0 <= next[k] < i + 1);
                    }
                    assert forall|n: Seq<char>| #[trigger] names_below(ss, i + 1).contains(n) implies picked_names(ss, next).contains(n) by {
                        let j = choose|j: int| 0 <= j < i + 1 && #[trigger] ss[j].document@ == n;
                        if j == i {
                            assert(ss[next[at as int]].document@ == n);
                        } else {
                            assert(names_below(ss, i as int).contains(n));
                            assert(picked_names(ss, order).contains(n));
                            let k = choose|k: int| 0 <= k < order.len() && #[trigger] ss[order[k]].document@ == n;
                            if k == at {
                                assert(ss[next[at as int]].document@ == n);
                            } else {
                                assert(ss[next[k]].document@ == n);
                            }
                        }
                    }
                }
            }
        } else {
            proof {
                if at < order.len() {
                    crate::order::lemma_lt_total(ss[order[at as int]].document@, name@);
                }
                assert forall|q: int| at <= q < order.len() implies crate::order::text_lt(
                    name@,
                    #[trigger] ss[order[q]].document@,
                ) by {
                    if q > at {
                        crate::order::lemma_lt_transitive(name@, ss[order[at as int]].document@, ss[order[q]].document@);
                    }
                }
            }
            chosen.insert(at, i);
            proof {
                let next = chosen@.map_values(|x: usize| x as int);
                assert(next =~= order.insert(at as int, i as int));
                assert forall|k: int, q: int| 0 <= k < q < next.len() implies crate::order::text_lt(
                    #[trigger] ss[next[k]].document@,
                    #[trigger] ss[next[q]].document@,
                ) by {
                    if q < at {
                        assert(next[k] == order[k] && next[q] == order[q]);
                    } else if q == at {
                        assert(next[k] == order[k]);
                    } else if k < at {
                        assert(next[k] == order[k] && next[q] == order[q - 1]);
                        crate::order::lemma_lt_transitive(ss[order[k]].document@, name@, ss[order[q - 1]].document@);
                    } else if k == at {
                        assert(next[q] == order[q - 1]);
                    } else {
                        assert(next[k] == order[k - 1] && next[q] == order[q - 1]);
                    }
                }
                assert forall|k: int, j: int|
                    0 <= k < next.len() && next[k] < j < i + 1 implies #[trigger] ss[j].document@ != #[trigger] ss[next[k]].document@ by {
                    if k != at && j == i {
                        let o = if k < at { k } else { k - 1 };
                        assert(next[k] == order[o]);
                        crate::order::lemma_lt_irreflexive(name@);
                        if o < at {
                            assert(crate::order::text_lt(ss[order[o]].document@, name@));
                        } else {
                            assert(crate::order::text_lt(name@, ss[order[o]].document@));
                        }
                    } else if k != at {
                        let o = if k < at { k } else { k - 1 };
                        assert(next[k] == order[o]);
                    }
                }
                assert(picked_names(ss, next) =~= names_below(ss, i + 1)) by {
                    assert forall|n: Seq<char>| #[trigger] picked_names(ss, next).contains(n) implies names_below(ss, i + 1).contains(n) by {
                        let k = choose|k: int| 0 <= k < next.len() && #[trigger] ss[next[k]].document@ == n;
                        assert(0 <= next[k] < i + 1);
                    }
                    assert forall|n: Seq<char>| #[trigger] names_below(ss, i + 1).contains(n) implies picked_names(ss, next).contains(n) by {
                        let j = choose|j: int| 0 <= j < i + 1 && #[trigger] ss[j].document@ == n;
                        if j == i {
                            assert(ss[next[at as int]].document@ == n);
                        } else {
                            assert(names_below(ss, i as int).contains(n));
                            assert(picked_names(ss, order).contains(n));
                            let k = choose|k: int| 0 <= k < order.len() && #[trigger] ss[order[k]].document@ == n;
                            if k < at {
                                assert(ss[next[k]].document@ == n);
                            } else {
                                assert(ss[next[k + 1]].document@ == n);
                            }
                        }
                    }
                }
            }
        }
        i = i + 1;
    }
    let ghost order = chosen@.map_values(|x: usize| x as int);
    let mut out = chars_of(HEADER);
    let mut k: usize = 0;
    while k < chosen.len()
        invariant
            k <= chosen@.len(),
            ss == sets@,
            order == chosen@.map_values(|x: usize| x as int),
            picks(ss, order, ss.len() as int),
            forall|q: int| 0 <= q < order.len() ==> 0 <= #[trigger] order[q] < ss.len(),
            out@ == HEADER@ + order.take(k as int).map_values(|i: int| section(chart@, ss[i])).flatten(),
        decreases chosen.len() - k,
    {
        proof {
            assert(order.take(k + 1).map_values(|i: int| section(chart@, ss[i])) =~= order.take(k as int).map_values(
                |i: int| section(chart@, ss[i]),
            ).push(section(chart@, ss[order[k as int]])));
            order.take(k as int).map_values(|i: int| section(chart@, ss[i])).lemma_flatten_push(section(chart@, ss[order[k as int]]));
        }
        push_section(&mut out, chart, &sets[chosen[k]]);
        k = k + 1;
    }
    assert(order.take(order.len() as int) =~= order);
    let s = string_of(&out);
    assert(picks(sets@, order, sets@.len() as int) && s@ == rendered(chart@, sets@, order));
    s
}

// ------------------------------------------------------------------------------------------------
// One pass over the charts
// ------------------------------------------------------------------------------------------------

/// What one chart brings to a pass: where its file goes, the file as it stands, and each declared
/// document with the contracts of the images that read it.
pub struct ChartReload {
    /// The chart's name.
    pub chart: String,
    /// Where the generated file goes, for a message.
    pub target_path: String,
    /// The file as it stands; `None` when the chart carries none.
    pub existing: Option<String>,
    /// Every declared document, with the contracts that read it.
    pub documents: Vec<(Document, Vec<(String, ReloadContract)>)>,
}

/// Whether any contract of the first `n` documents rebuilds in place.
pub open spec fn any_rebuilds(documents: Seq<(Document, Vec<(String, ReloadContract)>)>, n: int) -> bool {
    exists|d: int, c: int|
        0 <= d < n && 0 <= c < documents[d].1@.len() && #[trigger] documents[d].1@[c].1.rebuilds
}

/// Whether the chart promotes, in `document`, a key none of the contracts declares.
pub open spec fn refused(document: Document, cs: Seq<(String, ReloadContract)>) -> bool {
    !overridden(document.restart@).subset_of(declared_paths(flat(cs)))
}

/// Whether document `d` is the first of the chart's documents whose restart set is refused.
pub open spec fn first_refused(c: ChartReload, d: int) -> bool {
    &&& 0 <= d < c.documents@.len()
    &&& refused(c.documents@[d].0, c.documents@[d].1@)
    &&& forall|e: int| 0 <= e < d ==> !#[trigger] refused(c.documents@[e].0, c.documents@[e].1@)
}

/// Whether any of the chart's documents has its restart set refused.
pub open spec fn any_refused(c: ChartReload) -> bool {
    exists|d: int| 0 <= d < c.documents@.len() && #[trigger] refused(c.documents@[d].0, c.documents@[d].1@)
}

/// The refusals of the first document whose restart set is refused, each named by chart and
/// document.
pub open spec fn first_refusal(c: ChartReload, problems: Seq<Seq<char>>) -> bool {
    exists|d: int, refusals: Seq<Seq<char>>|
        first_refused(c, d) && refuses(refusals, c.documents@[d].0, c.documents@[d].1@)
            && problems == refusals.map_values(
            |p: Seq<char>| c.chart@ + ": "@ + c.documents@[d].0.name@ + ": "@ + p,
        )
}

/// Whether `sets` holds the restart set of each of the chart's documents, in their order.
pub open spec fn sets_of(c: ChartReload, sets: Seq<RestartSet>) -> bool {
    &&& sets.len() == c.documents@.len()
    &&& forall|d: int|
        0 <= d < sets.len() ==> is_restart_set(#[trigger] sets[d], c.documents@[d].0, c.documents@[d].1@)
}

/// The file as the chart carries it, or nothing.
pub open spec fn current_text(c: ChartReload) -> Seq<char> {
    match c.existing {
        Some(t) => t@,
        None => seq![],
    }
}

/// What a check says of a chart whose file is not `text`.
pub open spec fn stale_file(c: ChartReload, text: Seq<char>) -> Seq<char> {
    if c.existing is Some {
        c.target_path@ + ": the restart sets are not what the contracts describe; regenerate them\n"@
            + crate::readme::difference_spec(current_text(c), text, c.target_path@)
    } else {
        c.target_path@
            + ": an image this chart pins applies changes without restarting, and the chart carries no restart sets to roll its pods by; generate them"@
    }
}

/// The pass over one chart whose every document has a restart set and whose file should read
/// `text`: nothing where the chart is left alone or the file already reads so, else the one
/// complaint of a check, else the text to write.
pub open spec fn settled(
    c: ChartReload,
    check: bool,
    text: Seq<char>,
    problems: Seq<Seq<char>>,
    write: Option<Seq<char>>,
) -> bool {
    if (!any_rebuilds(c.documents@, c.documents@.len() as int) && c.existing is None)
        || current_text(c) == text {
        problems == Seq::<Seq<char>>::empty() && write is None
    } else if check {
        problems == seq![stale_file(c, text)] && write is None
    } else {
        problems == Seq::<Seq<char>>::empty() && write == Some(text)
    }
}

/// A text that may be absent, by its view.
pub open spec fn text_view(t: Option<String>) -> Option<Seq<char>> {
    match t {
        Some(t) => Some(t@),
        None => None,
    }
}

/// What one pass over a chart comes to: the refusals of its first refused document, or, where
/// every document has a restart set, what the file those sets render to asks for.
pub open spec fn chart_pass(
    c: ChartReload,
    check: bool,
    problems: Seq<Seq<char>>,
    write: Option<Seq<char>>,
) -> bool {
    &&& any_refused(c) ==> write is None && first_refusal(c, problems)
    &&& !any_refused(c) ==> exists|sets: Seq<RestartSet>, order: Seq<int>|
        sets_of(c, sets) && picks(sets, order, sets.len() as int) && settled(
            c,
            check,
            rendered(c.chart@, sets, order),
            problems,
            write,
        )
}

/// Write, or compare, one chart's restart sets: the problems found, and the text to write.
///
/// A chart none of whose images rebuilds, and which carries no file, is left alone: it rolls on
/// its full configuration as it always has. A chart that carries the file keeps it current
/// whatever its images declare.
pub fn one_chart(c: &ChartReload, check: bool) -> (r: (Vec<String>, Option<String>))
    ensures
        chart_pass(*c, check, strs(r.0@), text_view(r.1)),
{
    let mut sets: Vec<RestartSet> = Vec::new();
    let mut rebuilding = false;
    let mut d: usize = 0;
    while d < c.documents.len()
        invariant
            d <= c.documents@.len(),
            sets@.len() == d,
            forall|q: int| 0 <= q < d ==> is_restart_set(#[trigger] sets@[q], c.documents@[q].0, c.documents@[q].1@),
            rebuilding == any_rebuilds(c.documents@, d as int),
            forall|q: int| 0 <= q < d ==> !#[trigger] refused(c.documents@[q].0, c.documents@[q].1@),
        decreases c.documents.len() - d,
    {
        let (document, contracts) = &c.documents[d];
        let mut k: usize = 0;
        let mut here = false;
        while k < contracts.len()
            invariant
                k <= contracts@.len(),
                here == exists|q: int| 0 <= q < k && #[trigger] contracts@[q].1.rebuilds,
            decreases contracts.len() - k,
        {
            if contracts[k].1.rebuilds {
                here = true;
            }
            k = k + 1;
        }
        proof {
            if here {
                let q = choose|q: int| 0 <= q < contracts@.len() && #[trigger] contracts@[q].1.rebuilds;
                assert(c.documents@[d as int].1@[q].1.rebuilds);
            }
            if any_rebuilds(c.documents@, d + 1) && !any_rebuilds(c.documents@, d as int) {
                let (x, y) = choose|x: int, y: int| 0 <= x < d + 1 && 0 <= y < c.documents@[x].1@.len() && #[trigger] c.documents@[x].1@[y].1.rebuilds;
                assert(x == d);
                assert(contracts@[y].1.rebuilds);
            }
            if any_rebuilds(c.documents@, d as int) {
                let (x, y) = choose|x: int, y: int| 0 <= x < d && 0 <= y < c.documents@[x].1@.len() && #[trigger] c.documents@[x].1@[y].1.rebuilds;
                assert(c.documents@[x].1@[y].1.rebuilds);
            }
        }
        rebuilding = rebuilding || here;
        match restart_set(document, contracts) {
            Ok(set) => {
                sets.push(set);
                assert(!refused(c.documents@[d as int].0, c.documents@[d as int].1@));
            },
            Err(refusals) => {
                let mut problems: Vec<String> = Vec::new();
                let mut k: usize = 0;
                while k < refusals.len()
                    invariant
                        k <= refusals@.len(),
                        d < c.documents@.len(),
                        *document == c.documents@[d as int].0,
                        strs(problems@) == strs(refusals@).take(k as int).map_values(
                            |p: Seq<char>| c.chart@ + ": "@ + c.documents@[d as int].0.name@ + ": "@ + p,
                        ),
                    decreases refusals.len() - k,
                {
                    let mut m = chars(&c.chart);
                    push_str(&mut m, ": ");
                    push_all(&mut m, &chars(&document.name));
                    push_str(&mut m, ": ");
                    push_all(&mut m, &chars(&refusals[k]));
                    let ghost was = strs(problems@);
                    problems.push(string_of(&m));
                    assert(strs(problems@) == was.push(m@));
                    assert(strs(refusals@).take(k + 1).map_values(
                        |p: Seq<char>| c.chart@ + ": "@ + c.documents@[d as int].0.name@ + ": "@ + p,
                    ) =~= strs(refusals@).take(k as int).map_values(
                        |p: Seq<char>| c.chart@ + ": "@ + c.documents@[d as int].0.name@ + ": "@ + p,
                    ).push(c.chart@ + ": "@ + c.documents@[d as int].0.name@ + ": "@ + refusals@[k as int]@));
                    k = k + 1;
                }
                assert(strs(refusals@).take(refusals@.len() as int) =~= strs(refusals@));
                assert(first_refused(*c, d as int));
                assert(first_refusal(*c, strs(problems@))) by {
                    assert(refuses(strs(refusals@), c.documents@[d as int].0, c.documents@[d as int].1@));
                }
                return (problems, None);
            },
        }
        d = d + 1;
    }
    assert(!any_refused(*c));
    assert(sets_of(*c, sets@));
    let text = render(c.chart.as_str(), &sets);
    let ghost order = choose|order: Seq<int>|
        picks(sets@, order, sets@.len() as int) && text@ == rendered(c.chart@, sets@, order);
    let exists = c.existing.is_some();
    if !rebuilding && !exists {
        let none: Vec<String> = Vec::new();
        assert(strs(none@) =~= Seq::<Seq<char>>::empty());
        assert(settled(*c, check, text@, strs(none@), None));
        return (none, None);
    }
    let current = match &c.existing {
        Some(held) => held.clone(),
        None => String::new(),
    };
    assert(current@ == current_text(*c));
    if current == text {
        let none: Vec<String> = Vec::new();
        assert(strs(none@) =~= Seq::<Seq<char>>::empty());
        assert(settled(*c, check, text@, strs(none@), None));
        return (none, None);
    }
    if check {
        let mut problems: Vec<String> = Vec::new();
        if exists {
            let mut m = chars(&c.target_path);
            push_str(&mut m, ": the restart sets are not what the contracts describe; regenerate them\n");
            let diff = crate::readme::difference(current.as_str(), text.as_str(), c.target_path.as_str());
            push_all(&mut m, &chars(&diff));
            problems.push(string_of(&m));
        } else {
            let mut m = chars(&c.target_path);
            push_str(&mut m, ": an image this chart pins applies changes without restarting, and the chart carries no restart sets to roll its pods by; generate them");
            problems.push(string_of(&m));
        }
        assert(strs(problems@) =~= seq![stale_file(*c, text@)]);
        assert(settled(*c, check, text@, strs(problems@), None));
        return (problems, None);
    }
    let none: Vec<String> = Vec::new();
    assert(strs(none@) =~= Seq::<Seq<char>>::empty());
    assert(settled(*c, check, text@, strs(none@), Some(text@)));
    (none, Some(text))
}

/// Write, or compare, every contracted chart's restart sets: the problems found, and the files to
/// write with the text each is to hold.
pub fn walk(charts: &Vec<ChartReload>, check: bool) -> (r: (Written, Vec<(String, String)>))
    ensures
        r.0.touched == r.1@.len(),
        check ==> r.1@.len() == 0,
        exists|passes: Passes|
            passes.len() == charts@.len() && (forall|k: int|
                0 <= k < passes.len() ==> #[trigger] chart_pass(charts@[k], check, passes[k].0, passes[k].1))
                && strs(r.0.problems@) == all_problems(passes) && pairs(r.1@) == all_writes(
                charts@.map_values(|c: ChartReload| c.target_path@),
                passes,
            ),
{
    let ghost paths = charts@.map_values(|c: ChartReload| c.target_path@);
    let mut written = Written { problems: Vec::new(), touched: 0 };
    let mut writes: Vec<(String, String)> = Vec::new();
    let ghost mut passes: Passes = seq![];
    assert(strs(written.problems@) =~= all_problems(passes));
    assert(pairs(writes@) =~= all_writes(paths, passes));
    let mut k: usize = 0;
    while k < charts.len()
        invariant
            k <= charts@.len(),
            paths == charts@.map_values(|c: ChartReload| c.target_path@),
            written.touched == writes@.len(),
            written.touched <= k,
            check ==> writes@.len() == 0,
            passes.len() == k,
            forall|q: int| 0 <= q < k ==> #[trigger] chart_pass(charts@[q], check, passes[q].0, passes[q].1),
            strs(written.problems@) == all_problems(passes),
            pairs(writes@) == all_writes(paths, passes),
        decreases charts.len() - k,
    {
        let (mut problems, write) = one_chart(&charts[k], check);
        let ghost was = passes;
        let ghost before = written.problems@;
        proof {
            passes = passes.push((strs(problems@), text_view(write)));
            assert(passes.drop_last() =~= was);
        }
        let ghost added = problems@;
        written.problems.append(&mut problems);
        assert(strs(written.problems@) =~= strs(before) + strs(added));
        match write {
            Some(text) => {
                proof {
                    if check {
                        assert(chart_pass(charts@[k as int], check, strs(added), Some(text@)));
                        assert(false);
                    }
                }
                let ghost held = writes@;
                writes.push((charts[k].target_path.clone(), text));
                assert(pairs(writes@) =~= pairs(held).push((paths[k as int], text@)));
                written.touched = written.touched + 1;
            },
            None => {},
        }
        assert forall|q: int| 0 <= q < k + 1 implies #[trigger] chart_pass(charts@[q], check, passes[q].0, passes[q].1) by {
            if q < k {
                assert(passes[q] == was[q]);
            }
        }
        k = k + 1;
    }
    (written, writes)
}

} // verus!
