//! Every credential a chart's contracts declare, and every Secret-sourced file its renders deliver.
//!
//! The inventory merges the declarations of one credential across the images that read it, by
//! spelling: two documents of one chart spelling one path differently are two files on disk and
//! two variables, so they stay two rows. The reconciliation groups what rendered containers
//! receive by container, so a container over-projected six credentials is one problem, not six.

use vstd::prelude::*;

use crate::declaration::{Declaration, declared, declared_spec};
use crate::order::{
    ascending, held, insert_sorted, less3, less4, lemma_texts_total, lemma_texts_transitive,
    quadruple, texts_lt, triple,
};
use crate::json::{dig_spec, field_text, get_spec, lemma_fields_view, text_of, view_of, Json, JsonView};
use crate::report::{Finding, Report};
use crate::text::{chars, chars_of, decimal, decimal_of, join, join_spec, lines, lines_spec, push_all, push_str, string_of, strs, trim, trim_spec, views};

verus! {

/// One `secret: true` key, as one image's contract spells it.
#[derive(Debug, Clone, PartialEq, Eq)]
pub struct Declared {
    /// The chart that vendors the contract.
    pub chart: String,
    /// The declared document the contract belongs to.
    pub document: String,
    /// The vendored file, as `<chart>/contracts/<name>.json`.
    pub contract: String,
    /// The application the contract describes.
    pub image: String,
    /// The configuration path.
    pub path: String,
    /// The file name that supplies it from a secrets directory.
    pub secrets_file: String,
    /// The environment variable that supplies it.
    pub env: String,
    /// The variable naming a file whose contents supply it.
    pub env_file: String,
    /// What the raw text is read as.
    pub text_form: String,
    /// Whether the image refuses to start without it.
    pub required: bool,
    /// The contract's own first line about the key.
    pub summary: String,
}

/// One credential of one chart: every declaration of it, merged.
#[derive(Debug, Clone, PartialEq, Eq)]
pub struct Credential {
    /// The chart.
    pub chart: String,
    /// The configuration path every declaration of it spells.
    pub path: String,
    /// The secrets-directory file name.
    pub secrets_file: String,
    /// The environment variable.
    pub env: String,
    /// The indirection variable.
    pub env_file: String,
    /// Whether any reader requires it.
    pub required: bool,
    /// The contract's first line about it.
    pub summary: String,
    /// The declared documents it appears in.
    pub documents: Vec<String>,
    /// The applications that read it.
    pub images: Vec<String>,
    /// The vendored contracts that declare it.
    pub contracts: Vec<String>,
}

/// One Secret-sourced file, as one rendered container receives it.
#[derive(Debug, Clone, PartialEq, Eq)]
pub struct Mount {
    /// The chart.
    pub chart: String,
    /// The values file whose render produced it.
    pub values_file: String,
    /// The workload, as `Kind name`.
    pub workload: String,
    /// The container's name.
    pub container: String,
    /// The vendored contract of the image it runs, without the path around it.
    pub image: String,
    /// Where the volume is mounted.
    pub mount_path: String,
    /// The file's name inside it.
    pub file_name: String,
    /// Whether the document gate already judged this file.
    pub judged_by_gate_three: bool,
}

/// A credential the chart declares and no rendering of it supplies.
#[derive(Debug, Clone, PartialEq, Eq)]
pub struct Undeliverable {
    /// What is not supplied.
    pub credential: Credential,
    /// The values files that were rendered and checked.
    pub values_files: Vec<String>,
    /// Whether the chart mentions any spelling of it outside its vendored contracts.
    pub named_by_chart: bool,
    /// Where it mentions them.
    pub named_in: Vec<String>,
}

/// A key the contract calls ordinary configuration and the chart delivers as a Secret.
#[derive(Debug, Clone, PartialEq, Eq)]
pub struct Elevated {
    /// The chart.
    pub chart: String,
    /// The configuration path.
    pub path: String,
    /// The Secret file that delivers it.
    pub file_name: String,
    /// What the raw text is read as.
    pub text_form: String,
    /// The containers that receive it.
    pub containers: Vec<String>,
}

/// One container's worth of mounts, which is one problem rather than one per file.
#[derive(Debug, Clone, PartialEq, Eq)]
pub struct Container {
    /// The chart.
    pub chart: String,
    /// The workload.
    pub workload: String,
    /// The container's name.
    pub container: String,
    /// The image's vendored contract, without the path around it.
    pub image: String,
    /// The file names it received.
    pub files: Vec<String>,
    /// The values files that produced them.
    pub values_files: Vec<String>,
}

// ------------------------------------------------------------------------------------------------
// The inventory
// ------------------------------------------------------------------------------------------------

/// Whether two declarations agree on chart, path, and the three spellings: what makes them one
/// credential.
pub open spec fn same_spelling(a: Declared, b: Declared) -> bool {
    a.chart@ == b.chart@ && a.path@ == b.path@ && a.secrets_file@ == b.secrets_file@ && a.env@
        == b.env@ && a.env_file@ == b.env_file@
}

/// Whether a row carries a declaration's spelling.
pub open spec fn spells(r: Credential, d: Declared) -> bool {
    r.chart@ == d.chart@ && r.path@ == d.path@ && r.secrets_file@ == d.secrets_file@ && r.env@
        == d.env@ && r.env_file@ == d.env_file@
}

/// Whether declaration `k` is the first of its spelling.
pub open spec fn first_spelled(ds: Seq<Declared>, k: int) -> bool {
    forall|j: int| 0 <= j < k ==> !same_spelling(#[trigger] ds[j], ds[k])
}

/// The declarations below `n` that are the first of their spelling, in order.
pub open spec fn firsts(ds: Seq<Declared>, n: int) -> Seq<int>
    decreases n,
{
    if n <= 0 {
        seq![]
    } else if first_spelled(ds, n - 1) {
        firsts(ds, n - 1).push(n - 1)
    } else {
        firsts(ds, n - 1)
    }
}

/// Which list of names a credential gathers from its declarations.
pub enum Column {
    Documents,
    Images,
    Contracts,
}

/// One declaration's entry in a column.
pub open spec fn column(d: Declared, c: Column) -> Seq<char> {
    match c {
        Column::Documents => d.document@,
        Column::Images => d.image@,
        Column::Contracts => d.contract@,
    }
}

/// The names in one column across the declarations below `n` spelled like declaration `k`.
pub open spec fn gathered(ds: Seq<Declared>, k: int, n: int, c: Column) -> Set<Seq<char>> {
    Set::new(
        |t: Seq<char>|
            exists|j: int|
                0 <= j < n && same_spelling(#[trigger] ds[j], ds[k]) && column(ds[j], c) == t,
    )
}

/// Whether any declaration below `n` spelled like declaration `k` is required.
pub open spec fn required_by_any(ds: Seq<Declared>, k: int, n: int) -> bool {
    exists|j: int| 0 <= j < n && same_spelling(#[trigger] ds[j], ds[k]) && ds[j].required
}

/// Whether a list holds exactly one set of names, in ascending order.
pub open spec fn lists(v: Vec<String>, names: Set<Seq<char>>) -> bool {
    ascending(strs(v@)) && held(strs(v@)) == names
}

/// Whether a row is the merge of the declarations below `n` spelled like declaration `k`.
pub open spec fn merges(r: Credential, ds: Seq<Declared>, k: int, n: int) -> bool {
    &&& spells(r, ds[k])
    &&& r.required == required_by_any(ds, k, n)
    &&& r.summary@ == ds[k].summary@
    &&& lists(r.documents, gathered(ds, k, n, Column::Documents))
    &&& lists(r.images, gathered(ds, k, n, Column::Images))
    &&& lists(r.contracts, gathered(ds, k, n, Column::Contracts))
}

/// What a credential row is ordered by.
pub open spec fn row_key(r: Credential) -> Seq<Seq<char>> {
    triple(r.chart@, r.path@, r.secrets_file@)
}

/// Whether `rows` are the merged credentials arranged by `order`: row `i` is the merge of the
/// credential that first appeared `order[i]`-th, ordered by chart, path and secrets file, and,
/// where those tie, by first appearance.
pub open spec fn arranged(rows: Seq<Credential>, order: Seq<int>, ds: Seq<Declared>) -> bool {
    let starts = firsts(ds, ds.len() as int);
    &&& rows.len() == starts.len()
    &&& order.len() == rows.len()
    &&& forall|i: int| 0 <= i < order.len() ==> 0 <= #[trigger] order[i] < rows.len()
    &&& forall|i: int, j: int| 0 <= i < j < order.len() ==> #[trigger] order[i] != #[trigger] order[j]
    &&& forall|i: int|
        0 <= i < rows.len() ==> merges(#[trigger] rows[i], ds, starts[order[i]], ds.len() as int)
    &&& forall|i: int, j: int|
        0 <= i < j < rows.len() ==> texts_lt(row_key(#[trigger] rows[i]), row_key(#[trigger] rows[j]))
            || (row_key(rows[i]) == row_key(rows[j]) && order[i] < order[j])
}

proof fn lemma_firsts_bounds(ds: Seq<Declared>, n: int)
    requires
        0 <= n <= ds.len(),
    ensures
        forall|g: int|
            0 <= g < firsts(ds, n).len() ==> 0 <= #[trigger] firsts(ds, n)[g] < n && first_spelled(
                ds,
                firsts(ds, n)[g],
            ),
        forall|g: int, h: int|
            0 <= g < h < firsts(ds, n).len() ==> #[trigger] firsts(ds, n)[g] < #[trigger] firsts(
                ds,
                n,
            )[h],
    decreases n,
{
    if n > 0 {
        lemma_firsts_bounds(ds, n - 1);
        let prev = firsts(ds, n - 1);
        if first_spelled(ds, n - 1) {
            let next = prev.push(n - 1);
            assert forall|g: int| 0 <= g < next.len() implies 0 <= #[trigger] next[g] < n
                && first_spelled(ds, next[g]) by {
                if g < prev.len() {
                    assert(next[g] == prev[g]);
                }
            }
            assert forall|g: int, h: int| 0 <= g < h < next.len() implies #[trigger] next[g]
                < #[trigger] next[h] by {
                assert(next[g] == prev[g]);
                if h < prev.len() {
                    assert(next[h] == prev[h]);
                }
            }
        }
    }
}

proof fn lemma_order_onto(order: Seq<int>, n: int)
    requires
        order.len() == n,
        forall|i: int| 0 <= i < n ==> 0 <= #[trigger] order[i] < n,
        forall|i: int, j: int| 0 <= i < j < n ==> #[trigger] order[i] != #[trigger] order[j],
    ensures
        forall|g: int| 0 <= g < n ==> #[trigger] order.contains(g),
{
    assert(order.no_duplicates()) by {
        assert forall|i: int, j: int| 0 <= i < order.len() && 0 <= j < order.len() && i != j implies order[i] != order[j] by {
            if i < j {
                assert(order[i] != order[j]);
            } else {
                assert(order[j] != order[i]);
            }
        }
    }
    order.unique_seq_to_set();
    vstd::set_lib::lemma_int_range(0, n);
    let range = vstd::set_lib::set_int_range(0, n);
    assert(order.to_set().subset_of(range));
    vstd::set_lib::lemma_len_subset(order.to_set(), range);
    vstd::set_lib::lemma_subset_equality(order.to_set(), range);
    assert forall|g: int| 0 <= g < n implies #[trigger] order.contains(g) by {
        assert(range.contains(g));
        assert(order.to_set().contains(g));
    }
}

proof fn lemma_in_firsts(ds: Seq<Declared>, n: int, f: int)
    requires
        0 <= f < n <= ds.len(),
        first_spelled(ds, f),
    ensures
        exists|g: int| 0 <= g < firsts(ds, n).len() && #[trigger] firsts(ds, n)[g] == f,
    decreases n,
{
    if f == n - 1 {
        assert(firsts(ds, n)[firsts(ds, n).len() - 1] == f);
    } else {
        lemma_in_firsts(ds, n - 1, f);
        let g = choose|g: int| 0 <= g < firsts(ds, n - 1).len() && #[trigger] firsts(ds, n - 1)[g] == f;
        assert(firsts(ds, n)[g] == f);
    }
}

proof fn lemma_first_of_spelling(ds: Seq<Declared>, k: int)
    requires
        0 <= k < ds.len(),
    ensures
        exists|f: int| 0 <= f <= k && first_spelled(ds, f) && #[trigger] same_spelling(ds[f], ds[k]),
    decreases k,
{
    if first_spelled(ds, k) {
        assert(same_spelling(ds[k], ds[k]));
    } else {
        let j = choose|j: int| 0 <= j < k && same_spelling(#[trigger] ds[j], ds[k]);
        lemma_first_of_spelling(ds, j);
        let f = choose|f: int| 0 <= f <= j && first_spelled(ds, f) && #[trigger] same_spelling(ds[f], ds[j]);
        assert(same_spelling(ds[f], ds[k]));
    }
}

/// Every credential declaration lies in a row of its own spelling.
pub proof fn every_declaration_has_its_row(declared: Seq<Declared>, rows: Seq<Credential>, order: Seq<int>)
    requires
        arranged(rows, order, declared),
    ensures
        forall|k: int| 0 <= k < declared.len() ==> exists|i: int| 0 <= i < rows.len() && spells(rows[i], #[trigger] declared[k]),
{
    let starts = firsts(declared, declared.len() as int);
    lemma_order_onto(order, rows.len() as int);
    assert forall|k: int| 0 <= k < declared.len() implies exists|i: int| 0 <= i < rows.len() && spells(rows[i], #[trigger] declared[k]) by {
        lemma_first_of_spelling(declared, k);
        let f = choose|f: int| 0 <= f <= k && first_spelled(declared, f) && #[trigger] same_spelling(declared[f], declared[k]);
        lemma_in_firsts(declared, declared.len() as int, f);
        let g = choose|g: int| 0 <= g < starts.len() && #[trigger] starts[g] == f;
        assert(order.contains(g));
        let i = choose|i: int| 0 <= i < order.len() && #[trigger] order[i] == g;
        assert(merges(rows[i], declared, starts[order[i]], declared.len() as int));
        assert(spells(rows[i], declared[k]));
    }
}

/// Credential rows are one per spelling: no two rows agree on chart, path, secrets file and both
/// variable spellings, and a row is required exactly when a declaration of its spelling is.
pub proof fn each_spelling_is_one_row(declared: Seq<Declared>, rows: Seq<Credential>, order: Seq<int>)
    requires
        arranged(rows, order, declared),
    ensures
        forall|i: int, j: int|
            0 <= i < j < rows.len() ==> !(#[trigger] rows[i].chart@ == #[trigger] rows[j].chart@ && rows[i].path@ == rows[j].path@
                && rows[i].secrets_file@ == rows[j].secrets_file@ && rows[i].env@ == rows[j].env@
                && rows[i].env_file@ == rows[j].env_file@),
        forall|i: int|
            0 <= i < rows.len() ==> (#[trigger] rows[i].required <==> exists|k: int|
                0 <= k < declared.len() && spells(rows[i], #[trigger] declared[k]) && declared[k].required),
{
    let starts = firsts(declared, declared.len() as int);
    lemma_firsts_bounds(declared, declared.len() as int);
    assert forall|i: int, j: int| 0 <= i < j < rows.len() implies !(#[trigger] rows[i].chart@ == #[trigger] rows[j].chart@ && rows[i].path@ == rows[j].path@
        && rows[i].secrets_file@ == rows[j].secrets_file@ && rows[i].env@ == rows[j].env@
        && rows[i].env_file@ == rows[j].env_file@) by {
        let a = starts[order[i]];
        let b = starts[order[j]];
        assert(merges(rows[i], declared, a, declared.len() as int));
        assert(merges(rows[j], declared, b, declared.len() as int));
        assert(order[i] != order[j]);
        if order[i] < order[j] {
            assert(a < b);
            assert(first_spelled(declared, b));
            assert(!same_spelling(declared[a], declared[b]));
        } else {
            assert(b < a);
            assert(first_spelled(declared, a));
            assert(!same_spelling(declared[b], declared[a]));
        }
    }
    assert forall|i: int| 0 <= i < rows.len() implies (#[trigger] rows[i].required <==> exists|k: int|
        0 <= k < declared.len() && spells(rows[i], #[trigger] declared[k]) && declared[k].required) by {
        let a = starts[order[i]];
        assert(merges(rows[i], declared, a, declared.len() as int));
        if rows[i].required {
            let k = choose|k: int| 0 <= k < declared.len() && same_spelling(#[trigger] declared[k], declared[a]) && declared[k].required;
            assert(spells(rows[i], declared[k]));
        }
        if exists|k: int| 0 <= k < declared.len() && spells(rows[i], #[trigger] declared[k]) && declared[k].required {
            let k = choose|k: int| 0 <= k < declared.len() && spells(rows[i], #[trigger] declared[k]) && declared[k].required;
            assert(same_spelling(declared[k], declared[a]));
        }
    }
}

/// Two different groups never carry one spelling.
proof fn lemma_firsts_distinct(ds: Seq<Declared>, n: int, g: int, h: int)
    requires
        0 <= n <= ds.len(),
        0 <= g < firsts(ds, n).len(),
        0 <= h < firsts(ds, n).len(),
        g != h,
    ensures
        !same_spelling(ds[firsts(ds, n)[g]], ds[firsts(ds, n)[h]]),
{
    lemma_firsts_bounds(ds, n);
    let (a, b) = (firsts(ds, n)[g], firsts(ds, n)[h]);
    if g < h {
        assert(a < b);
        assert(first_spelled(ds, b));
        assert(!same_spelling(ds[a], ds[b]));
    } else {
        assert(b < a);
        assert(first_spelled(ds, a));
        assert(!same_spelling(ds[b], ds[a]));
    }
}

/// Whether declaration `j` carries the spelling of one of the groups formed below `n`.
pub open spec fn in_a_group(ds: Seq<Declared>, n: int, j: int) -> bool {
    exists|g: int| 0 <= g < firsts(ds, n).len() && same_spelling(ds[j], ds[#[trigger] firsts(ds, n)[g]])
}

proof fn lemma_firsts_cover(ds: Seq<Declared>, n: int)
    requires
        0 <= n <= ds.len(),
    ensures
        forall|j: int| 0 <= j < n ==> #[trigger] in_a_group(ds, n, j),
    decreases n,
{
    if n > 0 {
        lemma_firsts_cover(ds, n - 1);
        lemma_firsts_bounds(ds, n - 1);
        let prev = firsts(ds, n - 1);
        if first_spelled(ds, n - 1) {
            let next = prev.push(n - 1);
            assert(firsts(ds, n) == next);
            assert forall|j: int| 0 <= j < n implies #[trigger] in_a_group(ds, n, j) by {
                if j == n - 1 {
                    assert(next[prev.len() as int] == n - 1);
                    assert(same_spelling(ds[j], ds[firsts(ds, n)[prev.len() as int]]));
                } else {
                    assert(in_a_group(ds, n - 1, j));
                    let g = choose|g: int|
                        0 <= g < prev.len() && same_spelling(ds[j], ds[#[trigger] prev[g]]);
                    assert(next[g] == prev[g]);
                    assert(same_spelling(ds[j], ds[firsts(ds, n)[g]]));
                }
            }
        } else {
            let j0 = choose|j: int| 0 <= j < n - 1 && same_spelling(#[trigger] ds[j], ds[n - 1]);
            assert(firsts(ds, n) == prev);
            assert forall|j: int| 0 <= j < n implies #[trigger] in_a_group(ds, n, j) by {
                if j == n - 1 {
                    assert(in_a_group(ds, n - 1, j0));
                    let g = choose|g: int|
                        0 <= g < prev.len() && same_spelling(ds[j0], ds[#[trigger] prev[g]]);
                    assert(same_spelling(ds[j], ds[firsts(ds, n)[g]]));
                } else {
                    assert(in_a_group(ds, n - 1, j));
                    let g = choose|g: int|
                        0 <= g < prev.len() && same_spelling(ds[j], ds[#[trigger] prev[g]]);
                    assert(same_spelling(ds[j], ds[firsts(ds, n)[g]]));
                }
            }
        }
    }
}

/// The group whose spelling a declaration carries, or the number of groups.
fn find_group(groups: &Vec<Credential>, d: &Declared) -> (g: usize)
    ensures
        g <= groups@.len(),
        g < groups@.len() ==> spells(groups@[g as int], *d),
        g == groups@.len() ==> forall|h: int|
            0 <= h < groups@.len() ==> !spells(#[trigger] groups@[h], *d),
{
    let mut g: usize = 0;
    while g < groups.len()
        invariant
            g <= groups@.len(),
            forall|h: int| 0 <= h < g ==> !spells(#[trigger] groups@[h], *d),
        decreases groups.len() - g,
    {
        let c = &groups[g];
        if c.chart == d.chart && c.path == d.path && c.secrets_file == d.secrets_file && c.env
            == d.env && c.env_file == d.env_file {
            return g;
        }
        g = g + 1;
    }
    g
}

/// The row a credential spelt for the first time starts as.
fn start_row(d: &Declared) -> (r: Credential)
    ensures
        spells(r, *d),
        r.required == d.required,
        r.summary@ == d.summary@,
        lists(r.documents, set![d.document@]),
        lists(r.images, set![d.image@]),
        lists(r.contracts, set![d.contract@]),
{
    let mut documents: Vec<String> = Vec::new();
    insert_sorted(&mut documents, d.document.clone());
    let mut images: Vec<String> = Vec::new();
    insert_sorted(&mut images, d.image.clone());
    let mut contracts: Vec<String> = Vec::new();
    insert_sorted(&mut contracts, d.contract.clone());
    assert(held(strs(Seq::<String>::empty())) =~= Set::<Seq<char>>::empty());
    assert(Set::<Seq<char>>::empty().insert(d.document@) =~= set![d.document@]);
    assert(Set::<Seq<char>>::empty().insert(d.image@) =~= set![d.image@]);
    assert(Set::<Seq<char>>::empty().insert(d.contract@) =~= set![d.contract@]);
    Credential {
        chart: d.chart.clone(),
        path: d.path.clone(),
        secrets_file: d.secrets_file.clone(),
        env: d.env.clone(),
        env_file: d.env_file.clone(),
        required: d.required,
        summary: d.summary.clone(),
        documents,
        images,
        contracts,
    }
}

proof fn lemma_gathered_step(ds: Seq<Declared>, k: int, i: int, c: Column)
    requires
        0 <= k <= i < ds.len(),
    ensures
        same_spelling(ds[i], ds[k]) ==> gathered(ds, k, i + 1, c) == gathered(ds, k, i, c).insert(
            column(ds[i], c),
        ),
        !same_spelling(ds[i], ds[k]) ==> gathered(ds, k, i + 1, c) == gathered(ds, k, i, c),
        same_spelling(ds[i], ds[k]) ==> (required_by_any(ds, k, i + 1) == (required_by_any(
            ds,
            k,
            i,
        ) || ds[i].required)),
        !same_spelling(ds[i], ds[k]) ==> required_by_any(ds, k, i + 1) == required_by_any(
            ds,
            k,
            i,
        ),
{
    let g1 = gathered(ds, k, i + 1, c);
    let g0 = gathered(ds, k, i, c);
    assert forall|t: Seq<char>| #[trigger] g1.contains(t) implies g0.contains(t) || (same_spelling(
        ds[i],
        ds[k],
    ) && t == column(ds[i], c)) by {
        let j = choose|j: int|
            0 <= j < i + 1 && same_spelling(#[trigger] ds[j], ds[k]) && column(ds[j], c) == t;
        if j < i {
            assert(g0.contains(t));
        }
    }
    assert forall|t: Seq<char>| #[trigger] g0.contains(t) implies g1.contains(t) by {
        let j = choose|j: int|
            0 <= j < i && same_spelling(#[trigger] ds[j], ds[k]) && column(ds[j], c) == t;
        assert(0 <= j < i + 1);
    }
    if same_spelling(ds[i], ds[k]) {
        assert(g1.contains(column(ds[i], c)));
        assert(g1 =~= g0.insert(column(ds[i], c)));
        if ds[i].required {
            assert(required_by_any(ds, k, i + 1));
        }
    } else {
        assert(g1 =~= g0);
    }
}

/// Merge the declarations into one row per spelling, in order of first appearance.
fn merge(declared: &Vec<Declared>) -> (groups: Vec<Credential>)
    ensures
        groups@.len() == firsts(declared@, declared@.len() as int).len(),
        forall|g: int|
            0 <= g < groups@.len() ==> merges(
                #[trigger] groups@[g],
                declared@,
                firsts(declared@, declared@.len() as int)[g],
                declared@.len() as int,
            ),
{
    let ghost ds = declared@;
    let mut groups: Vec<Credential> = Vec::new();
    let mut i: usize = 0;
    while i < declared.len()
        invariant
            ds == declared@,
            i <= ds.len(),
            groups@.len() == firsts(ds, i as int).len(),
            forall|g: int|
                0 <= g < groups@.len() ==> merges(
                    #[trigger] groups@[g],
                    ds,
                    firsts(ds, i as int)[g],
                    i as int,
                ),
        decreases declared.len() - i,
    {
        let d = &declared[i];
        let g = find_group(&groups, d);
        proof {
            lemma_firsts_bounds(ds, i as int);
        }
        if g < groups.len() {
            merge_into(&mut groups, g, d, Ghost(ds), Ghost(i as int));
        } else {
            proof {
                lemma_firsts_cover(ds, i as int);
            }
            push_group(&mut groups, d, Ghost(ds), Ghost(i as int));
        }
        i = i + 1;
    }
    groups
}

/// Fold declaration `i` into the group `g` that carries its spelling.
#[verifier::spinoff_prover]
fn merge_into(
    groups: &mut Vec<Credential>,
    g: usize,
    d: &Declared,
    Ghost(ds): Ghost<Seq<Declared>>,
    Ghost(i): Ghost<int>,
)
    requires
        0 <= i < ds.len(),
        *d == ds[i],
        g < old(groups)@.len(),
        spells(old(groups)@[g as int], ds[i]),
        old(groups)@.len() == firsts(ds, i).len(),
        forall|h: int| 0 <= h < firsts(ds, i).len() ==> 0 <= #[trigger] firsts(ds, i)[h] < i,
        forall|h: int|
            0 <= h < old(groups)@.len() ==> merges(#[trigger] old(groups)@[h], ds, firsts(ds, i)[h], i),
    ensures
        final(groups)@.len() == firsts(ds, i + 1).len(),
        forall|h: int|
            0 <= h < final(groups)@.len() ==> merges(
                #[trigger] final(groups)@[h],
                ds,
                firsts(ds, i + 1)[h],
                i + 1,
            ),
{
    let ghost starts = firsts(ds, i);
    let ghost k = starts[g as int];
    assert(same_spelling(ds[k], ds[i]));
    assert(!first_spelled(ds, i));
    assert(firsts(ds, i + 1) == starts);
    let ghost before = groups@;
    let mut row = groups.remove(g);
    row.required = row.required || d.required;
    insert_sorted(&mut row.documents, d.document.clone());
    insert_sorted(&mut row.images, d.image.clone());
    insert_sorted(&mut row.contracts, d.contract.clone());
    groups.insert(g, row);
    assert forall|h: int| 0 <= h < groups@.len() implies merges(
        #[trigger] groups@[h],
        ds,
        firsts(ds, i + 1)[h],
        i + 1,
    ) by {
        let kh = starts[h];
        lemma_gathered_step(ds, kh, i, Column::Documents);
        lemma_gathered_step(ds, kh, i, Column::Images);
        lemma_gathered_step(ds, kh, i, Column::Contracts);
        if h != g {
            assert(groups@[h] == before[h]);
            lemma_firsts_distinct(ds, i, g as int, h);
        }
    }
}

/// Start a group for declaration `i`, the first of its spelling.
#[verifier::spinoff_prover]
fn push_group(
    groups: &mut Vec<Credential>,
    d: &Declared,
    Ghost(ds): Ghost<Seq<Declared>>,
    Ghost(i): Ghost<int>,
)
    requires
        0 <= i < ds.len(),
        *d == ds[i],
        forall|h: int| 0 <= h < old(groups)@.len() ==> !spells(#[trigger] old(groups)@[h], ds[i]),
        old(groups)@.len() == firsts(ds, i).len(),
        forall|h: int| 0 <= h < firsts(ds, i).len() ==> 0 <= #[trigger] firsts(ds, i)[h] < i,
        forall|j: int| 0 <= j < i ==> #[trigger] in_a_group(ds, i, j),
        forall|h: int|
            0 <= h < old(groups)@.len() ==> merges(#[trigger] old(groups)@[h], ds, firsts(ds, i)[h], i),
    ensures
        final(groups)@.len() == firsts(ds, i + 1).len(),
        forall|h: int|
            0 <= h < final(groups)@.len() ==> merges(
                #[trigger] final(groups)@[h],
                ds,
                firsts(ds, i + 1)[h],
                i + 1,
            ),
{
    let ghost starts = firsts(ds, i);
    assert(first_spelled(ds, i)) by {
        assert forall|j: int| 0 <= j < i implies !same_spelling(#[trigger] ds[j], ds[i]) by {
            assert(in_a_group(ds, i, j));
            let h = choose|h: int|
                0 <= h < starts.len() && same_spelling(ds[j], ds[#[trigger] starts[h]]);
            assert(spells(groups@[h], ds[starts[h]]));
        }
    }
    assert(firsts(ds, i + 1) == starts.push(i));
    let ghost before = groups@;
    let row = start_row(d);
    groups.push(row);
    assert forall|h: int| 0 <= h < groups@.len() implies merges(
        #[trigger] groups@[h],
        ds,
        firsts(ds, i + 1)[h],
        i + 1,
    ) by {
        let kh = firsts(ds, i + 1)[h];
        lemma_gathered_step(ds, kh, i, Column::Documents);
        lemma_gathered_step(ds, kh, i, Column::Images);
        lemma_gathered_step(ds, kh, i, Column::Contracts);
        if h < before.len() {
            assert(groups@[h] == before[h]);
            assert(kh == starts[h]);
            assert(spells(before[h], ds[kh]));
        } else {
            assert(kh == i);
            assert(gathered(ds, kh, i, Column::Documents) =~= Set::empty());
            assert(gathered(ds, kh, i, Column::Images) =~= Set::empty());
            assert(gathered(ds, kh, i, Column::Contracts) =~= Set::empty());
            assert(Set::<Seq<char>>::empty().insert(ds[kh].document@) =~= set![ds[kh].document@]);
            assert(Set::<Seq<char>>::empty().insert(ds[kh].image@) =~= set![ds[kh].image@]);
            assert(Set::<Seq<char>>::empty().insert(ds[kh].contract@) =~= set![ds[kh].contract@]);
            assert(!required_by_any(ds, kh, i));
        }
    }
}

/// Collapse declarations into one row per credential, keeping every reader's name.
///
/// Declarations are one credential when they agree on chart, path and all three spellings. A row
/// is required when any reader requires it, carries the first declaration's summary, and lists the
/// documents, images and contracts of its readers sorted and once each. Rows are ordered by chart,
/// path and secrets file; rows that tie there keep the order their credentials first appeared in.
pub fn credentials(declared: &Vec<Declared>) -> (rows: Vec<Credential>)
    ensures
        exists|order: Seq<int>| arranged(rows@, order, declared@),
{
    let groups = merge(declared);
    let ghost ds = declared@;
    let ghost merged = groups@;
    let ghost starts = firsts(ds, ds.len() as int);
    let ghost n = merged.len();
    let mut pending = groups;
    let count = pending.len();
    let mut rows: Vec<Credential> = Vec::new();
    let ghost mut order: Seq<int> = seq![];
    let mut g: usize = 0;
    while pending.len() > 0
        invariant
            g + pending@.len() == n,
            count == n,
            merged.len() == n,
            pending@ == merged.skip(g as int),
            n == starts.len(),
            forall|h: int|
                0 <= h < n ==> merges(#[trigger] merged[h], ds, starts[h], ds.len() as int),
            rows@.len() == g,
            order.len() == g,
            forall|i: int| 0 <= i < g ==> 0 <= #[trigger] order[i] < g,
            forall|i: int, j: int| 0 <= i < j < g ==> #[trigger] order[i] != #[trigger] order[j],
            forall|i: int| 0 <= i < g ==> #[trigger] rows@[i] == merged[order[i]],
            forall|i: int, j: int|
                0 <= i < j < g ==> texts_lt(row_key(#[trigger] rows@[i]), row_key(#[trigger] rows@[j]))
                    || (row_key(rows@[i]) == row_key(rows@[j]) && order[i] < order[j]),
        decreases pending.len(),
    {
        let row = pending.remove(0);
        assert(row == merged[g as int]);
        let mut at: usize = 0;
        while at < rows.len() && !less3(
            &row.chart,
            &row.path,
            &row.secrets_file,
            &rows[at].chart,
            &rows[at].path,
            &rows[at].secrets_file,
        )
            invariant
                at <= rows@.len(),
                forall|q: int| 0 <= q < at ==> !texts_lt(row_key(row), row_key(#[trigger] rows@[q])),
            decreases rows.len() - at,
        {
            at = at + 1;
        }
        let ghost before = rows@;
        let ghost before_order = order;
        proof {
            assert forall|q: int| at <= q < before.len() implies texts_lt(
                row_key(row),
                row_key(#[trigger] before[q]),
            ) by {
                if q > at {
                    lemma_texts_total(row_key(before[at as int]), row_key(before[q]));
                    if texts_lt(row_key(before[at as int]), row_key(before[q])) {
                        lemma_texts_transitive(
                            row_key(row),
                            row_key(before[at as int]),
                            row_key(before[q]),
                        );
                    }
                }
            }
        }
        rows.insert(at, row);
        proof {
            order = before_order.insert(at as int, g as int);
            assert forall|i: int, j: int| 0 <= i < j < g + 1 implies (texts_lt(
                row_key(#[trigger] rows@[i]),
                row_key(#[trigger] rows@[j]),
            ) || (row_key(rows@[i]) == row_key(rows@[j]) && order[i] < order[j])) by {
                if j < at {
                    assert(rows@[i] == before[i] && rows@[j] == before[j]);
                } else if j == at {
                    assert(rows@[i] == before[i]);
                    lemma_texts_total(row_key(row), row_key(before[i]));
                } else if i < at {
                    assert(rows@[i] == before[i] && rows@[j] == before[j - 1]);
                    if i < j - 1 {
                    }
                    lemma_texts_total(row_key(row), row_key(before[i]));
                    if j - 1 >= at {
                        assert(texts_lt(row_key(row), row_key(before[j - 1])));
                        if texts_lt(row_key(before[i]), row_key(row)) {
                            lemma_texts_transitive(
                                row_key(before[i]),
                                row_key(row),
                                row_key(before[j - 1]),
                            );
                        }
                    }
                } else if i == at {
                    assert(rows@[j] == before[j - 1]);
                } else {
                    assert(rows@[i] == before[i - 1] && rows@[j] == before[j - 1]);
                }
            }
            assert forall|i: int| 0 <= i < g + 1 implies #[trigger] rows@[i] == merged[order[i]] by {
                if i < at {
                    assert(rows@[i] == before[i]);
                } else if i > at {
                    assert(rows@[i] == before[i - 1]);
                }
            }
        }
        assert(pending@ =~= merged.skip(g + 1));
        g = g + 1;
    }
    assert(arranged(rows@, order, ds));
    rows
}

// ------------------------------------------------------------------------------------------------
// The reconciliation
// ------------------------------------------------------------------------------------------------

/// Chart, workload, container and image: the container one row is about.
pub open spec fn mount_key(m: Mount) -> Seq<Seq<char>> {
    quadruple(m.chart@, m.workload@, m.container@, m.image@)
}

/// What a container row is about.
pub open spec fn container_key(c: Container) -> Seq<Seq<char>> {
    quadruple(c.chart@, c.workload@, c.container@, c.image@)
}

/// The file names the mounts below `n` with one key deliver.
pub open spec fn files_for(ms: Seq<Mount>, key: Seq<Seq<char>>, n: int) -> Set<Seq<char>> {
    Set::new(
        |t: Seq<char>|
            exists|j: int| 0 <= j < n && mount_key(#[trigger] ms[j]) == key && ms[j].file_name@ == t,
    )
}

/// The values files whose renders produced the mounts below `n` with one key.
pub open spec fn values_files_for(ms: Seq<Mount>, key: Seq<Seq<char>>, n: int) -> Set<Seq<char>> {
    Set::new(
        |t: Seq<char>|
            exists|j: int|
                0 <= j < n && mount_key(#[trigger] ms[j]) == key && ms[j].values_file@ == t,
    )
}

/// The containers the mounts below `n` are delivered to.
pub open spec fn mount_keys(ms: Seq<Mount>, n: int) -> Set<Seq<Seq<char>>> {
    Set::new(|k: Seq<Seq<char>>| exists|j: int| 0 <= j < n && mount_key(#[trigger] ms[j]) == k)
}

/// The containers a list of rows is about.
pub open spec fn row_keys(rows: Seq<Container>) -> Set<Seq<Seq<char>>> {
    Set::new(
        |k: Seq<Seq<char>>| exists|i: int| 0 <= i < rows.len() && container_key(#[trigger] rows[i]) == k,
    )
}

/// Whether `rows` group the mounts below `n` by container: one row per container, ordered by
/// chart, workload, container and image, each listing its file names and values files sorted and
/// once each.
pub open spec fn grouped(rows: Seq<Container>, ms: Seq<Mount>, n: int) -> bool {
    &&& forall|i: int, j: int|
        0 <= i < j < rows.len() ==> texts_lt(
            container_key(#[trigger] rows[i]),
            container_key(#[trigger] rows[j]),
        )
    &&& row_keys(rows) == mount_keys(ms, n)
    &&& forall|i: int|
        0 <= i < rows.len() ==> lists(
            #[trigger] rows[i].files,
            files_for(ms, container_key(rows[i]), n),
        ) && lists(rows[i].values_files, values_files_for(ms, container_key(rows[i]), n))
}

proof fn lemma_files_step(ms: Seq<Mount>, key: Seq<Seq<char>>, i: int)
    requires
        0 <= i < ms.len(),
    ensures
        mount_key(ms[i]) == key ==> files_for(ms, key, i + 1) == files_for(ms, key, i).insert(
            ms[i].file_name@,
        ),
        mount_key(ms[i]) != key ==> files_for(ms, key, i + 1) == files_for(ms, key, i),
        mount_key(ms[i]) == key ==> values_files_for(ms, key, i + 1) == values_files_for(
            ms,
            key,
            i,
        ).insert(ms[i].values_file@),
        mount_key(ms[i]) != key ==> values_files_for(ms, key, i + 1) == values_files_for(
            ms,
            key,
            i,
        ),
{
    let f1 = files_for(ms, key, i + 1);
    let f0 = files_for(ms, key, i);
    let v1 = values_files_for(ms, key, i + 1);
    let v0 = values_files_for(ms, key, i);
    assert forall|t: Seq<char>| #[trigger] f1.contains(t) implies f0.contains(t) || (mount_key(
        ms[i],
    ) == key && t == ms[i].file_name@) by {
        let j = choose|j: int|
            0 <= j < i + 1 && mount_key(#[trigger] ms[j]) == key && ms[j].file_name@ == t;
        if j < i {
            assert(f0.contains(t));
        }
    }
    assert forall|t: Seq<char>| #[trigger] f0.contains(t) implies f1.contains(t) by {
        let j = choose|j: int| 0 <= j < i && mount_key(#[trigger] ms[j]) == key && ms[j].file_name@ == t;
        assert(0 <= j < i + 1);
    }
    assert forall|t: Seq<char>| #[trigger] v1.contains(t) implies v0.contains(t) || (mount_key(
        ms[i],
    ) == key && t == ms[i].values_file@) by {
        let j = choose|j: int|
            0 <= j < i + 1 && mount_key(#[trigger] ms[j]) == key && ms[j].values_file@ == t;
        if j < i {
            assert(v0.contains(t));
        }
    }
    assert forall|t: Seq<char>| #[trigger] v0.contains(t) implies v1.contains(t) by {
        let j = choose|j: int|
            0 <= j < i && mount_key(#[trigger] ms[j]) == key && ms[j].values_file@ == t;
        assert(0 <= j < i + 1);
    }
    if mount_key(ms[i]) == key {
        assert(f1.contains(ms[i].file_name@));
        assert(v1.contains(ms[i].values_file@));
        assert(f1 =~= f0.insert(ms[i].file_name@));
        assert(v1 =~= v0.insert(ms[i].values_file@));
    } else {
        assert(f1 =~= f0);
        assert(v1 =~= v0);
    }
}

/// Fold mount `i` into the row `at`, which is about its container.
#[verifier::spinoff_prover]
#[verifier::rlimit(30)]
fn group_into(
    rows: &mut Vec<Container>,
    at: usize,
    m: &Mount,
    Ghost(ms): Ghost<Seq<Mount>>,
    Ghost(i): Ghost<int>,
)
    requires
        0 <= i < ms.len(),
        *m == ms[i],
        at < old(rows)@.len(),
        container_key(old(rows)@[at as int]) == mount_key(ms[i]),
        grouped(old(rows)@, ms, i),
    ensures
        grouped(final(rows)@, ms, i + 1),
{
    let ghost before = rows@;
    let ghost key = mount_key(ms[i]);
    let mut row = rows.remove(at);
    insert_sorted(&mut row.files, m.file_name.clone());
    insert_sorted(&mut row.values_files, m.values_file.clone());
    rows.insert(at, row);
    assert forall|q: int| 0 <= q < rows@.len() implies container_key(#[trigger] rows@[q])
        == container_key(before[q]) by {
        if q != at {
            assert(rows@[q] == before[q]);
        }
    }
    assert forall|q: int| 0 <= q < rows@.len() implies lists(
        #[trigger] rows@[q].files,
        files_for(ms, container_key(rows@[q]), i + 1),
    ) && lists(rows@[q].values_files, values_files_for(ms, container_key(rows@[q]), i + 1)) by {
        lemma_files_step(ms, container_key(rows@[q]), i);
        if q != at {
            assert(rows@[q] == before[q]);
            let (kq, ka) = (container_key(before[q]), container_key(before[at as int]));
            if q < at {
                assert(texts_lt(kq, ka));
            } else {
                assert(texts_lt(ka, kq));
            }
            lemma_texts_total(kq, ka);
            lemma_texts_total(ka, ka);
            assert(kq != key);
            assert(lists(before[q].files, files_for(ms, kq, i)));
            assert(lists(before[q].values_files, values_files_for(ms, kq, i)));
        } else {
            assert(container_key(rows@[q]) == key);
            assert(lists(before[q].files, files_for(ms, key, i)));
            assert(lists(before[q].values_files, values_files_for(ms, key, i)));
        }
    }
    proof {
        lemma_mount_keys_step(ms, i);
    }
    assert(row_keys(before).contains(key)) by {
        assert(container_key(before[at as int]) == key);
    }
    assert(mount_keys(ms, i + 1) =~= mount_keys(ms, i));
    assert(row_keys(rows@) =~= row_keys(before)) by {
        assert forall|k: Seq<Seq<char>>| #[trigger] row_keys(rows@).contains(k) implies row_keys(
            before,
        ).contains(k) by {
            let q = choose|q: int| 0 <= q < rows@.len() && container_key(#[trigger] rows@[q]) == k;
            assert(container_key(before[q]) == k);
        }
        assert forall|k: Seq<Seq<char>>| #[trigger] row_keys(before).contains(k) implies row_keys(
            rows@,
        ).contains(k) by {
            let q = choose|q: int| 0 <= q < before.len() && container_key(#[trigger] before[q]) == k;
            assert(container_key(rows@[q]) == k);
        }
    }
    assert forall|p: int, q: int| 0 <= p < q < rows@.len() implies texts_lt(
        container_key(#[trigger] rows@[p]),
        container_key(#[trigger] rows@[q]),
    ) by {
        assert(container_key(rows@[p]) == container_key(before[p]));
        assert(container_key(rows@[q]) == container_key(before[q]));
    }
}

/// Open a row at `at` for mount `i`, whose container no row is about yet.
#[verifier::spinoff_prover]
#[verifier::rlimit(30)]
fn open_container(
    rows: &mut Vec<Container>,
    at: usize,
    m: &Mount,
    Ghost(ms): Ghost<Seq<Mount>>,
    Ghost(i): Ghost<int>,
)
    requires
        0 <= i < ms.len(),
        *m == ms[i],
        at <= old(rows)@.len(),
        forall|q: int| 0 <= q < at ==> texts_lt(container_key(#[trigger] old(rows)@[q]), mount_key(ms[i])),
        forall|q: int|
            at <= q < old(rows)@.len() ==> texts_lt(mount_key(ms[i]), container_key(#[trigger] old(rows)@[q])),
        grouped(old(rows)@, ms, i),
    ensures
        grouped(final(rows)@, ms, i + 1),
{
    let ghost before = rows@;
    let ghost key = mount_key(ms[i]);
    assert forall|q: int| 0 <= q < before.len() implies container_key(#[trigger] before[q]) != key by {
        lemma_texts_total(container_key(before[q]), key);
    }
    assert(!row_keys(before).contains(key)) by {
        if row_keys(before).contains(key) {
            let q = choose|q: int| 0 <= q < before.len() && container_key(#[trigger] before[q]) == key;
        }
    }
    let mut files: Vec<String> = Vec::new();
    insert_sorted(&mut files, m.file_name.clone());
    let mut values_files: Vec<String> = Vec::new();
    insert_sorted(&mut values_files, m.values_file.clone());
    let row = Container {
        chart: m.chart.clone(),
        workload: m.workload.clone(),
        container: m.container.clone(),
        image: m.image.clone(),
        files,
        values_files,
    };
    assert(container_key(row) =~= key);
    rows.insert(at, row);
    assert forall|p: int, q: int| 0 <= p < q < rows@.len() implies texts_lt(
        container_key(#[trigger] rows@[p]),
        container_key(#[trigger] rows@[q]),
    ) by {
        if q < at {
            assert(rows@[p] == before[p] && rows@[q] == before[q]);
        } else if q == at {
            assert(rows@[p] == before[p]);
        } else if p < at {
            assert(rows@[p] == before[p] && rows@[q] == before[q - 1]);
            lemma_texts_transitive(container_key(before[p]), key, container_key(before[q - 1]));
        } else if p == at {
            assert(rows@[q] == before[q - 1]);
        } else {
            assert(rows@[p] == before[p - 1] && rows@[q] == before[q - 1]);
        }
    }
    assert(files_for(ms, key, i) =~= Set::empty()) by {
        assert forall|t: Seq<char>| !files_for(ms, key, i).contains(t) by {
            if files_for(ms, key, i).contains(t) {
                let j = choose|j: int|
                    0 <= j < i && mount_key(#[trigger] ms[j]) == key && ms[j].file_name@ == t;
                assert(mount_keys(ms, i).contains(key));
                assert(row_keys(before).contains(key));
            }
        }
    }
    assert(values_files_for(ms, key, i) =~= Set::empty()) by {
        assert forall|t: Seq<char>| !values_files_for(ms, key, i).contains(t) by {
            if values_files_for(ms, key, i).contains(t) {
                let j = choose|j: int|
                    0 <= j < i && mount_key(#[trigger] ms[j]) == key && ms[j].values_file@ == t;
                assert(mount_keys(ms, i).contains(key));
                assert(row_keys(before).contains(key));
            }
        }
    }
    assert forall|q: int| 0 <= q < rows@.len() implies lists(
        #[trigger] rows@[q].files,
        files_for(ms, container_key(rows@[q]), i + 1),
    ) && lists(rows@[q].values_files, values_files_for(ms, container_key(rows@[q]), i + 1)) by {
        lemma_files_step(ms, container_key(rows@[q]), i);
        if q < at {
            assert(rows@[q] == before[q]);
        } else if q > at {
            assert(rows@[q] == before[q - 1]);
        } else {
            assert(held(strs(Seq::<String>::empty())) =~= Set::<Seq<char>>::empty());
        }
    }
    proof {
        lemma_mount_keys_step(ms, i);
    }
    assert(mount_keys(ms, i + 1) =~= mount_keys(ms, i).insert(key));
    assert(row_keys(rows@) =~= row_keys(before).insert(key)) by {
        assert forall|k: Seq<Seq<char>>| #[trigger] row_keys(rows@).contains(k) implies row_keys(
            before,
        ).insert(key).contains(k) by {
            let q = choose|q: int| 0 <= q < rows@.len() && container_key(#[trigger] rows@[q]) == k;
            if q < at {
                assert(container_key(before[q]) == k);
            } else if q > at {
                assert(container_key(before[q - 1]) == k);
            }
        }
        assert forall|k: Seq<Seq<char>>| #[trigger] row_keys(before).insert(key).contains(
            k,
        ) implies row_keys(rows@).contains(k) by {
            if k == key {
                assert(container_key(rows@[at as int]) == k);
            } else {
                let q = choose|q: int|
                    0 <= q < before.len() && container_key(#[trigger] before[q]) == k;
                if q < at {
                    assert(container_key(rows@[q]) == k);
                } else {
                    assert(container_key(rows@[q + 1]) == k);
                }
            }
        }
    }
}

proof fn lemma_mount_keys_step(ms: Seq<Mount>, i: int)
    requires
        0 <= i < ms.len(),
    ensures
        mount_keys(ms, i + 1) == mount_keys(ms, i).insert(mount_key(ms[i])),
{
    assert forall|k: Seq<Seq<char>>| #[trigger] mount_keys(ms, i + 1).contains(k) implies mount_keys(
        ms,
        i,
    ).insert(mount_key(ms[i])).contains(k) by {
        let j = choose|j: int| 0 <= j < i + 1 && mount_key(#[trigger] ms[j]) == k;
        if j < i {
            assert(mount_keys(ms, i).contains(k));
        }
    }
    assert forall|k: Seq<Seq<char>>| #[trigger] mount_keys(ms, i).insert(mount_key(ms[i])).contains(
        k,
    ) implies mount_keys(ms, i + 1).contains(k) by {
        if k != mount_key(ms[i]) {
            let j = choose|j: int| 0 <= j < i && mount_key(#[trigger] ms[j]) == k;
            assert(0 <= j < i + 1);
        }
    }
    assert(mount_keys(ms, i + 1) =~= mount_keys(ms, i).insert(mount_key(ms[i])));
}

/// Group mounts by container rather than by file.
///
/// One row per chart, workload, container and image, in that order, each listing the file names
/// the container received and the values files that produced them, sorted and once each.
pub fn by_container(mounts: &Vec<Mount>) -> (rows: Vec<Container>)
    ensures
        grouped(rows@, mounts@, mounts@.len() as int),
{
    let ghost ms = mounts@;
    let mut rows: Vec<Container> = Vec::new();
    assert(row_keys(rows@) =~= mount_keys(ms, 0));
    let mut i: usize = 0;
    while i < mounts.len()
        invariant
            ms == mounts@,
            i <= ms.len(),
            grouped(rows@, ms, i as int),
        decreases mounts.len() - i,
    {
        let m = &mounts[i];
        let ghost key = mount_key(*m);
        let mut at: usize = 0;
        while at < rows.len() && less4(
            &rows[at].chart,
            &rows[at].workload,
            &rows[at].container,
            &rows[at].image,
            &m.chart,
            &m.workload,
            &m.container,
            &m.image,
        )
            invariant
                at <= rows@.len(),
                key == mount_key(*m),
                forall|q: int| 0 <= q < at ==> texts_lt(container_key(#[trigger] rows@[q]), key),
            decreases rows.len() - at,
        {
            at = at + 1;
        }
        let same = at < rows.len() && rows[at].chart == m.chart && rows[at].workload == m.workload
            && rows[at].container == m.container && rows[at].image == m.image;
        if same {
            assert(container_key(rows@[at as int]) =~= key);
            group_into(&mut rows, at, m, Ghost(ms), Ghost(i as int));
        } else {
            proof {
                let before = rows@;
                if at < before.len() {
                    lemma_texts_total(container_key(before[at as int]), key);
                    assert(container_key(before[at as int]) != key) by {
                        if container_key(before[at as int]) == key {
                            assert(container_key(before[at as int])[0] == key[0]);
                            assert(container_key(before[at as int])[1] == key[1]);
                            assert(container_key(before[at as int])[2] == key[2]);
                            assert(container_key(before[at as int])[3] == key[3]);
                        }
                    }
                }
                assert forall|q: int| at <= q < before.len() implies texts_lt(
                    key,
                    container_key(#[trigger] before[q]),
                ) by {
                    if q > at {
                        lemma_texts_transitive(
                            key,
                            container_key(before[at as int]),
                            container_key(before[q]),
                        );
                    }
                }
            }
            open_container(&mut rows, at, m, Ghost(ms), Ghost(i as int));
        }
        i = i + 1;
    }
    rows
}

// ------------------------------------------------------------------------------------------------
// Small pieces
// ------------------------------------------------------------------------------------------------

/// The longest text every one of `spellings` opens with; empty for no spellings.
pub open spec fn common_prefix_spec(spellings: Seq<Seq<char>>) -> Seq<char>
    decreases spellings.len(),
{
    if spellings.len() == 0 {
        seq![]
    } else if spellings.len() == 1 {
        spellings[0]
    } else {
        shared(common_prefix_spec(spellings.drop_last()), spellings.last())
    }
}

/// The longest text both `a` and `b` open with.
pub open spec fn shared(a: Seq<char>, b: Seq<char>) -> Seq<char> {
    a.take(shared_len(a, b, 0))
}

/// Where `a` and `b` first differ, from `i`.
pub open spec fn shared_len(a: Seq<char>, b: Seq<char>, i: int) -> int
    decreases a.len() - i,
{
    if i < 0 || i >= a.len() || i >= b.len() || a[i] != b[i] {
        if i < 0 {
            0
        } else {
            i
        }
    } else {
        shared_len(a, b, i + 1)
    }
}

proof fn lemma_shared_len(a: Seq<char>, b: Seq<char>, i: int)
    requires
        0 <= i <= a.len(),
        i <= b.len(),
    ensures
        i <= shared_len(a, b, i) <= a.len(),
        shared_len(a, b, i) <= b.len(),
    decreases a.len() - i,
{
    if i < a.len() && i < b.len() && a[i] == b[i] {
        lemma_shared_len(a, b, i + 1);
    }
}

/// The dialect prefix every environment spelling shares, or nothing when they differ.
pub fn common_prefix(spellings: &Vec<String>) -> (prefix: String)
    ensures
        prefix@ == common_prefix_spec(strs(spellings@)),
{
    if spellings.len() == 0 {
        return String::new();
    }
    let mut held = crate::text::chars(&spellings[0]);
    let mut k: usize = 1;
    assert(strs(spellings@).take(1) =~= seq![spellings@[0]@]);
    while k < spellings.len()
        invariant
            1 <= k <= spellings@.len(),
            held@ == common_prefix_spec(strs(spellings@).take(k as int)),
        decreases spellings.len() - k,
    {
        let next = crate::text::chars(&spellings[k]);
        let mut i: usize = 0;
        while i < held.len() && i < next.len() && held[i] == next[i]
            invariant
                i <= held@.len(),
                i <= next@.len(),
                shared_len(held@, next@, 0) == shared_len(held@, next@, i as int),
            decreases held.len() - i,
        {
            i = i + 1;
        }
        proof {
            lemma_shared_len(held@, next@, 0);
            let taken = strs(spellings@).take(k + 1);
            assert(taken.drop_last() =~= strs(spellings@).take(k as int));
            assert(taken.last() == next@);
        }
        held = crate::text::slice_of(&held, 0, i);
        k = k + 1;
    }
    assert(strs(spellings@).take(spellings@.len() as int) =~= strs(spellings@));
    crate::text::string_of(&held)
}

/// The shared prefix is a prefix of every spelling it was taken from.
pub proof fn common_prefix_opens_every_spelling(spellings: Seq<Seq<char>>, i: int)
    requires
        0 <= i < spellings.len(),
    ensures
        crate::text::starts_with_spec(spellings[i], common_prefix_spec(spellings)),
    decreases spellings.len(),
{
    if spellings.len() == 1 {
        assert(spellings[0].subrange(0, spellings[0].len() as int) =~= spellings[0]);
    } else {
        let rest = spellings.drop_last();
        let p = common_prefix_spec(rest);
        let last = spellings.last();
        lemma_shared_len(p, last, 0);
        let n = shared_len(p, last, 0);
        lemma_shared_prefix(p, last, 0);
        if i < spellings.len() - 1 {
            common_prefix_opens_every_spelling(rest, i);
            assert(rest[i] == spellings[i]);
            assert(spellings[i].subrange(0, n) =~= p.take(n)) by {
                assert forall|k: int| 0 <= k < n implies spellings[i].subrange(0, n)[k] == p.take(n)[k] by {
                    assert(spellings[i].subrange(0, p.len() as int)[k] == p[k]);
                }
            }
        } else {
            assert(last.subrange(0, n) =~= p.take(n));
        }
    }
}

/// Where `a` and `b` agree up to `m`, they first differ no earlier than `m`.
proof fn lemma_shared_at_least(a: Seq<char>, b: Seq<char>, i: int, m: int)
    requires
        0 <= i <= m,
        m <= a.len(),
        m <= b.len(),
        forall|k: int| i <= k < m ==> a[k] == b[k],
    ensures
        shared_len(a, b, i) >= m,
    decreases a.len() - i,
{
    if i < m {
        lemma_shared_at_least(a, b, i + 1, m);
    } else {
        lemma_shared_len(a, b, i);
    }
}

/// The shared prefix is the longest: any text every spelling opens with opens it too.
pub proof fn common_prefix_is_longest(spellings: Seq<Seq<char>>, q: Seq<char>)
    requires
        spellings.len() > 0,
        forall|i: int| 0 <= i < spellings.len() ==> crate::text::starts_with_spec(#[trigger] spellings[i], q),
    ensures
        crate::text::starts_with_spec(common_prefix_spec(spellings), q),
    decreases spellings.len(),
{
    if spellings.len() == 1 {
        assert(crate::text::starts_with_spec(spellings[0], q));
    } else {
        let rest = spellings.drop_last();
        assert forall|i: int| 0 <= i < rest.len() implies crate::text::starts_with_spec(#[trigger] rest[i], q) by {
            assert(rest[i] == spellings[i]);
        }
        common_prefix_is_longest(rest, q);
        let p = common_prefix_spec(rest);
        let last = spellings.last();
        assert(crate::text::starts_with_spec(spellings[spellings.len() - 1], q));
        let m = q.len() as int;
        assert forall|k: int| 0 <= k < m implies p[k] == last[k] by {
            assert(p.subrange(0, m)[k] == q[k]);
            assert(last.subrange(0, m)[k] == q[k]);
        }
        lemma_shared_at_least(p, last, 0, m);
        lemma_shared_len(p, last, 0);
        let n = shared_len(p, last, 0);
        assert(p.take(n).subrange(0, m) =~= q) by {
            assert forall|k: int| 0 <= k < m implies p.take(n).subrange(0, m)[k] == q[k] by {
                assert(p.subrange(0, m)[k] == q[k]);
            }
        }
    }
}

proof fn lemma_shared_prefix(a: Seq<char>, b: Seq<char>, i: int)
    requires
        0 <= i <= a.len(),
        i <= b.len(),
        forall|k: int| 0 <= k < i ==> a[k] == b[k],
    ensures
        forall|k: int| 0 <= k < shared_len(a, b, i) ==> a[k] == b[k],
    decreases a.len() - i,
{
    if i < a.len() && i < b.len() && a[i] == b[i] {
        lemma_shared_prefix(a, b, i + 1);
    }
}

/// Every chart that declares at least one document, in directory order.
pub fn contracted_charts(charts: Vec<(String, Option<Declaration>)>) -> (found: Vec<
    (String, Declaration),
>)
    ensures
        found@ == declared_spec(charts@, true),
{
    declared(charts, true)
}

/// Every secret declaration in the repository, chart by chart.
pub open spec fn inventory_spec(per_chart: Seq<Vec<Declared>>) -> Seq<Declared>
    decreases per_chart.len(),
{
    if per_chart.len() == 0 {
        seq![]
    } else {
        inventory_spec(per_chart.drop_last()) + per_chart.last()@
    }
}

/// Every secret declaration in the repository: each contracted chart's declarations, in the
/// charts' order.
pub fn inventory(per_chart: Vec<Vec<Declared>>) -> (found: Vec<Declared>)
    ensures
        found@ == inventory_spec(per_chart@),
{
    let ghost all = per_chart@;
    let mut found: Vec<Declared> = Vec::new();
    let mut pending = per_chart;
    let total = pending.len();
    let mut i: usize = 0;
    while pending.len() > 0
        invariant
            total == all.len(),
            i + pending@.len() == all.len(),
            pending@ == all.skip(i as int),
            found@ == inventory_spec(all.take(i as int)),
        decreases pending.len(),
    {
        let mut chart = pending.remove(0);
        assert(pending@ =~= all.skip(i + 1));
        assert(all.take(i + 1).drop_last() =~= all.take(i as int));
        assert(all.take(i + 1).last() == chart);
        let ghost was = found@;
        found.append(&mut chart);
        assert(found@ =~= was + all.take(i + 1).last()@);
        i = i + 1;
    }
    assert(all.take(i as int) =~= all);
    found
}

// ------------------------------------------------------------------------------------------------
// Reading one contract
// ------------------------------------------------------------------------------------------------

/// The keys a contract declares, as its `schema.keys` lists them.
pub open spec fn keys_of(contract: Json) -> Seq<Json> {
    match get_spec(contract, "schema"@) {
        Some(schema) => match get_spec(schema, "keys"@) {
            Some(Json::Array(items)) => items@,
            _ => seq![],
        },
        None => seq![],
    }
}

/// Whether a key is an object marked `secret: true`.
pub open spec fn is_secret(key: Json) -> bool {
    key is Object && get_spec(key, "secret"@) == Some(Json::Bool(true))
}

/// The secret keys among a list, in order.
pub open spec fn secret_keys(keys: Seq<Json>) -> Seq<Json>
    decreases keys.len(),
{
    if keys.len() == 0 {
        seq![]
    } else if is_secret(keys.last()) {
        secret_keys(keys.drop_last()).push(keys.last())
    } else {
        secret_keys(keys.drop_last())
    }
}

/// The first line of some lines that holds anything once trimmed, trimmed; empty when none does.
pub open spec fn first_nonblank(ls: Seq<Seq<char>>) -> Seq<char>
    decreases ls.len(),
{
    if ls.len() == 0 {
        seq![]
    } else if trim_spec(ls[0]).len() > 0 {
        trim_spec(ls[0])
    } else {
        first_nonblank(ls.drop_first())
    }
}

/// A key's summary: the first non-blank line of its documentation.
pub open spec fn summary_of(key: Json) -> Seq<char> {
    first_nonblank(lines_spec(field_text(key, "docs"@)))
}

/// The application a contract describes: its own name, or the image when it gives none.
pub open spec fn app_of(contract: Json, image: Seq<char>) -> Seq<char> {
    match get_spec(contract, "app"@) {
        Some(app) => match get_spec(app, "name"@) {
            Some(Json::Str(name)) => name@,
            _ => image,
        },
        None => image,
    }
}

/// Whether a declaration is what one secret key of one contract says.
pub open spec fn declares_key(
    d: Declared,
    chart: Seq<char>,
    document: Seq<char>,
    label: Seq<char>,
    app: Seq<char>,
    key: Json,
) -> bool {
    &&& d.chart@ == chart
    &&& d.document@ == document
    &&& d.contract@ == label
    &&& d.image@ == app
    &&& d.path@ == field_text(key, "path"@)
    &&& d.secrets_file@ == field_text(key, "secrets_file"@)
    &&& d.env@ == field_text(key, "env"@)
    &&& d.env_file@ == field_text(key, "env_file"@)
    &&& d.text_form@ == field_text(key, "text_form"@)
    &&& d.required == (get_spec(key, "required"@) == Some(Json::Bool(true)))
    &&& d.summary@ == summary_of(key)
}

/// The first non-blank line of a text, trimmed.
fn first_line(text: &String) -> (s: String)
    ensures
        s@ == first_nonblank(lines_spec(text@)),
{
    let all = lines(&crate::text::chars(text));
    let ghost ls = lines_spec(text@);
    assert(ls.skip(0) =~= ls);
    let mut k: usize = 0;
    while k < all.len()
        invariant
            k <= all@.len(),
            crate::text::views(all@) == ls,
            ls == lines_spec(text@),
            first_nonblank(ls) == first_nonblank(ls.skip(k as int)),
        decreases all.len() - k,
    {
        let t = trim(&all[k]);
        assert(ls.skip(k as int)[0] == all@[k as int]@);
        if t.len() > 0 {
            assert(first_nonblank(ls.skip(k as int)) == trim_spec(ls.skip(k as int)[0]));
            return crate::text::string_of(&t);
        }
        assert(ls.skip(k as int).drop_first() =~= ls.skip(k + 1));
        k = k + 1;
    }
    assert(ls.skip(k as int).len() == 0);
    String::new()
}

/// Whether a field is `true`.
fn flag(key: &Json, name: &str) -> (b: bool)
    ensures
        b == (get_spec(*key, name@) == Some(Json::Bool(true))),
{
    match key.get(name) {
        Some(Json::Bool(held)) => *held,
        _ => false,
    }
}

/// Every `secret: true` key of one contract a chart vendors for one document, as the chart, the
/// document and the vendored file name it.
pub fn secrets_of(chart: &str, document: &str, label: &str, image: &str, contract: &Json) -> (found: Vec<Declared>)
    ensures
        found@.len() == secret_keys(keys_of(*contract)).len(),
        forall|i: int|
            0 <= i < found@.len() ==> declares_key(
                #[trigger] found@[i],
                chart@,
                document@,
                label@,
                app_of(*contract, image@),
                secret_keys(keys_of(*contract))[i],
            ),
{
    let app = match contract.get("app") {
        Some(held) => match held.get("name") {
            Some(Json::Str(name)) => name.clone(),
            _ => image.to_owned(),
        },
        None => image.to_owned(),
    };
    let empty: Vec<Json> = Vec::new();
    let keys: &Vec<Json> = match contract.get("schema") {
        Some(schema) => match schema.get("keys") {
            Some(Json::Array(items)) => items,
            _ => &empty,
        },
        None => &empty,
    };
    let mut found: Vec<Declared> = Vec::new();
    let mut k: usize = 0;
    while k < keys.len()
        invariant
            k <= keys@.len(),
            keys@ == keys_of(*contract),
            app@ == app_of(*contract, image@),
            found@.len() == secret_keys(keys@.take(k as int)).len(),
            forall|i: int|
                0 <= i < found@.len() ==> declares_key(
                    #[trigger] found@[i],
                    chart@,
                    document@,
                    label@,
                    app@,
                    secret_keys(keys@.take(k as int))[i],
                ),
        decreases keys.len() - k,
    {
        let key = &keys[k];
        assert(keys@.take(k + 1).drop_last() =~= keys@.take(k as int));
        assert(keys@.take(k + 1).last() == *key);
        let secret = match key {
            Json::Object(_) => flag(key, "secret"),
            _ => false,
        };
        if secret {
            let docs = text_of(key, "docs");
            let d = Declared {
                chart: chart.to_owned(),
                document: document.to_owned(),
                contract: label.to_owned(),
                image: app.clone(),
                path: text_of(key, "path"),
                secrets_file: text_of(key, "secrets_file"),
                env: text_of(key, "env"),
                env_file: text_of(key, "env_file"),
                text_form: text_of(key, "text_form"),
                required: flag(key, "required"),
                summary: first_line(&docs),
            };
            let ghost before = found@;
            found.push(d);
            assert forall|i: int| 0 <= i < found@.len() implies declares_key(
                #[trigger] found@[i],
                chart@,
                document@,
                label@,
                app@,
                secret_keys(keys@.take(k + 1))[i],
            ) by {
                if i < before.len() {
                    assert(found@[i] == before[i]);
                }
            }
        }
        k = k + 1;
    }
    assert(keys@.take(keys@.len() as int) =~= keys@);
    found
}

// ------------------------------------------------------------------------------------------------
// The report
// ------------------------------------------------------------------------------------------------

/// Everything one pass over the rendered manifests found.
#[derive(Debug, Default)]
pub struct Surface {
    /// The charts reconciled.
    pub charts: Vec<String>,
    /// Every values file any of them was rendered under.
    pub values_files: Vec<String>,
    /// Credentials nothing supplies.
    pub undeliverable: Vec<Undeliverable>,
    /// Delivered file names no contract of the chart claims.
    pub unclaimed: Vec<Mount>,
    /// Delivered file names only a sibling image's contract claims.
    pub over_projected: Vec<Mount>,
    /// Ordinary keys the chart chose to deliver as Secrets.
    pub elevated: Vec<Elevated>,
    /// Anything that stopped a chart being reconciled, rather than anything found wrong in one.
    pub notes: Vec<String>,
}

/// A name as a report quotes it.
pub open spec fn q(name: Seq<char>) -> Seq<char> {
    "'"@ + name + "'"@
}

/// Names joined with a comma.
pub open spec fn listing(names: Vec<String>) -> Seq<char> {
    join_spec(strs(names@), ", "@)
}

/// Every channel a credential could have arrived by.
pub open spec fn channels(row: Credential) -> Seq<char> {
    "not as the file "@ + q(row.secrets_file@) + " in a secrets directory, not through "@ + row.env_file@
        + ", not as "@ + row.env@ + ", and not by the rendered document"@
}

/// What the contract itself says of a credential, when it says anything.
pub open spec fn contract_says(row: Credential) -> Seq<char> {
    if row.summary@.len() == 0 {
        seq![]
    } else {
        " The contract says: "@ + row.summary@
    }
}

/// The finding for one credential nothing supplies.
pub open spec fn undeliverable_finding(u: Undeliverable) -> (Seq<char>, Seq<char>, bool) {
    let row = u.credential;
    let n = decimal(u.values_files@.len());
    if u.named_by_chart {
        ("unsupplied: "@ + row.chart@, row.path@ + " is declared secret by "@ + listing(row.images)
            + " and none of the "@ + n + " `ci/` values file(s) supplies it: "@ + channels(row)
            + ". The chart does mention it, in "@ + listing(u.named_in)
            + ", so it has heard of the credential: this is a fixture that never sets it, or a spelling the chart deliberately handles some other way, rather than a credential nothing in the chart knows about."@
            + contract_says(row), false)
    } else {
        ("undeliverable: "@ + row.chart@, row.path@ + " is declared secret by "@ + listing(row.images)
            + ", no rendering of this chart supplies it ("@ + channels(row)
            + "), and no file of the chart outside its vendored contracts mentions any of those spellings. Nothing can supply this credential and nobody reading the values file would learn it exists. Checked against all "@
            + n + " `ci/` values file(s); "@ + (if row.required { "required"@ } else { "optional"@ })
            + " to the image."@ + contract_says(row), true)
    }
}

/// The finding for one container given files no contract of its chart claims.
pub open spec fn unclaimed_finding(c: Container) -> (Seq<char>, Seq<char>, bool) {
    ("unclaimed: "@ + c.chart@, c.workload@ + " container "@ + q(c.container@) + " mounts "@ + listing(c.files)
        + " from a Secret, and no contract this chart vendors spells any of those names, as a key or as a leaf of a dynamic map. Under "@
        + listing(c.values_files)
        + ". Gate 3 did not judge them: it inspects a resolved secrets directory on a declared consumer, and these are outside that reach."@, true)
}

/// The finding for one container given files only a sibling image's contract claims.
pub open spec fn over_projected_finding(c: Container) -> (Seq<char>, Seq<char>, bool) {
    ("over-projected: "@ + c.chart@, c.workload@ + " container "@ + q(c.container@) + " runs the "@ + c.image@
        + " image and is given "@ + listing(c.files)
        + ", none of which that image's own contract declares; a sibling image's does. The pod holds credentials the binary inside it never reads. Under "@
        + listing(c.values_files)
        + ". Gate 3 did not judge them: it inspects a resolved secrets directory on a declared consumer, and this container is outside that reach."@, true)
}

/// The finding for one key the chart delivers as a Secret though the contract does not.
pub open spec fn elevated_finding(e: Elevated) -> (Seq<char>, Seq<char>, bool) {
    ("elevated: "@ + e.chart@, e.path@ + " is `secret: false` in the contract and this chart delivers it as the Secret file "@
        + q(e.file_name@) + " to "@ + listing(e.containers)
        + ". Chart policy electing to treat a value as more sensitive than the image does; its text_form is "@
        + q(e.text_form@) + ", so a file can supply it and gate 3 permits it. Recorded, not counted against the chart."@, false)
}

/// A finding as its three parts.
pub open spec fn parts(f: Finding) -> (Seq<char>, Seq<char>, bool) {
    (f.at@, f.message@, f.failing)
}

/// The findings of a report of a surface, given the two groupings by container.
pub open spec fn surface_findings(s: Surface, unclaimed: Seq<Container>, over: Seq<Container>) -> Seq<(Seq<char>, Seq<char>, bool)> {
    strs(s.notes@).map_values(|n: Seq<char>| ("not reconciled"@, n, false))
        + s.undeliverable@.map_values(|u: Undeliverable| undeliverable_finding(u))
        + unclaimed.map_values(|c: Container| unclaimed_finding(c))
        + over.map_values(|c: Container| over_projected_finding(c))
        + s.elevated@.map_values(|e: Elevated| elevated_finding(e))
}

/// Names joined with a comma.
fn list_text(names: &Vec<String>) -> (v: Vec<char>)
    ensures
        v@ == listing(*names),
{
    let mut parts: Vec<Vec<char>> = Vec::new();
    let mut k: usize = 0;
    while k < names.len()
        invariant
            k <= names@.len(),
            views(parts@) == strs(names@).take(k as int),
        decreases names.len() - k,
    {
        let ghost was = views(parts@);
        parts.push(chars(&names[k]));
        assert(views(parts@) == was.push(names@[k as int]@));
        assert(strs(names@).take(k + 1) =~= strs(names@).take(k as int).push(names@[k as int]@));
        k = k + 1;
    }
    assert(strs(names@).take(names@.len() as int) =~= strs(names@));
    let sep = chars_of(", ");
    join(&parts, &sep)
}

/// A name in the quotes a report writes it in.
fn quote(name: &String) -> (v: Vec<char>)
    ensures
        v@ == q(name@),
{
    let mut out = chars_of("'");
    push_all(&mut out, &chars(name));
    push_str(&mut out, "'");
    out
}

/// Every channel a credential could have arrived by.
fn channels_text(row: &Credential) -> (v: Vec<char>)
    ensures
        v@ == channels(*row),
{
    let mut out = chars_of("not as the file ");
    push_all(&mut out, &quote(&row.secrets_file));
    push_str(&mut out, " in a secrets directory, not through ");
    push_all(&mut out, &chars(&row.env_file));
    push_str(&mut out, ", not as ");
    push_all(&mut out, &chars(&row.env));
    push_str(&mut out, ", and not by the rendered document");
    out
}

/// The finding for one credential nothing supplies.
fn undeliverable_text(u: &Undeliverable) -> (f: Finding)
    ensures
        parts(f) == undeliverable_finding(*u),
{
    let row = &u.credential;
    let n = decimal_of(u.values_files.len() as u64);
    let said = if row.summary.as_str().is_empty() {
        Vec::new()
    } else {
        let mut held = chars_of(" The contract says: ");
        push_all(&mut held, &chars(&row.summary));
        held
    };
    assert(said@ == contract_says(*row));
    if u.named_by_chart {
        let mut at = chars_of("unsupplied: ");
        push_all(&mut at, &chars(&row.chart));
        let mut m = chars(&row.path);
        push_str(&mut m, " is declared secret by ");
        push_all(&mut m, &list_text(&row.images));
        push_str(&mut m, " and none of the ");
        push_all(&mut m, &n);
        push_str(&mut m, " `ci/` values file(s) supplies it: ");
        push_all(&mut m, &channels_text(row));
        push_str(&mut m, ". The chart does mention it, in ");
        push_all(&mut m, &list_text(&u.named_in));
        push_str(&mut m, ", so it has heard of the credential: this is a fixture that never sets it, or a spelling the chart deliberately handles some other way, rather than a credential nothing in the chart knows about.");
        push_all(&mut m, &said);
        Finding { at: string_of(&at), message: string_of(&m), failing: false }
    } else {
        let mut at = chars_of("undeliverable: ");
        push_all(&mut at, &chars(&row.chart));
        let mut m = chars(&row.path);
        push_str(&mut m, " is declared secret by ");
        push_all(&mut m, &list_text(&row.images));
        push_str(&mut m, ", no rendering of this chart supplies it (");
        push_all(&mut m, &channels_text(row));
        push_str(&mut m, "), and no file of the chart outside its vendored contracts mentions any of those spellings. Nothing can supply this credential and nobody reading the values file would learn it exists. Checked against all ");
        push_all(&mut m, &n);
        push_str(&mut m, " `ci/` values file(s); ");
        push_str(&mut m, if row.required { "required" } else { "optional" });
        push_str(&mut m, " to the image.");
        push_all(&mut m, &said);
        Finding { at: string_of(&at), message: string_of(&m), failing: true }
    }
}

/// The finding for one container a check found mounting files its contracts do not claim.
fn container_text(c: &Container, over: bool) -> (f: Finding)
    ensures
        parts(f) == if over { over_projected_finding(*c) } else { unclaimed_finding(*c) },
{
    let mut at = if over { chars_of("over-projected: ") } else { chars_of("unclaimed: ") };
    push_all(&mut at, &chars(&c.chart));
    let mut m = chars(&c.workload);
    push_str(&mut m, " container ");
    push_all(&mut m, &quote(&c.container));
    if over {
        push_str(&mut m, " runs the ");
        push_all(&mut m, &chars(&c.image));
        push_str(&mut m, " image and is given ");
        push_all(&mut m, &list_text(&c.files));
        push_str(&mut m, ", none of which that image's own contract declares; a sibling image's does. The pod holds credentials the binary inside it never reads. Under ");
        push_all(&mut m, &list_text(&c.values_files));
        push_str(&mut m, ". Gate 3 did not judge them: it inspects a resolved secrets directory on a declared consumer, and this container is outside that reach.");
    } else {
        push_str(&mut m, " mounts ");
        push_all(&mut m, &list_text(&c.files));
        push_str(&mut m, " from a Secret, and no contract this chart vendors spells any of those names, as a key or as a leaf of a dynamic map. Under ");
        push_all(&mut m, &list_text(&c.values_files));
        push_str(&mut m, ". Gate 3 did not judge them: it inspects a resolved secrets directory on a declared consumer, and these are outside that reach.");
    }
    Finding { at: string_of(&at), message: string_of(&m), failing: true }
}

/// The finding for one key the chart delivers as a Secret though the contract does not.
fn elevated_text(e: &Elevated) -> (f: Finding)
    ensures
        parts(f) == elevated_finding(*e),
{
    let mut at = chars_of("elevated: ");
    push_all(&mut at, &chars(&e.chart));
    let mut m = chars(&e.path);
    push_str(&mut m, " is `secret: false` in the contract and this chart delivers it as the Secret file ");
    push_all(&mut m, &quote(&e.file_name));
    push_str(&mut m, " to ");
    push_all(&mut m, &list_text(&e.containers));
    push_str(&mut m, ". Chart policy electing to treat a value as more sensitive than the image does; its text_form is ");
    push_all(&mut m, &quote(&e.text_form));
    push_str(&mut m, ", so a file can supply it and gate 3 permits it. Recorded, not counted against the chart.");
    Finding { at: string_of(&at), message: string_of(&m), failing: false }
}

/// The report of one pass over the rendered manifests.
///
/// A failure is reserved for a chart that has no channel for a credential at all, and for a
/// credential reaching a pod that cannot read it; a warning is for a gap in what was checked
/// rather than in what the chart does. Unclaimed and over-projected files are reported once per
/// container.
pub fn report_of(surface: &Surface) -> (report: Report)
    ensures
        exists|unclaimed: Seq<Container>, over: Seq<Container>|
            grouped(unclaimed, surface.unclaimed@, surface.unclaimed@.len() as int) && grouped(
                over,
                surface.over_projected@,
                surface.over_projected@.len() as int,
            ) && report.findings@.map_values(|f: Finding| parts(f)) == surface_findings(*surface, unclaimed, over),
{
    let mut report = Report::new();
    let ghost mut expected: Seq<(Seq<char>, Seq<char>, bool)> = seq![];
    let mut k: usize = 0;
    while k < surface.notes.len()
        invariant
            k <= surface.notes@.len(),
            report.findings@.map_values(|f: Finding| parts(f)) == strs(surface.notes@).take(k as int).map_values(
                |n: Seq<char>| ("not reconciled"@, n, false),
            ),
        decreases surface.notes.len() - k,
    {
        let ghost was = report.findings@;
        report.warn("not reconciled".to_owned(), surface.notes[k].clone());
        assert(report.findings@.map_values(|f: Finding| parts(f)) =~= was.map_values(|f: Finding| parts(f)).push(
            ("not reconciled"@, surface.notes@[k as int]@, false),
        ));
        assert(strs(surface.notes@).take(k + 1).map_values(|n: Seq<char>| ("not reconciled"@, n, false)) =~= strs(
            surface.notes@,
        ).take(k as int).map_values(|n: Seq<char>| ("not reconciled"@, n, false)).push(
            ("not reconciled"@, surface.notes@[k as int]@, false),
        ));
        k = k + 1;
    }
    assert(strs(surface.notes@).take(surface.notes@.len() as int) =~= strs(surface.notes@));
    let ghost head = report.findings@.map_values(|f: Finding| parts(f));
    let mut k: usize = 0;
    while k < surface.undeliverable.len()
        invariant
            k <= surface.undeliverable@.len(),
            report.findings@.map_values(|f: Finding| parts(f)) == head + surface.undeliverable@.take(k as int).map_values(
                |u: Undeliverable| undeliverable_finding(u),
            ),
        decreases surface.undeliverable.len() - k,
    {
        let f = undeliverable_text(&surface.undeliverable[k]);
        let ghost was = report.findings@;
        report.findings.push(f);
        assert(report.findings@.map_values(|f: Finding| parts(f)) =~= was.map_values(|f: Finding| parts(f)).push(
            undeliverable_finding(surface.undeliverable@[k as int]),
        ));
        assert(surface.undeliverable@.take(k + 1).map_values(|u: Undeliverable| undeliverable_finding(u)) =~= surface.undeliverable@.take(
            k as int,
        ).map_values(|u: Undeliverable| undeliverable_finding(u)).push(undeliverable_finding(surface.undeliverable@[k as int])));
        k = k + 1;
    }
    assert(surface.undeliverable@.take(surface.undeliverable@.len() as int) =~= surface.undeliverable@);
    let ghost second = report.findings@.map_values(|f: Finding| parts(f));
    let unclaimed = by_container(&surface.unclaimed);
    let mut k: usize = 0;
    while k < unclaimed.len()
        invariant
            k <= unclaimed@.len(),
            report.findings@.map_values(|f: Finding| parts(f)) == second + unclaimed@.take(k as int).map_values(
                |c: Container| unclaimed_finding(c),
            ),
        decreases unclaimed.len() - k,
    {
        let f = container_text(&unclaimed[k], false);
        let ghost was = report.findings@;
        report.findings.push(f);
        assert(report.findings@.map_values(|f: Finding| parts(f)) =~= was.map_values(|f: Finding| parts(f)).push(
            unclaimed_finding(unclaimed@[k as int]),
        ));
        assert(unclaimed@.take(k + 1).map_values(|c: Container| unclaimed_finding(c)) =~= unclaimed@.take(k as int).map_values(
            |c: Container| unclaimed_finding(c),
        ).push(unclaimed_finding(unclaimed@[k as int])));
        k = k + 1;
    }
    assert(unclaimed@.take(unclaimed@.len() as int) =~= unclaimed@);
    let ghost third = report.findings@.map_values(|f: Finding| parts(f));
    let over = by_container(&surface.over_projected);
    let mut k: usize = 0;
    while k < over.len()
        invariant
            k <= over@.len(),
            report.findings@.map_values(|f: Finding| parts(f)) == third + over@.take(k as int).map_values(
                |c: Container| over_projected_finding(c),
            ),
        decreases over.len() - k,
    {
        let f = container_text(&over[k], true);
        let ghost was = report.findings@;
        report.findings.push(f);
        assert(report.findings@.map_values(|f: Finding| parts(f)) =~= was.map_values(|f: Finding| parts(f)).push(
            over_projected_finding(over@[k as int]),
        ));
        assert(over@.take(k + 1).map_values(|c: Container| over_projected_finding(c)) =~= over@.take(k as int).map_values(
            |c: Container| over_projected_finding(c),
        ).push(over_projected_finding(over@[k as int])));
        k = k + 1;
    }
    assert(over@.take(over@.len() as int) =~= over@);
    let ghost fourth = report.findings@.map_values(|f: Finding| parts(f));
    let mut k: usize = 0;
    while k < surface.elevated.len()
        invariant
            k <= surface.elevated@.len(),
            report.findings@.map_values(|f: Finding| parts(f)) == fourth + surface.elevated@.take(k as int).map_values(
                |e: Elevated| elevated_finding(e),
            ),
        decreases surface.elevated.len() - k,
    {
        let f = elevated_text(&surface.elevated[k]);
        let ghost was = report.findings@;
        report.findings.push(f);
        assert(report.findings@.map_values(|f: Finding| parts(f)) =~= was.map_values(|f: Finding| parts(f)).push(
            elevated_finding(surface.elevated@[k as int]),
        ));
        assert(surface.elevated@.take(k + 1).map_values(|e: Elevated| elevated_finding(e)) =~= surface.elevated@.take(
            k as int,
        ).map_values(|e: Elevated| elevated_finding(e)).push(elevated_finding(surface.elevated@[k as int])));
        k = k + 1;
    }
    assert(surface.elevated@.take(surface.elevated@.len() as int) =~= surface.elevated@);
    assert(report.findings@.map_values(|f: Finding| parts(f)) =~= surface_findings(*surface, unclaimed@, over@));
    report
}

// ------------------------------------------------------------------------------------------------
// What a chart's own files name, and what a document supplies
// ------------------------------------------------------------------------------------------------

/// Every table and every leaf of a document as a dotted path, under a prefix.
pub open spec fn paths_spec(v: JsonView, prefix: Seq<char>) -> Set<Seq<char>>
    decreases v, 0nat,
{
    match v {
        JsonView::Object(f) => paths_fields(f, f.len(), prefix),
        _ => Set::empty(),
    }
}

/// A field's path under a prefix.
pub open spec fn path_under(prefix: Seq<char>, name: Seq<char>) -> Seq<char> {
    if prefix.len() == 0 {
        name
    } else {
        prefix + "."@ + name
    }
}

/// The paths of the first `n` fields and of everything below them.
pub open spec fn paths_fields(f: Seq<(Seq<char>, JsonView)>, n: nat, prefix: Seq<char>) -> Set<
    Seq<char>,
>
    decreases f, n,
{
    if n == 0 || n > f.len() {
        Set::empty()
    } else {
        let full = path_under(prefix, f[n - 1].0);
        paths_fields(f, (n - 1) as nat, prefix).insert(full).union(paths_spec(f[n - 1].1, full))
    }
}

/// Add every table and every leaf of a document, under a prefix, to a sorted list of paths.
fn collect_paths(instance: &Json, prefix: &[char], into: &mut Vec<String>)
    requires
        ascending(strs(old(into)@)),
    ensures
        ascending(strs(final(into)@)),
        held(strs(final(into)@)) == held(strs(old(into)@)).union(
            paths_spec(view_of(*instance), prefix@),
        ),
    decreases instance,
{
    match instance {
        Json::Object(fields) => {
            proof {
                lemma_fields_view(fields@, fields@.len() as nat);
            }
            let ghost fv = crate::schema::fview(fields@);
            let ghost start = held(strs(into@));
            let mut k: usize = 0;
            while k < fields.len()
                invariant
                    k <= fields@.len(),
                    *instance == Json::Object(*fields),
                    fv == crate::schema::fview(fields@),
                    fv.len() == fields@.len(),
                    forall|j: int| 0 <= j < fields@.len() ==> #[trigger] fv[j] == (
                        fields@[j].0@,
                        view_of(fields@[j].1),
                    ),
                    ascending(strs(into@)),
                    held(strs(into@)) == start.union(paths_fields(fv, k as nat, prefix@)),
                decreases fields.len() - k,
            {
                let mut full: Vec<char> = Vec::new();
                if prefix.len() == 0 {
                    push_all(&mut full, &chars(&fields[k].0));
                } else {
                    push_all(&mut full, prefix);
                    push_str(&mut full, ".");
                    push_all(&mut full, &chars(&fields[k].0));
                }
                assert(full@ == path_under(prefix@, fv[k as int].0));
                proof {
                    assert(decreases_to!(*instance => (*instance)->Object_0));
                    assert(decreases_to!(*fields => fields@));
                    assert(decreases_to!(fields@ => fields@[k as int]));
                    assert(decreases_to!(fields@[k as int] => fields@[k as int].1));
                }
                let ghost before = held(strs(into@));
                collect_paths(&fields[k].1, &full, into);
                let ghost mid = held(strs(into@));
                insert_sorted(into, string_of(&full));
                assert(held(strs(into@)) =~= start.union(paths_fields(fv, (k + 1) as nat, prefix@)));
                k = k + 1;
            }
        },
        _ => {
            assert(held(strs(into@)) =~= held(strs(into@)).union(Set::empty()));
        },
    }
}

/// Every table and every leaf of a document as a dotted path under a prefix, sorted and once
/// each.
///
/// Tables are included so a `structured` key supplied as a whole table counts as supplied, which
/// is what the loader sees.
pub fn document_paths(instance: &Json, prefix: &str) -> (paths: Vec<String>)
    ensures
        ascending(strs(paths@)),
        held(strs(paths@)) == paths_spec(view_of(*instance), prefix@),
{
    let mut paths: Vec<String> = Vec::new();
    assert(held(strs(paths@)) =~= Set::<Seq<char>>::empty());
    collect_paths(instance, &chars_of(prefix), &mut paths);
    assert(held(strs(paths@)) =~= paths_spec(view_of(*instance), prefix@));
    paths
}

/// Whether a character means something in a regular expression: the characters
/// `regex_syntax::is_meta_character` names.
pub open spec fn is_meta(c: char) -> bool {
    c == '\\' || c == '.' || c == '+' || c == '*' || c == '?' || c == '(' || c == ')' || c == '|'
        || c == '[' || c == ']' || c == '{' || c == '}' || c == '^' || c == '$' || c == '#' || c
        == '&' || c == '-' || c == '~'
}

/// A text as a regular expression that matches it literally: each meta character behind a
/// backslash.
pub open spec fn escape_spec(text: Seq<char>) -> Seq<char> {
    text.map_values(
        |c: char|
            if is_meta(c) {
                seq!['\\', c]
            } else {
                seq![c]
            },
    ).flatten()
}

/// `regex::escape`.
///
/// Its contract is what `regex_syntax::escape_into` does in the version this builds with: a
/// backslash in front of every character `is_meta_character` names, everything else as itself.
#[verifier::external_body]
fn regex_escape(text: &str) -> (s: String)
    ensures
        s@ == escape_spec(text@),
{
    regex::escape(text)
}

/// Whether `regex::Regex::new` accepts a pattern: it is a valid expression within the default
/// size limit. That limit is counted in bytes of compiled program, whose size depends on the
/// pointer width, so for a very large pattern the answer is fixed per build rather than across
/// builds for different targets.
pub uninterp spec fn compiles(pattern: Seq<char>) -> bool;

/// Whether the expression a pattern compiles to matches anywhere in a text, as
/// `regex::Regex::is_match` answers.
pub uninterp spec fn regex_match(pattern: Seq<char>, text: Seq<char>) -> bool;

/// `regex::Regex::new` on a pattern, then `Regex::is_match` on each text.
///
/// Its contract names both answers rather than restating a regular-expression engine: the
/// compilation succeeds exactly when `compiles` holds of the pattern, and then each result is
/// `regex_match` of the pattern and that text. The error's message is the crate's own and is not
/// stated.
#[verifier::external_body]
fn search(pattern: &str, texts: &Vec<String>) -> (r: Result<Vec<bool>, String>)
    ensures
        match r {
            Ok(found) => compiles(pattern@) && found@.len() == texts@.len() && forall|i: int|
                0 <= i < texts@.len() ==> found@[i] == regex_match(pattern@, #[trigger] texts@[i]@),
            Err(_) => !compiles(pattern@),
        },
{
    let compiled = regex::Regex::new(pattern).map_err(|failure| failure.to_string())?;
    Ok(texts.iter().map(|text| compiled.is_match(text)).collect())
}

/// A credential's spellings that are not empty: its path, its secrets-directory file name, its
/// environment variable and its indirection variable, in that order.
pub open spec fn spellings_spec(c: Credential) -> Seq<Seq<char>> {
    let all = seq![c.path@, c.secrets_file@, c.env@, c.env_file@];
    all.filter(|s: Seq<char>| s.len() > 0)
}

/// The expression that finds any of the spellings as a whole word: not continued by a word
/// character on either side, nor preceded by a `.`.
pub open spec fn mention_pattern(spellings: Seq<Seq<char>>) -> Seq<char> {
    "(?:^|[^\\w.])(?:"@ + join_spec(spellings.map_values(|s: Seq<char>| escape_spec(s)), "|"@)
        + ")(?:$|[^\\w])"@
}

/// The paths of the first `n` files whose text the pattern matches.
pub open spec fn mentioning(files: Seq<(String, String)>, pattern: Seq<char>, n: nat) -> Seq<Seq<char>>
    decreases n,
{
    if n == 0 || n > files.len() {
        seq![]
    } else if regex_match(pattern, files[n - 1].1@) {
        mentioning(files, pattern, (n - 1) as nat).push(files[n - 1].0@)
    } else {
        mentioning(files, pattern, (n - 1) as nat)
    }
}

/// What a refused pattern is reported with, before the crate's own message.
pub open spec fn unmatchable() -> Seq<char> {
    "a credential spelling is not matchable: "@
}

/// The chart files, by path, that mention any spelling of one credential, sorted.
///
/// The files are the chart's own text files with their contents, paths relative to the chart.
/// A spelling is found with boundaries rather than as a substring, because the spellings nest:
/// `a__tokens__api` contains `a__token`. A credential with no spelling names nothing.
pub fn names_credential(files: &Vec<(String, String)>, credential: &Credential) -> (r: Result<
    Vec<String>,
    crate::Error,
>)
    ensures
        ({
            let spellings = spellings_spec(*credential);
            let pattern = mention_pattern(spellings);
            match r {
                Ok(found) => (spellings.len() == 0 && found@.len() == 0) || (spellings.len() > 0
                    && compiles(pattern) && crate::order::nondecreasing(strs(found@)) && strs(
                    found@,
                ).to_multiset() == mentioning(files@, pattern, files@.len() as nat).to_multiset()),
                Err(e) => spellings.len() > 0 && !compiles(pattern) && e is Invalid
                    && e.said().len() >= unmatchable().len() && e.said().take(
                    unmatchable().len() as int,
                ) == unmatchable(),
            }
        }),
{
    let ghost all = seq![credential.path@, credential.secrets_file@, credential.env@, credential.env_file@];
    let candidates: Vec<&String> = vec![
        &credential.path,
        &credential.secrets_file,
        &credential.env,
        &credential.env_file,
    ];
    let mut spellings: Vec<Vec<char>> = Vec::new();
    let mut k: usize = 0;
    while k < 4
        invariant
            k <= 4,
            all == seq![credential.path@, credential.secrets_file@, credential.env@, credential.env_file@],
            candidates@.len() == 4,
            forall|i: int| 0 <= i < 4 ==> (#[trigger] candidates@[i])@ == all[i],
            views(spellings@) == all.take(k as int).filter(|s: Seq<char>| s.len() > 0),
        decreases 4 - k,
    {
        proof {
            reveal(Seq::filter);
            assert(all.take(k + 1).drop_last() =~= all.take(k as int));
        }
        let one = chars(candidates[k]);
        if one.len() > 0 {
            let ghost before = views(spellings@);
            spellings.push(one);
            assert(views(spellings@) =~= before.push(one@));
        }
        k = k + 1;
    }
    assert(all.take(4) =~= all);
    assert(views(spellings@) == spellings_spec(*credential));
    if spellings.len() == 0 {
        return Ok(Vec::new());
    }
    let mut escaped: Vec<Vec<char>> = Vec::new();
    let mut m: usize = 0;
    while m < spellings.len()
        invariant
            m <= spellings@.len(),
            views(escaped@) == views(spellings@).take(m as int).map_values(
                |s: Seq<char>| escape_spec(s),
            ),
        decreases spellings.len() - m,
    {
        let one = chars(&regex_escape(string_of(&spellings[m]).as_str()));
        let ghost before = views(escaped@);
        let ghost sv = views(spellings@);
        escaped.push(one);
        assert(sv[m as int] == spellings@[m as int]@);
        assert(one@ == escape_spec(sv[m as int]));
        assert(views(escaped@) =~= before.push(one@));
        assert(sv.take(m + 1).map_values(|s: Seq<char>| escape_spec(s)) =~= sv.take(m as int).map_values(
            |s: Seq<char>| escape_spec(s),
        ).push(escape_spec(sv[m as int])));
        assert(views(escaped@) =~= views(spellings@).take(m + 1).map_values(
            |s: Seq<char>| escape_spec(s),
        ));
        m = m + 1;
    }
    assert(views(spellings@).take(spellings@.len() as int) =~= views(spellings@));
    let mut pattern = chars_of("(?:^|[^\\w.])(?:");
    push_all(&mut pattern, &join(&escaped, &chars_of("|")));
    push_str(&mut pattern, ")(?:$|[^\\w])");
    let ghost pat = mention_pattern(spellings_spec(*credential));
    assert(pattern@ == pat);
    let mut texts: Vec<String> = Vec::new();
    let mut t: usize = 0;
    while t < files.len()
        invariant
            t <= files@.len(),
            texts@.len() == t,
            forall|i: int| 0 <= i < t ==> (#[trigger] texts@[i])@ == files@[i].1@,
        decreases files.len() - t,
    {
        texts.push(files[t].1.clone());
        t = t + 1;
    }
    match search(string_of(&pattern).as_str(), &texts) {
        Err(failure) => {
            let mut message = chars_of("a credential spelling is not matchable: ");
            push_str(&mut message, failure.as_str());
            assert(message@.take(unmatchable().len() as int) =~= unmatchable());
            Err(crate::Error::Invalid(string_of(&message)))
        },
        Ok(hits) => {
            proof {
                assert forall|j: int| 0 <= j < files@.len() implies hits@[j] == regex_match(pat, #[trigger] files@[j].1@) by {
                    assert(texts@[j]@ == files@[j].1@);
                    assert(hits@[j] == regex_match(pat, texts@[j]@));
                }
                lemma_hits_mention(files@, hits@, pat, files@.len() as nat);
            }
            Ok(mentioned(files, &hits))
        },
    }
}

/// The paths of the first `n` files the search hit: those whose answer is `true`, a file past
/// the answers counting as missed.
pub open spec fn hit_paths(files: Seq<(String, String)>, hits: Seq<bool>, n: nat) -> Seq<Seq<char>>
    decreases n,
{
    if n == 0 || n > files.len() {
        seq![]
    } else if n - 1 < hits.len() && hits[n - 1] {
        hit_paths(files, hits, (n - 1) as nat).push(files[n - 1].0@)
    } else {
        hit_paths(files, hits, (n - 1) as nat)
    }
}

/// Where the search answered for each file's text, the files it hit are those that mention.
proof fn lemma_hits_mention(files: Seq<(String, String)>, hits: Seq<bool>, pattern: Seq<char>, n: nat)
    requires
        n <= files.len(),
        hits.len() == files.len(),
        forall|j: int| 0 <= j < files.len() ==> hits[j] == regex_match(pattern, #[trigger] files[j].1@),
    ensures
        hit_paths(files, hits, n) == mentioning(files, pattern, n),
    decreases n,
{
    if n > 0 {
        lemma_hits_mention(files, hits, pattern, (n - 1) as nat);
        assert(hits[n - 1] == regex_match(pattern, files[n - 1].1@));
    }
}

/// The paths of the files a search hit, sorted: one per hit, in path order, a path hit twice
/// kept twice.
pub fn mentioned(files: &Vec<(String, String)>, hits: &Vec<bool>) -> (found: Vec<String>)
    ensures
        crate::order::nondecreasing(strs(found@)),
        strs(found@).to_multiset() == hit_paths(files@, hits@, files@.len() as nat).to_multiset(),
{
    let mut found: Vec<String> = Vec::new();
    assert(strs(found@) =~= hit_paths(files@, hits@, 0));
    let mut i: usize = 0;
    while i < files.len()
        invariant
            i <= files@.len(),
            crate::order::nondecreasing(strs(found@)),
            strs(found@).to_multiset() == hit_paths(files@, hits@, i as nat).to_multiset(),
        decreases files.len() - i,
    {
        if i < hits.len() && hits[i] {
            crate::order::insert_keeping(&mut found, files[i].0.clone());
            assert(hit_paths(files@, hits@, (i + 1) as nat) == hit_paths(files@, hits@, i as nat).push(
                files@[i as int].0@,
            ));
            assert(hit_paths(files@, hits@, (i + 1) as nat).to_multiset() =~= hit_paths(
                files@,
                hits@,
                i as nat,
            ).to_multiset().insert(files@[i as int].0@)) by {
                vstd::seq_lib::to_multiset_build(hit_paths(files@, hits@, i as nat), files@[i as int].0@);
            }
        }
        i = i + 1;
    }
    found
}

/// The index of the last `.` in a name, when it holds one.
pub open spec fn last_dot(name: Seq<char>, n: int) -> Option<int>
    decreases n,
{
    if n <= 0 {
        None
    } else if name[n - 1] == '.' {
        Some(n - 1)
    } else {
        last_dot(name, n - 1)
    }
}

/// A file name's extension as `Path::extension` reads it: what follows the last `.`, unless that
/// `.` opens the name.
pub open spec fn extension_spec(name: Seq<char>) -> Option<Seq<char>> {
    match last_dot(name, name.len() as int) {
        Some(i) => if i == 0 {
            None
        } else {
            Some(name.skip(i + 1))
        },
        None => None,
    }
}

/// Whether an extension is one of a chart's text files.
pub open spec fn chart_text_extension(e: Seq<char>) -> bool {
    e == "yaml"@ || e == "yml"@ || e == "tpl"@ || e == "json"@ || e == "md"@ || e == "txt"@
}

/// Whether a file, by its path relative to the chart, describes what the chart delivers: a text
/// file outside the vendored contracts and the chart's dependencies.
pub open spec fn is_chart_text_spec(relative: Seq<char>) -> bool {
    let parts = crate::text::split_spec(relative, '/');
    let excluded = parts.len() > 1 && (parts[0] == "contracts"@ || parts[0] == "charts"@);
    !excluded && match extension_spec(parts.last()) {
        Some(e) => chart_text_extension(e),
        None => false,
    }
}

/// Whether a file, by its path relative to the chart, is one `names_credential` reads.
pub fn is_chart_text(relative: &str) -> (b: bool)
    ensures
        b == is_chart_text_spec(relative@),
{
    let parts = crate::text::split_char(&chars_of(relative), '/');
    let ghost pv = views(parts@);
    let excluded = parts.len() > 1 && (crate::text::same(&parts[0], &chars_of("contracts"))
        || crate::text::same(&parts[0], &chars_of("charts")));
    assert(pv[0] == parts@[0]@);
    if excluded {
        return false;
    }
    let name = &parts[parts.len() - 1];
    assert(pv.last() == name@);
    let mut n: usize = name.len();
    while n > 0 && name[n - 1] != '.'
        invariant
            n <= name@.len(),
            last_dot(name@, name@.len() as int) == last_dot(name@, n as int),
        decreases n,
    {
        n = n - 1;
    }
    if n == 0 {
        return false;
    }
    let dot = n - 1;
    if dot == 0 {
        return false;
    }
    let e = crate::text::slice_of(name, dot + 1, name.len());
    assert(e@ =~= name@.skip(dot + 1));
    crate::text::same(&e, &chars_of("yaml")) || crate::text::same(&e, &chars_of("yml"))
        || crate::text::same(&e, &chars_of("tpl")) || crate::text::same(&e, &chars_of("json"))
        || crate::text::same(&e, &chars_of("md")) || crate::text::same(&e, &chars_of("txt"))
}

} // verus!
