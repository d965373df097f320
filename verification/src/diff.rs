//! Where a vendored contract sits, as the comparison of two revisions reads it.
//!
//! Contracts are found by walking the files rather than by reading a declaration, so the chart a
//! contract belongs to is read off the path it sits at: `<charts>/<chart>/contracts/<name>.json`.

use vstd::prelude::*;

use crate::report::Report;
use crate::text::{chars_of, split_char, split_spec, string_of, views};

verus! {

/// The chart one contract path belongs to: the third segment from the end, when there is one.
pub open spec fn chart_of_spec(spec: Seq<char>) -> Option<Seq<char>> {
    let parts = split_spec(spec, '/');
    if parts.len() >= 3 {
        Some(parts[parts.len() - 3])
    } else {
        None
    }
}

/// The chart one contract path belongs to.
pub fn chart_of(spec: &str) -> (chart: Option<String>)
    ensures
        match chart {
            Some(c) => chart_of_spec(spec@) == Some(c@),
            None => chart_of_spec(spec@) is None,
        },
{
    let parts = split_char(&chars_of(spec), '/');
    if parts.len() >= 3 {
        assert(views(parts@)[parts@.len() - 3] == parts@[parts@.len() - 3]@);
        Some(string_of(&parts[parts.len() - 3]))
    } else {
        None
    }
}


/// How large a change to a contract is, as a version bump answers for it.
#[derive(Debug, Clone, Copy, PartialEq, Eq, Structural)]
pub enum Severity {
    /// Nothing a reader can tell apart.
    Nothing,
    /// A fix: every reader keeps working unchanged.
    Patch,
    /// An addition: every reader keeps working, some can now do more.
    Minor,
    /// A break: some reader stops working.
    Major,
}

/// The rank of a severity: the larger, the larger the bump it asks for.
pub open spec fn rank(s: Severity) -> nat {
    match s {
        Severity::Nothing => 0,
        Severity::Patch => 1,
        Severity::Minor => 2,
        Severity::Major => 3,
    }
}

impl Severity {
    /// The rank of a severity.
    pub fn level(self) -> (n: u8)
        ensures
            n == rank(self),
    {
        match self {
            Severity::Nothing => 0,
            Severity::Patch => 1,
            Severity::Minor => 2,
            Severity::Major => 3,
        }
    }

    /// Whether this is at least as large as `other`.
    pub fn at_least(self, other: Severity) -> (b: bool)
        ensures
            b == (rank(self) >= rank(other)),
    {
        self.level() >= other.level()
    }
}

/// One finding of a contract comparison.
#[derive(Debug, Clone)]
pub struct Change {
    /// How large it is.
    pub severity: Severity,
    /// What it is about: a key, a variable, a section.
    pub subject: String,
    /// What changed, in a sentence.
    pub message: String,
}

/// One contract, compared across two revisions: every finding.
#[derive(Debug, Clone)]
pub struct ContractDiff {
    /// The contract.
    pub name: String,
    /// What changed.
    pub changes: Vec<Change>,
}

/// The largest severity among some changes, `None` where there are none.
pub open spec fn worst(changes: Seq<Change>) -> Severity
    decreases changes.len(),
{
    if changes.len() == 0 {
        Severity::Nothing
    } else {
        let rest = worst(changes.drop_last());
        if rank(changes.last().severity) > rank(rest) {
            changes.last().severity
        } else {
            rest
        }
    }
}

/// Every finding of a chart's contracts, contract after contract.
pub open spec fn all_changes(contracts: Seq<ContractDiff>) -> Seq<Change>
    decreases contracts.len(),
{
    if contracts.len() == 0 {
        seq![]
    } else {
        all_changes(contracts.drop_last()) + contracts.last().changes@
    }
}

/// The impact is at least the severity of every change, and is the severity of one of them
/// unless it is `Nothing`.
pub proof fn lemma_worst_bounds(changes: Seq<Change>)
    ensures
        forall|i: int| 0 <= i < changes.len() ==> rank(#[trigger] changes[i].severity) <= rank(worst(changes)),
        worst(changes) != Severity::Nothing ==> exists|i: int|
            0 <= i < changes.len() && #[trigger] changes[i].severity == worst(changes),
    decreases changes.len(),
{
    if changes.len() > 0 {
        lemma_worst_bounds(changes.drop_last());
        assert forall|i: int| 0 <= i < changes.len() implies rank(#[trigger] changes[i].severity) <= rank(worst(changes)) by {
            if i < changes.len() - 1 {
                assert(changes.drop_last()[i] == changes[i]);
            }
        }
        if worst(changes) != Severity::Nothing && worst(changes) != changes.last().severity {
            let i = choose|i: int| 0 <= i < changes.drop_last().len() && #[trigger] changes.drop_last()[i].severity == worst(changes.drop_last());
            assert(changes[i] == changes.drop_last()[i]);
        }
    }
}

/// The largest severity among a list of changes.
fn worst_of(changes: &Vec<Change>, start: Severity) -> (s: Severity)
    ensures
        rank(s) == if rank(worst(changes@)) > rank(start) { rank(worst(changes@)) } else { rank(start) },
        s == start || s == worst(changes@),
{
    let mut s = start;
    let mut k: usize = 0;
    while k < changes.len()
        invariant
            k <= changes@.len(),
            rank(s) == if rank(worst(changes@.take(k as int))) > rank(start) {
                rank(worst(changes@.take(k as int)))
            } else {
                rank(start)
            },
            s == start || s == worst(changes@.take(k as int)),
        decreases changes.len() - k,
    {
        assert(changes@.take(k + 1).drop_last() =~= changes@.take(k as int));
        assert(changes@.take(k + 1).last() == changes@[k as int]);
        if !s.at_least(changes[k].severity) {
            s = changes[k].severity;
        }
        k = k + 1;
    }
    assert(changes@.take(changes@.len() as int) =~= changes@);
    s
}

/// Every contract a chart carries, and what the set of them implies for its version.
///
/// Both versions are kept, because the real question is not "what bump does this deserve" but "is
/// the bump already in this branch big enough", and only the pair answers that.
#[derive(Debug, Clone)]
pub struct ChartDiff {
    /// The chart.
    pub chart: String,
    /// Each of its contracts, compared.
    pub contracts: Vec<ContractDiff>,
    /// Its version at the comparison revision.
    pub old_version: Option<String>,
    /// Its version in the working tree.
    pub new_version: Option<String>,
}

impl ChartDiff {
    /// The largest impact among its contracts.
    pub fn impact(&self) -> (s: Severity)
        ensures
            s == worst(all_changes(self.contracts@)),
    {
        let ghost cs = self.contracts@;
        let mut s = Severity::Nothing;
        let mut k: usize = 0;
        while k < self.contracts.len()
            invariant
                k <= cs.len(),
                cs == self.contracts@,
                s == worst(all_changes(cs.take(k as int))),
            decreases self.contracts.len() - k,
        {
            assert(cs.take(k + 1).drop_last() =~= cs.take(k as int));
            proof {
                lemma_worst_append(all_changes(cs.take(k as int)), cs[k as int].changes@);
            }
            s = worst_of(&self.contracts[k].changes, s);
            k = k + 1;
        }
        assert(cs.take(cs.len() as int) =~= cs);
        s
    }

    /// The findings that set the impact: those of its largest severity, contract after contract,
    /// and none where nothing changed.
    pub fn drivers(&self) -> (v: Vec<&Change>)
        ensures
            v@.map_values(|c: &Change| *c) == if worst(all_changes(self.contracts@)) == Severity::Nothing {
                Seq::<Change>::empty()
            } else {
                all_changes(self.contracts@).filter(
                    |c: Change| c.severity == worst(all_changes(self.contracts@)),
                )
            },
    {
        let level = self.impact();
        let mut v: Vec<&Change> = Vec::new();
        if level == Severity::Nothing {
            assert(v@.map_values(|c: &Change| *c) =~= Seq::<Change>::empty());
            return v;
        }
        let ghost cs = self.contracts@;
        let ghost keep = |c: Change| c.severity == level;
        let mut k: usize = 0;
        while k < self.contracts.len()
            invariant
                k <= cs.len(),
                cs == self.contracts@,
                keep == (|c: Change| c.severity == level),
                v@.map_values(|c: &Change| *c) == all_changes(cs.take(k as int)).filter(keep),
            decreases self.contracts.len() - k,
        {
            assert(cs.take(k + 1).drop_last() =~= cs.take(k as int));
            let changes = &self.contracts[k].changes;
            let ghost base = all_changes(cs.take(k as int));
            let mut j: usize = 0;
            assert(base + changes@.take(0) =~= base);
            while j < changes.len()
                invariant
                    j <= changes@.len(),
                    *changes == cs[k as int].changes,
                    keep == (|c: Change| c.severity == level),
                    v@.map_values(|c: &Change| *c) == (base + changes@.take(j as int)).filter(keep),
                decreases changes.len() - j,
            {
                proof {
                    reveal(Seq::filter);
                    assert((base + changes@.take(j + 1)).drop_last() =~= base + changes@.take(j as int));
                    assert((base + changes@.take(j + 1)).last() == changes@[j as int]);
                }
                let ghost before = v@.map_values(|c: &Change| *c);
                if changes[j].severity == level {
                    v.push(&changes[j]);
                    assert(v@.map_values(|c: &Change| *c) =~= before.push(changes@[j as int]));
                }
                j = j + 1;
            }
            assert(changes@.take(changes@.len() as int) =~= changes@);
            k = k + 1;
        }
        assert(cs.take(cs.len() as int) =~= cs);
        v
    }

    /// Whether the bump already in the branch is at least as large as the impact: always where
    /// nothing changed, undecided (`None`) where the versions do not say how large a bump they
    /// are, and else by comparing the two.
    pub fn satisfied(&self) -> (r: Option<bool>)
        ensures
            r == if worst(all_changes(self.contracts@)) == Severity::Nothing {
                Some(true)
            } else {
                match observed_spec(version_view(self.old_version), version_view(self.new_version)) {
                    Some(b) => Some(rank(b) >= rank(worst(all_changes(self.contracts@)))),
                    None => None,
                }
            },
    {
        let level = self.impact();
        if level == Severity::Nothing {
            return Some(true);
        }
        let old = match &self.old_version {
            Some(v) => Some(v.as_str()),
            None => None,
        };
        let new = match &self.new_version {
            Some(v) => Some(v.as_str()),
            None => None,
        };
        match observed_bump(old, new) {
            Some(b) => Some(b.at_least(level)),
            None => None,
        }
    }
}

/// The largest severity of two lists together is the larger of theirs.
proof fn lemma_worst_append(a: Seq<Change>, b: Seq<Change>)
    ensures
        rank(worst(a + b)) == if rank(worst(b)) > rank(worst(a)) { rank(worst(b)) } else { rank(worst(a)) },
        worst(a + b) == worst(a) || worst(a + b) == worst(b),
    decreases b.len(),
{
    if b.len() == 0 {
        assert(a + b =~= a);
    } else {
        lemma_worst_append(a, b.drop_last());
        assert((a + b).drop_last() =~= a + b.drop_last());
        assert((a + b).last() == b.last());
    }
}

/// A version that may be absent, by its view.
pub open spec fn version_view(v: Option<String>) -> Option<Seq<char>> {
    match v {
        Some(t) => Some(t@),
        None => None,
    }
}

/// Whether a text is a run of one or more decimal digits.
pub open spec fn numeric(t: Seq<char>) -> bool {
    t.len() > 0 && forall|i: int| 0 <= i < t.len() ==> '0' <= #[trigger] t[i] <= '9'
}

/// Whether a version reads as `MAJOR.MINOR.PATCH`, three runs of digits.
pub open spec fn readable(v: Seq<char>) -> bool {
    let parts = split_spec(v, '.');
    parts.len() == 3 && numeric(parts[0]) && numeric(parts[1]) && numeric(parts[2])
}

/// How large a bump two versions are: the first of major, minor and patch that differs names
/// it, and `None` that they are the same; undecided where either is absent or unreadable.
pub open spec fn observed_spec(old: Option<Seq<char>>, new: Option<Seq<char>>) -> Option<Severity> {
    match (old, new) {
        (Some(o), Some(n)) => if readable(o) && readable(n) {
            let a = split_spec(o, '.');
            let b = split_spec(n, '.');
            if a[0] != b[0] {
                Some(Severity::Major)
            } else if a[1] != b[1] {
                Some(Severity::Minor)
            } else if a[2] != b[2] {
                Some(Severity::Patch)
            } else {
                Some(Severity::Nothing)
            }
        } else {
            None
        },
        _ => None,
    }
}

/// Whether a list of characters is a run of digits.
fn is_numeric(t: &Vec<char>) -> (b: bool)
    ensures
        b == numeric(t@),
{
    if t.len() == 0 {
        return false;
    }
    let mut k: usize = 0;
    while k < t.len()
        invariant
            k <= t@.len(),
            forall|i: int| 0 <= i < k ==> '0' <= #[trigger] t@[i] <= '9',
        decreases t.len() - k,
    {
        if t[k] < '0' || t[k] > '9' {
            return false;
        }
        k = k + 1;
    }
    true
}

/// How large a bump two versions are, where they say.
pub fn observed_bump(old: Option<&str>, new: Option<&str>) -> (r: Option<Severity>)
    ensures
        r == observed_spec(
            match old {
                Some(t) => Some(t@),
                None => None,
            },
            match new {
                Some(t) => Some(t@),
                None => None,
            },
        ),
{
    let (o, n) = match (old, new) {
        (Some(o), Some(n)) => (o, n),
        _ => {
            return None;
        },
    };
    let a = split_char(&chars_of(o), '.');
    let b = split_char(&chars_of(n), '.');
    if a.len() != 3 || b.len() != 3 {
        return None;
    }
    assert(views(a@)[0] == a@[0]@ && views(a@)[1] == a@[1]@ && views(a@)[2] == a@[2]@);
    assert(views(b@)[0] == b@[0]@ && views(b@)[1] == b@[1]@ && views(b@)[2] == b@[2]@);
    if !(is_numeric(&a[0]) && is_numeric(&a[1]) && is_numeric(&a[2]) && is_numeric(&b[0])
        && is_numeric(&b[1]) && is_numeric(&b[2])) {
        return None;
    }
    if !crate::text::same(&a[0], &b[0]) {
        Some(Severity::Major)
    } else if !crate::text::same(&a[1], &b[1]) {
        Some(Severity::Minor)
    } else if !crate::text::same(&a[2], &b[2]) {
        Some(Severity::Patch)
    } else {
        Some(Severity::Nothing)
    }
}

/// What one comparison of two revisions found.
#[derive(Debug)]
pub struct Diffed {
    /// One entry per chart carrying a contract at either revision.
    pub charts: Vec<ChartDiff>,
    /// Files that could not be read as a vendored contract, on either side.
    pub report: Report,
}

/// Every finding of every chart, chart after chart.
pub open spec fn chart_changes(charts: Seq<ChartDiff>) -> Seq<Change>
    decreases charts.len(),
{
    if charts.len() == 0 {
        seq![]
    } else {
        chart_changes(charts.drop_last()) + all_changes(charts.last().contracts@)
    }
}

impl Diffed {
    /// The largest impact anywhere.
    pub fn impact(&self) -> (s: Severity)
        ensures
            s == worst(chart_changes(self.charts@)),
    {
        let ghost cs = self.charts@;
        let mut s = Severity::Nothing;
        let mut k: usize = 0;
        while k < self.charts.len()
            invariant
                k <= cs.len(),
                cs == self.charts@,
                s == worst(chart_changes(cs.take(k as int))),
            decreases self.charts.len() - k,
        {
            assert(cs.take(k + 1).drop_last() =~= cs.take(k as int));
            proof {
                lemma_worst_append(chart_changes(cs.take(k as int)), all_changes(cs[k as int].contracts@));
            }
            let here = self.charts[k].impact();
            if !s.at_least(here) {
                s = here;
            }
            k = k + 1;
        }
        assert(cs.take(cs.len() as int) =~= cs);
        s
    }

    /// Whether anything differs at all: whether some chart has an impact.
    pub fn changed(&self) -> (b: bool)
        ensures
            b == (worst(chart_changes(self.charts@)) != Severity::Nothing),
            b == exists|k: int|
                0 <= k < self.charts@.len() && worst(all_changes(#[trigger] self.charts@[k].contracts@)) != Severity::Nothing,
    {
        proof {
            lemma_changed_somewhere(self.charts@);
        }
        self.impact() != Severity::Nothing
    }
}

/// Something changed anywhere exactly when some chart has an impact.
pub proof fn lemma_changed_somewhere(charts: Seq<ChartDiff>)
    ensures
        (worst(chart_changes(charts)) != Severity::Nothing) == exists|k: int|
            0 <= k < charts.len() && worst(all_changes(#[trigger] charts[k].contracts@)) != Severity::Nothing,
    decreases charts.len(),
{
    if charts.len() > 0 {
        lemma_changed_somewhere(charts.drop_last());
        lemma_worst_append(chart_changes(charts.drop_last()), all_changes(charts.last().contracts@));
        let rest = charts.drop_last();
        if exists|k: int| 0 <= k < charts.len() && worst(all_changes(#[trigger] charts[k].contracts@)) != Severity::Nothing {
            let k = choose|k: int| 0 <= k < charts.len() && worst(all_changes(#[trigger] charts[k].contracts@)) != Severity::Nothing;
            if k < charts.len() - 1 {
                assert(rest[k] == charts[k]);
            }
        }
        if exists|k: int| 0 <= k < rest.len() && worst(all_changes(#[trigger] rest[k].contracts@)) != Severity::Nothing {
            let k = choose|k: int| 0 <= k < rest.len() && worst(all_changes(#[trigger] rest[k].contracts@)) != Severity::Nothing;
            assert(charts[k] == rest[k]);
        }
        if worst(all_changes(charts.last().contracts@)) != Severity::Nothing {
            assert(charts[charts.len() - 1] == charts.last());
        }
    }
}

} // verus!
