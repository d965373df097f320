//! What a rule found, as the lines a run prints and the verdict it ends on.

use vstd::prelude::*;

verus! {

/// One finding, where it was made, and whether it fails the run.
#[derive(Debug, Clone, PartialEq, Eq)]
pub struct Finding {
    /// What it is about: a chart, a file, a document.
    pub at: String,
    /// What was found.
    pub message: String,
    /// Whether it fails the run, rather than being said and failing nothing.
    pub failing: bool,
}

/// Everything a run had to say, in the order it was found.
#[derive(Debug, Clone)]
pub struct Report {
    /// The findings.
    pub findings: Vec<Finding>,
}

impl Report {
    /// A report with nothing in it.
    pub fn new() -> (r: Report)
        ensures
            r.findings@.len() == 0,
    {
        Report { findings: Vec::new() }
    }

    /// Record a failure.
    pub fn fail(&mut self, at: String, message: String)
        ensures
            final(self).findings@ == old(self).findings@.push(Finding { at, message, failing: true }),
    {
        self.findings.push(Finding { at, message, failing: true });
    }

    /// Record a warning.
    pub fn warn(&mut self, at: String, message: String)
        ensures
            final(self).findings@ == old(self).findings@.push(Finding { at, message, failing: false }),
    {
        self.findings.push(Finding { at, message, failing: false });
    }

    /// Whether the run passes: nothing failed.
    pub fn passed(&self) -> (b: bool)
        ensures
            b == forall|i: int| 0 <= i < self.findings@.len() ==> !(#[trigger] self.findings@[i]).failing,
    {
        let mut k: usize = 0;
        while k < self.findings.len()
            invariant
                k <= self.findings@.len(),
                forall|i: int| 0 <= i < k ==> !(#[trigger] self.findings@[i]).failing,
            decreases self.findings.len() - k,
        {
            if self.findings[k].failing {
                return false;
            }
            k = k + 1;
        }
        true
    }
}

/// Whether `after` is `before` with one finding recorded at `at` for `message`, failing or not,
/// where there is one, and `before` unchanged where there is none.
pub open spec fn recorded(
    before: Seq<Finding>,
    after: Seq<Finding>,
    at: Seq<char>,
    message: Option<Seq<char>>,
    failing: bool,
) -> bool {
    match message {
        None => after == before,
        Some(m) => after.len() == before.len() + 1 && after.take(before.len() as int) == before
            && after.last().at@ == at && after.last().message@ == m && after.last().failing == failing,
    }
}

} // verus!
