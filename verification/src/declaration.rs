//! `charts/<chart>/config-contract.yaml`: what a chart declares about the contracts it vendors.
//!
//! The declaration is read tolerantly by nothing: it is written by hand, in the chart's own
//! repository, and its whole job is to be exhaustive. These are the values it holds once read.

use vstd::prelude::*;

use crate::json::{after_at, dig, dig_spec, digest_of, field_text, text_of, Json};
use crate::text::{chars_of, push_str, slice_of, split_spec, string_of};
use crate::Error;

verus! {

/// The serialisation a configuration document is rendered in.
#[derive(Debug, Clone, Copy, PartialEq, Eq)]
pub enum Format {
    Toml,
    Json,
    Yaml,
}

/// Which rendered object holds a document, and where inside it.
#[derive(Debug, Clone)]
pub struct Source {
    /// The object's kind.
    pub kind: String,
    /// The labels naming it.
    pub selector: Vec<(String, String)>,
    /// The key of the object's data the document is held under.
    pub key: String,
    /// What the document is written in.
    pub format: Format,
}

/// One image a document is read by, and the vendored copy of its contract.
#[derive(Debug, Clone, PartialEq, Eq)]
pub struct ImageRef {
    /// The values path the chart pins the image at.
    pub values: String,
    /// The vendored contract, relative to the chart directory.
    pub contract: String,
}

/// One workload that reads a document, and the containers of it that do.
#[derive(Debug, Clone)]
pub struct Consumer {
    /// The workload's kind.
    pub kind: String,
    /// The labels naming it.
    pub selector: Vec<(String, String)>,
    /// The containers inside it that read the document.
    pub containers: Vec<String>,
}

/// One rendered values file, exempt from some gates, with a written reason.
#[derive(Debug, Clone)]
pub struct Exemption {
    /// The values file, or `*` for every one of them.
    pub values: String,
    /// The gates it relaxes.
    pub gates: Vec<String>,
    /// Why. Mandatory: an unexplained hole in a gate is indistinguishable from an oversight.
    pub reason: String,
}

/// Contract keys this chart deliberately surfaces no value for, and why.
#[derive(Debug, Clone)]
pub struct Unbound {
    /// The keys, written out one by one.
    pub keys: Vec<String>,
    /// Why.
    pub reason: String,
    /// The documents this is scoped to, or `None` for every one that declares the key.
    pub documents: Option<Vec<String>>,
}

/// What one chart says about one credential its images declare.
#[derive(Debug, Clone)]
pub struct CredentialNote {
    /// The contract key.
    pub key: String,
    /// The chart value an operator may set instead of creating the Secret.
    pub value: Option<String>,
    /// The condition under which this release needs the credential at all.
    pub note: Option<String>,
}

/// Keys a chart rolls its pods for although the contracts call them something else, and why.
#[derive(Debug, Clone)]
pub struct Restarted {
    /// The contract keys.
    pub keys: Vec<String>,
    /// Why.
    pub reason: String,
}

/// One declared configuration document.
#[derive(Debug, Clone)]
pub struct Document {
    /// The name the declaration gives it, and the one every message names it by.
    pub name: String,
    /// Which rendered object holds it.
    pub source: Source,
    /// The images that read it.
    pub images: Vec<ImageRef>,
    /// The workloads that mount it.
    pub consumers: Vec<Consumer>,
    /// The exemptions, per values file.
    pub exempt: Vec<Exemption>,
    /// The keys the chart restarts for beyond what the contracts say.
    pub restart: Vec<Restarted>,
}

/// One chart's `config-contract.yaml`.
#[derive(Debug, Clone)]
pub struct Declaration {
    /// The chart's directory name.
    pub chart: String,
    /// The declaration's own path, for a message.
    pub path: String,
    /// Every document the chart declares.
    pub documents: Vec<Document>,
    /// Why the chart declares none, when it declares none.
    pub reason: Option<String>,
    /// Values paths at which this chart pins an image that reads no contract-described
    /// configuration.
    pub unconfigured: Vec<String>,
    /// Whether the chart is enrolled in the marker check.
    pub bindings: bool,
    /// The keys this chart binds no value to, each group with a written reason.
    pub unbound: Vec<Unbound>,
    /// What this chart adds to the credential reference its README carries, in key order.
    pub credentials: Vec<CredentialNote>,
}

/// What a chart's image template would render from one values path, split into its parts.
#[derive(Debug, Clone, PartialEq, Eq)]
pub struct PinnedImage {
    /// The reference as it would be written into a manifest.
    pub reference: String,
    /// Registry and repository, with Docker Hub spelled out.
    pub normalized: String,
    /// The digest, when the tag pins one inline.
    pub digest: Option<String>,
}

/// The gates relaxed for one rendered values file, by name.
#[derive(Debug, Clone)]
pub struct Relaxed {
    /// The gates, each once, in the order the exemptions name them.
    pub gates: Vec<String>,
}

impl Relaxed {
    /// Whether one gate is relaxed.
    pub fn relaxes(&self, gate: &str) -> (b: bool)
        ensures
            b == crate::text::strs(self.gates@).contains(gate@),
    {
        let want = chars_of(gate);
        let mut i: usize = 0;
        while i < self.gates.len()
            invariant
                i <= self.gates@.len(),
                want@ == gate@,
                forall|k: int|
                    0 <= k < i ==> #[trigger] crate::text::strs(self.gates@)[k] != gate@,
            decreases self.gates.len() - i,
        {
            let held = crate::text::chars(&self.gates[i]);
            if crate::text::same(&held, &want) {
                assert(crate::text::strs(self.gates@)[i as int] == gate@);
                return true;
            }
            i = i + 1;
        }
        false
    }
}

/// Whether a character separates path segments, in either spelling.
pub open spec fn is_separator(c: char) -> bool {
    c == '/' || c == '\\'
}

/// The index just past the last separator before `n`, or zero.
pub open spec fn segment_start(path: Seq<char>, n: int) -> int
    decreases n,
{
    if n <= 0 {
        0
    } else if is_separator(path[n - 1]) {
        n
    } else {
        segment_start(path, n - 1)
    }
}

/// The last path segment, whichever separator a declaration was written with.
pub open spec fn file_name_spec(path: Seq<char>) -> Seq<char> {
    path.skip(segment_start(path, path.len() as int))
}

proof fn lemma_segment_start(path: Seq<char>, n: int)
    requires
        0 <= n <= path.len(),
    ensures
        0 <= segment_start(path, n) <= n,
    decreases n,
{
    if n > 0 && !is_separator(path[n - 1]) {
        lemma_segment_start(path, n - 1);
    }
}

/// The last path segment, whichever separator a declaration was written with.
pub fn file_name(path: &[char]) -> (name: Vec<char>)
    ensures
        name@ == file_name_spec(path@),
{
    let mut n = path.len();
    while n > 0 && !(path[n - 1] == '/' || path[n - 1] == '\\')
        invariant
            n <= path@.len(),
            segment_start(path@, path@.len() as int) == segment_start(path@, n as int),
        decreases n,
    {
        n = n - 1;
    }
    proof {
        lemma_segment_start(path@, path@.len() as int);
    }
    slice_of(path, n, path.len())
}

/// Whether an exemption applies to a rendered values file: `*` applies to every one, a name to
/// the file of that name wherever it sits.
pub open spec fn applies(exemption_values: Seq<char>, values_file: Seq<char>) -> bool {
    exemption_values == "*"@ || file_name_spec(exemption_values) == file_name_spec(values_file)
}

/// Whether a document relaxes one gate for one rendered values file.
pub open spec fn relaxed_gate(exempt: Seq<Exemption>, values_file: Seq<char>, gate: Seq<char>) -> bool {
    exists|i: int, j: int|
        0 <= i < exempt.len() && 0 <= j < exempt[i].gates@.len() && applies(
            exempt[i].values@,
            values_file,
        ) && #[trigger] exempt[i].gates@[j]@ == gate
}

/// An exemption written for `*` relaxes its gates for every rendered values file.
pub proof fn a_star_exemption_applies_everywhere(
    exempt: Seq<Exemption>,
    i: int,
    j: int,
    values_file: Seq<char>,
)
    requires
        0 <= i < exempt.len(),
        0 <= j < exempt[i].gates@.len(),
        exempt[i].values@ == "*"@,
    ensures
        relaxed_gate(exempt, values_file, exempt[i].gates@[j]@),
{
}

/// Whether a list of texts holds none twice.
pub open spec fn distinct(s: Seq<Seq<char>>) -> bool {
    forall|i: int, j: int| 0 <= i < j < s.len() ==> #[trigger] s[i] != #[trigger] s[j]
}

impl Document {
    /// The gates exempted for one rendered values file.
    ///
    /// `values: "*"` covers every one of them; any other spelling covers the values file of the
    /// same name, whichever directory either is written under.
    pub fn relaxed(&self, values_file: &str) -> (relaxed: Relaxed)
        ensures
            distinct(crate::text::strs(relaxed.gates@)),
            forall|gate: Seq<char>|
                crate::text::strs(relaxed.gates@).contains(gate) <==> relaxed_gate(
                    self.exempt@,
                    values_file@,
                    gate,
                ),
    {
        let mut relaxed = Relaxed { gates: Vec::new() };
        let wanted = file_name(&chars_of(values_file));
        let star = chars_of("*");
        let mut i: usize = 0;
        while i < self.exempt.len()
            invariant
                i <= self.exempt@.len(),
                wanted@ == file_name_spec(values_file@),
                star@ == "*"@,
                distinct(crate::text::strs(relaxed.gates@)),
                forall|gate: Seq<char>|
                    crate::text::strs(relaxed.gates@).contains(gate) <==> relaxed_gate(
                        self.exempt@.take(i as int),
                        values_file@,
                        gate,
                    ),
            decreases self.exempt.len() - i,
        {
            let exemption = &self.exempt[i];
            let spelled = crate::text::chars(&exemption.values);
            let named = file_name(&spelled);
            let hit = crate::text::same(&spelled, &star) || crate::text::same(&named, &wanted);
            assert(hit == applies(exemption.values@, values_file@));
            let ghost prefix = self.exempt@.take(i as int);
            let ghost next = self.exempt@.take(i + 1);
            assert(next =~= prefix.push(*exemption));
            let mut j: usize = 0;
            while j < exemption.gates.len()
                invariant
                    j <= exemption.gates@.len(),
                    *exemption == self.exempt@[i as int],
                    i < self.exempt@.len(),
                    next == prefix.push(*exemption),
                    prefix == self.exempt@.take(i as int),
                    hit == applies(exemption.values@, values_file@),
                    distinct(crate::text::strs(relaxed.gates@)),
                    forall|gate: Seq<char>|
                        crate::text::strs(relaxed.gates@).contains(gate) <==> (relaxed_gate(
                            prefix,
                            values_file@,
                            gate,
                        ) || (hit && exists|k: int|
                            0 <= k < j && #[trigger] exemption.gates@[k]@ == gate)),
                decreases exemption.gates.len() - j,
            {
                if hit {
                    let ghost g = exemption.gates@[j as int]@;
                    let ghost was = crate::text::strs(relaxed.gates@);
                    let gate = exemption.gates[j].as_str();
                    if !relaxed.relaxes(gate) {
                        relaxed.gates.push(exemption.gates[j].clone());
                        assert(crate::text::strs(relaxed.gates@) =~= was.push(g));
                        assert forall|a: int, b: int|
                            0 <= a < b < crate::text::strs(relaxed.gates@).len() implies #[trigger] crate::text::strs(
                            relaxed.gates@,
                        )[a] != #[trigger] crate::text::strs(relaxed.gates@)[b] by {
                            if b == was.len() {
                                assert(was[a] == crate::text::strs(relaxed.gates@)[a]);
                                assert(was.contains(was[a]));
                            }
                        }
                        assert(crate::text::strs(relaxed.gates@)[was.len() as int] == g);
                    }
                    assert forall|t: Seq<char>|
                        crate::text::strs(relaxed.gates@).contains(t) <==> (was.contains(t) || t
                            == g) by {
                        if t == g {
                        } else if crate::text::strs(relaxed.gates@).contains(t) {
                            let k = choose|k: int|
                                0 <= k < crate::text::strs(relaxed.gates@).len()
                                    && crate::text::strs(relaxed.gates@)[k] == t;
                            assert(was[k] == t);
                        } else if was.contains(t) {
                            let k = choose|k: int| 0 <= k < was.len() && was[k] == t;
                            assert(crate::text::strs(relaxed.gates@)[k] == t);
                        }
                    }
                    let ghost now = crate::text::strs(relaxed.gates@);
                    assert forall|gate: Seq<char>|
                        now.contains(gate) implies (relaxed_gate(prefix, values_file@, gate) || (hit
                            && exists|k: int|
                            0 <= k < j + 1 && #[trigger] exemption.gates@[k]@ == gate)) by {
                        if gate == g {
                            assert(exemption.gates@[j as int]@ == gate);
                        } else {
                            assert(was.contains(gate));
                            if !relaxed_gate(prefix, values_file@, gate) {
                                let k = choose|k: int|
                                    0 <= k < j && #[trigger] exemption.gates@[k]@ == gate;
                                assert(exemption.gates@[k]@ == gate);
                            }
                        }
                    }
                    assert forall|gate: Seq<char>|
                        (relaxed_gate(prefix, values_file@, gate) || (hit && exists|k: int|
                            0 <= k < j + 1 && #[trigger] exemption.gates@[k]@ == gate)) implies now.contains(
                            gate,
                        ) by {
                        if relaxed_gate(prefix, values_file@, gate) {
                            assert(was.contains(gate));
                        } else {
                            let k = choose|k: int|
                                0 <= k < j + 1 && #[trigger] exemption.gates@[k]@ == gate;
                            if k < j {
                                assert(exemption.gates@[k]@ == gate);
                                assert(was.contains(gate));
                            }
                        }
                    }
                }
                j = j + 1;
            }
            assert forall|gate: Seq<char>|
                crate::text::strs(relaxed.gates@).contains(gate) <==> relaxed_gate(
                    next,
                    values_file@,
                    gate,
                ) by {
                if relaxed_gate(next, values_file@, gate) {
                    let (a, b) = choose|a: int, b: int|
                        0 <= a < next.len() && 0 <= b < next[a].gates@.len() && applies(
                            next[a].values@,
                            values_file@,
                        ) && #[trigger] next[a].gates@[b]@ == gate;
                    if a < prefix.len() {
                        assert(prefix[a] == next[a]);
                        assert(prefix[a].gates@[b]@ == gate);
                    }
                }
                if relaxed_gate(prefix, values_file@, gate) {
                    let (a, b) = choose|a: int, b: int|
                        0 <= a < prefix.len() && 0 <= b < prefix[a].gates@.len() && applies(
                            prefix[a].values@,
                            values_file@,
                        ) && #[trigger] prefix[a].gates@[b]@ == gate;
                    assert(next[a] == prefix[a]);
                    assert(next[a].gates@[b]@ == gate);
                }
                if hit && exists|k: int|
                    0 <= k < exemption.gates@.len() && #[trigger] exemption.gates@[k]@ == gate {
                    let k = choose|k: int|
                        0 <= k < exemption.gates@.len() && #[trigger] exemption.gates@[k]@
                            == gate;
                    assert(next[i as int] == *exemption);
                    assert(next[i as int].gates@[k]@ == gate);
                }
            }
            i = i + 1;
        }
        assert(self.exempt@.take(self.exempt@.len() as int) =~= self.exempt@);
        relaxed
    }
}

/// The charts that carry a declaration, in directory order: with `documents_only`, only those
/// that declare at least one document.
pub open spec fn declared_spec(
    charts: Seq<(String, Option<Declaration>)>,
    documents_only: bool,
) -> Seq<(String, Declaration)>
    decreases charts.len(),
{
    if charts.len() == 0 {
        seq![]
    } else {
        let rest = declared_spec(charts.drop_last(), documents_only);
        match charts.last().1 {
            Some(declaration) => if documents_only && declaration.documents@.len() == 0 {
                rest
            } else {
                rest.push((charts.last().0, declaration))
            },
            None => rest,
        }
    }
}

/// The charts of a tree with their declarations, each chart directory taken with whatever its
/// `config-contract.yaml` held (`None` where it holds none).
///
/// A chart with no declaration is skipped; one with `documents: []` has opted out explicitly and
/// is kept unless `documents_only` asks for charts a gate can run against.
pub fn declared(charts: Vec<(String, Option<Declaration>)>, documents_only: bool) -> (found: Vec<
    (String, Declaration),
>)
    ensures
        found@ == declared_spec(charts@, documents_only),
{
    let ghost all = charts@;
    let mut found: Vec<(String, Declaration)> = Vec::new();
    let mut pending = charts;
    let total = pending.len();
    let mut i: usize = 0;
    while pending.len() > 0
        invariant
            total == all.len(),
            i + pending@.len() == all.len(),
            pending@ == all.skip(i as int),
            found@ == declared_spec(all.take(i as int), documents_only),
        decreases pending.len(),
    {
        let ghost was = pending@;
        let (name, held) = pending.remove(0);
        assert(pending@ =~= all.skip(i + 1));
        assert(all.take(i + 1).drop_last() =~= all.take(i as int));
        assert(all.take(i + 1).last() == (name, held));
        match held {
            Some(declaration) => {
                if !(documents_only && declaration.documents.len() == 0) {
                    found.push((name, declaration));
                }
            },
            None => {},
        }
        i = i + 1;
    }
    assert(all.take(i as int) =~= all);
    found
}

/// The image reference a chart renders for one values path, or why the path pins nothing.
pub open spec fn resolve_image_spec(values: Json, path: Seq<char>, app_version: Option<Seq<char>>) -> Result<
    (Seq<char>, Seq<char>, Option<Seq<char>>),
    Seq<char>,
> {
    match dig_spec(values, split_spec(path, '.')) {
        Some(image) if field_text(image, "repository"@).len() > 0 => {
            let repository = field_text(image, "repository"@);
            let registry = field_text(image, "registry"@);
            let tag = crate::pull::tag_spec(image, app_version);
            let base = if registry.len() == 0 {
                repository
            } else {
                registry + "/"@ + repository
            };
            let reference = if tag.len() == 0 {
                base
            } else {
                base + ":"@ + tag
            };
            Ok((reference, crate::pull::normalized_image_spec(registry, repository), after_at(tag)))
        },
        _ => Err("values path '"@ + path + "' does not resolve to an image with a repository"@),
    }
}

/// Build the image reference a chart renders for one values path.
///
/// An empty `registry` means Docker Hub, `tag` falls back to the chart's `appVersion`, and the tag
/// may pin a digest inline — which is what actually pins the pull.
pub fn resolve_image(values: &Json, path: &str, app_version: Option<&str>) -> (r: Result<PinnedImage, Error>)
    ensures
        match r {
            Ok(pinned) => resolve_image_spec(
                *values,
                path@,
                match app_version { Some(v) => Some(v@), None => None },
            ) == Ok::<(Seq<char>, Seq<char>, Option<Seq<char>>), Seq<char>>((
                pinned.reference@,
                pinned.normalized@,
                match pinned.digest { Some(d) => Some(d@), None => None },
            )),
            Err(e) => resolve_image_spec(
                *values,
                path@,
                match app_version { Some(v) => Some(v@), None => None },
            ) == Err::<(Seq<char>, Seq<char>, Option<Seq<char>>), Seq<char>>(e.said()) && e is Invalid,
        },
{
    let found = dig(values, path);
    let image = match found {
        Some(image) => image,
        None => {
            return Err(Error::Invalid(refusal(path)));
        },
    };
    let repository = text_of(image, "repository");
    if repository.as_str().is_empty() {
        return Err(Error::Invalid(refusal(path)));
    }
    let registry = text_of(image, "registry");
    let own = text_of(image, "tag");
    let tag = if !own.as_str().is_empty() {
        own
    } else {
        match app_version {
            Some(v) => v.to_owned(),
            None => String::new(),
        }
    };
    let mut reference = if registry.as_str().is_empty() {
        chars_of(repository.as_str())
    } else {
        let mut held = chars_of(registry.as_str());
        push_str(&mut held, "/");
        push_str(&mut held, repository.as_str());
        held
    };
    if !tag.as_str().is_empty() {
        push_str(&mut reference, ":");
        push_str(&mut reference, tag.as_str());
    }
    let normalized = crate::pull::normalized_image(registry.as_str(), repository.as_str());
    let digest = digest_of(&tag);
    Ok(PinnedImage { reference: string_of(&reference), normalized, digest })
}

/// Why a values path pins no image.
fn refusal(path: &str) -> (s: String)
    ensures
        s@ == "values path '"@ + path@ + "' does not resolve to an image with a repository"@,
{
    let mut held = chars_of("values path '");
    push_str(&mut held, path);
    push_str(&mut held, "' does not resolve to an image with a repository");
    string_of(&held)
}

} // verus!
