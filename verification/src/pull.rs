//! What a contract refresh records beside the contracts it fetches, and the values it is run with.
//!
//! Fetching is the registry's and the signing tool's business, and happens outside this library;
//! what is decided here is how an image reference is spelt before it is handed to them, and how
//! the moment of a refresh is written down.

use vstd::prelude::*;

use std::io::Read;

use sha2::Digest;

use crate::json::{after_at, digest_of, field_text, get_spec, text_of, text_spec, Json};
use crate::text::{chars_of, decimal, decimal_of, push_all, push_str, string_of};
use crate::Error;

verus! {

/// The registry a bare image name means.
pub const DOCKER_HUB: &'static str = "docker.io";

/// A chart's spelling of an image, in the fully qualified form: an empty registry is Docker Hub.
pub open spec fn normalized_image_spec(registry: Seq<char>, repository: Seq<char>) -> Seq<char> {
    (if registry.len() == 0 {
        DOCKER_HUB@
    } else {
        registry
    }) + "/"@ + repository
}

/// A chart's spelling of an image, in the fully qualified form.
///
/// A chart writes a bare Docker Hub name because that is what a templating engine and a container
/// CLI accept; a registry client reads a bare first segment as a hostname. Signature verification
/// normalises and the registry client does not, so the two are handed this spelling.
pub fn normalized_image(registry: &str, repository: &str) -> (s: String)
    ensures
        s@ == normalized_image_spec(registry@, repository@),
{
    let held = chars_of(registry);
    let mut out = if held.len() == 0 {
        chars_of(DOCKER_HUB)
    } else {
        held
    };
    push_str(&mut out, "/");
    push_str(&mut out, repository);
    string_of(&out)
}

/// The calendar fields of one count of seconds since the epoch: year, month, day, hour, minute
/// and second, in the proleptic Gregorian calendar, with no time zone and no leap seconds.
pub open spec fn civil_fields(seconds: nat) -> (int, int, int, int, int, int) {
    let days = seconds / 86400;
    let rest = seconds % 86400;
    let era_days = days + 719468;
    let era = era_days / 146097;
    let day_of_era = era_days % 146097;
    let year_of_era = (day_of_era - day_of_era / 1460 + day_of_era / 36524 - day_of_era / 146096)
        / 365;
    let day_of_year = day_of_era - (365 * year_of_era + year_of_era / 4 - year_of_era / 100);
    let shifted = (5 * day_of_year + 2) / 153;
    let day = day_of_year - (153 * shifted + 2) / 5 + 1;
    let month = if shifted < 10 {
        shifted + 3
    } else {
        shifted - 9
    };
    let year = year_of_era + era * 400 + if month <= 2 {
        1int
    } else {
        0
    };
    (year, month, day, (rest / 3600) as int, ((rest % 3600) / 60) as int, (rest % 60) as int)
}

/// A number spelt in decimal, padded with zeros on the left to at least `width` digits.
pub open spec fn padded(n: nat, width: nat) -> Seq<char> {
    let digits = decimal(n);
    if digits.len() >= width {
        digits
    } else {
        Seq::new((width - digits.len()) as nat, |i: int| '0') + digits
    }
}

/// One instant, spelt `YYYY-MM-DDTHH:MM:SSZ`.
pub open spec fn civil_spec(seconds: nat) -> Seq<char> {
    let (year, month, day, hour, minute, second) = civil_fields(seconds);
    padded(year as nat, 4) + "-"@ + padded(month as nat, 2) + "-"@ + padded(day as nat, 2) + "T"@
        + padded(hour as nat, 2) + ":"@ + padded(minute as nat, 2) + ":"@ + padded(
        second as nat,
        2,
    ) + "Z"@
}

/// A number spelt in decimal with zeros on the left to at least `width` digits.
fn push_padded(out: &mut Vec<char>, n: u64, width: usize)
    requires
        width <= 8,
    ensures
        final(out)@ == old(out)@ + padded(n as nat, width as nat),
{
    let digits = decimal_of(n);
    let mut zeros: Vec<char> = Vec::new();
    if digits.len() < width {
        let mut k: usize = 0;
        let missing = width - digits.len();
        while k < missing
            invariant
                k <= missing,
                zeros@ == Seq::new(k as nat, |i: int| '0'),
            decreases missing - k,
        {
            zeros.push('0');
            k = k + 1;
            assert(zeros@ =~= Seq::new(k as nat, |i: int| '0'));
        }
    }
    push_all(out, &zeros);
    push_all(out, &digits);
    assert(digits.len() >= width ==> zeros@ =~= Seq::<char>::empty());
}

/// The calendar fields of one count of seconds since the epoch.
fn civil_of(seconds: u64) -> (fields: (u64, u64, u64, u64, u64, u64))
    ensures
        (fields.0 as int, fields.1 as int, fields.2 as int, fields.3 as int, fields.4 as int, fields.5
            as int) == civil_fields(seconds as nat),
        1 <= fields.1 <= 12,
        1 <= fields.2 <= 31,
        fields.3 < 24,
        fields.4 < 60,
        fields.5 < 60,
        fields.0 <= 1_000_000_000_000,
{
    let days = seconds / 86400;
    let rest = seconds % 86400;
    let era_days = days + 719468;
    let era = era_days / 146097;
    let day_of_era = era_days % 146097;
    assert(day_of_era / 1460 <= day_of_era);
    assert(day_of_era / 146096 <= day_of_era / 36524);
    let year_of_era = (day_of_era - day_of_era / 1460 + day_of_era / 36524 - day_of_era / 146096)
        / 365;
    assert(year_of_era <= 399) by {
        assert(day_of_era < 146097);
    }
    assert(365 * year_of_era + year_of_era / 4 - year_of_era / 100 <= day_of_era) by (
    nonlinear_arith)
        requires
            day_of_era < 146097,
            year_of_era == (day_of_era - day_of_era / 1460 + day_of_era / 36524 - day_of_era
                / 146096) / 365,
    ;
    let day_of_year = day_of_era - (365 * year_of_era + year_of_era / 4 - year_of_era / 100);
    assert(day_of_year <= 365) by (nonlinear_arith)
        requires
            day_of_era < 146097,
            year_of_era == (day_of_era - day_of_era / 1460 + day_of_era / 36524 - day_of_era
                / 146096) / 365,
            day_of_year == day_of_era - (365 * year_of_era + year_of_era / 4 - year_of_era / 100),
    ;
    let shifted = (5 * day_of_year + 2) / 153;
    assert(shifted <= 11);
    assert((153 * shifted + 2) / 5 <= day_of_year);
    let day = day_of_year - (153 * shifted + 2) / 5 + 1;
    assert(1 <= day <= 31);
    let month = if shifted < 10 {
        shifted + 3
    } else {
        shifted - 9
    };
    let year = year_of_era + era * 400 + if month <= 2 {
        1
    } else {
        0
    };
    (year, month, day, rest / 3600, (rest % 3600) / 60, rest % 60)
}

/// One count of seconds since the epoch, as a calendar instant.
///
/// Written out rather than taken from a crate: this is a provenance record rather than an input to
/// any rule, and the algorithm is a dozen lines of integer arithmetic.
pub fn civil(seconds: u64) -> (s: String)
    ensures
        s@ == civil_spec(seconds as nat),
{
    let (year, month, day, hour, minute, second) = civil_of(seconds);
    let mut out: Vec<char> = Vec::new();
    push_padded(&mut out, year, 4);
    push_str(&mut out, "-");
    push_padded(&mut out, month, 2);
    push_str(&mut out, "-");
    push_padded(&mut out, day, 2);
    push_str(&mut out, "T");
    push_padded(&mut out, hour, 2);
    push_str(&mut out, ":");
    push_padded(&mut out, minute, 2);
    push_str(&mut out, ":");
    push_padded(&mut out, second, 2);
    push_str(&mut out, "Z");
    string_of(&out)
}

/// The seconds since the epoch the system clock reads, or zero for a clock set before it.
///
/// Calls `SystemTime::now` and `duration_since(UNIX_EPOCH)`; what it returns depends on the clock,
/// and nothing is claimed of it.
#[verifier::external_body]
fn seconds_now() -> (seconds: u64) {
    std::time::SystemTime::now().duration_since(std::time::UNIX_EPOCH).map_or(0, |held| held.as_secs())
}

/// The moment a refresh happened, spelled the way a vendored file records it.
pub fn now() -> (s: String)
    ensures
        exists|seconds: nat| seconds <= u64::MAX && s@ == civil_spec(seconds),
{
    let seconds = seconds_now();
    civil(seconds)
}

/// The two pinned binaries a chart repository already installs, by where they were found.
#[derive(Debug, Clone)]
pub struct Tools {
    /// The registry client.
    pub oras: String,
    /// The signature checker.
    pub cosign: String,
}

/// What one chart's refresh did.
#[derive(Debug, Default)]
pub struct Refreshed {
    /// Vendored files whose bytes moved.
    pub changed: Vec<String>,
    /// Vendored files that were already current.
    pub unchanged: Vec<String>,
    /// Charts that could not be refreshed, and why.
    pub problems: Vec<String>,
}

/// A copy of a chart tree that a check may write into, by where it was taken.
#[derive(Debug)]
pub struct Scratch(pub String);

impl Scratch {
    /// The copied chart tree.
    pub fn path(&self) -> (p: &str)
        ensures
            p@ == self.0@,
    {
        self.0.as_str()
    }
}

/// The tag an image block is pulled at: its own, or the chart's release when it names none.
pub open spec fn tag_spec(image: Json, app_version: Option<Seq<char>>) -> Seq<char> {
    let own = field_text(image, "tag"@);
    if own.len() > 0 {
        own
    } else {
        match app_version {
            Some(v) => v,
            None => seq![],
        }
    }
}

/// `(repository, tagged reference, inline digest)` for one image block, or why there is none.
pub open spec fn reference_for_spec(image: Json, app_version: Option<Seq<char>>) -> Result<
    (Seq<char>, Seq<char>, Option<Seq<char>>),
    Seq<char>,
> {
    let repository = field_text(image, "repository"@);
    if repository.len() == 0 {
        Err("image block has no `repository`"@)
    } else {
        let normalized = normalized_image_spec(field_text(image, "registry"@), repository);
        let tag = tag_spec(image, app_version);
        let reference = if tag.len() == 0 {
            normalized
        } else {
            normalized + ":"@ + tag
        };
        Ok((normalized, reference, after_at(tag)))
    }
}

/// `(repository, tagged reference, inline digest)` for one image block.
///
/// The repository is the fully qualified one; the tag falls back to the chart's release, and a
/// digest pinned inline after an `@` is taken rather than resolved.
pub fn reference_for(image: &Json, app_version: Option<&str>) -> (r: Result<
    (String, String, Option<String>),
    Error,
>)
    ensures
        match r {
            Ok((repository, reference, digest)) => reference_for_spec(
                *image,
                match app_version { Some(v) => Some(v@), None => None },
            ) == Ok::<(Seq<char>, Seq<char>, Option<Seq<char>>), Seq<char>>((
                repository@,
                reference@,
                match digest { Some(d) => Some(d@), None => None },
            )),
            Err(e) => reference_for_spec(
                *image,
                match app_version { Some(v) => Some(v@), None => None },
            ) == Err::<(Seq<char>, Seq<char>, Option<Seq<char>>), Seq<char>>(e.said()) && e is Invalid,
        },
{
    let repository = text_of(image, "repository");
    if repository.as_str().is_empty() {
        return Err(Error::Invalid("image block has no `repository`".to_owned()));
    }
    let own = text_of(image, "tag");
    let tag = if !own.as_str().is_empty() {
        own
    } else {
        match app_version {
            Some(v) => v.to_owned(),
            None => String::new(),
        }
    };
    let registry = text_of(image, "registry");
    let normalized = normalized_image(registry.as_str(), repository.as_str());
    let reference = if tag.as_str().is_empty() {
        normalized.clone()
    } else {
        let mut held = chars_of(normalized.as_str());
        push_str(&mut held, ":");
        push_str(&mut held, tag.as_str());
        string_of(&held)
    };
    let digest = digest_of(&tag);
    Ok((normalized, reference, digest))
}

// ------------------------------------------------------------------------------------------------
// Proving a fetched document belongs to the pinned image
// ------------------------------------------------------------------------------------------------

/// The artifact type a published contract is attached under.
pub const ARTIFACT_TYPE: &'static str = "application/vnd.terrace.config-schema.v1+json";

/// The OIDC issuer a hosted CI workflow signs under.
pub const OIDC_ISSUER: &'static str = "https://token.actions.githubusercontent.com";

/// The namespace every contract label of an image config lives in.
pub const LABEL_NAMESPACE: &'static str = "dev.terrace.config.";

/// The label naming the envelope version an image publishes its contract in.
pub const LABEL_VERSION: &'static str = "dev.terrace.config.version";

/// The label naming where inside the image the contract is embedded.
pub const LABEL_PATH: &'static str = "dev.terrace.config.path";

/// The label naming the variable prefix the image's binary reads.
pub const LABEL_PREFIX: &'static str = "dev.terrace.config.prefix";

/// The envelope version of a contract this library reads.
pub const CONTRACT_VERSION: u64 = 1;

/// The SHA-256 digest of some bytes.
pub uninterp spec fn sha256(payload: Seq<u8>) -> Seq<u8>;

/// The SHA-256 digest of a payload, from `sha2::Sha256::digest`: the named digest of the bytes,
/// which is 32 bytes long.
#[verifier::external_body]
fn sha256_of(payload: &[u8]) -> (r: Vec<u8>)
    ensures
        r@ == sha256(payload@),
        r@.len() == 32,
{
    sha2::Sha256::digest(payload).to_vec()
}

/// A lowercase hexadecimal digit.
pub open spec fn hex_char(n: int) -> char {
    if n < 10 {
        (n + 48) as char
    } else {
        (n + 87) as char
    }
}

/// Bytes as lowercase hexadecimal, two digits each.
pub open spec fn hex_spec(bytes: Seq<u8>) -> Seq<char>
    decreases bytes.len(),
{
    if bytes.len() == 0 {
        seq![]
    } else {
        hex_spec(bytes.drop_last()) + seq![
            hex_char(bytes.last() as int / 16),
            hex_char(bytes.last() as int % 16),
        ]
    }
}

/// One lowercase hexadecimal digit.
fn hex_digit_of(n: u8) -> (c: char)
    requires
        n < 16,
    ensures
        c == hex_char(n as int),
{
    match n {
        0 => '0',
        1 => '1',
        2 => '2',
        3 => '3',
        4 => '4',
        5 => '5',
        6 => '6',
        7 => '7',
        8 => '8',
        9 => '9',
        10 => 'a',
        11 => 'b',
        12 => 'c',
        13 => 'd',
        14 => 'e',
        _ => 'f',
    }
}

/// Bytes as lowercase hexadecimal, two digits each.
pub fn hex_of(bytes: &[u8]) -> (s: String)
    ensures
        s@ == hex_spec(bytes@),
{
    let mut out: Vec<char> = Vec::new();
    let mut k: usize = 0;
    while k < bytes.len()
        invariant
            k <= bytes@.len(),
            out@ == hex_spec(bytes@.take(k as int)),
        decreases bytes.len() - k,
    {
        assert(bytes@.take(k + 1).drop_last() =~= bytes@.take(k as int));
        assert(bytes@.take(k + 1).last() == bytes@[k as int]);
        out.push(hex_digit_of(bytes[k] / 16));
        out.push(hex_digit_of(bytes[k] % 16));
        k = k + 1;
    }
    assert(bytes@.take(bytes@.len() as int) =~= bytes@);
    string_of(&out)
}

/// One payload's hash, spelled the way a descriptor spells it after `sha256:`.
pub fn hex_sha256(payload: &[u8]) -> (s: String)
    ensures
        s@ == hex_spec(sha256(payload@)),
{
    let digest = sha256_of(payload);
    hex_of(digest.as_slice())
}

/// What a gzip stream decompresses to, `None` where it does not decompress.
pub uninterp spec fn gunzipped(blob: Seq<u8>) -> Option<Seq<u8>>;

/// Decompress a gzip stream with `flate2::read::GzDecoder`: the named decompression of the bytes,
/// `None` where reading it fails.
#[verifier::external_body]
fn gunzip(blob: &[u8]) -> (r: Option<Vec<u8>>)
    ensures
        match r {
            Some(v) => gunzipped(blob@) == Some(v@),
            None => gunzipped(blob@) is None,
        },
{
    let mut plain: Vec<u8> = Vec::new();
    flate2::read::GzDecoder::new(blob).read_to_end(&mut plain).ok().map(|_| plain)
}

/// One entry of a tar archive as its view: whether it is a regular file, its path where that
/// reads, and its contents where they read.
pub open spec fn tar_entry_view(e: (bool, Option<String>, Option<Vec<u8>>)) -> (
    bool,
    Option<Seq<char>>,
    Option<Seq<u8>>,
) {
    (
        e.0,
        match e.1 {
            Some(p) => Some(p@),
            None => None,
        },
        match e.2 {
            Some(d) => Some(d@),
            None => None,
        },
    )
}

/// The entries of a tar archive, in order, up to the first one that does not read.
pub uninterp spec fn tar_listing(body: Seq<u8>) -> Seq<(bool, Option<Seq<char>>, Option<Seq<u8>>)>;

/// The entries of a tar archive with `tar::Archive::entries`, each with whether its header says
/// it is a regular file, its path (lossily as text) and its contents: the named listing of the
/// bytes, stopping at the first entry that does not read, and empty where the archive does not.
#[verifier::external_body]
fn tar_entries(body: &[u8]) -> (r: Vec<(bool, Option<String>, Option<Vec<u8>>)>)
    ensures
        r@.map_values(|e: (bool, Option<String>, Option<Vec<u8>>)| tar_entry_view(e))
            == tar_listing(body@),
{
    let mut found: Vec<(bool, Option<String>, Option<Vec<u8>>)> = Vec::new();
    let mut archive = tar::Archive::new(body);
    let Ok(entries) = archive.entries() else { return found };
    for entry in entries {
        let Ok(mut entry) = entry else { break };
        let file = entry.header().entry_type().is_file();
        let path = entry.path().ok().map(|held| held.to_string_lossy().into_owned());
        let mut data: Vec<u8> = Vec::new();
        let data = entry.read_to_end(&mut data).ok().map(|_| data);
        found.push((file, path, data));
    }
    found
}

/// A path as an archive names it, compared the way a filesystem would: backslashes as slashes,
/// and every leading `./` dropped.
pub open spec fn layer_path(path: Seq<char>) -> Seq<char> {
    without_dots(slashes(path))
}

/// A path with every backslash written as a slash.
pub open spec fn slashes(path: Seq<char>) -> Seq<char> {
    path.map_values(|c: char| if c == '\\' { '/' } else { c })
}

/// A path with every leading `./` dropped.
pub open spec fn without_dots(path: Seq<char>) -> Seq<char>
    decreases path.len(),
{
    if path.len() >= 2 && path[0] == '.' && path[1] == '/' {
        without_dots(path.skip(2))
    } else {
        path
    }
}

/// The first regular file among entries whose path is `wanted`: its contents, or `None` where
/// there is none, or where an entry that had to be read did not read.
pub open spec fn found_in(entries: Seq<(bool, Option<Seq<char>>, Option<Seq<u8>>)>, wanted: Seq<char>) -> Option<
    Seq<u8>,
>
    decreases entries.len(),
{
    if entries.len() == 0 {
        None
    } else if !entries[0].0 {
        found_in(entries.drop_first(), wanted)
    } else {
        match entries[0].1 {
            None => None,
            Some(p) => if layer_path(p) != wanted {
                found_in(entries.drop_first(), wanted)
            } else {
                entries[0].2
            },
        }
    }
}

/// Whether a blob is gzip-compressed, by its magic bytes.
pub open spec fn gzipped(blob: Seq<u8>) -> bool {
    blob.len() >= 2 && blob[0] == 0x1f && blob[1] == 0x8b
}

/// The file a layer blob holds at a path: the blob read as a tar archive, decompressed first
/// when it is gzipped.
pub open spec fn layer_spec(blob: Seq<u8>, wanted: Seq<char>) -> Option<Seq<u8>> {
    if gzipped(blob) {
        match gunzipped(blob) {
            Some(body) => found_in(tar_listing(body), wanted),
            None => None,
        }
    } else {
        found_in(tar_listing(blob), wanted)
    }
}

/// A path as an archive names it, compared the way a filesystem would.
fn layer_path_of(path: &String) -> (v: Vec<char>)
    ensures
        v@ == layer_path(path@),
{
    let held = crate::text::chars(path);
    let mut slashed: Vec<char> = Vec::new();
    let mut k: usize = 0;
    while k < held.len()
        invariant
            k <= held@.len(),
            slashed@ == slashes(held@.take(k as int)),
        decreases held.len() - k,
    {
        let c = held[k];
        slashed.push(if c == '\\' { '/' } else { c });
        assert(held@.take(k + 1) =~= held@.take(k as int).push(c));
        assert(slashed@ =~= slashes(held@.take(k + 1)));
        k = k + 1;
    }
    assert(held@.take(held@.len() as int) =~= held@);
    let mut at: usize = 0;
    assert(slashed@.skip(0) =~= slashed@);
    while slashed.len() - at >= 2 && slashed[at] == '.' && slashed[at + 1] == '/'
        invariant
            at <= slashed@.len(),
            without_dots(slashed@) == without_dots(slashed@.skip(at as int)),
        decreases slashed.len() - at,
    {
        assert(slashed@.skip(at as int).skip(2) =~= slashed@.skip(at + 2));
        at = at + 2;
    }
    let rest = crate::text::slice_of(&slashed, at, slashed.len());
    assert(rest@ =~= slashed@.skip(at as int));
    rest
}

/// One file out of one layer blob, or `None` if this layer does not hold it.
///
/// A layer this cannot read is not an error: the file may be in another one, and a document that
/// is nowhere is reported by the caller rather than here.
pub fn read_from_layer(blob: &[u8], wanted: &str) -> (r: Option<Vec<u8>>)
    ensures
        match r {
            Some(v) => layer_spec(blob@, wanted@) == Some(v@),
            None => layer_spec(blob@, wanted@) is None,
        },
{
    let zipped = blob.len() >= 2 && blob[0] == 0x1f && blob[1] == 0x8b;
    let plain = if zipped {
        match gunzip(blob) {
            Some(body) => body,
            None => {
                return None;
            },
        }
    } else {
        crate::text::bytes_of(blob)
    };
    let entries = tar_entries(&plain);
    found_in_entries(&entries, wanted)
}

/// The file an archive's entries hold at a path: the data of the first regular file whose
/// path, compared the way a filesystem would, is the one wanted; `None` where an earlier regular
/// file has no readable path, or none matches.
pub fn found_in_entries(entries: &Vec<(bool, Option<String>, Option<Vec<u8>>)>, wanted: &str) -> (r: Option<Vec<u8>>)
    ensures
        match r {
            Some(v) => found_in(entries@.map_values(|e: (bool, Option<String>, Option<Vec<u8>>)| tar_entry_view(e)), wanted@) == Some(v@),
            None => found_in(entries@.map_values(|e: (bool, Option<String>, Option<Vec<u8>>)| tar_entry_view(e)), wanted@) is None,
        },
{
    let ghost listing = entries@.map_values(|e: (bool, Option<String>, Option<Vec<u8>>)| tar_entry_view(e));
    assert(listing.skip(0) =~= listing);
    let want = chars_of(wanted);
    let mut k: usize = 0;
    while k < entries.len()
        invariant
            k <= entries@.len(),
            listing == entries@.map_values(
                |e: (bool, Option<String>, Option<Vec<u8>>)| tar_entry_view(e),
            ),
            want@ == wanted@,
            found_in(listing, wanted@) == found_in(listing.skip(k as int), wanted@),
        decreases entries.len() - k,
    {
        let ghost here = listing.skip(k as int);
        assert(here[0] == tar_entry_view(entries@[k as int]));
        assert(here.drop_first() =~= listing.skip(k + 1));
        let entry = &entries[k];
        if entry.0 {
            match &entry.1 {
                None => {
                    return None;
                },
                Some(path) => {
                    let named = layer_path_of(path);
                    if crate::text::same(&named, &want) {
                        return match &entry.2 {
                            Some(data) => Some(crate::text::bytes_of(data.as_slice())),
                            None => None,
                        };
                    }
                },
            }
        }
        k = k + 1;
    }
    None
}

/// Where one digest of a repository is: `{repository}@{digest}`.
pub open spec fn pinned_spec(repository: Seq<char>, digest: Seq<char>) -> Seq<char> {
    repository + "@"@ + digest
}

/// Where one digest of a repository is.
pub fn pinned_at(repository: &str, digest: &str) -> (s: String)
    ensures
        s@ == pinned_spec(repository@, digest@),
{
    let mut held = chars_of(repository);
    push_str(&mut held, "@");
    push_str(&mut held, digest);
    string_of(&held)
}

/// The items of a list field, or nothing where there is none.
pub open spec fn list_items(v: Option<Json>) -> Seq<Json> {
    match v {
        Some(Json::Array(items)) => items@,
        _ => seq![],
    }
}

/// The text of a field, or nothing where it is not a text.
pub open spec fn text_or_empty(v: Option<Json>) -> Seq<char> {
    match text_spec(v) {
        Some(t) => t,
        None => seq![],
    }
}

/// The operating system an index entry names for its platform.
pub open spec fn platform_os(entry: Json) -> Option<Seq<char>> {
    match get_spec(entry, "platform"@) {
        Some(platform) => text_spec(get_spec(platform, "os"@)),
        None => None,
    }
}

/// The digests of the index entries that are images: those naming an operating system other than
/// `unknown`, which is how build attestations ride in the same index.
pub open spec fn image_digests(entries: Seq<Json>) -> Seq<Seq<char>>
    decreases entries.len(),
{
    if entries.len() == 0 {
        seq![]
    } else {
        let rest = image_digests(entries.drop_last());
        let e = entries.last();
        match platform_os(e) {
            Some(os) => if os != "unknown"@ {
                match text_spec(get_spec(e, "digest"@)) {
                    Some(d) => rest.push(d),
                    None => rest,
                }
            } else {
                rest
            },
            None => rest,
        }
    }
}

/// The per-platform image manifests behind a digest, or the digest itself: the images of an
/// index, or the digest where the manifest is not an index of any.
pub open spec fn platforms_spec(manifest: Json, digest: Seq<char>) -> Seq<Seq<char>> {
    let found = image_digests(list_items(get_spec(manifest, "manifests"@)));
    if found.len() == 0 {
        seq![digest]
    } else {
        found
    }
}

/// The text of a field, when it is one.
fn text_field<'a>(j: &'a Json, name: &str) -> (r: Option<&'a String>)
    ensures
        match r {
            Some(t) => text_spec(get_spec(*j, name@)) == Some(t@),
            None => text_spec(get_spec(*j, name@)) is None,
        },
{
    match j.get(name) {
        Some(Json::Str(t)) => Some(t),
        _ => None,
    }
}

/// The items of a list field.
fn items_field<'a>(j: &'a Json, name: &str) -> (r: Option<&'a Vec<Json>>)
    ensures
        match r {
            Some(items) => list_items(get_spec(*j, name@)) == items@,
            None => list_items(get_spec(*j, name@)) == Seq::<Json>::empty(),
        },
{
    match j.get(name) {
        Some(Json::Array(items)) => Some(items),
        _ => None,
    }
}

/// The per-platform image manifests a manifest stands for.
///
/// A multi-architecture image is pushed as an index, and the index is what a chart pins, so the
/// digest in a values file is usually not an image manifest: the real manifests are one level
/// down. Build attestations ride in the same index as entries with no platform and are skipped.
pub fn platforms_of(manifest: &Json, digest: &str) -> (v: Vec<String>)
    ensures
        crate::text::strs(v@) == platforms_spec(*manifest, digest@),
{
    proof {
        reveal_strlit("unknown");
    }
    let mut found: Vec<String> = Vec::new();
    let empty: Vec<Json> = Vec::new();
    let entries = match items_field(manifest, "manifests") {
        Some(items) => items,
        None => &empty,
    };
    let ghost all = entries@;
    assert(all == list_items(get_spec(*manifest, "manifests"@)));
    assert(crate::text::strs(found@) =~= image_digests(all.take(0)));
    let mut k: usize = 0;
    while k < entries.len()
        invariant
            k <= entries@.len(),
            all == entries@,
            crate::text::strs(found@) == image_digests(all.take(k as int)),
        decreases entries.len() - k,
    {
        let e = &entries[k];
        assert(all.take(k + 1).drop_last() =~= all.take(k as int));
        assert(all.take(k + 1).last() == *e);
        let os = match e.get("platform") {
            Some(platform) => text_field(platform, "os"),
            None => None,
        };
        assert(match os {
            Some(t) => platform_os(*e) == Some(t@),
            None => platform_os(*e) is None,
        });
        let image = match os {
            Some(t) => *t != "unknown".to_owned(),
            None => false,
        };
        if image {
            match text_field(e, "digest") {
                Some(d) => {
                    let ghost before = crate::text::strs(found@);
                    found.push(d.clone());
                    assert(crate::text::strs(found@) =~= before.push(d@));
                },
                None => {},
            }
        }
        k = k + 1;
    }
    assert(all.take(entries@.len() as int) =~= all);
    if found.len() == 0 {
        let v = vec![digest.to_owned()];
        assert(crate::text::strs(v@) =~= seq![digest@]);
        v
    } else {
        found
    }
}

/// The entries of a referrers listing, whichever top-level key the client used: the listing
/// itself where it is a list, else its `referrers`, else its `manifests`, else nothing.
pub open spec fn referrers_spec(document: Json) -> Seq<Json> {
    match document {
        Json::Array(items) => items@,
        _ => match get_spec(document, "referrers"@) {
            Some(Json::Array(items)) => items@,
            _ => list_items(get_spec(document, "manifests"@)),
        },
    }
}

/// A copy of a list of values.
fn copies(items: &Vec<Json>) -> (v: Vec<Json>)
    ensures
        v@.len() == items@.len(),
        forall|i: int|
            0 <= i < items@.len() ==> crate::json::view_of(#[trigger] v@[i]) == crate::json::view_of(
                items@[i],
            ),
{
    let mut v: Vec<Json> = Vec::new();
    let mut k: usize = 0;
    while k < items.len()
        invariant
            k <= items@.len(),
            v@.len() == k,
            forall|i: int|
                0 <= i < k ==> crate::json::view_of(#[trigger] v@[i]) == crate::json::view_of(
                    items@[i],
                ),
        decreases items.len() - k,
    {
        v.push(items[k].copy());
        k = k + 1;
    }
    v
}

/// The entries of a referrers listing, once parsed, whichever top-level key the client used.
pub fn referrers_of(document: &Json) -> (v: Vec<Json>)
    ensures
        v@.len() == referrers_spec(*document).len(),
        forall|i: int|
            0 <= i < v@.len() ==> crate::json::view_of(#[trigger] v@[i]) == crate::json::view_of(
                referrers_spec(*document)[i],
            ),
{
    match document {
        Json::Array(items) => copies(items),
        _ => match document.get("referrers") {
            Some(Json::Array(items)) => copies(items),
            _ => match items_field(document, "manifests") {
                Some(items) => copies(items),
                None => Vec::new(),
            },
        },
    }
}

/// Every call that leaves this machine, behind one seam.
///
/// Implemented outside the library by whatever reaches a registry and a signature checker; every
/// rule that decides what to trust is here, above it.
pub trait Registry {
    /// The digest a reference resolves to, so a tag is never trusted twice.
    fn resolve(&self, reference: &str) -> Result<String, Error>;

    /// The referrers of one digest with one artifact type.
    fn discover(&self, reference: &str, artifact_type: &str) -> Result<Vec<Json>, Error>;

    /// The labels on the image config blob, in name order, each once.
    fn image_labels(&self, reference: &str) -> Result<Vec<(String, String)>, Error>;

    /// One manifest, index or image.
    fn manifest(&self, reference: &str) -> Result<Json, Error>;

    /// One blob, whole.
    fn blob(&self, reference: &str) -> Result<Vec<u8>, Error>;

    /// Refuse anything not signed by the named identity.
    fn verify(&self, reference: &str, identity: &str) -> Result<(), Error>;

    /// The per-platform image manifests behind a digest, or the digest itself.
    ///
    /// As written here it reads the manifest at `repository@digest` and answers what that
    /// manifest stands for, which is never nothing; a failed read is handed on.
    fn platforms(&self, repository: &str, digest: &str) -> (r: Result<Vec<String>, Error>)
        default_ensures
            r matches Ok(v) ==> exists|m: Json|
                crate::text::strs(v@) == #[trigger] platforms_spec(m, digest@),
            r matches Ok(v) ==> v@.len() > 0,
    {
        let at = pinned_at(repository, digest);
        let manifest = self.manifest(at.as_str())?;
        let v = platforms_of(&manifest, digest);
        assert(crate::text::strs(v@).len() > 0);
        Ok(v)
    }
}

/// Labels, as the texts they are.
pub open spec fn labels_view(labels: Seq<(String, String)>) -> Seq<(Seq<char>, Seq<char>)> {
    labels.map_values(|l: (String, String)| (l.0@, l.1@))
}

/// The labels in the contract namespace, in their order.
pub open spec fn config_labels_spec(labels: Seq<(Seq<char>, Seq<char>)>) -> Seq<
    (Seq<char>, Seq<char>),
>
    decreases labels.len(),
{
    if labels.len() == 0 {
        seq![]
    } else {
        let rest = config_labels_spec(labels.drop_last());
        if crate::text::starts_with_spec(labels.last().0, LABEL_NAMESPACE@) {
            rest.push(labels.last())
        } else {
            rest
        }
    }
}

/// The labels in the contract namespace.
fn config_labels(labels: &Vec<(String, String)>) -> (v: Vec<(String, String)>)
    ensures
        labels_view(v@) == config_labels_spec(labels_view(labels@)),
{
    let ghost all = labels_view(labels@);
    let mut v: Vec<(String, String)> = Vec::new();
    assert(labels_view(v@) =~= config_labels_spec(all.take(0)));
    let space = chars_of(LABEL_NAMESPACE);
    let mut k: usize = 0;
    while k < labels.len()
        invariant
            k <= labels@.len(),
            all == labels_view(labels@),
            space@ == LABEL_NAMESPACE@,
            labels_view(v@) == config_labels_spec(all.take(k as int)),
        decreases labels.len() - k,
    {
        assert(all.take(k + 1).drop_last() =~= all.take(k as int));
        assert(all.take(k + 1).last() == (labels@[k as int].0@, labels@[k as int].1@));
        if crate::text::starts_with(&crate::text::chars(&labels[k].0), &space) {
            let ghost before = labels_view(v@);
            v.push((labels[k].0.clone(), labels[k].1.clone()));
            assert(labels_view(v@) =~= before.push((labels@[k as int].0@, labels@[k as int].1@)));
        }
        k = k + 1;
    }
    assert(all.take(labels@.len() as int) =~= all);
    v
}

/// Labels as a message shows them: a JSON object of strings.
pub open spec fn labels_text(labels: Seq<(Seq<char>, Seq<char>)>) -> Seq<char> {
    "{"@ + crate::text::join_spec(
        labels.map_values(
            |l: (Seq<char>, Seq<char>)|
                crate::json::json_string(l.0) + ":"@ + crate::json::json_string(l.1),
        ),
        ","@,
    ) + "}"@
}

/// Labels as a message shows them.
fn labels_text_of(labels: &Vec<(String, String)>) -> (v: Vec<char>)
    ensures
        v@ == labels_text(labels_view(labels@)),
{
    let ghost want = labels_view(labels@).map_values(
        |l: (Seq<char>, Seq<char>)|
            crate::json::json_string(l.0) + ":"@ + crate::json::json_string(l.1),
    );
    let mut parts: Vec<Vec<char>> = Vec::new();
    let mut k: usize = 0;
    while k < labels.len()
        invariant
            k <= labels@.len(),
            want == labels_view(labels@).map_values(
                |l: (Seq<char>, Seq<char>)|
                    crate::json::json_string(l.0) + ":"@ + crate::json::json_string(l.1),
            ),
            want.len() == labels@.len(),
            crate::text::views(parts@) == want.take(k as int),
        decreases labels.len() - k,
    {
        let mut one = chars_of(crate::json::to_json_string(labels[k].0.as_str()).as_str());
        push_str(&mut one, ":");
        push_str(&mut one, crate::json::to_json_string(labels[k].1.as_str()).as_str());
        let ghost before = crate::text::views(parts@);
        parts.push(one);
        assert(crate::text::views(parts@) =~= before.push(want[k as int]));
        assert(want.take(k + 1) =~= want.take(k as int).push(want[k as int]));
        k = k + 1;
    }
    assert(want.take(labels@.len() as int) =~= want);
    let mut out = chars_of("{");
    push_all(&mut out, &crate::text::join(&parts, &chars_of(",")));
    push_str(&mut out, "}");
    out
}

/// What refuses two platforms of one image that carry different contract labels.
pub open spec fn disagreeing(
    repository: Seq<char>,
    digest: Seq<char>,
    first: Seq<char>,
    held: Seq<(Seq<char>, Seq<char>)>,
    platform: Seq<char>,
    labels: Seq<(Seq<char>, Seq<char>)>,
) -> Seq<char> {
    pinned_spec(repository, digest) + " carries different contract labels per platform: "@ + first
        + " says "@ + labels_text(held) + " and "@ + platform + " says "@ + labels_text(labels)
}

/// Whether two lists of labels are the same.
fn same_labels(a: &Vec<(String, String)>, b: &Vec<(String, String)>) -> (r: bool)
    ensures
        r == (labels_view(a@) == labels_view(b@)),
{
    if a.len() != b.len() {
        assert(labels_view(a@).len() != labels_view(b@).len());
        return false;
    }
    let mut k: usize = 0;
    while k < a.len()
        invariant
            k <= a@.len(),
            a@.len() == b@.len(),
            forall|i: int| 0 <= i < k ==> #[trigger] labels_view(a@)[i] == labels_view(b@)[i],
        decreases a.len() - k,
    {
        if a[k].0 != b[k].0 || a[k].1 != b[k].1 {
            assert(labels_view(a@)[k as int] != labels_view(b@)[k as int]);
            return false;
        }
        k = k + 1;
    }
    assert(labels_view(a@) =~= labels_view(b@));
    true
}

/// One platform's contract labels against the first platform's: refused, naming both, where they
/// differ.
pub fn agree(
    repository: &str,
    digest: &str,
    first: &String,
    held: &Vec<(String, String)>,
    platform: &str,
    labels: &Vec<(String, String)>,
) -> (r: Result<(), Error>)
    ensures
        match r {
            Ok(_) => labels_view(held@) == labels_view(labels@),
            Err(e) => e is Invalid && labels_view(held@) != labels_view(labels@) && e.said()
                == disagreeing(
                repository@,
                digest@,
                first@,
                labels_view(held@),
                platform@,
                labels_view(labels@),
            ),
        },
{
    if same_labels(held, labels) {
        return Ok(());
    }
    let mut message = chars_of(pinned_at(repository, digest).as_str());
    push_str(&mut message, " carries different contract labels per platform: ");
    push_str(&mut message, first.as_str());
    push_str(&mut message, " says ");
    push_all(&mut message, &labels_text_of(held));
    push_str(&mut message, " and ");
    push_str(&mut message, platform);
    push_str(&mut message, " says ");
    push_all(&mut message, &labels_text_of(labels));
    Err(Error::Invalid(string_of(&message)))
}

/// The contract labels of one image, read through the index when the pinned digest is one.
///
/// Every platform is read and they are required to agree rather than the first being trusted: two
/// architectures disagreeing about which namespace the binary reads is a build that produced two
/// different programs under one tag.
pub fn agreed_labels<R: Registry>(registry: &R, repository: &str, digest: &str) -> (r: Result<
    Vec<(String, String)>,
    Error,
>)
    ensures
        r matches Ok(labels) ==> labels_view(labels@) == config_labels_spec(labels_view(labels@)),
{
    let platforms = registry.platforms(repository, digest)?;
    let mut agreed: Option<(String, Vec<(String, String)>)> = None;
    let mut k: usize = 0;
    while k < platforms.len()
        invariant
            k <= platforms@.len(),
            agreed matches Some((_, held)) ==> labels_view(held@) == config_labels_spec(
                labels_view(held@),
            ),
        decreases platforms.len() - k,
    {
        let at = pinned_at(repository, platforms[k].as_str());
        let all = registry.image_labels(at.as_str())?;
        let labels = config_labels(&all);
        proof {
            lemma_config_labels_stable(labels_view(all@));
        }
        match &agreed {
            None => {
                agreed = Some((platforms[k].clone(), labels));
            },
            Some((first, held)) => {
                agree(repository, digest, first, held, platforms[k].as_str(), &labels)?;
            },
        }
        k = k + 1;
    }
    match agreed {
        Some((_, labels)) => Ok(labels),
        None => {
            let none: Vec<(String, String)> = Vec::new();
            assert(labels_view(none@) =~= seq![]);
            Ok(none)
        },
    }
}

/// Taking the contract labels twice changes nothing.
proof fn lemma_config_labels_stable(labels: Seq<(Seq<char>, Seq<char>)>)
    ensures
        config_labels_spec(config_labels_spec(labels)) == config_labels_spec(labels),
    decreases labels.len(),
{
    if labels.len() > 0 {
        lemma_config_labels_stable(labels.drop_last());
        let rest = config_labels_spec(labels.drop_last());
        if crate::text::starts_with_spec(labels.last().0, LABEL_NAMESPACE@) {
            assert(rest.push(labels.last()).drop_last() =~= rest);
        }
    }
}

/// The contract attached to a digest, looked for on the index and then on each platform.
///
/// Which of the two a producer attaches to is a real choice, and a consumer that only looked at
/// one would report no contract for an image that publishes one; the index is tried first because
/// it is the digest everything else is tied to.
pub fn discover_contract<R: Registry>(registry: &R, repository: &str, digest: &str) -> (r: Result<
    Vec<Json>,
    Error,
>) {
    let at = pinned_at(repository, digest);
    let index = registry.discover(at.as_str(), ARTIFACT_TYPE)?;
    if index.len() > 0 {
        return Ok(contract_listing(digest, index, &Vec::new(), Vec::new()));
    }
    let platforms = registry.platforms(repository, digest)?;
    let mut listings: Vec<Vec<Json>> = Vec::new();
    let mut k: usize = 0;
    while k < platforms.len()
        invariant
            k <= platforms@.len(),
        decreases platforms.len() - k,
    {
        if platforms[k] != digest.to_owned() {
            let at = pinned_at(repository, platforms[k].as_str());
            let listing = registry.discover(at.as_str(), ARTIFACT_TYPE)?;
            let found = listing.len() > 0;
            listings.push(listing);
            if found {
                break;
            }
        } else {
            listings.push(Vec::new());
        }
        k = k + 1;
    }
    Ok(contract_listing(digest, index, &platforms, listings))
}

/// The listing of the first platform, from the `k`-th on, other than the digest itself, whose
/// listing carries any referrers; nothing where none does. A platform past the listings has
/// none.
pub open spec fn listing_from(platforms: Seq<Seq<char>>, digest: Seq<char>, listings: Seq<Seq<Json>>, k: int) -> Seq<Json>
    decreases platforms.len() - k,
{
    if k < 0 || k >= platforms.len() || k >= listings.len() {
        seq![]
    } else if platforms[k] != digest && listings[k].len() > 0 {
        listings[k]
    } else {
        listing_from(platforms, digest, listings, k + 1)
    }
}

/// Which listing names a digest's contract: the digest's own referrers where there are any,
/// else those of the first of its platforms, other than the digest itself, that has any, else
/// nothing. `listings` holds each platform's referrers, in the platforms' order.
pub open spec fn contract_listing_spec(
    digest: Seq<char>,
    index: Seq<Json>,
    platforms: Seq<Seq<char>>,
    listings: Seq<Seq<Json>>,
) -> Seq<Json> {
    if index.len() > 0 {
        index
    } else {
        listing_from(platforms, digest, listings, 0)
    }
}

/// Listings, by their items.
pub open spec fn listings_view(v: Seq<Vec<Json>>) -> Seq<Seq<Json>> {
    v.map_values(|l: Vec<Json>| l@)
}

/// Which listing names a digest's contract, from the referrers of the digest and of each of
/// its platforms.
pub fn contract_listing(digest: &str, index: Vec<Json>, platforms: &Vec<String>, listings: Vec<Vec<Json>>) -> (r: Vec<Json>)
    ensures
        r@ == contract_listing_spec(
            digest@,
            index@,
            crate::text::strs(platforms@),
            listings_view(listings@),
        ),
{
    if index.len() > 0 {
        return index;
    }
    let ghost ps = crate::text::strs(platforms@);
    let ghost ls = listings_view(listings@);
    let mut held_all = listings;
    let mut k: usize = 0;
    while k < platforms.len() && k < held_all.len()
        invariant
            k <= platforms@.len(),
            ps == crate::text::strs(platforms@),
            ls == listings_view(held_all@),
            ls == listings_view(listings@),
            index@.len() == 0,
            listing_from(ps, digest@, ls, 0) == listing_from(ps, digest@, ls, k as int),
        decreases platforms.len() - k,
    {
        assert(ps[k as int] == platforms@[k as int]@);
        assert(ls[k as int] == held_all@[k as int]@);
        if platforms[k] != digest.to_owned() && held_all[k].len() > 0 {
            let ghost held = held_all@;
            assert(ps[k as int] != digest@);
            assert(listing_from(ps, digest@, ls, k as int) == ls[k as int]);
            let chosen = held_all.swap_remove(k);
            assert(chosen == held[k as int]);
            assert(chosen@ == ls[k as int]);
            return chosen;
        }
        k = k + 1;
    }
    Vec::new()
}

/// What an attachment listing says to fetch: nothing where nothing is attached, the one
/// attachment's digest where there is one, and a refusal where there are more.
pub open spec fn attachment_spec(repository: Seq<char>, digest: Seq<char>, referrers: Seq<Json>) -> Result<
    Option<Seq<char>>,
    Seq<char>,
> {
    if referrers.len() == 0 {
        Ok(None)
    } else if referrers.len() > 1 {
        Err(
            pinned_spec(repository, digest) + " has "@ + decimal(referrers.len()) + " referrers of type "@
                + ARTIFACT_TYPE@ + ", expected one"@,
        )
    } else {
        Ok(Some(text_or_empty(get_spec(referrers[0], "digest"@))))
    }
}

/// What an attachment listing says to fetch.
pub fn attachment(repository: &str, digest: &str, referrers: &Vec<Json>) -> (r: Result<
    Option<String>,
    Error,
>)
    ensures
        match r {
            Ok(Some(d)) => attachment_spec(repository@, digest@, referrers@) == Ok::<
                Option<Seq<char>>,
                Seq<char>,
            >(Some(d@)),
            Ok(None) => attachment_spec(repository@, digest@, referrers@) == Ok::<
                Option<Seq<char>>,
                Seq<char>,
            >(None),
            Err(e) => e is Invalid && attachment_spec(repository@, digest@, referrers@) == Err::<
                Option<Seq<char>>,
                Seq<char>,
            >(e.said()),
        },
{
    if referrers.len() == 0 {
        return Ok(None);
    }
    if referrers.len() > 1 {
        let mut message = chars_of(pinned_at(repository, digest).as_str());
        push_str(&mut message, " has ");
        push_all(&mut message, &decimal_of(referrers.len() as u64));
        push_str(&mut message, " referrers of type ");
        push_str(&mut message, ARTIFACT_TYPE);
        push_str(&mut message, ", expected one");
        return Err(Error::Invalid(string_of(&message)));
    }
    match text_field(&referrers[0], "digest") {
        Some(d) => Ok(Some(d.clone())),
        None => Ok(Some(String::new())),
    }
}

/// The digest of an attachment manifest's one layer, refused where it has any other number.
pub open spec fn one_layer_spec(repository: Seq<char>, digest: Seq<char>, manifest: Json) -> Result<
    Seq<char>,
    Seq<char>,
> {
    let layers = list_items(get_spec(manifest, "layers"@));
    if layers.len() != 1 {
        Err(
            "the contract attached to "@ + pinned_spec(repository, digest) + " has "@ + decimal(
                layers.len(),
            ) + " layers, expected one"@,
        )
    } else {
        Ok(text_or_empty(get_spec(layers[0], "digest"@)))
    }
}

/// The digest of an attachment manifest's one layer.
pub fn one_layer(repository: &str, digest: &str, manifest: &Json) -> (r: Result<String, Error>)
    ensures
        match r {
            Ok(d) => one_layer_spec(repository@, digest@, *manifest) == Ok::<Seq<char>, Seq<char>>(
                d@,
            ),
            Err(e) => e is Invalid && one_layer_spec(repository@, digest@, *manifest) == Err::<
                Seq<char>,
                Seq<char>,
            >(e.said()),
        },
{
    let empty: Vec<Json> = Vec::new();
    let layers = match items_field(manifest, "layers") {
        Some(items) => items,
        None => &empty,
    };
    if layers.len() != 1 {
        let mut message = chars_of("the contract attached to ");
        push_str(&mut message, pinned_at(repository, digest).as_str());
        push_str(&mut message, " has ");
        push_all(&mut message, &decimal_of(layers.len() as u64));
        push_str(&mut message, " layers, expected one");
        return Err(Error::Invalid(string_of(&message)));
    }
    match text_field(&layers[0], "digest") {
        Some(d) => Ok(d.clone()),
        None => Ok(String::new()),
    }
}

/// What refuses a blob that does not hash to the digest its descriptor claims.
pub open spec fn hash_refusal(
    repository: Seq<char>,
    digest: Seq<char>,
    claimed: Seq<char>,
    payload: Seq<u8>,
) -> Option<Seq<char>> {
    let actual = hex_spec(sha256(payload));
    if claimed == "sha256:"@ + actual {
        None
    } else {
        Some(
            "the contract attached to "@ + pinned_spec(repository, digest) + " hashes to sha256:"@
                + actual + ", but its descriptor claims "@ + claimed,
        )
    }
}

/// Refuse a blob that does not hash to the digest its descriptor claims: a registry
/// content-addresses its blobs, so hashing what arrived and comparing is the whole integrity
/// check.
pub fn hashes_to(repository: &str, digest: &str, claimed: &str, payload: &[u8]) -> (r: Result<
    (),
    Error,
>)
    ensures
        match r {
            Ok(_) => hash_refusal(repository@, digest@, claimed@, payload@) is None,
            Err(e) => e is Invalid && hash_refusal(repository@, digest@, claimed@, payload@) == Some(
                e.said(),
            ),
        },
{
    let actual = hex_sha256(payload);
    let mut expected = chars_of("sha256:");
    push_str(&mut expected, actual.as_str());
    if crate::text::same(&expected, &chars_of(claimed)) {
        return Ok(());
    }
    let mut message = chars_of("the contract attached to ");
    push_str(&mut message, pinned_at(repository, digest).as_str());
    push_str(&mut message, " hashes to sha256:");
    push_str(&mut message, actual.as_str());
    push_str(&mut message, ", but its descriptor claims ");
    push_str(&mut message, claimed);
    Err(Error::Invalid(string_of(&message)))
}

/// The document attached to a digest as an OCI referrer, with the attachment's manifest and the
/// digest its single layer claims, or `None` if nothing is attached.
///
/// Refused when there is more than one attachment, when its manifest is not one layer, or when
/// the blob does not hash to the digest its descriptor claims: a document that comes back hashes
/// to the digest of the one layer of the manifest that comes back with it.
pub fn fetch_attachment<R: Registry>(registry: &R, repository: &str, digest: &str) -> (r: Result<
    Option<(Json, String, Vec<u8>)>,
    Error,
>)
    ensures
        r matches Ok(Some((manifest, claimed, payload))) ==> one_layer_spec(repository@, digest@, manifest)
            == Ok::<Seq<char>, Seq<char>>(claimed@) && hash_refusal(repository@, digest@, claimed@, payload@) is None,
{
    let referrers = discover_contract(registry, repository, digest)?;
    let attached = match attachment(repository, digest, &referrers)? {
        Some(d) => d,
        None => {
            return Ok(None);
        },
    };
    let manifest = registry.manifest(pinned_at(repository, attached.as_str()).as_str())?;
    let claimed = one_layer(repository, digest, &manifest)?;
    let payload = registry.blob(pinned_at(repository, claimed.as_str()).as_str())?;
    hashes_to(repository, digest, claimed.as_str(), &payload)?;
    Ok(Some((manifest, claimed, payload)))
}

/// Whether a document hashes to the digest the one layer of some attachment manifest claims.
pub open spec fn attached_to(repository: Seq<char>, digest: Seq<char>, payload: Seq<u8>) -> bool {
    exists|manifest: Json, claimed: Seq<char>|
        #![trigger one_layer_spec(repository, digest, manifest), hash_refusal(repository, digest, claimed, payload)]
        one_layer_spec(repository, digest, manifest) == Ok::<Seq<char>, Seq<char>>(claimed)
            && hash_refusal(repository, digest, claimed, payload) is None
}

/// The document attached to a digest as an OCI referrer, or `None` if nothing is: what
/// [`fetch_attachment`] finds, without the manifest and digest it was checked against. A document
/// that comes back hashes to the digest the one layer of some attachment manifest claims; which
/// manifest the registry answered is not named, since the registry is whatever implements
/// [`Registry`].
pub fn fetch_attached<R: Registry>(registry: &R, repository: &str, digest: &str) -> (r: Result<
    Option<Vec<u8>>,
    Error,
>)
    ensures
        r matches Ok(Some(payload)) ==> attached_to(repository@, digest@, payload@),
{
    let found = fetch_attachment(registry, repository, digest);
    match found {
        Ok(Some((manifest, claimed, payload))) => {
            let ghost c = claimed@;
            assert(one_layer_spec(repository@, digest@, manifest) == Ok::<Seq<char>, Seq<char>>(c)
                && hash_refusal(repository@, digest@, c, payload@) is None);
            assert(attached_to(repository@, digest@, payload@));
            Ok(Some(payload))
        },
        Ok(None) => Ok(None),
        Err(e) => Err(e),
    }
}

/// A path a label names inside an image, with its leading slashes dropped; `None` where it names
/// nothing.
pub open spec fn wanted_spec(path: Option<Seq<char>>) -> Option<Seq<char>> {
    match path {
        Some(p) => {
            let rest = p.skip(crate::text::skip_leading(p, '/'));
            if rest.len() > 0 {
                Some(rest)
            } else {
                None
            }
        },
        None => None,
    }
}

/// A path a label names inside an image, with its leading slashes dropped.
pub fn wanted_path(path: Option<&str>) -> (r: Option<String>)
    ensures
        match r {
            Some(w) => wanted_spec(
                match path {
                    Some(p) => Some(p@),
                    None => None,
                },
            ) == Some(w@),
            None => wanted_spec(
                match path {
                    Some(p) => Some(p@),
                    None => None,
                },
            ) is None,
        },
{
    match path {
        None => None,
        Some(p) => {
            let held = chars_of(p);
            let at = crate::text::skip_leading_at(&held, '/');
            let rest = crate::text::slice_of(&held, at, held.len());
            assert(rest@ =~= held@.skip(at as int));
            if rest.len() > 0 {
                Some(string_of(&rest))
            } else {
                None
            }
        },
    }
}

/// The layer digests of an image manifest, top layer first: the order a filesystem resolves them
/// in, since the last layer to write a path is the one the container sees.
pub open spec fn layers_top_down(manifest: Json) -> Seq<Seq<char>> {
    list_items(get_spec(manifest, "layers"@)).reverse().map_values(
        |l: Json| text_or_empty(get_spec(l, "digest"@)),
    )
}

/// The layer digests of an image manifest, top layer first.
pub fn layer_digests(manifest: &Json) -> (v: Vec<String>)
    ensures
        crate::text::strs(v@) == layers_top_down(*manifest),
{
    let empty: Vec<Json> = Vec::new();
    let layers = match items_field(manifest, "layers") {
        Some(items) => items,
        None => &empty,
    };
    let ghost want = layers_top_down(*manifest);
    assert(want.len() == layers@.len());
    let mut v: Vec<String> = Vec::new();
    let mut k: usize = layers.len();
    while k > 0
        invariant
            k <= layers@.len(),
            want == layers_top_down(*manifest),
            want.len() == layers@.len(),
            list_items(get_spec(*manifest, "layers"@)) == layers@,
            crate::text::strs(v@) == want.take(layers@.len() - k),
        decreases k,
    {
        k = k - 1;
        let d = match text_field(&layers[k], "digest") {
            Some(d) => d.clone(),
            None => String::new(),
        };
        let ghost before = v@;
        assert(crate::text::strs(before).len() == layers@.len() - k - 1);
        v.push(d);
        assert(want[layers@.len() - k - 1] == text_or_empty(get_spec(layers@[k as int], "digest"@)));
        assert forall|i: int| 0 <= i < layers@.len() - k implies #[trigger] crate::text::strs(v@)[i]
            == want.take(layers@.len() - k)[i] by {
            if i < layers@.len() - k - 1 {
                assert(crate::text::strs(before)[i] == want.take(layers@.len() - k - 1)[i]);
                assert(v@[i] == before[i]);
            }
        }
        assert(crate::text::strs(v@) =~= want.take(layers@.len() - k));
    }
    assert(want.take(layers@.len() as int) =~= want);
    v
}

/// The document from inside the image, at the path the label names, or `None` where it is not
/// there.
///
/// Read by walking each platform's layer blobs from the top down; the first hit wins and the walk
/// stops, so the usual case — the document copied in a late, tiny layer — costs one small blob.
pub fn fetch_embedded<R: Registry>(
    registry: &R,
    repository: &str,
    digest: &str,
    path: Option<&str>,
) -> (r: Result<Option<Vec<u8>>, Error>)
    ensures
        r matches Ok(Some(_)) ==> wanted_spec(
            match path {
                Some(p) => Some(p@),
                None => None,
            },
        ) is Some,
        wanted_spec(
            match path {
                Some(p) => Some(p@),
                None => None,
            },
        ) is None ==> r matches Ok(None),
{
    let wanted = match wanted_path(path) {
        Some(w) => w,
        None => {
            return Ok(None);
        },
    };
    let ghost named = match path {
        Some(p) => Some(p@),
        None => None,
    };
    let platforms = registry.platforms(repository, digest)?;
    let mut k: usize = 0;
    while k < platforms.len()
        invariant
            k <= platforms@.len(),
            named == match path {
                Some(p) => Some(p@),
                None => None,
            },
            wanted_spec(named) is Some,
        decreases platforms.len() - k,
    {
        let manifest = registry.manifest(pinned_at(repository, platforms[k].as_str()).as_str())?;
        let layers = layer_digests(&manifest);
        let mut j: usize = 0;
        while j < layers.len()
            invariant
                j <= layers@.len(),
                named == match path {
                    Some(p) => Some(p@),
                    None => None,
                },
                wanted_spec(named) is Some,
            decreases layers.len() - j,
        {
            let blob = registry.blob(pinned_at(repository, layers[j].as_str()).as_str())?;
            match read_from_layer(&blob, wanted.as_str()) {
                Some(found) => {
                    return Ok(Some(found));
                },
                None => {},
            }
            j = j + 1;
        }
        k = k + 1;
    }
    Ok(None)
}

/// The value of a label, by name.
pub open spec fn label_of(labels: Seq<(Seq<char>, Seq<char>)>, name: Seq<char>) -> Option<Seq<char>>
    decreases labels.len(),
{
    if labels.len() == 0 {
        None
    } else if labels[0].0 == name {
        Some(labels[0].1)
    } else {
        label_of(labels.drop_first(), name)
    }
}

/// The value of a label, by name.
fn label_value(labels: &Vec<(String, String)>, name: &str) -> (r: Option<String>)
    ensures
        match r {
            Some(v) => label_of(labels_view(labels@), name@) == Some(v@),
            None => label_of(labels_view(labels@), name@) is None,
        },
{
    let ghost all = labels_view(labels@);
    let mut k: usize = 0;
    assert(all.skip(0) =~= all);
    while k < labels.len()
        invariant
            k <= labels@.len(),
            all == labels_view(labels@),
            label_of(all, name@) == label_of(all.skip(k as int), name@),
        decreases labels.len() - k,
    {
        assert(all.skip(k as int)[0] == (labels@[k as int].0@, labels@[k as int].1@));
        assert(all.skip(k as int).drop_first() =~= all.skip(k + 1));
        if labels[k].0 == name.to_owned() {
            return Some(labels[k].1.clone());
        }
        k = k + 1;
    }
    None
}

/// A text that may be absent, with nothing standing for the absence.
pub open spec fn or_empty(t: Option<Seq<char>>) -> Seq<char> {
    match t {
        Some(t) => t,
        None => seq![],
    }
}

/// What refuses an image's contract labels: no version label, or a version this library does not
/// read.
pub open spec fn version_refusal(pinned: Seq<char>, labels: Seq<(Seq<char>, Seq<char>)>) -> Option<
    Seq<char>,
> {
    match label_of(labels, LABEL_VERSION@) {
        None => Some(pinned + " carries no "@ + LABEL_VERSION@ + " label, so it publishes no contract"@),
        Some(v) => if v != decimal(CONTRACT_VERSION as nat) {
            Some(
                pinned + " publishes contract version "@ + v + ", and this build reads "@ + decimal(
                    CONTRACT_VERSION as nat,
                ),
            )
        } else {
            None
        },
    }
}

/// Refuse an image whose labels name no contract version, or one this library does not read.
pub fn contract_version(pinned: &str, labels: &Vec<(String, String)>) -> (r: Result<(), Error>)
    ensures
        match r {
            Ok(_) => version_refusal(pinned@, labels_view(labels@)) is None,
            Err(e) => e is Invalid && version_refusal(pinned@, labels_view(labels@)) == Some(
                e.said(),
            ),
        },
{
    let wanted = string_of(&decimal_of(CONTRACT_VERSION));
    match label_value(labels, LABEL_VERSION) {
        None => {
            let mut message = chars_of(pinned);
            push_str(&mut message, " carries no ");
            push_str(&mut message, LABEL_VERSION);
            push_str(&mut message, " label, so it publishes no contract");
            Err(Error::Invalid(string_of(&message)))
        },
        Some(version) => {
            if version == wanted {
                Ok(())
            } else {
                let mut message = chars_of(pinned);
                push_str(&mut message, " publishes contract version ");
                push_str(&mut message, version.as_str());
                push_str(&mut message, ", and this build reads ");
                push_str(&mut message, wanted.as_str());
                Err(Error::Invalid(string_of(&message)))
            }
        },
    }
}

/// Bytes that may be absent, as their view.
pub open spec fn opt_bytes(b: Option<Vec<u8>>) -> Option<Seq<u8>> {
    match b {
        Some(v) => Some(v@),
        None => None,
    }
}

/// The document the two carriers give: either where only one holds it, and refused where
/// neither does or where they differ.
pub open spec fn carriers_spec(
    pinned: Seq<char>,
    path: Option<Seq<char>>,
    attached: Option<Seq<u8>>,
    embedded: Option<Seq<u8>>,
) -> Result<Seq<u8>, Seq<char>> {
    match (attached, embedded) {
        (None, None) => Err(
            pinned
                + " carries the contract labels but publishes no document: nothing is attached with artifact type "@
                + ARTIFACT_TYPE@ + ", and there is no file at "@ + crate::quoted_spec(or_empty(path))
                + " inside the image. The build set the labels without running the attach step or the copy that embeds the document."@,
        ),
        (Some(a), Some(e)) => if a != e {
            Err(
                pinned
                    + " publishes two different documents: the artifact attached to the digest and the file at "@
                    + or_empty(path)
                    + " do not match, so the image and its attachment came from different builds"@,
            )
        } else {
            Ok(a)
        },
        (Some(a), None) => Ok(a),
        (None, Some(e)) => Ok(e),
    }
}

/// Whether two byte strings are the same.
fn same_bytes(a: &Vec<u8>, b: &Vec<u8>) -> (r: bool)
    ensures
        r == (a@ == b@),
{
    if a.len() != b.len() {
        return false;
    }
    let mut k: usize = 0;
    while k < a.len()
        invariant
            k <= a@.len(),
            a@.len() == b@.len(),
            forall|i: int| 0 <= i < k ==> a@[i] == b@[i],
        decreases a.len() - k,
    {
        if a[k] != b[k] {
            return false;
        }
        k = k + 1;
    }
    assert(a@ =~= b@);
    true
}

/// The document the two carriers give, where one or both hold it and they agree.
///
/// Neither is trusted alone when both exist: an image and an attachment that hold different
/// documents came from different builds.
pub fn carriers(
    pinned: &str,
    path: Option<&str>,
    attached: Option<Vec<u8>>,
    embedded: Option<Vec<u8>>,
) -> (r: Result<Vec<u8>, Error>)
    ensures
        match r {
            Ok(v) => carriers_spec(
                pinned@,
                match path {
                    Some(p) => Some(p@),
                    None => None,
                },
                opt_bytes(attached),
                opt_bytes(embedded),
            ) == Ok::<Seq<u8>, Seq<char>>(v@),
            Err(e) => e is Invalid && carriers_spec(
                pinned@,
                match path {
                    Some(p) => Some(p@),
                    None => None,
                },
                opt_bytes(attached),
                opt_bytes(embedded),
            ) == Err::<Seq<u8>, Seq<char>>(e.said()),
        },
{
    let shown = match path {
        Some(p) => p.to_owned(),
        None => String::new(),
    };
    match (attached, embedded) {
        (None, None) => {
            let mut message = chars_of(pinned);
            push_str(
                &mut message,
                " carries the contract labels but publishes no document: nothing is attached with artifact type ",
            );
            push_str(&mut message, ARTIFACT_TYPE);
            push_str(&mut message, ", and there is no file at ");
            push_str(&mut message, crate::quoted(shown.as_str()).as_str());
            push_str(
                &mut message,
                " inside the image. The build set the labels without running the attach step or the copy that embeds the document.",
            );
            Err(Error::Invalid(string_of(&message)))
        },
        (Some(a), Some(e)) => {
            if same_bytes(&a, &e) {
                Ok(a)
            } else {
                let mut message = chars_of(pinned);
                push_str(
                    &mut message,
                    " publishes two different documents: the artifact attached to the digest and the file at ",
                );
                push_str(&mut message, shown.as_str());
                push_str(
                    &mut message,
                    " do not match, so the image and its attachment came from different builds",
                );
                Err(Error::Invalid(string_of(&message)))
            }
        },
        (Some(a), None) => Ok(a),
        (None, Some(e)) => Ok(e),
    }
}

/// The variable prefix a published contract's dialect describes.
pub open spec fn described_prefix(document: Json) -> Option<Seq<char>> {
    match get_spec(document, "schema"@) {
        Some(schema) => match get_spec(schema, "dialect"@) {
            Some(dialect) => text_spec(get_spec(dialect, "prefix"@)),
            None => None,
        },
        None => None,
    }
}

/// What refuses an image whose prefix label names a namespace its contract does not describe.
pub open spec fn prefix_refusal(
    pinned: Seq<char>,
    labels: Seq<(Seq<char>, Seq<char>)>,
    document: Json,
) -> Option<Seq<char>> {
    let declared = label_of(labels, LABEL_PREFIX@);
    let described = described_prefix(document);
    if declared == described {
        None
    } else {
        Some(
            pinned + " is labelled "@ + LABEL_PREFIX@ + "="@ + crate::quoted_spec(or_empty(declared))
                + " but the contract attached to it describes the namespace "@ + crate::quoted_spec(
                or_empty(described),
            ) + ": the image and its contract came from different builds"@,
        )
    }
}

/// Refuse an image whose prefix label names a namespace other than the one its contract
/// describes: the label is what a consumer discovers the image by, so a label over a document
/// describing another namespace is an image whose two halves came from different builds.
pub fn prefix_agrees(pinned: &str, labels: &Vec<(String, String)>, document: &Json) -> (r: Result<
    (),
    Error,
>)
    ensures
        match r {
            Ok(_) => prefix_refusal(pinned@, labels_view(labels@), *document) is None,
            Err(e) => e is Invalid && prefix_refusal(pinned@, labels_view(labels@), *document)
                == Some(e.said()),
        },
{
    let declared = label_value(labels, LABEL_PREFIX);
    let described = match document.get("schema") {
        Some(schema) => match schema.get("dialect") {
            Some(dialect) => text_field(dialect, "prefix"),
            None => None,
        },
        None => None,
    };
    let same = match (&declared, described) {
        (Some(a), Some(b)) => *a == *b,
        (None, None) => true,
        _ => false,
    };
    if same {
        return Ok(());
    }
    let mut message = chars_of(pinned);
    push_str(&mut message, " is labelled ");
    push_str(&mut message, LABEL_PREFIX);
    push_str(&mut message, "=");
    let held = match &declared {
        Some(a) => a.clone(),
        None => String::new(),
    };
    push_str(&mut message, crate::quoted(held.as_str()).as_str());
    push_str(&mut message, " but the contract attached to it describes the namespace ");
    let said = match described {
        Some(b) => b.clone(),
        None => String::new(),
    };
    push_str(&mut message, crate::quoted(said.as_str()).as_str());
    push_str(&mut message, ": the image and its contract came from different builds");
    Err(Error::Invalid(string_of(&message)))
}

/// Fetch one image's published document and its contract labels, proven to belong to the pinned
/// digest: the signature verified before anything is read, the labels agreed across platforms and
/// naming a version this library reads, and the document taken from whichever carriers hold it,
/// both agreeing where both do.
///
/// What remains is the document itself: parsed, it must describe the namespace the prefix label
/// names (`prefix_agrees`).
pub fn fetch_payload<R: Registry>(
    registry: &R,
    repository: &str,
    digest: &str,
    signer: &str,
) -> (r: Result<(Vec<u8>, Vec<(String, String)>), Error>)
    ensures
        r matches Ok((_, labels)) ==> version_refusal(
            pinned_spec(repository@, digest@),
            labels_view(labels@),
        ) is None,
        r matches Ok((_, labels)) ==> labels_view(labels@) == config_labels_spec(labels_view(labels@)),
{
    let pinned = pinned_at(repository, digest);
    registry.verify(pinned.as_str(), signer)?;
    let labels = agreed_labels(registry, repository, digest)?;
    contract_version(pinned.as_str(), &labels)?;
    let path = label_value(&labels, LABEL_PATH);
    let attached = fetch_attached(registry, repository, digest)?;
    let named = match &path {
        Some(p) => Some(p.as_str()),
        None => None,
    };
    let embedded = fetch_embedded(registry, repository, digest, named)?;
    let payload = carriers(pinned.as_str(), named, attached, embedded)?;
    Ok((payload, labels))
}

} // verus!
