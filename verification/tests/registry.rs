use std::cell::RefCell;
use std::collections::BTreeMap;
use std::io::Write as _;

use sha2::Digest as _;
use terrace_helm::json::Json;
use terrace_helm::pull::{
    agreed_labels, fetch_attached, fetch_payload, hex_sha256, platforms_of, prefix_agrees,
    read_from_layer, referrers_of, Registry, ARTIFACT_TYPE, LABEL_PATH, LABEL_PREFIX,
    LABEL_VERSION,
};
use terrace_helm::Error;

const IMAGE: &str = "ghcr.io/example/api";
const INDEX: &str = "sha256:aa";
const AMD64: &str = "sha256:bb";
const ARM64: &str = "sha256:cc";
const SIGNER: &str = "https://example.invalid/workflow";

fn s(text: &str) -> Json {
    Json::Str(text.to_owned())
}

/// An object with its fields in key order, as a parsed document holds them.
fn obj(fields: Vec<(&str, Json)>) -> Json {
    let mut held: Vec<(String, Json)> =
        fields.into_iter().map(|(name, value)| (name.to_owned(), value)).collect();
    held.sort_by(|a, b| a.0.cmp(&b.0));
    Json::Object(held)
}

fn published() -> Vec<u8> {
    br#"{"terrace_contract":1,"schema":{"dialect":{"prefix":"API_"}}}"#.to_vec()
}

fn digest_of(payload: &[u8]) -> String {
    let held = sha2::Sha256::digest(payload);
    format!("sha256:{}", held.iter().map(|byte| format!("{byte:02x}")).collect::<String>())
}

/// One uncompressed tar holding one file, which is all a layer needs to be for these.
fn tarball(path: &str, body: &[u8]) -> Vec<u8> {
    let mut header = tar::Header::new_gnu();
    header.set_size(body.len() as u64);
    header.set_mode(0o644);
    header.set_cksum();
    let mut builder = tar::Builder::new(Vec::new());
    builder.append_data(&mut header, path, body).expect("a tar entry is appendable");
    builder.into_inner().expect("a tar closes")
}

fn labels(prefix: &str, version: &str) -> Vec<(String, String)> {
    let mut held = vec![
        (LABEL_PATH.to_owned(), "/etc/api/contract.json".to_owned()),
        (LABEL_PREFIX.to_owned(), prefix.to_owned()),
        (LABEL_VERSION.to_owned(), version.to_owned()),
        ("org.opencontainers.image.title".to_owned(), "api".to_owned()),
    ];
    held.sort();
    held
}

/// A registry that answers from a recorded shape, and remembers what it was asked.
#[derive(Default)]
struct Recorded {
    labels: BTreeMap<String, Vec<(String, String)>>,
    manifests: BTreeMap<String, Json>,
    blobs: BTreeMap<String, Vec<u8>>,
    referrers: BTreeMap<String, Vec<Json>>,
    asked: RefCell<Vec<String>>,
    refuse_signature: bool,
}

impl Recorded {
    /// An index over two platforms, both carrying the same labels, with the document attached to
    /// the index.
    fn of(payload: &[u8]) -> Self {
        let attached = "sha256:dd";
        Self {
            labels: [
                (format!("{IMAGE}@{AMD64}"), labels("API_", "1")),
                (format!("{IMAGE}@{ARM64}"), labels("API_", "1")),
            ]
            .into_iter()
            .collect(),
            manifests: [
                (
                    format!("{IMAGE}@{INDEX}"),
                    obj(vec![(
                        "manifests",
                        Json::Array(vec![
                            obj(vec![("digest", s(AMD64)), ("platform", obj(vec![("os", s("linux"))]))]),
                            obj(vec![("digest", s(ARM64)), ("platform", obj(vec![("os", s("linux"))]))]),
                            obj(vec![("digest", s("sha256:ee")), ("platform", obj(vec![("os", s("unknown"))]))]),
                        ]),
                    )]),
                ),
                (format!("{IMAGE}@{AMD64}"), obj(vec![("layers", Json::Array(Vec::new()))])),
                (format!("{IMAGE}@{ARM64}"), obj(vec![("layers", Json::Array(Vec::new()))])),
                (
                    format!("{IMAGE}@{attached}"),
                    obj(vec![("layers", Json::Array(vec![obj(vec![("digest", s(&digest_of(payload)))])]))]),
                ),
            ]
            .into_iter()
            .collect(),
            blobs: [(format!("{IMAGE}@{}", digest_of(payload)), payload.to_vec())].into_iter().collect(),
            referrers: [(
                format!("{IMAGE}@{INDEX}"),
                vec![obj(vec![("artifactType", s(ARTIFACT_TYPE)), ("digest", s(attached))])],
            )]
            .into_iter()
            .collect(),
            ..Self::default()
        }
    }

    /// The same image with nothing attached and the document inside a layer instead.
    fn embedded_only(payload: &[u8]) -> Self {
        let mut held = Self::of(payload);
        held.referrers.clear();
        let layer = "sha256:layer";
        let layers = obj(vec![("layers", Json::Array(vec![obj(vec![("digest", s(layer))])]))]);
        held.manifests.insert(format!("{IMAGE}@{AMD64}"), layers.copy());
        held.manifests.insert(format!("{IMAGE}@{ARM64}"), layers);
        held.blobs.insert(format!("{IMAGE}@{layer}"), tarball("etc/api/contract.json", payload));
        held
    }
}

impl Registry for Recorded {
    fn resolve(&self, reference: &str) -> Result<String, Error> {
        self.asked.borrow_mut().push(format!("resolve {reference}"));
        Ok(INDEX.to_owned())
    }

    fn discover(&self, reference: &str, artifact_type: &str) -> Result<Vec<Json>, Error> {
        self.asked.borrow_mut().push(format!("discover {reference} {artifact_type}"));
        Ok(self.referrers.get(reference).map(|held| held.iter().map(Json::copy).collect()).unwrap_or_default())
    }

    fn image_labels(&self, reference: &str) -> Result<Vec<(String, String)>, Error> {
        self.asked.borrow_mut().push(format!("labels {reference}"));
        Ok(self.labels.get(reference).cloned().unwrap_or_default())
    }

    fn manifest(&self, reference: &str) -> Result<Json, Error> {
        self.asked.borrow_mut().push(format!("manifest {reference}"));
        self.manifests
            .get(reference)
            .map(Json::copy)
            .ok_or_else(|| Error::Invalid(format!("{reference}: no such manifest")))
    }

    fn blob(&self, reference: &str) -> Result<Vec<u8>, Error> {
        self.asked.borrow_mut().push(format!("blob {reference}"));
        self.blobs
            .get(reference)
            .cloned()
            .ok_or_else(|| Error::Invalid(format!("{reference}: no such blob")))
    }

    fn verify(&self, reference: &str, identity: &str) -> Result<(), Error> {
        self.asked.borrow_mut().push(format!("verify {reference}"));
        if self.refuse_signature {
            return Err(Error::Invalid(format!("{reference} is not signed by {identity}")));
        }
        Ok(())
    }
}

fn refusal_of<T>(result: Result<T, Error>) -> String {
    match result {
        Err(error) => error.message(),
        Ok(_) => panic!("it is refused"),
    }
}

#[test]
fn a_blob_that_does_not_hash_to_its_descriptor_is_refused() {
    let mut registry = Recorded::of(&published());
    registry.blobs.insert(format!("{IMAGE}@{}", digest_of(&published())), b"{}".to_vec());
    let failure = refusal_of(fetch_attached(&registry, IMAGE, INDEX));
    assert!(failure.contains("descriptor claims"), "{failure}");
}

#[test]
fn a_gzipped_layer_is_read_and_an_unreadable_one_is_skipped() {
    let payload = published();
    let plain = tarball("etc/api/contract.json", &payload);
    let mut encoder = flate2::write::GzEncoder::new(Vec::new(), flate2::Compression::default());
    encoder.write_all(&plain).expect("it compresses");
    let compressed = encoder.finish().expect("it finishes");

    assert_eq!(
        read_from_layer(&compressed, "etc/api/contract.json").as_deref(),
        Some(payload.as_slice())
    );
    assert!(read_from_layer(b"not an archive at all", "etc/api/contract.json").is_none());
    assert!(read_from_layer(&plain, "etc/api/other.json").is_none());
}

#[test]
fn a_path_written_with_a_leading_dot_is_the_same_path() {
    let payload = published();
    let held = tarball("./etc/api/contract.json", &payload);
    assert_eq!(
        read_from_layer(&held, "etc/api/contract.json").as_deref(),
        Some(payload.as_slice())
    );
}

#[test]
fn every_platform_of_one_image_has_to_agree_about_its_labels() {
    let mut registry = Recorded::of(&published());
    registry
        .labels
        .insert(format!("{IMAGE}@{ARM64}"), vec![(LABEL_PREFIX.to_owned(), "OTHER_".to_owned())]);
    let failure = refusal_of(agreed_labels(&registry, IMAGE, INDEX));
    assert!(failure.contains("per platform"), "{failure}");
}

#[test]
fn the_labels_are_read_through_the_index_the_chart_actually_pins() {
    let registry = Recorded::of(&published());
    let labels = agreed_labels(&registry, IMAGE, INDEX).expect("they agree");
    assert_eq!(
        labels.iter().find(|(name, _)| name == LABEL_PREFIX).map(|(_, value)| value.as_str()),
        Some("API_")
    );
    assert!(
        registry.asked.borrow().iter().any(|held| held == &format!("labels {IMAGE}@{AMD64}")),
        "{:?}",
        registry.asked
    );
}

#[test]
fn an_attachment_on_a_platform_is_found_when_the_index_carries_none() {
    let payload = published();
    let mut registry = Recorded::of(&payload);
    let attached = registry.referrers.remove(&format!("{IMAGE}@{INDEX}")).expect("the index carried it");
    registry.referrers.insert(format!("{IMAGE}@{ARM64}"), attached);
    assert_eq!(fetch_attached(&registry, IMAGE, INDEX).expect("it is found"), Some(payload));
}

#[test]
fn more_than_one_attachment_is_refused_rather_than_picked_between() {
    let mut registry = Recorded::of(&published());
    registry.referrers.insert(
        format!("{IMAGE}@{INDEX}"),
        vec![obj(vec![("digest", s("sha256:dd"))]), obj(vec![("digest", s("sha256:ff"))])],
    );
    let failure = refusal_of(fetch_attached(&registry, IMAGE, INDEX));
    assert!(failure.contains("expected one"), "{failure}");
}

#[test]
fn the_labels_name_only_the_contract_namespace() {
    let registry = Recorded::of(&published());
    let labels = agreed_labels(&registry, IMAGE, INDEX).expect("they agree");
    assert!(labels.iter().all(|(name, _)| name.starts_with("dev.terrace.config.")));
    assert_eq!(labels.len(), 3);
}

#[test]
fn the_signature_is_checked_before_anything_is_read_and_an_unsigned_image_stops_there() {
    let registry = Recorded::of(&published());
    fetch_payload(&registry, IMAGE, INDEX, SIGNER).expect("the image publishes one");
    assert_eq!(
        registry.asked.borrow().first().map(String::as_str),
        Some(format!("verify {IMAGE}@{INDEX}").as_str())
    );
    let refused = Recorded { refuse_signature: true, ..Recorded::of(&published()) };
    assert!(fetch_payload(&refused, IMAGE, INDEX, SIGNER).is_err());
    assert_eq!(refused.asked.borrow().len(), 1, "{:?}", refused.asked);
}

#[test]
fn the_document_comes_back_as_published_and_hashes_to_its_address() {
    let payload = published();
    let registry = Recorded::of(&payload);
    let (found, _) = fetch_payload(&registry, IMAGE, INDEX, SIGNER).expect("the image publishes one");
    assert_eq!(found, payload);
    assert_eq!(format!("sha256:{}", hex_sha256(&found)), digest_of(&payload));
}

#[test]
fn the_document_inside_the_image_is_read_when_nothing_is_attached_and_either_carrier_must_hold_it() {
    let payload = published();
    let registry = Recorded::embedded_only(&payload);
    let (found, _) = fetch_payload(&registry, IMAGE, INDEX, SIGNER).expect("the image publishes one");
    assert_eq!(found, payload);

    let mut nothing = Recorded::embedded_only(&payload);
    nothing.blobs.clear();
    let empty = obj(vec![("layers", Json::Array(Vec::new()))]);
    nothing.manifests.insert(format!("{IMAGE}@{AMD64}"), empty.copy());
    nothing.manifests.insert(format!("{IMAGE}@{ARM64}"), empty);
    let failure = refusal_of(fetch_payload(&nothing, IMAGE, INDEX, SIGNER));
    assert!(failure.contains(ARTIFACT_TYPE), "{failure}");
    assert!(failure.contains("/etc/api/contract.json"), "{failure}");
}

#[test]
fn two_carriers_that_disagree_are_refused_rather_than_reconciled() {
    let payload = published();
    let mut registry = Recorded::of(&payload);
    let layer = "sha256:layer";
    let layers = obj(vec![("layers", Json::Array(vec![obj(vec![("digest", s(layer))])]))]);
    registry.manifests.insert(format!("{IMAGE}@{AMD64}"), layers.copy());
    registry.manifests.insert(format!("{IMAGE}@{ARM64}"), layers);
    registry.blobs.insert(
        format!("{IMAGE}@{layer}"),
        tarball("etc/api/contract.json", br#"{"terrace_contract":1,"app":{"name":"other"}}"#),
    );
    let failure = refusal_of(fetch_payload(&registry, IMAGE, INDEX, SIGNER));
    assert!(failure.contains("two different documents"), "{failure}");
}

#[test]
fn a_version_this_library_does_not_read_or_none_at_all_is_refused() {
    let mut registry = Recorded::of(&published());
    for platform in [AMD64, ARM64] {
        registry.labels.insert(format!("{IMAGE}@{platform}"), labels("API_", "99"));
    }
    let failure = refusal_of(fetch_payload(&registry, IMAGE, INDEX, SIGNER));
    assert!(failure.contains("contract version 99"), "{failure}");

    let mut registry = Recorded::of(&published());
    for platform in [AMD64, ARM64] {
        let held: Vec<(String, String)> =
            labels("API_", "1").into_iter().filter(|(name, _)| name != LABEL_VERSION).collect();
        registry.labels.insert(format!("{IMAGE}@{platform}"), held);
    }
    let failure = refusal_of(fetch_payload(&registry, IMAGE, INDEX, SIGNER));
    assert!(failure.contains("publishes no contract"), "{failure}");
}

#[test]
fn an_image_labelled_for_another_namespace_is_refused_by_its_document() {
    let document = obj(vec![("schema", obj(vec![("dialect", obj(vec![("prefix", s("API_"))]))]))]);
    let pinned = format!("{IMAGE}@{INDEX}");
    assert!(prefix_agrees(&pinned, &labels("API_", "1"), &document).is_ok());
    let failure = refusal_of(prefix_agrees(&pinned, &labels("OTHER_", "1"), &document));
    assert_eq!(
        failure,
        format!(
            "{pinned} is labelled dev.terrace.config.prefix='OTHER_' but the contract attached to \
             it describes the namespace 'API_': the image and its contract came from different builds"
        )
    );
}

#[test]
fn an_index_stands_for_its_images_and_anything_else_for_itself() {
    let registry = Recorded::of(&published());
    let index = registry.manifests[&format!("{IMAGE}@{INDEX}")].copy();
    assert_eq!(platforms_of(&index, INDEX), [AMD64, ARM64]);
    assert_eq!(platforms_of(&obj(vec![("layers", Json::Array(Vec::new()))]), AMD64), [AMD64]);
}

#[test]
fn a_referrer_listing_is_read_whichever_key_it_uses() {
    let entry = obj(vec![("digest", s("sha256:dd"))]);
    for document in [
        Json::Array(vec![entry.copy()]),
        obj(vec![("referrers", Json::Array(vec![entry.copy()]))]),
        obj(vec![("manifests", Json::Array(vec![entry.copy()]))]),
    ] {
        assert_eq!(referrers_of(&document).len(), 1);
    }
    assert!(referrers_of(&obj(vec![("something", Json::Number("1".to_owned()))])).is_empty());
}

#[test]
fn the_listing_is_the_index_s_else_the_first_platform_with_one() {
    let one = vec![obj(vec![("digest", s("sha256:aa"))])];
    let two = vec![obj(vec![("digest", s("sha256:bb"))])];
    let platforms = vec![INDEX.to_owned(), AMD64.to_owned(), ARM64.to_owned()];
    assert_eq!(terrace_helm::pull::contract_listing(INDEX, one.iter().map(Json::copy).collect(), &platforms, vec![]), one);
    assert_eq!(
        terrace_helm::pull::contract_listing(INDEX, vec![], &platforms, vec![two.iter().map(Json::copy).collect(), vec![], one.iter().map(Json::copy).collect()]),
        one
    );
    assert!(terrace_helm::pull::contract_listing(INDEX, vec![], &platforms, vec![vec![], vec![]]).is_empty());
}

#[test]
fn an_attachment_comes_back_with_the_digest_it_hashes_to() {
    let payload = published();
    let registry = Recorded::of(&payload);
    let (manifest, claimed, found) = terrace_helm::pull::fetch_attachment(&registry, IMAGE, INDEX).expect("it is found").expect("it is attached");
    assert_eq!(found, payload);
    assert_eq!(claimed, format!("sha256:{}", hex_sha256(&payload)));
    assert_eq!(terrace_helm::pull::one_layer(IMAGE, INDEX, &manifest).expect("one layer"), claimed);
}
