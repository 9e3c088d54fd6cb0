use license_audit::record::CandidateEntry;
use license_audit::snapshot::{decompress_zst_to_string, repodata_url, DecodeError, Snapshot};
use license_audit::tree::MetadataTree;

fn compress(content: &[u8]) -> Vec<u8> {
    zstd::stream::encode_all(content, 3).expect("compression of a slice succeeds")
}

const DOCUMENT: &str = r#"{"packages": {"1": {"name": "a", "license": "MIT", "timestamp": 1}}, "packages.conda": {}}"#;

#[test]
fn url_of_the_compressed_document() {
    assert_eq!(
        repodata_url("linux-64", true),
        "https://conda.anaconda.org/conda-forge/linux-64/repodata.json.zst"
    );
}

#[test]
fn url_of_the_plain_document() {
    assert_eq!(
        repodata_url("noarch", false),
        "https://conda.anaconda.org/conda-forge/noarch/repodata.json"
    );
    assert_eq!(repodata_url("", false), "https://conda.anaconda.org/conda-forge//repodata.json");
}

#[test]
fn decompress_gives_back_the_text_that_was_compressed() {
    assert_eq!(decompress_zst_to_string(&compress(DOCUMENT.as_bytes())), Ok(DOCUMENT.to_string()));
    assert_eq!(decompress_zst_to_string(&compress(b"")), Ok(String::new()));
    assert_eq!(
        decompress_zst_to_string(&compress("grüße, 世界".as_bytes())),
        Ok("grüße, 世界".to_string())
    );
}

#[test]
fn decompress_refuses_what_is_no_zstd_frame() {
    assert_eq!(decompress_zst_to_string(DOCUMENT.as_bytes()), Err(DecodeError::Compression));
    assert_eq!(decompress_zst_to_string(&[0x28, 0xb5, 0x2f]), Err(DecodeError::Compression));
    let mut cut = compress(DOCUMENT.as_bytes());
    cut.truncate(cut.len() - 3);
    assert_eq!(decompress_zst_to_string(&cut), Err(DecodeError::Compression));
}

#[test]
fn decompress_refuses_content_that_is_no_utf8() {
    assert_eq!(decompress_zst_to_string(&compress(&[0xff, 0xfe, 0x00])), Err(DecodeError::Encoding));
    assert_eq!(decompress_zst_to_string(&compress(&[b'a', 0xc3])), Err(DecodeError::Encoding));
}

#[test]
fn a_snapshot_is_loaded_from_its_text() {
    match Snapshot::from_text(DOCUMENT) {
        Snapshot::Loaded(tree) => assert!(matches!(tree, MetadataTree::Object(_))),
        Snapshot::Unavailable => panic!("the document is JSON"),
    }
    assert_eq!(Snapshot::from_text("null"), Snapshot::Loaded(MetadataTree::Null));
}

#[test]
fn a_snapshot_is_loaded_from_its_compressed_document() {
    assert_eq!(Snapshot::from_compressed(&compress(DOCUMENT.as_bytes())), Snapshot::from_text(DOCUMENT));
    assert_eq!(
        Snapshot::from_compressed(&compress(DOCUMENT.as_bytes())).records(),
        vec![CandidateEntry { name: "a".to_string(), timestamp: 1, license: "MIT".to_string() }]
    );
}

#[test]
fn a_payload_that_cannot_be_read_leaves_no_snapshot() {
    assert_eq!(Snapshot::from_text("not json"), Snapshot::Unavailable);
    assert_eq!(Snapshot::from_compressed(b"not zstd"), Snapshot::Unavailable);
    assert_eq!(Snapshot::from_compressed(&compress(&[0xff])), Snapshot::Unavailable);
    assert_eq!(Snapshot::from_compressed(&compress(b"not json")), Snapshot::Unavailable);
    assert_eq!(Snapshot::from_compressed(&[]), Snapshot::Unavailable);
}

#[test]
fn snapshot_of_parsed_follows_the_parse_result() {
    assert_eq!(Snapshot::of_parsed(None), Snapshot::Unavailable);
    assert_eq!(Snapshot::of_parsed(Some(MetadataTree::Bool(true))), Snapshot::Loaded(MetadataTree::Bool(true)));
}

#[test]
fn no_snapshot_gives_no_records() {
    assert!(Snapshot::Unavailable.records().is_empty());
    assert!(Snapshot::Loaded(MetadataTree::Null).records().is_empty());
}
