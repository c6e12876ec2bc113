use squash::image::{
    first_manifest, layer_digest_for, merged_file_name, merged_file_name_from, merged_history_count, parse_count,
    temporary_tag, temporary_tag_from, ConfigDetails, DockerConfig, DockerImage,
    DockerManifest, HistoryEntry, RootFs,
};
use squash::layer::LayerInfo;
use squash::SquashError;
use std::path::PathBuf;
use tempfile::TempDir;

fn entry(created_by: &str, empty: Option<bool>) -> HistoryEntry {
    HistoryEntry { created: "2023-01-01T00:00:00Z".to_string(), created_by: created_by.to_string(), empty_layer: empty }
}

fn image(digests: &[&str], history: Vec<HistoryEntry>, temp_dir: Option<TempDir>) -> DockerImage {
    let root = PathBuf::from("/staging");
    DockerImage {
        manifest: DockerManifest {
            config: "config.json".to_string(),
            repo_tags: Some(vec!["test:latest".to_string()]),
            layers: (1..=digests.len()).map(|i| format!("layer{}.tar", i)).collect(),
        },
        config: DockerConfig {
            architecture: "amd64".to_string(),
            config: ConfigDetails { env: None, cmd: None, working_dir: None, exposed_ports: None },
            rootfs: RootFs { fs_type: "layers".to_string(), diff_ids: digests.iter().map(|d| d.to_string()).collect() },
            history,
        },
        source_path: PathBuf::from("test.tar"),
        layers: digests
            .iter()
            .enumerate()
            .map(|(i, d)| LayerInfo { digest: d.to_string(), size: 14, tar_path: root.join(format!("layer{}.tar", i + 1)) })
            .collect(),
        temp_dir,
    }
}

fn merged_layer(digest: &str) -> LayerInfo {
    LayerInfo { digest: digest.to_string(), size: 1024, tar_path: PathBuf::from("/work/merged_layer_x.tar") }
}

fn non_empty(history: &[HistoryEntry]) -> usize {
    history.iter().filter(|h| h.empty_layer != Some(true)).count()
}

#[test]
fn test_history_update_during_squash() {
    let temp_dir = TempDir::new().unwrap();
    let mut image = image(
        &["sha256:layer1", "sha256:layer2", "sha256:layer3"],
        vec![
            entry("layer1 command", Some(false)),
            entry("layer2 command", Some(false)),
            entry("layer3 command", Some(false)),
        ],
        Some(temp_dir),
    );

    assert_eq!(image.config.history.len(), 3);
    assert_eq!(image.config.rootfs.diff_ids.len(), 3);
    assert_eq!(image.layers.len(), 3);

    let layers_to_merge_count = 2;
    image.commit_merge(layers_to_merge_count, merged_layer("sha256:merged"));

    assert_eq!(image.config.history.len(), 2);
    assert!(image.config.history.last().unwrap().created_by.contains("squash: merged 2 layers"));
}

#[test]
fn merge_is_dated_in_rfc3339_utc() {
    let mut image = image(&["sha256:a", "sha256:b"], vec![entry("1", None), entry("2", None)], None);
    image.commit_merge(2, merged_layer("sha256:m"));
    let created = image.config.history.last().unwrap().created.clone();
    let b = created.as_bytes();
    assert!(created.ends_with("+00:00"));
    assert_eq!((b[4], b[7], b[10], b[13], b[16]), (b'-', b'-', b'T', b':', b':'));
    assert!(b[..4].iter().all(|c| c.is_ascii_digit()));
}

#[test]
fn plan_by_hex_part_of_digest() {
    let a = format!("sha256:{}", "a".repeat(64));
    let b = format!("sha256:{}", "b".repeat(64));
    let c = format!("sha256:{}", "c".repeat(64));
    let mut image = image(&[&a, &b, &c], vec![entry("1", None), entry("2", None), entry("3", None)], None);
    let plan = image.plan_squash("bbbbbbbb").unwrap();
    assert_eq!((plan.start, plan.count, plan.matches), (1, 2, 1));
    image.record_merge(plan.count, merged_layer("sha256:m"), "t".to_string());
    assert_eq!(image.layers.len(), 2);
    assert_eq!(image.layers[0].digest, a);
    assert_eq!(image.manifest.layers[0], "layer1.tar");
    assert_eq!(image.config.history.last().unwrap().created_by, "squash: merged 2 layers");
}

#[test]
fn test_layer_count_validation() {
    let test_cases = vec![("3", true), ("0", true), ("sha256:abc123", true), ("layer_id", true)];

    for (layer_spec, should_be_valid) in test_cases {
        assert_eq!(!layer_spec.is_empty(), should_be_valid);
    }
}

#[test]
fn test_error_types() {
    let io_error = std::io::Error::new(std::io::ErrorKind::NotFound, "file not found");
    let squash_error: SquashError = io_error.into();

    match squash_error {
        SquashError::IoError(_) => {}
        _ => panic!("Expected IoError"),
    }
}

#[test]
fn three_layers_merge_two_rewrites_metadata() {
    let mut image = image(
        &["sha256:l1", "sha256:l2", "sha256:l3"],
        vec![entry("add a", None), entry("add b", None), entry("add c", None)],
        None,
    );
    image.record_merge(2, merged_layer("sha256:m"), "2024-05-01T00:00:00+00:00".to_string());
    assert_eq!(image.manifest.layers, vec!["layer1.tar".to_string(), "merged_layer.tar".to_string()]);
    assert_eq!(image.config.rootfs.diff_ids, vec!["sha256:l1".to_string(), "sha256:m".to_string()]);
    assert_eq!(image.layers.len(), 2);
    assert_eq!(image.layers[0].digest, "sha256:l1");
    assert_eq!(image.layers[1].digest, "sha256:m");
    assert_eq!(non_empty(&image.config.history), 2);
    let last = image.config.history.last().unwrap();
    assert_eq!(last.created_by, "squash: merged 2 layers");
    assert_eq!(last.created, "2024-05-01T00:00:00+00:00");
    assert_eq!(last.empty_layer, Some(false));
}

#[test]
fn empty_history_entries_inside_slice_are_removed() {
    let history = vec![
        entry("base", None),
        entry("ENV a", Some(true)),
        entry("add x", None),
        entry("LABEL b", Some(true)),
        entry("add y", None),
        entry("CMD c", Some(true)),
    ];
    assert_eq!(merged_history_count(&history, 2), 4);
    assert_eq!(merged_history_count(&history, 1), 2);
    assert_eq!(merged_history_count(&history, 0), 0);
    assert_eq!(merged_history_count(&history, 5), 6);

    let mut image = image(&["sha256:a", "sha256:b", "sha256:c"], history, None);
    image.record_merge(2, merged_layer("sha256:m"), "now".to_string());
    let by: Vec<&str> = image.config.history.iter().map(|h| h.created_by.as_str()).collect();
    assert_eq!(by, vec!["base", "ENV a", "squash: merged 2 layers"]);
    assert_eq!(non_empty(&image.config.history), image.layers.len());
}

#[test]
fn merge_count_drops_by_k_minus_one() {
    for k in 1..=4usize {
        let mut image = image(
            &["sha256:a", "sha256:b", "sha256:c", "sha256:d"],
            vec![entry("1", None), entry("2", Some(false)), entry("3", None), entry("4", None)],
            None,
        );
        image.record_merge(k, merged_layer("sha256:m"), "t".to_string());
        assert_eq!(image.manifest.layers.len(), 4 - k + 1);
        assert_eq!(image.config.rootfs.diff_ids.len(), 4 - k + 1);
        assert_eq!(non_empty(&image.config.history), 4 - k + 1);
    }
}

#[test]
fn squashing_one_layer_keeps_layer_count() {
    let mut image = image(&["sha256:a", "sha256:b"], vec![entry("1", None), entry("2", None)], None);
    image.record_merge(1, merged_layer("sha256:m"), "t".to_string());
    assert_eq!(image.layers.len(), 2);
    assert_eq!(image.config.history[0].created_by, "1");
    assert_eq!(image.config.history[1].created_by, "squash: merged 1 layers");
}

#[test]
fn plan_rejects_zero_layers() {
    let image = image(&["sha256:a"], vec![entry("1", None)], None);
    match image.plan_squash("0") {
        Err(SquashError::InvalidInput(msg)) => assert_eq!(msg, "Cannot merge 0 layers"),
        _ => panic!("expected InvalidInput"),
    }
}

#[test]
fn plan_rejects_too_many_layers_naming_both_numbers() {
    let image = image(&["sha256:a", "sha256:b"], vec![entry("1", None), entry("2", None)], None);
    match image.plan_squash("7") {
        Err(SquashError::InvalidInput(msg)) => assert_eq!(msg, "Cannot merge 7 layers, image only has 2 layers"),
        _ => panic!("expected InvalidInput"),
    }
}

#[test]
fn plan_rejects_short_prefix() {
    let image = image(&["sha256:abcdef123456"], vec![entry("1", None)], None);
    match image.plan_squash("abc") {
        Err(SquashError::InvalidInput(msg)) => assert_eq!(msg, "Layer ID must be at least 8 characters long, got: 3"),
        _ => panic!("expected InvalidInput"),
    }
}

#[test]
fn plan_rejects_image_without_layers() {
    let image = image(&[], vec![], None);
    match image.plan_squash("1") {
        Err(SquashError::InvalidInput(msg)) => assert_eq!(msg, "No layers to merge"),
        _ => panic!("expected InvalidInput"),
    }
}

#[test]
fn plan_by_count() {
    let image = image(&["sha256:a", "sha256:b", "sha256:c"], vec![], None);
    let plan = image.plan_squash("2").unwrap();
    assert_eq!((plan.start, plan.count, plan.matches), (1, 2, 0));
    let plan = image.plan_squash("+3").unwrap();
    assert_eq!((plan.start, plan.count), (0, 3));
}

#[test]
fn plan_by_digest_prefix() {
    let a = format!("sha256:{}", "a".repeat(64));
    let b = format!("sha256:{}", "b".repeat(64));
    let c = format!("sha256:{}", "c".repeat(64));
    let image = image(&[&a, &b, &c], vec![], None);
    let plan = image.plan_squash("sha256:bbbbbbbb").unwrap();
    assert_eq!((plan.start, plan.count, plan.matches), (1, 2, 1));
    match image.plan_squash("sha256:dddddddd") {
        Err(SquashError::LayerNotFound(id)) => assert_eq!(id, "sha256:dddddddd"),
        _ => panic!("expected LayerNotFound"),
    }
}

#[test]
fn plan_with_ambiguous_prefix_uses_earliest() {
    let image = image(&["sha256:feedface01", "sha256:feedface02"], vec![], None);
    let plan = image.plan_squash("sha256:feedface").unwrap();
    assert_eq!((plan.start, plan.count, plan.matches), (0, 2, 2));
}

#[test]
fn counts_parse_like_usize() {
    assert_eq!(parse_count("0"), Some(0));
    assert_eq!(parse_count("42"), Some(42));
    assert_eq!(parse_count("+7"), Some(7));
    assert_eq!(parse_count("007"), Some(7));
    assert_eq!(parse_count(""), None);
    assert_eq!(parse_count("+"), None);
    assert_eq!(parse_count("-1"), None);
    assert_eq!(parse_count("1a"), None);
    assert_eq!(parse_count("sha256:abc"), None);
    assert_eq!(parse_count("99999999999999999999999"), None);
    assert_eq!(parse_count(&usize::MAX.to_string()), Some(usize::MAX));
}

#[test]
fn layer_digest_prefers_diff_ids() {
    let ids = vec!["sha256:one".to_string()];
    assert_eq!(layer_digest_for(&ids, 0, "abc/layer.tar"), "sha256:one");
    assert_eq!(layer_digest_for(&ids, 1, "abc/layer.tar"), "sha256:abclayer");
    assert_eq!(layer_digest_for(&ids, 3, "x.tar.tar/y"), "sha256:xy");
}

#[test]
fn whiteout_scenario_leaves_one_layer() {
    let mut image = image(&["sha256:l1", "sha256:l2"], vec![entry("add x", None), entry("delete x", None)], None);
    let plan = image.plan_squash("2").unwrap();
    image.record_merge(plan.count, merged_layer("sha256:m"), "t".to_string());
    assert_eq!(image.layers.len(), 1);
    assert_eq!(image.manifest.layers, vec!["merged_layer.tar".to_string()]);
    assert_eq!(image.archive_layer_names(), vec!["merged_layer.tar".to_string()]);
}

#[test]
fn archive_names_keep_lower_layers() {
    let mut image = image(&["sha256:a", "sha256:b", "sha256:c"], vec![], None);
    image.record_merge(2, merged_layer("sha256:m"), "t".to_string());
    assert_eq!(image.archive_layer_names(), vec!["layer1.tar".to_string(), "merged_layer.tar".to_string()]);
}

#[test]
fn temporary_tag_takes_eight_characters() {
    assert_eq!(temporary_tag_from("0123abcd-ffff-4444-8888-000011112222"), "squash-temp-0123abcd:latest");
    let tag = temporary_tag();
    assert!(tag.starts_with("squash-temp-") && tag.ends_with(":latest"));
    assert_eq!(tag.len(), "squash-temp-".len() + 8 + ":latest".len());
    assert_ne!(tag, temporary_tag());
}

#[test]
fn merged_file_names_are_fresh() {
    assert_eq!(merged_file_name_from("id"), "merged_layer_id.tar");
    let a = merged_file_name();
    assert!(a.starts_with("merged_layer_") && a.ends_with(".tar"));
    assert_eq!(a.len(), "merged_layer_".len() + 36 + ".tar".len());
    assert_ne!(a, merged_file_name());
}

#[test]
fn first_manifest_is_used() {
    let m = |c: &str| DockerManifest { config: c.to_string(), repo_tags: None, layers: vec![] };
    let (first, n) = first_manifest(vec![m("a.json"), m("b.json")]).unwrap();
    assert_eq!(first.config, "a.json");
    assert_eq!(n, 2);
    match first_manifest(vec![]) {
        Err(SquashError::InvalidInput(msg)) => assert_eq!(msg, "No manifests found in the archive"),
        _ => panic!("expected InvalidInput"),
    }
}
