use squash::archive::TarEntry;
use squash::layer::{
    calculate_layer_digest, matching_layers, merge_layer_tars, select_from_id, select_latest, LayerInfo, LayerMerger,
    VirtualFilesystem,
};
use squash::paths::components_of;
use squash::SquashError;
use tempfile::TempDir;

enum Kind {
    File,
    Dir,
}

/// A layer tarball with the given members, in order.
fn layer(members: &[(&str, Kind, &[u8])]) -> Vec<u8> {
    let mut builder = tar::Builder::new(Vec::new());
    for (path, kind, data) in members {
        let mut header = tar::Header::new_gnu();
        match kind {
            Kind::File => {
                header.set_entry_type(tar::EntryType::Regular);
                header.set_mode(0o644);
            }
            Kind::Dir => {
                header.set_entry_type(tar::EntryType::Directory);
                header.set_mode(0o755);
            }
        }
        header.set_uid(1000);
        header.set_mtime(1_600_000_000);
        header.set_size(data.len() as u64);
        let bytes = path.as_bytes();
        header.as_mut_bytes()[..bytes.len()].copy_from_slice(bytes);
        header.set_cksum();
        builder.append(&header, *data).unwrap();
    }
    builder.into_inner().unwrap()
}

/// The members of a tarball: path, contents, mode, uid, mtime.
fn members(tar_bytes: &[u8]) -> Vec<(String, Vec<u8>, u32, u64, u64)> {
    let mut archive = tar::Archive::new(tar_bytes);
    let mut out = Vec::new();
    for entry in archive.entries().unwrap() {
        let mut entry = entry.unwrap();
        let path = String::from_utf8(entry.path_bytes().into_owned()).unwrap();
        let header = entry.header().clone();
        let mut data = Vec::new();
        std::io::Read::read_to_end(&mut entry, &mut data).unwrap();
        out.push((path, data, header.mode().unwrap(), header.uid().unwrap(), header.mtime().unwrap()));
    }
    out
}

fn paths(tar_bytes: &[u8]) -> Vec<String> {
    members(tar_bytes).into_iter().map(|m| m.0).collect()
}

fn info(temp_dir: &TempDir, digest: &str, size: u64, file: &str) -> LayerInfo {
    LayerInfo { digest: digest.to_string(), size, tar_path: temp_dir.path().join(file) }
}

#[test]
fn test_layer_info_creation() {
    let temp_dir = TempDir::new().unwrap();
    let tar_path = temp_dir.path().join("test.tar");

    let layer_info = LayerInfo { digest: "sha256:test123".to_string(), size: 9, tar_path: tar_path.clone() };

    assert_eq!(layer_info.digest, "sha256:test123");
    assert_eq!(layer_info.size, 9);
    assert_eq!(layer_info.tar_path, tar_path);
}

#[test]
fn test_layer_merger_creation() {
    let temp_dir = TempDir::new().unwrap();
    let layers = vec![
        info(&temp_dir, "sha256:layer1", 100, "layer1.tar"),
        info(&temp_dir, "sha256:layer2", 200, "layer2.tar"),
    ];

    let merger = LayerMerger::new(layers.clone(), temp_dir.path().to_path_buf());
    assert_eq!(merger.layers.len(), 2);
    assert_eq!(merger.layers[0].digest, "sha256:layer1");
    assert_eq!(merger.layers[1].digest, "sha256:layer2");
}

#[test]
fn test_merge_latest_layers_validation() {
    let temp_dir = TempDir::new().unwrap();
    let layers = vec![info(&temp_dir, "sha256:layer1", 100, "layer1.tar")];

    let merger = LayerMerger::new(layers, temp_dir.path().to_path_buf());

    let tars = vec![Vec::new()];
    let result = merger.merge_latest_layers(0, &tars);
    assert!(result.is_err());
    if let Err(SquashError::InvalidInput(msg)) = result {
        assert!(msg.contains("Cannot merge 0 layers"));
    } else {
        panic!("Expected InvalidInput error for 0 layers");
    }

    let result = merger.merge_latest_layers(5, &tars);
    assert!(result.is_err());

    if let Err(SquashError::InvalidInput(msg)) = result {
        assert!(msg.contains("Cannot merge 5 layers, only 1 layers available"));
    } else {
        panic!("Expected InvalidInput error");
    }
}

#[test]
fn test_layer_id_validation() {
    let temp_dir = TempDir::new().unwrap();
    let layers = vec![info(&temp_dir, "sha256:abcdef123456", 100, "layer1.tar")];

    let merger = LayerMerger::new(layers, temp_dir.path().to_path_buf());

    let tars = vec![Vec::new()];
    let result = merger.merge_from_layer_id("abc", &tars);
    assert!(result.is_err());
    if let Err(SquashError::InvalidInput(msg)) = result {
        assert!(msg.contains("Layer ID must be at least 8 characters long"));
    } else {
        panic!("Expected InvalidInput error for short layer ID");
    }
}

#[test]
fn latest_layers_start_at_the_tail() {
    let temp_dir = TempDir::new().unwrap();
    let layers = vec![
        info(&temp_dir, "sha256:aaaa", 1, "a.tar"),
        info(&temp_dir, "sha256:bbbb", 1, "b.tar"),
        info(&temp_dir, "sha256:cccc", 1, "c.tar"),
    ];
    assert_eq!(select_latest(&layers, 2).unwrap(), 1);
    assert_eq!(select_latest(&layers, 3).unwrap(), 0);
    assert_eq!(select_latest(&layers, 1).unwrap(), 2);
}

#[test]
fn layer_id_prefix_selects_earliest_match() {
    let temp_dir = TempDir::new().unwrap();
    let layers = vec![
        info(&temp_dir, "sha256:aaaaaaaa11", 1, "a.tar"),
        info(&temp_dir, "sha256:bbbbbbbb22", 1, "b.tar"),
        info(&temp_dir, "sha256:bbbbbbbb33", 1, "c.tar"),
    ];
    let found = select_from_id(&layers, "sha256:bbbbbbbb").unwrap();
    assert_eq!(found.start, 1);
    assert_eq!(found.matches, 2);
    let found = select_from_id(&layers, "sha256:bbbbbbbb33").unwrap();
    assert_eq!(found.start, 2);
    assert_eq!(found.matches, 1);
    let found = select_from_id(&layers, "bbbbbbbb").unwrap();
    assert_eq!(found.start, 1);
    assert_eq!(found.matches, 2);
    assert_eq!(matching_layers(&layers, "bbbbbbbb"), vec![1, 2]);
    assert_eq!(matching_layers(&layers, "aaaaaaaa1"), vec![0]);
    match select_from_id(&layers, "sha256:dddddddd") {
        Err(SquashError::LayerNotFound(id)) => assert_eq!(id, "sha256:dddddddd"),
        _ => panic!("expected LayerNotFound"),
    }
    match select_from_id(&layers, "sha256:") {
        Err(SquashError::InvalidInput(msg)) => {
            assert_eq!(msg, "Layer ID must be at least 8 characters long, got: 7")
        }
        _ => panic!("expected InvalidInput"),
    }
}

#[test]
fn merger_merges_newest_layers() {
    let temp_dir = TempDir::new().unwrap();
    let layers = vec![
        info(&temp_dir, "sha256:l1", 1, "l1.tar"),
        info(&temp_dir, "sha256:l2", 1, "l2.tar"),
        info(&temp_dir, "sha256:l3", 1, "l3.tar"),
    ];
    let tars = vec![
        layer(&[("a", Kind::File, b"1")]),
        layer(&[("b", Kind::File, b"2")]),
        layer(&[("c", Kind::File, b"3")]),
    ];
    let merger = LayerMerger::new(layers, temp_dir.path().to_path_buf());
    let merged = merger.merge_latest_layers(2, &tars).unwrap();
    assert_eq!(paths(&merged.tar), vec!["b".to_string(), "c".to_string()]);
    assert_eq!(merged.digest.len(), 71);
}

#[test]
fn merger_merges_from_hex_prefix() {
    let temp_dir = TempDir::new().unwrap();
    let a = format!("sha256:{}", "a".repeat(64));
    let b = format!("sha256:{}", "b".repeat(64));
    let c = format!("sha256:{}", "c".repeat(64));
    let layers = vec![info(&temp_dir, &a, 1, "a.tar"), info(&temp_dir, &b, 1, "b.tar"), info(&temp_dir, &c, 1, "c.tar")];
    let tars = vec![
        layer(&[("a", Kind::File, b"1")]),
        layer(&[("b", Kind::File, b"2")]),
        layer(&[("c", Kind::File, b"3")]),
    ];
    let merger = LayerMerger::new(layers, temp_dir.path().to_path_buf());
    let (found, merged) = merger.merge_from_layer_id("bbbbbbbb", &tars).unwrap();
    assert_eq!(found.start, 1);
    assert_eq!(found.matches, 1);
    assert_eq!(paths(&merged.tar), vec!["b".to_string(), "c".to_string()]);
}

#[test]
fn merger_with_ambiguous_prefix_uses_earliest() {
    let temp_dir = TempDir::new().unwrap();
    let layers = vec![
        info(&temp_dir, "sha256:feedface01", 1, "a.tar"),
        info(&temp_dir, "sha256:feedface02", 1, "b.tar"),
    ];
    let tars = vec![layer(&[("x", Kind::File, b"1")]), layer(&[("y", Kind::File, b"2")])];
    let merger = LayerMerger::new(layers, temp_dir.path().to_path_buf());
    let (found, merged) = merger.merge_from_layer_id("feedface", &tars).unwrap();
    assert_eq!((found.start, found.matches), (0, 2));
    assert_eq!(paths(&merged.tar), vec!["x".to_string(), "y".to_string()]);
}

#[test]
fn non_utf8_path_is_refused() {
    let l1 = layer(&[("ok", Kind::File, b"y")]);
    let mut raw = l1.clone();
    raw[0] = 0xff;
    let mut header = tar::Header::from_byte_slice(&raw[..512]).clone();
    header.set_cksum();
    let mut builder = tar::Builder::new(Vec::new());
    builder.append(&header, &b"y"[..]).unwrap();
    let bad = builder.into_inner().unwrap();
    match merge_layer_tars(&vec![bad], false) {
        Err(SquashError::IoError(_)) => {}
        _ => panic!("expected IoError"),
    }
}

#[test]
fn digest_is_sha256_hex_of_bytes() {
    assert_eq!(
        calculate_layer_digest(b"abc"),
        "sha256:ba7816bf8f01cfea414140de5dae2223b00361a396177a9cb410ff61f20015ad"
    );
    assert_eq!(
        calculate_layer_digest(b""),
        "sha256:e3b0c44298fc1c149afbf4c8996fb92427ae41e4649b934ca495991b7852b855"
    );
}

#[test]
fn three_layers_merge_two() {
    let l2 = layer(&[("b", Kind::File, b"2")]);
    let l3 = layer(&[("c", Kind::File, b"3")]);
    let merged = merge_layer_tars(&vec![l2, l3], false).unwrap();
    let out = members(&merged.tar);
    assert_eq!(out.len(), 2);
    assert_eq!(out[0].0, "b");
    assert_eq!(out[0].1, b"2".to_vec());
    assert_eq!(out[1].0, "c");
    assert_eq!(out[1].1, b"3".to_vec());
    assert_eq!(merged.digest, calculate_layer_digest(&merged.tar));
    assert_eq!(merged.digest.len(), 71);
    assert!(merged.unsafe_paths.is_empty());
}

#[test]
fn whiteout_removes_lower_file() {
    let l1 = layer(&[("x", Kind::File, b"old")]);
    let l2 = layer(&[(".wh.x", Kind::File, b"")]);
    let merged = merge_layer_tars(&vec![l1, l2], false).unwrap();
    assert!(paths(&merged.tar).is_empty());
}

#[test]
fn opaque_whiteout_clears_directory() {
    let l1 = layer(&[
        ("dir/", Kind::Dir, b""),
        ("dir/a", Kind::File, b"a"),
        ("dir/b", Kind::File, b"b"),
        ("other", Kind::File, b"o"),
    ]);
    let l2 = layer(&[("dir/.wh..wh..opq", Kind::File, b"")]);
    let merged = merge_layer_tars(&vec![l1, l2], false).unwrap();
    assert_eq!(paths(&merged.tar), vec!["dir".to_string(), "other".to_string()]);
}

#[test]
fn later_layer_overwrites_file() {
    let l1 = layer(&[("f", Kind::File, b"v1")]);
    let l2 = layer(&[("f", Kind::File, b"v2")]);
    let merged = merge_layer_tars(&vec![l1, l2], false).unwrap();
    let out = members(&merged.tar);
    assert_eq!(out.len(), 1);
    assert_eq!(out[0].0, "f");
    assert_eq!(out[0].1, b"v2".to_vec());
}

#[test]
fn unsafe_path_is_skipped_and_reported() {
    let l1 = layer(&[("../evil", Kind::File, b"x"), ("ok", Kind::File, b"y")]);
    let merged = merge_layer_tars(&vec![l1], false).unwrap();
    assert_eq!(paths(&merged.tar), vec!["ok".to_string()]);
    assert_eq!(merged.unsafe_paths, vec![b"../evil".to_vec()]);
}

#[test]
fn absolute_path_is_skipped() {
    let l1 = layer(&[("/etc/passwd", Kind::File, b"x")]);
    let merged = merge_layer_tars(&vec![l1], false).unwrap();
    assert!(paths(&merged.tar).is_empty());
    assert_eq!(merged.unsafe_paths, vec![b"/etc/passwd".to_vec()]);
}

#[test]
fn whiteout_then_readd_restores_file() {
    let l1 = layer(&[("x", Kind::File, b"old")]);
    let l2 = layer(&[(".wh.x", Kind::File, b"")]);
    let l3 = layer(&[("x", Kind::File, b"new")]);
    let merged = merge_layer_tars(&vec![l1, l2, l3], false).unwrap();
    let out = members(&merged.tar);
    assert_eq!(out.len(), 1);
    assert_eq!(out[0].1, b"new".to_vec());
}

#[test]
fn output_is_sorted_and_normalized() {
    let l1 = layer(&[("./z", Kind::File, b"z"), ("a//b", Kind::File, b"ab"), ("./m/./n", Kind::File, b"mn")]);
    let merged = merge_layer_tars(&vec![l1], false).unwrap();
    assert_eq!(paths(&merged.tar), vec!["a/b".to_string(), "m/n".to_string(), "z".to_string()]);
}

#[test]
fn header_fields_are_preserved() {
    let l1 = layer(&[("f", Kind::File, b"data")]);
    let merged = merge_layer_tars(&vec![l1], false).unwrap();
    let out = members(&merged.tar);
    assert_eq!(out[0].2, 0o644);
    assert_eq!(out[0].3, 1000);
    assert_eq!(out[0].4, 1_600_000_000);
}

#[test]
fn merge_is_deterministic() {
    let build = || vec![layer(&[("b", Kind::File, b"2"), ("a", Kind::File, b"1")]), layer(&[("c", Kind::File, b"3")])];
    let first = merge_layer_tars(&build(), false).unwrap();
    let second = merge_layer_tars(&build(), false).unwrap();
    assert_eq!(first.tar, second.tar);
    assert_eq!(first.digest, second.digest);
}

#[test]
fn single_layer_merge_keeps_files() {
    let l1 = layer(&[("d/", Kind::Dir, b""), ("d/f", Kind::File, b"1"), ("g", Kind::File, b"2")]);
    let merged = merge_layer_tars(&vec![l1.clone()], false).unwrap();
    let before: Vec<(String, Vec<u8>)> = members(&l1).into_iter().map(|m| (m.0.trim_end_matches('/').to_string(), m.1)).collect();
    let after: Vec<(String, Vec<u8>)> = members(&merged.tar).into_iter().map(|m| (m.0, m.1)).collect();
    assert_eq!(before, after);
}

#[test]
fn merged_tar_rereads_as_written_members() {
    let l1 = layer(&[("a", Kind::File, b"1"), ("b/c", Kind::File, b"22")]);
    let merged = merge_layer_tars(&vec![l1], false).unwrap();
    let again = merge_layer_tars(&vec![merged.tar.clone()], false).unwrap();
    assert_eq!(members(&again.tar), members(&merged.tar));
}

#[test]
fn malformed_layer_is_an_io_error() {
    let garbage = vec![7u8; 700];
    match merge_layer_tars(&vec![garbage], false) {
        Err(SquashError::IoError(_)) => {}
        _ => panic!("expected IoError"),
    }
}

#[test]
fn overlong_path_is_reported_not_written() {
    let long = format!("{}/f", "d".repeat(300));
    let mut builder = tar::Builder::new(Vec::new());
    let mut header = tar::Header::new_gnu();
    header.set_size(1);
    header.set_mode(0o644);
    builder.append_data(&mut header, &long, &b"x"[..]).unwrap();
    let l1 = builder.into_inner().unwrap();
    let merged = merge_layer_tars(&vec![l1], false).unwrap();
    assert!(paths(&merged.tar).is_empty());
    assert_eq!(merged.long_paths, vec![long.into_bytes()]);
}

#[test]
fn vfs_applies_members_in_order() {
    let mut vfs = VirtualFilesystem::new();
    let header = tar::Header::new_gnu().as_bytes().to_vec();
    let put = TarEntry { path: b"x".to_vec(), header: header.clone(), data: b"1".to_vec() };
    let wh = TarEntry { path: b".wh.x".to_vec(), header: header.clone(), data: Vec::new() };
    assert!(!vfs.apply_member(&put));
    assert_eq!(vfs.listing().0.len(), 1);
    assert!(!vfs.apply_member(&wh));
    assert_eq!(vfs.listing().0.len(), 0);
}

#[test]
fn components_drop_empty_and_dot_segments() {
    assert_eq!(components_of(b"./a//b/./c/"), vec![b"a".to_vec(), b"b".to_vec(), b"c".to_vec()]);
    assert!(components_of(b"./").is_empty());
}

#[test]
fn squashing_top_whiteout_layer_keeps_deletion() {
    let temp_dir = TempDir::new().unwrap();
    let layers = vec![info(&temp_dir, "sha256:l1", 1, "l1.tar"), info(&temp_dir, "sha256:l2", 1, "l2.tar")];
    let tars = vec![layer(&[("x", Kind::File, b"old")]), layer(&[(".wh.x", Kind::File, b"")])];
    let merger = LayerMerger::new(layers, temp_dir.path().to_path_buf());
    let merged = merger.merge_latest_layers(1, &tars).unwrap();
    assert_eq!(paths(&merged.tar), vec![".wh.x".to_string()]);
    let whole = merger.merge_latest_layers(2, &tars).unwrap();
    assert!(paths(&whole.tar).is_empty());
}

#[test]
fn squashing_over_lower_layers_keeps_opaque_whiteout() {
    let l2 = layer(&[("dir/.wh..wh..opq", Kind::File, b""), ("dir/new", Kind::File, b"n")]);
    let l3 = layer(&[("./sub/.wh.gone", Kind::File, b"")]);
    let merged = merge_layer_tars(&vec![l2, l3], true).unwrap();
    assert_eq!(
        paths(&merged.tar),
        vec!["dir/.wh..wh..opq".to_string(), "sub/.wh.gone".to_string(), "dir/new".to_string()]
    );
}

#[test]
fn whiteout_then_readd_over_lower_layers() {
    let l2 = layer(&[(".wh.x", Kind::File, b"")]);
    let l3 = layer(&[("x", Kind::File, b"new")]);
    let merged = merge_layer_tars(&vec![l2, l3], true).unwrap();
    let out = members(&merged.tar);
    assert_eq!(out.len(), 2);
    assert_eq!(out[0].0, ".wh.x");
    assert_eq!(out[1].0, "x");
    assert_eq!(out[1].1, b"new".to_vec());
}
