use forcerun::resolver::{
    clone_bytes, compute_prefix_key, lib_root_name, resolve_all, starts_with_bytes, LibraryEntry,
};

fn entry(name: &[u8]) -> LibraryEntry {
    let mut path = b"/usr/lib/".to_vec();
    path.extend_from_slice(name);
    LibraryEntry {
        name: name.to_vec(),
        path,
    }
}

#[test]
fn prefix_key_strips_the_final_segment() {
    assert_eq!(
        compute_prefix_key(b"libtinfo.so.5"),
        Some(b"libtinfo.so".to_vec())
    );
    assert_eq!(compute_prefix_key(b"libffi.so"), Some(b"libffi".to_vec()));
    assert_eq!(compute_prefix_key(b"lib."), Some(b"lib".to_vec()));
}

#[test]
fn name_without_dot_has_no_prefix_key() {
    assert_eq!(compute_prefix_key(b"libnoversion"), None);
    assert_eq!(compute_prefix_key(b""), None);
}

#[test]
fn name_whose_key_would_be_empty_has_none() {
    assert_eq!(compute_prefix_key(b".5"), None);
}

#[test]
fn resolver_prefers_longest_name_sharing_the_prefix() {
    let catalog = vec![entry(b"libffi.so.8"), entry(b"libffi.so.7"), entry(b"libffi.so")];
    let chosen = lib_root_name(b"libffi.so.6", &catalog).expect("a candidate exists");
    assert_eq!(chosen.0, b"libffi.so.8".to_vec());
    assert_eq!(chosen.1, b"/usr/lib/libffi.so.8".to_vec());
}

#[test]
fn resolver_takes_the_only_candidate_even_across_versions() {
    let catalog = vec![entry(b"libtinfo.so.5")];
    let chosen = lib_root_name(b"libtinfo.so.9", &catalog).expect("a candidate exists");
    assert_eq!(chosen.0, b"libtinfo.so.5".to_vec());
    assert_eq!(chosen.1, b"/usr/lib/libtinfo.so.5".to_vec());
}

#[test]
fn resolver_yields_nothing_without_a_shared_prefix() {
    let catalog = vec![entry(b"libz.so.1"), entry(b"libcrypt.so.2")];
    assert_eq!(lib_root_name(b"libffi.so.6", &catalog), None);
}

#[test]
fn resolver_yields_nothing_for_a_name_without_a_key() {
    let catalog = vec![entry(b"libffi.so.8")];
    assert_eq!(lib_root_name(b"libnoversion", &catalog), None);
}

#[test]
fn equal_length_candidates_keep_the_first_encountered() {
    let catalog = vec![entry(b"libaa.so.1"), entry(b"libaa.so.2")];
    let chosen = lib_root_name(b"libaa.so.9", &catalog).expect("candidates exist");
    assert_eq!(chosen.0, b"libaa.so.1".to_vec());
}

#[test]
fn resolve_all_skips_unserved_names_and_keeps_the_rest() {
    let catalog = vec![entry(b"libffi.so.8"), entry(b"libtinfo.so.7")];
    let missing = vec![
        b"libffi.so.6".to_vec(),
        b"libmissing.so.1".to_vec(),
        b"libtinfo.so.5".to_vec(),
    ];
    let mappings = resolve_all(&missing, &catalog);
    assert_eq!(mappings.len(), 2);
    assert_eq!(mappings[0].link_name, b"libffi.so.6".to_vec());
    assert_eq!(mappings[0].target_path, b"/usr/lib/libffi.so.8".to_vec());
    assert_eq!(mappings[1].link_name, b"libtinfo.so.5".to_vec());
    assert_eq!(mappings[1].target_path, b"/usr/lib/libtinfo.so.7".to_vec());
}

#[test]
fn resolve_all_maps_duplicates_identically() {
    let catalog = vec![entry(b"libz.so.3")];
    let missing = vec![b"libz.so.1".to_vec(), b"libz.so.1".to_vec()];
    let mappings = resolve_all(&missing, &catalog);
    assert_eq!(mappings.len(), 2);
    assert_eq!(mappings[0], mappings[1]);
}

#[test]
fn byte_helpers_copy_and_compare_exactly() {
    assert_eq!(clone_bytes(b"abc"), b"abc".to_vec());
    assert!(starts_with_bytes(b"libffi.so.8", b"libffi.so"));
    assert!(!starts_with_bytes(b"libffi.so", b"libffi.so.8"));
    assert!(starts_with_bytes(b"anything", b""));
}
