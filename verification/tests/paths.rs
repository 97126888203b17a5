use exomem::VaultPath;

#[test]
fn vault_path_components() {
    let p = VaultPath::new("/a/bb/ccc").unwrap();
    let cs = p.components();
    assert_eq!(cs.len(), 3);
    assert_eq!(cs[0], b"a".to_vec());
    assert_eq!(cs[1], b"bb".to_vec());
    assert_eq!(cs[2], b"ccc".to_vec());
    assert_eq!(p.file_name().unwrap(), b"ccc".to_vec());
    assert_eq!(p.to_str(), b"/a/bb/ccc".to_vec());

    let parent = p.parent().unwrap();
    assert_eq!(parent.components().len(), 2);
    assert_eq!(parent.to_str(), b"/a/bb".to_vec());

    let root = VaultPath::new("/").unwrap();
    assert_eq!(root.components().len(), 0);
    assert!(root.parent().is_none());
    assert!(root.file_name().is_none());
    assert_eq!(root.to_str(), b"/".to_vec());
}

#[test]
fn vault_path_validation() {
    assert!(VaultPath::new("a/b").is_none());
    assert!(VaultPath::new("").is_none());
    assert!(VaultPath::new("/a/./b").is_none());
    assert!(VaultPath::new("/a/../b").is_none());

    // repeated separators collapse
    let p = VaultPath::new("//a//b/").unwrap();
    assert_eq!(p.components().len(), 2);
    assert_eq!(p.to_str(), b"/a/b".to_vec());
}
