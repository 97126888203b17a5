use exomem::{BlockId, InfoBlock, NodeKind};

#[test]
fn directory_create_and_get() {
    let dir = InfoBlock::new_directory();
    let info = dir.info().unwrap();
    let (b2, lid) = info
        .directory_create_local_node(0, "docs", NodeKind::Directory)
        .unwrap();
    assert_eq!(lid, 1);
    let info2 = b2.info().unwrap();
    match info2
        .directory_get_entry_block_id_and_node_index(0, "docs")
        .unwrap()
    {
        Some((None, k)) => assert_eq!(k, 1),
        other => panic!("unexpected lookup result: {:?}", other),
    }
    assert!(info2
        .directory_get_entry_block_id_and_node_index(0, "nope")
        .unwrap()
        .is_none());
}

#[test]
fn directory_set_entry_rewrites_reference() {
    let dir = InfoBlock::new_directory();
    let info = dir.info().unwrap();
    let (b2, _) = info
        .directory_create_local_node(0, "child", NodeKind::Directory)
        .unwrap();
    let info2 = b2.info().unwrap();

    // the entry already points there: nothing to rewrite
    assert!(info2
        .directory_set_entry_block_id_and_node_index(0, "child", None, 1)
        .unwrap()
        .is_none());

    // a global block reference replaces the local one
    let target = BlockId::from_data([9u8; 32]);
    let b3 = info2
        .directory_set_entry_block_id_and_node_index(0, "child", Some(&target), 0)
        .unwrap()
        .unwrap();
    let info3 = b3.info().unwrap();
    match info3
        .directory_get_entry_block_id_and_node_index(0, "child")
        .unwrap()
    {
        Some((Some(id), k)) => {
            assert!(id.equals(&target));
            assert_eq!(k, 0);
        },
        other => panic!("unexpected lookup result: {:?}", other),
    }

    // an absent name rewrites nothing
    assert!(info2
        .directory_set_entry_block_id_and_node_index(0, "ghost", Some(&target), 0)
        .unwrap()
        .is_none());
}

#[test]
fn directory_list_reports_kinds() {
    let dir = InfoBlock::new_directory();
    let info = dir.info().unwrap();
    let (b2, _) = info
        .directory_create_local_node(0, "sub", NodeKind::Directory)
        .unwrap();
    let info2 = b2.info().unwrap();
    let (b3, _) = info2
        .directory_create_local_node(0, "data.bin", NodeKind::File)
        .unwrap();
    let info3 = b3.info().unwrap();
    let listing = info3.directory_list(0).unwrap();
    assert_eq!(listing.len(), 2);
    assert_eq!(listing[0].0, NodeKind::Directory);
    assert_eq!(listing[0].1, b"sub".to_vec());
    assert_eq!(listing[1].0, NodeKind::File);
    assert_eq!(listing[1].1, b"data.bin".to_vec());
}

#[test]
fn vault_block_round_trip() {
    let root = BlockId::from_data([1u8; 32]);
    let index = BlockId::from_data([2u8; 32]);
    let vb = InfoBlock::new_vault(&root, &index);
    // padded to the smallest permitted block size
    assert_eq!(vb.size(), 4096);
    let info = vb.info().unwrap();
    let (r2, i2) = info.get_root_id_and_index_id().unwrap();
    assert!(r2.equals(&root));
    assert!(i2.equals(&index));

    let root3 = BlockId::from_data([3u8; 32]);
    let vb2 = info.update_root_id(&root3).unwrap();
    let (r4, i4) = vb2.info().unwrap().get_root_id_and_index_id().unwrap();
    assert!(r4.equals(&root3));
    assert!(i4.equals(&index));
}

#[test]
fn index_block_is_empty() {
    let b = InfoBlock::new_index();
    assert_eq!(b.size(), 4096);
    let info = b.info().unwrap();
    assert_eq!(info.node_count(), 0);
}
