use exomem::{
    Block, BlockId, BlockKind, EncryptedBlock, InfoBlock, NodeKind, Provider, Vault, VaultError,
    VaultPath,
};

#[test]
fn unresolved_block_on_local_paths() {
    let (vault, _plan) = Vault::initialize(Provider::new()).unwrap();
    // a resolvable path needs nothing
    assert!(vault
        .unresolved_block(&VaultPath::new("/welcome").unwrap())
        .is_none());
    // a missing name is not a missing block: loading would not help
    assert!(vault
        .unresolved_block(&VaultPath::new("/nope").unwrap())
        .is_none());
}

#[test]
fn list_follows_a_block_referenced_entry() {
    // child: an empty directory block of its own
    let child = InfoBlock::new_directory();
    let enc_child = EncryptedBlock::encrypt(&child, 0);
    let child_id = enc_child.id(BlockKind::Info);

    // root: a directory whose entry `sub` references the child globally
    let root0 = InfoBlock::new_directory().info().unwrap();
    let (root1, _) = root0
        .directory_create_local_node(0, "sub", NodeKind::Directory)
        .unwrap();
    let root2 = root1
        .info()
        .unwrap()
        .directory_set_entry_block_id_and_node_index(0, "sub", Some(&child_id), 0)
        .unwrap()
        .unwrap();
    let enc_root = EncryptedBlock::encrypt(&root2, 0);
    let root_id = enc_root.id(BlockKind::Info);

    let index = InfoBlock::new_index();
    let enc_index = EncryptedBlock::encrypt(&index, 0);
    let index_id = enc_index.id(BlockKind::Info);
    let vb = InfoBlock::new_vault(&root_id, &index_id);
    let enc_vb = EncryptedBlock::encrypt(&vb, 0);
    let vault_id = enc_vb.id(BlockKind::Info);

    // load everything the references reach, leaves first, then open
    let mut provider = Provider::new();
    provider.load_block_from_file(&child_id, enc_child.data(), 0);
    provider.load_block_from_file(&root_id, enc_root.data(), 0);
    provider.load_block_from_file(&index_id, enc_index.data(), 0);
    provider.load_block_from_file(&vault_id, enc_vb.data(), 0);
    let vault = Vault::open(provider, &vault_id).unwrap();

    // resolution crosses the block boundary into the empty child
    let sub = VaultPath::new("/sub").unwrap();
    assert!(vault.unresolved_block(&sub).is_none());
    assert_eq!(vault.list(&sub).unwrap(), vec![]);
}

#[test]
fn vault_load_block_checks_its_references() {
    let (mut vault, _plan) = Vault::initialize(Provider::new()).unwrap();

    // a self-contained block is admitted
    let dir = InfoBlock::new_directory();
    let enc_dir = EncryptedBlock::encrypt(&dir, 0);
    let dir_id = enc_dir.id(BlockKind::Info);
    vault.load_block_from_file(&dir_id, enc_dir.data(), 0).unwrap();
    // loading the same bytes again changes nothing and succeeds
    vault.load_block_from_file(&dir_id, enc_dir.data(), 0).unwrap();

    // bytes that disagree with what an id already names are refused
    let other = EncryptedBlock::encrypt(&InfoBlock::new_index(), 0);
    assert!(matches!(
        vault.load_block_from_file(&dir_id, other.data(), 0),
        Err(VaultError::CorruptId)
    ));

    // undecodable bytes under a fresh id are refused
    let junk_id = BlockId::from_data([0xABu8; 32]);
    assert!(matches!(
        vault.load_block_from_file(&junk_id, bytes::Bytes::from(vec![0xFFu8; 8]), 0),
        Err(VaultError::MalformedBlock)
    ));

    // a block referencing an absent id is refused: it would break the
    // store's closure
    let dangling = BlockId::from_data([0xCDu8; 32]);
    let r0 = InfoBlock::new_directory().info().unwrap();
    let (r1, _) = r0
        .directory_create_local_node(0, "far", NodeKind::Directory)
        .unwrap();
    let r2 = r1
        .info()
        .unwrap()
        .directory_set_entry_block_id_and_node_index(0, "far", Some(&dangling), 0)
        .unwrap()
        .unwrap();
    let enc_r2 = EncryptedBlock::encrypt(&r2, 0);
    let r2_id = enc_r2.id(BlockKind::Info);
    assert!(matches!(
        vault.load_block_from_file(&r2_id, enc_r2.data(), 0),
        Err(VaultError::MissingBlock)
    ));
}

#[test]
fn loaded_blocks_round_trip_through_provider() {
    let block = Block::from_vec(vec![7u8; 4096]);
    let enc = EncryptedBlock::encrypt(&block, 9);
    let id = enc.id(BlockKind::Data);
    let mut p = Provider::new();
    let back = p.load_block_from_file(&id, enc.data(), 9);
    assert_eq!(back.to_vec(), block.to_vec());
    assert_eq!(p.get_block(&id).unwrap().to_vec(), block.to_vec());
}
