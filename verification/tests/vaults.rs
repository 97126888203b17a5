use std::collections::HashMap;

use exomem::{
    Block, BlockKind, CommitPlan, EncryptedBlock, NodeKind, Provider, Vault, VaultError, VaultPath,
};

/// Stands in for the blob directory: applies a plan's block writes, then
/// returns the 32 bytes the pointer file would hold.
fn apply_plan(disk: &mut HashMap<Vec<u8>, Vec<u8>>, plan: &CommitPlan) -> Vec<u8> {
    for w in plan.writes.iter() {
        disk.insert(w.id.data().to_vec(), w.data.clone());
    }
    plan.vault_id.data().to_vec()
}

/// Stands in for the open path: reads the pointer, loads the vault block
/// and the two blocks it references, and opens the vault.
fn reopen(disk: &HashMap<Vec<u8>, Vec<u8>>, pointer: &Vec<u8>) -> Vault {
    let mut provider = Provider::new();
    let vault_id = Provider::load_block_id_from_file(pointer).unwrap();
    let vault_bytes = disk.get(pointer).expect("vault block must be durable");
    provider.load_block_from_file(&vault_id, bytes::Bytes::from(vault_bytes.clone()), 0);
    let info = provider.get_block(&vault_id).unwrap().info().unwrap();
    let (root_id, index_id) = info.get_root_id_and_index_id().unwrap();
    let root_bytes = disk
        .get(&root_id.data().to_vec())
        .expect("root block must be durable");
    provider.load_block_from_file(&root_id, bytes::Bytes::from(root_bytes.clone()), 0);
    let index_bytes = disk
        .get(&index_id.data().to_vec())
        .expect("index block must be durable");
    provider.load_block_from_file(&index_id, bytes::Bytes::from(index_bytes.clone()), 0);
    Vault::open(provider, &vault_id).unwrap()
}

#[test]
fn initialize_and_reopen_agree() {
    let (vault, plan) = Vault::initialize(Provider::new()).unwrap();
    let mut disk = HashMap::new();
    let pointer = apply_plan(&mut disk, &plan);
    let vault2 = reopen(&disk, &pointer);
    assert_eq!(vault.root_id().data(), vault2.root_id().data());
    assert_eq!(vault.index_id().data(), vault2.index_id().data());
}

#[test]
fn fresh_vault_lists_welcome() {
    let (vault, _plan) = Vault::initialize(Provider::new()).unwrap();
    let listing = vault.list(&VaultPath::new("/").unwrap()).unwrap();
    assert_eq!(listing, vec![(NodeKind::Directory, b"welcome".to_vec())]);
}

#[test]
fn create_directory_deep_path() {
    let (mut vault, init_plan) = Vault::initialize(Provider::new()).unwrap();
    let plan = vault
        .create_directory(&VaultPath::new("/a/b/c").unwrap())
        .unwrap()
        .unwrap();
    // the pointer moves to a new vault block
    assert_ne!(plan.vault_id.data(), init_plan.vault_id.data());

    let root = vault.list(&VaultPath::new("/").unwrap()).unwrap();
    assert!(root.contains(&(NodeKind::Directory, b"welcome".to_vec())));
    assert!(root.contains(&(NodeKind::Directory, b"a".to_vec())));
    assert_eq!(
        vault.list(&VaultPath::new("/a").unwrap()).unwrap(),
        vec![(NodeKind::Directory, b"b".to_vec())]
    );
    assert_eq!(
        vault.list(&VaultPath::new("/a/b").unwrap()).unwrap(),
        vec![(NodeKind::Directory, b"c".to_vec())]
    );
}

#[test]
fn create_directory_twice_is_idempotent() {
    let (mut vault, _plan) = Vault::initialize(Provider::new()).unwrap();
    vault
        .create_directory(&VaultPath::new("/a/b").unwrap())
        .unwrap()
        .unwrap();
    let before_root = vault.list(&VaultPath::new("/").unwrap()).unwrap();
    let before_a = vault.list(&VaultPath::new("/a").unwrap()).unwrap();

    let second = vault
        .create_directory(&VaultPath::new("/a/b").unwrap())
        .unwrap();
    assert!(second.is_none());

    assert_eq!(vault.list(&VaultPath::new("/").unwrap()).unwrap(), before_root);
    assert_eq!(vault.list(&VaultPath::new("/a").unwrap()).unwrap(), before_a);
}

#[test]
fn commit_plan_restores_full_state() {
    let (mut vault, init_plan) = Vault::initialize(Provider::new()).unwrap();
    let mut disk = HashMap::new();
    apply_plan(&mut disk, &init_plan);

    let plan = vault
        .create_directory(&VaultPath::new("/a/b").unwrap())
        .unwrap()
        .unwrap();
    let pointer = apply_plan(&mut disk, &plan);

    // every block the new vault id leads to was written before the pointer
    let vault2 = reopen(&disk, &pointer);
    assert_eq!(
        vault2.list(&VaultPath::new("/a").unwrap()).unwrap(),
        vec![(NodeKind::Directory, b"b".to_vec())]
    );
    assert_eq!(vault2.list(&VaultPath::new("/").unwrap()).unwrap().len(), 2);
}

#[test]
fn missing_path_is_an_error() {
    let (vault, _plan) = Vault::initialize(Provider::new()).unwrap();
    assert!(matches!(
        vault.list(&VaultPath::new("/nope").unwrap()),
        Err(VaultError::PathNotFound)
    ));
}

#[test]
fn put_and_get_are_reserved() {
    let (mut vault, _plan) = Vault::initialize(Provider::new()).unwrap();
    assert!(vault.get("anything").is_none());
    assert!(matches!(vault.put("anything"), Err(VaultError::Unimplemented)));
}

#[test]
fn provider_round_trips_blocks() {
    let mut p = Provider::new();
    let block = Block::from_vec(vec![1u8; 4096]);
    let enc = EncryptedBlock::encrypt(&block, 0);
    let id = enc.id(BlockKind::Data);
    assert!(matches!(p.get_block(&id), Err(VaultError::MissingBlock)));
    p.add_block(&id, &enc, block.clone());
    assert!(p.contains(&id));
    assert_eq!(p.get_block(&id).unwrap().to_vec(), block.to_vec());

    // pointer file bytes round-trip through the id
    let bytes = Provider::save_block_id_to_file(&id);
    assert_eq!(bytes.len(), 32);
    let id2 = Provider::load_block_id_from_file(&bytes).unwrap();
    assert!(id2.equals(&id));
    assert!(Provider::load_block_id_from_file(&vec![0u8; 31]).is_err());
}
