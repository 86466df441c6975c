use tct::{Block, Digest, Epoch, Eternity, Fq, Insert, Item};

fn fq(v: u64) -> Fq {
    Fq { inner: v }
}

fn block_with(values: &[u64]) -> Block {
    let mut b = Block::new();
    for &v in values {
        assert!(b.insert(Insert::Keep(Item::new(fq(v)))).is_ok());
    }
    b
}

fn epoch_with(blocks: Vec<Block>) -> Epoch {
    let mut e = Epoch::new();
    for b in blocks {
        assert!(e.insert(Insert::Keep(b)).is_ok());
    }
    e
}

fn eternity_with(epochs: Vec<Epoch>) -> Eternity {
    let mut e = Eternity::new();
    for ep in epochs {
        assert!(e.insert(Insert::Keep(ep)).is_ok());
    }
    e
}

#[test]
fn empty_eternity() {
    let mut e = Eternity::new();
    assert!(e.is_empty());
    assert_eq!(e.len(), 0);
    assert_eq!(e.hash().inner, 0xcbf29ce484222325);
    assert_eq!(e.hash().inner, 0xcbf29ce484222325);
    assert!(e.witness(fq(1)).is_none());
}

#[test]
fn item_domain_hash_exact() {
    assert_eq!(Digest::of(fq(0)).inner, 0x89d3045ca91414ad);
    assert_eq!(Digest::of(fq(7)).inner, 0x89d3045ca91414b4);
    assert_eq!(Item::new(fq(7)).hash, Digest::of(fq(7)));
}

#[test]
fn single_item_scenario() {
    // An empty eternity; one block holding one item, wrapped in an epoch.
    let block = block_with(&[42]);
    let epoch = epoch_with(vec![block]);
    let mut e = Eternity::new();
    assert!(e.insert(Insert::Keep(epoch)).is_ok());

    assert_eq!(e.len(), 1);
    assert!(!e.is_empty());

    let root = e.hash();
    let proof = e.witness(fq(42)).expect("witnessed value must have a proof");
    assert_eq!(proof.leaf, fq(42));
    assert_eq!(proof.auth_path.len(), 3);
    assert!(proof.verify(root));

    assert!(e.forget(fq(42)));
    assert!(e.witness(fq(42)).is_none());
    assert!(!e.forget(fq(42)));
    assert_eq!(e.hash(), root);
}

#[test]
fn append_only_growth() {
    let mut e = Eternity::new();
    let mut last: u64 = 0;
    assert_eq!(e.len(), 0);
    assert!(e.insert(Insert::Keep(epoch_with(vec![block_with(&[1])]))).is_ok());
    assert_eq!(e.len(), 1);
    assert!(e.len() >= last);
    last = e.len();
    assert!(e.insert(Insert::Keep(epoch_with(vec![block_with(&[2, 3])]))).is_ok());
    assert_eq!(e.len(), (1u64 << 32) + 2);
    assert!(e.len() >= last);
    last = e.len();
    assert!(e.insert(Insert::Keep(epoch_with(vec![block_with(&[4]), block_with(&[5, 6, 7])]))).is_ok());
    assert_eq!(e.len(), (2u64 << 32) + (1u64 << 16) + 3);
    assert!(e.len() >= last);
}

#[test]
fn elided_focus_counts_as_full() {
    let mut e = Eternity::new();
    assert!(e.insert(Insert::Hash(Digest { inner: 77 })).is_ok());
    assert_eq!(e.len(), 0xFFFFFFFF);

    let mut ep = Epoch::new();
    assert!(ep.insert(Insert::Hash(Digest { inner: 78 })).is_ok());
    assert_eq!(ep.len(), 0xFFFF);
}

#[test]
fn block_capacity_boundary() {
    let mut b = Block::new();
    for v in 0..65536u64 {
        assert!(b.insert(Insert::Keep(Item::new(fq(v)))).is_ok());
    }
    assert_eq!(b.len(), 65536);
    let before = b.hash();
    let r = b.insert(Insert::Keep(Item::new(fq(99999))));
    match r {
        Err(Insert::Keep(it)) => assert_eq!(it.value, fq(99999)),
        _ => panic!("a full block must hand the item back"),
    }
    assert_eq!(b.len(), 65536);
    assert_eq!(b.hash(), before);
}

#[test]
fn eternity_capacity_boundary() {
    let mut e = Eternity::new();
    for v in 0..65536u64 {
        assert!(e.insert(Insert::Hash(Digest { inner: v })).is_ok());
    }
    let before = e.hash();
    let len_before = e.len();
    let r = e.insert(Insert::Hash(Digest { inner: 1234 }));
    match r {
        Err(Insert::Hash(d)) => assert_eq!(d.inner, 1234),
        _ => panic!("a full eternity must hand the epoch back"),
    }
    assert_eq!(e.hash(), before);
    assert_eq!(e.len(), len_before);
}

#[test]
fn forget_preserves_root_and_other_witnesses() {
    let mut e = eternity_with(vec![epoch_with(vec![block_with(&[10, 11, 12])])]);
    let root = e.hash();
    assert!(e.forget(fq(11)));
    assert_eq!(e.hash(), root);
    assert!(e.witness(fq(11)).is_none());
    let proof = e.witness(fq(10)).expect("an unforgotten value stays witnessed");
    assert!(proof.verify(root));
    let proof12 = e.witness(fq(12)).expect("an unforgotten value stays witnessed");
    assert!(proof12.verify(root));
}

#[test]
fn forget_removes_every_occurrence() {
    // The same value at two positions: forgetting removes both.
    let mut e = eternity_with(vec![epoch_with(vec![block_with(&[5, 6, 5])])]);
    let root = e.hash();
    assert!(e.forget(fq(5)));
    assert!(e.witness(fq(5)).is_none());
    assert!(!e.forget(fq(5)));
    assert_eq!(e.hash(), root);
    assert!(e.witness(fq(6)).is_some());
}

#[test]
fn witness_latest_occurrence() {
    let mut e = eternity_with(vec![epoch_with(vec![block_with(&[5, 6, 5])])]);
    let root = e.hash();
    let proof = e.witness(fq(5)).expect("value is witnessed");
    assert_eq!(proof.position.epoch, 0);
    assert_eq!(proof.position.block, 0);
    assert_eq!(proof.position.item, 2);
    assert!(proof.verify(root));
}

#[test]
fn elision_idempotence() {
    let make = || epoch_with(vec![block_with(&[21, 22])]);
    let mut ep_for_digest = make();
    let d = ep_for_digest.hash();

    let mut kept = Eternity::new();
    assert!(kept.insert(Insert::Keep(make())).is_ok());
    let mut elided = Eternity::new();
    assert!(elided.insert(Insert::Hash(d)).is_ok());

    assert_eq!(kept.hash(), elided.hash());
    assert!(kept.witness(fq(21)).is_some());
    assert!(elided.witness(fq(21)).is_none());
}

#[test]
fn proof_rejects_wrong_root() {
    let mut e = eternity_with(vec![epoch_with(vec![block_with(&[1, 2, 3])])]);
    let root = e.hash();
    let proof = e.witness(fq(2)).unwrap();
    assert!(proof.verify(root));
    assert!(!proof.verify(Digest { inner: root.inner.wrapping_add(1) }));
}

#[test]
fn epoch_lengths() {
    let mut ep = Epoch::new();
    assert_eq!(ep.len(), 0);
    assert!(ep.is_empty());
    assert!(ep.insert(Insert::Keep(block_with(&[1, 2, 3]))).is_ok());
    assert_eq!(ep.len(), 3);
    assert!(ep.insert(Insert::Keep(block_with(&[4]))).is_ok());
    assert_eq!(ep.len(), (1u64 << 16) + 1);
    let b = block_with(&[9]);
    assert_eq!(b.len(), 1);
    assert!(!b.is_empty());
}

#[test]
fn witness_across_epochs() {
    // Values spread over two epochs and several blocks.
    let mut e = eternity_with(vec![
        epoch_with(vec![block_with(&[1, 2]), block_with(&[3])]),
        epoch_with(vec![block_with(&[4, 5])]),
    ]);
    let root = e.hash();
    let p4 = e.witness(fq(4)).unwrap();
    assert_eq!(p4.position.epoch, 1);
    assert_eq!(p4.position.block, 0);
    assert_eq!(p4.position.item, 0);
    assert!(p4.verify(root));
    let p3 = e.witness(fq(3)).unwrap();
    assert_eq!(p3.position.epoch, 0);
    assert_eq!(p3.position.block, 1);
    assert!(p3.verify(root));
    assert!(e.forget(fq(3)));
    assert_eq!(e.hash(), root);
    assert!(p4.verify(root));
}

#[test]
fn hash_inserted_item_not_witnessable() {
    let mut b = Block::new();
    assert!(b.insert(Insert::Hash(Digest::of(fq(50)))).is_ok());
    assert!(b.insert(Insert::Keep(Item::new(fq(51)))).is_ok());
    let mut e = eternity_with(vec![epoch_with(vec![b])]);
    assert!(e.witness(fq(50)).is_none());
    assert!(e.witness(fq(51)).is_some());

    // A block inserted elided and a block inserted kept give the same
    // digests at the item level too.
    let mut b1 = Block::new();
    assert!(b1.insert(Insert::Hash(Digest::of(fq(60)))).is_ok());
    let mut b2 = Block::new();
    assert!(b2.insert(Insert::Keep(Item::new(fq(60)))).is_ok());
    assert_eq!(b1.hash(), b2.hash());
    let _ = e.hash();
}

#[test]
fn clone_forget_hash_stability() {
    let mut e = eternity_with(vec![epoch_with(vec![block_with(&[30, 31]), block_with(&[32])])]);
    let root = e.hash();
    let mut c = e.clone();
    assert_eq!(e, c);
    assert!(c.forget(fq(31)));
    assert_eq!(c.hash(), root);
    assert_ne!(e, c);
    assert!(e.witness(fq(31)).is_some());
    assert!(c.witness(fq(31)).is_none());
}

#[test]
fn forget_absent_value_is_a_no_op() {
    let mut e = eternity_with(vec![epoch_with(vec![block_with(&[1, 2])])]);
    let snapshot = e.clone();
    assert!(!e.forget(fq(999)));
    assert_eq!(e, snapshot);
    assert!(e.forget(fq(2)));
    let after = e.clone();
    assert!(!e.forget(fq(2)));
    assert_eq!(e, after);
}

#[test]
fn default_is_empty() {
    let mut d = Eternity::default();
    assert!(d.is_empty());
    assert_eq!(d.len(), 0);
    assert_eq!(d, Eternity::new());
    assert_eq!(d.hash(), Eternity::new().hash());
}
