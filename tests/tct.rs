use tct::error::{
    InsertBlockError, InsertBlockRootError, InsertEpochError, InsertEpochRootError, InsertError,
};
use tct::hash::{combine, empty, Digest, Root};
use tct::three::{Elems, ElemsMut, IntoElems, Three};
use tct::tier::Tier;
use tct::tree::{Block, Epoch, Eternity, Position};

fn leaf(i: u8) -> Digest {
    let mut a = [0u8; 32];
    a[0] = i;
    a[31] = 7;
    a
}

fn assert_sync_send<T: Sync + Send>() {}

fn group(altitude: u8, children: &[Digest]) -> Digest {
    let e = empty();
    let c = |i: usize| if i < children.len() { children[i] } else { e };
    combine(altitude, &c(0), &c(1), &c(2), &c(3))
}

/// Folds an authentication path from the leaf up, as a verifier would.
fn fold_path(base: u8, leaf: Digest, index: usize, path: &[Digest]) -> Digest {
    let mut node = leaf;
    let mut i = index;
    for (l, sib) in path.chunks(3).enumerate() {
        let mut g: Vec<Digest> = sib.to_vec();
        g.insert(i % 4, node);
        node = combine(base + l as u8 + 1, &g[0], &g[1], &g[2], &g[3]);
        i /= 4;
    }
    node
}

#[test]
fn insert_errors_sync_send() {
    assert_sync_send::<InsertError>();
    assert_sync_send::<InsertBlockError>();
    assert_sync_send::<InsertBlockRootError>();
    assert_sync_send::<InsertEpochError>();
    assert_sync_send::<InsertEpochRootError>();
}

#[test]
fn three_push_until_overfull() {
    let t: Three<u32> = Three::new();
    assert!(matches!(t.elems(), Elems::_0(_)));
    let t = t.push(1).ok().unwrap();
    let t = t.push(2).ok().unwrap();
    match t.elems() {
        Elems::_2([a, b]) => assert_eq!((*a, *b), (1, 2)),
        _ => panic!("expected two elements"),
    }
    let t = t.push(3).ok().unwrap();
    match t.push(4) {
        Err(all) => assert_eq!(all, [1, 2, 3, 4]),
        Ok(_) => panic!("a fourth element must overfill"),
    }
}

#[test]
fn three_into_elems_keeps_order() {
    let t: Three<u32> = Three::new();
    let t = t.push(10).ok().unwrap().push(20).ok().unwrap().push(30).ok().unwrap();
    match t.into_elems() {
        IntoElems::_3(a) => assert_eq!(a, [10, 20, 30]),
        _ => panic!("expected three elements"),
    }
    let one = Three::new().push(5u8).ok().unwrap();
    assert!(matches!(one.into_elems(), IntoElems::_1([5])));
}

#[test]
fn empty_is_zero_and_combine_is_domain_separated() {
    assert_eq!(empty(), [0u8; 32]);
    let (a, b) = (leaf(1), leaf(2));
    let h1 = combine(1, &a, &b, &a, &b);
    assert_eq!(h1, combine(1, &a, &b, &a, &b));
    assert_ne!(h1, combine(2, &a, &b, &a, &b));
    assert_ne!(h1, combine(1, &b, &a, &a, &b));
    assert_ne!(h1, a);
    assert_ne!(h1, b);
    assert_ne!(combine(1, &empty(), &empty(), &empty(), &empty()), empty());
}

#[test]
fn empty_tier_root_is_empty() {
    let t = Tier::new(0, 3);
    assert_eq!(t.root(), empty());
    assert_eq!(Block::new(2).root(), empty());
}

#[test]
fn incremental_root_matches_from_scratch() {
    let mut block = Block::new(2);
    let leaves: Vec<Digest> = (1..=6).map(leaf).collect();
    for (i, c) in leaves.iter().enumerate() {
        assert_eq!(block.insert(*c), Ok(i));
        let n = i + 1;
        let first = group(1, &leaves[0..n.min(4)]);
        let expected = if n <= 4 {
            group(2, &[first])
        } else {
            group(2, &[first, group(1, &leaves[4..n])])
        };
        assert_eq!(block.root(), expected);
    }
    assert_eq!(block.len(), 6);
}

#[test]
fn full_block_rejects_and_keeps_root() {
    let mut block = Block::new(1);
    for i in 0..4u8 {
        assert_eq!(block.insert(leaf(i)), Ok(i as usize));
    }
    assert!(block.is_full());
    let root = block.root();
    assert_eq!(block.insert(leaf(9)), Err(InsertError::BlockFull));
    assert_eq!(block.insert(leaf(10)), Err(InsertError::BlockFull));
    assert_eq!(block.root(), root);
    assert_eq!(block.len(), 4);
}

#[test]
fn witness_after_insert_rebuilds_root() {
    let mut block = Block::new(3);
    for i in 0..23u8 {
        let c = leaf(i);
        let p = block.insert(c).unwrap();
        let path = block.witness(p).expect("just inserted");
        assert_eq!(path.len(), 9);
        assert_eq!(fold_path(0, c, p, &path), block.root());
    }
    let path = block.witness(5).unwrap();
    assert_eq!(fold_path(0, leaf(5), 5, &path), block.root());
    assert_ne!(fold_path(0, leaf(6), 5, &path), block.root());
    assert!(block.witness(23).is_none());
}

#[test]
fn forget_hides_witness_and_keeps_root() {
    let mut block = Block::new(2);
    for i in 0..5u8 {
        block.insert(leaf(i)).unwrap();
    }
    let root = block.root();
    assert!(block.forget(2));
    assert!(block.witness(2).is_none());
    assert_eq!(block.root(), root);
    assert!(block.witness(3).is_some());
    let path = block.witness(3).unwrap();
    assert_eq!(fold_path(0, leaf(3), 3, &path), root);
}

#[test]
fn forget_twice_is_a_no_op() {
    let mut block = Block::new(1);
    block.insert(leaf(1)).unwrap();
    assert!(block.forget(0));
    let before = block.clone();
    assert!(!block.forget(0));
    assert_eq!(block, before);
    assert!(!block.forget(7));
    assert_eq!(block, before);
}

#[test]
fn block_of_depth_one_into_epoch() {
    let mut block = Block::new(1);
    let cs: Vec<Digest> = (1..=5).map(leaf).collect();
    for i in 0..4 {
        assert_eq!(block.insert(cs[i]), Ok(i));
    }
    assert_eq!(block.insert(cs[4]), Err(InsertError::BlockFull));
    let block_root = block.root();
    let mut epoch = Epoch::new(1, 1);
    assert_eq!(epoch.insert_block_root(block_root), Ok(0));
    let e = empty();
    assert_eq!(epoch.root(), combine(2, &block_root, &e, &e, &e));
}

#[test]
fn epoch_full_hands_block_back() {
    let mut epoch = Epoch::new(1, 1);
    for i in 0..4u8 {
        let mut b = Block::new(1);
        b.insert(leaf(i)).unwrap();
        assert_eq!(epoch.insert_block(b), Ok(i as usize));
    }
    assert!(epoch.is_full());
    let mut b = Block::new(1);
    b.insert(leaf(50)).unwrap();
    let err = epoch.insert_block(b.clone()).unwrap_err();
    assert_eq!(err, InsertBlockError::EpochFull(b.clone()));
    assert_eq!(err.into_block(), b);
    assert_eq!(epoch.insert_block_root(leaf(1)), Err(InsertBlockRootError::EpochFull));
    assert_eq!(InsertEpochError(Epoch::new(1, 1)).into_epoch(), Epoch::new(1, 1));
}

#[test]
fn sealed_tiers_hash_as_one_flat_tree() {
    let mut eternity = Eternity::new(1, 1, 1);
    let mut all: Vec<Digest> = Vec::new();
    for b in 0..4u8 {
        for c in 0..4u8 {
            let x = leaf(b * 4 + c + 1);
            all.push(x);
            let p = eternity.insert(x).unwrap();
            assert_eq!(p, Position { epoch: 0, block: b as usize, commitment: c as usize });
        }
        eternity.end_block().unwrap();
    }
    assert_eq!(eternity.insert(leaf(99)), Err(InsertError::EpochFull));
    let epoch_root = eternity.end_epoch().unwrap();
    let blocks: Vec<Digest> = all.chunks(4).map(|c| group(1, c)).collect();
    assert_eq!(epoch_root, group(2, &blocks));
    assert_eq!(eternity.root(), group(3, &[group(2, &blocks)]));
}

#[test]
fn eternity_root_counts_open_block_and_epoch() {
    let mut eternity = Eternity::new(1, 1, 1);
    assert_eq!(eternity.root(), empty());
    eternity.insert(leaf(1)).unwrap();
    eternity.insert(leaf(2)).unwrap();
    let block_root = group(1, &[leaf(1), leaf(2)]);
    assert_eq!(eternity.root(), group(3, &[group(2, &[block_root])]));
    assert_eq!(eternity.end_block(), Ok(block_root));
    assert_eq!(eternity.root(), group(3, &[group(2, &[block_root])]));
    assert_eq!(eternity.end_epoch(), Ok(group(2, &[block_root])));
    assert_eq!(eternity.root(), group(3, &[group(2, &[block_root])]));
}

#[test]
fn full_eternity_rejects_everything() {
    let mut eternity = Eternity::new(0, 0, 1);
    for i in 0..4u8 {
        assert_eq!(
            eternity.insert(leaf(i)),
            Ok(Position { epoch: i as usize, block: 0, commitment: 0 })
        );
        assert_eq!(eternity.insert(leaf(i)), Err(InsertError::BlockFull));
        eternity.end_block().unwrap();
        assert_eq!(eternity.insert(leaf(i)), Err(InsertError::EpochFull));
        eternity.end_epoch().unwrap();
    }
    let root = eternity.root();
    assert_eq!(eternity.insert(leaf(9)), Err(InsertError::Full));
    assert_eq!(eternity.end_block(), Err(InsertBlockRootError::Full));
    assert_eq!(eternity.end_epoch(), Err(InsertEpochRootError));
    assert_eq!(eternity.root(), root);
    let leaves: Vec<Digest> = (0..4).map(leaf).collect();
    assert_eq!(root, group(1, &leaves));
}

fn fold_tiers(depths: (u8, u8, u8), c: Digest, pos: Position, path: &[Digest]) -> Digest {
    let (bd, ed, td) = (depths.0 as usize, depths.1 as usize, depths.2 as usize);
    assert_eq!(path.len(), 3 * (bd + ed + td));
    let x = fold_path(0, c, pos.commitment, &path[0..3 * bd]);
    let y = fold_path(depths.0, x, pos.block, &path[3 * bd..3 * (bd + ed)]);
    fold_path(depths.0 + depths.1, y, pos.epoch, &path[3 * (bd + ed)..])
}

fn filled_eternity() -> (Eternity, Vec<(Position, Digest)>) {
    let mut eternity = Eternity::new(1, 1, 1);
    let mut placed = Vec::new();
    let mut next = 1u8;
    let mut put = |e: &mut Eternity, placed: &mut Vec<(Position, Digest)>| {
        let c = leaf(next);
        next += 1;
        let p = e.insert(c).unwrap();
        placed.push((p, c));
    };
    for _ in 0..3 {
        put(&mut eternity, &mut placed);
    }
    eternity.end_block().unwrap();
    for _ in 0..2 {
        put(&mut eternity, &mut placed);
    }
    eternity.end_epoch().unwrap();
    put(&mut eternity, &mut placed);
    (eternity, placed)
}

#[test]
fn eternity_witness_every_position() {
    let (eternity, placed) = filled_eternity();
    assert_eq!(placed[3].0, Position { epoch: 0, block: 1, commitment: 0 });
    assert_eq!(placed[5].0, Position { epoch: 1, block: 0, commitment: 0 });
    let root = eternity.root();
    for (p, c) in &placed {
        let path = eternity.witness(*p).expect("kept");
        assert_eq!(fold_tiers((1, 1, 1), *c, *p, &path), root);
    }
    assert!(eternity.witness(Position { epoch: 0, block: 2, commitment: 0 }).is_none());
    assert!(eternity.witness(Position { epoch: 1, block: 0, commitment: 1 }).is_none());
    assert!(eternity.witness(Position { epoch: 2, block: 0, commitment: 0 }).is_none());
}

#[test]
fn eternity_forget_keeps_root_and_prunes() {
    let (mut eternity, placed) = filled_eternity();
    let root = eternity.root();
    let (p, _) = placed[1];
    assert!(eternity.forget(p));
    assert!(eternity.witness(p).is_none());
    assert!(!eternity.forget(p));
    assert_eq!(eternity.root(), root);
    assert!(eternity.forget(placed[0].0));
    assert!(eternity.forget(placed[2].0));
    assert!(!eternity.forget(placed[2].0));
    assert_eq!(eternity.root(), root);
    for (p, c) in &placed[3..] {
        let path = eternity.witness(*p).expect("still kept");
        assert_eq!(fold_tiers((1, 1, 1), *c, *p, &path), root);
    }
    let (p, c) = placed[5];
    assert!(eternity.forget(p));
    assert!(eternity.witness(p).is_none());
    assert_eq!(eternity.root(), root);
    let before = eternity.clone();
    assert!(!eternity.forget(p));
    assert_eq!(eternity, before);
    assert_eq!(eternity.insert(c).unwrap(), Position { epoch: 1, block: 0, commitment: 1 });
}

#[test]
fn three_elems_mut_writes_through() {
    let mut t: Three<u32> = Three::default();
    assert!(matches!(t.elems_mut(), ElemsMut::_0(_)));
    t = t.push(1).ok().unwrap().push(2).ok().unwrap();
    match t.elems_mut() {
        ElemsMut::_2([a, b]) => {
            *a += 10;
            *b += 20;
        }
        _ => panic!("expected two elements"),
    }
    let t = t.push(3).ok().unwrap();
    match t.elems() {
        Elems::_3([a, b, c]) => assert_eq!((*a, *b, *c), (11, 22, 3)),
        _ => panic!("expected three elements"),
    }
}

#[test]
fn root_bytes_round_trip_and_canonical_check() {
    let zero = Root::from_bytes(&[0u8; 32]).expect("zero is canonical");
    assert_eq!(zero.to_bytes(), [0u8; 32]);
    assert!(Root::from_bytes(&[0xffu8; 32]).is_none());
    assert!(Root::from_bytes(&[0u8; 31]).is_none());
    assert!(Root::from_bytes(&[0u8; 33]).is_none());
    let h = combine(3, &leaf(1), &leaf(2), &leaf(3), &leaf(4));
    let root = Root::from_bytes(&h).expect("a hash is canonical");
    assert_eq!(root, Root(h));
    assert_eq!(root.to_bytes(), h);
}

#[test]
fn eternity_forgetting_a_whole_epoch_keeps_the_rest() {
    let (mut eternity, placed) = filled_eternity();
    let root = eternity.root();
    for (p, _) in &placed[0..5] {
        assert!(eternity.forget(*p));
        assert!(eternity.witness(*p).is_none());
    }
    for (p, _) in &placed[0..5] {
        assert!(!eternity.forget(*p));
    }
    assert_eq!(eternity.root(), root);
    let (p, c) = placed[5];
    let path = eternity.witness(p).expect("still kept");
    assert_eq!(fold_tiers((1, 1, 1), c, p, &path), root);
    let next = eternity.insert(leaf(77)).unwrap();
    assert_eq!(next, Position { epoch: 1, block: 0, commitment: 1 });
    let path = eternity.witness(next).unwrap();
    assert_eq!(fold_tiers((1, 1, 1), leaf(77), next, &path), eternity.root());
}

#[test]
fn eternity_insert_block_root_seals_open_block_first() {
    let mut eternity = Eternity::new(1, 1, 1);
    eternity.insert(leaf(1)).unwrap();
    eternity.insert(leaf(2)).unwrap();
    let open_root = group(1, &[leaf(1), leaf(2)]);
    let given = leaf(40);
    assert_eq!(eternity.insert_block_root(given), Ok(1));
    assert_eq!(eternity.root(), group(3, &[group(2, &[open_root, given])]));
    assert_eq!(
        eternity.insert(leaf(3)),
        Ok(Position { epoch: 0, block: 2, commitment: 0 })
    );
    assert_eq!(eternity.insert_block_root(leaf(41)), Ok(3));
    let mut b = Block::new(1);
    b.insert(leaf(9)).unwrap();
    let err = eternity.insert_block(b.clone()).unwrap_err();
    assert_eq!(err, InsertBlockError::EpochFull(b.clone()));
    assert_eq!(err.into_block(), b);
    assert_eq!(eternity.insert_block_root(leaf(42)), Err(InsertBlockRootError::EpochFull));
    assert_eq!(eternity.insert(leaf(5)), Err(InsertError::EpochFull));
    let all = [open_root, given, group(1, &[leaf(3)]), leaf(41)];
    assert_eq!(eternity.root(), group(3, &[group(2, &all)]));
}

#[test]
fn eternity_insert_epoch_root_and_epoch() {
    let mut eternity = Eternity::new(1, 1, 1);
    eternity.insert(leaf(1)).unwrap();
    let open_epoch = group(2, &[group(1, &[leaf(1)])]);
    let given = leaf(50);
    assert_eq!(eternity.insert_epoch_root(given), Ok(1));
    assert_eq!(eternity.root(), group(3, &[open_epoch, given]));
    let mut epoch = Epoch::new(1, 1);
    epoch.insert_block_root(leaf(60)).unwrap();
    let epoch_root = epoch.root();
    assert_eq!(eternity.insert_epoch(epoch.clone()), Ok(2));
    assert_eq!(eternity.root(), group(3, &[open_epoch, given, epoch_root]));
    eternity.insert(leaf(2)).unwrap();
    assert_eq!(eternity.insert_epoch_root(leaf(51)), Err(InsertEpochRootError));
    let err = eternity.insert_epoch(epoch.clone()).unwrap_err();
    assert_eq!(err, InsertEpochError(epoch.clone()));
    eternity.end_epoch().unwrap();
    assert_eq!(eternity.insert_epoch_root(leaf(52)), Err(InsertEpochRootError));
    let mut b = Block::new(1);
    b.insert(leaf(3)).unwrap();
    assert_eq!(eternity.insert_block(b.clone()), Err(InsertBlockError::Full(b)));
    assert_eq!(eternity.insert_block_root(leaf(4)), Err(InsertBlockRootError::Full));
}
