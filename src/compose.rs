//! How the tiers compose: trees of complete trees hash as one tree.
use vstd::prelude::*;
use crate::tier::{child_at, level_above, parents, pow4, tree_root};

verus! {

proof fn lemma_parents_concat(altitude: u8, a: Seq<Seq<u8>>, b: Seq<Seq<u8>>)
    requires
        a.len() % 4 == 0,
    ensures
        parents(altitude, a + b) == parents(altitude, a) + parents(altitude, b),
{
    let lhs = parents(altitude, a + b);
    let rhs = parents(altitude, a) + parents(altitude, b);
    let q = a.len() / 4;
    assert(lhs.len() == rhs.len());
    assert forall|j: int| 0 <= j < lhs.len() implies lhs[j] == rhs[j] by {
        if j < q {
            assert(child_at(a + b, 4 * j) == child_at(a, 4 * j));
            assert(child_at(a + b, 4 * j + 1) == child_at(a, 4 * j + 1));
            assert(child_at(a + b, 4 * j + 2) == child_at(a, 4 * j + 2));
            assert(child_at(a + b, 4 * j + 3) == child_at(a, 4 * j + 3));
        } else {
            let k = j - q;
            assert(child_at(a + b, 4 * j) == child_at(b, 4 * k));
            assert(child_at(a + b, 4 * j + 1) == child_at(b, 4 * k + 1));
            assert(child_at(a + b, 4 * j + 2) == child_at(b, 4 * k + 2));
            assert(child_at(a + b, 4 * j + 3) == child_at(b, 4 * k + 3));
        }
    }
    assert(lhs =~= rhs);
}

proof fn lemma_parents_flatten(altitude: u8, chunks: Seq<Seq<Seq<u8>>>)
    requires
        forall|i: int| 0 <= i < chunks.len() ==> #[trigger] chunks[i].len() % 4 == 0,
    ensures
        parents(altitude, chunks.flatten()) == chunks.map_values(|c: Seq<Seq<u8>>| parents(altitude, c)).flatten(),
    decreases chunks.len(),
{
    let m = chunks.map_values(|c: Seq<Seq<u8>>| parents(altitude, c));
    if chunks.len() == 0 {
        assert(parents(altitude, chunks.flatten()) =~= Seq::<Seq<u8>>::empty());
        assert(m.flatten() =~= Seq::<Seq<u8>>::empty());
    } else {
        let rest = chunks.drop_first();
        assert forall|i: int| 0 <= i < rest.len() implies #[trigger] rest[i].len() % 4 == 0 by {
            assert(rest[i] == chunks[i + 1]);
        }
        lemma_parents_flatten(altitude, rest);
        assert(chunks[0].len() % 4 == 0);
        lemma_parents_concat(altitude, chunks.first(), rest.flatten());
        assert(m.drop_first() =~= rest.map_values(|c: Seq<Seq<u8>>| parents(altitude, c)));
    }
}

proof fn lemma_flatten_singletons(chunks: Seq<Seq<Seq<u8>>>)
    requires
        forall|i: int| 0 <= i < chunks.len() ==> #[trigger] chunks[i].len() == 1,
    ensures
        chunks.flatten() == chunks.map_values(|c: Seq<Seq<u8>>| c[0]),
    decreases chunks.len(),
{
    if chunks.len() == 0 {
        assert(chunks.flatten() =~= chunks.map_values(|c: Seq<Seq<u8>>| c[0]));
    } else {
        let rest = chunks.drop_first();
        assert forall|i: int| 0 <= i < rest.len() implies #[trigger] rest[i].len() == 1 by {
            assert(rest[i] == chunks[i + 1]);
        }
        lemma_flatten_singletons(rest);
        assert(chunks[0].len() == 1);
        assert(chunks.flatten() =~= chunks.map_values(|c: Seq<Seq<u8>>| c[0]));
    }
}

/// Complete trees side by side: the level `h` levels above them holds their
/// roots, one each.
proof fn lemma_level_above_flatten(altitude: nat, h: nat, chunks: Seq<Seq<Seq<u8>>>)
    requires
        forall|i: int| 0 <= i < chunks.len() ==> #[trigger] chunks[i].len() == pow4(h),
    ensures
        level_above(altitude, h, chunks.flatten()) == chunks.map_values(|c: Seq<Seq<u8>>| tree_root(altitude, h, c)),
    decreases h,
{
    if h == 0 {
        lemma_flatten_singletons(chunks);
        assert(chunks.map_values(|c: Seq<Seq<u8>>| c[0]) =~= chunks.map_values(
            |c: Seq<Seq<u8>>| tree_root(altitude, h, c),
        ));
    } else {
        let alt = (altitude + 1) as u8;
        let p = chunks.map_values(|c: Seq<Seq<u8>>| parents(alt, c));
        assert(pow4(h) == 4 * pow4((h - 1) as nat));
        assert forall|i: int| 0 <= i < chunks.len() implies #[trigger] chunks[i].len() % 4 == 0 by {
            assert(chunks[i].len() == pow4(h));
        }
        lemma_parents_flatten(alt, chunks);
        assert forall|i: int| 0 <= i < p.len() implies #[trigger] p[i].len() == pow4((h - 1) as nat) by {
            assert(chunks[i].len() == pow4(h));
        }
        lemma_level_above_flatten(altitude + 1, (h - 1) as nat, p);
        assert(level_above(altitude, h, chunks.flatten()) == level_above(altitude + 1, (h - 1) as nat, p.flatten()));
        assert forall|i: int| 0 <= i < chunks.len() implies tree_root(altitude + 1, (h - 1) as nat, #[trigger] p[i])
            == tree_root(altitude, h, chunks[i]) by {
            assert(level_above(altitude, h, chunks[i]) == level_above(altitude + 1, (h - 1) as nat, p[i]));
        }
        assert(p.map_values(|c: Seq<Seq<u8>>| tree_root(altitude + 1, (h - 1) as nat, c)) =~= chunks.map_values(
            |c: Seq<Seq<u8>>| tree_root(altitude, h, c),
        ));
    }
}

proof fn lemma_level_above_add(altitude: nat, h1: nat, h2: nat, s: Seq<Seq<u8>>)
    ensures
        level_above(altitude, h1 + h2, s) == level_above(altitude + h1, h2, level_above(altitude, h1, s)),
    decreases h1,
{
    if h1 > 0 {
        let p = parents((altitude + 1) as u8, s);
        lemma_level_above_add(altitude + 1, (h1 - 1) as nat, h2, p);
        assert(level_above(altitude, h1 + h2, s) == level_above(altitude + 1, (h1 - 1 + h2) as nat, p));
        assert(level_above(altitude, h1, s) == level_above(altitude + 1, (h1 - 1) as nat, p));
    }
}

/// Sealing `4^epoch_depth` complete blocks of `4^block_depth` commitments each
/// into an epoch, and that epoch into an empty eternity of `depth` levels,
/// gives the root of one flat tree of the combined depth over all the
/// commitments in order.
pub proof fn lemma_tiers_flatten(block_depth: nat, epoch_depth: nat, depth: nat, blocks: Seq<Seq<Seq<u8>>>)
    requires
        blocks.len() == pow4(epoch_depth),
        forall|i: int| 0 <= i < blocks.len() ==> #[trigger] blocks[i].len() == pow4(block_depth),
    ensures
        tree_root(
            block_depth + epoch_depth,
            depth,
            seq![tree_root(block_depth, epoch_depth, blocks.map_values(|b: Seq<Seq<u8>>| tree_root(0, block_depth, b)))],
        ) == tree_root(0, block_depth + epoch_depth + depth, blocks.flatten()),
{
    let flat = blocks.flatten();
    let roots = blocks.map_values(|b: Seq<Seq<u8>>| tree_root(0, block_depth, b));
    lemma_level_above_flatten(0, block_depth, blocks);
    let single = seq![roots];
    assert forall|i: int| 0 <= i < single.len() implies #[trigger] single[i].len() == pow4(epoch_depth) by {}
    lemma_level_above_flatten(block_depth, epoch_depth, single);
    assert(single.flatten() =~= roots) by {
        assert(single.drop_first() =~= Seq::<Seq<Seq<u8>>>::empty());
        assert(single.drop_first().flatten() =~= Seq::<Seq<u8>>::empty());
    }
    let epoch_root = tree_root(block_depth, epoch_depth, roots);
    assert(single.map_values(|c: Seq<Seq<u8>>| tree_root(block_depth, epoch_depth, c)) =~= seq![epoch_root]);
    lemma_level_above_add(0, block_depth, epoch_depth, flat);
    lemma_level_above_add(0, block_depth + epoch_depth, depth, flat);
}

} // verus!
