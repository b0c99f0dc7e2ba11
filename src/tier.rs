//! One tier of the tree: a quaternary Merkle tree of fixed depth, filled from
//! the left, whose root is kept up to date incrementally.
//!
//! Level `0` holds the items inserted so far; level `l + 1` holds the hash of
//! each complete group of four at level `l`. The last `len % 4` hashes of each
//! level are the completed siblings of the frontier at that level: the root
//! combines them with the frontier's active child, and pads with the empty
//! value, at no more than one node per level.
use vstd::prelude::*;
use crate::hash::{Digest, combine, combine_spec, empty, empty_hash};
use crate::three::{Three, IntoElems};

verus! {

/// The hashes that an array of hashes stands for.
pub open spec fn hashes(v: Seq<Digest>) -> Seq<Seq<u8>> {
    v.map_values(|h: Digest| h@)
}

/// The child at index `i` of a level: the hash there, or the empty value past
/// its end.
pub open spec fn child_at(s: Seq<Seq<u8>>, i: int) -> Seq<u8> {
    if 0 <= i < s.len() {
        s[i]
    } else {
        empty_hash()
    }
}

/// The hash of the `j`-th group of four in `s`, made at `altitude`.
pub open spec fn group_hash(altitude: u8, s: Seq<Seq<u8>>, j: int) -> Seq<u8> {
    combine_spec(altitude, child_at(s, 4 * j), child_at(s, 4 * j + 1), child_at(s, 4 * j + 2), child_at(s, 4 * j + 3))
}

/// The level above `s`: one node for each group of four, the last group padded
/// with empty values.
pub open spec fn parents(altitude: u8, s: Seq<Seq<u8>>) -> Seq<Seq<u8>> {
    Seq::new(((s.len() + 3) / 4) as nat, |j: int| group_hash(altitude, s, j))
}

/// The nodes above the complete groups of four in `s` only.
pub open spec fn complete_parents(altitude: u8, s: Seq<Seq<u8>>) -> Seq<Seq<u8>> {
    Seq::new(s.len() / 4, |j: int| group_hash(altitude, s, j))
}

/// The level `up` levels above `s`, where `s` stands at `altitude`, hashed
/// from scratch.
pub open spec fn level_above(altitude: nat, up: nat, s: Seq<Seq<u8>>) -> Seq<Seq<u8>>
    decreases up,
{
    if up == 0 {
        s
    } else {
        level_above(altitude + 1, (up - 1) as nat, parents((altitude + 1) as u8, s))
    }
}

/// The root of a tree of `depth` levels over `leaves`, which stand at
/// altitude `base`: the whole tree hashed bottom-up, with empty padding.
pub open spec fn tree_root(base: nat, depth: nat, leaves: Seq<Seq<u8>>) -> Seq<u8> {
    let top = level_above(base, depth, leaves);
    if top.len() == 0 {
        empty_hash()
    } else {
        top[0]
    }
}

/// The index at `up` levels above of the node that holds index `index`.
pub open spec fn index_above(index: nat, up: nat) -> nat
    decreases up,
{
    if up == 0 {
        index
    } else {
        index_above(index, (up - 1) as nat) / 4
    }
}

/// The root that an authentication path leads to: `node` stands at altitude
/// `base` and index `index`, and `path` holds three siblings for each of the
/// `up` levels above it, from the lowest up, in left-to-right order.
pub open spec fn auth_root(base: nat, up: nat, node: Seq<u8>, index: nat, path: Seq<Seq<u8>>) -> Seq<u8>
    decreases up,
{
    if up == 0 {
        node
    } else {
        let below = auth_root(base, (up - 1) as nat, node, index, path.subrange(0, 3 * (up - 1)));
        let group = path.subrange(3 * (up - 1), 3 * up as int).insert((index_above(index, (up - 1) as nat) % 4) as int, below);
        combine_spec((base + up) as u8, group[0], group[1], group[2], group[3])
    }
}

/// `4^n`: the number of leaves of a complete quaternary tree of `n` levels.
pub open spec fn pow4(n: nat) -> nat
    decreases n,
{
    if n == 0 {
        1
    } else {
        4 * pow4((n - 1) as nat)
    }
}

proof fn lemma_pow4_positive(n: nat)
    ensures
        pow4(n) > 0,
    decreases n,
{
    if n > 0 {
        lemma_pow4_positive((n - 1) as nat);
    }
}

proof fn lemma_pow4_grows(a: nat, b: nat)
    requires
        a <= b,
    ensures
        pow4(a) <= pow4(b),
    decreases b,
{
    if a < b {
        lemma_pow4_grows(a, (b - 1) as nat);
        lemma_pow4_positive((b - 1) as nat);
    }
}

/// An optional hash as a sequence of zero or one hash.
pub open spec fn opt_seq(o: Option<Digest>) -> Seq<Seq<u8>> {
    match o {
        Some(h) => seq![h@],
        None => seq![],
    }
}

/// Level `l + 1` holds the hashes of the complete groups of level `l`.
pub open spec fn linked(base: nat, levels: Seq<Vec<Digest>>, l: int) -> bool {
    hashes(levels[l + 1]@) == complete_parents((base + l + 1) as u8, hashes(levels[l]@))
}

proof fn lemma_hashes_push(v: Seq<Digest>, h: Digest)
    ensures
        hashes(v.push(h)) == hashes(v).push(h@),
{
    assert(hashes(v.push(h)) =~= hashes(v).push(h@));
}

proof fn lemma_level_above_succ(altitude: nat, up: nat, s: Seq<Seq<u8>>)
    ensures
        level_above(altitude, up + 1, s) == parents((altitude + up + 1) as u8, level_above(altitude, up, s)),
    decreases up,
{
    let p = parents((altitude + 1) as u8, s);
    assert(level_above(altitude, up + 1, s) == level_above(altitude + 1, up, p));
    if up > 0 {
        lemma_level_above_succ(altitude + 1, (up - 1) as nat, p);
        assert(level_above(altitude, up, s) == level_above(altitude + 1, (up - 1) as nat, p));
    } else {
        assert(level_above(altitude + 1, 0, p) == p);
    }
}

/// The level above `s` followed by at most one more node `o`: the complete
/// groups of `s`, then one node for what is left, if anything is.
proof fn lemma_parents_split(altitude: u8, s: Seq<Seq<u8>>, o: Seq<Seq<u8>>)
    requires
        o.len() <= 1,
    ensures
        ({
            let rest = s.subrange(s.len() - s.len() % 4, s.len() as int) + o;
            parents(altitude, s + o) == complete_parents(altitude, s) + (if rest.len() > 0 {
                seq![combine_spec(altitude, child_at(rest, 0), child_at(rest, 1), child_at(rest, 2), child_at(rest, 3))]
            } else {
                Seq::<Seq<u8>>::empty()
            })
        }),
{
    let rest = s.subrange(s.len() - s.len() % 4, s.len() as int) + o;
    let q = s.len() / 4;
    let tail = if rest.len() > 0 {
        seq![combine_spec(altitude, child_at(rest, 0), child_at(rest, 1), child_at(rest, 2), child_at(rest, 3))]
    } else {
        Seq::<Seq<u8>>::empty()
    };
    let lhs = parents(altitude, s + o);
    let rhs = complete_parents(altitude, s) + tail;
    assert(lhs.len() == rhs.len());
    assert forall|j: int| 0 <= j < lhs.len() implies lhs[j] == rhs[j] by {
        if j < q {
            assert(child_at(s + o, 4 * j) == child_at(s, 4 * j));
            assert(child_at(s + o, 4 * j + 1) == child_at(s, 4 * j + 1));
            assert(child_at(s + o, 4 * j + 2) == child_at(s, 4 * j + 2));
            assert(child_at(s + o, 4 * j + 3) == child_at(s, 4 * j + 3));
        } else {
            assert(j == q);
            assert(child_at(s + o, 4 * j) == child_at(rest, 0));
            assert(child_at(s + o, 4 * j + 1) == child_at(rest, 1));
            assert(child_at(s + o, 4 * j + 2) == child_at(rest, 2));
            assert(child_at(s + o, 4 * j + 3) == child_at(rest, 3));
        }
    }
    assert(lhs =~= rhs);
}

/// One more item at a level adds a complete group above it exactly when it
/// fills a group of four.
proof fn lemma_complete_parents_push(altitude: u8, s: Seq<Seq<u8>>, x: Seq<u8>)
    ensures
        (s.len() + 1) % 4 != 0 ==> complete_parents(altitude, s.push(x)) == complete_parents(altitude, s),
        (s.len() + 1) % 4 == 0 ==> complete_parents(altitude, s.push(x)) == complete_parents(altitude, s).push(
            combine_spec(altitude, s.push(x)[s.len() - 3], s.push(x)[s.len() - 2], s.push(x)[s.len() - 1], x),
        ),
{
    let t = s.push(x);
    let a = complete_parents(altitude, t);
    let b = complete_parents(altitude, s);
    assert forall|j: int| 0 <= j < b.len() implies a[j] == b[j] by {
        assert(child_at(t, 4 * j) == child_at(s, 4 * j));
        assert(child_at(t, 4 * j + 1) == child_at(s, 4 * j + 1));
        assert(child_at(t, 4 * j + 2) == child_at(s, 4 * j + 2));
        assert(child_at(t, 4 * j + 3) == child_at(s, 4 * j + 3));
    }
    if (s.len() + 1) % 4 != 0 {
        assert(a =~= b);
    } else {
        let j = s.len() / 4;
        assert(4 * j + 3 == s.len());
        assert(a =~= b.push(combine_spec(altitude, t[s.len() - 3], t[s.len() - 2], t[s.len() - 1], x)));
    }
}

/// Pushes `h` onto level `l`.
fn push_at(levels: &mut Vec<Vec<Digest>>, l: usize, h: Digest)
    requires
        l < old(levels)@.len(),
    ensures
        final(levels)@.len() == old(levels)@.len(),
        forall|i: int| 0 <= i < old(levels)@.len() && i != l ==> final(levels)@[i] == old(levels)@[i],
        final(levels)@[l as int]@ == old(levels)@[l as int]@.push(h),
{
    let mut row = levels.remove(l);
    row.push(h);
    levels.insert(l, row);
}

/// The completed siblings at the end of a level: its last `len % 4` hashes.
fn tail_of(row: &Vec<Digest>) -> (r: Three<Digest>)
    ensures
        r.wf(),
        r@ == row@.subrange(row@.len() - row@.len() % 4, row@.len() as int),
{
    let n = row.len();
    let start = n - n % 4;
    let mut t: Three<Digest> = Three::new();
    let mut i: usize = start;
    while i < n
        invariant
            start <= i <= n,
            n == row@.len(),
            start == n - n % 4,
            t.wf(),
            t@ == row@.subrange(start as int, i as int),
        decreases n - i,
    {
        let x = row[i];
        assert(row@.subrange(start as int, i + 1) =~= row@.subrange(start as int, i as int).push(x));
        t = t.push(x).unwrap();
        i = i + 1;
    }
    t
}

/// The hash of the frontier node at `altitude`: its completed siblings, then
/// its active child if it has one, then empty values.
fn frontier_hash(altitude: u8, siblings: Three<Digest>, active: Option<Digest>) -> (r: Digest)
    requires
        siblings.wf(),
    ensures
        ({
            let g = hashes(siblings@) + opt_seq(active);
            r@ == combine_spec(altitude, child_at(g, 0), child_at(g, 1), child_at(g, 2), child_at(g, 3))
        }),
{
    let ghost g = hashes(siblings@) + opt_seq(active);
    let e = empty();
    let a = match active {
        Some(h) => h,
        None => e,
    };
    match siblings.into_elems() {
        IntoElems::_0(_) => {
            assert(child_at(g, 0) == a@);
            combine(altitude, &a, &e, &e, &e)
        },
        IntoElems::_1(x) => {
            assert(child_at(g, 0) == x[0]@);
            assert(child_at(g, 1) == a@);
            combine(altitude, &x[0], &a, &e, &e)
        },
        IntoElems::_2(x) => {
            assert(child_at(g, 1) == x[1]@);
            assert(child_at(g, 2) == a@);
            combine(altitude, &x[0], &x[1], &a, &e)
        },
        IntoElems::_3(x) => {
            assert(child_at(g, 2) == x[2]@);
            assert(child_at(g, 3) == a@);
            combine(altitude, &x[0], &x[1], &x[2], &a)
        },
    }
}

/// The child at `start + m` of a level followed by the frontier node `cur`.
fn child_of(row: &Vec<Digest>, cur: Option<Digest>, start: usize, m: usize) -> (r: Digest)
    requires
        start <= row@.len(),
    ensures
        r@ == child_at(hashes(row@) + opt_seq(cur), start + m),
{
    let n = row.len() - start;
    if m < n {
        row[start + m]
    } else if m == n && cur.is_some() {
        cur.unwrap()
    } else {
        empty()
    }
}

/// A quaternary Merkle tree of `depth` levels whose leaves stand at altitude
/// `base`, filled from the left.
#[derive(Debug, Clone, PartialEq, Eq)]
pub struct Tier {
    base: u8,
    depth: u8,
    levels: Vec<Vec<Digest>>,
    kept: Vec<bool>,
}

impl Tier {
    /// The altitude of the leaves.
    pub closed spec fn base(&self) -> nat {
        self.base as nat
    }

    /// The number of levels above the leaves.
    pub closed spec fn depth(&self) -> nat {
        self.depth as nat
    }

    /// The leaves inserted so far, in order.
    pub closed spec fn leaves(&self) -> Seq<Seq<u8>> {
        hashes(self.levels@[0]@)
    }

    /// For each leaf, whether it is still kept for witnessing.
    pub closed spec fn kept(&self) -> Seq<bool> {
        self.kept@
    }

    /// No more leaves fit: the top level holds the root of a complete tree.
    pub closed spec fn is_full(&self) -> bool {
        self.levels@[self.depth as int]@.len() > 0
    }

    /// The root, hashed from scratch.
    pub open spec fn root_spec(&self) -> Seq<u8> {
        tree_root(self.base(), self.depth(), self.leaves())
    }

    /// Each level holds the hashes of the complete groups of the one below;
    /// the top holds at most the root of a complete tree, and only once every
    /// level below it is made of complete groups; each leaf has its mark.
    pub closed spec fn wf(&self) -> bool {
        &&& self.levels@.len() == self.depth + 1
        &&& self.base + self.depth <= 255
        &&& forall|l: int| 0 <= l < self.depth ==> #[trigger] linked(self.base as nat, self.levels@, l)
        &&& self.levels@[self.depth as int]@.len() <= 1
        &&& self.levels@[self.depth as int]@.len() == 1 ==> forall|l: int|
            0 <= l < self.depth ==> #[trigger] self.levels@[l]@.len() % 4 == 0
        &&& self.kept@.len() == self.levels@[0]@.len()
    }

    /// An empty tree of `depth` levels over leaves at altitude `base`.
    pub fn new(base: u8, depth: u8) -> (r: Self)
        requires
            base + depth <= 255,
        ensures
            r.wf(),
            r.base() == base,
            r.depth() == depth,
            r.leaves() == Seq::<Seq<u8>>::empty(),
            r.kept() == Seq::<bool>::empty(),
            !r.is_full(),
    {
        let mut levels: Vec<Vec<Digest>> = Vec::new();
        let mut l: usize = 0;
        while l <= depth as usize
            invariant
                l <= depth + 1,
                levels@.len() == l,
                forall|m: int| 0 <= m < l ==> (#[trigger] levels@[m])@.len() == 0,
            decreases depth + 1 - l,
        {
            levels.push(Vec::new());
            l = l + 1;
        }
        let r = Tier { base, depth, levels, kept: Vec::new() };
        assert forall|m: int| 0 <= m < depth implies #[trigger] linked(base as nat, r.levels@, m) by {
            assert(hashes(r.levels@[m + 1]@) =~= complete_parents((base + m + 1) as u8, hashes(r.levels@[m]@)));
        }
        assert(r.leaves() =~= Seq::<Seq<u8>>::empty());
        r
    }

    /// The top of the tree fits the altitudes that a hash can be made at.
    pub proof fn lemma_altitudes(&self)
        requires
            self.wf(),
        ensures
            self.base() + self.depth() <= 255,
    {
    }

    proof fn lemma_level_len(&self, l: nat)
        requires
            self.wf(),
            l <= self.depth(),
        ensures
            self.levels@[l as int]@.len() == self.levels@[0]@.len() / pow4(l),
        decreases l,
    {
        if l > 0 {
            self.lemma_level_len((l - 1) as nat);
            assert(linked(self.base as nat, self.levels@, l - 1));
            assert(hashes(self.levels@[l as int]@).len() == self.levels@[l as int]@.len());
            lemma_pow4_positive((l - 1) as nat);
            vstd::arithmetic::div_mod::lemma_div_denominator(self.levels@[0]@.len() as int, pow4((l - 1) as nat) as int, 4);
            assert(hashes(self.levels@[l - 1]@).len() == self.levels@[l - 1]@.len());
            assert(pow4(l) == pow4((l - 1) as nat) * 4);
        } else {
            assert(pow4(0) == 1);
        }
    }

    proof fn lemma_full_level_len(&self, l: nat)
        requires
            self.wf(),
            self.is_full(),
            l <= self.depth(),
        ensures
            self.levels@[l as int]@.len() == pow4((self.depth() - l) as nat),
        decreases self.depth() - l,
    {
        if l < self.depth() {
            self.lemma_full_level_len(l + 1);
            assert(linked(self.base as nat, self.levels@, l as int));
            assert(hashes(self.levels@[l + 1 as int]@).len() == self.levels@[l + 1 as int]@.len());
            let n = self.levels@[l as int]@.len() as int;
            assert(n % 4 == 0);
            vstd::arithmetic::div_mod::lemma_fundamental_div_mod(n, 4);
            assert(pow4((self.depth() - l) as nat) == 4 * pow4((self.depth() - (l + 1)) as nat));
        }
    }

    /// A tree of `depth` levels holds at most `4^depth` leaves, and it is full
    /// exactly when it holds that many.
    pub proof fn lemma_capacity(&self)
        requires
            self.wf(),
        ensures
            self.leaves().len() <= pow4(self.depth()),
            self.is_full() <==> self.leaves().len() == pow4(self.depth()),
    {
        let n = self.levels@[0]@.len();
        assert(self.leaves().len() == n);
        lemma_pow4_positive(self.depth());
        if self.is_full() {
            self.lemma_full_level_len(0);
            assert(n == pow4(self.depth()));
        } else {
            let p = pow4(self.depth()) as int;
            self.lemma_level_len(self.depth());
            assert(n as int / p == 0);
            vstd::arithmetic::div_mod::lemma_fundamental_div_mod(n as int, p);
            assert(p * (n as int / p) == 0);
            vstd::arithmetic::div_mod::lemma_mod_pos_bound(n as int, p);
            assert(n < p);
        }
    }

    /// Each leaf has its mark.
    pub proof fn lemma_kept_len(&self)
        requires
            self.wf(),
        ensures
            self.kept().len() == self.leaves().len(),
    {
    }

    /// Whether `k` more leaves fit.
    pub fn has_room(&self, k: usize) -> (r: bool)
        requires
            self.wf(),
        ensures
            r == (self.leaves().len() + k <= pow4(self.depth())),
    {
        let target: u128 = self.levels[0].len() as u128 + k as u128;
        let d = self.depth as usize;
        let mut c: u128 = 1;
        let mut i: usize = 0;
        while i < d && c < target
            invariant
                i <= d,
                d == self.depth,
                c == pow4(i as nat),
                target == self.leaves().len() + k,
                target <= 2 * 0xffff_ffff_ffff_ffffu128,
            decreases d - i,
        {
            c = c * 4;
            i = i + 1;
        }
        proof {
            lemma_pow4_grows(i as nat, d as nat);
        }
        c >= target
    }

    /// Whether any leaf is still kept.
    pub fn any_kept(&self) -> (r: bool)
        requires
            self.wf(),
        ensures
            r == exists|i: int| 0 <= i < self.kept().len() && self.kept()[i],
    {
        let mut i: usize = 0;
        while i < self.kept.len()
            invariant
                i <= self.kept@.len(),
                forall|j: int| 0 <= j < i ==> !self.kept@[j],
            decreases self.kept@.len() - i,
        {
            if self.kept[i] {
                assert(self.kept()[i as int]);
                return true;
            }
            i = i + 1;
        }
        false
    }

    /// The number of levels above the leaves.
    pub fn depth_of(&self) -> (r: u8)
        ensures
            r == self.depth(),
    {
        self.depth
    }

    /// The number of leaves inserted so far.
    pub fn len(&self) -> (r: usize)
        requires
            self.wf(),
        ensures
            r == self.leaves().len(),
    {
        self.levels[0].len()
    }

    /// Whether no more leaves fit.
    pub fn full(&self) -> (r: bool)
        requires
            self.wf(),
        ensures
            r == self.is_full(),
    {
        self.levels[self.depth as usize].len() > 0
    }

    /// Appends a leaf, kept for witnessing, and returns its index; or returns
    /// `None`, and changes nothing, if the tree is full.
    pub fn insert(&mut self, item: Digest) -> (r: Option<usize>)
        requires
            old(self).wf(),
        ensures
            final(self).wf(),
            final(self).base() == old(self).base(),
            final(self).depth() == old(self).depth(),
            old(self).is_full() ==> r is None && *final(self) == *old(self),
            !old(self).is_full() ==> r == Some(old(self).leaves().len() as usize)
                && final(self).leaves() == old(self).leaves().push(item@)
                && final(self).kept() == old(self).kept().push(true),
            old(self).is_full() <==> old(self).leaves().len() == pow4(old(self).depth()),
            final(self).is_full() <==> final(self).leaves().len() == pow4(final(self).depth()),
    {
        proof {
            self.lemma_capacity();
        }
        let d = self.depth as usize;
        if self.levels[d].len() > 0 {
            return None;
        }
        let position = self.levels[0].len();
        let ghost base = self.base as nat;
        let ghost old_leaves = self.leaves();
        let ghost old_levels = self.levels@;
        push_at(&mut self.levels, 0, item);
        self.kept.push(true);
        proof {
            lemma_hashes_push(old_levels[0]@, item);
            if d > 0 {
                assert(linked(base, old_levels, 0));
                assert(hashes(self.levels@[0]@).drop_last() =~= hashes(old_levels[0]@));
            }
            assert forall|m: int| 0 <= m < d && m != 0 implies #[trigger] linked(base, self.levels@, m) by {
                assert(linked(base, old_levels, m));
            }
        }
        let mut l: usize = 0;
        loop
            invariant
                self.base == old(self).base,
                self.depth == old(self).depth,
                d == self.depth,
                base == self.base,
                base + d <= 255,
                l <= d,
                self.levels@.len() == d + 1,
                self.kept@ == old(self).kept@.push(true),
                hashes(self.levels@[0]@) == old_leaves.push(item@),
                forall|m: int| 0 <= m < d && m != l ==> #[trigger] linked(base, self.levels@, m),
                l < d ==> hashes(self.levels@[l + 1]@) == complete_parents(
                    (base + l + 1) as u8,
                    hashes(self.levels@[l as int]@).drop_last(),
                ),
                self.levels@[l as int]@.len() > 0,
                forall|m: int| 0 <= m < l ==> #[trigger] self.levels@[m]@.len() % 4 == 0,
                l < d ==> self.levels@[d as int]@.len() == 0,
                l == d ==> self.levels@[d as int]@.len() == 1,
            ensures
                self.levels@.len() == d + 1,
                self.kept@ == old(self).kept@.push(true),
                hashes(self.levels@[0]@) == old_leaves.push(item@),
                forall|m: int| 0 <= m < d ==> #[trigger] linked(base, self.levels@, m),
                self.levels@[d as int]@.len() <= 1,
                self.levels@[d as int]@.len() == 1 ==> forall|m: int|
                    0 <= m < d ==> #[trigger] self.levels@[m]@.len() % 4 == 0,
            decreases d - l,
        {
            if l == d {
                break;
            }
            let n = self.levels[l].len();
            let ghost s = hashes(self.levels@[l as int]@);
            proof {
                lemma_complete_parents_push((base + l + 1) as u8, s.drop_last(), s.last());
                assert(s.drop_last().push(s.last()) =~= s);
            }
            if n % 4 != 0 {
                assert(linked(base, self.levels@, l as int));
                break;
            }
            let h = combine(
                (self.base as usize + l + 1) as u8,
                &self.levels[l][n - 4],
                &self.levels[l][n - 3],
                &self.levels[l][n - 2],
                &self.levels[l][n - 1],
            );
            let ghost before = self.levels@;
            push_at(&mut self.levels, l + 1, h);
            proof {
                lemma_hashes_push(before[l + 1]@, h);
                assert(linked(base, self.levels@, l as int));
                if l + 1 < d {
                    assert(linked(base, before, l + 1));
                    assert(hashes(self.levels@[l + 1]@).drop_last() =~= hashes(before[l + 1]@));
                }
                assert forall|m: int| 0 <= m < d && m != l + 1 implies #[trigger] linked(base, self.levels@, m) by {
                    if m != l {
                        assert(linked(base, before, m));
                    }
                }
            }
            l = l + 1;
        }
        proof {
            self.lemma_capacity();
        }
        Some(position)
    }

    /// Stops keeping the leaf at `index` for witnessing. Returns whether it was
    /// kept until now; the leaves, and so the root, stay as they are.
    pub fn forget(&mut self, index: usize) -> (r: bool)
        requires
            old(self).wf(),
        ensures
            final(self).wf(),
            final(self).base() == old(self).base(),
            final(self).depth() == old(self).depth(),
            final(self).leaves() == old(self).leaves(),
            final(self).is_full() == old(self).is_full(),
            r == (index < old(self).leaves().len() && old(self).kept()[index as int]),
            index < old(self).leaves().len() ==> final(self).kept() == old(self).kept().update(index as int, false),
            index >= old(self).leaves().len() ==> final(self).kept() == old(self).kept(),
    {
        if index < self.kept.len() {
            let was = self.kept[index];
            self.kept.set(index, false);
            was
        } else {
            false
        }
    }

    /// The authentication path of the leaf at `index`: three sibling hashes for
    /// each level, from the leaves up, in left-to-right order. `None` if there
    /// is no such leaf or it is no longer kept.
    pub fn witness(&self, index: usize) -> (r: Option<Vec<Digest>>)
        requires
            self.wf(),
        ensures
            r is Some <==> index < self.leaves().len() && self.kept()[index as int],
            r matches Some(path) ==> path@.len() == 3 * self.depth()
                && auth_root(self.base(), self.depth(), self.leaves()[index as int], index as nat, hashes(path@))
                == self.root_spec(),
    {
        if index >= self.kept.len() || !self.kept[index] {
            return None;
        }
        assert(self.leaves() + opt_seq(None) =~= self.leaves());
        Some(self.path_with(index, None))
    }

    /// The authentication path of the leaf at `index` in the tree that has
    /// `pending` appended as one more leaf, as [`Self::root_with`] hashes it;
    /// the leaf may be `pending` itself. Marks are not looked at.
    #[verifier::spinoff_prover]
    #[verifier::rlimit(50)]
    pub fn path_with(&self, index: usize, pending: Option<Digest>) -> (r: Vec<Digest>)
        requires
            self.wf(),
            pending is Some ==> !self.is_full(),
            index < (self.leaves() + opt_seq(pending)).len(),
        ensures
            ({
                let all = self.leaves() + opt_seq(pending);
                &&& r@.len() == 3 * self.depth()
                &&& auth_root(self.base(), self.depth(), all[index as int], index as nat, hashes(r@))
                    == tree_root(self.base(), self.depth(), all)
            }),
    {
        let d = self.depth as usize;
        let ghost base = self.base as nat;
        let ghost leaf = (self.leaves() + opt_seq(pending))[index as int];
        let mut path: Vec<Digest> = Vec::new();
        let ghost all = self.leaves() + opt_seq(pending);
        let mut cur: Option<Digest> = pending;
        let mut i: usize = index;
        let mut l: usize = 0;
        assert(hashes(path@) =~= Seq::<Seq<u8>>::empty());
        while l < d
            invariant
                self.wf(),
                d == self.depth,
                base == self.base,
                l <= d,
                i == index_above(index as nat, l as nat),
                level_above(base, l as nat, all) == hashes(self.levels@[l as int]@) + opt_seq(cur),
                i < (hashes(self.levels@[l as int]@) + opt_seq(cur)).len(),
                path@.len() == 3 * l,
                auth_root(base, l as nat, leaf, index as nat, hashes(path@))
                    == (hashes(self.levels@[l as int]@) + opt_seq(cur))[i as int],
                self.levels@[d as int]@.len() == 1 ==> cur is None,
            decreases d - l,
        {
            let row = &self.levels[l];
            let n = row.len();
            let altitude = (self.base as usize + l + 1) as u8;
            let ghost p = hashes(row@) + opt_seq(cur);
            let ghost old_path = path@;
            let k = i % 4;
            let start = i - k;
            let c0 = child_of(row, cur, start, 0);
            let c1 = child_of(row, cur, start, 1);
            let c2 = child_of(row, cur, start, 2);
            let c3 = child_of(row, cur, start, 3);
            if k == 0 {
                path.push(c1);
                path.push(c2);
                path.push(c3);
            } else if k == 1 {
                path.push(c0);
                path.push(c2);
                path.push(c3);
            } else if k == 2 {
                path.push(c0);
                path.push(c1);
                path.push(c3);
            } else {
                path.push(c0);
                path.push(c1);
                path.push(c2);
            }
            proof {
                let hp = hashes(path@);
                assert(hp.subrange(0, 3 * l) =~= hashes(old_path));
                let group = hp.subrange(3 * l, 3 * l + 3).insert(k as int, p[i as int]);
                assert(group =~= seq![c0@, c1@, c2@, c3@]);
                assert(index_above(index as nat, (l + 1) as nat) == i / 4);
                lemma_level_above_succ(base, l as nat, all);
                assert(parents(altitude, p)[i as int / 4] == group_hash(altitude, p, i as int / 4));
                lemma_parents_split(altitude, hashes(row@), opt_seq(cur));
                assert(linked(base, self.levels@, l as int));
                assert(hashes(row@).subrange(n - n % 4, n as int) =~= hashes(row@.subrange(n - n % 4, n as int)));
                if self.levels@[d as int]@.len() == 1 {
                    assert(self.levels@[l as int]@.len() % 4 == 0);
                }
            }
            if n % 4 != 0 || cur.is_some() {
                let t = tail_of(row);
                cur = Some(frontier_hash(altitude, t, cur));
                assert(hashes(self.levels@[l + 1]@) + opt_seq(cur) =~= complete_parents(altitude, hashes(row@)) + opt_seq(cur));
            } else {
                assert(hashes(self.levels@[l + 1]@) + opt_seq(cur) =~= complete_parents(altitude, hashes(row@)));
            }
            i = i / 4;
            l = l + 1;
        }
        path
    }

    /// The root, computed from the frontier: at most one hash per level.
    pub fn root(&self) -> (r: Digest)
        requires
            self.wf(),
        ensures
            r@ == self.root_spec(),
    {
        assert(self.leaves() + opt_seq(None) =~= self.leaves());
        self.root_with(None)
    }

    /// The root that the tree would have with `pending` appended as one more
    /// leaf, without appending it.
    pub fn root_with(&self, pending: Option<Digest>) -> (r: Digest)
        requires
            self.wf(),
        ensures
            r@ == tree_root(self.base(), self.depth(), self.leaves() + opt_seq(pending)),
    {
        let d = self.depth as usize;
        let ghost base = self.base as nat;
        let ghost all = self.leaves() + opt_seq(pending);
        let mut cur: Option<Digest> = pending;
        let mut l: usize = 0;
        while l < d
            invariant
                self.wf(),
                d == self.depth,
                base == self.base,
                l <= d,
                level_above(base, l as nat, all) == hashes(self.levels@[l as int]@) + opt_seq(cur),
            decreases d - l,
        {
            let row = &self.levels[l];
            let n = row.len();
            let altitude = (self.base as usize + l + 1) as u8;
            proof {
                lemma_level_above_succ(base, l as nat, all);
                lemma_parents_split(altitude, hashes(row@), opt_seq(cur));
                assert(linked(base, self.levels@, l as int));
                assert(hashes(row@).subrange(n - n % 4, n as int) =~= hashes(row@.subrange(n - n % 4, n as int)));
            }
            if n % 4 != 0 || cur.is_some() {
                let t = tail_of(row);
                cur = Some(frontier_hash(altitude, t, cur));
                assert(hashes(self.levels@[l + 1]@) + opt_seq(cur) =~= complete_parents(altitude, hashes(row@)) + opt_seq(cur));
            } else {
                assert(hashes(self.levels@[l + 1]@) + opt_seq(cur) =~= complete_parents(altitude, hashes(row@)));
            }
            l = l + 1;
        }
        let top = &self.levels[d];
        if top.len() > 0 {
            top[0]
        } else {
            match cur {
                Some(h) => h,
                None => empty(),
            }
        }
    }
}

} // verus!
