use vstd::prelude::*;
use crate::bytes::append_bytes;
use crate::crypto::{sha512, sha512_of};
use crate::message::value_bytes;

verus! {

/// Length of every node hash in the tree.
pub const HASH_LENGTH: usize = 32;

/// SHA-512 truncated to its first 32 bytes.
pub open spec fn digest32(data: Seq<u8>) -> Seq<u8> {
    sha512_of(data).take(32)
}

/// Hash of a leaf: domain byte `0x00`, then the data.
pub open spec fn leaf_hash(data: Seq<u8>) -> Seq<u8> {
    digest32(seq![0u8] + data)
}

/// Hash of an internal node: domain byte `0x01`, then both children.
pub open spec fn node_hash(left: Seq<u8>, right: Seq<u8>) -> Seq<u8> {
    digest32(seq![1u8] + left + right)
}

/// The level above `level`: neighbours are paired and hashed; a last node
/// without a partner is promoted unchanged.
pub open spec fn next_level(level: Seq<Seq<u8>>) -> Seq<Seq<u8>> {
    Seq::new(
        ((level.len() + 1) / 2) as nat,
        |i: int|
            if 2 * i + 1 < level.len() {
                node_hash(level[2 * i], level[2 * i + 1])
            } else {
                level[2 * i]
            },
    )
}

/// The root of the tree whose lowest level is `level`.
pub open spec fn root_of(level: Seq<Seq<u8>>) -> Seq<u8>
    decreases level.len(),
{
    if level.len() <= 1 {
        level[0]
    } else {
        root_of(next_level(level))
    }
}

/// Whether the node at `i` in a level of `n` nodes has a sibling.
pub open spec fn has_sibling(n: int, i: int) -> bool {
    i % 2 == 1 || i + 1 < n
}

/// The position of the sibling of the node at `i`.
pub open spec fn sibling(i: int) -> int {
    if i % 2 == 0 {
        i + 1
    } else {
        i - 1
    }
}

/// The sibling hashes from the node at `i` up to the root, bottom-up; a
/// level where the node has no sibling contributes nothing.
pub open spec fn path_nodes(level: Seq<Seq<u8>>, i: int) -> Seq<Seq<u8>>
    decreases level.len(),
{
    if level.len() <= 1 {
        Seq::empty()
    } else {
        let rest = path_nodes(next_level(level), i / 2);
        if has_sibling(level.len() as int, i) {
            seq![level[sibling(i)]] + rest
        } else {
            rest
        }
    }
}

/// What a client computes from its leaf hash `h` at `i` in a batch of `n`
/// and the sibling hashes of its path.
pub open spec fn fold_path(h: Seq<u8>, i: int, n: int, path: Seq<Seq<u8>>) -> Seq<u8>
    decreases n,
{
    if n <= 1 {
        h
    } else if !has_sibling(n, i) || path.len() == 0 {
        fold_path(h, i / 2, (n + 1) / 2, path)
    } else {
        let up = if i % 2 == 0 {
            node_hash(h, path[0])
        } else {
            node_hash(path[0], h)
        };
        fold_path(up, i / 2, (n + 1) / 2, path.drop_first())
    }
}

/// `2` to the power `k`.
pub open spec fn pow2(k: nat) -> nat
    decreases k,
{
    if k == 0 {
        1
    } else {
        2 * pow2((k - 1) as nat)
    }
}

/// For every leaf of every non-empty tree, folding its path against its
/// leaf hash gives the root.
pub proof fn lemma_path_reconstructs_root(level: Seq<Seq<u8>>, i: int)
    requires
        0 <= i < level.len(),
    ensures
        fold_path(level[i], i, level.len() as int, path_nodes(level, i)) == root_of(level),
    decreases level.len(),
{
    if level.len() > 1 {
        let next = next_level(level);
        let rest = path_nodes(next, i / 2);
        lemma_path_reconstructs_root(next, i / 2);
        if has_sibling(level.len() as int, i) {
            let p = seq![level[sibling(i)]] + rest;
            assert(p[0] == level[sibling(i)]);
            assert(p.drop_first() =~= rest);
            if i % 2 == 0 {
                assert(next[i / 2] == node_hash(level[i], level[i + 1]));
            } else {
                assert(next[i / 2] == node_hash(level[i - 1], level[i]));
            }
        } else {
            assert(next[i / 2] == level[i]);
        }
    }
}

/// In a tree of `2^k` leaves every path holds exactly `k` sibling hashes.
pub proof fn lemma_path_len_power_of_two(level: Seq<Seq<u8>>, i: int, k: nat)
    requires
        level.len() == pow2(k),
        0 <= i < level.len(),
    ensures
        path_nodes(level, i).len() == k,
    decreases k,
{
    if k > 0 {
        assert(pow2(k) == 2 * pow2((k - 1) as nat));
        let next = next_level(level);
        assert(next.len() == pow2((k - 1) as nat));
        lemma_path_len_power_of_two(next, i / 2, (k - 1) as nat);
        if pow2((k - 1) as nat) == 0 {
            lemma_pow2_pos((k - 1) as nat);
        }
        assert(has_sibling(level.len() as int, i));
    }
}

/// A path never holds more sibling hashes than the tree has leaves, less one.
pub proof fn lemma_path_len_bound(level: Seq<Seq<u8>>, i: int)
    requires
        level.len() >= 1,
    ensures
        path_nodes(level, i).len() <= level.len() - 1,
    decreases level.len(),
{
    if level.len() > 1 {
        lemma_path_len_bound(next_level(level), i / 2);
    }
}

/// A tree of one leaf has that leaf's hash as its root and an empty path.
pub proof fn lemma_single_leaf(data: Seq<u8>)
    ensures
        root_of(leaf_hashes(seq![data])) == leaf_hash(data),
        path_nodes(leaf_hashes(seq![data]), 0) == Seq::<Seq<u8>>::empty(),
{
    assert(leaf_hashes(seq![data])[0] == leaf_hash(data));
}

/// After a reset the tree is empty whatever it held, so pushing `data`
/// leaves exactly the leaf hashes of `data`: the root is the same each time
/// the same leaves are pushed after a reset.
pub proof fn lemma_reset_then_same_root(data: Seq<Seq<u8>>)
    ensures
        Seq::<Seq<u8>>::empty() + leaf_hashes(data) == leaf_hashes(data),
        root_of(Seq::<Seq<u8>>::empty() + leaf_hashes(data)) == root_of(leaf_hashes(data)),
{
    assert(Seq::<Seq<u8>>::empty() + leaf_hashes(data) =~= leaf_hashes(data));
}

/// In a tree of at most `2^k` leaves every path holds at most `k` sibling hashes.
pub proof fn lemma_path_len_log(level: Seq<Seq<u8>>, i: int, k: nat)
    requires
        1 <= level.len() <= pow2(k),
    ensures
        path_nodes(level, i).len() <= k,
    decreases k,
{
    if level.len() > 1 {
        if k == 0 {
            assert(pow2(0) == 1);
        } else {
            assert(pow2(k) == 2 * pow2((k - 1) as nat));
            lemma_path_len_log(next_level(level), i / 2, (k - 1) as nat);
        }
    }
}

/// `2^6` is 64, the largest batch.
pub proof fn lemma_pow2_6()
    ensures
        pow2(6) == 64,
{
    assert(pow2(0) == 1);
    assert(pow2(1) == 2);
    assert(pow2(2) == 4);
    assert(pow2(3) == 8);
    assert(pow2(4) == 16);
    assert(pow2(5) == 32);
}

proof fn lemma_pow2_pos(k: nat)
    ensures
        pow2(k) >= 1,
    decreases k,
{
    if k > 0 {
        lemma_pow2_pos((k - 1) as nat);
    }
}

/// Leaf hashes of `data`, in order.
pub open spec fn leaf_hashes(data: Seq<Seq<u8>>) -> Seq<Seq<u8>> {
    data.map_values(|d: Seq<u8>| leaf_hash(d))
}

fn prefix32(h: &Vec<u8>) -> (r: Vec<u8>)
    requires
        h@.len() >= 32,
    ensures
        r@ == h@.take(32),
{
    let mut r: Vec<u8> = Vec::with_capacity(32);
    let mut i: usize = 0;
    while i < 32
        invariant
            i <= 32 <= h@.len(),
            r@ == h@.take(i as int),
        decreases 32 - i,
    {
        r.push(h[i]);
        i = i + 1;
        assert(r@ =~= h@.take(i as int));
    }
    r
}

/// The leaf hash of `data`.
pub fn hash_leaf(data: &[u8]) -> (r: Vec<u8>)
    ensures
        r@ == leaf_hash(data@),
        r@.len() == 32,
{
    let mut buf: Vec<u8> = vec![0u8];
    append_bytes(&mut buf, data);
    let h = sha512(buf.as_slice());
    assert(buf@ =~= seq![0u8] + data@);
    prefix32(&h)
}

/// The hash of an internal node over `left` and `right`.
pub fn hash_nodes(left: &[u8], right: &[u8]) -> (r: Vec<u8>)
    ensures
        r@ == node_hash(left@, right@),
        r@.len() == 32,
{
    let mut buf: Vec<u8> = vec![1u8];
    append_bytes(&mut buf, left);
    append_bytes(&mut buf, right);
    let h = sha512(buf.as_slice());
    assert(buf@ =~= seq![1u8] + left@ + right@);
    prefix32(&h)
}

/// Hashes of 32 bytes each.
pub open spec fn all_32(level: Seq<Seq<u8>>) -> bool {
    forall|i: int| 0 <= i < level.len() ==> (#[trigger] level[i]).len() == 32
}

fn build_next(level: &Vec<Vec<u8>>) -> (r: Vec<Vec<u8>>)
    requires
        all_32(level@.map_values(|v: Vec<u8>| v@)),
    ensures
        r@.map_values(|v: Vec<u8>| v@) == next_level(level@.map_values(|v: Vec<u8>| v@)),
        all_32(r@.map_values(|v: Vec<u8>| v@)),
{
    let ghost lv = level@.map_values(|v: Vec<u8>| v@);
    let ghost target = next_level(lv);
    let n = level.len();
    let mut r: Vec<Vec<u8>> = Vec::with_capacity(n / 2 + 1);
    let half: usize = n / 2 + n % 2;
    let mut i: usize = 0;
    while i < half
        invariant
            n == level@.len(),
            half == target.len(),
            lv == level@.map_values(|v: Vec<u8>| v@),
            target == next_level(lv),
            all_32(lv),
            i <= half,
            r@.map_values(|v: Vec<u8>| v@) == target.take(i as int),
            all_32(r@.map_values(|v: Vec<u8>| v@)),
        decreases half - i,
    {
        let h = if 2 * i + 1 < n {
            hash_nodes(level[2 * i].as_slice(), level[2 * i + 1].as_slice())
        } else {
            let mut c: Vec<u8> = Vec::new();
            append_bytes(&mut c, level[2 * i].as_slice());
            assert(c@ == lv[2 * i as int]);
            c
        };
        assert(h@ == target[i as int]);
        let ghost prev = r@;
        r.push(h);
        proof {
            assert(r@.map_values(|v: Vec<u8>| v@) =~= prev.map_values(|v: Vec<u8>| v@).push(h@));
            assert(target.take(i as int + 1) =~= target.take(i as int).push(target[i as int]));
        }
        i = i + 1;
    }
    assert(target.take(i as int) =~= target);
    r
}

/// A Merkle tree over the nonces of one batch.
pub struct MerkleTree {
    leaves: Vec<Vec<u8>>,
    levels: Vec<Vec<Vec<u8>>>,
    built: bool,
}

impl MerkleTree {
    /// The leaf hashes, in the order they were pushed.
    pub closed spec fn leaf_seq(&self) -> Seq<Seq<u8>> {
        self.leaves@.map_values(|v: Vec<u8>| v@)
    }

    /// Whether the levels above the leaves are computed from the current leaves.
    pub closed spec fn is_built(&self) -> bool {
        self.built
    }

    closed spec fn level(&self, k: int) -> Seq<Seq<u8>> {
        if k == 0 {
            self.leaf_seq()
        } else {
            self.levels@[k - 1]@.map_values(|v: Vec<u8>| v@)
        }
    }

    /// The tree's internal invariant.
    pub closed spec fn wf(&self) -> bool {
        &&& all_32(self.leaf_seq())
        &&& forall|k: int| 0 <= k < self.levels@.len() ==> all_32(#[trigger] self.level(k + 1))
        &&& self.built ==> {
            &&& self.leaves@.len() > 0
            &&& forall|k: int|
                0 <= k < self.levels@.len() ==> #[trigger] self.level(k + 1) == next_level(
                    self.level(k),
                ) && self.level(k).len() > 1
            &&& self.level(self.levels@.len() as int).len() == 1
        }
    }

    /// An empty tree.
    pub fn new() -> (r: MerkleTree)
        ensures
            r.wf(),
            r.leaf_seq() == Seq::<Seq<u8>>::empty(),
            !r.is_built(),
    {
        let r = MerkleTree { leaves: Vec::new(), levels: Vec::new(), built: false };
        assert(r.leaf_seq() =~= Seq::<Seq<u8>>::empty());
        r
    }

    /// Number of leaves.
    pub fn num_leaves(&self) -> (r: usize)
        ensures
            r == self.leaf_seq().len(),
    {
        self.leaves.len()
    }

    /// Appends the leaf for `data`.
    pub fn push_leaf(&mut self, data: &[u8])
        requires
            old(self).wf(),
        ensures
            final(self).wf(),
            final(self).leaf_seq() == old(self).leaf_seq().push(leaf_hash(data@)),
            !final(self).is_built(),
    {
        let h = hash_leaf(data);
        self.leaves.push(h);
        self.levels = Vec::new();
        self.built = false;
        assert(self.leaf_seq() =~= old(self).leaf_seq().push(leaf_hash(data@)));
    }

    /// Clears the leaves; the tree is then empty again.
    pub fn reset(&mut self)
        requires
            old(self).wf(),
        ensures
            final(self).wf(),
            final(self).leaf_seq() == Seq::<Seq<u8>>::empty(),
            !final(self).is_built(),
    {
        self.leaves.clear();
        self.levels.clear();
        self.built = false;
        assert(self.leaf_seq() =~= Seq::<Seq<u8>>::empty());
    }

    /// Computes the levels above the leaves and returns the root.
    pub fn compute_root(&mut self) -> (r: Vec<u8>)
        requires
            old(self).wf(),
            old(self).leaf_seq().len() > 0,
        ensures
            final(self).wf(),
            final(self).is_built(),
            final(self).leaf_seq() == old(self).leaf_seq(),
            r@ == root_of(old(self).leaf_seq()),
            r@.len() == 32,
    {
        self.levels = Vec::new();
        self.built = false;
        let mut k: usize = 0;
        let n_leaves: usize = self.leaves.len();
        let mut cur_len: usize = n_leaves;
        while cur_len > 1
            invariant
                self.leaf_seq() == old(self).leaf_seq(),
                self.leaves@.len() > 0,
                !self.built,
                self.levels@.len() == k,
                all_32(self.leaf_seq()),
                forall|j: int| 0 <= j < k ==> all_32(#[trigger] self.level(j + 1)),
                forall|j: int|
                    0 <= j < k ==> #[trigger] self.level(j + 1) == next_level(self.level(j))
                        && self.level(j).len() > 1,
                cur_len == self.level(k as int).len(),
                cur_len >= 1,
                k + cur_len <= n_leaves,
                n_leaves == self.leaves@.len(),
                root_of(self.level(k as int)) == root_of(self.leaf_seq()),
            decreases cur_len,
        {
            let next = if k == 0 {
                build_next(&self.leaves)
            } else {
                assert(all_32(self.level((k - 1) as int + 1)));
                build_next(&self.levels[k - 1])
            };
            let ghost before = *self;
            let ghost old_len = cur_len;
            assert(next@.map_values(|v: Vec<u8>| v@).len() == next@.len());
            cur_len = next.len();
            assert(cur_len == (old_len + 1) / 2);
            self.levels.push(next);
            proof {
                assert forall|j: int| 0 <= j <= k implies #[trigger] self.level(j) == before.level(j) by {
                    if j > 0 {
                        assert(self.levels@[j - 1] == before.levels@[j - 1]);
                    }
                }
                assert(self.level(k as int + 1) == next_level(before.level(k as int)));
            }
            k = k + 1;
        }
        let ghost before = *self;
        self.built = true;
        proof {
            assert forall|j: int| 0 <= j <= k implies #[trigger] self.level(j) == before.level(j) by {}
            if k > 0 {
                assert(all_32(self.level((k - 1) as int + 1)));
            }
            assert(all_32(self.level(k as int)));
        }
        let mut r: Vec<u8> = Vec::new();
        if k == 0 {
            append_bytes(&mut r, self.leaves[0].as_slice());
        } else {
            append_bytes(&mut r, self.levels[k - 1][0].as_slice());
        }
        proof {
            assert(r@ == self.level(k as int)[0]);
        }
        r
    }

    /// The sibling hashes on the path from leaf `index` to the root,
    /// bottom-up and concatenated.
    pub fn get_paths(&self, index: usize) -> (r: Vec<u8>)
        requires
            self.wf(),
            self.is_built(),
            index < self.leaf_seq().len(),
        ensures
            r@ == value_bytes(path_nodes(self.leaf_seq(), index as int)),
            r@.len() == 32 * path_nodes(self.leaf_seq(), index as int).len(),
    {
        let ghost pn = path_nodes(self.leaf_seq(), index as int);
        let mut out: Vec<u8> = Vec::new();
        let mut k: usize = 0;
        let mut idx: usize = index;
        let ghost mut m: int = 0;
        let h = self.levels.len();
        proof {
            assert(pn.skip(0) =~= pn);
            assert(pn.take(0) =~= Seq::<Seq<u8>>::empty());
        }
        while k < h
            invariant
                self.wf(),
                self.is_built(),
                h == self.levels@.len(),
                k <= h,
                0 <= m <= pn.len(),
                out@ == value_bytes(pn.take(m)),
                out@.len() == 32 * m,
                pn.skip(m) == path_nodes(self.level(k as int), idx as int),
                idx < self.level(k as int).len(),
            decreases h - k,
        {
            let lvl: &Vec<Vec<u8>> = if k == 0 {
                &self.leaves
            } else {
                &self.levels[k - 1]
            };
            assert(lvl@.map_values(|v: Vec<u8>| v@) == self.level(k as int));
            let n = lvl.len();
            assert(self.level(k as int + 1) == next_level(self.level(k as int)));
            if idx % 2 == 1 || idx + 1 < n {
                let sib: usize = if idx % 2 == 0 { idx + 1 } else { idx - 1 };
                proof {
                    let rest = path_nodes(self.level(k as int + 1), idx as int / 2);
                    assert(pn.skip(m) == seq![self.level(k as int)[sibling(idx as int)]] + rest);
                    assert(pn.skip(m).len() > 0);
                    assert(pn[m] == pn.skip(m)[0]);
                    assert(pn.skip(m + 1) =~= pn.skip(m).drop_first());
                    assert(pn.take(m + 1) =~= pn.take(m).push(pn[m]));
                    crate::message::lemma_value_bytes_push(pn.take(m), pn[m]);
                    if k > 0 {
                        assert(all_32(self.level((k - 1) as int + 1)));
                    }
                    assert(all_32(self.level(k as int)));
                }
                append_bytes(&mut out, lvl[sib].as_slice());
                proof {
                    m = m + 1;
                }
            }
            idx = idx / 2;
            k = k + 1;
        }
        proof {
            assert(self.level(h as int).len() == 1);
            assert(pn.skip(m).len() == 0);
            assert(pn.take(m) =~= pn);
        }
        out
    }
}

} // verus!
