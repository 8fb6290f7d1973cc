//! The Merkle commitment over a sequence of accounts: construction,
//! inclusion proofs and their check.
use vstd::prelude::*;
use vstd::arithmetic::power2::{lemma2_to64, lemma2_to64_rest, lemma_pow2_pos, lemma_pow2_unfold, pow2};
use crate::hashing::{
    bytes_equal, hash_pair, le_bytes, le_digits, node_hash, sha256_of, zero_digest, zero_hash,
};
use crate::types::{
    Account, account_bytes, distinct_addresses, find_account, first_position, leaf_hash,
    lemma_distinct_position,
};

verus! {

/// A sequence of digests, each read as its bytes.
pub open spec fn digests(v: Seq<crate::hashing::Hash>) -> Seq<Seq<u8>> {
    v.map_values(|h: crate::hashing::Hash| h@)
}

/// The least power of two that is at least `n` (1 for 0 and 1).
pub open spec fn next_pow2(n: nat) -> nat
    decreases n,
{
    if n <= 1 {
        1
    } else {
        2 * next_pow2(((n + 1) / 2) as nat)
    }
}

/// The digest at `i` of a level, or the zero digest past either end.
pub open spec fn at_or_zero(level: Seq<Seq<u8>>, i: int) -> Seq<u8> {
    if 0 <= i < level.len() {
        level[i]
    } else {
        zero_hash()
    }
}

/// The bottom level: one leaf digest per account, in order, then zero
/// digests up to the next power of two.
pub open spec fn leaf_level(accounts: Seq<Account>) -> Seq<Seq<u8>> {
    Seq::new(
        next_pow2(accounts.len()),
        |i: int|
            if i < accounts.len() {
                leaf_hash(accounts[i])
            } else {
                zero_hash()
            },
    )
}

/// The level above: each adjacent pair hashed together, a missing right
/// child counting as the zero digest.
pub open spec fn parent_level(level: Seq<Seq<u8>>) -> Seq<Seq<u8>> {
    Seq::new(
        ((level.len() + 1) / 2) as nat,
        |i: int| node_hash(level[2 * i], at_or_zero(level, 2 * i + 1)),
    )
}

/// The single digest that remains when levels are built up from `level`.
pub open spec fn level_root(level: Seq<Seq<u8>>) -> Seq<u8>
    decreases level.len(),
{
    if level.len() <= 1 {
        level[0]
    } else {
        level_root(parent_level(level))
    }
}

/// `level` and every level above it, bottom up, laid end to end.
pub open spec fn tree_layers(level: Seq<Seq<u8>>) -> Seq<Seq<u8>>
    decreases level.len(),
{
    if level.len() <= 1 {
        level
    } else {
        level + tree_layers(parent_level(level))
    }
}

/// The levels strictly above `level`, laid end to end.
pub open spec fn upper_layers(level: Seq<Seq<u8>>) -> Seq<Seq<u8>> {
    if level.len() <= 1 {
        Seq::empty()
    } else {
        tree_layers(parent_level(level))
    }
}

/// The root that commits to `accounts`: 32 zero bytes for no accounts.
pub open spec fn merkle_root(accounts: Seq<Account>) -> Seq<u8> {
    if accounts.len() == 0 {
        zero_hash()
    } else {
        level_root(leaf_level(accounts))
    }
}

/// Every node digest of the tree over `accounts`, level by level from the
/// padded leaves up to the root.
pub open spec fn tree_nodes(accounts: Seq<Account>) -> Seq<Seq<u8>> {
    if accounts.len() == 0 {
        Seq::empty()
    } else {
        tree_layers(leaf_level(accounts))
    }
}

proof fn lemma_next_pow2_bounds(n: nat)
    ensures
        n <= next_pow2(n),
        1 <= next_pow2(n),
        n >= 1 ==> next_pow2(n) < 2 * n,
        n >= 2 ==> next_pow2(n) % 2 == 0,
    decreases n,
{
    if n >= 2 {
        lemma_next_pow2_bounds(((n + 1) / 2) as nat);
    }
}

/// The least power of two at or above `n` stays at or below any power of
/// two that is itself at or above `n`.
proof fn lemma_next_pow2_within(n: nat, e: nat)
    requires
        n <= pow2(e),
    ensures
        next_pow2(n) <= pow2(e),
    decreases e,
{
    lemma_pow2_pos(e);
    if n > 1 {
        lemma2_to64();
        assert(e > 0);
        lemma_pow2_unfold(e);
        lemma_next_pow2_within(((n + 1) / 2) as nat, (e - 1) as nat);
    }
}

/// Half the range of `usize`, rounded up, is a power of two.
proof fn lemma_half_word_pow2() -> (e: nat)
    ensures
        pow2(e) == usize::MAX / 2 + 1,
{
    lemma2_to64();
    lemma2_to64_rest();
    if usize::MAX == 0xffff_ffff {
        31
    } else {
        63
    }
}

fn next_power_of_2(n: usize) -> (r: usize)
    requires
        n <= usize::MAX / 2 + 1,
    ensures
        r == next_pow2(n as nat),
    decreases n,
{
    if n <= 1 {
        return 1;
    }
    let half: usize = n / 2 + n % 2;
    proof {
        let e = lemma_half_word_pow2();
        lemma_next_pow2_within(n as nat, e);
    }
    let r = next_power_of_2(half);
    2 * r
}

/// Appends the hashes of `level` to `nodes`.
fn push_hashes(nodes: &mut Vec<crate::hashing::Hash>, level: &Vec<crate::hashing::Hash>)
    ensures
        final(nodes)@ == old(nodes)@ + level@,
{
    let ghost start = nodes@;
    let mut i: usize = 0;
    while i < level.len()
        invariant
            i <= level@.len(),
            nodes@ == start + level@.subrange(0, i as int),
        decreases level@.len() - i,
    {
        nodes.push(level[i]);
        i = i + 1;
        assert(nodes@ =~= start + level@.subrange(0, i as int));
    }
    assert(level@.subrange(0, i as int) =~= level@);
}

proof fn lemma_digests_concat(a: Seq<crate::hashing::Hash>, b: Seq<crate::hashing::Hash>)
    ensures
        digests(a + b) == digests(a) + digests(b),
        digests(a).len() == a.len(),
{
    assert(digests(a + b) =~= digests(a) + digests(b));
}

proof fn lemma_digests_push(v: Seq<crate::hashing::Hash>, h: crate::hashing::Hash)
    ensures
        digests(v.push(h)) == digests(v).push(h@),
        digests(v).len() == v.len(),
{
    assert(digests(v.push(h)) =~= digests(v).push(h@));
}

/// The padded leaf level of `accounts`.
fn leaf_digests(accounts: &[Account]) -> (r: Vec<crate::hashing::Hash>)
    requires
        accounts@.len() <= usize::MAX / 2,
    ensures
        digests(r@) == leaf_level(accounts@),
{
    let n = accounts.len();
    let mut level: Vec<crate::hashing::Hash> = Vec::new();
    let mut i: usize = 0;
    while i < n
        invariant
            n == accounts@.len(),
            i <= n,
            digests(level@) == Seq::new(i as nat, |k: int| leaf_hash(accounts@[k])),
        decreases n - i,
    {
        let h = accounts[i].hash();
        proof {
            lemma_digests_push(level@, h);
        }
        level.push(h);
        i = i + 1;
        assert(digests(level@) =~= Seq::new(i as nat, |k: int| leaf_hash(accounts@[k])));
    }
    let target = next_power_of_2(n);
    proof {
        lemma_next_pow2_bounds(n as nat);
    }
    while level.len() < target
        invariant
            n == accounts@.len(),
            n <= level@.len() <= target,
            target == next_pow2(n as nat),
            digests(level@) == Seq::new(
                level@.len(),
                |k: int|
                    if k < n {
                        leaf_hash(accounts@[k])
                    } else {
                        zero_hash()
                    },
            ),
        decreases target - level@.len(),
    {
        let z = zero_digest();
        proof {
            lemma_digests_push(level@, z);
        }
        level.push(z);
        assert(digests(level@) =~= Seq::new(
            level@.len(),
            |k: int|
                if k < n {
                    leaf_hash(accounts@[k])
                } else {
                    zero_hash()
                },
        ));
    }
    assert(digests(level@) =~= leaf_level(accounts@));
    level
}

/// The level above `level`.
fn parent_digests(level: &Vec<crate::hashing::Hash>) -> (r: Vec<crate::hashing::Hash>)
    ensures
        digests(r@) == parent_level(digests(level@)),
{
    let n = level.len();
    let half: usize = n / 2 + n % 2;
    let ghost up = parent_level(digests(level@));
    let mut next: Vec<crate::hashing::Hash> = Vec::new();
    let mut i: usize = 0;
    while i < half
        invariant
            n == level@.len(),
            half == (n + 1) / 2,
            up == parent_level(digests(level@)),
            i <= half,
            digests(next@) == up.subrange(0, i as int),
        decreases half - i,
    {
        let left = level[2 * i];
        let right = if 2 * i + 1 < n {
            level[2 * i + 1]
        } else {
            zero_digest()
        };
        let parent = hash_pair(&left, &right);
        proof {
            lemma_digests_push(next@, parent);
        }
        next.push(parent);
        i = i + 1;
        assert(digests(next@) =~= up.subrange(0, i as int));
    }
    assert(up.subrange(0, half as int) =~= up);
    next
}

/// All node digests of the tree over a non-empty `accounts`, and its root.
fn build_layers(accounts: &[Account]) -> (r: (Vec<crate::hashing::Hash>, crate::hashing::Hash))
    requires
        1 <= accounts@.len() <= usize::MAX / 2,
    ensures
        digests(r.0@) == tree_layers(leaf_level(accounts@)),
        r.1@ == level_root(leaf_level(accounts@)),
{
    let mut current = leaf_digests(accounts);
    let ghost first = digests(current@);
    proof {
        lemma_next_pow2_bounds(accounts@.len());
    }
    let mut nodes: Vec<crate::hashing::Hash> = Vec::new();
    push_hashes(&mut nodes, &current);
    assert(digests(nodes@) + upper_layers(first) =~= tree_layers(first));
    while current.len() > 1
        invariant
            current@.len() >= 1,
            digests(nodes@) + upper_layers(digests(current@)) == tree_layers(first),
            level_root(digests(current@)) == level_root(first),
        decreases current@.len(),
    {
        let next = parent_digests(&current);
        let ghost old_nodes = nodes@;
        push_hashes(&mut nodes, &next);
        proof {
            lemma_digests_concat(old_nodes, next@);
            let d = digests(next@);
            if d.len() <= 1 {
                assert(tree_layers(d) =~= d + upper_layers(d));
            } else {
                assert(tree_layers(d) == d + upper_layers(d));
            }
            assert(digests(nodes@) + upper_layers(d) =~= digests(old_nodes) + (d
                + upper_layers(d)));
        }
        current = next;
    }
    assert(digests(nodes@) =~= digests(nodes@) + upper_layers(digests(current@)));
    (nodes, current[0])
}

/// The root committing to `accounts`, computed without keeping the tree.
pub fn compute_merkle_root(accounts: &[Account]) -> (r: crate::hashing::Hash)
    requires
        accounts@.len() <= usize::MAX / 2,
    ensures
        r@ == merkle_root(accounts@),
{
    if accounts.len() == 0 {
        return zero_digest();
    }
    let mut hashes = leaf_digests(accounts);
    let ghost first = digests(hashes@);
    proof {
        lemma_next_pow2_bounds(accounts@.len());
    }
    proof {
        lemma_digests_concat(hashes@, Seq::empty());
        assert(hashes@ + Seq::empty() =~= hashes@);
    }
    while hashes.len() > 1
        invariant
            hashes@.len() >= 1,
            level_root(digests(hashes@)) == level_root(first),
            first == leaf_level(accounts@),
        decreases hashes@.len(),
    {
        hashes = parent_digests(&hashes);
        proof {
            lemma_digests_concat(hashes@, Seq::empty());
            assert(hashes@ + Seq::empty() =~= hashes@);
        }
    }
    hashes[0]
}

/// The position of the sibling of the node at `i` within its level.
pub open spec fn sibling_index(i: int) -> int {
    if i % 2 == 0 {
        i + 1
    } else {
        i - 1
    }
}

/// The sibling digests met on the way from position `index` of `level` up
/// to the root, bottom up; a sibling past the end of its level is the zero
/// digest.
pub open spec fn proof_path(level: Seq<Seq<u8>>, index: int) -> Seq<Seq<u8>>
    decreases level.len(),
{
    if level.len() <= 1 {
        Seq::empty()
    } else {
        seq![at_or_zero(level, sibling_index(index))] + proof_path(parent_level(level), index / 2)
    }
}

/// The parent digest of a node `h` at position `index` and its sibling.
pub open spec fn combine(h: Seq<u8>, sibling: Seq<u8>, index: int) -> Seq<u8> {
    if index % 2 == 0 {
        node_hash(h, sibling)
    } else {
        node_hash(sibling, h)
    }
}

/// The root reached from digest `h` at position `index` through the
/// sibling digests `siblings`, bottom up.
pub open spec fn path_root(h: Seq<u8>, index: int, siblings: Seq<Seq<u8>>) -> Seq<u8>
    decreases siblings.len(),
{
    if siblings.len() == 0 {
        h
    } else {
        path_root(combine(h, siblings[0], index), index / 2, siblings.drop_first())
    }
}

/// An inclusion proof: the leaf's position and its sibling digests from
/// the leaf level up.
#[derive(Debug, Clone)]
pub struct MerkleProof {
    pub leaf_index: usize,
    pub siblings: Vec<crate::hashing::Hash>,
}

/// What a withdrawal presents: the account, its inclusion proof, and the
/// receipt of the batch run that committed to it.
#[derive(Debug, Clone)]
pub struct WithdrawalProof {
    pub account: Account,
    pub merkle_proof: MerkleProof,
    pub receipt: Vec<u8>,
}

impl MerkleProof {
    /// Whether this proof takes `account` to `root`.
    pub open spec fn accepts(&self, root: Seq<u8>, account: Account) -> bool {
        path_root(leaf_hash(account), self.leaf_index as int, digests(self.siblings@)) == root
    }
}

/// The proof that the tree over `leaves` gives for the account at the first
/// position of `addr`: the empty proof where there is none.
pub open spec fn proof_matches(leaves: Seq<Account>, addr: Seq<u8>, p: MerkleProof) -> bool {
    let i = first_position(leaves, addr);
    if i < 0 {
        p.leaf_index == 0 && p.siblings@.len() == 0
    } else {
        p.leaf_index == i && digests(p.siblings@) == proof_path(leaf_level(leaves), i)
    }
}

/// `s` with `a` in place of the first account of the same address, or
/// with `a` appended where there is none.
pub open spec fn upsert(s: Seq<Account>, a: Account) -> Seq<Account> {
    let i = first_position(s, a.address@);
    if i >= 0 {
        s.update(i, a)
    } else {
        s.push(a)
    }
}

/// `s` with each of `updates` upserted in turn.
pub open spec fn upsert_all(s: Seq<Account>, updates: Seq<Account>) -> Seq<Account>
    decreases updates.len(),
{
    if updates.len() == 0 {
        s
    } else {
        upsert(upsert_all(s, updates.drop_last()), updates.last())
    }
}

/// A Merkle tree over an ordered sequence of accounts. `nodes` holds the
/// padded leaf level and every level above it, in that order.
#[derive(Debug, Clone)]
pub struct MerkleTree {
    pub leaves: Vec<Account>,
    pub nodes: Vec<crate::hashing::Hash>,
    pub root: crate::hashing::Hash,
}

impl MerkleTree {
    /// The nodes and the root are those of the tree over `leaves`, and the
    /// padded tree fits in memory.
    pub open spec fn wf(&self) -> bool {
        &&& self.leaves@.len() <= usize::MAX / 2
        &&& digests(self.nodes@) == tree_nodes(self.leaves@)
        &&& self.root@ == merkle_root(self.leaves@)
    }

    /// The tree over `accounts`, in the order given.
    pub fn new(accounts: Vec<Account>) -> (r: Self)
        requires
            accounts@.len() <= usize::MAX / 2,
        ensures
            r.wf(),
            r.leaves@ == accounts@,
            accounts@.len() == 0 ==> r.root@ == zero_hash() && r.nodes@.len() == 0,
    {
        let mut tree = MerkleTree { leaves: accounts, nodes: Vec::new(), root: zero_digest() };
        tree.build();
        tree
    }

    /// Recomputes the nodes and the root from the leaves.
    fn build(&mut self)
        requires
            old(self).leaves@.len() <= usize::MAX / 2,
        ensures
            final(self).wf(),
            final(self).leaves == old(self).leaves,
            final(self).leaves@.len() == 0 ==> final(self).nodes@.len() == 0,
    {
        if self.leaves.len() == 0 {
            self.nodes = Vec::new();
            self.root = zero_digest();
            assert(digests(self.nodes@) =~= tree_nodes(self.leaves@));
            return;
        }
        let (nodes, root) = build_layers(self.leaves.as_slice());
        self.nodes = nodes;
        self.root = root;
    }

    /// The inclusion proof of the first account with `account`'s address;
    /// the empty proof where there is none.
    pub fn get_proof(&self, account: &Account) -> (r: MerkleProof)
        requires
            self.wf(),
        ensures
            proof_matches(self.leaves@, account.address@, r),
    {
        match find_account(self.leaves.as_slice(), &account.address) {
            Some(index) => MerkleProof { leaf_index: index, siblings: self.generate_proof(index) },
            None => MerkleProof { leaf_index: 0, siblings: Vec::new() },
        }
    }

    fn generate_proof(&self, leaf_index: usize) -> (r: Vec<crate::hashing::Hash>)
        requires
            self.wf(),
            leaf_index < self.leaves@.len(),
        ensures
            digests(r@) == proof_path(leaf_level(self.leaves@), leaf_index as int),
    {
        let ghost first = leaf_level(self.leaves@);
        let mut proof: Vec<crate::hashing::Hash> = Vec::new();
        proof {
            lemma_next_pow2_bounds(self.leaves@.len());
            lemma_digests_concat(self.nodes@, Seq::empty());
            assert(self.nodes@.subrange(0, self.nodes@.len() as int) =~= self.nodes@);
        }
        let mut index = leaf_index;
        let total = self.nodes.len();
        let mut level_size = first_level_size(self.leaves.len());
        let ghost mut level = first;
        let mut offset: usize = 0;
        while level_size > 1
            invariant
                level.len() == level_size,
                level_size >= 1,
                0 <= index < level_size,
                total == self.nodes@.len(),
                offset + tree_layers(level).len() == total,
                digests(self.nodes@.subrange(offset as int, self.nodes@.len() as int))
                    == tree_layers(level),
                digests(proof@) + proof_path(level, index as int) == proof_path(
                    first,
                    leaf_index as int,
                ),
            decreases level_size,
        {
            let ghost rest = self.nodes@.subrange(offset as int, self.nodes@.len() as int);
            proof {
                lemma_digests_concat(rest, Seq::empty());
                assert(tree_layers(level) == level + tree_layers(parent_level(level)));
            }
            let sibling = if index % 2 == 0 {
                index + 1
            } else {
                index - 1
            };
            let h = if sibling < level_size {
                proof {
                    assert(rest[sibling as int] == self.nodes@[offset + sibling]);
                    assert(digests(rest)[sibling as int] == level[sibling as int]);
                }
                self.nodes[offset + sibling]
            } else {
                zero_digest()
            };
            let ghost before = proof@;
            proof {
                lemma_digests_push(proof@, h);
            }
            proof.push(h);
            proof {
                let up = parent_level(level);
                assert(proof_path(level, index as int) == seq![h@] + proof_path(up, index as int / 2));
                assert(digests(proof@) + proof_path(up, index as int / 2) =~= digests(before) + (seq![h@]
                    + proof_path(up, index as int / 2)));
                let rest2 = self.nodes@.subrange(offset + level_size, self.nodes@.len() as int);
                assert(rest2 =~= rest.subrange(level_size as int, rest.len() as int));
                assert(digests(rest2) =~= tree_layers(level).subrange(
                    level_size as int,
                    tree_layers(level).len() as int,
                ));
                assert(tree_layers(level).subrange(level_size as int, tree_layers(level).len() as int)
                    =~= tree_layers(up));
                level = up;
            }
            offset = offset + level_size;
            index = index / 2;
            level_size = level_size / 2 + level_size % 2;
        }
        assert(proof_path(level, index as int) =~= Seq::empty());
        assert(digests(proof@) =~= digests(proof@) + proof_path(level, index as int));
        proof
    }

    /// Whether `proof` takes `account` to `root`: the leaf digest is
    /// combined with each sibling in turn, on the side its position gives.
    pub fn verify_proof(root: &crate::hashing::Hash, account: &Account, proof: &MerkleProof) -> (r:
        bool)
        ensures
            r == proof.accepts(root@, *account),
    {
        let mut current = account.hash();
        let mut index = proof.leaf_index;
        let mut i: usize = 0;
        let ghost all = digests(proof.siblings@);
        proof {
            lemma_digests_concat(proof.siblings@, Seq::empty());
            assert(all.subrange(0, all.len() as int) =~= all);
        }
        while i < proof.siblings.len()
            invariant
                i <= proof.siblings@.len(),
                all == digests(proof.siblings@),
                all.len() == proof.siblings@.len(),
                path_root(current@, index as int, all.subrange(i as int, all.len() as int))
                    == path_root(leaf_hash(*account), proof.leaf_index as int, all),
            decreases proof.siblings@.len() - i,
        {
            let ghost tail = all.subrange(i as int, all.len() as int);
            let sibling = proof.siblings[i];
            current = if index % 2 == 0 {
                hash_pair(&current, &sibling)
            } else {
                hash_pair(&sibling, &current)
            };
            index = index / 2;
            i = i + 1;
            assert(tail.drop_first() =~= all.subrange(i as int, all.len() as int));
        }
        bytes_equal(&current, root)
    }

    /// Puts `updated_account` in place of the first leaf with its address,
    /// or appends it, and rebuilds the tree.
    pub fn update_account(&mut self, updated_account: Account)
        requires
            old(self).wf(),
            old(self).leaves@.len() < usize::MAX / 2,
        ensures
            final(self).wf(),
            final(self).leaves@ == upsert(old(self).leaves@, updated_account),
    {
        upsert_account(&mut self.leaves, updated_account);
        self.build();
    }

    /// Upserts each of `updated_accounts` in order, a later state of an
    /// address replacing an earlier one, and rebuilds the tree.
    pub fn update_accounts(&mut self, updated_accounts: Vec<Account>)
        requires
            old(self).wf(),
            old(self).leaves@.len() + updated_accounts@.len() <= usize::MAX / 2,
        ensures
            final(self).wf(),
            final(self).leaves@ == upsert_all(old(self).leaves@, updated_accounts@),
    {
        let ghost start = self.leaves@;
        let mut i: usize = 0;
        while i < updated_accounts.len()
            invariant
                i <= updated_accounts@.len(),
                self.leaves@ == upsert_all(start, updated_accounts@.subrange(0, i as int)),
                self.leaves@.len() <= start.len() + i,
                start.len() + updated_accounts@.len() <= usize::MAX / 2,
            decreases updated_accounts@.len() - i,
        {
            upsert_account(&mut self.leaves, updated_accounts[i]);
            proof {
                let u = updated_accounts@.subrange(0, i + 1);
                assert(u.drop_last() =~= updated_accounts@.subrange(0, i as int));
            }
            i = i + 1;
        }
        assert(updated_accounts@.subrange(0, i as int) =~= updated_accounts@);
        self.build();
    }
}

/// Replaces the first account with `a`'s address by `a`, or appends `a`.
fn upsert_account(leaves: &mut Vec<Account>, a: Account)
    ensures
        final(leaves)@ == upsert(old(leaves)@, a),
        final(leaves)@.len() <= old(leaves)@.len() + 1,
{
    match find_account(leaves.as_slice(), &a.address) {
        Some(pos) => {
            leaves.set(pos, a);
        },
        None => {
            leaves.push(a);
        },
    }
}

/// The size of the padded leaf level over `n` accounts.
fn first_level_size(n: usize) -> (r: usize)
    requires
        1 <= n <= usize::MAX / 2,
    ensures
        r == next_pow2(n as nat),
{
    next_power_of_2(n)
}

/// Walking up from any position of a level along its proof path reaches
/// the level's root.
proof fn lemma_path_reaches_root(level: Seq<Seq<u8>>, index: int)
    requires
        0 <= index < level.len(),
    ensures
        path_root(level[index], index, proof_path(level, index)) == level_root(level),
    decreases level.len(),
{
    if level.len() > 1 {
        let up = parent_level(level);
        let j = index / 2;
        let sib = at_or_zero(level, sibling_index(index));
        if index % 2 == 0 {
            assert(up[j] == node_hash(level[index], sib));
        } else {
            assert(2 * j == index - 1);
            assert(up[j] == node_hash(sib, level[index]));
        }
        assert(up[j] == combine(level[index], sib, index));
        lemma_path_reaches_root(up, j);
        let path = proof_path(level, index);
        assert(path[0] == sib);
        assert(path.drop_first() =~= proof_path(up, j));
    }
}

/// Two trees built over the same accounts in the same order are the same
/// tree, root and every node alike: nothing but the accounts goes into it.
pub proof fn lemma_root_deterministic(t1: MerkleTree, t2: MerkleTree)
    requires
        t1.wf(),
        t2.wf(),
        t1.leaves@ == t2.leaves@,
    ensures
        t1.root == t2.root,
        t1.nodes@ == t2.nodes@,
{
    assert(t1.root =~= t2.root);
    lemma_digests_concat(t1.nodes@, Seq::empty());
    lemma_digests_concat(t2.nodes@, Seq::empty());
    assert forall|k: int| 0 <= k < t1.nodes@.len() implies t1.nodes@[k] == t2.nodes@[k] by {
        assert(digests(t1.nodes@)[k] == digests(t2.nodes@)[k]);
        assert(t1.nodes@[k] =~= t2.nodes@[k]);
    }
    assert(t1.nodes@ =~= t2.nodes@);
}

/// The tree over no accounts has the zero digest as its root.
pub proof fn lemma_empty_root()
    ensures
        merkle_root(Seq::<Account>::empty()) == zero_hash(),
{
}

/// A tree over a single account needs no padding and no inner node: its
/// root is the account's leaf digest.
pub proof fn lemma_single_leaf_root(a: Account)
    ensures
        merkle_root(seq![a]) == leaf_hash(a),
{
    let level = leaf_level(seq![a]);
    assert(next_pow2(1) == 1);
    assert(level.len() == 1);
    assert(level[0] == leaf_hash(a));
}

/// In a ledger whose addresses are distinct, the proof that the tree gives
/// for any of its accounts takes that account to the tree's root.
pub proof fn lemma_proof_round_trip(accounts: Seq<Account>, a: Account, p: MerkleProof)
    requires
        distinct_addresses(accounts),
        accounts.contains(a),
        proof_matches(accounts, a.address@, p),
    ensures
        p.accepts(merkle_root(accounts), a),
{
    let k = choose|k: int| 0 <= k < accounts.len() && accounts[k] == a;
    lemma_distinct_position(accounts, k);
    lemma_next_pow2_bounds(accounts.len());
    let level = leaf_level(accounts);
    assert(level[k] == leaf_hash(a));
    lemma_path_reaches_root(level, k);
}

/// Whether SHA-256 gives differing inputs `x` and `y` differing digests.
pub open spec fn hash_separates(x: Seq<u8>, y: Seq<u8>) -> bool {
    x != y ==> sha256_of(x) != sha256_of(y)
}

/// Whether, walking up from digests `hx` and `hy` at position `index`
/// with the same siblings, SHA-256 separates each pair of inputs it is
/// given at the same step.
pub open spec fn paths_separate(hx: Seq<u8>, hy: Seq<u8>, index: int, siblings: Seq<Seq<u8>>) -> bool
    decreases siblings.len(),
{
    if siblings.len() == 0 {
        true
    } else {
        let s = siblings[0];
        &&& if index % 2 == 0 {
            hash_separates(hx + s, hy + s)
        } else {
            hash_separates(s + hx, s + hy)
        }
        &&& paths_separate(
            combine(hx, s, index),
            combine(hy, s, index),
            index / 2,
            siblings.drop_first(),
        )
    }
}

proof fn lemma_paths_stay_apart(hx: Seq<u8>, hy: Seq<u8>, index: int, siblings: Seq<Seq<u8>>)
    requires
        hx != hy,
        paths_separate(hx, hy, index, siblings),
    ensures
        path_root(hx, index, siblings) != path_root(hy, index, siblings),
    decreases siblings.len(),
{
    if siblings.len() > 0 {
        let s = siblings[0];
        if index % 2 == 0 {
            if hx + s == hy + s {
                assert((hx + s).len() == hx.len() + s.len());
                assert((hy + s).len() == hy.len() + s.len());
                assert(hx =~= (hx + s).subrange(0, hx.len() as int));
                assert(hy =~= (hy + s).subrange(0, hy.len() as int));
                assert(false);
            }
            assert(node_hash(hx, s) != node_hash(hy, s));
        } else {
            if s + hx == s + hy {
                assert(hx =~= (s + hx).subrange(s.len() as int, (s + hx).len() as int));
                assert(hy =~= (s + hy).subrange(s.len() as int, (s + hy).len() as int));
                assert(false);
            }
            assert(node_hash(s, hx) != node_hash(s, hy));
        }
        lemma_paths_stay_apart(
            combine(hx, s, index),
            combine(hy, s, index),
            index / 2,
            siblings.drop_first(),
        );
    }
}

spec fn pow256(n: nat) -> nat
    decreases n,
{
    if n == 0 {
        1
    } else {
        256 * pow256((n - 1) as nat)
    }
}

proof fn lemma_le_digits_injective(v: nat, w: nat, n: nat)
    requires
        v < pow256(n),
        w < pow256(n),
        le_digits(v, n) == le_digits(w, n),
    ensures
        v == w,
    decreases n,
{
    if n > 0 {
        assert(le_digits(v, n)[0] == (v % 256) as u8);
        assert(le_digits(w, n)[0] == (w % 256) as u8);
        assert(v % 256 == w % 256);
        assert(le_digits(v / 256, (n - 1) as nat) =~= le_digits(v, n).drop_first());
        assert(le_digits(w / 256, (n - 1) as nat) =~= le_digits(w, n).drop_first());
        assert(v / 256 < pow256((n - 1) as nat)) by (nonlinear_arith)
            requires
                v < 256 * pow256((n - 1) as nat),
        ;
        assert(w / 256 < pow256((n - 1) as nat)) by (nonlinear_arith)
            requires
                w < 256 * pow256((n - 1) as nat),
        ;
        lemma_le_digits_injective(v / 256, w / 256, (n - 1) as nat);
        assert(v == 256 * (v / 256) + v % 256) by (nonlinear_arith);
        assert(w == 256 * (w / 256) + w % 256) by (nonlinear_arith);
    }
}

proof fn lemma_le_digits_len(v: nat, n: nat)
    ensures
        le_digits(v, n).len() == n,
    decreases n,
{
    if n > 0 {
        lemma_le_digits_len(v / 256, (n - 1) as nat);
    }
}

/// Accounts that differ in their balance alone have differing encodings.
proof fn lemma_balance_changes_bytes(a: Account, b: Account)
    requires
        a.address == b.address,
        a.nonce == b.nonce,
        a.balance != b.balance,
    ensures
        account_bytes(a) != account_bytes(b),
{
    assert(pow256(0) == 1);
    assert(pow256(1) == 0x100);
    assert(pow256(2) == 0x1_0000);
    assert(pow256(3) == 0x100_0000);
    assert(pow256(4) == 0x1_0000_0000);
    assert(pow256(5) == 0x100_0000_0000);
    assert(pow256(6) == 0x1_0000_0000_0000);
    assert(pow256(7) == 0x100_0000_0000_0000);
    assert(pow256(8) == 0x1_0000_0000_0000_0000);
    lemma_le_digits_len(a.balance as nat, 8);
    lemma_le_digits_len(b.balance as nat, 8);
    lemma_le_digits_len(a.nonce as nat, 8);
    assert(a.address@.len() == 20);
    if account_bytes(a) == account_bytes(b) {
        assert(le_bytes(a.balance) =~= account_bytes(a).subrange(20, 28));
        assert(le_bytes(b.balance) =~= account_bytes(b).subrange(20, 28));
        lemma_le_digits_injective(a.balance as nat, b.balance as nat, 8);
    }
}

/// If `a` passes the check against `root` with proof `p`, an account that
/// differs from `a` in its balance alone fails it with the same proof,
/// unless SHA-256 maps two of the differing inputs that the two checks hash
/// side by side to one digest.
pub proof fn lemma_tamper_detected(root: Seq<u8>, a: Account, b: Account, p: MerkleProof)
    requires
        p.accepts(root, a),
        b.address == a.address,
        b.nonce == a.nonce,
        b.balance != a.balance,
        hash_separates(account_bytes(a), account_bytes(b)),
        paths_separate(leaf_hash(a), leaf_hash(b), p.leaf_index as int, digests(p.siblings@)),
    ensures
        !p.accepts(root, b),
{
    lemma_balance_changes_bytes(a, b);
    lemma_paths_stay_apart(leaf_hash(a), leaf_hash(b), p.leaf_index as int, digests(p.siblings@));
}

} // verus!
