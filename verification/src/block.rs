//! The Merkle engine and the block validator.
//!
//! A root digest is computed from an ordered sequence of leaf digests by
//! repeated pairwise combination: each level pairs neighbours left to
//! right, an unpaired final digest is combined with itself, and the fold
//! ends when one digest remains. A `Block` stores leaf digests together
//! with a claimed root, and `is_valid` recomputes the root and compares.

use crate::tx::lemma_u64_dec_injective;
use crate::tx::spec_u64_dec;
use crate::tx::u64_to_dec_string;
use crate::tx::Tx;
use vstd::prelude::*;
use vstd::string::StringExecFns;

verus! {

/// The digest obtained by combining a left and a right child digest.
pub open spec fn spec_combine(left: Seq<char>, right: Seq<char>) -> Seq<char> {
    left + seq!['|'] + right
}

/// One level of the fold: neighbours are combined pairwise, left to
/// right, and an unpaired final digest is combined with itself. The
/// result has length `ceil(len / 2)`.
pub open spec fn spec_level(level: Seq<Seq<char>>) -> Seq<Seq<char>> {
    Seq::new(
        ((level.len() + 1) / 2) as nat,
        |i: int|
            if 2 * i + 1 < level.len() {
                spec_combine(level[2 * i], level[2 * i + 1])
            } else {
                spec_combine(level[2 * i], level[2 * i])
            },
    )
}

/// The root of a non-empty sequence of leaf digests: fold levels until a
/// single digest remains. A singleton folds zero times, so its root is
/// the leaf itself. (On an empty sequence this yields the empty digest;
/// the executable entry points return `None` there instead.)
pub open spec fn spec_root(leaves: Seq<Seq<char>>) -> Seq<char>
    decreases leaves.len(),
{
    if leaves.len() == 0 {
        Seq::empty()
    } else if leaves.len() == 1 {
        leaves[0]
    } else {
        spec_root(spec_level(leaves))
    }
}

/// Combines two digests into their parent digest, by joining them with a
/// separator. Order-sensitive: the left digest comes first.
pub fn combine_hash(left: &String, right: &String) -> (r: String)
    ensures
        r@ == spec_combine(left@, right@),
{
    proof {
        reveal_strlit("|");
    }
    let mut r = left.clone();
    r.append("|");
    r.append(right.as_str());
    proof {
        assert(r@ =~= spec_combine(left@, right@));
    }
    r
}

/// Computes the next level up from the given one.
pub fn merkle_level(current: &[String]) -> (r: Vec<String>)
    ensures
        r.deep_view() == spec_level(current.deep_view()),
{
    let ghost lvl = spec_level(current.deep_view());
    let mut result: Vec<String> = Vec::new();
    let mut i: usize = 0;
    while i < current.len()
        invariant
            lvl == spec_level(current.deep_view()),
            i % 2 == 0 || i == current.len(),
            i <= current.len(),
            result.deep_view().len() == (i + 1) / 2,
            forall|j: int| 0 <= j < result.deep_view().len() ==> result.deep_view()[j] == lvl[j],
        decreases current.len() - i,
    {
        let left = &current[i];
        let right = if i + 1 < current.len() {
            &current[i + 1]
        } else {
            left
        };
        let hash = combine_hash(left, right);
        let ghost prev = result.deep_view();
        result.push(hash);
        proof {
            assert(current.deep_view()[i as int] == current@[i as int]@);
            assert(i + 1 < current@.len() ==> current.deep_view()[i + 1] == current@[i + 1]@);
            assert(result.deep_view() =~= prev.push(hash@));
            assert(result.deep_view()[(i / 2) as int] == hash@);
        }
        i = if i + 1 < current.len() {
            i + 2
        } else {
            i + 1
        };
    }
    proof {
        assert(result.deep_view() =~= lvl);
    }
    result
}

/// Folds a sequence of leaf digests into the root digest. Returns `None`
/// exactly when the sequence is empty; otherwise the root of the fold.
pub fn merkle_root(leaves: &[String]) -> (r: Option<String>)
    ensures
        match r {
            None => leaves@.len() == 0,
            Some(root) => leaves@.len() > 0 && root@ == spec_root(leaves.deep_view()),
        },
{
    if leaves.is_empty() {
        return None;
    }
    let mut current: Vec<String> = Vec::new();
    let mut i: usize = 0;
    while i < leaves.len()
        invariant
            i <= leaves@.len(),
            current@.len() == i,
            forall|j: int| 0 <= j < i ==> current@[j] == leaves@[j],
        decreases leaves@.len() - i,
    {
        let s: &String = &leaves[i];
        current.push(s.clone());
        i = i + 1;
    }
    proof {
        assert(current.deep_view() =~= leaves.deep_view());
    }
    while current.len() > 1
        invariant
            current@.len() > 0,
            spec_root(current.deep_view()) == spec_root(leaves.deep_view()),
        decreases current@.len(),
    {
        let next = merkle_level(current.as_slice());
        proof {
            assert(next.deep_view().len() == (current.deep_view().len() + 1) / 2);
        }
        current = next;
    }
    proof {
        assert(current.deep_view()[0] == current@[0]@);
    }
    Some(current[0].clone())
}

/// A block: an ordered sequence of transaction digests and the root
/// digest claimed to summarize them.
pub struct Block {
    pub tx_hashes: Vec<String>,
    pub merkle_root: String,
}

impl Block {
    /// Whether the stored root is the root of the stored digests. An
    /// empty block is never valid.
    pub open spec fn spec_valid(&self) -> bool {
        self.tx_hashes@.len() > 0 && self.merkle_root@ == spec_root(self.tx_hashes.deep_view())
    }

    /// Recomputes the root of the stored transaction digests.
    pub fn merkle_root(&self) -> (r: Option<String>)
        ensures
            match r {
                None => self.tx_hashes@.len() == 0,
                Some(root) => self.tx_hashes@.len() > 0 && root@ == spec_root(
                    self.tx_hashes.deep_view(),
                ),
            },
    {
        merkle_root(self.tx_hashes.as_slice())
    }

    /// Recomputes the root and compares it with the stored one. False
    /// for an empty block regardless of the stored root.
    pub fn is_valid(&self) -> (r: bool)
        ensures
            r == self.spec_valid(),
    {
        let merkle_root_calculated = self.merkle_root();
        match merkle_root_calculated {
            None => false,
            Some(root) => self.merkle_root == root,
        }
    }
}

/// A shared suffix cancels: when appending the same suffix to two
/// sequences gives the same result, the two sequences were equal.
proof fn lemma_cancel_suffix(a: Seq<char>, a2: Seq<char>, x: Seq<char>)
    ensures
        a + x == a2 + x ==> a == a2,
{
    if a + x == a2 + x {
        assert((a + x).len() == a.len() + x.len());
        assert((a2 + x).len() == a2.len() + x.len());
        assert(a =~= (a + x).subrange(0, a.len() as int));
        assert(a2 =~= (a2 + x).subrange(0, a2.len() as int));
    }
}

/// A shared prefix cancels: when prepending the same prefix to two
/// sequences gives the same result, the two sequences were equal.
proof fn lemma_cancel_prefix(x: Seq<char>, b: Seq<char>, b2: Seq<char>)
    ensures
        x + b == x + b2 ==> b == b2,
{
    if x + b == x + b2 {
        assert((x + b).len() == x.len() + b.len());
        assert((x + b2).len() == x.len() + b2.len());
        assert(b =~= (x + b).subrange(x.len() as int, (x + b).len() as int));
        assert(b2 =~= (x + b2).subrange(x.len() as int, (x + b2).len() as int));
    }
}

/// With one side fixed, `spec_combine` never maps two different digests
/// to the same parent; nor does combining a digest with itself.
pub proof fn lemma_combine_injective(a: Seq<char>, b: Seq<char>, a2: Seq<char>, b2: Seq<char>)
    ensures
        b == b2 && spec_combine(a, b) == spec_combine(a2, b2) ==> a == a2,
        a == a2 && spec_combine(a, b) == spec_combine(a2, b2) ==> b == b2,
        a == b && a2 == b2 && spec_combine(a, b) == spec_combine(a2, b2) ==> a == a2,
{
    if b == b2 && spec_combine(a, b) == spec_combine(a2, b2) {
        assert(spec_combine(a, b) =~= a + (seq!['|'] + b));
        assert(spec_combine(a2, b2) =~= a2 + (seq!['|'] + b));
        lemma_cancel_suffix(a, a2, seq!['|'] + b);
    }
    if a == a2 && spec_combine(a, b) == spec_combine(a2, b2) {
        assert(spec_combine(a, b) =~= (a + seq!['|']) + b);
        assert(spec_combine(a2, b2) =~= (a + seq!['|']) + b2);
        lemma_cancel_prefix(a + seq!['|'], b, b2);
    }
    if a == b && a2 == b2 && spec_combine(a, b) == spec_combine(a2, b2) {
        assert(spec_combine(a, b).len() == a.len() + 1 + b.len());
        assert(spec_combine(a2, b2).len() == a2.len() + 1 + b2.len());
        assert(a =~= spec_combine(a, b).subrange(0, a.len() as int));
        assert(a2 =~= spec_combine(a2, b2).subrange(0, a2.len() as int));
    }
}

/// Changing exactly one digest of a level changes exactly one digest of
/// the next level up: the parent of the changed position.
proof fn lemma_level_one_change(s: Seq<Seq<char>>, s2: Seq<Seq<char>>, i: int)
    requires
        s.len() == s2.len(),
        0 <= i < s.len(),
        s[i] != s2[i],
        forall|j: int| 0 <= j < s.len() && j != i ==> s[j] == s2[j],
    ensures
        spec_level(s).len() == spec_level(s2).len(),
        0 <= i / 2 < spec_level(s).len(),
        spec_level(s)[i / 2] != spec_level(s2)[i / 2],
        forall|j: int|
            0 <= j < spec_level(s).len() && j != i / 2 ==> spec_level(s)[j] == spec_level(s2)[j],
{
    let n = s.len() as int;
    assert forall|j: int|
        0 <= j < spec_level(s).len() && j != i / 2 implies spec_level(s)[j] == spec_level(s2)[j] by {
        assert(2 * j != i && 2 * j + 1 != i);
        assert(s[2 * j] == s2[2 * j]);
        if 2 * j + 1 < n {
            assert(s[2 * j + 1] == s2[2 * j + 1]);
        }
    }
    let p = 2 * (i / 2);
    if p + 1 < n {
        if i == p {
            assert(s[p + 1] == s2[p + 1]);
            lemma_combine_injective(s[p], s[p + 1], s2[p], s2[p + 1]);
        } else {
            assert(i == p + 1);
            assert(s[p] == s2[p]);
            lemma_combine_injective(s[p], s[p + 1], s2[p], s2[p + 1]);
        }
    } else {
        assert(i == p);
        lemma_combine_injective(s[p], s[p], s2[p], s2[p]);
    }
}

/// Changing exactly one digest of a non-empty level changes the root.
proof fn lemma_root_one_change(s: Seq<Seq<char>>, s2: Seq<Seq<char>>, i: int)
    requires
        s.len() == s2.len(),
        0 <= i < s.len(),
        s[i] != s2[i],
        forall|j: int| 0 <= j < s.len() && j != i ==> s[j] == s2[j],
    ensures
        spec_root(s) != spec_root(s2),
    decreases s.len(),
{
    if s.len() == 1 {
        assert(spec_root(s) == s[0]);
    } else {
        lemma_level_one_change(s, s2, i);
        lemma_root_one_change(spec_level(s), spec_level(s2), i / 2);
    }
}

/// Replacing any single leaf digest with a different one changes the
/// root: the root commits to every leaf.
pub proof fn lemma_root_detects_change(leaves: Seq<Seq<char>>, i: int, d: Seq<char>)
    requires
        0 <= i < leaves.len(),
        d != leaves[i],
    ensures
        spec_root(leaves.update(i, d)) != spec_root(leaves),
{
    lemma_root_one_change(leaves.update(i, d), leaves, i);
}

/// An empty sequence of leaves has no root, so a block without
/// transaction digests is never valid, whatever root it stores.
pub proof fn lemma_empty_block_never_valid(b: Block)
    requires
        b.tx_hashes@.len() == 0,
    ensures
        !b.spec_valid(),
{
}

/// The root of a single leaf is that leaf, unchanged.
pub proof fn lemma_root_singleton(d: Seq<char>)
    ensures
        spec_root(seq![d]) == d,
{
}

/// Computing a root is deterministic: every computation over the same
/// leaf digests yields `spec_root` of them — as `merkle_root` ensures —
/// so repeated computations agree.
pub proof fn lemma_root_deterministic(leaves: Seq<Seq<char>>, r1: Seq<char>, r2: Seq<char>)
    requires
        r1 == spec_root(leaves),
        r2 == spec_root(leaves),
    ensures
        r1 == r2,
{
}

/// The root of two leaves is their combination, in order; so when
/// combining the two in the other order gives a different digest, the
/// root depends on the order of the leaves.
pub proof fn lemma_root_pair(a: Seq<char>, b: Seq<char>)
    ensures
        spec_root(seq![a, b]) == spec_combine(a, b),
        spec_combine(a, b) != spec_combine(b, a) ==> spec_root(seq![a, b]) != spec_root(
            seq![b, a],
        ),
{
    assert(seq![a, b].len() == 2);
    assert(spec_level(seq![a, b]) =~= seq![spec_combine(a, b)]);
    assert(spec_root(seq![spec_combine(a, b)]) == spec_combine(a, b));
    assert(spec_level(seq![b, a]) =~= seq![spec_combine(b, a)]);
    assert(spec_root(seq![spec_combine(b, a)]) == spec_combine(b, a));
}

/// With three leaves, the unpaired last leaf is combined with itself,
/// not promoted unchanged.
pub proof fn lemma_root_three(a: Seq<char>, b: Seq<char>, c: Seq<char>)
    ensures
        spec_root(seq![a, b, c]) == spec_combine(spec_combine(a, b), spec_combine(c, c)),
{
    assert(spec_level(seq![a, b, c]) =~= seq![spec_combine(a, b), spec_combine(c, c)]);
    lemma_root_pair(spec_combine(a, b), spec_combine(c, c));
}

/// A block built from a non-empty leaf sequence together with that
/// sequence's own root is valid.
pub proof fn lemma_block_round_trip(b: Block)
    requires
        b.tx_hashes@.len() > 0,
        b.merkle_root@ == spec_root(b.tx_hashes.deep_view()),
    ensures
        b.spec_valid(),
{
}

/// A block that differs from a valid one in a single leaf digest, while
/// keeping the stored root, is invalid.
pub proof fn lemma_mutated_block_invalid(b: Block, b2: Block, i: int)
    requires
        b.spec_valid(),
        b2.merkle_root@ == b.merkle_root@,
        b2.tx_hashes@.len() == b.tx_hashes@.len(),
        0 <= i < b.tx_hashes@.len(),
        b2.tx_hashes.deep_view()[i] != b.tx_hashes.deep_view()[i],
        forall|j: int|
            0 <= j < b.tx_hashes@.len() && j != i ==> b2.tx_hashes.deep_view()[j]
                == b.tx_hashes.deep_view()[j],
    ensures
        !b2.spec_valid(),
{
    lemma_root_one_change(b2.tx_hashes.deep_view(), b.tx_hashes.deep_view(), i);
}

/// The capability of producing a digest from one's own field values.
/// The executable digest is pinned to the type's specification-level
/// digest, so hashing is deterministic: equal values give equal digests.
pub trait Hashable {
    spec fn spec_hash(&self) -> Seq<char>;

    fn hash(&self) -> (r: String)
        ensures
            r@ == self.spec_hash(),
    ;
}

/// The leaf digests of a sequence of hashable items, in item order.
pub open spec fn spec_hashes<T: Hashable>(items: Seq<T>) -> Seq<Seq<char>> {
    Seq::new(items.len(), |i: int| items[i].spec_hash())
}

/// Hashes each item in order and folds the digests into the root.
/// Returns `None` exactly when there are no items.
pub fn merkle_root_of<T: Hashable>(items: &[T]) -> (r: Option<String>)
    ensures
        match r {
            None => items@.len() == 0,
            Some(root) => items@.len() > 0 && root@ == spec_root(spec_hashes(items@)),
        },
{
    if items.is_empty() {
        return None;
    }
    let mut hashes: Vec<String> = Vec::new();
    let mut i: usize = 0;
    while i < items.len()
        invariant
            i <= items@.len(),
            hashes@.len() == i,
            forall|j: int| 0 <= j < i ==> hashes@[j]@ == items@[j].spec_hash(),
        decreases items@.len() - i,
    {
        let item: &T = &items[i];
        hashes.push(item.hash());
        i = i + 1;
    }
    proof {
        assert(hashes.deep_view() =~= spec_hashes(items@));
    }
    merkle_root(hashes.as_slice())
}

impl Hashable for Tx {
    /// The digest of a transaction: its fields in order, joined with a
    /// separator, the amount in decimal.
    open spec fn spec_hash(&self) -> Seq<char> {
        self.from@ + seq!['-'] + self.to@ + seq!['-'] + spec_u64_dec(self.amount as nat)
    }

    fn hash(&self) -> (r: String) {
        proof {
            reveal_strlit("-");
        }
        let mut r = self.from.clone();
        r.append("-");
        r.append(self.to.as_str());
        r.append("-");
        let amount = u64_to_dec_string(self.amount);
        r.append(amount.as_str());
        proof {
            assert(r@ =~= self.spec_hash());
        }
        r
    }
}

/// Transactions that agree on two of the three fields but differ in the
/// third never share a digest: changing any single field changes the
/// digest. (Two fields changed together may collide, since the fields
/// are joined with a plain separator that they may themselves contain.)
pub proof fn lemma_tx_hash_field_injective(t1: Tx, t2: Tx)
    ensures
        t1.to@ == t2.to@ && t1.amount == t2.amount && t1.spec_hash() == t2.spec_hash()
            ==> t1.from@ == t2.from@,
        t1.from@ == t2.from@ && t1.amount == t2.amount && t1.spec_hash() == t2.spec_hash()
            ==> t1.to@ == t2.to@,
        t1.from@ == t2.from@ && t1.to@ == t2.to@ && t1.spec_hash() == t2.spec_hash()
            ==> t1.amount == t2.amount,
{
    let sep = seq!['-'];
    let d1 = spec_u64_dec(t1.amount as nat);
    let d2 = spec_u64_dec(t2.amount as nat);
    if t1.to@ == t2.to@ && t1.amount == t2.amount && t1.spec_hash() == t2.spec_hash() {
        assert(t1.spec_hash() =~= t1.from@ + (sep + t1.to@ + sep + d1));
        assert(t2.spec_hash() =~= t2.from@ + (sep + t1.to@ + sep + d1));
        lemma_cancel_suffix(t1.from@, t2.from@, sep + t1.to@ + sep + d1);
    }
    if t1.from@ == t2.from@ && t1.amount == t2.amount && t1.spec_hash() == t2.spec_hash() {
        assert(t1.spec_hash() =~= (t1.from@ + sep) + (t1.to@ + (sep + d1)));
        assert(t2.spec_hash() =~= (t1.from@ + sep) + (t2.to@ + (sep + d1)));
        lemma_cancel_prefix(t1.from@ + sep, t1.to@ + (sep + d1), t2.to@ + (sep + d1));
        lemma_cancel_suffix(t1.to@, t2.to@, sep + d1);
    }
    if t1.from@ == t2.from@ && t1.to@ == t2.to@ && t1.spec_hash() == t2.spec_hash() {
        assert(t1.spec_hash() =~= (t1.from@ + sep + t1.to@ + sep) + d1);
        assert(t2.spec_hash() =~= (t1.from@ + sep + t1.to@ + sep) + d2);
        lemma_cancel_prefix(t1.from@ + sep + t1.to@ + sep, d1, d2);
        lemma_u64_dec_injective(t1.amount as nat, t2.amount as nat);
    }
}

} // verus!
