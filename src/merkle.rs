//! Merkle trie over quantised time: timestamps are filed under the base-`BASE`
//! digits of their millis, every node holds the XOR of the hashes filed
//! below it, and two tries are compared for their earliest divergence.

use vstd::prelude::*;

use crate::timestamp::{ts_hash, Timestamp, TimestampView};

verus! {

/// A node of the trie: the XOR of the hashes below it, whether a timestamp
/// ends here, and its children indexed by digit (`None` where absent).
#[derive(Debug)]
pub struct MerkleTrieNode {
    pub hash: u64,
    pub stored: bool,
    pub children: Vec<Option<MerkleTrieNode>>,
}

/// A trie of timestamps keyed in base `BASE`, with the number of insertions.
#[derive(Debug)]
pub struct MerkleTrie<const BASE: usize> {
    root: MerkleTrieNode,
    length: u64,
}

/// The child of `n` for digit `d`.
pub open spec fn child(n: MerkleTrieNode, d: int) -> Option<MerkleTrieNode> {
    if 0 <= d < n.children@.len() {
        n.children@[d]
    } else {
        None
    }
}

/// The node reached from `n` by following the digits of `p`.
pub open spec fn node_at(n: MerkleTrieNode, p: Seq<usize>) -> Option<MerkleTrieNode>
    decreases p.len(),
{
    if p.len() == 0 {
        Some(n)
    } else {
        match child(n, p[0] as int) {
            Some(c) => node_at(c, p.drop_first()),
            None => None,
        }
    }
}

pub open spec fn present(n: MerkleTrieNode, p: Seq<usize>) -> bool {
    node_at(n, p) is Some
}

/// The hash at path `p`, zero where there is no node.
pub open spec fn hash_at(n: MerkleTrieNode, p: Seq<usize>) -> u64 {
    match node_at(n, p) {
        Some(m) => m.hash,
        None => 0,
    }
}

pub open spec fn stored_at(n: MerkleTrieNode, p: Seq<usize>) -> bool {
    match node_at(n, p) {
        Some(m) => m.stored,
        None => false,
    }
}

pub open spec fn is_prefix(p: Seq<usize>, k: Seq<usize>) -> bool {
    p.len() <= k.len() && k.subrange(0, p.len() as int) == p
}

/// How inserting hash `h` under key `key` changes a node, path by path.
pub open spec fn inserted(before: MerkleTrieNode, after: MerkleTrieNode, key: Seq<usize>, h: u64) -> bool {
    &&& forall|q: Seq<usize>| #[trigger] present(after, q) == (present(before, q) || is_prefix(q, key))
    &&& forall|q: Seq<usize>| #[trigger] hash_at(after, q) == (if is_prefix(q, key) {
        hash_at(before, q) ^ h
    } else {
        hash_at(before, q)
    })
    &&& forall|q: Seq<usize>| #[trigger] stored_at(after, q) == (stored_at(before, q) || q == key)
}

/// The digits of `n` in base `base`, most significant first, no leading
/// zeros (empty for zero).
pub open spec fn key_of(n: nat, base: nat) -> Seq<usize>
    decreases n
    via key_of_decreases
{
    if n == 0 || base < 2 {
        seq![]
    } else {
        key_of(n / base, base).push((n % base) as usize)
    }
}

#[via_fn]
proof fn key_of_decreases(n: nat, base: nat) {
    if n != 0 && base >= 2 {
        assert(n / base < n) by (nonlinear_arith)
            requires n > 0, base >= 2;
    }
}

/// Millis read as an unsigned 64-bit number (two's complement when negative).
pub open spec fn millis_as_unsigned(m: i64) -> nat {
    if m >= 0 {
        m as nat
    } else {
        (m + 0x1_0000_0000_0000_0000) as nat
    }
}

/// The key under which a timestamp is filed.
pub open spec fn ts_key(t: TimestampView, base: nat) -> Seq<usize> {
    key_of(millis_as_unsigned(t.millis), base)
}

/// The number whose base-`base` digits, most significant first, are `p`.
pub open spec fn key_value(p: Seq<usize>, base: nat) -> nat
    decreases p.len(),
{
    if p.len() == 0 {
        0
    } else {
        key_value(p.drop_last(), base) * base + p.last() as nat
    }
}

/// The millis of a key, saturated at `i64::MAX`.
pub open spec fn key_millis(p: Seq<usize>, base: nat) -> i64 {
    if key_value(p, base) <= i64::MAX {
        key_value(p, base) as i64
    } else {
        i64::MAX
    }
}

/// Digits and value are inverse of each other.
pub proof fn lemma_key_round_trip(n: nat, base: nat)
    requires
        2 <= base <= usize::MAX,
    ensures
        key_value(key_of(n, base), base) == n,
        forall|i: int| 0 <= i < key_of(n, base).len() ==> (#[trigger] key_of(n, base)[i] as nat) < base,
    decreases n,
{
    if n > 0 {
        assert(n / base < n) by (nonlinear_arith)
            requires n > 0, base >= 2;
        lemma_key_round_trip(n / base, base);
        let k = key_of(n / base, base);
        assert(key_of(n, base).drop_last() =~= k);
        assert(n == (n / base) * base + n % base) by (nonlinear_arith)
            requires base >= 2;
        assert(n % base < base) by (nonlinear_arith)
            requires base >= 2;
    }
}

impl MerkleTrieNode {
    /// A node with no hash, no children, not stored.
    pub fn empty() -> (r: MerkleTrieNode)
        ensures
            r.hash == 0,
            !r.stored,
            r.children@.len() == 0,
    {
        MerkleTrieNode { hash: 0, stored: false, children: Vec::new() }
    }
}

proof fn lemma_node_at_cons(n: MerkleTrieNode, q: Seq<usize>)
    requires
        q.len() > 0,
    ensures
        node_at(n, q) == match child(n, q[0] as int) {
            Some(c) => node_at(c, q.drop_first()),
            None => None,
        },
{
}

proof fn lemma_empty_node(n: MerkleTrieNode, q: Seq<usize>)
    requires
        n.children@.len() == 0,
    ensures
        present(n, q) == (q.len() == 0),
{
}

proof fn lemma_prefix_cons(q: Seq<usize>, k: Seq<usize>)
    requires
        q.len() > 0,
        k.len() > 0,
    ensures
        is_prefix(q, k) == (q[0] == k[0] && is_prefix(q.drop_first(), k.drop_first())),
        (q == k) == (q[0] == k[0] && q.drop_first() == k.drop_first()),
{
    if q[0] == k[0] && is_prefix(q.drop_first(), k.drop_first()) {
        assert forall|j: int| 0 <= j < q.len() implies k.subrange(0, q.len() as int)[j] == q[j] by {
            if j > 0 {
                assert(k.drop_first().subrange(0, q.len() - 1)[j - 1] == q.drop_first()[j - 1]);
            }
        }
        assert(k.subrange(0, q.len() as int) =~= q);
    }
    if is_prefix(q, k) {
        assert(k.drop_first().subrange(0, q.len() - 1) =~= q.drop_first());
        assert(q[0] == k.subrange(0, q.len() as int)[0]);
    }
    if q[0] == k[0] && q.drop_first() == k.drop_first() {
        assert(q.len() == k.len());
        assert forall|j: int| 0 <= j < q.len() implies q[j] == k[j] by {
            if j > 0 {
                assert(q.drop_first()[j - 1] == k.drop_first()[j - 1]);
            }
        }
        assert(q =~= k);
    }
}

/// Files hash `h` under `key[i..]` below `node`.
fn insert_at(node: &mut MerkleTrieNode, key: &Vec<usize>, i: usize, h: u64)
    requires
        i <= key@.len(),
    ensures
        inserted(*old(node), *final(node), key@.subrange(i as int, key@.len() as int), h),
    decreases key@.len() - i,
{
    let ghost before = *node;
    let ghost suffix = key@.subrange(i as int, key@.len() as int);
    node.hash = node.hash ^ h;
    if i == key.len() {
        node.stored = true;
        proof {
            assert(suffix.len() == 0);
            assert forall|q: Seq<usize>| q.len() > 0 implies node_at(*node, q) == node_at(before, q) by {
                lemma_node_at_cons(*node, q);
                lemma_node_at_cons(before, q);
                assert(child(*node, q[0] as int) == child(before, q[0] as int));
            }
            assert forall|q: Seq<usize>| #[trigger] is_prefix(q, suffix) == (q.len() == 0) by {
                if q.len() == 0 {
                    assert(suffix.subrange(0, 0) =~= q);
                }
            }
            assert forall|q: Seq<usize>| q.len() == 0 implies q == suffix by {
                assert(q =~= suffix);
            }
            assert forall|q: Seq<usize>| #[trigger] present(*node, q) == (present(before, q) || is_prefix(q, suffix)) by {}
            assert forall|q: Seq<usize>| #[trigger] hash_at(*node, q) == (if is_prefix(q, suffix) {
                hash_at(before, q) ^ h
            } else {
                hash_at(before, q)
            }) by {}
            assert forall|q: Seq<usize>| #[trigger] stored_at(*node, q) == (stored_at(before, q) || q == suffix) by {
                if q.len() == 0 {
                    assert(q == suffix);
                }
            }
        }
        return;
    }
    let d = key[i];
    let ghost old_len = node.children@.len();
    while node.children.len() <= d
        invariant
            node.hash == before.hash ^ h,
            node.stored == before.stored,
            node.children@.len() >= old_len,
            forall|j: int| 0 <= j < node.children@.len() ==> #[trigger] node.children@[j] == (if j
                < old_len {
                before.children@[j]
            } else {
                None
            }),
            old_len == before.children@.len(),
        decreases d + 1 - node.children@.len(),
    {
        node.children.push(None);
    }
    let ghost padded = node.children@;
    let taken = node.children.remove(d);
    let mut c = match taken {
        Some(c) => c,
        None => MerkleTrieNode::empty(),
    };
    let ghost c0 = c;
    insert_at(&mut c, key, i + 1, h);
    node.children.insert(d, Some(c));
    proof {
        assert(node.children@ =~= padded.update(d as int, Some(c)));
        let suffix1 = key@.subrange(i + 1, key@.len() as int);
        assert(suffix.drop_first() =~= suffix1);
        assert(suffix[0] == d);
        assert forall|j: int| j != d ==> #[trigger] child(*node, j) == child(before, j) by {}
        assert(child(*node, d as int) == Some(c));
        assert forall|q: Seq<usize>| q.len() > 0 ==> #[trigger] node_at(*node, q) == (if q[0] == d {
            node_at(c, q.drop_first())
        } else {
            node_at(before, q)
        }) by {
            if q.len() > 0 {
                lemma_node_at_cons(*node, q);
                lemma_node_at_cons(before, q);
            }
        }
        assert forall|q: Seq<usize>| q.len() > 0 && q[0] == d ==> #[trigger] node_at(before, q) == (
        if child(before, d as int) is Some {
            node_at(c0, q.drop_first())
        } else {
            None::<MerkleTrieNode>
        }) by {
            if q.len() > 0 {
                lemma_node_at_cons(before, q);
            }
        }
        assert forall|q: Seq<usize>| #[trigger] present(*node, q) == (present(before, q) || is_prefix(q, suffix)) by {
            if q.len() > 0 {
                let q1 = q.drop_first();
                assert(present(c, q1) == (present(c0, q1) || is_prefix(q1, suffix1)));
                if q1.len() == 0 {
                    assert(suffix1.subrange(0, 0) =~= q1);
                }
                lemma_prefix_cons(q, suffix);
                if q[0] == d && child(before, d as int) is None {
                    lemma_empty_node(c0, q.drop_first());
                }
            } else {
                assert(suffix.subrange(0, 0) =~= q);
            }
        }
        assert forall|q: Seq<usize>| #[trigger] hash_at(*node, q) == (if is_prefix(q, suffix) {
            hash_at(before, q) ^ h
        } else {
            hash_at(before, q)
        }) by {
            if q.len() > 0 {
                let q1 = q.drop_first();
                assert(hash_at(c, q1) == (if is_prefix(q1, suffix1) {
                    hash_at(c0, q1) ^ h
                } else {
                    hash_at(c0, q1)
                }));
                lemma_prefix_cons(q, suffix);
                if q[0] == d && child(before, d as int) is None {
                    lemma_empty_node(c0, q.drop_first());
                    assert(present(c0, q.drop_first()) ==> q.drop_first().len() == 0);
                    if q.drop_first().len() == 0 {
                        assert(node_at(c0, q.drop_first()) == Some(c0));
                    }
                }
            } else {
                assert(suffix.subrange(0, 0) =~= q);
            }
        }
        assert forall|q: Seq<usize>| #[trigger] stored_at(*node, q) == (stored_at(before, q) || q == suffix) by {
            if q.len() > 0 {
                let q1 = q.drop_first();
                assert(stored_at(c, q1) == (stored_at(c0, q1) || q1 == suffix1));
                lemma_prefix_cons(q, suffix);
                if q[0] == d && child(before, d as int) is None {
                    lemma_empty_node(c0, q.drop_first());
                    if q.drop_first().len() == 0 {
                        assert(node_at(c0, q.drop_first()) == Some(c0));
                    }
                }
            } else {
                assert(q != suffix);
            }
        }
    }
}


/// The hash of the child for digit `d`, zero where absent.
pub open spec fn child_hash(n: MerkleTrieNode, d: int) -> u64 {
    match child(n, d) {
        Some(c) => c.hash,
        None => 0,
    }
}

/// The smallest digit from `i` on that has a child in `n`.
pub open spec fn first_child_from(n: MerkleTrieNode, i: nat) -> Option<nat>
    decreases n.children@.len() - i,
{
    if i >= n.children@.len() {
        None
    } else if n.children@[i as int] is Some {
        Some(i)
    } else {
        first_child_from(n, i + 1)
    }
}

/// The smallest digit from `i` on whose child hashes differ between `a` and
/// `b`, a missing child counting as hash zero.
pub open spec fn first_diff_from(a: MerkleTrieNode, b: MerkleTrieNode, i: nat) -> Option<nat>
    decreases a.children@.len() + b.children@.len() - i,
{
    if i >= a.children@.len() && i >= b.children@.len() {
        None
    } else if child_hash(a, i as int) != child_hash(b, i as int) {
        Some(i)
    } else {
        first_diff_from(a, b, i + 1)
    }
}

/// The path to the first stored node below `n`, always taking the smallest
/// digit; it ends early at a node without children.
pub open spec fn first_stored(n: MerkleTrieNode) -> Seq<usize>
    decreases n,
{
    if n.stored {
        seq![]
    } else {
        match first_child_from(n, 0) {
            Some(d) => if child(n, d as int) is Some {
                seq![d as usize] + first_stored(child(n, d as int)->Some_0)
            } else {
                seq![]
            },
            None => seq![],
        }
    }
}

/// The lockstep walk of two nodes towards their earliest divergence: the
/// digits taken and the two nodes where it stops (`None` on a side that has
/// no child there). It stops where either side has no children or no child
/// hashes differ, and otherwise descends into the smallest differing digit.
pub open spec fn walk(a: MerkleTrieNode, b: MerkleTrieNode) -> (Seq<usize>, Option<MerkleTrieNode>, Option<MerkleTrieNode>)
    decreases a,
{
    if first_child_from(a, 0) is None || first_child_from(b, 0) is None {
        (seq![], Some(a), Some(b))
    } else {
        match first_diff_from(a, b, 0) {
            None => (seq![], Some(a), Some(b)),
            Some(d) => match (child(a, d as int), child(b, d as int)) {
                (Some(ca), Some(cb)) => {
                    let r = walk(ca, cb);
                    (seq![d as usize] + r.0, r.1, r.2)
                },
                (x, y) => (seq![d as usize], x, y),
            },
        }
    }
}

/// The millis of the first stored key below where the walk stopped on one
/// side.
pub open spec fn candidate(o: Option<MerkleTrieNode>, p: Seq<usize>, base: nat) -> Option<i64> {
    match o {
        Some(n) => Some(key_millis(p + first_stored(n), base)),
        None => None,
    }
}

pub open spec fn min_i64(a: i64, b: i64) -> i64 {
    if a <= b { a } else { b }
}

/// Where two tries first diverge: `None` when both are empty or their root
/// hashes agree, `0` when exactly one is empty, else the smaller of the
/// first stored keys below the two ends of the walk.
pub open spec fn diff_spec<const BASE: usize>(a: MerkleTrie<BASE>, b: MerkleTrie<BASE>) -> Option<i64> {
    if a.len() == 0 && b.len() == 0 {
        None
    } else if a.len() == 0 || b.len() == 0 {
        Some(0)
    } else if a.root_node().hash == b.root_node().hash {
        None
    } else {
        let w = walk(a.root_node(), b.root_node());
        match (candidate(w.1, w.0, BASE as nat), candidate(w.2, w.0, BASE as nat)) {
            (Some(x), Some(y)) => Some(min_i64(x, y)),
            (Some(x), None) => Some(x),
            (None, Some(y)) => Some(y),
            (None, None) => Some(key_millis(w.0, BASE as nat)),
        }
    }
}

pub open spec fn deref_opt(o: Option<&MerkleTrieNode>) -> Option<MerkleTrieNode> {
    match o {
        Some(n) => Some(*n),
        None => None,
    }
}

proof fn lemma_child_decreases(n: MerkleTrieNode, d: int)
    requires
        child(n, d) is Some,
    ensures
        decreases_to!(n => child(n, d)->Some_0),
{
    broadcast use vstd::std_specs::vec::axiom_vec_index_decreases;

    assert(decreases_to!(n => n.children));
    assert(decreases_to!(n.children => n.children[d]));
}

fn child_ref(n: &MerkleTrieNode, d: usize) -> (r: Option<&MerkleTrieNode>)
    ensures
        deref_opt(r) == child(*n, d as int),
{
    if d < n.children.len() {
        match &n.children[d] {
            Some(c) => Some(c),
            None => None,
        }
    } else {
        None
    }
}

fn child_hash_of(n: &MerkleTrieNode, d: usize) -> (r: u64)
    ensures
        r == child_hash(*n, d as int),
{
    match child_ref(n, d) {
        Some(c) => c.hash,
        None => 0,
    }
}

fn first_child(n: &MerkleTrieNode) -> (r: Option<usize>)
    ensures
        r matches Some(d) ==> first_child_from(*n, 0) == Some(d as nat),
        r is None ==> first_child_from(*n, 0) is None,
{
    let mut i: usize = 0;
    while i < n.children.len()
        invariant
            i <= n.children@.len(),
            first_child_from(*n, 0) == first_child_from(*n, i as nat),
        decreases n.children.len() - i,
    {
        if n.children[i].is_some() {
            return Some(i);
        }
        i = i + 1;
    }
    None
}

fn first_diff(a: &MerkleTrieNode, b: &MerkleTrieNode) -> (r: Option<usize>)
    ensures
        r matches Some(d) ==> first_diff_from(*a, *b, 0) == Some(d as nat),
        r is None ==> first_diff_from(*a, *b, 0) is None,
{
    let n = if a.children.len() >= b.children.len() { a.children.len() } else { b.children.len() };
    let mut i: usize = 0;
    while i < n
        invariant
            i <= n,
            n == a.children@.len() || n == b.children@.len(),
            n >= a.children@.len() && n >= b.children@.len(),
            first_diff_from(*a, *b, 0) == first_diff_from(*a, *b, i as nat),
        decreases n - i,
    {
        if child_hash_of(a, i) != child_hash_of(b, i) {
            return Some(i);
        }
        i = i + 1;
    }
    None
}

/// Appends to `path` the digits down to the first stored node below `n`.
fn descend_first_stored(n: &MerkleTrieNode, path: &mut Vec<usize>)
    ensures
        final(path)@ == old(path)@ + first_stored(*n),
    decreases n,
{
    if n.stored {
        assert(final(path)@ =~= old(path)@ + first_stored(*n));
        return;
    }
    match first_child(n) {
        Some(d) => match child_ref(n, d) {
            Some(c) => {
                proof {
                    lemma_child_decreases(*n, d as int);
                }
                path.push(d);
                descend_first_stored(c, path);
                assert(final(path)@ =~= old(path)@ + first_stored(*n));
            },
            None => {
                assert(final(path)@ =~= old(path)@ + first_stored(*n));
            },
        },
        None => {
            assert(final(path)@ =~= old(path)@ + first_stored(*n));
        },
    }
}

/// Walks `a` and `b` in lockstep, appending the digits taken to `prefix`;
/// returns where the walk stopped on each side.
fn walk_nodes<'a>(a: &'a MerkleTrieNode, b: &'a MerkleTrieNode, prefix: &mut Vec<usize>) -> (r: (
    Option<&'a MerkleTrieNode>,
    Option<&'a MerkleTrieNode>,
))
    ensures
        final(prefix)@ == old(prefix)@ + walk(*a, *b).0,
        deref_opt(r.0) == walk(*a, *b).1,
        deref_opt(r.1) == walk(*a, *b).2,
    decreases a,
{
    if first_child(a).is_none() || first_child(b).is_none() {
        assert(final(prefix)@ =~= old(prefix)@ + walk(*a, *b).0);
        return (Some(a), Some(b));
    }
    match first_diff(a, b) {
        None => {
            assert(final(prefix)@ =~= old(prefix)@ + walk(*a, *b).0);
            (Some(a), Some(b))
        },
        Some(d) => {
            prefix.push(d);
            let ca = child_ref(a, d);
            let cb = child_ref(b, d);
            match (ca, cb) {
                (Some(x), Some(y)) => {
                    proof {
                        lemma_child_decreases(*a, d as int);
                    }
                    let r = walk_nodes(x, y, prefix);
                    assert(final(prefix)@ =~= old(prefix)@ + walk(*a, *b).0);
                    r
                },
                _ => {
                    assert(final(prefix)@ =~= old(prefix)@ + walk(*a, *b).0);
                    (ca, cb)
                },
            }
        },
    }
}

fn copy_path(v: &Vec<usize>) -> (r: Vec<usize>)
    ensures
        r@ == v@,
{
    let mut r: Vec<usize> = Vec::new();
    let mut i: usize = 0;
    while i < v.len()
        invariant
            i <= v@.len(),
            r@ == v@.subrange(0, i as int),
        decreases v.len() - i,
    {
        r.push(v[i]);
        i = i + 1;
        assert(r@ =~= v@.subrange(0, i as int));
    }
    assert(r@ =~= v@);
    r
}

proof fn lemma_first_diff_symmetric(a: MerkleTrieNode, b: MerkleTrieNode, i: nat)
    ensures
        first_diff_from(a, b, i) == first_diff_from(b, a, i),
    decreases a.children@.len() + b.children@.len() - i,
{
    if !(i >= a.children@.len() && i >= b.children@.len()) && child_hash(a, i as int) == child_hash(b, i as int) {
        lemma_first_diff_symmetric(a, b, i + 1);
    }
}

proof fn lemma_walk_symmetric(a: MerkleTrieNode, b: MerkleTrieNode)
    ensures
        walk(b, a) == (walk(a, b).0, walk(a, b).2, walk(a, b).1),
    decreases a,
{
    lemma_first_diff_symmetric(a, b, 0);
    if first_child_from(a, 0) is Some && first_child_from(b, 0) is Some {
        if let Some(d) = first_diff_from(a, b, 0) {
            if child(a, d as int) is Some && child(b, d as int) is Some {
                lemma_child_decreases(a, d as int);
                lemma_walk_symmetric(child(a, d as int)->Some_0, child(b, d as int)->Some_0);
            }
        }
    }
}

/// `diff` does not depend on which trie it is called on.
pub proof fn lemma_diff_symmetric<const BASE: usize>(a: MerkleTrie<BASE>, b: MerkleTrie<BASE>)
    ensures
        diff_spec(a, b) == diff_spec(b, a),
{
    lemma_walk_symmetric(a.root_node(), b.root_node());
}

/// `after` is `before` with timestamp `t` inserted.
pub open spec fn inserted_into<const BASE: usize>(before: MerkleTrie<BASE>, after: MerkleTrie<BASE>, t: TimestampView) -> bool {
    &&& inserted(before.root_node(), after.root_node(), ts_key(t, BASE as nat), ts_hash(t))
    &&& after.len() == (if before.len() < u64::MAX { before.len() + 1 } else { before.len() as int })
    &&& forall|ts: Seq<TimestampView>| holds(before, ts) && ts.len() < u64::MAX ==> holds(after, #[trigger] ts.push(t))
}

/// The XOR of the hashes of the timestamps in `ts` whose key extends `p`.
pub open spec fn xor_under(ts: Seq<TimestampView>, p: Seq<usize>, base: nat) -> u64
    decreases ts.len(),
{
    if ts.len() == 0 {
        0
    } else {
        xor_under(ts.drop_last(), p, base) ^ (if is_prefix(p, ts_key(ts.last(), base)) {
            ts_hash(ts.last())
        } else {
            0
        })
    }
}

/// The XOR of the hashes of all timestamps in `ts`.
pub open spec fn xor_all(ts: Seq<TimestampView>) -> u64
    decreases ts.len(),
{
    if ts.len() == 0 {
        0
    } else {
        xor_all(ts.drop_last()) ^ ts_hash(ts.last())
    }
}

/// The trie holds exactly the timestamps `ts`, inserted once each: a node
/// exists on every prefix of their keys and nowhere else, each node's hash
/// is the XOR of the hashes filed below it, and a node is stored exactly
/// where some key ends.
pub open spec fn holds<const BASE: usize>(t: MerkleTrie<BASE>, ts: Seq<TimestampView>) -> bool {
    &&& t.len() == ts.len()
    &&& forall|p: Seq<usize>| #[trigger] present(t.root_node(), p) == (p.len() == 0 || exists|i: int|
        0 <= i < ts.len() && is_prefix(p, #[trigger] ts_key(ts[i], BASE as nat)))
    &&& forall|p: Seq<usize>| present(t.root_node(), p) ==> #[trigger] hash_at(t.root_node(), p) == xor_under(ts, p, BASE as nat)
    &&& forall|p: Seq<usize>| present(t.root_node(), p) ==> (#[trigger] stored_at(t.root_node(), p) == exists|i: int|
        0 <= i < ts.len() && #[trigger] ts_key(ts[i], BASE as nat) == p)
}

proof fn lemma_xor_assoc(a: u64, b: u64, c: u64)
    ensures
        (a ^ b) ^ c == (a ^ c) ^ b,
        a ^ 0 == a,
        0u64 ^ a == a,
{
    assert((a ^ b) ^ c == (a ^ c) ^ b) by (bit_vector);
    assert(a ^ 0 == a) by (bit_vector);
    assert(0u64 ^ a == a) by (bit_vector);
}

proof fn lemma_xor_under_none(ts: Seq<TimestampView>, p: Seq<usize>, base: nat)
    requires
        forall|i: int| 0 <= i < ts.len() ==> !is_prefix(p, #[trigger] ts_key(ts[i], base)),
    ensures
        xor_under(ts, p, base) == 0,
    decreases ts.len(),
{
    if ts.len() > 0 {
        let g = ts.drop_last();
        assert forall|i: int| 0 <= i < g.len() implies !is_prefix(p, #[trigger] ts_key(g[i], base)) by {
            assert(ts_key(ts[i], base) == ts_key(g[i], base));
        }
        lemma_xor_under_none(g, p, base);
        assert(!is_prefix(p, ts_key(ts[ts.len() - 1], base)));
        lemma_xor_assoc(0, 0, 0);
    }
}

proof fn lemma_xor_under_empty_prefix(ts: Seq<TimestampView>, base: nat)
    ensures
        xor_under(ts, seq![], base) == xor_all(ts),
    decreases ts.len(),
{
    if ts.len() > 0 {
        lemma_xor_under_empty_prefix(ts.drop_last(), base);
        assert(ts_key(ts.last(), base).subrange(0, 0) =~= Seq::<usize>::empty());
    }
}

proof fn lemma_xor_under_remove(ts: Seq<TimestampView>, j: int, p: Seq<usize>, base: nat)
    requires
        0 <= j < ts.len(),
    ensures
        xor_under(ts, p, base) == xor_under(ts.remove(j), p, base) ^ (if is_prefix(p, ts_key(ts[j], base)) {
            ts_hash(ts[j])
        } else {
            0
        }),
    decreases ts.len(),
{
    if j == ts.len() - 1 {
        assert(ts.remove(j) =~= ts.drop_last());
    } else {
        let g = ts.drop_last();
        lemma_xor_under_remove(g, j, p, base);
        assert(ts.remove(j).drop_last() =~= g.remove(j));
        assert(ts.remove(j).last() == ts.last());
        let fj = if is_prefix(p, ts_key(ts[j], base)) { ts_hash(ts[j]) } else { 0 };
        let fl = if is_prefix(p, ts_key(ts.last(), base)) { ts_hash(ts.last()) } else { 0 };
        lemma_xor_assoc(xor_under(g.remove(j), p, base), fj, fl);
    }
}

proof fn lemma_xor_under_permutation(ts1: Seq<TimestampView>, ts2: Seq<TimestampView>, p: Seq<usize>, base: nat)
    requires
        ts1.to_multiset() == ts2.to_multiset(),
    ensures
        xor_under(ts1, p, base) == xor_under(ts2, p, base),
    decreases ts1.len(),
{
    broadcast use vstd::seq_lib::group_to_multiset_ensures, vstd::multiset::group_multiset_axioms;

    vstd::seq_lib::to_multiset_len(ts1);
    vstd::seq_lib::to_multiset_len(ts2);
    if ts1.len() == 0 {
        assert(ts2.len() == 0);
    } else {
        let x = ts1.last();
        vstd::seq_lib::to_multiset_contains(ts2, x);
        let g1 = ts1.drop_last();
        assert(ts1 =~= g1.push(x));
        assert(ts2.to_multiset().count(x) > 0);
        assert(ts2.contains(x));
        let j = choose|j: int| 0 <= j < ts2.len() && ts2[j] == x;
        let g2 = ts2.remove(j);
        assert(g1.to_multiset() =~= g2.to_multiset());
        lemma_xor_under_permutation(g1, g2, p, base);
        lemma_xor_under_remove(ts2, j, p, base);
    }
}

proof fn lemma_new_holds<const BASE: usize>(t: MerkleTrie<BASE>)
    requires
        t.len() == 0,
        t.root_node().hash == 0,
        !t.root_node().stored,
        t.root_node().children@.len() == 0,
    ensures
        holds(t, Seq::empty()),
{
    assert forall|p: Seq<usize>| #[trigger] present(t.root_node(), p) == (p.len() == 0) by {
        lemma_empty_node(t.root_node(), p);
    }
}

proof fn lemma_insert_holds<const BASE: usize>(before: MerkleTrie<BASE>, after: MerkleTrie<BASE>, ts: Seq<TimestampView>, t: TimestampView)
    requires
        holds(before, ts),
        ts.len() < u64::MAX,
        after.len() == before.len() + 1,
        inserted(before.root_node(), after.root_node(), ts_key(t, BASE as nat), ts_hash(t)),
    ensures
        holds(after, ts.push(t)),
{
    let base = BASE as nat;
    let key = ts_key(t, base);
    let nts = ts.push(t);
    let (rb, ra) = (before.root_node(), after.root_node());
    assert(nts.drop_last() =~= ts);
    assert forall|i: int| 0 <= i < ts.len() implies #[trigger] nts[i] == ts[i] by {}
    assert(nts[ts.len() as int] == t);
    assert forall|p: Seq<usize>| #[trigger] present(ra, p) == (p.len() == 0 || exists|i: int|
        0 <= i < nts.len() && is_prefix(p, #[trigger] ts_key(nts[i], base))) by {
        if is_prefix(p, key) {
            assert(is_prefix(p, ts_key(nts[ts.len() as int], base)));
        }
        if exists|i: int| 0 <= i < nts.len() && is_prefix(p, #[trigger] ts_key(nts[i], base)) {
            let i = choose|i: int| 0 <= i < nts.len() && is_prefix(p, #[trigger] ts_key(nts[i], base));
            if i < ts.len() {
                assert(is_prefix(p, ts_key(ts[i], base)));
            }
        }
    }
    assert forall|p: Seq<usize>| present(ra, p) implies #[trigger] hash_at(ra, p) == xor_under(nts, p, base) by {
        let f = if is_prefix(p, key) { ts_hash(t) } else { 0 };
        assert(xor_under(nts, p, base) == xor_under(ts, p, base) ^ f);
        assert(hash_at(ra, p) == (if is_prefix(p, key) { hash_at(rb, p) ^ ts_hash(t) } else { hash_at(rb, p) }));
        if present(rb, p) {
            assert(hash_at(rb, p) == xor_under(ts, p, base));
            lemma_xor_assoc(xor_under(ts, p, base), 0, 0);
        } else {
            assert(hash_at(rb, p) == 0);
            assert(is_prefix(p, key));
            assert forall|i: int| 0 <= i < ts.len() implies !is_prefix(p, #[trigger] ts_key(ts[i], base)) by {}
            lemma_xor_under_none(ts, p, base);
            lemma_xor_assoc(ts_hash(t), 0, 0);
        }
    }
    assert forall|p: Seq<usize>| present(ra, p) implies (#[trigger] stored_at(ra, p) == exists|i: int|
        0 <= i < nts.len() && #[trigger] ts_key(nts[i], base) == p) by {
        if p == key {
            assert(ts_key(nts[ts.len() as int], base) == p);
        }
        if exists|i: int| 0 <= i < nts.len() && #[trigger] ts_key(nts[i], base) == p {
            let i = choose|i: int| 0 <= i < nts.len() && #[trigger] ts_key(nts[i], base) == p;
            if i < ts.len() {
                assert(ts_key(ts[i], base) == p);
                assert(p.subrange(0, p.len() as int) =~= p);
                assert(is_prefix(p, ts_key(ts[i], base)));
            }
        }
        if !present(rb, p) {
            assert(!exists|i: int| 0 <= i < ts.len() && #[trigger] ts_key(ts[i], base) == p) by {
                if exists|i: int| 0 <= i < ts.len() && #[trigger] ts_key(ts[i], base) == p {
                    let i = choose|i: int| 0 <= i < ts.len() && #[trigger] ts_key(ts[i], base) == p;
                    assert(p.subrange(0, p.len() as int) =~= p);
                    assert(is_prefix(p, ts_key(ts[i], base)));
                }
            }
        }
    }
}

/// Hash of a multiset: the root hash of a trie is the XOR of the hashes of
/// the timestamps it holds.
pub proof fn lemma_root_hash_is_xor<const BASE: usize>(t: MerkleTrie<BASE>, ts: Seq<TimestampView>)
    requires
        holds(t, ts),
    ensures
        t.root_node().hash == xor_all(ts),
{
    assert(present(t.root_node(), seq![]));
    assert(node_at(t.root_node(), seq![]) == Some(t.root_node()));
    assert(hash_at(t.root_node(), seq![]) == xor_under(ts, seq![], BASE as nat));
    lemma_xor_under_empty_prefix(ts, BASE as nat);
}

/// Permutation invariance: two tries that hold the same multiset of
/// timestamps, inserted in any order, have the same nodes with the same
/// hashes and stored flags on every path.
pub proof fn lemma_same_multiset_same_nodes<const BASE: usize>(
    a: MerkleTrie<BASE>,
    b: MerkleTrie<BASE>,
    ts1: Seq<TimestampView>,
    ts2: Seq<TimestampView>,
)
    requires
        holds(a, ts1),
        holds(b, ts2),
        ts1.to_multiset() == ts2.to_multiset(),
    ensures
        a.len() == b.len(),
        forall|p: Seq<usize>| #[trigger] present(a.root_node(), p) == present(b.root_node(), p),
        forall|p: Seq<usize>| #[trigger] hash_at(a.root_node(), p) == hash_at(b.root_node(), p),
        forall|p: Seq<usize>| #[trigger] stored_at(a.root_node(), p) == stored_at(b.root_node(), p),
{
    broadcast use vstd::seq_lib::group_to_multiset_ensures;

    let base = BASE as nat;
    vstd::seq_lib::to_multiset_len(ts1);
    vstd::seq_lib::to_multiset_len(ts2);
    assert(ts1.len() == ts2.len());
    assert forall|x: TimestampView| ts1.contains(x) == ts2.contains(x) by {
        vstd::seq_lib::to_multiset_contains(ts1, x);
        vstd::seq_lib::to_multiset_contains(ts2, x);
    }
    assert forall|p: Seq<usize>| #[trigger] present(a.root_node(), p) == present(b.root_node(), p) by {
        if exists|i: int| 0 <= i < ts1.len() && is_prefix(p, #[trigger] ts_key(ts1[i], base)) {
            let i = choose|i: int| 0 <= i < ts1.len() && is_prefix(p, #[trigger] ts_key(ts1[i], base));
            assert(ts1.contains(ts1[i]));
            let j = choose|j: int| 0 <= j < ts2.len() && ts2[j] == ts1[i];
            assert(is_prefix(p, ts_key(ts2[j], base)));
        }
        if exists|i: int| 0 <= i < ts2.len() && is_prefix(p, #[trigger] ts_key(ts2[i], base)) {
            let i = choose|i: int| 0 <= i < ts2.len() && is_prefix(p, #[trigger] ts_key(ts2[i], base));
            assert(ts2.contains(ts2[i]));
            let j = choose|j: int| 0 <= j < ts1.len() && ts1[j] == ts2[i];
            assert(is_prefix(p, ts_key(ts1[j], base)));
        }
    }
    assert forall|p: Seq<usize>| #[trigger] hash_at(a.root_node(), p) == hash_at(b.root_node(), p) by {
        if present(a.root_node(), p) {
            lemma_xor_under_permutation(ts1, ts2, p, base);
        }
    }
    assert forall|p: Seq<usize>| #[trigger] stored_at(a.root_node(), p) == stored_at(b.root_node(), p) by {
        if present(a.root_node(), p) {
            if exists|i: int| 0 <= i < ts1.len() && #[trigger] ts_key(ts1[i], base) == p {
                let i = choose|i: int| 0 <= i < ts1.len() && #[trigger] ts_key(ts1[i], base) == p;
                assert(ts1.contains(ts1[i]));
                let j = choose|j: int| 0 <= j < ts2.len() && ts2[j] == ts1[i];
                assert(ts_key(ts2[j], base) == p);
            }
            if exists|i: int| 0 <= i < ts2.len() && #[trigger] ts_key(ts2[i], base) == p {
                let i = choose|i: int| 0 <= i < ts2.len() && #[trigger] ts_key(ts2[i], base) == p;
                assert(ts2.contains(ts2[i]));
                let j = choose|j: int| 0 <= j < ts1.len() && ts1[j] == ts2[i];
                assert(ts_key(ts1[j], base) == p);
            }
        }
    }
}

/// Identity: two tries that hold the same set of timestamps, each inserted
/// once, have the same nodes on every path, and `diff` finds no divergence.
pub proof fn lemma_same_set_no_diff<const BASE: usize>(
    a: MerkleTrie<BASE>,
    b: MerkleTrie<BASE>,
    ts1: Seq<TimestampView>,
    ts2: Seq<TimestampView>,
)
    requires
        holds(a, ts1),
        holds(b, ts2),
        ts1.no_duplicates(),
        ts2.no_duplicates(),
        ts1.to_set() == ts2.to_set(),
    ensures
        forall|p: Seq<usize>| #[trigger] present(a.root_node(), p) == present(b.root_node(), p),
        forall|p: Seq<usize>| #[trigger] hash_at(a.root_node(), p) == hash_at(b.root_node(), p),
        forall|p: Seq<usize>| #[trigger] stored_at(a.root_node(), p) == stored_at(b.root_node(), p),
        diff_spec(a, b) is None,
{
    broadcast use vstd::seq_lib::group_to_multiset_ensures, vstd::seq_lib::group_seq_properties;

    ts1.lemma_multiset_has_no_duplicates();
    ts2.lemma_multiset_has_no_duplicates();
    assert forall|x: TimestampView| ts1.to_multiset().count(x) == ts2.to_multiset().count(x) by {
        assert(ts1.to_set().contains(x) == ts1.contains(x));
        assert(ts2.to_set().contains(x) == ts2.contains(x));
    }
    assert(ts1.to_multiset() =~= ts2.to_multiset());
    lemma_same_multiset_same_nodes(a, b, ts1, ts2);
    assert(present(a.root_node(), seq![]));
    assert(node_at(a.root_node(), seq![]) == Some(a.root_node()));
    assert(node_at(b.root_node(), seq![]) == Some(b.root_node()));
    assert(hash_at(a.root_node(), seq![]) == hash_at(b.root_node(), seq![]));
}

/// A missing timestamp is always noticed: when `a` holds a timestamp that
/// `b` lacks, `diff` reports a divergence (`Some`), unless the two root
/// hashes collide on different contents.
pub proof fn lemma_missing_timestamp_detected<const BASE: usize>(
    a: MerkleTrie<BASE>,
    b: MerkleTrie<BASE>,
    ts1: Seq<TimestampView>,
    ts2: Seq<TimestampView>,
    t: TimestampView,
)
    requires
        holds(a, ts1),
        holds(b, ts2),
        ts1.contains(t),
        !ts2.contains(t),
        a.root_node().hash == b.root_node().hash ==> ts1.to_multiset() == ts2.to_multiset(),
    ensures
        diff_spec(a, b) is Some,
{
    broadcast use vstd::seq_lib::group_to_multiset_ensures;

    assert(a.len() > 0);
    if b.len() > 0 && a.root_node().hash == b.root_node().hash {
        vstd::seq_lib::to_multiset_contains(ts1, t);
        vstd::seq_lib::to_multiset_contains(ts2, t);
    }
}

/// `q` is lexicographically before `k`: they agree up to some position
/// where `q` has the smaller digit.
pub open spec fn path_lt(q: Seq<usize>, k: Seq<usize>) -> bool {
    exists|i: int| 0 <= i < q.len() && i < k.len() && q.subrange(0, i) == k.subrange(0, i) && #[trigger] q[i] < k[i]
}

proof fn lemma_node_at_push(n: MerkleTrieNode, p: Seq<usize>, d: usize)
    ensures
        node_at(n, p.push(d)) == match node_at(n, p) {
            Some(m) => child(m, d as int),
            None => None,
        },
    decreases p.len(),
{
    if p.len() == 0 {
        assert(p.push(d).drop_first() =~= Seq::<usize>::empty());
        assert(p.push(d)[0] == d);
        match child(n, d as int) {
            Some(c) => {
                assert(node_at(c, Seq::<usize>::empty()) == Some(c));
            },
            None => {},
        }
    } else {
        assert(p.push(d).drop_first() =~= p.drop_first().push(d));
        assert(p.push(d)[0] == p[0]);
        match child(n, p[0] as int) {
            Some(c) => lemma_node_at_push(c, p.drop_first(), d),
            None => {},
        }
    }
}

proof fn lemma_node_at_append(n: MerkleTrieNode, p: Seq<usize>, q: Seq<usize>)
    ensures
        node_at(n, p + q) == match node_at(n, p) {
            Some(m) => node_at(m, q),
            None => None,
        },
    decreases q.len(),
{
    if q.len() == 0 {
        assert(p + q =~= p);
    } else {
        lemma_node_at_append(n, p, q.drop_last());
        assert(p + q =~= (p + q.drop_last()).push(q.last()));
        lemma_node_at_push(n, p + q.drop_last(), q.last());
        match node_at(n, p) {
            Some(m) => {
                assert(q =~= q.drop_last().push(q.last()));
                lemma_node_at_push(m, q.drop_last(), q.last());
            },
            None => {},
        }
    }
}

proof fn lemma_first_child_some(n: MerkleTrieNode, i: nat)
    ensures
        first_child_from(n, i) matches Some(d) ==> i <= d && child(n, d as int) is Some,
        forall|j: int| i <= j && child(n, j) is Some ==> (first_child_from(n, i) matches Some(d) && d <= j),
    decreases n.children@.len() - i,
{
    if i < n.children@.len() {
        lemma_first_child_some(n, i + 1);
    }
}

proof fn lemma_first_diff(x: MerkleTrieNode, y: MerkleTrieNode, i: nat)
    ensures
        first_diff_from(x, y, i) matches Some(d) ==> i <= d && child_hash(x, d as int) != child_hash(y, d as int),
        forall|j: int| i <= j && #[trigger] child_hash(x, j) != child_hash(y, j) ==> (first_diff_from(x, y, i) matches Some(d) && d <= j),
    decreases x.children@.len() + y.children@.len() - i,
{
    if !(i >= x.children@.len() && i >= y.children@.len()) {
        lemma_first_diff(x, y, i + 1);
    }
}

proof fn lemma_path_lt_value(q: Seq<usize>, k: Seq<usize>, base: nat)
    requires
        q.len() == k.len(),
        path_lt(q, k),
        forall|i: int| 0 <= i < q.len() ==> (#[trigger] q[i] as nat) < base,
    ensures
        key_value(q, base) < key_value(k, base),
    decreases q.len(),
{
    let i = choose|i: int| 0 <= i < q.len() && i < k.len() && q.subrange(0, i) == k.subrange(0, i) && #[trigger] q[i] < k[i];
    let n = q.len() - 1;
    let (q1, k1) = (q.drop_last(), k.drop_last());
    if i == n {
        assert(q1 =~= q.subrange(0, i));
        assert(k1 =~= k.subrange(0, i));
        assert(key_value(q, base) == key_value(q1, base) * base + q[n]);
        assert(key_value(k, base) == key_value(k1, base) * base + k[n]);
    } else {
        assert(q1.subrange(0, i) =~= q.subrange(0, i));
        assert(k1.subrange(0, i) =~= k.subrange(0, i));
        assert(q1[i] == q[i] && k1[i] == k[i]);
        assert(path_lt(q1, k1));
        lemma_path_lt_value(q1, k1, base);
        let (a, b) = (key_value(q1, base), key_value(k1, base));
        assert((q[n] as nat) < base);
        assert(a * base + q[n] < b * base + k[n]) by (nonlinear_arith)
            requires a < b, (q[n] as nat) < base;
    }
}

/// All timestamps in `ts` have keys of length `len`.
pub open spec fn keys_of_length(ts: Seq<TimestampView>, base: nat, len: nat) -> bool {
    forall|i: int| 0 <= i < ts.len() ==> (#[trigger] ts_key(ts[i], base)).len() == len
}

proof fn lemma_prefix_of_equal_length(c: Seq<usize>, k: Seq<usize>)
    requires
        is_prefix(c, k),
        c.len() == k.len(),
    ensures
        c == k,
{
    assert(k.subrange(0, c.len() as int) =~= k);
}

proof fn lemma_first_stored_min<const BASE: usize>(
    a: MerkleTrie<BASE>,
    ts: Seq<TimestampView>,
    len: nat,
    c: Seq<usize>,
    n: MerkleTrieNode,
    j: int,
)
    requires
        holds(a, ts),
        keys_of_length(ts, BASE as nat, len),
        node_at(a.root_node(), c) == Some(n),
        0 <= j < ts.len(),
        is_prefix(c, ts_key(ts[j], BASE as nat)),
    ensures
        exists|i: int| 0 <= i < ts.len() && #[trigger] ts_key(ts[i], BASE as nat) == c + first_stored(n),
        c + first_stored(n) == ts_key(ts[j], BASE as nat) || path_lt(c + first_stored(n), ts_key(ts[j], BASE as nat)),
    decreases n,
{
    let base = BASE as nat;
    let kj = ts_key(ts[j], base);
    let root = a.root_node();
    assert(kj.len() == len);
    if n.stored {
        assert(c + first_stored(n) =~= c);
        assert(present(root, c));
        assert(stored_at(root, c));
        let i = choose|i: int| 0 <= i < ts.len() && #[trigger] ts_key(ts[i], base) == c;
        lemma_prefix_of_equal_length(c, kj);
    } else {
        assert(c != kj) by {
            if c == kj {
                assert(present(root, c));
                assert(stored_at(root, c) == exists|i: int| 0 <= i < ts.len() && #[trigger] ts_key(ts[i], base) == c);
                assert(ts_key(ts[j], base) == c);
            }
        }
        assert(c.len() < len) by {
            if c.len() == len {
                lemma_prefix_of_equal_length(c, kj);
            }
        }
        let e = kj[c.len() as int];
        assert(is_prefix(c.push(e), kj)) by {
            assert(kj.subrange(0, c.len() + 1 as int) =~= c.push(e));
        }
        assert(present(root, c.push(e)));
        lemma_node_at_push(root, c, e);
        assert(child(n, e as int) is Some);
        lemma_first_child_some(n, 0);
        let d0 = first_child_from(n, 0)->Some_0;
        assert(d0 <= e);
        let cn = child(n, d0 as int)->Some_0;
        let du = d0 as usize;
        assert(du as int == d0 as int);
        assert(first_stored(n) == seq![du] + first_stored(cn));
        lemma_node_at_push(root, c, du);
        assert(node_at(root, c.push(du)) == Some(cn));
        assert(c + first_stored(n) =~= c.push(du) + first_stored(cn));
        lemma_child_decreases(n, d0 as int);
        if du == e {
            lemma_first_stored_min(a, ts, len, c.push(du), cn, j);
        } else {
            assert(present(root, c.push(du)));
            let i = choose|i: int| 0 <= i < ts.len() && is_prefix(c.push(du), #[trigger] ts_key(ts[i], base));
            lemma_first_stored_min(a, ts, len, c.push(du), cn, i);
            let q = c + first_stored(n);
            let w = choose|w: int| 0 <= w < ts.len() && #[trigger] ts_key(ts[w], base) == q;
            assert(q.len() == len);
            assert(q.subrange(0, c.len() as int) =~= c);
            assert(kj.subrange(0, c.len() as int) == c);
            assert(q[c.len() as int] == du);
            assert(path_lt(q, kj));
        }
    }
}

/// Equal hashes on a path mean the same timestamps are filed below it.
pub open spec fn no_collisions<const BASE: usize>(a: MerkleTrie<BASE>, b: MerkleTrie<BASE>, ts1: Seq<TimestampView>, ts2: Seq<TimestampView>) -> bool {
    forall|p: Seq<usize>, x: TimestampView|
        hash_at(a.root_node(), p) == hash_at(b.root_node(), p) && #[trigger] is_prefix(p, ts_key(x, BASE as nat))
            ==> (ts1.contains(x) <==> ts2.contains(x))
}

proof fn lemma_digit_fits(n: MerkleTrieNode, d: int)
    requires
        0 <= d < n.children@.len(),
    ensures
        d <= usize::MAX,
{
    broadcast use vstd::std_specs::vec::axiom_spec_len;

    assert(n.children@.len() == n.children.len());
}

proof fn lemma_walk_positions(ra: MerkleTrieNode, rb: MerkleTrieNode, p: Seq<usize>, x: MerkleTrieNode, y: MerkleTrieNode)
    requires
        node_at(ra, p) == Some(x),
        node_at(rb, p) == Some(y),
    ensures
        walk(x, y).1 is Some || walk(x, y).2 is Some,
        walk(x, y).1 matches Some(z) ==> node_at(ra, p + walk(x, y).0) == Some(z),
        walk(x, y).2 matches Some(z) ==> node_at(rb, p + walk(x, y).0) == Some(z),
    decreases x,
{
    let w = walk(x, y);
    if first_child_from(x, 0) is None || first_child_from(y, 0) is None || first_diff_from(x, y, 0) is None {
        assert(p + w.0 =~= p);
    } else {
        let d = first_diff_from(x, y, 0)->Some_0;
        lemma_first_diff(x, y, 0);
        if child(x, d as int) is Some {
            lemma_digit_fits(x, d as int);
        } else {
            lemma_digit_fits(y, d as int);
        }
        let du = d as usize;
        assert(du as int == d as int);
        lemma_node_at_push(ra, p, du);
        lemma_node_at_push(rb, p, du);
        match (child(x, d as int), child(y, d as int)) {
            (Some(cx), Some(cy)) => {
                lemma_child_decreases(x, d as int);
                lemma_walk_positions(ra, rb, p.push(du), cx, cy);
                assert(p + w.0 =~= p.push(du) + walk(cx, cy).0);
            },
            _ => {
                assert(p + w.0 =~= p.push(du));
            },
        }
    }
}

proof fn lemma_present_len<const BASE: usize>(a: MerkleTrie<BASE>, ts: Seq<TimestampView>, len: nat, q: Seq<usize>)
    requires
        holds(a, ts),
        keys_of_length(ts, BASE as nat, len),
        present(a.root_node(), q),
    ensures
        q.len() <= len,
        q.len() > 0 ==> exists|i: int| 0 <= i < ts.len() && is_prefix(q, #[trigger] ts_key(ts[i], BASE as nat)),
{
    if q.len() > 0 {
        let i = choose|i: int| 0 <= i < ts.len() && is_prefix(q, #[trigger] ts_key(ts[i], BASE as nat));
        assert(ts_key(ts[i], BASE as nat).len() == len);
    }
}

/// The candidate that the walk from `p` reaches on one side: a key of that
/// side's timestamps at or before `k`.
pub open spec fn good_candidate(o: Option<MerkleTrieNode>, q: Seq<usize>, ts: Seq<TimestampView>, k: Seq<usize>, base: nat) -> bool {
    match o {
        Some(z) => (exists|i: int| 0 <= i < ts.len() && #[trigger] ts_key(ts[i], base) == q + first_stored(z))
            && (q + first_stored(z) == k || path_lt(q + first_stored(z), k)),
        None => false,
    }
}

proof fn lemma_walk_bound<const BASE: usize>(
    a: MerkleTrie<BASE>,
    b: MerkleTrie<BASE>,
    ts1: Seq<TimestampView>,
    ts2: Seq<TimestampView>,
    len: nat,
    jt: int,
    p: Seq<usize>,
    x: MerkleTrieNode,
    y: MerkleTrieNode,
)
    requires
        holds(a, ts1),
        holds(b, ts2),
        keys_of_length(ts1, BASE as nat, len),
        keys_of_length(ts2, BASE as nat, len),
        no_collisions(a, b, ts1, ts2),
        0 <= jt < ts1.len(),
        !ts2.contains(ts1[jt]),
        is_prefix(p, ts_key(ts1[jt], BASE as nat)),
        node_at(a.root_node(), p) == Some(x),
        node_at(b.root_node(), p) == Some(y),
    ensures
        good_candidate(walk(x, y).1, p + walk(x, y).0, ts1, ts_key(ts1[jt], BASE as nat), BASE as nat)
            || good_candidate(walk(x, y).2, p + walk(x, y).0, ts2, ts_key(ts1[jt], BASE as nat), BASE as nat),
    decreases x,
{
    let base = BASE as nat;
    let (ra, rb) = (a.root_node(), b.root_node());
    let k = ts_key(ts1[jt], base);
    let w = walk(x, y);
    if first_child_from(x, 0) is None || first_child_from(y, 0) is None || first_diff_from(x, y, 0) is None {
        assert(p + w.0 =~= p);
        lemma_first_stored_min(a, ts1, len, p, x, jt);
    } else {
        let d = first_diff_from(x, y, 0)->Some_0;
        lemma_first_diff(x, y, 0);
        lemma_first_child_some(x, 0);
        let c0 = first_child_from(x, 0)->Some_0;
        lemma_digit_fits(x, c0 as int);
        lemma_node_at_push(ra, p, c0 as usize);
        assert(present(ra, p.push(c0 as usize)));
        lemma_present_len(a, ts1, len, p.push(c0 as usize));
        let e = k[p.len() as int];
        assert(is_prefix(p.push(e), k)) by {
            assert(k.subrange(0, p.len() + 1 as int) =~= p.push(e));
        }
        lemma_node_at_push(ra, p, e);
        lemma_node_at_push(rb, p, e);
        assert(child_hash(x, e as int) != child_hash(y, e as int)) by {
            assert(hash_at(ra, p.push(e)) == child_hash(x, e as int));
            assert(hash_at(rb, p.push(e)) == child_hash(y, e as int));
            assert(is_prefix(p.push(e), ts_key(ts1[jt], base)));
            assert(ts1.contains(ts1[jt]));
        }
        assert(d <= e);
        if child(x, d as int) is Some {
            lemma_digit_fits(x, d as int);
        } else {
            lemma_digit_fits(y, d as int);
        }
        let du = d as usize;
        assert(du as int == d as int);
        lemma_node_at_push(ra, p, du);
        lemma_node_at_push(rb, p, du);
        assert(present(ra, p.push(e)));
        if du == e {
            let cx = child(x, d as int)->Some_0;
            match child(y, d as int) {
                Some(cy) => {
                    lemma_child_decreases(x, d as int);
                    lemma_walk_bound(a, b, ts1, ts2, len, jt, p.push(du), cx, cy);
                    assert(p + w.0 =~= p.push(du) + walk(cx, cy).0);
                },
                None => {
                    assert(p + w.0 =~= p.push(du));
                    lemma_first_stored_min(a, ts1, len, p.push(du), cx, jt);
                },
            }
        } else {
            lemma_walk_positions(ra, rb, p, x, y);
            let q0 = p + w.0;
            assert(w.0.len() > 0 && w.0[0] == du);
            assert(q0.len() > 0);
            if w.1 is Some {
                let z = w.1->Some_0;
                assert(present(ra, q0));
                lemma_present_len(a, ts1, len, q0);
                let i = choose|i: int| 0 <= i < ts1.len() && is_prefix(q0, #[trigger] ts_key(ts1[i], base));
                lemma_first_stored_min(a, ts1, len, q0, z, i);
                let q = q0 + first_stored(z);
                let wi = choose|wi: int| 0 <= wi < ts1.len() && #[trigger] ts_key(ts1[wi], base) == q;
                assert(q.len() == len);
                assert(q.subrange(0, p.len() as int) =~= p);
                assert(q[p.len() as int] == du);
                assert(k.subrange(0, p.len() as int) == p);
                assert(path_lt(q, k));
            } else {
                let z = w.2->Some_0;
                assert(present(rb, q0));
                lemma_present_len(b, ts2, len, q0);
                let i = choose|i: int| 0 <= i < ts2.len() && is_prefix(q0, #[trigger] ts_key(ts2[i], base));
                lemma_first_stored_min(b, ts2, len, q0, z, i);
                let q = q0 + first_stored(z);
                let wi = choose|wi: int| 0 <= wi < ts2.len() && #[trigger] ts_key(ts2[wi], base) == q;
                assert(q.len() == len);
                assert(q.subrange(0, p.len() as int) =~= p);
                assert(q[p.len() as int] == du);
                assert(k.subrange(0, p.len() as int) == p);
                assert(path_lt(q, k));
            }
        }
    }
}

proof fn lemma_candidate_bound(q: Seq<usize>, ts: Seq<TimestampView>, k: Seq<usize>, t: TimestampView, len: nat, base: nat)
    requires
        2 <= base <= usize::MAX,
        keys_of_length(ts, base, len),
        exists|i: int| 0 <= i < ts.len() && #[trigger] ts_key(ts[i], base) == q,
        k == ts_key(t, base),
        k.len() == len,
        q == k || path_lt(q, k),
        t.millis >= 0,
    ensures
        key_millis(q, base) <= t.millis,
{
    let i = choose|i: int| 0 <= i < ts.len() && #[trigger] ts_key(ts[i], base) == q;
    lemma_key_round_trip(millis_as_unsigned(ts[i].millis), base);
    lemma_key_round_trip(millis_as_unsigned(t.millis), base);
    if q != k {
        lemma_path_lt_value(q, k, base);
    }
}

/// Lower bound: when `a` holds a timestamp `t` with non-negative millis that
/// `b` lacks, `diff` reports a divergence no later than `t`'s millis. This
/// needs equal hashes on a path to mean the same timestamps below it (no
/// XOR collisions) and all keys to have one length (timestamps of one
/// epoch of digits).
pub proof fn lemma_diff_lower_bound<const BASE: usize>(
    a: MerkleTrie<BASE>,
    b: MerkleTrie<BASE>,
    ts1: Seq<TimestampView>,
    ts2: Seq<TimestampView>,
    len: nat,
    t: TimestampView,
)
    requires
        BASE >= 2,
        holds(a, ts1),
        holds(b, ts2),
        keys_of_length(ts1, BASE as nat, len),
        keys_of_length(ts2, BASE as nat, len),
        no_collisions(a, b, ts1, ts2),
        ts1.contains(t),
        !ts2.contains(t),
        t.millis >= 0,
    ensures
        diff_spec(a, b) matches Some(d) && d <= t.millis,
{
    let base = BASE as nat;
    let (ra, rb) = (a.root_node(), b.root_node());
    let jt = choose|jt: int| 0 <= jt < ts1.len() && ts1[jt] == t;
    let k = ts_key(t, base);
    assert(k.len() == len);
    assert(a.len() > 0);
    if b.len() == 0 {
        return;
    }
    assert(k.subrange(0, 0) =~= Seq::<usize>::empty());
    assert(is_prefix(Seq::<usize>::empty(), k));
    assert(node_at(ra, Seq::<usize>::empty()) == Some(ra));
    assert(node_at(rb, Seq::<usize>::empty()) == Some(rb));
    assert(ra.hash != rb.hash) by {
        assert(hash_at(ra, Seq::<usize>::empty()) == ra.hash);
        assert(hash_at(rb, Seq::<usize>::empty()) == rb.hash);
        assert(is_prefix(Seq::<usize>::empty(), ts_key(t, base)));
    }
    lemma_walk_bound(a, b, ts1, ts2, len, jt, Seq::<usize>::empty(), ra, rb);
    let w = walk(ra, rb);
    assert(Seq::<usize>::empty() + w.0 =~= w.0);
    if good_candidate(w.1, w.0, ts1, k, base) {
        lemma_candidate_bound(w.0 + first_stored(w.1->Some_0), ts1, k, t, len, base);
    } else {
        lemma_candidate_bound(w.0 + first_stored(w.2->Some_0), ts2, k, t, len, base);
    }
}

impl<const BASE: usize> MerkleTrie<BASE> {
    pub closed spec fn root_node(&self) -> MerkleTrieNode {
        self.root
    }

    pub closed spec fn len(&self) -> u64 {
        self.length
    }

    /// An empty trie.
    pub fn new() -> (r: Self)
        ensures
            r.len() == 0,
            r.root_node().hash == 0,
            !r.root_node().stored,
            r.root_node().children@.len() == 0,
            holds(r, Seq::empty()),
    {
        let r = MerkleTrie { root: MerkleTrieNode::empty(), length: 0 };
        proof {
            lemma_new_holds(r);
        }
        r
    }

    /// A trie from its root and insertion count, as read back from its
    /// serialised form.
    pub fn from_parts(root: MerkleTrieNode, length: u64) -> (r: Self)
        ensures
            r.root_node() == root,
            r.len() == length,
    {
        MerkleTrie { root, length }
    }

    pub fn root(&self) -> (r: &MerkleTrieNode)
        ensures
            *r == self.root_node(),
    {
        &self.root
    }

    pub fn root_hash(&self) -> (r: u64)
        ensures
            r == self.root_node().hash,
    {
        self.root.hash
    }

    pub fn is_empty(&self) -> (r: bool)
        ensures
            r == (self.len() == 0),
    {
        self.length == 0
    }

    pub fn length(&self) -> (r: u64)
        ensures
            r == self.len(),
    {
        self.length
    }

    /// The digits of `n` in base `BASE`, appended to `out`.
    fn push_key(out: &mut Vec<usize>, n: u64)
        requires
            BASE >= 2,
        ensures
            final(out)@ == old(out)@ + key_of(n as nat, BASE as nat),
        decreases n,
    {
        if n == 0 {
            assert(final(out)@ =~= old(out)@ + key_of(n as nat, BASE as nat));
            return;
        }
        let b = BASE as u64;
        assert(n / b < n) by (nonlinear_arith)
            requires n > 0, b >= 2;
        Self::push_key(out, n / b);
        out.push((n % b) as usize);
        assert(final(out)@ =~= old(out)@ + key_of(n as nat, BASE as nat));
    }

    /// The key under which `timestamp` is filed: the base-`BASE` digits of
    /// its millis, most significant first.
    pub fn timestamp_to_key(&self, timestamp: &Timestamp) -> (r: Vec<usize>)
        requires
            BASE >= 2,
        ensures
            r@ == ts_key(timestamp@, BASE as nat),
    {
        let m = timestamp.millis();
        let n: u64 = if m >= 0 {
            m as u64
        } else {
            ((m as i128) + 0x1_0000_0000_0000_0000i128) as u64
        };
        let mut v: Vec<usize> = Vec::new();
        Self::push_key(&mut v, n);
        assert(v@ =~= ts_key(timestamp@, BASE as nat));
        v
    }

    /// The millis that a key stands for, saturated at `i64::MAX`.
    pub fn key_to_timestamp_millis(&self, key: Vec<usize>) -> (r: i64)
        requires
            BASE >= 2,
        ensures
            r == key_millis(key@, BASE as nat),
    {
        let mut acc: i64 = 0;
        let mut saturated = false;
        let mut i: usize = 0;
        while i < key.len()
            invariant
                i <= key@.len(),
                BASE >= 2,
                saturated ==> key_value(key@.subrange(0, i as int), BASE as nat) > i64::MAX,
                !saturated ==> acc as int == key_value(key@.subrange(0, i as int), BASE as nat),
                acc >= 0,
            decreases key.len() - i,
        {
            let ghost pre = key@.subrange(0, i as int);
            let ghost next = key@.subrange(0, i + 1);
            assert(next.drop_last() =~= pre);
            let ghost kv = key_value(pre, BASE as nat);
            assert(kv * BASE + key@[i as int] >= kv) by (nonlinear_arith)
                requires BASE >= 2, kv >= 0;
            if !saturated {
                assert((acc as u128) * (BASE as u128) <= 0x7fff_ffff_ffff_ffff_u128 * 0xffff_ffff_ffff_ffff_u128) by (nonlinear_arith)
                    requires 0 <= acc <= 0x7fff_ffff_ffff_ffff_i64, BASE <= 0xffff_ffff_ffff_ffff_u64;
                let next_val: u128 = (acc as u128) * (BASE as u128) + (key[i] as u128);
                if next_val > (i64::MAX as u128) {
                    saturated = true;
                } else {
                    acc = next_val as i64;
                }
            }
            i = i + 1;
        }
        assert(key@.subrange(0, key@.len() as int) =~= key@);
        if saturated {
            i64::MAX
        } else {
            acc
        }
    }

    fn candidate_millis(&self, o: Option<&MerkleTrieNode>, prefix: &Vec<usize>) -> (r: Option<i64>)
        requires
            BASE >= 2,
        ensures
            r == candidate(deref_opt(o), prefix@, BASE as nat),
    {
        match o {
            Some(n) => {
                let mut path = copy_path(prefix);
                descend_first_stored(n, &mut path);
                Some(self.key_to_timestamp_millis(path))
            },
            None => None,
        }
    }

    /// The smallest millis that may have contributed to a difference between
    /// the two tries, or `None` when they agree.
    pub fn diff(&self, other: &MerkleTrie<BASE>) -> (r: Option<i64>)
        requires
            BASE >= 2,
        ensures
            r == diff_spec(*self, *other),
    {
        if self.length == 0 && other.length == 0 {
            return None;
        }
        if self.length == 0 || other.length == 0 {
            return Some(0);
        }
        if self.root.hash == other.root.hash {
            return None;
        }
        let mut prefix: Vec<usize> = Vec::new();
        let (x, y) = walk_nodes(&self.root, &other.root, &mut prefix);
        assert(prefix@ =~= walk(self.root, other.root).0);
        let cx = self.candidate_millis(x, &prefix);
        let cy = self.candidate_millis(y, &prefix);
        match (cx, cy) {
            (Some(a), Some(b)) => Some(if a <= b { a } else { b }),
            (Some(a), None) => Some(a),
            (None, Some(b)) => Some(b),
            (None, None) => Some(self.key_to_timestamp_millis(prefix)),
        }
    }

    /// Files `timestamp`: XORs its hash into every node on the path of its
    /// key and marks the last one stored. The count saturates at `u64::MAX`.
    pub fn insert(&mut self, timestamp: &Timestamp)
        requires
            BASE >= 2,
        ensures
            inserted_into(*old(self), *final(self), timestamp@),
    {
        let h = timestamp.hash();
        let key = self.timestamp_to_key(timestamp);
        assert(key@.subrange(0, key@.len() as int) =~= key@);
        insert_at(&mut self.root, &key, 0, h);
        if self.length < u64::MAX {
            self.length = self.length + 1;
        }
        proof {
            assert forall|ts: Seq<TimestampView>| holds(*old(self), ts) && ts.len() < u64::MAX implies holds(*self, #[trigger] ts.push(timestamp@)) by {
                lemma_insert_holds(*old(self), *self, ts, timestamp@);
            }
        }
    }
}

} // verus!
