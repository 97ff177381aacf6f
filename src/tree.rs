use crate::hash::{sha256, sha256_of};
use vstd::prelude::*;

verus! {

/// The side on which a sibling digest enters a hash combination.
#[derive(PartialEq, Eq, Structural, Clone, Copy, Debug)]
pub enum Direction {
    Left,
    Right,
}

/// The digest of a parent whose children have digests `l` and `r`.
pub open spec fn combine(l: Seq<u8>, r: Seq<u8>) -> Seq<u8> {
    sha256_of(l + r)
}

/// The level above `level`: adjacent digests are combined in pairs, and a last
/// digest without a partner is combined with itself.
pub open spec fn next_level(level: Seq<Seq<u8>>) -> Seq<Seq<u8>> {
    Seq::new(
        ((level.len() + 1) / 2) as nat,
        |j: int|
            combine(
                level[2 * j],
                if 2 * j + 1 < level.len() {
                    level[2 * j + 1]
                } else {
                    level[2 * j]
                },
            ),
    )
}

/// The root digest over a non-empty level: a single digest is its own root.
pub open spec fn root_of_level(level: Seq<Seq<u8>>) -> Seq<u8>
    decreases level.len(),
{
    if level.len() <= 1 {
        level[0]
    } else {
        root_of_level(next_level(level))
    }
}

/// The root digest over a list of leaf digests; an empty list has none.
pub open spec fn merkle_root(leaves: Seq<Seq<u8>>) -> Option<Seq<u8>> {
    if leaves.len() == 0 {
        None
    } else {
        Some(root_of_level(leaves))
    }
}

/// The leaf digests of a list of values, in order.
pub open spec fn leaf_level(values: Seq<Seq<u8>>) -> Seq<Seq<u8>> {
    values.map_values(|v: Seq<u8>| sha256_of(v))
}

/// The number of combinations between a leaf and the root of a tree with
/// `n` leaves, which is the length of every inclusion proof in it.
pub open spec fn proof_levels(n: nat) -> nat
    decreases n,
{
    if n <= 1 {
        0
    } else {
        1 + proof_levels(((n + 1) / 2) as nat)
    }
}

/// The digests of a proof's siblings, with their directions.
pub open spec fn proof_view(proof: Seq<([u8; 32], Direction)>) -> Seq<(Seq<u8>, Direction)> {
    proof.map_values(|step: ([u8; 32], Direction)| (step.0@, step.1))
}

/// One step of proof checking: combine the running digest with a sibling.
pub open spec fn apply_step(cur: Seq<u8>, step: (Seq<u8>, Direction)) -> Seq<u8> {
    match step.1 {
        Direction::Left => combine(step.0, cur),
        Direction::Right => combine(cur, step.0),
    }
}

/// The root digest that a proof recomputes from a leaf digest, applying its
/// steps from first to last.
pub open spec fn proof_root(leaf: Seq<u8>, proof: Seq<(Seq<u8>, Direction)>) -> Seq<u8>
    decreases proof.len(),
{
    if proof.len() == 0 {
        leaf
    } else {
        proof_root(apply_step(leaf, proof[0]), proof.drop_first())
    }
}

/// The sibling of position `i` in a level, and the side it enters on; a last
/// digest without a partner is its own sibling.
pub open spec fn sibling_step(level: Seq<Seq<u8>>, i: int) -> (Seq<u8>, Direction) {
    if i % 2 == 0 {
        (
            if i + 1 < level.len() {
                level[i + 1]
            } else {
                level[i]
            },
            Direction::Right,
        )
    } else {
        (level[i - 1], Direction::Left)
    }
}

/// The inclusion proof of position `i` among the leaf digests `level`: its
/// sibling on each level, from the leaf up to the level below the root.
pub open spec fn path_of(level: Seq<Seq<u8>>, i: int) -> Seq<(Seq<u8>, Direction)>
    decreases level.len(),
{
    if level.len() <= 1 {
        Seq::empty()
    } else {
        seq![sibling_step(level, i)] + path_of(next_level(level), i / 2)
    }
}

/// Whether position `k` holds the first occurrence of `x` in `s`.
pub open spec fn first_occurrence(s: Seq<Seq<u8>>, x: Seq<u8>, k: int) -> bool {
    &&& 0 <= k < s.len()
    &&& s[k] == x
    &&& forall|j: int| 0 <= j < k ==> s[j] != x
}

/// The position of the first occurrence of `x` in `s`.
pub open spec fn first_index(s: Seq<Seq<u8>>, x: Seq<u8>) -> int
    decreases s.len(),
{
    if s.len() == 0 || s[0] == x {
        0
    } else {
        1 + first_index(s.drop_first(), x)
    }
}

proof fn lemma_first_index(s: Seq<Seq<u8>>, x: Seq<u8>)
    requires
        s.contains(x),
    ensures
        first_occurrence(s, x, first_index(s, x)),
    decreases s.len(),
{
    if s[0] != x {
        let t = s.drop_first();
        let i = choose|i: int| 0 <= i < s.len() && s[i] == x;
        assert(t[i - 1] == x);
        lemma_first_index(t, x);
        assert forall|j: int| 0 <= j < first_index(s, x) implies s[j] != x by {
            if j > 0 {
                assert(s[j] == t[j - 1]);
            }
        }
    }
}

/// Two to the power `d`.
pub open spec fn pow2(d: nat) -> nat
    decreases d,
{
    if d == 0 {
        1
    } else {
        2 * pow2((d - 1) as nat)
    }
}

/// A tree of `proof_levels(n)` levels has room for `n` leaves.
proof fn lemma_room_for_leaves(n: nat)
    requires
        n >= 1,
    ensures
        n <= pow2(proof_levels(n)),
    decreases n,
{
    if n > 1 {
        lemma_room_for_leaves(((n + 1) / 2) as nat);
    }
}

/// Compares two digests byte by byte.
fn digest_eq(a: &[u8; 32], b: &[u8; 32]) -> (r: bool)
    ensures
        r == (a@ == b@),
{
    let mut k: usize = 0;
    while k < 32
        invariant
            k <= 32,
            a@.len() == 32,
            b@.len() == 32,
            forall|j: int| 0 <= j < k ==> a@[j] == b@[j],
        decreases 32 - k,
    {
        if a[k] != b[k] {
            return false;
        }
        k = k + 1;
    }
    assert(a@ =~= b@);
    true
}

/// The digest of the concatenation of two digests.
fn hash_pair(l: &[u8; 32], r: &[u8; 32]) -> (h: [u8; 32])
    ensures
        h@ == combine(l@, r@),
{
    let mut data: Vec<u8> = Vec::with_capacity(64);
    let mut k: usize = 0;
    while k < 32
        invariant
            k <= 32,
            l@.len() == 32,
            data@ =~= l@.subrange(0, k as int),
        decreases 32 - k,
    {
        data.push(l[k]);
        k = k + 1;
    }
    let mut k: usize = 0;
    while k < 32
        invariant
            k <= 32,
            l@.len() == 32,
            r@.len() == 32,
            data@ =~= l@ + r@.subrange(0, k as int),
        decreases 32 - k,
    {
        data.push(r[k]);
        k = k + 1;
    }
    assert(data@ =~= l@ + r@);
    sha256(data.as_slice())
}

/// A node of the tree: a digest, and either no children (a leaf) or two.
struct MerkleNode {
    hash: [u8; 32],
    left: Option<Box<MerkleNode>>,
    right: Option<Box<MerkleNode>>,
}

/// The digests of a level of nodes, in order.
spec fn digests_of(nodes: Seq<MerkleNode>) -> Seq<Seq<u8>> {
    nodes.map_values(|n: MerkleNode| n.hash@)
}

impl MerkleNode {
    spec fn is_leaf(&self) -> bool {
        self.left is None && self.right is None
    }

    /// A node of height `height` whose leaves all lie at that depth, and
    /// whose every parent holds the combination of its children's digests.
    spec fn wf(&self, height: nat) -> bool
        decreases height,
    {
        if height == 0 {
            self.is_leaf()
        } else {
            match (self.left, self.right) {
                (Some(l), Some(r)) => l.wf((height - 1) as nat) && r.wf((height - 1) as nat)
                    && self.hash@ == combine(l.hash@, r.hash@),
                _ => false,
            }
        }
    }

    /// Whether some leaf below this node, of the given height, has digest `x`.
    spec fn has_leaf(&self, height: nat, x: Seq<u8>) -> bool
        decreases height,
    {
        if height == 0 {
            self.hash@ == x
        } else {
            match (self.left, self.right) {
                (Some(l), Some(r)) => l.has_leaf((height - 1) as nat, x) || r.has_leaf(
                    (height - 1) as nat,
                    x,
                ),
                _ => false,
            }
        }
    }

    /// The siblings met on the way up from the first leaf, left to right,
    /// whose digest is `x`, the leaf's own sibling first.
    spec fn search_path(&self, height: nat, x: Seq<u8>) -> Seq<(Seq<u8>, Direction)>
        decreases height,
    {
        if height == 0 {
            Seq::empty()
        } else {
            match (self.left, self.right) {
                (Some(l), Some(r)) => if l.has_leaf((height - 1) as nat, x) {
                    l.search_path((height - 1) as nat, x).push((r.hash@, Direction::Right))
                } else {
                    r.search_path((height - 1) as nat, x).push((l.hash@, Direction::Left))
                },
                _ => Seq::empty(),
            }
        }
    }

    /// The `i`-th node, left to right, at `depth` below this one: the children
    /// of node `j` at one depth are nodes `2j` and `2j + 1` at the next.
    spec fn subtree(&self, depth: nat, i: int) -> MerkleNode
        decreases depth,
    {
        if depth == 0 {
            *self
        } else {
            let parent = self.subtree((depth - 1) as nat, i / 2);
            match if i % 2 == 0 {
                parent.left
            } else {
                parent.right
            } {
                Some(child) => *child,
                None => parent,
            }
        }
    }

    /// The digests of the `2^depth` nodes at `depth` below this one, left to
    /// right; at the node's own height these are its leaves, in order.
    spec fn row(&self, depth: nat) -> Seq<Seq<u8>> {
        Seq::new(pow2(depth), |i: int| self.subtree(depth, i).hash@)
    }

    fn leaf(hash: [u8; 32]) -> (r: MerkleNode)
        ensures
            r.wf(0),
            r.hash == hash,
    {
        MerkleNode { hash, left: None, right: None }
    }

    /// An independent copy of the node and everything below it.
    fn duplicate(&self, Ghost(height): Ghost<nat>) -> (r: MerkleNode)
        requires
            self.wf(height),
        ensures
            r == *self,
        decreases height,
    {
        let left = match &self.left {
            Some(l) => Some(Box::new(l.duplicate(Ghost((height - 1) as nat)))),
            None => None,
        };
        let right = match &self.right {
            Some(r) => Some(Box::new(r.duplicate(Ghost((height - 1) as nat)))),
            None => None,
        };
        MerkleNode { hash: self.hash, left, right }
    }
}

/// Whether one of the first `upto` nodes of a level, of the given height,
/// has a leaf with digest `x`.
spec fn level_has(nodes: Seq<MerkleNode>, upto: int, height: nat, x: Seq<u8>) -> bool {
    exists|k: int| 0 <= k < upto && k < nodes.len() && #[trigger] nodes[k].has_leaf(height, x)
}

/// Whether node `k` is the first of a level, of the given height, with a
/// leaf of digest `x`.
spec fn is_first(nodes: Seq<MerkleNode>, height: nat, x: Seq<u8>, k: int) -> bool {
    &&& 0 <= k < nodes.len()
    &&& nodes[k].has_leaf(height, x)
    &&& !level_has(nodes, k, height, x)
}

/// Reduces a non-empty level of nodes, all of one height, to a single root:
/// pairs of adjacent nodes become parents, a last node without a partner is
/// paired with a copy of itself, and this repeats until one node remains.
fn build_merkle_tree_recursively(nodes: &[MerkleNode], Ghost(height): Ghost<nat>) -> (r:
    MerkleNode)
    requires
        nodes@.len() > 0,
        forall|i: int| 0 <= i < nodes@.len() ==> #[trigger] nodes@[i].wf(height),
    ensures
        r.wf(height + proof_levels(nodes@.len() as nat)),
        r.hash@ == root_of_level(digests_of(nodes@)),
        forall|x: Seq<u8>|
            #[trigger] r.has_leaf(height + proof_levels(nodes@.len() as nat), x) <==> level_has(
                nodes@,
                nodes@.len() as int,
                height,
                x,
            ),
        forall|x: Seq<u8>, k: int|
            #[trigger] is_first(nodes@, height, x, k) ==> r.search_path(
                height + proof_levels(nodes@.len() as nat),
                x,
            ) == nodes@[k].search_path(height, x) + path_of(digests_of(nodes@), k),
        nodes@.len() == 1 ==> r == nodes@[0],
        forall|i: int|
            0 <= i < nodes@.len() ==> #[trigger] r.subtree(proof_levels(nodes@.len() as nat), i)
                == nodes@[i],
        digests_of(nodes@).is_prefix_of(r.row(proof_levels(nodes@.len() as nat))),
        nodes@.len() > 1 && nodes@.len() % 2 == 1 ==> r.subtree(
            proof_levels(nodes@.len() as nat),
            nodes@.len() as int,
        ) == nodes@[nodes@.len() - 1],
    decreases nodes@.len(),
{
    if nodes.len() == 1 {
        let r = nodes[0].duplicate(Ghost(height));
        assert forall|x: Seq<u8>| #[trigger] r.has_leaf(height, x) implies level_has(
            nodes@,
            1,
            height,
            x,
        ) by {
            assert(nodes@[0].has_leaf(height, x));
        }
        assert(digests_of(nodes@) =~= r.row(0).subrange(0, 1));
        assert forall|x: Seq<u8>, k: int| #[trigger] is_first(nodes@, height, x, k) implies r.search_path(
            height,
            x,
        ) == nodes@[k].search_path(height, x) + path_of(digests_of(nodes@), k) by {
            assert(r.search_path(height, x) + Seq::empty() =~= r.search_path(height, x));
        }
        return r;
    }
    let ghost level = digests_of(nodes@);
    let ghost n = nodes@.len() as int;
    let mut parents: Vec<MerkleNode> = Vec::new();
    let half: usize = nodes.len() / 2 + nodes.len() % 2;
    let mut j: usize = 0;
    while j < half
        invariant
            n == nodes@.len(),
            n == nodes.len(),
            n >= 2,
            half == (n + 1) / 2,
            level == digests_of(nodes@),
            j == parents@.len(),
            j <= half,
            forall|m: int|
                0 <= m < parents@.len() ==> (#[trigger] parents@[m]).left is Some
                    && parents@[m].right is Some && *parents@[m].left->Some_0 == nodes@[2 * m]
                    && *parents@[m].right->Some_0 == nodes@[if 2 * m + 1 < n {
                    2 * m + 1
                } else {
                    2 * m
                }],
            forall|k: int| 0 <= k < n ==> #[trigger] nodes@[k].wf(height),
            forall|j: int|
                0 <= j < parents@.len() ==> #[trigger] parents@[j].wf(height + 1)
                    && parents@[j].hash@ == next_level(level)[j],
            forall|x: Seq<u8>|
                #[trigger] level_has(parents@, parents@.len() as int, height + 1, x) <==> level_has(
                    nodes@,
                    2 * j,
                    height,
                    x,
                ),
        decreases half - j,
    {
        assert(2 * j < n);
        let i: usize = 2 * j;
        let left = nodes[i].duplicate(Ghost(height));
        let right = if i + 1 < nodes.len() {
            nodes[i + 1].duplicate(Ghost(height))
        } else {
            nodes[i].duplicate(Ghost(height))
        };
        let hash = hash_pair(&left.hash, &right.hash);
        let ghost old_parents = parents@;
        let parent = MerkleNode { hash, left: Some(Box::new(left)), right: Some(Box::new(right)) };
        proof {
            let ii = i as int;
            assert(nodes@[ii].wf(height));
            assert(left.wf(height));
            if ii + 1 < n {
                assert(nodes@[ii + 1].wf(height));
            }
            assert(right.wf(height));
            assert(level[ii] == nodes@[ii].hash@);
            if ii + 1 < n {
                assert(level[ii + 1] == nodes@[ii + 1].hash@);
            }
            assert(parent.hash@ == next_level(level)[ii / 2]);
            assert(parent.wf(height + 1));
        }
        parents.push(parent);
        proof {
            let ii = i as int;
            assert(parents@[ii / 2] == parent);
            assert forall|m: int| 0 <= m < old_parents.len() implies parents@[m] == old_parents[m] by {}
            assert forall|x: Seq<u8>|
                #[trigger] level_has(parents@, parents@.len() as int, height + 1, x) <==> level_has(
                    nodes@,
                    ii + 2,
                    height,
                    x,
                ) by {
                if level_has(parents@, parents@.len() as int, height + 1, x) {
                    let j = choose|j: int|
                        0 <= j < parents@.len() && j < parents@.len()
                            && #[trigger] parents@[j].has_leaf(height + 1, x);
                    if j < old_parents.len() {
                        assert(old_parents[j] == parents@[j]);
                        assert(level_has(old_parents, old_parents.len() as int, height + 1, x));
                    } else {
                        assert(parent.has_leaf(height + 1, x));
                        if !nodes@[ii].has_leaf(height, x) {
                            assert(nodes@[ii + 1].has_leaf(height, x));
                        }
                    }
                }
                if level_has(nodes@, ii + 2, height, x) {
                    let k = choose|k: int|
                        0 <= k < ii + 2 && k < n && #[trigger] nodes@[k].has_leaf(height, x);
                    if k < ii {
                        assert(level_has(nodes@, ii, height, x));
                        assert(level_has(old_parents, old_parents.len() as int, height + 1, x));
                        let j = choose|j: int|
                            0 <= j < old_parents.len() && j < old_parents.len()
                                && #[trigger] old_parents[j].has_leaf(height + 1, x);
                        assert(parents@[j] == old_parents[j]);
                    } else {
                        assert(parent.has_leaf(height + 1, x));
                        assert(parents@[ii / 2].has_leaf(height + 1, x));
                    }
                }
            }
        }
        j = j + 1;
    }
    let r = build_merkle_tree_recursively(parents.as_slice(), Ghost(height + 1));
    proof {
        assert(parents@.len() == (n + 1) / 2);
        assert forall|j: int| 0 <= j < parents@.len() implies digests_of(parents@)[j] == next_level(
            level,
        )[j] by {
            assert(parents@[j].wf(height + 1));
        }
        assert(digests_of(parents@) =~= next_level(level));
        assert(height + proof_levels(n as nat) == height + 1 + proof_levels(parents@.len() as nat));
        assert forall|x: Seq<u8>|
            #[trigger] r.has_leaf(height + proof_levels(n as nat), x) <==> level_has(
                nodes@,
                n,
                height,
                x,
            ) by {
            assert(level_has(nodes@, n, height, x) == level_has(nodes@, 2 * j, height, x));
            assert(r.has_leaf(height + 1 + proof_levels(parents@.len() as nat), x) == level_has(
                parents@,
                parents@.len() as int,
                height + 1,
                x,
            ));
        }
        let d = digests_of(nodes@);
        let hp = height + 1 + proof_levels(parents@.len() as nat);
        assert(hp == height + proof_levels(nodes@.len() as nat));
        assert forall|x: Seq<u8>, k: int| #[trigger] is_first(nodes@, height, x, k) implies r.search_path(
            hp,
            x,
        ) == nodes@[k].search_path(height, x) + path_of(d, k) by {
            let m = k / 2;
            let pm = parents@[m];
            assert(pm.left is Some && pm.right is Some);
            let l = *pm.left->Some_0;
            let rt = *pm.right->Some_0;
            assert(l == nodes@[2 * m]);
            assert(pm.has_leaf(height + 1, x)) by {
                if k != 2 * m {
                    assert(rt == nodes@[k]);
                }
            }
            assert forall|j: int| 0 <= j < m implies !(#[trigger] parents@[j]).has_leaf(height + 1, x) by {
                assert(!nodes@[2 * j].has_leaf(height, x));
                assert(!nodes@[2 * j + 1].has_leaf(height, x));
            }
            assert(!level_has(parents@, m, height + 1, x));
            assert(is_first(parents@, height + 1, x, m));
            assert(d[2 * m] == nodes@[2 * m].hash@);
            if 2 * m + 1 < n {
                assert(d[2 * m + 1] == nodes@[2 * m + 1].hash@);
            }
            let s = sibling_step(d, k);
            if k == 2 * m {
                assert(pm.search_path(height + 1, x) == nodes@[k].search_path(height, x).push(s));
            } else {
                assert(!nodes@[2 * m].has_leaf(height, x));
                assert(rt == nodes@[k]);
                assert(pm.search_path(height + 1, x) == nodes@[k].search_path(height, x).push(s));
            }
            assert(path_of(d, k) == seq![s] + path_of(next_level(d), m));
            assert(nodes@[k].search_path(height, x).push(s) + path_of(next_level(d), m)
                =~= nodes@[k].search_path(height, x) + (seq![s] + path_of(next_level(d), m)));
        }
        let p = parents@.len() as int;
        assert(proof_levels(n as nat) == proof_levels(p as nat) + 1);
        assert forall|i: int| 0 <= i < n implies #[trigger] r.subtree(proof_levels(n as nat), i)
            == nodes@[i] by {
            assert(r.subtree(proof_levels(p as nat), i / 2) == parents@[i / 2]);
        }
        if n % 2 == 1 {
            assert(r.subtree(proof_levels(p as nat), n / 2) == parents@[n / 2]);
        }
        lemma_room_for_leaves(n as nat);
        assert(digests_of(nodes@) =~= r.row(proof_levels(n as nat)).subrange(0, n));
    }
    r
}

/// Depth-first search for the first leaf, left to right, whose digest is
/// `target`. On success the siblings on the way up from that leaf are
/// appended to `proof`, the leaf's own sibling first.
fn dfs_generate_proof(
    node: &MerkleNode,
    target: &[u8; 32],
    proof: &mut Vec<([u8; 32], Direction)>,
    Ghost(height): Ghost<nat>,
) -> (found: bool)
    requires
        node.wf(height),
    ensures
        found == node.has_leaf(height, target@),
        found ==> final(proof)@.len() == old(proof)@.len() + height,
        found ==> final(proof)@.subrange(0, old(proof)@.len() as int) == old(proof)@,
        found ==> proof_view(
            final(proof)@.subrange(old(proof)@.len() as int, final(proof)@.len() as int),
        ) == node.search_path(height, target@),
        !found ==> final(proof)@ == old(proof)@,
    decreases height,
{
    if node.left.is_none() && node.right.is_none() {
        let found = digest_eq(&node.hash, target);
        proof {
            assert(proof@.subrange(0, proof@.len() as int) =~= proof@);
            assert(proof@.subrange(proof@.len() as int, proof@.len() as int) =~= Seq::empty());
        }
        return found;
    }
    let ghost start = proof@.len() as int;
    if let Some(left) = &node.left {
        if dfs_generate_proof(left, target, proof, Ghost((height - 1) as nat)) {
            if let Some(right) = &node.right {
                let ghost before = proof@;
                proof.push((right.hash, Direction::Right));
                proof {
                    assert(proof@.subrange(0, start) =~= before.subrange(0, start));
                    assert(proof_view(proof@.subrange(start, proof@.len() as int)) =~= proof_view(
                        before.subrange(start, before.len() as int),
                    ).push(proof_view(proof@)[proof@.len() - 1]));
                }
            }
            return true;
        }
    }
    if let Some(right) = &node.right {
        if dfs_generate_proof(right, target, proof, Ghost((height - 1) as nat)) {
            if let Some(left) = &node.left {
                let ghost before = proof@;
                proof.push((left.hash, Direction::Left));
                proof {
                    assert(proof@.subrange(0, start) =~= before.subrange(0, start));
                    assert(proof_view(proof@.subrange(start, proof@.len() as int)) =~= proof_view(
                        before.subrange(start, before.len() as int),
                    ).push(proof_view(proof@)[proof@.len() - 1]));
                }
            }
            return true;
        }
    }
    false
}

/// Recomputes a root digest from `leaf_hash` and the steps of `proof`, in
/// order, and tells whether it equals `root_hash`.
pub fn verify_proof(leaf_hash: [u8; 32], proof: &[([u8; 32], Direction)], root_hash: [u8; 32]) -> (r:
    bool)
    ensures
        r == (proof_root(leaf_hash@, proof_view(proof@)) == root_hash@),
{
    let ghost steps = proof_view(proof@);
    let mut current = leaf_hash;
    let mut i: usize = 0;
    assert(steps.subrange(0, steps.len() as int) =~= steps);
    while i < proof.len()
        invariant
            i <= proof@.len(),
            steps == proof_view(proof@),
            proof_root(current@, steps.subrange(i as int, steps.len() as int)) == proof_root(
                leaf_hash@,
                steps,
            ),
        decreases proof@.len() - i,
    {
        let step = proof[i];
        proof {
            let rest = steps.subrange(i as int, steps.len() as int);
            assert(rest[0] == (step.0@, step.1));
            assert(rest.drop_first() =~= steps.subrange(i + 1, steps.len() as int));
        }
        current =
        match step.1 {
            Direction::Left => hash_pair(&step.0, &current),
            Direction::Right => hash_pair(&current, &step.0),
        };
        i = i + 1;
    }
    assert(steps.subrange(i as int, steps.len() as int) =~= Seq::empty());
    digest_eq(&current, &root_hash)
}

/// One leaf node per value, in order, holding the value's digest.
fn build_leaves_array(values: &[&[u8]]) -> (r: Vec<MerkleNode>)
    ensures
        r@.len() == values@.len(),
        forall|i: int|
            0 <= i < r@.len() ==> (#[trigger] r@[i]).wf(0) && r@[i].hash@ == sha256_of(values@[i]@),
{
    let mut leaves: Vec<MerkleNode> = Vec::new();
    let mut i: usize = 0;
    while i < values.len()
        invariant
            i <= values@.len(),
            leaves@.len() == i,
            forall|k: int|
                0 <= k < i ==> (#[trigger] leaves@[k]).wf(0) && leaves@[k].hash@ == sha256_of(
                    values@[k]@,
                ),
        decreases values@.len() - i,
    {
        leaves.push(MerkleNode::leaf(sha256(values[i])));
        i = i + 1;
    }
    leaves
}

/// A hash tree over an ordered list of values. Its model is the list of leaf
/// digests, one per value in insertion order; the root is a function of it.
pub struct MerkleTree {
    root: Option<MerkleNode>,
    leaves: Vec<[u8; 32]>,
}

impl View for MerkleTree {
    type V = Seq<Seq<u8>>;

    closed spec fn view(&self) -> Seq<Seq<u8>> {
        self.leaves@.map_values(|d: [u8; 32]| d@)
    }
}

impl MerkleTree {
    /// The stored root node is the tree over the leaf digests: absent exactly
    /// when there are none, otherwise of full height, holding the root digest
    /// of the leaves, with the leaf digests, in order, as the first of its
    /// leaves and no other digest among its leaves.
    pub closed spec fn wf(&self) -> bool {
        match self.root {
            None => self.leaves@.len() == 0,
            Some(node) => {
                &&& self.leaves@.len() > 0
                &&& node.wf(proof_levels(self.leaves@.len() as nat))
                &&& node.hash@ == root_of_level(self@)
                &&& forall|x: Seq<u8>|
                    #[trigger] node.has_leaf(proof_levels(self.leaves@.len() as nat), x)
                        <==> self@.contains(x)
                &&& self@.is_prefix_of(node.row(proof_levels(self.leaves@.len() as nat)))
                &&& forall|x: Seq<u8>, k: int|
                    #[trigger] first_occurrence(self@, x, k) ==> node.search_path(
                        proof_levels(self.leaves@.len() as nat),
                        x,
                    ) == path_of(self@, k)
            },
        }
    }

    /// The digest held at the root, if there is a root.
    pub closed spec fn root_digest(&self) -> Option<Seq<u8>> {
        match self.root {
            Some(node) => Some(node.hash@),
            None => None,
        }
    }

    /// Makes a tree over the given leaf digests and their leaf nodes.
    fn assemble(leaves: Vec<[u8; 32]>, nodes: &[MerkleNode]) -> (t: MerkleTree)
        requires
            nodes@.len() == leaves@.len(),
            forall|i: int|
                0 <= i < nodes@.len() ==> (#[trigger] nodes@[i]).wf(0) && nodes@[i].hash
                    == leaves@[i],
        ensures
            t.wf(),
            t.leaves == leaves,
    {
        let root = if nodes.len() == 0 {
            None
        } else {
            let node = build_merkle_tree_recursively(nodes, Ghost(0));
            proof {
                let t = MerkleTree { root: None, leaves };
                assert(digests_of(nodes@) =~= t@);
                assert forall|x: Seq<u8>| #[trigger]
                    level_has(nodes@, nodes@.len() as int, 0, x) <==> t@.contains(x) by {
                    if level_has(nodes@, nodes@.len() as int, 0, x) {
                        let k = choose|k: int|
                            0 <= k < nodes@.len() && k < nodes@.len()
                                && #[trigger] nodes@[k].has_leaf(0, x);
                        assert(t@[k] == x);
                    }
                    if t@.contains(x) {
                        let k = choose|k: int| 0 <= k < t@.len() && t@[k] == x;
                        assert(nodes@[k].has_leaf(0, x));
                    }
                }
                assert forall|x: Seq<u8>, k: int| #[trigger] first_occurrence(t@, x, k) implies node.search_path(
                    proof_levels(nodes@.len() as nat),
                    x,
                ) == path_of(t@, k) by {
                    assert(nodes@[k].has_leaf(0, x));
                    assert forall|j: int| 0 <= j < k implies !(#[trigger] nodes@[j]).has_leaf(0, x) by {
                        assert(t@[j] == nodes@[j].hash@);
                    }
                    assert(is_first(nodes@, 0, x, k));
                    assert(nodes@[k].search_path(0, x) + path_of(t@, k) =~= path_of(t@, k));
                }
            }
            Some(node)
        };
        MerkleTree { root, leaves }
    }

    /// The root digest, absent for a tree without values.
    pub fn get_root(&self) -> (r: Option<&[u8; 32]>)
        requires
            self.wf(),
        ensures
            r is None <==> self@.len() == 0,
            r matches Some(d) ==> Some(d@) == merkle_root(self@),
            r matches Some(d) ==> Some(d@) == self.root_digest(),
            r is None ==> self.root_digest() is None,
    {
        match &self.root {
            Some(node) => Some(&node.hash),
            None => None,
        }
    }

    /// Builds the tree over `values`, in order.
    pub fn from_bytes(values: &[&[u8]]) -> (t: Self)
        ensures
            t.wf(),
            t@ == leaf_level(values@.map_values(|v: &[u8]| v@)),
    {
        let nodes = build_leaves_array(values);
        let mut leaves: Vec<[u8; 32]> = Vec::new();
        let mut i: usize = 0;
        while i < nodes.len()
            invariant
                i <= nodes@.len(),
                leaves@.len() == i,
                forall|k: int| 0 <= k < i ==> #[trigger] leaves@[k] == nodes@[k].hash,
            decreases nodes@.len() - i,
        {
            leaves.push(nodes[i].hash);
            i = i + 1;
        }
        let t = Self::assemble(leaves, nodes.as_slice());
        assert(t@ =~= leaf_level(values@.map_values(|v: &[u8]| v@)));
        t
    }

    /// Appends the digest of `value` as a new last leaf and rebuilds the
    /// whole tree over the extended list.
    pub fn push(&mut self, value: &[u8])
        requires
            old(self).wf(),
        ensures
            final(self).wf(),
            final(self)@ == old(self)@.push(sha256_of(value@)),
    {
        let leaf_hashed = sha256(value);
        let ghost before = self.leaves@;
        let mut leaves: Vec<[u8; 32]> = Vec::new();
        std::mem::swap(&mut leaves, &mut self.leaves);
        leaves.push(leaf_hashed);
        let mut nodes: Vec<MerkleNode> = Vec::new();
        let mut i: usize = 0;
        while i < leaves.len()
            invariant
                i <= leaves@.len(),
                nodes@.len() == i,
                forall|k: int|
                    0 <= k < i ==> (#[trigger] nodes@[k]).wf(0) && nodes@[k].hash == leaves@[k],
            decreases leaves@.len() - i,
        {
            nodes.push(MerkleNode::leaf(leaves[i]));
            i = i + 1;
        }
        *self = Self::assemble(leaves, nodes.as_slice());
        assert(self@ =~= old(self)@.push(sha256_of(value@)));
    }

    /// The inclusion proof for the first leaf, left to right, whose digest is
    /// `target`; absent when no leaf has that digest.
    pub fn generate_proof(&self, target: &[u8; 32]) -> (r: Option<Vec<([u8; 32], Direction)>>)
        requires
            self.wf(),
        ensures
            r is Some <==> self@.contains(target@),
            r matches Some(p) ==> proof_view(p@) == path_of(self@, first_index(self@, target@)),
            r matches Some(p) ==> proof_root(target@, proof_view(p@)) == root_of_level(self@),
    {
        let root = match &self.root {
            Some(node) => node,
            None => {
                return None;
            },
        };
        let mut proof: Vec<([u8; 32], Direction)> = Vec::new();
        if dfs_generate_proof(root, target, &mut proof, Ghost(proof_levels(self.leaves@.len() as nat))) {
            proof {
                assert(proof@.subrange(0, proof@.len() as int) =~= proof@);
                lemma_first_index(self@, target@);
                let k = first_index(self@, target@);
                assert(first_occurrence(self@, target@, k));
                lemma_path_recomputes_root(self@, k);
            }
            Some(proof)
        } else {
            None
        }
    }
}

/// Two well-formed trees with the same leaf digests, in the same order, hold
/// the same root digest: building is deterministic.
pub proof fn lemma_same_leaves_same_root(a: &MerkleTree, b: &MerkleTree)
    requires
        a.wf(),
        b.wf(),
        a@ == b@,
    ensures
        a.root_digest() == b.root_digest(),
        a.root_digest() == merkle_root(a@),
{
    assert(a.leaves@.len() == a@.len());
    assert(b.leaves@.len() == b@.len());
}

/// A tree over one leaf has that leaf's digest as its root, its proofs are
/// empty, and the empty proof recomputes the leaf digest itself.
pub proof fn lemma_single_leaf(d: Seq<u8>)
    ensures
        merkle_root(seq![d]) == Some(d),
        proof_levels(1) == 0,
        path_of(seq![d], 0) == Seq::<(Seq<u8>, Direction)>::empty(),
        proof_root(d, Seq::empty()) == d,
{
}

/// The inclusion proof of any position recomputes the root digest from the
/// digest at that position.
pub proof fn lemma_path_recomputes_root(level: Seq<Seq<u8>>, k: int)
    requires
        0 <= k < level.len(),
    ensures
        proof_root(level[k], path_of(level, k)) == root_of_level(level),
    decreases level.len(),
{
    if level.len() > 1 {
        let up = next_level(level);
        let s = sibling_step(level, k);
        let path = path_of(level, k);
        assert(path[0] == s);
        assert(path.drop_first() =~= path_of(up, k / 2));
        assert(apply_step(level[k], s) == up[k / 2]);
        lemma_path_recomputes_root(up, k / 2);
    }
}

/// On three leaves the last one is paired with itself:
/// the root is `H(H(a ++ b) ++ H(c ++ c))`.
pub proof fn lemma_three_leaves(a: Seq<u8>, b: Seq<u8>, c: Seq<u8>)
    ensures
        merkle_root(seq![a, b, c]) == Some(combine(combine(a, b), combine(c, c))),
{
    let l1 = next_level(seq![a, b, c]);
    assert(l1 =~= seq![combine(a, b), combine(c, c)]);
    let l2 = next_level(l1);
    assert(l2 =~= seq![combine(combine(a, b), combine(c, c))]);
    assert(root_of_level(l1) == root_of_level(l2));
}

/// Appending a value to a tree built from `values` gives the leaf digests of
/// the tree built from `values` followed by that value, hence the same root.
pub proof fn lemma_push_matches_construction(values: Seq<Seq<u8>>, x: Seq<u8>)
    ensures
        leaf_level(values).push(sha256_of(x)) == leaf_level(values.push(x)),
        merkle_root(leaf_level(values).push(sha256_of(x))) == merkle_root(
            leaf_level(values.push(x)),
        ),
{
    assert(leaf_level(values).push(sha256_of(x)) =~= leaf_level(values.push(x)));
}

} // verus!
