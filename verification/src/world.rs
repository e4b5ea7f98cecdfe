//! Sparse voxel octree over a bounded cubic world.
//!
//! The tree lives in an append-only pool of `u32` entries, eight per node.
//! An entry is `0` (empty), a leaf (`LEAF_FLAG` plus a block id), or the pool
//! offset of the child node. Coordinates are bounded to `[0, WORLD_SIZE)` on
//! every axis.

use vstd::prelude::*;

verus! {

/// Number of levels below the root; the world is `2^SVO_DEPTH` voxels wide.
pub const SVO_DEPTH: u32 = 8;

/// Side length of the world in voxels.
pub const WORLD_SIZE: i32 = 256;

/// High bit of an entry: set on leaves, clear on child offsets.
const LEAF_FLAG: u32 = 0x8000_0000;

/// Whether a coordinate lies inside the world.
pub open spec fn in_world(x: int, y: int, z: int) -> bool {
    0 <= x < 256 && 0 <= y < 256 && 0 <= z < 256
}

/// The blocks of a world in which every voxel is air.
pub open spec fn empty_world() -> Map<(int, int, int), u8> {
    Map::new(|p: (int, int, int)| in_world(p.0, p.1, p.2), |p: (int, int, int)| 0u8)
}

/// The block that `blocks` gives for a coordinate: air where it has none.
pub open spec fn block_in(blocks: Map<(int, int, int), u8>, x: int, y: int, z: int) -> u8 {
    if blocks.dom().contains((x, y, z)) {
        blocks[(x, y, z)]
    } else {
        0
    }
}

/// The blocks of a world after an insertion: unchanged for air or for a
/// coordinate outside the world, else changed at that one voxel.
pub open spec fn with_block(
    blocks: Map<(int, int, int), u8>,
    x: int,
    y: int,
    z: int,
    block_type: u8,
) -> Map<(int, int, int), u8> {
    if in_world(x, y, z) && block_type != 0 {
        blocks.insert((x, y, z), block_type)
    } else {
        blocks
    }
}

/// The coordinate `v` with its `bits` lowest bits dropped.
spec fn prefix(v: int, bits: nat) -> int
    decreases bits,
{
    if bits == 0 {
        v
    } else {
        prefix(v, (bits - 1) as nat) / 2
    }
}

/// Which of the eight children of a node at `level` holds the voxel `(x, y, z)`:
/// one bit of each coordinate, x lowest.
spec fn child_slot(level: nat, x: int, y: int, z: int) -> int {
    prefix(x, (level - 1) as nat) % 2 + 2 * (prefix(y, (level - 1) as nat) % 2) + 4 * (prefix(
        z,
        (level - 1) as nat,
    ) % 2)
}

/// The block that a walk from the node at `ptr`, which sits `level` levels
/// above the voxels, finds for `(x, y, z)`.
spec fn lookup(pool: Seq<u32>, ptr: int, level: nat, x: int, y: int, z: int) -> u8
    decreases level,
{
    if level == 0 {
        0
    } else {
        let entry = pool[ptr + child_slot(level, x, y, z)];
        if entry == 0 {
            0
        } else if entry >= 0x8000_0000 {
            (entry - 0x8000_0000) as u8
        } else {
            lookup(pool, entry as int, (level - 1) as nat, x, y, z)
        }
    }
}

/// What the proof records of one node: the cube it covers, as a level and the
/// coordinate prefixes at that level, and the entry that points to it.
struct NodeInfo {
    level: nat,
    x: int,
    y: int,
    z: int,
    parent: int,
}

spec fn same_cube(a: NodeInfo, b: NodeInfo) -> bool {
    a.level == b.level && a.x == b.x && a.y == b.y && a.z == b.z
}

/// The node is inside the world and, unless it is the root, linked from its parent entry.
spec fn node_ok(pool: Seq<u32>, nodes: Seq<NodeInfo>, k: int) -> bool {
    &&& 1 <= nodes[k].level <= 8
    &&& 0 <= nodes[k].x < 256
    &&& 0 <= nodes[k].y < 256
    &&& 0 <= nodes[k].z < 256
    &&& k > 0 ==> 0 <= nodes[k].parent < pool.len() && pool[nodes[k].parent] == 8 * k
}

/// Entry `c` of node `k` is empty, a leaf, or the offset of the node that covers that octant.
spec fn entry_ok(pool: Seq<u32>, nodes: Seq<NodeInfo>, k: int, c: int) -> bool {
    let entry = pool[8 * k + c];
    ||| entry == 0
    ||| 0x8000_0000 <= entry < 0x8000_0100
    ||| {
        &&& entry < 0x8000_0000
        &&& entry % 8 == 0
        &&& entry / 8 < nodes.len()
        &&& nodes[k].level > 1
        &&& nodes[entry as int / 8].level == nodes[k].level - 1
        &&& nodes[entry as int / 8].x == 2 * nodes[k].x + c % 2
        &&& nodes[entry as int / 8].y == 2 * nodes[k].y + (c / 2) % 2
        &&& nodes[entry as int / 8].z == 2 * nodes[k].z + (c / 4) % 2
    }
}

/// Structural invariant of a pool with its node records.
spec fn tree_ok(pool: Seq<u32>, nodes: Seq<NodeInfo>) -> bool {
    &&& 1 <= nodes.len() <= 0x800_0000
    &&& pool.len() == 8 * nodes.len()
    &&& nodes[0].level == 8 && nodes[0].x == 0 && nodes[0].y == 0 && nodes[0].z == 0
    &&& forall|k: int| 0 <= k < nodes.len() ==> #[trigger] node_ok(pool, nodes, k)
    &&& forall|k: int, c: int|
        0 <= k < nodes.len() && 0 <= c < 8 ==> #[trigger] entry_ok(pool, nodes, k, c)
    &&& forall|j: int, k: int|
        0 <= j < k < nodes.len() ==> !#[trigger] same_cube(nodes[j], nodes[k])
}

/// `prefix` written out as a division, for every shift the tree uses.
proof fn lemma_prefix_div(v: int)
    ensures
        prefix(v, 0) == v,
        prefix(v, 1) == v / 2,
        prefix(v, 2) == v / 4,
        prefix(v, 3) == v / 8,
        prefix(v, 4) == v / 16,
        prefix(v, 5) == v / 32,
        prefix(v, 6) == v / 64,
        prefix(v, 7) == v / 128,
        prefix(v, 8) == v / 256,
{
    reveal_with_fuel(prefix, 9);
}

/// One bit of a coordinate of the world: bit `shift` of `v`.
fn coordinate_bit(v: i32, shift: u32) -> (bit: u32)
    requires
        0 <= v < 256,
        shift < 8,
    ensures
        bit == prefix(v as int, shift as nat) % 2,
        bit <= 1,
{
    let level_size: i32 = 1 << shift;
    assert(level_size == (if shift == 0 {
        1i32
    } else if shift == 1 {
        2i32
    } else if shift == 2 {
        4i32
    } else if shift == 3 {
        8i32
    } else if shift == 4 {
        16i32
    } else if shift == 5 {
        32i32
    } else if shift == 6 {
        64i32
    } else {
        128i32
    })) by (bit_vector)
        requires
            level_size == 1i32 << shift,
            shift < 8,
    ;
    let q: i32 = v / level_size;
    let low: i32 = q & 1;
    assert(low == q % 2 && 0 <= low <= 1) by (bit_vector)
        requires
            low == q & 1i32,
            0 <= q < 256,
    ;
    proof {
        lemma_prefix_div(v as int);
    }
    low as u32
}

/// Index of the child of a node at `level` that holds `(x, y, z)`.
fn child_index(x: i32, y: i32, z: i32, level: u32) -> (slot: u32)
    requires
        in_world(x as int, y as int, z as int),
        1 <= level <= 8,
    ensures
        slot == child_slot(level as nat, x as int, y as int, z as int),
        slot < 8,
{
    let bx: u32 = coordinate_bit(x, level - 1);
    let by: u32 = coordinate_bit(y, level - 1);
    let bz: u32 = coordinate_bit(z, level - 1);
    let slot: u32 = (bx << 0) | (by << 1) | (bz << 2);
    assert(slot == bx + 2 * by + 4 * bz) by (bit_vector)
        requires
            slot == (bx << 0u32) | (by << 1u32) | (bz << 2u32),
            bx <= 1,
            by <= 1,
            bz <= 1,
    ;
    slot
}

/// The node at `ptr` sits at `level` and its cube holds `(x, y, z)`.
spec fn on_path(nodes: Seq<NodeInfo>, ptr: int, level: nat, x: int, y: int, z: int) -> bool {
    if level == 0 {
        true
    } else {
        &&& ptr % 8 == 0
        &&& 0 <= ptr / 8 < nodes.len()
        &&& nodes[ptr / 8].level == level
        &&& nodes[ptr / 8].x == prefix(x, level)
        &&& nodes[ptr / 8].y == prefix(y, level)
        &&& nodes[ptr / 8].z == prefix(z, level)
    }
}

/// The voxel `(x, y, z)` lies in the octant that pool entry `i` stands for.
spec fn in_octant(nodes: Seq<NodeInfo>, i: int, x: int, y: int, z: int) -> bool {
    let k = i / 8;
    &&& nodes[k].x == prefix(x, nodes[k].level)
    &&& nodes[k].y == prefix(y, nodes[k].level)
    &&& nodes[k].z == prefix(z, nodes[k].level)
    &&& child_slot(nodes[k].level, x, y, z) == i % 8
}

/// `changed` keeps every entry of `pool` but entry `i`, and may be longer.
spec fn agrees_except(pool: Seq<u32>, changed: Seq<u32>, i: int) -> bool {
    &&& changed.len() >= pool.len()
    &&& forall|j: int| 0 <= j < pool.len() && j != i ==> changed[j] == pool[j]
}

/// A prefix of a world coordinate is a world coordinate.
proof fn lemma_prefix_range(v: int, bits: nat)
    requires
        0 <= v < 256,
        bits <= 8,
    ensures
        0 <= prefix(v, bits) < 256,
{
    lemma_prefix_div(v);
}

/// Every voxel of the world lies in the root's cube.
proof fn lemma_root_on_path(pool: Seq<u32>, nodes: Seq<NodeInfo>, x: int, y: int, z: int)
    requires
        tree_ok(pool, nodes),
        in_world(x, y, z),
    ensures
        on_path(nodes, 0, 8, x, y, z),
{
    lemma_prefix_div(x);
    lemma_prefix_div(y);
    lemma_prefix_div(z);
}

/// A walk for a voxel outside the octant of entry `i` never reads entry `i`,
/// nor anything past the end of the pool.
proof fn lemma_walk_unchanged(
    pool: Seq<u32>,
    changed: Seq<u32>,
    nodes: Seq<NodeInfo>,
    i: int,
    ptr: int,
    level: nat,
    x: int,
    y: int,
    z: int,
)
    requires
        tree_ok(pool, nodes),
        agrees_except(pool, changed, i),
        0 <= i < pool.len(),
        level >= 1,
        on_path(nodes, ptr, level, x, y, z),
        !in_octant(nodes, i, x, y, z),
    ensures
        lookup(changed, ptr, level, x, y, z) == lookup(pool, ptr, level, x, y, z),
    decreases level,
{
    let k = ptr / 8;
    let c = child_slot(level, x, y, z);
    assert(0 <= c < 8);
    assert(entry_ok(pool, nodes, k, c));
    let j = ptr + c;
    assert(j == 8 * k + c);
    if j == i {
        assert(i / 8 == k && i % 8 == c);
        assert(false);
    }
    let entry = pool[j];
    assert(changed[j] == entry);
    if entry != 0 && entry < 0x8000_0000 {
        assert(on_path(nodes, entry as int, (level - 1) as nat, x, y, z));
        lemma_walk_unchanged(pool, changed, nodes, i, entry as int, (level - 1) as nat, x, y, z);
    }
}

/// The walk from the root for a voxel passes through every node whose cube holds it.
proof fn lemma_root_reaches(
    pool: Seq<u32>,
    nodes: Seq<NodeInfo>,
    ptr: int,
    level: nat,
    x: int,
    y: int,
    z: int,
)
    requires
        tree_ok(pool, nodes),
        level >= 1,
        on_path(nodes, ptr, level, x, y, z),
    ensures
        lookup(pool, 0, 8, x, y, z) == lookup(pool, ptr, level, x, y, z),
    decreases 8 - level,
{
    let k = ptr / 8;
    assert(node_ok(pool, nodes, k));
    if k != 0 {
        let parent = nodes[k].parent;
        let kp = parent / 8;
        let c = parent % 8;
        assert(parent == 8 * kp + c);
        assert(entry_ok(pool, nodes, kp, c));
        assert(node_ok(pool, nodes, kp));
        assert(pool[parent] == 8 * k);
        assert(on_path(nodes, 8 * kp, level + 1, x, y, z));
        assert(child_slot(level + 1, x, y, z) == c);
        assert(lookup(pool, 8 * kp, level + 1, x, y, z) == lookup(pool, ptr, level, x, y, z));
        lemma_root_reaches(pool, nodes, 8 * kp, level + 1, x, y, z);
    }
}

/// Injective number of a cube.
spec fn cube_code(n: NodeInfo) -> int {
    (((n.level - 1) * 256 + n.x) * 256 + n.y) * 256 + n.z
}

/// An injection from `[0, n)` into `[0, m)` needs `n <= m`.
proof fn lemma_injection_bound(f: spec_fn(int) -> int, n: int, m: int)
    requires
        n >= 0,
        m >= 0,
        forall|i: int| 0 <= i < n ==> 0 <= #[trigger] f(i) < m,
        forall|i: int, j: int| 0 <= i < j < n ==> #[trigger] f(i) != #[trigger] f(j),
    ensures
        n <= m,
    decreases m,
{
    if n == 0 {
    } else if m == 0 {
        assert(0 <= f(0) < m);
    } else if exists|i: int| 0 <= i < n && #[trigger] f(i) == m - 1 {
        let w = choose|i: int| 0 <= i < n && #[trigger] f(i) == m - 1;
        let g = |j: int|
            if j < w {
                f(j)
            } else {
                f(j + 1)
            };
        assert forall|j: int| 0 <= j < n - 1 implies 0 <= #[trigger] g(j) < m - 1 by {
            if j < w {
                assert(f(j) != f(w));
            } else {
                assert(f(w) != f(j + 1));
            }
        }
        assert forall|a: int, b: int| 0 <= a < b < n - 1 implies #[trigger] g(a) != #[trigger] g(
            b,
        ) by {
            let fa = if a < w {
                a
            } else {
                a + 1
            };
            let fb = if b < w {
                b
            } else {
                b + 1
            };
            assert(f(fa) != f(fb));
        }
        lemma_injection_bound(g, n - 1, m - 1);
    } else {
        assert forall|i: int| 0 <= i < n implies 0 <= #[trigger] f(i) < m - 1 by {
            assert(0 <= f(i) < m);
        }
        lemma_injection_bound(f, n, m - 1);
    }
}

/// Nodes with pairwise distinct cubes inside the world are at most `8 * 256^3`.
proof fn lemma_node_count(pool: Seq<u32>, nodes: Seq<NodeInfo>)
    requires
        forall|k: int| 0 <= k < nodes.len() ==> #[trigger] node_ok(pool, nodes, k),
        forall|j: int, k: int|
            0 <= j < k < nodes.len() ==> !#[trigger] same_cube(nodes[j], nodes[k]),
    ensures
        nodes.len() <= 0x800_0000,
{
    let f = |k: int| cube_code(nodes[k]);
    assert forall|k: int| 0 <= k < nodes.len() implies 0 <= #[trigger] f(k) < 0x800_0000 by {
        assert(node_ok(pool, nodes, k));
    }
    assert forall|j: int, k: int| 0 <= j < k < nodes.len() implies #[trigger] f(j) != #[trigger] f(
        k,
    ) by {
        assert(node_ok(pool, nodes, j));
        assert(node_ok(pool, nodes, k));
        assert(!same_cube(nodes[j], nodes[k]));
    }
    lemma_injection_bound(f, nodes.len() as int, 0x800_0000);
}

/// The record of the node that covers the octant of `(x, y, z)` one level below `level`.
spec fn child_info(parent: int, level: nat, x: int, y: int, z: int) -> NodeInfo {
    NodeInfo {
        level: (level - 1) as nat,
        x: prefix(x, (level - 1) as nat),
        y: prefix(y, (level - 1) as nat),
        z: prefix(z, (level - 1) as nat),
        parent,
    }
}

/// `grown` is `pool` with one node appended, every entry of it `fill`, and entry `i` pointing to it.
spec fn grown_from(pool: Seq<u32>, grown: Seq<u32>, i: int, fill: u32) -> bool {
    &&& grown.len() == pool.len() + 8
    &&& grown[i] == pool.len()
    &&& forall|j: int| 0 <= j < pool.len() && j != i ==> grown[j] == pool[j]
    &&& forall|j: int| pool.len() <= j < grown.len() ==> grown[j] == fill
}

/// Replacing an empty entry or a leaf by a node of eight copies of it keeps the
/// tree well-formed.
proof fn lemma_grow_tree(
    pool: Seq<u32>,
    nodes: Seq<NodeInfo>,
    grown: Seq<u32>,
    ptr: int,
    level: nat,
    x: int,
    y: int,
    z: int,
)
    requires
        tree_ok(pool, nodes),
        in_world(x, y, z),
        2 <= level <= 8,
        on_path(nodes, ptr, level, x, y, z),
        pool[ptr + child_slot(level, x, y, z)] == 0 || pool[ptr + child_slot(level, x, y, z)]
            >= 0x8000_0000,
        grown_from(
            pool,
            grown,
            ptr + child_slot(level, x, y, z),
            pool[ptr + child_slot(level, x, y, z)],
        ),
    ensures
        tree_ok(grown, nodes.push(child_info(ptr + child_slot(level, x, y, z), level, x, y, z))),
        on_path(
            nodes.push(child_info(ptr + child_slot(level, x, y, z), level, x, y, z)),
            pool.len() as int,
            (level - 1) as nat,
            x,
            y,
            z,
        ),
{
    let c = child_slot(level, x, y, z);
    let i = ptr + c;
    let k = ptr / 8;
    let fill = pool[i];
    let info = child_info(i, level, x, y, z);
    let added = nodes.push(info);
    let fresh = nodes.len() as int;
    assert(0 <= c < 8);
    assert(i == 8 * k + c);
    assert(entry_ok(pool, nodes, k, c));
    lemma_prefix_range(x, (level - 1) as nat);
    lemma_prefix_range(y, (level - 1) as nat);
    lemma_prefix_range(z, (level - 1) as nat);
    assert forall|m: int| 0 <= m < added.len() implies #[trigger] node_ok(grown, added, m) by {
        if m < fresh {
            assert(node_ok(pool, nodes, m));
            if m > 0 {
                assert(nodes[m].parent != i);
            }
        }
    }
    assert forall|m: int, d: int| 0 <= m < added.len() && 0 <= d < 8 implies #[trigger] entry_ok(
        grown,
        added,
        m,
        d,
    ) by {
        if m < fresh {
            assert(entry_ok(pool, nodes, m, d));
            if 8 * m + d == i {
                assert(m == k && d == c);
            }
        } else {
            assert(grown[8 * m + d] == fill);
        }
    }
    assert forall|a: int, b: int| 0 <= a < b < added.len() implies !#[trigger] same_cube(
        added[a],
        added[b],
    ) by {
        if b < fresh {
            assert(!same_cube(nodes[a], nodes[b]));
        } else if same_cube(added[a], info) {
            assert(node_ok(pool, nodes, a));
            let parent = nodes[a].parent;
            let kp = parent / 8;
            let d = parent % 8;
            assert(parent == 8 * kp + d);
            assert(entry_ok(pool, nodes, kp, d));
            assert(same_cube(nodes[kp], nodes[k]));
            if kp < k {
                assert(!same_cube(nodes[kp], nodes[k]));
            }
            if k < kp {
                assert(!same_cube(nodes[k], nodes[kp]));
            }
            assert(d == c);
            assert(false);
        }
    }
    lemma_node_count(grown, added);
}

/// Replacing an empty entry or a leaf by a node of eight copies of it changes no voxel.
proof fn lemma_grow_view(
    pool: Seq<u32>,
    nodes: Seq<NodeInfo>,
    grown: Seq<u32>,
    ptr: int,
    level: nat,
    x: int,
    y: int,
    z: int,
    qx: int,
    qy: int,
    qz: int,
)
    requires
        tree_ok(pool, nodes),
        in_world(x, y, z),
        in_world(qx, qy, qz),
        2 <= level <= 8,
        on_path(nodes, ptr, level, x, y, z),
        pool[ptr + child_slot(level, x, y, z)] == 0 || pool[ptr + child_slot(level, x, y, z)]
            >= 0x8000_0000,
        grown_from(
            pool,
            grown,
            ptr + child_slot(level, x, y, z),
            pool[ptr + child_slot(level, x, y, z)],
        ),
    ensures
        lookup(grown, 0, 8, qx, qy, qz) == lookup(pool, 0, 8, qx, qy, qz),
{
    let c = child_slot(level, x, y, z);
    let i = ptr + c;
    let k = ptr / 8;
    let fill = pool[i];
    let added = nodes.push(child_info(i, level, x, y, z));
    let fresh = pool.len() as int;
    assert(0 <= c < 8);
    assert(i == 8 * k + c);
    lemma_grow_tree(pool, nodes, grown, ptr, level, x, y, z);
    lemma_root_on_path(pool, nodes, qx, qy, qz);
    if in_octant(nodes, i, qx, qy, qz) {
        assert(on_path(nodes, ptr, level, qx, qy, qz));
        lemma_root_reaches(pool, nodes, ptr, level, qx, qy, qz);
        assert(child_slot(level, qx, qy, qz) == c);
        assert(on_path(added, fresh, (level - 1) as nat, qx, qy, qz));
        lemma_root_reaches(grown, added, fresh, (level - 1) as nat, qx, qy, qz);
        let d = child_slot((level - 1) as nat, qx, qy, qz);
        assert(0 <= d < 8);
        assert(grown[fresh + d] == fill);
    } else {
        lemma_walk_unchanged(pool, grown, nodes, i, 0, 8, qx, qy, qz);
    }
}

/// Writing a leaf into an entry of a lowest node keeps the tree well-formed.
proof fn lemma_write_tree(
    pool: Seq<u32>,
    nodes: Seq<NodeInfo>,
    ptr: int,
    x: int,
    y: int,
    z: int,
    leaf: u32,
)
    requires
        tree_ok(pool, nodes),
        on_path(nodes, ptr, 1, x, y, z),
        0x8000_0000 <= leaf < 0x8000_0100,
    ensures
        tree_ok(pool.update(ptr + child_slot(1, x, y, z), leaf), nodes),
{
    let c = child_slot(1, x, y, z);
    let i = ptr + c;
    let k = ptr / 8;
    let written = pool.update(i, leaf);
    assert(0 <= c < 8);
    assert(i == 8 * k + c);
    assert(entry_ok(pool, nodes, k, c));
    assert forall|m: int| 0 <= m < nodes.len() implies #[trigger] node_ok(written, nodes, m) by {
        assert(node_ok(pool, nodes, m));
    }
    assert forall|m: int, d: int| 0 <= m < nodes.len() && 0 <= d < 8 implies #[trigger] entry_ok(
        written,
        nodes,
        m,
        d,
    ) by {
        assert(entry_ok(pool, nodes, m, d));
        if 8 * m + d == i {
            assert(m == k && d == c);
        }
    }
}

/// Writing a leaf into an entry of a lowest node changes that one voxel.
proof fn lemma_write_view(
    pool: Seq<u32>,
    nodes: Seq<NodeInfo>,
    ptr: int,
    x: int,
    y: int,
    z: int,
    leaf: u32,
    qx: int,
    qy: int,
    qz: int,
)
    requires
        tree_ok(pool, nodes),
        in_world(x, y, z),
        in_world(qx, qy, qz),
        on_path(nodes, ptr, 1, x, y, z),
        0x8000_0000 <= leaf < 0x8000_0100,
    ensures
        lookup(pool.update(ptr + child_slot(1, x, y, z), leaf), 0, 8, qx, qy, qz) == (if qx == x
            && qy == y && qz == z {
            (leaf - 0x8000_0000) as u8
        } else {
            lookup(pool, 0, 8, qx, qy, qz)
        }),
{
    let c = child_slot(1, x, y, z);
    let i = ptr + c;
    let k = ptr / 8;
    let written = pool.update(i, leaf);
    assert(0 <= c < 8);
    assert(i == 8 * k + c);
    lemma_write_tree(pool, nodes, ptr, x, y, z, leaf);
    if qx == x && qy == y && qz == z {
        lemma_root_reaches(written, nodes, ptr, 1, x, y, z);
    } else {
        lemma_root_on_path(pool, nodes, qx, qy, qz);
        assert(!in_octant(nodes, i, qx, qy, qz)) by {
            reveal_with_fuel(prefix, 2);
        }
        lemma_walk_unchanged(pool, written, nodes, i, 0, 8, qx, qy, qz);
    }
}

/// Sparse voxel octree: maps each voxel of the world to a block id, `0` for air.
pub struct Svo {
    /// Node pool; every eight entries are the children of one node, the root first.
    node_pool: Vec<u32>,
    nodes: Ghost<Seq<NodeInfo>>,
}

impl View for Svo {
    type V = Map<(int, int, int), u8>;

    /// The block of every voxel of the world.
    open spec fn view(&self) -> Map<(int, int, int), u8> {
        Map::new(
            |p: (int, int, int)| in_world(p.0, p.1, p.2),
            |p: (int, int, int)| self.stored(p.0, p.1, p.2),
        )
    }
}

impl Svo {
    /// The block that the tree holds for a voxel of the world.
    pub closed spec fn stored(&self, x: int, y: int, z: int) -> u8 {
        lookup(self.node_pool@, 0, 8, x, y, z)
    }

    /// The block at any coordinate: air outside the world.
    pub open spec fn block_at(&self, x: int, y: int, z: int) -> u8 {
        block_in(self@, x, y, z)
    }

    /// Well-formedness: the pool is a tree of nested cubes rooted at offset 0.
    pub closed spec fn wf(&self) -> bool {
        tree_ok(self.node_pool@, self.nodes@)
    }

    /// Number of entries of the node pool. The pool only grows.
    pub closed spec fn pool_len(&self) -> nat {
        self.node_pool@.len()
    }

    /// An empty world: every voxel is air.
    pub fn new() -> (svo: Self)
        ensures
            svo.wf(),
            svo@ == empty_world(),
            svo.pool_len() == 8,
    {
        let node_pool = vec![0u32; 8];
        let ghost nodes = Seq::<NodeInfo>::empty().push(
            NodeInfo { level: 8, x: 0, y: 0, z: 0, parent: -1 },
        );
        let svo = Svo { node_pool, nodes: Ghost(nodes) };
        proof {
            assert(svo.nodes@.len() == 1);
            assert(node_ok(svo.node_pool@, svo.nodes@, 0));
            assert forall|k: int, c: int|
                0 <= k < svo.nodes@.len() && 0 <= c < 8 implies #[trigger] entry_ok(
                svo.node_pool@,
                svo.nodes@,
                k,
                c,
            ) by {
                assert(svo.node_pool@[8 * k + c] == 0);
            }
            assert forall|p: (int, int, int)| in_world(p.0, p.1, p.2) implies svo.stored(
                p.0,
                p.1,
                p.2,
            ) == 0 by {
                let c = child_slot(8, p.0, p.1, p.2);
                assert(0 <= c < 8);
                assert(svo.node_pool@[0 + c] == 0);
            }
            assert(svo@ =~= empty_world());
        }
        svo
    }
    /// The block at `(x, y, z)`; air for any coordinate outside the world.
    pub fn get_block(&self, x: i32, y: i32, z: i32) -> (block: u8)
        requires
            self.wf(),
        ensures
            block == self.block_at(x as int, y as int, z as int),
    {
        if x < 0 || y < 0 || z < 0 || x >= WORLD_SIZE || y >= WORLD_SIZE || z >= WORLD_SIZE {
            return 0;
        }
        let mut ptr: u32 = 0;
        let mut level: u32 = SVO_DEPTH;
        proof {
            lemma_prefix_div(x as int);
            lemma_prefix_div(y as int);
            lemma_prefix_div(z as int);
        }
        while level >= 1
            invariant
                self.wf(),
                in_world(x as int, y as int, z as int),
                level <= 8,
                on_path(self.nodes@, ptr as int, level as nat, x as int, y as int, z as int),
                self.stored(x as int, y as int, z as int) == lookup(
                    self.node_pool@,
                    ptr as int,
                    level as nat,
                    x as int,
                    y as int,
                    z as int,
                ),
            decreases level,
        {
            let slot: u32 = child_index(x, y, z, level);
            proof {
                assert(node_ok(self.node_pool@, self.nodes@, ptr as int / 8));
                assert(entry_ok(self.node_pool@, self.nodes@, ptr as int / 8, slot as int));
            }
            let entry: u32 = self.node_pool[(ptr + slot) as usize];
            if entry == 0 {
                return 0;
            }
            assert((entry & 0x8000_0000u32 != 0) == (entry >= 0x8000_0000u32)) by (bit_vector);
            if (entry & LEAF_FLAG) != 0 {
                assert(entry & !0x8000_0000u32 == entry - 0x8000_0000u32) by (bit_vector)
                    requires
                        entry >= 0x8000_0000u32,
                ;
                return (entry & !LEAF_FLAG) as u8;
            }
            ptr = entry;
            level = level - 1;
        }
        0
    }
    /// Sets the block at `(x, y, z)`. Nothing happens for a coordinate outside the
    /// world or for air. Every other voxel keeps its block: a uniform region on
    /// the way is split into eight equal parts before one part is refined.
    pub fn insert(&mut self, x: i32, y: i32, z: i32, block_type: u8)
        requires
            old(self).wf(),
        ensures
            final(self).wf(),
            final(self)@ == with_block(old(self)@, x as int, y as int, z as int, block_type),
            final(self).pool_len() >= old(self).pool_len(),
    {
        if x < 0 || y < 0 || z < 0 || x >= WORLD_SIZE || y >= WORLD_SIZE || z >= WORLD_SIZE
            || block_type == 0 {
            return ;
        }
        let ghost before = self.node_pool@;
        let mut ptr: u32 = 0;
        let mut level: u32 = SVO_DEPTH;
        proof {
            lemma_root_on_path(self.node_pool@, self.nodes@, x as int, y as int, z as int);
        }
        while level >= 1
            invariant
                self.wf(),
                in_world(x as int, y as int, z as int),
                block_type != 0,
                1 <= level <= 8,
                on_path(self.nodes@, ptr as int, level as nat, x as int, y as int, z as int),
                forall|qx: int, qy: int, qz: int|
                    in_world(qx, qy, qz) ==> #[trigger] lookup(self.node_pool@, 0, 8, qx, qy, qz)
                        == lookup(before, 0, 8, qx, qy, qz),
                before == old(self).node_pool@,
                self.node_pool@.len() >= before.len(),
            decreases level,
        {
            let slot: u32 = child_index(x, y, z, level);
            let index: usize = (ptr + slot) as usize;
            let ghost pool = self.node_pool@;
            let ghost nodes = self.nodes@;
            proof {
                assert(node_ok(pool, nodes, ptr as int / 8));
                assert(entry_ok(pool, nodes, ptr as int / 8, slot as int));
            }
            if level == 1 {
                let leaf: u32 = (block_type as u32) | LEAF_FLAG;
                assert(leaf == block_type + 0x8000_0000) by (bit_vector)
                    requires
                        leaf == (block_type as u32) | 0x8000_0000u32,
                ;
                self.node_pool[index] = leaf;
                proof {
                    lemma_write_tree(pool, nodes, ptr as int, x as int, y as int, z as int, leaf);
                    assert forall|qx: int, qy: int, qz: int| in_world(qx, qy, qz) implies (
                    #[trigger] self.stored(qx, qy, qz)) == (if qx == x && qy == y && qz == z {
                        block_type
                    } else {
                        old(self).stored(qx, qy, qz)
                    }) by {
                        lemma_write_view(
                            pool,
                            nodes,
                            ptr as int,
                            x as int,
                            y as int,
                            z as int,
                            leaf,
                            qx,
                            qy,
                            qz,
                        );
                    }
                    assert(self@ =~= old(self)@.insert((x as int, y as int, z as int), block_type));
                }
                return ;
            }
            let entry: u32 = self.node_pool[index];
            assert((entry & 0x8000_0000u32 != 0) == (entry >= 0x8000_0000u32)) by (bit_vector);
            if entry == 0 {
                // No node on the way yet: link a new, empty one.
                let new_ptr: u32 = self.node_pool.len() as u32;
                self.node_pool.extend_from_slice(&[0u32;8]);
                self.node_pool[index] = new_ptr;
                self.nodes = Ghost(
                    nodes.push(child_info(index as int, level as nat, x as int, y as int, z as int)),
                );
                proof {
                    self.lemma_grown(pool, nodes, ptr as int, level as nat, x as int, y as int, z as int);
                }
                ptr = new_ptr;
            } else if (entry & LEAF_FLAG) != 0 {
                // A uniform region on the way.
                assert(entry & !0x8000_0000u32 == entry - 0x8000_0000u32) by (bit_vector)
                    requires
                        entry >= 0x8000_0000u32,
                ;
                let old_block_type: u8 = (entry & !LEAF_FLAG) as u8;
                if old_block_type == block_type {
                    proof {
                        lemma_root_reaches(
                            pool,
                            nodes,
                            ptr as int,
                            level as nat,
                            x as int,
                            y as int,
                            z as int,
                        );
                        assert(self@ =~= old(self)@.insert(
                            (x as int, y as int, z as int),
                            block_type,
                        ));
                    }
                    return ;
                }
                let new_ptr: u32 = self.node_pool.len() as u32;
                // Split it into eight leaves of the block it held.
                let copy: u32 = (old_block_type as u32) | LEAF_FLAG;
                assert(copy == entry) by (bit_vector)
                    requires
                        copy == (old_block_type as u32) | 0x8000_0000u32,
                        old_block_type as u32 == entry & !0x8000_0000u32,
                        entry >= 0x8000_0000u32,
                ;
                let new_children: [u32; 8] = [copy;8];
                self.node_pool.extend_from_slice(&new_children);
                self.node_pool[index] = new_ptr;
                self.nodes = Ghost(
                    nodes.push(child_info(index as int, level as nat, x as int, y as int, z as int)),
                );
                proof {
                    self.lemma_grown(pool, nodes, ptr as int, level as nat, x as int, y as int, z as int);
                }
                ptr = new_ptr;
            } else {
                ptr = entry;
            }
            level = level - 1;
        }
    }

    /// After a node was appended and linked, the tree is well-formed and holds the same blocks.
    proof fn lemma_grown(
        &self,
        pool: Seq<u32>,
        nodes: Seq<NodeInfo>,
        ptr: int,
        level: nat,
        x: int,
        y: int,
        z: int,
    )
        requires
            tree_ok(pool, nodes),
            in_world(x, y, z),
            2 <= level <= 8,
            on_path(nodes, ptr, level, x, y, z),
            pool[ptr + child_slot(level, x, y, z)] == 0 || pool[ptr + child_slot(level, x, y, z)]
                >= 0x8000_0000,
            grown_from(
                pool,
                self.node_pool@,
                ptr + child_slot(level, x, y, z),
                pool[ptr + child_slot(level, x, y, z)],
            ),
            self.nodes@ == nodes.push(child_info(ptr + child_slot(level, x, y, z), level, x, y, z)),
        ensures
            self.wf(),
            on_path(self.nodes@, pool.len() as int, (level - 1) as nat, x, y, z),
            forall|qx: int, qy: int, qz: int|
                in_world(qx, qy, qz) ==> #[trigger] lookup(self.node_pool@, 0, 8, qx, qy, qz)
                    == lookup(pool, 0, 8, qx, qy, qz),
    {
        lemma_grow_tree(pool, nodes, self.node_pool@, ptr, level, x, y, z);
        assert forall|qx: int, qy: int, qz: int| in_world(qx, qy, qz) implies #[trigger] lookup(
            self.node_pool@,
            0,
            8,
            qx,
            qy,
            qz,
        ) == lookup(pool, 0, 8, qx, qy, qz) by {
            lemma_grow_view(pool, nodes, self.node_pool@, ptr, level, x, y, z, qx, qy, qz);
        }
    }
}

/// The block of each voxel of the starting world: a 32 x 32 stone floor at
/// height 0, two walls of height 2 along its x and z edges, and a pillar of
/// height 4 at `(10, _, 10)`.
pub open spec fn initial_block(x: int, y: int, z: int) -> u8 {
    if y == 0 && 0 <= x < 32 && 0 <= z < 32 {
        1
    } else if 1 <= y <= 2 && ((z == 0 && 0 <= x < 32) || (x == 0 && 0 <= z < 32)) {
        2
    } else if x == 10 && z == 10 && 1 <= y < 5 {
        3
    } else {
        0
    }
}

/// The floor while it is laid: the columns before `x`, and column `x` up to `z`.
spec fn floor_block(done_x: int, done_z: int, x: int, y: int, z: int) -> u8 {
    if y == 0 && 0 <= x < 32 && 0 <= z < 32 && (x < done_x || (x == done_x && z < done_z)) {
        1
    } else {
        0
    }
}

/// The floor and the first `done` steps of both walls.
spec fn walls_block(done: int, x: int, y: int, z: int) -> u8 {
    if y == 0 && 0 <= x < 32 && 0 <= z < 32 {
        1
    } else if 1 <= y <= 2 && ((z == 0 && 0 <= x < done) || (x == 0 && 0 <= z < done)) {
        2
    } else {
        0
    }
}

/// The floor, the walls and the pillar below height `done`.
spec fn pillar_block(done: int, x: int, y: int, z: int) -> u8 {
    if x == 10 && z == 10 && 1 <= y < done {
        3
    } else {
        walls_block(32, x, y, z)
    }
}

/// Builds the starting world.
pub fn init_world() -> (svo: Svo)
    ensures
        svo.wf(),
        svo@ == Map::new(
            |p: (int, int, int)| in_world(p.0, p.1, p.2),
            |p: (int, int, int)| initial_block(p.0, p.1, p.2),
        ),
{
    let mut svo = Svo::new();
    let size: i32 = 32;
    let mut x: i32 = 0;
    while x < size
        invariant
            size == 32,
            0 <= x <= 32,
            svo.wf(),
            svo@ == Map::new(
                |p: (int, int, int)| in_world(p.0, p.1, p.2),
                |p: (int, int, int)| floor_block(x as int, 0, p.0, p.1, p.2),
            ),
        decreases size - x,
    {
        let mut z: i32 = 0;
        while z < size
            invariant
                size == 32,
                0 <= x < 32,
                0 <= z <= 32,
                svo.wf(),
                svo@ == Map::new(
                    |p: (int, int, int)| in_world(p.0, p.1, p.2),
                    |p: (int, int, int)| floor_block(x as int, z as int, p.0, p.1, p.2),
                ),
            decreases size - z,
        {
            svo.insert(x, 0, z, 1);
            z = z + 1;
        }
        x = x + 1;
    }
    let mut i: i32 = 0;
    while i < size
        invariant
            size == 32,
            0 <= i <= 32,
            svo.wf(),
            svo@ == Map::new(
                |p: (int, int, int)| in_world(p.0, p.1, p.2),
                |p: (int, int, int)| walls_block(i as int, p.0, p.1, p.2),
            ),
        decreases size - i,
    {
        svo.insert(i, 1, 0, 2);
        svo.insert(i, 2, 0, 2);
        svo.insert(0, 1, i, 2);
        svo.insert(0, 2, i, 2);
        i = i + 1;
    }
    let mut y: i32 = 1;
    while y < 5
        invariant
            1 <= y <= 5,
            svo.wf(),
            svo@ == Map::new(
                |p: (int, int, int)| in_world(p.0, p.1, p.2),
                |p: (int, int, int)| pillar_block(y as int, p.0, p.1, p.2),
            ),
        decreases 5 - y,
    {
        svo.insert(10, y, 10, 3);
        y = y + 1;
    }
    svo
}

/// The block at `(x, y, z)` of a world that may not have been built yet: air
/// everywhere as long as there is none.
pub fn get_block(world: &Option<Svo>, x: i32, y: i32, z: i32) -> (block: u8)
    requires
        world matches Some(svo) ==> svo.wf(),
    ensures
        block == (match world {
            Some(svo) => svo.block_at(x as int, y as int, z as int),
            None => 0,
        }),
{
    if let Some(svo) = world {
        svo.get_block(x, y, z)
    } else {
        0
    }
}

/// Outside the world every voxel reads as air, and an insertion there changes nothing.
pub proof fn lemma_outside_world(svo: Svo, x: int, y: int, z: int, block_type: u8)
    requires
        !in_world(x, y, z),
    ensures
        svo.block_at(x, y, z) == 0,
        with_block(svo@, x, y, z, block_type) == svo@,
{
}

/// A block other than air that was inserted inside the world is read back.
pub proof fn lemma_insert_then_get(svo: Svo, x: int, y: int, z: int, block_type: u8)
    requires
        in_world(x, y, z),
        block_type != 0,
    ensures
        block_in(with_block(svo@, x, y, z, block_type), x, y, z) == block_type,
{
}

/// An insertion changes no voxel but its own: whatever a voxel read before, it
/// reads afterwards, also where the insertion split the uniform region around it.
pub proof fn lemma_insert_keeps_others(
    svo: Svo,
    x: int,
    y: int,
    z: int,
    block_type: u8,
    qx: int,
    qy: int,
    qz: int,
)
    requires
        (qx, qy, qz) != (x, y, z),
    ensures
        block_in(with_block(svo@, x, y, z, block_type), qx, qy, qz) == svo.block_at(qx, qy, qz),
{
}

/// Two insertions at different voxels: the first one's block is still read at
/// its voxel after the second, and every third voxel reads as before both.
pub proof fn lemma_second_insert_keeps_first(
    svo: Svo,
    px: int,
    py: int,
    pz: int,
    first: u8,
    qx: int,
    qy: int,
    qz: int,
    second: u8,
    rx: int,
    ry: int,
    rz: int,
)
    requires
        in_world(px, py, pz),
        first != 0,
        (qx, qy, qz) != (px, py, pz),
    ensures
        block_in(
            with_block(with_block(svo@, px, py, pz, first), qx, qy, qz, second),
            px,
            py,
            pz,
        ) == first,
        (rx, ry, rz) != (px, py, pz) && (rx, ry, rz) != (qx, qy, qz) ==> block_in(
            with_block(with_block(svo@, px, py, pz, first), qx, qy, qz, second),
            rx,
            ry,
            rz,
        ) == svo.block_at(rx, ry, rz),
{
}

} // verus!
