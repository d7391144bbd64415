//! Overhang detection: face adjacency and grouping of overhanging faces
//! into connected regions.

use std::collections::{HashMap, HashSet};

use vstd::prelude::*;

use crate::mesh::{Face, Mesh};

verus! {

broadcast use vstd::std_specs::hash::group_hash_axioms;

/// `(a, b)` and `(c, d)` are the same undirected edge.
pub open spec fn same_edge(a: u32, b: u32, c: u32, d: u32) -> bool {
    (a == c && b == d) || (a == d && b == c)
}

/// `f` has the undirected edge `(a, b)` among its three edges.
pub open spec fn face_has_edge(f: Face, a: u32, b: u32) -> bool {
    same_edge(f[0], f[1], a, b) || same_edge(f[1], f[2], a, b) || same_edge(f[2], f[0], a, b)
}

/// The faces `f` and `g` have an undirected edge in common.
pub open spec fn faces_share_edge(f: Face, g: Face) -> bool {
    face_has_edge(g, f[0], f[1]) || face_has_edge(g, f[1], f[2]) || face_has_edge(g, f[2], f[0])
}

/// Faces `i` and `j` of `faces` are distinct faces with a common edge.
pub open spec fn faces_adjacent(faces: Seq<Face>, i: int, j: int) -> bool {
    &&& 0 <= i < faces.len()
    &&& 0 <= j < faces.len()
    &&& i != j
    &&& faces_share_edge(faces[i], faces[j])
}

/// Every element is smaller than the ones after it (so nothing repeats).
pub open spec fn strictly_increasing(s: Seq<usize>) -> bool {
    forall|a: int, b: int| 0 <= a < b < s.len() ==> s[a] < s[b]
}

/// The neighbour lists of `faces`: list `i` holds, in increasing order and
/// once each, exactly the faces adjacent to face `i`.
pub open spec fn is_face_neighbors(faces: Seq<Face>, neighbors: Seq<Vec<usize>>) -> bool {
    &&& neighbors.len() == faces.len()
    &&& forall|i: int| 0 <= i < faces.len() ==> strictly_increasing(#[trigger] neighbors[i]@)
    &&& forall|i: int, j: usize|
        0 <= i < faces.len() ==> (#[trigger] neighbors[i]@.contains(j) <==> faces_adjacent(
            faces,
            i,
            j as int,
        ))
}

/// Adjacency goes both ways: face `j` is among the neighbours of face `i`
/// exactly when face `i` is among the neighbours of face `j`.
pub proof fn lemma_neighbors_symmetric(faces: Seq<Face>, neighbors: Seq<Vec<usize>>, i: usize, j: usize)
    requires
        is_face_neighbors(faces, neighbors),
        i < faces.len(),
        j < faces.len(),
    ensures
        neighbors[i as int]@.contains(j) <==> neighbors[j as int]@.contains(i),
{
    lemma_share_edge_symmetric(faces[i as int], faces[j as int]);
}

/// The key under which an undirected edge is filed: the smaller end in the
/// high half, the larger end in the low half.
spec fn edge_key(a: u32, b: u32) -> int {
    if a <= b {
        a * 0x1_0000_0000 + b
    } else {
        b * 0x1_0000_0000 + a
    }
}

/// The key of edge `e` (0, 1 or 2) of face `f`.
spec fn face_edge_key(f: Face, e: int) -> int {
    if e == 0 {
        edge_key(f[0], f[1])
    } else if e == 1 {
        edge_key(f[1], f[2])
    } else {
        edge_key(f[2], f[0])
    }
}

proof fn lemma_edge_key_bounds(a: u32, b: u32)
    ensures
        0 <= edge_key(a, b) <= u64::MAX,
{
    let (lo, hi) = if a <= b {
        (a as int, b as int)
    } else {
        (b as int, a as int)
    };
    assert(0 <= lo * 0x1_0000_0000 <= 0xffff_ffff * 0x1_0000_0000) by (nonlinear_arith)
        requires
            0 <= lo <= 0xffff_ffff,
    ;
}

/// Among the first `e` edges of `f` there is one filed under a key of `g`.
spec fn shares_key_before(g: Face, f: Face, e: int) -> bool {
    ||| (e > 0 && face_has_key(g, face_edge_key(f, 0)))
    ||| (e > 1 && face_has_key(g, face_edge_key(f, 1)))
    ||| (e > 2 && face_has_key(g, face_edge_key(f, 2)))
}

/// One of the edges of `f` is filed under `key`.
spec fn face_has_key(f: Face, key: int) -> bool {
    key == face_edge_key(f, 0) || key == face_edge_key(f, 1) || key == face_edge_key(f, 2)
}

pub(crate) proof fn lemma_key_split(lo1: int, hi1: int, lo2: int, hi2: int)
    requires
        0 <= lo1 < 0x1_0000_0000,
        0 <= lo2 < 0x1_0000_0000,
        0 <= hi1 < 0x1_0000_0000,
        0 <= hi2 < 0x1_0000_0000,
        lo1 * 0x1_0000_0000 + hi1 == lo2 * 0x1_0000_0000 + hi2,
    ensures
        lo1 == lo2,
        hi1 == hi2,
{
    if lo1 < lo2 {
        assert(lo1 * 0x1_0000_0000 + 0x1_0000_0000 <= lo2 * 0x1_0000_0000) by (nonlinear_arith)
            requires
                lo1 < lo2,
        ;
    } else if lo2 < lo1 {
        assert(lo2 * 0x1_0000_0000 + 0x1_0000_0000 <= lo1 * 0x1_0000_0000) by (nonlinear_arith)
            requires
                lo2 < lo1,
        ;
    }
}

/// Two edges have the same key exactly when they are the same undirected edge.
proof fn lemma_edge_key(a: u32, b: u32, c: u32, d: u32)
    ensures
        (edge_key(a, b) == edge_key(c, d)) <==> same_edge(a, b, c, d),
{
    let (lo1, hi1) = if a <= b {
        (a as int, b as int)
    } else {
        (b as int, a as int)
    };
    let (lo2, hi2) = if c <= d {
        (c as int, d as int)
    } else {
        (d as int, c as int)
    };
    if edge_key(a, b) == edge_key(c, d) {
        lemma_key_split(lo1, hi1, lo2, hi2);
    }
}

/// Sharing a key is sharing an edge.
proof fn lemma_shared_key(f: Face, g: Face)
    ensures
        (face_has_key(g, face_edge_key(f, 0)) || face_has_key(g, face_edge_key(f, 1))
            || face_has_key(g, face_edge_key(f, 2))) <==> faces_share_edge(f, g),
{
    let fe = seq![(f[0], f[1]), (f[1], f[2]), (f[2], f[0])];
    let ge = seq![(g[0], g[1]), (g[1], g[2]), (g[2], g[0])];
    assert forall|x: int, y: int| 0 <= x < 3 && 0 <= y < 3 implies (edge_key(fe[x].0, fe[x].1)
        == edge_key(ge[y].0, ge[y].1)) <==> same_edge(ge[y].0, ge[y].1, fe[x].0, fe[x].1) by {
        lemma_edge_key(fe[x].0, fe[x].1, ge[y].0, ge[y].1);
    }
    assert(face_edge_key(f, 0) == edge_key(fe[0].0, fe[0].1));
    assert(face_edge_key(f, 1) == edge_key(fe[1].0, fe[1].1));
    assert(face_edge_key(f, 2) == edge_key(fe[2].0, fe[2].1));
    assert(face_edge_key(g, 0) == edge_key(ge[0].0, ge[0].1));
    assert(face_edge_key(g, 1) == edge_key(ge[1].0, ge[1].1));
    assert(face_edge_key(g, 2) == edge_key(ge[2].0, ge[2].1));
}

fn exec_edge_key(a: u32, b: u32) -> (key: u64)
    ensures
        key == edge_key(a, b),
{
    let (lo, hi) = if a <= b {
        (a, b)
    } else {
        (b, a)
    };
    assert(lo * 0x1_0000_0000 <= 0xffff_ffff * 0x1_0000_0000) by (nonlinear_arith)
        requires
            lo <= 0xffff_ffff,
    ;
    (lo as u64) * 0x1_0000_0000u64 + (hi as u64)
}

/// `new` is `old` with `x` appended to the list filed under `k`.
spec fn bucket_added(old: Map<u64, Vec<usize>>, new: Map<u64, Vec<usize>>, k: u64, x: usize) -> bool {
    &&& new.contains_key(k)
    &&& new[k]@ == (if old.contains_key(k) {
        old[k]@.push(x)
    } else {
        seq![x]
    })
    &&& forall|key: u64| key != k ==> #[trigger] new.contains_key(key) == old.contains_key(key)
    &&& forall|key: u64| key != k && old.contains_key(key) ==> #[trigger] new[key] == old[key]
}

proof fn lemma_push_contains<T>(s: Seq<T>, y: T, z: T)
    ensures
        s.push(y).contains(z) <==> (s.contains(z) || z == y),
{
    if s.push(y).contains(z) {
        let k = choose|k: int| 0 <= k < s.len() + 1 && s.push(y)[k] == z;
        if k < s.len() {
            assert(s[k] == z);
        }
    }
    if s.contains(z) {
        let k = choose|k: int| 0 <= k < s.len() && s[k] == z;
        assert(s.push(y)[k] == z);
    }
    if z == y {
        assert(s.push(y)[s.len() as int] == z);
    }
}

proof fn lemma_bucket_added(
    old: Map<u64, Vec<usize>>,
    new: Map<u64, Vec<usize>>,
    k: u64,
    x: usize,
    key: u64,
    y: usize,
)
    requires
        bucket_added(old, new, k, x),
    ensures
        (new.contains_key(key) && new[key]@.contains(y)) <==> ((old.contains_key(key)
            && old[key]@.contains(y)) || (key == k && y == x)),
{
    if key == k {
        if old.contains_key(k) {
            lemma_push_contains(old[k]@, x, y);
        } else {
            lemma_push_contains(Seq::<usize>::empty(), x, y);
            assert(seq![x] == Seq::<usize>::empty().push(x));
        }
    }
}

/// Appends `x` to the list filed under `key`, creating it if needed.
fn add_to_bucket(map: &mut HashMap<u64, Vec<usize>>, key: u64, x: usize)
    ensures
        bucket_added(old(map)@, final(map)@, key, x),
{
    let mut bucket = match map.remove(&key) {
        Some(v) => v,
        None => Vec::new(),
    };
    bucket.push(x);
    map.insert(key, bucket);
}

/// Inserts `x` into a strictly increasing list, keeping it strictly
/// increasing; nothing changes when `x` is already there.
fn insert_sorted(v: &mut Vec<usize>, x: usize)
    requires
        strictly_increasing(old(v)@),
    ensures
        strictly_increasing(final(v)@),
        forall|y: usize| #[trigger] final(v)@.contains(y) <==> (old(v)@.contains(y) || y == x),
{
    let mut pos: usize = 0;
    while pos < v.len() && v[pos] < x
        invariant
            0 <= pos <= v.len(),
            forall|k: int| 0 <= k < pos ==> v@[k] < x,
        decreases v.len() - pos,
    {
        pos += 1;
    }
    if pos < v.len() && v[pos] == x {
        assert(v@.contains(x));
        return;
    }
    let ghost s = v@;
    assert forall|k: int| pos <= k < s.len() implies s[k] > x by {
        assert(s[pos as int] >= x);
        if k > pos {
            assert(s[pos as int] < s[k]);
        }
    }
    v.insert(pos, x);
    assert forall|y: usize| #[trigger] v@.contains(y) <==> (s.contains(y) || y == x) by {
        if v@.contains(y) {
            let k = choose|k: int| 0 <= k < v@.len() && v@[k] == y;
            if k < pos {
                assert(s[k] == y);
            } else if k > pos {
                assert(s[k - 1] == y);
            }
        }
        if s.contains(y) {
            let k = choose|k: int| 0 <= k < s.len() && s[k] == y;
            if k < pos {
                assert(v@[k] == y);
            } else {
                assert(v@[k + 1] == y);
            }
        }
        if y == x {
            assert(v@[pos as int] == x);
        }
    }
}

/// For each face, the faces that share an edge with it, in increasing order
/// and without repeats.
pub fn build_face_neighbors<V>(mesh: &Mesh<V>) -> (neighbors: Vec<Vec<usize>>)
    ensures
        is_face_neighbors(mesh.face_seq(), neighbors@),
{
    let faces = mesh.faces();
    let n = faces.len();
    let mut edge_map: HashMap<u64, Vec<usize>> = HashMap::new();

    // File every face under the keys of its three edges.
    let mut face_idx: usize = 0;
    while face_idx < n
        invariant
            faces@ == mesh.face_seq(),
            n == faces@.len(),
            0 <= face_idx <= n,
            forall|key: u64, x: usize|
                edge_map@.contains_key(key) && #[trigger] edge_map@[key]@.contains(x) ==> x
                    < face_idx && face_has_key(faces@[x as int], key as int),
            forall|x: int, e: int|
                0 <= x < face_idx && 0 <= e < 3 ==> edge_map@.contains_key(
                    #[trigger] face_edge_key(faces@[x], e) as u64,
                ) && edge_map@[face_edge_key(faces@[x], e) as u64]@.contains(x as usize),
        decreases n - face_idx,
    {
        let face = faces[face_idx];
        proof {
            lemma_edge_key_bounds(face[0], face[1]);
            lemma_edge_key_bounds(face[1], face[2]);
            lemma_edge_key_bounds(face[2], face[0]);
        }
        let k0 = exec_edge_key(face[0], face[1]);
        let k1 = exec_edge_key(face[1], face[2]);
        let k2 = exec_edge_key(face[2], face[0]);
        assert(k0 == face_edge_key(face, 0));
        assert(k1 == face_edge_key(face, 1));
        assert(k2 == face_edge_key(face, 2));
        let ghost m0 = edge_map@;
        add_to_bucket(&mut edge_map, k0, face_idx);
        let ghost m1 = edge_map@;
        add_to_bucket(&mut edge_map, k1, face_idx);
        let ghost m2 = edge_map@;
        add_to_bucket(&mut edge_map, k2, face_idx);
        assert forall|key: u64, x: usize|
            edge_map@.contains_key(key) && #[trigger] edge_map@[key]@.contains(x) implies x
            < face_idx + 1 && face_has_key(faces@[x as int], key as int) by {
            lemma_bucket_added(m0, m1, k0, face_idx, key, x);
            lemma_bucket_added(m1, m2, k1, face_idx, key, x);
            lemma_bucket_added(m2, edge_map@, k2, face_idx, key, x);
        }
        assert forall|x: int, e: int| 0 <= x < face_idx + 1 && 0 <= e < 3 implies edge_map@.contains_key(
            #[trigger] face_edge_key(faces@[x], e) as u64,
        ) && edge_map@[face_edge_key(faces@[x], e) as u64]@.contains(x as usize) by {
            let key = face_edge_key(faces@[x], e) as u64;
            lemma_bucket_added(m0, m1, k0, face_idx, key, x as usize);
            lemma_bucket_added(m1, m2, k1, face_idx, key, x as usize);
            lemma_bucket_added(m2, edge_map@, k2, face_idx, key, x as usize);
        }
        face_idx += 1;
    }

    // Gather, for each face, the faces filed under its edges.
    let mut neighbors: Vec<Vec<usize>> = Vec::new();
    let mut i: usize = 0;
    while i < n
        invariant
            faces@ == mesh.face_seq(),
            n == faces@.len(),
            0 <= i <= n,
            neighbors@.len() == i,
            forall|ii: int| 0 <= ii < i ==> strictly_increasing(#[trigger] neighbors@[ii]@),
            forall|ii: int, j: usize|
                0 <= ii < i ==> (#[trigger] neighbors@[ii]@.contains(j) <==> faces_adjacent(
                    faces@,
                    ii,
                    j as int,
                )),
            forall|key: u64, x: usize|
                edge_map@.contains_key(key) && #[trigger] edge_map@[key]@.contains(x) ==> x < n
                    && face_has_key(faces@[x as int], key as int),
            forall|x: int, e: int|
                0 <= x < n && 0 <= e < 3 ==> edge_map@.contains_key(
                    #[trigger] face_edge_key(faces@[x], e) as u64,
                ) && edge_map@[face_edge_key(faces@[x], e) as u64]@.contains(x as usize),
        decreases n - i,
    {
        let face = faces[i];
        let keys = [
            exec_edge_key(face[0], face[1]),
            exec_edge_key(face[1], face[2]),
            exec_edge_key(face[2], face[0]),
        ];
        let mut list: Vec<usize> = Vec::new();
        let mut e: usize = 0;
        while e < 3
            invariant
                faces@ == mesh.face_seq(),
                n == faces@.len(),
                0 <= i < n,
                face == faces@[i as int],
                0 <= e <= 3,
                forall|k: int| 0 <= k < 3 ==> keys@[k] == face_edge_key(face, k),
                strictly_increasing(list@),
                forall|y: usize|
                    #[trigger] list@.contains(y) <==> (y < n && y != i && shares_key_before(
                        faces@[y as int],
                        face,
                        e as int,
                    )),
                forall|key: u64, x: usize|
                    edge_map@.contains_key(key) && #[trigger] edge_map@[key]@.contains(x) ==> x
                        < n && face_has_key(faces@[x as int], key as int),
                forall|x: int, e: int|
                    0 <= x < n && 0 <= e < 3 ==> edge_map@.contains_key(
                        #[trigger] face_edge_key(faces@[x], e) as u64,
                    ) && edge_map@[face_edge_key(faces@[x], e) as u64]@.contains(x as usize),
            decreases 3 - e,
        {
            let key = keys[e];
            proof {
                lemma_edge_key_bounds(face[0], face[1]);
                lemma_edge_key_bounds(face[1], face[2]);
                lemma_edge_key_bounds(face[2], face[0]);
                assert(face_edge_key(faces@[i as int], e as int) as u64 == key);
            }
            let ghost before = list@;
            if let Some(bucket) = edge_map.get(&key) {
                let mut j: usize = 0;
                while j < bucket.len()
                    invariant
                        0 <= j <= bucket.len(),
                        0 <= i < n,
                        strictly_increasing(list@),
                        forall|y: usize|
                            #[trigger] list@.contains(y) <==> (before.contains(y) || (y != i
                                && bucket@.take(j as int).contains(y))),
                    decreases bucket.len() - j,
                {
                    let y = bucket[j];
                    let ghost prev = list@;
                    if y != i {
                        insert_sorted(&mut list, y);
                    }
                    assert(bucket@.take(j + 1) == bucket@.take(j as int).push(y));
                    assert forall|z: usize| #[trigger] list@.contains(z) <==> (before.contains(z)
                        || (z != i && bucket@.take(j + 1).contains(z))) by {
                        lemma_push_contains(bucket@.take(j as int), y, z);
                        if y != i {
                            assert(list@.contains(z) <==> (prev.contains(z) || z == y));
                        }
                    }
                    j += 1;
                }
                assert(bucket@.take(bucket.len() as int) == bucket@);
                assert forall|y: usize| #[trigger] list@.contains(y) <==> (y < n && y != i
                    && shares_key_before(faces@[y as int], face, e + 1)) by {
                    if bucket@.contains(y) {
                        assert(edge_map@[key]@.contains(y));
                    }
                    if y < n && face_has_key(faces@[y as int], key as int) {
                        let ee = choose|ee: int|
                            0 <= ee < 3 && face_edge_key(faces@[y as int], ee) == key;
                        assert(face_edge_key(faces@[y as int], ee) as u64 == key);
                        assert(edge_map@[key]@.contains(y));
                    }
                }
            }
            e += 1;
        }
        assert forall|j: usize| #[trigger] list@.contains(j) <==> faces_adjacent(
            faces@,
            i as int,
            j as int,
        ) by {
            if j < n {
                lemma_shared_key(face, faces@[j as int]);
            }
        }
        neighbors.push(list);
        i += 1;
    }
    neighbors
}

/// Face `seq[k]` shares an edge with one of the faces before it in `seq`.
pub open spec fn joined_to_earlier(faces: Seq<Face>, seq: Seq<usize>, k: int) -> bool {
    exists|j: int| 0 <= j < k && #[trigger] faces_adjacent(faces, seq[j] as int, seq[k] as int)
}

/// Face `t` shares an edge with one of the faces of `seq`.
spec fn joined_to_some(faces: Seq<Face>, seq: Seq<usize>, t: usize) -> bool {
    exists|j: int| 0 <= j < seq.len() && #[trigger] faces_adjacent(faces, seq[j] as int, t as int)
}

/// `regions` groups the overhanging faces of `faces` (those marked in
/// `overhang`) into their connected regions: every overhanging face lies in
/// exactly one region, a region is closed under adjacency among overhanging
/// faces, and each face of a region after the first is adjacent to an
/// earlier one (so the region is connected).
pub open spec fn is_overhang_grouping(
    faces: Seq<Face>,
    overhang: Seq<bool>,
    regions: Seq<Vec<usize>>,
) -> bool {
    &&& forall|r: int, k: int|
        0 <= r < regions.len() && 0 <= k < regions[r]@.len() ==> (#[trigger] regions[r]@[k])
            < faces.len() && overhang[regions[r]@[k] as int]
    &&& forall|f: int|
        0 <= f < faces.len() && #[trigger] overhang[f] ==> exists|r: int|
            0 <= r < regions.len() && #[trigger] regions[r]@.contains(f as usize)
    &&& forall|r1: int, k1: int, r2: int, k2: int|
        0 <= r1 < regions.len() && 0 <= k1 < regions[r1]@.len() && 0 <= r2 < regions.len() && 0
            <= k2 < regions[r2]@.len() && (r1 != r2 || k1 != k2) ==> #[trigger] regions[r1]@[k1]
            != #[trigger] regions[r2]@[k2]
    &&& forall|r: int| 0 <= r < regions.len() ==> #[trigger] regions[r]@.len() > 0
    &&& forall|r: int, k: int, g: int|
        0 <= r < regions.len() && 0 <= k < regions[r]@.len() && 0 <= g < faces.len() && overhang[g]
            && #[trigger] faces_adjacent(faces, regions[r]@[k] as int, g) ==> regions[r]@.contains(
            g as usize,
        )
    &&& forall|r: int, k: int|
        0 <= r < regions.len() && 0 < k < regions[r]@.len() ==> #[trigger] joined_to_earlier(
            faces,
            regions[r]@,
            k,
        )
}

proof fn lemma_share_edge_symmetric(f: Face, g: Face)
    ensures
        faces_share_edge(f, g) == faces_share_edge(g, f),
{
}

/// How many entries of `owner` are still unassigned (negative).
spec fn count_unowned(owner: Seq<int>) -> nat
    decreases owner.len(),
{
    if owner.len() == 0 {
        0
    } else {
        count_unowned(owner.drop_last()) + if owner.last() < 0 {
            1nat
        } else {
            0nat
        }
    }
}

proof fn lemma_count_assign(owner: Seq<int>, i: int, v: int)
    requires
        0 <= i < owner.len(),
        owner[i] < 0,
        v >= 0,
    ensures
        count_unowned(owner.update(i, v)) + 1 == count_unowned(owner),
    decreases owner.len(),
{
    let u = owner.update(i, v);
    if i == owner.len() - 1 {
        assert(u.drop_last() == owner.drop_last());
    } else {
        lemma_count_assign(owner.drop_last(), i, v);
        assert(u.drop_last() == owner.drop_last().update(i, v));
    }
}

/// Facts kept by the walk that builds region `region_id`: which faces are
/// reached (`owner`), what `component` and `stack` hold, and how the
/// finished regions look.
spec fn walk_inv(
    faces: Seq<Face>,
    overhang: Seq<bool>,
    owner: Seq<int>,
    visited: Set<usize>,
    regions: Seq<Vec<usize>>,
    component: Seq<usize>,
    stack: Seq<usize>,
    region_id: int,
) -> bool {
    let n = faces.len();
    &&& owner.len() == n
    &&& overhang.len() == n
    &&& region_id == regions.len()
    &&& forall|x: usize| #[trigger] visited.contains(x) <==> (x < n && owner[x as int] >= 0)
    &&& forall|x: int| 0 <= x < n && #[trigger] owner[x] >= 0 ==> owner[x] <= region_id
    &&& forall|x: int|
        0 <= x < n && 0 <= #[trigger] owner[x] < region_id ==> regions[owner[x]]@.contains(x as usize)
    &&& forall|x: int|
        0 <= x < n && #[trigger] owner[x] == region_id ==> (component.contains(x as usize)
            || stack.contains(x as usize))
    &&& forall|k: int|
        0 <= k < component.len() ==> (#[trigger] component[k]) < n && owner[component[k] as int]
            == region_id && overhang[component[k] as int]
    &&& forall|k: int|
        0 <= k < stack.len() ==> (#[trigger] stack[k]) < n && owner[stack[k] as int] == region_id
            && overhang[stack[k] as int]
    &&& component.no_duplicates()
    &&& stack.no_duplicates()
    &&& component.disjoint(stack)
    &&& forall|r: int, k: int|
        0 <= r < regions.len() && 0 <= k < regions[r]@.len() ==> (#[trigger] regions[r]@[k]) < n
            && owner[regions[r]@[k] as int] == r && overhang[regions[r]@[k] as int]
    &&& forall|x: int, g: int|
        0 <= x < n && 0 <= owner[x] < region_id && 0 <= g < n && overhang[g]
            && #[trigger] faces_adjacent(faces, x, g) ==> owner[g] == owner[x]
    &&& forall|k: int|
        0 < k < component.len() ==> #[trigger] joined_to_earlier(faces, component, k)
    &&& forall|q: int|
        0 <= q < stack.len() && component.len() > 0 ==> #[trigger] joined_to_some(
            faces,
            component,
            stack[q],
        )
}

/// Groups the overhanging faces into connected regions of faces that share
/// edges, by a depth-first walk from each face not yet reached.
pub fn group_overhang_faces<V>(mesh: &Mesh<V>, overhang: &[bool]) -> (regions: Vec<Vec<usize>>)
    requires
        overhang@.len() == mesh.face_seq().len(),
    ensures
        is_overhang_grouping(mesh.face_seq(), overhang@, regions@),
{
    let faces = mesh.faces();
    let n = faces.len();
    let ghost fs = faces@;

    let mut any = false;
    let mut f: usize = 0;
    while f < n
        invariant
            0 <= f <= n,
            n == overhang@.len(),
            any <==> exists|g: int| 0 <= g < f && #[trigger] overhang@[g],
        decreases n - f,
    {
        if overhang[f] {
            any = true;
        }
        f += 1;
    }
    if !any {
        return Vec::new();
    }

    let face_neighbors = build_face_neighbors(mesh);
    let mut visited: HashSet<usize> = HashSet::new();
    let mut regions: Vec<Vec<usize>> = Vec::new();
    let ghost mut owner: Seq<int> = Seq::new(n as nat, |i: int| -1int);

    let mut face: usize = 0;
    while face < n
        invariant
            fs == faces@,
            fs == mesh.face_seq(),
            n == fs.len(),
            is_face_neighbors(fs, face_neighbors@),
            0 <= face <= n,
            walk_inv(
                fs,
                overhang@,
                owner,
                visited@,
                regions@,
                Seq::empty(),
                Seq::empty(),
                regions@.len() as int,
            ),
            forall|r: int| 0 <= r < regions@.len() ==> (#[trigger] regions@[r]@).no_duplicates(),
            forall|r: int| 0 <= r < regions@.len() ==> #[trigger] regions@[r]@.len() > 0,
            forall|r: int, k: int|
                0 <= r < regions@.len() && 0 < k < regions@[r]@.len() ==> #[trigger] joined_to_earlier(
                    fs,
                    regions@[r]@,
                    k,
                ),
            forall|g: int| 0 <= g < face && #[trigger] overhang@[g] ==> owner[g] >= 0,
        decreases n - face,
    {
        if !overhang[face] {
            face += 1;
            continue;
        }
        if !visited.insert(face) {
            face += 1;
            continue;
        }
        let ghost region_id = regions@.len() as int;
        proof {
            lemma_count_assign(owner, face as int, region_id);
            owner = owner.update(face as int, region_id);
        }
        let mut stack: Vec<usize> = Vec::new();
        stack.push(face);
        let mut component: Vec<usize> = Vec::new();
        proof {
            assert(stack@ =~= seq![face]);
            assert forall|x: int|
                0 <= x < n && #[trigger] owner[x] == region_id implies (component@.contains(
                    x as usize,
                ) || stack@.contains(x as usize)) by {
                assert(x == face as int);
                assert(stack@[0] == face);
            }
        }

        while stack.len() > 0
            invariant
                fs == faces@,
                n == fs.len(),
                is_face_neighbors(fs, face_neighbors@),
                0 <= face < n,
                walk_inv(fs, overhang@, owner, visited@, regions@, component@, stack@, region_id),
                forall|k: int, g: int|
                    0 <= k < component@.len() && 0 <= g < n && overhang@[g] && #[trigger] faces_adjacent(
                        fs,
                        component@[k] as int,
                        g,
                    ) ==> owner[g] == region_id,
                component@.len() == 0 ==> stack@ == seq![face],
                component@.len() > 0 ==> component@[0] == face,
            decreases 2 * count_unowned(owner) + stack@.len(),
        {
            let ghost measure = 2 * count_unowned(owner) + stack@.len();
            let ghost old_stack = stack@;
            let ghost old_comp = component@;
            let current = stack.pop().unwrap();
            assert(stack@ == old_stack.drop_last());
            assert(current == old_stack.last());
            assert(!stack@.contains(current)) by {
                if stack@.contains(current) {
                    let q = choose|q: int| 0 <= q < stack@.len() && stack@[q] == current;
                    assert(old_stack[q] == old_stack[old_stack.len() - 1]);
                }
            }
            assert(!old_comp.contains(current)) by {
                if old_comp.contains(current) {
                    let q = choose|q: int| 0 <= q < old_comp.len() && old_comp[q] == current;
                    assert(old_comp[q] == old_stack[old_stack.len() - 1]);
                }
            }
            component.push(current);
            let ghost pos = old_comp.len() as int;
            proof {
                assert(component@ == old_comp.push(current));
                assert(component@[pos] == current);
                assert forall|x: int|
                    0 <= x < n && #[trigger] owner[x] == region_id implies (component@.contains(
                        x as usize,
                    ) || stack@.contains(x as usize)) by {
                    if old_comp.contains(x as usize) {
                        let k = choose|k: int| 0 <= k < old_comp.len() && old_comp[k] == x as usize;
                        assert(component@[k] == x as usize);
                    } else if old_stack.contains(x as usize) {
                        let k = choose|k: int| 0 <= k < old_stack.len() && old_stack[k] == x as usize;
                        if k == old_stack.len() - 1 {
                            assert(component@[pos] == x as usize);
                        } else {
                            assert(stack@[k] == x as usize);
                        }
                    }
                }
                assert forall|k: int| 0 < k < component@.len() implies #[trigger] joined_to_earlier(
                    fs,
                    component@,
                    k,
                ) by {
                    if k == pos {
                        assert(joined_to_some(fs, old_comp, old_stack[old_stack.len() - 1]));
                        let j = choose|j: int|
                            0 <= j < old_comp.len() && #[trigger] faces_adjacent(
                                fs,
                                old_comp[j] as int,
                                current as int,
                            );
                        assert(component@[j] == old_comp[j]);
                        assert(faces_adjacent(fs, component@[j] as int, component@[k] as int));
                    } else {
                        assert(joined_to_earlier(fs, old_comp, k));
                        let j = choose|j: int|
                            0 <= j < k && #[trigger] faces_adjacent(
                                fs,
                                old_comp[j] as int,
                                old_comp[k] as int,
                            );
                        assert(component@[j] == old_comp[j]);
                        assert(component@[k] == old_comp[k]);
                        assert(faces_adjacent(fs, component@[j] as int, component@[k] as int));
                    }
                }
                assert forall|q: int|
                    0 <= q < stack@.len() && component@.len() > 0 implies #[trigger] joined_to_some(
                    fs,
                    component@,
                    stack@[q],
                ) by {
                    assert(stack@[q] == old_stack[q]);
                    assert(old_comp.len() > 0);
                    assert(joined_to_some(fs, old_comp, old_stack[q]));
                    let j = choose|j: int|
                        0 <= j < old_comp.len() && #[trigger] faces_adjacent(
                            fs,
                            old_comp[j] as int,
                            old_stack[q] as int,
                        );
                    assert(component@[j] == old_comp[j]);
                    assert(faces_adjacent(fs, component@[j] as int, stack@[q] as int));
                }
                assert(component@.no_duplicates());
                assert(component@.disjoint(stack@));
            }

            let neighbors = &face_neighbors[current];
            assert(neighbors@ == face_neighbors@[current as int]@);
            let mut idx: usize = 0;
            while idx < neighbors.len()
                invariant
                    fs == faces@,
                    n == fs.len(),
                    is_face_neighbors(fs, face_neighbors@),
                    neighbors@ == face_neighbors@[current as int]@,
                    0 <= face < n,
                    0 <= idx <= neighbors@.len(),
                    current < n,
                    0 <= pos == component@.len() - 1,
                    component@[pos] == current,
                    component@[0] == face,
                    2 * count_unowned(owner) + stack@.len() < measure,
                    walk_inv(fs, overhang@, owner, visited@, regions@, component@, stack@, region_id),
                    forall|k: int, g: int|
                        0 <= k < pos && 0 <= g < n && overhang@[g] && #[trigger] faces_adjacent(
                            fs,
                            component@[k] as int,
                            g,
                        ) ==> owner[g] == region_id,
                    forall|t: int|
                        0 <= t < idx && overhang@[#[trigger] neighbors@[t] as int] ==> owner[neighbors@[t] as int]
                            == region_id,
                decreases neighbors@.len() - idx,
            {
                let neighbor = neighbors[idx];
                assert(neighbors@.contains(neighbor));
                assert(faces_adjacent(fs, current as int, neighbor as int));
                if overhang[neighbor] && visited.insert(neighbor) {
                    let ghost before_push = stack@;
                    let ghost before_owner = owner;
                    proof {
                        assert(owner[neighbor as int] < 0);
                        assert(!component@.contains(neighbor)) by {
                            if component@.contains(neighbor) {
                                let k = choose|k: int|
                                    0 <= k < component@.len() && component@[k] == neighbor;
                                assert(owner[component@[k] as int] == region_id);
                            }
                        }
                        assert(!stack@.contains(neighbor)) by {
                            if stack@.contains(neighbor) {
                                let k = choose|k: int| 0 <= k < stack@.len() && stack@[k] == neighbor;
                                assert(owner[stack@[k] as int] == region_id);
                            }
                        }
                        lemma_count_assign(owner, neighbor as int, region_id);
                        owner = owner.update(neighbor as int, region_id);
                    }
                    stack.push(neighbor);
                    proof {
                        assert(stack@ == before_push.push(neighbor));
                        assert forall|q: int|
                            0 <= q < stack@.len() && component@.len() > 0 implies #[trigger] joined_to_some(
                            fs,
                            component@,
                            stack@[q],
                        ) by {
                            if q == before_push.len() {
                                assert(faces_adjacent(fs, component@[pos] as int, stack@[q] as int));
                            } else {
                                assert(stack@[q] == before_push[q]);
                            }
                        }
                        assert forall|x: int|
                            0 <= x < n && #[trigger] owner[x] == region_id implies (component@.contains(
                                x as usize,
                            ) || stack@.contains(x as usize)) by {
                            if x == neighbor as int {
                                assert(stack@[before_push.len() as int] == neighbor);
                            } else {
                                assert(before_owner[x] == region_id);
                                if before_push.contains(x as usize) {
                                    let k = choose|k: int|
                                        0 <= k < before_push.len() && before_push[k] == x as usize;
                                    assert(stack@[k] == x as usize);
                                }
                            }
                        }
                        assert forall|x: int, g: int|
                            0 <= x < n && 0 <= owner[x] < region_id && 0 <= g < n && overhang@[g]
                                && #[trigger] faces_adjacent(fs, x, g) implies owner[g] == owner[x] by {
                            assert(before_owner[x] == owner[x]);
                            if g == neighbor as int {
                                assert(before_owner[g] == before_owner[x]);
                            }
                        }
                        assert(stack@.no_duplicates());
                        assert(component@.disjoint(stack@));
                    }
                } else if overhang[neighbor] {
                    proof {
                        assert(owner[neighbor as int] >= 0);
                        if owner[neighbor as int] < region_id {
                            lemma_share_edge_symmetric(fs[current as int], fs[neighbor as int]);
                            assert(faces_adjacent(fs, neighbor as int, current as int));
                            assert(owner[current as int] == region_id);
                        }
                    }
                }
                idx += 1;
            }
            proof {
                assert forall|k: int, g: int|
                    0 <= k < component@.len() && 0 <= g < n && overhang@[g] && #[trigger] faces_adjacent(
                        fs,
                        component@[k] as int,
                        g,
                    ) implies owner[g] == region_id by {
                    if k == pos {
                        assert(face_neighbors@[current as int]@.contains(g as usize));
                        let t = choose|t: int| 0 <= t < neighbors@.len() && neighbors@[t] == g as usize;
                        assert(overhang@[neighbors@[t] as int]);
                    }
                }
            }
        }
        let ghost old_regions = regions@;
        regions.push(component);
        proof {
            assert(regions@ == old_regions.push(component));
            assert(regions@[region_id]@ == component@);
            assert forall|x: int|
                0 <= x < n && 0 <= #[trigger] owner[x] < regions@.len() implies regions@[owner[x]]@.contains(
                x as usize,
            ) by {
                if owner[x] < region_id {
                    assert(regions@[owner[x]] == old_regions[owner[x]]);
                }
            }
            assert forall|r: int, k: int|
                0 <= r < regions@.len() && 0 <= k < regions@[r]@.len() implies (#[trigger] regions@[r]@[k])
                    < n && owner[regions@[r]@[k] as int] == r && overhang@[regions@[r]@[k] as int] by {
                if r < region_id {
                    assert(regions@[r] == old_regions[r]);
                }
            }
            assert forall|x: int, g: int|
                0 <= x < n && 0 <= owner[x] < regions@.len() && 0 <= g < n && overhang@[g]
                    && #[trigger] faces_adjacent(fs, x, g) implies owner[g] == owner[x] by {
                if owner[x] == region_id {
                    assert(component@.contains(x as usize));
                    let k = choose|k: int| 0 <= k < component@.len() && component@[k] == x as usize;
                    assert(faces_adjacent(fs, component@[k] as int, g));
                }
            }
            assert forall|r: int, k: int|
                0 <= r < regions@.len() && 0 < k < regions@[r]@.len() implies #[trigger] joined_to_earlier(
                fs,
                regions@[r]@,
                k,
            ) by {
                if r < region_id {
                    assert(regions@[r] == old_regions[r]);
                }
            }
            assert forall|r: int| 0 <= r < regions@.len() implies (#[trigger] regions@[r]@).no_duplicates() by {
                if r < region_id {
                    assert(regions@[r] == old_regions[r]);
                }
            }
            assert forall|r: int| 0 <= r < regions@.len() implies #[trigger] regions@[r]@.len() > 0 by {
                if r < region_id {
                    assert(regions@[r] == old_regions[r]);
                }
            }
        }
        face += 1;
    }
    proof {
        let rs = regions@;
        assert forall|f: int|
            0 <= f < fs.len() && #[trigger] overhang@[f] implies exists|r: int|
                0 <= r < rs.len() && #[trigger] rs[r]@.contains(f as usize) by {
            assert(rs[owner[f]]@.contains(f as usize));
        }
        assert forall|r1: int, k1: int, r2: int, k2: int|
            0 <= r1 < rs.len() && 0 <= k1 < rs[r1]@.len() && 0 <= r2 < rs.len() && 0 <= k2
                < rs[r2]@.len() && (r1 != r2 || k1 != k2) implies #[trigger] rs[r1]@[k1]
                != #[trigger] rs[r2]@[k2] by {
            if rs[r1]@[k1] == rs[r2]@[k2] {
                assert(owner[rs[r1]@[k1] as int] == r1);
                assert(owner[rs[r2]@[k2] as int] == r2);
                assert(rs[r1]@.no_duplicates());
            }
        }
        assert forall|r: int, k: int, g: int|
            0 <= r < rs.len() && 0 <= k < rs[r]@.len() && 0 <= g < fs.len() && overhang@[g]
                && #[trigger] faces_adjacent(fs, rs[r]@[k] as int, g) implies rs[r]@.contains(
                g as usize,
            ) by {
            let x = rs[r]@[k] as int;
            assert(owner[x] == r);
            assert(owner[g] == r);
            assert(rs[owner[g]]@.contains(g as usize));
        }
    }
    regions
}

/// `path` steps from face to face across shared edges, through overhanging
/// faces only.
pub open spec fn is_overhang_path(faces: Seq<Face>, overhang: Seq<bool>, path: Seq<int>) -> bool {
    &&& path.len() > 0
    &&& forall|i: int| 0 <= i < path.len() ==> 0 <= #[trigger] path[i] < faces.len() && overhang[path[i]]
    &&& forall|i: int|
        #![trigger path[i]]
        0 <= i < path.len() - 1 ==> faces_adjacent(faces, path[i], path[i + 1])
}

proof fn lemma_path_stays_in_region(
    faces: Seq<Face>,
    overhang: Seq<bool>,
    regions: Seq<Vec<usize>>,
    r: int,
    path: Seq<int>,
)
    requires
        is_overhang_grouping(faces, overhang, regions),
        faces.len() <= usize::MAX,
        0 <= r < regions.len(),
        is_overhang_path(faces, overhang, path),
        regions[r]@.contains(path[0] as usize),
    ensures
        regions[r]@.contains(path.last() as usize),
    decreases path.len(),
{
    if path.len() > 1 {
        let prev = path.drop_last();
        assert(is_overhang_path(faces, overhang, prev)) by {
            assert forall|i: int| #![trigger prev[i]] 0 <= i < prev.len() - 1 implies faces_adjacent(
                faces,
                prev[i],
                prev[i + 1],
            ) by {
                assert(path[i] == prev[i]);
            }
        }
        lemma_path_stays_in_region(faces, overhang, regions, r, prev);
        let x = path[path.len() - 2];
        let k = choose|k: int| 0 <= k < regions[r]@.len() && regions[r]@[k] == x as usize;
        assert(faces_adjacent(faces, path[path.len() - 2], path[path.len() - 1]));
        assert(overhang[path.last()]);
        assert(faces_adjacent(faces, regions[r]@[k] as int, path.last()));
    }
}

proof fn lemma_path_from_first(
    faces: Seq<Face>,
    overhang: Seq<bool>,
    regions: Seq<Vec<usize>>,
    r: int,
    k: int,
) -> (path: Seq<int>)
    requires
        is_overhang_grouping(faces, overhang, regions),
        0 <= r < regions.len(),
        0 <= k < regions[r]@.len(),
    ensures
        is_overhang_path(faces, overhang, path),
        path[0] == regions[r]@[0] as int,
        path.last() == regions[r]@[k] as int,
    decreases k,
{
    let region = regions[r]@;
    assert(region[k] < faces.len() && overhang[region[k] as int]);
    if k == 0 {
        let path = seq![region[0] as int];
        assert(is_overhang_path(faces, overhang, path));
        path
    } else {
        assert(joined_to_earlier(faces, region, k));
        let j = choose|j: int| 0 <= j < k && #[trigger] faces_adjacent(faces, region[j] as int, region[k] as int);
        let prefix = lemma_path_from_first(faces, overhang, regions, r, j);
        let path = prefix.push(region[k] as int);
        assert(is_overhang_path(faces, overhang, path)) by {
            assert forall|i: int| 0 <= i < path.len() implies 0 <= #[trigger] path[i] < faces.len()
                && overhang[path[i]] by {
                if i < prefix.len() {
                    assert(path[i] == prefix[i]);
                }
            }
            assert forall|i: int| #![trigger path[i]] 0 <= i < path.len() - 1 implies faces_adjacent(
                faces,
                path[i],
                path[i + 1],
            ) by {
                if i < prefix.len() - 1 {
                    assert(path[i] == prefix[i] && path[i + 1] == prefix[i + 1]);
                } else {
                    assert(path[i] == prefix.last());
                }
            }
        }
        path
    }
}

proof fn lemma_reverse_path(faces: Seq<Face>, overhang: Seq<bool>, path: Seq<int>) -> (rev: Seq<int>)
    requires
        is_overhang_path(faces, overhang, path),
    ensures
        is_overhang_path(faces, overhang, rev),
        rev[0] == path.last(),
        rev.last() == path[0],
{
    let n = path.len();
    let rev = Seq::new(n, |i: int| path[n - 1 - i]);
    assert forall|i: int| 0 <= i < rev.len() implies 0 <= #[trigger] rev[i] < faces.len() && overhang[rev[i]] by {
        assert(rev[i] == path[n - 1 - i]);
    }
    assert forall|i: int| #![trigger rev[i]] 0 <= i < rev.len() - 1 implies faces_adjacent(
        faces,
        rev[i],
        rev[i + 1],
    ) by {
        let a = n - 2 - i;
        assert(path[a] == rev[i + 1] && path[a + 1] == rev[i]);
        assert(faces_adjacent(faces, path[a], path[a + 1]));
        lemma_share_edge_symmetric(faces[path[a]], faces[path[a + 1]]);
    }
    rev
}

proof fn lemma_join_paths(faces: Seq<Face>, overhang: Seq<bool>, p: Seq<int>, q: Seq<int>) -> (joined: Seq<int>)
    requires
        is_overhang_path(faces, overhang, p),
        is_overhang_path(faces, overhang, q),
        p.last() == q[0],
    ensures
        is_overhang_path(faces, overhang, joined),
        joined[0] == p[0],
        joined.last() == q.last(),
{
    let joined = p + q.drop_first();
    assert forall|i: int| 0 <= i < joined.len() implies 0 <= #[trigger] joined[i] < faces.len()
        && overhang[joined[i]] by {
        if i < p.len() {
            assert(joined[i] == p[i]);
        } else {
            assert(joined[i] == q[i - p.len() + 1]);
        }
    }
    assert forall|i: int| #![trigger joined[i]] 0 <= i < joined.len() - 1 implies faces_adjacent(
        faces,
        joined[i],
        joined[i + 1],
    ) by {
        if i < p.len() - 1 {
            assert(joined[i] == p[i] && joined[i + 1] == p[i + 1]);
        } else if i == p.len() - 1 {
            assert(joined[i] == q[0] && joined[i + 1] == q[1]);
        } else {
            let a = i - p.len() + 1;
            assert(joined[i] == q[a] && joined[i + 1] == q[a + 1]);
        }
    }
    if q.len() == 1 {
        assert(joined == p);
    } else {
        assert(joined.last() == q.last());
    }
    joined
}

/// Overhang regions are the connected components of the overhanging faces:
/// face `b` lies in the region of face `a` exactly when a path of
/// overhanging faces, each sharing an edge with the next, leads from `a` to
/// `b`.
pub proof fn lemma_regions_are_components(
    faces: Seq<Face>,
    overhang: Seq<bool>,
    regions: Seq<Vec<usize>>,
    r: int,
    a: usize,
    b: usize,
)
    requires
        is_overhang_grouping(faces, overhang, regions),
        faces.len() <= usize::MAX,
        0 <= r < regions.len(),
        regions[r]@.contains(a),
    ensures
        regions[r]@.contains(b) <==> exists|path: Seq<int>|
            #[trigger] is_overhang_path(faces, overhang, path) && path[0] == a && path.last() == b,
{
    let region = regions[r]@;
    if region.contains(b) {
        let ka = choose|k: int| 0 <= k < region.len() && region[k] == a;
        let kb = choose|k: int| 0 <= k < region.len() && region[k] == b;
        let to_a = lemma_path_from_first(faces, overhang, regions, r, ka);
        let to_b = lemma_path_from_first(faces, overhang, regions, r, kb);
        let from_a = lemma_reverse_path(faces, overhang, to_a);
        let path = lemma_join_paths(faces, overhang, from_a, to_b);
        assert(is_overhang_path(faces, overhang, path) && path[0] == a && path.last() == b);
    }
    if exists|path: Seq<int>| #[trigger] is_overhang_path(faces, overhang, path) && path[0] == a && path.last() == b {
        let path = choose|path: Seq<int>|
            #[trigger] is_overhang_path(faces, overhang, path) && path[0] == a && path.last() == b;
        lemma_path_stays_in_region(faces, overhang, regions, r, path);
    }
}

/// No half-edge before `e` leaves the vertex that half-edge `e` leaves.
pub open spec fn first_from_origin(origins: Seq<u32>, e: int) -> bool {
    forall|k: int| 0 <= k < e ==> origins[k] != origins[e]
}

/// Walks the half-edges in order and looks at each vertex once, at the first
/// half-edge leaving it (`origins[e]` is the vertex half-edge `e` leaves);
/// keeps that half-edge when `accepted` says the vertex is a point overhang
/// (a downward facing vertex lower than every vertex it connects to).
pub fn select_point_overhangs(origins: &[u32], accepted: &[bool]) -> (edges: Vec<usize>)
    requires
        origins@.len() == accepted@.len(),
    ensures
        strictly_increasing(edges@),
        forall|e: usize|
            #[trigger] edges@.contains(e) <==> (e < origins@.len() && accepted@[e as int]
                && first_from_origin(origins@, e as int)),
{
    let mut edges: Vec<usize> = Vec::new();
    let mut seen: HashSet<u32> = HashSet::new();
    let mut edge: usize = 0;
    while edge < origins.len()
        invariant
            origins@.len() == accepted@.len(),
            0 <= edge <= origins@.len(),
            forall|v: u32| #[trigger] seen@.contains(v) <==> exists|k: int| 0 <= k < edge && origins@[k] == v,
            strictly_increasing(edges@),
            forall|k: int| 0 <= k < edges@.len() ==> #[trigger] edges@[k] < edge,
            forall|e: usize|
                #[trigger] edges@.contains(e) <==> (e < edge && accepted@[e as int] && first_from_origin(
                    origins@,
                    e as int,
                )),
        decreases origins@.len() - edge,
    {
        let origin = origins[edge];
        let ghost seen0 = seen@;
        let fresh = seen.insert(origin);
        assert forall|v: u32| #[trigger] seen@.contains(v) <==> exists|k: int|
            0 <= k < edge + 1 && origins@[k] == v by {
            if v == origin {
                assert(origins@[edge as int] == v);
            }
            if exists|k: int| 0 <= k < edge + 1 && origins@[k] == v {
                let k = choose|k: int| 0 <= k < edge + 1 && origins@[k] == v;
                if k < edge {
                    assert(seen0.contains(v));
                }
            }
        }
        assert(fresh == first_from_origin(origins@, edge as int)) by {
            if !fresh {
                let k = choose|k: int| 0 <= k < edge && origins@[k] == origin;
            }
        }
        if fresh && accepted[edge] {
            let ghost before = edges@;
            edges.push(edge);
            assert forall|e: usize| #[trigger] edges@.contains(e) <==> (before.contains(e) || e == edge) by {
                lemma_push_contains(before, edge, e);
            }
        }
        edge += 1;
    }
    edges
}

} // verus!
