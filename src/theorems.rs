use vstd::prelude::*;
use crate::geometry::{lemma_size_at, size_at, Region, CHUNKSIZE};
use crate::material::{
    channel, lemma_weight_total_uniform, lemma_weighted_mean_in_hull, weight_total,
    weighted_mean, Material,
};
use crate::voxel::{
    add_unique, child_pos, collapsed, empty_slots, first_index, flat, internal_record,
    kids_count, kids_flat, kids_leaf_materials, leaf_materials, leaf_record, lemma_add_unique_len,
    lemma_kids_count_mono, lemma_kids_flat_len,
    lemma_leaf_materials_len, lemma_node_count_pos, node_count, painted, slot_children,
    slot_material, slot_record_index, slot_weights, volume, Chunk, Voxel, VoxelData, VoxelPos,
    ABSENT, MAX_RECORDS,
};

verus! {

broadcast use vstd::std_specs::vec::group_vec_axioms;

/// Every node of `v` whose cube lies inside `r` holds `m` and has no children.
pub open spec fn contained_nodes_painted(v: Voxel, r: Region, m: Material) -> bool
    decreases v,
{
    &&& r.contains_cube(v.pos.x as int, v.pos.y as int, v.pos.z as int, v.range as int) ==> {
        &&& v.material == m
        &&& v.is_leaf()
    }
    &&& forall|k: int|
        0 <= k < v.children@.len() ==> match #[trigger] v.children@[k] {
            Some(c) => contained_nodes_painted(c, r, m),
            None => true,
        }
}

/// A subtree whose cube misses the region holds no node inside it.
proof fn lemma_disjoint_subtree(v: Voxel, d: int, r: Region, m: Material)
    requires
        v.wf_at(d),
        !r.overlaps_cube(v.pos.x as int, v.pos.y as int, v.pos.z as int, v.range as int),
    ensures
        contained_nodes_painted(v, r, m),
    decreases v,
{
    lemma_size_at(d);
    assert forall|k: int| 0 <= k < v.children@.len() implies match #[trigger] v.children@[k] {
        Some(c) => contained_nodes_painted(c, r, m),
        None => true,
    } by {
        if let Some(c) = v.children@[k] {
            assert(c.pos == child_pos(v.pos, v.range as int, k) && c.wf_at(d + 1));
            lemma_size_at(d + 1);
            assert(0 <= k % 2 <= 1 && 0 <= k / 4 <= 1 && 0 <= (k / 2) % 2 <= 1);
            let h = v.range as int / 2;
            assert(0 <= (k % 2) * h <= h && 0 <= (k / 4) * h <= h && 0 <= ((k / 2) % 2) * h <= h)
                by (nonlinear_arith)
                requires
                    0 <= k % 2 <= 1,
                    0 <= k / 4 <= 1,
                    0 <= (k / 2) % 2 <= 1,
                    h >= 0,
            ;
            assert(c.range == h);
            assert(c.pos.x == v.pos.x + (k % 2) * h);
            assert(c.pos.y == v.pos.y + (k / 4) * h);
            assert(c.pos.z == v.pos.z + ((k / 2) % 2) * h);
            lemma_disjoint_subtree(c, d + 1, r, m);
        }
    }
}

proof fn lemma_painted_contained(
    old_mat: Material,
    old_kids: Seq<Option<Voxel>>,
    pos: VoxelPos,
    range: int,
    new: Voxel,
    r: Region,
    m: Material,
    depth: int,
    d: int,
)
    requires
        0 <= d <= depth <= 16,
        range == size_at(d),
        pos.x + range <= 65536,
        pos.y + range <= 65536,
        pos.z + range <= 65536,
        old_kids.len() == 8,
        forall|k: int|
            0 <= k < 8 ==> match #[trigger] old_kids[k] {
                Some(c) => c.pos == child_pos(pos, range, k) && c.wf_at(d + 1),
                None => true,
            },
        painted(old_mat, old_kids, pos, range, new, r, m, depth, d),
    ensures
        contained_nodes_painted(new, r, m),
    decreases depth - d,
{
    lemma_size_at(d);
    if d >= depth || r.contains_cube(pos.x as int, pos.y as int, pos.z as int, range) {
    } else {
        lemma_size_at(d + 1);
        assert forall|k: int| 0 <= k < new.children@.len() implies match #[trigger] new.children@[k] {
            Some(c) => contained_nodes_painted(c, r, m),
            None => true,
        } by {
            let cp = child_pos(pos, range, k);
            let h = range / 2;
            assert(0 <= (k % 2) * h <= h && 0 <= (k / 4) * h <= h && 0 <= ((k / 2) % 2) * h <= h)
                by (nonlinear_arith)
                requires
                    0 <= k % 2 <= 1,
                    0 <= k / 4 <= 1,
                    0 <= (k / 2) % 2 <= 1,
                    h >= 0,
            ;
            if r.overlaps_cube(cp.x as int, cp.y as int, cp.z as int, range / 2) {
                let sk = slot_children(old_kids, k);
                assert forall|j: int| 0 <= j < 8 implies match #[trigger] sk[j] {
                    Some(c) => c.pos == child_pos(cp, range / 2, j) && c.wf_at(d + 2),
                    None => true,
                } by {
                    if let Some(oc) = old_kids[k] {
                        assert(oc.wf_at(d + 1));
                        assert(match oc.children@[j] {
                            Some(c) => c.pos == child_pos(oc.pos, oc.range as int, j) && c.wf_at(
                                d + 2,
                            ),
                            None => true,
                        });
                    } else {
                        assert(sk == empty_slots());
                    }
                }
                lemma_painted_contained(
                    slot_material(old_kids, k),
                    sk,
                    cp,
                    range / 2,
                    new.children@[k]->Some_0,
                    r,
                    m,
                    depth,
                    d + 1,
                );
            } else {
                if let Some(c) = old_kids[k] {
                    lemma_disjoint_subtree(c, d + 1, r, m);
                }
            }
        }
    }
}

proof fn lemma_same_leaves_keeps_painted(t: Voxel, v: Voxel, r: Region, m: Material)
    requires
        t.same_leaves(v),
        contained_nodes_painted(t, r, m),
    ensures
        contained_nodes_painted(v, r, m),
    decreases t,
{
    if r.contains_cube(t.pos.x as int, t.pos.y as int, t.pos.z as int, t.range as int) {
        assert forall|k: int| 0 <= k < v.children@.len() implies #[trigger] v.children@[k] is None by {
            assert(t.children@[k] is None);
        }
    }
    assert forall|k: int| 0 <= k < v.children@.len() implies match #[trigger] v.children@[k] {
        Some(c) => contained_nodes_painted(c, r, m),
        None => true,
    } by {
        if let Some(tc) = t.children@[k] {
            lemma_same_leaves_keeps_painted(tc, v.children@[k]->Some_0, r, m);
        }
    }
}

/// After `fill_voxels(r, m)`, every node whose cube lies inside `r` holds `m`
/// and has no children.
pub proof fn fill_paints_contained_nodes(before: Chunk, after: Chunk, r: Region, m: Material)
    requires
        before.wf(),
        after.wf(),
        exists|t: Voxel|
            {
                &&& painted(
                    before.start_voxel.material,
                    before.start_voxel.children@,
                    before.start_voxel.pos,
                    before.start_voxel.range as int,
                    t,
                    r,
                    m,
                    before.depth as int,
                    0,
                )
                &&& t.same_leaves(after.start_voxel)
            },
    ensures
        contained_nodes_painted(after.start_voxel, r, m),
{
    let t = choose|t: Voxel|
        {
            &&& painted(
                before.start_voxel.material,
                before.start_voxel.children@,
                before.start_voxel.pos,
                before.start_voxel.range as int,
                t,
                r,
                m,
                before.depth as int,
                0,
            )
            &&& t.same_leaves(after.start_voxel)
        };
    let s = before.start_voxel;
    assert forall|k: int| 0 <= k < 8 implies match #[trigger] s.children@[k] {
        Some(c) => c.pos == child_pos(s.pos, s.range as int, k) && c.wf_at(1),
        None => true,
    } by {
        assert(s.wf_at(0));
    }
    lemma_painted_contained(
        s.material,
        s.children@,
        s.pos,
        s.range as int,
        t,
        r,
        m,
        before.depth as int,
        0,
    );
    lemma_same_leaves_keeps_painted(t, after.start_voxel, r, m);
}

/// The averaged material of an internal node lies, channel by channel, between
/// the smallest and largest value of its eight slots (an empty slot counting as
/// the default material); the slot weights are one octant's volume each and sum
/// to the node's volume.
pub proof fn averaging_stays_in_hull(v: Voxel, d: int, c: int, lo: int, hi: int)
    requires
        v.wf_at(d),
        v.averaged(),
        !v.is_leaf(),
        0 <= c < 8,
        forall|k: int| 0 <= k < 8 ==> lo <= #[trigger] channel(slot_material(v.children@, k), c) <= hi,
    ensures
        lo <= channel(v.material, c) <= hi,
        forall|k: int| 0 <= k < 8 ==> #[trigger] slot_weights(v)[k].weight == volume(v.range as int / 2),
        weight_total(slot_weights(v)) == volume(v.range as int),
{
    let s = slot_weights(v);
    let k0 = choose|k: int| 0 <= k < v.children@.len() && !(v.children@[k] is None);
    assert(v.children@[k0] matches Some(ch) && ch.wf_at(d + 1));
    lemma_size_at(d);
    lemma_size_at(d + 1);
    let h = v.range as int / 2;
    assert(volume(h) <= 65536 * 65536 * 65536 && volume(h) >= 1) by (nonlinear_arith)
        requires
            1 <= h <= 65536,
    ;
    lemma_weight_total_uniform(s, volume(h));
    assert(8 * volume(h) == volume(v.range as int)) by (nonlinear_arith)
        requires
            v.range == 2 * h,
    ;
    assert forall|k: int| 0 <= k < s.len() implies lo <= #[trigger] channel(s[k].material, c) <= hi by {
        assert(s[k].material == slot_material(v.children@, k));
    }
    lemma_weighted_mean_in_hull(s, c, lo, hi);
    assert(channel(v.material, c) == weighted_mean(s, c));
}

/// When one pixel covers the whole chunk, the flattened tree is a single record
/// and the palette holds at most one material.
pub proof fn distant_chunk_is_one_record(chunk: Chunk, pixel_size: int)
    requires
        chunk.wf(),
        pixel_size >= CHUNKSIZE,
    ensures
        ({
            let pal = add_unique(seq![], leaf_materials(chunk.start_voxel, pixel_size));
            &&& flat(chunk.start_voxel, pixel_size, 0, pal).len() == 1
            &&& pal.len() <= 1
        }),
{
    crate::geometry::lemma_size_at_root();
    let v = chunk.start_voxel;
    assert(collapsed(v, pixel_size));
    let s = seq![v.material];
    assert(leaf_materials(v, pixel_size) == s);
    assert(s.drop_last() =~= Seq::<Material>::empty());
    assert(add_unique(seq![], s.drop_last()) == Seq::<Material>::empty());
}


/// Every child field that is set points at an earlier record of the array, at
/// index `off` or later (the records sit at `off`, `off + 1`, ...).
pub open spec fn children_precede(recs: Seq<VoxelData>, off: int) -> bool {
    forall|j: int, k: int|
        0 <= j < recs.len() && 0 <= k < 8 && #[trigger] recs[j].child_index(k) != ABSENT ==> off
            <= recs[j].child_index(k) < off + j
}

/// Every leaf record's material index lies inside the palette.
pub open spec fn leaf_indices_in(recs: Seq<VoxelData>, pal_len: int) -> bool {
    forall|j: int|
        0 <= j < recs.len() && #[trigger] recs[j].material_index != ABSENT
            ==> recs[j].material_index < pal_len
}

/// The materials of the leaf records, in array order, read back through the
/// palette; a record is a leaf exactly when its material index is set.
pub open spec fn decode_leaves(recs: Seq<VoxelData>, pal: Seq<Material>) -> Seq<Material>
    decreases recs.len(),
{
    if recs.len() == 0 {
        seq![]
    } else {
        decode_leaves(recs.drop_last(), pal) + if recs.last().material_index == ABSENT {
            Seq::<Material>::empty()
        } else {
            seq![pal[recs.last().material_index as int]]
        }
    }
}

/// Every material of `s` occurs in `pal`.
pub open spec fn all_in(s: Seq<Material>, pal: Seq<Material>) -> bool {
    forall|i: int| 0 <= i < s.len() ==> pal.contains(#[trigger] s[i])
}

proof fn lemma_decode_concat(a: Seq<VoxelData>, b: Seq<VoxelData>, pal: Seq<Material>)
    ensures
        decode_leaves(a + b, pal) == decode_leaves(a, pal) + decode_leaves(b, pal),
    decreases b.len(),
{
    if b.len() == 0 {
        assert(a + b =~= a);
        assert(decode_leaves(a, pal) + decode_leaves(b, pal) =~= decode_leaves(a, pal));
    } else {
        assert((a + b).drop_last() =~= a + b.drop_last());
        lemma_decode_concat(a, b.drop_last(), pal);
        let tail = if b.last().material_index == ABSENT {
            Seq::<Material>::empty()
        } else {
            seq![pal[b.last().material_index as int]]
        };
        assert(decode_leaves(a, pal) + decode_leaves(b.drop_last(), pal) + tail =~= decode_leaves(
            a,
            pal,
        ) + (decode_leaves(b.drop_last(), pal) + tail));
    }
}

proof fn lemma_concat_linked(p: Seq<VoxelData>, q: Seq<VoxelData>, off: int, pal_len: int)
    requires
        children_precede(p, off),
        children_precede(q, off + p.len()),
        leaf_indices_in(p, pal_len),
        leaf_indices_in(q, pal_len),
    ensures
        children_precede(p + q, off),
        leaf_indices_in(p + q, pal_len),
{
    let pq = p + q;
    assert forall|j: int, k: int|
        0 <= j < pq.len() && 0 <= k < 8 && #[trigger] pq[j].child_index(k) != ABSENT implies off
            <= pq[j].child_index(k) < off + j by {
        if j < p.len() {
            assert(pq[j] == p[j]);
        } else {
            assert(pq[j] == q[j - p.len()]);
            assert(q[j - p.len()].child_index(k) != ABSENT);
        }
    }
    assert forall|j: int|
        0 <= j < pq.len() && #[trigger] pq[j].material_index != ABSENT implies pq[j].material_index
            < pal_len by {
        if j < p.len() {
            assert(pq[j] == p[j]);
        } else {
            assert(pq[j] == q[j - p.len()]);
        }
    }
}

proof fn lemma_index_of_member(pal: Seq<Material>, m: Material)
    requires
        pal.contains(m),
    ensures
        0 <= first_index(pal, m) < pal.len(),
        pal[first_index(pal, m)] == m,
    decreases pal.len(),
{
    if pal[0] != m {
        let t = pal.drop_first();
        let i = choose|i: int| 0 <= i < pal.len() && pal[i] == m;
        assert(t[i - 1] == m);
        lemma_index_of_member(t, m);
        assert(pal[first_index(pal, m)] == t[first_index(t, m)]);
    }
}

/// The records of `v` are linked backwards, their leaf indices lie in the
/// palette, and the leaves read back give `leaf_materials`.
proof fn lemma_flat_sound(v: Voxel, d: int, px: int, off: int, pal: Seq<Material>)
    requires
        v.wf_at(d),
        0 <= off,
        off + node_count(v, px) <= ABSENT,
        pal.len() < ABSENT,
        all_in(leaf_materials(v, px), pal),
    ensures
        children_precede(flat(v, px, off, pal), off),
        leaf_indices_in(flat(v, px, off, pal), pal.len() as int),
        decode_leaves(flat(v, px, off, pal), pal) == leaf_materials(v, px),
    decreases v, 11int,
{
    let recs = flat(v, px, off, pal);
    if collapsed(v, px) {
        assert(leaf_materials(v, px)[0] == v.material);
        lemma_index_of_member(pal, v.material);
        let rec = leaf_record(v, pal);
        assert(recs == seq![rec]);
        assert(recs.drop_last() =~= Seq::<VoxelData>::empty());
        assert forall|j: int, k: int|
            0 <= j < recs.len() && 0 <= k < 8 && #[trigger] recs[j].child_index(k) != ABSENT implies off
                <= recs[j].child_index(k) < off + j by {
            assert(recs[j] == rec);
        }
        assert(rec.material_index == first_index(pal, v.material));
        assert(rec.material_index != ABSENT);
        assert(decode_leaves(recs.drop_last(), pal) == Seq::<Material>::empty());
        assert(decode_leaves(recs, pal) =~= seq![v.material]);
    } else {
        lemma_kids_flat_sound(v, d, px, off, pal, 8);
        let kf = kids_flat(v, px, off, pal, 8);
        let rec = internal_record(v, px, off, pal);
        lemma_kids_flat_len(v, px, off, pal, 8);
        assert forall|k: int| 0 <= k < 8 && #[trigger] rec.child_index(k) != ABSENT implies off
            <= rec.child_index(k) < off + kf.len() by {
            assert(rec.child_index(k) == slot_record_index(v, px, off, pal, k));
            let c = v.children@[k]->Some_0;
            lemma_kids_flat_len(v, px, off, pal, k);
            lemma_kids_flat_len(v, px, off, pal, k + 1);
            lemma_kids_count_mono(v, px, k + 1, 8);
            lemma_node_count_pos(c, px);
        }
        assert(recs == kf.push(rec));
        assert forall|j: int, k: int|
            0 <= j < recs.len() && 0 <= k < 8 && #[trigger] recs[j].child_index(k) != ABSENT implies off
                <= recs[j].child_index(k) < off + j by {
            if j < kf.len() {
                assert(recs[j] == kf[j]);
            } else {
                assert(recs[j] == rec);
            }
        }
        assert forall|j: int|
            0 <= j < recs.len() && #[trigger] recs[j].material_index != ABSENT implies recs[j].material_index
                < pal.len() by {
            if j < kf.len() {
                assert(recs[j] == kf[j]);
            } else {
                assert(recs[j] == rec);
            }
        }
        assert(recs.drop_last() =~= kf);
        assert(decode_leaves(kf, pal) + Seq::<Material>::empty() =~= decode_leaves(kf, pal));
    }
}

proof fn lemma_kids_flat_sound(v: Voxel, d: int, px: int, off: int, pal: Seq<Material>, n: int)
    requires
        v.wf_at(d),
        !collapsed(v, px),
        0 <= n <= 8,
        0 <= off,
        off + kids_count(v, px, 8) < ABSENT,
        pal.len() < ABSENT,
        all_in(kids_leaf_materials(v, px, n), pal),
    ensures
        children_precede(kids_flat(v, px, off, pal, n), off),
        leaf_indices_in(kids_flat(v, px, off, pal, n), pal.len() as int),
        decode_leaves(kids_flat(v, px, off, pal, n), pal) == kids_leaf_materials(v, px, n),
    decreases v, n,
{
    if n > 0 {
        let p = kids_flat(v, px, off, pal, n - 1);
        let lp = kids_leaf_materials(v, px, n - 1);
        let ln = kids_leaf_materials(v, px, n);
        assert forall|i: int| 0 <= i < lp.len() implies pal.contains(#[trigger] lp[i]) by {
            assert(ln[i] == lp[i]);
        }
        lemma_kids_flat_sound(v, d, px, off, pal, n - 1);
        lemma_kids_flat_len(v, px, off, pal, n - 1);
        lemma_kids_count_mono(v, px, n, 8);
        match v.children@[n - 1] {
            Some(c) => {
                assert(c.wf_at(d + 1));
                let lc = leaf_materials(c, px);
                assert(ln == lp + lc);
                assert forall|i: int| 0 <= i < lc.len() implies pal.contains(#[trigger] lc[i]) by {
                    assert(ln[lp.len() + i] == lc[i]);
                }
                lemma_flat_sound(c, d + 1, px, off + p.len(), pal);
                let fc = flat(c, px, off + p.len(), pal);
                lemma_concat_linked(p, fc, off, pal.len() as int);
                lemma_decode_concat(p, fc, pal);
            },
            None => {
                assert(kids_flat(v, px, off, pal, n) =~= p);
                assert(ln =~= lp);
            },
        }
    } else {
        assert(decode_leaves(Seq::<VoxelData>::empty(), pal) == Seq::<Material>::empty());
        assert(kids_leaf_materials(v, px, n) == Seq::<Material>::empty());
    }
}


proof fn lemma_add_unique_members(acc: Seq<Material>, s: Seq<Material>)
    ensures
        all_in(s, add_unique(acc, s)),
        all_in(acc, add_unique(acc, s)),
    decreases s.len(),
{
    if s.len() > 0 {
        let t = s.drop_last();
        lemma_add_unique_members(acc, t);
        let p = add_unique(acc, t);
        let r = add_unique(acc, s);
        assert forall|i: int| 0 <= i < s.len() implies r.contains(#[trigger] s[i]) by {
            if i < t.len() {
                assert(t[i] == s[i]);
                assert(p.contains(t[i]));
                if !p.contains(s.last()) {
                    let j = choose|j: int| 0 <= j < p.len() && p[j] == t[i];
                    assert(r[j] == p[j]);
                }
            } else if p.contains(s.last()) {
            } else {
                assert(r[p.len() as int] == s.last());
            }
        }
        assert forall|i: int| 0 <= i < acc.len() implies r.contains(#[trigger] acc[i]) by {
            assert(p.contains(acc[i]));
            if !p.contains(s.last()) {
                let j = choose|j: int| 0 <= j < p.len() && p[j] == acc[i];
                assert(r[j] == p[j]);
            }
        }
    }
}

proof fn lemma_add_unique_distinct(acc: Seq<Material>, s: Seq<Material>)
    requires
        acc.no_duplicates(),
    ensures
        add_unique(acc, s).no_duplicates(),
    decreases s.len(),
{
    if s.len() > 0 {
        lemma_add_unique_distinct(acc, s.drop_last());
        let p = add_unique(acc, s.drop_last());
        if !p.contains(s.last()) {
            let r = p.push(s.last());
            assert forall|i: int, j: int| 0 <= i < r.len() && 0 <= j < r.len() && i != j implies r[i]
                != r[j] by {
                if i < p.len() && j < p.len() {
                } else if i < p.len() {
                    assert(r[i] == p[i]);
                } else if j < p.len() {
                    assert(r[j] == p[j]);
                }
            }
        }
    }
}

proof fn lemma_flat_of_chunk(chunk: Chunk, pixel_size: int)
    requires
        chunk.wf(),
        node_count(chunk.start_voxel, pixel_size) <= MAX_RECORDS,
    ensures
        ({
            let v = chunk.start_voxel;
            let pal = add_unique(seq![], leaf_materials(v, pixel_size));
            let recs = flat(v, pixel_size, 0, pal);
            &&& pal.len() < ABSENT
            &&& all_in(leaf_materials(v, pixel_size), pal)
            &&& children_precede(recs, 0)
            &&& leaf_indices_in(recs, pal.len() as int)
            &&& decode_leaves(recs, pal) == leaf_materials(v, pixel_size)
        }),
{
    let v = chunk.start_voxel;
    let lm = leaf_materials(v, pixel_size);
    lemma_leaf_materials_len(v, pixel_size);
    lemma_add_unique_len(seq![], lm);
    lemma_add_unique_members(seq![], lm);
    lemma_flat_sound(v, 0, pixel_size, 0, add_unique(seq![], lm));
}

/// In the flattened chunk every child field that is set holds the index of an
/// earlier record, and the last record is the root's.
pub proof fn records_point_backwards(chunk: Chunk, pixel_size: int)
    requires
        chunk.wf(),
        node_count(chunk.start_voxel, pixel_size) <= MAX_RECORDS,
    ensures
        ({
            let v = chunk.start_voxel;
            let recs = flat(v, pixel_size, 0, add_unique(seq![], leaf_materials(v, pixel_size)));
            &&& children_precede(recs, 0)
            &&& recs.len() >= 1
            &&& recs.last().pos == v.pos
            &&& recs.last().range == v.range
        }),
{
    lemma_flat_of_chunk(chunk, pixel_size);
}

/// Reading the leaf records of the flattened chunk back through the palette
/// gives the materials of the tree's leaves (under the same level of detail),
/// in depth-first order.
pub proof fn leaves_read_back(chunk: Chunk, pixel_size: int)
    requires
        chunk.wf(),
        node_count(chunk.start_voxel, pixel_size) <= MAX_RECORDS,
    ensures
        ({
            let v = chunk.start_voxel;
            let pal = add_unique(seq![], leaf_materials(v, pixel_size));
            decode_leaves(flat(v, pixel_size, 0, pal), pal) == leaf_materials(v, pixel_size)
        }),
{
    lemma_flat_of_chunk(chunk, pixel_size);
}

/// The palette holds each leaf material exactly once, and leaf records whose
/// materials are equal share one material index.
pub proof fn palette_is_deduplicated(chunk: Chunk, pixel_size: int)
    requires
        chunk.wf(),
        node_count(chunk.start_voxel, pixel_size) <= MAX_RECORDS,
    ensures
        ({
            let v = chunk.start_voxel;
            let pal = add_unique(seq![], leaf_materials(v, pixel_size));
            let recs = flat(v, pixel_size, 0, pal);
            &&& pal.no_duplicates()
            &&& all_in(leaf_materials(v, pixel_size), pal)
            &&& leaf_indices_in(recs, pal.len() as int)
            &&& forall|i: int, j: int|
                0 <= i < recs.len() && 0 <= j < recs.len() && recs[i].material_index != ABSENT
                    && recs[j].material_index != ABSENT && #[trigger] pal[recs[i].material_index as int]
                    == #[trigger] pal[recs[j].material_index as int] ==> recs[i].material_index
                    == recs[j].material_index
        }),
{
    lemma_flat_of_chunk(chunk, pixel_size);
    let v = chunk.start_voxel;
    let pal = add_unique(seq![], leaf_materials(v, pixel_size));
    let recs = flat(v, pixel_size, 0, pal);
    assert(Seq::<Material>::empty().no_duplicates());
    lemma_add_unique_distinct(seq![], leaf_materials(v, pixel_size));
    assert forall|i: int, j: int|
        0 <= i < recs.len() && 0 <= j < recs.len() && recs[i].material_index != ABSENT
            && recs[j].material_index != ABSENT && #[trigger] pal[recs[i].material_index as int]
            == #[trigger] pal[recs[j].material_index as int] implies recs[i].material_index
            == recs[j].material_index by {
        assert(recs[i].material_index < pal.len());
        assert(recs[j].material_index < pal.len());
    }
}

} // verus!
