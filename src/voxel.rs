use vstd::prelude::*;
use crate::geometry::{
    interval_contains, interval_length, interval_overlaps, lemma_size_at, lemma_size_at_root,
    size_at, Interval, Region, CHUNKPOWER, CHUNKSIZE,
};
use crate::material::{
    blend, default_material, is_blend_of, lemma_weight_total_uniform, Material, MaterialWeight,
};

verus! {

broadcast use vstd::std_specs::vec::group_vec_axioms;

/// Minimum corner of a voxel's cube.
#[derive(Clone, Copy, Debug, PartialEq, Eq, Structural)]
pub struct VoxelPos {
    pub x: u32,
    pub y: u32,
    pub z: u32,
}

/// An octree node: a cube given by its minimum corner and edge length, a
/// material, and eight child slots. Slot `k` holds the octant with offsets
/// `x = k % 2`, `z = (k / 2) % 2`, `y = k / 4` (that is `k = x + z*2 + y*4`).
pub struct Voxel {
    pub pos: VoxelPos,
    pub range: u32,
    pub material: Material,
    pub children: Vec<Option<Voxel>>,
}

/// Offset along x of octant `k`, in units of the child edge.
pub open spec fn octant_x(k: int) -> int {
    k % 2
}

/// Offset along y of octant `k`, in units of the child edge.
pub open spec fn octant_y(k: int) -> int {
    k / 4
}

/// Offset along z of octant `k`, in units of the child edge.
pub open spec fn octant_z(k: int) -> int {
    (k / 2) % 2
}

/// Minimum corner of octant `k` of the cube at `pos` with edge `range`.
pub open spec fn child_pos(pos: VoxelPos, range: int, k: int) -> VoxelPos {
    VoxelPos {
        x: (pos.x + octant_x(k) * (range / 2)) as u32,
        y: (pos.y + octant_y(k) * (range / 2)) as u32,
        z: (pos.z + octant_z(k) * (range / 2)) as u32,
    }
}

/// Eight empty child slots.
pub open spec fn empty_slots() -> Seq<Option<Voxel>> {
    Seq::new(8, |k: int| None)
}

/// Material of slot `k`; an empty slot counts as the default material.
pub open spec fn slot_material(kids: Seq<Option<Voxel>>, k: int) -> Material {
    match kids[k] {
        Some(c) => c.material,
        None => default_material(),
    }
}

/// Children of slot `k`; an empty slot has none.
pub open spec fn slot_children(kids: Seq<Option<Voxel>>, k: int) -> Seq<Option<Voxel>> {
    match kids[k] {
        Some(c) => c.children@,
        None => empty_slots(),
    }
}

/// Volume of a cube with edge `r`.
pub open spec fn volume(r: int) -> int {
    r * r * r
}

/// The weights that averaging gives the eight slots of `v`: each slot weighs the
/// volume of an octant, and an empty slot brings the default material.
pub open spec fn slot_weights(v: Voxel) -> Seq<MaterialWeight> {
    Seq::new(
        8,
        |k: int|
            MaterialWeight {
                material: slot_material(v.children@, k),
                weight: volume(v.range as int / 2) as u64,
            },
    )
}

/// Result of painting `m` over region `r` with leaf level `depth` into a node at
/// level `d`, whose cube is at `pos` with edge `range`, whose material was
/// `old_mat` and whose child slots were `old_kids`: `new` is the node after.
pub open spec fn painted(
    old_mat: Material,
    old_kids: Seq<Option<Voxel>>,
    pos: VoxelPos,
    range: int,
    new: Voxel,
    r: Region,
    m: Material,
    depth: int,
    d: int,
) -> bool
    decreases depth - d,
{
    &&& new.pos == pos
    &&& new.range == range
    &&& new.children@.len() == 8
    &&& if d >= depth || r.contains_cube(pos.x as int, pos.y as int, pos.z as int, range) {
        &&& new.material == m
        &&& new.is_leaf()
    } else {
        &&& new.material == old_mat
        &&& forall|k: int|
            0 <= k < 8 ==> {
                let cp = child_pos(pos, range, k);
                if r.overlaps_cube(cp.x as int, cp.y as int, cp.z as int, range / 2) {
                    &&& #[trigger] new.children@[k] is Some
                    &&& painted(
                        slot_material(old_kids, k),
                        slot_children(old_kids, k),
                        cp,
                        range / 2,
                        new.children@[k]->Some_0,
                        r,
                        m,
                        depth,
                        d + 1,
                    )
                } else {
                    new.children@[k] == old_kids[k]
                }
            }
    }
}

impl Voxel {
    /// Well-formed node at level `d`: edge `size_at(d)`, inside the chunk, eight
    /// slots, and every child the matching octant, well formed one level down.
    pub open spec fn wf_at(self, d: int) -> bool
        decreases self,
    {
        &&& 0 <= d <= 16
        &&& self.range == size_at(d)
        &&& self.pos.x + self.range <= 65536
        &&& self.pos.y + self.range <= 65536
        &&& self.pos.z + self.range <= 65536
        &&& self.children@.len() == 8
        &&& forall|k: int|
            0 <= k < 8 ==> match #[trigger] self.children@[k] {
                Some(c) => c.pos == child_pos(self.pos, self.range as int, k) && c.wf_at(d + 1),
                None => true,
            }
    }

    /// Well formed at some level.
    pub open spec fn is_wf(self) -> bool {
        exists|d: int| self.wf_at(d)
    }

    /// No child slot is filled.
    pub open spec fn is_leaf(self) -> bool {
        forall|k: int| 0 <= k < self.children@.len() ==> #[trigger] self.children@[k] is None
    }

    /// Same cubes and same child layout, and every true leaf keeps its material:
    /// what averaging leaves untouched.
    pub open spec fn same_leaves(self, other: Voxel) -> bool
        decreases self,
    {
        &&& self.pos == other.pos
        &&& self.range == other.range
        &&& self.children@.len() == other.children@.len()
        &&& self.is_leaf() ==> self.material == other.material
        &&& forall|k: int|
            0 <= k < self.children@.len() ==> match #[trigger] self.children@[k] {
                Some(c) => other.children@[k] is Some && c.same_leaves(
                    other.children@[k]->Some_0,
                ),
                None => other.children@[k] is None,
            }
    }

    /// Every internal node holds the volume-weighted blend of its slots.
    pub open spec fn averaged(self) -> bool
        decreases self,
    {
        &&& !self.is_leaf() ==> is_blend_of(self.material, slot_weights(self))
        &&& forall|k: int|
            0 <= k < self.children@.len() ==> match #[trigger] self.children@[k] {
                Some(c) => c.averaged(),
                None => true,
            }
    }
}

/// Eight empty child slots.
fn empty_children() -> (r: Vec<Option<Voxel>>)
    ensures
        r@ == empty_slots(),
{
    let mut r: Vec<Option<Voxel>> = Vec::new();
    let mut i: usize = 0;
    while i < 8
        invariant
            i <= 8,
            r@.len() == i,
            forall|k: int| 0 <= k < i ==> #[trigger] r@[k] is None,
        decreases 8 - i,
    {
        r.push(None);
        i = i + 1;
    }
    assert(r@ =~= empty_slots());
    r
}

impl Voxel {
    /// A leaf with the default material.
    fn new_empty(pos: VoxelPos, range: u32) -> (r: Voxel)
        ensures
            r.pos == pos,
            r.range == range,
            r.material == default_material(),
            r.children@ == empty_slots(),
    {
        Voxel { pos, range, material: Material::new_default(), children: empty_children() }
    }

    /// Whether no child slot is filled.
    fn has_no_children(&self) -> (r: bool)
        ensures
            r == self.is_leaf(),
    {
        let mut i: usize = 0;
        while i < self.children.len()
            invariant
                i <= self.children@.len(),
                forall|k: int| 0 <= k < i ==> #[trigger] self.children@[k] is None,
            decreases self.children@.len() - i,
        {
            if self.children[i].is_some() {
                return false;
            }
            i = i + 1;
        }
        true
    }

    /// Paints `material` over `fill_range`, subdividing down to level `depth`.
    /// A node at level `depth`, or whose cube lies inside the region, takes the
    /// material and drops its children; otherwise every octant that meets the
    /// region is created if missing and painted in turn.
    fn traverse_and_color(
        &mut self,
        depth: u32,
        current_depth: u32,
        fill_range: Region,
        material: Material,
    )
        requires
            old(self).wf_at(current_depth as int),
            current_depth <= depth <= 16,
        ensures
            final(self).wf_at(current_depth as int),
            painted(
                old(self).material,
                old(self).children@,
                old(self).pos,
                old(self).range as int,
                *final(self),
                fill_range,
                material,
                depth as int,
                current_depth as int,
            ),
        decreases depth - current_depth,
    {
        let ghost d = current_depth as int;
        let ghost old_kids = self.children@;
        let ghost old_mat = self.material;
        proof {
            lemma_size_at(d);
        }
        let x_cube = Interval { low: self.pos.x, high: self.pos.x + self.range };
        let y_cube = Interval { low: self.pos.y, high: self.pos.y + self.range };
        let z_cube = Interval { low: self.pos.z, high: self.pos.z + self.range };
        if depth == current_depth || (interval_contains(x_cube, fill_range.x) && interval_contains(
            y_cube,
            fill_range.y,
        ) && interval_contains(z_cube, fill_range.z)) {
            self.material = material;
            self.children = empty_children();
            return;
        }
        let size = self.range / 2;
        proof {
            lemma_size_at(d + 1);
        }
        let mut i: usize = 0;
        while i < 8
            invariant
                0 <= d < depth <= 16,
                current_depth == d,
                i <= 8,
                size == size_at(d + 1),
                self.range == size_at(d),
                size * 2 == self.range,
                self.pos == old(self).pos,
                self.range == old(self).range,
                self.material == old_mat,
                self.pos.x + self.range <= 65536,
                self.pos.y + self.range <= 65536,
                self.pos.z + self.range <= 65536,
                self.children@.len() == 8,
                old_kids.len() == 8,
                !(fill_range.contains_cube(
                    self.pos.x as int,
                    self.pos.y as int,
                    self.pos.z as int,
                    self.range as int,
                )),
                forall|k: int|
                    0 <= k < 8 ==> match #[trigger] old_kids[k] {
                        Some(c) => c.pos == child_pos(self.pos, self.range as int, k) && c.wf_at(
                            d + 1,
                        ),
                        None => true,
                    },
                forall|k: int|
                    i <= k < 8 ==> #[trigger] self.children@[k] == old_kids[k],
                forall|k: int|
                    0 <= k < i ==> match #[trigger] self.children@[k] {
                        Some(c) => c.pos == child_pos(self.pos, self.range as int, k) && c.wf_at(
                            d + 1,
                        ),
                        None => true,
                    },
                forall|k: int|
                    0 <= k < i ==> {
                        let cp = child_pos(self.pos, self.range as int, k);
                        if fill_range.overlaps_cube(
                            cp.x as int,
                            cp.y as int,
                            cp.z as int,
                            self.range as int / 2,
                        ) {
                            &&& #[trigger] self.children@[k] is Some
                            &&& painted(
                                slot_material(old_kids, k),
                                slot_children(old_kids, k),
                                cp,
                                self.range as int / 2,
                                self.children@[k]->Some_0,
                                fill_range,
                                material,
                                depth as int,
                                d + 1,
                            )
                        } else {
                            self.children@[k] == old_kids[k]
                        }
                    },
            decreases 8 - i,
        {
            let slot = fill_slot(i % 2, i / 4, (i / 2) % 2);
            assert(slot == i);
            let ox = (i % 2) as u32;
            let oz = ((i / 2) % 2) as u32;
            let oy = (i / 4) as u32;
            assert(ox * size <= size && oy * size <= size && oz * size <= size) by (nonlinear_arith)
                requires
                    ox <= 1,
                    oy <= 1,
                    oz <= 1,
            ;
            let cpos = VoxelPos {
                x: self.pos.x + ox * size,
                y: self.pos.y + oy * size,
                z: self.pos.z + oz * size,
            };
            assert(cpos == child_pos(self.pos, self.range as int, i as int));
            if interval_overlaps(fill_range.x, Interval { low: cpos.x, high: cpos.x + size })
                && interval_overlaps(fill_range.y, Interval { low: cpos.y, high: cpos.y + size })
                && interval_overlaps(fill_range.z, Interval { low: cpos.z, high: cpos.z + size }) {
                let mut taken: Option<Voxel> = None;
                std::mem::swap(&mut taken, &mut self.children[slot]);
                let mut child = match taken {
                    Some(c) => c,
                    None => Voxel::new_empty(cpos, size),
                };
                assert(child.material == slot_material(old_kids, i as int));
                assert(child.children@ == slot_children(old_kids, i as int));
                child.traverse_and_color(depth, current_depth + 1, fill_range, material);
                self.children.set(slot, Some(child));
            }
            i = i + 1;
        }
        assert(final(self).wf_at(d));
    }
}


pub proof fn lemma_same_leaves_refl(v: Voxel)
    ensures
        v.same_leaves(v),
    decreases v,
{
    assert forall|k: int| 0 <= k < v.children@.len() implies match #[trigger] v.children@[k] {
        Some(c) => v.children@[k] is Some && c.same_leaves(v.children@[k]->Some_0),
        None => v.children@[k] is None,
    } by {
        if let Some(c) = v.children@[k] {
            lemma_same_leaves_refl(c);
        }
    }
}

impl Voxel {
    /// Recomputes, bottom-up, the material of every internal node as the
    /// volume-weighted blend of its eight slots (an empty slot weighs one
    /// octant and brings the default material). Returns the node's material
    /// with its volume.
    fn recursive_color_calculator(&mut self, Ghost(d): Ghost<int>) -> (r: MaterialWeight)
        requires
            old(self).wf_at(d),
        ensures
            final(self).wf_at(d),
            old(self).same_leaves(*final(self)),
            final(self).averaged(),
            r.material == final(self).material,
            r.weight == volume(old(self).range as int),
        decreases 16 - d,
    {
        let ghost old_kids = self.children@;
        proof {
            lemma_size_at(d);
        }
        let x_length = interval_length(Interval { low: self.pos.x, high: self.pos.x + self.range }) as u64;
        let y_length = interval_length(Interval { low: self.pos.y, high: self.pos.y + self.range }) as u64;
        let z_length = interval_length(Interval { low: self.pos.z, high: self.pos.z + self.range }) as u64;
        assert(x_length * y_length <= 65536 * 65536 && x_length * y_length * z_length <= 65536
            * 65536 * 65536) by (nonlinear_arith)
            requires
                x_length <= 65536,
                y_length <= 65536,
                z_length <= 65536,
        ;
        let full = x_length * y_length * z_length;
        if self.has_no_children() {
            proof {
                lemma_same_leaves_refl(*self);
            }
            return MaterialWeight { material: self.material, weight: full };
        }
        proof {
            let k = choose|k: int| 0 <= k < self.children@.len() && !(self.children@[k] is None);
            assert(self.children@[k] matches Some(c) && c.wf_at(d + 1));
            lemma_size_at(d + 1);
        }
        let half = x_length / 2;
        assert(half * half <= 65536 * 65536 && half * half * half <= 65536 * 65536 * 65536)
            by (nonlinear_arith)
            requires
                half <= 65536,
        ;
        let empty_weight = (x_length / 2) * (y_length / 2) * (z_length / 2);
        let mut weights: Vec<MaterialWeight> = Vec::new();
        let mut i: usize = 0;
        while i < 8
            invariant
                0 <= d < 16,
                i <= 8,
                self.pos == old(self).pos,
                self.range == old(self).range,
                self.range == size_at(d),
                size_at(d) == 2 * size_at(d + 1),
                self.material == old(self).material,
                self.children@.len() == 8,
                old_kids == old(self).children@,
                old_kids.len() == 8,
                empty_weight == volume(self.range as int / 2),
                weights@.len() == i,
                forall|k: int|
                    0 <= k < 8 ==> match #[trigger] old_kids[k] {
                        Some(c) => c.pos == child_pos(self.pos, self.range as int, k) && c.wf_at(
                            d + 1,
                        ),
                        None => true,
                    },
                forall|k: int| i <= k < 8 ==> #[trigger] self.children@[k] == old_kids[k],
                forall|k: int|
                    0 <= k < i ==> match #[trigger] self.children@[k] {
                        Some(c) => {
                            &&& c.pos == child_pos(self.pos, self.range as int, k)
                            &&& c.wf_at(d + 1)
                            &&& c.averaged()
                            &&& old_kids[k] is Some
                            &&& old_kids[k]->Some_0.same_leaves(c)
                        },
                        None => old_kids[k] is None,
                    },
                forall|k: int|
                    0 <= k < i ==> #[trigger] weights@[k] == (MaterialWeight {
                        material: slot_material(self.children@, k),
                        weight: volume(self.range as int / 2) as u64,
                    }),
            decreases 8 - i,
        {
            if self.children[i].is_some() {
                let mut slot: Option<Voxel> = None;
                std::mem::swap(&mut slot, &mut self.children[i]);
                let mut child = slot.unwrap();
                let cw = child.recursive_color_calculator(Ghost(d + 1));
                self.children.set(i, Some(child));
                weights.push(cw);
            } else {
                weights.push(MaterialWeight { material: Material::new_default(), weight: empty_weight });
            }
            i = i + 1;
        }
        let ghost sw = slot_weights(*self);
        assert(weights@ =~= sw);
        proof {
            lemma_weight_total_uniform(sw, volume(self.range as int / 2));
            assert(volume(self.range as int / 2) >= 1) by (nonlinear_arith)
                requires
                    self.range as int / 2 >= 1,
            ;
        }
        self.material = blend(&weights);
        assert(slot_weights(*self) == sw);
        assert(!old(self).is_leaf());
        MaterialWeight { material: self.material, weight: full }
    }
}


/// One record of the flattened tree. `pos` and `range` give the node's cube;
/// a leaf has the index of its material in the palette and every child field
/// `u32::MAX`; an internal node has `material_index == u32::MAX` and, for each
/// slot, the index of the child's record or `u32::MAX` where the slot is empty.
/// Child field `_h_n_index` belongs to slot `n + 4 * h`.
#[derive(Clone, Copy, Debug, PartialEq, Eq, Structural)]
pub struct VoxelData {
    pub pos: VoxelPos,
    pub range: u32,
    pub material_index: u32,
    pub _0_0_index: u32,
    pub _0_1_index: u32,
    pub _0_2_index: u32,
    pub _0_3_index: u32,
    pub _1_0_index: u32,
    pub _1_1_index: u32,
    pub _1_2_index: u32,
    pub _1_3_index: u32,
}

/// Index that marks an empty child field and an internal node's material.
pub const ABSENT: u32 = 0xffff_ffff;

impl VoxelData {
    /// Child field `k` (slot `k`), for `0 <= k < 8`.
    pub open spec fn child_index(self, k: int) -> u32 {
        if k == 0 {
            self._0_0_index
        } else if k == 1 {
            self._0_1_index
        } else if k == 2 {
            self._0_2_index
        } else if k == 3 {
            self._0_3_index
        } else if k == 4 {
            self._1_0_index
        } else if k == 5 {
            self._1_1_index
        } else if k == 6 {
            self._1_2_index
        } else {
            self._1_3_index
        }
    }
}

/// Whether flattening treats `v` as a leaf when one screen pixel covers `px`
/// world units: the node is no larger than a pixel, or has no children.
pub open spec fn collapsed(v: Voxel, px: int) -> bool {
    px >= v.range || v.is_leaf()
}

/// Materials of the leaves under `v`, depth first, slots in order 0 to 7.
pub open spec fn leaf_materials(v: Voxel, px: int) -> Seq<Material>
    decreases v, 9int,
{
    if collapsed(v, px) {
        seq![v.material]
    } else {
        kids_leaf_materials(v, px, 8)
    }
}

/// Leaf materials under the first `n` slots of `v`.
pub open spec fn kids_leaf_materials(v: Voxel, px: int, n: int) -> Seq<Material>
    decreases v, n,
{
    if n <= 0 || n > v.children@.len() {
        seq![]
    } else {
        kids_leaf_materials(v, px, n - 1) + match v.children@[n - 1] {
            Some(c) => leaf_materials(c, px),
            None => seq![],
        }
    }
}

/// Number of records that flattening emits for `v`.
pub open spec fn node_count(v: Voxel, px: int) -> int
    decreases v, 9int,
{
    if collapsed(v, px) {
        1
    } else {
        kids_count(v, px, 8) + 1
    }
}

/// Records emitted for the first `n` slots of `v`.
pub open spec fn kids_count(v: Voxel, px: int, n: int) -> int
    decreases v, n,
{
    if n <= 0 || n > v.children@.len() {
        0
    } else {
        kids_count(v, px, n - 1) + match v.children@[n - 1] {
            Some(c) => node_count(c, px),
            None => 0,
        }
    }
}

/// `acc` followed by each material of `s` that is not already present, in
/// order of first appearance.
pub open spec fn add_unique(acc: Seq<Material>, s: Seq<Material>) -> Seq<Material>
    decreases s.len(),
{
    if s.len() == 0 {
        acc
    } else {
        let p = add_unique(acc, s.drop_last());
        if p.contains(s.last()) {
            p
        } else {
            p.push(s.last())
        }
    }
}

/// Position of the first `m` in `pal`, or `pal.len()` where there is none.
pub open spec fn first_index(pal: Seq<Material>, m: Material) -> int
    decreases pal.len(),
{
    if pal.len() == 0 {
        0
    } else if pal[0] == m {
        0
    } else {
        1 + first_index(pal.drop_first(), m)
    }
}

/// The record of a node flattened as a leaf.
pub open spec fn leaf_record(v: Voxel, pal: Seq<Material>) -> VoxelData {
    VoxelData {
        pos: v.pos,
        range: v.range,
        material_index: first_index(pal, v.material) as u32,
        _0_0_index: ABSENT,
        _0_1_index: ABSENT,
        _0_2_index: ABSENT,
        _0_3_index: ABSENT,
        _1_0_index: ABSENT,
        _1_1_index: ABSENT,
        _1_2_index: ABSENT,
        _1_3_index: ABSENT,
    }
}

/// The records of `v`, children before parents, when the first of them lands
/// at index `off` of the array; leaves point into `pal`.
pub open spec fn flat(v: Voxel, px: int, off: int, pal: Seq<Material>) -> Seq<VoxelData>
    decreases v, 11int,
{
    if collapsed(v, px) {
        seq![leaf_record(v, pal)]
    } else {
        kids_flat(v, px, off, pal, 8).push(internal_record(v, px, off, pal))
    }
}

/// The records of the first `n` slots of `v`, starting at index `off`.
pub open spec fn kids_flat(v: Voxel, px: int, off: int, pal: Seq<Material>, n: int) -> Seq<
    VoxelData,
>
    decreases v, n,
{
    if n <= 0 || n > v.children@.len() {
        seq![]
    } else {
        let p = kids_flat(v, px, off, pal, n - 1);
        p + match v.children@[n - 1] {
            Some(c) => flat(c, px, off + p.len(), pal),
            None => seq![],
        }
    }
}

/// Index of the record of slot `k`'s child, or `ABSENT` for an empty slot.
pub open spec fn slot_record_index(v: Voxel, px: int, off: int, pal: Seq<Material>, k: int) -> u32
    decreases v, 9int,
{
    if 0 <= k < 8 && k < v.children@.len() && v.children@[k] is Some {
        (off + kids_flat(v, px, off, pal, k + 1).len() - 1) as u32
    } else {
        ABSENT
    }
}

/// The record of an internal node, pointing at its children's records.
pub open spec fn internal_record(v: Voxel, px: int, off: int, pal: Seq<Material>) -> VoxelData
    decreases v, 10int,
{
    VoxelData {
        pos: v.pos,
        range: v.range,
        material_index: ABSENT,
        _0_0_index: slot_record_index(v, px, off, pal, 0),
        _0_1_index: slot_record_index(v, px, off, pal, 1),
        _0_2_index: slot_record_index(v, px, off, pal, 2),
        _0_3_index: slot_record_index(v, px, off, pal, 3),
        _1_0_index: slot_record_index(v, px, off, pal, 4),
        _1_1_index: slot_record_index(v, px, off, pal, 5),
        _1_2_index: slot_record_index(v, px, off, pal, 6),
        _1_3_index: slot_record_index(v, px, off, pal, 7),
    }
}


pub proof fn lemma_flat_len(v: Voxel, px: int, off: int, pal: Seq<Material>)
    ensures
        flat(v, px, off, pal).len() == node_count(v, px),
    decreases v, 11int,
{
    if !collapsed(v, px) {
        lemma_kids_flat_len(v, px, off, pal, 8);
    }
}

pub proof fn lemma_kids_flat_len(v: Voxel, px: int, off: int, pal: Seq<Material>, n: int)
    ensures
        kids_flat(v, px, off, pal, n).len() == kids_count(v, px, n),
        kids_count(v, px, n) >= 0,
    decreases v, n,
{
    if !(n <= 0 || n > v.children@.len()) {
        lemma_kids_flat_len(v, px, off, pal, n - 1);
        let p = kids_flat(v, px, off, pal, n - 1);
        if let Some(c) = v.children@[n - 1] {
            lemma_flat_len(c, px, off + p.len(), pal);
        }
    }
}

pub proof fn lemma_leaf_materials_len(v: Voxel, px: int)
    ensures
        leaf_materials(v, px).len() <= node_count(v, px),
    decreases v, 9int,
{
    if !collapsed(v, px) {
        lemma_kids_leaf_materials_len(v, px, 8);
    }
}

proof fn lemma_kids_leaf_materials_len(v: Voxel, px: int, n: int)
    ensures
        kids_leaf_materials(v, px, n).len() <= kids_count(v, px, n),
    decreases v, n,
{
    if !(n <= 0 || n > v.children@.len()) {
        lemma_kids_leaf_materials_len(v, px, n - 1);
        if let Some(c) = v.children@[n - 1] {
            lemma_leaf_materials_len(c, px);
        }
    }
}

pub proof fn lemma_add_unique_concat(acc: Seq<Material>, a: Seq<Material>, b: Seq<Material>)
    ensures
        add_unique(acc, a + b) == add_unique(add_unique(acc, a), b),
    decreases b.len(),
{
    if b.len() == 0 {
        assert(a + b =~= a);
    } else {
        assert((a + b).drop_last() =~= a + b.drop_last());
        lemma_add_unique_concat(acc, a, b.drop_last());
    }
}

pub proof fn lemma_add_unique_len(acc: Seq<Material>, s: Seq<Material>)
    ensures
        add_unique(acc, s).len() <= acc.len() + s.len(),
    decreases s.len(),
{
    if s.len() > 0 {
        lemma_add_unique_len(acc, s.drop_last());
    }
}

proof fn lemma_first_index(pal: Seq<Material>, m: Material, j: int)
    requires
        0 <= j <= pal.len(),
        forall|k: int| 0 <= k < j ==> pal[k] != m,
        j == pal.len() || pal[j] == m,
    ensures
        first_index(pal, m) == j,
    decreases j,
{
    if j > 0 {
        let t = pal.drop_first();
        assert forall|k: int| 0 <= k < j - 1 implies t[k] != m by {
            assert(t[k] == pal[k + 1]);
        }
        if j - 1 < t.len() {
            assert(t[j - 1] == pal[j]);
        }
        lemma_first_index(t, m, j - 1);
        assert(pal[0] != m);
    }
}

impl Voxel {
    /// Position of this node's material in `leaf_node_materials` (its length
    /// where the material is absent).
    fn material_index_from_leaf_node_material_list(
        &self,
        leaf_node_materials: &Vec<Material>,
    ) -> (r: u32)
        requires
            leaf_node_materials@.len() < ABSENT,
        ensures
            r == first_index(leaf_node_materials@, self.material),
    {
        let mut leaf_material_index: u32 = 0;
        let mut j: usize = 0;
        while j < leaf_node_materials.len()
            invariant
                j <= leaf_node_materials@.len() < ABSENT,
                leaf_material_index == j,
                forall|k: int| 0 <= k < j ==> leaf_node_materials@[k] != self.material,
            decreases leaf_node_materials@.len() - j,
        {
            if leaf_node_materials[j] == self.material {
                proof {
                    lemma_first_index(leaf_node_materials@, self.material, j as int);
                }
                return leaf_material_index;
            }
            leaf_material_index = leaf_material_index + 1;
            j = j + 1;
        }
        proof {
            lemma_first_index(leaf_node_materials@, self.material, j as int);
        }
        leaf_material_index
    }

    /// Whether one screen pixel covers at least this node's edge length.
    fn is_too_far_away(&self, pixel_size: u32) -> (r: bool)
        ensures
            r == (pixel_size >= self.range),
    {
        pixel_size >= self.range
    }

    /// Whether flattening treats this node as a leaf.
    fn is_leaf_node(&self, pixel_size: u32) -> (r: bool)
        ensures
            r == collapsed(*self, pixel_size as int),
    {
        if self.is_too_far_away(pixel_size) {
            return true;
        }
        self.has_no_children()
    }

    /// Adds the materials of the leaves under this node to `material_list`,
    /// skipping those already present.
    fn append_leaf_materials(
        &self,
        material_list: &mut Vec<Material>,
        pixel_size: u32,
        Ghost(d): Ghost<int>,
    )
        requires
            self.wf_at(d),
        ensures
            final(material_list)@ == add_unique(
                old(material_list)@,
                leaf_materials(*self, pixel_size as int),
            ),
        decreases self,
    {
        let ghost px = pixel_size as int;
        if self.is_leaf_node(pixel_size) {
            let mut found = false;
            let mut j: usize = 0;
            while j < material_list.len()
                invariant
                    j <= material_list@.len(),
                    found == exists|k: int| 0 <= k < j && material_list@[k] == self.material,
                decreases material_list@.len() - j,
            {
                if material_list[j] == self.material {
                    found = true;
                }
                j = j + 1;
            }
            proof {
                let s = seq![self.material];
                assert(leaf_materials(*self, px) == s);
                assert(s.drop_last() =~= Seq::<Material>::empty());
                assert(add_unique(material_list@, s.drop_last()) == material_list@);
                assert(s.last() == self.material);
                if found {
                    let k = choose|k: int| 0 <= k < j && material_list@[k] == self.material;
                    assert(material_list@.contains(self.material));
                } else {
                    assert(!material_list@.contains(self.material));
                }
            }
            if !found {
                material_list.push(self.material);
            }
            return;
        }
        let ghost start = material_list@;
        let mut i: usize = 0;
        while i < 8
            invariant
                i <= 8,
                self.wf_at(d),
                !collapsed(*self, px),
                px == pixel_size as int,
                material_list@ == add_unique(start, kids_leaf_materials(*self, px, i as int)),
            decreases self.children@.len() - i,
        {
            let ghost before = kids_leaf_materials(*self, px, i as int);
            match &self.children[i] {
                Some(c) => {
                    assert(self.children@[i as int] == Some(*c));
                    c.append_leaf_materials(material_list, pixel_size, Ghost(d + 1));
                    proof {
                        lemma_add_unique_concat(start, before, leaf_materials(*c, px));
                        assert(kids_leaf_materials(*self, px, i + 1) == before + leaf_materials(
                            *c,
                            px,
                        ));
                    }
                },
                None => {
                    assert(before + Seq::<Material>::empty() =~= before);
                    assert(kids_leaf_materials(*self, px, i + 1) == before + Seq::<Material>::empty());
                },
            }
            i = i + 1;
        }
    }

    /// The palette of this subtree: the distinct leaf materials in order of
    /// first appearance.
    pub fn get_leaf_material_data(&self, pixel_size: u32) -> (r: Vec<Material>)
        requires
            self.is_wf(),
        ensures
            r@ == add_unique(seq![], leaf_materials(*self, pixel_size as int)),
    {
        let ghost d = choose|d: int| self.wf_at(d);
        let mut leaf_materials: Vec<Material> = Vec::new();
        self.append_leaf_materials(&mut leaf_materials, pixel_size, Ghost(d));
        assert(Seq::<Material>::empty() =~= seq![]);
        leaf_materials
    }
}


pub proof fn lemma_kids_count_mono(v: Voxel, px: int, i: int, j: int)
    requires
        0 <= i <= j <= 8,
        v.children@.len() == 8,
    ensures
        0 <= kids_count(v, px, i) <= kids_count(v, px, j),
    decreases j,
{
    if i < j {
        lemma_kids_count_mono(v, px, i, j - 1);
        if let Some(c) = v.children@[j - 1] {
            lemma_node_count_pos(c, px);
        }
    } else {
        lemma_kids_flat_len(v, px, 0, seq![], i);
    }
}

pub proof fn lemma_node_count_pos(v: Voxel, px: int)
    ensures
        node_count(v, px) >= 1,
{
    if !collapsed(v, px) {
        lemma_kids_flat_len(v, px, 0, seq![], 8);
    }
}

/// Slot that flattening visits as the `node_in_height`-th node of height
/// `height`; heights are visited in order, four nodes each.
pub fn record_slot(height: usize, node_in_height: usize) -> (r: usize)
    requires
        height < 2,
        node_in_height < 4,
    ensures
        r == node_in_height + height * 4,
{
    node_in_height + height * 4
}

/// Slot of the octant with offsets `x`, `y`, `z` when painting.
pub fn fill_slot(x: usize, y: usize, z: usize) -> (r: usize)
    requires
        x < 2,
        y < 2,
        z < 2,
    ensures
        r == x + z * 2 + y * 4,
        octant_x(r as int) == x,
        octant_y(r as int) == y,
        octant_z(r as int) == z,
{
    x + z * 2 + y * 4
}

impl Voxel {
    /// The records of this subtree, children before parents, the first of
    /// them landing at index `current_vec_len` of the whole array; slots are
    /// visited height by height, four per height (slot `n + 4 * h`).
    fn traverse_and_append(
        &self,
        pixel_size: u32,
        current_vec_len: u32,
        leaf_node_materials: &Vec<Material>,
        Ghost(d): Ghost<int>,
    ) -> (r: Vec<VoxelData>)
        requires
            self.wf_at(d),
            current_vec_len + node_count(*self, pixel_size as int) <= ABSENT,
            leaf_node_materials@.len() < ABSENT,
        ensures
            r@ == flat(*self, pixel_size as int, current_vec_len as int, leaf_node_materials@),
        decreases self,
    {
        let ghost px = pixel_size as int;
        let ghost off = current_vec_len as int;
        let ghost pal = leaf_node_materials@;
        let leaf_material_index = self.material_index_from_leaf_node_material_list(
            leaf_node_materials,
        );
        if self.is_leaf_node(pixel_size) {
            let rec = VoxelData {
                pos: self.pos,
                range: self.range,
                material_index: leaf_material_index,
                _0_0_index: ABSENT,
                _0_1_index: ABSENT,
                _0_2_index: ABSENT,
                _0_3_index: ABSENT,
                _1_0_index: ABSENT,
                _1_1_index: ABSENT,
                _1_2_index: ABSENT,
                _1_3_index: ABSENT,
            };
            assert(rec == leaf_record(*self, pal));
            let r = vec![rec];
            assert(r@ =~= flat(*self, px, off, pal));
            return r;
        }
        let mut voxels: Vec<VoxelData> = Vec::new();
        let mut index_array: Vec<u32> = vec![ABSENT; 8];
        let mut i: usize = 0;
        while i < 8
            invariant
                i <= 8,
                self.wf_at(d),
                !collapsed(*self, px),
                px == pixel_size as int,
                off == current_vec_len as int,
                pal == leaf_node_materials@,
                pal.len() < ABSENT,
                off + node_count(*self, px) <= ABSENT,
                voxels@ == kids_flat(*self, px, off, pal, i as int),
                index_array@.len() == 8,
                forall|k: int|
                    0 <= k < i ==> #[trigger] index_array@[k] == slot_record_index(
                        *self,
                        px,
                        off,
                        pal,
                        k,
                    ),
                forall|k: int| i <= k < 8 ==> #[trigger] index_array@[k] == ABSENT,
            decreases 8 - i,
        {
            proof {
                lemma_kids_flat_len(*self, px, off, pal, i as int);
                lemma_kids_flat_len(*self, px, off, pal, i + 1);
                lemma_kids_count_mono(*self, px, i + 1, 8);
                lemma_kids_flat_len(*self, px, off, pal, 8);
            }
            let ghost before = voxels@;
            let slot = record_slot(i / 4, i % 4);
            match &self.children[slot] {
                Some(c) => {
                    assert(self.children@[i as int] == Some(*c));
                    proof {
                        lemma_flat_len(*c, px, off + before.len(), pal);
                    }
                    let mut data = c.traverse_and_append(
                        pixel_size,
                        voxels.len() as u32 + current_vec_len,
                        leaf_node_materials,
                        Ghost(d + 1),
                    );
                    voxels.append(&mut data);
                    assert(voxels@ =~= kids_flat(*self, px, off, pal, i + 1));
                    index_array.set(slot, voxels.len() as u32 - 1 + current_vec_len);
                },
                None => {
                    assert(voxels@ =~= kids_flat(*self, px, off, pal, i + 1));
                },
            }
            i = i + 1;
        }
        let rec = VoxelData {
            pos: self.pos,
            range: self.range,
            material_index: ABSENT,
            _0_0_index: index_array[0],
            _0_1_index: index_array[1],
            _0_2_index: index_array[2],
            _0_3_index: index_array[3],
            _1_0_index: index_array[4],
            _1_1_index: index_array[5],
            _1_2_index: index_array[6],
            _1_3_index: index_array[7],
        };
        assert(rec == internal_record(*self, px, off, pal));
        voxels.push(rec);
        voxels
    }
}


/// Largest number of records a flattened chunk may hold: the indices above it
/// are kept free for the `ABSENT` marker.
pub const MAX_RECORDS: u32 = 0xffff_fffd;

/// Position of a chunk on the world's chunk grid.
#[derive(Clone, Copy, Debug, PartialEq, Eq, Structural)]
pub struct GridPos {
    pub x: i128,
    pub y: i128,
}

/// A cube of `CHUNKSIZE` units holding one octree; `depth` is the number of
/// subdivision levels painting may reach.
pub struct Chunk {
    pub position: GridPos,
    pub depth: u32,
    pub start_voxel: Voxel,
}

/// `min(n, u64::MAX)`.
pub open spec fn saturated(n: int) -> int {
    if n > u64::MAX {
        u64::MAX as int
    } else {
        n
    }
}

fn saturating_sum(a: u64, b: u64) -> (r: u64)
    ensures
        r == saturated(a + b),
{
    if a > u64::MAX - b {
        u64::MAX
    } else {
        a + b
    }
}

impl Voxel {
    /// Number of records that flattening this subtree emits, saturated at
    /// `u64::MAX`.
    fn count_records(&self, pixel_size: u32, Ghost(d): Ghost<int>) -> (r: u64)
        requires
            self.wf_at(d),
        ensures
            r == saturated(node_count(*self, pixel_size as int)),
        decreases self,
    {
        let ghost px = pixel_size as int;
        if self.is_leaf_node(pixel_size) {
            return 1;
        }
        let mut total: u64 = 0;
        let mut i: usize = 0;
        while i < 8
            invariant
                i <= 8,
                self.wf_at(d),
                px == pixel_size as int,
                total == saturated(kids_count(*self, px, i as int)),
            decreases 8 - i,
        {
            proof {
                lemma_kids_count_mono(*self, px, i as int, i as int);
            }
            match &self.children[i] {
                Some(c) => {
                    assert(self.children@[i as int] == Some(*c));
                    let n = c.count_records(pixel_size, Ghost(d + 1));
                    proof {
                        lemma_node_count_pos(*c, px);
                    }
                    total = saturating_sum(total, n);
                },
                None => {},
            }
            i = i + 1;
        }
        proof {
            lemma_kids_count_mono(*self, px, 8, 8);
        }
        saturating_sum(total, 1)
    }
}

impl Chunk {
    /// The root spans the whole chunk, and the tree is well formed.
    pub open spec fn wf(self) -> bool {
        &&& self.depth <= 2 * CHUNKPOWER
        &&& self.start_voxel.wf_at(0)
        &&& self.start_voxel.pos == (VoxelPos { x: 0, y: 0, z: 0 })
    }

    /// An empty chunk: one default leaf covering the chunk.
    pub fn new(position: GridPos, depth: u32) -> (r: Chunk)
        requires
            depth <= 2 * CHUNKPOWER,
        ensures
            r.wf(),
            r.position == position,
            r.depth == depth,
            r.start_voxel.range == CHUNKSIZE,
            r.start_voxel.material == default_material(),
            r.start_voxel.is_leaf(),
    {
        proof {
            lemma_size_at_root();
        }
        let start_voxel = Voxel::new_empty(VoxelPos { x: 0, y: 0, z: 0 }, CHUNKSIZE);
        let r = Chunk { position, depth, start_voxel };
        assert(r.start_voxel.wf_at(0));
        r
    }

    /// Paints `material` over `fill_range` down to the chunk's depth, then
    /// recomputes the averaged materials of the internal nodes.
    pub fn fill_voxels(&mut self, fill_range: Region, material: Material)
        requires
            old(self).wf(),
        ensures
            final(self).wf(),
            final(self).position == old(self).position,
            final(self).depth == old(self).depth,
            final(self).start_voxel.averaged(),
            exists|t: Voxel|
                {
                    &&& painted(
                        old(self).start_voxel.material,
                        old(self).start_voxel.children@,
                        old(self).start_voxel.pos,
                        old(self).start_voxel.range as int,
                        t,
                        fill_range,
                        material,
                        old(self).depth as int,
                        0,
                    )
                    &&& t.same_leaves(final(self).start_voxel)
                },
    {
        self.start_voxel.traverse_and_color(self.depth, 0, fill_range, material);
        let ghost t = self.start_voxel;
        self.start_voxel.recursive_color_calculator(Ghost(0));
        assert(t.same_leaves(self.start_voxel));
    }

    /// Number of records `get_oct_tree` would emit (saturated at `u64::MAX`).
    pub fn record_count(&self, pixel_size: u32) -> (r: u64)
        requires
            self.wf(),
        ensures
            r == saturated(node_count(self.start_voxel, pixel_size as int)),
    {
        self.start_voxel.count_records(pixel_size, Ghost(0))
    }

    /// The flattened tree and its palette, for a view in which one screen pixel
    /// covers `pixel_size` world units: the palette holds the distinct leaf
    /// materials in order of first appearance, the records follow `flat`, and
    /// the root's record comes last.
    pub fn get_oct_tree(&self, pixel_size: u32) -> (r: (Vec<VoxelData>, Vec<Material>))
        requires
            self.wf(),
            node_count(self.start_voxel, pixel_size as int) <= MAX_RECORDS,
        ensures
            r.1@ == add_unique(seq![], leaf_materials(self.start_voxel, pixel_size as int)),
            r.0@ == flat(self.start_voxel, pixel_size as int, 0, r.1@),
    {
        let materials = self.start_voxel.get_leaf_material_data(pixel_size);
        proof {
            lemma_leaf_materials_len(self.start_voxel, pixel_size as int);
            lemma_add_unique_len(seq![], leaf_materials(self.start_voxel, pixel_size as int));
        }
        let records = self.start_voxel.traverse_and_append(pixel_size, 0, &materials, Ghost(0));
        (records, materials)
    }
}

} // verus!
