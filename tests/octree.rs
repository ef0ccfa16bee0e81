use artewald_engine_lib::geometry::{
    interval_contains, interval_length, interval_overlaps, Interval, Region, CHUNKSIZE,
};
use artewald_engine_lib::material::{Material, Rgb, Rgba, CHANNEL_ONE};
use artewald_engine_lib::scene_saver::{does_scene_exist, material_data_path, voxel_data_path};
use artewald_engine_lib::voxel::{
    fill_slot, record_slot, Chunk, GridPos, Voxel, VoxelData, VoxelPos, ABSENT,
};

fn iv(low: u32, high: u32) -> Interval {
    Interval { low, high }
}

fn cube(low: u32, high: u32) -> Region {
    Region { x: iv(low, high), y: iv(low, high), z: iv(low, high) }
}

fn red() -> Material {
    Material::new(
        Rgba { r: CHANNEL_ONE, g: 0, b: 0, a: CHANNEL_ONE },
        Rgb { r: 0, g: 0, b: 0 },
        0,
    )
}

fn glow() -> Material {
    Material::new(
        Rgba { r: 800, g: 1600, b: 2400, a: CHANNEL_ONE },
        Rgb { r: 8000, g: 0, b: 16 },
        10 * CHANNEL_ONE,
    )
}

fn origin_chunk(depth: u32) -> Chunk {
    Chunk::new(GridPos { x: 0, y: 0 }, depth)
}

fn child(v: &Voxel, k: usize) -> &Voxel {
    v.children[k].as_ref().unwrap()
}

fn slots_filled(v: &Voxel) -> Vec<usize> {
    (0..8).filter(|k| v.children[*k].is_some()).collect()
}

fn child_fields(r: &VoxelData) -> [u32; 8] {
    [
        r._0_0_index, r._0_1_index, r._0_2_index, r._0_3_index,
        r._1_0_index, r._1_1_index, r._1_2_index, r._1_3_index,
    ]
}

#[test]
fn interval_length_is_never_negative() {
    assert_eq!(interval_length(iv(3, 10)), 7);
    assert_eq!(interval_length(iv(10, 3)), 0);
    assert_eq!(interval_length(iv(5, 5)), 0);
}

#[test]
fn interval_contains_checks_both_ends() {
    assert!(interval_contains(iv(0, 128), iv(0, 128)));
    assert!(interval_contains(iv(10, 20), iv(0, 128)));
    assert!(!interval_contains(iv(0, 129), iv(0, 128)));
    assert!(!interval_contains(iv(0, 10), iv(1, 128)));
}

#[test]
fn interval_overlaps_is_half_open() {
    assert!(interval_overlaps(iv(0, 128), iv(127, 256)));
    assert!(!interval_overlaps(iv(0, 128), iv(128, 256)));
    assert!(!interval_overlaps(iv(128, 256), iv(0, 128)));
    assert!(interval_overlaps(iv(0, 65536), iv(10, 11)));
    assert!(!interval_overlaps(iv(5, 5), iv(0, 10)));
}

#[test]
fn new_chunk_is_one_default_leaf() {
    let c = origin_chunk(16);
    assert_eq!(c.depth, 16);
    assert_eq!(c.start_voxel.range, CHUNKSIZE);
    assert_eq!(c.start_voxel.pos, VoxelPos { x: 0, y: 0, z: 0 });
    assert_eq!(c.start_voxel.material, Material::new_default());
    assert!(slots_filled(&c.start_voxel).is_empty());
}

#[test]
fn default_material_is_opaque_black() {
    let m = Material::new_default();
    assert_eq!(m.color, Rgba { r: 0, g: 0, b: 0, a: CHANNEL_ONE });
    assert_eq!(m.emissive_color, Rgb { r: 0, g: 0, b: 0 });
    assert_eq!(m.emissive_strength, 0);
    assert_eq!(m.get_channel(3), CHANNEL_ONE);
    assert_eq!(glow().get_channel(7), 10 * CHANNEL_ONE);
}

#[test]
fn filling_whole_chunk_paints_root() {
    let mut c = origin_chunk(4);
    c.fill_voxels(cube(0, 65536), red());
    assert_eq!(c.start_voxel.material, red());
    assert!(slots_filled(&c.start_voxel).is_empty());
}

#[test]
fn small_region_at_depth_two_reaches_level_two() {
    // [0,128) on each axis lies in octant 0 of octant 0.
    let mut c = origin_chunk(2);
    c.fill_voxels(cube(0, 128), red());
    let root = &c.start_voxel;
    assert_eq!(slots_filled(root), vec![0]);
    let c0 = child(root, 0);
    assert_eq!(c0.range, 32768);
    assert_eq!(slots_filled(c0), vec![0]);
    let g = child(c0, 0);
    assert_eq!(g.range, 16384);
    assert_eq!(g.material, red());
    assert!(slots_filled(g).is_empty());
    // Each level blends one red slot with seven default slots.
    assert_eq!(c0.material.color.r, CHANNEL_ONE / 8);
    assert_eq!(root.material.color.r, CHANNEL_ONE / 64);
    assert_eq!(root.material.color.a, CHANNEL_ONE);
}

#[test]
fn octant_region_at_depth_two_makes_one_leaf() {
    // The region covers exactly octant 0 of the root.
    let mut c = origin_chunk(2);
    c.fill_voxels(cube(0, 32768), red());
    let root = &c.start_voxel;
    assert_eq!(slots_filled(root), vec![0]);
    let c0 = child(root, 0);
    assert_eq!(c0.material, red());
    assert!(slots_filled(c0).is_empty());
    assert_eq!(root.material.color.r, CHANNEL_ONE / 8);
    assert_eq!(root.material.color.g, 0);
    assert_eq!(root.material.color.a, CHANNEL_ONE);
}

#[test]
fn octant_numbering_is_x_then_z_then_y() {
    let mut c = origin_chunk(1);
    // x in the upper half, y and z in the lower half: slot 1.
    c.fill_voxels(Region { x: iv(32768, 65536), y: iv(0, 10), z: iv(0, 10) }, red());
    assert_eq!(slots_filled(&c.start_voxel), vec![1]);
    let mut c = origin_chunk(1);
    // z in the upper half: slot 2.
    c.fill_voxels(Region { x: iv(0, 10), y: iv(0, 10), z: iv(32768, 65536) }, red());
    assert_eq!(slots_filled(&c.start_voxel), vec![2]);
    assert_eq!(child(&c.start_voxel, 2).pos, VoxelPos { x: 0, y: 0, z: 32768 });
    let mut c = origin_chunk(1);
    // y in the upper half: slot 4.
    c.fill_voxels(Region { x: iv(0, 10), y: iv(32768, 65536), z: iv(0, 10) }, red());
    assert_eq!(slots_filled(&c.start_voxel), vec![4]);
    assert_eq!(child(&c.start_voxel, 4).pos, VoxelPos { x: 0, y: 32768, z: 0 });
}

#[test]
fn later_fill_overwrites_contained_nodes() {
    let mut c = origin_chunk(3);
    c.fill_voxels(cube(0, 100), glow());
    assert!(!slots_filled(&c.start_voxel).is_empty());
    c.fill_voxels(cube(0, 32768), red());
    let c0 = child(&c.start_voxel, 0);
    assert_eq!(c0.material, red());
    assert!(slots_filled(c0).is_empty());
}

#[test]
fn disjoint_fills_keep_each_other() {
    let mut c = origin_chunk(1);
    c.fill_voxels(cube(0, 32768), red());
    c.fill_voxels(cube(32768, 65536), glow());
    assert_eq!(slots_filled(&c.start_voxel), vec![0, 7]);
    assert_eq!(child(&c.start_voxel, 0).material, red());
    assert_eq!(child(&c.start_voxel, 7).material, glow());
}

#[test]
fn averaging_stays_between_slot_values() {
    let mut c = origin_chunk(1);
    c.fill_voxels(cube(0, 32768), glow());
    c.fill_voxels(cube(32768, 65536), glow());
    let m = c.start_voxel.material;
    // Two glowing slots and six default ones.
    assert_eq!(m.color.r, 800 * 2 / 8);
    assert_eq!(m.color.b, 2400 * 2 / 8);
    assert_eq!(m.emissive_color.r, 8000 * 2 / 8);
    assert_eq!(m.emissive_color.b, 16 * 2 / 8);
    assert_eq!(m.emissive_strength, 10 * CHANNEL_ONE * 2 / 8);
    assert!(m.color.g <= 1600);
    assert_eq!(m.color.a, CHANNEL_ONE);
}

#[test]
fn flattening_lists_children_before_parent() {
    let mut c = origin_chunk(1);
    c.fill_voxels(cube(0, 32768), red());
    c.fill_voxels(cube(32768, 65536), red());
    let (records, materials) = c.get_oct_tree(0);
    assert_eq!(materials, vec![red()]);
    assert_eq!(records.len(), 3);
    assert_eq!(records[0].pos, VoxelPos { x: 0, y: 0, z: 0 });
    assert_eq!(records[0].range, 32768);
    assert_eq!(records[0].material_index, 0);
    assert_eq!(child_fields(&records[0]), [ABSENT; 8]);
    assert_eq!(records[1].pos, VoxelPos { x: 32768, y: 32768, z: 32768 });
    assert_eq!(records[1].material_index, 0);
    let root = records[2];
    assert_eq!(root.range, CHUNKSIZE);
    assert_eq!(root.material_index, ABSENT);
    assert_eq!(child_fields(&root), [0, ABSENT, ABSENT, ABSENT, ABSENT, ABSENT, ABSENT, 1]);
}

#[test]
fn palette_keeps_first_appearance_order() {
    let mut c = origin_chunk(1);
    c.fill_voxels(Region { x: iv(0, 10), y: iv(32768, 65536), z: iv(0, 10) }, red());
    c.fill_voxels(cube(0, 10), glow());
    c.fill_voxels(cube(32768, 65536), red());
    let (records, materials) = c.get_oct_tree(0);
    // Slot 0 (glow) comes before slot 4 (red) and slot 7 (red).
    assert_eq!(materials, vec![glow(), red()]);
    let leaves: Vec<u32> = records.iter().filter(|r| r.material_index != ABSENT).map(|r| r.material_index).collect();
    assert_eq!(leaves, vec![0, 1, 1]);
}

#[test]
fn distant_camera_collapses_chunk() {
    let mut c = origin_chunk(3);
    c.fill_voxels(cube(0, 100), red());
    c.fill_voxels(cube(40000, 50000), glow());
    let (records, materials) = c.get_oct_tree(CHUNKSIZE);
    assert_eq!(records.len(), 1);
    assert_eq!(materials.len(), 1);
    assert_eq!(materials[0], c.start_voxel.material);
    assert_eq!(records[0].material_index, 0);
    assert_eq!(child_fields(&records[0]), [ABSENT; 8]);
    assert_eq!(c.record_count(CHUNKSIZE), 1);
}

#[test]
fn pixel_size_applies_to_every_node_alike() {
    // The level of detail uses one pixel size for the whole tree, so octants
    // far from the origin collapse exactly like those next to it.
    let mut c = origin_chunk(2);
    c.fill_voxels(cube(0, 100), red());
    c.fill_voxels(cube(60000, 65536), red());
    let (records, _) = c.get_oct_tree(32768);
    assert_eq!(records.len(), 3);
    assert_eq!(records[0].range, 32768);
    assert_eq!(records[1].range, 32768);
    assert_eq!(records[0].material_index, records[1].material_index);
    let (records, _) = c.get_oct_tree(16383);
    assert_eq!(records.len(), 5);
}

#[test]
fn records_point_to_earlier_records() {
    let mut c = origin_chunk(4);
    c.fill_voxels(cube(0, 5000), red());
    c.fill_voxels(Region { x: iv(30000, 40000), y: iv(0, 65536), z: iv(100, 200) }, glow());
    let (records, materials) = c.get_oct_tree(0);
    assert_eq!(records.len() as u64, c.record_count(0));
    for (i, r) in records.iter().enumerate() {
        for f in child_fields(r) {
            if f != ABSENT {
                assert!((f as usize) < i);
            }
        }
        if r.material_index != ABSENT {
            assert!((r.material_index as usize) < materials.len());
            assert_eq!(child_fields(r), [ABSENT; 8]);
        }
    }
    let last = records.last().unwrap();
    assert_eq!(last.range, CHUNKSIZE);
    assert_eq!(last.pos, VoxelPos { x: 0, y: 0, z: 0 });
}

fn leaves_in_order(v: &Voxel, out: &mut Vec<Material>) {
    if slots_filled(v).is_empty() {
        out.push(v.material);
        return;
    }
    for k in 0..8 {
        if let Some(c) = &v.children[k] {
            leaves_in_order(c, out);
        }
    }
}

#[test]
fn leaf_records_read_back_to_tree_leaves() {
    let mut c = origin_chunk(3);
    c.fill_voxels(cube(0, 9000), red());
    c.fill_voxels(Region { x: iv(20000, 40000), y: iv(5, 6), z: iv(0, 65536) }, glow());
    let (records, materials) = c.get_oct_tree(0);
    let read: Vec<Material> = records
        .iter()
        .filter(|r| r.material_index != ABSENT)
        .map(|r| materials[r.material_index as usize])
        .collect();
    let mut expected = Vec::new();
    leaves_in_order(&c.start_voxel, &mut expected);
    assert_eq!(read, expected);
    assert_eq!(c.start_voxel.get_leaf_material_data(0), materials);
}

#[test]
fn equal_materials_share_one_palette_entry() {
    let mut c = origin_chunk(2);
    c.fill_voxels(cube(0, 16384), red());
    c.fill_voxels(cube(49152, 65536), red());
    let (records, materials) = c.get_oct_tree(0);
    let reds: Vec<u32> = records
        .iter()
        .filter(|r| r.material_index != ABSENT && materials[r.material_index as usize] == red())
        .map(|r| r.material_index)
        .collect();
    assert_eq!(reds.len(), 2);
    assert_eq!(reds[0], reds[1]);
    assert_eq!(materials.iter().filter(|m| **m == red()).count(), 1);
}

#[test]
fn scene_paths_follow_layout() {
    assert_eq!(voxel_data_path("neon"), "scenes/neon_voxel_data.bin");
    assert_eq!(material_data_path("neon"), "scenes/neon_material_data.bin");
}

#[test]
fn missing_scene_does_not_exist() {
    assert!(!does_scene_exist("no_such_scene_here"));
}

#[test]
fn slot_numberings() {
    assert_eq!(fill_slot(1, 0, 0), 1);
    assert_eq!(fill_slot(0, 0, 1), 2);
    assert_eq!(fill_slot(0, 1, 0), 4);
    assert_eq!(fill_slot(1, 1, 1), 7);
    assert_eq!(record_slot(0, 3), 3);
    assert_eq!(record_slot(1, 0), 4);
    assert_eq!(record_slot(1, 3), 7);
}
