use std::collections::HashSet;

use my_magic_adventure::block::Block;
use my_magic_adventure::generation::{Biome, ColumnSample};
use my_magic_adventure::lod::{super_lod_data, super_lod_geometry, LodPlanner, SUPER_COLUMNS};
use my_magic_adventure::mesh::FaceDir;
use my_magic_adventure::streaming::{loading_progress, plan_chunks};

#[test]
fn first_plan_loads_the_centre_first() {
    let plan = plan_chunks(0, 0, 1, (i32::MIN, i32::MIN), &vec![], &vec![], false).unwrap();
    assert!(plan.unload.is_empty());
    assert!(plan.cancel.is_empty());
    assert_eq!(plan.load, vec![(0, 0), (-1, 0), (0, -1), (0, 1), (1, 0), (-1, -1)]);
    let plan = plan_chunks(0, 0, 1, (i32::MIN, i32::MIN), &vec![], &vec![], true).unwrap();
    assert_eq!(plan.load.len(), 9);
}

#[test]
fn nothing_to_do_when_settled() {
    let all: Vec<(i32, i32)> = (-1..=1).flat_map(|x| (-1..=1).map(move |z| (x, z))).collect();
    let (loaded, pending) = all.split_at(5);
    assert!(plan_chunks(0, 0, 1, (0, 0), &loaded.to_vec(), &pending.to_vec(), false).is_none());
    // a new chunk of the player re-plans even with everything covered
    let plan = plan_chunks(0, 0, 1, (1, 0), &loaded.to_vec(), &pending.to_vec(), false).unwrap();
    assert!(plan.load.is_empty());
}

#[test]
fn moving_drops_what_left_the_square() {
    let loaded = vec![(0, 0), (-1, 0), (5, 5)];
    let pending = vec![(-1, -1), (3, 0)];
    let plan = plan_chunks(1, 0, 1, (0, 0), &loaded, &pending, false).unwrap();
    assert_eq!(plan.unload, vec![(-1, 0), (5, 5)]);
    assert_eq!(plan.cancel, vec![(-1, -1), (3, 0)]);
    assert_eq!(plan.load, vec![(1, 0), (1, -1), (1, 1), (2, 0), (0, -1), (0, 1)]);
}

#[test]
fn loading_screen_progress() {
    let loaded = vec![(0, 0), (1, 1), (9, 9)];
    assert_eq!(loading_progress(0, 0, 1, &loaded, 0), (2, 9, false));
    let all: Vec<(i32, i32)> = (-1..=1).flat_map(|x| (-1..=1).map(move |z| (x, z))).collect();
    assert_eq!(loading_progress(0, 0, 1, &all, 0), (9, 9, true));
    assert_eq!(loading_progress(0, 0, 1, &all, 1), (9, 9, false));
}

#[test]
fn lod_square_leaves_out_detailed_supers() {
    let mut p = LodPlanner::new();
    let plan = p.plan(0, 0, 3, &vec![], &vec![]).unwrap();
    // radius 3 / 4 + 1 + 3 = 4 around super (0, 0): 81 supers, of which (0, 0)
    // (chunks 0..=3 on both axes) lies inside the detailed square -3..=3
    assert_eq!(p.needed.len(), 80);
    assert!(!p.needed.contains(&(0, 0)));
    assert_eq!(p.last_super, (0, 0));
    assert_eq!(plan.load, vec![((-1, 0), true), ((0, -1), true)]);
    // same super, nothing pending: nothing to do
    assert!(p.plan(1, 2, 3, &vec![], &vec![]).is_none());
    let mut q = LodPlanner::new();
    q.plan(2, 2, 8, &vec![], &vec![]);
    // detailed square -6..=10: supers -1..=1 on both axes lie inside it
    assert_eq!(q.needed.len(), 13 * 13 - 9);
    assert!(!q.needed.contains(&(1, 1)));
    assert!(q.needed.contains(&(2, 1)));
}

#[test]
fn lod_trees_only_near_the_player() {
    let mut p = LodPlanner::new();
    p.plan(0, 0, 3, &vec![], &vec![]);
    let skip = [(4, 0), (2, 0), (3, 3)];
    let loaded: Vec<(i32, i32)> = p.needed.iter().copied().filter(|c| !skip.contains(c)).collect();
    let plan = p.plan(0, 0, 3, &loaded, &vec![(3, 3)]).unwrap();
    assert!(plan.unload.is_empty() && plan.cancel.is_empty());
    assert_eq!(plan.load, vec![((2, 0), true), ((4, 0), false)]);
    // everything shown or pending: nothing starts
    let mut all = loaded.clone();
    all.push((2, 0));
    let plan = p.plan(0, 0, 3, &all, &vec![(3, 3), (4, 0)]).unwrap();
    assert!(plan.load.is_empty());
}

#[test]
fn lod_drops_supers_after_a_long_walk() {
    let mut p = LodPlanner::new();
    p.plan(0, 0, 3, &vec![], &vec![]);
    let plan = p.plan(400, 0, 3, &vec![(0, 0), (99, 0)], &vec![(1, 1)]).unwrap();
    assert_eq!(p.last_super, (100, 0));
    assert_eq!(plan.unload, vec![(0, 0)]);
    assert_eq!(plan.cancel, vec![(1, 1)]);
    assert_eq!(plan.load, vec![((100, -1), true), ((100, 1), true)]);
}

fn flat_columns(h: usize, biome: Biome) -> Vec<ColumnSample> {
    vec![ColumnSample { height: h, biome, ice: false, tree: false }; SUPER_COLUMNS]
}

#[test]
fn flat_super_chunk_geometry() {
    let data = super_lod_data(&flat_columns(10, Biome::Plains), 0, 0, true, None);
    assert_eq!(data.heightmap[5], (10, Block::Grass));
    assert!(data.trees.is_empty());
    let (faces, boxes) = super_lod_geometry(&data);
    assert!(boxes.is_empty());
    let tops = faces.iter().filter(|f| f.dir == FaceDir::Up).count();
    assert_eq!(tops, 4096);
    // border columns face a height of 0: a grass layer and a dirt wall
    let sides = faces.len() - tops;
    assert_eq!(sides, 4 * 64 * 2);
    let f = faces.iter().find(|f| f.dir == FaceDir::NegX).unwrap();
    assert_eq!((f.x, f.z, f.y_lo, f.y_hi), (0, 0, 10, 11));
    let w = faces.iter().find(|f| f.dir == FaceDir::NegX && f.y_hi == 10).unwrap();
    assert_eq!((w.y_lo, w.tile), (1, Block::Dirt.tile_side()));
}

#[test]
fn super_chunk_trees_and_cliffs() {
    let mut cols = flat_columns(10, Biome::Forest);
    cols[64 + 1].tree = true;
    cols[64 + 2].height = 12;
    cols[64 + 3].tree = true;
    cols[64 + 3].height = 57;
    let data = super_lod_data(&cols, 0, 0, true, None);
    assert_eq!(data.trees, vec![(1, 1, 10)]);
    let (faces, boxes) = super_lod_geometry(&data);
    assert_eq!(boxes.len(), 2);
    assert_eq!((boxes[0].x0, boxes[0].y0, boxes[0].y1), (1, 11, 14));
    assert_eq!((boxes[1].x0, boxes[1].z0, boxes[1].y0, boxes[1].y1), (0, 0, 14, 17));
    // column (1, 2) at 12 next to three columns at 10 and one at 57: three
    // sides, each a surface layer and a one-block dirt wall
    let col: Vec<_> = faces.iter().filter(|f| f.x == 1 && f.z == 2).collect();
    assert_eq!(col.len(), 1 + 3 * 2);
    let none = super_lod_data(&cols, 0, 0, false, None);
    assert!(none.trees.is_empty());
    let hidden = super_lod_data(&cols, 0, 0, true, Some((0, 0, 1)));
    assert!(hidden.trees.is_empty());
    let far = super_lod_data(&cols, 0, 0, true, Some((10, 10, 1)));
    assert_eq!(far.trees, vec![(1, 1, 10)]);
}

#[test]
fn lod_books_stay_inside_needed_over_frames() {
    let mut p = LodPlanner::new();
    let mut loaded: HashSet<(i32, i32)> = HashSet::new();
    let mut pending: HashSet<(i32, i32)> = HashSet::new();
    let frames = [(0, 0, 3), (0, 1, 3), (5, 0, 3), (9, 9, 3), (9, 9, 5), (40, -8, 5), (40, -8, 5)];
    for (f, &(px, pz, rd)) in frames.iter().enumerate() {
        for _ in 0..3 {
            let l: Vec<(i32, i32)> = loaded.iter().copied().collect();
            let q: Vec<(i32, i32)> = pending.iter().copied().collect();
            if let Some(plan) = p.plan(px, pz, rd, &l, &q) {
                assert!(plan.load.len() <= 2);
                for c in plan.unload {
                    loaded.remove(&c);
                }
                for c in plan.cancel {
                    pending.remove(&c);
                }
                for (c, _) in plan.load {
                    pending.insert(c);
                }
            }
            // every other frame, one generation finishes
            if f % 2 == 0 {
                if let Some(&c) = pending.iter().next() {
                    pending.remove(&c);
                    loaded.insert(c);
                }
            }
            for c in loaded.iter().chain(pending.iter()) {
                assert!(p.needed.contains(c));
            }
            assert!(loaded.is_disjoint(&pending));
        }
    }
    assert!(!loaded.is_empty());
}
