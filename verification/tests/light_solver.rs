use std::collections::VecDeque;
use voxel_craft::lighting::LightSolver;
use voxel_craft::voxels::Chunks;

fn manhattan(a: (isize, isize, isize), b: (isize, isize, isize)) -> isize {
    (a.0 - b.0).abs() + (a.1 - b.1).abs() + (a.2 - b.2).abs()
}

fn snapshot(world: &Chunks, channel: usize) -> Vec<u8> {
    let (w, h, d) = (world.width() as isize * 16, world.height() as isize * 16, world.depth() as isize * 16);
    let mut out = Vec::new();
    for y in 0..h {
        for z in 0..d {
            for x in 0..w {
                out.push(world.get_light(x, y, z, channel));
            }
        }
    }
    out
}

fn clear_flags(world: &mut Chunks) {
    for cy in 0..world.height() {
        for cz in 0..world.depth() {
            for cx in 0..world.width() {
                world.clear_modified(cx, cy, cz);
            }
        }
    }
}

#[test]
fn single_source_fills_a_diamond() {
    let mut world = Chunks::new(3, 3, 3).unwrap();
    let mut solver = LightSolver::new(0);
    let source = (24isize, 24isize, 24isize);
    solver.add(24, 24, 24, Some(15), &mut world);
    solver.solve(&mut world);
    for y in 0..48 {
        for z in 0..48 {
            for x in 0..48 {
                let d = manhattan((x, y, z), source);
                let expected = if d <= 14 { 15 - d } else { 0 };
                assert_eq!(world.get_light(x, y, z, 0) as isize, expected);
            }
        }
    }
}

#[test]
fn single_source_in_five_cube_region() {
    let mut world = Chunks::new(1, 1, 1).unwrap();
    let mut solver = LightSolver::new(3);
    solver.add(8, 8, 8, Some(15), &mut world);
    solver.solve(&mut world);
    for y in 6..=10isize {
        for z in 6..=10isize {
            for x in 6..=10isize {
                let d = manhattan((x, y, z), (8, 8, 8));
                assert_eq!(world.get_light(x, y, z, 3) as isize, 15 - d);
            }
        }
    }
    assert_eq!(world.get_light(8, 8, 8, 3), 15);
    assert_eq!(world.get_light(9, 8, 8, 3), 14);
    assert_eq!(world.get_light(10, 10, 10, 3), 9);
}

#[test]
fn other_channels_stay_dark() {
    let mut world = Chunks::new(1, 1, 1).unwrap();
    let mut solver = LightSolver::new(1);
    solver.add(4, 4, 4, Some(6), &mut world);
    solver.solve(&mut world);
    assert_eq!(world.get_light(4, 4, 4, 1), 6);
    assert_eq!(world.get_light(5, 4, 4, 1), 5);
    for channel in [0usize, 2, 3] {
        assert_eq!(snapshot(&world, channel).iter().filter(|&&l| l != 0).count(), 0);
    }
}

#[test]
fn add_drops_levels_of_at_most_one() {
    let mut world = Chunks::new(1, 1, 1).unwrap();
    let mut solver = LightSolver::new(0);
    clear_flags(&mut world);
    solver.add(1, 1, 1, Some(1), &mut world);
    solver.add(1, 1, 1, Some(0), &mut world);
    solver.add(1, 1, 1, Some(-7), &mut world);
    assert_eq!(solver.add_queue_len(), 0);
    assert_eq!(world.get_light(1, 1, 1, 0), 0);
    assert!(!world.chunk_at(0, 0, 0).unwrap().modified);
}

#[test]
fn add_writes_at_once_and_flags_chunk() {
    let mut world = Chunks::new(2, 1, 1).unwrap();
    let mut solver = LightSolver::new(2);
    clear_flags(&mut world);
    solver.add(20, 1, 1, Some(2), &mut world);
    assert_eq!(solver.add_queue_len(), 1);
    assert_eq!(solver.rem_queue_len(), 0);
    assert_eq!(world.get_light(20, 1, 1, 2), 2);
    assert_eq!(world.get_light(21, 1, 1, 2), 0);
    assert!(world.chunk_at(1, 0, 0).unwrap().modified);
    assert!(!world.chunk_at(0, 0, 0).unwrap().modified);
    solver.solve(&mut world);
    assert_eq!(world.get_light(21, 1, 1, 2), 1);
    assert_eq!(world.get_light(22, 1, 1, 2), 0);
}

#[test]
fn add_outside_world_queues_but_writes_nothing() {
    let mut world = Chunks::new(1, 1, 1).unwrap();
    let mut solver = LightSolver::new(0);
    solver.add(-5, 0, 0, Some(9), &mut world);
    solver.add(i32::MAX, i32::MIN, 0, Some(9), &mut world);
    assert_eq!(solver.add_queue_len(), 2);
    solver.solve(&mut world);
    assert_eq!(solver.add_queue_len(), 0);
    assert_eq!(snapshot(&world, 0).iter().filter(|&&l| l != 0).count(), 0);
}

#[test]
fn add_just_outside_lights_the_edge() {
    let mut world = Chunks::new(1, 1, 1).unwrap();
    let mut solver = LightSolver::new(0);
    solver.add(-1, 5, 5, Some(4), &mut world);
    solver.solve(&mut world);
    assert_eq!(world.get_light(0, 5, 5, 0), 3);
    assert_eq!(world.get_light(1, 5, 5, 0), 2);
    assert_eq!(world.get_light(2, 5, 5, 0), 1);
    assert_eq!(world.get_light(3, 5, 5, 0), 0);
}

#[test]
fn add_without_level_requeues_stored_light() {
    let mut world = Chunks::new(1, 1, 1).unwrap();
    let mut solver = LightSolver::new(0);
    world.set_light(3, 3, 3, 0, 5);
    solver.add(3, 3, 3, None, &mut world);
    assert_eq!(solver.add_queue_len(), 1);
    solver.solve(&mut world);
    assert_eq!(world.get_light(3, 3, 3, 0), 5);
    assert_eq!(world.get_light(4, 3, 3, 0), 4);
    assert_eq!(world.get_light(3, 3, 7, 0), 1);
    assert_eq!(world.get_light(3, 3, 8, 0), 0);
    solver.add(10, 10, 10, None, &mut world);
    assert_eq!(solver.add_queue_len(), 0);
}

#[test]
fn add_light_by_position_matches_add_without_level() {
    let mut world = Chunks::new(1, 1, 1).unwrap();
    let mut solver = LightSolver::new(1);
    world.set_light(3, 3, 3, 1, 3);
    world.set_light(9, 9, 9, 1, 1);
    solver._add_light(3, 3, 3, &mut world);
    solver._add_light(9, 9, 9, &mut world);
    solver._add_light(-3, 3, 3, &mut world);
    assert_eq!(solver.add_queue_len(), 1);
    solver.solve(&mut world);
    assert_eq!(world.get_light(3, 4, 3, 1), 2);
    assert_eq!(world.get_light(3, 5, 3, 1), 1);
    assert_eq!(world.get_light(9, 9, 10, 1), 0);
}

#[test]
fn add_keeps_low_eight_bits_and_stores_low_four() {
    let mut world = Chunks::new(1, 1, 1).unwrap();
    let mut solver = LightSolver::new(0);
    solver.add(8, 8, 8, Some(256 + 18), &mut world);
    assert_eq!(solver.add_queue_len(), 1);
    assert_eq!(world.get_light(8, 8, 8, 0), 2);
    let mut other = LightSolver::new(1);
    other.add(8, 8, 8, Some(256), &mut world);
    assert_eq!(other.add_queue_len(), 1);
    assert_eq!(world.get_light(8, 8, 8, 1), 0);
    other.solve(&mut world);
    assert_eq!(snapshot(&world, 1).iter().filter(|&&l| l != 0).count(), 0);
}

#[test]
fn remove_on_dark_or_unloaded_voxel_is_a_no_op() {
    let mut world = Chunks::new(1, 1, 1).unwrap();
    let mut solver = LightSolver::new(0);
    clear_flags(&mut world);
    solver.remove(2, 2, 2, &mut world);
    solver.remove(-2, 2, 2, &mut world);
    solver.remove(99, 2, 2, &mut world);
    assert_eq!(solver.rem_queue_len(), 0);
    assert!(!world.chunk_at(0, 0, 0).unwrap().modified);
}

#[test]
fn remove_zeroes_at_once_and_queues() {
    let mut world = Chunks::new(1, 1, 1).unwrap();
    let mut solver = LightSolver::new(0);
    world.set_light(2, 2, 2, 0, 7);
    world.set_light(2, 2, 2, 1, 9);
    clear_flags(&mut world);
    solver.remove(2, 2, 2, &mut world);
    assert_eq!(solver.rem_queue_len(), 1);
    assert_eq!(solver.add_queue_len(), 0);
    assert_eq!(world.get_light(2, 2, 2, 0), 0);
    assert_eq!(world.get_light(2, 2, 2, 1), 9);
    assert!(world.chunk_at(0, 0, 0).unwrap().modified);
}

#[test]
fn add_then_remove_returns_to_dark() {
    for level in [2, 3, 7, 15] {
        let mut world = Chunks::new(3, 3, 3).unwrap();
        let mut solver = LightSolver::new(2);
        solver.add(24, 24, 24, Some(level), &mut world);
        solver.solve(&mut world);
        assert_eq!(world.get_light(24, 24, 24, 2) as i32, level);
        solver.remove(24, 24, 24, &mut world);
        solver.solve(&mut world);
        assert_eq!(snapshot(&world, 2).iter().filter(|&&l| l != 0).count(), 0);
        assert_eq!(solver.add_queue_len(), 0);
        assert_eq!(solver.rem_queue_len(), 0);
    }
}

#[test]
fn solve_twice_changes_nothing() {
    let mut world = Chunks::new(2, 2, 2).unwrap();
    world.set(10, 10, 10, 1);
    world.set(11, 10, 10, 1);
    let mut solver = LightSolver::new(0);
    solver.add(9, 10, 10, Some(12), &mut world);
    solver.add(20, 20, 20, Some(9), &mut world);
    solver.solve(&mut world);
    let first = snapshot(&world, 0);
    clear_flags(&mut world);
    solver.solve(&mut world);
    assert_eq!(snapshot(&world, 0), first);
    for cy in 0..2 {
        for cz in 0..2 {
            for cx in 0..2 {
                assert!(!world.chunk_at(cx, cy, cz).unwrap().modified);
            }
        }
    }
}

#[test]
fn solve_on_idle_solver_changes_nothing() {
    let mut world = Chunks::new(1, 1, 1).unwrap();
    world.set_light(1, 1, 1, 0, 15);
    clear_flags(&mut world);
    let mut solver = LightSolver::new(0);
    solver.solve(&mut world);
    assert_eq!(world.get_light(1, 1, 1, 0), 15);
    assert_eq!(world.get_light(2, 1, 1, 0), 0);
    assert!(!world.chunk_at(0, 0, 0).unwrap().modified);
}

#[test]
fn light_does_not_enter_solid_voxels() {
    let mut world = Chunks::new(1, 1, 1).unwrap();
    for y in 0..16 {
        for z in 0..16 {
            world.set(6, y, z, 1);
        }
    }
    let mut solver = LightSolver::new(0);
    solver.add(4, 8, 8, Some(10), &mut world);
    solver.solve(&mut world);
    assert_eq!(world.get_light(5, 8, 8, 0), 9);
    assert_eq!(world.get_light(6, 8, 8, 0), 0);
    assert_eq!(world.get_light(7, 8, 8, 0), 0);
    assert_eq!(world.get_light(3, 8, 8, 0), 9);
}

#[test]
fn light_bends_around_a_wall() {
    let mut world = Chunks::new(1, 1, 1).unwrap();
    for y in 0..16 {
        for z in 0..16 {
            if !(y == 8 && z == 12) {
                world.set(6, y, z, 1);
            }
        }
    }
    let mut solver = LightSolver::new(0);
    solver.add(5, 8, 8, Some(15), &mut world);
    solver.solve(&mut world);
    assert_eq!(world.get_light(5, 8, 12, 0), 11);
    assert_eq!(world.get_light(6, 8, 12, 0), 10);
    assert_eq!(world.get_light(7, 8, 12, 0), 9);
    assert_eq!(world.get_light(7, 8, 8, 0), 5);
}

#[test]
fn removal_keeps_light_of_a_second_source() {
    let mut world = Chunks::new(2, 1, 1).unwrap();
    let mut solver = LightSolver::new(0);
    solver.add(10, 8, 8, Some(8), &mut world);
    solver.add(14, 8, 8, Some(8), &mut world);
    solver.solve(&mut world);
    assert_eq!(world.get_light(12, 8, 8, 0), 6);
    solver.remove(10, 8, 8, &mut world);
    solver.solve(&mut world);
    let mut alone = Chunks::new(2, 1, 1).unwrap();
    let mut fresh = LightSolver::new(0);
    fresh.add(14, 8, 8, Some(8), &mut alone);
    fresh.solve(&mut alone);
    assert_eq!(snapshot(&world, 0), snapshot(&alone, 0));
    assert_eq!(world.get_light(10, 8, 8, 0), 4);
}

#[test]
fn flood_fill_matches_flat_array_fill_across_seams() {
    let (cw, ch, cd) = (2usize, 2usize, 2usize);
    let (w, h, d) = (32isize, 32isize, 32isize);
    let mut world = Chunks::new(cw, ch, cd).unwrap();
    let mut solid = vec![false; (w * h * d) as usize];
    let at = |x: isize, y: isize, z: isize| ((y * d + z) * w + x) as usize;
    let mut seed: u32 = 12345;
    for y in 0..h {
        for z in 0..d {
            for x in 0..w {
                seed = seed.wrapping_mul(1664525).wrapping_add(1013904223);
                if (seed >> 24) % 5 == 0 {
                    solid[at(x, y, z)] = true;
                    world.set(x, y, z, 1);
                }
            }
        }
    }
    let sources = [(15isize, 15isize, 15isize, 15u8), (16, 16, 16, 12), (0, 31, 16, 9), (20, 3, 15, 14)];
    let mut flat = vec![0u8; (w * h * d) as usize];
    let mut queue: VecDeque<(isize, isize, isize, u8)> = VecDeque::new();
    let mut solver = LightSolver::new(3);
    for &(x, y, z, level) in &sources {
        solid[at(x, y, z)] = false;
        world.set(x, y, z, 0);
    }
    for &(x, y, z, level) in &sources {
        solver.add(x as i32, y as i32, z as i32, Some(level as i32), &mut world);
        flat[at(x, y, z)] = level;
        queue.push_back((x, y, z, level));
    }
    solver.solve(&mut world);
    while let Some((x, y, z, level)) = queue.pop_front() {
        if level <= 1 {
            continue;
        }
        for (dx, dy, dz) in [(0, 0, 1), (0, 0, -1), (0, 1, 0), (0, -1, 0), (1, 0, 0), (-1, 0, 0)] {
            let (nx, ny, nz) = (x + dx, y + dy, z + dz);
            if nx < 0 || ny < 0 || nz < 0 || nx >= w || ny >= h || nz >= d {
                continue;
            }
            if !solid[at(nx, ny, nz)] && flat[at(nx, ny, nz)] + 2 <= level {
                flat[at(nx, ny, nz)] = level - 1;
                queue.push_back((nx, ny, nz, level - 1));
            }
        }
    }
    assert_eq!(snapshot(&world, 3), flat);
    assert_eq!(world.get_light(16, 15, 15, 3), flat[at(16, 15, 15)]);
    assert!(flat.iter().filter(|&&l| l != 0).count() > 1000);
}

#[test]
fn solved_light_attenuates_by_one_per_step() {
    let mut world = Chunks::new(2, 1, 2).unwrap();
    for x in 0..32 {
        for z in 0..32 {
            if (x + 2 * z) % 7 == 0 {
                world.set(x, 5, z, 1);
            }
        }
    }
    let sources = [(4isize, 6isize, 4isize), (17, 2, 16), (30, 12, 9)];
    let mut solver = LightSolver::new(0);
    for &(x, y, z) in &sources {
        world.set(x, y, z, 0);
        solver.add(x as i32, y as i32, z as i32, Some(13), &mut world);
    }
    solver.solve(&mut world);
    for y in 0..16isize {
        for z in 0..32isize {
            for x in 0..32isize {
                if world.get_voxel(x, y, z).unwrap().id != 0 {
                    assert_eq!(world.get_light(x, y, z, 0), 0);
                    continue;
                }
                let mut brightest = 0u8;
                for (dx, dy, dz) in [(0, 0, 1), (0, 0, -1), (0, 1, 0), (0, -1, 0), (1, 0, 0), (-1, 0, 0)] {
                    brightest = brightest.max(world.get_light(x + dx, y + dy, z + dz, 0));
                }
                let here = world.get_light(x, y, z, 0);
                if sources.contains(&(x, y, z)) {
                    assert_eq!(here, 13);
                } else {
                    assert_eq!(here, brightest.saturating_sub(1));
                }
            }
        }
    }
}

#[test]
fn two_removals_before_one_solve_follow_the_queues() {
    let mut world = Chunks::new(1, 1, 1).unwrap();
    let mut solver = LightSolver::new(0);
    solver.add(8, 8, 8, Some(5), &mut world);
    solver.solve(&mut world);
    assert_eq!(world.get_light(10, 8, 8, 0), 3);
    solver.remove(10, 8, 8, &mut world);
    solver.remove(8, 8, 8, &mut world);
    assert_eq!(solver.rem_queue_len(), 2);
    solver.solve(&mut world);
    assert_eq!(solver.rem_queue_len(), 0);
    assert_eq!(solver.add_queue_len(), 0);
    // the first removal queued the brighter voxel at (9, 8, 8) for addition
    // before the second removal darkened it; its entry spreads all the same
    assert_eq!(world.get_light(8, 8, 8, 0), 3);
    assert_eq!(world.get_light(9, 8, 8, 0), 2);
    assert_eq!(world.get_light(10, 8, 8, 0), 3);
    assert_eq!(world.get_light(11, 8, 8, 0), 2);
    assert_eq!(world.get_light(9, 9, 8, 0), 3);
    assert_eq!(world.get_light(0, 0, 0, 0), 0);
}

#[test]
fn light_attenuates_after_a_removal() {
    let mut world = Chunks::new(2, 1, 2).unwrap();
    for x in 0..32 {
        for y in 0..16 {
            if (x + 3 * y) % 5 == 0 {
                world.set(x, y, 9, 2);
            }
        }
    }
    let sources = [(4isize, 6isize, 4isize, 14), (17, 2, 16, 11), (15, 8, 8, 9)];
    let mut solver = LightSolver::new(1);
    for &(x, y, z, level) in &sources {
        world.set(x, y, z, 0);
        solver.add(x as i32, y as i32, z as i32, Some(level), &mut world);
        solver.solve(&mut world);
    }
    solver.remove(17, 2, 16, &mut world);
    solver.solve(&mut world);
    assert_eq!(solver.add_queue_len(), 0);
    assert_eq!(solver.rem_queue_len(), 0);
    let left = [(4isize, 6isize, 4isize), (15, 8, 8)];
    let mut lit = 0;
    for y in 0..16isize {
        for z in 0..32isize {
            for x in 0..32isize {
                let here = world.get_light(x, y, z, 1);
                if world.get_voxel(x, y, z).unwrap().id != 0 {
                    assert_eq!(here, 0);
                    continue;
                }
                let mut brightest = 0u8;
                for (dx, dy, dz) in [(0, 0, 1), (0, 0, -1), (0, 1, 0), (0, -1, 0), (1, 0, 0), (-1, 0, 0)] {
                    brightest = brightest.max(world.get_light(x + dx, y + dy, z + dz, 1));
                }
                if !left.contains(&(x, y, z)) {
                    assert_eq!(here, brightest.saturating_sub(1));
                }
                if here != 0 {
                    lit += 1;
                }
            }
        }
    }
    assert_eq!(world.get_light(4, 6, 4, 1), 14);
    assert_eq!(world.get_light(15, 8, 8, 1), 9);
    assert!(lit > 500);
}

#[test]
fn solver_leaves_other_channels_and_blocks_alone() {
    let mut world = Chunks::new(1, 1, 1).unwrap();
    world.set(5, 5, 5, 3);
    world.set_light(4, 5, 5, 1, 13);
    world.set_light(4, 5, 5, 3, 2);
    let mut solver = LightSolver::new(0);
    solver.add(4, 5, 5, Some(15), &mut world);
    solver.solve(&mut world);
    solver.remove(4, 5, 5, &mut world);
    solver.solve(&mut world);
    assert_eq!(world.get_light(4, 5, 5, 0), 0);
    assert_eq!(world.get_light(4, 5, 5, 1), 13);
    assert_eq!(world.get_light(4, 5, 5, 3), 2);
    assert_eq!(world.get_light(3, 5, 5, 1), 0);
    assert_eq!(world.get_voxel(5, 5, 5).map(|v| v.id), Some(3));
    assert_eq!(world.get_voxel(4, 5, 5).map(|v| v.id), Some(0));
}
