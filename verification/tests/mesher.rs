use voxel_core::grid::{Axis, Direction};
use voxel_core::mesher::{Chunk, ChunkMesher, Corner, Face, Run, CHUNK_SIZE, MAX_LOD};
use voxel_core::world::Svo;

/// The block of the sample `(d, u, v)` across `axis`, air outside the chunk.
fn sample(chunk: &Chunk, lod: u32, axis: Axis, d: i64, u: i64, v: i64) -> u8 {
    let n = (CHUNK_SIZE >> lod) as i64;
    if d < 0 || u < 0 || v < 0 || d >= n || u >= n || v >= n {
        return 0;
    }
    let s = 1usize << lod;
    let (d, u, v) = (d as usize * s, u as usize * s, v as usize * s);
    match axis {
        Axis::X => chunk.get(d, u, v),
        Axis::Y => chunk.get(u, d, v),
        Axis::Z => chunk.get(u, v, d),
    }
}

fn plane_of(face: &Face) -> (Axis, bool, i32, i32, i32) {
    match face.direction {
        Direction::PosX => (Axis::X, true, face.x, face.y, face.z),
        Direction::NegX => (Axis::X, false, face.x, face.y, face.z),
        Direction::PosY => (Axis::Y, true, face.y, face.x, face.z),
        Direction::NegY => (Axis::Y, false, face.y, face.x, face.z),
        Direction::PosZ => (Axis::Z, true, face.z, face.x, face.y),
        Direction::NegZ => (Axis::Z, false, face.z, face.x, face.y),
    }
}

/// Checks a mesh against the chunk cell by cell: every exposed cell is held
/// by exactly one face, of the cell's block, and no face holds anything else.
fn check_mesh(chunk: &Chunk, origin: (i32, i32, i32), lod: u32, faces: &[Face]) {
    let n = (CHUNK_SIZE >> lod) as i64;
    let s = 1i32 << lod;
    let mut area = 0i64;
    for face in faces {
        assert!(face.width > 0 && face.height > 0);
        area += (face.width / s) as i64 * (face.height / s) as i64;
    }
    let mut exposed = 0i64;
    for (a, &axis) in [Axis::X, Axis::Y, Axis::Z].iter().enumerate() {
        let (od, ou, ov) = match axis {
            Axis::X => (origin.0, origin.1, origin.2),
            Axis::Y => (origin.1, origin.0, origin.2),
            Axis::Z => (origin.2, origin.0, origin.1),
        };
        for &positive in &[true, false] {
            for d in 0..=n {
                for u in 0..n {
                    for v in 0..n {
                        let behind = sample(chunk, lod, axis, d - 1, u, v);
                        let front = sample(chunk, lod, axis, d, u, v);
                        let (is_exposed, block) = if positive {
                            (behind != 0 && front == 0, behind)
                        } else {
                            (behind == 0 && front != 0, front)
                        };
                        let holders: Vec<&Face> = faces
                            .iter()
                            .filter(|f| {
                                let (fa, fp, fd, fu, fv) = plane_of(f);
                                fa.index() as usize == a
                                    && fp == positive
                                    && fd == od + d as i32 * s
                                    && fu <= ou + u as i32 * s
                                    && ou + (u as i32) * s < fu + f.width
                                    && fv <= ov + v as i32 * s
                                    && ov + (v as i32) * s < fv + f.height
                            })
                            .collect();
                        if is_exposed {
                            exposed += 1;
                            assert_eq!(holders.len(), 1);
                            assert_eq!(holders[0].block, block);
                        } else {
                            assert_eq!(holders.len(), 0);
                        }
                    }
                }
            }
        }
    }
    assert_eq!(area, exposed);
}

fn flat_floor() -> Chunk {
    let mut chunk = Chunk::new(0, 0, 0);
    for x in 0..32 {
        for z in 0..32 {
            chunk.set(x, 0, z, 1);
            chunk.set(x, 1, z, 2);
            chunk.set(x, 2, z, 3);
        }
    }
    chunk
}

#[test]
fn chunk_set_and_get() {
    let mut chunk = Chunk::new(-64, 0, 32);
    assert_eq!(chunk.get(1, 2, 3), 0);
    chunk.set(1, 2, 3, 9);
    chunk.set(31, 31, 31, 8);
    chunk.set(32, 0, 0, 7);
    chunk.set(0, usize::MAX, 0, 7);
    assert_eq!(chunk.get(1, 2, 3), 9);
    assert_eq!(chunk.get(31, 31, 31), 8);
    assert_eq!(chunk.get(3, 2, 1), 0);
    assert_eq!(chunk.get(2, 2, 3), 0);
    assert_eq!(chunk.get(32, 0, 0), 0);
    assert_eq!(chunk.get(0, 32, 0), 0);
    assert_eq!(chunk.get(0, 0, 0), 0);
}

#[test]
fn empty_chunk_has_no_faces() {
    let chunk = Chunk::new(0, 0, 0);
    for lod in 0..=MAX_LOD {
        assert_eq!(ChunkMesher::generate(&chunk, lod), vec![]);
    }
}

#[test]
fn single_voxel_has_six_faces() {
    let mut chunk = Chunk::new(100, 200, 300);
    chunk.set(4, 5, 6, 7);
    let mut faces = ChunkMesher::generate(&chunk, 0);
    faces.sort_by_key(|f| f.direction as u8);
    let face = |x, y, z, direction| Face { x, y, z, width: 1, height: 1, direction, block: 7 };
    assert_eq!(
        faces,
        vec![
            face(105, 205, 306, Direction::PosX),
            face(104, 205, 306, Direction::NegX),
            face(104, 206, 306, Direction::PosY),
            face(104, 205, 306, Direction::NegY),
            face(104, 205, 307, Direction::PosZ),
            face(104, 205, 306, Direction::NegZ),
        ]
    );
}

#[test]
fn full_chunk_has_one_face_per_side() {
    let mut chunk = Chunk::new(0, 0, 0);
    for x in 0..32 {
        for y in 0..32 {
            for z in 0..32 {
                chunk.set(x, y, z, 5);
            }
        }
    }
    let mut faces = ChunkMesher::generate(&chunk, 0);
    faces.sort_by_key(|f| f.direction as u8);
    let face = |x, y, z, direction| Face { x, y, z, width: 32, height: 32, direction, block: 5 };
    assert_eq!(
        faces,
        vec![
            face(32, 0, 0, Direction::PosX),
            face(0, 0, 0, Direction::NegX),
            face(0, 32, 0, Direction::PosY),
            face(0, 0, 0, Direction::NegY),
            face(0, 0, 32, Direction::PosZ),
            face(0, 0, 0, Direction::NegZ),
        ]
    );
}

#[test]
fn two_blocks_side_by_side_are_not_merged() {
    let mut chunk = Chunk::new(0, 0, 0);
    chunk.set(0, 0, 0, 1);
    chunk.set(1, 0, 0, 2);
    let faces = ChunkMesher::generate(&chunk, 0);
    assert_eq!(faces.len(), 10);
    check_mesh(&chunk, (0, 0, 0), 0, &faces);
    let mut same = Chunk::new(0, 0, 0);
    same.set(0, 0, 0, 1);
    same.set(1, 0, 0, 1);
    let faces = ChunkMesher::generate(&same, 0);
    assert_eq!(faces.len(), 6);
    assert!(faces.contains(&Face {
        x: 0,
        y: 1,
        z: 0,
        width: 2,
        height: 1,
        direction: Direction::PosY,
        block: 1
    }));
    check_mesh(&same, (0, 0, 0), 0, &faces);
}

#[test]
fn flat_floor_has_minimal_quads() {
    let chunk = flat_floor();
    let faces = ChunkMesher::generate(&chunk, 0);
    assert_eq!(faces.len(), 14);
    assert!(faces.contains(&Face {
        x: 0,
        y: 3,
        z: 0,
        width: 32,
        height: 32,
        direction: Direction::PosY,
        block: 3
    }));
    assert!(faces.contains(&Face {
        x: 0,
        y: 0,
        z: 0,
        width: 32,
        height: 32,
        direction: Direction::NegY,
        block: 1
    }));
    check_mesh(&chunk, (0, 0, 0), 0, &faces);
}

#[test]
fn stone_on_the_floor_adds_its_top_and_sides() {
    let floor = ChunkMesher::generate(&flat_floor(), 0);
    let mut chunk = flat_floor();
    chunk.set(5, 3, 7, 4);
    let faces = ChunkMesher::generate(&chunk, 0);
    let stone = |x, y, z, direction| Face { x, y, z, width: 1, height: 1, direction, block: 4 };
    let expected = [
        stone(5, 4, 7, Direction::PosY),
        stone(6, 3, 7, Direction::PosX),
        stone(5, 3, 7, Direction::NegX),
        stone(5, 3, 8, Direction::PosZ),
        stone(5, 3, 7, Direction::NegZ),
    ];
    for face in &expected {
        assert!(faces.contains(face));
        assert!(!floor.contains(face));
    }
    assert_eq!(faces.iter().filter(|f| f.block == 4).count(), 5);
    // The floor's top is no longer one quad: the cell under the stone is hidden.
    let top: Vec<&Face> =
        faces.iter().filter(|f| f.direction == Direction::PosY && f.block == 3).collect();
    assert_eq!(top.len(), 4);
    let area: i32 = top.iter().map(|f| f.width * f.height).sum();
    assert_eq!(area, 32 * 32 - 1);
    assert_eq!(faces.len(), 22);
    assert!(faces.len() > floor.len());
    check_mesh(&chunk, (0, 0, 0), 0, &faces);
}

#[test]
fn scattered_chunk_is_covered_exactly_once() {
    let mut chunk = Chunk::new(-16, 64, 1000);
    let mut seed: u32 = 99;
    for x in 0..32 {
        for y in 0..32 {
            for z in 0..32 {
                seed = seed.wrapping_mul(1664525).wrapping_add(1013904223);
                let roll = (seed >> 24) & 7;
                if roll < 3 {
                    chunk.set(x, y, z, (roll + 1) as u8);
                }
            }
        }
    }
    for lod in [0u32, 2, 4, 5] {
        let faces = ChunkMesher::generate(&chunk, lod);
        check_mesh(&chunk, (-16, 64, 1000), lod, &faces);
    }
}

#[test]
fn coarser_levels_sample_every_other_voxel() {
    let mut chunk = Chunk::new(0, 0, 0);
    chunk.set(0, 0, 0, 1);
    chunk.set(1, 1, 1, 2);
    chunk.set(2, 0, 0, 3);
    let faces = ChunkMesher::generate(&chunk, 1);
    // Samples are taken at even places: (1, 1, 1) is not seen.
    assert!(faces.iter().all(|f| f.block != 2));
    assert!(faces.contains(&Face {
        x: 0,
        y: 2,
        z: 0,
        width: 2,
        height: 2,
        direction: Direction::PosY,
        block: 1
    }));
    assert!(faces.contains(&Face {
        x: 2,
        y: 2,
        z: 0,
        width: 2,
        height: 2,
        direction: Direction::PosY,
        block: 3
    }));
    assert_eq!(faces.len(), 10);
    let whole = ChunkMesher::generate(&chunk, MAX_LOD);
    assert_eq!(whole.len(), 6);
    assert!(whole.iter().all(|f| f.block == 1 && f.width == 32 && f.height == 32));
}

#[test]
fn greedy_rectangles_grow_right_then_down() {
    // An L of one block in the plane y = 0, seen from above.
    let mut chunk = Chunk::new(0, 0, 0);
    for x in 0..3 {
        chunk.set(x, 0, 0, 1);
    }
    chunk.set(0, 0, 1, 1);
    let faces = ChunkMesher::generate(&chunk, 0);
    let top: Vec<Face> =
        faces.iter().filter(|f| f.direction == Direction::PosY).cloned().collect();
    assert_eq!(
        top,
        vec![
            Face { x: 0, y: 1, z: 0, width: 3, height: 1, direction: Direction::PosY, block: 1 },
            Face { x: 0, y: 1, z: 1, width: 1, height: 1, direction: Direction::PosY, block: 1 },
        ]
    );
}

#[test]
fn corners_turn_counter_clockwise_from_outside() {
    let face = Face { x: 1, y: 2, z: 3, width: 4, height: 5, direction: Direction::PosX, block: 1 };
    assert_eq!(
        face.corners(),
        [
            Corner { x: 1, y: 2, z: 3 },
            Corner { x: 1, y: 6, z: 3 },
            Corner { x: 1, y: 6, z: 8 },
            Corner { x: 1, y: 2, z: 8 },
        ]
    );
    let normals = [
        (Direction::PosX, (1, 0, 0)),
        (Direction::NegX, (-1, 0, 0)),
        (Direction::PosY, (0, 1, 0)),
        (Direction::NegY, (0, -1, 0)),
        (Direction::PosZ, (0, 0, 1)),
        (Direction::NegZ, (0, 0, -1)),
    ];
    for &(direction, n) in &normals {
        let face = Face { x: -7, y: 2, z: 30, width: 4, height: 5, direction, block: 1 };
        let c = face.corners();
        for &(i, j) in &[(1usize, 2usize), (2, 3)] {
            let u = (c[i].x - c[0].x, c[i].y - c[0].y, c[i].z - c[0].z);
            let v = (c[j].x - c[0].x, c[j].y - c[0].y, c[j].z - c[0].z);
            let cross = (u.1 * v.2 - u.2 * v.1, u.2 * v.0 - u.0 * v.2, u.0 * v.1 - u.1 * v.0);
            assert_eq!(cross, (20 * n.0, 20 * n.1, 20 * n.2));
        }
    }
}

#[test]
fn corners_at_the_ends_of_the_range() {
    let face = Face {
        x: i32::MAX,
        y: i32::MAX,
        z: i32::MIN,
        width: i32::MAX,
        height: i32::MAX,
        direction: Direction::PosZ,
        block: 1,
    };
    let c = face.corners();
    assert_eq!(c[2], Corner { x: 2 * (i32::MAX as i64), y: 2 * (i32::MAX as i64), z: i32::MIN as i64 });
}

#[test]
fn chunk_copied_from_the_world() {
    let mut world = Svo::new();
    world.insert(0, 0, 0, 1);
    world.insert(40, 41, 42, 2);
    world.insert(63, 63, 63, 3);
    world.insert(64, 63, 63, 4);
    let chunk = Chunk::from_world(&world, 32, 32, 32);
    assert_eq!(chunk.get(8, 9, 10), 2);
    assert_eq!(chunk.get(31, 31, 31), 3);
    assert_eq!(chunk.get(0, 0, 0), 0);
    let mut count = 0;
    for x in 0..32 {
        for y in 0..32 {
            for z in 0..32 {
                if chunk.get(x, y, z) != 0 {
                    count += 1;
                }
            }
        }
    }
    assert_eq!(count, 2);
    let edge = Chunk::from_world(&world, -16, -16, -16);
    assert_eq!(edge.get(16, 16, 16), 1);
    assert_eq!(edge.get(15, 16, 16), 0);
    let faces = ChunkMesher::generate(&edge, 0);
    assert_eq!(faces.len(), 6);
    assert!(faces.contains(&Face {
        x: 0,
        y: 1,
        z: 0,
        width: 1,
        height: 1,
        direction: Direction::PosY,
        block: 1
    }));
}

#[test]
fn empty_chunk_is_one_run() {
    let chunk = Chunk::new(0, 0, 0);
    assert_eq!(chunk.compress(), vec![Run { block: 0, count: 32768 }]);
}

#[test]
fn runs_follow_the_storage_order() {
    let mut chunk = Chunk::new(0, 0, 0);
    chunk.set(0, 0, 0, 5);
    chunk.set(1, 0, 0, 5);
    chunk.set(2, 0, 0, 6);
    chunk.set(0, 1, 0, 7);
    chunk.set(31, 31, 31, 8);
    assert_eq!(
        chunk.compress(),
        vec![
            Run { block: 5, count: 2 },
            Run { block: 6, count: 1 },
            Run { block: 0, count: 29 },
            Run { block: 7, count: 1 },
            Run { block: 0, count: 32768 - 34 },
            Run { block: 8, count: 1 },
        ]
    );
}

#[test]
fn runs_expand_to_the_chunk() {
    let mut chunk = Chunk::new(0, 0, 0);
    let mut seed: u32 = 5;
    for z in 0..32 {
        for y in 0..32 {
            for x in 0..32 {
                seed = seed.wrapping_mul(1664525).wrapping_add(1013904223);
                if (seed >> 28) < 5 {
                    chunk.set(x, y, z, ((seed >> 20) & 3) as u8);
                }
            }
        }
    }
    let runs = chunk.compress();
    let mut blocks = Vec::new();
    for (i, run) in runs.iter().enumerate() {
        assert!(run.count >= 1);
        if i > 0 {
            assert_ne!(run.block, runs[i - 1].block);
        }
        for _ in 0..run.count {
            blocks.push(run.block);
        }
    }
    assert_eq!(blocks.len(), 32768);
    for z in 0..32 {
        for y in 0..32 {
            for x in 0..32 {
                assert_eq!(blocks[x + 32 * y + 1024 * z], chunk.get(x, y, z));
            }
        }
    }
}

#[test]
fn faces_come_in_the_order_of_the_scan() {
    let mut chunk = Chunk::new(0, 0, 0);
    chunk.set(4, 5, 6, 7);
    let directions: Vec<Direction> =
        ChunkMesher::generate(&chunk, 0).iter().map(|f| f.direction).collect();
    assert_eq!(
        directions,
        vec![
            Direction::NegX,
            Direction::PosX,
            Direction::NegY,
            Direction::PosY,
            Direction::NegZ,
            Direction::PosZ,
        ]
    );
    // On one plane: line by line, from the left.
    let mut chunk = Chunk::new(0, 0, 0);
    chunk.set(3, 0, 0, 1);
    chunk.set(1, 0, 0, 2);
    chunk.set(2, 0, 1, 3);
    chunk.set(0, 0, 2, 4);
    let top: Vec<u8> = ChunkMesher::generate(&chunk, 0)
        .iter()
        .filter(|f| f.direction == Direction::PosY)
        .map(|f| f.block)
        .collect();
    assert_eq!(top, vec![2, 1, 3, 4]);
}
