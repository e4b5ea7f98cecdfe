use voxel_core::world::{get_block, init_world, Svo, SVO_DEPTH, WORLD_SIZE};

#[test]
fn pillar_blocks_are_read_back() {
    let mut svo = Svo::new();
    svo.insert(10, 1, 10, 3);
    svo.insert(10, 2, 10, 3);
    assert_eq!(svo.get_block(10, 1, 10), 3);
    assert_eq!(svo.get_block(10, 2, 10), 3);
    assert_eq!(svo.get_block(10, 1, 11), 0);
}

#[test]
fn world_size_matches_depth() {
    assert_eq!(WORLD_SIZE, 1 << SVO_DEPTH);
}

#[test]
fn new_world_is_air() {
    let svo = Svo::new();
    for &(x, y, z) in &[(0, 0, 0), (255, 255, 255), (17, 200, 3), (128, 127, 128)] {
        assert_eq!(svo.get_block(x, y, z), 0);
    }
}

#[test]
fn outside_the_world_is_air() {
    let mut svo = Svo::new();
    svo.insert(0, 0, 0, 9);
    svo.insert(255, 255, 255, 9);
    for &(x, y, z) in &[
        (-1, 0, 0),
        (0, -1, 0),
        (0, 0, -1),
        (256, 0, 0),
        (0, 256, 0),
        (0, 0, 256),
        (i32::MIN, 0, 0),
        (i32::MAX, i32::MAX, i32::MAX),
    ] {
        assert_eq!(svo.get_block(x, y, z), 0);
    }
}

#[test]
fn insert_outside_the_world_changes_nothing() {
    let mut svo = Svo::new();
    svo.insert(3, 4, 5, 7);
    svo.insert(-1, 4, 5, 8);
    svo.insert(3, 256, 5, 8);
    svo.insert(3, 4, i32::MAX, 8);
    svo.insert(256, 256, 256, 8);
    for x in 0..8 {
        for y in 0..8 {
            for z in 0..8 {
                let expected = if (x, y, z) == (3, 4, 5) { 7 } else { 0 };
                assert_eq!(svo.get_block(x, y, z), expected);
            }
        }
    }
}

#[test]
fn insert_air_changes_nothing() {
    let mut svo = Svo::new();
    svo.insert(3, 4, 5, 7);
    svo.insert(3, 4, 5, 0);
    svo.insert(9, 9, 9, 0);
    assert_eq!(svo.get_block(3, 4, 5), 7);
    assert_eq!(svo.get_block(9, 9, 9), 0);
}

#[test]
fn insert_then_get_at_the_corners() {
    let mut svo = Svo::new();
    let corners = [
        (0, 0, 0),
        (255, 0, 0),
        (0, 255, 0),
        (0, 0, 255),
        (255, 255, 0),
        (255, 0, 255),
        (0, 255, 255),
        (255, 255, 255),
    ];
    for (i, &(x, y, z)) in corners.iter().enumerate() {
        svo.insert(x, y, z, (i + 1) as u8);
    }
    for (i, &(x, y, z)) in corners.iter().enumerate() {
        assert_eq!(svo.get_block(x, y, z), (i + 1) as u8);
    }
    assert_eq!(svo.get_block(1, 0, 0), 0);
    assert_eq!(svo.get_block(254, 255, 255), 0);
}

#[test]
fn overwrite_replaces_the_block() {
    let mut svo = Svo::new();
    svo.insert(100, 50, 25, 1);
    svo.insert(100, 50, 25, 2);
    assert_eq!(svo.get_block(100, 50, 25), 2);
    svo.insert(100, 50, 25, 255);
    assert_eq!(svo.get_block(100, 50, 25), 255);
}

#[test]
fn neighbours_keep_their_blocks() {
    let mut svo = Svo::new();
    svo.insert(64, 64, 64, 5);
    svo.insert(65, 64, 64, 6);
    svo.insert(64, 65, 64, 7);
    svo.insert(64, 64, 65, 8);
    svo.insert(63, 63, 63, 9);
    assert_eq!(svo.get_block(64, 64, 64), 5);
    assert_eq!(svo.get_block(65, 64, 64), 6);
    assert_eq!(svo.get_block(64, 65, 64), 7);
    assert_eq!(svo.get_block(64, 64, 65), 8);
    assert_eq!(svo.get_block(63, 63, 63), 9);
    assert_eq!(svo.get_block(65, 65, 65), 0);
}

#[test]
fn second_insert_keeps_the_first() {
    let mut svo = Svo::new();
    svo.insert(8, 8, 8, 4);
    svo.insert(9, 8, 8, 6);
    assert_eq!(svo.get_block(8, 8, 8), 4);
    assert_eq!(svo.get_block(9, 8, 8), 6);
    for &(x, y, z) in &[(8, 9, 8), (9, 9, 8), (8, 8, 9), (9, 8, 9), (8, 9, 9), (9, 9, 9)] {
        assert_eq!(svo.get_block(x, y, z), 0);
    }
}

#[test]
fn dense_block_of_voxels_matches_a_plain_array() {
    let mut svo = Svo::new();
    let mut plain = vec![0u8; 16 * 16 * 16];
    let mut seed: u32 = 12345;
    for _ in 0..3000 {
        seed = seed.wrapping_mul(1664525).wrapping_add(1013904223);
        let x = ((seed >> 8) & 15) as i32;
        let y = ((seed >> 12) & 15) as i32;
        let z = ((seed >> 16) & 15) as i32;
        let block = ((seed >> 24) & 3) as u8;
        svo.insert(100 + x, 200 + y, 30 + z, block);
        if block != 0 {
            plain[(x + 16 * y + 256 * z) as usize] = block;
        }
    }
    for x in 0..16 {
        for y in 0..16 {
            for z in 0..16 {
                assert_eq!(
                    svo.get_block(100 + x, 200 + y, 30 + z),
                    plain[(x + 16 * y + 256 * z) as usize]
                );
            }
        }
    }
}

#[test]
fn starting_world_has_floor_walls_and_pillar() {
    let svo = init_world();
    assert_eq!(svo.get_block(0, 0, 0), 1);
    assert_eq!(svo.get_block(31, 0, 31), 1);
    assert_eq!(svo.get_block(32, 0, 0), 0);
    assert_eq!(svo.get_block(0, 0, 32), 0);
    assert_eq!(svo.get_block(5, 1, 0), 2);
    assert_eq!(svo.get_block(5, 2, 0), 2);
    assert_eq!(svo.get_block(5, 3, 0), 0);
    assert_eq!(svo.get_block(0, 1, 17), 2);
    assert_eq!(svo.get_block(0, 2, 31), 2);
    assert_eq!(svo.get_block(1, 1, 1), 0);
    assert_eq!(svo.get_block(10, 1, 10), 3);
    assert_eq!(svo.get_block(10, 4, 10), 3);
    assert_eq!(svo.get_block(10, 5, 10), 0);
    assert_eq!(svo.get_block(10, 0, 10), 1);
    assert_eq!(svo.get_block(11, 1, 10), 0);
}

#[test]
fn starting_world_block_count() {
    let svo = init_world();
    let mut count = [0usize; 4];
    for x in 0..40 {
        for y in 0..8 {
            for z in 0..40 {
                count[svo.get_block(x, y, z) as usize] += 1;
            }
        }
    }
    assert_eq!(count[1], 32 * 32);
    assert_eq!(count[2], 2 * (32 + 31));
    assert_eq!(count[3], 4);
}

#[test]
fn missing_world_is_air() {
    assert_eq!(get_block(&None, 1, 0, 1), 0);
    let world = Some(init_world());
    assert_eq!(get_block(&world, 1, 0, 1), 1);
    assert_eq!(get_block(&world, -1, 0, 1), 0);
}
