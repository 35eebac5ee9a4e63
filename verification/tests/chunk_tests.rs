use voxel_game::chunk::{generate_chunk, generate_chunk_data, BlockType, NeighbourhoodData};
use voxel_game::world::Position;

#[test]
fn chunk_data_fills_up_to_the_surface() {
    let heights = [[5i32; 16]; 16];
    let chunk = generate_chunk_data(Position { x: 3, y: 0, z: -2 }, &heights);
    for i in 0..16 {
        for j in 0..16 {
            for k in 0..16 {
                assert_eq!(chunk[i][j][k], j <= 5, "voxel {} {} {}", i, j, k);
            }
        }
    }
}

#[test]
fn chunk_data_below_the_surface_is_solid() {
    let heights = [[5i32; 16]; 16];
    let chunk = generate_chunk_data(Position { x: 0, y: -1, z: 0 }, &heights);
    assert!(chunk.iter().all(|plane| plane.iter().all(|column| column.iter().all(|v| *v))));
}

#[test]
fn chunk_data_above_the_surface_is_empty() {
    let heights = [[15i32; 16]; 16];
    let chunk = generate_chunk_data(Position { x: 0, y: 1, z: 0 }, &heights);
    assert!(chunk.iter().all(|plane| plane.iter().all(|column| column.iter().all(|v| !*v))));
}

#[test]
fn chunk_data_follows_each_column() {
    let mut heights = [[0i32; 16]; 16];
    for i in 0..16 {
        for k in 0..16 {
            heights[i][k] = 16 + (i as i32) - (k as i32);
        }
    }
    let chunk = generate_chunk_data(Position { x: 0, y: 1, z: 0 }, &heights);
    for i in 0..16 {
        for k in 0..16 {
            for j in 0..16 {
                assert_eq!(chunk[i][j][k], 16 + j as i32 <= heights[i][k]);
            }
        }
    }
    assert!(chunk[15][15][0]);
    assert!(!chunk[0][1][0]);
    assert!(chunk[0][0][0]);
}

#[test]
fn chunk_data_at_the_lowest_chunk_height() {
    let heights = [[i32::MIN; 16]; 16];
    let chunk = generate_chunk_data(Position { x: 0, y: i32::MIN / 16, z: 0 }, &heights);
    assert!(chunk[0][0][0]);
    assert!(!chunk[0][1][0]);
}

#[test]
fn neighbourhood_is_assembled_from_the_surrounding_chunks() {
    let mut heights = [[0i32; 48]; 48];
    for a in 0..48 {
        for c in 0..48 {
            heights[a][c] = 10 + ((a * 7 + c * 3) % 20) as i32;
        }
    }
    let position = Position { x: 4, y: 1, z: -3 };
    let chunk: Box<NeighbourhoodData> = Box::new(generate_chunk(position, &heights));
    for a in 0..48 {
        for b in 0..48 {
            for c in 0..48 {
                assert_eq!(chunk[a][b][c], b as i32 <= heights[a][c], "voxel {} {} {}", a, b, c);
            }
        }
    }
    // The centre of the neighbourhood is the chunk generated on its own.
    let mut centre_heights = [[0i32; 16]; 16];
    for i in 0..16 {
        for k in 0..16 {
            centre_heights[i][k] = heights[16 + i][16 + k];
        }
    }
    let centre = generate_chunk_data(position, &centre_heights);
    for i in 0..16 {
        for j in 0..16 {
            for k in 0..16 {
                assert_eq!(chunk[16 + i][16 + j][16 + k], centre[i][j][k]);
            }
        }
    }
}

#[test]
fn neighbourhood_of_a_flat_world() {
    let heights = [[0i32; 48]; 48];
    let chunk: Box<NeighbourhoodData> = Box::new(generate_chunk(Position { x: 0, y: 0, z: 0 }, &heights));
    // World heights -16..=31: solid up to world height 0, that is index 16.
    assert!(chunk[0][16][0]);
    assert!(!chunk[0][17][47]);
    assert!(chunk[47][0][47]);
}

#[test]
fn block_types_are_distinct() {
    assert_ne!(BlockType::Grass, BlockType::Stone);
}

#[test]
fn columns_are_filled_from_below() {
    let mut heights = [[0i32; 16]; 16];
    for i in 0..16 {
        for k in 0..16 {
            heights[i][k] = ((i * 5 + k * 11) % 23) as i32 - 4;
        }
    }
    let chunk = generate_chunk_data(Position { x: -1, y: 0, z: 1 }, &heights);
    for i in 0..16 {
        for k in 0..16 {
            for j in 1..16 {
                assert!(!chunk[i][j][k] || chunk[i][j - 1][k]);
            }
        }
    }
}
