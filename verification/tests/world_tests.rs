use voxel_game::world::{
    contains_position, missing_chunks, nearest_first, partition_loaded, plan_render, plan_render_grid, render_range,
    Chunk, Position, RenderRange, CHUNKS_PER_TICK, CHUNK_SIZE, GRID_SPAWN_LIMIT, RENDER_DISTANCE,
};

fn p(x: i32, y: i32, z: i32) -> Position {
    Position { x, y, z }
}

#[test]
fn render_range_rounds_toward_zero() {
    let r = render_range(-7, 40, 100);
    assert_eq!((r.x_start, r.x_end), (-10, 10));
    assert_eq!((r.y_start, r.y_end), (-8, 12));
    assert_eq!((r.z_start, r.z_end), (-4, 16));
    let r = render_range(-17, -16, 15);
    assert_eq!((r.x_start, r.x_end), (-11, 9));
    assert_eq!((r.y_start, r.y_end), (-11, 9));
    assert_eq!((r.z_start, r.z_end), (-10, 10));
    let r = render_range(i32::MIN, i32::MAX, 0);
    assert_eq!(r.x_start, i32::MIN / 16 - 10);
    assert_eq!(r.y_end, i32::MAX / 16 + 10);
    assert_eq!(CHUNK_SIZE, 16);
    assert_eq!(RENDER_DISTANCE, 10);
}

#[test]
fn range_contains_is_half_open() {
    let r = RenderRange { x_start: 0, x_end: 2, y_start: -1, y_end: 1, z_start: 5, z_end: 6 };
    assert!(r.contains(&p(0, -1, 5)));
    assert!(r.contains(&p(1, 0, 5)));
    assert!(!r.contains(&p(2, 0, 5)));
    assert!(!r.contains(&p(0, 1, 5)));
    assert!(!r.contains(&p(0, 0, 6)));
    assert!(!r.contains(&p(-1, 0, 5)));
}

#[test]
fn contains_position_finds_equal_positions() {
    let v = vec![p(1, 2, 3), p(4, 5, 6)];
    assert!(contains_position(&v, &p(4, 5, 6)));
    assert!(!contains_position(&v, &p(4, 5, 7)));
    assert!(!contains_position(&Vec::new(), &p(0, 0, 0)));
}

#[test]
fn partition_keeps_in_range_and_unloads_the_rest() {
    let r = RenderRange { x_start: 0, x_end: 2, y_start: 0, y_end: 2, z_start: 0, z_end: 2 };
    let loaded = vec![p(0, 0, 0), p(5, 0, 0), p(1, 1, 1), p(0, 2, 0), p(1, 0, 1)];
    let (kept, unload) = partition_loaded(&r, &loaded);
    assert_eq!(kept, vec![p(0, 0, 0), p(1, 1, 1), p(1, 0, 1)]);
    assert_eq!(unload, vec![1, 3]);
}

#[test]
fn missing_chunks_in_range_order() {
    let r = RenderRange { x_start: 0, x_end: 2, y_start: 0, y_end: 2, z_start: 0, z_end: 2 };
    let loaded = vec![p(0, 0, 1), p(1, 1, 0), p(9, 9, 9)];
    let missing = missing_chunks(&r, &loaded);
    assert_eq!(
        missing,
        vec![p(0, 0, 0), p(0, 1, 0), p(0, 1, 1), p(1, 0, 0), p(1, 0, 1), p(1, 1, 1)]
    );
    let empty = RenderRange { x_start: 3, x_end: 3, y_start: 0, y_end: 2, z_start: 0, z_end: 2 };
    assert!(missing_chunks(&empty, &loaded).is_empty());
    let flat = RenderRange { x_start: 0, x_end: 2, y_start: 0, y_end: 2, z_start: 1, z_end: 0 };
    assert!(missing_chunks(&flat, &Vec::new()).is_empty());
}

#[test]
fn nearest_first_is_a_stable_partial_sort() {
    let keys = vec![5, 3, 9, 3, 1, 5];
    assert_eq!(nearest_first(&keys, 3), vec![4, 1, 3]);
    assert_eq!(nearest_first(&keys, 10), vec![4, 1, 3, 0, 5, 2]);
    assert_eq!(nearest_first(&keys, 0), Vec::<usize>::new());
    assert_eq!(nearest_first(&Vec::new(), 4), Vec::<usize>::new());
    let same = vec![7u32; 12];
    assert_eq!(nearest_first(&same, CHUNKS_PER_TICK), (0..10).collect::<Vec<usize>>());
}

#[test]
fn plan_render_unloads_and_schedules() {
    let loaded = vec![p(0, 0, 0), p(10, 0, 0), p(-10, 0, 0), p(3, -4, 9), p(0, 0, -11)];
    let plan = plan_render(5, 8, -3, &loaded);
    assert_eq!((plan.range.x_start, plan.range.x_end), (-10, 10));
    assert_eq!(plan.unload, vec![1, 4]);
    assert_eq!(plan.missing.len(), 20 * 20 * 20 - 3);
    assert_eq!(plan.missing[0], p(-10, -10, -10));
    assert!(!plan.missing.contains(&p(0, 0, 0)));
    assert!(!plan.missing.contains(&p(3, -4, 9)));
    assert!(plan.missing.contains(&p(9, 9, 9)));
    // Every position of the range is loaded or missing, never both.
    for x in -10..10 {
        for y in -10..10 {
            for z in -10..10 {
                let q = p(x, y, z);
                assert!(loaded.contains(&q) != plan.missing.contains(&q));
            }
        }
    }
}

#[test]
fn plan_render_grid_spawns_the_first_free_positions() {
    let loaded = vec![p(-10, -10, -10), p(0, 0, 11), p(70, 0, 0), p(30, 30, 30)];
    let (unload, spawn) = plan_render_grid(p(0, 0, 0), &loaded);
    assert_eq!(unload, vec![1, 3]);
    assert_eq!(spawn.len(), GRID_SPAWN_LIMIT);
    let expected: Vec<Position> = (-9..=1).map(|z| p(-10, -10, z)).collect();
    assert_eq!(spawn, expected);
}

#[test]
fn plan_render_grid_skips_loaded_positions() {
    let mut loaded: Vec<Position> = (-10..=10).map(|z| p(-10, -10, z)).collect();
    loaded.push(p(-10, -9, -10));
    loaded.push(p(-10, -9, -8));
    let (unload, spawn) = plan_render_grid(p(0, 0, 0), &loaded);
    assert!(unload.is_empty());
    let mut expected = vec![p(-10, -9, -9)];
    expected.extend((-7..=2).map(|z| p(-10, -9, z)));
    assert_eq!(spawn, expected);
}

#[test]
fn plan_render_grid_at_the_edge_of_the_grid() {
    let loaded = vec![p(-32, 32, 0), p(100, -100, 0)];
    let (unload, spawn) = plan_render_grid(p(22, -22, 0), &loaded);
    assert_eq!(unload, vec![0]);
    assert_eq!(spawn[0], p(12, -32, -10));
    assert_eq!(spawn.len(), 11);
}

#[test]
fn chunk_holds_its_position() {
    let c = Chunk { position: p(1, 2, 3) };
    assert_eq!(c.position, p(1, 2, 3));
}

#[test]
fn a_carried_out_plan_leaves_nothing_to_do() {
    let loaded = vec![p(0, 0, 0), p(50, 0, 0), p(-3, 2, 1)];
    let plan = plan_render(-20, 33, 7, &loaded);
    let mut after: Vec<Position> = Vec::new();
    for (t, q) in loaded.iter().enumerate() {
        if !plan.unload.contains(&t) {
            after.push(*q);
        }
    }
    after.extend(plan.missing.iter().copied());
    let again = plan_render(-20, 33, 7, &after);
    assert!(again.unload.is_empty());
    assert!(again.missing.is_empty());
}

#[test]
fn planned_positions_are_distinct() {
    let plan = plan_render(0, 0, 0, &vec![p(1, 1, 1)]);
    let mut sorted = plan.missing.clone();
    sorted.sort_by_key(|q| (q.x, q.y, q.z));
    sorted.dedup();
    assert_eq!(sorted.len(), plan.missing.len());
}
