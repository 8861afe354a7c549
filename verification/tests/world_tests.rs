use chunk_streaming::{
    encode, gen_chunk, load_chunk, ChunkData, ChunkState, Ground, IVec2, IoError, LoadError,
    SpawnError, TileData, UVec2, ViewDistance, World,
};

fn at(x: i32, y: i32) -> IVec2 {
    IVec2::new(x, y)
}

fn sorted(mut list: Vec<IVec2>) -> Vec<IVec2> {
    list.sort_by_key(|i| (i.x, i.y));
    list
}

fn square(x_from: i32, x_to: i32, y_from: i32, y_to: i32) -> Vec<IVec2> {
    let mut list = Vec::new();
    for x in x_from..=x_to {
        for y in y_from..=y_to {
            list.push(at(x, y));
        }
    }
    list
}

fn no_files() -> Vec<IVec2> {
    Vec::new()
}

#[test]
fn a_new_world_is_empty() {
    let world = World::new();
    assert!(world.resident().is_empty());
    assert!(world.loading().is_empty());
    assert_eq!(world.state(at(0, 0)), ChunkState::Unloaded);
    assert_eq!(world.live_copies(at(0, 0)), 0);
    assert_eq!(world.extract_chunk_data(at(0, 0)), None);
}

#[test]
fn a_viewer_at_the_origin_gets_thirty_six_chunks() {
    let mut world = World::new();
    let step = world.load_deload_chunks(&vec![at(0, 0)], ViewDistance(20), &no_files());
    assert!(step.saves.is_empty());
    assert!(step.loads.is_empty());
    assert_eq!(sorted(step.spawned), square(-3, 2, -3, 2));
    assert_eq!(sorted(world.resident()), square(-3, 2, -3, 2));
    assert_eq!(world.resident().len(), 36);
    assert!(world.loading().is_empty());
    assert_eq!(world.extract_chunk_data(at(-3, 2)), Some(gen_chunk(at(-3, 2))));
    assert_eq!(world.state(at(2, 2)), ChunkState::Resident);
    assert_eq!(world.state(at(3, 2)), ChunkState::Unloaded);
    assert_eq!(world.state(at(-4, 0)), ChunkState::Unloaded);
}

#[test]
fn moving_the_viewer_evicts_and_spawns_one_column() {
    let mut world = World::new();
    world.load_deload_chunks(&vec![at(0, 0)], ViewDistance(20), &no_files());
    let step = world.load_deload_chunks(&vec![at(300, 0)], ViewDistance(20), &no_files());
    let saved: Vec<IVec2> = step.saves.iter().map(|c| c.chunk_index).collect();
    assert_eq!(sorted(saved.clone()), square(-3, -3, -3, 2));
    assert_eq!(sorted(step.spawned.clone()), square(3, 3, -3, 2));
    assert!(step.loads.is_empty());
    for index in &saved {
        assert!(!step.spawned.contains(index));
        assert!(!step.loads.contains(index));
    }
    for save in &step.saves {
        assert_eq!(save, &gen_chunk(save.chunk_index));
    }
    assert_eq!(sorted(world.resident()), square(-2, 3, -3, 2));
}

#[test]
fn a_second_step_for_the_same_viewers_does_nothing() {
    let mut world = World::new();
    let stored = vec![at(0, 0), at(1, 1)];
    let viewers = vec![at(10, -20), at(4000, 4000)];
    let first = world.load_deload_chunks(&viewers, ViewDistance(20), &stored);
    assert!(!first.is_empty());
    let resident = sorted(world.resident());
    let loading = sorted(world.loading());
    let second = world.load_deload_chunks(&viewers, ViewDistance(20), &stored);
    assert!(second.is_empty());
    assert!(second.saves.is_empty() && second.loads.is_empty() && second.spawned.is_empty());
    assert_eq!(sorted(world.resident()), resident);
    assert_eq!(sorted(world.loading()), loading);
    let third = world.load_deload_chunks(&viewers, ViewDistance(20), &no_files());
    assert!(third.is_empty());
    assert_eq!(sorted(world.resident()), resident);
}

#[test]
fn an_evicted_chunk_is_saved_once_as_it_was() {
    let mut world = World::new();
    world.load_deload_chunks(&vec![at(0, 0)], ViewDistance(20), &no_files());
    assert!(world.set_ground(at(-3, 0), UVec2::new(2, 5), Ground::Water));
    assert!(world.set_ground(at(-3, 0), UVec2::new(0, 0), Ground::Dirt));
    let step = world.load_deload_chunks(&vec![at(300, 0)], ViewDistance(20), &no_files());
    let saves: Vec<&ChunkData> =
        step.saves.iter().filter(|c| c.chunk_index == at(-3, 0)).collect();
    assert_eq!(saves.len(), 1);
    let mut expected = gen_chunk(at(-3, 0));
    expected.tiles[0].ground = Ground::Dirt;
    expected.tiles[2 * 8 + 5].ground = Ground::Water;
    assert_eq!(saves[0], &expected);
    assert_eq!(world.state(at(-3, 0)), ChunkState::Unloaded);
    assert_eq!(world.extract_chunk_data(at(-3, 0)), None);
}

#[test]
fn a_chunk_with_a_backing_file_is_loaded() {
    let mut world = World::new();
    let stored = vec![at(1, 1), at(50, 50)];
    let step = world.load_deload_chunks(&vec![at(0, 0)], ViewDistance(20), &stored);
    assert_eq!(step.loads, vec![at(1, 1)]);
    assert_eq!(step.spawned.len(), 35);
    assert!(!step.spawned.contains(&at(1, 1)));
    assert_eq!(world.state(at(1, 1)), ChunkState::PendingLoad);
    assert_eq!(world.loading(), vec![at(1, 1)]);
    assert_eq!(world.task_poll(at(1, 1), None), Ok(ChunkState::PendingLoad));
    assert_eq!(world.state(at(1, 1)), ChunkState::PendingLoad);

    let mut saved = gen_chunk(at(1, 1));
    saved.tiles[9].ground = Ground::Stone;
    let outcome = load_chunk(at(1, 1), Ok(encode(&saved)));
    assert_eq!(world.task_poll(at(1, 1), Some(outcome)), Ok(ChunkState::Resident));
    assert_eq!(world.state(at(1, 1)), ChunkState::Resident);
    assert!(world.loading().is_empty());
    assert_eq!(world.extract_chunk_data(at(1, 1)), Some(saved));
    assert_eq!(world.resident().len(), 36);
}

#[test]
fn a_corrupt_file_leaves_the_chunk_unloaded_and_the_next_step_asks_again() {
    let mut world = World::new();
    let stored = vec![at(0, 0)];
    let viewers = vec![at(0, 0)];
    let step = world.load_deload_chunks(&viewers, ViewDistance(20), &stored);
    assert_eq!(step.loads, vec![at(0, 0)]);
    let outcome = load_chunk(at(0, 0), Ok(b"(chunk_index:(0,0),tiles:[".to_vec()));
    assert_eq!(outcome, Err(LoadError::Decode));
    assert_eq!(world.task_poll(at(0, 0), Some(outcome)), Err(LoadError::Decode));
    assert_eq!(world.state(at(0, 0)), ChunkState::Unloaded);
    assert_eq!(world.resident().len(), 35);

    // The file is still there: it is read again.
    let again = world.load_deload_chunks(&viewers, ViewDistance(20), &stored);
    assert_eq!(again.loads, vec![at(0, 0)]);
    assert!(again.saves.is_empty() && again.spawned.is_empty());
    assert_eq!(world.state(at(0, 0)), ChunkState::PendingLoad);
    let outcome = load_chunk(at(0, 0), Ok(b"nonsense".to_vec()));
    assert_eq!(world.task_poll(at(0, 0), Some(outcome)), Err(LoadError::Decode));
    assert_eq!(world.state(at(0, 0)), ChunkState::Unloaded);

    // The file was removed: the chunk is generated.
    let last = world.load_deload_chunks(&viewers, ViewDistance(20), &no_files());
    assert_eq!(last.spawned, vec![at(0, 0)]);
    assert!(last.loads.is_empty());
    assert_eq!(world.extract_chunk_data(at(0, 0)), Some(gen_chunk(at(0, 0))));
}

#[test]
fn a_failed_read_leaves_the_chunk_unloaded() {
    let mut world = World::new();
    world.load_deload_chunks(&vec![at(0, 0)], ViewDistance(20), &vec![at(2, 2)]);
    let outcome = load_chunk(at(2, 2), Err(IoError));
    assert_eq!(outcome, Err(LoadError::Io));
    assert_eq!(world.task_poll(at(2, 2), Some(outcome)), Err(LoadError::Io));
    assert_eq!(world.state(at(2, 2)), ChunkState::Unloaded);
    assert!(world.loading().is_empty());
}

#[test]
fn an_outcome_without_a_load_is_turned_down() {
    let mut world = World::new();
    world.load_deload_chunks(&vec![at(0, 0)], ViewDistance(20), &no_files());
    assert_eq!(
        world.task_poll(at(0, 0), Some(Ok(gen_chunk(at(0, 0))))),
        Err(LoadError::DuplicateLoad)
    );
    assert_eq!(
        world.task_poll(at(90, 90), Some(Ok(gen_chunk(at(90, 90))))),
        Err(LoadError::DuplicateLoad)
    );
    assert_eq!(world.task_poll(at(90, 90), Some(Err(LoadError::Io))), Err(LoadError::DuplicateLoad));
    assert_eq!(world.task_poll(at(90, 90), None), Err(LoadError::DuplicateLoad));
    assert_eq!(world.live_copies(at(0, 0)), 1);
    assert_eq!(world.state(at(90, 90)), ChunkState::Unloaded);
}

#[test]
fn a_file_with_another_chunk_or_bad_tiles_is_turned_down() {
    let other = encode(&gen_chunk(at(1, 0)));
    assert_eq!(load_chunk(at(0, 0), Ok(other.clone())), Err(LoadError::Decode));
    assert_eq!(load_chunk(at(1, 0), Ok(other)), Ok(gen_chunk(at(1, 0))));

    let outside = ChunkData {
        chunk_index: at(0, 0),
        tiles: vec![TileData { tile_index: UVec2::new(8, 0), ground: Ground::Grass }],
    };
    assert_eq!(load_chunk(at(0, 0), Ok(encode(&outside))), Err(LoadError::Decode));

    let twice = ChunkData {
        chunk_index: at(0, 0),
        tiles: vec![
            TileData { tile_index: UVec2::new(1, 1), ground: Ground::Grass },
            TileData { tile_index: UVec2::new(1, 1), ground: Ground::Dirt },
        ],
    };
    assert_eq!(load_chunk(at(0, 0), Ok(encode(&twice))), Err(LoadError::Decode));
}

#[test]
fn a_loaded_chunk_that_does_not_fit_is_turned_down() {
    let viewers = vec![at(0, 0)];
    let stored = vec![at(0, 0)];

    let mut world = World::new();
    world.load_deload_chunks(&viewers, ViewDistance(20), &stored);
    assert_eq!(world.task_poll(at(0, 0), Some(Ok(gen_chunk(at(1, 0))))), Err(LoadError::Decode));
    assert_eq!(world.state(at(0, 0)), ChunkState::Unloaded);
    assert_eq!(world.live_copies(at(1, 0)), 1);
    assert_eq!(world.extract_chunk_data(at(1, 0)), Some(gen_chunk(at(1, 0))));

    let mut world = World::new();
    world.load_deload_chunks(&viewers, ViewDistance(20), &stored);
    let outside = ChunkData {
        chunk_index: at(0, 0),
        tiles: vec![TileData { tile_index: UVec2::new(0, 8), ground: Ground::Grass }],
    };
    assert_eq!(world.task_poll(at(0, 0), Some(Ok(outside))), Err(LoadError::Decode));
    assert_eq!(world.state(at(0, 0)), ChunkState::Unloaded);
    assert!(world.loading().is_empty());
}

#[test]
fn a_chunk_with_missing_tiles_can_be_loaded() {
    let mut world = World::new();
    world.load_deload_chunks(&vec![at(0, 0)], ViewDistance(20), &vec![at(0, 0)]);
    let sparse = ChunkData {
        chunk_index: at(0, 0),
        tiles: vec![TileData { tile_index: UVec2::new(7, 7), ground: Ground::Stone }],
    };
    let outcome = load_chunk(at(0, 0), Ok(encode(&sparse)));
    assert_eq!(world.task_poll(at(0, 0), Some(outcome)), Ok(ChunkState::Resident));
    assert_eq!(world.extract_chunk_data(at(0, 0)), Some(sparse));
    assert!(!world.set_ground(at(0, 0), UVec2::new(0, 0), Ground::Dirt));
    assert!(world.set_ground(at(0, 0), UVec2::new(7, 7), Ground::Dirt));
}

#[test]
fn a_load_that_is_no_longer_wanted_is_applied_and_evicted_by_the_next_step() {
    let mut world = World::new();
    world.load_deload_chunks(&vec![at(0, 0)], ViewDistance(20), &vec![at(-3, -3)]);
    let step = world.load_deload_chunks(&vec![at(5000, 5000)], ViewDistance(20), &no_files());
    assert_eq!(step.saves.len(), 35);
    assert_eq!(world.state(at(-3, -3)), ChunkState::PendingLoad);
    let outcome = load_chunk(at(-3, -3), Ok(encode(&gen_chunk(at(-3, -3)))));
    assert_eq!(world.task_poll(at(-3, -3), Some(outcome)), Ok(ChunkState::Resident));
    let next = world.load_deload_chunks(&vec![at(5000, 5000)], ViewDistance(20), &no_files());
    assert_eq!(next.saves, vec![gen_chunk(at(-3, -3))]);
    assert!(next.loads.is_empty() && next.spawned.is_empty());
    assert_eq!(world.state(at(-3, -3)), ChunkState::Unloaded);
}

#[test]
fn no_chunk_is_live_twice() {
    let mut world = World::new();
    let viewers = vec![at(0, 0), at(100, 100), at(0, 0), at(-700, 30)];
    let stored = vec![at(0, 0), at(0, 0), at(-5, 0)];
    let step = world.load_deload_chunks(&viewers, ViewDistance(20), &stored);
    assert_eq!(sorted(step.loads.clone()), vec![at(-5, 0), at(0, 0)]);
    world.task_poll(at(0, 0), Some(load_chunk(at(0, 0), Ok(encode(&gen_chunk(at(0, 0))))))).unwrap();
    world.load_deload_chunks(&viewers, ViewDistance(20), &stored);
    world.load_deload_chunks(&vec![at(200, 0)], ViewDistance(20), &stored);
    world.load_deload_chunks(&viewers, ViewDistance(20), &no_files());
    let resident = world.resident();
    for x in -8..8 {
        for y in -8..8 {
            let copies = world.live_copies(at(x, y));
            assert!(copies <= 1);
            assert_eq!(copies == 1, resident.contains(&at(x, y)));
            assert!(!(world.is_resident(at(x, y)) && world.is_loading(at(x, y))));
        }
    }
    let mut seen = sorted(resident.clone());
    seen.dedup();
    assert_eq!(seen.len(), resident.len());
}

#[test]
fn the_order_of_the_viewers_does_not_matter() {
    let stored = vec![at(1, 0), at(4, 4)];
    let mut a = World::new();
    let mut b = World::new();
    let step_a = a.load_deload_chunks(&vec![at(0, 0), at(900, 900)], ViewDistance(20), &stored);
    let step_b = b.load_deload_chunks(&vec![at(900, 900), at(0, 0)], ViewDistance(20), &stored);
    assert_eq!(sorted(a.resident()), sorted(b.resident()));
    assert_eq!(sorted(a.loading()), sorted(b.loading()));
    assert_eq!(sorted(step_a.loads), sorted(step_b.loads));
    assert_eq!(sorted(step_a.spawned), sorted(step_b.spawned));
}

#[test]
fn without_viewers_everything_is_evicted() {
    let mut world = World::new();
    world.load_deload_chunks(&vec![at(0, 0)], ViewDistance(1), &no_files());
    assert_eq!(sorted(world.resident()), square(-1, 0, -1, 0));
    let step = world.load_deload_chunks(&Vec::new(), ViewDistance(1), &no_files());
    assert_eq!(step.saves.len(), 4);
    assert!(world.resident().is_empty());
}

#[test]
fn a_view_distance_of_zero_shows_the_chunk_under_the_viewer() {
    let mut world = World::new();
    world.load_deload_chunks(&vec![at(-1, 256)], ViewDistance(0), &no_files());
    assert_eq!(world.resident(), vec![at(-1, 1)]);
}

#[test]
fn missing_chunks_lists_what_the_next_step_brings_in() {
    let mut world = World::new();
    let viewers = vec![at(0, 0), at(10, 10)];
    assert_eq!(sorted(world.missing_chunks(&viewers, ViewDistance(20))), square(-3, 2, -3, 2));
    world.load_deload_chunks(&viewers, ViewDistance(20), &vec![at(0, 0)]);
    assert!(world.missing_chunks(&viewers, ViewDistance(20)).is_empty());
    assert_eq!(
        sorted(world.missing_chunks(&vec![at(300, 0)], ViewDistance(20))),
        square(3, 3, -3, 2)
    );
}

#[test]
fn spawn_chunk_stub_turns_down_duplicates_and_bad_tiles() {
    let mut world = World::new();
    assert_eq!(world.spawn_chunk_stub(gen_chunk(at(7, 7))), Ok(()));
    assert_eq!(world.spawn_chunk_stub(gen_chunk(at(7, 7))), Err(SpawnError::Duplicate));
    let bad = ChunkData {
        chunk_index: at(8, 8),
        tiles: vec![TileData { tile_index: UVec2::new(0, 8), ground: Ground::Grass }],
    };
    assert_eq!(world.spawn_chunk_stub(bad), Err(SpawnError::Malformed));
    world.load_deload_chunks(&vec![at(7 * 256, 7 * 256)], ViewDistance(0), &vec![]);
    world.load_deload_chunks(&vec![at(0, 0)], ViewDistance(0), &vec![at(0, 0)]);
    assert_eq!(world.spawn_chunk_stub(gen_chunk(at(0, 0))), Err(SpawnError::Duplicate));
    assert_eq!(world.live_copies(at(7, 7)), 0);
    assert_eq!(world.state(at(0, 0)), ChunkState::PendingLoad);
}

#[test]
fn despawn_chunk_hands_the_chunk_back() {
    let mut world = World::new();
    world.spawn_chunk_stub(gen_chunk(at(1, 2))).unwrap();
    world.spawn_chunk_stub(gen_chunk(at(3, 4))).unwrap();
    assert_eq!(world.despawn_chunk(at(9, 9)), None);
    assert_eq!(world.despawn_chunk(at(1, 2)), Some(gen_chunk(at(1, 2))));
    assert_eq!(world.despawn_chunk(at(1, 2)), None);
    assert_eq!(world.resident(), vec![at(3, 4)]);
}

#[test]
fn apply_action_digs_under_the_position() {
    let mut world = World::new();
    world.load_deload_chunks(&vec![at(0, 0)], ViewDistance(20), &no_files());
    assert!(world.apply_action(at(300, -1)));
    let chunk = world.extract_chunk_data(at(1, -1)).unwrap();
    assert_eq!(chunk.ground_at(UVec2::new(1, 7)), Some(Ground::Dirt));
    assert_eq!(chunk.ground_at(UVec2::new(1, 6)), Some(Ground::Grass));
    let dirt = chunk.tiles.iter().filter(|t| t.ground == Ground::Dirt).count();
    assert_eq!(dirt, 1);
    assert!(!world.apply_action(at(100_000, 0)));
}
