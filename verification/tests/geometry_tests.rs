use chunk_streaming::math::div_floor;
use chunk_streaming::{
    chunk_indices_inside, file_name, gen_chunk, locate, view_border, Chunk,
    ChunkData, ChunkPosExt, Ground, I64Vec2, IVec2, Rect, TileData, TilePos, TilemapSize, UVec2,
    ViewDistance,
};

fn rect(min_x: i64, min_y: i64, max_x: i64, max_y: i64) -> Rect {
    Rect { min: I64Vec2::new(min_x, min_y), max: I64Vec2::new(max_x, max_y) }
}

fn square(x_from: i32, x_to: i32, y_from: i32, y_to: i32) -> Vec<IVec2> {
    let mut list = Vec::new();
    for x in x_from..=x_to {
        for y in y_from..=y_to {
            list.push(IVec2::new(x, y));
        }
    }
    list
}

#[test]
fn div_floor_rounds_down() {
    assert_eq!(div_floor(640, 256), 2);
    assert_eq!(div_floor(-640, 256), -3);
    assert_eq!(div_floor(-256, 256), -1);
    assert_eq!(div_floor(-1, 256), -1);
    assert_eq!(div_floor(0, 256), 0);
    assert_eq!(div_floor(255, 256), 0);
    assert_eq!(div_floor(i64::MIN, 256), i64::MIN / 256);
    assert_eq!(div_floor(i64::MIN, 7), i64::MIN / 7 - 1);
    assert_eq!(div_floor(i64::MAX, 1), i64::MAX);
}

#[test]
fn a_chunk_starts_at_its_index_times_its_length() {
    let chunk = Chunk { chunk_index: IVec2::new(-3, 2) };
    assert_eq!(chunk.get_world_coords(), I64Vec2::new(-768, 512));
    assert_eq!(chunk.get_size(), I64Vec2::new(256, 256));
    assert_eq!(chunk.tilemap_translation(), I64Vec2::new(-752, 528));
    let far = Chunk { chunk_index: IVec2::new(i32::MIN, i32::MAX) };
    assert_eq!(far.get_world_coords(), I64Vec2::new(-549_755_813_888, 549_755_813_632));
}

#[test]
fn the_window_reaches_the_view_distance_in_tiles_to_each_side() {
    assert_eq!(view_border(IVec2::new(0, 0), ViewDistance(20)), rect(-640, -640, 640, 640));
    assert_eq!(view_border(IVec2::new(300, -5), ViewDistance(20)), rect(-340, -645, 940, 635));
    assert_eq!(view_border(IVec2::new(7, 7), ViewDistance(0)), rect(7, 7, 7, 7));
    assert_eq!(
        view_border(IVec2::new(i32::MAX, i32::MIN), ViewDistance(u16::MAX)),
        rect(2_145_386_527, -2_149_580_768, 2_149_580_767, -2_145_386_528)
    );
    assert_eq!(ViewDistance::default(), ViewDistance(20));
}

#[test]
fn chunk_indices_inside_lists_the_overlapping_chunks_in_order() {
    assert_eq!(chunk_indices_inside(rect(-640, -640, 640, 640)), square(-3, 2, -3, 2));
    assert_eq!(chunk_indices_inside(rect(0, 0, 0, 0)), vec![IVec2::new(0, 0)]);
    assert_eq!(chunk_indices_inside(rect(-1, -1, -1, -1)), vec![IVec2::new(-1, -1)]);
    assert_eq!(chunk_indices_inside(rect(0, 0, 255, 255)), vec![IVec2::new(0, 0)]);
    assert_eq!(chunk_indices_inside(rect(0, 0, 256, 255)), square(0, 1, 0, 0));
    assert_eq!(chunk_indices_inside(rect(-512, 0, 768, 0)), square(-2, 3, 0, 0));
    assert_eq!(chunk_indices_inside(rect(-513, 0, 767, 0)), square(-3, 2, 0, 0));
}

#[test]
fn chunk_indices_inside_of_an_empty_rectangle_is_empty() {
    assert!(chunk_indices_inside(rect(1, 0, 0, 0)).is_empty());
    assert!(chunk_indices_inside(rect(0, 5, 100, 4)).is_empty());
}

#[test]
fn chunk_indices_inside_stays_within_the_indices_there_are() {
    let top = i32::MAX as i64 * 256;
    assert_eq!(
        chunk_indices_inside(rect(top, 0, i64::MAX, 0)),
        vec![IVec2::new(i32::MAX, 0)]
    );
    assert!(chunk_indices_inside(rect(top + 256, 0, i64::MAX, 0)).is_empty());
    let bottom = i32::MIN as i64 * 256;
    assert_eq!(
        chunk_indices_inside(rect(i64::MIN, 0, bottom, 0)),
        vec![IVec2::new(i32::MIN, 0)]
    );
    assert!(chunk_indices_inside(rect(i64::MIN, 0, bottom - 1, 0)).is_empty());
}

#[test]
fn locate_finds_the_chunk_and_the_tile_of_a_point() {
    assert_eq!(
        locate(IVec2::new(0, 0)),
        (Chunk { chunk_index: IVec2::new(0, 0) }, TilePos::new(0, 0))
    );
    assert_eq!(
        locate(IVec2::new(-1, -1)),
        (Chunk { chunk_index: IVec2::new(-1, -1) }, TilePos::new(7, 7))
    );
    assert_eq!(
        locate(IVec2::new(300, 31)),
        (Chunk { chunk_index: IVec2::new(1, 0) }, TilePos::new(1, 0))
    );
    assert_eq!(
        locate(IVec2::new(i32::MIN, i32::MAX)),
        (Chunk { chunk_index: IVec2::new(-8_388_608, 8_388_607) }, TilePos::new(0, 7))
    );
    assert_eq!(Chunk::containing(IVec2::new(-257, 256)), Chunk { chunk_index: IVec2::new(-2, 1) });
}

#[test]
fn a_chunk_finds_the_tile_under_a_point_only_inside_itself() {
    let chunk = Chunk { chunk_index: IVec2::new(1, -1) };
    assert_eq!(chunk.tile_at(IVec2::new(256, -256)), Some(TilePos::new(0, 0)));
    assert_eq!(chunk.tile_at(IVec2::new(511, -1)), Some(TilePos::new(7, 7)));
    assert_eq!(chunk.tile_at(IVec2::new(300, -200)), Some(TilePos::new(1, 1)));
    assert_eq!(chunk.tile_at(IVec2::new(255, -1)), None);
    assert_eq!(chunk.tile_at(IVec2::new(512, -1)), None);
    assert_eq!(chunk.tile_at(IVec2::new(300, 0)), None);
    assert_eq!(chunk.tile_at(IVec2::new(300, -257)), None);
    assert_eq!(chunk.tile_world_coords(TilePos::new(1, 1)), I64Vec2::new(288, -224));
}

#[test]
fn positions_in_a_chunk_and_places_of_tiles() {
    assert_eq!(TilePos::from_in_chunk_pos(I64Vec2::new(0, 0)), Some(TilePos::new(0, 0)));
    assert_eq!(TilePos::from_in_chunk_pos(I64Vec2::new(31, 32)), Some(TilePos::new(0, 1)));
    assert_eq!(TilePos::from_in_chunk_pos(I64Vec2::new(255, 255)), Some(TilePos::new(7, 7)));
    assert_eq!(TilePos::from_in_chunk_pos(I64Vec2::new(256, 0)), None);
    assert_eq!(TilePos::from_in_chunk_pos(I64Vec2::new(-1, 0)), None);
    assert_eq!(TilePos::from_in_chunk_pos(I64Vec2::new(0, -5)), None);
    assert_eq!(TilePos::from_in_chunk_pos(I64Vec2::new(i64::MAX, i64::MIN)), None);
    assert_eq!(TilePos::new(3, 7).get_in_chunk_pos(), I64Vec2::new(96, 224));
    assert_eq!(
        TilePos::from_in_chunk_pos(TilePos::new(3, 7).get_in_chunk_pos()),
        Some(TilePos::new(3, 7))
    );
    assert_eq!(TilePos::new(3, 7).tile_index(), UVec2::new(3, 7));
}

#[test]
fn from_i32_pair_checks_the_map_size() {
    let size = TilemapSize { x: 8, y: 4 };
    assert_eq!(TilePos::from_i32_pair(0, 0, &size), Some(TilePos::new(0, 0)));
    assert_eq!(TilePos::from_i32_pair(7, 3, &size), Some(TilePos::new(7, 3)));
    assert_eq!(TilePos::from_i32_pair(8, 3, &size), None);
    assert_eq!(TilePos::from_i32_pair(7, 4, &size), None);
    assert_eq!(TilePos::from_i32_pair(-1, 0, &size), None);
    assert_eq!(TilePos::from_i32_pair(0, i32::MIN, &size), None);
}

#[test]
fn a_generated_chunk_is_all_grass_column_by_column() {
    let chunk = gen_chunk(IVec2::new(4, -4));
    assert_eq!(chunk.chunk_index, IVec2::new(4, -4));
    assert_eq!(chunk.tiles.len(), 64);
    assert_eq!(chunk.tiles[0], TileData { tile_index: UVec2::new(0, 0), ground: Ground::Grass });
    assert_eq!(chunk.tiles[1], TileData { tile_index: UVec2::new(0, 1), ground: Ground::Grass });
    assert_eq!(chunk.tiles[8], TileData { tile_index: UVec2::new(1, 0), ground: Ground::Grass });
    assert_eq!(chunk.tiles[63], TileData { tile_index: UVec2::new(7, 7), ground: Ground::Grass });
    for (k, tile) in chunk.tiles.iter().enumerate() {
        assert_eq!(tile.tile_index, UVec2::new(k as u32 / 8, k as u32 % 8));
        assert_eq!(tile.ground, Ground::Grass);
    }
    assert!(chunk.is_well_formed());
    assert_eq!(chunk.snapshot(), chunk);
}

#[test]
fn well_formed_tiles_lie_inside_the_chunk_and_apart() {
    let tile = |x, y| TileData { tile_index: UVec2::new(x, y), ground: Ground::Stone };
    let chunk = |tiles| ChunkData { chunk_index: IVec2::new(0, 0), tiles };
    assert!(chunk(vec![]).is_well_formed());
    assert!(chunk(vec![tile(0, 0), tile(7, 7), tile(0, 7)]).is_well_formed());
    assert!(!chunk(vec![tile(8, 0)]).is_well_formed());
    assert!(!chunk(vec![tile(0, 8)]).is_well_formed());
    assert!(!chunk(vec![tile(0, 0), tile(1, 1), tile(0, 0)]).is_well_formed());
    assert!(!chunk(vec![tile(0, 0), tile(u32::MAX, 1)]).is_well_formed());
    let c = chunk(vec![tile(2, 3), tile(2, 4)]);
    assert_eq!(c.ground_at(UVec2::new(2, 4)), Some(Ground::Stone));
    assert_eq!(c.ground_at(UVec2::new(4, 2)), None);
}

#[test]
fn the_backing_file_is_named_by_the_index() {
    assert_eq!(file_name(IVec2::new(-3, 2)), "world/-3_2.ron");
    assert_eq!(file_name(IVec2::new(0, 0)), "world/0_0.ron");
    assert_eq!(file_name(IVec2::new(10, -10)), "world/10_-10.ron");
    assert_eq!(
        file_name(IVec2::new(i32::MIN, i32::MAX)),
        "world/-2147483648_2147483647.ron"
    );
    assert_eq!(file_name(IVec2::new(12, 3)), format!("world/{}_{}.ron", 12, 3));
    assert_ne!(file_name(IVec2::new(1, 23)), file_name(IVec2::new(12, 3)));
}

#[test]
fn the_texture_follows_the_ground() {
    assert_eq!(Ground::Grass.texture_index(0), 0);
    assert_eq!(Ground::Grass.texture_index(31), 31);
    assert_eq!(Ground::Grass.texture_index(32), 0);
    assert_eq!(Ground::Grass.texture_index(100), 4);
    assert_eq!(Ground::Grass.texture_index(u32::MAX), 31);
    assert_eq!(Ground::Dirt.texture_index(7), 32);
    assert_eq!(Ground::Stone.texture_index(7), 4);
    assert_eq!(Ground::Water.texture_index(u32::MAX), 4);
}
