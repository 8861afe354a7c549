use chunk_streaming::{decode, encode, gen_chunk, ChunkData, DecodeError, Ground, IVec2, TileData, UVec2};
use serde::ser::{Serialize, SerializeStruct, Serializer};

fn tile(x: u32, y: u32, ground: Ground) -> TileData {
    TileData { tile_index: UVec2::new(x, y), ground }
}

fn sample() -> ChunkData {
    ChunkData {
        chunk_index: IVec2::new(-3, 2),
        tiles: vec![tile(0, 0, Ground::Grass), tile(0, 1, Ground::Dirt), tile(7, 7, Ground::Water)],
    }
}

struct SavedGround(Ground);

struct SavedTile(TileData);

struct SavedChunk<'a>(&'a ChunkData);

impl Serialize for SavedGround {
    fn serialize<S: Serializer>(&self, serializer: S) -> Result<S::Ok, S::Error> {
        match self.0 {
            Ground::Dirt => serializer.serialize_unit_variant("Ground", 0, "Dirt"),
            Ground::Grass => serializer.serialize_unit_variant("Ground", 1, "Grass"),
            Ground::Stone => serializer.serialize_unit_variant("Ground", 2, "Stone"),
            Ground::Water => serializer.serialize_unit_variant("Ground", 3, "Water"),
        }
    }
}

impl Serialize for SavedTile {
    fn serialize<S: Serializer>(&self, serializer: S) -> Result<S::Ok, S::Error> {
        let mut state = serializer.serialize_struct("TileData", 2)?;
        let at = glam::UVec2::new(self.0.tile_index.x, self.0.tile_index.y);
        state.serialize_field("tile_index", &at)?;
        state.serialize_field("ground", &SavedGround(self.0.ground))?;
        state.end()
    }
}

impl Serialize for SavedChunk<'_> {
    fn serialize<S: Serializer>(&self, serializer: S) -> Result<S::Ok, S::Error> {
        let mut state = serializer.serialize_struct("ChunkData", 2)?;
        let at = glam::IVec2::new(self.0.chunk_index.x, self.0.chunk_index.y);
        let tiles: Vec<SavedTile> = self.0.tiles.iter().map(|t| SavedTile(*t)).collect();
        state.serialize_field("chunk_index", &at)?;
        state.serialize_field("tiles", &tiles)?;
        state.end()
    }
}

#[test]
fn encode_writes_the_expected_text() {
    let text = String::from_utf8(encode(&sample())).unwrap();
    assert_eq!(
        text,
        "(chunk_index:(-3,2),tiles:[(tile_index:(0,0),ground:Grass),(tile_index:(0,1),ground:Dirt),(tile_index:(7,7),ground:Water)])"
    );
}

#[test]
fn encode_of_a_chunk_without_tiles() {
    let chunk = ChunkData { chunk_index: IVec2::new(0, 0), tiles: vec![] };
    assert_eq!(String::from_utf8(encode(&chunk)).unwrap(), "(chunk_index:(0,0),tiles:[])");
    assert_eq!(decode(&encode(&chunk)), Ok(chunk));
}

#[test]
fn encode_agrees_with_ron() {
    for chunk in [sample(), gen_chunk(IVec2::new(i32::MIN, i32::MAX)), gen_chunk(IVec2::new(12, -7))] {
        let by_ron = ron::to_string(&SavedChunk(&chunk)).unwrap();
        assert_eq!(String::from_utf8(encode(&chunk)).unwrap(), by_ron);
        assert_eq!(decode(by_ron.as_bytes()), Ok(chunk));
    }
}

#[test]
fn decode_round_trip() {
    let chunk = sample();
    assert_eq!(decode(&encode(&chunk)), Ok(sample()));
    let generated = gen_chunk(IVec2::new(5, -9));
    assert_eq!(decode(&encode(&generated)), Ok(gen_chunk(IVec2::new(5, -9))));
}

#[test]
fn decode_round_trip_at_the_limits() {
    let chunk = ChunkData {
        chunk_index: IVec2::new(i32::MIN, i32::MAX),
        tiles: vec![tile(u32::MAX, 0, Ground::Stone), tile(0, u32::MAX, Ground::Dirt)],
    };
    let bytes = encode(&chunk);
    assert_eq!(
        String::from_utf8(bytes.clone()).unwrap(),
        "(chunk_index:(-2147483648,2147483647),tiles:[(tile_index:(4294967295,0),ground:Stone),(tile_index:(0,4294967295),ground:Dirt)])"
    );
    assert_eq!(decode(&bytes), Ok(chunk));
}

#[test]
fn decode_turns_down_cut_off_input() {
    let bytes = encode(&sample());
    for cut in 0..bytes.len() {
        assert_eq!(decode(&bytes[..cut]), Err(DecodeError), "cut at {}", cut);
    }
}

#[test]
fn decode_turns_down_altered_input() {
    let good = "(chunk_index:(1,2),tiles:[(tile_index:(0,0),ground:Grass)])";
    assert!(decode(good.as_bytes()).is_ok());
    for bad in [
        "",
        "garbage",
        "(chunk_index:(1,2),tiles:[(tile_index:(0,0),ground:Grass)]) ",
        " (chunk_index:(1,2),tiles:[(tile_index:(0,0),ground:Grass)])",
        "(chunk_index:(1,2),tiles:[(tile_index:(0,0),ground:Grass),])",
        "(chunk_index:(1,2),tiles:[,(tile_index:(0,0),ground:Grass)])",
        "(chunk_index:(01,2),tiles:[(tile_index:(0,0),ground:Grass)])",
        "(chunk_index:(-0,2),tiles:[(tile_index:(0,0),ground:Grass)])",
        "(chunk_index:(+1,2),tiles:[(tile_index:(0,0),ground:Grass)])",
        "(chunk_index:(1,2),tiles:[(tile_index:(-1,0),ground:Grass)])",
        "(chunk_index:(1,2),tiles:[(tile_index:(0,0),ground:Lava)])",
        "(chunk_index:(1,2),tiles:[(tile_index:(0,0),ground:grass)])",
        "(chunk_index:(2147483648,2),tiles:[])",
        "(chunk_index:(-2147483649,2),tiles:[])",
        "(chunk_index:(1,2),tiles:[(tile_index:(4294967296,0),ground:Grass)])",
        "(chunk_index:(1,2),tiles:[(tile_index:(99999999999999999999999999,0),ground:Grass)])",
        "(chunk_index:(1,2),tiles:[(tile_index:(0,0),ground:Grass)(tile_index:(0,1),ground:Grass)])",
        "(chunk_index:(1,2),tiles:[]",
        "(chunk_index:(1,2),tiles:[]))",
        "(chunk_index:(,2),tiles:[])",
    ] {
        assert_eq!(decode(bad.as_bytes()), Err(DecodeError), "{:?}", bad);
    }
}

/// A small generator of numbers that look random, the same on every run.
struct Numbers(u64);

impl Numbers {
    fn next(&mut self) -> u64 {
        self.0 = self.0.wrapping_mul(6364136223846793005).wrapping_add(1442695040888963407);
        self.0 >> 16
    }

    fn ground(&mut self) -> Ground {
        match self.next() % 4 {
            0 => Ground::Dirt,
            1 => Ground::Grass,
            2 => Ground::Stone,
            _ => Ground::Water,
        }
    }

    fn coordinate(&mut self) -> u32 {
        match self.next() % 4 {
            0 => (self.next() % 8) as u32,
            1 => (self.next() % 1000) as u32,
            2 => self.next() as u32,
            _ => u32::MAX - (self.next() % 3) as u32,
        }
    }

    fn index(&mut self) -> i32 {
        match self.next() % 4 {
            0 => (self.next() % 20) as i32 - 10,
            1 => self.next() as i32,
            2 => i32::MIN + (self.next() % 3) as i32,
            _ => i32::MAX - (self.next() % 3) as i32,
        }
    }
}

#[test]
fn many_chunks_are_written_as_ron_writes_them_and_read_back() {
    let mut numbers = Numbers(2024);
    for _ in 0..300 {
        let count = (numbers.next() % 12) as usize;
        let tiles = (0..count)
            .map(|_| tile(numbers.coordinate(), numbers.coordinate(), numbers.ground()))
            .collect();
        let chunk = ChunkData { chunk_index: IVec2::new(numbers.index(), numbers.index()), tiles };
        let bytes = encode(&chunk);
        assert_eq!(String::from_utf8(bytes.clone()).unwrap(), ron::to_string(&SavedChunk(&chunk)).unwrap());
        assert_eq!(decode(&bytes), Ok(chunk));
    }
}

#[test]
fn one_changed_byte_is_never_read_as_the_same_chunk() {
    let bytes = encode(&sample());
    for place in 0..bytes.len() {
        for change in [b'0', b'1', b',', b'(', b')', b' ', b'-', b'G'] {
            if bytes[place] == change {
                continue;
            }
            let mut altered = bytes.clone();
            altered[place] = change;
            match decode(&altered) {
                Ok(chunk) => {
                    assert_ne!(chunk, sample());
                    assert_eq!(encode(&chunk), altered);
                }
                Err(error) => assert_eq!(error, DecodeError),
            }
        }
    }
}
