//! The backing file of a chunk: how a chunk is written as bytes and read
//! back, and the name under which it is kept.
//!
//! A chunk is kept as one line of text, without blanks:
//!
//! ```text
//! (chunk_index:(-3,2),tiles:[(tile_index:(0,0),ground:Grass),(tile_index:(0,1),ground:Dirt)])
//! ```

use crate::chunk::{ChunkData, ChunkView, TileData};
use crate::ground::Ground;
use crate::math::{IVec2, UVec2};
use crate::text::{
    int_text, is_digit, lemma_digits_end_of_text, lemma_int_text, lemma_int_text_unique,
    lemma_nat_text, lemma_nat_text_unique, nat_text, push_int, push_nat, read_digits,
};
use vstd::prelude::*;

verus! {

/// Why bytes could not be read as a chunk: they are not what `encode` writes
/// for any chunk.
#[derive(Clone, Copy, Debug, PartialEq, Eq, Structural)]
pub struct DecodeError;

/// The text that opens a chunk: `(chunk_index:(`.
pub open spec fn chunk_head() -> Seq<u8> {
    seq![
        '(' as u8,
        'c' as u8,
        'h' as u8,
        'u' as u8,
        'n' as u8,
        'k' as u8,
        '_' as u8,
        'i' as u8,
        'n' as u8,
        'd' as u8,
        'e' as u8,
        'x' as u8,
        ':' as u8,
        '(' as u8,
    ]
}

/// The text between a chunk's index and its tiles: `),tiles:[`.
pub open spec fn chunk_mid() -> Seq<u8> {
    seq![
        ')' as u8,
        ',' as u8,
        't' as u8,
        'i' as u8,
        'l' as u8,
        'e' as u8,
        's' as u8,
        ':' as u8,
        '[' as u8,
    ]
}

/// The text that closes a chunk: `])`.
pub open spec fn chunk_tail() -> Seq<u8> {
    seq![']' as u8, ')' as u8]
}

/// The text that opens a tile: `(tile_index:(`.
pub open spec fn tile_head() -> Seq<u8> {
    seq![
        '(' as u8,
        't' as u8,
        'i' as u8,
        'l' as u8,
        'e' as u8,
        '_' as u8,
        'i' as u8,
        'n' as u8,
        'd' as u8,
        'e' as u8,
        'x' as u8,
        ':' as u8,
        '(' as u8,
    ]
}

/// The text between a tile's index and its ground: `),ground:`.
pub open spec fn tile_mid() -> Seq<u8> {
    seq![
        ')' as u8,
        ',' as u8,
        'g' as u8,
        'r' as u8,
        'o' as u8,
        'u' as u8,
        'n' as u8,
        'd' as u8,
        ':' as u8,
    ]
}

/// The one byte `,` that parts two numbers or two tiles.
pub open spec fn comma() -> Seq<u8> {
    seq![',' as u8]
}

/// The one byte `)` that closes a tile.
pub open spec fn close() -> Seq<u8> {
    seq![')' as u8]
}

/// The name under which a ground is written.
pub open spec fn ground_name(ground: Ground) -> Seq<u8> {
    match ground {
        Ground::Dirt => seq!['D' as u8, 'i' as u8, 'r' as u8, 't' as u8],
        Ground::Grass => seq!['G' as u8, 'r' as u8, 'a' as u8, 's' as u8, 's' as u8],
        Ground::Stone => seq!['S' as u8, 't' as u8, 'o' as u8, 'n' as u8, 'e' as u8],
        Ground::Water => seq!['W' as u8, 'a' as u8, 't' as u8, 'e' as u8, 'r' as u8],
    }
}

/// The text of one tile, followed by `rest`.
pub open spec fn tile_text_then(tile: TileData, rest: Seq<u8>) -> Seq<u8> {
    tile_head() + (nat_text(tile.tile_index.x as nat) + (comma() + (nat_text(
        tile.tile_index.y as nat,
    ) + (tile_mid() + (ground_name(tile.ground) + (close() + rest))))))
}

/// The text of the tiles from place `k` on, each but the first of all with
/// a comma before it, and then the text that closes the chunk.
pub open spec fn tiles_text_from(tiles: Seq<TileData>, k: int) -> Seq<u8>
    decreases tiles.len() - k,
{
    if k < 0 || k >= tiles.len() {
        chunk_tail()
    } else if k == 0 {
        tile_text_then(tiles[k], tiles_text_from(tiles, k + 1))
    } else {
        comma() + tile_text_then(tiles[k], tiles_text_from(tiles, k + 1))
    }
}

/// The bytes that stand for a chunk in its backing file.
pub open spec fn encode_spec(chunk: ChunkView) -> Seq<u8> {
    chunk_head() + (int_text(chunk.chunk_index.x as int) + (comma() + (int_text(
        chunk.chunk_index.y as int,
    ) + (chunk_mid() + tiles_text_from(chunk.tiles, 0)))))
}

/// The chunk that `bytes` stand for, if they stand for one: the chunk that
/// is written as exactly these bytes.
pub open spec fn decode_spec(bytes: Seq<u8>) -> Option<ChunkView> {
    if exists|chunk: ChunkView| encode_spec(chunk) == bytes {
        Some(choose|chunk: ChunkView| encode_spec(chunk) == bytes)
    } else {
        None
    }
}

fn head_bytes() -> (v: Vec<u8>)
    ensures
        v@ == chunk_head(),
{
    let mut v: Vec<u8> = Vec::new();
    v.push('(' as u8);
    v.push('c' as u8);
    v.push('h' as u8);
    v.push('u' as u8);
    v.push('n' as u8);
    v.push('k' as u8);
    v.push('_' as u8);
    v.push('i' as u8);
    v.push('n' as u8);
    v.push('d' as u8);
    v.push('e' as u8);
    v.push('x' as u8);
    v.push(':' as u8);
    v.push('(' as u8);
    assert(v@ =~= chunk_head());
    v
}

fn mid_bytes() -> (v: Vec<u8>)
    ensures
        v@ == chunk_mid(),
{
    let mut v: Vec<u8> = Vec::new();
    v.push(')' as u8);
    v.push(',' as u8);
    v.push('t' as u8);
    v.push('i' as u8);
    v.push('l' as u8);
    v.push('e' as u8);
    v.push('s' as u8);
    v.push(':' as u8);
    v.push('[' as u8);
    assert(v@ =~= chunk_mid());
    v
}

fn tail_bytes() -> (v: Vec<u8>)
    ensures
        v@ == chunk_tail(),
{
    let mut v: Vec<u8> = Vec::new();
    v.push(']' as u8);
    v.push(')' as u8);
    assert(v@ =~= chunk_tail());
    v
}

fn tile_head_bytes() -> (v: Vec<u8>)
    ensures
        v@ == tile_head(),
{
    let mut v: Vec<u8> = Vec::new();
    v.push('(' as u8);
    v.push('t' as u8);
    v.push('i' as u8);
    v.push('l' as u8);
    v.push('e' as u8);
    v.push('_' as u8);
    v.push('i' as u8);
    v.push('n' as u8);
    v.push('d' as u8);
    v.push('e' as u8);
    v.push('x' as u8);
    v.push(':' as u8);
    v.push('(' as u8);
    assert(v@ =~= tile_head());
    v
}

fn tile_mid_bytes() -> (v: Vec<u8>)
    ensures
        v@ == tile_mid(),
{
    let mut v: Vec<u8> = Vec::new();
    v.push(')' as u8);
    v.push(',' as u8);
    v.push('g' as u8);
    v.push('r' as u8);
    v.push('o' as u8);
    v.push('u' as u8);
    v.push('n' as u8);
    v.push('d' as u8);
    v.push(':' as u8);
    assert(v@ =~= tile_mid());
    v
}

fn comma_bytes() -> (v: Vec<u8>)
    ensures
        v@ == comma(),
{
    let mut v: Vec<u8> = Vec::new();
    v.push(',' as u8);
    assert(v@ =~= comma());
    v
}

fn close_bytes() -> (v: Vec<u8>)
    ensures
        v@ == close(),
{
    let mut v: Vec<u8> = Vec::new();
    v.push(')' as u8);
    assert(v@ =~= close());
    v
}

fn ground_bytes(ground: Ground) -> (v: Vec<u8>)
    ensures
        v@ == ground_name(ground),
{
    let mut v: Vec<u8> = Vec::new();
    match ground {
        Ground::Dirt => {
            v.push('D' as u8);
            v.push('i' as u8);
            v.push('r' as u8);
            v.push('t' as u8);
        },
        Ground::Grass => {
            v.push('G' as u8);
            v.push('r' as u8);
            v.push('a' as u8);
            v.push('s' as u8);
            v.push('s' as u8);
        },
        Ground::Stone => {
            v.push('S' as u8);
            v.push('t' as u8);
            v.push('o' as u8);
            v.push('n' as u8);
            v.push('e' as u8);
        },
        Ground::Water => {
            v.push('W' as u8);
            v.push('a' as u8);
            v.push('t' as u8);
            v.push('e' as u8);
            v.push('r' as u8);
        },
    }
    assert(v@ =~= ground_name(ground));
    v
}

/// Writes `part` at the end of `out`.
fn push_all(out: &mut Vec<u8>, part: &Vec<u8>)
    ensures
        final(out)@ == old(out)@ + part@,
{
    let n: usize = part.len();
    let mut i: usize = 0;
    while i < n
        invariant
            n == part@.len(),
            i <= n,
            out@ == old(out)@ + part@.subrange(0, i as int),
        decreases n - i,
    {
        out.push(part[i]);
        assert(out@ =~= old(out)@ + part@.subrange(0, i as int + 1));
        i += 1;
    }
    assert(part@.subrange(0, n as int) =~= part@);
}

/// Writes one tile at the end of `out`.
fn push_tile(out: &mut Vec<u8>, tile: &TileData)
    ensures
        forall|rest: Seq<u8>|
            #![trigger tile_text_then(*tile, rest)]
            final(out)@ + rest == old(out)@ + tile_text_then(*tile, rest),
{
    let ghost o0 = out@;
    push_all(out, &tile_head_bytes());
    let ghost o1 = out@;
    push_nat(out, tile.tile_index.x as u64);
    let ghost o2 = out@;
    push_all(out, &comma_bytes());
    let ghost o3 = out@;
    push_nat(out, tile.tile_index.y as u64);
    let ghost o4 = out@;
    push_all(out, &tile_mid_bytes());
    let ghost o5 = out@;
    push_all(out, &ground_bytes(tile.ground));
    let ghost o6 = out@;
    push_all(out, &close_bytes());
    proof {
        assert forall|rest: Seq<u8>| #![trigger tile_text_then(*tile, rest)]
           out@ + rest == o0 + tile_text_then(*tile, rest) by {
            let t6 = close() + rest;
            let t5 = ground_name(tile.ground) + t6;
            let t4 = tile_mid() + t5;
            let t3 = nat_text(tile.tile_index.y as nat) + t4;
            let t2 = comma() + t3;
            let t1 = nat_text(tile.tile_index.x as nat) + t2;
            assert(out@ + rest =~= o6 + t6);
            assert(o6 + t6 =~= o5 + t5);
            assert(o5 + t5 =~= o4 + t4);
            assert(o4 + t4 =~= o3 + t3);
            assert(o3 + t3 =~= o2 + t2);
            assert(o2 + t2 =~= o1 + t1);
            assert(o1 + t1 =~= o0 + tile_text_then(*tile, rest));
        }
    }
}

/// Writes a chunk as the bytes of its backing file. Every chunk can be written.
pub fn encode(chunk: &ChunkData) -> (bytes: Vec<u8>)
    ensures
        bytes@ == encode_spec(chunk@),
        decode_spec(bytes@) == Some(chunk@),
{
    proof {
        lemma_decode_encode(chunk@);
    }
    let mut out: Vec<u8> = Vec::new();
    let ghost tiles = chunk.tiles@;
    push_all(&mut out, &head_bytes());
    let ghost o1 = out@;
    push_int(&mut out, chunk.chunk_index.x);
    let ghost o2 = out@;
    push_all(&mut out, &comma_bytes());
    let ghost o3 = out@;
    push_int(&mut out, chunk.chunk_index.y);
    let ghost o4 = out@;
    push_all(&mut out, &mid_bytes());
    proof {
        let t5 = tiles_text_from(tiles, 0);
        let t4 = chunk_mid() + t5;
        let t3 = int_text(chunk.chunk_index.y as int) + t4;
        let t2 = comma() + t3;
        let t1 = int_text(chunk.chunk_index.x as int) + t2;
        assert(o1 =~= chunk_head());
        assert(out@ + t5 =~= o4 + t4);
        assert(o4 + t4 =~= o3 + t3);
        assert(o3 + t3 =~= o2 + t2);
        assert(o2 + t2 =~= o1 + t1);
    }
    let n: usize = chunk.tiles.len();
    let mut k: usize = 0;
    while k < n
        invariant
            n == chunk.tiles@.len(),
            tiles == chunk.tiles@,
            k <= n,
            out@ + tiles_text_from(tiles, k as int) == encode_spec(chunk@),
        decreases n - k,
    {
        let ghost before = out@;
        if k > 0 {
            push_all(&mut out, &comma_bytes());
        }
        let ghost sep = out@;
        push_tile(&mut out, &chunk.tiles[k]);
        proof {
            let rest = tiles_text_from(tiles, k as int + 1);
            let tile = tiles[k as int];
            assert(out@ + rest == sep + tile_text_then(tile, rest));
            if k > 0 {
                assert(sep + tile_text_then(tile, rest) =~= before + (comma() + tile_text_then(
                    tile,
                    rest,
                )));
            }
        }
        k += 1;
    }
    push_all(&mut out, &tail_bytes());
    out
}


/// Where `bytes` goes on from `pos` with `part` and then `rest`, `part`
/// stands at `pos` and `rest` behind it.
proof fn lemma_split(bytes: Seq<u8>, pos: int, part: Seq<u8>, rest: Seq<u8>)
    requires
        0 <= pos <= bytes.len(),
        bytes.subrange(pos, bytes.len() as int) == part + rest,
    ensures
        pos + part.len() <= bytes.len(),
        bytes.subrange(pos, pos + part.len()) == part,
        bytes.subrange(pos + part.len(), bytes.len() as int) == rest,
{
    let tail = bytes.subrange(pos, bytes.len() as int);
    assert(tail.len() == part.len() + rest.len());
    assert(bytes.subrange(pos, pos + part.len()) =~= part) by {
        assert forall|i: int| 0 <= i < part.len() implies bytes[pos + i] == part[i] by {
            assert(tail[i] == part[i]);
        }
    }
    assert(bytes.subrange(pos + part.len(), bytes.len() as int) =~= rest) by {
        assert forall|i: int| 0 <= i < rest.len() implies bytes[pos + part.len() + i]
            == rest[i] by {
            assert(tail[part.len() + i] == rest[i]);
        }
    }
}

/// Tests whether two runs of bytes are the same.
fn bytes_equal(a: &[u8], b: &[u8]) -> (same: bool)
    ensures
        same == (a@ == b@),
{
    if a.len() != b.len() {
        return false;
    }
    let n: usize = a.len();
    let mut i: usize = 0;
    while i < n
        invariant
            n == a@.len(),
            n == b@.len(),
            i <= n,
            forall|k: int| 0 <= k < i ==> a@[k] == b@[k],
        decreases n - i,
    {
        if a[i] != b[i] {
            return false;
        }
        i += 1;
    }
    assert(a@ =~= b@);
    true
}

/// Tests whether `part` stands in `bytes` at `pos`, and hands back where it ends.
fn expect(bytes: &[u8], pos: usize, part: &Vec<u8>) -> (next: Option<usize>)
    requires
        pos <= bytes@.len(),
    ensures
        match next {
            Some(p) => p == pos + part@.len() && p <= bytes@.len() && bytes@.subrange(
                pos as int,
                p as int,
            ) == part@,
            None => pos + part@.len() > bytes@.len() || bytes@.subrange(
                pos as int,
                pos + part@.len(),
            ) != part@,
        },
{
    let n: usize = part.len();
    if n > bytes.len() - pos {
        return None;
    }
    let mut i: usize = 0;
    while i < n
        invariant
            n == part@.len(),
            pos + n <= bytes@.len() <= usize::MAX,
            i <= n,
            forall|k: int| 0 <= k < i ==> bytes@[pos + k] == part@[k],
        decreases n - i,
    {
        if bytes[pos + i] != part[i] {
            assert(bytes@.subrange(pos as int, pos + n)[i as int] != part@[i as int]);
            return None;
        }
        i += 1;
    }
    assert(bytes@.subrange(pos as int, pos + n) =~= part@);
    Some(pos + n)
}

/// Reads a number without sign at `pos`. Where the text of `n` stands there,
/// followed by `rest`, the number read is `n` and `rest` is what is left.
fn parse_u32(bytes: &[u8], pos: usize, Ghost(n): Ghost<nat>, Ghost(rest): Ghost<Seq<u8>>) -> (res:
    Option<(u32, usize)>)
    requires
        pos <= bytes@.len(),
    ensures
        res matches Some(r) ==> pos < r.1 <= bytes@.len(),
        bytes@.subrange(pos as int, bytes@.len() as int) == nat_text(n) + rest && n <= u32::MAX
            && rest.len() > 0 && !is_digit(rest[0]) ==> (res matches Some(r) && r.0 == n && r.1
            == pos + nat_text(n).len() && bytes@.subrange(r.1 as int, bytes@.len() as int)
            == rest),
{
    proof {
        lemma_nat_text(n);
        if bytes@.subrange(pos as int, bytes@.len() as int) == nat_text(n) + rest && rest.len() > 0
            && !is_digit(rest[0]) {
            lemma_digits_end_of_text(bytes@, pos as int, nat_text(n), rest);
        }
    }
    let (end, value) = read_digits(bytes, pos);
    if end == pos {
        return None;
    }
    match value {
        Some(v) => Some((v, end)),
        None => None,
    }
}

/// Reads a number with or without a minus sign at `pos`. Where the text of
/// `v` stands there, followed by `rest`, the number read is `v` and `rest`
/// is what is left.
fn parse_i32(bytes: &[u8], pos: usize, Ghost(v): Ghost<int>, Ghost(rest): Ghost<Seq<u8>>) -> (res:
    Option<(i32, usize)>)
    requires
        pos <= bytes@.len(),
    ensures
        res matches Some(r) ==> pos < r.1 <= bytes@.len(),
        bytes@.subrange(pos as int, bytes@.len() as int) == int_text(v) + rest && i32::MIN <= v
            <= i32::MAX && rest.len() > 0 && !is_digit(rest[0]) ==> (res matches Some(r) && r.0
            == v && r.1 == pos + int_text(v).len() && bytes@.subrange(
            r.1 as int,
            bytes@.len() as int,
        ) == rest),
{
    let ghost told = bytes@.subrange(pos as int, bytes@.len() as int) == int_text(v) + rest
        && i32::MIN <= v <= i32::MAX && rest.len() > 0 && !is_digit(rest[0]);
    let ghost tail = bytes@.subrange(pos as int, bytes@.len() as int);
    let negative: bool = pos < bytes.len() && bytes[pos] == '-' as u8;
    let start: usize = if negative {
        pos + 1
    } else {
        pos
    };
    proof {
        lemma_int_text(v);
        if told {
            assert(tail.len() == int_text(v).len() + rest.len());
            assert(tail[0] == int_text(v)[0]);
            assert(tail[0] == bytes@[pos as int]);
            if v < 0 {
                let digits = nat_text((-v) as nat);
                lemma_nat_text((-v) as nat);
                assert(negative);
                assert(bytes@.subrange(start as int, bytes@.len() as int) =~= digits + rest) by {
                    assert forall|i: int| 0 <= i < digits.len() + rest.len() implies bytes@[start
                        + i] == (digits + rest)[i] by {
                        assert(tail[1 + i] == (int_text(v) + rest)[1 + i]);
                    }
                }
                lemma_digits_end_of_text(bytes@, start as int, digits, rest);
            } else {
                lemma_nat_text(v as nat);
                assert(is_digit(nat_text(v as nat)[0]));
                assert(!negative);
                lemma_digits_end_of_text(bytes@, start as int, nat_text(v as nat), rest);
            }
        }
    }
    let (end, value) = read_digits(bytes, start);
    if end == start {
        return None;
    }
    match value {
        Some(u) => {
            if negative {
                if u > 0x8000_0000u32 {
                    None
                } else {
                    let w: i64 = -(u as i64);
                    Some((w as i32, end))
                }
            } else {
                if u > 0x7fff_ffffu32 {
                    None
                } else {
                    Some((u as i32, end))
                }
            }
        },
        None => None,
    }
}

/// Reads the name of a ground at `pos`. Where the name of `ground` stands
/// there, followed by `rest`, that ground is read and `rest` is what is left.
fn parse_ground(
    bytes: &[u8],
    pos: usize,
    Ghost(ground): Ghost<Ground>,
    Ghost(rest): Ghost<Seq<u8>>,
) -> (res: Option<(Ground, usize)>)
    requires
        pos <= bytes@.len(),
    ensures
        res matches Some(r) ==> pos < r.1 <= bytes@.len(),
        bytes@.subrange(pos as int, bytes@.len() as int) == ground_name(ground) + rest ==> (res
            matches Some(r) && r.0 == ground && r.1 == pos + ground_name(ground).len()
            && bytes@.subrange(r.1 as int, bytes@.len() as int) == rest),
{
    let ghost tail = bytes@.subrange(pos as int, bytes@.len() as int);
    proof {
        if tail == ground_name(ground) + rest {
            lemma_split(bytes@, pos as int, ground_name(ground), rest);
            assert(bytes@[pos as int] == ground_name(ground)[0]) by {
                assert(tail[0] == ground_name(ground)[0]);
            }
        }
    }
    let dirt = ground_bytes(Ground::Dirt);
    if let Some(p) = expect(bytes, pos, &dirt) {
        assert(bytes@[pos as int] == bytes@.subrange(pos as int, p as int)[0]);
        return Some((Ground::Dirt, p));
    }
    let grass = ground_bytes(Ground::Grass);
    if let Some(p) = expect(bytes, pos, &grass) {
        assert(bytes@[pos as int] == bytes@.subrange(pos as int, p as int)[0]);
        return Some((Ground::Grass, p));
    }
    let stone = ground_bytes(Ground::Stone);
    if let Some(p) = expect(bytes, pos, &stone) {
        assert(bytes@[pos as int] == bytes@.subrange(pos as int, p as int)[0]);
        return Some((Ground::Stone, p));
    }
    let water = ground_bytes(Ground::Water);
    if let Some(p) = expect(bytes, pos, &water) {
        assert(bytes@[pos as int] == bytes@.subrange(pos as int, p as int)[0]);
        return Some((Ground::Water, p));
    }
    None
}

/// Reads one tile at `pos`. Where the text of `tile` stands there, followed
/// by `rest`, that tile is read and `rest` is what is left.
fn parse_tile(bytes: &[u8], pos: usize, Ghost(tile): Ghost<TileData>, Ghost(rest): Ghost<Seq<u8>>) -> (res:
    Option<(TileData, usize)>)
    requires
        pos <= bytes@.len(),
    ensures
        res matches Some(r) ==> pos < r.1 <= bytes@.len(),
        bytes@.subrange(pos as int, bytes@.len() as int) == tile_text_then(tile, rest) ==> (res
            matches Some(r) && r.0 == tile && bytes@.subrange(r.1 as int, bytes@.len() as int)
            == rest),
{
    let ghost told = bytes@.subrange(pos as int, bytes@.len() as int) == tile_text_then(tile, rest);
    let ghost t6 = close() + rest;
    let ghost t5 = ground_name(tile.ground) + t6;
    let ghost t4 = tile_mid() + t5;
    let ghost t3 = nat_text(tile.tile_index.y as nat) + t4;
    let ghost t2 = comma() + t3;
    let ghost t1 = nat_text(tile.tile_index.x as nat) + t2;
    proof {
        if told {
            lemma_split(bytes@, pos as int, tile_head(), t1);
            assert(t2[0] == comma()[0]);
            assert(t4[0] == tile_mid()[0]);
        }
    }
    let after_head = match expect(bytes, pos, &tile_head_bytes()) {
        Some(p) => p,
        None => {
            return None;
        },
    };
    let (x, after_x) = match parse_u32(bytes, after_head, Ghost(tile.tile_index.x as nat), Ghost(t2)) {
        Some(r) => r,
        None => {
            return None;
        },
    };
    proof {
        if told {
            lemma_split(bytes@, after_x as int, comma(), t3);
        }
    }
    let after_comma = match expect(bytes, after_x, &comma_bytes()) {
        Some(p) => p,
        None => {
            return None;
        },
    };
    let (y, after_y) = match parse_u32(bytes, after_comma, Ghost(tile.tile_index.y as nat), Ghost(t4)) {
        Some(r) => r,
        None => {
            return None;
        },
    };
    proof {
        if told {
            lemma_split(bytes@, after_y as int, tile_mid(), t5);
        }
    }
    let after_mid = match expect(bytes, after_y, &tile_mid_bytes()) {
        Some(p) => p,
        None => {
            return None;
        },
    };
    let (ground, after_ground) = match parse_ground(bytes, after_mid, Ghost(tile.ground), Ghost(t6)) {
        Some(r) => r,
        None => {
            return None;
        },
    };
    proof {
        if told {
            lemma_split(bytes@, after_ground as int, close(), rest);
        }
    }
    let after_close = match expect(bytes, after_ground, &close_bytes()) {
        Some(p) => p,
        None => {
            return None;
        },
    };
    Some((TileData { tile_index: UVec2 { x, y }, ground }, after_close))
}

/// Reads a chunk from the whole of `bytes`. Where `bytes` is what `encode`
/// writes for `want`, the chunk read is `want`.
fn parse_chunk(bytes: &[u8], Ghost(want): Ghost<ChunkView>) -> (res: Option<ChunkData>)
    ensures
        bytes@ == encode_spec(want) ==> (res matches Some(chunk) && chunk@ == want),
{
    let ghost told = bytes@ == encode_spec(want);
    let ghost t5 = tiles_text_from(want.tiles, 0);
    let ghost t4 = chunk_mid() + t5;
    let ghost t3 = int_text(want.chunk_index.y as int) + t4;
    let ghost t2 = comma() + t3;
    let ghost t1 = int_text(want.chunk_index.x as int) + t2;
    proof {
        if told {
            assert(bytes@.subrange(0, bytes@.len() as int) =~= bytes@);
            lemma_split(bytes@, 0, chunk_head(), t1);
            assert(t2[0] == comma()[0]);
            assert(t4[0] == chunk_mid()[0]);
        }
    }
    let after_head = match expect(bytes, 0, &head_bytes()) {
        Some(p) => p,
        None => {
            return None;
        },
    };
    let (x, after_x) = match parse_i32(bytes, after_head, Ghost(want.chunk_index.x as int), Ghost(t2)) {
        Some(r) => r,
        None => {
            return None;
        },
    };
    proof {
        if told {
            lemma_split(bytes@, after_x as int, comma(), t3);
        }
    }
    let after_comma = match expect(bytes, after_x, &comma_bytes()) {
        Some(p) => p,
        None => {
            return None;
        },
    };
    let (y, after_y) = match parse_i32(bytes, after_comma, Ghost(want.chunk_index.y as int), Ghost(t4)) {
        Some(r) => r,
        None => {
            return None;
        },
    };
    proof {
        if told {
            lemma_split(bytes@, after_y as int, chunk_mid(), t5);
        }
    }
    let after_mid = match expect(bytes, after_y, &mid_bytes()) {
        Some(p) => p,
        None => {
            return None;
        },
    };
    let tail = tail_bytes();
    let sep = comma_bytes();
    let mut tiles: Vec<TileData> = Vec::new();
    let mut pos: usize = after_mid;
    loop
        invariant
            pos <= bytes@.len(),
            tail@ == chunk_tail(),
            sep@ == comma(),
            told == (bytes@ == encode_spec(want)),
            told ==> x == want.chunk_index.x && y == want.chunk_index.y,
            told ==> tiles@.len() <= want.tiles.len() && tiles@ == want.tiles.subrange(
                0,
                tiles@.len() as int,
            ) && bytes@.subrange(pos as int, bytes@.len() as int) == tiles_text_from(
                want.tiles,
                tiles@.len() as int,
            ),
        decreases bytes@.len() - pos,
    {
        let ghost k = tiles@.len() as int;
        let ghost left = bytes@.subrange(pos as int, bytes@.len() as int);
        if let Some(p) = expect(bytes, pos, &tail) {
            if p == bytes.len() {
                proof {
                    if told {
                        if k < want.tiles.len() {
                            let next = tile_text_then(
                                want.tiles[k],
                                tiles_text_from(want.tiles, k + 1),
                            );
                            assert(left[0] == chunk_tail()[0]) by {
                                assert(bytes@.subrange(pos as int, p as int)[0] == left[0]);
                            }
                            if k == 0 {
                                assert(left[0] == tile_head()[0]);
                            } else {
                                assert(left[0] == comma()[0]);
                            }
                        }
                        assert(tiles@ =~= want.tiles);
                    }
                }
                return Some(ChunkData { chunk_index: IVec2 { x, y }, tiles });
            } else {
                proof {
                    if told {
                        if k < want.tiles.len() {
                            assert(left[0] == chunk_tail()[0]) by {
                                assert(bytes@.subrange(pos as int, p as int)[0] == left[0]);
                            }
                            if k == 0 {
                                assert(left[0] == tile_head()[0]);
                            } else {
                                assert(left[0] == comma()[0]);
                            }
                        } else {
                            assert(left.len() == 2);
                        }
                    }
                }
                return None;
            }
        }
        proof {
            if told {
                if k >= want.tiles.len() {
                    assert(left == chunk_tail());
                    assert(bytes@.subrange(pos as int, pos + 2) =~= left);
                }
            }
        }
        let ghost rest = tiles_text_from(want.tiles, k + 1);
        let start: usize = if tiles.len() > 0 {
            proof {
                if told {
                    lemma_split(bytes@, pos as int, comma(), tile_text_then(want.tiles[k], rest));
                }
            }
            match expect(bytes, pos, &sep) {
                Some(p) => p,
                None => {
                    return None;
                },
            }
        } else {
            pos
        };
        let ghost expected = if 0 <= k < want.tiles.len() {
            want.tiles[k]
        } else {
            TileData { tile_index: UVec2 { x: 0, y: 0 }, ground: Ground::Grass }
        };
        let (tile, after) = match parse_tile(bytes, start, Ghost(expected), Ghost(rest)) {
            Some(r) => r,
            None => {
                return None;
            },
        };
        tiles.push(tile);
        proof {
            if told {
                assert(tiles@ =~= want.tiles.subrange(0, k + 1));
            }
        }
        pos = after;
    }
}

/// Reads a chunk from the bytes of its backing file.
///
/// The chunk is handed back exactly where `bytes` is what `encode` writes
/// for it; any other input, a cut-off or altered file among them, is turned
/// down with an error.
pub fn decode(bytes: &[u8]) -> (res: Result<ChunkData, DecodeError>)
    ensures
        match res {
            Ok(chunk) => decode_spec(bytes@) == Some(chunk@) && bytes@ == encode_spec(chunk@),
            Err(_) => decode_spec(bytes@) is None && forall|chunk: ChunkView|
                bytes@ != #[trigger] encode_spec(chunk),
        },
{
    let ghost want = choose|chunk: ChunkView| encode_spec(chunk) == bytes@;
    proof {
        if decode_spec(bytes@) is Some {
            lemma_decode_encode(want);
        }
    }
    match parse_chunk(bytes, Ghost(want)) {
        Some(chunk) => {
            let again = encode(&chunk);
            if bytes_equal(again.as_slice(), bytes) {
                Ok(chunk)
            } else {
                Err(DecodeError)
            }
        },
        None => Err(DecodeError),
    }
}

/// Reading what was written gives back the chunk that was written: its
/// index, and its tiles with their places and grounds, in their order.
pub proof fn lemma_decode_encode(chunk: ChunkView)
    ensures
        decode_spec(encode_spec(chunk)) == Some(chunk),
{
    let bytes = encode_spec(chunk);
    let found = choose|other: ChunkView| encode_spec(other) == bytes;
    lemma_encode_injective(found, chunk);
}

/// Two texts that start with the same bytes go on alike.
proof fn lemma_same_start(part: Seq<u8>, rest1: Seq<u8>, rest2: Seq<u8>)
    requires
        part + rest1 == part + rest2,
    ensures
        rest1 == rest2,
{
    let whole = part + rest1;
    assert(whole.subrange(part.len() as int, whole.len() as int) =~= rest1);
    assert(whole.subrange(part.len() as int, whole.len() as int) =~= rest2);
}

/// The name of a ground, followed by anything, can be read in one way only.
proof fn lemma_ground_name_unique(g1: Ground, rest1: Seq<u8>, g2: Ground, rest2: Seq<u8>)
    requires
        ground_name(g1) + rest1 == ground_name(g2) + rest2,
    ensures
        g1 == g2,
        rest1 == rest2,
{
    let whole = ground_name(g1) + rest1;
    assert(whole[0] == ground_name(g1)[0]);
    assert(whole[0] == ground_name(g2)[0]);
    lemma_same_start(ground_name(g1), rest1, rest2);
}

/// The text of a tile, followed by anything, can be read in one way only.
proof fn lemma_tile_text_unique(t1: TileData, rest1: Seq<u8>, t2: TileData, rest2: Seq<u8>)
    requires
        tile_text_then(t1, rest1) == tile_text_then(t2, rest2),
    ensures
        t1 == t2,
        rest1 == rest2,
{
    let a6 = close() + rest1;
    let a5 = ground_name(t1.ground) + a6;
    let a4 = tile_mid() + a5;
    let a3 = nat_text(t1.tile_index.y as nat) + a4;
    let a2 = comma() + a3;
    let a1 = nat_text(t1.tile_index.x as nat) + a2;
    let b6 = close() + rest2;
    let b5 = ground_name(t2.ground) + b6;
    let b4 = tile_mid() + b5;
    let b3 = nat_text(t2.tile_index.y as nat) + b4;
    let b2 = comma() + b3;
    let b1 = nat_text(t2.tile_index.x as nat) + b2;
    lemma_same_start(tile_head(), a1, b1);
    assert(a2[0] == comma()[0] && b2[0] == comma()[0]);
    lemma_nat_text_unique(t1.tile_index.x as nat, a2, t2.tile_index.x as nat, b2);
    lemma_same_start(comma(), a3, b3);
    assert(a4[0] == tile_mid()[0] && b4[0] == tile_mid()[0]);
    lemma_nat_text_unique(t1.tile_index.y as nat, a4, t2.tile_index.y as nat, b4);
    lemma_same_start(tile_mid(), a5, b5);
    lemma_ground_name_unique(t1.ground, a6, t2.ground, b6);
    lemma_same_start(close(), rest1, rest2);
}

/// Two lists of tiles that agree up to place `k` and are written alike from
/// there on are the same list.
proof fn lemma_tiles_text_unique(a: Seq<TileData>, b: Seq<TileData>, k: int)
    requires
        0 <= k <= a.len(),
        k <= b.len(),
        a.subrange(0, k) == b.subrange(0, k),
        tiles_text_from(a, k) == tiles_text_from(b, k),
    ensures
        a == b,
    decreases a.len() - k,
{
    let ta = tiles_text_from(a, k);
    if k == a.len() {
        if k < b.len() {
            let next = tile_text_then(b[k], tiles_text_from(b, k + 1));
            assert(ta[0] == chunk_tail()[0]);
            if k == 0 {
                assert(next[0] == tile_head()[0]);
            } else {
                assert((comma() + next)[0] == comma()[0]);
            }
        }
        assert(a =~= a.subrange(0, k));
        assert(b =~= b.subrange(0, k));
    } else if k == b.len() {
        let next = tile_text_then(a[k], tiles_text_from(a, k + 1));
        assert(tiles_text_from(b, k)[0] == chunk_tail()[0]);
        if k == 0 {
            assert(next[0] == tile_head()[0]);
        } else {
            assert((comma() + next)[0] == comma()[0]);
        }
    } else {
        let next_a = tile_text_then(a[k], tiles_text_from(a, k + 1));
        let next_b = tile_text_then(b[k], tiles_text_from(b, k + 1));
        if k > 0 {
            lemma_same_start(comma(), next_a, next_b);
        }
        lemma_tile_text_unique(a[k], tiles_text_from(a, k + 1), b[k], tiles_text_from(b, k + 1));
        assert(a.subrange(0, k + 1) =~= a.subrange(0, k).push(a[k]));
        assert(b.subrange(0, k + 1) =~= b.subrange(0, k).push(b[k]));
        lemma_tiles_text_unique(a, b, k + 1);
    }
}

/// No two chunks are written as the same bytes.
pub proof fn lemma_encode_injective(a: ChunkView, b: ChunkView)
    requires
        encode_spec(a) == encode_spec(b),
    ensures
        a == b,
{
    let a5 = tiles_text_from(a.tiles, 0);
    let a4 = chunk_mid() + a5;
    let a3 = int_text(a.chunk_index.y as int) + a4;
    let a2 = comma() + a3;
    let a1 = int_text(a.chunk_index.x as int) + a2;
    let b5 = tiles_text_from(b.tiles, 0);
    let b4 = chunk_mid() + b5;
    let b3 = int_text(b.chunk_index.y as int) + b4;
    let b2 = comma() + b3;
    let b1 = int_text(b.chunk_index.x as int) + b2;
    lemma_same_start(chunk_head(), a1, b1);
    assert(a2[0] == comma()[0] && b2[0] == comma()[0]);
    lemma_int_text_unique(a.chunk_index.x as int, a2, b.chunk_index.x as int, b2);
    lemma_same_start(comma(), a3, b3);
    assert(a4[0] == chunk_mid()[0] && b4[0] == chunk_mid()[0]);
    lemma_int_text_unique(a.chunk_index.y as int, a4, b.chunk_index.y as int, b4);
    lemma_same_start(chunk_mid(), a5, b5);
    assert(a.tiles.subrange(0, 0) =~= b.tiles.subrange(0, 0));
    lemma_tiles_text_unique(a.tiles, b.tiles, 0);
    assert(a.chunk_index == b.chunk_index);
}

} // verus!
