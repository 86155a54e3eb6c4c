//! Decoded tiles of an overview, kept for the overview that is reduced from it.
//!
//! Tiles of a small layer are kept as they are, those of a large one as records in one
//! byte string: a byte that is 0 for one band and 1 for several, rows and columns in
//! four little-endian bytes each, for several bands their number in two, and the bytes
//! of the samples.
use crate::arith::{ceil_div, div_ceil, min_of};
use crate::bytes::{
    copy_range, lemma_u16_le_roundtrip, lemma_u32_le_roundtrip, push_u16_le,
    push_u32_le, read_u16_le, read_u32_le, u16_le, u16_le_value, u32_le, u32_le_value,
};
use crate::cog::grid::{overview_dimensions, reduced_side};
use crate::encode::sample_bytes::{
    law_raw_samples_read_back, lemma_raw_all_len, push_raw_all, raw_all, read_raw_all, samples_of,
    RawSample,
};
use crate::encode::tiles::{clone_strip_tile, StripTile, TileView};
use crate::raster::{Grid2, Grid3};
use std::collections::BTreeMap;
use vstd::prelude::*;

verus! {

/// How many bytes of decoded tiles are kept as they are.
pub const DECODED_TILE_MEMORY_LIMIT: usize = 268435456;

/// Why a tile cannot be read back.
#[derive(Debug, Clone, Copy, PartialEq, Eq, Structural)]
pub enum TileCacheError {
    UnexpectedEnd,
    ElementCountOverflow,
    InvalidTag { tag: u8 },
    UnexpectedBandLayout,
}

/// The record of a tile.
pub open spec fn tile_record<T: RawSample>(tile: TileView<T>) -> Seq<u8> {
    seq![
        if tile.multi {
            1u8
        } else {
            0u8
        },
    ] + u32_le((tile.rows as u32) as nat) + u32_le((tile.cols as u32) as nat) + (if tile.multi {
        u16_le((tile.bands as u16) as nat)
    } else {
        Seq::empty()
    }) + raw_all(tile.samples)
}

/// How many bytes the record of a tile has.
pub open spec fn record_len<T: RawSample>(tile: TileView<T>) -> int {
    (if tile.multi {
        11int
    } else {
        9int
    }) + tile.samples.len() * T::raw_len()
}

/// A record keeps all of a tile: its rows, columns and bands fit their fields.
pub open spec fn storable<T>(tile: TileView<T>) -> bool {
    &&& tile.rows <= u32::MAX
    &&& tile.cols <= u32::MAX
    &&& tile.bands <= u16::MAX
    &&& !tile.multi ==> tile.bands == 1
    &&& tile.samples.len() == tile.rows * tile.cols * tile.bands
    &&& tile.rows * tile.cols <= usize::MAX
    &&& tile.samples.len() <= usize::MAX
}

/// What the samples of a record give, which start at `at`.
pub open spec fn sized_tile<T: RawSample>(
    bytes: Seq<u8>,
    at: int,
    multi: bool,
    rows: nat,
    cols: nat,
    bands: nat,
) -> Result<Option<TileView<T>>, TileCacheError> {
    let count = rows * cols * bands;
    if rows * cols > usize::MAX || count > usize::MAX {
        Err(TileCacheError::ElementCountOverflow)
    } else if bytes.len() - at < count * T::raw_len() {
        Err(TileCacheError::UnexpectedEnd)
    } else {
        Ok(
            Some(
                TileView {
                    multi,
                    rows,
                    cols,
                    bands,
                    samples: samples_of::<T>(
                        bytes.subrange(at, at + count * T::raw_len()),
                        count,
                    ),
                },
            ),
        )
    }
}

/// The tile whose record the bytes start with; none where there are no bytes.
pub open spec fn parse_tile<T: RawSample>(bytes: Seq<u8>) -> Result<
    Option<TileView<T>>,
    TileCacheError,
> {
    if bytes.len() == 0 {
        Ok(None)
    } else if bytes.len() < 9 {
        Err(TileCacheError::UnexpectedEnd)
    } else {
        let rows = u32_le_value(bytes.subrange(1, 5));
        let cols = u32_le_value(bytes.subrange(5, 9));
        if bytes[0] == 0 {
            sized_tile(bytes, 9, false, rows, cols, 1)
        } else if bytes[0] == 1 {
            if bytes.len() < 11 {
                Err(TileCacheError::UnexpectedEnd)
            } else {
                sized_tile(bytes, 11, true, rows, cols, u16_le_value(bytes.subrange(9, 11)))
            }
        } else {
            Err(TileCacheError::InvalidTag { tag: bytes[0] })
        }
    }
}

/// The record of a tile, whatever follows it, gives the tile back.
pub proof fn law_tile_record_reads_back<T: RawSample>(tile: TileView<T>, tail: Seq<u8>)
    requires
        storable(tile),
    ensures
        parse_tile::<T>(tile_record(tile) + tail) == Ok::<Option<TileView<T>>, TileCacheError>(
            Some(tile),
        ),
        tile_record(tile).len() == record_len(tile),
{
    let bytes = tile_record(tile) + tail;
    lemma_u32_le_roundtrip(tile.rows);
    lemma_u32_le_roundtrip(tile.cols);
    lemma_u16_le_roundtrip(tile.bands);
    lemma_raw_all_len(tile.samples);
    law_raw_samples_read_back(tile.samples, Seq::<u8>::empty());
    assert(raw_all(tile.samples) + Seq::<u8>::empty() =~= raw_all(tile.samples));
    assert(bytes.subrange(1, 5) =~= u32_le(tile.rows));
    assert(bytes.subrange(5, 9) =~= u32_le(tile.cols));
    let count = tile.rows * tile.cols * tile.bands;
    assert(count == tile.samples.len());
    let at: int = if tile.multi {
        11
    } else {
        9
    };
    if tile.multi {
        assert(bytes.subrange(9, 11) =~= u16_le(tile.bands));
    }
    assert(bytes.subrange(at, at + count * T::raw_len()) =~= raw_all(tile.samples));
    assert(bytes.len() - at >= count * T::raw_len());
    assert(samples_of::<T>(raw_all(tile.samples), count) == tile.samples);
    assert(sized_tile::<T>(bytes, at, tile.multi, tile.rows, tile.cols, tile.bands) == Ok::<
        Option<TileView<T>>,
        TileCacheError,
    >(Some(tile)));
}

/// The record of a tile.
pub fn spool_write_tile<T: RawSample>(tile: &StripTile<T>) -> (record: Vec<u8>)
    ensures
        record@ == tile_record(tile@),
{
    let mut record: Vec<u8> = Vec::new();
    match tile {
        StripTile::Single(data) => {
            record.push(0);
            push_u32_le(
                &mut record,
                #[verifier::truncate]
                (data.rows as u32),
            );
            push_u32_le(
                &mut record,
                #[verifier::truncate]
                (data.cols as u32),
            );
            push_raw_all(&mut record, &data.samples);
        },
        StripTile::Multi(data) => {
            record.push(1);
            push_u32_le(
                &mut record,
                #[verifier::truncate]
                (data.rows as u32),
            );
            push_u32_le(
                &mut record,
                #[verifier::truncate]
                (data.cols as u32),
            );
            push_u16_le(
                &mut record,
                #[verifier::truncate]
                (data.bands as u16),
            );
            push_raw_all(&mut record, &data.samples);
        },
    }
    assert(record@ =~= tile_record(tile@));
    record
}

/// Whether the bytes can hold so many samples from `at` on.
fn holds_samples(available: usize, count: usize, size: usize) -> (holds: bool)
    ensures
        holds == (count * size <= available),
{
    match count.checked_mul(size) {
        Some(needed) => needed <= available,
        None => false,
    }
}

/// The tile whose record the bytes start with, and the length of the record.
pub fn spool_read_tile<T: RawSample>(bytes: &[u8]) -> (result: Result<
    Option<(StripTile<T>, usize)>,
    TileCacheError,
>)
    ensures
        match parse_tile::<T>(bytes@) {
            Ok(Some(tile)) => {
                &&& result matches Ok(Some(found))
                &&& found.0@ == tile
                &&& found.0.well_formed()
                &&& found.1 <= bytes@.len()
                &&& found.1 == record_len(tile)
            },
            Ok(None) => result matches Ok(None),
            Err(error) => result matches Err(found) && found == error,
        },
{
    let length: usize = bytes.len();
    if length == 0 {
        return Ok(None);
    }
    if length < 9 {
        return Err(TileCacheError::UnexpectedEnd);
    }
    let size: usize = T::size();
    let rows: usize = read_u32_le(bytes, 1) as usize;
    let cols: usize = read_u32_le(bytes, 5) as usize;
    let tag: u8 = bytes[0];
    if tag == 0 {
        let count: usize = match rows.checked_mul(cols) {
            Some(count) => count,
            None => {
                return Err(TileCacheError::ElementCountOverflow);
            },
        };
        assert(rows * cols * 1 == count) by (nonlinear_arith)
            requires
                count == rows * cols,
        ;
        if !holds_samples(length - 9, count, size) {
            return Err(TileCacheError::UnexpectedEnd);
        }
        let samples: Vec<T> = read_raw_all(bytes, 9, count);
        Ok(Some((StripTile::Single(Grid2 { rows, cols, samples }), 9 + count * size)))
    } else if tag == 1 {
        if length < 11 {
            return Err(TileCacheError::UnexpectedEnd);
        }
        let bands: usize = read_u16_le(bytes, 9) as usize;
        let pixels: usize = match rows.checked_mul(cols) {
            Some(pixels) => pixels,
            None => {
                return Err(TileCacheError::ElementCountOverflow);
            },
        };
        let count: usize = match pixels.checked_mul(bands) {
            Some(count) => count,
            None => {
                return Err(TileCacheError::ElementCountOverflow);
            },
        };
        if !holds_samples(length - 11, count, size) {
            return Err(TileCacheError::UnexpectedEnd);
        }
        let samples: Vec<T> = read_raw_all(bytes, 11, count);
        Ok(Some((StripTile::Multi(Grid3 { rows, cols, bands, samples }), 11 + count * size)))
    } else {
        Err(TileCacheError::InvalidTag { tag })
    }
}

/// The number under which the tile at a place is kept.
pub open spec fn tile_key(col: usize, row: usize) -> u128 {
    (col * 18446744073709551616 + row) as u128
}

fn key_of(col: usize, row: usize) -> (key: u128)
    ensures
        key == tile_key(col, row),
{
    col as u128 * 18446744073709551616 + row as u128
}

proof fn lemma_keys_differ(col: usize, row: usize, other_col: usize, other_row: usize)
    ensures
        tile_key(col, row) == tile_key(other_col, other_row) <==> col == other_col && row
            == other_row,
{
}

/// Where a record stands: its first byte and the byte behind it.
#[derive(Clone, Copy)]
struct RecordRange {
    from: usize,
    to: usize,
}

enum DecodedTileStorage<T> {
    Memory(BTreeMap<u128, StripTile<T>>),
    Records { bytes: Vec<u8>, index: BTreeMap<u128, RecordRange> },
}

/// The decoded tiles of an overview.
pub struct DecodedTileSpool<T> {
    storage: DecodedTileStorage<T>,
}

spec fn tiles_sound<T>(tiles: Map<u128, StripTile<T>>) -> bool {
    forall|key: u128| tiles.contains_key(key) ==> (#[trigger] tiles[key]).well_formed()
}

spec fn ranges_sound(index: Map<u128, RecordRange>, length: nat) -> bool {
    forall|key: u128|
        index.contains_key(key) ==> (#[trigger] index[key]).from <= index[key].to <= length
}

/// The tile that is kept as it is under a key.
spec fn tile_under<T: RawSample>(tiles: Map<u128, StripTile<T>>, key: u128) -> Result<
    Option<TileView<T>>,
    TileCacheError,
> {
    if tiles.contains_key(key) {
        Ok(Some(tiles[key]@))
    } else {
        Ok(None)
    }
}

/// What the record under a key reads as.
spec fn record_under<T: RawSample>(
    bytes: Seq<u8>,
    index: Map<u128, RecordRange>,
    key: u128,
) -> Result<Option<TileView<T>>, TileCacheError> {
    if index.contains_key(key) {
        parse_tile::<T>(bytes.subrange(index[key].from as int, index[key].to as int))
    } else {
        Ok(None)
    }
}

impl<T: RawSample> DecodedTileSpool<T> {
    /// The parts fit together.
    pub closed spec fn well_formed(&self) -> bool {
        match self.storage {
            DecodedTileStorage::Memory(tiles) => tiles_sound(tiles@),
            DecodedTileStorage::Records { bytes, index } => ranges_sound(index@, bytes@.len()),
        }
    }

    /// Whether tiles are kept as records.
    pub closed spec fn keeps_records(&self) -> bool {
        self.storage is Records
    }

    /// What reading the tile at a place gives.
    pub closed spec fn lookup(&self, col: usize, row: usize) -> Result<
        Option<TileView<T>>,
        TileCacheError,
    > {
        match self.storage {
            DecodedTileStorage::Memory(tiles) => tile_under(tiles@, tile_key(col, row)),
            DecodedTileStorage::Records { bytes, index } => record_under::<T>(
                bytes@,
                index@,
                tile_key(col, row),
            ),
        }
    }

    /// An empty cache that keeps records.
    pub fn new() -> (spool: Self)
        ensures
            spool.well_formed(),
            spool.keeps_records(),
            forall|col: usize, row: usize|
                #[trigger] spool.lookup(col, row) == Ok::<Option<TileView<T>>, TileCacheError>(
                    None,
                ),
    {
        broadcast use vstd::std_specs::btree::group_btree_axioms;

        DecodedTileSpool {
            storage: DecodedTileStorage::Records {
                bytes: Vec::new(),
                index: BTreeMap::new(),
            },
        }
    }

    /// An empty cache that keeps tiles as they are.
    pub fn new_in_memory() -> (spool: Self)
        ensures
            spool.well_formed(),
            !spool.keeps_records(),
            forall|col: usize, row: usize|
                #[trigger] spool.lookup(col, row) == Ok::<Option<TileView<T>>, TileCacheError>(
                    None,
                ),
    {
        broadcast use vstd::std_specs::btree::group_btree_axioms;

        DecodedTileSpool { storage: DecodedTileStorage::Memory(BTreeMap::new()) }
    }

    /// An empty cache for the tiles of an overview, which are kept as they are as long as
    /// all of them together stay below the limit.
    pub fn new_for_layer(
        width: u32,
        height: u32,
        level: u32,
        tile_size: usize,
        out_bands: usize,
    ) -> (spool: Self)
        requires
            level > 0,
            tile_size > 0,
            ceil_div(reduced_side(width as nat, level as nat), tile_size as nat) * ceil_div(
                reduced_side(height as nat, level as nat),
                tile_size as nat,
            ) <= usize::MAX,
        ensures
            spool.well_formed(),
            spool.keeps_records() == (layer_bytes(
                reduced_side(width as nat, level as nat),
                reduced_side(height as nat, level as nat),
                tile_size as nat,
                out_bands as nat,
                T::raw_len(),
            ) > DECODED_TILE_MEMORY_LIMIT),
            forall|col: usize, row: usize|
                #[trigger] spool.lookup(col, row) == Ok::<Option<TileView<T>>, TileCacheError>(
                    None,
                ),
    {
        let (ov_w, ov_h): (u32, u32) = overview_dimensions(width, height, level);
        let tiles: usize = div_ceil(ov_w as usize, tile_size) * div_ceil(ov_h as usize, tile_size);
        let estimated: usize = saturating_product(
            tiles,
            saturating_product(
                saturating_product(saturating_product(tile_size, tile_size), out_bands),
                T::size(),
            ),
        );
        if estimated <= DECODED_TILE_MEMORY_LIMIT {
            DecodedTileSpool::new_in_memory()
        } else {
            DecodedTileSpool::new()
        }
    }

    /// Keeps the tile at a place, in place of one that was kept there. Every other tile
    /// stays. A record can hold tiles whose sizes fit its fields.
    pub fn insert(&mut self, col: usize, row: usize, tile: &StripTile<T>)
        requires
            old(self).well_formed(),
            tile.well_formed(),
        ensures
            final(self).well_formed(),
            final(self).keeps_records() == old(self).keeps_records(),
            !old(self).keeps_records() || storable(tile@) ==> final(self).lookup(col, row) == Ok::<
                Option<TileView<T>>,
                TileCacheError,
            >(Some(tile@)),
            old(self).keeps_records() ==> final(self).lookup(col, row) == parse_tile::<T>(
                tile_record(tile@),
            ),
            forall|c: usize, r: usize|
                (c != col || r != row) ==> #[trigger] final(self).lookup(c, r) == old(self).lookup(
                    c,
                    r,
                ),
    {
        broadcast use vstd::std_specs::btree::group_btree_axioms;

        let key: u128 = key_of(col, row);
        match &mut self.storage {
            DecodedTileStorage::Memory(tiles) => {
                let ghost before = tiles@;
                let copy: StripTile<T> = clone_strip_tile(tile);
                tiles.insert(key, copy);
                proof {
                    lemma_tile_kept(before, tiles@, key, copy);
                }
            },
            DecodedTileStorage::Records { bytes, index } => {
                let ghost bytes_before = bytes@;
                let ghost index_before = index@;
                let mut record: Vec<u8> = spool_write_tile(tile);
                let from: usize = bytes.len();
                bytes.append(&mut record);
                let to: usize = bytes.len();
                index.insert(key, RecordRange { from, to });
                proof {
                    lemma_record_kept(bytes_before, index_before, key, tile@);
                }
            },
        }
        proof {
            assert forall|c: usize, r: usize| (c != col || r != row) implies #[trigger] self.lookup(
                c,
                r,
            ) == old(self).lookup(c, r) by {
                lemma_keys_differ(c, r, col, row);
            }
        }
    }

    /// Reads the tile at a place; none where there is none.
    pub fn get(&self, col: usize, row: usize) -> (result: Result<
        Option<StripTile<T>>,
        TileCacheError,
    >)
        requires
            self.well_formed(),
        ensures
            match self.lookup(col, row) {
                Ok(Some(tile)) => result matches Ok(Some(found)) && found@ == tile
                    && found.well_formed(),
                Ok(None) => result matches Ok(None),
                Err(error) => result matches Err(found) && found == error,
            },
    {
        self.try_get(col, row)
    }

    /// Reads the tile at a place; none where there is none.
    pub fn try_get(&self, col: usize, row: usize) -> (result: Result<
        Option<StripTile<T>>,
        TileCacheError,
    >)
        requires
            self.well_formed(),
        ensures
            match self.lookup(col, row) {
                Ok(Some(tile)) => result matches Ok(Some(found)) && found@ == tile
                    && found.well_formed(),
                Ok(None) => result matches Ok(None),
                Err(error) => result matches Err(found) && found == error,
            },
    {
        broadcast use vstd::std_specs::btree::group_btree_axioms;

        let key: u128 = key_of(col, row);
        match &self.storage {
            DecodedTileStorage::Memory(tiles) => match tiles.get(&key) {
                Some(tile) => Ok(Some(clone_strip_tile(tile))),
                None => Ok(None),
            },
            DecodedTileStorage::Records { bytes, index } => {
                let range: RecordRange = match index.get(&key) {
                    Some(range) => *range,
                    None => {
                        return Ok(None);
                    },
                };
                let part: Vec<u8> = copy_range(bytes.as_slice(), range.from, range.to);
                match spool_read_tile::<T>(&part) {
                    Ok(Some(found)) => Ok(Some(found.0)),
                    Ok(None) => Ok(None),
                    Err(error) => Err(error),
                }
            },
        }
    }
}

/// A tile that is kept as it is reads back, and the others stay.
proof fn lemma_tile_kept<T: RawSample>(
    tiles: Map<u128, StripTile<T>>,
    more: Map<u128, StripTile<T>>,
    key: u128,
    tile: StripTile<T>,
)
    requires
        more == tiles.insert(key, tile),
        tiles_sound(tiles),
        tile.well_formed(),
    ensures
        tiles_sound(more),
        tile_under(more, key) == Ok::<Option<TileView<T>>, TileCacheError>(Some(tile@)),
        forall|k: u128| k != key ==> #[trigger] tile_under(more, k) == tile_under(tiles, k),
{
}

/// A record that is appended reads back, and the others stay.
proof fn lemma_record_kept<T: RawSample>(
    bytes: Seq<u8>,
    index: Map<u128, RecordRange>,
    key: u128,
    tile: TileView<T>,
)
    requires
        ranges_sound(index, bytes.len()),
        bytes.len() + tile_record(tile).len() <= usize::MAX,
    ensures
        ({
            let record = tile_record(tile);
            let range = RecordRange {
                from: bytes.len() as usize,
                to: (bytes.len() + record.len()) as usize,
            };
            let more = index.insert(key, range);
            &&& ranges_sound(more, (bytes + record).len())
            &&& record_under::<T>(bytes + record, more, key) == parse_tile::<T>(record)
            &&& storable(tile) ==> parse_tile::<T>(record) == Ok::<
                Option<TileView<T>>,
                TileCacheError,
            >(Some(tile))
            &&& forall|k: u128|
                k != key ==> #[trigger] record_under::<T>(bytes + record, more, k)
                    == record_under::<T>(bytes, index, k)
        }),
{
    let record = tile_record(tile);
    let all = bytes + record;
    let range = RecordRange {
        from: bytes.len() as usize,
        to: (bytes.len() + record.len()) as usize,
    };
    let more = index.insert(key, range);
    assert(all.subrange(bytes.len() as int, all.len() as int) =~= record);
    if storable(tile) {
        law_tile_record_reads_back(tile, Seq::<u8>::empty());
        assert(record + Seq::<u8>::empty() =~= record);
    }
    assert forall|k: u128| k != key implies #[trigger] record_under::<T>(all, more, k)
        == record_under::<T>(bytes, index, k) by {
        if index.contains_key(k) {
            let at = index[k];
            assert(more[k] == at);
            assert(all.subrange(at.from as int, at.to as int) =~= bytes.subrange(
                at.from as int,
                at.to as int,
            ));
        }
    }
}

/// How many bytes the tiles of a layer have, counted up to the largest number.
pub open spec fn layer_bytes(
    width: nat,
    height: nat,
    tile_size: nat,
    bands: nat,
    sample_size: nat,
) -> int {
    min_of(
        ceil_div(width, tile_size) * ceil_div(height, tile_size) * min_of(
            min_of(min_of((tile_size * tile_size) as int, usize::MAX as int) * bands, usize::MAX as int)
                * sample_size,
            usize::MAX as int,
        ),
        usize::MAX as int,
    )
}

fn saturating_product(a: usize, b: usize) -> (product: usize)
    ensures
        product == min_of(a * b, usize::MAX as int),
{
    match a.checked_mul(b) {
        Some(product) => product,
        None => usize::MAX,
    }
}

} // verus!
