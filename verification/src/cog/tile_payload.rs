//! Compressed tiles as they stand in a file, with or without the frame that GDAL puts
//! around them.
//!
//! A file that GDAL has laid out says so in a text behind its header. Its tiles can then
//! have their size in front of them, four bytes, and their last four bytes once more
//! behind them.
use crate::arith::min_of;
use crate::bytes::{copy_range, read_u32_le, u32_be_value, u32_le_value};
use crate::geo::read_u32_be;
use crate::search::{
    find_first, first_match, is_first_match, law_numbers_are_read_where_they_stand,
    lemma_earliest, lemma_first_match, occurs_at, parse_usize_at, text_bytes, usize_at,
};
use crate::spool::{block_views, layer_views, BlockView, CompressedBlock};
use crate::text::{decimal, string_from_utf8};
use vstd::prelude::*;
use vstd::utf8::valid_utf8;

verus! {

/// The order of the bytes of a number.
#[derive(Debug, Clone, Copy, PartialEq, Eq, Structural)]
pub enum ByteOrder {
    LittleEndian,
    BigEndian,
}

/// The frame around the tiles of a file.
#[derive(Debug, Clone, Copy, PartialEq, Eq, Structural)]
pub struct GdalStructuralMetadata {
    pub block_leader_size_as_u32: bool,
    pub block_trailer_repeats_last_4_bytes: bool,
}

/// The largest tile that is read.
pub const MAX_BLOCK_BYTES: usize = 67108864;

/// Where the text about the layout of the file starts.
pub const METADATA_OFFSET: usize = 8;

/// How many bytes are read to learn the length of the text.
pub const METADATA_PROBE: usize = 64;

/// Why a tile cannot be read.
#[derive(Debug, Clone, Copy, PartialEq, Eq, Structural)]
pub enum BlockError {
    MissingOffsets,
    MissingByteCounts,
    LengthMismatch,
    IndexOutOfRange { index: usize },
    TooLarge { index: usize },
    ReadFailed { index: usize },
}

/// The length of the text about the layout, of which the bytes are the beginning: its
/// first line, which says how long the rest is, and the rest.
pub open spec fn metadata_len(bytes: Seq<u8>) -> Option<usize> {
    if !valid_utf8(bytes) {
        None
    } else {
        match first_match(bytes, text_bytes("\n"), 0) {
            None => None,
            Some(newline) => {
                let header = bytes.take(newline as int);
                let prefix = text_bytes("GDAL_STRUCTURAL_METADATA_SIZE=");
                if !occurs_at(header, prefix, 0) {
                    None
                } else {
                    match usize_at(header, prefix.len() as int) {
                        None => None,
                        Some(rest) => if newline + 1 + rest > usize::MAX {
                            None
                        } else {
                            Some((newline + 1 + rest) as usize)
                        },
                    }
                }
            },
        }
    }
}

fn is_utf8(bytes: &[u8]) -> (valid: bool)
    ensures
        valid == valid_utf8(bytes@),
{
    let copy: Vec<u8> = copy_range(bytes, 0, bytes.len());
    assert(copy@ =~= bytes@);
    string_from_utf8(copy).is_some()
}

/// The length of the text about the layout.
pub fn parse_gdal_structural_metadata_len(bytes: &[u8]) -> (length: Option<usize>)
    ensures
        length == metadata_len(bytes@),
{
    if !is_utf8(bytes) {
        return None;
    }
    let newline: usize = match find_first(bytes, "\n".as_bytes(), 0) {
        None => {
            return None;
        },
        Some(at) => at,
    };
    let header: Vec<u8> = copy_range(bytes, 0, newline);
    assert(header@ =~= bytes@.take(newline as int));
    let prefix: &[u8] = "GDAL_STRUCTURAL_METADATA_SIZE=".as_bytes();
    if !crate::search::starts_with(&header, prefix) {
        return None;
    }
    match parse_usize_at(&header, prefix.len()) {
        None => None,
        Some(rest) => match newline.checked_add(1) {
            None => None,
            Some(start) => start.checked_add(rest),
        },
    }
}

/// Whether a text stands somewhere in the bytes.
pub open spec fn mentions(bytes: Seq<u8>, text: Seq<u8>) -> bool {
    first_match(bytes, text, 0) is Some
}

/// The frame that a text about the layout describes; none where it is no such text.
pub open spec fn metadata_in(bytes: Seq<u8>) -> Option<GdalStructuralMetadata> {
    if valid_utf8(bytes) && mentions(bytes, text_bytes("GDAL_STRUCTURAL_METADATA_SIZE=")) {
        Some(
            GdalStructuralMetadata {
                block_leader_size_as_u32: mentions(bytes, text_bytes("BLOCK_LEADER=SIZE_AS_UINT4")),
                block_trailer_repeats_last_4_bytes: mentions(
                    bytes,
                    text_bytes("BLOCK_TRAILER=LAST_4_BYTES_REPEATED"),
                ),
            },
        )
    } else {
        None
    }
}

/// The frame around the tiles of a file; none where the file does not speak of one.
pub open spec fn metadata_of(file: Seq<u8>) -> Option<GdalStructuralMetadata> {
    let available = file.len() - METADATA_OFFSET;
    if available <= 0 {
        None
    } else {
        let probe = file.subrange(
            METADATA_OFFSET as int,
            METADATA_OFFSET + min_of(available, METADATA_PROBE as int),
        );
        match metadata_len(probe) {
            None => None,
            Some(total) => if total == 0 || total > available {
                None
            } else {
                metadata_in(file.subrange(METADATA_OFFSET as int, METADATA_OFFSET + total))
            },
        }
    }
}

/// The frame around the tiles of a file.
pub fn parse_gdal_structural_metadata(file: &[u8]) -> (metadata: Option<GdalStructuralMetadata>)
    ensures
        metadata == metadata_of(file@),
{
    let size: usize = file.len();
    if size <= METADATA_OFFSET {
        return None;
    }
    let available: usize = size - METADATA_OFFSET;
    let probe_len: usize = if available <= METADATA_PROBE {
        available
    } else {
        METADATA_PROBE
    };
    let probe: Vec<u8> = copy_range(file, METADATA_OFFSET, METADATA_OFFSET + probe_len);
    match parse_gdal_structural_metadata_len(&probe) {
        None => None,
        Some(total) => {
            if total == 0 || total > available {
                return None;
            }
            let bytes: Vec<u8> = copy_range(file, METADATA_OFFSET, METADATA_OFFSET + total);
            GdalStructuralMetadata::from_prefix(&bytes)
        },
    }
}

/// The number in the first four bytes.
pub open spec fn leader_value(raw: Seq<u8>, order: ByteOrder) -> nat {
    match order {
        ByteOrder::LittleEndian => u32_le_value(raw.subrange(0, 4)),
        ByteOrder::BigEndian => u32_be_value(raw.subrange(0, 4)),
    }
}

/// Where the payload behind a leader ends, according to the leader.
pub open spec fn payload_end(raw: Seq<u8>, order: ByteOrder) -> int {
    if 4 + leader_value(raw, order) > usize::MAX {
        raw.len() as int
    } else {
        4 + leader_value(raw, order) as int
    }
}

/// Whether the last four bytes are the four before them once more.
pub open spec fn trailer_repeats(raw: Seq<u8>) -> bool {
    &&& raw.len() >= 8
    &&& raw.subrange(raw.len() - 8, raw.len() - 4) == raw.subrange(
        raw.len() - 4,
        raw.len() as int,
    )
}

/// The payload of a framed tile. A leader that does not fit the bytes is no leader, and
/// a trailer that repeats nothing is no trailer.
pub open spec fn unwrapped(
    metadata: GdalStructuralMetadata,
    raw: Seq<u8>,
    order: ByteOrder,
) -> Seq<u8> {
    if metadata.block_leader_size_as_u32 && raw.len() < 4 {
        raw
    } else if metadata.block_leader_size_as_u32 && payload_end(raw, order) <= raw.len() {
        raw.subrange(4, payload_end(raw, order))
    } else if metadata.block_trailer_repeats_last_4_bytes && trailer_repeats(raw) {
        raw.take(raw.len() - 4)
    } else {
        raw
    }
}

fn read_leader(raw: &[u8], order: ByteOrder) -> (value: u32)
    requires
        raw@.len() >= 4,
    ensures
        value == leader_value(raw@, order),
{
    match order {
        ByteOrder::LittleEndian => read_u32_le(raw, 0),
        ByteOrder::BigEndian => read_u32_be(raw, 0),
    }
}

impl GdalStructuralMetadata {
    /// The frame that a text about the layout describes.
    pub fn from_prefix(bytes: &[u8]) -> (metadata: Option<GdalStructuralMetadata>)
        ensures
            metadata == metadata_in(bytes@),
    {
        if !is_utf8(bytes) {
            return None;
        }
        if find_first(bytes, "GDAL_STRUCTURAL_METADATA_SIZE=".as_bytes(), 0).is_none() {
            return None;
        }
        Some(
            GdalStructuralMetadata {
                block_leader_size_as_u32: find_first(
                    bytes,
                    "BLOCK_LEADER=SIZE_AS_UINT4".as_bytes(),
                    0,
                ).is_some(),
                block_trailer_repeats_last_4_bytes: find_first(
                    bytes,
                    "BLOCK_TRAILER=LAST_4_BYTES_REPEATED".as_bytes(),
                    0,
                ).is_some(),
            },
        )
    }

    /// The payload of a framed tile.
    pub fn unwrap_block(&self, raw: &[u8], byte_order: ByteOrder) -> (payload: Vec<u8>)
        ensures
            payload@ == unwrapped(*self, raw@, byte_order),
    {
        let size: usize = raw.len();
        if self.block_leader_size_as_u32 {
            if size < 4 {
                let whole: Vec<u8> = copy_range(raw, 0, size);
                assert(whole@ =~= raw@);
                return whole;
            }
            let leader: u32 = read_leader(raw, byte_order);
            let end: usize = match 4usize.checked_add(leader as usize) {
                Some(end) => end,
                None => size,
            };
            if end <= size {
                return copy_range(raw, 4, end);
            }
        }
        if self.block_trailer_repeats_last_4_bytes && size >= 8 {
            let split: usize = size - 4;
            let ghost before = raw@.subrange(split - 4, split as int);
            let ghost behind = raw@.subrange(split as int, size as int);
            let repeats: bool = raw[split - 4] == raw[split] && raw[split - 3] == raw[split + 1]
                && raw[split - 2] == raw[split + 2] && raw[split - 1] == raw[split + 3];
            proof {
                if repeats {
                    assert(before =~= behind);
                } else {
                    assert(before[0] == raw@[split - 4] && behind[0] == raw@[split as int]);
                    assert(before[1] == raw@[split - 3] && behind[1] == raw@[split + 1]);
                    assert(before[2] == raw@[split - 2] && behind[2] == raw@[split + 2]);
                    assert(before[3] == raw@[split - 1] && behind[3] == raw@[split + 3]);
                    assert(before != behind);
                }
            }
            if repeats {
                let front: Vec<u8> = copy_range(raw, 0, split);
                assert(front@ =~= raw@.take(split as int));
                return front;
            }
        }
        let whole: Vec<u8> = copy_range(raw, 0, size);
        assert(whole@ =~= raw@);
        whole
    }
}

/// A tile with its frame.
pub open spec fn wrapped(
    metadata: GdalStructuralMetadata,
    leader: Seq<u8>,
    payload: Seq<u8>,
) -> Seq<u8> {
    (if metadata.block_leader_size_as_u32 {
        leader
    } else {
        Seq::empty()
    }) + payload + (if metadata.block_trailer_repeats_last_4_bytes {
        payload.subrange(payload.len() - 4, payload.len() as int)
    } else {
        Seq::empty()
    })
}

/// Taking the frame off a framed tile gives the tile, for every frame that has a leader
/// and every tile, and for a mere trailer behind tiles of four bytes at least.
pub proof fn law_unwrap_undoes_wrap(
    metadata: GdalStructuralMetadata,
    leader: Seq<u8>,
    payload: Seq<u8>,
    order: ByteOrder,
)
    requires
        metadata.block_leader_size_as_u32 || metadata.block_trailer_repeats_last_4_bytes,
        metadata.block_trailer_repeats_last_4_bytes ==> payload.len() >= 4,
        metadata.block_leader_size_as_u32 ==> leader.len() == 4 && leader_value(leader, order)
            == payload.len() && payload.len() + 4 <= usize::MAX,
    ensures
        unwrapped(metadata, wrapped(metadata, leader, payload), order) == payload,
{
    let raw = wrapped(metadata, leader, payload);
    if metadata.block_leader_size_as_u32 {
        assert(raw.subrange(0, 4) =~= leader);
        assert(leader.subrange(0, 4) =~= leader);
        assert(raw.subrange(4, 4 + payload.len() as int) =~= payload);
    } else {
        let n = payload.len() as int;
        let tail = payload.subrange(n - 4, n);
        assert(raw =~= payload + tail);
        assert(raw.subrange(raw.len() - 8, raw.len() - 4) =~= tail);
        assert(raw.subrange(raw.len() - 4, raw.len() as int) =~= tail);
        assert(raw.take(raw.len() - 4) =~= payload);
    }
}

/// The bytes of a file at `offset`; none where it ends before.
pub open spec fn bytes_at(file: Seq<u8>, offset: int, length: int) -> Option<Seq<u8>> {
    if 0 <= offset && offset + length <= file.len() {
        Some(file.subrange(offset, offset + length))
    } else {
        None
    }
}

/// How many bytes the frame adds to a tile that has a leader.
pub open spec fn frame_len(metadata: GdalStructuralMetadata) -> int {
    if metadata.block_trailer_repeats_last_4_bytes {
        8
    } else {
        4
    }
}

/// The tile with the frame around it, as it is read from four bytes before it; none
/// where there is no such frame or the file ends within it.
pub open spec fn framed_payload(
    file: Seq<u8>,
    metadata: Option<GdalStructuralMetadata>,
    order: ByteOrder,
    offset: int,
    count: int,
) -> Option<Seq<u8>> {
    match metadata {
        None => None,
        Some(frame) => if !frame.block_leader_size_as_u32 || offset < 4 {
            None
        } else {
            match bytes_at(file, offset - 4, count + frame_len(frame)) {
                None => None,
                Some(raw) => Some(unwrapped(frame, raw, order)),
            }
        },
    }
}

/// The payload of the tile at `offset`: what the frame around it holds where that has
/// the expected length, else the bytes at `offset`, without the frame that they may have
/// themselves.
pub open spec fn block_payload(
    file: Seq<u8>,
    metadata: Option<GdalStructuralMetadata>,
    order: ByteOrder,
    offset: int,
    count: int,
) -> Option<Seq<u8>> {
    let framed = framed_payload(file, metadata, order, offset, count);
    if framed is Some && framed->0.len() == count {
        framed
    } else {
        match bytes_at(file, offset, count) {
            None => None,
            Some(raw) => match metadata {
                None => Some(raw),
                Some(frame) => Some(unwrapped(frame, raw, order)),
            },
        }
    }
}

fn read_exact_at(file: &[u8], offset: u64, length: usize) -> (bytes: Option<Vec<u8>>)
    ensures
        match bytes_at(file@, offset as int, length as int) {
            Some(expected) => bytes matches Some(found) && found@ == expected,
            None => bytes is None,
        },
{
    let size: usize = file.len();
    if length > size || offset > (size - length) as u64 {
        return None;
    }
    let start: usize = offset as usize;
    Some(copy_range(file, start, start + length))
}

/// Reads a tile with the frame around it.
pub fn read_wrapped_gdal_block(
    file: &[u8],
    metadata: &GdalStructuralMetadata,
    byte_order: ByteOrder,
    offset: u64,
    payload_len: usize,
) -> (payload: Option<Vec<u8>>)
    requires
        metadata.block_leader_size_as_u32,
        offset >= 4,
        payload_len <= MAX_BLOCK_BYTES,
    ensures
        match framed_payload(file@, Some(*metadata), byte_order, offset as int, payload_len as int) {
            Some(expected) => payload matches Some(found) && found@ == expected,
            None => payload is None,
        },
{
    let extra: usize = if metadata.block_trailer_repeats_last_4_bytes {
        8
    } else {
        4
    };
    match read_exact_at(file, offset - 4, payload_len + extra) {
        None => None,
        Some(raw) => Some(metadata.unwrap_block(&raw, byte_order)),
    }
}

/// What a directory says about a tile: nothing stands in the file where offset or count
/// is zero.
pub open spec fn block_result(
    file: Seq<u8>,
    metadata: Option<GdalStructuralMetadata>,
    order: ByteOrder,
    offset: u64,
    count: u64,
    index: usize,
) -> Result<BlockView, BlockError> {
    if offset == 0 || count == 0 {
        Ok(BlockView { payload: Seq::empty(), sparse: true })
    } else if count > MAX_BLOCK_BYTES {
        Err(BlockError::TooLarge { index })
    } else {
        match block_payload(file, metadata, order, offset as int, count as int) {
            None => Err(BlockError::ReadFailed { index }),
            Some(payload) => Ok(BlockView { payload, sparse: false }),
        }
    }
}

/// The payload of the tile at `offset`.
pub fn read_gdal_block_payload(
    file: &[u8],
    metadata: Option<GdalStructuralMetadata>,
    byte_order: ByteOrder,
    offset: u64,
    byte_count: u64,
    index: usize,
) -> (result: Result<Vec<u8>, BlockError>)
    ensures
        if byte_count > MAX_BLOCK_BYTES {
            result matches Err(error) && error == (BlockError::TooLarge { index })
        } else {
            match block_payload(file@, metadata, byte_order, offset as int, byte_count as int) {
                Some(payload) => result matches Ok(found) && found@ == payload,
                None => result matches Err(error) && error == (BlockError::ReadFailed { index }),
            }
        },
{
    if byte_count > MAX_BLOCK_BYTES as u64 {
        return Err(BlockError::TooLarge { index });
    }
    let payload_len: usize = byte_count as usize;
    if let Some(frame) = metadata {
        if frame.block_leader_size_as_u32 && offset >= 4 {
            match read_wrapped_gdal_block(file, &frame, byte_order, offset, payload_len) {
                Some(payload) => {
                    if payload.len() == payload_len {
                        return Ok(payload);
                    }
                },
                None => {},
            }
        }
    }
    match read_exact_at(file, offset, payload_len) {
        None => Err(BlockError::ReadFailed { index }),
        Some(raw) => match metadata {
            Some(frame) => Ok(frame.unwrap_block(&raw, byte_order)),
            None => Ok(raw),
        },
    }
}

/// Where the tiles of a directory stand in the file; a tag that is missing is none.
#[derive(Debug)]
pub struct TileTable {
    pub offsets: Option<Vec<u64>>,
    pub byte_counts: Option<Vec<u64>>,
}

/// Why no tile of a directory can be read, if so.
pub open spec fn table_error(table: TileTable) -> Option<BlockError> {
    match (table.offsets, table.byte_counts) {
        (None, _) => Some(BlockError::MissingOffsets),
        (Some(_), None) => Some(BlockError::MissingByteCounts),
        (Some(offsets), Some(counts)) => if offsets@.len() != counts@.len() {
            Some(BlockError::LengthMismatch)
        } else {
            None
        },
    }
}

/// How many tiles a directory lists.
pub open spec fn table_len(table: TileTable) -> nat {
    match table.offsets {
        Some(offsets) => offsets@.len(),
        None => 0,
    }
}

/// What comes of reading tile `index` of a directory.
pub open spec fn table_block(
    file: Seq<u8>,
    order: ByteOrder,
    table: TileTable,
    index: int,
) -> Result<BlockView, BlockError> {
    block_result(
        file,
        metadata_of(file),
        order,
        table.offsets->0@[index],
        table.byte_counts->0@[index],
        index as usize,
    )
}

fn read_block(
    file: &[u8],
    metadata: Option<GdalStructuralMetadata>,
    byte_order: ByteOrder,
    offset: u64,
    count: u64,
    index: usize,
) -> (result: Result<CompressedBlock, BlockError>)
    ensures
        match block_result(file@, metadata, byte_order, offset, count, index) {
            Ok(block) => result matches Ok(found) && found@ == block,
            Err(error) => result matches Err(found) && found == error,
        },
{
    if offset == 0 || count == 0 {
        return Ok(CompressedBlock { payload: Vec::new(), sparse: true });
    }
    match read_gdal_block_payload(file, metadata, byte_order, offset, count, index) {
        Ok(payload) => Ok(CompressedBlock { payload, sparse: false }),
        Err(error) => Err(error),
    }
}

/// Reads one tile of a directory.
pub fn read_layer_block_at(
    file: &[u8],
    byte_order: ByteOrder,
    table: &TileTable,
    block_index: usize,
) -> (result: Result<CompressedBlock, BlockError>)
    ensures
        match table_error(*table) {
            Some(error) => result matches Err(found) && found == error,
            None => if block_index >= table_len(*table) {
                result matches Err(found) && found == (BlockError::IndexOutOfRange {
                    index: block_index,
                })
            } else {
                match table_block(file@, byte_order, *table, block_index as int) {
                    Ok(block) => result matches Ok(found) && found@ == block,
                    Err(error) => result matches Err(found) && found == error,
                }
            },
        },
{
    match (&table.offsets, &table.byte_counts) {
        (None, _) => Err(BlockError::MissingOffsets),
        (Some(_), None) => Err(BlockError::MissingByteCounts),
        (Some(offsets), Some(counts)) => {
            if offsets.len() != counts.len() {
                return Err(BlockError::LengthMismatch);
            }
            if block_index >= offsets.len() {
                return Err(BlockError::IndexOutOfRange { index: block_index });
            }
            let metadata: Option<GdalStructuralMetadata> = parse_gdal_structural_metadata(file);
            read_block(
                file,
                metadata,
                byte_order,
                offsets[block_index],
                counts[block_index],
                block_index,
            )
        },
    }
}

/// Whether the first `end` tiles of a directory can be read.
pub open spec fn blocks_readable(
    file: Seq<u8>,
    order: ByteOrder,
    table: TileTable,
    end: int,
) -> bool {
    forall|i: int| 0 <= i < end ==> (#[trigger] table_block(file, order, table, i)) is Ok
}

/// Whether `error` is that of the first tile of a directory that cannot be read.
pub open spec fn first_block_error(
    file: Seq<u8>,
    order: ByteOrder,
    table: TileTable,
    error: BlockError,
) -> bool {
    exists|i: int|
        0 <= i < table_len(table) && blocks_readable(file, order, table, i)
            && #[trigger] table_block(file, order, table, i) == Err::<BlockView, BlockError>(error)
}

/// The tiles of a directory.
pub open spec fn table_blocks(file: Seq<u8>, order: ByteOrder, table: TileTable) -> Seq<BlockView> {
    Seq::new(table_len(table), |i: int| table_block(file, order, table, i)->Ok_0)
}

/// Whether all tiles of a directory can be read.
pub open spec fn table_readable(file: Seq<u8>, order: ByteOrder, table: TileTable) -> bool {
    table_error(table) is None && blocks_readable(file, order, table, table_len(table) as int)
}

/// Whether `error` is why the tiles of a directory cannot be read.
pub open spec fn is_table_error(
    file: Seq<u8>,
    order: ByteOrder,
    table: TileTable,
    error: BlockError,
) -> bool {
    match table_error(table) {
        Some(expected) => error == expected,
        None => first_block_error(file, order, table, error),
    }
}

/// Reads all tiles of a directory. The first one that cannot be read is the error.
pub fn read_layer_blocks(file: &[u8], byte_order: ByteOrder, table: &TileTable) -> (result: Result<
    Vec<CompressedBlock>,
    BlockError,
>)
    ensures
        match result {
            Ok(blocks) => {
                &&& table_readable(file@, byte_order, *table)
                &&& block_views(blocks@) == table_blocks(file@, byte_order, *table)
            },
            Err(error) => is_table_error(file@, byte_order, *table, error),
        },
{
    match (&table.offsets, &table.byte_counts) {
        (None, _) => Err(BlockError::MissingOffsets),
        (Some(_), None) => Err(BlockError::MissingByteCounts),
        (Some(offsets), Some(counts)) => {
            if offsets.len() != counts.len() {
                return Err(BlockError::LengthMismatch);
            }
            let metadata: Option<GdalStructuralMetadata> = parse_gdal_structural_metadata(file);
            let mut blocks: Vec<CompressedBlock> = Vec::new();
            let mut index: usize = 0;
            while index < offsets.len()
                invariant
                    index <= offsets@.len(),
                    table.offsets == Some(*offsets),
                    table.byte_counts == Some(*counts),
                    offsets@.len() == counts@.len(),
                    metadata == metadata_of(file@),
                    blocks@.len() == index,
                    forall|i: int|
                        0 <= i < index ==> #[trigger] table_block(file@, byte_order, *table, i)
                            == Ok::<BlockView, BlockError>(blocks@[i]@),
                decreases offsets@.len() - index,
            {
                match read_block(
                    file,
                    metadata,
                    byte_order,
                    offsets[index],
                    counts[index],
                    index,
                ) {
                    Ok(block) => {
                        blocks.push(block);
                    },
                    Err(error) => {
                        assert(table_block(file@, byte_order, *table, index as int) == Err::<
                            BlockView,
                            BlockError,
                        >(error));
                        return Err(error);
                    },
                }
                index = index + 1;
            }
            proof {
                assert forall|i: int| 0 <= i < blocks@.len() implies #[trigger] block_views(
                    blocks@,
                )[i] == table_blocks(file@, byte_order, *table)[i] by {
                    assert(table_block(file@, byte_order, *table, i) == Ok::<BlockView, BlockError>(
                        blocks@[i]@,
                    ));
                }
                assert(block_views(blocks@) =~= table_blocks(file@, byte_order, *table));
            }
            Ok(blocks)
        },
    }
}

/// Whether the first `end` directories can be read.
pub open spec fn tables_readable(
    file: Seq<u8>,
    order: ByteOrder,
    tables: Seq<TileTable>,
    end: int,
) -> bool {
    forall|i: int| 0 <= i < end ==> table_readable(file, order, #[trigger] tables[i])
}

/// Whether `error` is that of the first directory that cannot be read.
pub open spec fn first_table_error(
    file: Seq<u8>,
    order: ByteOrder,
    tables: Seq<TileTable>,
    error: BlockError,
) -> bool {
    exists|i: int|
        0 <= i < tables.len() && tables_readable(file, order, tables, i) && is_table_error(
            file,
            order,
            #[trigger] tables[i],
            error,
        )
}

/// Reads the tiles of several directories, in the given order.
pub fn collect_remux_layers(file: &[u8], byte_order: ByteOrder, tables: &[TileTable]) -> (result:
    Result<Vec<Vec<CompressedBlock>>, BlockError>)
    ensures
        match result {
            Ok(layers) => {
                &&& tables_readable(file@, byte_order, tables@, tables@.len() as int)
                &&& layer_views(layers@) == tables@.map_values(
                    |table: TileTable| table_blocks(file@, byte_order, table),
                )
            },
            Err(error) => first_table_error(file@, byte_order, tables@, error),
        },
{
    let mut layers: Vec<Vec<CompressedBlock>> = Vec::new();
    let mut index: usize = 0;
    while index < tables.len()
        invariant
            index <= tables@.len(),
            layers@.len() == index,
            tables_readable(file@, byte_order, tables@, index as int),
            forall|i: int|
                0 <= i < index ==> block_views((#[trigger] layers@[i])@) == table_blocks(
                    file@,
                    byte_order,
                    tables@[i],
                ),
        decreases tables@.len() - index,
    {
        match read_layer_blocks(file, byte_order, &tables[index]) {
            Ok(blocks) => {
                layers.push(blocks);
            },
            Err(error) => {
                assert(is_table_error(file@, byte_order, tables@[index as int], error));
                return Err(error);
            },
        }
        index = index + 1;
    }
    assert(layer_views(layers@) =~= tables@.map_values(
        |table: TileTable| table_blocks(file@, byte_order, table),
    ));
    Ok(layers)
}

/// A tile that stands in the file with a frame that has a leader is read back without
/// the frame.
pub proof fn law_framed_tile_reads_back(
    file: Seq<u8>,
    metadata: GdalStructuralMetadata,
    order: ByteOrder,
    leader: Seq<u8>,
    payload: Seq<u8>,
    offset: int,
)
    requires
        metadata.block_leader_size_as_u32,
        metadata.block_trailer_repeats_last_4_bytes ==> payload.len() >= 4,
        leader.len() == 4,
        leader_value(leader, order) == payload.len(),
        payload.len() + 4 <= usize::MAX,
        offset >= 4,
        bytes_at(file, offset - 4, payload.len() + frame_len(metadata)) == Some(
            wrapped(metadata, leader, payload),
        ),
    ensures
        block_payload(file, Some(metadata), order, offset, payload.len() as int) == Some(payload),
{
    law_unwrap_undoes_wrap(metadata, leader, payload, order);
}

/// A block without a frame is the bytes of the file from its offset on, as many as its byte
/// count says. A block without an offset or without bytes is sparse, and only such a block.
pub proof fn law_plain_blocks_are_bytes_of_the_file(
    file: Seq<u8>,
    order: ByteOrder,
    offset: u64,
    count: u64,
    index: usize,
)
    ensures
        offset == 0 || count == 0 ==> block_result(file, None, order, offset, count, index) == Ok::<
            BlockView,
            BlockError,
        >(BlockView { payload: Seq::empty(), sparse: true }),
        offset > 0 && 0 < count <= MAX_BLOCK_BYTES && offset + count <= file.len() ==> (
        block_result(file, None, order, offset, count, index) matches Ok(block) && !block.sparse
            && block.payload.len() == count && forall|i: int|
            0 <= i < count ==> #[trigger] block.payload[i] == file[offset + i]),
        offset > 0 && count > 0 && offset + count > file.len() ==> block_result(
            file,
            None,
            order,
            offset,
            count,
            index,
        ) is Err,
{
}

/// The blocks of a layer are those of its table, each read at its own offset.
pub proof fn law_blocks_are_read_in_table_order(
    file: Seq<u8>,
    order: ByteOrder,
    table: TileTable,
    i: int,
)
    requires
        table_readable(file, order, table),
        0 <= i < table.offsets->0@.len(),
        table.offsets is Some,
        i <= usize::MAX,
    ensures
        table_blocks(file, order, table).len() == table.offsets->0@.len(),
        block_result(
            file,
            metadata_of(file),
            order,
            table.offsets->0@[i],
            table.byte_counts->0@[i],
            i as usize,
        ) == Ok::<BlockView, BlockError>(table_blocks(file, order, table)[i]),
{
    assert(table_block(file, order, table, i) is Ok);
}

/// The leader of a block is read in the byte order of the file.
pub proof fn law_leader_follows_byte_order(raw: Seq<u8>)
    requires
        raw.len() >= 4,
    ensures
        leader_value(raw, ByteOrder::LittleEndian) == raw[0] + 256 * (raw[1] + 256 * (raw[2] + 256
            * raw[3])),
        leader_value(raw, ByteOrder::BigEndian) == raw[3] + 256 * (raw[2] + 256 * (raw[1] + 256
            * raw[0])),
{
}

/// A text about the layout is one that names its size. It speaks of a leader, and of a
/// trailer, exactly if their words stand somewhere in it.
pub proof fn law_frames_are_what_the_text_says(bytes: Seq<u8>)
    requires
        valid_utf8(bytes),
        bytes.len() <= usize::MAX,
    ensures
        metadata_in(bytes) is Some <==> exists|at: int|
            0 <= at && #[trigger] occurs_at(
                bytes,
                text_bytes("GDAL_STRUCTURAL_METADATA_SIZE="),
                at,
            ),
        metadata_in(bytes) matches Some(frame) ==> {
            &&& frame.block_leader_size_as_u32 <==> exists|at: int|
                0 <= at && #[trigger] occurs_at(bytes, text_bytes("BLOCK_LEADER=SIZE_AS_UINT4"), at)
            &&& frame.block_trailer_repeats_last_4_bytes <==> exists|at: int|
                0 <= at && #[trigger] occurs_at(
                    bytes,
                    text_bytes("BLOCK_TRAILER=LAST_4_BYTES_REPEATED"),
                    at,
                )
        },
{
    lemma_mentions(bytes, text_bytes("GDAL_STRUCTURAL_METADATA_SIZE="));
    lemma_mentions(bytes, text_bytes("BLOCK_LEADER=SIZE_AS_UINT4"));
    lemma_mentions(bytes, text_bytes("BLOCK_TRAILER=LAST_4_BYTES_REPEATED"));
}

proof fn lemma_mentions(bytes: Seq<u8>, text: Seq<u8>)
    requires
        bytes.len() <= usize::MAX,
    ensures
        mentions(bytes, text) <==> exists|at: int| 0 <= at && #[trigger] occurs_at(bytes, text, at),
{
    if exists|at: int| 0 <= at && #[trigger] occurs_at(bytes, text, at) {
        let at = choose|at: int| 0 <= at && #[trigger] occurs_at(bytes, text, at);
        let found = lemma_earliest(bytes, text, 0, at);
        lemma_first_match(bytes, text, 0, Some(found as usize));
    } else {
        lemma_first_match(bytes, text, 0, None);
    }
}

/// The text about the layout is as long as its first line says the rest is, and that line with
/// its end.
pub proof fn law_layout_text_has_the_length_it_names(bytes: Seq<u8>, newline: int, size: nat)
    requires
        valid_utf8(bytes),
        bytes.len() <= usize::MAX,
        is_first_match(bytes, text_bytes("\n"), 0, Some(newline as usize)),
        0 <= newline < bytes.len(),
        ({
            let prefix = text_bytes("GDAL_STRUCTURAL_METADATA_SIZE=");
            let spelled = decimal(size).map_values(|c: char| c as u8);
            let header = bytes.take(newline);
            let end = prefix.len() + spelled.len();
            &&& occurs_at(header, prefix, 0)
            &&& occurs_at(header, spelled, prefix.len() as int)
            &&& end < header.len() ==> !(48 <= header[end as int] <= 57)
        }),
        newline + 1 + size <= usize::MAX,
    ensures
        metadata_len(bytes) == Some((newline + 1 + size) as usize),
{
    let prefix = text_bytes("GDAL_STRUCTURAL_METADATA_SIZE=");
    lemma_first_match(bytes, text_bytes("\n"), 0, Some(newline as usize));
    law_numbers_are_read_where_they_stand(bytes.take(newline), prefix.len() as int, size);
}

} // verus!
