//! Encoded layers kept as one byte string until the output file is assembled.
//!
//! A layer is the count of its blocks, four little-endian bytes, followed by a
//! record for each block: a byte that is nonzero for a sparse block, the length of
//! the payload in four little-endian bytes, and, unless the block is sparse, the
//! payload.
use crate::bytes::{
    copy_range, lemma_u32_le_roundtrip, overwritten, push_all, push_u32_le, read_u32_le, u32_le,
    u32_le_value, write_over,
};
use std::collections::BTreeMap;
use vstd::prelude::*;

verus! {

/// A compressed tile or strip. A sparse block stands for one that is absent from
/// the file.
#[derive(Debug)]
pub struct CompressedBlock {
    pub payload: Vec<u8>,
    pub sparse: bool,
}

/// What a block holds.
pub struct BlockView {
    pub payload: Seq<u8>,
    pub sparse: bool,
}

impl View for CompressedBlock {
    type V = BlockView;

    open spec fn view(&self) -> BlockView {
        BlockView { payload: self.payload@, sparse: self.sparse }
    }
}

impl BlockView {
    /// A record keeps all of the block: a sparse block carries no payload, and the
    /// length of a payload fits its field.
    pub open spec fn storable(self) -> bool {
        &&& self.payload.len() <= u32::MAX
        &&& self.sparse ==> self.payload.len() == 0
    }
}

/// Why a spool refuses a request.
#[derive(Debug)]
pub enum SpoolError {
    BlockCountOverflow,
    PayloadLengthOverflow,
    LayerCountOverflow,
    UnexpectedEnd,
    LayerStillOpen,
    BlockIndexOutOfRange { index: usize, block_count: usize },
    DuplicateBlockIndex { index: usize },
    UnexpectedLayers { expected: usize, found: usize },
    MissingBlocks { block_count: usize, written: usize, pending: usize },
}

/// The record of a block.
pub open spec fn block_record(block: BlockView) -> Seq<u8> {
    seq![
        if block.sparse {
            1u8
        } else {
            0u8
        },
    ] + u32_le(block.payload.len()) + (if block.sparse {
        Seq::<u8>::empty()
    } else {
        block.payload
    })
}

/// The records of several blocks, one after the other.
pub open spec fn block_records(blocks: Seq<BlockView>) -> Seq<u8>
    decreases blocks.len(),
{
    if blocks.len() == 0 {
        Seq::empty()
    } else {
        block_records(blocks.drop_last()) + block_record(blocks.last())
    }
}

/// The bytes of a layer.
pub open spec fn layer_bytes(blocks: Seq<BlockView>) -> Seq<u8> {
    u32_le(blocks.len()) + block_records(blocks)
}

/// The bytes of several layers, one after the other.
pub open spec fn spool_bytes(layers: Seq<Seq<BlockView>>) -> Seq<u8>
    decreases layers.len(),
{
    if layers.len() == 0 {
        Seq::empty()
    } else {
        layer_bytes(layers.first()) + spool_bytes(layers.drop_first())
    }
}

/// The block whose record the bytes start with, and the bytes behind it; none where
/// they end early.
pub open spec fn parse_block(bytes: Seq<u8>) -> Option<(BlockView, Seq<u8>)> {
    if bytes.len() < 5 {
        None
    } else {
        let len = u32_le_value(bytes.subrange(1, 5)) as int;
        if bytes.len() < 5 + len {
            None
        } else {
            Some(
                (
                    BlockView { payload: bytes.subrange(5, 5 + len), sparse: bytes[0] != 0 },
                    bytes.subrange(5 + len, bytes.len() as int),
                ),
            )
        }
    }
}

/// The `count` blocks whose records the bytes start with, and the bytes behind them.
pub open spec fn parse_blocks(bytes: Seq<u8>, count: nat) -> Option<(Seq<BlockView>, Seq<u8>)>
    decreases count,
{
    if count == 0 {
        Some((Seq::empty(), bytes))
    } else {
        match parse_blocks(bytes, (count - 1) as nat) {
            None => None,
            Some((blocks, rest)) => match parse_block(rest) {
                None => None,
                Some((block, tail)) => Some((blocks.push(block), tail)),
            },
        }
    }
}

/// The layer that the bytes start with, and the bytes behind it; `None` inside where
/// a block ends early. Fewer than four bytes hold no layer.
pub open spec fn parse_layer(bytes: Seq<u8>) -> Option<(Seq<BlockView>, Seq<u8>)>
    recommends
        bytes.len() >= 4,
{
    parse_blocks(
        bytes.subrange(4, bytes.len() as int),
        u32_le_value(bytes.subrange(0, 4)),
    )
}

/// All layers that the bytes hold, the last of them followed by fewer than four
/// bytes; `None` where a block ends early.
pub open spec fn parse_layers(bytes: Seq<u8>) -> Option<Seq<Seq<BlockView>>>
    decreases bytes.len(),
{
    if bytes.len() < 4 {
        Some(Seq::empty())
    } else {
        match parse_layer(bytes) {
            None => None,
            Some((layer, rest)) => {
                if rest.len() < bytes.len() {
                    match parse_layers(rest) {
                        None => None,
                        Some(layers) => Some(seq![layer] + layers),
                    }
                } else {
                    None
                }
            },
        }
    }
}

/// How many blocks come before the first whose payload is too long for a record.
pub open spec fn fitting_blocks(blocks: Seq<BlockView>) -> nat
    decreases blocks.len(),
{
    if blocks.len() == 0 || blocks.first().payload.len() > u32::MAX {
        0
    } else {
        1 + fitting_blocks(blocks.drop_first())
    }
}

/// The views of several blocks.
pub open spec fn block_views(blocks: Seq<CompressedBlock>) -> Seq<BlockView> {
    blocks.map_values(|block: CompressedBlock| block@)
}

/// The views of the blocks of several layers.
pub open spec fn layer_views(layers: Seq<Vec<CompressedBlock>>) -> Seq<Seq<BlockView>> {
    layers.map_values(|layer: Vec<CompressedBlock>| block_views(layer@))
}

proof fn lemma_block_record_parses(block: BlockView, tail: Seq<u8>)
    requires
        block.storable(),
    ensures
        parse_block(block_record(block) + tail) == Some((block, tail)),
{
    lemma_u32_le_roundtrip(block.payload.len());
    let bytes = block_record(block) + tail;
    assert(bytes.subrange(1, 5) =~= u32_le(block.payload.len()));
    let len = block.payload.len() as int;
    assert(bytes.subrange(5, 5 + len) =~= block.payload);
    assert(bytes.subrange(5 + len, bytes.len() as int) =~= tail);
}

proof fn lemma_block_records_parse(blocks: Seq<BlockView>, tail: Seq<u8>)
    requires
        forall|i: int| 0 <= i < blocks.len() ==> (#[trigger] blocks[i]).storable(),
    ensures
        parse_blocks(block_records(blocks) + tail, blocks.len()) == Some((blocks, tail)),
    decreases blocks.len(),
{
    if blocks.len() == 0 {
        assert(block_records(blocks) + tail =~= tail);
        assert(blocks =~= Seq::<BlockView>::empty());
    } else {
        let front = blocks.drop_last();
        let last = block_record(blocks.last());
        lemma_block_records_parse(front, last + tail);
        lemma_block_record_parses(blocks.last(), tail);
        assert(block_records(blocks) + tail =~= block_records(front) + (last + tail));
        assert(front.push(blocks.last()) =~= blocks);
    }
}

/// A layer reads back as the blocks that were written, whatever follows it, as long
/// as every block is one that a record keeps whole.
pub proof fn law_layer_roundtrip(blocks: Seq<BlockView>, tail: Seq<u8>)
    requires
        blocks.len() <= u32::MAX,
        forall|i: int| 0 <= i < blocks.len() ==> (#[trigger] blocks[i]).storable(),
    ensures
        layer_bytes(blocks).len() >= 4,
        parse_layer(layer_bytes(blocks) + tail) == Some((blocks, tail)),
{
    let bytes = layer_bytes(blocks) + tail;
    lemma_u32_le_roundtrip(blocks.len());
    lemma_block_records_parse(blocks, tail);
    assert(bytes.subrange(0, 4) =~= u32_le(blocks.len()));
    assert(bytes.subrange(4, bytes.len() as int) =~= block_records(blocks) + tail);
}

proof fn lemma_parse_blocks_shrinks(bytes: Seq<u8>, count: nat)
    ensures
        parse_blocks(bytes, count) matches Some((blocks, rest)) ==> rest.len() <= bytes.len()
            && blocks.len() == count,
    decreases count,
{
    if count > 0 {
        lemma_parse_blocks_shrinks(bytes, (count - 1) as nat);
    }
}

/// Reading a layer block by block gives the same blocks as reading it whole.
pub proof fn law_blocks_one_by_one(bytes: Seq<u8>, count: nat)
    ensures
        parse_blocks(bytes, count + 1) == match parse_block(bytes) {
            None => None::<(Seq<BlockView>, Seq<u8>)>,
            Some((block, rest)) => match parse_blocks(rest, count) {
                None => None,
                Some((blocks, tail)) => Some((seq![block] + blocks, tail)),
            },
        },
    decreases count,
{
    assert(parse_blocks(bytes, 0) == Some((Seq::<BlockView>::empty(), bytes)));
    if count == 0 {
        match parse_block(bytes) {
            None => {},
            Some((block, rest)) => {
                assert(parse_blocks(rest, 0) == Some((Seq::<BlockView>::empty(), rest)));
                assert(Seq::<BlockView>::empty().push(block) =~= seq![block] + Seq::<
                    BlockView,
                >::empty());
            },
        }
    } else {
        law_blocks_one_by_one(bytes, (count - 1) as nat);
        match parse_block(bytes) {
            None => {},
            Some((block, rest)) => match parse_blocks(rest, (count - 1) as nat) {
                None => {},
                Some((blocks, tail)) => match parse_block(tail) {
                    None => {},
                    Some((next, end)) => {
                        assert((seq![block] + blocks).push(next) =~= seq![block] + blocks.push(
                            next,
                        ));
                    },
                },
            },
        }
    }
}

/// Writing a further layer behind the others appends its bytes.
pub proof fn law_spool_append(layers: Seq<Seq<BlockView>>, layer: Seq<BlockView>)
    ensures
        spool_bytes(layers.push(layer)) == spool_bytes(layers) + layer_bytes(layer),
    decreases layers.len(),
{
    let all = layers.push(layer);
    if layers.len() == 0 {
        assert(all.drop_first() =~= layers);
        assert(all.first() == layer);
        assert(spool_bytes(layers) =~= Seq::<u8>::empty());
        assert(spool_bytes(all) == layer_bytes(layer) + spool_bytes(all.drop_first()));
        assert(spool_bytes(all) =~= layer_bytes(layer));
        assert(spool_bytes(layers) + layer_bytes(layer) =~= layer_bytes(layer));
    } else {
        law_spool_append(layers.drop_first(), layer);
        assert(all.drop_first() =~= layers.drop_first().push(layer));
        assert(all.first() == layers.first());
        assert(spool_bytes(all) =~= spool_bytes(layers) + layer_bytes(layer));
    }
}

/// A spool reads back as the layers that were written to it, as long as every block
/// is one that a record keeps whole.
pub proof fn law_spool_roundtrip(layers: Seq<Seq<BlockView>>)
    requires
        forall|i: int| 0 <= i < layers.len() ==> (#[trigger] layers[i]).len() <= u32::MAX,
        forall|i: int, j: int|
            0 <= i < layers.len() && 0 <= j < layers[i].len() ==> (
            #[trigger] layers[i][j]).storable(),
    ensures
        parse_layers(spool_bytes(layers)) == Some(layers),
    decreases layers.len(),
{
    if layers.len() == 0 {
        assert(layers =~= Seq::<Seq<BlockView>>::empty());
    } else {
        let rest = layers.drop_first();
        assert(layers.first() == layers[0]);
        assert forall|i: int, j: int| 0 <= i < rest.len() && 0 <= j < rest[i].len() implies (
        #[trigger] rest[i][j]).storable() by {
            assert(rest[i] == layers[i + 1]);
            assert(layers[i + 1][j].storable());
        }
        assert forall|j: int| 0 <= j < layers[0].len() implies (
        #[trigger] layers.first()[j]).storable() by {
            assert(layers[0][j].storable());
        }
        law_spool_roundtrip(rest);
        law_layer_roundtrip(layers.first(), spool_bytes(rest));
        assert(seq![layers.first()] + rest =~= layers);
    }
}

/// Encoded layers, written one after the other and read back in the same order. New
/// bytes go to the position that reading and writing share.
pub struct LayerBlockSpool {
    bytes: Vec<u8>,
    position: usize,
    layer_count: u32,
}

impl LayerBlockSpool {
    /// All bytes that the spool holds.
    pub closed spec fn content(&self) -> Seq<u8> {
        self.bytes@
    }

    /// Where the next read or write starts.
    pub closed spec fn cursor(&self) -> int {
        self.position as int
    }

    /// How many layers have been written.
    pub closed spec fn written_layers(&self) -> nat {
        self.layer_count as nat
    }

    /// The position lies within the bytes.
    pub closed spec fn well_formed(&self) -> bool {
        self.position <= self.bytes@.len()
    }

    /// The count of layers fits its field.
    pub proof fn lemma_layers_counted(&self)
        ensures
            self.written_layers() <= u32::MAX,
    {
    }

    /// The bytes from the position on.
    pub open spec fn remaining(&self) -> Seq<u8> {
        self.content().subrange(self.cursor(), self.content().len() as int)
    }

    /// The position is behind the last byte.
    pub open spec fn at_end(&self) -> bool {
        self.cursor() == self.content().len()
    }

    /// An empty spool.
    pub fn new() -> (spool: Self)
        ensures
            spool.well_formed(),
            spool.content() == Seq::<u8>::empty(),
            spool.cursor() == 0,
            spool.written_layers() == 0,
    {
        LayerBlockSpool { bytes: Vec::new(), position: 0, layer_count: 0 }
    }

    /// A spool over bytes taken from another one, positioned at their start.
    pub fn from_bytes(bytes: Vec<u8>, layer_count: u32) -> (spool: Self)
        ensures
            spool.well_formed(),
            spool.content() == bytes@,
            spool.cursor() == 0,
            spool.written_layers() == layer_count,
    {
        LayerBlockSpool { bytes, position: 0, layer_count }
    }

    /// Hands out the bytes.
    pub fn into_bytes(self) -> (bytes: Vec<u8>)
        ensures
            bytes@ == self.content(),
    {
        self.bytes
    }

    pub fn layer_count(&self) -> (count: usize)
        ensures
            count == self.written_layers(),
    {
        self.layer_count as usize
    }

    /// Moves the position to the first byte.
    pub fn rewind(&mut self)
        ensures
            final(self).well_formed(),
            final(self).content() == old(self).content(),
            final(self).cursor() == 0,
            final(self).written_layers() == old(self).written_layers(),
    {
        self.position = 0;
    }

    fn write_all(&mut self, data: &[u8])
        requires
            old(self).well_formed(),
        ensures
            final(self).well_formed(),
            final(self).content() == overwritten(old(self).content(), old(self).cursor(), data@),
            final(self).cursor() == old(self).cursor() + data@.len(),
            final(self).written_layers() == old(self).written_layers(),
    {
        let end: usize = write_over(&mut self.bytes, self.position, data);
        self.position = end;
    }

    fn move_to_end(&mut self)
        requires
            old(self).well_formed(),
        ensures
            final(self).well_formed(),
            final(self).content() == old(self).content(),
            final(self).at_end(),
            final(self).written_layers() == old(self).written_layers(),
    {
        self.position = self.bytes.len();
    }

    /// Reads the record at the position. Where it ends early, the position moves
    /// behind the last byte.
    fn read_one_block(&mut self) -> (result: Result<CompressedBlock, SpoolError>)
        requires
            old(self).well_formed(),
        ensures
            final(self).well_formed(),
            final(self).content() == old(self).content(),
            final(self).written_layers() == old(self).written_layers(),
            match parse_block(old(self).remaining()) {
                Some((block, rest)) => {
                    &&& result matches Ok(read) && read@ == block
                    &&& final(self).remaining() == rest
                },
                None => {
                    &&& result matches Err(SpoolError::UnexpectedEnd)
                    &&& final(self).at_end()
                },
            },
    {
        let ghost rest = self.remaining();
        let available: usize = self.bytes.len() - self.position;
        if available < 5 {
            self.move_to_end();
            return Err(SpoolError::UnexpectedEnd);
        }
        let sparse: bool = self.bytes[self.position] != 0;
        let len: u32 = read_u32_le(self.bytes.as_slice(), self.position + 1);
        proof {
            assert(rest.subrange(1, 5) =~= self.bytes@.subrange(
                self.position + 1,
                self.position + 5,
            ));
        }
        if available - 5 < len as usize {
            self.move_to_end();
            return Err(SpoolError::UnexpectedEnd);
        }
        let from: usize = self.position + 5;
        let payload: Vec<u8> = copy_range(self.bytes.as_slice(), from, from + len as usize);
        self.position = from + len as usize;
        proof {
            assert(payload@ =~= rest.subrange(5, 5 + len));
            assert(self.remaining() =~= rest.subrange(5 + len, rest.len() as int));
        }
        Ok(CompressedBlock { payload, sparse })
    }

    /// Reads the layer at the position; `None` where fewer than four bytes are left.
    /// A layer that ends early is an error. In both cases nothing is left to read.
    pub fn read_next_layer(&mut self) -> (result: Result<Option<Vec<CompressedBlock>>, SpoolError>)
        requires
            old(self).well_formed(),
        ensures
            final(self).well_formed(),
            final(self).content() == old(self).content(),
            final(self).written_layers() == old(self).written_layers(),
            old(self).remaining().len() < 4 ==> {
                &&& result matches Ok(None)
                &&& final(self).at_end()
            },
            old(self).remaining().len() >= 4 ==> match parse_layer(old(self).remaining()) {
                Some((blocks, rest)) => {
                    &&& result matches Ok(Some(layer)) && block_views(layer@) == blocks
                    &&& final(self).remaining() == rest
                },
                None => {
                    &&& result matches Err(SpoolError::UnexpectedEnd)
                    &&& final(self).at_end()
                },
            },
    {
        let ghost rest = self.remaining();
        if self.bytes.len() - self.position < 4 {
            self.move_to_end();
            return Ok(None);
        }
        let count: u32 = read_u32_le(self.bytes.as_slice(), self.position);
        proof {
            assert(rest.subrange(0, 4) =~= self.bytes@.subrange(
                self.position as int,
                self.position + 4,
            ));
        }
        self.position = self.position + 4;
        let ghost body = self.remaining();
        assert(body =~= rest.subrange(4, rest.len() as int));
        let mut blocks: Vec<CompressedBlock> = Vec::new();
        let mut i: u32 = 0;
        assert(block_views(blocks@) =~= Seq::<BlockView>::empty());
        while i < count
            invariant
                i <= count,
                self.well_formed(),
                self.content() == old(self).content(),
                self.written_layers() == old(self).written_layers(),
                body == rest.subrange(4, rest.len() as int),
                rest == old(self).remaining(),
                rest.len() >= 4,
                count == u32_le_value(rest.subrange(0, 4)),
                parse_blocks(body, i as nat) == Some((block_views(blocks@), self.remaining())),
            decreases count - i,
        {
            let ghost before = block_views(blocks@);
            match self.read_one_block() {
                Ok(block) => {
                    let ghost read = block@;
                    blocks.push(block);
                    proof {
                        assert(block_views(blocks@) =~= before.push(read));
                    }
                },
                Err(error) => {
                    proof {
                        lemma_parse_blocks_stays_none(body, (i + 1) as nat, count as nat);
                    }
                    return Err(error);
                },
            }
            i = i + 1;
        }
        Ok(Some(blocks))
    }
}

/// How far a layer gets that is written block by block: the blocks whose records went
/// out, and whether a block with too long a payload stopped it.
pub open spec fn layer_prefix(blocks: Seq<BlockView>) -> Seq<u8> {
    let fitting = fitting_blocks(blocks) as int;
    u32_le(blocks.len()) + block_records(blocks.take(fitting)) + (if fitting < blocks.len() {
        seq![
            if blocks[fitting].sparse {
                1u8
            } else {
                0u8
            },
        ]
    } else {
        Seq::empty()
    })
}

/// The blocks that fit stand before the first whose payload is too long.
proof fn lemma_fitting_blocks(blocks: Seq<BlockView>)
    ensures
        fitting_blocks(blocks) <= blocks.len(),
        forall|i: int|
            0 <= i < fitting_blocks(blocks) ==> (#[trigger] blocks[i]).payload.len() <= u32::MAX,
        fitting_blocks(blocks) < blocks.len() ==> blocks[fitting_blocks(
            blocks,
        ) as int].payload.len() > u32::MAX,
    decreases blocks.len(),
{
    if blocks.len() > 0 && blocks.first().payload.len() <= u32::MAX {
        let rest = blocks.drop_first();
        lemma_fitting_blocks(rest);
        assert forall|i: int| 0 <= i < fitting_blocks(blocks) implies (
        #[trigger] blocks[i]).payload.len() <= u32::MAX by {
            if i > 0 {
                assert(blocks[i] == rest[i - 1]);
            }
        }
    }
}

/// Appends the record of a block; of one with too long a payload only the first byte.
fn push_block_record(out: &mut Vec<u8>, block: &CompressedBlock) -> (result: Result<
    (),
    SpoolError,
>)
    ensures
        block.payload@.len() <= u32::MAX ==> {
            &&& result is Ok
            &&& final(out)@ == old(out)@ + block_record(block@)
        },
        block.payload@.len() > u32::MAX ==> {
            &&& result matches Err(SpoolError::PayloadLengthOverflow)
            &&& final(out)@ == old(out)@ + seq![
                if block.sparse {
                    1u8
                } else {
                    0u8
                },
            ]
        },
{
    let ghost before = out@;
    out.push(
        if block.sparse {
            1
        } else {
            0
        },
    );
    let length: usize = block.payload.len();
    if length > u32::MAX as usize {
        assert(out@ =~= before + seq![
            if block.sparse {
                1u8
            } else {
                0u8
            },
        ]);
        return Err(SpoolError::PayloadLengthOverflow);
    }
    push_u32_le(out, length as u32);
    if !block.sparse {
        push_all(out, block.payload.as_slice());
    }
    assert(out@ =~= before + block_record(block@));
    Ok(())
}

/// What is written at the end of bytes stands behind them.
pub proof fn lemma_written_behind(content: Seq<u8>, data: Seq<u8>)
    ensures
        overwritten(content, content.len() as int, data) == content + data,
{
    assert(overwritten(content, content.len() as int, data) =~= content + data);
}

impl LayerBlockSpool {
    /// Writes a layer at the position. Where the count of blocks or of layers or the
    /// length of a payload does not fit its field, the bytes up to that field are
    /// written and the layer is not counted.
    pub fn write_layer(&mut self, blocks: Vec<CompressedBlock>) -> (result: Result<(), SpoolError>)
        requires
            old(self).well_formed(),
        ensures
            final(self).well_formed(),
            blocks@.len() > u32::MAX ==> {
                &&& result matches Err(SpoolError::BlockCountOverflow)
                &&& *final(self) == *old(self)
            },
            blocks@.len() <= u32::MAX ==> {
                let views = block_views(blocks@);
                let data = layer_prefix(views);
                &&& final(self).content() == overwritten(
                    old(self).content(),
                    old(self).cursor(),
                    data,
                )
                &&& final(self).cursor() == old(self).cursor() + data.len()
                &&& if fitting_blocks(views) < views.len() {
                    &&& result matches Err(SpoolError::PayloadLengthOverflow)
                    &&& final(self).written_layers() == old(self).written_layers()
                } else if old(self).written_layers() == u32::MAX {
                    &&& result matches Err(SpoolError::LayerCountOverflow)
                    &&& final(self).written_layers() == old(self).written_layers()
                } else {
                    &&& result is Ok
                    &&& data == layer_bytes(views)
                    &&& final(self).written_layers() == old(self).written_layers() + 1
                }
            },
    {
        let count: usize = blocks.len();
        if count > u32::MAX as usize {
            return Err(SpoolError::BlockCountOverflow);
        }
        let ghost views = block_views(blocks@);
        let mut data: Vec<u8> = Vec::new();
        push_u32_le(&mut data, count as u32);
        let mut i: usize = 0;
        proof {
            lemma_fitting_blocks(views);
            assert(views.take(0) =~= Seq::<BlockView>::empty());
            assert(data@ =~= u32_le(views.len()) + block_records(views.take(0)));
        }
        while i < count
            invariant
                i <= count,
                count == blocks@.len(),
                count <= u32::MAX,
                views == block_views(blocks@),
                data@ == u32_le(views.len()) + block_records(views.take(i as int)),
                i <= fitting_blocks(views) <= views.len(),
                fitting_blocks(views) < views.len() ==> views[fitting_blocks(
                    views,
                ) as int].payload.len() > u32::MAX,
                forall|j: int|
                    0 <= j < fitting_blocks(views) ==> (#[trigger] views[j]).payload.len()
                        <= u32::MAX,
                old(self).well_formed(),
                *self == *old(self),
            decreases count - i,
        {
            let ghost before = data@;
            assert(views[i as int] == blocks@[i as int]@);
            match push_block_record(&mut data, &blocks[i]) {
                Ok(()) => {
                    proof {
                        assert(views.take(i + 1).drop_last() =~= views.take(i as int));
                        assert(views.take(i + 1).last() == views[i as int]);
                        assert(data@ =~= u32_le(views.len()) + block_records(views.take(i + 1)));
                    }
                },
                Err(error) => {
                    self.write_all(data.as_slice());
                    proof {
                        assert(fitting_blocks(views) == i);
                        assert(data@ =~= layer_prefix(views));
                    }
                    return Err(error);
                },
            }
            i = i + 1;
        }
        proof {
            assert(views.take(i as int) =~= views);
            assert(data@ =~= layer_prefix(views));
        }
        self.write_all(data.as_slice());
        if self.layer_count == u32::MAX {
            return Err(SpoolError::LayerCountOverflow);
        }
        self.layer_count = self.layer_count + 1;
        Ok(())
    }

    /// All layers from the first byte on.
    pub fn read_all_layers(self) -> (result: Result<Vec<Vec<CompressedBlock>>, SpoolError>)
        requires
            self.well_formed(),
        ensures
            match parse_layers(self.content()) {
                Some(expected) => result matches Ok(layers) && layer_views(layers@) == expected,
                None => result matches Err(SpoolError::UnexpectedEnd),
            },
    {
        let mut spool = self;
        spool.rewind();
        let mut layers: Vec<Vec<CompressedBlock>> = Vec::new();
        proof {
            assert(spool.remaining() =~= self.content());
            lemma_join_layers_empty(parse_layers(self.content()));
            assert(layer_views(layers@) =~= Seq::<Seq<BlockView>>::empty());
        }
        loop
            invariant
                spool.well_formed(),
                parse_layers(self.content()) == join_layers(
                    layer_views(layers@),
                    parse_layers(spool.remaining()),
                ),
            decreases spool.remaining().len(),
        {
            let ghost rest = spool.remaining();
            proof {
                if rest.len() >= 4 {
                    lemma_parse_blocks_shrinks(
                        rest.subrange(4, rest.len() as int),
                        u32_le_value(rest.subrange(0, 4)),
                    );
                }
            }
            match spool.read_next_layer() {
                Err(error) => {
                    return Err(error);
                },
                Ok(None) => {
                    proof {
                        assert(layer_views(layers@) + Seq::<Seq<BlockView>>::empty()
                            =~= layer_views(layers@));
                    }
                    return Ok(layers);
                },
                Ok(Some(layer)) => {
                    let ghost before = layer_views(layers@);
                    let ghost read = block_views(layer@);
                    layers.push(layer);
                    proof {
                        assert(layer_views(layers@) =~= before.push(read));
                        match parse_layers(spool.remaining()) {
                            None => {},
                            Some(tail) => {
                                assert(before + (seq![read] + tail) =~= before.push(read) + tail);
                            },
                        }
                    }
                },
            }
        }
    }

    /// A reader that hands out one block at a time.
    pub fn block_reader(&self) -> (reader: LayerBlockReader)
        ensures
            reader.left() == 0,
            !reader.open(),
    {
        LayerBlockReader { blocks_left: 0, layer_open: false }
    }
}

spec fn join_layers(
    front: Seq<Seq<BlockView>>,
    back: Option<Seq<Seq<BlockView>>>,
) -> Option<Seq<Seq<BlockView>>> {
    match back {
        None => None,
        Some(layers) => Some(front + layers),
    }
}

proof fn lemma_join_layers_empty(back: Option<Seq<Seq<BlockView>>>)
    ensures
        join_layers(Seq::empty(), back) == back,
{
    if let Some(layers) = back {
        assert(Seq::<Seq<BlockView>>::empty() + layers =~= layers);
    }
}

/// Reads one encoded block at a time from a [`LayerBlockSpool`].
pub struct LayerBlockReader {
    blocks_left: usize,
    layer_open: bool,
}

impl LayerBlockReader {
    /// How many blocks of the open layer are still to be read.
    pub closed spec fn left(&self) -> nat {
        self.blocks_left as nat
    }

    /// Whether a layer has been opened and not read to its end.
    pub closed spec fn open(&self) -> bool {
        self.layer_open
    }

    /// Opens the layer at the spool's position and returns the count of its blocks.
    pub fn begin_layer(&mut self, spool: &mut LayerBlockSpool) -> (result: Result<
        usize,
        SpoolError,
    >)
        requires
            old(spool).well_formed(),
        ensures
            final(spool).well_formed(),
            final(spool).content() == old(spool).content(),
            final(spool).written_layers() == old(spool).written_layers(),
            if old(self).open() {
                &&& result matches Err(SpoolError::LayerStillOpen)
                &&& *final(self) == *old(self)
                &&& *final(spool) == *old(spool)
            } else if old(spool).remaining().len() < 4 {
                &&& result matches Err(SpoolError::UnexpectedEnd)
                &&& *final(self) == *old(self)
                &&& final(spool).at_end()
            } else {
                let rest = old(spool).remaining();
                &&& result matches Ok(count) && count == u32_le_value(rest.subrange(0, 4))
                &&& final(self).open()
                &&& final(self).left() == u32_le_value(rest.subrange(0, 4))
                &&& final(spool).remaining() == rest.subrange(4, rest.len() as int)
            },
    {
        if self.layer_open {
            return Err(SpoolError::LayerStillOpen);
        }
        let ghost rest = spool.remaining();
        if spool.bytes.len() - spool.position < 4 {
            spool.move_to_end();
            return Err(SpoolError::UnexpectedEnd);
        }
        let count: u32 = read_u32_le(spool.bytes.as_slice(), spool.position);
        proof {
            assert(rest.subrange(0, 4) =~= spool.bytes@.subrange(
                spool.position as int,
                spool.position + 4,
            ));
        }
        spool.position = spool.position + 4;
        assert(spool.remaining() =~= rest.subrange(4, rest.len() as int));
        self.blocks_left = count as usize;
        self.layer_open = true;
        Ok(self.blocks_left)
    }

    /// Reads the next block of the open layer; `None` behind its last block, or where
    /// no layer is open. The layer closes with its last block.
    pub fn read_block(&mut self, spool: &mut LayerBlockSpool) -> (result: Result<
        Option<CompressedBlock>,
        SpoolError,
    >)
        requires
            old(spool).well_formed(),
        ensures
            final(spool).well_formed(),
            final(spool).content() == old(spool).content(),
            final(spool).written_layers() == old(spool).written_layers(),
            if !old(self).open() || old(self).left() == 0 {
                &&& result matches Ok(None)
                &&& !final(self).open()
                &&& final(self).left() == old(self).left()
                &&& *final(spool) == *old(spool)
            } else {
                match parse_block(old(spool).remaining()) {
                    Some((block, rest)) => {
                        &&& result matches Ok(Some(read)) && read@ == block
                        &&& final(self).left() == old(self).left() - 1
                        &&& final(self).open() == (old(self).left() > 1)
                        &&& final(spool).remaining() == rest
                    },
                    None => {
                        &&& result matches Err(SpoolError::UnexpectedEnd)
                        &&& *final(self) == *old(self)
                        &&& final(spool).at_end()
                    },
                }
            },
    {
        if !self.layer_open {
            return Ok(None);
        }
        if self.blocks_left == 0 {
            self.layer_open = false;
            return Ok(None);
        }
        match spool.read_one_block() {
            Err(error) => Err(error),
            Ok(block) => {
                self.blocks_left = self.blocks_left - 1;
                if self.blocks_left == 0 {
                    self.layer_open = false;
                }
                Ok(Some(block))
            },
        }
    }
}

proof fn lemma_parse_blocks_stays_none(bytes: Seq<u8>, count: nat, more: nat)
    requires
        count <= more,
        parse_blocks(bytes, count) is None,
    ensures
        parse_blocks(bytes, more) is None,
    decreases more,
{
    if count < more {
        lemma_parse_blocks_stays_none(bytes, count, (more - 1) as nat);
    }
}

/// What a layer has received that is written out of order: the blocks whose turn has
/// come, in order, and the blocks that wait for an earlier one.
pub struct StreamView {
    pub block_count: nat,
    pub ready: Seq<BlockView>,
    pub waiting: Map<usize, BlockView>,
}

impl StreamView {
    /// No index lies outside the layer, and every block is one that a record keeps.
    pub open spec fn consistent(self) -> bool {
        &&& self.ready.len() <= self.block_count <= usize::MAX
        &&& forall|index: usize| #[trigger]
            self.waiting.contains_key(index) ==> index < self.block_count
                && self.waiting[index].storable()
        &&& forall|i: int| 0 <= i < self.ready.len() ==> (#[trigger] self.ready[i]).storable()
    }

    /// The state is consistent, and nothing waits whose turn has come.
    pub open spec fn settled(self) -> bool {
        &&& self.consistent()
        &&& !self.waiting.contains_key(self.ready.len() as usize)
    }

    /// Whether the block with this index has arrived.
    pub open spec fn received(self, index: int) -> bool {
        0 <= index < self.ready.len() || (0 <= index <= usize::MAX && self.waiting.contains_key(
            index as usize,
        ))
    }

    /// The block that arrived under this index.
    pub open spec fn block_at(self, index: int) -> BlockView {
        if index < self.ready.len() {
            self.ready[index]
        } else {
            self.waiting[index as usize]
        }
    }

    /// The state after every block whose turn has come has moved to the ready ones.
    pub open spec fn settle(self) -> StreamView
        decreases self.block_count - self.ready.len(),
    {
        let next = self.ready.len() as usize;
        if self.ready.len() < self.block_count && self.waiting.contains_key(next) {
            StreamView {
                block_count: self.block_count,
                ready: self.ready.push(self.waiting[next]),
                waiting: self.waiting.remove(next),
            }.settle()
        } else {
            self
        }
    }
}

/// Settling neither loses a block nor gives it another index.
pub proof fn law_settling_keeps_blocks(state: StreamView)
    requires
        state.consistent(),
    ensures
        state.settle().settled(),
        state.settle().block_count == state.block_count,
        forall|index: int|
            state.settle().received(index) <==> #[trigger] state.received(index),
        forall|index: int|
            state.received(index) ==> #[trigger] state.settle().block_at(index) == state.block_at(
                index,
            ),
    decreases state.block_count - state.ready.len(),
{
    let next = state.ready.len() as usize;
    if state.ready.len() < state.block_count && state.waiting.contains_key(next) {
        let moved = StreamView {
            block_count: state.block_count,
            ready: state.ready.push(state.waiting[next]),
            waiting: state.waiting.remove(next),
        };
        law_settling_keeps_blocks(moved);
        assert(state.settle() == moved.settle());
        assert forall|index: int| state.settle().received(index) <==> #[trigger] state.received(
            index,
        ) by {
            assert(moved.received(index) <==> state.received(index));
        }
        assert forall|index: int| state.received(index) implies #[trigger] state.settle().block_at(
            index,
        ) == state.block_at(index) by {
            assert(moved.received(index));
            assert(moved.block_at(index) == state.block_at(index));
        }
    }
}

/// Once every block of a layer has arrived, in whatever order, all of them are ready
/// in the order of their indices.
pub proof fn law_complete_stream_is_ordered(state: StreamView)
    requires
        state.settled(),
        forall|index: int| 0 <= index < state.block_count ==> #[trigger] state.received(index),
    ensures
        state.ready == Seq::new(state.block_count, |index: int| state.block_at(index)),
{
    assert(state.ready.len() == state.block_count) by {
        if state.ready.len() < state.block_count {
            assert(state.received(state.ready.len() as int));
        }
    }
    assert(state.ready =~= Seq::new(state.block_count, |index: int| state.block_at(index)));
}

/// A layer whose blocks arrive in any order and are written in the order of their
/// indices.
pub struct StreamingLayerWriter {
    block_count: usize,
    ready: Vec<CompressedBlock>,
    waiting: BTreeMap<usize, CompressedBlock>,
}

impl View for StreamingLayerWriter {
    type V = StreamView;

    closed spec fn view(&self) -> StreamView {
        StreamView {
            block_count: self.block_count as nat,
            ready: block_views(self.ready@),
            waiting: self.waiting@.map_values(|block: CompressedBlock| block@),
        }
    }
}

impl StreamingLayerWriter {
    pub fn block_count(&self) -> (count: usize)
        ensures
            count == self@.block_count,
    {
        self.block_count
    }

    /// Takes the block with this index, and moves every block whose turn has come to
    /// the ready ones. An index outside the layer, one that already waits and a
    /// payload that is too long for its record are refused.
    pub fn write_block(&mut self, index: usize, block: CompressedBlock) -> (result: Result<
        (),
        SpoolError,
    >)
        requires
            old(self)@.settled(),
            block.sparse ==> block.payload@.len() == 0,
        ensures
            final(self)@.settled(),
            final(self)@.block_count == old(self)@.block_count,
            if index >= old(self)@.block_count {
                &&& result matches Err(
                    SpoolError::BlockIndexOutOfRange { index: at, block_count: count },
                ) && at == index && count == old(self)@.block_count
                &&& final(self)@ == old(self)@
            } else if old(self)@.waiting.contains_key(index) {
                &&& result matches Err(SpoolError::DuplicateBlockIndex { index: at }) && at == index
                &&& final(self)@ == old(self)@
            } else if block.payload@.len() > u32::MAX {
                &&& result matches Err(SpoolError::PayloadLengthOverflow)
                &&& final(self)@ == old(self)@
            } else {
                &&& result is Ok
                &&& final(self)@ == (StreamView {
                    waiting: old(self)@.waiting.insert(index, block@),
                    ..old(self)@
                }).settle()
            },
    {
        broadcast use vstd::std_specs::btree::group_btree_axioms;

        if index >= self.block_count {
            return Err(
                SpoolError::BlockIndexOutOfRange { index, block_count: self.block_count },
            );
        }
        if self.waiting.contains_key(&index) {
            return Err(SpoolError::DuplicateBlockIndex { index });
        }
        if block.payload.len() > u32::MAX as usize {
            return Err(SpoolError::PayloadLengthOverflow);
        }
        let ghost arrived = StreamView {
            waiting: self@.waiting.insert(index, block@),
            ..self@
        };
        self.waiting.insert(index, block);
        proof {
            assert(self@.waiting =~= arrived.waiting);
            law_settling_keeps_blocks(arrived);
        }
        self.drain_ready();
        Ok(())
    }

    fn drain_ready(&mut self)
        requires
            old(self)@.ready.len() <= old(self)@.block_count,
        ensures
            final(self)@ == old(self)@.settle(),
    {
        broadcast use vstd::std_specs::btree::group_btree_axioms;

        while self.ready.len() < self.block_count && self.waiting.contains_key(&self.ready.len())
            invariant
                self@.ready.len() <= self@.block_count,
                self@.settle() == old(self)@.settle(),
                self.block_count == old(self).block_count,
            decreases self.block_count - self.ready@.len(),
        {
            broadcast use vstd::std_specs::btree::group_btree_axioms;

            let ghost before = self@;
            let next: usize = self.ready.len();
            match self.waiting.remove(&next) {
                Some(block) => {
                    let ghost moved = block@;
                    self.ready.push(block);
                    proof {
                        assert(self@.ready =~= before.ready.push(moved));
                        assert(self@.waiting =~= before.waiting.remove(next));
                    }
                },
                None => {},
            }
        }
    }
}

impl LayerBlockSpool {
    /// Starts a layer whose blocks may arrive in any order.
    pub fn begin_streaming_layer(&mut self, block_count: usize) -> (result: Result<
        StreamingLayerWriter,
        SpoolError,
    >)
        requires
            old(self).well_formed(),
        ensures
            final(self).well_formed(),
            final(self).written_layers() == old(self).written_layers(),
            block_count > u32::MAX ==> {
                &&& result matches Err(SpoolError::BlockCountOverflow)
                &&& *final(self) == *old(self)
            },
            block_count <= u32::MAX ==> {
                &&& result matches Ok(layer) && layer@.settled() && layer@ == (StreamView {
                    block_count: block_count as nat,
                    ready: Seq::empty(),
                    waiting: Map::empty(),
                })
                &&& final(self).content() == overwritten(
                    old(self).content(),
                    old(self).cursor(),
                    u32_le(block_count as nat),
                )
                &&& final(self).cursor() == old(self).cursor() + 4
            },
    {
        if block_count > u32::MAX as usize {
            return Err(SpoolError::BlockCountOverflow);
        }
        let mut data: Vec<u8> = Vec::new();
        push_u32_le(&mut data, block_count as u32);
        assert(data@ =~= u32_le(block_count as nat));
        self.write_all(data.as_slice());
        let layer = StreamingLayerWriter {
            block_count,
            ready: Vec::new(),
            waiting: BTreeMap::new(),
        };
        proof {
            assert(layer@.ready =~= Seq::<BlockView>::empty());
            assert(layer@.waiting =~= Map::<usize, BlockView>::empty());
        }
        Ok(layer)
    }

    /// Writes the ready blocks of a streaming layer at the position, and counts the
    /// layer. It is an error if a block is missing, or if there are too many layers.
    pub fn commit_streaming_layer(&mut self, layer: StreamingLayerWriter) -> (result: Result<
        (),
        SpoolError,
    >)
        requires
            old(self).well_formed(),
            layer@.settled(),
        ensures
            final(self).well_formed(),
            final(self).content() == overwritten(
                old(self).content(),
                old(self).cursor(),
                block_records(layer@.ready),
            ),
            final(self).cursor() == old(self).cursor() + block_records(layer@.ready).len(),
            if layer@.ready.len() < layer@.block_count {
                &&& result matches Err(
                    SpoolError::MissingBlocks { block_count, written, pending },
                ) && block_count == layer@.block_count && written == layer@.ready.len() && pending
                    == layer@.waiting.len()
                &&& final(self).written_layers() == old(self).written_layers()
            } else if old(self).written_layers() == u32::MAX {
                &&& result matches Err(SpoolError::LayerCountOverflow)
                &&& final(self).written_layers() == old(self).written_layers()
            } else {
                &&& result is Ok
                &&& final(self).written_layers() == old(self).written_layers() + 1
            },
    {
        broadcast use vstd::std_specs::btree::group_btree_axioms;

        let ghost views = layer@.ready;
        let mut data: Vec<u8> = Vec::new();
        let mut i: usize = 0;
        proof {
            assert(views.take(0) =~= Seq::<BlockView>::empty());
            assert(data@ =~= block_records(views.take(0)));
        }
        while i < layer.ready.len()
            invariant
                i <= layer.ready@.len(),
                views == block_views(layer.ready@),
                data@ == block_records(views.take(i as int)),
                forall|j: int| 0 <= j < views.len() ==> (#[trigger] views[j]).storable(),
            decreases layer.ready@.len() - i,
        {
            assert(views[i as int] == layer.ready@[i as int]@);
            assert(views[i as int].storable());
            let appended = push_block_record(&mut data, &layer.ready[i]);
            proof {
                assert(views.take(i + 1).drop_last() =~= views.take(i as int));
                assert(views.take(i + 1).last() == views[i as int]);
            }
            i = i + 1;
        }
        assert(views.take(i as int) =~= views);
        self.write_all(data.as_slice());
        let written: usize = layer.ready.len();
        if written != layer.block_count {
            let pending: usize = layer.waiting.len();
            proof {
                lemma_map_values_len(
                    layer.waiting@,
                    |block: CompressedBlock| block@,
                );
            }
            return Err(
                SpoolError::MissingBlocks { block_count: layer.block_count, written, pending },
            );
        }
        if self.layer_count == u32::MAX {
            return Err(SpoolError::LayerCountOverflow);
        }
        self.layer_count = self.layer_count + 1;
        Ok(())
    }
}

/// A layer that was streamed to the end of a spool leaves the same bytes as one that
/// was written whole.
pub proof fn law_streamed_layer_bytes(content: Seq<u8>, ready: Seq<BlockView>)
    ensures
        ({
            let headed = overwritten(content, content.len() as int, u32_le(ready.len()));
            overwritten(headed, headed.len() as int, block_records(ready))
        }) == overwritten(content, content.len() as int, layer_bytes(ready)),
        overwritten(content, content.len() as int, layer_bytes(ready)) == content + layer_bytes(
            ready,
        ),
{
    let headed = overwritten(content, content.len() as int, u32_le(ready.len()));
    assert(content.subrange(0, content.len() as int) =~= content);
    assert(headed.subrange(0, headed.len() as int) =~= headed);
    assert(headed + block_records(ready) =~= content + layer_bytes(ready));
}

proof fn lemma_map_values_len<K, V, W>(map: Map<K, V>, f: spec_fn(V) -> W)
    ensures
        map.map_values(f).len() == map.len(),
{
    assert(map.map_values(f).dom() =~= map.dom());
}

} // verus!
