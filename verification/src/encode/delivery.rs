//! Blocks that encoders hand over in any order, and the layers that a spool makes of them.
use crate::bytes::u32_le;
use crate::spool::{
    block_records, law_complete_stream_is_ordered, law_settling_keeps_blocks, layer_bytes,
    lemma_written_behind, BlockView, CompressedBlock, LayerBlockSpool, SpoolError, StreamView,
    StreamingLayerWriter,
};
use vstd::prelude::*;

verus! {

/// A block with its place in the tile grid of its layer.
pub struct EncodedBlock {
    pub index: usize,
    pub block: CompressedBlock,
}

/// What is handed over, in the order in which it arrives.
pub open spec fn arrivals(blocks: Seq<EncodedBlock>) -> Seq<(usize, BlockView)> {
    blocks.map_values(|encoded: EncodedBlock| (encoded.index, encoded.block@))
}

/// Whether no sparse block carries a payload.
pub open spec fn sparse_are_empty(blocks: Seq<EncodedBlock>) -> bool {
    forall|i: int|
        0 <= i < blocks.len() && (#[trigger] blocks[i]).block.sparse
            ==> blocks[i].block.payload@.len() == 0
}

/// What a layer makes of a block that arrives.
pub open spec fn receive(state: StreamView, arrival: (usize, BlockView)) -> Result<
    StreamView,
    SpoolError,
> {
    let (index, block) = arrival;
    if index >= state.block_count {
        Err(
            SpoolError::BlockIndexOutOfRange { index, block_count: state.block_count as usize },
        )
    } else if state.waiting.contains_key(index) {
        Err(SpoolError::DuplicateBlockIndex { index })
    } else if block.payload.len() > u32::MAX {
        Err(SpoolError::PayloadLengthOverflow)
    } else {
        Ok((StreamView { waiting: state.waiting.insert(index, block), ..state }).settle())
    }
}

/// What a layer makes of blocks that arrive one after the other; the first that is refused
/// ends it.
pub open spec fn receive_all(state: StreamView, blocks: Seq<(usize, BlockView)>) -> Result<
    StreamView,
    SpoolError,
>
    decreases blocks.len(),
{
    if blocks.len() == 0 {
        Ok(state)
    } else {
        match receive(state, blocks.first()) {
            Err(error) => Err(error),
            Ok(next) => receive_all(next, blocks.drop_first()),
        }
    }
}

/// A layer that has received nothing yet.
pub open spec fn empty_stream(block_count: nat) -> StreamView {
    StreamView { block_count, ready: Seq::empty(), waiting: Map::empty() }
}

/// The blocks of a layer in the order of the tile grid, made of blocks that arrive in any
/// order; an error where one is refused or missing.
pub open spec fn streamed(block_count: nat, blocks: Seq<(usize, BlockView)>) -> Result<
    Seq<BlockView>,
    SpoolError,
> {
    if block_count > u32::MAX {
        Err(SpoolError::BlockCountOverflow)
    } else {
        match receive_all(empty_stream(block_count), blocks) {
            Err(error) => Err(error),
            Ok(state) => if state.ready.len() < block_count {
                Err(
                    SpoolError::MissingBlocks {
                        block_count: block_count as usize,
                        written: state.ready.len() as usize,
                        pending: state.waiting.len() as usize,
                    },
                )
            } else {
                Ok(state.ready)
            },
        }
    }
}

/// Whether a block arrived under this index.
pub open spec fn arrived(blocks: Seq<(usize, BlockView)>, index: int, block: BlockView) -> bool {
    exists|j: int|
        0 <= j < blocks.len() && (#[trigger] blocks[j]).0 == index && blocks[j].1 == block
}

/// Whether each block is one that a record keeps, but for the length of its payload.
spec fn well_made(blocks: Seq<(usize, BlockView)>) -> bool {
    forall|j: int|
        0 <= j < blocks.len() && (#[trigger] blocks[j]).1.sparse ==> blocks[j].1.payload.len() == 0
}

proof fn lemma_receive(state: StreamView, arrival: (usize, BlockView), next: StreamView)
    requires
        state.settled(),
        arrival.1.sparse ==> arrival.1.payload.len() == 0,
        receive(state, arrival) == Ok::<StreamView, SpoolError>(next),
    ensures
        next.settled(),
        next.block_count == state.block_count,
        forall|i: int| #[trigger]
            next.received(i) <==> state.received(i) || i == arrival.0,
        forall|i: int| #[trigger]
            next.received(i) ==> next.block_at(i) == (if state.received(i) {
                state.block_at(i)
            } else {
                arrival.1
            }),
{
    let grown = StreamView { waiting: state.waiting.insert(arrival.0, arrival.1), ..state };
    law_settling_keeps_blocks(grown);
    assert forall|i: int| #[trigger] next.received(i) <==> state.received(i) || i == arrival.0 by {
        assert(grown.received(i) <==> state.received(i) || i == arrival.0);
    }
    assert forall|i: int| #[trigger] next.received(i) implies next.block_at(i) == (if state.received(
        i,
    ) {
        state.block_at(i)
    } else {
        arrival.1
    }) by {
        assert(grown.received(i));
        assert(next.block_at(i) == grown.block_at(i));
    }
}

proof fn lemma_receive_all(state: StreamView, blocks: Seq<(usize, BlockView)>, end: StreamView)
    requires
        state.settled(),
        well_made(blocks),
        receive_all(state, blocks) == Ok::<StreamView, SpoolError>(end),
    ensures
        end.settled(),
        end.block_count == state.block_count,
        forall|i: int| #[trigger]
            end.received(i) ==> (state.received(i) && end.block_at(i) == state.block_at(i))
                || arrived(blocks, i, end.block_at(i)),
    decreases blocks.len(),
{
    if blocks.len() > 0 {
        let first = blocks.first();
        let rest = blocks.drop_first();
        match receive(state, first) {
            Err(_) => {},
            Ok(next) => {
                assert(blocks[0] == first);
                lemma_receive(state, first, next);
                assert(well_made(rest)) by {
                    assert forall|j: int|
                        0 <= j < rest.len() && (#[trigger] rest[j]).1.sparse implies rest[j].1.payload.len()
                        == 0 by {
                        assert(rest[j] == blocks[j + 1]);
                    }
                }
                lemma_receive_all(next, rest, end);
                assert forall|i: int| #[trigger] end.received(i) implies (state.received(i)
                    && end.block_at(i) == state.block_at(i)) || arrived(
                    blocks,
                    i,
                    end.block_at(i),
                ) by {
                    if next.received(i) && end.block_at(i) == next.block_at(i) {
                        if !state.received(i) {
                            assert(blocks[0].0 == i && blocks[0].1 == end.block_at(i));
                        }
                    } else {
                        let j = choose|j: int|
                            0 <= j < rest.len() && (#[trigger] rest[j]).0 == i && rest[j].1
                                == end.block_at(i);
                        assert(blocks[j + 1] == rest[j]);
                    }
                }
            },
        }
    }
}

/// A layer that is made of what encoders hand over has as many blocks as were asked for,
/// and each stands where it was handed over for.
pub proof fn law_streamed_blocks_keep_their_places(
    block_count: nat,
    blocks: Seq<(usize, BlockView)>,
    layer: Seq<BlockView>,
)
    requires
        forall|j: int|
            0 <= j < blocks.len() && (#[trigger] blocks[j]).1.sparse
                ==> blocks[j].1.payload.len() == 0,
        streamed(block_count, blocks) == Ok::<Seq<BlockView>, SpoolError>(layer),
    ensures
        block_count <= u32::MAX,
        layer.len() == block_count,
        forall|i: int| 0 <= i < layer.len() ==> (#[trigger] layer[i]).storable(),
        forall|i: int| 0 <= i < layer.len() ==> arrived(blocks, i, #[trigger] layer[i]),
{
    match receive_all(empty_stream(block_count), blocks) {
        Err(_) => {},
        Ok(end) => {
            lemma_receive_all(empty_stream(block_count), blocks, end);
            assert forall|i: int| 0 <= i < layer.len() implies arrived(
                blocks,
                i,
                #[trigger] layer[i],
            ) by {
                assert(end.received(i));
            }
        },
    }
}

/// Whether every tile of a layer is handed over once, in a form that a record keeps.
pub open spec fn is_delivery(block_count: nat, blocks: Seq<(usize, BlockView)>) -> bool {
    &&& forall|j: int|
        0 <= j < blocks.len() ==> (#[trigger] blocks[j]).0 < block_count && blocks[j].1.storable()
    &&& forall|j: int, k: int|
        0 <= j < k < blocks.len() ==> (#[trigger] blocks[j]).0 != (#[trigger] blocks[k]).0
    &&& forall|i: int| 0 <= i < block_count ==> #[trigger] handed_over(blocks, i)
}

/// Whether a block is handed over for this place.
pub open spec fn handed_over(blocks: Seq<(usize, BlockView)>, index: int) -> bool {
    exists|j: int| 0 <= j < blocks.len() && (#[trigger] blocks[j]).0 == index
}

proof fn lemma_receive_delivery(state: StreamView, blocks: Seq<(usize, BlockView)>) -> (end:
    StreamView)
    requires
        state.settled(),
        forall|j: int|
            0 <= j < blocks.len() ==> (#[trigger] blocks[j]).0 < state.block_count
                && blocks[j].1.storable(),
        forall|j: int, k: int|
            0 <= j < k < blocks.len() ==> (#[trigger] blocks[j]).0 != (#[trigger] blocks[k]).0,
        forall|j: int| 0 <= j < blocks.len() ==> !state.received((#[trigger] blocks[j]).0 as int),
    ensures
        receive_all(state, blocks) == Ok::<StreamView, SpoolError>(end),
        end.settled(),
        end.block_count == state.block_count,
        forall|i: int| #[trigger]
            end.received(i) <==> state.received(i) || handed_over(blocks, i),
    decreases blocks.len(),
{
    if blocks.len() == 0 {
        state
    } else {
        let first = blocks.first();
        let rest = blocks.drop_first();
        assert(blocks[0] == first);
        assert(!state.received(first.0 as int));
        let next = (StreamView {
            waiting: state.waiting.insert(first.0, first.1),
            ..state
        }).settle();
        assert(receive(state, first) == Ok::<StreamView, SpoolError>(next));
        lemma_receive(state, first, next);
        assert forall|j: int| 0 <= j < rest.len() implies !next.received(
            (#[trigger] rest[j]).0 as int,
        ) by {
            assert(rest[j] == blocks[j + 1]);
            assert(blocks[0].0 != blocks[j + 1].0);
        }
        assert forall|j: int, k: int| 0 <= j < k < rest.len() implies (#[trigger] rest[j]).0 != (
        #[trigger] rest[k]).0 by {
            assert(blocks[j + 1].0 != blocks[k + 1].0);
        }
        assert forall|j: int| 0 <= j < rest.len() implies (#[trigger] rest[j]).0 < next.block_count
            && rest[j].1.storable() by {
            assert(rest[j] == blocks[j + 1]);
        }
        let end = lemma_receive_delivery(next, rest);
        assert forall|i: int| #[trigger] end.received(i) <==> state.received(i) || handed_over(
            blocks,
            i,
        ) by {
            assert(next.received(i) <==> state.received(i) || i == first.0);
            if handed_over(rest, i) {
                let j = choose|j: int| 0 <= j < rest.len() && (#[trigger] rest[j]).0 == i;
                assert(blocks[j + 1].0 == i);
            }
            if handed_over(blocks, i) && i != first.0 {
                let j = choose|j: int| 0 <= j < blocks.len() && (#[trigger] blocks[j]).0 == i;
                assert(rest[j - 1].0 == i);
            }
        }
        end
    }
}

/// A layer whose every tile is handed over once is accepted, in whatever order its blocks
/// arrive.
pub proof fn law_complete_deliveries_are_accepted(
    block_count: nat,
    blocks: Seq<(usize, BlockView)>,
)
    requires
        block_count <= u32::MAX,
        is_delivery(block_count, blocks),
    ensures
        streamed(block_count, blocks) is Ok,
{
    let start = empty_stream(block_count);
    let end = lemma_receive_delivery(start, blocks);
    assert forall|index: int| 0 <= index < end.block_count implies #[trigger] end.received(
        index,
    ) by {
        assert(handed_over(blocks, index));
    }
    law_complete_stream_is_ordered(end);
}

/// Writes a layer at the end of a spool that is made of blocks in any order. Where a block is
/// refused or missing, or the layer cannot be counted, the layers before it stay.
pub fn stream_layer(
    spool: &mut LayerBlockSpool,
    block_count: usize,
    blocks: Vec<EncodedBlock>,
) -> (result: Result<(), SpoolError>)
    requires
        old(spool).well_formed(),
        old(spool).at_end(),
        sparse_are_empty(blocks@),
    ensures
        final(spool).well_formed(),
        final(spool).at_end(),
        old(spool).content().is_prefix_of(final(spool).content()),
        match streamed(block_count as nat, arrivals(blocks@)) {
            Err(error) => {
                &&& result == Err::<(), SpoolError>(error)
                &&& final(spool).written_layers() == old(spool).written_layers()
            },
            Ok(layer) => if old(spool).written_layers() == u32::MAX {
                &&& result == Err::<(), SpoolError>(SpoolError::LayerCountOverflow)
                &&& final(spool).written_layers() == old(spool).written_layers()
            } else {
                &&& result is Ok
                &&& final(spool).written_layers() == old(spool).written_layers() + 1
                &&& final(spool).content() == old(spool).content() + layer_bytes(layer)
            },
        },
{
    let ghost start = spool.content();
    let mut layer: StreamingLayerWriter = match spool.begin_streaming_layer(block_count) {
        Err(error) => {
            return Err(error);
        },
        Ok(layer) => layer,
    };
    let ghost all = arrivals(blocks@);
    let ghost headed = spool.content();
    proof {
        lemma_written_behind(start, u32_le(block_count as nat));
        assert(all.skip(0) =~= all);
    }
    for encoded in iter: blocks.into_iter()
        invariant
            iter.seq() == blocks@,
            all == arrivals(blocks@),
            sparse_are_empty(blocks@),
            layer@.settled(),
            layer@.block_count == block_count,
            receive_all(layer@, all.skip(iter.index())) == receive_all(
                empty_stream(block_count as nat),
                all,
            ),
            block_count <= u32::MAX,
            spool.well_formed(),
            spool.at_end(),
            spool.content() == headed,
            spool.written_layers() == old(spool).written_layers(),
            start == old(spool).content(),
            start.is_prefix_of(headed),
    {
        let ghost i = iter.index();
        proof {
            let rest = all.skip(i);
            assert(rest.first() == (encoded.index, encoded.block@));
            assert(rest.drop_first() =~= all.skip(i + 1));
            assert(blocks@[i] == encoded);
        }
        match layer.write_block(encoded.index, encoded.block) {
            Err(error) => {
                return Err(error);
            },
            Ok(()) => {},
        }
    }
    proof {
        assert(all.skip(all.len() as int) =~= Seq::<(usize, BlockView)>::empty());
    }
    let ghost ready = layer@.ready;
    let result: Result<(), SpoolError> = spool.commit_streaming_layer(layer);
    proof {
        lemma_written_behind(headed, block_records(ready));
        if ready.len() == block_count {
            assert(headed + block_records(ready) =~= start + layer_bytes(ready));
        }
    }
    result
}

} // verus!
