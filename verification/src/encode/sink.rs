//! Where encoded layers go.
use crate::bytes::{overwritten, u32_le};
use crate::spool::{block_records, LayerBlockSpool, SpoolError, StreamView, StreamingLayerWriter};
use vstd::prelude::*;

verus! {

/// Layers that are kept until the output file is assembled.
pub struct LayerBlockSpoolSink<'a>(pub &'a mut LayerBlockSpool);

impl<'a> LayerBlockSpoolSink<'a> {
    /// Starts a layer whose blocks may arrive in any order.
    pub fn begin_overview_layer(&mut self, block_count: usize) -> (result: Result<
        StreamingLayerWriter,
        SpoolError,
    >)
        requires
            old(self).0.well_formed(),
        ensures
            *final(final(self).0) == *final(old(self).0),
            final(self).0.well_formed(),
            final(self).0.written_layers() == old(self).0.written_layers(),
            block_count > u32::MAX ==> {
                &&& result matches Err(SpoolError::BlockCountOverflow)
                &&& *final(self).0 == *old(self).0
            },
            block_count <= u32::MAX ==> {
                &&& result matches Ok(layer) && layer@.settled() && layer@ == (StreamView {
                    block_count: block_count as nat,
                    ready: Seq::empty(),
                    waiting: Map::empty(),
                })
                &&& final(self).0.content() == overwritten(
                    old(self).0.content(),
                    old(self).0.cursor(),
                    u32_le(block_count as nat),
                )
                &&& final(self).0.cursor() == old(self).0.cursor() + 4
            },
    {
        self.0.begin_streaming_layer(block_count)
    }

    /// Writes the blocks of a layer and counts it. It is an error if a block is missing,
    /// or if there are too many layers.
    pub fn commit_overview_layer(&mut self, layer: StreamingLayerWriter) -> (result: Result<
        (),
        SpoolError,
    >)
        requires
            old(self).0.well_formed(),
            layer@.settled(),
        ensures
            *final(final(self).0) == *final(old(self).0),
            final(self).0.well_formed(),
            final(self).0.content() == overwritten(
                old(self).0.content(),
                old(self).0.cursor(),
                block_records(layer@.ready),
            ),
            final(self).0.cursor() == old(self).0.cursor() + block_records(layer@.ready).len(),
            if layer@.ready.len() < layer@.block_count {
                &&& result matches Err(
                    SpoolError::MissingBlocks { block_count, written, pending },
                ) && block_count == layer@.block_count && written == layer@.ready.len() && pending
                    == layer@.waiting.len()
                &&& final(self).0.written_layers() == old(self).0.written_layers()
            } else if old(self).0.written_layers() == u32::MAX {
                &&& result matches Err(SpoolError::LayerCountOverflow)
                &&& final(self).0.written_layers() == old(self).0.written_layers()
            } else {
                &&& result is Ok
                &&& final(self).0.written_layers() == old(self).0.written_layers() + 1
            },
    {
        self.0.commit_streaming_layer(layer)
    }
}

} // verus!
