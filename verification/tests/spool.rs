use gdal_alt_core::encode::sink::LayerBlockSpoolSink;
use gdal_alt_core::spool::{CompressedBlock, LayerBlockSpool, SpoolError};

fn block(payload: Vec<u8>) -> CompressedBlock {
    CompressedBlock { payload, sparse: false }
}

fn sparse() -> CompressedBlock {
    CompressedBlock { payload: Vec::new(), sparse: true }
}

#[test]
fn block_reader_roundtrips_layers() {
    let mut spool = LayerBlockSpool::new();
    spool.write_layer(vec![block(vec![1, 2, 3]), sparse()]).unwrap();
    spool.write_layer(vec![block(vec![9])]).unwrap();

    spool.rewind();
    let mut reader = spool.block_reader();
    assert_eq!(reader.begin_layer(&mut spool).unwrap(), 2);
    let b0 = reader.read_block(&mut spool).unwrap().unwrap();
    assert_eq!(b0.payload, vec![1, 2, 3]);
    let b1 = reader.read_block(&mut spool).unwrap().unwrap();
    assert!(b1.sparse);
    assert!(reader.read_block(&mut spool).unwrap().is_none());

    assert_eq!(reader.begin_layer(&mut spool).unwrap(), 1);
    let b2 = reader.read_block(&mut spool).unwrap().unwrap();
    assert_eq!(b2.payload, vec![9]);
    assert!(reader.read_block(&mut spool).unwrap().is_none());
}

#[test]
fn streaming_layer_writes_out_of_order() {
    let mut spool = LayerBlockSpool::new();
    let mut writer = spool.begin_streaming_layer(3).unwrap();
    writer.write_block(2, block(vec![3])).unwrap();
    writer.write_block(0, block(vec![1])).unwrap();
    writer.write_block(1, sparse()).unwrap();
    spool.commit_streaming_layer(writer).unwrap();

    spool.rewind();
    let layer = spool.read_next_layer().unwrap().unwrap();
    assert_eq!(layer.len(), 3);
    assert_eq!(layer[0].payload, vec![1]);
    assert!(layer[1].sparse);
    assert_eq!(layer[2].payload, vec![3]);
}

#[test]
fn layers_are_read_back_one_behind_the_other() {
    let mut spool = LayerBlockSpool::new();
    spool.write_layer(vec![block(vec![7; 5])]).unwrap();
    spool.write_layer(vec![]).unwrap();
    spool.write_layer(vec![sparse(), block(vec![])]).unwrap();
    assert_eq!(spool.layer_count(), 3);
    spool.rewind();
    let layers = spool.read_all_layers().unwrap();
    assert_eq!(layers.len(), 3);
    assert_eq!(layers[0][0].payload, vec![7; 5]);
    assert!(layers[1].is_empty());
    assert!(layers[2][0].sparse);
    assert!(!layers[2][1].sparse);
}

#[test]
fn records_start_with_the_number_of_blocks() {
    let mut spool = LayerBlockSpool::new();
    spool.write_layer(vec![block(vec![5, 6]), sparse()]).unwrap();
    assert_eq!(
        spool.into_bytes(),
        vec![2, 0, 0, 0, 0, 2, 0, 0, 0, 5, 6, 1, 0, 0, 0, 0]
    );
}

#[test]
fn cut_records_are_refused() {
    let mut spool = LayerBlockSpool::from_bytes(vec![1, 0, 0, 0, 0, 2, 0], 1);
    assert!(matches!(spool.read_next_layer(), Err(SpoolError::UnexpectedEnd)));
}

#[test]
fn an_empty_spool_has_no_layer() {
    let mut spool = LayerBlockSpool::new();
    assert!(spool.read_next_layer().unwrap().is_none());
}

#[test]
fn streamed_blocks_come_once_and_in_range() {
    let mut spool = LayerBlockSpool::new();
    let mut writer = spool.begin_streaming_layer(2).unwrap();
    assert_eq!(writer.block_count(), 2);
    assert!(matches!(
        writer.write_block(2, sparse()),
        Err(SpoolError::BlockIndexOutOfRange { index: 2, block_count: 2 })
    ));
    writer.write_block(1, sparse()).unwrap();
    assert!(matches!(
        writer.write_block(1, sparse()),
        Err(SpoolError::DuplicateBlockIndex { index: 1 })
    ));
    assert!(matches!(
        spool.commit_streaming_layer(writer),
        Err(SpoolError::MissingBlocks { block_count: 2, written: 0, pending: 1 })
    ));
}

#[test]
fn a_reader_finishes_a_layer_before_the_next() {
    let mut spool = LayerBlockSpool::new();
    spool.write_layer(vec![sparse(), sparse()]).unwrap();
    spool.write_layer(vec![sparse()]).unwrap();
    spool.rewind();
    let mut reader = spool.block_reader();
    assert_eq!(reader.begin_layer(&mut spool).unwrap(), 2);
    assert!(matches!(reader.begin_layer(&mut spool), Err(SpoolError::LayerStillOpen)));
}

#[test]
fn a_sink_appends_layers_to_its_spool() {
    let mut spool = LayerBlockSpool::new();
    {
        let mut sink = LayerBlockSpoolSink(&mut spool);
        let mut layer = sink.begin_overview_layer(1).unwrap();
        layer.write_block(0, block(vec![4, 2])).unwrap();
        sink.commit_overview_layer(layer).unwrap();
    }
    spool.rewind();
    let layer = spool.read_next_layer().unwrap().unwrap();
    assert_eq!(layer[0].payload, vec![4, 2]);
}
