use gdal_alt_core::cog::tile_payload::{
    collect_remux_layers, parse_gdal_structural_metadata, parse_gdal_structural_metadata_len,
    read_gdal_block_payload, read_layer_block_at, read_layer_blocks, BlockError, ByteOrder,
    GdalStructuralMetadata, TileTable,
};

const FRAMED: GdalStructuralMetadata = GdalStructuralMetadata {
    block_leader_size_as_u32: true,
    block_trailer_repeats_last_4_bytes: true,
};

fn framed_file() -> (Vec<u8>, u64) {
    let mut file = b"II*\0\x08\0\0\0".to_vec();
    let body = b"BLOCK_LEADER=SIZE_AS_UINT4\nBLOCK_TRAILER=LAST_4_BYTES_REPEATED\n";
    file.extend_from_slice(
        format!("GDAL_STRUCTURAL_METADATA_SIZE={:06} bytes\n", body.len()).as_bytes(),
    );
    file.extend_from_slice(body);
    file.extend_from_slice(&5u32.to_le_bytes());
    let offset = file.len() as u64;
    file.extend_from_slice(&[1, 2, 3, 4, 5]);
    file.extend_from_slice(&[2, 3, 4, 5]);
    (file, offset)
}

#[test]
fn unwrapping_undoes_wrapping() {
    let mut raw = 5u32.to_le_bytes().to_vec();
    raw.extend_from_slice(&[1, 2, 3, 4, 5]);
    raw.extend_from_slice(&[2, 3, 4, 5]);
    assert_eq!(FRAMED.unwrap_block(&raw, ByteOrder::LittleEndian), vec![1, 2, 3, 4, 5]);
    let plain = GdalStructuralMetadata {
        block_leader_size_as_u32: false,
        block_trailer_repeats_last_4_bytes: false,
    };
    assert_eq!(plain.unwrap_block(&raw, ByteOrder::LittleEndian), raw);
    // Bytes that are not framed are kept.
    assert_eq!(FRAMED.unwrap_block(&[9, 9], ByteOrder::BigEndian), vec![9, 9]);
}

#[test]
fn metadata_are_found_behind_the_header() {
    let (file, _) = framed_file();
    assert_eq!(parse_gdal_structural_metadata(&file), Some(FRAMED));
    assert_eq!(parse_gdal_structural_metadata(b"II*\0\x08\0\0\0nothing here"), None);
    assert_eq!(
        parse_gdal_structural_metadata_len(b"GDAL_STRUCTURAL_METADATA_SIZE=000010 bytes\n"),
        Some(43 + 10)
    );
    assert_eq!(parse_gdal_structural_metadata_len(b"GDAL_STRUCTURAL"), None);
}

#[test]
fn framed_tiles_are_read_back() {
    let (file, offset) = framed_file();
    assert_eq!(
        read_gdal_block_payload(&file, Some(FRAMED), ByteOrder::LittleEndian, offset, 5, 0),
        Ok(vec![1, 2, 3, 4, 5])
    );
    let table = TileTable { offsets: Some(vec![offset, 0]), byte_counts: Some(vec![5, 0]) };
    let blocks = read_layer_blocks(&file, ByteOrder::LittleEndian, &table).unwrap();
    assert_eq!(blocks[0].payload, vec![1, 2, 3, 4, 5]);
    assert!(blocks[1].sparse);
    let layers = collect_remux_layers(&file, ByteOrder::LittleEndian, &[table]).unwrap();
    assert_eq!(layers.len(), 1);
    assert_eq!(layers[0].len(), 2);
}

#[test]
fn blocks_outside_their_table_or_file_are_errors() {
    let file = vec![0u8; 20];
    let read = |offsets: Option<Vec<u64>>, byte_counts: Option<Vec<u64>>, index| {
        let table = TileTable { offsets, byte_counts };
        read_layer_block_at(&file, ByteOrder::LittleEndian, &table, index).unwrap_err()
    };
    assert_eq!(read(None, Some(vec![1]), 0), BlockError::MissingOffsets);
    assert_eq!(read(Some(vec![1]), None, 0), BlockError::MissingByteCounts);
    assert_eq!(read(Some(vec![1]), Some(vec![]), 0), BlockError::LengthMismatch);
    assert_eq!(
        read(Some(vec![1]), Some(vec![1]), 1),
        BlockError::IndexOutOfRange { index: 1 }
    );
    assert_eq!(read(Some(vec![15]), Some(vec![9]), 0), BlockError::ReadFailed { index: 0 });
    assert_eq!(
        read(Some(vec![1]), Some(vec![1 << 40]), 0),
        BlockError::TooLarge { index: 0 }
    );
}
