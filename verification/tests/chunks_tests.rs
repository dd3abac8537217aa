use lowkey::carrier::Carrier;
use lowkey::chunks::{
    build_output_png, build_sequence_chunk, crc32, extract_ancillary_chunks, order_by_sequence,
    read_sequence_info, write_png, PngChunk,
};
use lowkey::codec::{decode, encode};
use lowkey::errors::StegoError;

fn be32(n: u32) -> [u8; 4] {
    n.to_be_bytes()
}

/// A minimal PNG-shaped byte stream: signature, IHDR, the given extra
/// chunks, an empty IDAT, IEND. Chunk CRCs here are deliberately stale:
/// extraction must not trust them.
fn source_png(extra: &[(&[u8; 4], &[u8])]) -> Vec<u8> {
    let mut out = vec![137u8, 80, 78, 71, 13, 10, 26, 10];
    let chunks: Vec<(Vec<u8>, Vec<u8>)> = std::iter::once((b"IHDR".to_vec(), vec![0u8; 13]))
        .chain(extra.iter().map(|(t, d)| (t.to_vec(), d.to_vec())))
        .chain(std::iter::once((b"IDAT".to_vec(), vec![1, 2, 3])))
        .chain(std::iter::once((b"IEND".to_vec(), Vec::new())))
        .collect();
    for (t, d) in chunks {
        out.extend_from_slice(&be32(d.len() as u32));
        out.extend_from_slice(&t);
        out.extend_from_slice(&d);
        out.extend_from_slice(&[0, 0, 0, 0]); // stale CRC
    }
    out
}

#[test]
fn crc32_known_check_value() {
    // the classic CRC-32 check value
    assert_eq!(crc32(b"123456789"), 0xCBF43926);
    assert_eq!(crc32(b""), 0);
    assert_eq!(crc32(b"IEND"), 0xAE426082);
}

#[test]
fn chunk_write_emits_length_type_data_crc() {
    let chunk = PngChunk {
        chunk_type: b"tEXt".to_vec(),
        data: b"hello".to_vec(),
    };
    let mut out = Vec::new();
    chunk.write(&mut out);
    assert_eq!(&out[0..4], &be32(5));
    assert_eq!(&out[4..8], b"tEXt");
    assert_eq!(&out[8..13], b"hello");
    assert_eq!(&out[13..17], &be32(crc32(b"tEXthello")));
}

#[test]
fn extract_keeps_ancillary_chunks_in_order() {
    let src = source_png(&[(b"iCCP", b"profile"), (b"tEXt", b"note")]);
    let chunks = extract_ancillary_chunks(&src).unwrap().unwrap();
    assert_eq!(chunks.len(), 2);
    assert_eq!(chunks[0].chunk_type, b"iCCP".to_vec());
    assert_eq!(chunks[0].data, b"profile".to_vec());
    assert_eq!(chunks[1].chunk_type, b"tEXt".to_vec());
    assert_eq!(chunks[1].data, b"note".to_vec());
}

#[test]
fn extract_rejects_non_png() {
    let r = extract_ancillary_chunks(b"not a png at all").unwrap();
    assert!(r.is_none());
}

#[test]
fn extract_rejects_truncated_chunk() {
    let mut src = source_png(&[(b"tEXt", b"note")]);
    src.truncate(20); // cut inside the IHDR chunk
    assert_eq!(
        extract_ancillary_chunks(&src),
        Err(StegoError::TruncatedInput)
    );
}

#[test]
fn written_png_decodes_to_same_pixels() {
    let img = Carrier {
        width: 3,
        height: 2,
        data: (0u8..24).collect(),
    };
    let out = write_png(&img, &Vec::new()).unwrap();
    let decoder = png::Decoder::new(&out[..]);
    let mut reader = decoder.read_info().unwrap();
    let mut buf = vec![0u8; reader.output_buffer_size()];
    let info = reader.next_frame(&mut buf).unwrap();
    assert_eq!(info.width, 3);
    assert_eq!(info.height, 2);
    buf.truncate(info.buffer_size());
    assert_eq!(buf, img.data);
}

#[test]
fn metadata_preserved_after_ihdr_with_fresh_crc() {
    let img = Carrier {
        width: 2,
        height: 2,
        data: vec![9u8; 16],
    };
    let src = source_png(&[(b"prVa", b"profile"), (b"prVb", b"note")]);
    let out = build_output_png(&img, &src, None).unwrap();
    // signature and IHDR occupy bytes 0..33; the preserved chunks follow
    assert_eq!(&out[0..8], &[137u8, 80, 78, 71, 13, 10, 26, 10]);
    assert_eq!(&out[8..12], &be32(13));
    assert_eq!(&out[12..16], b"IHDR");
    let mut expect = Vec::new();
    PngChunk {
        chunk_type: b"prVa".to_vec(),
        data: b"profile".to_vec(),
    }
    .write(&mut expect);
    PngChunk {
        chunk_type: b"prVb".to_vec(),
        data: b"note".to_vec(),
    }
    .write(&mut expect);
    assert_eq!(&out[33..33 + expect.len()], &expect[..]);
    // the rest of the stream is image data, ending in IEND
    assert_eq!(&out[out.len() - 8..out.len() - 4], b"IEND");
    // and the output parses back: same chunks, same order
    let reread = extract_ancillary_chunks(&out).unwrap().unwrap();
    assert_eq!(reread.len(), 2);
    assert_eq!(reread[0].chunk_type, b"prVa".to_vec());
    assert_eq!(reread[1].chunk_type, b"prVb".to_vec());
    // the output is a valid PNG for the reference decoder too
    let decoder = png::Decoder::new(&out[..]);
    let mut reader = decoder.read_info().unwrap();
    let mut buf = vec![0u8; reader.output_buffer_size()];
    reader.next_frame(&mut buf).unwrap();
}

#[test]
fn non_png_source_gives_bare_output() {
    let img = Carrier {
        width: 2,
        height: 2,
        data: vec![9u8; 16],
    };
    let out = build_output_png(&img, b"JFIF stuff", None).unwrap();
    let reread = extract_ancillary_chunks(&out).unwrap().unwrap();
    assert!(reread.is_empty());
}

#[test]
fn sequence_chunk_roundtrip() {
    let chunk = build_sequence_chunk(3, 7);
    assert_eq!(chunk.chunk_type, b"sqNo".to_vec());
    assert_eq!(chunk.data.len(), 8);
    let info = read_sequence_info(&vec![chunk]);
    assert_eq!(info, Some((3, 7)));
}

#[test]
fn sequence_info_absent_without_chunk() {
    let other = PngChunk {
        chunk_type: b"tEXt".to_vec(),
        data: vec![0u8; 8],
    };
    assert_eq!(read_sequence_info(&vec![other]), None);
}

#[test]
fn sequence_chunk_survives_output_file() {
    let img = Carrier {
        width: 2,
        height: 2,
        data: vec![9u8; 16],
    };
    let out = build_output_png(&img, b"", Some((1, 2))).unwrap();
    let chunks = extract_ancillary_chunks(&out).unwrap().unwrap();
    assert_eq!(read_sequence_info(&chunks), Some((1, 2)));
}

#[test]
fn order_by_sequence_sorts_by_index() {
    let infos = vec![Some((2u32, 3u32)), Some((0, 3)), Some((1, 3))];
    let p = order_by_sequence(&infos).unwrap();
    assert_eq!(p, vec![1, 2, 0]);
}

#[test]
fn order_by_sequence_needs_all_infos() {
    let infos = vec![Some((0u32, 2u32)), None];
    assert!(order_by_sequence(&infos).is_none());
}

#[test]
fn multi_carrier_decode_in_either_order_with_metadata() {
    let payload = b"split across two carriers with metadata";
    let a = Carrier {
        width: 10,
        height: 10,
        data: vec![0xEEu8; 400],
    };
    let b = Carrier {
        width: 10,
        height: 10,
        data: vec![0x11u8; 400],
    };
    let encoded = encode(&vec![a, b], payload, "pw").unwrap();
    // tag each output carrier as the encoder would
    let infos_swapped = vec![Some((1u32, 2u32)), Some((0u32, 2u32))];
    let order = order_by_sequence(&infos_swapped).unwrap();
    assert_eq!(order, vec![1, 0]);
    // supply the carriers in the wrong order, then reorder by metadata
    let swapped = vec![
        Carrier {
            width: encoded[1].width,
            height: encoded[1].height,
            data: encoded[1].data.clone(),
        },
        Carrier {
            width: encoded[0].width,
            height: encoded[0].height,
            data: encoded[0].data.clone(),
        },
    ];
    let restored: Vec<Carrier> = order
        .iter()
        .map(|&i| Carrier {
            width: swapped[i].width,
            height: swapped[i].height,
            data: swapped[i].data.clone(),
        })
        .collect();
    assert_eq!(decode(&restored, "pw").unwrap(), payload);
}
