use bitgrain::bitstream::{write_byte, write_bytes};
use bitgrain::block::Block;
use bitgrain::blockizer::Blockizer;
use bitgrain::container::{parse_icc_trailer, write_header_version};
use bitgrain::dct::dct;
use bitgrain::decoder::{decode, decode_grayscale, parse_header, DecodeError};
use bitgrain::encoder::{encode_grayscale, encode_rgb, encode_rgba, EncodeError};
use bitgrain::entropy::{decode_rle_one_block, encode_block_to_buffer, rle_encode};
use bitgrain::quant::{default_quant_table, dequantize, quant_table_for_quality, quantize};
use bitgrain::zigzag::ZIGZAG;

fn encode_gray_vec(image: &[u8], w: usize, h: usize, q: u8) -> Vec<u8> {
    let mut buf = vec![0u8; w * h * 2 + 4096];
    let mut pos: i32 = 0;
    encode_grayscale(image, w, h, q, &mut buf, &mut pos).unwrap();
    buf.truncate(pos as usize);
    buf
}

fn encode_rgb_vec(image: &[u8], w: usize, h: usize, q: u8, icc: Option<&[u8]>) -> Vec<u8> {
    let mut buf = vec![0u8; w * h * 6 + 4096];
    let mut pos: i32 = 0;
    encode_rgb(image, w, h, q, &mut buf, &mut pos, icc).unwrap();
    buf.truncate(pos as usize);
    buf
}

#[test]
fn empty_ac_block_is_five_bytes() {
    let mut block = Block::new();
    dct(&mut block);
    assert_eq!(block.data, [0i16; 64]);
    quantize(&mut block.data, &quant_table_for_quality(50));
    assert_eq!(block.data, [0i16; 64]);
    let mut buf = [0u8; 16];
    let mut pos: i32 = 0;
    encode_block_to_buffer(&block, &mut buf, &mut pos);
    assert_eq!(pos, 5);
    assert_eq!(&buf[..5], &[0x00, 0x00, 0xFF, 0x00, 0x00]);
}

#[test]
fn gray_header_at_quality_50() {
    let out = encode_gray_vec(&[200], 1, 1, 50);
    assert_eq!(&out[..12], &[0x42, 0x47, 0x01, 0x01, 0, 0, 0, 0x01, 0, 0, 0, 0x32]);
}

#[test]
fn quality_zero_encodes_as_85_and_large_clamps_to_100() {
    let out = encode_gray_vec(&[1, 2, 3, 4], 2, 2, 0);
    assert_eq!(out[11], 85);
    let out = encode_gray_vec(&[1, 2, 3, 4], 2, 2, 250);
    assert_eq!(out[11], 100);
}

#[test]
fn rgb_stream_decodes_to_three_planes() {
    let mut image = vec![0u8; 8 * 8 * 3];
    for (i, p) in image.iter_mut().enumerate() {
        *p = (i * 7 % 256) as u8;
    }
    let stream = encode_rgb_vec(&image, 8, 8, 90, None);
    assert_eq!(&stream[..3], &[0x42, 0x47, 0x02]);
    let mut out = vec![0u8; 8 * 8 * 3];
    let img = decode(&stream, &mut out).unwrap();
    assert_eq!((img.width, img.height, img.channels), (8, 8, 3));
    assert!(img.icc.is_none());
}

#[test]
fn quality_byte_zero_decodes_as_50() {
    let image: Vec<u8> = (0..64u32).map(|i| (i * 3 + 20) as u8).collect();
    let stream = encode_gray_vec(&image, 8, 8, 50);
    assert_eq!(stream[11], 50);
    let mut zero_q = stream.clone();
    zero_q[11] = 0;
    let mut a = vec![0u8; 64];
    let mut b = vec![0u8; 64];
    decode(&stream, &mut a).unwrap();
    decode(&zero_q, &mut b).unwrap();
    assert_eq!(a, b);
    assert_eq!(quant_table_for_quality(100), default_quant_table());
    assert_eq!(quant_table_for_quality(50)[0], 8);
}

#[test]
fn profile_trailer_round_trip() {
    let image = vec![77u8; 8 * 8 * 3];
    let profile: Vec<u8> = (0..128u32).map(|i| (i * 5 + 1) as u8).collect();
    let plain = encode_rgb_vec(&image, 8, 8, 75, None);
    let stream = encode_rgb_vec(&image, 8, 8, 75, Some(&profile));
    assert_eq!(stream.len(), plain.len() + 8 + 128);
    assert_eq!(&stream[plain.len()..plain.len() + 8], &[0x42, 0x47, 0x78, 0x01, 0x80, 0, 0, 0]);
    assert_eq!(&stream[plain.len() + 8..], &profile[..]);
    let mut out = vec![0u8; 8 * 8 * 3];
    let img = decode(&stream, &mut out).unwrap();
    assert_eq!(img.icc, Some(profile));
}

#[test]
fn bad_magic_writes_nothing() {
    let mut stream = encode_gray_vec(&[9u8; 64], 8, 8, 50);
    stream[1] = 0x46;
    let mut out = vec![0xAAu8; 64];
    assert_eq!(decode(&stream, &mut out).unwrap_err(), DecodeError::BadMagic);
    assert_eq!(out, vec![0xAAu8; 64]);
}

#[test]
fn bad_version_and_short_header() {
    let mut stream = encode_gray_vec(&[9u8; 64], 8, 8, 50);
    let mut out = vec![0u8; 64];
    assert_eq!(decode(&stream[..10], &mut out).unwrap_err(), DecodeError::Malformed);
    stream[2] = 4;
    assert_eq!(decode(&stream, &mut out).unwrap_err(), DecodeError::BadVersion);
}

#[test]
fn invalid_dimensions_are_rejected() {
    let mut out = vec![0u8; 64];
    let mut stream = vec![0x42, 0x47, 0x01, 0, 0, 0, 0, 8, 0, 0, 0, 50];
    assert_eq!(decode(&stream, &mut out).unwrap_err(), DecodeError::InvalidDims);
    stream[3] = 1;
    stream[5] = 2;
    assert_eq!(decode(&stream, &mut out).unwrap_err(), DecodeError::InvalidDims);
    let mut buf = vec![0u8; 64];
    let mut pos: i32 = 0;
    assert_eq!(encode_grayscale(&[], 0, 4, 50, &mut buf, &mut pos), Err(EncodeError::InvalidDims));
    assert_eq!(pos, 0);
}

#[test]
fn output_capacity_is_checked() {
    let stream = encode_gray_vec(&[9u8; 64], 8, 8, 50);
    let mut out = vec![0u8; 63];
    assert_eq!(decode(&stream, &mut out).unwrap_err(), DecodeError::CapacityExceeded);
    let mut small = vec![0u8; 10];
    let mut pos: i32 = 0;
    assert_eq!(encode_grayscale(&[9u8; 64], 8, 8, 50, &mut small, &mut pos), Err(EncodeError::CapacityExceeded));
    assert_eq!(pos as usize, stream.len());
    assert_eq!(&small[..], &stream[..10]);
}

#[test]
fn truncated_streams_are_malformed() {
    let image: Vec<u8> = (0..(13 * 11) as u32).map(|i| (i * 37 % 256) as u8).collect();
    let stream = encode_gray_vec(&image, 13, 11, 80);
    let mut out = vec![0u8; 13 * 11];
    assert!(decode(&stream, &mut out).is_ok());
    for cut in 1..stream.len() {
        let r = decode(&stream[..stream.len() - cut], &mut out);
        assert_eq!(r.unwrap_err(), DecodeError::Malformed, "cut {}", cut);
    }
}

#[test]
fn unknown_trailer_chunk_is_ignored() {
    let image: Vec<u8> = (0..(16 * 9 * 3) as u32).map(|i| (i * 11 % 256) as u8).collect();
    let stream = encode_rgb_vec(&image, 16, 9, 60, None);
    let mut extended = stream.clone();
    extended.extend_from_slice(&[0x42, 0x47, 0x78, 0x07, 3, 0, 0, 0, 1, 2, 3]);
    let mut a = vec![0u8; 16 * 9 * 3];
    let mut b = vec![0u8; 16 * 9 * 3];
    assert!(decode(&stream, &mut a).unwrap().icc.is_none());
    assert!(decode(&extended, &mut b).unwrap().icc.is_none());
    assert_eq!(a, b);
    let profile = [5u8, 6, 7];
    extended.extend_from_slice(&[0x42, 0x47, 0x78, 0x01, 3, 0, 0, 0]);
    extended.extend_from_slice(&profile);
    let end = stream.len();
    assert_eq!(parse_icc_trailer(&extended, end), Some((profile.to_vec(), extended.len())));
}

#[test]
fn uniform_gray_round_trip() {
    for &(w, h) in &[(1usize, 1usize), (8, 8), (13, 5), (17, 23)] {
        for &g in &[0u8, 37, 128, 200, 255] {
            let image = vec![g; w * h];
            let stream = encode_gray_vec(&image, w, h, 50);
            let mut out = vec![0u8; w * h];
            assert_eq!(decode_grayscale(&stream, &mut out), Ok((w as u32, h as u32)));
            for &p in &out {
                assert!((p as i32 - g as i32).abs() <= 3, "{} vs {}", p, g);
            }
        }
    }
}

#[test]
fn grayscale_decoder_refuses_rgb() {
    let stream = encode_rgb_vec(&[1u8; 12], 2, 2, 50, None);
    let mut out = vec![0u8; 12];
    assert_eq!(decode_grayscale(&stream, &mut out), Err(DecodeError::BadVersion));
}

#[test]
fn rgba_round_trip_keeps_alpha_plane() {
    let mut image = vec![0u8; 9 * 4 * 4];
    for (i, p) in image.iter_mut().enumerate() {
        *p = if i % 4 == 3 { 255 } else { (i % 200) as u8 };
    }
    let mut buf = vec![0u8; 4096];
    let mut pos: i32 = 0;
    encode_rgba(&image, 9, 4, 100, &mut buf, &mut pos, None).unwrap();
    assert_eq!(buf[2], 3);
    let mut out = vec![0u8; 9 * 4 * 4];
    let img = decode(&buf[..pos as usize], &mut out).unwrap();
    assert_eq!(img.channels, 4);
    for i in 0..9 * 4 {
        assert!(out[i * 4 + 3] >= 250);
    }
}

#[test]
fn legacy_header_without_quality_byte() {
    let stream = encode_gray_vec(&[100u8; 64], 8, 8, 70);
    let legacy = &stream[..11];
    let hdr = parse_header(legacy).unwrap();
    assert_eq!((hdr.header_size, hdr.quality, hdr.width, hdr.height), (11, 50, 8, 8));
    let full = parse_header(&stream).unwrap();
    assert_eq!((full.header_size, full.quality, full.channels), (12, 70, 1));
    let mut out = vec![0u8; 64];
    assert_eq!(decode(legacy, &mut out).unwrap_err(), DecodeError::Malformed);
}

#[test]
fn block_record_round_trip_with_identity_table() {
    let mut data = [0i16; 64];
    data[0] = -300;
    data[3] = 7;
    data[40] = -1;
    data[63] = 1234;
    let block = Block::from_slice(&data);
    let ones = [1i16; 64];
    let mut q = block;
    quantize(&mut q.data, &ones);
    let mut buf = vec![0xEEu8; 3];
    buf.resize(200, 0);
    let mut pos: i32 = 3;
    encode_block_to_buffer(&q, &mut buf, &mut pos);
    let (mut decoded, end) = decode_rle_one_block(&buf, 3).unwrap();
    assert_eq!(end as i32, pos);
    dequantize(&mut decoded.data, &ones);
    assert_eq!(decoded.data, data);
    assert_eq!(ZIGZAG[0], 0);
}

#[test]
fn record_layout_of_a_sparse_block() {
    let mut data = [0i16; 64];
    data[0] = 5;
    data[ZIGZAG[3]] = -2;
    let block = Block { data };
    let mut buf = [0u8; 16];
    let mut pos: i32 = 0;
    encode_block_to_buffer(&block, &mut buf, &mut pos);
    assert_eq!(pos, 8);
    assert_eq!(&buf[..8], &[5, 0, 2, 0xFE, 0xFF, 0xFF, 0, 0]);
}

#[test]
fn truncated_record_is_rejected() {
    let buf = [5u8, 0, 2, 0xFE, 0xFF, 0xFF, 0];
    assert!(decode_rle_one_block(&buf, 0).is_none());
    assert!(decode_rle_one_block(&buf, 6).is_none());
}

#[test]
fn quantization_error_is_below_table_entry() {
    let table = quant_table_for_quality(50);
    let mut data = [0i16; 64];
    for i in 0..64 {
        data[i] = (i as i16 - 32) * 37;
    }
    let mut q = data;
    quantize(&mut q, &table);
    assert_eq!(q[0], (-32 * 37) / 8);
    let mut r = q;
    dequantize(&mut r, &table);
    for i in 0..64 {
        assert!((data[i] - r[i]).abs() < table[i]);
    }
    let mut z = [0i16; 64];
    quantize(&mut z, &table);
    dequantize(&mut z, &table);
    assert_eq!(z, [0i16; 64]);
}

#[test]
fn quality_scaling_formula() {
    let t = quant_table_for_quality(100);
    assert_eq!(t, default_quant_table());
    let t = quant_table_for_quality(75);
    assert_eq!(t[0], 12);
    assert_eq!(t[53], 91);
    assert_eq!(quant_table_for_quality(50)[1], 6);
    assert_eq!(quant_table_for_quality(1)[0], 1);
    assert_eq!(quant_table_for_quality(1)[45], 1);
    assert_eq!(quant_table_for_quality(10)[0], 2);
    assert_eq!(quant_table_for_quality(0), quant_table_for_quality(1));
    assert_eq!(quant_table_for_quality(255), quant_table_for_quality(100));
    let mut big = [i16::MAX; 64];
    dequantize(&mut big, &t);
    assert_eq!(big[0], i16::MAX);
}

#[test]
fn rle_pairs_in_storage_order() {
    let mut data = [0i16; 64];
    data[0] = 99;
    data[2] = 4;
    data[3] = -6;
    data[10] = 1;
    let pairs = rle_encode(&Block { data });
    assert_eq!(pairs, vec![(1u8, 4i16), (0, -6), (6, 1)]);
}

#[test]
fn blockizer_clamps_edges_and_centers() {
    let image: Vec<u8> = (0..(10 * 3) as u32).map(|i| i as u8).collect();
    let blocks = Blockizer::new(10, 3).generate_blocks(&image);
    assert_eq!(blocks.len(), 2);
    assert_eq!(blocks[0].data[0], -128);
    assert_eq!(blocks[0].data[7 * 8 + 7], 2 * 10 + 7 - 128);
    assert_eq!(blocks[1].data[0], 8 - 128);
    assert_eq!(blocks[1].data[5 * 8 + 4], 2 * 10 + 9 - 128);
    let rgb: Vec<u8> = (0..(2 * 2 * 3) as u32).map(|i| i as u8 * 10).collect();
    let green = Blockizer::new(2, 2).generate_blocks_rgb(&rgb, 1);
    assert_eq!(green.len(), 1);
    assert_eq!(green[0].data[0], 10 - 128);
    assert_eq!(green[0].data[1], 40 - 128);
    assert_eq!(green[0].data[8], 70 - 128);
    assert_eq!(green[0].data[63], 100 - 128);
}

#[test]
fn cursor_advances_past_the_end() {
    let mut buf = [0u8; 4];
    let mut pos: i32 = 2;
    write_bytes(&mut buf, &mut pos, &[1, 2, 3, 4]);
    assert_eq!(pos, 6);
    assert_eq!(buf, [0, 0, 1, 2]);
    write_byte(&mut buf, &mut pos, 9);
    assert_eq!(pos, 7);
    assert_eq!(buf, [0, 0, 1, 2]);
    let mut pos: i32 = 0;
    write_byte(&mut buf, &mut pos, 9);
    assert_eq!(buf, [9, 0, 1, 2]);
}

#[test]
fn encoder_plane_matches_manual_pipeline() {
    let image: Vec<u8> = (0..(16 * 8) as u32).map(|i| (i * 29 % 251) as u8).collect();
    let stream = encode_gray_vec(&image, 16, 8, 60);
    let table = quant_table_for_quality(60);
    let mut expected = vec![0u8; 1024];
    let mut pos: i32 = 0;
    for block in Blockizer::new(16, 8).generate_blocks(&image) {
        let mut b = block;
        dct(&mut b);
        quantize(&mut b.data, &table);
        encode_block_to_buffer(&b, &mut expected, &mut pos);
    }
    expected.truncate(pos as usize);
    assert_eq!(&stream[12..], &expected[..]);
    assert_ne!(expected[0..2], [0u8, 0u8]);
}

#[test]
fn uniform_gray_reencode_gives_same_stream() {
    for &q in &[50u8, 100] {
        assert_eq!(quant_table_for_quality(q)[0] % 8, 0);
        for &(w, h) in &[(8usize, 8usize), (11, 3), (20, 17)] {
            for &g in &[0u8, 99, 128, 201, 255] {
                let stream = encode_gray_vec(&vec![g; w * h], w, h, q);
                let mut out = vec![0u8; w * h];
                decode(&stream, &mut out).unwrap();
                assert_eq!(encode_gray_vec(&out, w, h, q), stream);
            }
        }
    }
}

#[test]
fn header_writer_clamps_quality() {
    let mut buf = [0u8; 12];
    let mut pos: i32 = 0;
    write_header_version(&mut buf, &mut pos, 2, 8, 3, 150);
    assert_eq!(pos, 12);
    assert_eq!(buf, [0x42, 0x47, 0x02, 8, 0, 0, 0, 3, 0, 0, 0, 100]);
    let mut pos: i32 = 0;
    write_header_version(&mut buf, &mut pos, 1, 1, 1, 0);
    assert_eq!(buf[11], 50);
}

#[test]
fn decode_leaves_bytes_past_the_image() {
    let image: Vec<u8> = (0..(5 * 4 * 3) as u32).map(|i| (i * 13 % 256) as u8).collect();
    let stream = encode_rgb_vec(&image, 5, 4, 70, None);
    let mut extended = stream.clone();
    extended.extend_from_slice(&[0x42, 0x47, 0x78, 0x09, 1, 0, 0, 0, 0xEE]);
    let mut a = vec![0x5Au8; 5 * 4 * 3 + 7];
    let mut b = vec![0x5Au8; 5 * 4 * 3 + 7];
    decode(&stream, &mut a).unwrap();
    decode(&extended, &mut b).unwrap();
    assert_eq!(a, b);
    assert_eq!(&a[60..], &[0x5Au8; 7]);
    let mut zero_q = stream.clone();
    zero_q[11] = 0;
    let mut fifty = stream.clone();
    fifty[11] = 50;
    let mut c = vec![0x11u8; 70];
    let mut d = vec![0x11u8; 70];
    decode(&zero_q, &mut c).unwrap();
    decode(&fifty, &mut d).unwrap();
    assert_eq!(c, d);
}

#[test]
fn short_header_writes_nothing() {
    let mut out = vec![0x33u8; 16];
    assert_eq!(decode(&[0x42, 0x47, 0x01, 4], &mut out).unwrap_err(), DecodeError::Malformed);
    assert_eq!(out, vec![0x33u8; 16]);
}
