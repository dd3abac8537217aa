use lowkey::bits::{convert_bits_to_bytes, convert_bytes_to_bits};
use lowkey::carrier::{get_bits_reader_images, read_bits, set_bits_image, Carrier};
use lowkey::codec::{decode, encode, get_message_header_bytes};
use lowkey::common::{check_capacity, check_image_png};
use lowkey::errors::StegoError;

fn carrier(width: u32, height: u32, fill: u8) -> Carrier {
    Carrier {
        width,
        height,
        data: vec![fill; (width * height * 4) as usize],
    }
}

#[test]
fn bits_are_lsb_first_per_byte() {
    // 0xB2 = 0b1011_0010: bit 0 first
    let bits = convert_bytes_to_bits(&[0xB2]);
    assert_eq!(
        bits,
        vec![false, true, false, false, true, true, false, true]
    );
}

#[test]
fn bytes_bits_roundtrip() {
    let data: Vec<u8> = (0u16..=255).map(|b| b as u8).collect();
    let bits = convert_bytes_to_bits(&data);
    assert_eq!(bits.len(), 8 * data.len());
    assert_eq!(convert_bits_to_bytes(&bits), data);
}

#[test]
fn header_is_version_then_big_endian_length() {
    let body = vec![0u8; 300];
    let head = get_message_header_bytes(&body);
    assert_eq!(head, vec![0, 0, 0, 1, 44]);
}

#[test]
fn set_bits_only_touches_lsbs() {
    let mut img = carrier(2, 2, 0xAA); // 16 channels of 0b1010_1010
    let bits = vec![true, false, true];
    set_bits_image(&mut img, &bits).unwrap();
    assert_eq!(img.data[0], 0xAB);
    assert_eq!(img.data[1], 0xAA);
    assert_eq!(img.data[2], 0xAB);
    // channels beyond the bit range are untouched
    for i in 3..16 {
        assert_eq!(img.data[i], 0xAA);
    }
}

#[test]
fn set_bits_rejects_overflow() {
    let mut img = carrier(1, 1, 0);
    let bits = vec![false; 5];
    let r = set_bits_image(&mut img, &bits);
    assert_eq!(
        r,
        Err(StegoError::MessageTooLarge {
            capacity_bits: 4,
            required_bits: 5
        })
    );
}

#[test]
fn read_bits_crosses_carrier_boundaries() {
    let a = Carrier {
        width: 1,
        height: 1,
        data: vec![1, 0, 1, 0],
    };
    let b = Carrier {
        width: 1,
        height: 1,
        data: vec![1, 1, 0, 255],
    };
    let imgs = vec![a, b];
    let mut reader = get_bits_reader_images(&imgs);
    let bits = read_bits(&imgs, &mut reader, 6).unwrap();
    assert_eq!(bits, vec![true, false, true, false, true, true]);
    let rest = read_bits(&imgs, &mut reader, 2).unwrap();
    assert_eq!(rest, vec![false, true]);
    assert_eq!(
        read_bits(&imgs, &mut reader, 1),
        Err(StegoError::InsufficientData)
    );
}

#[test]
fn check_capacity_boundary() {
    assert!(check_capacity(100, 100).is_ok());
    assert_eq!(
        check_capacity(100, 101),
        Err(StegoError::MessageTooLarge {
            capacity_bits: 100,
            required_bits: 101
        })
    );
}

#[test]
fn encode_capacity_boundary_exact_fit() {
    // framed size: (7 + 33) * 8 = 320 bits
    let payload = b"seven!!";
    let exact = Carrier {
        width: 8,
        height: 10,
        data: vec![0u8; 320],
    };
    let out = encode(&vec![exact], payload, "pw").unwrap();
    assert_eq!(decode(&out, "pw").unwrap(), payload);

    let short = Carrier {
        width: 8,
        height: 10,
        data: vec![0u8; 319],
    };
    let r = encode(&vec![short], payload, "pw");
    assert_eq!(
        r,
        Err(StegoError::MessageTooLarge {
            capacity_bits: 319,
            required_bits: 320
        })
    );
}

#[test]
fn encode_preserves_untouched_channels_and_high_bits() {
    let payload = b"x";
    let needed = (1 + 33) * 8;
    let img = carrier(10, 10, 0xC6); // 400 channels
    let out = encode(&vec![img], payload, "pw").unwrap();
    let data = &out[0].data;
    for i in 0..needed {
        // only the LSB may differ
        assert_eq!(data[i] & 0xFE, 0xC6);
    }
    for i in needed..400 {
        assert_eq!(data[i], 0xC6);
    }
}

#[test]
fn multi_carrier_split_at_capacity_boundary() {
    // framed size: (30 + 33) * 8 = 504 bits; first carrier holds 400
    let payload = b"012345678901234567890123456789";
    let first = carrier(10, 10, 0xFF); // 400 channels
    let second = carrier(10, 10, 0xFF); // 400 channels
    let imgs = vec![first, second];
    let out = encode(&imgs, payload, "pw").unwrap();
    assert_eq!(out.len(), 2);
    // the second carrier holds bits 400..504, so channels 104.. are untouched
    for i in 104..400 {
        assert_eq!(out[1].data[i], 0xFF);
    }
    assert_eq!(decode(&out, "pw").unwrap(), payload);
}

#[test]
fn zero_bit_carrier_is_unmodified() {
    // the whole frame fits in the first carrier; the second gets zero bits
    let payload = b"a";
    let first = carrier(10, 10, 0x55); // 400 >= 272 needed
    let second = carrier(2, 2, 0x55);
    let out = encode(&vec![first, second], payload, "pw").unwrap();
    assert_eq!(out.len(), 2);
    assert_eq!(out[1].data, vec![0x55; 16]);
}

#[test]
fn decode_rejects_unknown_version() {
    // a carrier whose first 8 LSBs spell version byte 1
    let mut img = carrier(10, 10, 0);
    img.data[0] = 1;
    let r = decode(&vec![img], "pw");
    assert_eq!(r, Err(StegoError::UnsupportedVersion { version: 1 }));
}

#[test]
fn decode_rejects_truncated_carrier() {
    let img = Carrier {
        width: 1,
        height: 1,
        data: vec![0u8; 4],
    };
    let r = decode(&vec![img], "pw");
    assert_eq!(r, Err(StegoError::InsufficientData));
}

#[test]
fn decode_rejects_body_longer_than_carriers() {
    // header declares a 200-byte body but the carrier ends after the header
    let mut img = Carrier {
        width: 5,
        height: 4,
        data: vec![0u8; 80],
    };
    let header: Vec<u8> = vec![0, 0, 0, 0, 200];
    let bits = convert_bytes_to_bits(&header);
    set_bits_image(&mut img, &bits).unwrap();
    let r = decode(&vec![img], "pw");
    assert_eq!(r, Err(StegoError::InsufficientData));
}

#[test]
fn empty_payload_roundtrip() {
    let img = carrier(10, 10, 7);
    let out = encode(&vec![img], &[], "pw").unwrap();
    assert_eq!(decode(&out, "pw").unwrap(), Vec::<u8>::new());
}

#[test]
fn scenario_hundred_square_carrier() {
    // a 100x100 opaque RGBA carrier offers 40,000 bits; the 25-byte payload
    // plus 33 bytes of framing takes 464 of them
    let mut img = carrier(100, 100, 0xFF);
    for i in (3..40_000).step_by(4) {
        img.data[i] = 0xFF; // alpha stays opaque
    }
    let payload = b"This is a secret message.";
    let out = encode(&vec![img], payload, "pw").unwrap();
    assert_eq!(decode(&out, "pw").unwrap(), payload);
    assert!(decode(&out, "wrong").is_err());
}

#[test]
fn check_image_png_rejects_jpeg_suffixes() {
    assert_eq!(
        check_image_png("out.jpg"),
        Err(StegoError::UnsupportedOutputFormat)
    );
    assert_eq!(
        check_image_png("out.JPEG"),
        Err(StegoError::UnsupportedOutputFormat)
    );
    assert!(check_image_png("out.png").is_ok());
    assert!(check_image_png("out.jpg.png").is_ok());
    assert!(check_image_png("jpg").is_ok());
}

#[test]
fn decode_empty_carrier_set_is_insufficient() {
    let r = decode(&Vec::new(), "pw");
    assert_eq!(r, Err(StegoError::InsufficientData));
}

#[test]
fn encode_empty_carrier_set_is_too_large() {
    let r = encode(&Vec::new(), &[], "pw");
    assert_eq!(
        r,
        Err(StegoError::MessageTooLarge {
            capacity_bits: 0,
            required_bits: 264
        })
    );
}
