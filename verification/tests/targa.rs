use raytracer::image::{Image, Rgb};
use raytracer::targa::{TargaHeader, DEPTH, HEADER_LEN, TOP_TO_BOTTOM, TRUE_COLOR};

#[test]
fn encoding_a_four_by_two_image() {
    let img = Image::from(4, 2);
    let out = img.encode_targa();
    assert_eq!(out.len(), 18 + 24);
    assert_eq!(
        &out[..18],
        &[0, 0, 2, 0, 0, 0, 0, 0, 0, 0, 0, 0, 4, 0, 2, 0, 24, 0b0010_0000]
    );
    assert_eq!(&out[12..14], &[4, 0]);
    assert_eq!(&out[14..16], &[2, 0]);
    assert_eq!(out[17], 0b00100000);
    assert_eq!(&out[18..], &[0u8; 24]);
}

#[test]
fn pixel_data_follows_the_header_unchanged() {
    let mut img = Image::from(3, 2);
    let mut n = 0u8;
    for y in 0..2 {
        for x in 0..3 {
            img.pixels(x, y, Rgb::new(n, n + 1, n + 2));
            n += 3;
        }
    }
    let out = img.encode_targa();
    assert_eq!(out.len(), HEADER_LEN + 18);
    assert_eq!(&out[HEADER_LEN..], img.bytes().as_slice());
    let want: Vec<u8> = (0u8..18).collect();
    assert_eq!(&out[HEADER_LEN..], want.as_slice());
}

#[test]
fn encoding_an_empty_image_is_a_bare_header() {
    let out = Image::from(0, 0).encode_targa();
    assert_eq!(out, vec![0, 0, 2, 0, 0, 0, 0, 0, 0, 0, 0, 0, 0, 0, 0, 0, 24, 32]);
}

#[test]
fn header_constants() {
    assert_eq!(HEADER_LEN, 18);
    assert_eq!(TRUE_COLOR, 2);
    assert_eq!(DEPTH, 24);
    assert_eq!(TOP_TO_BOTTOM, 1 << 5);
}

#[test]
fn size_fields_are_little_endian() {
    let h = TargaHeader { width: 1280, height: 720, depth: 24, descriptor: 32 };
    let bytes = h.to_bytes();
    assert_eq!(bytes.len(), 18);
    assert_eq!(&bytes[12..14], &1280u16.to_le_bytes());
    assert_eq!(&bytes[14..16], &720u16.to_le_bytes());
    assert_eq!(&bytes[12..16], &[0x00, 0x05, 0xD0, 0x02]);
    assert_eq!(bytes[16], 24);
    assert_eq!(bytes[17], 32);
    let edge = TargaHeader { width: 65535, height: 256, depth: 1, descriptor: 255 };
    assert_eq!(&edge.to_bytes()[12..], &[255, 255, 0, 1, 1, 255]);
}

#[test]
fn header_for_an_image_takes_its_size() {
    let img = Image::from(1280, 720);
    assert_eq!(
        TargaHeader::for_image(&img),
        TargaHeader { width: 1280, height: 720, depth: 24, descriptor: 32 }
    );
}

#[test]
fn parsing_an_encoded_image_recovers_its_header() {
    for (w, h) in [(4usize, 2usize), (1, 1), (0, 0), (256, 1), (1280, 720), (65535, 1), (1, 65535)] {
        let out = Image::from(w, h).encode_targa();
        let got = TargaHeader::parse(&out);
        assert_eq!(
            got,
            Some(TargaHeader { width: w as u16, height: h as u16, depth: 24, descriptor: 0b0010_0000 })
        );
    }
}

#[test]
fn parsing_inverts_writing_for_any_header() {
    for h in [
        TargaHeader { width: 0, height: 0, depth: 0, descriptor: 0 },
        TargaHeader { width: 1, height: 2, depth: 3, descriptor: 4 },
        TargaHeader { width: 0x1234, height: 0xFEDC, depth: 32, descriptor: 8 },
        TargaHeader { width: 65535, height: 65535, depth: 255, descriptor: 255 },
    ] {
        let mut bytes = h.to_bytes();
        assert_eq!(TargaHeader::parse(&bytes), Some(h));
        bytes.extend_from_slice(&[9, 9, 9]);
        assert_eq!(TargaHeader::parse(&bytes), Some(h));
    }
}

#[test]
fn a_dimension_beyond_sixteen_bits_keeps_its_low_bits() {
    let wide = Image::from(65536, 0);
    assert_eq!(TargaHeader::for_image(&wide).width, 0);
    let out = wide.encode_targa();
    assert_eq!(&out[12..14], &[0, 0]);
    let tall = Image::from(0, 65536 + 258);
    assert_eq!(TargaHeader::for_image(&tall).height, 258);
    assert_eq!(&tall.encode_targa()[14..16], &[2, 1]);
}

#[test]
fn parse_rejects_what_is_no_true_colour_header() {
    let good = Image::from(4, 2).encode_targa();
    assert!(TargaHeader::parse(&good).is_some());
    assert_eq!(TargaHeader::parse(&good[..17]), None);
    assert_eq!(TargaHeader::parse(&[]), None);
    assert!(TargaHeader::parse(&good[..18]).is_some());
    for (at, value) in [(0usize, 1u8), (1, 1), (2, 10), (2, 0)] {
        let mut bad = good.clone();
        bad[at] = value;
        assert_eq!(TargaHeader::parse(&bad), None);
    }
}

#[test]
fn encoding_a_gradient() {
    let img = Image::gradiant(2, 2);
    let out = img.encode_targa();
    assert_eq!(out.len(), 30);
    assert_eq!(&out[12..18], &[2, 0, 2, 0, 24, 32]);
    assert_eq!(&out[18..], &[0, 0, 63, 255, 0, 63, 0, 255, 63, 255, 255, 63]);
}
