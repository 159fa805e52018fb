//! The icon container: what is written reads back, and every refusal by its cause.
use softgraphics::icns;
use softgraphics::icns::{Decoding, DecodingBest, Encoding, Error, RgbaImage};

const SIGNATURE: [u8; 8] = [0x89, 0x50, 0x4e, 0x47, 0x0d, 0x0a, 0x1a, 0x0a];

fn picture(size: u32, seed: u32) -> RgbaImage {
    let pixels = (0..size * size * 4).map(|index| (index.wrapping_mul(seed) >> 3) as u8).collect();
    RgbaImage::new(size, size, pixels).unwrap()
}

fn plain(size: u32, colour: [u8; 4]) -> RgbaImage {
    RgbaImage::new(size, size, colour.repeat((size * size) as usize)).unwrap()
}

/// A stand-in for a PNG file: the signature, the side and the pixels.
fn png(image: &RgbaImage) -> Vec<u8> {
    let mut file = SIGNATURE.to_vec();
    file.extend(image.width.to_be_bytes());
    file.extend(&image.pixels);
    file
}

fn read_png(file: &[u8]) -> Result<RgbaImage, Error> {
    if file.len() < 12 {
        return Err(Error::Truncated);
    }
    let side = u32::from_be_bytes([file[8], file[9], file[10], file[11]]);
    RgbaImage::new(side, side, file[12..].to_vec())
}

fn encode(images: &[RgbaImage]) -> Result<Vec<u8>, Error> {
    let mut files = Vec::new();
    loop {
        match icns::encode(images, &files) {
            Encoding::Pending { image } => files.push(Ok(png(&images[image]))),
            Encoding::Finished(outcome) => return outcome,
        }
    }
}

fn decode_all(data: &[u8]) -> Result<Vec<RgbaImage>, Error> {
    let mut pictures = Vec::new();
    loop {
        match icns::decode_all(data, &pictures) {
            Decoding::Pending { start, end } => pictures.push(read_png(&data[start..end])),
            Decoding::Finished(outcome) => return outcome,
        }
    }
}

fn decode(data: &[u8]) -> Result<RgbaImage, Error> {
    let mut pictures = Vec::new();
    loop {
        match icns::decode(data, &pictures) {
            DecodingBest::Pending { start, end } => pictures.push(read_png(&data[start..end])),
            DecodingBest::Finished(outcome) => return outcome,
        }
    }
}

fn entry(kind: &[u8; 4], payload: &[u8]) -> Vec<u8> {
    let mut bytes = kind.to_vec();
    bytes.extend((payload.len() as u32 + 8).to_be_bytes());
    bytes.extend(payload);
    bytes
}

fn container(entries: &[Vec<u8>]) -> Vec<u8> {
    let mut bytes = b"icns".to_vec();
    bytes.extend((entries.iter().map(Vec::len).sum::<usize>() as u32 + 8).to_be_bytes());
    bytes.extend(entries.concat());
    bytes
}

fn refusal(data: &[u8]) -> Error {
    decode_all(data).unwrap_err()
}

#[test]
fn what_is_written_is_read_back_smallest_first() {
    let images = [picture(256, 2_654_435_761), picture(16, 40_503), picture(128, 9_176), picture(32, 7)];
    let bytes = encode(&images).unwrap();
    let back = decode_all(&bytes).unwrap();
    assert_eq!(back.iter().map(|image| image.width).collect::<Vec<u32>>(), [16, 32, 128, 256]);
    for (image, original) in back.iter().zip([&images[1], &images[3], &images[2], &images[0]]) {
        assert_eq!(image.pixels, original.pixels);
        assert_eq!((image.height, image.pitch), (image.width, image.width * 4));
    }
    assert_eq!(decode(&bytes).unwrap().pixels, images[0].pixels, "the largest is the best");
}

#[test]
fn entries_are_written_in_the_order_of_their_types() {
    let bytes = encode(&[plain(48, [1, 2, 3, 4]), plain(16, [5, 6, 7, 8]), plain(256, [9; 4])]).unwrap();
    let mut kinds = Vec::new();
    let mut at = 8;
    while at < bytes.len() {
        kinds.push(bytes[at..at + 4].to_vec());
        at += u32::from_be_bytes([bytes[at + 4], bytes[at + 5], bytes[at + 6], bytes[at + 7]]) as usize;
    }
    assert_eq!(kinds, [b"h8mk", b"ic08", b"ih32", b"is32", b"s8mk"]);
    assert_eq!(bytes[4..8], (bytes.len() as u32).to_be_bytes());
}

#[test]
fn a_plane_is_coded_in_runs_and_literals() {
    let coded = |input: &[u8]| {
        let mut output = Vec::new();
        icns::encode_packbits_component(input, &mut output);
        output
    };
    assert_eq!(coded(&[]), Vec::<u8>::new());
    assert_eq!(coded(&[5, 5, 5, 5]), [0x81, 5]);
    assert_eq!(coded(&[1, 2]), [1, 1, 2]);
    assert_eq!(coded(&[1, 2, 2, 2]), [0, 1, 0x80, 2]);
    assert_eq!(coded(&[9; 130]), [0xff, 9]);
    assert_eq!(coded(&[9; 131]), [0xff, 9, 0, 9]);
    let literal: Vec<u8> = (0..130).collect();
    assert_eq!(coded(&literal)[0], 0x7f, "a literal is cut at its longest");
    for input in [vec![], vec![3; 500], literal, (0..400_u32).map(|i| (i / 3) as u8).collect()] {
        let mut cursor = 0;
        let mut back = vec![7];
        let stream = coded(&input);
        assert_eq!(icns::decode_packbits_component(&stream, &mut cursor, input.len(), &mut back), Ok(()));
        assert_eq!(back[1..], input[..]);
        assert_eq!(cursor, stream.len());
    }
}

#[test]
fn a_broken_plane_is_refused() {
    let broken = |stream: &[u8], expected: usize| icns::decode_packbits_component(stream, &mut 0, expected, &mut Vec::new());
    assert_eq!(broken(&[], 1), Err(Error::Truncated));
    assert_eq!(broken(&[0x80], 3), Err(Error::Truncated), "a run without its byte");
    assert_eq!(broken(&[3, 1, 2], 4), Err(Error::Truncated), "a literal cut short");
    assert_eq!(broken(&[0x81, 5], 3), Err(Error::Invalid), "a run past the plane");
    assert_eq!(broken(&[3, 1, 2, 3, 4], 3), Err(Error::Invalid), "a literal past the plane");
    let mut output = vec![0];
    assert_eq!(icns::decode_packbits_component(&[0x80, 5], &mut 0, usize::MAX, &mut output), Err(Error::TooLarge));
    let mut longer = icns::encode_legacy_rgb(&plain(16, [1, 2, 3, 4])).unwrap();
    assert_eq!(icns::decode_legacy_rgb(&longer, 16).unwrap().len(), 16 * 16 * 3);
    longer.push(0);
    assert_eq!(icns::decode_legacy_rgb(&longer, 16).err(), Some(Error::Invalid), "bytes are left behind the planes");
    // The largest legacy size may have four bytes of nothing in front.
    let large = icns::encode_legacy_rgb(&plain(128, [1, 2, 3, 4])).unwrap();
    let planes = icns::decode_legacy_rgb(&large, 128).unwrap();
    let led: Vec<u8> = [0; 4].into_iter().chain(large.into_iter().skip_while(|byte| *byte == 0)).collect();
    assert_eq!(icns::decode_legacy_rgb(&led, 128).unwrap(), planes);
    assert_eq!((planes[0], planes[128 * 128], planes[2 * 128 * 128]), (1, 2, 3));
}

#[test]
fn a_broken_container_is_refused() {
    assert_eq!(refusal(b"icns\0\0\0"), Error::Truncated);
    assert_eq!(refusal(b"icnt\0\0\0\x08"), Error::Invalid);
    assert_eq!(refusal(b"icns\0\0\0\x09"), Error::Truncated);
    assert_eq!(refusal(b"icns\0\0\0\x07"), Error::Invalid);
    assert_eq!(refusal(b"icns\0\0\0\x0cic07"), Error::Truncated, "an entry without its length");
    assert_eq!(refusal(b"icns\0\0\0\x10ic07\0\0\0\x07"), Error::Invalid, "an entry shorter than its header");
    assert_eq!(refusal(b"icns\0\0\0\x10ic07\0\0\0\x09"), Error::Truncated, "an entry past the end");
    assert_eq!(refusal(&container(&[entry(b"s8mk", &[0; 255])])), Error::Truncated);
    assert_eq!(refusal(&container(&[entry(b"s8mk", &[0; 257])])), Error::Invalid);
    let mask = entry(b"s8mk", &[0; 256]);
    assert_eq!(refusal(&container(&[mask.clone(), mask.clone()])), Error::Invalid, "two masks of one size");
    let colours = entry(b"is32", &icns::encode_legacy_rgb(&plain(16, [1, 2, 3, 4])).unwrap());
    assert_eq!(refusal(&container(&[colours.clone(), colours.clone()])), Error::Invalid, "two colours of one size");
    let small = entry(b"ic08", &png(&plain(128, [0; 4])));
    assert_eq!(refusal(&container(&[small])), Error::Invalid, "a file of another size than its entry");
    assert_eq!(refusal(&container(&[entry(b"ic08", &SIGNATURE)])), Error::Truncated, "a fault of the file is the fault");
    assert_eq!(refusal(&container(&[entry(b"ic08", &[0; 20])])), Error::Unsupported);
    // An unsupported entry beside one that is read is passed over, and so is a type nobody knows.
    let both = container(&[entry(b"ic08", &[0; 20]), colours.clone(), entry(b"TOC ", &[])]);
    let images = decode_all(&both).unwrap();
    assert_eq!(images.len(), 1);
    assert_eq!(images[0].pixels[..4], [1, 2, 3, 255], "without a mask the image is opaque");
    assert_eq!(decode_all(&container(&[])).unwrap().len(), 0);
    assert_eq!(decode(&container(&[])).err(), Some(Error::Unsupported));
    assert_eq!(decode_all(&container(&[mask])).unwrap().len(), 0, "a mask alone is no image");
}

#[test]
fn what_cannot_be_written_is_refused() {
    let refusal = |images: &[RgbaImage]| encode(images).unwrap_err();
    assert_eq!(refusal(&[]), Error::Invalid);
    let many: Vec<RgbaImage> = (0..17).map(|_| plain(16, [0; 4])).collect();
    assert_eq!(refusal(&many), Error::Invalid);
    assert_eq!(refusal(&[RgbaImage::new(16, 8, vec![0; 512]).unwrap()]), Error::Unsupported);
    assert_eq!(refusal(&[plain(17, [0; 4])]), Error::Unsupported);
    assert_eq!(refusal(&[plain(16, [0; 4]), plain(16, [1; 4])]), Error::Invalid);
    assert_eq!(refusal(&[plain(256, [0; 4]), plain(256, [1; 4])]), Error::Invalid);
    assert!(matches!(icns::encode(&[plain(256, [0; 4])], &[Err(Error::TooLarge)]), Encoding::Finished(Err(Error::TooLarge))));
    let mut loose = plain(16, [0; 4]);
    loose.pitch = 65;
    assert_eq!(icns::encode_legacy_rgb(&loose).err(), Some(Error::Invalid));
    loose.pixels.pop();
    assert_eq!(icns::encode_legacy_rgb(&loose).err(), Some(Error::Invalid));
    let huge = RgbaImage { width: u32::MAX, height: u32::MAX, pitch: 0, pixels: vec![] };
    assert_eq!(icns::encode_legacy_rgb(&huge).err(), Some(Error::TooLarge));
    assert_eq!(huge.pixel_count(), 0xffff_fffe_0000_0001);
    assert_eq!(RgbaImage::new(u32::MAX, 1, vec![]).err(), Some(Error::TooLarge));
    assert_eq!(RgbaImage::new(2, 2, vec![0; 15]).err(), Some(Error::Invalid));
}

#[test]
fn types_and_sizes_name_each_other() {
    for (kind, size) in [(b"ic07", 128), (b"ic08", 256), (b"ic09", 512), (b"ic10", 1024)] {
        assert_eq!(icns::modern_size(kind), Some(size));
        assert_eq!(icns::modern_kind_for_size(size), Some(*kind));
    }
    for (colour, mask, size) in [(b"is32", b"s8mk", 16), (b"il32", b"l8mk", 32), (b"ih32", b"h8mk", 48), (b"it32", b"t8mk", 128)] {
        assert_eq!(icns::legacy_color_size(colour), Some(size));
        assert_eq!(icns::legacy_mask_size(mask), Some(size));
        let written = if size < 128 { Some((*colour, *mask)) } else { None };
        assert_eq!(icns::legacy_kinds_for_size(size), written, "the largest is only read");
    }
    assert_eq!(icns::modern_size(b"is32"), None);
    assert_eq!(icns::legacy_color_size(b"s8mk"), None);
    assert_eq!(icns::legacy_mask_size(b"ic07"), None);
    assert_eq!(icns::modern_kind_for_size(16), None);
    assert_eq!(icns::legacy_kinds_for_size(256), None);
    assert_eq!(icns::pixel_count(48), Ok(2304));
}

#[test]
fn a_refused_plane_keeps_what_came_before_the_fault() {
    let (mut cursor, mut output) = (0, vec![7]);
    // Three fives, then a literal of two that is cut off.
    assert_eq!(icns::decode_packbits_component(&[0x80, 5, 0x01, 9], &mut cursor, 5, &mut output), Err(Error::Truncated));
    assert_eq!((cursor, output), (3, vec![7, 5, 5, 5]));
    // A run that is longer than what is left is refused behind its value.
    let (mut cursor, mut output) = (0, Vec::new());
    assert_eq!(icns::decode_packbits_component(&[0x80, 5], &mut cursor, 2, &mut output), Err(Error::Invalid));
    assert_eq!((cursor, output), (2, Vec::new()));
}
