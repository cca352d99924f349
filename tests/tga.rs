use tinyrenderer::tga_image::{
    read_header, u32_from_be, u32_from_le, RGBAColor, TGAColor, TGAHeader, TGAImage, TgaError,
    GRAYSCALE, RGB, RGBA, WRITE_RLE_FILE,
};

fn rgb(r: u8, g: u8, b: u8) -> TGAColor {
    let mut c = TGAColor::with_color(RGBAColor(r, g, b, 255));
    c.bytespp = 3;
    c
}

#[test]
fn short_big_and_little_endian_reads() {
    assert_eq!(u32_from_be(&[1, 2, 3]), 0x010203);
    assert_eq!(u32_from_le(&[1, 2, 3]), 0x030201);
    assert_eq!(u32_from_be(&[1, 2]), 0x0102);
    assert_eq!(u32_from_le(&[1, 2]), 0x0201);
    assert_eq!(u32_from_le(&[7]), 7);
    assert_eq!(u32_from_be(&[1, 2, 3, 4]), 0x01020304);
}

#[test]
fn tga_color_accessors() {
    let mut c = TGAColor::with_color(RGBAColor(1, 2, 3, 4));
    assert_eq!((c.red(), c.green(), c.blue(), c.alpha(), c.bytespp), (1, 2, 3, 4, 4));
    assert_eq!(c.raw(), [3, 2, 1, 4]);
    assert_eq!(c.val(), 0x0401_0203);
    c.set_red(10);
    c.set_green(20);
    c.set_blue(30);
    c.set_alpha(40);
    assert_eq!(c.raw(), [30, 20, 10, 40]);
    assert_eq!(c.channel(0), 30);
    c.set_channel(3, 0);
    assert_eq!(c.alpha(), 0);
    let g = TGAColor::grayscale(77);
    assert_eq!((g.blue(), g.bytespp), (77, 1));
    let z = TGAColor::new();
    assert_eq!((z.raw(), z.bytespp), ([0, 0, 0, 0], 0));
}

#[test]
fn tga_color_from_bytes_and_value() {
    let c = TGAColor::from_val(0x0403_0201);
    assert_eq!(c.raw(), [1, 2, 3, 4]);
    assert_eq!(c.bytespp, 4);
    let mut d = TGAColor::new();
    assert_eq!(d.set(&[9, 8, 7], 3), Some(()));
    assert_eq!((d.raw(), d.bytespp), ([9, 8, 7, 0], 3));
    assert_eq!(d.set(&[1, 1, 1, 1, 1], 5), None);
    assert_eq!(d.raw(), [9, 8, 7, 0]);
    let mut e = TGAColor::new();
    e.set_val(0x0403_0201, 1);
    assert_eq!((e.raw(), e.bytespp), ([1, 0, 0, 0], 1));
}

#[test]
fn new_image_is_black_and_sized() {
    let img = TGAImage::with_info(3, 2, RGB);
    assert_eq!((img.get_width(), img.get_height(), img.get_bytespp()), (3, 2, 3));
    assert_eq!(img.buffer().len(), 18);
    assert!(img.buffer().iter().all(|&b| b == 0));
    let empty = TGAImage::new();
    assert_eq!((empty.get_width(), empty.get_height(), empty.buffer().len()), (0, 0, 0));
}

#[test]
fn set_then_get_pixel() {
    let mut img = TGAImage::with_info(4, 3, RGB);
    assert!(img.set(2, 1, rgb(10, 20, 30)));
    let c = img.get(2, 1);
    assert_eq!((c.red(), c.green(), c.blue(), c.alpha(), c.bytespp), (10, 20, 30, 0, 3));
    // pixel (2, 1) starts at byte (2 + 1 * 4) * 3
    assert_eq!(&img.buffer()[18..21], &[30, 20, 10]);
    assert_eq!(img.get(1, 1).raw(), [0, 0, 0, 0]);
}

#[test]
fn out_of_image_access_is_neutral() {
    let mut img = TGAImage::with_info(2, 2, RGBA);
    assert!(!img.set(-1, 0, rgb(1, 1, 1)));
    assert!(!img.set(0, -5, rgb(1, 1, 1)));
    assert!(!img.set(2, 0, rgb(1, 1, 1)));
    assert!(!img.set(0, 2, rgb(1, 1, 1)));
    assert!(img.buffer().iter().all(|&b| b == 0));
    assert!(img.set(0, 0, rgb(5, 6, 7)));
    let c = img.get(-1, 0);
    assert_eq!((c.raw(), c.bytespp), ([0, 0, 0, 0], 0));
    let d = img.get(0, -1);
    assert_eq!((d.raw(), d.bytespp), ([0, 0, 0, 0], 0));
    assert_eq!(img.get(0, 0).bytespp, 4);
}

#[test]
fn clear_drops_pixels() {
    let mut img = TGAImage::with_info(2, 2, GRAYSCALE as isize);
    assert_eq!(img.clear(), Some(4));
    assert_eq!(img.buffer().len(), 0);
    assert_eq!(img.get_width(), 2);
    assert!(!img.set(0, 0, TGAColor::grayscale(1)));
    assert_eq!(img.flip_vertically(), Err(TgaError::NoData));
    assert_eq!(img.flip_horizontally(), Err(TgaError::NoData));
    assert_eq!(img.to_tga_bytes(true).err(), Some(TgaError::NoData));
}

#[test]
fn flips_move_pixels() {
    let mut img = TGAImage::with_info(3, 2, GRAYSCALE);
    for y in 0..2 {
        for x in 0..3 {
            assert!(img.set(x, y, TGAColor::grayscale((10 * y + x) as u8)));
        }
    }
    assert_eq!(img.buffer().as_slice(), &[0, 1, 2, 10, 11, 12]);
    assert_eq!(img.flip_vertically(), Ok(()));
    assert_eq!(img.buffer().as_slice(), &[10, 11, 12, 0, 1, 2]);
    assert_eq!(img.flip_horizontally(), Ok(()));
    assert_eq!(img.buffer().as_slice(), &[12, 11, 10, 2, 1, 0]);
}

#[test]
fn flip_vertically_odd_height_keeps_middle_row() {
    let mut img = TGAImage::with_info(1, 3, RGB);
    assert!(img.set(0, 0, rgb(1, 1, 1)));
    assert!(img.set(0, 1, rgb(2, 2, 2)));
    assert!(img.set(0, 2, rgb(3, 3, 3)));
    img.flip_vertically().unwrap();
    assert_eq!(img.buffer().as_slice(), &[3, 3, 3, 2, 2, 2, 1, 1, 1]);
}

#[test]
fn rle_of_a_run_and_of_raw_pixels() {
    let black = TGAImage::with_info(2, 2, RGB);
    // four equal pixels: one run packet, 127 + 4, then the pixel
    assert_eq!(black.unload_rle_data(), vec![131, 0, 0, 0]);
    let mut mixed = TGAImage::with_info(3, 1, GRAYSCALE);
    mixed.set(0, 0, TGAColor::grayscale(1));
    mixed.set(1, 0, TGAColor::grayscale(2));
    mixed.set(2, 0, TGAColor::grayscale(2));
    // one raw pixel, then a run of two
    assert_eq!(mixed.unload_rle_data(), vec![0, 1, 129, 2]);
    let mut varied = TGAImage::with_info(3, 1, GRAYSCALE);
    varied.set(0, 0, TGAColor::grayscale(1));
    varied.set(1, 0, TGAColor::grayscale(2));
    varied.set(2, 0, TGAColor::grayscale(3));
    assert_eq!(varied.unload_rle_data(), vec![2, 1, 2, 3]);
}

#[test]
fn rle_packets_are_at_most_128_pixels() {
    let img = TGAImage::with_info(130, 1, GRAYSCALE);
    assert_eq!(img.unload_rle_data(), vec![255, 0, 129, 0]);
}

#[test]
fn load_rle_data_decodes_and_refuses() {
    let mut img = TGAImage::with_info(3, 1, GRAYSCALE);
    assert_eq!(img.load_rle_data(&[0, 7, 129, 9, 42]), Some(3));
    assert_eq!(img.buffer().as_slice(), &[7, 9, 9]);
    // a run of four where three pixels are left
    assert_eq!(img.load_rle_data(&[131, 5]), None);
    assert_eq!(img.buffer().as_slice(), &[7, 9, 9]);
    // the data ends early
    assert_eq!(img.load_rle_data(&[2, 1, 2]), None);
}

#[test]
fn header_bytes_and_back() {
    let mut h = TGAHeader::new();
    h.datatypecode = 10;
    h.width = 0x0203;
    h.height = 800;
    h.bitsperpixel = 24;
    h.imagedescriptor = 0x20;
    let b = h.to_bytes();
    assert_eq!(b.len(), 18);
    assert_eq!(&b[12..16], &[0x03, 0x02, 0x20, 0x03]);
    assert_eq!(read_header(&b), Ok(h));
    assert_eq!(read_header(&b[..17]), Err(TgaError::Truncated));
    let mut bad = b.clone();
    bad[5] = 1; // a color-map length without a color map
    assert_eq!(read_header(&bad), Err(TgaError::CorruptHeader));
}

#[test]
fn two_by_two_black_round_trip_with_rle() {
    let img = TGAImage::with_info(2, 2, RGB);
    assert!(WRITE_RLE_FILE);
    let bytes = img.to_tga_bytes(WRITE_RLE_FILE).unwrap();
    assert_eq!(bytes.len(), 18 + 4 + 26);
    assert_eq!(bytes[2], 10);
    assert_eq!(&bytes[bytes.len() - 18..], b"TRUEVISION-XFILE.\0");
    let back = TGAImage::from_tga_bytes(&bytes).unwrap();
    assert_eq!((back.get_width(), back.get_height(), back.get_bytespp()), (2, 2, 3));
    assert_eq!(back.buffer(), img.buffer());
}

#[test]
fn round_trip_raw_and_rle_keeps_every_pixel() {
    let mut img = TGAImage::with_info(5, 3, RGBA);
    for y in 0..3 {
        for x in 0..5 {
            let v = if x < 3 { 9 } else { (x * 7 + y) as u8 };
            img.set(x, y, TGAColor::with_color(RGBAColor(v, v / 2, 200, 255)));
        }
    }
    for rle in [false, true] {
        let bytes = img.to_tga_bytes(rle).unwrap();
        let back = TGAImage::from_tga_bytes(&bytes).unwrap();
        assert_eq!(back.buffer(), img.buffer());
        assert_eq!(back.get_bytespp(), 4);
    }
    let gray = TGAImage::with_info(4, 4, GRAYSCALE);
    let bytes = gray.to_tga_bytes(false).unwrap();
    assert_eq!(bytes[2], 3);
    assert_eq!(bytes.len(), 18 + 16 + 26);
}

#[test]
fn reading_turns_bottom_up_files_upright() {
    let mut img = TGAImage::with_info(1, 2, GRAYSCALE);
    img.set(0, 0, TGAColor::grayscale(1));
    img.set(0, 1, TGAColor::grayscale(2));
    let mut bytes = img.to_tga_bytes(false).unwrap();
    bytes[17] = 0; // bottom-left origin
    let back = TGAImage::from_tga_bytes(&bytes).unwrap();
    assert_eq!(back.buffer().as_slice(), &[2, 1]);
    bytes[17] = 0x30; // top-right origin
    let mut wide = TGAImage::with_info(2, 1, GRAYSCALE);
    wide.set(0, 0, TGAColor::grayscale(1));
    wide.set(1, 0, TGAColor::grayscale(2));
    let mut wb = wide.to_tga_bytes(false).unwrap();
    wb[17] = 0x30;
    let back = TGAImage::from_tga_bytes(&wb).unwrap();
    assert_eq!(back.buffer().as_slice(), &[2, 1]);
}

#[test]
fn reading_refuses_bad_files() {
    let img = TGAImage::with_info(2, 1, RGB);
    let good = img.to_tga_bytes(false).unwrap();
    assert_eq!(TGAImage::from_tga_bytes(&good[..10]).err(), Some(TgaError::Truncated));
    assert_eq!(TGAImage::from_tga_bytes(&good[..20]).err(), Some(TgaError::Truncated));
    let mut b = good.clone();
    b[16] = 16;
    assert_eq!(TGAImage::from_tga_bytes(&b).err(), Some(TgaError::BadBitsPerPixel));
    let mut b = good.clone();
    b[2] = 1;
    assert_eq!(TGAImage::from_tga_bytes(&b).err(), Some(TgaError::UnknownDataType));
    let mut b = good.clone();
    b[7] = 8;
    assert_eq!(TGAImage::from_tga_bytes(&b).err(), Some(TgaError::CorruptHeader));
    let mut b = good[..18].to_vec();
    b[2] = 10;
    b.extend_from_slice(&[130, 1, 2, 3]);
    assert_eq!(TGAImage::from_tga_bytes(&b).err(), Some(TgaError::BadRleData));
}

#[test]
fn writing_refuses_images_too_wide_for_the_header() {
    let img = TGAImage::with_info(65536, 1, GRAYSCALE);
    assert_eq!(img.to_tga_bytes(false).err(), Some(TgaError::TooLarge));
}

#[test]
fn two_by_two_black_rle_file_bytes() {
    let img = TGAImage::with_info(2, 2, RGB);
    let bytes = img.to_tga_bytes(true).unwrap();
    let mut expected = vec![0u8, 0, 10, 0, 0, 0, 0, 0, 0, 0, 0, 0, 2, 0, 2, 0, 24, 0x20];
    expected.extend_from_slice(&[131, 0, 0, 0]);
    expected.extend_from_slice(&[0u8; 8]);
    expected.extend_from_slice(b"TRUEVISION-XFILE.\0");
    assert_eq!(bytes, expected);
}

#[test]
fn rle_raw_packet_stops_before_a_run() {
    let mut img = TGAImage::with_info(5, 1, GRAYSCALE);
    for (x, v) in [1u8, 2, 3, 3, 3].iter().enumerate() {
        img.set(x as i32, 0, TGAColor::grayscale(*v));
    }
    // raw packet of two pixels, then a run of three
    assert_eq!(img.unload_rle_data(), vec![1, 1, 2, 130, 3]);
}
