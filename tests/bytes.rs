use tinyrenderer::base::{
    i32_from_le, u16_from_be, u16_from_le, u16_to_le, u32_from_be, u32_from_le, u32_to_be, u32_to_le,
};
use tinyrenderer::color::{Color, ColorType};

#[test]
fn reads_and_writes_sixteen_bits() {
    assert_eq!(u16_from_be(&[0x12, 0x34]), 0x1234);
    assert_eq!(u16_from_le(&[0x12, 0x34]), 0x3412);
    assert_eq!(u16_to_le(0x1234), [0x34, 0x12]);
    assert_eq!(u16_from_le(&u16_to_le(800)), 800);
}

#[test]
fn reads_and_writes_thirty_two_bits() {
    let b = [0x01, 0x02, 0x03, 0x04, 0xff];
    assert_eq!(u32_from_be(&b), 0x0102_0304);
    assert_eq!(u32_from_le(&b[..4]), 0x0403_0201);
    assert_eq!(u32_from_le(&b[..3]), 0x03_0201);
    assert_eq!(u32_from_le(&b[..2]), 0x0201);
    assert_eq!(u32_from_le(&b[..1]), 0x01);
    assert_eq!(u32_from_le(&u32_to_le(0xdead_beef)), 0xdead_beef);
    assert_eq!(u32_to_be(0x0102_0304), [1, 2, 3, 4]);
    assert_eq!(u32_to_le(0x0102_0304), [4, 3, 2, 1]);
    assert_eq!(i32_from_le(&[0xff, 0xff, 0xff, 0xff]), -1);
    assert_eq!(i32_from_le(&[0x00, 0x00, 0x00, 0x80]), i32::MIN);
    assert_eq!(i32_from_le(&[0x2a, 0, 0, 0]), 42);
}

#[test]
fn color_type_packing() {
    let rgb = ColorType::RGB(1, 2, 3);
    assert_eq!(rgb.get_bgra_value(), 0x0302_0100);
    let rgba = ColorType::RGBA(1, 2, 3, 4);
    assert_eq!(rgba.get_bgra_value(), 0x0302_0104);
    assert_eq!(ColorType::GRAY(9).get_bgra_value(), 9);
    assert_eq!(ColorType::VALUE(77).get_bgra_value(), 77);
    assert_eq!(ColorType::NONE.get_bgra_value(), 0);
    assert_eq!(
        (rgb.nbytes(), rgba.nbytes(), ColorType::GRAY(0).nbytes(), ColorType::NONE.nbytes()),
        (3, 4, 1, 0)
    );
    assert_eq!((rgb.channel(0), rgb.channel(1), rgb.channel(2)), (3, 2, 1));
}

#[test]
fn color_channels_and_value() {
    let mut c = Color::with_color(ColorType::RGBA(10, 20, 30, 40));
    assert_eq!(c.nbytes(), 4);
    assert_eq!(c.val(), 0x1e14_0a28);
    assert_eq!(c.raw(), [0x28, 0x0a, 0x14, 0x1e]);
    c.set_channel(2, 99);
    assert_eq!(c.channel(2), 99);
    assert_eq!(Color::grayscale(5).val(), 5);
    assert_eq!(Color::new().nbytes(), 0);
}

#[test]
fn color_set_val_by_width() {
    let mut c = Color::new();
    c.set_val(0x0403_0201, 3);
    assert_eq!(c.val(), ColorType::RGB(3, 2, 1).get_bgra_value());
    c.set_val(0x0403_0201, 4);
    assert_eq!(c.val(), ColorType::RGBA(3, 2, 1, 4).get_bgra_value());
    c.set_val(0x0403_0201, 1);
    assert_eq!(c.val(), 1);
    c.set_val(0x0403_0201, 2);
    assert_eq!(c.val(), 1);
}
