//! Colors as grey, RGB or RGBA channel values, addressed in B, G, R, A order.
use vstd::prelude::*;
use crate::base::{le_bytes_u32, u32_to_le};

verus! {

/// A color value of one of the supported pixel layouts.
#[derive(Debug, Clone, Copy, PartialEq, Eq)]
pub enum ColorType {
    GRAY(u8),
    RGB(u8, u8, u8),
    RGBA(u8, u8, u8, u8),
    VALUE(u32),
    NONE,
}

impl ColorType {
    /// The channels in memory order: blue, green, red, alpha.
    pub open spec fn channels(&self) -> Seq<u8> {
        match *self {
            ColorType::GRAY(g) => seq![g],
            ColorType::RGB(r, g, b) => seq![b, g, r],
            ColorType::RGBA(r, g, b, a) => seq![b, g, r, a],
            _ => seq![],
        }
    }

    /// The packed value: blue in the top byte, then green, red and alpha.
    pub open spec fn spec_bgra_value(&self) -> u32 {
        match *self {
            ColorType::GRAY(g) => g as u32,
            ColorType::RGB(r, g, b) => (b * 0x100_0000 + g * 0x1_0000 + r * 0x100) as u32,
            ColorType::RGBA(r, g, b, a) => (b * 0x100_0000 + g * 0x1_0000 + r * 0x100 + a) as u32,
            ColorType::VALUE(v) => v,
            ColorType::NONE => 0,
        }
    }

    pub fn get_bgra_value(&self) -> (r: u32)
        ensures
            r == self.spec_bgra_value(),
    {
        match *self {
            ColorType::GRAY(g) => g as u32,
            ColorType::RGB(r, g, b) => b as u32 * 0x100_0000 + g as u32 * 0x1_0000 + r as u32 * 0x100,
            ColorType::RGBA(r, g, b, a) => b as u32 * 0x100_0000 + g as u32 * 0x1_0000 + r as u32
                * 0x100 + a as u32,
            ColorType::NONE => 0,
            ColorType::VALUE(v) => v,
        }
    }

    /// The number of channels.
    pub fn nbytes(&self) -> (r: usize)
        ensures
            r == self.channels().len(),
    {
        match *self {
            ColorType::NONE => 0,
            ColorType::GRAY(_) => 1,
            ColorType::RGB(..) => 3,
            ColorType::RGBA(..) => 4,
            _ => 0,
        }
    }

    /// Channel `idx` (0 is blue, 1 green, 2 red, 3 alpha).
    pub fn channel(&self, idx: usize) -> (r: u8)
        requires
            idx < self.channels().len(),
        ensures
            r == self.channels()[idx as int],
    {
        match *self {
            ColorType::GRAY(g) => g,
            ColorType::RGB(r, g, b) => if idx == 0 {
                b
            } else if idx == 1 {
                g
            } else {
                r
            },
            ColorType::RGBA(r, g, b, a) => if idx == 0 {
                b
            } else if idx == 1 {
                g
            } else if idx == 2 {
                r
            } else {
                a
            },
            _ => 0,
        }
    }

    /// Replaces channel `idx` (0 is blue, 1 green, 2 red, 3 alpha).
    pub fn set_channel(&mut self, idx: usize, v: u8)
        requires
            idx < old(self).channels().len(),
        ensures
            final(self).channels() == old(self).channels().update(idx as int, v),
            final(self).channels().len() == old(self).channels().len(),
    {
        let cur = *self;
        *self = match cur {
            ColorType::GRAY(_) => ColorType::GRAY(v),
            ColorType::RGB(r, g, b) => if idx == 0 {
                ColorType::RGB(r, g, v)
            } else if idx == 1 {
                ColorType::RGB(r, v, b)
            } else {
                ColorType::RGB(v, g, b)
            },
            ColorType::RGBA(r, g, b, a) => if idx == 0 {
                ColorType::RGBA(r, g, v, a)
            } else if idx == 1 {
                ColorType::RGBA(r, v, b, a)
            } else if idx == 2 {
                ColorType::RGBA(v, g, b, a)
            } else {
                ColorType::RGBA(r, g, b, v)
            },
            other => other,
        };
        assert(self.channels() =~= old(self).channels().update(idx as int, v));
    }
}

/// A color of any of the layouts of `ColorType`.
#[derive(Debug, Clone, Copy)]
pub struct Color {
    color: ColorType,
}

impl View for Color {
    type V = ColorType;

    closed spec fn view(&self) -> ColorType {
        self.color
    }
}

impl Color {
    /// A color without channels.
    pub fn new() -> (r: Color)
        ensures
            r@ == ColorType::NONE,
    {
        Color { color: ColorType::NONE }
    }

    pub fn with_color(color: ColorType) -> (r: Color)
        ensures
            r@ == color,
    {
        Color { color }
    }

    pub fn grayscale(gray: u8) -> (r: Color)
        ensures
            r@ == ColorType::GRAY(gray),
    {
        Color { color: ColorType::GRAY(gray) }
    }

    /// The packed value of the color (see `ColorType::get_bgra_value`).
    pub fn val(&self) -> (r: u32)
        ensures
            r == self@.spec_bgra_value(),
    {
        self.color.get_bgra_value()
    }

    /// The bytes of the packed value, least significant first.
    pub fn raw(&self) -> (r: [u8; 4])
        ensures
            r@ == le_bytes_u32(self@.spec_bgra_value()),
    {
        u32_to_le(self.color.get_bgra_value())
    }

    /// The number of channels.
    pub fn nbytes(&self) -> (r: usize)
        ensures
            r == self@.channels().len(),
    {
        self.color.nbytes()
    }

    /// Channel `idx` (0 is blue, 1 green, 2 red, 3 alpha).
    pub fn channel(&self, idx: usize) -> (r: u8)
        requires
            idx < self@.channels().len(),
        ensures
            r == self@.channels()[idx as int],
    {
        self.color.channel(idx)
    }

    /// Replaces channel `idx` (0 is blue, 1 green, 2 red, 3 alpha).
    pub fn set_channel(&mut self, idx: usize, v: u8)
        requires
            idx < old(self)@.channels().len(),
        ensures
            final(self)@.channels() == old(self)@.channels().update(idx as int, v),
            final(self)@.channels().len() == old(self)@.channels().len(),
    {
        self.color.set_channel(idx, v);
    }

    /// Takes the channels from the bytes of `val`, least significant first:
    /// one grey channel for 1, blue, green and red for 3, and those with
    /// alpha for 4. Other widths leave the color as it is.
    pub fn set_val(&mut self, val: u32, bytespp: i32)
        ensures
            bytespp == 1 ==> final(self)@ == ColorType::GRAY(le_bytes_u32(val)[0]),
            bytespp == 3 ==> final(self)@ == ColorType::RGB(
                le_bytes_u32(val)[2],
                le_bytes_u32(val)[1],
                le_bytes_u32(val)[0],
            ),
            bytespp == 4 ==> final(self)@ == ColorType::RGBA(
                le_bytes_u32(val)[2],
                le_bytes_u32(val)[1],
                le_bytes_u32(val)[0],
                le_bytes_u32(val)[3],
            ),
            bytespp != 1 && bytespp != 3 && bytespp != 4 ==> final(self)@ == old(self)@,
    {
        let tmp = u32_to_le(val);
        match bytespp {
            1 => self.color = ColorType::GRAY(tmp[0]),
            3 => self.color = ColorType::RGB(tmp[2], tmp[1], tmp[0]),
            4 => self.color = ColorType::RGBA(tmp[2], tmp[1], tmp[0], tmp[3]),
            _ => {},
        }
    }
}

} // verus!
