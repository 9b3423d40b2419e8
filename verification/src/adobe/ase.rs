//! The Adobe Swatch Exchange format: its values and their encoding to bytes.
//!
//! Every value has a byte view, the sequence `bytes()`, and three ways to
//! read it: `byte_at` for one position, `byte_size` for the length and
//! `to_bytes` for the whole. All numbers are big-endian. A color channel is
//! held as the bit pattern of an IEEE 754 single-precision number, which is
//! what the format stores.
//!
//! See also this [reference](http://www.selapa.net/swatches/colors/fileformats.php#adobe_ase)
pub mod parsers;

use vstd::prelude::*;
use vstd::utf8::encode_utf8;

verus! {

/// The byte at `index` of `bytes`, if there is one.
pub open spec fn byte_in(bytes: Seq<u8>, index: int) -> Option<u8> {
    if 0 <= index < bytes.len() {
        Some(bytes[index])
    } else {
        None
    }
}

/// The two bytes of `value`, most significant first.
pub open spec fn be_u16_bytes(value: u16) -> Seq<u8> {
    seq![(value / 0x100) as u8, (value % 0x100) as u8]
}

/// The four bytes of `value`, most significant first.
pub open spec fn be_u32_bytes(value: u32) -> Seq<u8> {
    seq![
        (value / 0x100_0000) as u8,
        (value / 0x1_0000 % 0x100) as u8,
        (value / 0x100 % 0x100) as u8,
        (value % 0x100) as u8,
    ]
}

/// `count` as the format stores a count: in 32 bits, the higher bits dropped.
pub open spec fn count_u32(count: nat) -> u32 {
    (count % 0x1_0000_0000) as u32
}

fn be_u16_byte(value: u16, index: usize) -> (byte: Option<u8>)
    ensures
        byte == byte_in(be_u16_bytes(value), index as int),
{
    if index == 0 {
        Some((value / 0x100) as u8)
    } else if index == 1 {
        Some((value % 0x100) as u8)
    } else {
        None
    }
}

fn be_u32_byte(value: u32, index: usize) -> (byte: Option<u8>)
    ensures
        byte == byte_in(be_u32_bytes(value), index as int),
{
    if index == 0 {
        Some((value / 0x100_0000) as u8)
    } else if index == 1 {
        Some((value / 0x1_0000 % 0x100) as u8)
    } else if index == 2 {
        Some((value / 0x100 % 0x100) as u8)
    } else if index == 3 {
        Some((value % 0x100) as u8)
    } else {
        None
    }
}

fn push_be_u16(out: &mut Vec<u8>, value: u16)
    ensures
        final(out)@ == old(out)@ + be_u16_bytes(value),
{
    out.push((value / 0x100) as u8);
    out.push((value % 0x100) as u8);
    assert(out@ =~= old(out)@ + be_u16_bytes(value));
}

fn push_be_u32(out: &mut Vec<u8>, value: u32)
    ensures
        final(out)@ == old(out)@ + be_u32_bytes(value),
{
    out.push((value / 0x100_0000) as u8);
    out.push((value / 0x1_0000 % 0x100) as u8);
    out.push((value / 0x100 % 0x100) as u8);
    out.push((value % 0x100) as u8);
    assert(out@ =~= old(out)@ + be_u32_bytes(value));
}

fn count_as_u32(count: usize) -> (stored: u32)
    ensures
        stored == count_u32(count as nat),
{
    let wide: u64 = count as u64;
    (wide % 0x1_0000_0000) as u32
}

/// The version of the format that a file follows.
#[derive(Debug, PartialEq, Eq, Clone, Copy)]
pub struct Version {
    /// The major number.
    pub major: u16,
    /// The minor number.
    pub minor: u16,
}

impl Version {
    /// The version `major`.`minor`.
    pub fn new(major: u16, minor: u16) -> (version: Self)
        ensures
            version == (Version { major, minor }),
    {
        Self { major, minor }
    }

    /// The major number, then the minor one.
    pub open spec fn bytes(&self) -> Seq<u8> {
        be_u16_bytes(self.major) + be_u16_bytes(self.minor)
    }

    /// The byte at `index` of the byte view, or `None` behind its end.
    pub fn byte_at(&self, index: usize) -> (byte: Option<u8>)
        ensures
            byte == byte_in(self.bytes(), index as int),
    {
        if index < 2 {
            be_u16_byte(self.major, index)
        } else {
            be_u16_byte(self.minor, index - 2)
        }
    }

    /// The length of the byte view.
    pub fn byte_size(&self) -> (size: usize)
        ensures
            size == self.bytes().len(),
            size == 4,
    {
        4
    }

    /// The byte view, written out.
    pub fn to_bytes(&self) -> (bytes: Vec<u8>)
        ensures
            bytes@ == self.bytes(),
    {
        let mut bytes: Vec<u8> = Vec::new();
        self.append_to(&mut bytes);
        bytes
    }

    fn append_to(&self, out: &mut Vec<u8>)
        ensures
            final(out)@ == old(out)@ + self.bytes(),
    {
        push_be_u16(out, self.major);
        push_be_u16(out, self.minor);
        assert(out@ =~= old(out)@ + self.bytes());
    }
}

/// A color of the CMYK model. Each channel is the bit pattern of a
/// single-precision number.
#[derive(Debug, PartialEq, Eq, Clone, Copy)]
pub struct Cmyk {
    /// The bit pattern of the cyan channel.
    pub cyan: u32,
    /// The bit pattern of the magenta channel.
    pub magenta: u32,
    /// The bit pattern of the yellow channel.
    pub yellow: u32,
    /// The bit pattern of the key channel.
    pub key: u32,
}

impl Cmyk {
    /// The color with these channels, each given by its bit pattern.
    pub fn new(cyan: u32, magenta: u32, yellow: u32, key: u32) -> (color: Self)
        ensures
            color == (Cmyk { cyan, magenta, yellow, key }),
    {
        Self { cyan, magenta, yellow, key }
    }

    /// Cyan, magenta, yellow and key, in this order.
    pub open spec fn bytes(&self) -> Seq<u8> {
        be_u32_bytes(self.cyan) + be_u32_bytes(self.magenta) + be_u32_bytes(self.yellow)
            + be_u32_bytes(self.key)
    }

    /// The byte at `index` of the byte view, or `None` behind its end.
    pub fn byte_at(&self, index: usize) -> (byte: Option<u8>)
        ensures
            byte == byte_in(self.bytes(), index as int),
    {
        if index < 4 {
            be_u32_byte(self.cyan, index)
        } else if index < 8 {
            be_u32_byte(self.magenta, index - 4)
        } else if index < 12 {
            be_u32_byte(self.yellow, index - 8)
        } else {
            be_u32_byte(self.key, index - 12)
        }
    }

    /// The length of the byte view.
    pub fn byte_size(&self) -> (size: usize)
        ensures
            size == self.bytes().len(),
            size == 16,
    {
        16
    }

    /// The byte view, written out.
    pub fn to_bytes(&self) -> (bytes: Vec<u8>)
        ensures
            bytes@ == self.bytes(),
    {
        let mut bytes: Vec<u8> = Vec::new();
        self.append_to(&mut bytes);
        bytes
    }

    fn append_to(&self, out: &mut Vec<u8>)
        ensures
            final(out)@ == old(out)@ + self.bytes(),
    {
        push_be_u32(out, self.cyan);
        push_be_u32(out, self.magenta);
        push_be_u32(out, self.yellow);
        push_be_u32(out, self.key);
        assert(out@ =~= old(out)@ + self.bytes());
    }
}

/// A color of the RGB model. Each channel is the bit pattern of a
/// single-precision number.
#[derive(Debug, PartialEq, Eq, Clone, Copy)]
pub struct Rgb {
    /// The bit pattern of the red channel.
    pub red: u32,
    /// The bit pattern of the green channel.
    pub green: u32,
    /// The bit pattern of the blue channel.
    pub blue: u32,
}

impl Rgb {
    /// The color with these channels, each given by its bit pattern.
    pub fn new(red: u32, green: u32, blue: u32) -> (color: Self)
        ensures
            color == (Rgb { red, green, blue }),
    {
        Self { red, green, blue }
    }

    /// Red, green and blue, in this order.
    pub open spec fn bytes(&self) -> Seq<u8> {
        be_u32_bytes(self.red) + be_u32_bytes(self.green) + be_u32_bytes(self.blue)
    }

    /// The byte at `index` of the byte view, or `None` behind its end.
    pub fn byte_at(&self, index: usize) -> (byte: Option<u8>)
        ensures
            byte == byte_in(self.bytes(), index as int),
    {
        if index < 4 {
            be_u32_byte(self.red, index)
        } else if index < 8 {
            be_u32_byte(self.green, index - 4)
        } else {
            be_u32_byte(self.blue, index - 8)
        }
    }

    /// The length of the byte view.
    pub fn byte_size(&self) -> (size: usize)
        ensures
            size == self.bytes().len(),
            size == 12,
    {
        12
    }

    /// The byte view, written out.
    pub fn to_bytes(&self) -> (bytes: Vec<u8>)
        ensures
            bytes@ == self.bytes(),
    {
        let mut bytes: Vec<u8> = Vec::new();
        self.append_to(&mut bytes);
        bytes
    }

    fn append_to(&self, out: &mut Vec<u8>)
        ensures
            final(out)@ == old(out)@ + self.bytes(),
    {
        push_be_u32(out, self.red);
        push_be_u32(out, self.green);
        push_be_u32(out, self.blue);
        assert(out@ =~= old(out)@ + self.bytes());
    }
}

/// A color of the CIE L*a*b* model. Each channel is the bit pattern of a
/// single-precision number.
#[derive(Debug, PartialEq, Eq, Clone, Copy)]
pub struct Lab {
    /// The bit pattern of the lightness.
    pub l: u32,
    /// The bit pattern of the position between green and red.
    pub a: u32,
    /// The bit pattern of the position between blue and yellow.
    pub b: u32,
}

impl Lab {
    /// The color with these channels, each given by its bit pattern.
    pub fn new(l: u32, a: u32, b: u32) -> (color: Self)
        ensures
            color == (Lab { l, a, b }),
    {
        Self { l, a, b }
    }

    /// L, a and b, in this order.
    pub open spec fn bytes(&self) -> Seq<u8> {
        be_u32_bytes(self.l) + be_u32_bytes(self.a) + be_u32_bytes(self.b)
    }

    /// The byte at `index` of the byte view, or `None` behind its end.
    pub fn byte_at(&self, index: usize) -> (byte: Option<u8>)
        ensures
            byte == byte_in(self.bytes(), index as int),
    {
        if index < 4 {
            be_u32_byte(self.l, index)
        } else if index < 8 {
            be_u32_byte(self.a, index - 4)
        } else {
            be_u32_byte(self.b, index - 8)
        }
    }

    /// The length of the byte view.
    pub fn byte_size(&self) -> (size: usize)
        ensures
            size == self.bytes().len(),
            size == 12,
    {
        12
    }

    /// The byte view, written out.
    pub fn to_bytes(&self) -> (bytes: Vec<u8>)
        ensures
            bytes@ == self.bytes(),
    {
        let mut bytes: Vec<u8> = Vec::new();
        self.append_to(&mut bytes);
        bytes
    }

    fn append_to(&self, out: &mut Vec<u8>)
        ensures
            final(out)@ == old(out)@ + self.bytes(),
    {
        push_be_u32(out, self.l);
        push_be_u32(out, self.a);
        push_be_u32(out, self.b);
        assert(out@ =~= old(out)@ + self.bytes());
    }
}

/// A shade of grey, as the bit pattern of a single-precision number.
#[derive(Debug, PartialEq, Eq, Clone, Copy)]
pub struct Grey {
    /// The bit pattern of the one channel.
    pub grey: u32,
}

impl Grey {
    /// The shade with this channel, given by its bit pattern.
    pub fn new(grey: u32) -> (color: Self)
        ensures
            color == (Grey { grey }),
    {
        Self { grey }
    }

    pub open spec fn bytes(&self) -> Seq<u8> {
        be_u32_bytes(self.grey)
    }

    /// The byte at `index` of the byte view, or `None` behind its end.
    pub fn byte_at(&self, index: usize) -> (byte: Option<u8>)
        ensures
            byte == byte_in(self.bytes(), index as int),
    {
        be_u32_byte(self.grey, index)
    }

    /// The length of the byte view.
    pub fn byte_size(&self) -> (size: usize)
        ensures
            size == self.bytes().len(),
            size == 4,
    {
        4
    }

    /// The byte view, written out.
    pub fn to_bytes(&self) -> (bytes: Vec<u8>)
        ensures
            bytes@ == self.bytes(),
    {
        let mut bytes: Vec<u8> = Vec::new();
        self.append_to(&mut bytes);
        bytes
    }

    fn append_to(&self, out: &mut Vec<u8>)
        ensures
            final(out)@ == old(out)@ + self.bytes(),
    {
        push_be_u32(out, self.grey);
    }
}

/// The tag of the CMYK model: `CMYK`.
pub open spec fn tag_cmyk() -> Seq<u8> {
    seq![0x43u8, 0x4Du8, 0x59u8, 0x4Bu8]
}

/// The tag of the RGB model: `RGB` and a zero byte.
pub open spec fn tag_rgb() -> Seq<u8> {
    seq![0x52u8, 0x47u8, 0x42u8, 0x00u8]
}

/// The tag of the L*a*b* model: `LAB` and a zero byte.
pub open spec fn tag_lab() -> Seq<u8> {
    seq![0x4Cu8, 0x41u8, 0x42u8, 0x00u8]
}

/// The tag of the grey model: `GREY`.
pub open spec fn tag_grey() -> Seq<u8> {
    seq![0x47u8, 0x52u8, 0x45u8, 0x59u8]
}

/// A color together with the model it belongs to.
#[derive(Debug, PartialEq, Eq, Clone, Copy)]
pub enum ColorModel {
    /// Cyan, magenta, yellow and key.
    CMYK(Cmyk),
    /// Red, green and blue.
    RGB(Rgb),
    /// CIE L*a*b*.
    LAB(Lab),
    /// Grey.
    GREY(Grey),
}

impl ColorModel {
    /// The four bytes that name the model.
    pub open spec fn tag(&self) -> Seq<u8> {
        match self {
            ColorModel::CMYK(_) => tag_cmyk(),
            ColorModel::RGB(_) => tag_rgb(),
            ColorModel::LAB(_) => tag_lab(),
            ColorModel::GREY(_) => tag_grey(),
        }
    }

    /// The channels of the color, as its model lays them out.
    pub open spec fn channels(&self) -> Seq<u8> {
        match self {
            ColorModel::CMYK(color) => color.bytes(),
            ColorModel::RGB(color) => color.bytes(),
            ColorModel::LAB(color) => color.bytes(),
            ColorModel::GREY(color) => color.bytes(),
        }
    }

    /// The model's tag, then the channels.
    pub open spec fn bytes(&self) -> Seq<u8> {
        self.tag() + self.channels()
    }

    fn tag_byte(&self, index: usize) -> (byte: u8)
        requires
            index < 4,
        ensures
            byte == self.tag()[index as int],
    {
        match self {
            ColorModel::CMYK(_) => if index == 0 {
                0x43
            } else if index == 1 {
                0x4D
            } else if index == 2 {
                0x59
            } else {
                0x4B
            },
            ColorModel::RGB(_) => if index == 0 {
                0x52
            } else if index == 1 {
                0x47
            } else if index == 2 {
                0x42
            } else {
                0x00
            },
            ColorModel::LAB(_) => if index == 0 {
                0x4C
            } else if index == 1 {
                0x41
            } else if index == 2 {
                0x42
            } else {
                0x00
            },
            ColorModel::GREY(_) => if index == 0 {
                0x47
            } else if index == 1 {
                0x52
            } else if index == 2 {
                0x45
            } else {
                0x59
            },
        }
    }

    /// The byte at `index` of the byte view, or `None` behind its end.
    pub fn byte_at(&self, index: usize) -> (byte: Option<u8>)
        ensures
            byte == byte_in(self.bytes(), index as int),
    {
        if index < 4 {
            Some(self.tag_byte(index))
        } else {
            match self {
                ColorModel::CMYK(color) => color.byte_at(index - 4),
                ColorModel::RGB(color) => color.byte_at(index - 4),
                ColorModel::LAB(color) => color.byte_at(index - 4),
                ColorModel::GREY(color) => color.byte_at(index - 4),
            }
        }
    }

    /// The length of the byte view.
    pub fn byte_size(&self) -> (size: usize)
        ensures
            size == self.bytes().len(),
            size <= 20,
    {
        match self {
            ColorModel::CMYK(color) => 4 + color.byte_size(),
            ColorModel::RGB(color) => 4 + color.byte_size(),
            ColorModel::LAB(color) => 4 + color.byte_size(),
            ColorModel::GREY(color) => 4 + color.byte_size(),
        }
    }

    /// The byte view, written out.
    pub fn to_bytes(&self) -> (bytes: Vec<u8>)
        ensures
            bytes@ == self.bytes(),
    {
        let mut bytes: Vec<u8> = Vec::new();
        self.append_to(&mut bytes);
        bytes
    }

    fn append_to(&self, out: &mut Vec<u8>)
        ensures
            final(out)@ == old(out)@ + self.bytes(),
    {
        out.push(self.tag_byte(0));
        out.push(self.tag_byte(1));
        out.push(self.tag_byte(2));
        out.push(self.tag_byte(3));
        assert(out@ =~= old(out)@ + self.tag());
        match self {
            ColorModel::CMYK(color) => color.append_to(out),
            ColorModel::RGB(color) => color.append_to(out),
            ColorModel::LAB(color) => color.append_to(out),
            ColorModel::GREY(color) => color.append_to(out),
        }
        assert(out@ =~= old(out)@ + self.bytes());
    }
}

/// How a color is meant to be used.
#[derive(Debug, PartialEq, Eq, Clone, Copy)]
pub enum ColorType {
    /// A global color.
    Global,
    /// A spot color.
    Spot,
    /// A normal color.
    Normal,
}

impl ColorType {
    /// The number that stands for the type in a file.
    pub open spec fn code(&self) -> u16 {
        match self {
            ColorType::Global => 0,
            ColorType::Spot => 1,
            ColorType::Normal => 2,
        }
    }

    pub open spec fn bytes(&self) -> Seq<u8> {
        be_u16_bytes(self.code())
    }

    fn number(&self) -> (code: u16)
        ensures
            code == self.code(),
    {
        match self {
            ColorType::Global => 0,
            ColorType::Spot => 1,
            ColorType::Normal => 2,
        }
    }

    /// The byte at `index` of the byte view, or `None` behind its end.
    pub fn byte_at(&self, index: usize) -> (byte: Option<u8>)
        ensures
            byte == byte_in(self.bytes(), index as int),
    {
        be_u16_byte(self.number(), index)
    }

    /// The length of the byte view.
    pub fn byte_size(&self) -> (size: usize)
        ensures
            size == self.bytes().len(),
            size == 2,
    {
        2
    }

    /// The byte view, written out.
    pub fn to_bytes(&self) -> (bytes: Vec<u8>)
        ensures
            bytes@ == self.bytes(),
    {
        let mut bytes: Vec<u8> = Vec::new();
        self.append_to(&mut bytes);
        bytes
    }

    fn append_to(&self, out: &mut Vec<u8>)
        ensures
            final(out)@ == old(out)@ + self.bytes(),
    {
        push_be_u16(out, self.number());
    }
}

/// What a block of a file holds.
#[derive(Debug, PartialEq, Eq, Clone, Copy)]
pub enum BlockType {
    /// The start of a group.
    GroupStart,
    /// The end of a group.
    GroupEnd,
    /// A color.
    ColorEntry,
}

impl BlockType {
    /// The number that stands for the type in a file.
    pub open spec fn code(&self) -> u16 {
        match self {
            BlockType::GroupStart => 0xc001,
            BlockType::GroupEnd => 0xc002,
            BlockType::ColorEntry => 0x0001,
        }
    }

    pub open spec fn bytes(&self) -> Seq<u8> {
        be_u16_bytes(self.code())
    }

    fn number(&self) -> (code: u16)
        ensures
            code == self.code(),
    {
        match self {
            BlockType::GroupStart => 0xc001,
            BlockType::GroupEnd => 0xc002,
            BlockType::ColorEntry => 0x0001,
        }
    }

    /// The byte at `index` of the byte view, or `None` behind its end.
    pub fn byte_at(&self, index: usize) -> (byte: Option<u8>)
        ensures
            byte == byte_in(self.bytes(), index as int),
    {
        be_u16_byte(self.number(), index)
    }

    /// The length of the byte view.
    pub fn byte_size(&self) -> (size: usize)
        ensures
            size == self.bytes().len(),
            size == 2,
    {
        2
    }

    /// The byte view, written out.
    pub fn to_bytes(&self) -> (bytes: Vec<u8>)
        ensures
            bytes@ == self.bytes(),
    {
        let mut bytes: Vec<u8> = Vec::new();
        self.append_to(&mut bytes);
        bytes
    }

    fn append_to(&self, out: &mut Vec<u8>)
        ensures
            final(out)@ == old(out)@ + self.bytes(),
    {
        push_be_u16(out, self.number());
    }
}

/// The length that a block states for itself: what follows its length field
/// up to the block's end, as far as the block's type has it. It is stored in
/// 32 bits.
pub open spec fn stated_length(block_type: BlockType, name_size: nat, color_model: ColorModel) -> u32 {
    match block_type {
        BlockType::GroupStart => count_u32(name_size + 2),
        BlockType::ColorEntry => count_u32(name_size + 2 + color_model.bytes().len() + 2),
        BlockType::GroupEnd => 0,
    }
}

/// One block of a file: the start or end of a group, or a color.
#[derive(Debug, PartialEq, Eq)]
pub struct Block {
    /// What the block holds.
    pub block_type: BlockType,
    /// The length that the block states for itself.
    pub length: u32,
    /// The name of the group or of the color.
    pub name: String,
    /// The color.
    pub color_model: ColorModel,
    /// How the color is meant to be used.
    pub color_type: ColorType,
}

impl Block {
    /// The name as it is written to a file, in UTF-8.
    pub open spec fn name_bytes(&self) -> Seq<u8> {
        encode_utf8(self.name@)
    }

    /// The block states the length that its contents give it.
    pub open spec fn well_formed(&self) -> bool {
        self.length == stated_length(self.block_type, self.name_bytes().len(), self.color_model)
    }

    /// A block with these contents, which states the length that they give it.
    pub fn new(block_type: BlockType, name: &str, color_model: ColorModel, color_type: ColorType) -> (block:
        Self)
        ensures
            block.block_type == block_type,
            block.name@ == name@,
            block.color_model == color_model,
            block.color_type == color_type,
            block.well_formed(),
    {
        let name_size: u128 = name.as_bytes().len() as u128;
        let length: u128 = match block_type {
            BlockType::GroupStart => name_size + 2,
            BlockType::ColorEntry => {
                name_size + 2 + color_model.byte_size() as u128 + color_type.byte_size() as u128
            },
            BlockType::GroupEnd => 0,
        };
        Self {
            block_type,
            length: (length % 0x1_0000_0000) as u32,
            name: name.to_owned(),
            color_model,
            color_type,
        }
    }

    /// The type, the stated length, the size of the name in 32 bits, the
    /// name, two zero bytes, the color and the color's type.
    pub open spec fn bytes(&self) -> Seq<u8> {
        self.block_type.bytes() + be_u32_bytes(self.length) + be_u32_bytes(
            count_u32(self.name_bytes().len()),
        ) + self.name_bytes() + seq![0u8, 0u8] + self.color_model.bytes() + self.color_type.bytes()
    }

    /// The byte at `index`, or by how much `index` lies behind the block.
    fn locate(&self, index: usize) -> (found: Result<u8, usize>)
        ensures
            match found {
                Ok(byte) => index < self.bytes().len() && byte == self.bytes()[index as int],
                Err(beyond) => beyond == index - self.bytes().len(),
            },
    {
        let name = self.name.as_str().as_bytes();
        if index < 2 {
            Ok(self.block_type.byte_at(index).unwrap())
        } else if index < 6 {
            Ok(be_u32_byte(self.length, index - 2).unwrap())
        } else if index < 10 {
            Ok(be_u32_byte(count_as_u32(name.len()), index - 6).unwrap())
        } else if index - 10 < name.len() {
            Ok(name[index - 10])
        } else {
            let behind_name = index - 10 - name.len();
            if behind_name < 2 {
                Ok(0)
            } else {
                let in_color = behind_name - 2;
                match self.color_model.byte_at(in_color) {
                    Some(byte) => Ok(byte),
                    None => {
                        let in_type = in_color - self.color_model.byte_size();
                        match self.color_type.byte_at(in_type) {
                            Some(byte) => Ok(byte),
                            None => Err(in_type - 2),
                        }
                    },
                }
            }
        }
    }

    /// The byte at `index` of the byte view, or `None` behind its end.
    pub fn byte_at(&self, index: usize) -> (byte: Option<u8>)
        ensures
            byte == byte_in(self.bytes(), index as int),
    {
        match self.locate(index) {
            Ok(byte) => Some(byte),
            Err(_) => None,
        }
    }

    /// The length of the byte view.
    pub fn byte_size(&self) -> (size: usize)
        requires
            self.bytes().len() <= usize::MAX,
        ensures
            size == self.bytes().len(),
    {
        let name = self.name.as_str().as_bytes();
        proof {
            self.lemma_size();
        }
        14 + name.len() + self.color_model.byte_size()
    }

    /// A block is fourteen bytes longer than its name and its color together.
    pub proof fn lemma_size(&self)
        ensures
            self.bytes().len() == 14 + self.name_bytes().len() + self.color_model.bytes().len(),
    {
        let head = self.block_type.bytes() + be_u32_bytes(self.length) + be_u32_bytes(
            count_u32(self.name_bytes().len()),
        );
        assert(head.len() == 10);
        let named = head + self.name_bytes() + seq![0u8, 0u8];
        assert(named.len() == 12 + self.name_bytes().len());
        assert(self.color_type.bytes().len() == 2);
        let colored = named + self.color_model.bytes();
        assert(colored.len() == named.len() + self.color_model.bytes().len());
        assert(self.bytes() == colored + self.color_type.bytes());
    }

    /// The byte view, written out.
    pub fn to_bytes(&self) -> (bytes: Vec<u8>)
        ensures
            bytes@ == self.bytes(),
    {
        let mut bytes: Vec<u8> = Vec::new();
        self.append_to(&mut bytes);
        bytes
    }

    fn append_to(&self, out: &mut Vec<u8>)
        ensures
            final(out)@ == old(out)@ + self.bytes(),
    {
        let name = self.name.as_str().as_bytes();
        self.block_type.append_to(out);
        push_be_u32(out, self.length);
        push_be_u32(out, count_as_u32(name.len()));
        let ghost head = out@;
        let mut index: usize = 0;
        while index < name.len()
            invariant
                index <= name.len(),
                out@ == head + name@.take(index as int),
            decreases name.len() - index,
        {
            out.push(name[index]);
            index += 1;
            assert(out@ =~= head + name@.take(index as int));
        }
        assert(name@.take(index as int) =~= name@);
        out.push(0);
        out.push(0);
        assert(out@ =~= head + self.name_bytes() + seq![0u8, 0u8]);
        self.color_model.append_to(out);
        self.color_type.append_to(out);
        assert(out@ =~= old(out)@ + self.bytes());
    }
}

/// The blocks of `blocks` as they stand in a file, one behind the other.
pub open spec fn blocks_bytes(blocks: Seq<Block>) -> Seq<u8>
    decreases blocks.len(),
{
    if blocks.len() == 0 {
        Seq::empty()
    } else {
        blocks_bytes(blocks.drop_last()) + blocks.last().bytes()
    }
}

/// The bytes of the first `count` blocks are where the bytes of all blocks
/// begin.
pub proof fn lemma_blocks_bytes_begin(blocks: Seq<Block>, count: int)
    requires
        0 <= count <= blocks.len(),
    ensures
        blocks_bytes(blocks.take(count)).len() <= blocks_bytes(blocks).len(),
        blocks_bytes(blocks).take(blocks_bytes(blocks.take(count)).len() as int) == blocks_bytes(
            blocks.take(count),
        ),
    decreases blocks.len(),
{
    if count == blocks.len() {
        assert(blocks.take(count) =~= blocks);
        assert(blocks_bytes(blocks).take(blocks_bytes(blocks).len() as int) =~= blocks_bytes(
            blocks,
        ));
    } else {
        let shorter = blocks.drop_last();
        lemma_blocks_bytes_begin(shorter, count);
        assert(shorter.take(count) =~= blocks.take(count));
        let begin = blocks_bytes(blocks.take(count));
        assert(blocks_bytes(blocks).take(begin.len() as int) =~= blocks_bytes(shorter).take(
            begin.len() as int,
        ));
    }
}

/// Where block `number` stands among the bytes of all blocks: right behind
/// the blocks before it.
pub proof fn lemma_block_among_blocks(blocks: Seq<Block>, number: int)
    requires
        0 <= number < blocks.len(),
    ensures
        ({
            let before = blocks_bytes(blocks.take(number)).len();
            let block = blocks[number].bytes();
            &&& blocks_bytes(blocks.take(number + 1)).len() == before + block.len()
            &&& before + block.len() <= blocks_bytes(blocks).len()
            &&& blocks_bytes(blocks).subrange(before as int, (before + block.len()) as int) == block
        }),
{
    let before = blocks_bytes(blocks.take(number));
    let through = blocks_bytes(blocks.take(number + 1));
    let block = blocks[number].bytes();
    lemma_blocks_bytes_begin(blocks, number + 1);
    assert(blocks.take(number + 1).drop_last() =~= blocks.take(number));
    assert(blocks.take(number + 1).last() == blocks[number]);
    assert(through == before + block);
    assert(blocks_bytes(blocks).subrange(before.len() as int, (before.len() + block.len()) as int)
        =~= blocks_bytes(blocks).take(through.len() as int).subrange(
        before.len() as int,
        (before.len() + block.len()) as int,
    ));
    assert(through.subrange(before.len() as int, (before.len() + block.len()) as int) =~= block);
}

/// A file: the version of the format and the blocks.
#[derive(Debug, PartialEq, Eq)]
pub struct AdobeSwatchExchange {
    /// The version of the format that the file follows.
    pub version: Version,
    /// The blocks, in the order of the file.
    pub blocks: Vec<Block>,
}

impl AdobeSwatchExchange {
    /// A file of this version with these blocks.
    pub fn new(version: Version, blocks: Vec<Block>) -> (file: Self)
        ensures
            file.version == version,
            file.blocks == blocks,
    {
        Self { version, blocks }
    }

    /// The four bytes that every file begins with: `ASEF`.
    pub open spec fn signature() -> Seq<u8> {
        seq![0x41u8, 0x53u8, 0x45u8, 0x46u8]
    }

    /// The signature, the version, the number of blocks in 32 bits and the
    /// blocks.
    pub open spec fn bytes(&self) -> Seq<u8> {
        Self::signature() + self.version.bytes() + be_u32_bytes(
            count_u32(self.blocks@.len()),
        ) + blocks_bytes(self.blocks@)
    }

    fn signature_byte(index: usize) -> (byte: u8)
        requires
            index < 4,
        ensures
            byte == Self::signature()[index as int],
    {
        if index == 0 {
            0x41
        } else if index == 1 {
            0x53
        } else if index == 2 {
            0x45
        } else {
            0x46
        }
    }

    /// The byte at `index` of the byte view, or `None` behind its end.
    pub fn byte_at(&self, index: usize) -> (byte: Option<u8>)
        ensures
            byte == byte_in(self.bytes(), index as int),
    {
        if index < 4 {
            Some(Self::signature_byte(index))
        } else if index < 8 {
            self.version.byte_at(index - 4)
        } else if index < 12 {
            be_u32_byte(count_as_u32(self.blocks.len()), index - 8)
        } else {
            let ghost all = blocks_bytes(self.blocks@);
            let ghost head = Self::signature() + self.version.bytes() + be_u32_bytes(
                count_u32(self.blocks@.len()),
            );
            assert(head.len() == 12);
            assert(byte_in(self.bytes(), index as int) == byte_in(all, index - 12)) by {
                assert(self.bytes() == head + all);
            }
            let mut within: usize = index - 12;
            let mut number: usize = 0;
            while number < self.blocks.len()
                invariant
                    number <= self.blocks.len(),
                    all == blocks_bytes(self.blocks@),
                    index - 12 == blocks_bytes(self.blocks@.take(number as int)).len() + within,
                decreases self.blocks.len() - number,
            {
                proof {
                    lemma_block_among_blocks(self.blocks@, number as int);
                }
                let ghost before = blocks_bytes(self.blocks@.take(number as int)).len();
                let ghost block = self.blocks@[number as int].bytes();
                match self.blocks[number].locate(within) {
                    Ok(byte) => {
                        assert(all.subrange(before as int, (before + block.len()) as int)[within as int]
                            == all[before + within]);
                        return Some(byte);
                    },
                    Err(beyond) => {
                        within = beyond;
                    },
                }
                number += 1;
            }
            proof {
                assert(self.blocks@.take(number as int) =~= self.blocks@);
            }
            None
        }
    }

    /// The length of the byte view.
    pub fn byte_size(&self) -> (size: usize)
        requires
            self.bytes().len() <= usize::MAX,
        ensures
            size == self.bytes().len(),
    {
        let mut size: usize = 12;
        let mut number: usize = 0;
        while number < self.blocks.len()
            invariant
                number <= self.blocks.len(),
                size == 12 + blocks_bytes(self.blocks@.take(number as int)).len(),
                12 + blocks_bytes(self.blocks@).len() <= usize::MAX,
            decreases self.blocks.len() - number,
        {
            proof {
                lemma_block_among_blocks(self.blocks@, number as int);
            }
            size += self.blocks[number].byte_size();
            number += 1;
        }
        proof {
            assert(self.blocks@.take(number as int) =~= self.blocks@);
        }
        size
    }

    /// The byte view, written out.
    pub fn to_bytes(&self) -> (bytes: Vec<u8>)
        ensures
            bytes@ == self.bytes(),
    {
        let mut bytes: Vec<u8> = Vec::new();
        bytes.push(Self::signature_byte(0));
        bytes.push(Self::signature_byte(1));
        bytes.push(Self::signature_byte(2));
        bytes.push(Self::signature_byte(3));
        assert(bytes@ =~= Self::signature());
        self.version.append_to(&mut bytes);
        push_be_u32(&mut bytes, count_as_u32(self.blocks.len()));
        let ghost head = bytes@;
        let mut number: usize = 0;
        while number < self.blocks.len()
            invariant
                number <= self.blocks.len(),
                bytes@ == head + blocks_bytes(self.blocks@.take(number as int)),
            decreases self.blocks.len() - number,
        {
            self.blocks[number].append_to(&mut bytes);
            proof {
                assert(self.blocks@.take(number as int + 1).drop_last() =~= self.blocks@.take(
                    number as int,
                ));
                assert(bytes@ =~= head + blocks_bytes(self.blocks@.take(number as int + 1)));
            }
            number += 1;
        }
        proof {
            assert(self.blocks@.take(number as int) =~= self.blocks@);
        }
        bytes
    }
}

} // verus!
