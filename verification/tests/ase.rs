use preidolia::adobe::ase::{
    AdobeSwatchExchange, Block, BlockType, Cmyk, ColorModel, ColorType, Grey, Lab, Rgb, Version,
};

#[test]
fn version_as_bytes() {
    let version = Version::new(10, 1);
    let bytes: Vec<u8> = version.to_bytes();
    assert_eq!(vec![0x00u8, 0x0Au8, 0x00u8, 0x01u8], bytes)
}

#[test]
fn cmyk_as_bytes() {
    let c: f32 = 100.0;
    let m: f32 = 200.0;
    let y: f32 = 300.0;
    let k: f32 = 10.0;
    let mut expected: Vec<u8> = vec![];
    expected.extend(c.to_be_bytes().iter());
    expected.extend(m.to_be_bytes().iter());
    expected.extend(y.to_be_bytes().iter());
    expected.extend(k.to_be_bytes().iter());

    let cmyk = Cmyk::new(c.to_bits(), m.to_bits(), y.to_bits(), k.to_bits());
    let bytes: Vec<u8> = cmyk.to_bytes();

    assert_eq!(expected, bytes)
}

#[test]
fn rgb_as_bytes() {
    let r: f32 = 100.0;
    let g: f32 = 200.0;
    let b: f32 = 240.0;
    let mut expected: Vec<u8> = vec![];
    expected.extend(r.to_be_bytes().iter());
    expected.extend(g.to_be_bytes().iter());
    expected.extend(b.to_be_bytes().iter());

    let rgb = Rgb::new(r.to_bits(), g.to_bits(), b.to_bits());
    let bytes: Vec<u8> = rgb.to_bytes();

    assert_eq!(expected, bytes)
}

#[test]
fn lab_as_bytes() {
    let l: f32 = 100.0;
    let a: f32 = 200.0;
    let b: f32 = 240.0;
    let mut expected: Vec<u8> = vec![];
    expected.extend(l.to_be_bytes().iter());
    expected.extend(a.to_be_bytes().iter());
    expected.extend(b.to_be_bytes().iter());

    let lab = Lab::new(l.to_bits(), a.to_bits(), b.to_bits());
    let bytes: Vec<u8> = lab.to_bytes();

    assert_eq!(expected, bytes)
}

#[test]
fn grey_as_bytes() {
    let g: f32 = 100.0;
    let mut expected: Vec<u8> = vec![];
    expected.extend(g.to_be_bytes().iter());

    let grey = Grey::new(g.to_bits());
    let bytes: Vec<u8> = grey.to_bytes();

    assert_eq!(expected, bytes)
}

#[test]
fn colormodel_as_bytes() {
    {
        let c: f32 = 100.0;
        let m: f32 = 200.0;
        let y: f32 = 300.0;
        let k: f32 = 10.0;
        let mut expected: Vec<u8> = vec![b'C', b'M', b'Y', b'K'];
        expected.extend(c.to_be_bytes().iter());
        expected.extend(m.to_be_bytes().iter());
        expected.extend(y.to_be_bytes().iter());
        expected.extend(k.to_be_bytes().iter());

        let cmyk =
            ColorModel::CMYK(Cmyk::new(c.to_bits(), m.to_bits(), y.to_bits(), k.to_bits()));
        let bytes: Vec<u8> = cmyk.to_bytes();

        assert_eq!(expected, bytes)
    }
    {
        let r: f32 = 100.0;
        let g: f32 = 200.0;
        let b: f32 = 240.0;
        let mut expected: Vec<u8> = vec![b'R', b'G', b'B', b'\0'];
        expected.extend(r.to_be_bytes().iter());
        expected.extend(g.to_be_bytes().iter());
        expected.extend(b.to_be_bytes().iter());

        let rgb = ColorModel::RGB(Rgb::new(r.to_bits(), g.to_bits(), b.to_bits()));
        let bytes: Vec<u8> = rgb.to_bytes();

        assert_eq!(expected, bytes)
    }
    {
        let l: f32 = 100.0;
        let a: f32 = 200.0;
        let b: f32 = 240.0;
        let mut expected: Vec<u8> = vec![b'L', b'A', b'B', b'\0'];
        expected.extend(l.to_be_bytes().iter());
        expected.extend(a.to_be_bytes().iter());
        expected.extend(b.to_be_bytes().iter());

        let lab = ColorModel::LAB(Lab::new(l.to_bits(), a.to_bits(), b.to_bits()));
        let bytes: Vec<u8> = lab.to_bytes();

        assert_eq!(expected, bytes)
    }
    {
        let g: f32 = 100.0;
        let mut expected: Vec<u8> = vec![b'G', b'R', b'E', b'Y'];
        expected.extend(g.to_be_bytes().iter());

        let grey = ColorModel::GREY(Grey::new(g.to_bits()));
        let bytes: Vec<u8> = grey.to_bytes();

        assert_eq!(expected, bytes)
    }
}

#[test]
fn colortype_as_bytes() {
    {
        let expected: Vec<u8> = vec![0x00, 0x00];
        let c_type = ColorType::Global;
        let bytes: Vec<u8> = c_type.to_bytes();
        assert_eq!(expected, bytes)
    }
    {
        let expected: Vec<u8> = vec![0x00, 0x01];
        let c_type = ColorType::Spot;
        let bytes: Vec<u8> = c_type.to_bytes();
        assert_eq!(expected, bytes)
    }
    {
        let expected: Vec<u8> = vec![0x00, 0x02];
        let c_type = ColorType::Normal;
        let bytes: Vec<u8> = c_type.to_bytes();
        assert_eq!(expected, bytes)
    }
}

#[test]
fn blocktype_as_bytes() {
    {
        let expected: Vec<u8> = vec![0xc0, 0x01];
        let b_type = BlockType::GroupStart;
        let bytes: Vec<u8> = b_type.to_bytes();
        assert_eq!(expected, bytes)
    }
    {
        let expected: Vec<u8> = vec![0xc0, 0x02];
        let b_type = BlockType::GroupEnd;
        let bytes: Vec<u8> = b_type.to_bytes();
        assert_eq!(expected, bytes)
    }
    {
        let expected: Vec<u8> = vec![0x00, 0x01];
        let b_type = BlockType::ColorEntry;
        let bytes: Vec<u8> = b_type.to_bytes();
        assert_eq!(expected, bytes)
    }
}

#[test]
fn block_as_bytes() {
    let block_type = BlockType::ColorEntry;
    let name = "myname";
    let color_model = ColorModel::GREY(Grey::new(10.0f32.to_bits()));
    let color_type = ColorType::Normal;
    let length = (name.len() + 2 + 8 + 2) as u32;

    let mut expected: Vec<u8> = vec![];
    expected.extend(
        block_type.to_bytes().into_iter().chain(
            length
                .to_be_bytes()
                .iter()
                .cloned()
                .chain((name.len() as u32).to_be_bytes().iter().cloned())
                .chain(name.as_bytes().iter().cloned())
                .chain(std::iter::once(0u8))
                .chain(std::iter::once(0u8))
                .chain(color_model.to_bytes())
                .chain(color_type.to_bytes()),
        ),
    );
    let block = Block::new(block_type, name, color_model, color_type);

    let bytes: Vec<u8> = block.to_bytes();
    assert_eq!(expected, bytes)
}

#[test]
fn adobeswatchexchange_as_bytes() {
    let version = Version::new(1, 0);
    let block_type = BlockType::ColorEntry;
    let name = "myname";
    let color_model = ColorModel::GREY(Grey::new(10.0f32.to_bits()));
    let color_type = ColorType::Normal;
    let block = Block::new(
        block_type.clone(),
        name,
        color_model.clone(),
        color_type.clone(),
    );
    let blocks = vec![Block::new(block_type, name, color_model, color_type)];
    let ase = AdobeSwatchExchange::new(Version::new(1, 0), blocks);

    let mut expected: Vec<u8> = vec![];
    expected.extend(
        [0x41u8, 0x53u8, 0x45u8, 0x46u8]
            .iter()
            .cloned()
            .chain(version.to_bytes())
            .chain((1u32).to_be_bytes().iter().cloned())
            .chain(block.to_bytes()),
    );

    let bytes: Vec<u8> = ase.to_bytes();
    assert_eq!(expected, bytes)
}

#[test]
fn block_as_bytes_exact() {
    let block = Block::new(
        BlockType::ColorEntry,
        "ab",
        ColorModel::GREY(Grey::new(0x3f80_0000)),
        ColorType::Spot,
    );
    assert_eq!(block.length, 2 + 2 + 8 + 2);
    assert_eq!(
        block.to_bytes(),
        vec![
            0x00, 0x01, // color entry
            0x00, 0x00, 0x00, 0x0e, // stated length
            0x00, 0x00, 0x00, 0x02, // size of the name
            b'a', b'b', 0x00, 0x00, // the name and its end
            b'G', b'R', b'E', b'Y', 0x3f, 0x80, 0x00, 0x00, // the color
            0x00, 0x01, // spot
        ]
    );
    assert_eq!(block.byte_size(), 24);
}

#[test]
fn block_length_follows_the_block_type() {
    let color = ColorModel::CMYK(Cmyk::new(1, 2, 3, 4));
    let start = Block::new(BlockType::GroupStart, "group", color, ColorType::Global);
    assert_eq!(start.length, 5 + 2);
    let end = Block::new(BlockType::GroupEnd, "group", color, ColorType::Global);
    assert_eq!(end.length, 0);
    let entry = Block::new(BlockType::ColorEntry, "group", color, ColorType::Global);
    assert_eq!(entry.length, 5 + 2 + 20 + 2);
    let rgb = Block::new(
        BlockType::ColorEntry,
        "",
        ColorModel::RGB(Rgb::new(1, 2, 3)),
        ColorType::Normal,
    );
    assert_eq!(rgb.length, 2 + 16 + 2);
}

#[test]
fn block_name_is_counted_in_bytes() {
    let block = Block::new(
        BlockType::GroupStart,
        "gr\u{fc}n",
        ColorModel::GREY(Grey::new(0)),
        ColorType::Global,
    );
    assert_eq!(block.name, "gr\u{fc}n");
    assert_eq!(block.length, 5 + 2);
    let bytes = block.to_bytes();
    assert_eq!(&bytes[6..10], &[0, 0, 0, 5]);
    assert_eq!(&bytes[10..15], "gr\u{fc}n".as_bytes());
    assert_eq!(block.byte_size(), 14 + 5 + 8);
}

#[test]
fn byte_at_agrees_with_to_bytes() {
    let blocks = vec![
        Block::new(
            BlockType::GroupStart,
            "first",
            ColorModel::LAB(Lab::new(0x0102_0304, 0x0506_0708, 0x090a_0b0c)),
            ColorType::Global,
        ),
        Block::new(
            BlockType::ColorEntry,
            "",
            ColorModel::CMYK(Cmyk::new(0xffff_ffff, 0, 0x8000_0000, 7)),
            ColorType::Spot,
        ),
        Block::new(
            BlockType::GroupEnd,
            "third block",
            ColorModel::RGB(Rgb::new(1, 2, 3)),
            ColorType::Normal,
        ),
    ];
    let file = AdobeSwatchExchange::new(Version::new(0x1234, 0xabcd), blocks);
    let bytes = file.to_bytes();
    assert_eq!(file.byte_size(), bytes.len());
    for (index, byte) in bytes.iter().enumerate() {
        assert_eq!(file.byte_at(index), Some(*byte));
    }
    assert_eq!(file.byte_at(bytes.len()), None);
    assert_eq!(file.byte_at(bytes.len() + 1), None);
    assert_eq!(file.byte_at(usize::MAX), None);

    let mut offset = 12;
    for block in file.blocks.iter() {
        let part = block.to_bytes();
        assert_eq!(block.byte_size(), part.len());
        assert_eq!(&bytes[offset..offset + part.len()], part.as_slice());
        for (index, byte) in part.iter().enumerate() {
            assert_eq!(block.byte_at(index), Some(*byte));
        }
        assert_eq!(block.byte_at(part.len()), None);
        assert_eq!(block.byte_at(usize::MAX), None);
        offset += part.len();
    }
    assert_eq!(offset, bytes.len());
}

#[test]
fn empty_file_as_bytes() {
    let file = AdobeSwatchExchange::new(Version::new(1, 0), vec![]);
    assert_eq!(
        file.to_bytes(),
        vec![0x41, 0x53, 0x45, 0x46, 0x00, 0x01, 0x00, 0x00, 0x00, 0x00, 0x00, 0x00]
    );
    assert_eq!(file.byte_size(), 12);
    assert_eq!(file.byte_at(0), Some(0x41));
    assert_eq!(file.byte_at(11), Some(0));
    assert_eq!(file.byte_at(12), None);
}

#[test]
fn fixed_sizes_and_single_bytes() {
    let version = Version::new(0x0102, 0x0304);
    assert_eq!(version.byte_size(), 4);
    assert_eq!(version.byte_at(0), Some(1));
    assert_eq!(version.byte_at(1), Some(2));
    assert_eq!(version.byte_at(2), Some(3));
    assert_eq!(version.byte_at(3), Some(4));
    assert_eq!(version.byte_at(4), None);

    let cmyk = Cmyk::new(0x0102_0304, 0x0506_0708, 0x090a_0b0c, 0x0d0e_0f10);
    assert_eq!(cmyk.byte_size(), 16);
    for index in 0..16 {
        assert_eq!(cmyk.byte_at(index), Some(index as u8 + 1));
    }
    assert_eq!(cmyk.byte_at(16), None);

    let rgb = Rgb::new(0x0102_0304, 0x0506_0708, 0x090a_0b0c);
    assert_eq!(rgb.byte_size(), 12);
    assert_eq!(rgb.byte_at(11), Some(12));
    assert_eq!(rgb.byte_at(12), None);

    let lab = Lab::new(0x0102_0304, 0x0506_0708, 0x090a_0b0c);
    assert_eq!(lab.byte_size(), 12);
    assert_eq!(lab.byte_at(4), Some(5));
    assert_eq!(lab.byte_at(12), None);

    let grey = Grey::new(0xdead_beef);
    assert_eq!(grey.byte_size(), 4);
    assert_eq!(grey.to_bytes(), vec![0xde, 0xad, 0xbe, 0xef]);
    assert_eq!(grey.byte_at(4), None);

    assert_eq!(ColorModel::CMYK(cmyk).byte_size(), 20);
    assert_eq!(ColorModel::RGB(rgb).byte_size(), 16);
    assert_eq!(ColorModel::LAB(lab).byte_size(), 16);
    assert_eq!(ColorModel::GREY(grey).byte_size(), 8);
    assert_eq!(ColorModel::GREY(grey).byte_at(0), Some(b'G'));
    assert_eq!(ColorModel::GREY(grey).byte_at(4), Some(0xde));
    assert_eq!(ColorModel::GREY(grey).byte_at(8), None);
    assert_eq!(ColorModel::RGB(rgb).byte_at(3), Some(0));

    assert_eq!(ColorType::Normal.byte_size(), 2);
    assert_eq!(ColorType::Normal.byte_at(1), Some(2));
    assert_eq!(ColorType::Normal.byte_at(2), None);
    assert_eq!(BlockType::GroupEnd.byte_size(), 2);
    assert_eq!(BlockType::GroupEnd.byte_at(0), Some(0xc0));
    assert_eq!(BlockType::GroupEnd.byte_at(1), Some(0x02));
    assert_eq!(BlockType::GroupEnd.byte_at(2), None);
}
