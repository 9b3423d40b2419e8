use preidolia::adobe::ase::parsers::{
    cmyk, color_model, color_type, grey, lab, rgb, version, ErrorKind, GrammarError,
};
use preidolia::adobe::ase::{Cmyk, ColorModel, ColorType, Grey, Lab, Rgb, Version};
use preidolia::grammar::{Needed, Outcome};
use preidolia::parsers::{ParseError, Parser, ParsingIterator};
use preidolia::source::MemorySource;

#[test]
fn test_parse_version() {
    let input = vec![0x00u8, 0x0Au8, 0x00u8, 0x01u8];
    let expected = Outcome::Success(Version::new(10, 1), 0);

    let r = version(&input);

    assert!(matches!(r, Outcome::Success(..)));
    assert_eq!(expected, r)
}

#[test]
fn test_parse_cymk() {
    let cyan: f32 = 100.0;
    let magenta: f32 = 200.0;
    let yellow: f32 = 300.0;
    let key: f32 = 10.0;
    let mut input: Vec<u8> = vec![];
    input.extend(cyan.to_be_bytes().iter());
    input.extend(magenta.to_be_bytes().iter());
    input.extend(yellow.to_be_bytes().iter());
    input.extend(key.to_be_bytes().iter());
    let expected = Outcome::Success(
        Cmyk::new(
            cyan.to_bits(),
            magenta.to_bits(),
            yellow.to_bits(),
            key.to_bits(),
        ),
        0,
    );

    let r = cmyk(&input);

    assert!(matches!(r, Outcome::Success(..)));
    assert_eq!(expected, r)
}

#[test]
fn test_parse_rgb() {
    let r: f32 = 100.0;
    let g: f32 = 200.0;
    let b: f32 = 240.0;
    let mut input: Vec<u8> = vec![];
    input.extend(r.to_be_bytes().iter());
    input.extend(g.to_be_bytes().iter());
    input.extend(b.to_be_bytes().iter());
    let expected = Outcome::Success(Rgb::new(r.to_bits(), g.to_bits(), b.to_bits()), 0);

    let r = rgb(&input);

    assert!(matches!(r, Outcome::Success(..)));
    assert_eq!(expected, r)
}

#[test]
fn test_parse_lab() {
    let l: f32 = 100.0;
    let a: f32 = 200.0;
    let b: f32 = 240.0;
    let mut input: Vec<u8> = vec![];
    input.extend(l.to_be_bytes().iter());
    input.extend(a.to_be_bytes().iter());
    input.extend(b.to_be_bytes().iter());

    let expected = Outcome::Success(Lab::new(l.to_bits(), a.to_bits(), b.to_bits()), 0);
    let r = lab(&input);

    assert!(matches!(r, Outcome::Success(..)));
    assert_eq!(expected, r)
}

#[test]
fn test_parse_grey() {
    let g: f32 = 100.0;
    let mut input: Vec<u8> = vec![];
    input.extend(g.to_be_bytes().iter());

    let expected = Outcome::Success(Grey::new(g.to_bits()), 0);
    let r = grey(&input);

    assert!(matches!(r, Outcome::Success(..)));
    assert_eq!(expected, r)
}

#[test]
fn test_parse_color_model() {
    let models = vec![
        ColorModel::CMYK(Cmyk {
            cyan: 10.0f32.to_bits(),
            magenta: 11.0f32.to_bits(),
            yellow: 22.0f32.to_bits(),
            key: 30.0f32.to_bits(),
        }),
        ColorModel::GREY(Grey {
            grey: 10.0f32.to_bits(),
        }),
        ColorModel::RGB(Rgb {
            red: 10.0f32.to_bits(),
            green: 11.0f32.to_bits(),
            blue: 22.0f32.to_bits(),
        }),
        ColorModel::LAB(Lab {
            l: 10.0f32.to_bits(),
            a: 11.0f32.to_bits(),
            b: 22.0f32.to_bits(),
        }),
    ];
    for m in models {
        let input: Vec<u8> = m.to_bytes();

        let expected = Outcome::Success(m, 0);
        let r = color_model(&input);

        assert!(matches!(r, Outcome::Success(..)));
        assert_eq!(expected, r)
    }
}

#[test]
fn test_parse_color_type() {
    {
        let types = vec![ColorType::Global, ColorType::Normal, ColorType::Spot];
        for t in types {
            let input: Vec<u8> = t.to_bytes();

            let expected = Outcome::Success(t, 0);
            let r = color_type(&input);

            assert!(matches!(r, Outcome::Success(..)));
            assert_eq!(expected, r)
        }
    }
    {
        let input: Vec<u8> = vec![0, 8, 2, 3];
        let remains = &input.as_slice()[2..];

        let error = GrammarError {
            remaining: remains.len(),
            kind: ErrorKind::Digit,
        };
        let expected = Outcome::Unrecoverable(error);
        let r = color_type(&input);

        assert!(matches!(r, Outcome::Unrecoverable(..)));
        assert_eq!(expected, r)
    }
}

#[test]
fn grammars_report_what_they_left_unread() {
    assert_eq!(
        version(&[0x12, 0x34, 0x56, 0x78, 9, 9, 9]),
        Outcome::Success(Version::new(0x1234, 0x5678), 3)
    );
    assert_eq!(
        cmyk(&[0, 0, 0, 1, 0, 0, 1, 0, 0, 1, 0, 0, 1, 0, 0, 0, 0xaa]),
        Outcome::Success(Cmyk::new(1, 0x100, 0x1_0000, 0x100_0000), 1)
    );
    assert_eq!(
        rgb(&[0xff, 0xfe, 0xfd, 0xfc, 0, 0, 0, 2, 0, 0, 0, 3, 1, 2]),
        Outcome::Success(Rgb::new(0xfffe_fdfc, 2, 3), 2)
    );
    assert_eq!(
        lab(&[0, 0, 0, 1, 0, 0, 0, 2, 0x80, 0, 0, 3]),
        Outcome::Success(Lab::new(1, 2, 0x8000_0003), 0)
    );
    assert_eq!(
        grey(&[1, 2, 3, 4, 5]),
        Outcome::Success(Grey::new(0x0102_0304), 1)
    );
    assert_eq!(
        color_type(&[0, 1, 7, 7]),
        Outcome::Success(ColorType::Spot, 2)
    );
    assert_eq!(
        color_model(&[b'G', b'R', b'E', b'Y', 0, 0, 0, 5, 1]),
        Outcome::Success(ColorModel::GREY(Grey::new(5)), 1)
    );
}

#[test]
fn grammars_ask_for_what_the_open_field_lacks() {
    fn size<O>(count: usize) -> Outcome<O, GrammarError> {
        Outcome::NeedMore(Needed::Size(count))
    }
    assert_eq!(version(&[]), size(2));
    assert_eq!(version(&[1]), size(1));
    assert_eq!(version(&[1, 2]), size(2));
    assert_eq!(version(&[1, 2, 3]), size(1));

    assert_eq!(color_type(&[]), size(2));
    assert_eq!(color_type(&[0]), size(1));

    let bytes: Vec<u8> = (0u8..16).collect();
    for have in 0..16 {
        assert_eq!(cmyk(&bytes[..have]), size(4 - have % 4));
    }
    for have in 0..12 {
        assert_eq!(rgb(&bytes[..have]), size(4 - have % 4));
        assert_eq!(lab(&bytes[..have]), size(4 - have % 4));
    }
    for have in 0..4 {
        assert_eq!(grey(&bytes[..have]), size(4 - have));
    }

    let color = ColorModel::CMYK(Cmyk::new(1, 2, 3, 4)).to_bytes();
    for have in 0..20 {
        assert_eq!(color_model(&color[..have]), size(4 - have % 4));
    }
    let color = ColorModel::RGB(Rgb::new(1, 2, 3)).to_bytes();
    for have in 0..16 {
        assert_eq!(color_model(&color[..have]), size(4 - have % 4));
    }
}

#[test]
fn color_model_rejects_an_unknown_tag() {
    let input = [b'C', b'M', b'Y', b'X', 0, 0, 0, 0];
    assert_eq!(
        color_model(&input),
        Outcome::Unrecoverable(GrammarError {
            remaining: 8,
            kind: ErrorKind::Switch
        })
    );
    assert_eq!(
        color_model(&[b'R', b'G', b'B', b' ']),
        Outcome::Unrecoverable(GrammarError {
            remaining: 4,
            kind: ErrorKind::Switch
        })
    );
    assert_eq!(
        color_model(&[b'L', b'A', b'B', 0]),
        Outcome::NeedMore(Needed::Size(4))
    );
}

#[test]
fn color_type_rejects_every_other_number() {
    assert_eq!(
        color_type(&[0, 3]),
        Outcome::Unrecoverable(GrammarError {
            remaining: 0,
            kind: ErrorKind::Digit
        })
    );
    assert_eq!(
        color_type(&[1, 0, 5]),
        Outcome::Unrecoverable(GrammarError {
            remaining: 1,
            kind: ErrorKind::Digit
        })
    );
}

#[test]
fn versions_read_back_through_the_sequence() {
    let versions = vec![
        Version::new(0, 0),
        Version::new(1, 0),
        Version::new(0xffff, 0x8001),
    ];
    let mut bytes: Vec<u8> = Vec::new();
    for v in versions.iter() {
        bytes.extend(v.to_bytes());
    }
    let mut iter = ParsingIterator::new(Parser::new(version), MemorySource::new(bytes));
    for v in versions {
        assert_eq!(iter.next(), Some(Ok(v)));
    }
    assert_eq!(iter.next(), None);
    assert_eq!(iter.next(), None);
}

#[test]
fn colors_read_back_through_the_sequence() {
    let colors = vec![
        ColorModel::GREY(Grey::new(0x4120_0000)),
        ColorModel::CMYK(Cmyk::new(1, 2, 3, 0xffff_ffff)),
        ColorModel::LAB(Lab::new(0x7fc0_0000, 0, 0x8000_0000)),
        ColorModel::RGB(Rgb::new(0x3f80_0000, 0x4000_0000, 0x4040_0000)),
        ColorModel::GREY(Grey::new(0)),
    ];
    let mut bytes: Vec<u8> = Vec::new();
    for c in colors.iter() {
        bytes.extend(c.to_bytes());
    }
    let mut iter = ParsingIterator::new(Parser::new(color_model), MemorySource::new(bytes));
    for c in colors {
        assert_eq!(iter.next(), Some(Ok(c)));
    }
    assert_eq!(iter.next(), None);
}

#[test]
fn color_types_read_back_through_the_sequence() {
    let mut bytes: Vec<u8> = Vec::new();
    bytes.extend(ColorType::Normal.to_bytes());
    bytes.extend(ColorType::Global.to_bytes());
    bytes.extend(vec![0, 9]);
    bytes.extend(ColorType::Spot.to_bytes());
    let mut iter = ParsingIterator::new(Parser::new(color_type), MemorySource::new(bytes));
    assert_eq!(iter.next(), Some(Ok(ColorType::Normal)));
    assert_eq!(iter.next(), Some(Ok(ColorType::Global)));
    assert_eq!(
        iter.next(),
        Some(Err(ParseError::Grammar(GrammarError {
            remaining: 0,
            kind: ErrorKind::Digit
        })))
    );
    assert_eq!(iter.next(), Some(Ok(ColorType::Spot)));
    assert_eq!(iter.next(), None);
}

#[test]
fn a_cut_color_is_an_error() {
    let mut bytes = ColorModel::RGB(Rgb::new(1, 2, 3)).to_bytes();
    bytes.truncate(9);
    let mut iter = ParsingIterator::new(Parser::new(color_model), MemorySource::new(bytes));
    assert_eq!(iter.next(), Some(Err(ParseError::Truncated)));
    assert_eq!(iter.next(), None);
}
