//! The grammars that read the values of the format back from bytes.
//!
//! Each grammar looks at a buffer that may end anywhere. Where the buffer ends
//! inside a field, the grammar asks for exactly the bytes that the field still
//! lacks; it never asks beyond the value it reads.
use crate::adobe::ase::{
    be_u16_bytes, be_u32_bytes, tag_cmyk, tag_grey, tag_lab, tag_rgb, Cmyk, ColorModel, ColorType,
    Grey, Lab, Rgb, Version,
};
use crate::grammar::{demand, Grammar, Needed, Outcome};
use crate::laws::{encodes, honest};
use vstd::prelude::*;
use vstd::slice::slice_subrange;

verus! {

/// What a grammar of this format objects to.
#[derive(Debug, PartialEq, Eq, Clone, Copy)]
pub enum ErrorKind {
    /// A number stands for nothing.
    Digit,
    /// A tag names no alternative.
    Switch,
    /// Anything else.
    Other,
}

/// The detail of a rejection: what was objected to, and how many bytes of the
/// buffer were still unread at the place of the objection.
#[derive(Debug, PartialEq, Eq, Clone, Copy)]
pub struct GrammarError {
    /// The number of bytes behind the place of the objection.
    pub remaining: usize,
    /// What was objected to.
    pub kind: ErrorKind,
}

/// The big-endian number in the two bytes of `input` from `offset` on.
pub open spec fn u16_at(input: Seq<u8>, offset: int) -> u16 {
    (input[offset] * 0x100 + input[offset + 1]) as u16
}

/// The big-endian number in the four bytes of `input` from `offset` on.
pub open spec fn u32_at(input: Seq<u8>, offset: int) -> u32 {
    (input[offset] * 0x100_0000 + input[offset + 1] * 0x1_0000 + input[offset + 2] * 0x100
        + input[offset + 3]) as u32
}

/// A big-endian number of two bytes at the start of `input`, or the demand
/// for the bytes that are missing.
pub open spec fn spec_be_u16(input: Seq<u8>) -> Outcome<u16, GrammarError> {
    if input.len() < 2 {
        Outcome::NeedMore(Needed::Size((2 - input.len()) as usize))
    } else {
        Outcome::Success(u16_at(input, 0), (input.len() - 2) as usize)
    }
}

/// A big-endian number of four bytes at the start of `input`, or the demand
/// for the bytes that are missing.
pub open spec fn spec_be_u32(input: Seq<u8>) -> Outcome<u32, GrammarError> {
    if input.len() < 4 {
        Outcome::NeedMore(Needed::Size((4 - input.len()) as usize))
    } else {
        Outcome::Success(u32_at(input, 0), (input.len() - 4) as usize)
    }
}

/// Calls `nom::number::streaming::be_u16` on a byte slice. It returns the
/// number that the first two bytes spell, most significant byte first, with
/// the length of what follows them; on fewer than two bytes it is incomplete
/// by the number of bytes missing. It reports no error.
#[verifier::external_body]
fn be_u16(input: &[u8]) -> (outcome: Outcome<u16, GrammarError>)
    ensures
        outcome == spec_be_u16(input@),
{
    match nom::number::streaming::be_u16::<&[u8], nom::error::Error<&[u8]>>(input) {
        Ok((rest, value)) => Outcome::Success(value, rest.len()),
        Err(nom::Err::Incomplete(nom::Needed::Size(count))) => Outcome::NeedMore(
            Needed::Size(count.get()),
        ),
        Err(nom::Err::Incomplete(nom::Needed::Unknown)) => Outcome::NeedMore(Needed::Unknown),
        Err(nom::Err::Error(e)) | Err(nom::Err::Failure(e)) => Outcome::Unrecoverable(
            GrammarError { remaining: e.input.len(), kind: ErrorKind::Other },
        ),
    }
}

/// Calls `nom::number::streaming::be_u32` on a byte slice. It returns the
/// number that the first four bytes spell, most significant byte first, with
/// the length of what follows them; on fewer than four bytes it is incomplete
/// by the number of bytes missing. It reports no error.
#[verifier::external_body]
fn be_u32(input: &[u8]) -> (outcome: Outcome<u32, GrammarError>)
    ensures
        outcome == spec_be_u32(input@),
{
    match nom::number::streaming::be_u32::<&[u8], nom::error::Error<&[u8]>>(input) {
        Ok((rest, value)) => Outcome::Success(value, rest.len()),
        Err(nom::Err::Incomplete(nom::Needed::Size(count))) => Outcome::NeedMore(
            Needed::Size(count.get()),
        ),
        Err(nom::Err::Incomplete(nom::Needed::Unknown)) => Outcome::NeedMore(Needed::Unknown),
        Err(nom::Err::Error(e)) | Err(nom::Err::Failure(e)) => Outcome::Unrecoverable(
            GrammarError { remaining: e.input.len(), kind: ErrorKind::Other },
        ),
    }
}

/// The last `left` bytes of `input`.
fn tail(input: &[u8], left: usize) -> (rest: &[u8])
    requires
        left <= input@.len(),
    ensures
        rest@ == input@.skip(input@.len() - left),
{
    let rest = slice_subrange(input, input.len() - left, input.len());
    assert(rest@ =~= input@.skip(input@.len() - left));
    rest
}

/// The demand of a grammar made of fields of `width` bytes each, shown
/// `have` bytes: what the field that the buffer ends in still lacks.
pub open spec fn field_demand<O>(width: nat, have: nat) -> Outcome<O, GrammarError> {
    Outcome::NeedMore(Needed::Size((width - have % width) as usize))
}

/// A version: the major number and the minor one, two bytes each.
pub open spec fn spec_version(input: Seq<u8>) -> Outcome<Version, GrammarError> {
    if input.len() < 4 {
        field_demand(2, input.len())
    } else {
        Outcome::Success(
            Version { major: u16_at(input, 0), minor: u16_at(input, 2) },
            (input.len() - 4) as usize,
        )
    }
}

/// Reads a version from the start of `input`.
pub fn version(input: &[u8]) -> (outcome: Outcome<Version, GrammarError>)
    ensures
        outcome == spec_version(input@),
{
    assert(input@.len() == input.len());
    match be_u16(input) {
        Outcome::Success(major, left) => {
            let rest = tail(input, left);
            match be_u16(rest) {
                Outcome::Success(minor, left) => Outcome::Success(
                    Version::new(major, minor),
                    left,
                ),
                Outcome::NeedMore(needed) => Outcome::NeedMore(needed),
                Outcome::Unrecoverable(detail) => Outcome::Unrecoverable(detail),
            }
        },
        Outcome::NeedMore(needed) => Outcome::NeedMore(needed),
        Outcome::Unrecoverable(detail) => Outcome::Unrecoverable(detail),
    }
}

/// Calls `nom::bytes::streaming::take` with `count` on a byte slice. It
/// returns the first `count` bytes with the length of what follows them; on
/// fewer than `count` bytes it is incomplete by the number of bytes missing.
/// It reports no error.
#[verifier::external_body]
fn take<'a>(input: &'a [u8], count: usize) -> (outcome: Outcome<&'a [u8], GrammarError>)
    ensures
        match outcome {
            Outcome::Success(taken, left) => count <= input@.len() && taken@ == input@.take(
                count as int,
            ) && left == input@.len() - count,
            Outcome::NeedMore(needed) => input@.len() < count && needed == Needed::Size(
                (count - input@.len()) as usize,
            ),
            Outcome::Unrecoverable(_) => false,
        },
{
    match nom::bytes::streaming::take::<usize, &[u8], nom::error::Error<&[u8]>>(count)(input) {
        Ok((rest, taken)) => Outcome::Success(taken, rest.len()),
        Err(nom::Err::Incomplete(nom::Needed::Size(count))) => Outcome::NeedMore(
            Needed::Size(count.get()),
        ),
        Err(nom::Err::Incomplete(nom::Needed::Unknown)) => Outcome::NeedMore(Needed::Unknown),
        Err(nom::Err::Error(e)) | Err(nom::Err::Failure(e)) => Outcome::Unrecoverable(
            GrammarError { remaining: e.input.len(), kind: ErrorKind::Other },
        ),
    }
}

/// As many channels as `count` says, four bytes each.
fn channels(input: &[u8], count: usize) -> (outcome: Outcome<Vec<u32>, GrammarError>)
    requires
        count <= 4,
    ensures
        match outcome {
            Outcome::Success(values, left) => {
                &&& 4 * count <= input@.len()
                &&& left == input@.len() - 4 * count
                &&& values@.len() == count
                &&& forall|i: int| 0 <= i < count ==> values@[i] == u32_at(input@, 4 * i)
            },
            Outcome::NeedMore(needed) => input@.len() < 4 * count && Outcome::<
                Vec<u32>,
                GrammarError,
            >::NeedMore(needed) == field_demand::<Vec<u32>>(4, input@.len()),
            Outcome::Unrecoverable(_) => false,
        },
{
    let mut values: Vec<u32> = Vec::new();
    let mut left = input.len();
    while values.len() < count
        invariant
            count <= 4,
            values@.len() <= count,
            input@.len() == input.len(),
            4 * values@.len() <= input@.len(),
            left == input@.len() - 4 * values@.len(),
            forall|i: int| 0 <= i < values@.len() ==> values@[i] == u32_at(input@, 4 * i),
        decreases count - values@.len(),
    {
        let rest = tail(input, left);
        match be_u32(rest) {
            Outcome::Success(value, behind) => {
                values.push(value);
                left = behind;
            },
            Outcome::NeedMore(needed) => {
                return Outcome::NeedMore(needed);
            },
            Outcome::Unrecoverable(detail) => {
                return Outcome::Unrecoverable(detail);
            },
        }
    }
    Outcome::Success(values, left)
}

/// A CMYK color: cyan, magenta, yellow and key, four bytes each.
pub open spec fn spec_cmyk(input: Seq<u8>) -> Outcome<Cmyk, GrammarError> {
    if input.len() < 16 {
        field_demand(4, input.len())
    } else {
        Outcome::Success(
            Cmyk {
                cyan: u32_at(input, 0),
                magenta: u32_at(input, 4),
                yellow: u32_at(input, 8),
                key: u32_at(input, 12),
            },
            (input.len() - 16) as usize,
        )
    }
}

/// Reads a CMYK color from the start of `input`.
pub fn cmyk(input: &[u8]) -> (outcome: Outcome<Cmyk, GrammarError>)
    ensures
        outcome == spec_cmyk(input@),
{
    assert(input@.len() == input.len());
    match channels(input, 4) {
        Outcome::Success(values, left) => Outcome::Success(
            Cmyk::new(values[0], values[1], values[2], values[3]),
            left,
        ),
        Outcome::NeedMore(needed) => Outcome::NeedMore(needed),
        Outcome::Unrecoverable(detail) => Outcome::Unrecoverable(detail),
    }
}

/// An RGB color: red, green and blue, four bytes each.
pub open spec fn spec_rgb(input: Seq<u8>) -> Outcome<Rgb, GrammarError> {
    if input.len() < 12 {
        field_demand(4, input.len())
    } else {
        Outcome::Success(
            Rgb { red: u32_at(input, 0), green: u32_at(input, 4), blue: u32_at(input, 8) },
            (input.len() - 12) as usize,
        )
    }
}

/// Reads an RGB color from the start of `input`.
pub fn rgb(input: &[u8]) -> (outcome: Outcome<Rgb, GrammarError>)
    ensures
        outcome == spec_rgb(input@),
{
    assert(input@.len() == input.len());
    match channels(input, 3) {
        Outcome::Success(values, left) => Outcome::Success(
            Rgb::new(values[0], values[1], values[2]),
            left,
        ),
        Outcome::NeedMore(needed) => Outcome::NeedMore(needed),
        Outcome::Unrecoverable(detail) => Outcome::Unrecoverable(detail),
    }
}

/// An L*a*b* color: L, a and b, four bytes each.
pub open spec fn spec_lab(input: Seq<u8>) -> Outcome<Lab, GrammarError> {
    if input.len() < 12 {
        field_demand(4, input.len())
    } else {
        Outcome::Success(
            Lab { l: u32_at(input, 0), a: u32_at(input, 4), b: u32_at(input, 8) },
            (input.len() - 12) as usize,
        )
    }
}

/// Reads an L*a*b* color from the start of `input`.
pub fn lab(input: &[u8]) -> (outcome: Outcome<Lab, GrammarError>)
    ensures
        outcome == spec_lab(input@),
{
    assert(input@.len() == input.len());
    match channels(input, 3) {
        Outcome::Success(values, left) => Outcome::Success(
            Lab::new(values[0], values[1], values[2]),
            left,
        ),
        Outcome::NeedMore(needed) => Outcome::NeedMore(needed),
        Outcome::Unrecoverable(detail) => Outcome::Unrecoverable(detail),
    }
}

/// A shade of grey: one channel of four bytes.
pub open spec fn spec_grey(input: Seq<u8>) -> Outcome<Grey, GrammarError> {
    if input.len() < 4 {
        field_demand(4, input.len())
    } else {
        Outcome::Success(Grey { grey: u32_at(input, 0) }, (input.len() - 4) as usize)
    }
}

/// Reads a shade of grey from the start of `input`.
pub fn grey(input: &[u8]) -> (outcome: Outcome<Grey, GrammarError>)
    ensures
        outcome == spec_grey(input@),
{
    assert(input@.len() == input.len());
    match channels(input, 1) {
        Outcome::Success(values, left) => Outcome::Success(Grey::new(values[0]), left),
        Outcome::NeedMore(needed) => Outcome::NeedMore(needed),
        Outcome::Unrecoverable(detail) => Outcome::Unrecoverable(detail),
    }
}

/// A color with its model: the model's tag of four bytes, then the channels
/// that the model has. A tag that names no model is rejected, with the whole
/// buffer unread.
pub open spec fn spec_color_model(input: Seq<u8>) -> Outcome<ColorModel, GrammarError> {
    if input.len() < 4 {
        field_demand(4, input.len())
    } else if input.take(4) == tag_cmyk() {
        spec_cmyk(input.skip(4)).map(|color: Cmyk| ColorModel::CMYK(color))
    } else if input.take(4) == tag_grey() {
        spec_grey(input.skip(4)).map(|color: Grey| ColorModel::GREY(color))
    } else if input.take(4) == tag_rgb() {
        spec_rgb(input.skip(4)).map(|color: Rgb| ColorModel::RGB(color))
    } else if input.take(4) == tag_lab() {
        spec_lab(input.skip(4)).map(|color: Lab| ColorModel::LAB(color))
    } else {
        Outcome::Unrecoverable(
            GrammarError { remaining: input.len() as usize, kind: ErrorKind::Switch },
        )
    }
}

fn tag_is(tag: &[u8], a: u8, b: u8, c: u8, d: u8) -> (same: bool)
    requires
        tag@.len() == 4,
    ensures
        same == (tag@ == seq![a, b, c, d]),
{
    let same = tag[0] == a && tag[1] == b && tag[2] == c && tag[3] == d;
    if same {
        assert(tag@ =~= seq![a, b, c, d]);
    } else {
        assert(seq![a, b, c, d][0] == a && seq![a, b, c, d][1] == b && seq![a, b, c, d][2] == c
            && seq![a, b, c, d][3] == d);
    }
    same
}

/// Reads a color with its model from the start of `input`.
pub fn color_model(input: &[u8]) -> (outcome: Outcome<ColorModel, GrammarError>)
    ensures
        outcome == spec_color_model(input@),
{
    assert(input@.len() == input.len());
    match take(input, 4) {
        Outcome::Success(tag, left) => {
            let rest = tail(input, left);
            if tag_is(tag, 0x43, 0x4D, 0x59, 0x4B) {
                match cmyk(rest) {
                    Outcome::Success(color, left) => Outcome::Success(
                        ColorModel::CMYK(color),
                        left,
                    ),
                    Outcome::NeedMore(needed) => Outcome::NeedMore(needed),
                    Outcome::Unrecoverable(detail) => Outcome::Unrecoverable(detail),
                }
            } else if tag_is(tag, 0x47, 0x52, 0x45, 0x59) {
                match grey(rest) {
                    Outcome::Success(color, left) => Outcome::Success(
                        ColorModel::GREY(color),
                        left,
                    ),
                    Outcome::NeedMore(needed) => Outcome::NeedMore(needed),
                    Outcome::Unrecoverable(detail) => Outcome::Unrecoverable(detail),
                }
            } else if tag_is(tag, 0x52, 0x47, 0x42, 0x00) {
                match rgb(rest) {
                    Outcome::Success(color, left) => Outcome::Success(
                        ColorModel::RGB(color),
                        left,
                    ),
                    Outcome::NeedMore(needed) => Outcome::NeedMore(needed),
                    Outcome::Unrecoverable(detail) => Outcome::Unrecoverable(detail),
                }
            } else if tag_is(tag, 0x4C, 0x41, 0x42, 0x00) {
                match lab(rest) {
                    Outcome::Success(color, left) => Outcome::Success(
                        ColorModel::LAB(color),
                        left,
                    ),
                    Outcome::NeedMore(needed) => Outcome::NeedMore(needed),
                    Outcome::Unrecoverable(detail) => Outcome::Unrecoverable(detail),
                }
            } else {
                Outcome::Unrecoverable(
                    GrammarError { remaining: input.len(), kind: ErrorKind::Switch },
                )
            }
        },
        Outcome::NeedMore(needed) => Outcome::NeedMore(needed),
        Outcome::Unrecoverable(detail) => Outcome::Unrecoverable(detail),
    }
}

/// The type of a color: a number of two bytes, 0 for global, 1 for spot and
/// 2 for normal. Any other number is rejected, with what follows the number
/// unread.
pub open spec fn spec_color_type(input: Seq<u8>) -> Outcome<ColorType, GrammarError> {
    if input.len() < 2 {
        field_demand(2, input.len())
    } else {
        let left = (input.len() - 2) as usize;
        let id = u16_at(input, 0);
        if id == 0 {
            Outcome::Success(ColorType::Global, left)
        } else if id == 1 {
            Outcome::Success(ColorType::Spot, left)
        } else if id == 2 {
            Outcome::Success(ColorType::Normal, left)
        } else {
            Outcome::Unrecoverable(GrammarError { remaining: left, kind: ErrorKind::Digit })
        }
    }
}

/// Reads the type of a color from the start of `input`.
pub fn color_type(input: &[u8]) -> (outcome: Outcome<ColorType, GrammarError>)
    ensures
        outcome == spec_color_type(input@),
{
    assert(input@.len() == input.len());
    match be_u16(input) {
        Outcome::Success(id, left) => {
            if id == 0 {
                Outcome::Success(ColorType::Global, left)
            } else if id == 1 {
                Outcome::Success(ColorType::Spot, left)
            } else if id == 2 {
                Outcome::Success(ColorType::Normal, left)
            } else {
                Outcome::Unrecoverable(GrammarError { remaining: left, kind: ErrorKind::Digit })
            }
        },
        Outcome::NeedMore(needed) => Outcome::NeedMore(needed),
        Outcome::Unrecoverable(detail) => Outcome::Unrecoverable(detail),
    }
}

/// Reading two bytes as a number undoes writing the number as two bytes.
pub proof fn lemma_u16_reads_back(input: Seq<u8>, offset: int, value: u16)
    requires
        0 <= offset,
        offset + 2 <= input.len(),
        input.subrange(offset, offset + 2) == be_u16_bytes(value),
    ensures
        u16_at(input, offset) == value,
{
    let field = input.subrange(offset, offset + 2);
    assert(field[0] == input[offset] && field[1] == input[offset + 1]);
}

/// Reading four bytes as a number undoes writing the number as four bytes.
pub proof fn lemma_u32_reads_back(input: Seq<u8>, offset: int, value: u32)
    requires
        0 <= offset,
        offset + 4 <= input.len(),
        input.subrange(offset, offset + 4) == be_u32_bytes(value),
    ensures
        u32_at(input, offset) == value,
{
    let field = input.subrange(offset, offset + 4);
    assert(field[0] == input[offset] && field[1] == input[offset + 1] && field[2] == input[offset
        + 2] && field[3] == input[offset + 3]);
}

/// The grammar of versions reads back every version from its bytes, and
/// keeps to their boundary.
pub proof fn lemma_version_reads_back(g: Grammar<Version, GrammarError>, value: Version)
    requires
        forall|input: Seq<u8>| #[trigger] g(input) == spec_version(input),
    ensures
        encodes(g, value.bytes(), value),
{
    let bytes = value.bytes();
    assert(bytes.subrange(0, 2) =~= be_u16_bytes(value.major));
    assert(bytes.subrange(2, 4) =~= be_u16_bytes(value.minor));
    lemma_u16_reads_back(bytes, 0, value.major);
    lemma_u16_reads_back(bytes, 2, value.minor);
    assert forall|k: int| 0 <= k < bytes.len() implies match #[trigger] g(bytes.take(k)) {
        Outcome::NeedMore(needed) => k + demand(needed) <= bytes.len(),
        _ => false,
    } by {
        assert(g(bytes.take(k)) == spec_version(bytes.take(k)));
    }
}

/// The grammar of CMYK colors reads back every color from its bytes, and
/// keeps to their boundary.
pub proof fn lemma_cmyk_reads_back(g: Grammar<Cmyk, GrammarError>, value: Cmyk)
    requires
        forall|input: Seq<u8>| #[trigger] g(input) == spec_cmyk(input),
    ensures
        encodes(g, value.bytes(), value),
{
    let bytes = value.bytes();
    assert(bytes.subrange(0, 4) =~= be_u32_bytes(value.cyan));
    assert(bytes.subrange(4, 8) =~= be_u32_bytes(value.magenta));
    assert(bytes.subrange(8, 12) =~= be_u32_bytes(value.yellow));
    assert(bytes.subrange(12, 16) =~= be_u32_bytes(value.key));
    lemma_u32_reads_back(bytes, 0, value.cyan);
    lemma_u32_reads_back(bytes, 4, value.magenta);
    lemma_u32_reads_back(bytes, 8, value.yellow);
    lemma_u32_reads_back(bytes, 12, value.key);
    assert forall|k: int| 0 <= k < bytes.len() implies match #[trigger] g(bytes.take(k)) {
        Outcome::NeedMore(needed) => k + demand(needed) <= bytes.len(),
        _ => false,
    } by {
        assert(g(bytes.take(k)) == spec_cmyk(bytes.take(k)));
    }
}

/// The grammar of RGB colors reads back every color from its bytes, and
/// keeps to their boundary.
pub proof fn lemma_rgb_reads_back(g: Grammar<Rgb, GrammarError>, value: Rgb)
    requires
        forall|input: Seq<u8>| #[trigger] g(input) == spec_rgb(input),
    ensures
        encodes(g, value.bytes(), value),
{
    let bytes = value.bytes();
    assert(bytes.subrange(0, 4) =~= be_u32_bytes(value.red));
    assert(bytes.subrange(4, 8) =~= be_u32_bytes(value.green));
    assert(bytes.subrange(8, 12) =~= be_u32_bytes(value.blue));
    lemma_u32_reads_back(bytes, 0, value.red);
    lemma_u32_reads_back(bytes, 4, value.green);
    lemma_u32_reads_back(bytes, 8, value.blue);
    assert forall|k: int| 0 <= k < bytes.len() implies match #[trigger] g(bytes.take(k)) {
        Outcome::NeedMore(needed) => k + demand(needed) <= bytes.len(),
        _ => false,
    } by {
        assert(g(bytes.take(k)) == spec_rgb(bytes.take(k)));
    }
}

/// The grammar of L*a*b* colors reads back every color from its bytes, and
/// keeps to their boundary.
pub proof fn lemma_lab_reads_back(g: Grammar<Lab, GrammarError>, value: Lab)
    requires
        forall|input: Seq<u8>| #[trigger] g(input) == spec_lab(input),
    ensures
        encodes(g, value.bytes(), value),
{
    let bytes = value.bytes();
    assert(bytes.subrange(0, 4) =~= be_u32_bytes(value.l));
    assert(bytes.subrange(4, 8) =~= be_u32_bytes(value.a));
    assert(bytes.subrange(8, 12) =~= be_u32_bytes(value.b));
    lemma_u32_reads_back(bytes, 0, value.l);
    lemma_u32_reads_back(bytes, 4, value.a);
    lemma_u32_reads_back(bytes, 8, value.b);
    assert forall|k: int| 0 <= k < bytes.len() implies match #[trigger] g(bytes.take(k)) {
        Outcome::NeedMore(needed) => k + demand(needed) <= bytes.len(),
        _ => false,
    } by {
        assert(g(bytes.take(k)) == spec_lab(bytes.take(k)));
    }
}

/// The grammar of greys reads back every grey from its bytes, and keeps to
/// their boundary.
pub proof fn lemma_grey_reads_back(g: Grammar<Grey, GrammarError>, value: Grey)
    requires
        forall|input: Seq<u8>| #[trigger] g(input) == spec_grey(input),
    ensures
        encodes(g, value.bytes(), value),
{
    let bytes = value.bytes();
    assert(bytes.subrange(0, 4) =~= be_u32_bytes(value.grey));
    lemma_u32_reads_back(bytes, 0, value.grey);
    assert forall|k: int| 0 <= k < bytes.len() implies match #[trigger] g(bytes.take(k)) {
        Outcome::NeedMore(needed) => k + demand(needed) <= bytes.len(),
        _ => false,
    } by {
        assert(g(bytes.take(k)) == spec_grey(bytes.take(k)));
    }
}

/// The grammar of color types reads back every color type from its bytes,
/// and keeps to their boundary.
pub proof fn lemma_color_type_reads_back(g: Grammar<ColorType, GrammarError>, value: ColorType)
    requires
        forall|input: Seq<u8>| #[trigger] g(input) == spec_color_type(input),
    ensures
        encodes(g, value.bytes(), value),
{
    let bytes = value.bytes();
    assert(bytes.subrange(0, 2) =~= be_u16_bytes(value.code()));
    lemma_u16_reads_back(bytes, 0, value.code());
    assert forall|k: int| 0 <= k < bytes.len() implies match #[trigger] g(bytes.take(k)) {
        Outcome::NeedMore(needed) => k + demand(needed) <= bytes.len(),
        _ => false,
    } by {
        assert(g(bytes.take(k)) == spec_color_type(bytes.take(k)));
    }
}

/// A grammar that reads a tag of four bytes and then hands over to `inner`
/// keeps to the boundary of the tagged bytes where `inner` keeps to the
/// boundary of the untagged ones.
proof fn lemma_tagged_reads_back<C>(
    g: Grammar<ColorModel, GrammarError>,
    tag: Seq<u8>,
    inner: Grammar<C, GrammarError>,
    wrap: spec_fn(C) -> ColorModel,
    channels: Seq<u8>,
    color: C,
)
    requires
        tag.len() == 4,
        encodes(inner, channels, color),
        forall|input: Seq<u8>| input.len() < 4 ==> #[trigger] g(input) == field_demand::<ColorModel>(4, input.len()),
        forall|input: Seq<u8>|
            input.len() >= 4 && input.take(4) == tag ==> #[trigger] g(input) == inner(
                input.skip(4),
            ).map(wrap),
    ensures
        encodes(g, tag + channels, wrap(color)),
{
    let bytes = tag + channels;
    assert(bytes.take(4) =~= tag);
    assert(bytes.skip(4) =~= channels);
    assert(g(bytes) == inner(bytes.skip(4)).map(wrap));
    assert forall|k: int| 0 <= k < bytes.len() implies match #[trigger] g(bytes.take(k)) {
        Outcome::NeedMore(needed) => k + demand(needed) <= bytes.len(),
        _ => false,
    } by {
        let shown = bytes.take(k);
        if k >= 4 {
            assert(shown.take(4) =~= tag);
            assert(shown.skip(4) =~= channels.take(k - 4));
            assert(g(shown) == inner(channels.take(k - 4)).map(wrap));
        } else {
            assert(g(shown) == field_demand::<ColorModel>(4, shown.len()));
        }
    }
}

/// The grammar of colors reads back every color, whatever its model, from
/// its bytes, and keeps to their boundary.
pub proof fn lemma_color_model_reads_back(g: Grammar<ColorModel, GrammarError>, value: ColorModel)
    requires
        forall|input: Seq<u8>| #[trigger] g(input) == spec_color_model(input),
    ensures
        encodes(g, value.bytes(), value),
{
    assert(tag_cmyk()[0] == 0x43 && tag_grey()[0] == 0x47 && tag_rgb()[0] == 0x52 && tag_lab()[0]
        == 0x4C);
    match value {
        ColorModel::CMYK(color) => {
            let inner = |input: Seq<u8>| spec_cmyk(input);
            lemma_cmyk_reads_back(inner, color);
            lemma_tagged_reads_back(
                g,
                tag_cmyk(),
                inner,
                |color: Cmyk| ColorModel::CMYK(color),
                color.bytes(),
                color,
            );
        },
        ColorModel::RGB(color) => {
            let inner = |input: Seq<u8>| spec_rgb(input);
            lemma_rgb_reads_back(inner, color);
            lemma_tagged_reads_back(
                g,
                tag_rgb(),
                inner,
                |color: Rgb| ColorModel::RGB(color),
                color.bytes(),
                color,
            );
        },
        ColorModel::LAB(color) => {
            let inner = |input: Seq<u8>| spec_lab(input);
            lemma_lab_reads_back(inner, color);
            lemma_tagged_reads_back(
                g,
                tag_lab(),
                inner,
                |color: Lab| ColorModel::LAB(color),
                color.bytes(),
                color,
            );
        },
        ColorModel::GREY(color) => {
            let inner = |input: Seq<u8>| spec_grey(input);
            lemma_grey_reads_back(inner, color);
            lemma_tagged_reads_back(
                g,
                tag_grey(),
                inner,
                |color: Grey| ColorModel::GREY(color),
                color.bytes(),
                color,
            );
        },
    }
}

/// The grammar of versions is honest: while it wants more, it has not seen
/// enough to decide.
pub proof fn lemma_version_is_honest(g: Grammar<Version, GrammarError>)
    requires
        forall|input: Seq<u8>| #[trigger] g(input) == spec_version(input),
    ensures
        honest(g),
{
    assert forall|buffer: Seq<u8>, more: Seq<u8>|
        match g(buffer) {
            Outcome::NeedMore(needed) => more.len() < demand(needed),
            _ => false,
        } implies #[trigger] g(buffer + more) is NeedMore by {
        assert(g(buffer) == spec_version(buffer));
        assert(g(buffer + more) == spec_version(buffer + more));
    }
}

/// The grammar of CMYK colors is honest: while it wants more, it has not seen
/// enough to decide.
pub proof fn lemma_cmyk_is_honest(g: Grammar<Cmyk, GrammarError>)
    requires
        forall|input: Seq<u8>| #[trigger] g(input) == spec_cmyk(input),
    ensures
        honest(g),
{
    assert forall|buffer: Seq<u8>, more: Seq<u8>|
        match g(buffer) {
            Outcome::NeedMore(needed) => more.len() < demand(needed),
            _ => false,
        } implies #[trigger] g(buffer + more) is NeedMore by {
        assert(g(buffer) == spec_cmyk(buffer));
        assert(g(buffer + more) == spec_cmyk(buffer + more));
    }
}

/// The grammar of RGB colors is honest: while it wants more, it has not seen
/// enough to decide.
pub proof fn lemma_rgb_is_honest(g: Grammar<Rgb, GrammarError>)
    requires
        forall|input: Seq<u8>| #[trigger] g(input) == spec_rgb(input),
    ensures
        honest(g),
{
    assert forall|buffer: Seq<u8>, more: Seq<u8>|
        match g(buffer) {
            Outcome::NeedMore(needed) => more.len() < demand(needed),
            _ => false,
        } implies #[trigger] g(buffer + more) is NeedMore by {
        assert(g(buffer) == spec_rgb(buffer));
        assert(g(buffer + more) == spec_rgb(buffer + more));
    }
}

/// The grammar of L*a*b* colors is honest: while it wants more, it has not seen
/// enough to decide.
pub proof fn lemma_lab_is_honest(g: Grammar<Lab, GrammarError>)
    requires
        forall|input: Seq<u8>| #[trigger] g(input) == spec_lab(input),
    ensures
        honest(g),
{
    assert forall|buffer: Seq<u8>, more: Seq<u8>|
        match g(buffer) {
            Outcome::NeedMore(needed) => more.len() < demand(needed),
            _ => false,
        } implies #[trigger] g(buffer + more) is NeedMore by {
        assert(g(buffer) == spec_lab(buffer));
        assert(g(buffer + more) == spec_lab(buffer + more));
    }
}

/// The grammar of greys is honest: while it wants more, it has not seen
/// enough to decide.
pub proof fn lemma_grey_is_honest(g: Grammar<Grey, GrammarError>)
    requires
        forall|input: Seq<u8>| #[trigger] g(input) == spec_grey(input),
    ensures
        honest(g),
{
    assert forall|buffer: Seq<u8>, more: Seq<u8>|
        match g(buffer) {
            Outcome::NeedMore(needed) => more.len() < demand(needed),
            _ => false,
        } implies #[trigger] g(buffer + more) is NeedMore by {
        assert(g(buffer) == spec_grey(buffer));
        assert(g(buffer + more) == spec_grey(buffer + more));
    }
}

/// The grammar of color types is honest: while it wants more, it has not seen
/// enough to decide.
pub proof fn lemma_color_type_is_honest(g: Grammar<ColorType, GrammarError>)
    requires
        forall|input: Seq<u8>| #[trigger] g(input) == spec_color_type(input),
    ensures
        honest(g),
{
    assert forall|buffer: Seq<u8>, more: Seq<u8>|
        match g(buffer) {
            Outcome::NeedMore(needed) => more.len() < demand(needed),
            _ => false,
        } implies #[trigger] g(buffer + more) is NeedMore by {
        assert(g(buffer) == spec_color_type(buffer));
        assert(g(buffer + more) == spec_color_type(buffer + more));
    }
}

/// The grammar of colors is honest: while it wants more, it has not seen
/// enough to decide.
pub proof fn lemma_color_model_is_honest(g: Grammar<ColorModel, GrammarError>)
    requires
        forall|input: Seq<u8>| #[trigger] g(input) == spec_color_model(input),
    ensures
        honest(g),
{
    assert forall|buffer: Seq<u8>, more: Seq<u8>|
        match g(buffer) {
            Outcome::NeedMore(needed) => more.len() < demand(needed),
            _ => false,
        } implies #[trigger] g(buffer + more) is NeedMore by {
        let longer = buffer + more;
        assert(g(buffer) == spec_color_model(buffer));
        assert(g(longer) == spec_color_model(longer));
        if buffer.len() >= 4 {
            assert(longer.take(4) =~= buffer.take(4));
            assert(longer.skip(4) =~= buffer.skip(4) + more);
        }
    }
}

} // verus!
