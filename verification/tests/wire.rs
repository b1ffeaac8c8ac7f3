use drawpad::canvas::Color;
use drawpad::frame::Frame;
use drawpad::operation::{Instruction, Tool};
use drawpad::wire::{decode_chunk, encode_chunk};
use serde::de::{Deserialize, Deserializer, EnumAccess, Error, SeqAccess, VariantAccess, Visitor};
use serde::ser::{Serialize, SerializeSeq, SerializeStruct, Serializer};

fn frame_of(instructions: &[Instruction]) -> Frame {
    let mut f = Frame::new();
    for i in instructions {
        f.push(*i);
    }
    f
}

fn every_instruction() -> Vec<Instruction> {
    vec![
        Instruction::PointerDown((1, 2)),
        Instruction::PointerMove((3, 4)),
        Instruction::PointerUp((255, 0)),
        Instruction::SetColor(Color::new(9, 8, 7)),
        Instruction::SetTool(Tool::Eraser),
        Instruction::SetTool(Tool::Pencil),
        Instruction::Clear,
        Instruction::Redo,
        Instruction::Undo,
        Instruction::Reset,
    ]
}

// The same values as the serializer sees them when the types derive its
// trait: a sequence of structs with one field, which holds a sequence of
// enum variants numbered in the order of their declaration.

struct ChunkShape<'a>(&'a [Frame]);
struct FrameShape<'a>(&'a Frame);
struct InstructionsShape<'a>(&'a [Instruction]);
struct InstructionShape<'a>(&'a Instruction);
struct ColorShape(Color);
struct ToolShape(Tool);

impl<'a> Serialize for ChunkShape<'a> {
    fn serialize<S: Serializer>(&self, s: S) -> Result<S::Ok, S::Error> {
        let mut seq = s.serialize_seq(Some(self.0.len()))?;
        for f in self.0 {
            seq.serialize_element(&FrameShape(f))?;
        }
        seq.end()
    }
}

impl<'a> Serialize for FrameShape<'a> {
    fn serialize<S: Serializer>(&self, s: S) -> Result<S::Ok, S::Error> {
        let mut st = s.serialize_struct("Frame", 1)?;
        st.serialize_field("instructions", &InstructionsShape(&self.0.instructions))?;
        st.end()
    }
}

impl<'a> Serialize for InstructionsShape<'a> {
    fn serialize<S: Serializer>(&self, s: S) -> Result<S::Ok, S::Error> {
        let mut seq = s.serialize_seq(Some(self.0.len()))?;
        for i in self.0 {
            seq.serialize_element(&InstructionShape(i))?;
        }
        seq.end()
    }
}

impl<'a> Serialize for InstructionShape<'a> {
    fn serialize<S: Serializer>(&self, s: S) -> Result<S::Ok, S::Error> {
        match self.0 {
            Instruction::PointerDown(c) => s.serialize_newtype_variant("Instruction", 0, "PointerDown", c),
            Instruction::PointerMove(c) => s.serialize_newtype_variant("Instruction", 1, "PointerMove", c),
            Instruction::PointerUp(c) => s.serialize_newtype_variant("Instruction", 2, "PointerUp", c),
            Instruction::SetColor(c) => s.serialize_newtype_variant("Instruction", 3, "SetColor", &ColorShape(*c)),
            Instruction::SetTool(t) => s.serialize_newtype_variant("Instruction", 4, "SetTool", &ToolShape(*t)),
            Instruction::Clear => s.serialize_unit_variant("Instruction", 5, "Clear"),
            Instruction::Redo => s.serialize_unit_variant("Instruction", 6, "Redo"),
            Instruction::Undo => s.serialize_unit_variant("Instruction", 7, "Undo"),
            Instruction::Reset => s.serialize_unit_variant("Instruction", 8, "Reset"),
        }
    }
}

impl Serialize for ColorShape {
    fn serialize<S: Serializer>(&self, s: S) -> Result<S::Ok, S::Error> {
        let mut st = s.serialize_struct("Color", 3)?;
        st.serialize_field("r", &self.0.r)?;
        st.serialize_field("g", &self.0.g)?;
        st.serialize_field("b", &self.0.b)?;
        st.end()
    }
}

impl Serialize for ToolShape {
    fn serialize<S: Serializer>(&self, s: S) -> Result<S::Ok, S::Error> {
        match self.0 {
            Tool::Eraser => s.serialize_unit_variant("Tool", 0, "Eraser"),
            Tool::Pencil => s.serialize_unit_variant("Tool", 1, "Pencil"),
        }
    }
}

fn sample_chunks() -> Vec<Vec<Frame>> {
    let mut long = Vec::new();
    for n in 0..15u8 {
        long.push(frame_of(&[
            Instruction::SetColor(Color::new(n, 2 * n, 255 - n)),
            Instruction::SetTool(Tool::Pencil),
            Instruction::PointerDown((n, n)),
            Instruction::PointerMove((n + 1, n)),
            Instruction::PointerUp((n + 2, 127)),
        ]));
    }
    vec![
        Vec::new(),
        vec![Frame::new()],
        vec![Frame::new(), Frame::new(), Frame::new()],
        vec![frame_of(&every_instruction())],
        vec![frame_of(&[Instruction::Reset]), Frame::new(), frame_of(&every_instruction())],
        long,
    ]
}

#[test]
fn empty_chunk_is_eight_zero_bytes() {
    assert_eq!(encode_chunk(&Vec::new()), vec![0u8; 8]);
}

#[test]
fn chunk_of_one_empty_frame() {
    let bytes = encode_chunk(&vec![Frame::new()]);
    assert_eq!(bytes, vec![1, 0, 0, 0, 0, 0, 0, 0, 0, 0, 0, 0, 0, 0, 0, 0]);
}

#[test]
fn bytes_of_every_instruction() {
    let bytes = encode_chunk(&vec![frame_of(&every_instruction())]);
    let expected: Vec<u8> = vec![
        1, 0, 0, 0, 0, 0, 0, 0, // one frame
        10, 0, 0, 0, 0, 0, 0, 0, // ten instructions
        0, 0, 0, 0, 1, 2, // pointer down at (1, 2)
        1, 0, 0, 0, 3, 4, // pointer move to (3, 4)
        2, 0, 0, 0, 255, 0, // pointer up at (255, 0)
        3, 0, 0, 0, 9, 8, 7, // set colour
        4, 0, 0, 0, 0, 0, 0, 0, // set tool: eraser
        4, 0, 0, 0, 1, 0, 0, 0, // set tool: pencil
        5, 0, 0, 0, // clear
        6, 0, 0, 0, // redo
        7, 0, 0, 0, // undo
        8, 0, 0, 0, // reset
    ];
    assert_eq!(bytes, expected);
}

#[test]
fn long_frame_has_its_length_in_eight_bytes() {
    let mut f = Frame::new();
    for _ in 0..300 {
        f.push(Instruction::Undo);
    }
    let bytes = encode_chunk(&vec![f]);
    assert_eq!(bytes.len(), 8 + 8 + 300 * 4);
    assert_eq!(&bytes[8..16], &[44, 1, 0, 0, 0, 0, 0, 0]);
}

#[test]
fn decode_inverts_encode() {
    for chunk in sample_chunks() {
        let bytes = encode_chunk(&chunk);
        assert_eq!(decode_chunk(&bytes), Some(chunk));
    }
}

#[test]
fn encode_inverts_decode() {
    for chunk in sample_chunks() {
        let bytes = encode_chunk(&chunk);
        let back = decode_chunk(&bytes).expect("decodes");
        assert_eq!(encode_chunk(&back), bytes);
    }
}

#[test]
fn bytes_after_the_chunk_are_ignored() {
    for chunk in sample_chunks() {
        let mut bytes = encode_chunk(&chunk);
        bytes.extend_from_slice(&[1, 2, 3, 4, 5, 6, 7, 8, 9]);
        assert_eq!(decode_chunk(&bytes), Some(chunk));
    }
}

#[test]
fn a_cut_chunk_is_refused() {
    for chunk in sample_chunks() {
        let bytes = encode_chunk(&chunk);
        for cut in 0..bytes.len() {
            assert_eq!(decode_chunk(&bytes[..cut]), None, "cut at {} of {}", cut, bytes.len());
        }
    }
}

#[test]
fn too_few_bytes_for_the_count_are_refused() {
    assert_eq!(decode_chunk(&[]), None);
    assert_eq!(decode_chunk(&[0, 0, 0, 0, 0, 0, 0]), None);
    assert_eq!(decode_chunk(&[0, 0, 0, 0, 0, 0, 0, 0]), Some(Vec::new()));
}

#[test]
fn an_unknown_instruction_is_refused() {
    let bytes = vec![1, 0, 0, 0, 0, 0, 0, 0, 1, 0, 0, 0, 0, 0, 0, 0, 9, 0, 0, 0];
    assert_eq!(decode_chunk(&bytes), None);
    let bytes = vec![1, 0, 0, 0, 0, 0, 0, 0, 1, 0, 0, 0, 0, 0, 0, 0, 5, 1, 0, 0];
    assert_eq!(decode_chunk(&bytes), None);
    let bytes = vec![1, 0, 0, 0, 0, 0, 0, 0, 1, 0, 0, 0, 0, 0, 0, 0, 5, 0, 0, 128];
    assert_eq!(decode_chunk(&bytes), None);
    let bytes = vec![1, 0, 0, 0, 0, 0, 0, 0, 1, 0, 0, 0, 0, 0, 0, 0, 5, 0, 0, 0];
    assert_eq!(decode_chunk(&bytes), Some(vec![frame_of(&[Instruction::Clear])]));
}

#[test]
fn an_unknown_tool_is_refused() {
    let bytes = vec![1, 0, 0, 0, 0, 0, 0, 0, 1, 0, 0, 0, 0, 0, 0, 0, 4, 0, 0, 0, 2, 0, 0, 0];
    assert_eq!(decode_chunk(&bytes), None);
    let bytes = vec![1, 0, 0, 0, 0, 0, 0, 0, 1, 0, 0, 0, 0, 0, 0, 0, 4, 0, 0, 0, 1, 0, 0, 1];
    assert_eq!(decode_chunk(&bytes), None);
}

#[test]
fn a_count_beyond_the_bytes_is_refused() {
    let mut bytes = vec![255u8; 8];
    bytes.extend_from_slice(&[0; 64]);
    assert_eq!(decode_chunk(&bytes), None);
    let mut bytes = vec![1, 0, 0, 0, 0, 0, 0, 0];
    bytes.extend_from_slice(&[255; 8]);
    bytes.extend_from_slice(&[5, 0, 0, 0, 5, 0, 0, 0]);
    assert_eq!(decode_chunk(&bytes), None);
}

#[test]
fn arbitrary_bytes_never_panic() {
    let mut state: u32 = 12345;
    for round in 0..2000 {
        let len = (round % 61) as usize;
        let mut bytes = Vec::with_capacity(len);
        for _ in 0..len {
            state = state.wrapping_mul(1664525).wrapping_add(1013904223);
            let b = (state >> 24) as u8;
            // Mostly small bytes, so that counts and tags are often valid.
            bytes.push(if b < 200 { b % 10 } else { b });
        }
        if let Some(chunk) = decode_chunk(&bytes) {
            let again = encode_chunk(&chunk);
            assert_eq!(&bytes[..again.len()], &again[..]);
        }
    }
}

#[test]
fn encode_gives_the_bytes_of_bincode() {
    for chunk in sample_chunks() {
        let theirs = bincode::serialize(&ChunkShape(&chunk)).expect("serializes");
        assert_eq!(encode_chunk(&chunk), theirs);
    }
}

#[test]
fn decode_reads_the_bytes_of_bincode() {
    for chunk in sample_chunks() {
        let theirs = bincode::serialize(&ChunkShape(&chunk)).expect("serializes");
        assert_eq!(decode_chunk(&theirs), Some(chunk));
    }
}

// The same shapes for reading: what the deserializer is asked for when the
// types derive its trait.

#[derive(Debug, PartialEq)]
struct FrameRead(Frame);
struct InstructionRead(Instruction);
struct ColorRead(Color);
struct ToolRead(Tool);

struct FrameVisitor;
struct InstructionVisitor;
struct ColorVisitor;
struct ToolVisitor;

impl<'de> Visitor<'de> for FrameVisitor {
    type Value = FrameRead;
    fn expecting(&self, f: &mut std::fmt::Formatter) -> std::fmt::Result {
        f.write_str("struct Frame")
    }
    fn visit_seq<A: SeqAccess<'de>>(self, mut seq: A) -> Result<FrameRead, A::Error> {
        let instructions: Vec<InstructionRead> =
            seq.next_element()?.ok_or_else(|| A::Error::invalid_length(0, &self))?;
        Ok(FrameRead(Frame { instructions: instructions.into_iter().map(|i| i.0).collect() }))
    }
}

impl<'de> Deserialize<'de> for FrameRead {
    fn deserialize<D: Deserializer<'de>>(d: D) -> Result<Self, D::Error> {
        d.deserialize_struct("Frame", &["instructions"], FrameVisitor)
    }
}

impl<'de> Visitor<'de> for InstructionVisitor {
    type Value = InstructionRead;
    fn expecting(&self, f: &mut std::fmt::Formatter) -> std::fmt::Result {
        f.write_str("enum Instruction")
    }
    fn visit_enum<A: EnumAccess<'de>>(self, data: A) -> Result<InstructionRead, A::Error> {
        let (index, variant): (u32, A::Variant) = data.variant()?;
        let ins = match index {
            0 => Instruction::PointerDown(variant.newtype_variant()?),
            1 => Instruction::PointerMove(variant.newtype_variant()?),
            2 => Instruction::PointerUp(variant.newtype_variant()?),
            3 => Instruction::SetColor(variant.newtype_variant::<ColorRead>()?.0),
            4 => Instruction::SetTool(variant.newtype_variant::<ToolRead>()?.0),
            5 => {
                variant.unit_variant()?;
                Instruction::Clear
            }
            6 => {
                variant.unit_variant()?;
                Instruction::Redo
            }
            7 => {
                variant.unit_variant()?;
                Instruction::Undo
            }
            8 => {
                variant.unit_variant()?;
                Instruction::Reset
            }
            _ => return Err(A::Error::custom("variant index out of range")),
        };
        Ok(InstructionRead(ins))
    }
}

impl<'de> Deserialize<'de> for InstructionRead {
    fn deserialize<D: Deserializer<'de>>(d: D) -> Result<Self, D::Error> {
        const VARIANTS: &[&str] = &[
            "PointerDown",
            "PointerMove",
            "PointerUp",
            "SetColor",
            "SetTool",
            "Clear",
            "Redo",
            "Undo",
            "Reset",
        ];
        d.deserialize_enum("Instruction", VARIANTS, InstructionVisitor)
    }
}

impl<'de> Visitor<'de> for ColorVisitor {
    type Value = ColorRead;
    fn expecting(&self, f: &mut std::fmt::Formatter) -> std::fmt::Result {
        f.write_str("struct Color")
    }
    fn visit_seq<A: SeqAccess<'de>>(self, mut seq: A) -> Result<ColorRead, A::Error> {
        let r = seq.next_element()?.ok_or_else(|| A::Error::invalid_length(0, &self))?;
        let g = seq.next_element()?.ok_or_else(|| A::Error::invalid_length(1, &self))?;
        let b = seq.next_element()?.ok_or_else(|| A::Error::invalid_length(2, &self))?;
        Ok(ColorRead(Color { r, g, b }))
    }
}

impl<'de> Deserialize<'de> for ColorRead {
    fn deserialize<D: Deserializer<'de>>(d: D) -> Result<Self, D::Error> {
        d.deserialize_struct("Color", &["r", "g", "b"], ColorVisitor)
    }
}

impl<'de> Visitor<'de> for ToolVisitor {
    type Value = ToolRead;
    fn expecting(&self, f: &mut std::fmt::Formatter) -> std::fmt::Result {
        f.write_str("enum Tool")
    }
    fn visit_enum<A: EnumAccess<'de>>(self, data: A) -> Result<ToolRead, A::Error> {
        let (index, variant): (u32, A::Variant) = data.variant()?;
        variant.unit_variant()?;
        match index {
            0 => Ok(ToolRead(Tool::Eraser)),
            1 => Ok(ToolRead(Tool::Pencil)),
            _ => Err(A::Error::custom("variant index out of range")),
        }
    }
}

impl<'de> Deserialize<'de> for ToolRead {
    fn deserialize<D: Deserializer<'de>>(d: D) -> Result<Self, D::Error> {
        d.deserialize_enum("Tool", &["Eraser", "Pencil"], ToolVisitor)
    }
}

fn bincode_reads(bytes: &[u8]) -> Option<Vec<Frame>> {
    match bincode::deserialize::<Vec<FrameRead>>(bytes) {
        Ok(frames) => Some(frames.into_iter().map(|f| f.0).collect()),
        Err(_) => None,
    }
}

#[test]
fn bincode_reads_what_encode_writes() {
    for chunk in sample_chunks() {
        assert_eq!(bincode_reads(&encode_chunk(&chunk)), Some(chunk));
    }
}

#[test]
fn decode_and_bincode_refuse_the_same_cut_bytes() {
    for chunk in sample_chunks() {
        let bytes = encode_chunk(&chunk);
        for cut in 0..=bytes.len() {
            assert_eq!(decode_chunk(&bytes[..cut]), bincode_reads(&bytes[..cut]));
        }
    }
}

#[test]
fn decode_and_bincode_agree_on_damaged_bytes() {
    let mut state: u32 = 99;
    for chunk in sample_chunks() {
        let bytes = encode_chunk(&chunk);
        for _ in 0..400 {
            let mut damaged = bytes.clone();
            state = state.wrapping_mul(1664525).wrapping_add(1013904223);
            let at = (state >> 8) as usize % damaged.len();
            state = state.wrapping_mul(1664525).wrapping_add(1013904223);
            damaged[at] = if state & 1 == 0 { (state >> 24) as u8 } else { ((state >> 24) % 12) as u8 };
            assert_eq!(decode_chunk(&damaged), bincode_reads(&damaged), "{:?}", damaged);
        }
    }
}

#[test]
fn decode_and_bincode_agree_on_arbitrary_bytes() {
    let mut state: u32 = 4242;
    let mut decoded = 0;
    for round in 0..6000 {
        let len = (round % 70) as usize;
        let mut bytes = Vec::with_capacity(len);
        for _ in 0..len {
            state = state.wrapping_mul(1664525).wrapping_add(1013904223);
            let b = (state >> 24) as u8;
            // Mostly zero and small bytes, so that counts and tags are often
            // valid.
            bytes.push(if b < 170 { 0 } else if b < 240 { b % 10 } else { b });
        }
        let ours = decode_chunk(&bytes);
        if ours.is_some() {
            decoded += 1;
        }
        assert_eq!(ours, bincode_reads(&bytes), "{:?}", bytes);
    }
    assert!(decoded > 100, "only {} byte strings decoded", decoded);
}
