//! The instruction set shared by the code generator and the virtual
//! machine: abstract instructions with symbolic labels, and the 32-bit
//! word encoding (an 8-bit opcode tag over a 24-bit operand field).

use vstd::prelude::*;

verus! {

/// A symbolic name attached to one line and resolved to an address
/// during generation.
pub type Label = String;

/// One abstract operation of the intermediate representation.
///
/// `JMP`, `JMZ`, `LOAD`, `STORE` and `CALL` carry a label resolved to an
/// address at generation time; `LOADC` carries a 24-bit immediate;
/// `DEC` reserves one data word holding a raw literal, emitted without
/// an opcode tag and never executed as an instruction. `StartFunc`
/// marks the entry of a function body; at run time it decodes exactly
/// as `NOOP` does.
#[derive(Debug, PartialEq)]
pub enum IR {
    JMP(Label),
    JMZ(Label),
    LOAD(Label),
    LOADC(i32),
    STORE(Label),
    CALL(Label),
    WRITE,
    ADD,
    SUB,
    DIV,
    MUL,
    ODD,
    LT,
    LTE,
    GT,
    GTE,
    EQ,
    NEQ,
    NOOP,
    StartFunc,
    RET,
    HALT,
    DEC(i32),
}

/// An instruction paired with an optional label marking its address.
#[derive(Debug)]
pub struct Line {
    pub label: Option<Label>,
    pub inst: IR,
}

impl Line {
    pub fn new(label: Option<Label>, inst: IR) -> (r: Line)
        ensures
            r.label == label,
            r.inst == inst,
    {
        Line { label, inst }
    }
}

/// True of a data-reservation line.
pub open spec fn is_dec(l: Line) -> bool {
    match l.inst {
        IR::DEC(_) => true,
        _ => false,
    }
}

/// True of a function-entry marker line.
pub open spec fn is_start_func(l: Line) -> bool {
    match l.inst {
        IR::StartFunc => true,
        _ => false,
    }
}

/// True of a return line.
pub open spec fn is_ret(l: Line) -> bool {
    match l.inst {
        IR::RET => true,
        _ => false,
    }
}

pub const OP_JMP: u32 = 0x10;
pub const OP_JMZ: u32 = 0x20;
pub const OP_LOAD: u32 = 0x30;
pub const OP_LOADC: u32 = 0x40;
pub const OP_STORE: u32 = 0x50;
pub const OP_CALL: u32 = 0x60;
pub const OP_WRITE: u32 = 0x70;
pub const OP_ADD: u32 = 0x80;
pub const OP_SUB: u32 = 0x90;
pub const OP_DIV: u32 = 0xA0;
pub const OP_MUL: u32 = 0xB0;
pub const OP_ODD: u32 = 0xC0;
pub const OP_LT: u32 = 0xD0;
pub const OP_LTE: u32 = 0xE0;
pub const OP_GT: u32 = 0xF0;
pub const OP_GTE: u32 = 0xF1;
pub const OP_EQ: u32 = 0xF2;
pub const OP_NEQ: u32 = 0xF3;
pub const OP_NOOP: u32 = 0xF4;
pub const OP_RET: u32 = 0xF5;
pub const OP_HALT: u32 = 0xF6;

/// The largest value an address or immediate operand can take: the
/// operand field is 24 bits wide.
pub const OPERAND_LIMIT: u32 = 0x0100_0000;

/// The opcode tag of an encoded word: its high byte.
pub open spec fn tag_of(w: u32) -> u32 {
    w >> 24
}

/// The operand of an encoded word: its low 24 bits.
pub open spec fn operand_of(w: u32) -> u32 {
    w & 0x00FF_FFFF
}

/// The word encoding a tagged instruction: opcode tag in the high
/// byte, operand in the low 24 bits.
#[verifier::allow_in_spec]
pub fn word_for(tag: u32, operand: u32) -> u32
    returns
        (tag << 24) | operand,
{
    (tag << 24) | operand
}

/// Encoding then decoding one operand-bearing word recovers the exact
/// opcode tag and operand, over the whole 24-bit operand range.
pub proof fn lemma_word_round_trip(tag: u32, operand: u32)
    requires
        tag <= 0xFF,
        operand < OPERAND_LIMIT,
    ensures
        tag_of(word_for(tag, operand)) == tag,
        operand_of(word_for(tag, operand)) == operand,
{
    assert(((tag << 24) | operand) >> 24 == tag) by (bit_vector)
        requires
            tag <= 0xFF,
            operand < 0x0100_0000u32,
    ;
    assert(((tag << 24) | operand) & 0x00FF_FFFF == operand) by (bit_vector)
        requires
            tag <= 0xFF,
            operand < 0x0100_0000u32,
    ;
}

} // verus!
