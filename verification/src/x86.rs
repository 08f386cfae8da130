//! Single 32-bit x86 instructions, as the disassembler sees them.

use iced_x86::{Decoder, DecoderOptions, FlowControl, Mnemonic, OpKind, Register};
use vstd::prelude::*;

verus! {

#[derive(Debug, Clone, Copy, PartialEq, Eq, Structural)]
pub enum InsnKind {
    Ret,
    Jmp,
    Other,
}

/// Where an instruction passes control.
#[derive(Debug, Clone, Copy, PartialEq, Eq, Structural)]
pub enum Flow {
    Call,
    Jump,
    Branch,
    Other,
}

/// What an instruction does and where it leads.
#[derive(Debug, Clone, Copy)]
pub struct Control {
    pub len: usize,
    pub invalid: bool,
    pub kind: InsnKind,
    pub flow: Flow,
    /// The absolute target of a near branch.
    pub target: u32,
}

#[derive(Debug, Clone, Copy, PartialEq, Eq, Structural)]
pub enum Operand {
    Memory,
    Other,
}

#[derive(Debug, Clone, Copy, PartialEq, Eq, Structural)]
pub enum Reg {
    Absent,
    Fs,
    Other,
}

/// The memory operand of an instruction.
#[derive(Debug, Clone, Copy)]
pub struct MemoryOperand {
    pub first: Operand,
    pub segment: Reg,
    pub base: Reg,
    pub index: Reg,
    pub scale: u32,
    pub displacement: u64,
    /// Place and width of the displacement within the instruction; the width
    /// is zero where none is encoded.
    pub displacement_offset: usize,
    pub displacement_size: usize,
}

/// What the disassembler makes of the instruction at the start of `code`.
pub uninterp spec fn control_of(code: Seq<u8>, ip: u64) -> Control;

/// What the disassembler makes of the memory operand of the instruction at the
/// start of `code`.
pub uninterp spec fn memory_operand_of(code: Seq<u8>, ip: u64) -> MemoryOperand;

/// `iced_x86::Decoder::decode` in 32-bit mode, on the instruction at `ip` that
/// begins with the first byte of `code`: its length, which is at least one byte
/// and does not reach behind `code`, validity, mnemonic, control flow and near
/// branch target. What these are for given bytes is left to the name.
#[verifier::external_body]
pub(crate) fn decode_control(code: &[u8], ip: u64) -> (r: Control)
    requires
        code@.len() > 0,
    ensures
        r == control_of(code@, ip),
        1 <= r.len <= 15,
        r.len <= code@.len(),
{
    let insn = Decoder::with_ip(32, code, ip, DecoderOptions::NONE).decode();
    let kind = match insn.mnemonic() {
        Mnemonic::Ret => InsnKind::Ret,
        Mnemonic::Jmp => InsnKind::Jmp,
        _ => InsnKind::Other,
    };
    let flow = match insn.flow_control() {
        FlowControl::Call => Flow::Call,
        FlowControl::UnconditionalBranch => Flow::Jump,
        FlowControl::ConditionalBranch => Flow::Branch,
        _ => Flow::Other,
    };
    Control { len: insn.len(), invalid: insn.is_invalid(), kind, flow, target: insn.near_branch32() }
}

/// `iced_x86::Decoder::decode` and `get_constant_offsets` in 32-bit mode, on the
/// instruction at `ip` that begins with the first byte of `code`: the kind of its
/// first operand, and the segment, base, index, scale and displacement of its
/// memory operand. A displacement lies within the instruction, and a direct call,
/// jump or branch has none. What these are for given bytes is left to the name.
#[verifier::external_body]
pub(crate) fn decode_memory_operand(code: &[u8], ip: u64) -> (r: MemoryOperand)
    requires
        code@.len() > 0,
    ensures
        r == memory_operand_of(code@, ip),
        r.displacement_offset + r.displacement_size <= control_of(code@, ip).len,
        control_of(code@, ip).flow != Flow::Other ==> r.displacement_size == 0,
{
    let mut decoder = Decoder::with_ip(32, code, ip, DecoderOptions::NONE);
    let insn = decoder.decode();
    let offsets = decoder.get_constant_offsets(&insn);
    MemoryOperand {
        first: match insn.op0_kind() { OpKind::Memory => Operand::Memory, _ => Operand::Other },
        segment: match insn.memory_segment() { Register::FS => Reg::Fs, _ => Reg::Other },
        base: match insn.memory_base() { Register::None => Reg::Absent, _ => Reg::Other },
        index: match insn.memory_index() { Register::None => Reg::Absent, _ => Reg::Other },
        scale: insn.memory_index_scale(),
        displacement: insn.memory_displacement64(),
        displacement_offset: offsets.displacement_offset(),
        displacement_size: offsets.displacement_size(),
    }
}

} // verus!
