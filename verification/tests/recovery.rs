use delink::emitter::SplitResolver;
use delink::model::{Function, IdaArch, IdaModel, SegClass, Section};
use delink::ownership::OwnedDataRange;
use delink::recover::{
    fs_zero_reloc, recover, recover_insn, RecoveryDiagnostics, RecoveryOutput, RelocKind,
    SymbolResolver,
};
use delink::resolver::IdaSymbols;
use delink::tables::dispatch_of;
use delink::x86::{Control, Flow, InsnKind, MemoryOperand, Operand, Reg};

fn model(functions: Vec<Function>) -> IdaModel {
    IdaModel {
        arch: IdaArch::X86,
        procname: "metapc".into(),
        bits: 32,
        little_endian: true,
        image_base: 0x400000,
        filetype: "PE".into(),
        input_file: "test.exe".into(),
        sections: vec![Section {
            name: ".text".into(),
            start: 0x401000,
            end: 0x402000,
            read: true,
            write: false,
            execute: true,
            class: SegClass::Code,
        }],
        functions,
        names: vec![],
        relocations: vec![],
        jump_tables: vec![],
    }
}

fn function(start: u64, end: u64, name: &str) -> Function {
    Function {
        start,
        end,
        name: name.into(),
        thunk: false,
        lib: false,
        is_static: false,
        public: true,
    }
}

#[test]
fn recovers_msvc_seh_exception_list_in_loads_and_stores() {
    // mov eax, fs:[0]; mov fs:[0], esp; mov eax, fs:[4]; mov eax, gs:[0]
    let bytes = [
        0x64, 0xa1, 0, 0, 0, 0, 0x64, 0x89, 0x25, 0, 0, 0, 0, 0x64, 0xa1, 4, 0, 0, 0, 0x65, 0xa1,
        0, 0, 0, 0,
    ];
    let symbols = IdaSymbols::build(&model(vec![]), &vec![]);
    let owned: Vec<OwnedDataRange> = vec![];
    let no_symbols = |msvc_x86_pe: bool| SplitResolver {
        symbols: &symbols,
        owned: &owned,
        msvc_x86_pe,
    };
    let result = recover(&bytes, 0x704230, bytes.len() as u64, &no_symbols(true))
        .ok()
        .unwrap();
    assert_eq!(result.relocs.len(), 2);
    for (reloc, offset) in result.relocs.iter().zip([2, 9]) {
        assert_eq!(reloc.offset, offset);
        assert_eq!(reloc.kind, RelocKind::Dir32);
        assert_eq!(reloc.target, "__except_list");
        assert_eq!(reloc.addend, 0);
    }
    assert!(
        recover(&bytes, 0x704230, bytes.len() as u64, &no_symbols(false))
            .ok()
            .unwrap()
            .relocs
            .is_empty()
    );
}

#[test]
fn calls_and_jumps_out_of_the_function_are_recovered() {
    let symbols = IdaSymbols::build(
        &model(vec![
            function(0x401000, 0x401010, "caller"),
            function(0x401100, 0x401120, "callee"),
        ]),
        &vec![],
    );
    let owned: Vec<OwnedDataRange> = vec![];
    let resolver = SplitResolver {
        symbols: &symbols,
        owned: &owned,
        msvc_x86_pe: false,
    };
    // call 0x401104; jmp 0x401005; call 0x403000
    let mut bytes = vec![0xe8, 0xff, 0, 0, 0, 0xe9, 0xfb, 0xff, 0xff, 0xff, 0xe8];
    bytes.extend_from_slice(&(0x403000u32 - 0x40100f).to_le_bytes());
    let result = recover(&bytes, 0x401000, bytes.len() as u64, &resolver)
        .ok()
        .unwrap();
    assert_eq!(result.relocs.len(), 1);
    assert_eq!(result.relocs[0].offset, 1);
    assert_eq!(result.relocs[0].pc, 0x401000);
    assert_eq!(result.relocs[0].kind, RelocKind::Rel32);
    assert_eq!(result.relocs[0].target, "callee");
    assert_eq!(result.relocs[0].addend, 4);
    assert_eq!(result.diag.instructions, 3);
    assert_eq!(result.diag.calls_resolved, 1);
    assert_eq!(result.diag.calls_unresolved, 1);
    assert_eq!(result.diag.decode_failures, 0);
    assert_eq!(result.diag.rip_refs_unresolved, 0);
}

#[test]
fn recovered_fields_stand_in_order() {
    let symbols = IdaSymbols::build(
        &model(vec![
            function(0x401000, 0x401020, "caller"),
            function(0x401100, 0x401120, "callee"),
        ]),
        &vec![],
    );
    let owned: Vec<OwnedDataRange> = vec![];
    let resolver = SplitResolver {
        symbols: &symbols,
        owned: &owned,
        msvc_x86_pe: true,
    };
    // mov eax, fs:[0]; push eax; mov fs:[0], esp; call 0x401100;
    // mov dword ptr fs:[0], 7; a call without its last byte
    let mut bytes = vec![0x64, 0xa1, 0, 0, 0, 0, 0x50, 0x64, 0x89, 0x25, 0, 0, 0, 0, 0xe8];
    bytes.extend_from_slice(&(0x401100u32 - 0x401013).to_le_bytes());
    bytes.extend_from_slice(&[0x64, 0xc7, 0x05, 0, 0, 0, 0, 7, 0, 0, 0]);
    bytes.extend_from_slice(&[0xe8, 0, 0, 0]);
    let result = recover(&bytes, 0x401000, bytes.len() as u64, &resolver)
        .ok()
        .unwrap();
    let fields: Vec<(u64, RelocKind)> = result
        .relocs
        .iter()
        .map(|reloc| (reloc.offset, reloc.kind))
        .collect();
    assert_eq!(
        fields,
        vec![
            (2, RelocKind::Dir32),
            (10, RelocKind::Dir32),
            (15, RelocKind::Rel32),
            (22, RelocKind::Dir32)
        ]
    );
    assert_eq!(result.diag.decode_failures, 1);
}

#[test]
fn resolvers_have_defaults() {
    let symbols = IdaSymbols::build(&model(vec![]), &vec![]);
    assert_eq!(symbols.resolve_fs_zero(), None);
    assert!(symbols.is_intra_function(0x1000, 0x10, 0x1000));
    assert!(symbols.is_intra_function(0x1000, 0x10, 0x100f));
    assert!(!symbols.is_intra_function(0x1000, 0x10, 0x1010));
    assert!(!symbols.is_intra_function(0x1000, 0x10, 0xfff));
}

#[test]
fn rep_ret_prefixes_are_found() {
    let symbols = IdaSymbols::build(&model(vec![]), &vec![]);
    // nop; rep ret; ret
    let bytes = [0x90, 0xf3, 0xc3, 0xc3];
    let result = recover(&bytes, 0x401000, bytes.len() as u64, &symbols)
        .ok()
        .unwrap();
    assert_eq!(result.rep_ret_offsets, vec![1]);
    assert!(result.relocs.is_empty());
}

fn plain_control(len: usize) -> Control {
    Control {
        len,
        invalid: false,
        kind: InsnKind::Other,
        flow: Flow::Other,
        target: 0,
    }
}

fn no_operand() -> MemoryOperand {
    MemoryOperand {
        first: Operand::Other,
        segment: Reg::Other,
        base: Reg::Absent,
        index: Reg::Absent,
        scale: 1,
        displacement: 0,
        displacement_offset: 0,
        displacement_size: 0,
    }
}

fn nothing() -> RecoveryOutput {
    RecoveryOutput {
        relocs: vec![],
        diag: RecoveryDiagnostics::default(),
        rep_ret_offsets: vec![],
    }
}

#[test]
fn instructions_are_taken_one_by_one() {
    let symbols = IdaSymbols::build(
        &model(vec![function(0x401100, 0x401120, "callee")]),
        &vec![],
    );
    let owned: Vec<OwnedDataRange> = vec![];
    let resolver = SplitResolver {
        symbols: &symbols,
        owned: &owned,
        msvc_x86_pe: true,
    };
    let mut out = nothing();
    let mut call = plain_control(6);
    call.flow = Flow::Branch;
    call.target = 0x401108;
    recover_insn(
        0x0f,
        &call,
        &no_operand(),
        0x401000,
        0x40,
        0x10,
        &resolver,
        &mut out,
    );
    assert_eq!(out.relocs.len(), 1);
    assert_eq!(out.relocs[0].offset, 0x12);
    assert_eq!(out.relocs[0].pc, 0x401010);
    assert_eq!(out.relocs[0].addend, 8);
    assert_eq!(out.diag.calls_resolved, 1);
    // Within the function, or too short for a 32-bit field.
    call.target = 0x40103f;
    recover_insn(0x0f, &call, &no_operand(), 0x401000, 0x40, 0x16, &resolver, &mut out);
    call.target = 0x401108;
    call.len = 2;
    recover_insn(0x75, &call, &no_operand(), 0x401000, 0x40, 0x1c, &resolver, &mut out);
    assert_eq!(out.relocs.len(), 1);
    assert_eq!(out.diag.instructions, 3);
    // Undecodable bytes count, and nothing else.
    let mut bad = plain_control(1);
    bad.invalid = true;
    recover_insn(0xf3, &bad, &no_operand(), 0x401000, 0x40, 0x1e, &resolver, &mut out);
    assert_eq!(out.diag.decode_failures, 1);
    assert_eq!(out.diag.instructions, 4);
}

#[test]
fn fs_zero_needs_an_explicit_displacement() {
    let symbols = IdaSymbols::build(&model(vec![]), &vec![]);
    let owned: Vec<OwnedDataRange> = vec![];
    let resolver = SplitResolver {
        symbols: &symbols,
        owned: &owned,
        msvc_x86_pe: true,
    };
    let mut operand = no_operand();
    operand.segment = Reg::Fs;
    operand.displacement_offset = 3;
    assert!(fs_zero_reloc(&operand, 0x401000, 4, &resolver).is_none());
    operand.displacement_size = 4;
    let reloc = fs_zero_reloc(&operand, 0x401000, 4, &resolver).unwrap();
    assert_eq!((reloc.offset, reloc.pc), (7, 0x401004));
    assert_eq!(reloc.target, "__except_list");
    operand.displacement = 4;
    assert!(fs_zero_reloc(&operand, 0x401000, 4, &resolver).is_none());
}

#[test]
fn dispatches_jump_through_a_table() {
    let mut jump = plain_control(7);
    jump.kind = InsnKind::Jmp;
    let mut operand = no_operand();
    operand.first = Operand::Memory;
    operand.scale = 4;
    operand.displacement = 0x1010;
    operand.displacement_offset = 3;
    operand.displacement_size = 4;
    let found = dispatch_of(&jump, &operand, 0x1000, 0x1000, 0x1020).unwrap();
    assert_eq!((found.table, found.ip, found.field), (0x1010, 0x1000, 0x1003));
    assert!(dispatch_of(&jump, &operand, 0x1000, 0x1000, 0x1010).is_none());
    assert!(dispatch_of(&jump, &operand, 0x1000, 0x1011, 0x1020).is_none());
    operand.scale = 8;
    assert!(dispatch_of(&jump, &operand, 0x1000, 0x1000, 0x1020).is_none());
}
