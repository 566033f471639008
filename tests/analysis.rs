use strngr::analysis::{Access, Accesses};
use strngr::arch::{Arch, Bits, Endian};
use strngr::arm::{
    Block, Cond, Instruction, Opcode, Operand, REG_NONE, REG_PC, REG_R0, REG_R1, REG_R2, REG_R4, REG_SP,
};
use strngr::comparisons::{
    analyse_block, filter_block, function_contributions, get_static_data_comparisons, is_retained,
};
use strngr::function::Function;
use strngr::image::Image;
use strngr::segment::{Segment, Segments};

fn insn(address: u64, opcode: Opcode, cc: Cond, operands: Vec<Operand>, reads: Vec<u16>, writes: Vec<u16>) -> Instruction {
    Instruction { address, opcode, cc, operands, reg_reads: reads, reg_writes: writes }
}

fn padded(prefix: &[u8], len: usize) -> Vec<u8> {
    let mut v = prefix.to_vec();
    v.resize(len, 0);
    v
}

/// `LDR R1, [PC, #4]; MOV R0, R4; BL callee; CBZ R0, 0x1100` at `start`.
fn strcmp_block(start: u64, callee: u64) -> Block {
    let insns = vec![
        insn(start, Opcode::Ldr, Cond::Al,
             vec![Operand::Reg(REG_R1), Operand::Mem { base: REG_PC, index: REG_NONE, disp: 4 }],
             vec![REG_PC], vec![REG_R1]),
        insn(start + 4, Opcode::Mov, Cond::Al, vec![Operand::Reg(REG_R0), Operand::Reg(REG_R4)],
             vec![REG_R4], vec![REG_R0]),
        insn(start + 8, Opcode::Bl, Cond::Al, vec![Operand::Imm(callee as i32)], vec![], vec![15]),
        insn(start + 12, Opcode::Cbz, Cond::Al, vec![Operand::Reg(REG_R0), Operand::Imm(0x1100)],
             vec![REG_R0], vec![]),
    ];
    Block::new(start, start + 16, vec![0x1100, 0x1200], false, insns)
}

fn image_with(string: &[u8], blocks: Vec<Block>) -> Image {
    let mut segments = Segments::new();
    let mut code = vec![0u8; 0x100];
    code[0xc..0x10].copy_from_slice(&[0x00, 0x30, 0x00, 0x00]);
    segments.add(Segment::new(0x1000, 0x1100, String::from(".text"), code));
    segments.add(Segment::new(0x3000, 0x3100, String::from(".rodata"), padded(string, 0x40)));
    Image {
        arch: Arch::Arm,
        bits: Bits::Bits32,
        endian: Endian::Little,
        segments,
        functions: vec![Function { name: String::from("f"), start_addr: 0x1000, end_addr: 0x1100, blocks }],
    }
}

#[test]
fn cbz_after_direct_strcmp() {
    let img = image_with(b"hello\0", vec![strcmp_block(0x1000, 0x2000)]);
    let raw = img.functions[0].blocks[0].get_zcond_arguments(3, Endian::Little, &img.segments).unwrap().unwrap();
    assert_eq!(raw.function, 0x2000);
    assert_eq!(raw.destination, 0x1100);
    assert_eq!(raw.arguments.0, vec![Access::Register, Access::Constant(0x3000), Access::Never]);
    let info = analyse_block(&img, &img.functions[0].blocks[0]).unwrap().unwrap();
    assert_eq!(info.arguments.0, vec![Access::Register, Access::String(0x3000, 5), Access::Never]);
    let kept = filter_block(&img, &img.functions[0].blocks[0]).unwrap().unwrap();
    assert_eq!(kept.function, 0x2000);
    assert_eq!(kept.string_arguments, vec![b"hello".to_vec()]);
}

#[test]
fn cmp_bne_takes_other_successor() {
    let insns = vec![
        insn(0x1000, Opcode::Bl, Cond::Al, vec![Operand::Imm(0x2000)], vec![], vec![15]),
        insn(0x1004, Opcode::Cmp, Cond::Al, vec![Operand::Reg(REG_R0), Operand::Imm(0)], vec![REG_R0], vec![]),
        insn(0x1008, Opcode::B, Cond::Ne, vec![Operand::Imm(0x1300)], vec![], vec![]),
    ];
    let b = Block::new(0x1000, 0x100c, vec![0x1300, 0x1400], false, insns);
    let segs = Segments::new();
    let a = b.get_zcond_arguments(3, Endian::Little, &segs).unwrap().unwrap();
    assert_eq!(a.destination, 0x1400);
    assert_eq!(a.function, 0x2000);
    assert_eq!(a.arguments.0, vec![Access::Never, Access::Never, Access::Never]);
}

#[test]
fn no_pattern_or_no_call_gives_none() {
    let segs = Segments::new();
    let plain = Block::new(0, 4, vec![], false, vec![insn(0, Opcode::Mov, Cond::Al, vec![Operand::Reg(REG_R0), Operand::Imm(1)], vec![], vec![REG_R0])]);
    assert!(plain.get_zcond_arguments(3, Endian::Little, &segs).unwrap().is_none());
    let no_call = Block::new(0, 8, vec![8], false, vec![
        insn(0, Opcode::Mov, Cond::Al, vec![Operand::Reg(REG_R0), Operand::Imm(1)], vec![], vec![REG_R0]),
        insn(4, Opcode::Cbz, Cond::Al, vec![Operand::Reg(REG_R0), Operand::Imm(8)], vec![REG_R0], vec![]),
    ]);
    assert!(no_call.get_zcond_arguments(3, Endian::Little, &segs).unwrap().is_none());
    let cbnz_empty = Block::new(0, 8, vec![], false, vec![
        insn(0, Opcode::Bl, Cond::Al, vec![Operand::Imm(0x40)], vec![], vec![15]),
        insn(4, Opcode::Cbnz, Cond::Al, vec![Operand::Reg(REG_R0), Operand::Imm(8)], vec![REG_R0], vec![]),
    ]);
    assert!(cbnz_empty.get_zcond_arguments(3, Endian::Little, &segs).unwrap().is_none());
}

#[test]
fn thumb_pc_relative_load() {
    let mut segs = Segments::new();
    let mut code = vec![0u8; 0x40];
    code[0x18..0x1c].copy_from_slice(&[0x00, 0x00, 0x40, 0x00]);
    segs.add(Segment::new(0x4000, 0x4100, String::from(".rodata"), padded(b"abc\0", 0x20)));
    segs.add(Segment::new(0x8000, 0x8100, String::from(".text"), code));
    let insns = vec![
        insn(0x8000, Opcode::Mov, Cond::Al, vec![Operand::Reg(REG_R0), Operand::Reg(REG_SP)], vec![REG_SP], vec![REG_R0]),
        insn(0x8004, Opcode::Ldr, Cond::Al,
             vec![Operand::Reg(REG_R1), Operand::Mem { base: REG_PC, index: REG_NONE, disp: 0x10 }],
             vec![REG_PC], vec![REG_R1]),
        insn(0x8006, Opcode::Bl, Cond::Al, vec![Operand::Imm(0x9000)], vec![], vec![15]),
        insn(0x800a, Opcode::Cbz, Cond::Al, vec![Operand::Reg(REG_R0), Operand::Imm(0x8100)], vec![REG_R0], vec![]),
    ];
    let b = Block::new(0x8000, 0x800c, vec![0x8100, 0x800c], true, insns);
    let a = b.get_zcond_arguments(3, Endian::Big, &segs).unwrap().unwrap();
    assert_eq!(a.arguments.0, vec![Access::Stack, Access::Constant(0x4000), Access::Never]);
    let img = Image { arch: Arch::Arm, bits: Bits::Bits32, endian: Endian::Big, segments: segs, functions: vec![] };
    let info = analyse_block(&img, &b).unwrap().unwrap();
    assert_eq!(info.arguments.0[1], Access::String(0x4000, 3));
}

#[test]
fn failed_load_is_an_error() {
    let segs = Segments::new();
    let insns = vec![
        insn(0x8000, Opcode::Ldr, Cond::Al, vec![Operand::Reg(REG_R1), Operand::Imm(0x500)], vec![], vec![REG_R1]),
        insn(0x8004, Opcode::Bl, Cond::Al, vec![Operand::Imm(0x9000)], vec![], vec![15]),
        insn(0x8008, Opcode::Cbz, Cond::Al, vec![Operand::Reg(REG_R0), Operand::Imm(0x8100)], vec![REG_R0], vec![]),
    ];
    let b = Block::new(0x8000, 0x800c, vec![0x8100], false, insns);
    assert!(b.get_zcond_arguments(3, Endian::Little, &segs).is_err());
}

#[test]
fn movw_movt_builds_constant_and_keeps_others() {
    let segs = Segments::new();
    let insns = vec![
        insn(0, Opcode::Movw, Cond::Al, vec![Operand::Reg(REG_R1), Operand::Imm(0x1234)], vec![], vec![REG_R1]),
        insn(4, Opcode::Movt, Cond::Al, vec![Operand::Reg(REG_R1), Operand::Imm(0x5678)], vec![REG_R1], vec![REG_R1]),
        insn(8, Opcode::Add, Cond::Al, vec![Operand::Reg(REG_R2), Operand::Reg(REG_SP)], vec![REG_SP], vec![REG_R2]),
        insn(12, Opcode::Movt, Cond::Al, vec![Operand::Reg(REG_R2), Operand::Imm(0x1)], vec![REG_R2], vec![REG_R2]),
        insn(16, Opcode::Mov, Cond::Al, vec![Operand::Reg(REG_R0), Operand::Imm(7)], vec![], vec![REG_R0]),
        insn(20, Opcode::Add, Cond::Al, vec![Operand::Reg(REG_R0), Operand::Imm(-8)], vec![REG_R0], vec![REG_R0]),
        insn(24, Opcode::Bl, Cond::Al, vec![Operand::Imm(0x40)], vec![], vec![15]),
        insn(28, Opcode::Cbz, Cond::Al, vec![Operand::Reg(REG_R0), Operand::Imm(0x80)], vec![REG_R0], vec![]),
    ];
    let b = Block::new(0, 32, vec![0x80, 32], false, insns);
    let a = b.get_zcond_arguments(3, Endian::Little, &segs).unwrap().unwrap();
    assert_eq!(a.arguments.0, vec![Access::Constant(-1), Access::Constant(0x5678_1234), Access::Stack]);
}

#[test]
fn format_strings_are_not_retained() {
    let img = image_with(b"%s\there\0", vec![strcmp_block(0x1000, 0x2000)]);
    assert!(filter_block(&img, &img.functions[0].blocks[0]).unwrap().is_none());
    let c = get_static_data_comparisons(&img).unwrap();
    assert!(c.block_analyses.is_empty());
    assert!(c.function_scores.is_empty());
}

#[test]
fn percent_or_tab_alone_is_retained() {
    for s in [&b"100%\0"[..], &b"a\tb\0"[..]] {
        let img = image_with(s, vec![strcmp_block(0x1000, 0x2000)]);
        assert!(filter_block(&img, &img.functions[0].blocks[0]).unwrap().is_some());
    }
    assert!(!is_retained(&vec![b"%\t".to_vec()], 1, 0));
    assert!(is_retained(&vec![b"%".to_vec()], 1, 0));
    assert!(is_retained(&vec![b"\t".to_vec()], 0, 1));
    assert!(!is_retained(&vec![b"x".to_vec()], 0, 0));
    assert!(!is_retained(&vec![], 1, 1));
}

#[test]
fn single_callee_bonus() {
    let mut second = strcmp_block(0x1040, 0x2000);
    for i in second.insns.iter_mut() {
        if i.opcode == Opcode::Ldr {
            i.operands[1] = Operand::Mem { base: REG_PC, index: REG_NONE, disp: -0x3c };
        }
    }
    let img = image_with(b"hello\0", vec![strcmp_block(0x1000, 0x2000), second]);
    let c = get_static_data_comparisons(&img).unwrap();
    assert_eq!(c.block_analyses.len(), 2);
    // Scores are kept in fifths of a point: 2 blocks * 1.2 = 2.4 = 12 / 5.
    assert_eq!(c.function_scores.get(&0x2000), Some(&12));
}

#[test]
fn contributions_in_fifths() {
    assert_eq!(function_contributions(&vec![(0x2000, 2)]), vec![(0x2000, 12)]);
    assert_eq!(function_contributions(&vec![(0x2000, 2), (0x3000, 1)]), vec![(0x2000, 10), (0x3000, 5)]);
    assert_eq!(function_contributions(&vec![(1, u64::MAX)]), vec![(1, u64::MAX)]);
}

#[test]
fn access_helpers() {
    assert_eq!(Access::Constant(i32::MAX).wrapping_add(1), Access::Constant(i32::MIN));
    assert_eq!(Access::<i32>::Stack.wrapping_add(1), Access::Stack);
    assert_eq!(Access::Constant(3i32).map_constant(|v| v as i64 * 2), Access::Constant(6i64));
    assert_eq!(Access::<i32>::String(4, 2).map_constant(|v| v as i64), Access::String(4, 2));
    let mut a: Accesses<i64> = Accesses::new(2);
    *a.get_mut(1) = Access::Other;
    assert_eq!(*a.get(0), Access::Never);
    assert_eq!(*a.get(1), Access::Other);
}
