use vstd::prelude::*;

use crate::analysis::{add_to_constant, widen, Access, Accesses, Constant, ZCondBranchAnalysis};
use crate::arch::Endian;
use crate::segment::{SegmentError, Segments};

use std::collections::{BTreeMap, BTreeSet};

verus! {

/// Register numbers of the instruction model; 0 stands for "no register".
pub const REG_NONE: u16 = 0;
pub const REG_R0: u16 = 1;
pub const REG_R1: u16 = 2;
pub const REG_R2: u16 = 3;
pub const REG_R3: u16 = 4;
pub const REG_R4: u16 = 5;
pub const REG_SP: u16 = 14;
pub const REG_LR: u16 = 15;
pub const REG_PC: u16 = 16;

/// The ARM opcodes the evaluator tells apart.
#[derive(Clone, Copy, Debug, PartialEq, Eq, Structural)]
pub enum Opcode {
    Add,
    B,
    Bl,
    Blx,
    Bx,
    Cbnz,
    Cbz,
    Cmp,
    Ldr,
    Mov,
    Movt,
    Movw,
    Other,
}

/// The condition code of an instruction.
#[derive(Clone, Copy, Debug, PartialEq, Eq, Structural)]
pub enum Cond {
    Al,
    Eq,
    Ne,
    Other,
}

/// An instruction operand.
#[derive(Clone, Copy, Debug, PartialEq, Eq, Structural)]
pub enum Operand {
    Reg(u16),
    Imm(i32),
    /// `[base, index, #disp]`; an `index` of `REG_NONE` means no index register.
    Mem { base: u16, index: u16, disp: i32 },
    Other,
}

/// A decoded instruction.
#[derive(Debug)]
pub struct Instruction {
    pub address: u64,
    pub opcode: Opcode,
    pub cc: Cond,
    pub operands: Vec<Operand>,
    pub reg_reads: Vec<u16>,
    pub reg_writes: Vec<u16>,
}

/// A basic block of ARM or Thumb code.
#[derive(Debug)]
pub struct Block {
    pub start_addr: u64,
    pub end_addr: u64,
    pub is_thumb: bool,
    pub dests: Vec<u64>,
    pub insns: Vec<Instruction>,
}

/// The `k`th operand of `insn`, or `Other` when it has fewer.
pub open spec fn operand_of(insn: Instruction, k: int) -> Operand {
    if 0 <= k < insn.operands@.len() {
        insn.operands@[k]
    } else {
        Operand::Other
    }
}

pub open spec fn is_call_op(op: Opcode) -> bool {
    op == Opcode::Bl || op == Opcode::Blx
}

/// The argument slot that a register fills: R0 to R4 fill slots 0 to 4.
pub open spec fn arg_slot(reg: u16) -> Option<usize> {
    if REG_R0 <= reg && reg <= REG_R4 {
        Some((reg - REG_R0) as usize)
    } else {
        None
    }
}

/// The first successor that differs from `t`.
pub open spec fn first_other(d: Seq<u64>, t: u64) -> Option<u64>
    decreases d.len(),
{
    if d.len() == 0 {
        None
    } else if d[0] != t {
        Some(d[0])
    } else {
        first_other(d.drop_first(), t)
    }
}

/// The successor taken when a branch to `target` is not: the first successor
/// other than the target, else the first successor.
pub open spec fn fall_through(dests: Seq<u64>, target: Operand) -> Option<u64> {
    match target {
        Operand::Imm(t) => match first_other(dests, #[verifier::truncate] (t as u64)) {
            Some(d) => Some(d),
            None => if dests.len() > 0 { Some(dests[0]) } else { None },
        },
        _ => if dests.len() > 0 { Some(dests[0]) } else { None },
    }
}

/// The zero-conditional branch at the end of a block: the tested register, the
/// successor taken when it is zero, and how many instructions the pattern spans.
pub open spec fn tail_pattern(insns: Seq<Instruction>, dests: Seq<u64>) -> Option<(u16, u64, int)> {
    if insns.len() == 0 {
        None
    } else {
        let last = insns.last();
        if (last.opcode == Opcode::Cbz || last.opcode == Opcode::Cbnz) && last.cc == Cond::Al {
            match operand_of(last, 0) {
                Operand::Reg(r) => if last.opcode == Opcode::Cbz {
                    match operand_of(last, 1) {
                        Operand::Imm(d) => Some((r, #[verifier::truncate] (d as u64), 1)),
                        _ => None,
                    }
                } else {
                    match fall_through(dests, operand_of(last, 1)) {
                        Some(d) => Some((r, d, 1)),
                        None => None,
                    }
                },
                _ => None,
            }
        } else if (last.opcode == Opcode::B || last.opcode == Opcode::Bx) && (last.cc == Cond::Eq
            || last.cc == Cond::Ne) {
            if insns.len() < 2 {
                None
            } else {
                let comp = insns[insns.len() - 2];
                let dest = if last.cc == Cond::Eq {
                    match operand_of(last, 0) {
                        Operand::Imm(d) => Some(#[verifier::truncate] (d as u64)),
                        _ => None,
                    }
                } else {
                    fall_through(dests, operand_of(last, 0))
                };
                match dest {
                    None => None,
                    Some(d) => if comp.opcode == Opcode::Cmp && comp.cc == Cond::Al {
                        match (operand_of(comp, 0), operand_of(comp, 1)) {
                            (Operand::Reg(r), Operand::Imm(0)) => Some((r, d, 2)),
                            (Operand::Imm(0), Operand::Reg(r)) => Some((r, d, 2)),
                            _ => None,
                        }
                    } else {
                        None
                    },
                }
            }
        } else {
            None
        }
    }
}

/// The tainted registers before an instruction that writes `writes` and reads
/// `reads`, given those tainted after it.
pub open spec fn taint_before(taint: Set<u16>, writes: Seq<u16>, reads: Set<u16>) -> Set<u16>
    decreases writes.len(),
{
    if writes.len() == 0 {
        taint
    } else {
        let t = taint_before(taint, writes.drop_last(), reads);
        if t.contains(writes.last()) {
            t.remove(writes.last()).union(reads)
        } else {
            t
        }
    }
}

/// Walking back from instruction `i - 1`, the first call: its target and its
/// index, when the target is immediate and the value in R0 reaches the test.
pub open spec fn find_call(insns: Seq<Instruction>, i: int, taint: Set<u16>) -> Option<(u64, int)>
    decreases i,
{
    if i <= 0 || i > insns.len() {
        None
    } else {
        let insn = insns[i - 1];
        if is_call_op(insn.opcode) {
            match operand_of(insn, 0) {
                Operand::Imm(a) => if taint.contains(REG_R0) {
                    Some((#[verifier::truncate] (a as u64), i - 1))
                } else {
                    None
                },
                _ => None,
            }
        } else {
            find_call(
                insns,
                i - 1,
                taint_before(taint, insn.reg_writes@, insn.reg_reads@.to_set()),
            )
        }
    }
}

/// The value of PC that an instruction at `addr` reads: 8 bytes ahead in ARM
/// state, 4 in Thumb state.
pub open spec fn pc_base(addr: u64, thumb: bool) -> i32 {
    (#[verifier::truncate] (addr as i32)).wrapping_add(if thumb { 4i32 } else { 8i32 })
}

/// In Thumb state, bit 1 of a PC-relative value is cleared.
pub open spec fn align_pc(v: i32, thumb: bool) -> i32 {
    if thumb {
        v & !2i32
    } else {
        v
    }
}

/// `MOVT`: the immediate replaces the upper half of the constant.
pub open spec fn movt_value(v: i32, imm: i32) -> i32 {
    (v & 0xffffi32) | (imm << 16i32)
}

/// Every register in `writes` is set to `Other`.
pub open spec fn clobber(vals: Map<u16, Access<i32>>, writes: Seq<u16>) -> Map<u16, Access<i32>>
    decreases writes.len(),
{
    if writes.len() == 0 {
        vals
    } else {
        clobber(vals, writes.drop_last()).insert(writes.last(), Access::Other)
    }
}

/// The effect of one instruction on what the registers hold.
pub open spec fn eval_step(
    vals: Map<u16, Access<i32>>,
    insn: Instruction,
    thumb: bool,
    endian: Endian,
    mem: Segments,
) -> Result<Map<u16, Access<i32>>, crate::segment::SegmentError> {
    let op0 = operand_of(insn, 0);
    let op1 = operand_of(insn, 1);
    match insn.opcode {
        Opcode::Add => match op0 {
            Operand::Reg(t) => Ok(
                match op1 {
                    Operand::Imm(k) => if vals.contains_key(t) {
                        vals.insert(t, add_to_constant(vals[t], k))
                    } else {
                        vals.insert(t, Access::Other)
                    },
                    Operand::Reg(s) => if s == REG_PC {
                        if vals.contains_key(t) {
                            let a = add_to_constant(vals[t], pc_base(insn.address, thumb));
                            vals.insert(
                                t,
                                match a {
                                    Access::Constant(c) => Access::Constant(align_pc(c, thumb)),
                                    _ => a,
                                },
                            )
                        } else {
                            vals.insert(t, Access::Other)
                        }
                    } else if s == REG_SP {
                        vals.insert(t, Access::Stack)
                    } else {
                        vals.insert(t, Access::Other)
                    },
                    _ => vals.insert(t, Access::Other),
                },
            ),
            _ => Ok(vals),
        },
        Opcode::Ldr => match op0 {
            Operand::Reg(t) => match op1 {
                Operand::Reg(s) => Ok(
                    vals.insert(t, if vals.contains_key(s) { vals[s] } else { Access::Register }),
                ),
                Operand::Imm(k) => match mem.i32_at(endian, #[verifier::truncate] (k as i64 as u64)) {
                    Ok(v) => Ok(vals.insert(t, Access::Constant(v))),
                    Err(e) => Err(e),
                },
                Operand::Mem { base, index, disp } => if index != REG_NONE {
                    Ok(vals)
                } else if base == REG_PC {
                    let a = align_pc(pc_base(insn.address, thumb).wrapping_add(disp), thumb);
                    match mem.i32_at(endian, #[verifier::truncate] (a as i64 as u64)) {
                        Ok(v) => Ok(vals.insert(t, Access::Constant(v))),
                        Err(e) => Err(e),
                    }
                } else if base == REG_SP {
                    Ok(vals.insert(t, Access::Stack))
                } else if vals.contains_key(base) {
                    Ok(vals.insert(t, add_to_constant(vals[base], disp)))
                } else {
                    Ok(vals.insert(t, Access::Register))
                },
                Operand::Other => Ok(vals),
            },
            _ => Ok(vals),
        },
        Opcode::Mov => match op0 {
            Operand::Reg(t) => match op1 {
                Operand::Reg(s) => Ok(
                    if s == REG_PC {
                        vals.insert(
                            t,
                            Access::Constant(align_pc(pc_base(insn.address, thumb), thumb)),
                        )
                    } else if s == REG_SP {
                        vals.insert(t, Access::Stack)
                    } else if vals.contains_key(s) {
                        vals.insert(t, vals[s])
                    } else {
                        vals.insert(t, Access::Register)
                    },
                ),
                Operand::Imm(k) => Ok(vals.insert(t, Access::Constant(k))),
                _ => Ok(vals),
            },
            _ => Ok(vals),
        },
        Opcode::Movw => match op0 {
            Operand::Reg(t) => match op1 {
                Operand::Imm(k) => Ok(vals.insert(t, Access::Constant(k))),
                _ => Ok(vals.insert(t, Access::Other)),
            },
            _ => Ok(vals),
        },
        Opcode::Movt => match op0 {
            Operand::Reg(t) => match op1 {
                Operand::Imm(k) => if vals.contains_key(t) {
                    match vals[t] {
                        Access::Constant(v) => Ok(vals.insert(t, Access::Constant(movt_value(v, k)))),
                        _ => Ok(vals),
                    }
                } else {
                    Ok(vals.insert(t, Access::Other))
                },
                _ => Ok(vals.insert(t, Access::Other)),
            },
            _ => Ok(vals),
        },
        _ => Ok(clobber(vals, insn.reg_writes@)),
    }
}

/// `MOVT` into a register that holds anything but a constant leaves what the
/// registers hold unchanged.
pub proof fn lemma_movt_keeps_non_constant(
    vals: Map<u16, Access<i32>>,
    insn: Instruction,
    thumb: bool,
    endian: Endian,
    mem: Segments,
    target: u16,
    imm: i32,
)
    requires
        insn.opcode == Opcode::Movt,
        operand_of(insn, 0) == Operand::Reg(target),
        operand_of(insn, 1) == Operand::Imm(imm),
        vals.contains_key(target),
        !(vals[target] is Constant),
    ensures
        eval_step(vals, insn, thumb, endian, mem) == Ok::<Map<u16, Access<i32>>, SegmentError>(vals),
{
}

/// Over a whole prefix: when instruction `k` is `MOVT` into a register that
/// holds anything but a constant after the first `k` instructions, the first
/// `k + 1` instructions leave the registers as the first `k` did.
pub proof fn lemma_movt_prefix_keeps_non_constant(
    insns: Seq<Instruction>,
    k: int,
    thumb: bool,
    endian: Endian,
    mem: Segments,
    vals: Map<u16, Access<i32>>,
    target: u16,
    imm: i32,
)
    requires
        0 <= k < insns.len(),
        eval_prefix(insns, k, thumb, endian, mem) == Ok::<Map<u16, Access<i32>>, SegmentError>(vals),
        insns[k].opcode == Opcode::Movt,
        operand_of(insns[k], 0) == Operand::Reg(target),
        operand_of(insns[k], 1) == Operand::Imm(imm),
        vals.contains_key(target),
        !(vals[target] is Constant),
    ensures
        eval_prefix(insns, k + 1, thumb, endian, mem) == Ok::<Map<u16, Access<i32>>, SegmentError>(vals),
{
    lemma_movt_keeps_non_constant(vals, insns[k], thumb, endian, mem, target, imm);
}

/// What the registers hold after the first `k` instructions.
pub open spec fn eval_prefix(
    insns: Seq<Instruction>,
    k: int,
    thumb: bool,
    endian: Endian,
    mem: Segments,
) -> Result<Map<u16, Access<i32>>, crate::segment::SegmentError>
    decreases k,
{
    if k <= 0 {
        Ok(Map::empty())
    } else {
        match eval_prefix(insns, k - 1, thumb, endian, mem) {
            Ok(vals) => eval_step(vals, insns[k - 1], thumb, endian, mem),
            Err(e) => Err(e),
        }
    }
}

/// A read that fails stops the evaluation: every longer prefix fails the same way.
pub proof fn lemma_eval_prefix_error(
    insns: Seq<Instruction>,
    k: int,
    k2: int,
    thumb: bool,
    endian: Endian,
    mem: Segments,
)
    requires
        0 <= k <= k2,
        eval_prefix(insns, k, thumb, endian, mem) is Err,
    ensures
        eval_prefix(insns, k2, thumb, endian, mem) == eval_prefix(insns, k, thumb, endian, mem),
    decreases k2 - k,
{
    if k < k2 {
        lemma_eval_prefix_error(insns, k, k2 - 1, thumb, endian, mem);
    }
}

/// The `n` argument slots filled from R0 to R4.
pub open spec fn project(vals: Map<u16, Access<i32>>, n: nat) -> Seq<Access<i64>> {
    Seq::new(
        n,
        |i: int|
            if i < 5 && vals.contains_key((i + REG_R0) as u16) {
                widen(vals[(i + REG_R0) as u16])
            } else {
                Access::Never
            },
    )
}

/// The analysis of a block: the callee, its arguments and the destination
/// taken on zero, or `None` when the block does not end in the pattern.
pub open spec fn zcond_of(b: Block, n: nat, endian: Endian, mem: Segments) -> Result<
    Option<(u64, Seq<Access<i64>>, u64)>,
    crate::segment::SegmentError,
> {
    let insns = b.insns@;
    match tail_pattern(insns, b.dests@) {
        None => Ok(None),
        Some((reg, dest, len)) => match find_call(insns, insns.len() - len, set![reg]) {
            None => Ok(None),
            Some((callee, c)) => match eval_prefix(insns, c, b.is_thumb, endian, mem) {
                Ok(vals) => Ok(Some((callee, project(vals, n), dest))),
                Err(e) => Err(e),
            },
        },
    }
}


impl Instruction {
    pub fn id(&self) -> (r: Opcode)
        ensures
            r == self.opcode,
    {
        self.opcode
    }

    pub fn is_call(&self) -> (r: bool)
        ensures
            r == is_call_op(self.opcode),
    {
        self.opcode == Opcode::Bl || self.opcode == Opcode::Blx
    }

    /// The `k`th operand, or `Other` when there are fewer.
    pub fn operand(&self, k: usize) -> (r: Operand)
        ensures
            r == operand_of(*self, k as int),
    {
        if k < self.operands.len() {
            self.operands[k]
        } else {
            Operand::Other
        }
    }
}

/// The argument slot of a register: R0 to R4 give 0 to 4.
pub fn reg_to_arg_id(reg: u16) -> (r: Option<usize>)
    ensures
        r == arg_slot(reg),
{
    if REG_R0 <= reg && reg <= REG_R4 {
        Some((reg - REG_R0) as usize)
    } else {
        None
    }
}

fn find_fall_through(dests: &Vec<u64>, target: Operand) -> (r: Option<u64>)
    ensures
        r == fall_through(dests@, target),
{
    if let Operand::Imm(imm) = target {
        let t: u64 = #[verifier::truncate] (imm as u64);
        let mut i: usize = 0;
        assert(dests@.subrange(0, dests@.len() as int) =~= dests@);
        while i < dests.len()
            invariant
                i <= dests@.len(),
                target == Operand::Imm(imm),
                t == #[verifier::truncate] (imm as u64),
                first_other(dests@, t) == first_other(dests@.subrange(i as int, dests@.len() as int), t),
            decreases dests@.len() - i,
        {
            assert(dests@.subrange(i as int, dests@.len() as int).drop_first() =~= dests@.subrange(
                i + 1,
                dests@.len() as int,
            ));
            if dests[i] != t {
                assert(dests@.subrange(i as int, dests@.len() as int)[0] == dests@[i as int]);
                return Some(dests[i]);
            }
            i = i + 1;
        }
        assert(dests@.subrange(i as int, dests@.len() as int).len() == 0);
    }
    if dests.len() > 0 {
        Some(dests[0])
    } else {
        None
    }
}

fn pc_value(addr: u64, thumb: bool) -> (r: i32)
    ensures
        r == pc_base(addr, thumb),
{
    let a: i32 = #[verifier::truncate] (addr as i32);
    a.wrapping_add(if thumb { 4i32 } else { 8i32 })
}

fn align(v: i32, thumb: bool) -> (r: i32)
    ensures
        r == align_pc(v, thumb),
{
    if thumb {
        v & !2i32
    } else {
        v
    }
}


fn lookup(vals: &BTreeMap<u16, Access<i32>>, k: u16) -> (r: Option<Access<i32>>)
    ensures
        r == if vals@.contains_key(k) {
            Some(vals@[k])
        } else {
            None
        },
{
    match vals.get(&k) {
        Some(v) => Some(*v),
        None => None,
    }
}

/// Applies one instruction to what the registers hold.
fn eval_insn(
    vals: &mut BTreeMap<u16, Access<i32>>,
    insn: &Instruction,
    thumb: bool,
    endian: Endian,
    mem: &Segments,
) -> (r: Result<(), SegmentError>)
    requires
        mem.wf(),
    ensures
        match eval_step(old(vals)@, *insn, thumb, endian, *mem) {
            Ok(m) => r is Ok && final(vals)@ == m,
            Err(e) => r == Err::<(), SegmentError>(e),
        },
{
    let op0 = insn.operand(0);
    let op1 = insn.operand(1);
    match insn.opcode {
        Opcode::Add => {
            if let Operand::Reg(t) = op0 {
                match op1 {
                    Operand::Imm(k) => {
                        match lookup(vals, t) {
                            Some(v) => {
                                vals.insert(t, v.wrapping_add(k));
                            },
                            None => {
                                vals.insert(t, Access::Other);
                            },
                        }
                    },
                    Operand::Reg(src) => {
                        if src == REG_PC {
                            match lookup(vals, t) {
                                Some(v) => {
                                    let a = v.wrapping_add(pc_value(insn.address, thumb));
                                    let a = match a {
                                        Access::Constant(c) => Access::Constant(align(c, thumb)),
                                        _ => a,
                                    };
                                    vals.insert(t, a);
                                },
                                None => {
                                    vals.insert(t, Access::Other);
                                },
                            }
                        } else if src == REG_SP {
                            vals.insert(t, Access::Stack);
                        } else {
                            vals.insert(t, Access::Other);
                        }
                    },
                    _ => {
                        vals.insert(t, Access::Other);
                    },
                }
            }
            Ok(())
        },
        Opcode::Ldr => {
            if let Operand::Reg(t) = op0 {
                match op1 {
                    Operand::Reg(src) => {
                        match lookup(vals, src) {
                            Some(v) => {
                                vals.insert(t, v);
                            },
                            None => {
                                vals.insert(t, Access::Register);
                            },
                        }
                    },
                    Operand::Imm(k) => {
                        let addr: u64 = #[verifier::truncate] (k as i64 as u64);
                        match mem.get_i32(endian, addr) {
                            Ok(v) => {
                                vals.insert(t, Access::Constant(v));
                            },
                            Err(e) => return Err(e),
                        }
                    },
                    Operand::Mem { base, index, disp } => {
                        if index != REG_NONE {
                        } else if base == REG_PC {
                            let a = align(pc_value(insn.address, thumb).wrapping_add(disp), thumb);
                            let addr: u64 = #[verifier::truncate] (a as i64 as u64);
                            match mem.get_i32(endian, addr) {
                                Ok(v) => {
                                    vals.insert(t, Access::Constant(v));
                                },
                                Err(e) => return Err(e),
                            }
                        } else if base == REG_SP {
                            vals.insert(t, Access::Stack);
                        } else {
                            match lookup(vals, base) {
                                Some(v) => {
                                    vals.insert(t, v.wrapping_add(disp));
                                },
                                None => {
                                    vals.insert(t, Access::Register);
                                },
                            }
                        }
                    },
                    Operand::Other => {},
                }
            }
            Ok(())
        },
        Opcode::Mov => {
            if let Operand::Reg(t) = op0 {
                match op1 {
                    Operand::Reg(src) => {
                        if src == REG_PC {
                            vals.insert(t, Access::Constant(align(pc_value(insn.address, thumb), thumb)));
                        } else if src == REG_SP {
                            vals.insert(t, Access::Stack);
                        } else {
                            match lookup(vals, src) {
                                Some(v) => {
                                    vals.insert(t, v);
                                },
                                None => {
                                    vals.insert(t, Access::Register);
                                },
                            }
                        }
                    },
                    Operand::Imm(k) => {
                        vals.insert(t, Access::Constant(k));
                    },
                    _ => {},
                }
            }
            Ok(())
        },
        Opcode::Movw => {
            if let Operand::Reg(t) = op0 {
                match op1 {
                    Operand::Imm(k) => {
                        vals.insert(t, Access::Constant(k));
                    },
                    _ => {
                        vals.insert(t, Access::Other);
                    },
                }
            }
            Ok(())
        },
        Opcode::Movt => {
            if let Operand::Reg(t) = op0 {
                match op1 {
                    Operand::Imm(k) => {
                        match lookup(vals, t) {
                            Some(Access::Constant(v)) => {
                                vals.insert(t, Access::Constant((v & 0xffffi32) | (k << 16i32)));
                            },
                            Some(_) => {},
                            None => {
                                vals.insert(t, Access::Other);
                            },
                        }
                    },
                    _ => {
                        vals.insert(t, Access::Other);
                    },
                }
            }
            Ok(())
        },
        _ => {
            let mut j: usize = 0;
            let ghost start = vals@;
            while j < insn.reg_writes.len()
                invariant
                    j <= insn.reg_writes@.len(),
                    vals@ == clobber(start, insn.reg_writes@.subrange(0, j as int)),
                decreases insn.reg_writes@.len() - j,
            {
                assert(insn.reg_writes@.subrange(0, j + 1).drop_last() =~= insn.reg_writes@.subrange(
                    0,
                    j as int,
                ));
                vals.insert(insn.reg_writes[j], Access::Other);
                j = j + 1;
            }
            assert(insn.reg_writes@.subrange(0, j as int) =~= insn.reg_writes@);
            Ok(())
        },
    }
}


/// Recognises the zero-conditional branch at the end of a block.
fn match_tail(insns: &Vec<Instruction>, dests: &Vec<u64>) -> (r: Option<(u16, u64, usize)>)
    ensures
        match r {
            None => tail_pattern(insns@, dests@) is None,
            Some((reg, dest, len)) => tail_pattern(insns@, dests@) == Some((reg, dest, len as int))
                && 1 <= len <= 2 && len <= insns@.len(),
        },
{
    let n = insns.len();
    if n == 0 {
        return None;
    }
    let last = &insns[n - 1];
    if (last.opcode == Opcode::Cbz || last.opcode == Opcode::Cbnz) && last.cc == Cond::Al {
        if let Operand::Reg(r) = last.operand(0) {
            if last.opcode == Opcode::Cbz {
                if let Operand::Imm(d) = last.operand(1) {
                    let d: u64 = #[verifier::truncate] (d as u64);
                    return Some((r, d, 1));
                }
                None
            } else {
                match find_fall_through(dests, last.operand(1)) {
                    Some(d) => Some((r, d, 1)),
                    None => None,
                }
            }
        } else {
            None
        }
    } else if (last.opcode == Opcode::B || last.opcode == Opcode::Bx) && (last.cc == Cond::Eq
        || last.cc == Cond::Ne) {
        if n < 2 {
            return None;
        }
        let comp = &insns[n - 2];
        let dest = if last.cc == Cond::Eq {
            match last.operand(0) {
                Operand::Imm(d) => Some(#[verifier::truncate] (d as u64)),
                _ => None,
            }
        } else {
            find_fall_through(dests, last.operand(0))
        };
        match dest {
            None => None,
            Some(d) => {
                if comp.opcode == Opcode::Cmp && comp.cc == Cond::Al {
                    match (comp.operand(0), comp.operand(1)) {
                        (Operand::Reg(r), Operand::Imm(0)) => Some((r, d, 2)),
                        (Operand::Imm(0), Operand::Reg(r)) => Some((r, d, 2)),
                        _ => None,
                    }
                } else {
                    None
                }
            },
        }
    } else {
        None
    }
}

/// Moves the taint of the registers an instruction writes to those it reads.
fn untaint_writes(taint: &mut BTreeSet<u16>, insn: &Instruction)
    ensures
        final(taint)@ == taint_before(old(taint)@, insn.reg_writes@, insn.reg_reads@.to_set()),
{
    let ghost t0 = taint@;
    let ghost reads = insn.reg_reads@.to_set();
    let mut j: usize = 0;
    while j < insn.reg_writes.len()
        invariant
            j <= insn.reg_writes@.len(),
            reads == insn.reg_reads@.to_set(),
            taint@ == taint_before(t0, insn.reg_writes@.subrange(0, j as int), reads),
        decreases insn.reg_writes@.len() - j,
    {
        let ghost ws = insn.reg_writes@.subrange(0, j + 1);
        assert(ws.drop_last() =~= insn.reg_writes@.subrange(0, j as int));
        let w = insn.reg_writes[j];
        if taint.contains(&w) {
            taint.remove(&w);
            let ghost t1 = taint@;
            let mut k: usize = 0;
            while k < insn.reg_reads.len()
                invariant
                    k <= insn.reg_reads@.len(),
                    taint@ == t1.union(insn.reg_reads@.subrange(0, k as int).to_set()),
                decreases insn.reg_reads@.len() - k,
            {
                let ghost rs = insn.reg_reads@.subrange(0, k + 1);
                assert(rs =~= insn.reg_reads@.subrange(0, k as int).push(insn.reg_reads@[k as int]));
                proof {
                    insn.reg_reads@.subrange(0, k as int).lemma_push_to_set_commute(
                        insn.reg_reads@[k as int],
                    );
                }
                taint.insert(insn.reg_reads[k]);
                k = k + 1;
                assert(taint@ =~= t1.union(insn.reg_reads@.subrange(0, k as int).to_set()));
            }
            assert(insn.reg_reads@.subrange(0, k as int) =~= insn.reg_reads@);
        }
        j = j + 1;
    }
    assert(insn.reg_writes@.subrange(0, j as int) =~= insn.reg_writes@);
}

/// Walks back from instruction `end - 1` to the call whose result reaches the
/// register tested by the branch.
fn find_call_site(insns: &Vec<Instruction>, end: usize, reg: u16) -> (r: Option<(u64, usize)>)
    requires
        end <= insns@.len(),
    ensures
        match r {
            None => find_call(insns@, end as int, set![reg]) is None,
            Some((callee, c)) => find_call(insns@, end as int, set![reg]) == Some((callee, c as int))
                && c < end,
        },
{
    let mut taint: BTreeSet<u16> = BTreeSet::new();
    taint.insert(reg);
    assert(taint@ =~= set![reg]);
    let mut i: usize = end;
    while i > 0
        invariant
            i <= end <= insns@.len(),
            find_call(insns@, end as int, set![reg]) == find_call(insns@, i as int, taint@),
        decreases i,
    {
        let insn = &insns[i - 1];
        if insn.is_call() {
            if let Operand::Imm(a) = insn.operand(0) {
                if taint.contains(&REG_R0) {
                    return Some((#[verifier::truncate] (a as u64), i - 1));
                }
            }
            return None;
        }
        untaint_writes(&mut taint, insn);
        i = i - 1;
    }
    None
}

/// The `n` argument slots, filled from R0 to R4.
fn project_arguments(vals: &BTreeMap<u16, Access<i32>>, n: usize) -> (r: Accesses<i64>)
    ensures
        r.0@ == project(vals@, n as nat),
{
    let mut accesses: Accesses<i64> = Accesses::new(n);
    let mut i: usize = 0;
    while i < n && i < 5
        invariant
            i <= n,
            accesses.0@.len() == n,
            forall|j: int|
                0 <= j < n ==> #[trigger] accesses.0@[j] == if j < i {
                    project(vals@, n as nat)[j]
                } else {
                    Access::<i64>::Never
                },
        decreases n - i,
    {
        let reg: u16 = REG_R0 + i as u16;
        match reg_to_arg_id(reg) {
            Some(slot) => {
                if slot < n {
                    if let Some(v) = lookup(vals, reg) {
                        *accesses.get_mut(slot) = v.map_constant(|c: i32| -> (w: i64)
                            ensures
                                w == c as i64,
                            { c.normalise() });
                    }
                }
            },
            None => {},
        }
        i = i + 1;
    }
    assert(accesses.0@ =~= project(vals@, n as nat));
    accesses
}

impl Block {
    pub fn new(start_addr: u64, end_addr: u64, dests: Vec<u64>, is_thumb: bool, insns: Vec<Instruction>) -> (r: Block)
        ensures
            r.start_addr == start_addr,
            r.end_addr == end_addr,
            r.dests == dests,
            r.is_thumb == is_thumb,
            r.insns == insns,
    {
        Block { start_addr, end_addr, is_thumb, dests, insns }
    }

    pub fn start_addr(&self) -> (r: u64)
        ensures
            r == self.start_addr,
    {
        self.start_addr
    }

    pub fn end_addr(&self) -> (r: u64)
        ensures
            r == self.end_addr,
    {
        self.end_addr
    }

    pub fn dests(&self) -> (r: &[u64])
        ensures
            r@ == self.dests@,
    {
        self.dests.as_slice()
    }

    /// The weight of the block when scoring: its number of instructions.
    pub fn base_score(&self) -> (r: usize)
        ensures
            r == self.insns@.len(),
    {
        self.insns.len()
    }

    /// Recognises a branch on the zero result of a call at the end of the block
    /// and recovers what the call's first `n` argument registers held.
    pub fn get_zcond_arguments(&self, n: usize, endian: Endian, mem: &Segments) -> (r: Result<
        Option<ZCondBranchAnalysis>,
        SegmentError,
    >)
        requires
            mem.wf(),
        ensures
            match zcond_of(*self, n as nat, endian, *mem) {
                Ok(None) => r == Ok::<Option<ZCondBranchAnalysis>, SegmentError>(None),
                Ok(Some((callee, args, dest))) => match r {
                    Ok(Some(a)) => a.function == callee && a.arguments.0@ == args && a.destination
                        == dest,
                    _ => false,
                },
                Err(e) => r == Err::<Option<ZCondBranchAnalysis>, SegmentError>(e),
            },
    {
        let (reg, dest, len) = match match_tail(&self.insns, &self.dests) {
            Some(t) => t,
            None => return Ok(None),
        };
        let (callee, call) = match find_call_site(&self.insns, self.insns.len() - len, reg) {
            Some(c) => c,
            None => return Ok(None),
        };
        let mut vals: BTreeMap<u16, Access<i32>> = BTreeMap::new();
        let mut i: usize = 0;
        while i < call
            invariant
                i <= call < self.insns@.len(),
                mem.wf(),
                1 <= len <= self.insns@.len(),
                tail_pattern(self.insns@, self.dests@) == Some((reg, dest, len as int)),
                find_call(self.insns@, self.insns@.len() - len, set![reg]) == Some(
                    (callee, call as int),
                ),
                eval_prefix(self.insns@, i as int, self.is_thumb, endian, *mem) == Ok::<
                    Map<u16, Access<i32>>,
                    SegmentError,
                >(vals@),
            decreases call - i,
        {
            match eval_insn(&mut vals, &self.insns[i], self.is_thumb, endian, mem) {
                Ok(()) => {},
                Err(e) => {
                    proof {
                        lemma_eval_prefix_error(
                            self.insns@,
                            i + 1,
                            call as int,
                            self.is_thumb,
                            endian,
                            *mem,
                        );
                    }
                    return Err(e);
                },
            }
            i = i + 1;
        }
        let arguments = project_arguments(&vals, n);
        Ok(Some(ZCondBranchAnalysis { function: callee, arguments, destination: dest }))
    }
}

} // verus!
