use strngr::arm::Block;
use strngr::function::{intersect, Dominates, Function};
use strngr::heap::FixedHeap;
use strngr::metric::{block_score, compute_scoring, compute_scoring_with, Score};
use strngr::comparisons::BlockAnalysis;

use std::collections::BTreeMap;

fn block(start: u64, dests: Vec<u64>, n_insns: usize) -> Block {
    let mut insns = Vec::new();
    for i in 0..n_insns {
        insns.push(strngr::arm::Instruction {
            address: start + 4 * i as u64,
            opcode: strngr::arm::Opcode::Other,
            cc: strngr::arm::Cond::Al,
            operands: vec![],
            reg_reads: vec![],
            reg_writes: vec![],
        });
    }
    Block::new(start, start + 4 * n_insns as u64, dests, false, insns)
}

/// A diamond `A -> B, C -> D`, a tail `D -> E`, and an edge out of the function.
fn diamond() -> Function {
    Function {
        name: String::from("diamond"),
        start_addr: 0x10,
        end_addr: 0x60,
        blocks: vec![
            block(0x10, vec![0x20, 0x30], 1),
            block(0x20, vec![0x40], 2),
            block(0x30, vec![0x40, 0x9999], 3),
            block(0x40, vec![0x50], 4),
            block(0x50, vec![], 5),
        ],
    }
}

#[test]
fn immediate_dominators_of_diamond() {
    let f = diamond();
    let idoms = f.compute_immediate_dominators();
    let expected: BTreeMap<u64, u64> =
        [(0x10, 0x10), (0x20, 0x10), (0x30, 0x10), (0x40, 0x10), (0x50, 0x40)].into_iter().collect();
    assert_eq!(idoms, expected);
    assert_eq!(f.compute_immediate_dominators(), idoms);
}

#[test]
fn dominator_tree_of_diamond() {
    let f = diamond();
    let doms = f.compute_dominators();
    assert_eq!(doms.get(&0x10).unwrap().parent, None);
    assert_eq!(doms.get(&0x40).unwrap().parent, Some(0x10));
    assert_eq!(doms.get(&0x50).unwrap().parent, Some(0x40));
    let mut below_entry = doms.get(&0x10).unwrap().dominates.clone();
    below_entry.sort();
    assert_eq!(below_entry, vec![0x10, 0x20, 0x30, 0x40, 0x50]);
    assert_eq!(doms.get(&0x40).unwrap().dominates, vec![0x50]);
    assert!(doms.get(&0x50).unwrap().dominates.is_empty());
}

#[test]
fn reachable_skips_outside_edges() {
    let f = diamond();
    let r: Vec<u64> = f.compute_reachable(0x30).into_iter().collect();
    assert_eq!(r, vec![0x30, 0x40, 0x50]);
    let all: Vec<u64> = f.compute_reachable(0x10).into_iter().collect();
    assert_eq!(all, vec![0x10, 0x20, 0x30, 0x40, 0x50]);
    for s in [0x20u64, 0x30, 0x40, 0x50] {
        let below = f.compute_reachable(s);
        assert!(below.is_subset(&f.compute_reachable(0x10)));
    }
    let outside: Vec<u64> = f.compute_reachable(0x9999).into_iter().collect();
    assert_eq!(outside, vec![0x9999]);
}

#[test]
fn loop_dominators() {
    let f = Function {
        name: String::from("loop"),
        start_addr: 0,
        end_addr: 0x40,
        blocks: vec![
            block(0, vec![0x10], 1),
            block(0x10, vec![0x20, 0x30], 1),
            block(0x20, vec![0x10], 1),
            block(0x30, vec![], 1),
        ],
    };
    let idoms = f.compute_immediate_dominators();
    assert_eq!(idoms.get(&0x20), Some(&0x10));
    assert_eq!(idoms.get(&0x30), Some(&0x10));
    assert_eq!(idoms.get(&0x10), Some(&0));
}

#[test]
fn intersect_walks_up() {
    let ordering = vec![0x10u64, 0x20, 0x40, 0x30];
    let idxs: BTreeMap<u64, usize> = ordering.iter().enumerate().map(|(k, v)| (*v, k)).collect();
    let idoms: BTreeMap<u64, u64> = [(0x10, 0x10), (0x20, 0x10), (0x40, 0x20), (0x30, 0x10)].into_iter().collect();
    assert_eq!(intersect(&idoms, &ordering, &idxs, 0x40, 0x30), 0x10);
    assert_eq!(intersect(&idoms, &ordering, &idxs, 0x40, 0x20), 0x20);
}

#[test]
fn uniquely_reachable_weighting() {
    // 4 + (2 / 4) * (3 + 5) = 8
    let s = block_score(4, 2, 8, 4);
    assert_eq!(s, Score { num: 32, den: 4 });
    assert_eq!(block_score(4, 0, 8, 4), Score { num: 4, den: 1 });
}

#[test]
fn scoring_of_a_branch_into_its_own_subtree() {
    let f = Function {
        name: String::from("g"),
        start_addr: 0x5000,
        end_addr: 0x5400,
        blocks: vec![
            block(0x5000, vec![0x5100, 0x5300], 4),
            block(0x5100, vec![0x5200], 3),
            block(0x5200, vec![0x5300], 5),
            block(0x5300, vec![], 2),
        ],
    };
    let mut cmp = BTreeMap::new();
    cmp.insert(0x5000, BlockAnalysis { function: 0x2000, destination: 0x5100, string_arguments: vec![b"x".to_vec()] });
    let scores = compute_scoring(&f, &cmp);
    // 0x5100 dominates 0x5200; three addresses are reachable from it.
    assert_eq!(scores.get(&0x5000), Some(&Score { num: 4 * 3 + 1 * 5, den: 3 }));
    assert_eq!(scores.get(&0x5100), Some(&Score { num: 0, den: 1 }));
    assert_eq!(scores.len(), 4);
}

#[test]
fn top_k_keeps_greatest() {
    let mut h = FixedHeap::new(3);
    let mut out = Vec::new();
    for v in [5u64, 1, 9, 7, 3, 8] {
        if let Some(x) = h.insert((v, v)) {
            out.push(x.0);
        }
    }
    assert_eq!(out, vec![1, 3, 5]);
    let kept: Vec<u64> = h.into_inner().into_vec_asc().into_iter().map(|x| x.0).collect();
    assert_eq!(kept, vec![7, 8, 9]);
}

#[test]
fn top_k_below_capacity_and_zero() {
    let mut h = FixedHeap::new(4);
    assert_eq!(h.insert((2, 0)), None);
    assert_eq!(h.insert((1, 0)), None);
    assert_eq!(h.into_inner().len(), 2);
    let mut z = FixedHeap::new(0);
    assert_eq!(z.insert((2, 0)), Some((2, 0)));
    let mut e = FixedHeap::new(1);
    assert_eq!(e.insert((2, 0)), None);
    assert_eq!(e.insert((2, 0)), Some((2, 0)));
    assert_eq!(e.insert((2, 1)), Some((2, 0)));
}

#[test]
fn weighting_over_given_dominator_records() {
    let f = Function {
        name: String::from("h"),
        start_addr: 0x5000,
        end_addr: 0x5500,
        blocks: vec![
            block(0x5000, vec![0x5100, 0x5400], 4),
            block(0x5100, vec![0x5200], 3),
            block(0x5200, vec![0x5300], 5),
            block(0x5300, vec![0x5400], 1),
            block(0x5400, vec![], 1),
        ],
    };
    let mut cmp = BTreeMap::new();
    cmp.insert(0x5000, BlockAnalysis { function: 0x2000, destination: 0x5100, string_arguments: vec![b"x".to_vec()] });
    let mut doms = BTreeMap::new();
    doms.insert(0x5100, Dominates { parent: Some(0x5000), dominates: vec![0x5100, 0x5200] });
    let scores = compute_scoring_with(&f, &cmp, &doms);
    let s = scores.get(&0x5000).unwrap();
    assert_eq!(*s, Score { num: 32, den: 4 });
    assert_eq!(s.num as f64 / s.den as f64, 8.0);
    doms.insert(0x5100, Dominates { parent: Some(0x4000), dominates: vec![0x5100, 0x5200] });
    assert_eq!(compute_scoring_with(&f, &cmp, &doms).get(&0x5000), Some(&Score { num: 0, den: 1 }));
}
