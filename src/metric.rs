use vstd::prelude::*;

use crate::comparisons::BlockAnalysis;
use crate::arm::Block;
use crate::function::{Dominates, Function};

use std::collections::BTreeMap;

verus! {

/// A non-negative score, the fraction `num / den`.
#[derive(Clone, Copy, Debug, PartialEq, Eq, Structural)]
pub struct Score {
    pub num: u128,
    pub den: u64,
}

pub open spec fn zero_score() -> Score {
    Score { num: 0, den: 1 }
}

/// `v`, or the largest `u128` when `v` is larger.
pub open spec fn clamp_u128(v: int) -> u128 {
    if v <= u128::MAX {
        v as u128
    } else {
        u128::MAX
    }
}

/// The score of a block whose taken branch uniquely enters a subtree:
/// `base + (unique / reachable) * coverage`, or `base` when `unique` is 0.
pub open spec fn weighted_score(base: u64, unique: u64, coverage: u64, reachable: u64) -> Score {
    if unique == 0 {
        Score { num: base as u128, den: 1 }
    } else {
        Score { num: clamp_u128(base * reachable + unique * coverage), den: reachable }
    }
}

/// The number of addresses reachable from `d`.
pub open spec fn reach_count(f: Function, d: u64) -> u64 {
    Set::new(|v: u64| f.reaches(d, v)).len() as u64
}

/// See `weighted_score`.
pub fn block_score(base: u64, unique: u64, coverage: u64, reachable: u64) -> (r: Score)
    requires
        reachable > 0,
    ensures
        r == weighted_score(base, unique, coverage, reachable),
{
    if unique == 0 {
        return Score { num: base as u128, den: 1 };
    }
    proof {
        assert(base * reachable <= 0xffff_ffff_ffff_ffff_ffff_ffff_ffff_ffffint) by (nonlinear_arith)
            requires
                base <= 0xffff_ffff_ffff_ffffint,
                reachable <= 0xffff_ffff_ffff_ffffint,
        ;
        assert(unique * coverage <= 0xffff_ffff_ffff_ffff_ffff_ffff_ffff_ffffint) by (nonlinear_arith)
            requires
                unique <= 0xffff_ffff_ffff_ffffint,
                coverage <= 0xffff_ffff_ffff_ffffint,
        ;
    }
    let a: u128 = (base as u128) * (reachable as u128);
    let b: u128 = (unique as u128) * (coverage as u128);
    let num: u128 = if a <= u128::MAX - b {
        a + b
    } else {
        u128::MAX
    };
    Score { num, den: reachable }
}

/// `a + b`, or the largest `u64` when that is larger.
pub open spec fn sat_add(a: u64, b: u64) -> u64 {
    if a + b <= u64::MAX {
        (a + b) as u64
    } else {
        u64::MAX
    }
}

/// The instruction count of the block that starts at `a`, or 0.
pub open spec fn insns_at(f: Function, a: u64) -> u64 {
    if f.has_block(a) {
        let i = choose|i: int| 0 <= i < f.blocks@.len() && (#[trigger] f.blocks@[i]).start_addr == a;
        f.blocks@[i].insns@.len() as u64
    } else {
        0
    }
}

/// The instruction count of the listed blocks, saturating.
pub open spec fn coverage(f: Function, list: Seq<u64>) -> u64
    decreases list.len(),
{
    if list.len() == 0 {
        0
    } else {
        sat_add(coverage(f, list.drop_last()), insns_at(f, list.last()))
    }
}

/// The score of block `b` given the dominator records `doms`: a block with a
/// recorded analysis whose destination has a record with no parent or with
/// `b` as parent scores `weighted_score` over its instruction count, the
/// number of blocks the destination dominates, their instruction count and
/// the number of addresses reachable from the destination; any other block
/// scores zero.
pub open spec fn score_of(f: Function, cmp: Map<u64, BlockAnalysis>, doms: Map<u64, Dominates>, b: Block) -> Score {
    if !cmp.contains_key(b.start_addr) {
        zero_score()
    } else {
        let dest = cmp[b.start_addr].destination;
        if !doms.contains_key(dest) {
            zero_score()
        } else {
            let rec = doms[dest];
            if !(rec.parent is None || rec.parent == Some(b.start_addr)) || reach_count(f, dest) == 0 {
                zero_score()
            } else {
                weighted_score(
                    b.insns@.len() as u64,
                    rec.dominates@.len() as u64,
                    coverage(f, rec.dominates@),
                    reach_count(f, dest),
                )
            }
        }
    }
}

/// The sum of the instruction counts of the listed blocks (saturating).
fn coverage_of(f: &Function, doms: &Dominates) -> (r: u64)
    requires
        f.wf(),
    ensures
        r == coverage(*f, doms.dominates@),
{
    let mut sum: u64 = 0;
    let mut i: usize = 0;
    while i < doms.dominates.len()
        invariant
            f.wf(),
            i <= doms.dominates@.len(),
            sum == coverage(*f, doms.dominates@.subrange(0, i as int)),
        decreases doms.dominates@.len() - i,
    {
        let ghost sub = doms.dominates@.subrange(0, i + 1);
        assert(sub.drop_last() =~= doms.dominates@.subrange(0, i as int));
        let a = doms.dominates[i];
        let s: u64 = match f.find_block(a) {
            Some(k) => {
                proof {
                    let c = choose|c: int| 0 <= c < f.blocks@.len() && (#[trigger] f.blocks@[c]).start_addr == a;
                    if c < k {
                        assert(f.blocks@[c].start_addr < f.blocks@[k as int].start_addr);
                    } else if c > k {
                        assert(f.blocks@[k as int].start_addr < f.blocks@[c].start_addr);
                    }
                }
                f.blocks[k].base_score() as u64
            },
            None => 0,
        };
        sum = if sum <= u64::MAX - s {
            sum + s
        } else {
            u64::MAX
        };
        i = i + 1;
    }
    assert(doms.dominates@.subrange(0, i as int) =~= doms.dominates@);
    sum
}

/// The score of each block of `f` given the dominator records `dominators`;
/// see `score_of`.
pub fn compute_scoring_with(
    f: &Function,
    comparisons: &BTreeMap<u64, BlockAnalysis>,
    dominators: &BTreeMap<u64, Dominates>,
) -> (r: BTreeMap<u64, Score>)
    requires
        f.wf(),
    ensures
        forall|k: u64| #[trigger] r@.contains_key(k) <==> f.has_block(k),
        forall|i: int|
            0 <= i < f.blocks@.len() ==> r@[(#[trigger] f.blocks@[i]).start_addr] == score_of(
                *f,
                comparisons@,
                dominators@,
                f.blocks@[i],
            ),
{
    let mut r: BTreeMap<u64, Score> = BTreeMap::new();
    let mut i: usize = 0;
    while i < f.blocks.len()
        invariant
            f.wf(),
            i <= f.blocks@.len(),
            forall|k: u64|
                #[trigger] r@.contains_key(k) <==> exists|j: int|
                    0 <= j < i && (#[trigger] f.blocks@[j]).start_addr == k,
            forall|j: int|
                0 <= j < i ==> r@[(#[trigger] f.blocks@[j]).start_addr] == score_of(
                    *f,
                    comparisons@,
                    dominators@,
                    f.blocks@[j],
                ),
        decreases f.blocks@.len() - i,
    {
        let b = &f.blocks[i];
        let sa = b.start_addr;
        let mut score = Score { num: 0, den: 1 };
        if let Some(v) = comparisons.get(&sa) {
            if let Some(doms) = dominators.get(&v.destination) {
                let unique = match doms.parent {
                    None => true,
                    Some(p) => p == sa,
                };
                if unique {
                    let reach = f.compute_reachable(v.destination);
                    proof {
                        assert(reach@ =~= Set::new(|x: u64| f.reaches(v.destination, x)));
                    }
                    let count = reach.len();
                    if count > 0 {
                        let cov = coverage_of(f, doms);
                        score = block_score(b.base_score() as u64, doms.dominates.len() as u64, cov, count as u64);
                    }
                }
            }
        }
        assert(score == score_of(*f, comparisons@, dominators@, *b));
        r.insert(sa, score);
        proof {
            assert forall|j: int| 0 <= j < i implies #[trigger] f.blocks@[j].start_addr != sa by {}
        }
        i = i + 1;
        proof {
            assert forall|k: u64| #[trigger] r@.contains_key(k) <==> exists|j: int|
                0 <= j < i && (#[trigger] f.blocks@[j]).start_addr == k by {
                if k == sa {
                    assert(f.blocks@[i - 1].start_addr == k);
                }
            }
        }
    }
    r
}

/// `scores` gives each block of `f` its `score_of` over `doms`.
pub open spec fn scored_over(
    f: Function,
    cmp: Map<u64, BlockAnalysis>,
    doms: Map<u64, Dominates>,
    scores: Map<u64, Score>,
) -> bool {
    forall|i: int|
        0 <= i < f.blocks@.len() ==> scores[(#[trigger] f.blocks@[i]).start_addr] == score_of(
            f,
            cmp,
            doms,
            f.blocks@[i],
        )
}

/// The score of each block of `f` over its dominator tree (the map that
/// `compute_dominators` returns; any two such trees agree, see
/// `Function::lemma_dominator_tree_unique`); see `score_of`.
pub fn compute_scoring(f: &Function, comparisons: &BTreeMap<u64, BlockAnalysis>) -> (r: BTreeMap<
    u64,
    Score,
>)
    requires
        f.wf(),
    ensures
        forall|k: u64| #[trigger] r@.contains_key(k) <==> f.has_block(k),
        forall|doms: Map<u64, Dominates>|
            #[trigger] f.is_dominator_tree(doms) ==> scored_over(*f, comparisons@, doms, r@),
{
    let dominators = f.compute_dominators();
    let r = compute_scoring_with(f, comparisons, &dominators);
    proof {
        assert forall|doms: Map<u64, Dominates>| #[trigger] f.is_dominator_tree(doms) implies scored_over(
            *f,
            comparisons@,
            doms,
            r@,
        ) by {
            f.lemma_dominator_tree_unique(dominators@, doms);
            assert forall|i: int| 0 <= i < f.blocks@.len() implies r@[(#[trigger] f.blocks@[i]).start_addr]
                == score_of(*f, comparisons@, doms, f.blocks@[i]) by {
                let b = f.blocks@[i];
                if comparisons@.contains_key(b.start_addr) {
                    let dest = comparisons@[b.start_addr].destination;
                    assert(dominators@.contains_key(dest) <==> doms.contains_key(dest));
                    if dominators@.contains_key(dest) {
                        assert(dominators@[dest].parent == doms[dest].parent);
                        assert(dominators@[dest].dominates@ == doms[dest].dominates@);
                    }
                }
                assert(score_of(*f, comparisons@, dominators@, b) == score_of(*f, comparisons@, doms, b));
            }
        }
    }
    r
}

} // verus!
