use vstd::prelude::*;

use crate::analysis::{Access, Accesses, Constant, ZCondBranchAnalysis};
use crate::arm::{zcond_of, Block};
use crate::image::Image;
use crate::metric::sat_add;
use crate::segment::{SegmentError, Segments};

use std::collections::BTreeMap;

verus! {

/// The argument count the analysis recovers for each call.
pub const ARGUMENT_COUNT: usize = 3;

/// A block whose call compares against string literals.
#[derive(Debug)]
pub struct BlockAnalysis {
    pub function: u64,
    pub destination: u64,
    pub string_arguments: Vec<Vec<u8>>,
}

/// The retained blocks, keyed by start address, and for each callee its score
/// in fifths of a point: a retained block counts 5, or 6 when it is the only
/// callee retained in its function.
#[derive(Debug)]
pub struct ComparisonAnalyses {
    pub function_scores: BTreeMap<u64, u64>,
    pub block_analyses: BTreeMap<u64, BlockAnalysis>,
}

/// A constant that addresses a C string becomes a `String`.
pub open spec fn promoted(a: Access<i64>, mem: Segments) -> Access<i64> {
    match a {
        Access::Constant(v) => match mem.cstring_at(#[verifier::truncate] (v as u64), 16) {
            Ok(Some(s)) => Access::String(#[verifier::truncate] (v as u64), s.len() as usize),
            _ => a,
        },
        _ => a,
    }
}

/// The arguments up to the first unassigned one.
pub open spec fn before_never(s: Seq<Access<i64>>) -> Seq<Access<i64>>
    decreases s.len(),
{
    if s.len() == 0 || s[0] is Never {
        Seq::empty()
    } else {
        seq![s[0]] + before_never(s.drop_first())
    }
}

pub open spec fn count_stack(s: Seq<Access<i64>>) -> nat
    decreases s.len(),
{
    if s.len() == 0 {
        0
    } else {
        count_stack(s.drop_last()) + if s.last() is Stack {
            1nat
        } else {
            0nat
        }
    }
}

pub open spec fn count_register(s: Seq<Access<i64>>) -> nat
    decreases s.len(),
{
    if s.len() == 0 {
        0
    } else {
        count_register(s.drop_last()) + if s.last() is Register {
            1nat
        } else {
            0nat
        }
    }
}

/// The bytes of each `String` argument, read again with a window one byte
/// past its length.
pub open spec fn strings_of(s: Seq<Access<i64>>, mem: Segments) -> Seq<Seq<u8>>
    decreases s.len(),
{
    if s.len() == 0 {
        Seq::empty()
    } else {
        let rest = strings_of(s.drop_last(), mem);
        match s.last() {
            Access::String(addr, len) => if len < usize::MAX {
                match mem.cstring_at(addr, (len + 1) as nat) {
                    Ok(Some(b)) => rest.push(b),
                    _ => rest,
                }
            } else {
                rest
            },
            _ => rest,
        }
    }
}

/// Whether a string looks like a printf format: it holds both `%` and a tab.
pub open spec fn is_format_like(s: Seq<u8>) -> bool {
    s.contains(37u8) && s.contains(9u8)
}

/// The filter on a recovered call: at least one string argument, at least
/// one argument from a register or the stack, and no format-like string.
pub open spec fn retains(strs: Seq<Seq<u8>>, nregs: nat, nstack: nat) -> bool {
    &&& strs.len() > 0
    &&& nregs + nstack >= 1
    &&& forall|i: int| 0 <= i < strs.len() ==> !is_format_like(#[trigger] strs[i])
}

/// What the filter keeps of a block: the callee, the destination and the
/// string arguments.
pub open spec fn filtered(b: Block, img: Image) -> Result<Option<(u64, u64, Seq<Seq<u8>>)>, SegmentError> {
    match zcond_of(b, ARGUMENT_COUNT as nat, img.endian, img.segments) {
        Err(e) => Err(e),
        Ok(None) => Ok(None),
        Ok(Some((callee, args, dest))) => {
            let pre = before_never(args.map_values(|a: Access<i64>| promoted(a, img.segments)));
            let strs = strings_of(pre, img.segments);
            if retains(strs, count_register(pre), count_stack(pre)) {
                Ok(Some((callee, dest, strs)))
            } else {
                Ok(None)
            }
        },
    }
}

/// A recovered call one of whose string arguments holds both `%` and a tab
/// is dropped by the filter, so its block is not retained.
pub proof fn lemma_format_string_drops_block(
    b: Block,
    img: Image,
    callee: u64,
    args: Seq<Access<i64>>,
    dest: u64,
    k: int,
)
    requires
        zcond_of(b, ARGUMENT_COUNT as nat, img.endian, img.segments) == Ok::<
            Option<(u64, Seq<Access<i64>>, u64)>,
            SegmentError,
        >(Some((callee, args, dest))),
        0 <= k < strings_of(
            before_never(args.map_values(|a: Access<i64>| promoted(a, img.segments))),
            img.segments,
        ).len(),
        is_format_like(
            strings_of(
                before_never(args.map_values(|a: Access<i64>| promoted(a, img.segments))),
                img.segments,
            )[k],
        ),
    ensures
        filtered(b, img) == Ok::<Option<(u64, u64, Seq<Seq<u8>>)>, SegmentError>(None),
{
}

/// Whether `s` holds byte `x`.
fn contains_byte(s: &Vec<u8>, x: u8) -> (r: bool)
    ensures
        r == s@.contains(x),
{
    let mut i: usize = 0;
    while i < s.len()
        invariant
            i <= s@.len(),
            forall|j: int| 0 <= j < i ==> s@[j] != x,
        decreases s@.len() - i,
    {
        if s[i] == x {
            return true;
        }
        i = i + 1;
    }
    false
}

/// The filter on a recovered call; see `retains`.
pub fn is_retained(strs: &Vec<Vec<u8>>, nregs: usize, nstack: usize) -> (r: bool)
    ensures
        r == retains(strs@.map_values(|s: Vec<u8>| s@), nregs as nat, nstack as nat),
{
    let ghost v = strs@.map_values(|s: Vec<u8>| s@);
    if strs.len() == 0 || (nregs == 0 && nstack == 0) {
        return false;
    }
    let mut i: usize = 0;
    while i < strs.len()
        invariant
            i <= strs@.len(),
            v == strs@.map_values(|s: Vec<u8>| s@),
            forall|j: int| 0 <= j < i ==> !is_format_like(#[trigger] v[j]),
        decreases strs@.len() - i,
    {
        if contains_byte(&strs[i], 37u8) && contains_byte(&strs[i], 9u8) {
            assert(is_format_like(v[i as int]));
            return false;
        }
        i = i + 1;
    }
    true
}

/// A call whose one string argument holds both `%` and a tab is dropped; one
/// that holds only one of them is kept, given a register or stack argument.
pub proof fn lemma_format_rule(s: Seq<u8>, nregs: nat, nstack: nat)
    ensures
        is_format_like(s) ==> !retains(seq![s], nregs, nstack),
        !is_format_like(s) && nregs + nstack >= 1 ==> retains(seq![s], nregs, nstack),
{
    if is_format_like(s) {
        assert(seq![s][0] == s);
    }
}


/// The first `i` arguments, when none of them is unassigned and the next one
/// is, or there is none, are those before the first unassigned one.
proof fn lemma_before_never(s: Seq<Access<i64>>, i: int)
    requires
        0 <= i <= s.len(),
        forall|j: int| 0 <= j < i ==> !(#[trigger] s[j] is Never),
        i == s.len() || s[i] is Never,
    ensures
        before_never(s) == s.subrange(0, i),
    decreases i,
{
    if i == 0 {
        assert(s.subrange(0, 0) =~= Seq::<Access<i64>>::empty());
    } else {
        let t = s.drop_first();
        assert forall|j: int| 0 <= j < i - 1 implies !(#[trigger] t[j] is Never) by {
            assert(t[j] == s[j + 1]);
        }
        lemma_before_never(t, i - 1);
        assert(seq![s[0]] + t.subrange(0, i - 1) =~= s.subrange(0, i));
    }
}

/// A score in fifths of a point for `count` retained blocks: 6 each when the
/// callee is the only one retained in its function, else 5 each.
pub open spec fn contribution(count: u64, n_callees: nat) -> u64 {
    let per: int = if n_callees == 1 {
        6
    } else {
        5
    };
    if count * per <= u64::MAX {
        (count * per) as u64
    } else {
        u64::MAX
    }
}

/// When one callee alone is retained across a function, its contribution is
/// one fifth larger than it would be beside other callees: `1.2` times the
/// block count instead of `1.0` times.
pub proof fn lemma_single_callee_bonus(count: u64)
    requires
        6 * count <= u64::MAX,
    ensures
        contribution(count, 1) == 6 * count,
        forall|n: nat| n != 1 ==> #[trigger] contribution(count, n) == 5 * count,
        5 * contribution(count, 1) == 6 * contribution(count, 2),
{
}

/// The contribution of each callee of one function to the global scores.
pub fn function_contributions(counts: &Vec<(u64, u64)>) -> (r: Vec<(u64, u64)>)
    ensures
        r@.len() == counts@.len(),
        forall|i: int|
            0 <= i < counts@.len() ==> (#[trigger] r@[i]).0 == counts@[i].0 && r@[i].1
                == contribution(counts@[i].1, counts@.len()),
{
    let per: u64 = if counts.len() == 1 {
        6
    } else {
        5
    };
    let mut r: Vec<(u64, u64)> = Vec::new();
    let mut i: usize = 0;
    while i < counts.len()
        invariant
            i <= counts@.len(),
            r@.len() == i,
            per == if counts@.len() == 1 {
                6u64
            } else {
                5u64
            },
            forall|j: int|
                0 <= j < i ==> (#[trigger] r@[j]).0 == counts@[j].0 && r@[j].1 == contribution(
                    counts@[j].1,
                    counts@.len(),
                ),
        decreases counts@.len() - i,
    {
        let (callee, count) = counts[i];
        let v: u64 = if count <= u64::MAX / per {
            count * per
        } else {
            u64::MAX
        };
        r.push((callee, v));
        i = i + 1;
    }
    r
}

/// Runs the evaluator on a block for three arguments and promotes each
/// constant argument that addresses a C string.
pub fn analyse_block(img: &Image, block: &Block) -> (r: Result<Option<ZCondBranchAnalysis>, SegmentError>)
    requires
        img.segments.wf(),
    ensures
        match zcond_of(*block, ARGUMENT_COUNT as nat, img.endian, img.segments) {
            Ok(None) => r == Ok::<Option<ZCondBranchAnalysis>, SegmentError>(None),
            Ok(Some((callee, args, dest))) => match r {
                Ok(Some(a)) => a.function == callee && a.destination == dest && a.arguments.0@
                    == args.map_values(|x: Access<i64>| promoted(x, img.segments)),
                _ => false,
            },
            Err(e) => r == Err::<Option<ZCondBranchAnalysis>, SegmentError>(e),
        },
{
    let info = match block.get_zcond_arguments(ARGUMENT_COUNT, img.endian, &img.segments) {
        Ok(Some(info)) => info,
        Ok(None) => return Ok(None),
        Err(e) => return Err(e),
    };
    let ghost args = info.arguments.0@;
    let mut out: Vec<Access<i64>> = Vec::new();
    let mut i: usize = 0;
    while i < info.arguments.0.len()
        invariant
            img.segments.wf(),
            args == info.arguments.0@,
            i <= args.len(),
            out@ == args.subrange(0, i as int).map_values(|x: Access<i64>| promoted(x, img.segments)),
        decreases args.len() - i,
    {
        let a = info.arguments.0[i];
        let p = match a {
            Access::Constant(v) => {
                let addr: u64 = v.as_address();
                match img.segments.get_cstring(addr, None) {
                    Ok(Some(m)) => Access::String(addr, m.len()),
                    _ => a,
                }
            },
            _ => a,
        };
        out.push(p);
        i = i + 1;
        assert(out@ =~= args.subrange(0, i as int).map_values(
            |x: Access<i64>| promoted(x, img.segments),
        ));
    }
    assert(args.subrange(0, i as int) =~= args);
    Ok(Some(ZCondBranchAnalysis { function: info.function, arguments: Accesses(out), destination: info.destination }))
}

/// What the filter keeps of a block; see `filtered`.
pub fn filter_block(img: &Image, block: &Block) -> (r: Result<Option<BlockAnalysis>, SegmentError>)
    requires
        img.segments.wf(),
    ensures
        match r {
            Ok(Some(a)) => filtered(*block, *img) == Ok::<
                Option<(u64, u64, Seq<Seq<u8>>)>,
                SegmentError,
            >(Some((a.function, a.destination, a.string_arguments@.map_values(|v: Vec<u8>| v@)))),
            Ok(None) => filtered(*block, *img) == Ok::<
                Option<(u64, u64, Seq<Seq<u8>>)>,
                SegmentError,
            >(None),
            Err(e) => filtered(*block, *img) == Err::<Option<(u64, u64, Seq<Seq<u8>>)>, SegmentError>(e),
        },
{
    let info = match analyse_block(img, block) {
        Ok(Some(info)) => info,
        Ok(None) => return Ok(None),
        Err(e) => return Err(e),
    };
    let ghost args = info.arguments.0@;
    let mut strs: Vec<Vec<u8>> = Vec::new();
    let mut nregs: usize = 0;
    let mut nstack: usize = 0;
    let mut i: usize = 0;
    while i < info.arguments.0.len() && !info.arguments.0[i].is_never()
        invariant
            img.segments.wf(),
            args == info.arguments.0@,
            i <= args.len(),
            forall|j: int| 0 <= j < i ==> !(#[trigger] args[j] is Never),
            nregs == count_register(args.subrange(0, i as int)),
            nstack == count_stack(args.subrange(0, i as int)),
            nregs <= i && nstack <= i,
            strs@.map_values(|v: Vec<u8>| v@) == strings_of(args.subrange(0, i as int), img.segments),
        decreases args.len() - i,
    {
        let a = info.arguments.0[i];
        let ghost sub = args.subrange(0, i + 1);
        assert(sub.drop_last() =~= args.subrange(0, i as int));
        match a {
            Access::Stack => {
                nstack = nstack + 1;
            },
            Access::Register => {
                nregs = nregs + 1;
            },
            Access::String(addr, len) => {
                if len < usize::MAX {
                    match img.segments.get_cstring(addr, Some(len + 1)) {
                        Ok(Some(b)) => {
                            let ghost before = strs@.map_values(|v: Vec<u8>| v@);
                            strs.push(vstd::slice::slice_to_vec(b));
                            assert(strs@.map_values(|v: Vec<u8>| v@) =~= before.push(b@));
                        },
                        _ => {},
                    }
                }
            },
            _ => {},
        }
        i = i + 1;
    }
    proof {
        lemma_before_never(args, i as int);
    }
    if is_retained(&strs, nregs, nstack) {
        Ok(Some(BlockAnalysis { function: info.function, destination: info.destination, string_arguments: strs }))
    } else {
        Ok(None)
    }
}


/// Each recorded block analysis is what the filter keeps of a block of the
/// image that starts at its key.
pub open spec fn analyses_ok(img: Image, m: Map<u64, BlockAnalysis>) -> bool {
    forall|k: u64| #[trigger] m.contains_key(k) ==> exists|fi: int, bi: int|
        0 <= fi < img.functions@.len() && 0 <= bi < img.functions@[fi].blocks@.len()
            && (#[trigger] img.functions@[fi].blocks@[bi]).start_addr == k && filtered(
            img.functions@[fi].blocks@[bi],
            img,
        ) == Ok::<Option<(u64, u64, Seq<Seq<u8>>)>, SegmentError>(
            Some((m[k].function, m[k].destination, m[k].string_arguments@.map_values(|v: Vec<u8>| v@))),
        )
}

/// Whether `counts` holds an entry for `k`.
pub open spec fn has_key(counts: Seq<(u64, u64)>, k: u64) -> bool {
    exists|i: int| 0 <= i < counts.len() && (#[trigger] counts[i]).0 == k
}

/// Whether block `bi` of function `fi` is kept by the filter with callee `k`.
pub open spec fn retained_callee(img: Image, fi: int, bi: int, k: u64) -> bool {
    &&& 0 <= fi < img.functions@.len()
    &&& 0 <= bi < img.functions@[fi].blocks@.len()
    &&& match filtered(img.functions@[fi].blocks@[bi], img) {
        Ok(Some(t)) => t.0 == k,
        _ => false,
    }
}

/// Whether block `bi` of function `fi` is kept by the filter.
pub open spec fn retained(img: Image, fi: int, bi: int) -> bool {
    &&& 0 <= fi < img.functions@.len()
    &&& 0 <= bi < img.functions@[fi].blocks@.len()
    &&& filtered(img.functions@[fi].blocks@[bi], img) matches Ok(Some(_))
}

/// The number of the first `nb` blocks of function `fi` that the filter
/// keeps with callee `k`.
pub open spec fn fcount(img: Image, fi: int, nb: int, k: u64) -> nat
    decreases nb,
{
    if nb <= 0 {
        0
    } else {
        fcount(img, fi, nb - 1, k) + if retained_callee(img, fi, nb - 1, k) {
            1nat
        } else {
            0nat
        }
    }
}

/// The number of blocks of function `fi`.
pub open spec fn nblocks(img: Image, fi: int) -> int {
    img.functions@[fi].blocks@.len() as int
}

/// The distinct callees of the blocks of function `fi` that the filter keeps.
pub open spec fn fcallees(img: Image, fi: int) -> Set<u64> {
    Set::new(|k: u64| fcount(img, fi, nblocks(img, fi), k) > 0)
}

/// The score of callee `k` over the first `nf` functions, in fifths: the
/// saturating sum over the functions that keep a block calling `k` of
/// `contribution(blocks kept calling k, distinct callees kept)`.
pub open spec fn score_sum(img: Image, k: u64, nf: int) -> u64
    decreases nf,
{
    if nf <= 0 {
        0
    } else {
        let prev = score_sum(img, k, nf - 1);
        let c = fcount(img, nf - 1, nblocks(img, nf - 1), k);
        if c > 0 {
            sat_add(prev, contribution(c as u64, fcallees(img, nf - 1).len()))
        } else {
            prev
        }
    }
}

/// `m[k]`, or 0 when `k` has no entry.
pub open spec fn get_or_zero(m: Map<u64, u64>, k: u64) -> u64 {
    if m.contains_key(k) {
        m[k]
    } else {
        0
    }
}

/// The keys of a list of pairs.
pub open spec fn keys_of(s: Seq<(u64, u64)>) -> Seq<u64> {
    s.map_values(|p: (u64, u64)| p.0)
}

proof fn lemma_fcount_pos(img: Image, fi: int, nb: int, k: u64)
    ensures
        fcount(img, fi, nb, k) > 0 <==> exists|bj: int| bj < nb && retained_callee(img, fi, bj, k),
        fcount(img, fi, nb, k) <= if nb < 0 { 0 } else { nb },
    decreases nb,
{
    if nb > 0 {
        lemma_fcount_pos(img, fi, nb - 1, k);
        if exists|bj: int| bj < nb && retained_callee(img, fi, bj, k) {
            let bj = choose|bj: int| bj < nb && retained_callee(img, fi, bj, k);
            if bj < nb - 1 {
                assert(exists|b2: int| b2 < nb - 1 && retained_callee(img, fi, b2, k));
            }
        }
    }
}

/// Counts one more retained block calling `callee`.
fn count_callee(counts: &mut Vec<(u64, u64)>, callee: u64, bound: u64)
    requires
        bound < u64::MAX,
        forall|i: int| 0 <= i < old(counts)@.len() ==> (#[trigger] old(counts)@[i]).1 <= bound,
        keys_of(old(counts)@).no_duplicates(),
    ensures
        forall|i: int| 0 <= i < final(counts)@.len() ==> (#[trigger] final(counts)@[i]).1 <= bound + 1,
        forall|k: u64|
            has_key(final(counts)@, k) <==> has_key(old(counts)@, k) || k == callee,
        keys_of(final(counts)@).no_duplicates(),
        final(counts)@.len() == old(counts)@.len() + if has_key(old(counts)@, callee) {
            0int
        } else {
            1int
        },
        forall|j: int|
            0 <= j < old(counts)@.len() ==> (#[trigger] final(counts)@[j]).0 == old(counts)@[j].0
                && final(counts)@[j].1 == old(counts)@[j].1 + if old(counts)@[j].0 == callee {
                1int
            } else {
                0int
            },
        !has_key(old(counts)@, callee) ==> final(counts)@[old(counts)@.len() as int] == (callee, 1u64),
{
    let mut i: usize = 0;
    while i < counts.len()
        invariant
            i <= counts@.len(),
            counts@ == old(counts)@,
            bound < u64::MAX,
            forall|j: int| 0 <= j < counts@.len() ==> (#[trigger] counts@[j]).1 <= bound,
            forall|j: int| 0 <= j < i ==> (#[trigger] counts@[j]).0 != callee,
            keys_of(counts@).no_duplicates(),
        decreases counts@.len() - i,
    {
        if counts[i].0 == callee {
            let c = counts[i].1;
            let ghost before = counts@;
            counts.set(i, (callee, c + 1));
            proof {
                assert forall|j: int| 0 <= j < before.len() && j != i implies before[j].0 != callee by {
                    assert(keys_of(before)[j] == before[j].0);
                    assert(keys_of(before)[i as int] == before[i as int].0);
                }
                assert(keys_of(counts@) =~= keys_of(before));
                assert forall|k: u64| has_key(counts@, k) <==> has_key(before, k) || k == callee by {
                    assert(counts@[i as int].0 == callee);
                    if has_key(before, k) {
                        let j = choose|j: int| 0 <= j < before.len() && (#[trigger] before[j]).0 == k;
                        assert(counts@[j].0 == k);
                    }
                    if has_key(counts@, k) {
                        let j = choose|j: int| 0 <= j < counts@.len() && (#[trigger] counts@[j]).0 == k;
                        assert(before[j].0 == k);
                    }
                }
            }
            return;
        }
        i = i + 1;
    }
    let ghost before = counts@;
    counts.push((callee, 1));
    proof {
        assert(!has_key(before, callee));
        assert(keys_of(counts@) =~= keys_of(before).push(callee));
        assert(!keys_of(before).contains(callee)) by {
            if keys_of(before).contains(callee) {
                let j = keys_of(before).index_of(callee);
                assert(before[j].0 == callee);
            }
        }
        assert forall|k: u64| has_key(counts@, k) <==> has_key(before, k) || k == callee by {
            if has_key(before, k) {
                let j = choose|j: int| 0 <= j < before.len() && (#[trigger] before[j]).0 == k;
                assert(counts@[j].0 == k);
            }
            if k == callee {
                assert(counts@[before.len() as int].0 == k);
            }
            if has_key(counts@, k) && k != callee {
                let j = choose|j: int| 0 <= j < counts@.len() && (#[trigger] counts@[j]).0 == k;
                assert(before[j].0 == k);
            }
        }
    }
}

/// Adds each contribution into the global scores, saturating.
fn add_scores(scores: &mut BTreeMap<u64, u64>, contribs: &Vec<(u64, u64)>)
    requires
        keys_of(contribs@).no_duplicates(),
    ensures
        forall|i: int|
            0 <= i < contribs@.len() ==> final(scores)@[(#[trigger] contribs@[i]).0] == sat_add(
                get_or_zero(old(scores)@, contribs@[i].0),
                contribs@[i].1,
            ),
        forall|k: u64|
            #[trigger] old(scores)@.contains_key(k) && !has_key(contribs@, k) ==> final(scores)@[k] == old(
                scores,
            )@[k],
        forall|k: u64|
            #[trigger] final(scores)@.contains_key(k) <==> old(scores)@.contains_key(k) || exists|i: int|
                0 <= i < contribs@.len() && (#[trigger] contribs@[i]).0 == k,
{
    let mut i: usize = 0;
    let ghost s0 = scores@;
    while i < contribs.len()
        invariant
            i <= contribs@.len(),
            forall|k: u64|
                #[trigger] scores@.contains_key(k) <==> s0.contains_key(k) || exists|j: int|
                    0 <= j < i && (#[trigger] contribs@[j]).0 == k,
            keys_of(contribs@).no_duplicates(),
            forall|j: int|
                0 <= j < i ==> scores@[(#[trigger] contribs@[j]).0] == sat_add(
                    get_or_zero(s0, contribs@[j].0),
                    contribs@[j].1,
                ),
            forall|k: u64|
                #[trigger] s0.contains_key(k) && !(exists|j: int| 0 <= j < i && (#[trigger] contribs@[j]).0 == k)
                    ==> scores@[k] == s0[k],
            forall|k: u64|
                !(exists|j: int| 0 <= j < i && (#[trigger] contribs@[j]).0 == k) ==> get_or_zero(scores@, k)
                    == get_or_zero(s0, k),
        decreases contribs@.len() - i,
    {
        let (k, v) = contribs[i];
        let old_v: u64 = match scores.get(&k) {
            Some(x) => *x,
            None => 0,
        };
        let new_v: u64 = if old_v <= u64::MAX - v {
            old_v + v
        } else {
            u64::MAX
        };
        scores.insert(k, new_v);
        proof {
            assert forall|j: int| 0 <= j < i implies contribs@[j].0 != k by {
                assert(keys_of(contribs@)[j] == contribs@[j].0);
                assert(keys_of(contribs@)[i as int] == contribs@[i as int].0);
            }
            assert(!(exists|j: int| 0 <= j < i && (#[trigger] contribs@[j]).0 == k));
        }
        i = i + 1;
        assert forall|k2: u64|
            #[trigger] scores@.contains_key(k2) <==> s0.contains_key(k2) || exists|j: int|
                0 <= j < i && (#[trigger] contribs@[j]).0 == k2 by {
            if k2 == k {
                assert(contribs@[i - 1].0 == k);
            } else if exists|j: int| 0 <= j < i && (#[trigger] contribs@[j]).0 == k2 {
                let j = choose|j: int| 0 <= j < i && (#[trigger] contribs@[j]).0 == k2;
                assert(j < i - 1);
            }
        }
    }
}

/// Runs the evaluator and the filter on every block of every function:
/// records what the filter keeps of each block under its start address, and
/// scores each callee in fifths of a point (see `ComparisonAnalyses`).
pub fn get_static_data_comparisons(img: &Image) -> (r: Result<ComparisonAnalyses, SegmentError>)
    requires
        img.wf(),
    ensures
        match r {
            Ok(c) => (forall|fi: int, bi: int|
                0 <= fi < img.functions@.len() && 0 <= bi < img.functions@[fi].blocks@.len() ==> filtered(
                    #[trigger] img.functions@[fi].blocks@[bi],
                    *img,
                ) is Ok) && analyses_ok(*img, c.block_analyses@) && (forall|fi: int, bi: int|
                #[trigger] retained(*img, fi, bi) ==> c.block_analyses@.contains_key(
                    img.functions@[fi].blocks@[bi].start_addr,
                )) && (forall|k: u64|
                #[trigger] c.function_scores@.contains_key(k) <==> exists|fi: int, bi: int|
                    retained_callee(*img, fi, bi, k)) && forall|k: u64|
                #[trigger] c.function_scores@.contains_key(k) ==> c.function_scores@[k] == score_sum(
                    *img,
                    k,
                    img.functions@.len() as int,
                ),
            Err(e) => exists|fi: int, bi: int|
                0 <= fi < img.functions@.len() && 0 <= bi < img.functions@[fi].blocks@.len() && filtered(
                    #[trigger] img.functions@[fi].blocks@[bi],
                    *img,
                ) == Err::<Option<(u64, u64, Seq<Seq<u8>>)>, SegmentError>(e),
        },
{
    let mut scores: BTreeMap<u64, u64> = BTreeMap::new();
    let mut analyses: BTreeMap<u64, BlockAnalysis> = BTreeMap::new();
    let mut fi: usize = 0;
    while fi < img.functions.len()
        invariant
            img.wf(),
            fi <= img.functions@.len(),
            analyses_ok(*img, analyses@),
            forall|fj: int, bj: int|
                0 <= fj < fi && 0 <= bj < img.functions@[fj].blocks@.len() ==> filtered(
                    #[trigger] img.functions@[fj].blocks@[bj],
                    *img,
                ) is Ok,
            forall|fj: int, bj: int|
                fj < fi && #[trigger] retained(*img, fj, bj) ==> analyses@.contains_key(
                    img.functions@[fj].blocks@[bj].start_addr,
                ),
            forall|k: u64|
                #[trigger] scores@.contains_key(k) <==> exists|fj: int, bj: int|
                    fj < fi && retained_callee(*img, fj, bj, k),
            forall|k: u64| #[trigger] get_or_zero(scores@, k) == score_sum(*img, k, fi as int),
        decreases img.functions@.len() - fi,
    {
        let f = &img.functions[fi];
        let mut counts: Vec<(u64, u64)> = Vec::new();
        let mut bi: usize = 0;
        while bi < f.blocks.len()
            invariant
                img.wf(),
                fi < img.functions@.len(),
                *f == img.functions@[fi as int],
                bi <= f.blocks@.len(),
                analyses_ok(*img, analyses@),
                forall|fj: int, bj: int|
                    0 <= fj < img.functions@.len() && 0 <= bj < img.functions@[fj].blocks@.len() && (fj < fi
                        || (fj == fi && bj < bi)) ==> filtered(
                        #[trigger] img.functions@[fj].blocks@[bj],
                        *img,
                    ) is Ok,
                forall|i: int| 0 <= i < counts@.len() ==> (#[trigger] counts@[i]).1 <= bi,
                forall|fj: int, bj: int|
                    (fj < fi || (fj == fi && bj < bi)) && #[trigger] retained(*img, fj, bj)
                        ==> analyses@.contains_key(img.functions@[fj].blocks@[bj].start_addr),
                forall|k: u64|
                    has_key(counts@, k) <==> exists|bj: int| bj < bi && retained_callee(*img, fi as int, bj, k),
                forall|k: u64|
                    #[trigger] scores@.contains_key(k) <==> exists|fj: int, bj: int|
                        fj < fi && retained_callee(*img, fj, bj, k),
                forall|k: u64| #[trigger] get_or_zero(scores@, k) == score_sum(*img, k, fi as int),
                keys_of(counts@).no_duplicates(),
                forall|i: int|
                    0 <= i < counts@.len() ==> (#[trigger] counts@[i]).1 == fcount(
                        *img,
                        fi as int,
                        bi as int,
                        counts@[i].0,
                    ),
            decreases f.blocks@.len() - bi,
        {
            let b = &f.blocks[bi];
            match filter_block(img, b) {
                Ok(Some(a)) => {
                    let ghost c0 = counts@;
                    count_callee(&mut counts, a.function, bi as u64);
                    proof {
                        assert(retained_callee(*img, fi as int, bi as int, a.function));
                        lemma_fcount_pos(*img, fi as int, bi as int, a.function);
                        assert forall|i: int| 0 <= i < counts@.len() implies (#[trigger] counts@[i]).1 == fcount(
                            *img,
                            fi as int,
                            bi + 1,
                            counts@[i].0,
                        ) by {
                            if i < c0.len() {
                                assert(counts@[i].0 == c0[i].0);
                            } else {
                                assert(!has_key(c0, a.function));
                            }
                        }
                        assert(retained_callee(*img, fi as int, bi as int, a.function));
                        assert forall|k: u64|
                            has_key(counts@, k) <==> exists|bj: int|
                                bj < bi + 1 && retained_callee(*img, fi as int, bj, k) by {
                            if exists|bj: int| bj < bi + 1 && retained_callee(*img, fi as int, bj, k) {
                                let bj = choose|bj: int| bj < bi + 1 && retained_callee(*img, fi as int, bj, k);
                                if bj < bi {
                                    assert(exists|bj: int| bj < bi && retained_callee(*img, fi as int, bj, k));
                                }
                            }
                        }
                    }
                    let key = b.start_addr;
                    let ghost av = a;
                    analyses.insert(key, a);
                    proof {
                        assert forall|k: u64| #[trigger] analyses@.contains_key(k) implies exists|
                            fj: int,
                            bj: int,
                        |
                            0 <= fj < img.functions@.len() && 0 <= bj < img.functions@[fj].blocks@.len()
                                && (#[trigger] img.functions@[fj].blocks@[bj]).start_addr == k
                                && filtered(img.functions@[fj].blocks@[bj], *img) == Ok::<
                                Option<(u64, u64, Seq<Seq<u8>>)>,
                                SegmentError,
                            >(
                                Some(
                                    (
                                        analyses@[k].function,
                                        analyses@[k].destination,
                                        analyses@[k].string_arguments@.map_values(|v: Vec<u8>| v@),
                                    ),
                                ),
                            ) by {
                            if k == key {
                                assert(img.functions@[fi as int].blocks@[bi as int].start_addr == k);
                            }
                        }
                    }
                },
                Ok(None) => {
                    proof {
                        assert forall|i: int| 0 <= i < counts@.len() implies (#[trigger] counts@[i]).1 == fcount(
                            *img,
                            fi as int,
                            bi + 1,
                            counts@[i].0,
                        ) by {
                            assert(!retained_callee(*img, fi as int, bi as int, counts@[i].0));
                        }
                        assert forall|k: u64|
                            has_key(counts@, k) <==> exists|bj: int|
                                bj < bi + 1 && retained_callee(*img, fi as int, bj, k) by {
                            if exists|bj: int| bj < bi + 1 && retained_callee(*img, fi as int, bj, k) {
                                let bj = choose|bj: int| bj < bi + 1 && retained_callee(*img, fi as int, bj, k);
                                assert(bj != bi);
                            }
                        }
                    }
                },
                Err(e) => {
                    assert(filtered(img.functions@[fi as int].blocks@[bi as int], *img) == Err::<
                        Option<(u64, u64, Seq<Seq<u8>>)>,
                        SegmentError,
                    >(e));
                    return Err(e);
                },
            }
            bi = bi + 1;
        }
        let contribs = function_contributions(&counts);
        let ghost sc0 = scores@;
        proof {
            assert(keys_of(contribs@) =~= keys_of(counts@));
            assert forall|k: u64| #[trigger] has_key(counts@, k) <==> fcount(*img, fi as int, nblocks(*img, fi as int), k) > 0 by {
                lemma_fcount_pos(*img, fi as int, nblocks(*img, fi as int), k);
            }
            assert(keys_of(counts@).to_set() =~= fcallees(*img, fi as int)) by {
                assert forall|k: u64| keys_of(counts@).to_set().contains(k) <==> fcallees(*img, fi as int).contains(k) by {
                    if keys_of(counts@).contains(k) {
                        let j = keys_of(counts@).index_of(k);
                        assert(counts@[j].0 == k);
                    }
                    if has_key(counts@, k) {
                        let j = choose|j: int| 0 <= j < counts@.len() && (#[trigger] counts@[j]).0 == k;
                        assert(keys_of(counts@)[j] == k);
                    }
                }
            }
            keys_of(counts@).unique_seq_to_set();
            assert(counts@.len() == fcallees(*img, fi as int).len());
        }
        add_scores(&mut scores, &contribs);
        proof {
            assert forall|k: u64| #[trigger] get_or_zero(scores@, k) == score_sum(*img, k, fi + 1) by {
                lemma_fcount_pos(*img, fi as int, nblocks(*img, fi as int), k);
                if has_key(contribs@, k) {
                    let i = choose|i: int| 0 <= i < contribs@.len() && (#[trigger] contribs@[i]).0 == k;
                    assert(counts@[i].0 == k);
                    assert(has_key(counts@, k));
                    assert(scores@.contains_key(k));
                } else {
                    assert(!has_key(counts@, k)) by {
                        if has_key(counts@, k) {
                            let i = choose|i: int| 0 <= i < counts@.len() && (#[trigger] counts@[i]).0 == k;
                            assert(contribs@[i].0 == k);
                        }
                    }
                    assert(get_or_zero(sc0, k) == score_sum(*img, k, fi as int));
                }
            }
            assert forall|k: u64|
                #[trigger] scores@.contains_key(k) <==> exists|fj: int, bj: int|
                    fj < fi + 1 && retained_callee(*img, fj, bj, k) by {
                if exists|i: int| 0 <= i < contribs@.len() && (#[trigger] contribs@[i]).0 == k {
                    let i = choose|i: int| 0 <= i < contribs@.len() && (#[trigger] contribs@[i]).0 == k;
                    assert(counts@[i].0 == k);
                    assert(has_key(counts@, k));
                }
                if has_key(counts@, k) {
                    let i = choose|i: int| 0 <= i < counts@.len() && (#[trigger] counts@[i]).0 == k;
                    assert(contribs@[i].0 == k);
                }
                if exists|fj: int, bj: int| fj < fi + 1 && retained_callee(*img, fj, bj, k) {
                    let (fj, bj) = choose|fj: int, bj: int| fj < fi + 1 && retained_callee(*img, fj, bj, k);
                    if fj == fi {
                        assert(bj < f.blocks@.len());
                        assert(has_key(counts@, k));
                    } else {
                        assert(exists|fj: int, bj: int| fj < fi && retained_callee(*img, fj, bj, k));
                    }
                }
            }
        }
        fi = fi + 1;
    }
    proof {
        assert forall|k: u64| #[trigger] scores@.contains_key(k) implies scores@[k] == score_sum(
            *img,
            k,
            img.functions@.len() as int,
        ) by {
            assert(get_or_zero(scores@, k) == score_sum(*img, k, fi as int));
        }
    }
    Ok(ComparisonAnalyses { function_scores: scores, block_analyses: analyses })
}

} // verus!
