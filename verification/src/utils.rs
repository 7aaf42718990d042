//! Control flow facts about RIR programs: successors, reachability and predecessors.
use crate::fx::{NumberSet, OperandMap};
use crate::index_map::{IndexKey, IndexMap};
use crate::rir::{operands_read, same_shape, Block, Literal, BlockId, InstructionDbgMetadata, Instruction, Operand, Program, Variable, VariableId};
use vstd::prelude::*;
use vstd::set_lib::{lemma_int_range, lemma_len_subset, set_int_range};

verus! {

/// The blocks that an instruction hands control to, when it ends a block.
pub open spec fn terminator_successors(i: Instruction) -> Seq<BlockId> {
    match i {
        Instruction::Branch(_, t, f, _) => seq![t, f],
        Instruction::Jump(t) => seq![t],
        _ => Seq::empty(),
    }
}

/// The successors of a block: those named by its last instruction.
pub open spec fn block_successors(b: Block) -> Seq<BlockId> {
    if b.0@.len() == 0 {
        Seq::empty()
    } else {
        terminator_successors(b.0@.last())
    }
}

/// Whether the program holds block `b` and it is not empty.
pub open spec fn block_ok(p: &Program, b: BlockId) -> bool {
    p.blocks.has(b.0 as nat) && p.blocks.at(b.0 as nat).0@.len() > 0
}

/// Whether control can pass directly from block `a` to block `b`.
pub open spec fn edge(p: &Program, a: BlockId, b: BlockId) -> bool {
    p.blocks.has(a.0 as nat) && block_successors(p.blocks.at(a.0 as nat)).contains(b)
}

/// Whether `b` can be reached from `a` by exactly `n` edges.
pub open spec fn reach_n(p: &Program, a: BlockId, b: BlockId, n: nat) -> bool
    decreases n,
{
    if n == 0 {
        a == b
    } else {
        exists|c: BlockId| #[trigger] edge(p, a, c) && reach_n(p, c, b, (n - 1) as nat)
    }
}

/// Whether `b` can be reached from `a` by zero or more edges.
pub open spec fn reaches(p: &Program, a: BlockId, b: BlockId) -> bool {
    exists|n: nat| reach_n(p, a, b, n)
}

/// Whether `b` can be reached from `a` by one or more edges.
pub open spec fn reaches_strict(p: &Program, a: BlockId, b: BlockId) -> bool {
    exists|n: nat| n > 0 && reach_n(p, a, b, n)
}

/// Whether every block reachable from `a` (including `a`) is present and not empty.
pub open spec fn closed_from(p: &Program, a: BlockId) -> bool {
    forall|b: BlockId| reaches(p, a, b) ==> block_ok(p, b)
}

/// Whether some block reaches itself by one or more edges.
pub open spec fn has_cycle(p: &Program) -> bool {
    exists|b: BlockId| p.blocks.has(b.0 as nat) && reaches_strict(p, b, b)
}

/// A path may be extended by one more edge at its end.
pub proof fn lemma_reach_step(p: &Program, a: BlockId, c: BlockId, b: BlockId, n: nat)
    requires
        reach_n(p, a, c, n),
        edge(p, c, b),
    ensures
        reach_n(p, a, b, n + 1),
    decreases n,
{
    if n == 0 {
        assert(edge(p, a, b));
        assert(reach_n(p, b, b, 0));
    } else {
        let d = choose|d: BlockId| #[trigger] edge(p, a, d) && reach_n(p, d, c, (n - 1) as nat);
        lemma_reach_step(p, d, c, b, (n - 1) as nat);
        assert(edge(p, a, d) && reach_n(p, d, b, n));
    }
}

/// Two paths may be joined.
pub proof fn lemma_reach_join(p: &Program, a: BlockId, c: BlockId, b: BlockId, n: nat, m: nat)
    requires
        reach_n(p, a, c, n),
        reach_n(p, c, b, m),
    ensures
        reach_n(p, a, b, n + m),
    decreases n,
{
    if n > 0 {
        let d = choose|d: BlockId| #[trigger] edge(p, a, d) && reach_n(p, d, c, (n - 1) as nat);
        lemma_reach_join(p, d, c, b, (n - 1) as nat, m);
        assert(edge(p, a, d) && reach_n(p, d, b, (n - 1 + m) as nat));
    }
}

/// A set closed under edges holds everything reachable from its members.
pub proof fn lemma_closed_set_holds_reachable(
    p: &Program,
    s: Set<BlockId>,
    c: BlockId,
    b: BlockId,
    m: nat,
)
    requires
        s.contains(c),
        forall|x: BlockId, y: BlockId| s.contains(x) && #[trigger] edge(p, x, y) ==> s.contains(y),
        reach_n(p, c, b, m),
    ensures
        s.contains(b),
    decreases m,
{
    if m > 0 {
        let d = choose|d: BlockId| #[trigger] edge(p, c, d) && reach_n(p, d, b, (m - 1) as nat);
        lemma_closed_set_holds_reachable(p, s, d, b, (m - 1) as nat);
    }
}

/// Distinct block ids below `n` number at most `n`.
pub proof fn lemma_distinct_ids_bounded(s: Seq<BlockId>, n: nat)
    requires
        s.no_duplicates(),
        forall|i: int| 0 <= i < s.len() ==> (#[trigger] s[i]).0 < n,
    ensures
        s.len() <= n,
{
    let t = s.map_values(|b: BlockId| b.0 as int);
    assert forall|i: int, j: int| 0 <= i < t.len() && 0 <= j < t.len() && i != j implies t[i]
        != t[j] by {
        assert(s[i] != s[j]);
    }
    assert(t.no_duplicates());
    t.unique_seq_to_set();
    lemma_int_range(0, n as int);
    assert(t.to_set().subset_of(set_int_range(0, n as int)));
    lemma_len_subset(t.to_set(), set_int_range(0, n as int));
}

/// The numbers of the blocks that `root` reaches.
pub open spec fn reach_set(p: &Program, root: BlockId) -> Set<int> {
    Set::new(|k: int| 0 <= k < p.blocks@.len() && reaches(p, root, BlockId(k as u32)))
}

/// A set of numbers below `n` is finite and holds at most `n` of them.
pub proof fn lemma_below_bounded(s: Set<int>, n: nat)
    requires
        forall|k: int| #[trigger] s.contains(k) ==> 0 <= k < n,
    ensures
        s.finite(),
        s.len() <= n,
{
    lemma_int_range(0, n as int);
    assert(s.subset_of(set_int_range(0, n as int)));
    lemma_len_subset(s, set_int_range(0, n as int));
}

/// Distinct blocks that `root` reaches number at most as many as the blocks it reaches.
pub proof fn lemma_listed_within_reach(p: &Program, root: BlockId, bs: Seq<BlockId>)
    requires
        p.blocks.well_formed(),
        bs.no_duplicates(),
        forall|i: int| 0 <= i < bs.len() ==> reaches(p, root, #[trigger] bs[i]) && block_ok(p, bs[i]),
    ensures
        reach_set(p, root).finite(),
        bs.len() <= reach_set(p, root).len(),
{
    lemma_below_bounded(reach_set(p, root), p.blocks@.len());
    let t = bs.map_values(|b: BlockId| b.0 as int);
    assert forall|i: int, j: int| 0 <= i < t.len() && 0 <= j < t.len() && i != j implies t[i] != t[j] by {
        assert(bs[i] != bs[j]);
    }
    assert(t.no_duplicates());
    t.unique_seq_to_set();
    assert forall|k: int| #[trigger] t.to_set().contains(k) implies reach_set(p, root).contains(k) by {
        let i = choose|i: int| 0 <= i < t.len() && t[i] == k;
        assert(reaches(p, root, bs[i]));
        assert(block_ok(p, bs[i]));
        assert(BlockId(k as u32) == bs[i]);
    }
    lemma_len_subset(t.to_set(), reach_set(p, root));
}

/// Block ids listed in increasing order that are exactly the blocks `root` reaches number as
/// many as those blocks.
pub proof fn lemma_listed_reach_len(p: &Program, root: BlockId, bs: Seq<BlockId>)
    requires
        p.blocks.well_formed(),
        closed_from(p, root),
        forall|i: int, j: int| 0 <= i < j < bs.len() ==> bs[i].0 < bs[j].0,
        forall|b: BlockId| #[trigger] bs.contains(b) <==> reaches(p, root, b),
    ensures
        reach_set(p, root).finite(),
        bs.len() == reach_set(p, root).len(),
{
    let t = bs.map_values(|b: BlockId| b.0 as int);
    assert forall|i: int, j: int| 0 <= i < t.len() && 0 <= j < t.len() && i != j implies t[i] != t[j] by {
        if i < j {
            assert(bs[i].0 < bs[j].0);
        } else {
            assert(bs[j].0 < bs[i].0);
        }
    }
    assert(t.no_duplicates());
    t.unique_seq_to_set();
    assert forall|k: int| #[trigger] t.to_set().contains(k) <==> reach_set(p, root).contains(k) by {
        if t.to_set().contains(k) {
            let i = choose|i: int| 0 <= i < t.len() && t[i] == k;
            assert(bs.contains(bs[i]));
            assert(block_ok(p, bs[i]));
            assert(BlockId(k as u32) == bs[i]);
        }
        if reach_set(p, root).contains(k) {
            let b = BlockId(k as u32);
            assert(bs.contains(b));
            let i = choose|i: int| 0 <= i < bs.len() && bs[i] == b;
            assert(t[i] == k);
        }
    }
    assert(t.to_set() =~= reach_set(p, root));
}

/// The successors of a block, which must not be empty.
pub fn get_block_successors(block: &Block) -> (r: Vec<BlockId>)
    requires
        block.0@.len() > 0,
    ensures
        r@ == block_successors(*block),
{
    let last = &block.0[block.0.len() - 1];
    match last {
        Instruction::Branch(_, t, f, _) => {
            let mut v = Vec::new();
            v.push(*t);
            v.push(*f);
            proof {
                assert(v@ =~= seq![*t, *f]);
            }
            v
        },
        Instruction::Jump(t) => {
            let mut v = Vec::new();
            v.push(*t);
            proof {
                assert(v@ =~= seq![*t]);
            }
            v
        },
        _ => {
            let v = Vec::new();
            proof {
                assert(v@ =~= Seq::<BlockId>::empty());
            }
            v
        },
    }
}

/// Every block reachable from `block` by one or more edges, each once.
pub fn get_all_block_successors(block: BlockId, program: &Program) -> (r: Vec<BlockId>)
    requires
        closed_from(program, block),
    ensures
        r@.no_duplicates(),
        forall|b: BlockId| r@.contains(b) <==> reaches_strict(program, block, b),
{
    assert(reach_n(program, block, block, 0));
    assert(reaches(program, block, block));
    assert(block_ok(program, block));
    let mut result: Vec<BlockId> = Vec::new();
    let mut visited = NumberSet::new();
    let mut stack = get_block_successors(program.get_block(block));
    let ghost slots = program.blocks@.len();
    proof {
        assert forall|y: BlockId| stack@.contains(y) implies reaches_strict(program, block, y) by {
            assert(edge(program, block, y));
            assert(reach_n(program, y, y, 0));
            assert(reach_n(program, block, y, 1));
        }
    }
    while stack.len() > 0
        invariant
            closed_from(program, block),
            slots == program.blocks@.len(),
            result@.no_duplicates(),
            result@.len() <= slots,
            forall|x: BlockId| #[trigger] result@.contains(x) <==> visited.contents().contains(x.0),
            forall|x: BlockId| #[trigger] result@.contains(x) ==> reaches_strict(program, block, x),
            forall|x: BlockId| #[trigger] stack@.contains(x) ==> reaches_strict(program, block, x),
            forall|x: BlockId, y: BlockId|
                result@.contains(x) && #[trigger] edge(program, x, y) ==> result@.contains(y)
                    || stack@.contains(y),
            forall|y: BlockId|
                #[trigger] edge(program, block, y) ==> result@.contains(y) || stack@.contains(y),
        decreases 3 * (slots - result@.len()) + stack@.len(),
    {
        let ghost old_stack = stack@;
        let b = stack.pop().unwrap();
        proof {
            assert(old_stack == stack@.push(b));
            assert(old_stack.contains(b));
            assert forall|x: BlockId| stack@.contains(x) implies old_stack.contains(x) by {
                let i = choose|i: int| 0 <= i < stack@.len() && stack@[i] == x;
                assert(old_stack[i] == x);
            }
            assert forall|y: BlockId| old_stack.contains(y) && y != b implies stack@.contains(
                y,
            ) by {
                let i = choose|i: int| 0 <= i < old_stack.len() && old_stack[i] == y;
                assert(stack@[i] == y);
            }
        }
        if visited.contains(b.0) {
            proof {
                assert(result@.contains(b));
                assert forall|x: BlockId| #[trigger] stack@.contains(x) implies reaches_strict(
                    program,
                    block,
                    x,
                ) by {
                    assert(old_stack.contains(x));
                }
                assert forall|x: BlockId, y: BlockId|
                    result@.contains(x) && #[trigger] edge(program, x, y) implies result@.contains(
                    y,
                ) || stack@.contains(y) by {
                    assert(result@.contains(y) || old_stack.contains(y));
                }
                assert forall|y: BlockId| #[trigger] edge(program, block, y) implies result@.contains(
                    y,
                ) || stack@.contains(y) by {
                    assert(result@.contains(y) || old_stack.contains(y));
                }
            }
            continue;
        }
        let ghost n0 = choose|n: nat| n > 0 && reach_n(program, block, b, n);
        proof {
            assert(reaches(program, block, b));
            assert(block_ok(program, b));
        }
        let ghost old_visited = visited.contents();
        visited.insert(b.0);
        let ghost old_result = result@;
        result.push(b);
        proof {
            assert forall|x: BlockId| #[trigger] result@.contains(x) <==> visited.contents().contains(
                x.0,
            ) by {
                if result@.contains(x) {
                    let i = choose|i: int| 0 <= i < result@.len() && result@[i] == x;
                    if i < old_result.len() {
                        assert(old_result[i] == x);
                        assert(old_result.contains(x));
                        assert(old_visited.contains(x.0));
                    }
                }
                if visited.contents().contains(x.0) {
                    if x.0 == b.0 {
                        assert(x == b);
                        assert(result@[result@.len() - 1] == b);
                    } else {
                        assert(old_visited.contains(x.0));
                        assert(old_result.contains(x));
                        let i = choose|i: int| 0 <= i < old_result.len() && old_result[i] == x;
                        assert(result@[i] == x);
                    }
                }
            }
            assert(!old_result.contains(b));
            assert forall|x: BlockId| #[trigger] result@.contains(x) implies reaches_strict(
                program,
                block,
                x,
            ) by {
                let i = choose|i: int| 0 <= i < result@.len() && result@[i] == x;
                if i < old_result.len() {
                    assert(old_result[i] == x);
                    assert(old_result.contains(x));
                } else {
                    assert(reach_n(program, block, b, n0));
                }
            }
            assert forall|i: int, j: int|
                0 <= i < result@.len() && 0 <= j < result@.len() && i != j implies result@[i]
                != result@[j] by {
                if i < old_result.len() && j < old_result.len() {
                } else if i == old_result.len() {
                    assert(old_result.contains(result@[j]));
                } else {
                    assert(old_result.contains(result@[i]));
                }
            }
            assert forall|i: int| 0 <= i < result@.len() implies (#[trigger] result@[i]).0
                < slots by {
                let x = result@[i];
                if i < old_result.len() {
                    assert(old_result[i] == x);
                    assert(old_result.contains(x));
                }
                assert(reaches_strict(program, block, x));
                let k = choose|k: nat| k > 0 && reach_n(program, block, x, k);
                assert(reach_n(program, block, x, k));
                assert(reaches(program, block, x));
                assert(block_ok(program, x));
            }
            lemma_distinct_ids_bounded(result@, slots);
        }
        let mut succs = get_block_successors(program.get_block(b));
        let ghost old_stack2 = stack@;
        let ghost bsuccs = succs@;
        stack.append(&mut succs);
        proof {
            assert(stack@ == old_stack2 + bsuccs);
            assert forall|x: BlockId| #[trigger] stack@.contains(x) implies reaches_strict(
                program,
                block,
                x,
            ) by {
                let i = choose|i: int| 0 <= i < stack@.len() && stack@[i] == x;
                if i < old_stack2.len() {
                    assert(old_stack2[i] == x);
                    assert(old_stack2.contains(x));
                    assert(old_stack.contains(x));
                } else {
                    assert(bsuccs[i - old_stack2.len()] == x);
                    assert(edge(program, b, x));
                    lemma_reach_step(program, block, b, x, n0);
                    assert(reach_n(program, block, x, n0 + 1));
                }
            }
            assert forall|x: BlockId, y: BlockId|
                result@.contains(x) && #[trigger] edge(program, x, y) implies result@.contains(y)
                || stack@.contains(y) by {
                if x == b {
                    let i = choose|i: int| 0 <= i < bsuccs.len() && bsuccs[i] == y;
                    assert(stack@[old_stack2.len() + i] == y);
                } else {
                    assert(old_result.contains(x));
                    if old_stack.contains(y) && y != b {
                        assert(stack@.contains(y)) by {
                            let i = choose|i: int| 0 <= i < old_stack2.len() && old_stack2[i] == y;
                            assert(stack@[i] == y);
                        }
                    }
                    if old_result.contains(y) {
                        let i = choose|i: int| 0 <= i < old_result.len() && old_result[i] == y;
                        assert(result@[i] == y);
                    }
                }
            }
            assert forall|y: BlockId| #[trigger] edge(program, block, y) implies result@.contains(y)
                || stack@.contains(y) by {
                if old_stack.contains(y) && y != b {
                    let i = choose|i: int| 0 <= i < old_stack2.len() && old_stack2[i] == y;
                    assert(stack@[i] == y);
                }
                if old_result.contains(y) {
                    let i = choose|i: int| 0 <= i < old_result.len() && old_result[i] == y;
                    assert(result@[i] == y);
                }
            }
        }
    }
    proof {
        let s = Set::new(|x: BlockId| result@.contains(x));
        assert forall|b: BlockId| reaches_strict(program, block, b) implies result@.contains(b) by {
            let n = choose|n: nat| n > 0 && reach_n(program, block, b, n);
            let c = choose|c: BlockId|
                #[trigger] edge(program, block, c) && reach_n(program, c, b, (n - 1) as nat);
            assert(s.contains(c));
            lemma_closed_set_holds_reachable(program, s, c, b, (n - 1) as nat);
        }
    }
    result
}

/// The test for not being listed in `s`.
pub open spec fn not_in(s: Seq<BlockId>) -> spec_fn(BlockId) -> bool {
    |x: BlockId| !s.contains(x)
}

/// Filtering one more element of a prefix.
pub proof fn lemma_filter_take_push<A>(s: Seq<A>, f: spec_fn(A) -> bool, i: int)
    requires
        0 <= i < s.len(),
    ensures
        s.take(i + 1).filter(f) == if f(s[i]) {
            s.take(i).filter(f).push(s[i])
        } else {
            s.take(i).filter(f)
        },
{
    reveal_with_fuel(Seq::<_>::filter, 1);
    assert(s.take(i + 1).drop_last() =~= s.take(i));
}

/// The test for being the block `b`.
pub open spec fn is_block(b: BlockId) -> spec_fn(BlockId) -> bool {
    |s: BlockId| s == b
}

/// The function that maps every block to `a`.
pub open spec fn to_block(a: BlockId) -> spec_fn(BlockId) -> BlockId {
    |s: BlockId| a
}

/// The predecessors that the blocks `keys` (walked in order) contribute to block `b`:
/// each key once for every time it names `b` among its successors.
pub open spec fn preds_from(p: &Program, keys: Seq<nat>, b: BlockId) -> Seq<BlockId>
    decreases keys.len(),
{
    if keys.len() == 0 {
        Seq::empty()
    } else {
        preds_from(p, keys.drop_last(), b) + block_successors(
            p.blocks.at(keys.last()),
        ).filter(is_block(b)).map_values(to_block(BlockId(keys.last() as u32)))
    }
}

/// The predecessors of block `b`, in ascending order of the predecessor's id.
pub open spec fn preds_of(p: &Program, b: BlockId) -> Seq<BlockId> {
    preds_from(p, p.blocks.key_seq(), b)
}

/// Whether every block of the program holds at least one instruction.
pub open spec fn all_blocks_nonempty(p: &Program) -> bool {
    forall|k: nat| #[trigger] p.blocks.has(k) ==> p.blocks.at(k).0@.len() > 0
}

/// Whether `preds` is the predecessors map of `p`.
pub open spec fn is_predecessors_map(p: &Program, preds: IndexMap<BlockId, Vec<BlockId>>) -> bool {
    &&& preds.well_formed()
    &&& forall|b: u32|
        #![trigger preds.has(b as nat)]
        #![trigger preds_of(p, BlockId(b))]
        preds.has(b as nat) <==> preds_of(p, BlockId(b)).len() > 0
    &&& forall|b: u32| #[trigger] preds.has(b as nat) ==> preds.at(b as nat)@ == preds_of(p, BlockId(b))
    &&& forall|k: nat| #[trigger] preds.has(k) ==> k <= u32::MAX
}

/// The successors named `b` among `succ`, each replaced by the block `a`.
proof fn lemma_filter_map_push(succ: Seq<BlockId>, i: int, b: BlockId, a: BlockId)
    requires
        0 <= i < succ.len(),
    ensures
        succ.take(i + 1).filter(is_block(b)).map_values(to_block(a)) == if succ[i]
            == b {
            succ.take(i).filter(is_block(b)).map_values(to_block(a)).push(a)
        } else {
            succ.take(i).filter(is_block(b)).map_values(to_block(a))
        },
{
    reveal_with_fuel(Seq::<_>::filter, 1);
    assert(succ.take(i + 1).drop_last() =~= succ.take(i));
    if succ[i] == b {
        assert(succ.take(i + 1).filter(is_block(b)) =~= succ.take(i).filter(is_block(b)).push(b));
        assert(succ.take(i + 1).filter(is_block(b)).map_values(to_block(a))
            =~= succ.take(i).filter(is_block(b)).map_values(to_block(a)).push(a));
    } else {
        assert(succ.take(i + 1).filter(is_block(b)) =~= succ.take(i).filter(is_block(b)));
    }
}

/// The predecessors of every block that has one.
pub fn build_predecessors_map(program: &Program) -> (r: IndexMap<BlockId, Vec<BlockId>>)
    requires
        program.well_formed(),
        all_blocks_nonempty(program),
    ensures
        is_predecessors_map(program, r),
{
    let mut preds: IndexMap<BlockId, Vec<BlockId>> = IndexMap::new();
    let keys = program.blocks.keys();
    let ghost key_nats = program.blocks.key_seq();
    proof {
        assert(keys@.len() == key_nats.len());
    }
    for ki in 0..keys.len()
        invariant
            program.well_formed(),
            all_blocks_nonempty(program),
            keys@.map_values(|k: BlockId| k.key_nat()) == key_nats,
            key_nats == program.blocks.key_seq(),
            preds.well_formed(),
            forall|b: u32|
                #![trigger preds.has(b as nat)]
                preds.has(b as nat) <==> preds_from(program, key_nats.take(ki as int), BlockId(b)).len()
                    > 0,
            forall|b: u32|
                #[trigger] preds.has(b as nat) ==> preds.at(b as nat)@ == preds_from(
                    program,
                    key_nats.take(ki as int),
                    BlockId(b),
                ),
            forall|k: nat| #[trigger] preds.has(k) ==> k <= u32::MAX,
    {
        let a = keys[ki];
        proof {
            assert(key_nats[ki as int] == a.0 as nat);
            assert(key_nats.contains(a.0 as nat));
            lemma_key_seq_has(program.blocks, ki as int);
        }
        let succ = get_block_successors(program.get_block(a));
        let ghost prev = key_nats.take(ki as int);
        proof {
            assert(key_nats.take(ki + 1).drop_last() =~= prev);
            assert(key_nats.take(ki + 1).last() == a.0 as nat);
        }
        for si in 0..succ.len()
            invariant
                0 <= ki < keys@.len(),
                a == keys@[ki as int],
                a.0 as nat == key_nats[ki as int],
                program.blocks.has(a.0 as nat),
                succ@ == block_successors(program.blocks.at(a.0 as nat)),
                prev == key_nats.take(ki as int),
                preds.well_formed(),
                forall|b: u32|
                    #![trigger preds.has(b as nat)]
                    preds.has(b as nat) <==> (preds_from(program, prev, BlockId(b)) + succ@.take(
                        si as int,
                    ).filter(is_block(BlockId(b))).map_values(to_block(a))).len() > 0,
                forall|b: u32|
                    #[trigger] preds.has(b as nat) ==> preds.at(b as nat)@ == preds_from(
                        program,
                        prev,
                        BlockId(b),
                    ) + succ@.take(si as int).filter(is_block(BlockId(b))).map_values(to_block(a)),
                forall|k: nat| #[trigger] preds.has(k) ==> k <= u32::MAX,
        {
            let t = succ[si];
            let ghost before = preds;
            if preds.contains_key(t) {
                let list = preds.get_mut(t);
                list.push(a);
            } else {
                let mut list = Vec::new();
                list.push(a);
                preds.insert(t, list);
            }
            proof {
                assert forall|b: u32| #[trigger] preds.has(b as nat) implies preds.at(b as nat)@
                    == preds_from(program, prev, BlockId(b)) + succ@.take(si + 1).filter(is_block(BlockId(b))).map_values(to_block(a)) by {
                    lemma_filter_map_push(succ@, si as int, BlockId(b), a);
                    if b == t.0 {
                        assert(BlockId(b) == t);
                    } else {
                        assert(BlockId(b) != t);
                        assert(before.has(b as nat));
                    }
                }
                assert forall|b: u32| #![trigger preds.has(b as nat)] preds.has(b as nat) <==> (
                preds_from(program, prev, BlockId(b)) + succ@.take(si + 1).filter(is_block(BlockId(b))).map_values(to_block(a))).len() > 0 by {
                    lemma_filter_map_push(succ@, si as int, BlockId(b), a);
                    if b == t.0 {
                        assert(BlockId(b) == t);
                    } else {
                        assert(BlockId(b) != t);
                        assert(preds.has(b as nat) == before.has(b as nat));
                    }
                }
            }
        }
        proof {
            assert(succ@.take(succ@.len() as int) =~= succ@);
            assert forall|b: u32| true implies preds_from(program, key_nats.take(ki + 1), BlockId(b))
                == preds_from(program, prev, BlockId(b)) + succ@.filter(is_block(BlockId(b))).map_values(to_block(a)) by {
                assert(key_nats.len() == keys@.len());
                assert(key_nats.take(ki + 1).len() == ki + 1);
                let last = key_nats.take(ki + 1).last();
                assert(key_nats.take(ki + 1).drop_last() =~= prev);
                assert(preds_from(program, key_nats.take(ki + 1), BlockId(b)) == preds_from(program, prev, BlockId(b)) + block_successors(
                    program.blocks.at(last),
                ).filter(is_block(BlockId(b))).map_values(to_block(BlockId(last as u32))));
                assert(last == a.0 as nat);
                assert(BlockId(last as u32) == a);
                assert(block_successors(program.blocks.at(last)).filter(is_block(BlockId(b))).map_values(to_block(BlockId(last as u32))) =~= succ@.filter(is_block(BlockId(b))).map_values(to_block(a)));
            }
        }
    }
    proof {
        assert(key_nats.take(keys@.len() as int) =~= key_nats);
    }
    preds
}

/// A key listed by `key_seq` is held by the map.
pub proof fn lemma_key_seq_has<K: IndexKey, V>(m: IndexMap<K, V>, i: int)
    requires
        0 <= i < m.key_seq().len(),
    ensures
        m.has(m.key_seq()[i]),
        m.key_seq()[i] < m@.len(),
{
    let all = Seq::new(m@.len(), |j: int| j as nat);
    let pred = |j: nat| m@[j as int] is Some;
    let k = m.key_seq()[i];
    all.lemma_filter_pred(pred, i);
    assert(all.filter(pred).contains(k));
    all.lemma_filter_contains_rev(pred, k);
}

/// What `op` resolves to in `m` within `fuel` steps: a variable that `m` maps to another
/// operand is replaced by what that operand resolves to; a literal, an unmapped variable and a
/// variable mapped to itself resolve to themselves.
pub open spec fn resolve_operand(m: Map<u32, Operand>, op: Operand, fuel: nat) -> Operand
    decreases fuel,
{
    match op {
        Operand::Variable(v) => if fuel > 0 && m.contains_key(v.variable_id.0) && m[v.variable_id.0] != op {
            resolve_operand(m, m[v.variable_id.0], (fuel - 1) as nat)
        } else {
            op
        },
        Operand::Literal(_) => op,
    }
}

/// An operand with a variable replaced by what `m` maps that variable's number to, followed
/// through the map as far as it leads (at most as many steps as the map has entries).
pub open spec fn map_operand(m: Map<u32, Operand>, op: Operand) -> Operand {
    resolve_operand(m, op, m.len())
}

/// A variable replaced by the variable that it resolves to in `m`, or kept when it resolves to
/// a literal.
pub open spec fn map_variable(m: Map<u32, Operand>, v: Variable) -> Variable {
    match map_operand(m, Operand::Variable(v)) {
        Operand::Variable(w) => w,
        Operand::Literal(_) => v,
    }
}

pub open spec fn operand_mapper(m: Map<u32, Operand>) -> spec_fn(Operand) -> Operand {
    |op: Operand| map_operand(m, op)
}

pub open spec fn phi_arg_mapper(m: Map<u32, Operand>) -> spec_fn((Operand, BlockId)) -> (
    Operand,
    BlockId,
) {
    |a: (Operand, BlockId)| (map_operand(m, a.0), a.1)
}

/// Whether `j` is `i` with every used operand mapped through `m`; the variable that an
/// instruction assigns is kept.
pub open spec fn instruction_mapped(m: Map<u32, Operand>, i: Instruction, j: Instruction) -> bool {
    let f = |op: Operand| map_operand(m, op);
    match i {
        Instruction::Store(op, v) => j == Instruction::Store(f(op), v),
        Instruction::Call(c, args, v, md) => match j {
            Instruction::Call(c2, args2, v2, md2) => c2 == c && args2@ == args@.map_values(
                operand_mapper(m),
            ) && v2 == v && md2 == md,
            _ => false,
        },
        Instruction::Jump(t) => j == Instruction::Jump(t),
        Instruction::Branch(c, t, e, md) => j == Instruction::Branch(map_variable(m, c), t, e, md),
        Instruction::Add(a, b, v) => j == Instruction::Add(f(a), f(b), v),
        Instruction::Sub(a, b, v) => j == Instruction::Sub(f(a), f(b), v),
        Instruction::Mul(a, b, v) => j == Instruction::Mul(f(a), f(b), v),
        Instruction::Sdiv(a, b, v) => j == Instruction::Sdiv(f(a), f(b), v),
        Instruction::Srem(a, b, v) => j == Instruction::Srem(f(a), f(b), v),
        Instruction::Shl(a, b, v) => j == Instruction::Shl(f(a), f(b), v),
        Instruction::Ashr(a, b, v) => j == Instruction::Ashr(f(a), f(b), v),
        Instruction::Fadd(a, b, v) => j == Instruction::Fadd(f(a), f(b), v),
        Instruction::Fsub(a, b, v) => j == Instruction::Fsub(f(a), f(b), v),
        Instruction::Fmul(a, b, v) => j == Instruction::Fmul(f(a), f(b), v),
        Instruction::Fdiv(a, b, v) => j == Instruction::Fdiv(f(a), f(b), v),
        Instruction::Frem(a, b, v) => j == Instruction::Frem(f(a), f(b), v),
        Instruction::Fcmp(cc, a, b, v) => j == Instruction::Fcmp(cc, f(a), f(b), v),
        Instruction::Icmp(cc, a, b, v) => j == Instruction::Icmp(cc, f(a), f(b), v),
        Instruction::LogicalNot(a, v) => j == Instruction::LogicalNot(f(a), v),
        Instruction::LogicalAnd(a, b, v) => j == Instruction::LogicalAnd(f(a), f(b), v),
        Instruction::LogicalOr(a, b, v) => j == Instruction::LogicalOr(f(a), f(b), v),
        Instruction::BitwiseNot(a, v) => j == Instruction::BitwiseNot(f(a), v),
        Instruction::BitwiseAnd(a, b, v) => j == Instruction::BitwiseAnd(f(a), f(b), v),
        Instruction::BitwiseOr(a, b, v) => j == Instruction::BitwiseOr(f(a), f(b), v),
        Instruction::BitwiseXor(a, b, v) => j == Instruction::BitwiseXor(f(a), f(b), v),
        Instruction::Phi(args, v) => match j {
            Instruction::Phi(args2, v2) => v2 == v && args2@ == args@.map_values(phi_arg_mapper(m)),
            _ => false,
        },
        Instruction::Convert(a, v) => j == Instruction::Convert(f(a), v),
        Instruction::Load(a, v) => j == Instruction::Load(a, v),
        Instruction::Alloca(v) => j == Instruction::Alloca(v),
        Instruction::Index(a, b, v) => j == Instruction::Index(f(a), f(b), v),
        Instruction::Return(None) => j == Instruction::Return(None),
        Instruction::Return(Some(a)) => j == Instruction::Return(Some(f(a))),
    }
}

impl Operand {
    /// The operand with its variable replaced by what `var_map` maps it to, if anything.
    pub fn mapped(&self, var_map: &OperandMap) -> (r: Operand)
        ensures
            r == map_operand(var_map.contents(), *self),
    {
        let ghost m = var_map.contents();
        let n = var_map.len();
        let mut fuel = n;
        let mut current = *self;
        loop
            invariant
                m == var_map.contents(),
                fuel <= n,
                n == m.len(),
                resolve_operand(m, current, fuel as nat) == resolve_operand(m, *self, n as nat),
            ensures
                current == resolve_operand(m, *self, n as nat),
            decreases fuel,
        {
            let next = match current {
                Operand::Variable(v) => if fuel > 0 {
                    var_map.get(v.variable_id.0)
                } else {
                    None
                },
                Operand::Literal(_) => None,
            };
            match next {
                Some(op) => {
                    if op == current {
                        return current;
                    }
                    current = op;
                    fuel = fuel - 1;
                },
                None => {
                    return current;
                },
            }
        }
        current
    }
}

impl Variable {
    /// The variable that `var_map` maps this one to, or this one when it is mapped to
    /// nothing or to a literal.
    pub fn map_to_variable(&self, var_map: &OperandMap) -> (r: Variable)
        ensures
            r == map_variable(var_map.contents(), *self),
    {
        match Operand::Variable(*self).mapped(var_map) {
            Operand::Variable(v) => v,
            Operand::Literal(_) => *self,
        }
    }
}

pub(crate) fn copy_metadata(md: &Option<Box<InstructionDbgMetadata>>) -> (r: Option<Box<InstructionDbgMetadata>>)
    ensures
        r == *md,
{
    match md {
        Some(b) => Some(Box::new(**b)),
        None => None,
    }
}

fn map_operand_list(args: &Vec<Operand>, var_map: &OperandMap) -> (r: Vec<Operand>)
    ensures
        r@ == args@.map_values(operand_mapper(var_map.contents())),
{
    let mut r: Vec<Operand> = Vec::new();
    for i in 0..args.len()
        invariant
            r@ == args@.take(i as int).map_values(operand_mapper(var_map.contents())),
    {
        r.push(args[i].mapped(var_map));
        proof {
            assert(args@.take(i + 1).drop_last() =~= args@.take(i as int));
            assert(args@.take(i + 1).map_values(operand_mapper(var_map.contents())) =~= args@.take(
                i as int,
            ).map_values(operand_mapper(var_map.contents())).push(
                map_operand(var_map.contents(), args@[i as int]),
            ));
        }
    }
    proof {
        assert(args@.take(args@.len() as int) =~= args@);
    }
    r
}

fn map_phi_args(args: &Vec<(Operand, BlockId)>, var_map: &OperandMap) -> (r: Vec<(Operand, BlockId)>)
    ensures
        r@ == args@.map_values(phi_arg_mapper(var_map.contents())),
{
    let mut r: Vec<(Operand, BlockId)> = Vec::new();
    for i in 0..args.len()
        invariant
            r@ == args@.take(i as int).map_values(phi_arg_mapper(var_map.contents())),
    {
        let (op, b) = args[i];
        r.push((op.mapped(var_map), b));
        proof {
            assert(args@.take(i + 1).drop_last() =~= args@.take(i as int));
            assert(args@.take(i + 1).map_values(phi_arg_mapper(var_map.contents())) =~= args@.take(
                i as int,
            ).map_values(phi_arg_mapper(var_map.contents())).push(
                (map_operand(var_map.contents(), args@[i as int].0), args@[i as int].1),
            ));
        }
    }
    proof {
        assert(args@.take(args@.len() as int) =~= args@);
    }
    r
}

/// The instruction with every used operand mapped through `var_map`.
pub fn map_instruction(instr: &Instruction, var_map: &OperandMap) -> (r: Instruction)
    ensures
        instruction_mapped(var_map.contents(), *instr, r),
{
    let m = var_map;
    match instr {
        Instruction::Store(op, v) => Instruction::Store(op.mapped(m), *v),
        Instruction::Call(c, args, v, md) => Instruction::Call(
            *c,
            map_operand_list(args, m),
            *v,
            copy_metadata(md),
        ),
        Instruction::Jump(t) => Instruction::Jump(*t),
        Instruction::Branch(c, t, e, md) => Instruction::Branch(
            c.map_to_variable(m),
            *t,
            *e,
            copy_metadata(md),
        ),
        Instruction::Add(a, b, v) => Instruction::Add(a.mapped(m), b.mapped(m), *v),
        Instruction::Sub(a, b, v) => Instruction::Sub(a.mapped(m), b.mapped(m), *v),
        Instruction::Mul(a, b, v) => Instruction::Mul(a.mapped(m), b.mapped(m), *v),
        Instruction::Sdiv(a, b, v) => Instruction::Sdiv(a.mapped(m), b.mapped(m), *v),
        Instruction::Srem(a, b, v) => Instruction::Srem(a.mapped(m), b.mapped(m), *v),
        Instruction::Shl(a, b, v) => Instruction::Shl(a.mapped(m), b.mapped(m), *v),
        Instruction::Ashr(a, b, v) => Instruction::Ashr(a.mapped(m), b.mapped(m), *v),
        Instruction::Fadd(a, b, v) => Instruction::Fadd(a.mapped(m), b.mapped(m), *v),
        Instruction::Fsub(a, b, v) => Instruction::Fsub(a.mapped(m), b.mapped(m), *v),
        Instruction::Fmul(a, b, v) => Instruction::Fmul(a.mapped(m), b.mapped(m), *v),
        Instruction::Fdiv(a, b, v) => Instruction::Fdiv(a.mapped(m), b.mapped(m), *v),
        Instruction::Frem(a, b, v) => Instruction::Frem(a.mapped(m), b.mapped(m), *v),
        Instruction::Fcmp(cc, a, b, v) => Instruction::Fcmp(*cc, a.mapped(m), b.mapped(m), *v),
        Instruction::Icmp(cc, a, b, v) => Instruction::Icmp(*cc, a.mapped(m), b.mapped(m), *v),
        Instruction::LogicalNot(a, v) => Instruction::LogicalNot(a.mapped(m), *v),
        Instruction::LogicalAnd(a, b, v) => Instruction::LogicalAnd(a.mapped(m), b.mapped(m), *v),
        Instruction::LogicalOr(a, b, v) => Instruction::LogicalOr(a.mapped(m), b.mapped(m), *v),
        Instruction::BitwiseNot(a, v) => Instruction::BitwiseNot(a.mapped(m), *v),
        Instruction::BitwiseAnd(a, b, v) => Instruction::BitwiseAnd(a.mapped(m), b.mapped(m), *v),
        Instruction::BitwiseOr(a, b, v) => Instruction::BitwiseOr(a.mapped(m), b.mapped(m), *v),
        Instruction::BitwiseXor(a, b, v) => Instruction::BitwiseXor(a.mapped(m), b.mapped(m), *v),
        Instruction::Phi(args, v) => Instruction::Phi(map_phi_args(args, m), *v),
        Instruction::Convert(a, v) => Instruction::Convert(a.mapped(m), *v),
        Instruction::Load(a, v) => Instruction::Load(*a, *v),
        Instruction::Alloca(v) => Instruction::Alloca(*v),
        Instruction::Index(a, b, v) => Instruction::Index(a.mapped(m), b.mapped(m), *v),
        Instruction::Return(None) => Instruction::Return(None),
        Instruction::Return(Some(a)) => Instruction::Return(Some(a.mapped(m))),
    }
}

/// The map after walking `s` from `m0`: each store records the stored operand, itself mapped
/// through the map at that point, under the stored variable's number.
pub open spec fn store_map_after(m0: Map<u32, Operand>, s: Seq<Instruction>) -> Map<u32, Operand>
    decreases s.len(),
{
    if s.len() == 0 {
        m0
    } else {
        let m = store_map_after(m0, s.drop_last());
        match s.last() {
            Instruction::Store(op, v) => m.insert(v.variable_id.0, map_operand(m, op)),
            _ => m,
        }
    }
}

/// Whether `out` is `s` with its stores dropped and every other instruction mapped through
/// the map in force at its position, starting from `m0`.
pub open spec fn rewritten_block(m0: Map<u32, Operand>, s: Seq<Instruction>, out: Seq<Instruction>) -> bool
    decreases s.len(),
{
    if s.len() == 0 {
        out.len() == 0
    } else if s.last() is Store {
        rewritten_block(m0, s.drop_last(), out)
    } else {
        &&& out.len() > 0
        &&& rewritten_block(m0, s.drop_last(), out.drop_last())
        &&& instruction_mapped(store_map_after(m0, s.drop_last()), s.last(), out.last())
    }
}

/// Drops the stores of a block, recording each stored value in `var_map`, and maps every
/// use of a variable in the other instructions through the map in force at that point.
pub fn map_variable_use_in_block(block: &mut Block, var_map: &mut OperandMap)
    ensures
        rewritten_block(old(var_map).contents(), old(block).0@, final(block).0@),
        final(var_map).contents() == store_map_after(old(var_map).contents(), old(block).0@),
{
    let mut instrs: Vec<Instruction> = Vec::new();
    std::mem::swap(&mut instrs, &mut block.0);
    let ghost m0 = var_map.contents();
    let ghost s = instrs@;
    for i in 0..instrs.len()
        invariant
            s == instrs@,
            rewritten_block(m0, s.take(i as int), block.0@),
            var_map.contents() == store_map_after(m0, s.take(i as int)),
    {
        proof {
            assert(s.take(i + 1).drop_last() =~= s.take(i as int));
            assert(s.take(i + 1).last() == s[i as int]);
        }
        match &instrs[i] {
            Instruction::Store(op, v) => {
                let mapped = op.mapped(var_map);
                var_map.insert(v.variable_id.0, mapped);
            },
            other => {
                let new_instr = map_instruction(other, var_map);
                let ghost before = block.0@;
                block.0.push(new_instr);
                proof {
                    assert(block.0@.drop_last() =~= before);
                }
            },
        }
    }
    proof {
        assert(s.take(s.len() as int) =~= s);
    }
}

/// The variable that an instruction assigns, if any.
pub open spec fn assigned_variable(i: Instruction) -> Option<Variable> {
    match i {
        Instruction::Store(_, v) => Some(v),
        Instruction::Call(_, _, v, _) => v,
        Instruction::Jump(_) | Instruction::Branch(..) | Instruction::Return(_) => None,
        Instruction::Add(_, _, v) | Instruction::Sub(_, _, v) | Instruction::Mul(_, _, v)
        | Instruction::Sdiv(_, _, v) | Instruction::Srem(_, _, v) | Instruction::Shl(_, _, v)
        | Instruction::Ashr(_, _, v) | Instruction::Fadd(_, _, v) | Instruction::Fsub(_, _, v)
        | Instruction::Fmul(_, _, v) | Instruction::Fdiv(_, _, v) | Instruction::Frem(_, _, v)
        | Instruction::Fcmp(_, _, _, v) | Instruction::Icmp(_, _, _, v)
        | Instruction::LogicalNot(_, v) | Instruction::LogicalAnd(_, _, v)
        | Instruction::LogicalOr(_, _, v) | Instruction::BitwiseNot(_, v)
        | Instruction::BitwiseAnd(_, _, v) | Instruction::BitwiseOr(_, _, v)
        | Instruction::BitwiseXor(_, _, v) | Instruction::Phi(_, v) | Instruction::Convert(_, v)
        | Instruction::Load(_, v) | Instruction::Alloca(v) | Instruction::Index(_, _, v) => Some(v),
    }
}

/// Whether some instruction of block `k` assigns the variable numbered `id`.
pub open spec fn block_assigns(p: &Program, k: nat, id: u32) -> bool {
    exists|j: int|
        0 <= j < p.blocks.at(k).0@.len() && (#[trigger] assigned_variable(p.blocks.at(k).0@[j])) is Some
            && assigned_variable(p.blocks.at(k).0@[j])->0.variable_id.0 == id
}

/// Whether some instruction of the program assigns the variable numbered `id`.
pub open spec fn program_assigns(p: &Program, id: u32) -> bool {
    exists|k: nat| #[trigger] p.blocks.has(k) && block_assigns(p, k, id)
}

/// Whether every variable the program assigns is numbered below `n`.
pub open spec fn assigned_below(p: &Program, n: nat) -> bool {
    forall|k: nat, j: int|
        #![trigger p.blocks.at(k).0@[j]]
        p.blocks.has(k) && 0 <= j < p.blocks.at(k).0@.len() ==> match assigned_variable(
            p.blocks.at(k).0@[j],
        ) {
            Some(v) => v.variable_id.0 < n,
            None => true,
        }
}


/// The variable that an instruction assigns, if any.
fn assigned_variable_of(instr: &Instruction) -> (r: Option<Variable>)
    ensures
        r == assigned_variable(*instr),
{
    match instr {
        Instruction::Store(_, v) => Some(*v),
        Instruction::Call(_, _, v, _) => *v,
        Instruction::Jump(_) | Instruction::Branch(..) | Instruction::Return(_) => None,
        Instruction::Add(_, _, v) | Instruction::Sub(_, _, v) | Instruction::Mul(_, _, v)
        | Instruction::Sdiv(_, _, v) | Instruction::Srem(_, _, v) | Instruction::Shl(_, _, v)
        | Instruction::Ashr(_, _, v) | Instruction::Fadd(_, _, v) | Instruction::Fsub(_, _, v)
        | Instruction::Fmul(_, _, v) | Instruction::Fdiv(_, _, v) | Instruction::Frem(_, _, v)
        | Instruction::Fcmp(_, _, _, v) | Instruction::Icmp(_, _, _, v)
        | Instruction::LogicalNot(_, v) | Instruction::LogicalAnd(_, _, v)
        | Instruction::LogicalOr(_, _, v) | Instruction::BitwiseNot(_, v)
        | Instruction::BitwiseAnd(_, _, v) | Instruction::BitwiseOr(_, _, v)
        | Instruction::BitwiseXor(_, _, v) | Instruction::Phi(_, v) | Instruction::Convert(_, v)
        | Instruction::Load(_, v) | Instruction::Alloca(v) | Instruction::Index(_, _, v) => Some(*v),
    }
}

/// The first variable id above every variable that the program assigns (0 when it assigns none).
pub fn next_variable_id(program: &Program) -> (r: VariableId)
    requires
        program.well_formed(),
        assigned_below(program, u32::MAX as nat),
    ensures
        assigned_below(program, r.0 as nat),
        r.0 == 0 || program_assigns(program, (r.0 - 1) as u32),
{
    let mut next: u32 = 0;
    let keys = program.blocks.keys();
    let ghost key_nats = program.blocks.key_seq();
    for ki in 0..keys.len()
        invariant
            program.well_formed(),
            assigned_below(program, u32::MAX as nat),
            keys@.map_values(|k: BlockId| k.key_nat()) == key_nats,
            key_nats == program.blocks.key_seq(),
            forall|t: int, j: int|
                #![trigger program.blocks.at(key_nats[t]).0@[j]]
                0 <= t < ki && 0 <= j < program.blocks.at(key_nats[t]).0@.len() ==> match assigned_variable(
                    program.blocks.at(key_nats[t]).0@[j],
                ) {
                    Some(v) => v.variable_id.0 < next,
                    None => true,
                },
            next == 0 || program_assigns(program, (next - 1) as u32),
    {
        let a = keys[ki];
        proof {
            assert(key_nats[ki as int] == a.0 as nat);
            lemma_key_seq_has(program.blocks, ki as int);
        }
        let block = program.get_block(a);
        for j in 0..block.0.len()
            invariant
                program.well_formed(),
                assigned_below(program, u32::MAX as nat),
                keys@.map_values(|k: BlockId| k.key_nat()) == key_nats,
                key_nats == program.blocks.key_seq(),
                0 <= ki < keys@.len(),
                key_nats[ki as int] == a.0 as nat,
                program.blocks.has(a.0 as nat),
                *block == program.blocks.at(a.0 as nat),
                forall|t: int, jj: int|
                    #![trigger program.blocks.at(key_nats[t]).0@[jj]]
                    0 <= t < ki && 0 <= jj < program.blocks.at(key_nats[t]).0@.len() ==> match assigned_variable(
                        program.blocks.at(key_nats[t]).0@[jj],
                    ) {
                        Some(v) => v.variable_id.0 < next,
                        None => true,
                    },
                forall|jj: int|
                    0 <= jj < j ==> match #[trigger] assigned_variable(block.0@[jj]) {
                        Some(v) => v.variable_id.0 < next,
                        None => true,
                    },
                next == 0 || program_assigns(program, (next - 1) as u32),
        {
            let assigned = assigned_variable_of(&block.0[j]);
            proof {
                assert(assigned == assigned_variable(block.0@[j as int]));
                assert(program.blocks.at(a.0 as nat).0@[j as int] == block.0@[j as int]);
            }
            if let Some(v) = assigned {
                if v.variable_id.0 >= next {
                    next = v.variable_id.0 + 1;
                    proof {
                        assert(block_assigns(program, a.0 as nat, v.variable_id.0));
                        assert(program_assigns(program, (next - 1) as u32));
                    }
                }
            }
        }
    }
    proof {
        assert forall|k: nat, j: int|
            #![trigger program.blocks.at(k).0@[j]]
            program.blocks.has(k) && 0 <= j < program.blocks.at(k).0@.len() implies match assigned_variable(
                program.blocks.at(k).0@[j],
            ) {
                Some(v) => v.variable_id.0 < next,
                None => true,
            } by {
            lemma_has_in_key_seq(program.blocks, k);
            let t = choose|t: int| 0 <= t < key_nats.len() && key_nats[t] == k;
            assert(program.blocks.at(key_nats[t]).0@[j] == program.blocks.at(k).0@[j]);
        }
    }
    VariableId(next)
}

/// The first variable id above every variable that the program assigns, or `None` when the
/// program assigns a variable numbered `u32::MAX`, above which no id is left.
pub fn checked_next_variable_id(program: &Program) -> (r: Option<VariableId>)
    requires
        program.well_formed(),
    ensures
        r is None <==> !assigned_below(program, u32::MAX as nat),
        r matches Some(n) ==> assigned_below(program, n.0 as nat) && (n.0 == 0 || program_assigns(
            program,
            (n.0 - 1) as u32,
        )),
{
    let keys = program.blocks.keys();
    let ghost key_nats = program.blocks.key_seq();
    for ki in 0..keys.len()
        invariant
            program.well_formed(),
            keys@.map_values(|k: BlockId| k.key_nat()) == key_nats,
            key_nats == program.blocks.key_seq(),
            forall|t: int, j: int|
                #![trigger program.blocks.at(key_nats[t]).0@[j]]
                0 <= t < ki && 0 <= j < program.blocks.at(key_nats[t]).0@.len() ==> match assigned_variable(
                    program.blocks.at(key_nats[t]).0@[j],
                ) {
                    Some(v) => v.variable_id.0 < u32::MAX,
                    None => true,
                },
    {
        let a = keys[ki];
        proof {
            assert(key_nats[ki as int] == a.0 as nat);
            lemma_key_seq_has(program.blocks, ki as int);
        }
        let block = program.get_block(a);
        for j in 0..block.0.len()
            invariant
                program.well_formed(),
                keys@.map_values(|k: BlockId| k.key_nat()) == key_nats,
                key_nats == program.blocks.key_seq(),
                0 <= ki < keys@.len(),
                key_nats[ki as int] == a.0 as nat,
                program.blocks.has(a.0 as nat),
                *block == program.blocks.at(a.0 as nat),
                forall|t: int, jj: int|
                    #![trigger program.blocks.at(key_nats[t]).0@[jj]]
                    0 <= t < ki && 0 <= jj < program.blocks.at(key_nats[t]).0@.len() ==> match assigned_variable(
                        program.blocks.at(key_nats[t]).0@[jj],
                    ) {
                        Some(v) => v.variable_id.0 < u32::MAX,
                        None => true,
                    },
                forall|jj: int|
                    0 <= jj < j ==> match #[trigger] assigned_variable(block.0@[jj]) {
                        Some(v) => v.variable_id.0 < u32::MAX,
                        None => true,
                    },
        {
            let assigned = assigned_variable_of(&block.0[j]);
            proof {
                assert(assigned == assigned_variable(block.0@[j as int]));
                assert(program.blocks.at(a.0 as nat).0@[j as int] == block.0@[j as int]);
            }
            if let Some(v) = assigned {
                if v.variable_id.0 == u32::MAX {
                    proof {
                        assert(program.blocks.has(a.0 as nat) && 0 <= j < program.blocks.at(a.0 as nat).0@.len());
                        assert(match assigned_variable(program.blocks.at(a.0 as nat).0@[j as int]) {
                            Some(w) => !(w.variable_id.0 < u32::MAX as nat),
                            None => false,
                        });
                    }
                    return None;
                }
            }
        }
        proof {
            assert forall|t: int, jj: int|
                0 <= t < ki + 1 && 0 <= jj < program.blocks.at(key_nats[t]).0@.len() implies match assigned_variable(
                    #[trigger] program.blocks.at(key_nats[t]).0@[jj],
                ) {
                    Some(v) => v.variable_id.0 < u32::MAX,
                    None => true,
                } by {
                if t == ki {
                    assert(program.blocks.at(key_nats[t]).0@[jj] == block.0@[jj]);
                }
            }
        }
    }
    proof {
        assert forall|k: nat, j: int|
            #![trigger program.blocks.at(k).0@[j]]
            program.blocks.has(k) && 0 <= j < program.blocks.at(k).0@.len() implies match assigned_variable(
                program.blocks.at(k).0@[j],
            ) {
                Some(v) => v.variable_id.0 < u32::MAX as nat,
                None => true,
            } by {
            lemma_has_in_key_seq(program.blocks, k);
            let t = choose|t: int| 0 <= t < key_nats.len() && key_nats[t] == k;
            assert(program.blocks.at(key_nats[t]).0@[j] == program.blocks.at(k).0@[j]);
        }
    }
    Some(next_variable_id(program))
}

/// A held key is listed by `key_seq`.
pub proof fn lemma_has_in_key_seq<K: IndexKey, V>(m: IndexMap<K, V>, k: nat)
    requires
        m.has(k),
    ensures
        exists|t: int| 0 <= t < m.key_seq().len() && m.key_seq()[t] == k,
{
    let all = Seq::new(m@.len(), |j: int| j as nat);
    let pred = |j: nat| m@[j as int] is Some;
    assert(all[k as int] == k);
    all.lemma_filter_contains(pred, k as int);
    assert(m.key_seq().contains(k));
}

/// A block reached from `a` by an edge out of a block reachable from `root` is reachable from `root`.
pub proof fn lemma_reaches_edge(p: &Program, root: BlockId, a: BlockId, c: BlockId)
    requires
        reaches(p, root, a),
        edge(p, a, c),
    ensures
        reaches(p, root, c),
{
    let k = choose|k: nat| reach_n(p, root, a, k);
    lemma_reach_step(p, root, a, c, k);
    assert(reach_n(p, root, c, k + 1));
}

/// Paths out of a block reachable from `root` are the same in `q` as in `p` when every block
/// reachable from `root` is the same in both.
pub proof fn lemma_reach_same(p: &Program, q: &Program, root: BlockId, a: BlockId, x: BlockId, n: nat)
    requires
        reaches(p, root, a),
        closed_from(p, root),
        q.blocks@.len() == p.blocks@.len(),
        forall|b: BlockId| #[trigger] reaches(p, root, b) ==> q.blocks@[b.0 as int] == p.blocks@[b.0 as int],
    ensures
        reach_n(q, a, x, n) <==> reach_n(p, a, x, n),
    decreases n,
{
    if n > 0 {
        assert(block_ok(p, a));
        assert(q.blocks@[a.0 as int] == p.blocks@[a.0 as int]);
        if reach_n(q, a, x, n) {
            let c = choose|c: BlockId| #[trigger] edge(q, a, c) && reach_n(q, c, x, (n - 1) as nat);
            assert(edge(p, a, c));
            lemma_reaches_edge(p, root, a, c);
            lemma_reach_same(p, q, root, c, x, (n - 1) as nat);
        }
        if reach_n(p, a, x, n) {
            let c = choose|c: BlockId| #[trigger] edge(p, a, c) && reach_n(p, c, x, (n - 1) as nat);
            assert(edge(q, a, c));
            lemma_reaches_edge(p, root, a, c);
            lemma_reach_same(p, q, root, c, x, (n - 1) as nat);
        }
    }
}

/// Reachability from `root`, and its closure, carry over to a program that holds the same
/// blocks wherever `root` reaches.
pub proof fn lemma_reaches_same(p: &Program, q: &Program, root: BlockId)
    requires
        closed_from(p, root),
        q.blocks@.len() == p.blocks@.len(),
        forall|b: BlockId| #[trigger] reaches(p, root, b) ==> q.blocks@[b.0 as int] == p.blocks@[b.0 as int],
    ensures
        forall|b: BlockId| #[trigger] reaches(q, root, b) <==> reaches(p, root, b),
        closed_from(q, root),
{
    assert(reach_n(p, root, root, 0));
    assert(reaches(p, root, root));
    assert forall|b: BlockId| #[trigger] reaches(q, root, b) <==> reaches(p, root, b) by {
        if reaches(q, root, b) {
            let n = choose|n: nat| reach_n(q, root, b, n);
            lemma_reach_same(p, q, root, root, b, n);
        }
        if reaches(p, root, b) {
            let n = choose|n: nat| reach_n(p, root, b, n);
            lemma_reach_same(p, q, root, root, b, n);
        }
    }
    assert forall|b: BlockId| reaches(q, root, b) implies block_ok(q, b) by {
        assert(reaches(p, root, b));
        assert(block_ok(p, b));
    }
}

/// A program that assigns `id` and assigns only below `n` has `id` below `n`.
pub proof fn lemma_assigned_below_bound(p: &Program, n: nat, id: u32)
    requires
        assigned_below(p, n),
        program_assigns(p, id),
    ensures
        id < n,
{
    let k = choose|k: nat| #[trigger] p.blocks.has(k) && block_assigns(p, k, id);
    let j = choose|j: int|
        0 <= j < p.blocks.at(k).0@.len() && (#[trigger] assigned_variable(p.blocks.at(k).0@[j])) is Some
            && assigned_variable(p.blocks.at(k).0@[j])->0.variable_id.0 == id;
    assert(p.blocks.at(k).0@[j] == p.blocks.at(k).0@[j]);
}

/// Rewriting the uses of an instruction through `m` changes nothing but the values it reads:
/// the operation, its target variable, its condition code, callee, jump targets and phi
/// predecessors stay, and each value read is replaced, in its own place, by what `m` maps it
/// to. So the left operand of a binary instruction stays on the left and the right on the
/// right; a branch condition that maps to a literal stays the variable it was.
pub proof fn lemma_mapped_reads_in_place(m: Map<u32, Operand>, i: Instruction, j: Instruction)
    requires
        instruction_mapped(m, i, j),
    ensures
        same_shape(i, j),
        !(i is Branch) ==> operands_read(j) == operands_read(i).map_values(operand_mapper(m)),
        i matches Instruction::Branch(c, _, _, _) ==> operands_read(j) == seq![Operand::Variable(map_variable(m, c))],
{
    match i {
        Instruction::Call(c, args, v, md) => {
            let args2 = j->Call_1;
            assert(operands_read(j) =~= operands_read(i).map_values(operand_mapper(m)));
        },
        Instruction::Phi(args, v) => {
            let args2 = j->Phi_0;
            assert(args2@ == args@.map_values(phi_arg_mapper(m)));
            assert(args2@.map_values(|p: (Operand, BlockId)| p.1) =~= args@.map_values(|p: (Operand, BlockId)| p.1));
            assert(operands_read(j) =~= operands_read(i).map_values(operand_mapper(m)));
        },
        Instruction::Branch(..) => {},
        _ => {
            assert(operands_read(j) =~= operands_read(i).map_values(operand_mapper(m)));
        },
    }
}

/// What mapping an operand through `m` gives: a literal stays itself, and so does a variable
/// that `m` does not map; a variable that `m` maps to a literal, or to a variable that `m`
/// does not map in turn, becomes that literal or variable.
pub proof fn lemma_map_operand_resolves(m: Map<u32, Operand>, lit: Literal, v: Variable)
    requires
        m.dom().finite(),
    ensures
        map_operand(m, Operand::Literal(lit)) == Operand::Literal(lit),
        !m.contains_key(v.variable_id.0) ==> map_operand(m, Operand::Variable(v)) == Operand::Variable(v),
        m.contains_key(v.variable_id.0) && m[v.variable_id.0] is Literal ==> map_operand(m, Operand::Variable(v))
            == m[v.variable_id.0],
        m.contains_key(v.variable_id.0) && m[v.variable_id.0] is Variable && !m.contains_key(
            m[v.variable_id.0]->Variable_0.variable_id.0,
        ) ==> map_operand(m, Operand::Variable(v)) == m[v.variable_id.0],
{
    let op = Operand::Variable(v);
    if m.contains_key(v.variable_id.0) {
        assert(m.dom().contains(v.variable_id.0));
        assert(m.len() > 0) by {
            vstd::set_lib::lemma_set_empty_equivalency_len(m.dom());
        }
        let next = m[v.variable_id.0];
        if next != op {
            assert(map_operand(m, op) == resolve_operand(m, next, (m.len() - 1) as nat));
            if let Operand::Variable(w) = next {
                if !m.contains_key(w.variable_id.0) {
                    assert(resolve_operand(m, next, (m.len() - 1) as nat) == next);
                }
            }
        }
    }
}

} // verus!
