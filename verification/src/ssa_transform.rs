//! Static single assignment: the stores of each callable body are removed, the stored values
//! flow into later uses directly, and phi nodes join the values that reach a block along
//! different predecessors.
use crate::fx::{NumberSet, OperandMap};
use crate::index_map::{slots_insert, IndexMap};
use crate::insert_alloca_load::{
    body_of, body_reaches, is_first_free_variable, reached_from_bodies, same_except_blocks, stores_var,
};
use crate::rir::{operand_type, Block, BlockId, Callable, CallableId, Instruction, Operand, Program, Ty, Variable, VariableId};
use crate::utils::{
    assigned_below, block_ok, closed_from, get_all_block_successors, next_variable_id, instruction_mapped, lemma_has_in_key_seq,
    lemma_key_seq_has, map_operand, map_variable_use_in_block, reach_n, reaches, reaches_strict,
    rewritten_block, store_map_after, reach_set,
};
use vstd::prelude::*;

verus! {

/// Whether every predecessor recorded in `preds` has a smaller id than its block.
pub open spec fn preds_acyclic(preds: IndexMap<BlockId, Vec<BlockId>>) -> bool {
    forall|b: nat, i: int|
        #![trigger preds.at(b)@[i]]
        preds.has(b) && 0 <= i < preds.at(b)@.len() ==> (preds.at(b)@[i].0 as nat) < b
}

/// Whether no recorded predecessor has an id at least that of its block, asked of every
/// block with predecessors.
pub fn ensure_acyclic(preds: &IndexMap<BlockId, Vec<BlockId>>) -> (r: bool)
    requires
        preds.well_formed(),
    ensures
        r == preds_acyclic(*preds),
{
    let keys = preds.keys();
    let ghost key_nats = preds.key_seq();
    for ki in 0..keys.len()
        invariant
            preds.well_formed(),
            keys@.map_values(|k: BlockId| k.0 as nat) == key_nats,
            key_nats == preds.key_seq(),
            forall|t: int, i: int|
                #![trigger preds.at(key_nats[t])@[i]]
                0 <= t < ki && 0 <= i < preds.at(key_nats[t])@.len() ==> (preds.at(key_nats[t])@[i].0 as nat)
                    < key_nats[t],
    {
        let block_id = keys[ki];
        proof {
            assert(key_nats[ki as int] == block_id.0 as nat);
            lemma_key_seq_has(*preds, ki as int);
        }
        let block_preds = preds.get(block_id).unwrap();
        for i in 0..block_preds.len()
            invariant
                preds.has(block_id.0 as nat),
                *block_preds == preds.at(block_id.0 as nat),
                forall|j: int| 0 <= j < i ==> block_preds@[j].0 < block_id.0,
        {
            if block_preds[i].0 >= block_id.0 {
                return false;
            }
        }
    }
    proof {
        assert forall|b: nat, i: int|
            #![trigger preds.at(b)@[i]]
            preds.has(b) && 0 <= i < preds.at(b)@.len() implies (preds.at(b)@[i].0 as nat) < b by {
            lemma_has_in_key_seq(*preds, b);
            let t = choose|t: int| 0 <= t < key_nats.len() && key_nats[t] == b;
            assert(preds.at(key_nats[t])@[i] == preds.at(b)@[i]);
        }
    }
    true
}

/// Whether `bs` lists, in ascending order, the blocks reachable from `entry`.
pub open spec fn is_body_blocks(p: &Program, entry: BlockId, bs: Seq<BlockId>) -> bool {
    &&& forall|i: int, j: int| 0 <= i < j < bs.len() ==> bs[i].0 < bs[j].0
    &&& forall|b: BlockId| #[trigger] bs.contains(b) <==> reaches(p, entry, b)
}

/// The blocks reachable from `entry`, in ascending order of id.
fn body_blocks_of(program: &Program, entry: BlockId) -> (r: Vec<BlockId>)
    requires
        program.well_formed(),
        closed_from(program, entry),
    ensures
        is_body_blocks(program, entry, r@),
{
    let succs = get_all_block_successors(entry, program);
    let mut reached = NumberSet::new();
    reached.insert(entry.0);
    for i in 0..succs.len()
        invariant
            forall|k: u32| #[trigger] reached.contents().contains(k) <==> (k == entry.0 || exists|j: int|
                0 <= j < i && succs@[j].0 == k),
    {
        reached.insert(succs[i].0);
    }
    let keys = program.blocks.keys();
    let ghost key_nats = program.blocks.key_seq();
    proof {
        crate::index_map::lemma_key_seq_increasing(program.blocks);
    }
    let mut r: Vec<BlockId> = Vec::new();
    for ki in 0..keys.len()
        invariant
            program.well_formed(),
            closed_from(program, entry),
            keys@.map_values(|k: BlockId| k.0 as nat) == key_nats,
            key_nats == program.blocks.key_seq(),
            forall|i: int, j: int| 0 <= i < j < key_nats.len() ==> key_nats[i] < key_nats[j],
            forall|k: u32| #[trigger] reached.contents().contains(k) <==> (k == entry.0 || exists|j: int|
                0 <= j < succs@.len() && succs@[j].0 == k),
            forall|b: BlockId| succs@.contains(b) <==> reaches_strict(program, entry, b),
            forall|i: int, j: int| 0 <= i < j < r@.len() ==> r@[i].0 < r@[j].0,
            forall|i: int, t: int| 0 <= i < r@.len() && ki <= t < key_nats.len() ==> ((#[trigger] r@[i]).0 as nat) < #[trigger] key_nats[t],
            forall|b: BlockId| #[trigger] r@.contains(b) <==> (reached.contents().contains(b.0) && exists|t: int|
                0 <= t < ki && b.0 == key_nats[t]),
    {
        let b = keys[ki];
        proof {
            assert(key_nats[ki as int] == b.0 as nat);
        }
        if reached.contains(b.0) {
            let ghost before = r@;
            r.push(b);
            proof {
                assert forall|i: int, t: int| 0 <= i < r@.len() && ki + 1 <= t < key_nats.len() implies ((#[trigger] r@[i]).0 as nat) < #[trigger] key_nats[t] by {
                    assert(key_nats[ki as int] < key_nats[t]);
                    if i < r@.len() - 1 {
                        assert(r@[i] == before[i]);
                    }
                }
                assert forall|i: int, j: int| 0 <= i < j < r@.len() implies r@[i].0 < r@[j].0 by {
                    if j == r@.len() - 1 {
                        assert(before[i] == r@[i]);
                        assert((before[i].0 as nat) < key_nats[ki as int]);
                    }
                }
                assert forall|b2: BlockId| #[trigger] r@.contains(b2) <==> (reached.contents().contains(b2.0)
                    && exists|t: int| 0 <= t < ki + 1 && b2.0 == key_nats[t]) by {
                    if r@.contains(b2) && b2 != b {
                        let i = choose|i: int| 0 <= i < r@.len() && r@[i] == b2;
                        assert(before[i] == b2);
                        assert(before.contains(b2));
                    }
                    if reached.contents().contains(b2.0) && exists|t: int| 0 <= t < ki + 1 && b2.0 == key_nats[t] {
                        let t = choose|t: int| 0 <= t < ki + 1 && b2.0 == key_nats[t];
                        if t < ki {
                            assert(before.contains(b2));
                            let i = choose|i: int| 0 <= i < before.len() && before[i] == b2;
                            assert(r@[i] == b2);
                        } else {
                            assert(b2.0 == b.0);
                            assert(r@[r@.len() - 1] == b);
                        }
                    }
                }
            }
        } else {
            proof {

                assert forall|b2: BlockId| #[trigger] r@.contains(b2) <==> (reached.contents().contains(b2.0)
                    && exists|t: int| 0 <= t < ki + 1 && b2.0 == key_nats[t]) by {
                    if reached.contents().contains(b2.0) && exists|t: int| 0 <= t < ki + 1 && b2.0 == key_nats[t] {
                        let t = choose|t: int| 0 <= t < ki + 1 && b2.0 == key_nats[t];
                        if t == ki {
                            assert(b2.0 == b.0);
                        }
                    }
                }
            }
        }
    }
    proof {
        assert(reach_n(program, entry, entry, 0));
        assert forall|b: BlockId| #[trigger] r@.contains(b) <==> reaches(program, entry, b) by {
            if reaches(program, entry, b) {
                let n = choose|n: nat| reach_n(program, entry, b, n);
                if n > 0 {
                    assert(reaches_strict(program, entry, b));
                    assert(succs@.contains(b));
                    let j = choose|j: int| 0 <= j < succs@.len() && succs@[j] == b;
                    assert(reached.contents().contains(b.0));
                } else {
                    assert(b == entry);
                    assert(reached.contents().contains(b.0));
                }
                assert(block_ok(program, b));
                lemma_has_in_key_seq(program.blocks, b.0 as nat);
            }
            if r@.contains(b) {
                assert(reached.contents().contains(b.0));
                if b.0 != entry.0 {
                    let j = choose|j: int| 0 <= j < succs@.len() && succs@[j].0 == b.0;
                    assert(succs@[j] == b);
                    assert(succs@.contains(b));
                    let n = choose|n: nat| n > 0 && reach_n(program, entry, b, n);
                } else {
                    assert(b == entry);
                }
            }
        }
    }
    r
}

/// The map with each parameter `(id, ty)` of `vars` mapped to itself, unless it is mapped already.
pub open spec fn seeded(m: Map<u32, Operand>, vars: Seq<(VariableId, Ty)>) -> Map<u32, Operand>
    decreases vars.len(),
{
    if vars.len() == 0 {
        m
    } else {
        let m1 = seeded(m, vars.drop_last());
        let id = vars.last().0;
        if m1.contains_key(id.0) {
            m1
        } else {
            m1.insert(id.0, Operand::Variable(Variable { variable_id: id, ty: vars.last().1 }))
        }
    }
}

fn seed_inputs(var_map: &mut OperandMap, input_vars: &Vec<(VariableId, Ty)>)
    ensures
        final(var_map).contents() == seeded(old(var_map).contents(), input_vars@),
{
    let ghost m0 = var_map.contents();
    for i in 0..input_vars.len()
        invariant
            var_map.contents() == seeded(m0, input_vars@.take(i as int)),
    {
        let (var_id, ty) = input_vars[i];
        proof {
            assert(input_vars@.take(i + 1).drop_last() =~= input_vars@.take(i as int));
        }
        if var_map.get(var_id.0).is_none() {
            var_map.insert(var_id.0, Operand::Variable(Variable { variable_id: var_id, ty }));
        }
    }
    proof {
        assert(input_vars@.take(input_vars@.len() as int) =~= input_vars@);
    }
}

/// The variable map of block `b` in `vm`, empty when there is none.
pub open spec fn vmap(vm: IndexMap<BlockId, OperandMap>, b: BlockId) -> Map<u32, Operand> {
    if vm.has(b.0 as nat) {
        vm.at(b.0 as nat).contents()
    } else {
        Map::empty()
    }
}

/// The predecessors recorded for block `b`, empty when there are none.
pub open spec fn preds_at(preds: IndexMap<BlockId, Vec<BlockId>>, b: BlockId) -> Seq<BlockId> {
    if preds.has(b.0 as nat) {
        preds.at(b.0 as nat)@
    } else {
        Seq::empty()
    }
}

/// The map that block `b` starts from when its stores are removed: the map of its predecessor
/// when it has exactly one, with, at the body entry, every parameter mapped to itself.
pub open spec fn phase1_in(
    vm: IndexMap<BlockId, OperandMap>,
    preds: IndexMap<BlockId, Vec<BlockId>>,
    entry: BlockId,
    vars: Seq<(VariableId, Ty)>,
    b: BlockId,
) -> Map<u32, Operand> {
    let init = if preds_at(preds, b).len() == 1 {
        vmap(vm, preds_at(preds, b)[0])
    } else {
        Map::empty()
    };
    if b == entry {
        seeded(init, vars)
    } else {
        init
    }
}

/// Whether the variable maps `vm` and the blocks of `p1` are what removing the stores of the
/// blocks `bs` of `p0`, one after the other, gives: each block is rewritten from the map it
/// starts from, and its map is the one in force at its end.
pub open spec fn phase1_done(
    p0: &Program,
    p1: &Program,
    vm: IndexMap<BlockId, OperandMap>,
    preds: IndexMap<BlockId, Vec<BlockId>>,
    entry: BlockId,
    vars: Seq<(VariableId, Ty)>,
    bs: Seq<BlockId>,
) -> bool {
    &&& forall|k: nat| #[trigger] vm.has(k) <==> exists|i: int| 0 <= i < bs.len() && bs[i].0 as nat == k
    &&& forall|i: int|
        0 <= i < bs.len() ==> {
            let b = #[trigger] bs[i];
            &&& vmap(vm, b) == store_map_after(phase1_in(vm, preds, entry, vars, b), p0.blocks.at(b.0 as nat).0@)
            &&& rewritten_block(phase1_in(vm, preds, entry, vars, b), p0.blocks.at(b.0 as nat).0@, p1.blocks.at(b.0 as nat).0@)
        }
}

/// Storing the map of one block leaves the maps of the other blocks alone.
proof fn lemma_vmap_insert(vm0: IndexMap<BlockId, OperandMap>, vm1: IndexMap<BlockId, OperandMap>, k: BlockId, v: OperandMap, b: BlockId)
    requires
        vm1@ == slots_insert(vm0@, k.0 as nat, v),
    ensures
        b != k ==> vmap(vm1, b) == vmap(vm0, b) && (vm1.has(b.0 as nat) == vm0.has(b.0 as nat)),
        b == k ==> vmap(vm1, b) == v.contents() && vm1.has(b.0 as nat),
{
    if b.0 == k.0 {
        assert(b == k);
    }
}

/// Whether the blocks numbered `k` is one of `bs`.
pub open spec fn listed(bs: Seq<BlockId>, k: int) -> bool {
    exists|i: int| 0 <= i < bs.len() && bs[i].0 as int == k
}

/// Removes the stores of the blocks `body_blocks`, in that order: each block starts from the
/// map of its predecessor when it has exactly one (the entry also from its parameters), and
/// every use of a stored variable takes the value in force.
fn map_store_to_dominated_ssa(
    program: &mut Program,
    body_blocks: &Vec<BlockId>,
    entry: BlockId,
    input_vars: &Vec<(VariableId, Ty)>,
    preds: &IndexMap<BlockId, Vec<BlockId>>,
    Ghost(keys): Ghost<Set<int>>,
) -> (r: IndexMap<BlockId, OperandMap>)
    requires
        old(program).well_formed(),
        forall|i: int| 0 <= i < input_vars@.len() ==> keys.contains((#[trigger] input_vars@[i]).0.0 as int),
        forall|i: int, j: int|
            0 <= i < body_blocks@.len() && 0 <= j < old(program).blocks.at(body_blocks@[i].0 as nat).0@.len()
                ==> (#[trigger] old(program).blocks.at(body_blocks@[i].0 as nat).0@[j] matches Instruction::Store(_, v)
                ==> keys.contains(v.variable_id.0 as int)),
        forall|i: int, j: int| 0 <= i < j < body_blocks@.len() ==> body_blocks@[i].0 < body_blocks@[j].0,
        forall|i: int| 0 <= i < body_blocks@.len() ==> old(program).blocks.has((#[trigger] body_blocks@[i]).0 as nat),
        preds.well_formed(),
        preds_acyclic(*preds),
    ensures
        final(program).well_formed(),
        r.well_formed(),
        same_except_blocks(old(program), final(program)),
        final(program).blocks@.len() == old(program).blocks@.len(),
        forall|k: nat| #[trigger] final(program).blocks.has(k) == old(program).blocks.has(k),
        forall|k: int|
            0 <= k < old(program).blocks@.len() && !listed(body_blocks@, k) ==> #[trigger] final(program).blocks@[k]
                == old(program).blocks@[k],
        phase1_done(old(program), final(program), r, *preds, entry, input_vars@, body_blocks@),
        map_keys_in(r, keys),
{
    let ghost p0 = *program;
    let ghost bs = body_blocks@;
    let ghost vars = input_vars@;
    let mut block_var_map: IndexMap<BlockId, OperandMap> = IndexMap::new();
    proof {
        assert(bs.take(0) =~= Seq::<BlockId>::empty());
    }
    for t in 0..body_blocks.len()
        invariant
            bs == body_blocks@,
            vars == input_vars@,
            forall|i: int, j: int| 0 <= i < j < bs.len() ==> bs[i].0 < bs[j].0,
            forall|i: int| 0 <= i < bs.len() ==> p0.blocks.has((#[trigger] bs[i]).0 as nat),
            preds.well_formed(),
            preds_acyclic(*preds),
            p0.well_formed(),
            program.well_formed(),
            block_var_map.well_formed(),
            same_except_blocks(&p0, program),
            program.blocks@.len() == p0.blocks@.len(),
            forall|k: nat| #[trigger] program.blocks.has(k) == p0.blocks.has(k),
            forall|k: int|
                0 <= k < p0.blocks@.len() && !listed(bs.take(t as int), k) ==> #[trigger] program.blocks@[k]
                    == p0.blocks@[k],
            phase1_done(&p0, program, block_var_map, *preds, entry, vars, bs.take(t as int)),
            forall|k: nat| #[trigger] block_var_map.has(k) ==> t > 0 && k <= bs[t - 1].0,
            forall|i: int| 0 <= i < vars.len() ==> keys.contains((#[trigger] vars[i]).0.0 as int),
            forall|i: int, j: int|
                0 <= i < bs.len() && 0 <= j < p0.blocks.at(bs[i].0 as nat).0@.len()
                    ==> (#[trigger] p0.blocks.at(bs[i].0 as nat).0@[j] matches Instruction::Store(_, v)
                    ==> keys.contains(v.variable_id.0 as int)),
            map_keys_in(block_var_map, keys),
    {
        let block_id = body_blocks[t];
        let ghost vm0 = block_var_map;
        let ghost prog0 = *program;
        let mut var_map = match preds.get(block_id) {
            Some(block_preds) => {
                if block_preds.len() == 1 {
                    match block_var_map.get(block_preds[0]) {
                        Some(m) => m.duplicate(),
                        None => OperandMap::new(),
                    }
                } else {
                    OperandMap::new()
                }
            },
            None => OperandMap::new(),
        };
        if block_id == entry {
            seed_inputs(&mut var_map, input_vars);
        }
        proof {
            assert(var_map.contents() == phase1_in(vm0, *preds, entry, vars, block_id));
            assert(program.blocks@[block_id.0 as int] == p0.blocks@[block_id.0 as int]) by {
                if listed(bs.take(t as int), block_id.0 as int) {
                    let i = choose|i: int| 0 <= i < bs.take(t as int).len() && bs.take(t as int)[i].0 as int == block_id.0 as int;
                    assert(bs[i].0 < bs[t as int].0);
                }
            }
        }
        let ghost m_in = var_map.contents();
        proof {
            lemma_phase1_in_keys(vm0, *preds, entry, vars, block_id, keys);
            assert forall|j: int| 0 <= j < p0.blocks.at(block_id.0 as nat).0@.len() implies (#[trigger] p0.blocks.at(
                block_id.0 as nat,
            ).0@[j] matches Instruction::Store(_, v) ==> keys.contains(v.variable_id.0 as int)) by {
                assert(p0.blocks.at(bs[t as int].0 as nat).0@[j] == p0.blocks.at(block_id.0 as nat).0@[j]);
            }
            lemma_store_map_keys(m_in, p0.blocks.at(block_id.0 as nat).0@, keys);
        }
        map_variable_use_in_block(program.get_block_mut(block_id), &mut var_map);
        let ghost v = var_map;
        block_var_map.insert(block_id, var_map);
        proof {
            let tk = bs.take(t as int);
            let tk1 = bs.take(t + 1);
            assert(tk1 =~= tk.push(block_id));
            assert forall|k: nat| #[trigger] block_var_map.has(k) <==> exists|i: int| 0 <= i < tk1.len() && tk1[i].0 as nat == k by {
                if k == block_id.0 as nat {
                    assert(tk1[t as int] == block_id);
                } else {
                    lemma_vmap_insert(vm0, block_var_map, block_id, v, BlockId(k as u32));
                    if vm0.has(k) {
                        let i = choose|i: int| 0 <= i < tk.len() && tk[i].0 as nat == k;
                        assert(tk1[i] == tk[i]);
                    }
                    if exists|i: int| 0 <= i < tk1.len() && tk1[i].0 as nat == k {
                        let i = choose|i: int| 0 <= i < tk1.len() && tk1[i].0 as nat == k;
                        assert(i != t);
                        assert(tk[i] == tk1[i]);
                    }
                }
            }
            assert forall|k: nat| #[trigger] block_var_map.has(k) implies t + 1 > 0 && k <= bs[t as int].0 by {
                if k != block_id.0 as nat {
                    lemma_vmap_insert(vm0, block_var_map, block_id, v, BlockId(k as u32));
                    assert(vm0.has(k));
                    assert(bs[t - 1].0 < bs[t as int].0);
                }
            }
            // the maps a block starts from are unchanged for the blocks already done
            assert forall|i: int| 0 <= i < tk1.len() implies {
                let b = #[trigger] tk1[i];
                &&& vmap(block_var_map, b) == store_map_after(phase1_in(block_var_map, *preds, entry, vars, b), p0.blocks.at(b.0 as nat).0@)
                &&& rewritten_block(phase1_in(block_var_map, *preds, entry, vars, b), p0.blocks.at(b.0 as nat).0@, program.blocks.at(b.0 as nat).0@)
            } by {
                let b = tk1[i];
                let ps = preds_at(*preds, b);
                if ps.len() == 1 {
                    assert(preds.has(b.0 as nat));
                    assert(preds.at(b.0 as nat)@[0] == ps[0]);
                    assert((ps[0].0 as nat) < b.0);
                    assert(b.0 <= block_id.0);
                    lemma_vmap_insert(vm0, block_var_map, block_id, v, ps[0]);
                }
                assert(phase1_in(block_var_map, *preds, entry, vars, b) == phase1_in(vm0, *preds, entry, vars, b));
                if i < t {
                    assert(tk[i] == b);
                    assert(b.0 < block_id.0);
                    lemma_vmap_insert(vm0, block_var_map, block_id, v, b);
                    assert(program.blocks@[b.0 as int] == prog0.blocks@[b.0 as int]);
                } else {
                    assert(b == block_id);
                    lemma_vmap_insert(vm0, block_var_map, block_id, v, b);
                }
            }
            assert forall|k: int|
                0 <= k < p0.blocks@.len() && !listed(tk1, k) implies #[trigger] program.blocks@[k] == p0.blocks@[k] by {
                assert(tk1[t as int] == block_id);
                if listed(tk, k) {
                    let i = choose|i: int| 0 <= i < tk.len() && tk[i].0 as int == k;
                    assert(tk1[i] == tk[i]);
                }
                assert(k != block_id.0);
                assert(program.blocks@[k] == prog0.blocks@[k]);
            }
            assert forall|k: nat| #[trigger] program.blocks.has(k) == p0.blocks.has(k) by {
                assert(prog0.blocks.has(k) == p0.blocks.has(k));
                if k != block_id.0 as nat && k < p0.blocks@.len() {
                    assert(program.blocks@[k as int] == prog0.blocks@[k as int]);
                }
            }
            assert forall|c: BlockId, k: u32| #[trigger] vmap(block_var_map, c).contains_key(k) implies keys.contains(k as int) by {
                lemma_vmap_insert(vm0, block_var_map, block_id, v, c);
                if c != block_id {
                    assert(vmap(vm0, c).contains_key(k));
                }
            }
        }
    }
    proof {
        assert(bs.take(bs.len() as int) =~= bs);
    }
    block_var_map
}

/// What the phi step has gathered for a block: the phi nodes created, in order, each with its
/// arguments and its new variable; the updates to the block's map; and the next free number.
pub struct PhiState {
    pub phis: Seq<(Seq<(Operand, BlockId)>, Variable)>,
    pub updates: Map<u32, Operand>,
    pub next: nat,
}

/// Whether every predecessor of `rest` maps variable `v` to `op`.
pub open spec fn all_agree(vm: IndexMap<BlockId, OperandMap>, rest: Seq<BlockId>, v: u32, op: Operand) -> bool {
    forall|i: int| 0 <= i < rest.len() ==> vmap(vm, #[trigger] rest[i]).get(v) == Some(op)
}

/// Whether some predecessor of `rest` does not map variable `v`.
pub open spec fn some_lacks(vm: IndexMap<BlockId, OperandMap>, rest: Seq<BlockId>, v: u32) -> bool {
    exists|i: int| 0 <= i < rest.len() && !vmap(vm, #[trigger] rest[i]).contains_key(v)
}

/// The argument that predecessor `r` gives a phi node for variable `v`.
pub open spec fn phi_arg_of(vm: IndexMap<BlockId, OperandMap>, v: u32) -> spec_fn(BlockId) -> (Operand, BlockId) {
    |r: BlockId| (map_operand(vmap(vm, r), vmap(vm, r)[v]), r)
}

/// The arguments of the phi node for variable `v`, valued `op` in the first predecessor.
pub open spec fn phi_args_for(
    vm: IndexMap<BlockId, OperandMap>,
    first: BlockId,
    rest: Seq<BlockId>,
    v: u32,
    op: Operand,
) -> Seq<(Operand, BlockId)> {
    seq![(map_operand(vmap(vm, first), op), first)] + rest.map_values(phi_arg_of(vm, v))
}

/// One more variable of the first predecessor's map, `e`, valued `e.1` there: kept as it is
/// when every other predecessor agrees, dropped when one of them does not map it, and joined
/// by a new phi node otherwise.
pub open spec fn phi_step(
    vm: IndexMap<BlockId, OperandMap>,
    first: BlockId,
    rest: Seq<BlockId>,
    st: PhiState,
    e: (u32, Operand),
) -> PhiState {
    if all_agree(vm, rest, e.0, e.1) {
        PhiState { updates: st.updates.insert(e.0, e.1), ..st }
    } else if some_lacks(vm, rest, e.0) {
        st
    } else {
        let nv = Variable { variable_id: VariableId(st.next as u32), ty: operand_type(e.1) };
        PhiState {
            phis: st.phis.push((phi_args_for(vm, first, rest, e.0, e.1), nv)),
            updates: st.updates.insert(e.0, Operand::Variable(nv)),
            next: st.next + 1,
        }
    }
}

/// The phi step over the variables `es`, in that order, from `st`.
pub open spec fn phi_fold(
    vm: IndexMap<BlockId, OperandMap>,
    first: BlockId,
    rest: Seq<BlockId>,
    st: PhiState,
    es: Seq<(u32, Operand)>,
) -> PhiState
    decreases es.len(),
{
    if es.len() == 0 {
        st
    } else {
        phi_step(vm, first, rest, phi_fold(vm, first, rest, st, es.drop_last()), es.last())
    }
}

/// Whether `es` lists the entries of `m`, each once.
pub open spec fn entries_of(m: Map<u32, Operand>, es: Seq<(u32, Operand)>) -> bool {
    &&& es.map_values(|e: (u32, Operand)| e.0).no_duplicates()
    &&& forall|i: int| 0 <= i < es.len() ==> m.contains_key(#[trigger] es[i].0) && m[es[i].0] == es[i].1
    &&& forall|k: u32| #[trigger] m.contains_key(k) ==> exists|i: int| 0 <= i < es.len() && es[i].0 == k
}

/// Whether `out` is `s` with the phi nodes `phis` placed before it, the last created first,
/// and every operand of both mapped through `m`.
pub open spec fn phis_then_mapped(
    m: Map<u32, Operand>,
    phis: Seq<(Seq<(Operand, BlockId)>, Variable)>,
    s: Seq<Instruction>,
    out: Seq<Instruction>,
) -> bool {
    let n = phis.len();
    &&& out.len() == n + s.len()
    &&& forall|j: int|
        0 <= j < n ==> match #[trigger] out[j] {
            Instruction::Phi(args, v) => args@ == phis[n - 1 - j].0.map_values(
                crate::utils::phi_arg_mapper(m),
            ) && v == phis[n - 1 - j].1,
            _ => false,
        }
    &&& forall|j: int| 0 <= j < s.len() ==> instruction_mapped(m, s[j], #[trigger] out[n + j])
}

/// What the second phase does to block `b`, given the maps `vm` of its predecessors and its own
/// map `own` from the first phase: with no recorded predecessors nothing; with one, its uses are
/// mapped through that predecessor's map; with more, a phi node joins each variable of the first
/// predecessor's map (walked in the order `es`) on which the predecessors disagree, and its uses
/// are mapped through the result. The block's map then gains the updates it does not have.
pub open spec fn phase2_block(
    vm: IndexMap<BlockId, OperandMap>,
    preds: IndexMap<BlockId, Vec<BlockId>>,
    b: BlockId,
    own: Map<u32, Operand>,
    s: Seq<Instruction>,
    out: Seq<Instruction>,
    own_after: Map<u32, Operand>,
    n0: nat,
    n1: nat,
    es: Seq<(u32, Operand)>,
) -> bool {
    let ps = preds_at(preds, b);
    if ps.len() == 0 {
        &&& out == s
        &&& own_after == own
        &&& n1 == n0
    } else if ps.len() == 1 {
        &&& phis_then_mapped(vmap(vm, ps[0]), Seq::empty(), s, out)
        &&& own_after == vmap(vm, ps[0]).union_prefer_right(own)
        &&& n1 == n0
    } else {
        let st = phi_fold(vm, ps[0], ps.drop_first(), PhiState { phis: Seq::empty(), updates: Map::empty(), next: n0 }, es);
        &&& entries_of(vmap(vm, ps[0]), es)
        &&& phis_then_mapped(st.updates, st.phis, s, out)
        &&& own_after == st.updates.union_prefer_right(own)
        &&& n1 == st.next
    }
}

/// Whether the blocks `bs` of `p2` and their maps `vm2` are what the second phase gives from
/// the blocks of `p1` and the maps `vm1` of the first, the blocks taken in order and their
/// new variables numbered from `n0` up to `n1`.
pub open spec fn phase2_done(
    p1: &Program,
    p2: &Program,
    vm1: IndexMap<BlockId, OperandMap>,
    vm2: IndexMap<BlockId, OperandMap>,
    preds: IndexMap<BlockId, Vec<BlockId>>,
    bs: Seq<BlockId>,
    n0: nat,
    n1: nat,
) -> bool {
    exists|ns: Seq<nat>, ess: Seq<Seq<(u32, Operand)>>| #[trigger] phase2_steps(p1, p2, vm1, vm2, preds, bs, ns, ess) && ns[0] == n0 && ns.last() == n1
}

/// The numbers `ns` and variable orders `ess` of the second phase, block by block.
pub open spec fn phase2_steps(
    p1: &Program,
    p2: &Program,
    vm1: IndexMap<BlockId, OperandMap>,
    vm2: IndexMap<BlockId, OperandMap>,
    preds: IndexMap<BlockId, Vec<BlockId>>,
    bs: Seq<BlockId>,
    ns: Seq<nat>,
    ess: Seq<Seq<(u32, Operand)>>,
) -> bool {
    &&& ns.len() == bs.len() + 1
    &&& ess.len() == bs.len()
    &&& forall|t: int|
        0 <= t < bs.len() ==> phase2_block(
            vm2,
            preds,
            #[trigger] bs[t],
            vmap(vm1, bs[t]),
            p1.blocks.at(bs[t].0 as nat).0@,
            p2.blocks.at(bs[t].0 as nat).0@,
            vmap(vm2, bs[t]),
            ns[t],
            ns[t + 1],
            ess[t],
        )
}

/// A rewritten block holds no store.
pub proof fn lemma_rewritten_has_no_store(m: Map<u32, Operand>, s: Seq<Instruction>, out: Seq<Instruction>)
    requires
        rewritten_block(m, s, out),
    ensures
        forall|j: int| 0 <= j < out.len() ==> !(#[trigger] out[j] is Store),
    decreases s.len(),
{
    if s.len() > 0 {
        if s.last() is Store {
            lemma_rewritten_has_no_store(m, s.drop_last(), out);
        } else {
            lemma_rewritten_has_no_store(m, s.drop_last(), out.drop_last());
            assert forall|j: int| 0 <= j < out.len() implies !(#[trigger] out[j] is Store) by {
                if j < out.len() - 1 {
                    assert(out[j] == out.drop_last()[j]);
                }
            }
        }
    }
}

/// Without stores, rewriting maps each instruction in place and leaves the map as it was.
pub proof fn lemma_rewritten_without_stores(m: Map<u32, Operand>, s: Seq<Instruction>, out: Seq<Instruction>)
    requires
        rewritten_block(m, s, out),
        forall|j: int| 0 <= j < s.len() ==> !(#[trigger] s[j] is Store),
    ensures
        out.len() == s.len(),
        forall|j: int| 0 <= j < s.len() ==> instruction_mapped(m, s[j], #[trigger] out[j]),
        store_map_after(m, s) == m,
    decreases s.len(),
{
    if s.len() > 0 {
        assert(!(s[s.len() - 1] is Store));
        assert forall|j: int| 0 <= j < s.drop_last().len() implies !(#[trigger] s.drop_last()[j] is Store) by {
            assert(s.drop_last()[j] == s[j]);
        }
        lemma_rewritten_without_stores(m, s.drop_last(), out.drop_last());
        assert forall|j: int| 0 <= j < s.len() implies instruction_mapped(m, s[j], #[trigger] out[j]) by {
            if j < s.len() - 1 {
                assert(s[j] == s.drop_last()[j]);
                assert(out[j] == out.drop_last()[j]);
            }
        }
    }
}

/// Whether every variable that a map of `vm` maps is one of `keys`.
pub open spec fn map_keys_in(vm: IndexMap<BlockId, OperandMap>, keys: Set<int>) -> bool {
    forall|b: BlockId, k: u32| #[trigger] vmap(vm, b).contains_key(k) ==> keys.contains(k as int)
}

/// Whether every predecessor of `rest`, and the map `first_map`, agree on variable `v`.
fn preds_agree(
    vm: &IndexMap<BlockId, OperandMap>,
    block_preds: &Vec<BlockId>,
    v: u32,
    op: Operand,
) -> (r: bool)
    requires
        block_preds@.len() > 0,
        forall|i: int| 0 <= i < block_preds@.len() ==> vm.has((#[trigger] block_preds@[i]).0 as nat),
    ensures
        r == all_agree(*vm, block_preds@.drop_first(), v, op),
{
    let ghost rest = block_preds@.drop_first();
    let mut i: usize = 1;
    while i < block_preds.len()
        invariant
            1 <= i <= block_preds@.len(),
            rest == block_preds@.drop_first(),
            forall|j: int| 0 <= j < block_preds@.len() ==> vm.has((#[trigger] block_preds@[j]).0 as nat),
            forall|j: int| 0 <= j < i - 1 ==> vmap(*vm, #[trigger] rest[j]).get(v) == Some(op),
        decreases block_preds@.len() - i,
    {
        let pred = block_preds[i];
        let pred_map = vm.get(pred).unwrap();
        proof {
            assert(rest[i - 1] == pred);
            assert(vm.has(pred.0 as nat));
        }
        match pred_map.get(v) {
            Some(o) => {
                if o != op {
                    return false;
                }
            },
            None => {
                return false;
            },
        }
        i = i + 1;
    }
    true
}

/// The arguments of the phi node for variable `v`, or nothing when some predecessor does not
/// map `v`.
fn phi_args(
    vm: &IndexMap<BlockId, OperandMap>,
    block_preds: &Vec<BlockId>,
    v: u32,
    op: Operand,
) -> (r: Option<Vec<(Operand, BlockId)>>)
    requires
        block_preds@.len() > 0,
        forall|i: int| 0 <= i < block_preds@.len() ==> vm.has((#[trigger] block_preds@[i]).0 as nat),
    ensures
        r is None <==> some_lacks(*vm, block_preds@.drop_first(), v),
        r matches Some(args) ==> args@ == phi_args_for(*vm, block_preds@[0], block_preds@.drop_first(), v, op),
{
    let ghost rest = block_preds@.drop_first();
    let first = block_preds[0];
    let first_map = vm.get(first).unwrap();
    let mut args: Vec<(Operand, BlockId)> = Vec::new();
    args.push((op.mapped(first_map), first));
    let mut i: usize = 1;
    while i < block_preds.len()
        invariant
            1 <= i <= block_preds@.len(),
            rest == block_preds@.drop_first(),
            first == block_preds@[0],
            forall|j: int| 0 <= j < block_preds@.len() ==> vm.has((#[trigger] block_preds@[j]).0 as nat),
            forall|j: int| 0 <= j < i - 1 ==> vmap(*vm, #[trigger] rest[j]).contains_key(v),
            args@ == seq![(map_operand(vmap(*vm, first), op), first)] + rest.take(i - 1).map_values(phi_arg_of(*vm, v)),
        decreases block_preds@.len() - i,
    {
        let pred = block_preds[i];
        let pred_map = vm.get(pred).unwrap();
        proof {
            assert(rest[i - 1] == pred);
            assert(vm.has(pred.0 as nat));
        }
        match pred_map.get(v) {
            Some(o) => {
                args.push((o.mapped(pred_map), pred));
                proof {
                    assert(rest.take(i as int).map_values(phi_arg_of(*vm, v)) =~= rest.take(i - 1).map_values(
                        phi_arg_of(*vm, v),
                    ).push((map_operand(vmap(*vm, pred), vmap(*vm, pred)[v]), pred)));
                    assert(args@ =~= seq![(map_operand(vmap(*vm, first), op), first)] + rest.take(i as int).map_values(phi_arg_of(*vm, v)));
                }
            },
            None => {
                return None;
            },
        }
        i = i + 1;
    }
    proof {
        assert(rest.take(rest.len() as int) =~= rest);
    }
    Some(args)
}

/// Adds to the map of block `b` the updates for the variables it does not map yet.
fn merge_updates(vm: &mut IndexMap<BlockId, OperandMap>, b: BlockId, updates: &OperandMap)
    requires
        old(vm).has(b.0 as nat),
    ensures
        final(vm)@.len() == old(vm)@.len(),
        forall|k: nat| #[trigger] final(vm).has(k) == old(vm).has(k),
        vmap(*final(vm), b) == updates.contents().union_prefer_right(vmap(*old(vm), b)),
        forall|c: BlockId| c != b ==> #[trigger] vmap(*final(vm), c) == vmap(*old(vm), c),
{
    let entries = updates.entries();
    let ghost own0 = vmap(*vm, b);
    let var_map = vm.get_mut(b);
    for i in 0..entries.len()
        invariant
            forall|k: u32|
                #[trigger] var_map.contents().contains_key(k) <==> (own0.contains_key(k) || exists|j: int|
                    0 <= j < i && entries@[j].0 == k),
            forall|k: u32| #[trigger] own0.contains_key(k) ==> var_map.contents()[k] == own0[k],
            forall|k: u32|
                !own0.contains_key(k) && (exists|j: int| 0 <= j < i && entries@[j].0 == k) ==> #[trigger] var_map.contents()[k]
                    == updates.contents()[k],
            entries@.map_values(|e: (u32, Operand)| e.0).no_duplicates(),
            forall|j: int|
                0 <= j < entries@.len() ==> updates.contents().contains_key(#[trigger] entries@[j].0)
                    && updates.contents()[entries@[j].0] == entries@[j].1,
    {
        let (k, op) = entries[i];
        if var_map.get(k).is_none() {
            var_map.insert(k, op);
        }
    }
    proof {
        let m = var_map.contents();
        let want = updates.contents().union_prefer_right(own0);
        assert forall|k: u32| #[trigger] updates.contents().contains_key(k) implies exists|j: int|
            0 <= j < entries@.len() && entries@[j].0 == k by {}
        assert(m =~= want) by {
            assert forall|k: u32| m.contains_key(k) <==> want.contains_key(k) by {
                if updates.contents().contains_key(k) {
                    let j = choose|j: int| 0 <= j < entries@.len() && entries@[j].0 == k;
                }
            }
            assert forall|k: u32| #[trigger] want.contains_key(k) implies m[k] == want[k] by {
                if !own0.contains_key(k) {
                    let j = choose|j: int| 0 <= j < entries@.len() && entries@[j].0 == k;
                }
            }
        }
    }
}

/// The entries of a map with distinct keys drawn from the finite set `keys` number at most
/// as many as `keys` holds.
proof fn lemma_entries_bounded(es: Seq<(u32, Operand)>, keys: Set<int>)
    requires
        keys.finite(),
        es.map_values(|e: (u32, Operand)| e.0).no_duplicates(),
        forall|i: int| 0 <= i < es.len() ==> keys.contains((#[trigger] es[i]).0 as int),
    ensures
        es.len() <= keys.len(),
{
    let t = es.map_values(|e: (u32, Operand)| e.0 as int);
    assert forall|i: int, j: int| 0 <= i < t.len() && 0 <= j < t.len() && i != j implies t[i] != t[j] by {
        assert(es.map_values(|e: (u32, Operand)| e.0)[i] != es.map_values(|e: (u32, Operand)| e.0)[j]);
    }
    assert(t.no_duplicates());
    t.unique_seq_to_set();
    assert forall|x: int| #[trigger] t.to_set().contains(x) implies keys.contains(x) by {
        let i = choose|i: int| 0 <= i < t.len() && t[i] == x;
        assert(keys.contains(es[i].0 as int));
    }
    vstd::set_lib::lemma_len_subset(t.to_set(), keys);
}

/// Places the phi nodes that block `b` needs at its head and maps its uses through the values
/// its predecessors hand it, then records the new values in the block's map.
fn phis_for_block(
    program: &mut Program,
    b: BlockId,
    preds: &IndexMap<BlockId, Vec<BlockId>>,
    vm: &mut IndexMap<BlockId, OperandMap>,
    next_var_id: &mut VariableId,
    Ghost(keys): Ghost<Set<int>>,
)
    requires
        old(program).well_formed(),
        old(program).blocks.has(b.0 as nat),
        forall|j: int|
            0 <= j < old(program).blocks.at(b.0 as nat).0@.len() ==> !(#[trigger] old(program).blocks.at(
                b.0 as nat,
            ).0@[j] is Store),
        preds.has(b.0 as nat) ==> preds.at(b.0 as nat)@.len() > 0,
        forall|i: int|
            0 <= i < preds_at(*preds, b).len() ==> old(vm).has((#[trigger] preds_at(*preds, b)[i]).0 as nat),
        old(vm).has(b.0 as nat),
        keys.finite(),
        map_keys_in(*old(vm), keys),
        old(next_var_id).0 + keys.len() <= u32::MAX,
    ensures
        final(program).well_formed(),
        same_except_blocks(old(program), final(program)),
        final(program).blocks@.len() == old(program).blocks@.len(),
        forall|k: int| 0 <= k < old(program).blocks@.len() && k != b.0 ==> #[trigger] final(program).blocks@[k] == old(program).blocks@[k],
        final(program).blocks.has(b.0 as nat),
        final(vm)@.len() == old(vm)@.len(),
        forall|k: nat| #[trigger] final(vm).has(k) == old(vm).has(k),
        forall|c: BlockId| c != b ==> #[trigger] vmap(*final(vm), c) == vmap(*old(vm), c),
        map_keys_in(*final(vm), keys),
        final(next_var_id).0 <= old(next_var_id).0 + keys.len(),
        exists|es: Seq<(u32, Operand)>|
            #[trigger] phase2_block(
                *old(vm),
                *preds,
                b,
                vmap(*old(vm), b),
                old(program).blocks.at(b.0 as nat).0@,
                final(program).blocks.at(b.0 as nat).0@,
                vmap(*final(vm), b),
                old(next_var_id).0 as nat,
                final(next_var_id).0 as nat,
                es,
            ),
{
    let ghost vm0 = *vm;
    let ghost n0 = next_var_id.0 as nat;
    let ghost s = program.blocks.at(b.0 as nat).0@;
    let ghost ps = preds_at(*preds, b);
    if !preds.contains_key(b) {
        proof {
            assert(phase2_block(vm0, *preds, b, vmap(vm0, b), s, s, vmap(vm0, b), n0, n0, Seq::empty()));
        }
        return;
    }
    let block_preds = preds.get(b).unwrap();
    let first = block_preds[0];
    let ghost rest = ps.drop_first();
    let ghost init = PhiState { phis: Seq::empty(), updates: Map::empty(), next: n0 };
    let mut phis: Vec<Instruction> = Vec::new();
    let mut updates: OperandMap;
    let ghost mut es: Seq<(u32, Operand)> = Seq::empty();
    let ghost mut st: PhiState = init;
    proof {
        assert(block_preds@ == ps);
        assert(vm.has(first.0 as nat)) by {
            assert(ps[0] == first);
        }
    }
    if block_preds.len() == 1 {
        updates = vm.get(first).unwrap().duplicate();
        proof {
            st = PhiState { phis: Seq::empty(), updates: vmap(vm0, first), next: n0 };
        }
    } else {
        updates = OperandMap::new();
        let first_map = vm.get(first).unwrap();
        let entries = first_map.entries();
        proof {
            es = entries@;
            assert(entries@.take(0) =~= Seq::<(u32, Operand)>::empty());
            assert forall|i: int| 0 <= i < es.len() implies keys.contains((#[trigger] es[i]).0 as int) by {
                assert(vmap(vm0, first).contains_key(es[i].0));
            }
            lemma_entries_bounded(es, keys);
        }
        for e in 0..entries.len()
            invariant
                es == entries@,
                es.len() <= keys.len(),
                n0 + keys.len() <= u32::MAX,
                *vm == vm0,
                block_preds@ == ps,
                ps.len() > 1,
                first == ps[0],
                rest == ps.drop_first(),
                forall|i: int| 0 <= i < ps.len() ==> vm0.has((#[trigger] ps[i]).0 as nat),
                st == phi_fold(vm0, first, rest, init, es.take(e as int)),
                updates.contents() == st.updates,
                next_var_id.0 == st.next,
                st.next <= n0 + e,
                phis@.len() == st.phis.len(),
                forall|j: int|
                    0 <= j < phis@.len() ==> match #[trigger] phis@[j] {
                        Instruction::Phi(args, v) => args@ == st.phis[st.phis.len() - 1 - j].0 && v
                            == st.phis[st.phis.len() - 1 - j].1,
                        _ => false,
                    },
                forall|k: u32| #[trigger] st.updates.contains_key(k) ==> vmap(vm0, first).contains_key(k),
                forall|i: int|
                    0 <= i < es.len() ==> vmap(vm0, first).contains_key(#[trigger] es[i].0) && vmap(vm0, first)[es[i].0]
                        == es[i].1,
        {
            let (var_id, operand) = entries[e];
            let ghost st0 = st;
            let ghost phis0 = phis@;
            proof {
                assert(es.take(e + 1).drop_last() =~= es.take(e as int));
                assert(es.take(e + 1).last() == es[e as int]);
                assert(vmap(vm0, first).contains_key(var_id));
            }
            if preds_agree(vm, block_preds, var_id, operand) {
                updates.insert(var_id, operand);
                proof {
                    st = phi_step(vm0, first, rest, st0, (var_id, operand));
                }
            } else {
                match phi_args(vm, block_preds, var_id, operand) {
                    None => {
                        proof {
                            st = phi_step(vm0, first, rest, st0, (var_id, operand));
                        }
                    },
                    Some(args) => {
                        let new_var = Variable { variable_id: *next_var_id, ty: operand.get_type() };
                        let ghost args_seq = args@;
                        phis.insert(0, Instruction::Phi(args, new_var));
                        updates.insert(var_id, Operand::Variable(new_var));
                        *next_var_id = next_var_id.successor();
                        proof {
                            st = phi_step(vm0, first, rest, st0, (var_id, operand));
                            assert(st.phis == st0.phis.push((args_seq, new_var)));
                            assert forall|j: int|
                                0 <= j < phis@.len() implies match #[trigger] phis@[j] {
                                    Instruction::Phi(a, v) => a@ == st.phis[st.phis.len() - 1 - j].0 && v
                                        == st.phis[st.phis.len() - 1 - j].1,
                                    _ => false,
                                } by {
                                if j > 0 {
                                    assert(phis@[j] == phis0[j - 1]);
                                    assert(st.phis[st.phis.len() - 1 - j] == st0.phis[st0.phis.len() - 1 - (j - 1)]);
                                }
                            }
                        }
                    },
                }
            }
        }
        proof {
            assert(es.take(es.len() as int) =~= es);
            assert(entries_of(vmap(vm0, first), es)) by {
                assert forall|k: u32| #[trigger] vmap(vm0, first).contains_key(k) implies exists|i: int| 0 <= i < es.len() && es[i].0 == k by {}
            }
        }
    }
    let ghost n1 = next_var_id.0 as nat;
    let block = program.get_block_mut(b);
    let mut instrs: Vec<Instruction> = Vec::new();
    std::mem::swap(&mut instrs, &mut block.0);
    let ghost phis_seq = phis@;
    phis.append(&mut instrs);
    std::mem::swap(&mut phis, &mut block.0);
    let ghost pre = block.0@;
    proof {
        assert(pre == phis_seq + s);
        assert forall|j: int| 0 <= j < pre.len() implies !(#[trigger] pre[j] is Store) by {
            if j < phis_seq.len() {
                assert(pre[j] == phis_seq[j]);
            } else {
                assert(pre[j] == s[j - phis_seq.len()]);
            }
        }
    }
    let ghost upd = updates.contents();
    map_variable_use_in_block(block, &mut updates);
    proof {
        lemma_rewritten_without_stores(upd, pre, block.0@);
        assert(updates.contents() == upd);
    }
    merge_updates(vm, b, &updates);
    proof {
        let out = program.blocks.at(b.0 as nat).0@;
        assert(out == block.0@);
        let n = st.phis.len();
        assert forall|j: int| 0 <= j < n implies match #[trigger] out[j] {
            Instruction::Phi(args, v) => args@ == st.phis[n - 1 - j].0.map_values(crate::utils::phi_arg_mapper(upd))
                && v == st.phis[n - 1 - j].1,
            _ => false,
        } by {
            assert(pre[j] == phis_seq[j]);
            assert(instruction_mapped(upd, pre[j], out[j]));
        }
        assert forall|j: int| 0 <= j < s.len() implies instruction_mapped(upd, s[j], #[trigger] out[n + j]) by {
            assert(pre[n + j] == s[j]);
            assert(instruction_mapped(upd, pre[n + j], out[n + j]));
        }
        assert(phis_then_mapped(upd, st.phis, s, out));
        assert forall|c: BlockId, k: u32| #[trigger] vmap(*vm, c).contains_key(k) implies keys.contains(k as int) by {
            if c == b {
                if upd.contains_key(k) {
                    if ps.len() == 1 {
                        assert(vmap(vm0, first).contains_key(k));
                    } else {
                        assert(vmap(vm0, first).contains_key(k));
                    }
                } else {
                    assert(vmap(vm0, b).contains_key(k));
                }
            } else {
                assert(vmap(vm0, c).contains_key(k));
            }
        }
        if ps.len() == 1 {
            assert(phis_then_mapped(vmap(vm0, ps[0]), Seq::empty(), s, out));
            assert(phase2_block(vm0, *preds, b, vmap(vm0, b), s, out, vmap(*vm, b), n0, n1, es));
        } else {
            assert(st == phi_fold(vm0, ps[0], ps.drop_first(), init, es));
            assert(phase2_block(vm0, *preds, b, vmap(vm0, b), s, out, vmap(*vm, b), n0, n1, es));
        }
    }
}

/// The phi step reads the maps of the predecessors only.
proof fn lemma_phi_fold_congruent(
    vm_a: IndexMap<BlockId, OperandMap>,
    vm_b: IndexMap<BlockId, OperandMap>,
    first: BlockId,
    rest: Seq<BlockId>,
    st: PhiState,
    es: Seq<(u32, Operand)>,
)
    requires
        vmap(vm_a, first) == vmap(vm_b, first),
        forall|i: int| 0 <= i < rest.len() ==> vmap(vm_a, #[trigger] rest[i]) == vmap(vm_b, rest[i]),
    ensures
        phi_fold(vm_a, first, rest, st, es) == phi_fold(vm_b, first, rest, st, es),
    decreases es.len(),
{
    if es.len() > 0 {
        lemma_phi_fold_congruent(vm_a, vm_b, first, rest, st, es.drop_last());
        let e = es.last();
        assert(all_agree(vm_a, rest, e.0, e.1) == all_agree(vm_b, rest, e.0, e.1));
        assert(some_lacks(vm_a, rest, e.0) == some_lacks(vm_b, rest, e.0)) by {
            if some_lacks(vm_a, rest, e.0) {
                let i = choose|i: int| 0 <= i < rest.len() && !vmap(vm_a, #[trigger] rest[i]).contains_key(e.0);
            }
            if some_lacks(vm_b, rest, e.0) {
                let i = choose|i: int| 0 <= i < rest.len() && !vmap(vm_b, #[trigger] rest[i]).contains_key(e.0);
            }
        }
        assert(phi_args_for(vm_a, first, rest, e.0, e.1) =~= phi_args_for(vm_b, first, rest, e.0, e.1)) by {
            assert(rest.map_values(phi_arg_of(vm_a, e.0)) =~= rest.map_values(phi_arg_of(vm_b, e.0)));
        }
    }
}

/// The second phase of a block reads the maps of its predecessors only.
proof fn lemma_phase2_block_congruent(
    vm_a: IndexMap<BlockId, OperandMap>,
    vm_b: IndexMap<BlockId, OperandMap>,
    preds: IndexMap<BlockId, Vec<BlockId>>,
    b: BlockId,
    own: Map<u32, Operand>,
    s: Seq<Instruction>,
    out: Seq<Instruction>,
    own_after: Map<u32, Operand>,
    n0: nat,
    n1: nat,
    es: Seq<(u32, Operand)>,
)
    requires
        forall|i: int| 0 <= i < preds_at(preds, b).len() ==> vmap(vm_a, #[trigger] preds_at(preds, b)[i]) == vmap(vm_b, preds_at(preds, b)[i]),
        phase2_block(vm_a, preds, b, own, s, out, own_after, n0, n1, es),
    ensures
        phase2_block(vm_b, preds, b, own, s, out, own_after, n0, n1, es),
{
    let ps = preds_at(preds, b);
    if ps.len() > 1 {
        assert forall|i: int| 0 <= i < ps.drop_first().len() implies vmap(vm_a, #[trigger] ps.drop_first()[i]) == vmap(vm_b, ps.drop_first()[i]) by {
            assert(ps.drop_first()[i] == ps[i + 1]);
        }
        assert(vmap(vm_a, ps[0]) == vmap(vm_b, ps[0]));
        lemma_phi_fold_congruent(vm_a, vm_b, ps[0], ps.drop_first(), PhiState { phis: Seq::empty(), updates: Map::empty(), next: n0 }, es);
    } else if ps.len() == 1 {
        assert(vmap(vm_a, ps[0]) == vmap(vm_b, ps[0]));
    }
}

/// Whether every predecessor of a block of `bs` is itself a block of `bs` with a smaller id.
pub open spec fn preds_within(preds: IndexMap<BlockId, Vec<BlockId>>, bs: Seq<BlockId>) -> bool {
    forall|t: int, i: int|
        #![trigger preds_at(preds, bs[t])[i]]
        0 <= t < bs.len() && 0 <= i < preds_at(preds, bs[t]).len() ==> bs.contains(preds_at(preds, bs[t])[i])
}

/// Joins the values that reach each block of `body_blocks`, in order.
fn insert_phi_nodes(
    program: &mut Program,
    body_blocks: &Vec<BlockId>,
    preds: &IndexMap<BlockId, Vec<BlockId>>,
    vm: &mut IndexMap<BlockId, OperandMap>,
    next_var_id: &mut VariableId,
    Ghost(keys): Ghost<Set<int>>,
)
    requires
        old(program).well_formed(),
        forall|i: int, j: int| 0 <= i < j < body_blocks@.len() ==> body_blocks@[i].0 < body_blocks@[j].0,
        forall|i: int| 0 <= i < body_blocks@.len() ==> old(program).blocks.has((#[trigger] body_blocks@[i]).0 as nat),
        forall|i: int, j: int|
            0 <= i < body_blocks@.len() && 0 <= j < old(program).blocks.at(body_blocks@[i].0 as nat).0@.len()
                ==> !(#[trigger] old(program).blocks.at(body_blocks@[i].0 as nat).0@[j] is Store),
        preds.well_formed(),
        preds_acyclic(*preds),
        forall|k: nat| #[trigger] preds.has(k) ==> preds.at(k)@.len() > 0,
        preds_within(*preds, body_blocks@),
        forall|k: nat| #[trigger] old(vm).has(k) <==> listed(body_blocks@, k as int),
        keys.finite(),
        map_keys_in(*old(vm), keys),
        old(next_var_id).0 + body_blocks@.len() * keys.len() <= u32::MAX,
    ensures
        final(program).well_formed(),
        same_except_blocks(old(program), final(program)),
        final(program).blocks@.len() == old(program).blocks@.len(),
        forall|k: nat| #[trigger] final(program).blocks.has(k) == old(program).blocks.has(k),
        forall|k: int|
            0 <= k < old(program).blocks@.len() && !listed(body_blocks@, k) ==> #[trigger] final(program).blocks@[k]
                == old(program).blocks@[k],
        phase2_done(old(program), final(program), *old(vm), *final(vm), *preds, body_blocks@, old(next_var_id).0 as nat, final(next_var_id).0 as nat),
        final(next_var_id).0 <= old(next_var_id).0 + body_blocks@.len() * keys.len(),
{
    let ghost p1 = *program;
    let ghost vm1 = *vm;
    let ghost bs = body_blocks@;
    let ghost n0 = next_var_id.0 as nat;
    let ghost mut ns: Seq<nat> = seq![n0];
    let ghost mut ess: Seq<Seq<(u32, Operand)>> = Seq::empty();
    proof {
        assert(bs.take(0) =~= Seq::<BlockId>::empty());
    }
    for t in 0..body_blocks.len()
        invariant
            bs == body_blocks@,
            p1.well_formed(),
            forall|i: int, j: int| 0 <= i < j < bs.len() ==> bs[i].0 < bs[j].0,
            forall|i: int| 0 <= i < bs.len() ==> p1.blocks.has((#[trigger] bs[i]).0 as nat),
            forall|i: int, j: int|
                0 <= i < bs.len() && 0 <= j < p1.blocks.at(bs[i].0 as nat).0@.len()
                    ==> !(#[trigger] p1.blocks.at(bs[i].0 as nat).0@[j] is Store),
            preds.well_formed(),
            preds_acyclic(*preds),
            forall|k: nat| #[trigger] preds.has(k) ==> preds.at(k)@.len() > 0,
            preds_within(*preds, bs),
            forall|k: nat| #[trigger] vm1.has(k) <==> listed(bs, k as int),
            forall|k: nat| #[trigger] vm.has(k) == vm1.has(k),
            keys.finite(),
            map_keys_in(*vm, keys),
            n0 + bs.len() * keys.len() <= u32::MAX,
            program.well_formed(),
            same_except_blocks(&p1, program),
            program.blocks@.len() == p1.blocks@.len(),
            forall|k: nat| #[trigger] program.blocks.has(k) == p1.blocks.has(k),
            forall|k: int|
                0 <= k < p1.blocks@.len() && !listed(bs.take(t as int), k) ==> #[trigger] program.blocks@[k]
                    == p1.blocks@[k],
            forall|i: int| t <= i < bs.len() ==> vmap(*vm, #[trigger] bs[i]) == vmap(vm1, bs[i]),
            forall|c: BlockId| !bs.contains(c) ==> #[trigger] vmap(*vm, c) == vmap(vm1, c),
            ns.len() == t + 1,
            ess.len() == t,
            ns[0] == n0,
            ns.last() == next_var_id.0,
            next_var_id.0 <= n0 + t * keys.len(),
            forall|i: int|
                0 <= i < t ==> phase2_block(
                    *vm,
                    *preds,
                    #[trigger] bs[i],
                    vmap(vm1, bs[i]),
                    p1.blocks.at(bs[i].0 as nat).0@,
                    program.blocks.at(bs[i].0 as nat).0@,
                    vmap(*vm, bs[i]),
                    ns[i],
                    ns[i + 1],
                    ess[i],
                ),
    {
        let b = body_blocks[t];
        let ghost vm_before = *vm;
        let ghost prog_before = *program;
        let ghost nb = next_var_id.0 as nat;
        proof {
            assert(bs[t as int] == b);
            assert(program.blocks@[b.0 as int] == p1.blocks@[b.0 as int]) by {
                if listed(bs.take(t as int), b.0 as int) {
                    let i = choose|i: int| 0 <= i < bs.take(t as int).len() && bs.take(t as int)[i].0 as int == b.0 as int;
                    assert(bs[i].0 < bs[t as int].0);
                }
            }
            assert forall|i: int| 0 <= i < preds_at(*preds, b).len() implies vm.has((#[trigger] preds_at(*preds, b)[i]).0 as nat) by {
                assert(bs.contains(preds_at(*preds, b)[i]));
                let j = choose|j: int| 0 <= j < bs.len() && bs[j] == preds_at(*preds, b)[i];
                assert(listed(bs, preds_at(*preds, b)[i].0 as int));
            }
            assert(listed(bs, b.0 as int));
            assert(vm.has(b.0 as nat));
            assert(program.blocks.at(b.0 as nat) == p1.blocks.at(b.0 as nat));
            assert forall|j: int| 0 <= j < program.blocks.at(b.0 as nat).0@.len() implies !(#[trigger] program.blocks.at(
                b.0 as nat,
            ).0@[j] is Store) by {
                assert(!(p1.blocks.at(bs[t as int].0 as nat).0@[j] is Store));
            }
            assert(nb + keys.len() <= u32::MAX) by (nonlinear_arith)
                requires
                    nb <= n0 + t * keys.len(),
                    n0 + bs.len() * keys.len() <= u32::MAX,
                    t + 1 <= bs.len(),
            ;
        }
        phis_for_block(program, b, preds, vm, next_var_id, Ghost(keys));
        proof {
            let es = choose|es: Seq<(u32, Operand)>|
                #[trigger] phase2_block(
                    vm_before,
                    *preds,
                    b,
                    vmap(vm_before, b),
                    prog_before.blocks.at(b.0 as nat).0@,
                    program.blocks.at(b.0 as nat).0@,
                    vmap(*vm, b),
                    nb,
                    next_var_id.0 as nat,
                    es,
                );
            let old_ns = ns;
            let old_ess = ess;
            ns = ns.push(next_var_id.0 as nat);
            ess = ess.push(es);
            assert(vmap(vm_before, b) == vmap(vm1, b));
            // the predecessors of every block done so far keep their maps
            assert forall|i: int| 0 <= i < t + 1 implies phase2_block(
                *vm,
                *preds,
                #[trigger] bs[i],
                vmap(vm1, bs[i]),
                p1.blocks.at(bs[i].0 as nat).0@,
                program.blocks.at(bs[i].0 as nat).0@,
                vmap(*vm, bs[i]),
                ns[i],
                ns[i + 1],
                ess[i],
            ) by {
                let bi = bs[i];
                assert forall|j: int| 0 <= j < preds_at(*preds, bi).len() implies vmap(vm_before, #[trigger] preds_at(*preds, bi)[j]) == vmap(*vm, preds_at(*preds, bi)[j]) by {
                    let q = preds_at(*preds, bi)[j];
                    assert(preds.has(bi.0 as nat));
                    assert(preds.at(bi.0 as nat)@[j] == q);
                    assert((q.0 as nat) < bi.0);
                    assert(bi.0 <= b.0) by {
                        if i < t {
                            assert(bs[i].0 < bs[t as int].0);
                        }
                    }
                    assert(q != b);
                }
                if i < t {
                    assert(bi != b) by {
                        assert(bs[i].0 < bs[t as int].0);
                    }
                    assert(program.blocks@[bi.0 as int] == prog_before.blocks@[bi.0 as int]);
                    assert(vmap(*vm, bi) == vmap(vm_before, bi));
                    assert(ns[i] == old_ns[i] && ns[i + 1] == old_ns[i + 1] && ess[i] == old_ess[i]);
                    lemma_phase2_block_congruent(
                        vm_before,
                        *vm,
                        *preds,
                        bi,
                        vmap(vm1, bi),
                        p1.blocks.at(bi.0 as nat).0@,
                        program.blocks.at(bi.0 as nat).0@,
                        vmap(*vm, bi),
                        ns[i],
                        ns[i + 1],
                        ess[i],
                    );
                } else {
                    assert(bi == b);
                    assert(ns[i] == nb);
                    assert(prog_before.blocks.at(b.0 as nat) == p1.blocks.at(b.0 as nat));
                    lemma_phase2_block_congruent(
                        vm_before,
                        *vm,
                        *preds,
                        bi,
                        vmap(vm1, bi),
                        p1.blocks.at(bi.0 as nat).0@,
                        program.blocks.at(bi.0 as nat).0@,
                        vmap(*vm, bi),
                        ns[i],
                        ns[i + 1],
                        ess[i],
                    );
                }
            }
            assert forall|i: int| t + 1 <= i < bs.len() implies vmap(*vm, #[trigger] bs[i]) == vmap(vm1, bs[i]) by {
                assert(bs[t as int].0 < bs[i].0);
                assert(bs[i] != b);
                assert(vmap(vm_before, bs[i]) == vmap(vm1, bs[i]));
            }
            assert forall|c: BlockId| !bs.contains(c) implies #[trigger] vmap(*vm, c) == vmap(vm1, c) by {
                assert(c != b);
                assert(vmap(vm_before, c) == vmap(vm1, c));
            }
            let tk = bs.take(t as int);
            let tk1 = bs.take(t + 1);
            assert(tk1 =~= tk.push(b));
            assert forall|k: int|
                0 <= k < p1.blocks@.len() && !listed(tk1, k) implies #[trigger] program.blocks@[k] == p1.blocks@[k] by {
                assert(tk1[t as int] == b);
                if listed(tk, k) {
                    let i = choose|i: int| 0 <= i < tk.len() && tk[i].0 as int == k;
                    assert(tk1[i] == tk[i]);
                }
                assert(k != b.0);
                assert(program.blocks@[k] == prog_before.blocks@[k]);
            }
            assert forall|k: nat| #[trigger] program.blocks.has(k) == p1.blocks.has(k) by {
                assert(prog_before.blocks.has(k) == p1.blocks.has(k));
                if k != b.0 as nat && k < p1.blocks@.len() {
                    assert(program.blocks@[k as int] == prog_before.blocks@[k as int]);
                }
            }
            assert(next_var_id.0 <= n0 + (t + 1) * keys.len()) by (nonlinear_arith)
                requires
                    next_var_id.0 <= nb + keys.len(),
                    nb <= n0 + t * keys.len(),
            ;
        }
    }
    proof {
        assert(bs.take(bs.len() as int) =~= bs);
        assert(phase2_steps(&p1, program, vm1, *vm, *preds, bs, ns, ess));
    }
}

/// Stores add only their own variables to a map.
proof fn lemma_store_map_keys(m0: Map<u32, Operand>, s: Seq<Instruction>, keys: Set<int>)
    requires
        forall|k: u32| #[trigger] m0.contains_key(k) ==> keys.contains(k as int),
        forall|j: int| 0 <= j < s.len() ==> (#[trigger] s[j] matches Instruction::Store(_, v) ==> keys.contains(v.variable_id.0 as int)),
    ensures
        forall|k: u32| #[trigger] store_map_after(m0, s).contains_key(k) ==> keys.contains(k as int),
    decreases s.len(),
{
    if s.len() > 0 {
        assert forall|j: int| 0 <= j < s.drop_last().len() implies (#[trigger] s.drop_last()[j] matches Instruction::Store(_, v) ==> keys.contains(v.variable_id.0 as int)) by {
            assert(s.drop_last()[j] == s[j]);
        }
        lemma_store_map_keys(m0, s.drop_last(), keys);
        assert(s.last() == s[s.len() - 1]);
        let m1 = store_map_after(m0, s.drop_last());
        assert(s[s.len() - 1] matches Instruction::Store(_, v) ==> keys.contains(v.variable_id.0 as int));
        assert forall|k: u32| #[trigger] store_map_after(m0, s).contains_key(k) implies keys.contains(k as int) by {
            match s.last() {
                Instruction::Store(op, v) => {
                    if k != v.variable_id.0 {
                        assert(m1.contains_key(k));
                    }
                },
                _ => {
                    assert(m1.contains_key(k));
                },
            }
        }
    }
}

/// Seeding parameters adds only their variables to a map.
proof fn lemma_seeded_keys(m0: Map<u32, Operand>, vars: Seq<(VariableId, Ty)>, keys: Set<int>)
    requires
        forall|k: u32| #[trigger] m0.contains_key(k) ==> keys.contains(k as int),
        forall|i: int| 0 <= i < vars.len() ==> keys.contains((#[trigger] vars[i]).0.0 as int),
    ensures
        forall|k: u32| #[trigger] seeded(m0, vars).contains_key(k) ==> keys.contains(k as int),
    decreases vars.len(),
{
    if vars.len() > 0 {
        assert forall|i: int| 0 <= i < vars.drop_last().len() implies keys.contains((#[trigger] vars.drop_last()[i]).0.0 as int) by {
            assert(vars.drop_last()[i] == vars[i]);
        }
        lemma_seeded_keys(m0, vars.drop_last(), keys);
        assert(vars.last() == vars[vars.len() - 1]);
        assert(keys.contains(vars[vars.len() - 1].0.0 as int));
        let m1 = seeded(m0, vars.drop_last());
        assert forall|k: u32| #[trigger] seeded(m0, vars).contains_key(k) implies keys.contains(k as int) by {
            if k != vars.last().0.0 {
                assert(m1.contains_key(k));
            }
        }
    }
}

/// The map a block starts from maps only variables below the bound.
proof fn lemma_phase1_in_keys(
    vm: IndexMap<BlockId, OperandMap>,
    preds: IndexMap<BlockId, Vec<BlockId>>,
    entry: BlockId,
    vars: Seq<(VariableId, Ty)>,
    b: BlockId,
    keys: Set<int>,
)
    requires
        map_keys_in(vm, keys),
        forall|i: int| 0 <= i < vars.len() ==> keys.contains((#[trigger] vars[i]).0.0 as int),
    ensures
        forall|k: u32| #[trigger] phase1_in(vm, preds, entry, vars, b).contains_key(k) ==> keys.contains(k as int),
{
    let init = if preds_at(preds, b).len() == 1 {
        vmap(vm, preds_at(preds, b)[0])
    } else {
        Map::empty()
    };
    assert forall|k: u32| #[trigger] init.contains_key(k) implies keys.contains(k as int) by {
        if preds_at(preds, b).len() == 1 {
            assert(vmap(vm, preds_at(preds, b)[0]).contains_key(k));
        }
    }
    if b == entry {
        lemma_seeded_keys(init, vars, keys);
    }
}

/// Whether `p1`, `vm1` and `vm2` witness that `p2` is `p0` with the body entered at `entry`
/// in SSA form: its blocks `bs` have their stores removed in the first phase and their phi
/// nodes placed in the second, new variables numbered from `n0` up to `n1`.
pub open spec fn body_ssa_witness(
    p0: &Program,
    p1: Program,
    p2: &Program,
    entry: BlockId,
    vars: Seq<(VariableId, Ty)>,
    preds: IndexMap<BlockId, Vec<BlockId>>,
    bs: Seq<BlockId>,
    vm1: IndexMap<BlockId, OperandMap>,
    vm2: IndexMap<BlockId, OperandMap>,
    n0: nat,
    n1: nat,
) -> bool {
    &&& is_body_blocks(p0, entry, bs)
    &&& phase1_done(p0, &p1, vm1, preds, entry, vars, bs)
    &&& same_except_blocks(p0, &p1)
    &&& p1.blocks@.len() == p0.blocks@.len()
    &&& forall|k: nat| #[trigger] p1.blocks.has(k) == p0.blocks.has(k)
    &&& forall|k: int| 0 <= k < p0.blocks@.len() && !listed(bs, k) ==> #[trigger] p1.blocks@[k] == p0.blocks@[k]
    &&& phase2_done(&p1, p2, vm1, vm2, preds, bs, n0, n1)
}

/// Whether `p2` is `p0` with the body entered at `entry`, whose parameters are `vars`, in SSA form.
pub open spec fn body_to_ssa(
    p0: &Program,
    p2: &Program,
    entry: BlockId,
    vars: Seq<(VariableId, Ty)>,
    preds: IndexMap<BlockId, Vec<BlockId>>,
    n0: nat,
    n1: nat,
) -> bool {
    exists|p1: Program, bs: Seq<BlockId>, vm1: IndexMap<BlockId, OperandMap>, vm2: IndexMap<BlockId, OperandMap>|
        #[trigger] body_ssa_witness(p0, p1, p2, entry, vars, preds, bs, vm1, vm2, n0, n1)
}

/// A mapped instruction is a store only when the instruction is.
proof fn lemma_mapped_not_store(m: Map<u32, Operand>, i: Instruction, j: Instruction)
    requires
        instruction_mapped(m, i, j),
        !(i is Store),
    ensures
        !(j is Store),
{
}

/// After the second phase, no block of the body holds a store.
proof fn lemma_phase2_no_store(
    p1: &Program,
    p2: &Program,
    vm1: IndexMap<BlockId, OperandMap>,
    vm2: IndexMap<BlockId, OperandMap>,
    preds: IndexMap<BlockId, Vec<BlockId>>,
    bs: Seq<BlockId>,
    n0: nat,
    n1: nat,
    t: int,
)
    requires
        phase2_done(p1, p2, vm1, vm2, preds, bs, n0, n1),
        0 <= t < bs.len(),
        forall|j: int| 0 <= j < p1.blocks.at(bs[t].0 as nat).0@.len() ==> !(#[trigger] p1.blocks.at(bs[t].0 as nat).0@[j] is Store),
    ensures
        forall|j: int| 0 <= j < p2.blocks.at(bs[t].0 as nat).0@.len() ==> !(#[trigger] p2.blocks.at(bs[t].0 as nat).0@[j] is Store),
{
    let (ns, ess) = choose|ns: Seq<nat>, ess: Seq<Seq<(u32, Operand)>>|
        #[trigger] phase2_steps(p1, p2, vm1, vm2, preds, bs, ns, ess) && ns[0] == n0 && ns.last() == n1;
    let b = bs[t];
    let s = p1.blocks.at(b.0 as nat).0@;
    let out = p2.blocks.at(b.0 as nat).0@;
    assert(phase2_block(vm2, preds, b, vmap(vm1, b), s, out, vmap(vm2, b), ns[t], ns[t + 1], ess[t]));
    let ps = preds_at(preds, b);
    if ps.len() >= 1 {
        let (m, n) = if ps.len() == 1 {
            (vmap(vm2, ps[0]), 0nat)
        } else {
            let st = phi_fold(vm2, ps[0], ps.drop_first(), PhiState { phis: Seq::empty(), updates: Map::empty(), next: ns[t] }, ess[t]);
            (st.updates, st.phis.len())
        };
        assert forall|j: int| 0 <= j < out.len() implies !(#[trigger] out[j] is Store) by {
            if j >= n {
                assert(instruction_mapped(m, s[j - n], out[n + (j - n)]));
                lemma_mapped_not_store(m, s[j - n], out[j]);
            }
        }
    }
}

/// Whether `args` are the arguments of a phi node joining the predecessors `ps`: one for each,
/// in the order of `ps`.
pub open spec fn args_follow_preds(args: Seq<(Operand, BlockId)>, ps: Seq<BlockId>) -> bool {
    &&& args.len() == ps.len()
    &&& forall|a: int| 0 <= a < ps.len() ==> (#[trigger] args[a]).1 == ps[a]
}

/// Whether `out`, from position `n` on, is `s` with every use mapped through `m`.
pub open spec fn tail_mapped(m: Map<u32, Operand>, s: Seq<Instruction>, out: Seq<Instruction>, n: int) -> bool {
    forall|j: int| 0 <= j < s.len() ==> instruction_mapped(m, s[j], #[trigger] out[n + j])
}

/// The phi step over the variables `es` keeps the phi nodes made before, and each phi node it
/// adds joins `first` and then `rest`, in that order, in a variable numbered one above the one
/// before, starting from `st.next`.
pub proof fn lemma_phi_fold_shape(
    vm: IndexMap<BlockId, OperandMap>,
    first: BlockId,
    rest: Seq<BlockId>,
    st: PhiState,
    es: Seq<(u32, Operand)>,
)
    ensures
        ({
            let r = phi_fold(vm, first, rest, st, es);
            &&& st.next <= r.next
            &&& r.phis.len() == st.phis.len() + (r.next - st.next)
            &&& forall|i: int| 0 <= i < st.phis.len() ==> #[trigger] r.phis[i] == st.phis[i]
            &&& forall|i: int|
                st.phis.len() <= i < r.phis.len() ==> {
                    &&& args_follow_preds((#[trigger] r.phis[i]).0, seq![first] + rest)
                    &&& r.phis[i].1.variable_id == VariableId((st.next + (i - st.phis.len())) as u32)
                }
        }),
    decreases es.len(),
{
    if es.len() > 0 {
        lemma_phi_fold_shape(vm, first, rest, st, es.drop_last());
        let r0 = phi_fold(vm, first, rest, st, es.drop_last());
        let e = es.last();
        let r = phi_step(vm, first, rest, r0, e);
        if !all_agree(vm, rest, e.0, e.1) && !some_lacks(vm, rest, e.0) {
            let args = phi_args_for(vm, first, rest, e.0, e.1);
            let ps = seq![first] + rest;
            assert forall|a: int| 0 <= a < ps.len() implies (#[trigger] args[a]).1 == ps[a] by {
                if a > 0 {
                    assert(args[a] == rest.map_values(phi_arg_of(vm, e.0))[a - 1]);
                }
            }
            assert forall|i: int| st.phis.len() <= i < r.phis.len() implies {
                &&& args_follow_preds((#[trigger] r.phis[i]).0, seq![first] + rest)
                &&& r.phis[i].1.variable_id == VariableId((st.next + (i - st.phis.len())) as u32)
            } by {
                if i < r0.phis.len() {
                    assert(r.phis[i] == r0.phis[i]);
                }
            }
        }
    }
}

/// What the second phase adds to block `b`: nothing unless `b` has two or more recorded
/// predecessors; with `ps` of them, `n1 - n0` phi nodes open the block, each with one argument
/// for each predecessor in the order of `ps`, in variables numbered `n0 .. n1` (the last one
/// created first), followed by the block's instructions of the first phase with their uses
/// mapped.
pub proof fn lemma_phase2_block_phis(
    vm: IndexMap<BlockId, OperandMap>,
    preds: IndexMap<BlockId, Vec<BlockId>>,
    b: BlockId,
    own: Map<u32, Operand>,
    s: Seq<Instruction>,
    out: Seq<Instruction>,
    own_after: Map<u32, Operand>,
    n0: nat,
    n1: nat,
    es: Seq<(u32, Operand)>,
)
    requires
        phase2_block(vm, preds, b, own, s, out, own_after, n0, n1, es),
    ensures
        n0 <= n1,
        preds_at(preds, b).len() < 2 ==> n1 == n0,
        preds_at(preds, b).len() == 0 ==> out == s,
        out.len() == (n1 - n0) + s.len(),
        forall|j: int|
            0 <= j < n1 - n0 ==> match #[trigger] out[j] {
                Instruction::Phi(args, v) => args_follow_preds(args@, preds_at(preds, b)) && v.variable_id
                    == VariableId((n1 - 1 - j) as u32),
                _ => false,
            },
        preds_at(preds, b).len() > 0 ==> exists|m: Map<u32, Operand>| #[trigger] tail_mapped(m, s, out, n1 - n0),
{
    let ps = preds_at(preds, b);
    if ps.len() == 1 {
        let m = vmap(vm, ps[0]);
        assert(tail_mapped(m, s, out, n1 - n0));
    } else if ps.len() >= 2 {
        let st0 = PhiState { phis: Seq::empty(), updates: Map::empty(), next: n0 };
        let st = phi_fold(vm, ps[0], ps.drop_first(), st0, es);
        lemma_phi_fold_shape(vm, ps[0], ps.drop_first(), st0, es);
        assert(seq![ps[0]] + ps.drop_first() =~= ps);
        let n = st.phis.len();
        assert forall|j: int| 0 <= j < n1 - n0 implies match #[trigger] out[j] {
            Instruction::Phi(args, v) => args_follow_preds(args@, ps) && v.variable_id == VariableId((n1 - 1 - j) as u32),
            _ => false,
        } by {
            let ph = st.phis[n - 1 - j];
            assert(args_follow_preds(ph.0, seq![ps[0]] + ps.drop_first()));
            match out[j] {
                Instruction::Phi(args, v) => {
                    assert(args@ == ph.0.map_values(crate::utils::phi_arg_mapper(st.updates)));
                    assert forall|a: int| 0 <= a < ps.len() implies (#[trigger] args@[a]).1 == ps[a] by {
                        assert(args@[a] == (map_operand(st.updates, ph.0[a].0), ph.0[a].1));
                    }
                },
                _ => {},
            }
        }
        let m = st.updates;
        assert(tail_mapped(m, s, out, n1 - n0));
    }
}

/// Whether the block `out` opens with the `n1 - n0` phi nodes that join the predecessors `ps`,
/// one argument for each in the order of `ps`, in variables numbered `n0 .. n1`, the last one
/// created first.
pub open spec fn opens_with_new_phis(out: Seq<Instruction>, ps: Seq<BlockId>, n0: nat, n1: nat) -> bool {
    &&& n0 <= n1
    &&& out.len() >= n1 - n0
    &&& ps.len() < 2 ==> n1 == n0
    &&& forall|j: int|
        0 <= j < n1 - n0 ==> match #[trigger] out[j] {
            Instruction::Phi(args, v) => args_follow_preds(args@, ps) && v.variable_id == VariableId(
                (n1 - 1 - j) as u32,
            ),
            _ => false,
        }
}

/// Whether the transform of the body entered at `entry`, from `pa` to `pb`, numbered the new
/// variables of its blocks `bs`, taken in ascending order of id, from `ns[t]` up to `ns[t + 1]`
/// for block `bs[t]`, where they are the phi nodes that open it.
pub open spec fn phi_numbering(
    pa: &Program,
    pb: &Program,
    entry: BlockId,
    preds: IndexMap<BlockId, Vec<BlockId>>,
    bs: Seq<BlockId>,
    ns: Seq<nat>,
    na: nat,
    nb: nat,
) -> bool {
    &&& is_body_blocks(pa, entry, bs)
    &&& ns.len() == bs.len() + 1
    &&& ns[0] == na
    &&& ns.last() == nb
    &&& forall|t1: int, t2: int| 0 <= t1 <= t2 < ns.len() ==> ns[t1] <= ns[t2]
    &&& forall|t: int|
        0 <= t < bs.len() ==> opens_with_new_phis(
            pb.blocks.at((#[trigger] bs[t]).0 as nat).0@,
            preds_at(preds, bs[t]),
            ns[t],
            ns[t + 1],
        )
}

proof fn lemma_numbers_rise(ns: Seq<nat>, t: int)
    requires
        0 <= t < ns.len(),
        forall|u: int| 0 <= u < ns.len() - 1 ==> #[trigger] ns[u] <= ns[u + 1],
    ensures
        ns[0] <= ns[t],
    decreases t,
{
    if t > 0 {
        lemma_numbers_rise(ns, t - 1);
    }
}

/// The transform of one body adds phi nodes only at the head of its blocks with two or more
/// recorded predecessors, with one argument for each predecessor in the order recorded, and
/// numbers their variables upwards from `na` to `nb`, block by block, without gaps or repeats.
pub proof fn lemma_body_phis(
    pa: &Program,
    pb: &Program,
    entry: BlockId,
    vars: Seq<(VariableId, Ty)>,
    preds: IndexMap<BlockId, Vec<BlockId>>,
    na: nat,
    nb: nat,
)
    requires
        body_to_ssa(pa, pb, entry, vars, preds, na, nb),
    ensures
        na <= nb,
        exists|bs: Seq<BlockId>, ns: Seq<nat>| #[trigger] phi_numbering(pa, pb, entry, preds, bs, ns, na, nb),
{
    let (p1, bs, vm1, vm2) = choose|p1: Program, bs: Seq<BlockId>, vm1: IndexMap<BlockId, OperandMap>, vm2: IndexMap<BlockId, OperandMap>|
        #[trigger] body_ssa_witness(pa, p1, pb, entry, vars, preds, bs, vm1, vm2, na, nb);
    let (ns, ess) = choose|ns: Seq<nat>, ess: Seq<Seq<(u32, Operand)>>|
        #[trigger] phase2_steps(&p1, pb, vm1, vm2, preds, bs, ns, ess) && ns[0] == na && ns.last() == nb;
    assert forall|t: int| 0 <= t < bs.len() implies opens_with_new_phis(
        pb.blocks.at((#[trigger] bs[t]).0 as nat).0@,
        preds_at(preds, bs[t]),
        ns[t],
        ns[t + 1],
    ) by {
        let b = bs[t];
        lemma_phase2_block_phis(
            vm2,
            preds,
            b,
            vmap(vm1, b),
            p1.blocks.at(b.0 as nat).0@,
            pb.blocks.at(b.0 as nat).0@,
            vmap(vm2, b),
            ns[t],
            ns[t + 1],
            ess[t],
        );
    }
    assert forall|u: int| 0 <= u < ns.len() - 1 implies #[trigger] ns[u] <= ns[u + 1] by {
        assert(opens_with_new_phis(pb.blocks.at(bs[u].0 as nat).0@, preds_at(preds, bs[u]), ns[u], ns[u + 1]));
    }
    assert forall|t1: int, t2: int| 0 <= t1 <= t2 < ns.len() implies ns[t1] <= ns[t2] by {
        let sub = ns.subrange(t1, ns.len() as int);
        assert forall|u: int| 0 <= u < sub.len() - 1 implies #[trigger] sub[u] <= sub[u + 1] by {
            assert(sub[u] == ns[t1 + u] && sub[u + 1] == ns[t1 + u + 1]);
        }
        lemma_numbers_rise(sub, t2 - t1);
    }
    lemma_numbers_rise(ns, ns.len() - 1);
    assert(phi_numbering(pa, pb, entry, preds, bs, ns, na, nb));
}

/// Over the whole transform, callable after callable: the numbers rise, so the variables of
/// the phi nodes that different bodies add lie in disjoint ranges, each at or above `nexts[0]`;
/// and within each body they are placed and numbered as `lemma_body_phis` says.
pub proof fn lemma_transform_phis(
    p0: &Program,
    preds: IndexMap<BlockId, Vec<BlockId>>,
    ids: Seq<nat>,
    progs: Seq<Program>,
    nexts: Seq<nat>,
)
    requires
        ssa_chain(p0, preds, ids, progs, nexts),
    ensures
        forall|t1: int, t2: int| 0 <= t1 <= t2 < nexts.len() ==> nexts[t1] <= nexts[t2],
        forall|t: int|
            0 <= t < ids.len() ==> match body_of(p0, #[trigger] ids[t]) {
                Some(e) => exists|bs: Seq<BlockId>, ns: Seq<nat>|
                    #[trigger] phi_numbering(&progs[t], &progs[t + 1], e, preds, bs, ns, nexts[t], nexts[t + 1]),
                None => progs[t + 1] == progs[t],
            },
{
    assert forall|t: int| 0 <= t < ids.len() implies nexts[t] <= nexts[t + 1] && match body_of(p0, #[trigger] ids[t]) {
        Some(e) => exists|bs: Seq<BlockId>, ns: Seq<nat>|
            #[trigger] phi_numbering(&progs[t], &progs[t + 1], e, preds, bs, ns, nexts[t], nexts[t + 1]),
        None => progs[t + 1] == progs[t],
    } by {
        assert(ssa_chain_step(p0, preds, ids[t], progs[t], progs[t + 1], nexts[t], nexts[t + 1]));
        if let Some(e) = body_of(p0, ids[t]) {
            lemma_body_phis(&progs[t], &progs[t + 1], e, inputs_of(p0.callables.at(ids[t])), preds, nexts[t], nexts[t + 1]);
        }
    }
    assert forall|t1: int, t2: int| 0 <= t1 <= t2 < nexts.len() implies nexts[t1] <= nexts[t2] by {
        let sub = nexts.subrange(t1, nexts.len() as int);
        assert forall|u: int| 0 <= u < sub.len() - 1 implies #[trigger] sub[u] <= sub[u + 1] by {
            assert(sub[u] == nexts[t1 + u] && sub[u + 1] == nexts[t1 + u + 1]);
            assert(0 <= t1 + u < ids.len());
            let w = ids[t1 + u];
            assert(nexts[t1 + u] <= nexts[t1 + u + 1]);
        }
        lemma_numbers_rise(sub, t2 - t1);
    }
}

/// Puts the body entered at `entry` in SSA form.
fn transform_body_to_ssa(
    program: &mut Program,
    entry: BlockId,
    input_vars: &Vec<(VariableId, Ty)>,
    preds: &IndexMap<BlockId, Vec<BlockId>>,
    next_var_id: &mut VariableId,
    Ghost(keys): Ghost<Set<int>>,
)
    requires
        old(program).well_formed(),
        closed_from(old(program), entry),
        preds.well_formed(),
        preds_acyclic(*preds),
        forall|k: nat| #[trigger] preds.has(k) ==> preds.at(k)@.len() > 0,
        forall|b: BlockId, i: int|
            #![trigger reaches(old(program), entry, b), preds_at(*preds, b)[i]]
            reaches(old(program), entry, b) && 0 <= i < preds_at(*preds, b).len() ==> reaches(
                old(program),
                entry,
                preds_at(*preds, b)[i],
            ),
        forall|b: BlockId, j: int|
            #![trigger reaches(old(program), entry, b), old(program).blocks.at(b.0 as nat).0@[j]]
            reaches(old(program), entry, b) && 0 <= j < old(program).blocks.at(b.0 as nat).0@.len() ==> (
            old(program).blocks.at(b.0 as nat).0@[j] matches Instruction::Store(_, v) ==> keys.contains(v.variable_id.0 as int)),
        keys.finite(),
        forall|i: int| 0 <= i < input_vars@.len() ==> keys.contains((#[trigger] input_vars@[i]).0.0 as int),
        old(next_var_id).0 + reach_set(old(program), entry).len() * keys.len() <= u32::MAX,
    ensures
        final(program).well_formed(),
        same_except_blocks(old(program), final(program)),
        final(program).blocks@.len() == old(program).blocks@.len(),
        forall|k: nat| #[trigger] final(program).blocks.has(k) == old(program).blocks.has(k),
        forall|k: int|
            0 <= k < old(program).blocks@.len() && !reaches(old(program), entry, BlockId(k as u32))
                ==> #[trigger] final(program).blocks@[k] == old(program).blocks@[k],
        forall|b: BlockId, j: int|
            #![trigger reaches(old(program), entry, b), final(program).blocks.at(b.0 as nat).0@[j]]
            reaches(old(program), entry, b) && 0 <= j < final(program).blocks.at(b.0 as nat).0@.len()
                ==> !(final(program).blocks.at(b.0 as nat).0@[j] is Store),
        body_to_ssa(old(program), final(program), entry, input_vars@, *preds, old(next_var_id).0 as nat, final(next_var_id).0 as nat),
        final(next_var_id).0 <= old(next_var_id).0 + reach_set(old(program), entry).len() * keys.len(),
{
    let ghost p0 = *program;
    let ghost n0 = next_var_id.0 as nat;
    let body_blocks = body_blocks_of(program, entry);
    let ghost bs = body_blocks@;
    proof {
        assert forall|i: int| 0 <= i < bs.len() implies p0.blocks.has((#[trigger] bs[i]).0 as nat) by {
            assert(bs.contains(bs[i]));
            assert(block_ok(&p0, bs[i]));
        }
        assert forall|i: int, j: int|
            0 <= i < bs.len() && 0 <= j < p0.blocks.at(bs[i].0 as nat).0@.len()
                implies (#[trigger] p0.blocks.at(bs[i].0 as nat).0@[j] matches Instruction::Store(_, v)
                ==> keys.contains(v.variable_id.0 as int)) by {
            assert(bs.contains(bs[i]));
            assert(reaches(&p0, entry, bs[i]));
        }
    }
    let mut block_var_map = map_store_to_dominated_ssa(program, &body_blocks, entry, input_vars, preds, Ghost(keys));
    let ghost p1 = *program;
    let ghost vm1 = block_var_map;
    proof {
        assert forall|i: int, j: int|
            0 <= i < bs.len() && 0 <= j < p1.blocks.at(bs[i].0 as nat).0@.len()
                implies !(#[trigger] p1.blocks.at(bs[i].0 as nat).0@[j] is Store) by {
            let b = bs[i];
            assert(rewritten_block(phase1_in(vm1, *preds, entry, input_vars@, b), p0.blocks.at(b.0 as nat).0@, p1.blocks.at(b.0 as nat).0@));
            lemma_rewritten_has_no_store(phase1_in(vm1, *preds, entry, input_vars@, b), p0.blocks.at(b.0 as nat).0@, p1.blocks.at(b.0 as nat).0@);
        }
        assert(preds_within(*preds, bs)) by {
            assert forall|t: int, i: int|
                0 <= t < bs.len() && 0 <= i < preds_at(*preds, bs[t]).len() implies bs.contains(#[trigger] preds_at(*preds, bs[t])[i]) by {
                assert(bs.contains(bs[t]));
                assert(reaches(&p0, entry, bs[t]));
            }
        }
        assert forall|k: nat| #[trigger] vm1.has(k) <==> listed(bs, k as int) by {}
        assert forall|i: int| 0 <= i < bs.len() implies (#[trigger] bs[i]).0 < p0.blocks@.len() by {
            assert(p0.blocks.has(bs[i].0 as nat));
        }
        assert forall|i: int, j: int| 0 <= i < bs.len() && 0 <= j < bs.len() && i != j implies bs[i] != bs[j] by {
            if i < j {
                assert(bs[i].0 < bs[j].0);
            } else {
                assert(bs[j].0 < bs[i].0);
            }
        }
        crate::utils::lemma_listed_reach_len(&p0, entry, bs);
    }
    insert_phi_nodes(program, &body_blocks, preds, &mut block_var_map, next_var_id, Ghost(keys));
    proof {
        assert(body_ssa_witness(&p0, p1, program, entry, input_vars@, *preds, bs, vm1, block_var_map, n0, next_var_id.0 as nat));
        assert forall|k: int|
            0 <= k < p0.blocks@.len() && !reaches(&p0, entry, BlockId(k as u32)) implies #[trigger] program.blocks@[k] == p0.blocks@[k] by {
            if listed(bs, k) {
                let i = choose|i: int| 0 <= i < bs.len() && bs[i].0 as int == k;
                assert(BlockId(k as u32) == bs[i]);
                assert(bs.contains(bs[i]));
            }
        }
        assert forall|b: BlockId, j: int|
            reaches(&p0, entry, b) && 0 <= j < program.blocks.at(b.0 as nat).0@.len()
                implies !(#[trigger] program.blocks.at(b.0 as nat).0@[j] is Store) by {
            assert(bs.contains(b));
            let t = choose|t: int| 0 <= t < bs.len() && bs[t] == b;
            lemma_phase2_no_store(&p1, program, vm1, block_var_map, *preds, bs, n0, next_var_id.0 as nat, t);
        }
    }
}

/// The parameters of a callable paired with their types, as far as both go.
pub open spec fn inputs_of(c: Callable) -> Seq<(VariableId, Ty)> {
    let n = if c.input_vars@.len() <= c.input_type@.len() {
        c.input_vars@.len()
    } else {
        c.input_type@.len()
    };
    Seq::new(n, |i: int| (c.input_vars@[i], c.input_type@[i]))
}

fn zip_inputs(c: &Callable) -> (r: Vec<(VariableId, Ty)>)
    ensures
        r@ == inputs_of(*c),
{
    let mut r: Vec<(VariableId, Ty)> = Vec::new();
    let n = if c.input_vars.len() <= c.input_type.len() {
        c.input_vars.len()
    } else {
        c.input_type.len()
    };
    for i in 0..n
        invariant
            n <= c.input_vars@.len(),
            n <= c.input_type@.len(),
            r@ == inputs_of(*c).take(i as int),
            n == inputs_of(*c).len(),
    {
        r.push((c.input_vars[i], c.input_type[i]));
        proof {
            assert(r@ =~= inputs_of(*c).take(i + 1));
        }
    }
    proof {
        assert(inputs_of(*c).take(n as int) =~= inputs_of(*c));
    }
    r
}

/// The variables that the body of callable `c` names: its parameters and the variables that
/// the blocks it reaches store into.
pub open spec fn body_vars(p: &Program, c: nat) -> Set<int> {
    Set::new(
        |k: int|
            0 <= k <= u32::MAX && ((exists|i: int|
                0 <= i < p.callables.at(c).input_vars@.len() && #[trigger] p.callables.at(c).input_vars@[i].0 == k)
                || (exists|b: BlockId| #[trigger] body_reaches(p, c, b) && stores_var(p.blocks.at(b.0 as nat).0@, k as u32))),
    )
}

/// How many variables the transform may add to the body of callable `c`: for each block the
/// body reaches, at most one phi node per variable that the body names.
pub open spec fn body_phi_budget(p: &Program, c: nat) -> nat {
    match body_of(p, c) {
        Some(e) => reach_set(p, e).len() * body_vars(p, c).len(),
        None => 0,
    }
}

/// The budgets of the bodies of the callables `ids`, added up.
pub open spec fn phi_budget_of(p: &Program, ids: Seq<nat>) -> nat
    decreases ids.len(),
{
    if ids.len() == 0 {
        0
    } else {
        phi_budget_of(p, ids.drop_last()) + body_phi_budget(p, ids.last())
    }
}

/// How many variables the transform may add to the whole program.
pub open spec fn ssa_room(p: &Program) -> nat {
    phi_budget_of(p, p.callables.key_seq())
}

/// The budgets of a prefix of `ids` add up to no more than those of all of `ids`.
proof fn lemma_phi_budget_prefix(p: &Program, ids: Seq<nat>, i: int)
    requires
        0 <= i <= ids.len(),
    ensures
        phi_budget_of(p, ids.take(i)) <= phi_budget_of(p, ids),
    decreases ids.len(),
{
    if i < ids.len() {
        assert(ids.drop_last().take(i) =~= ids.take(i));
        lemma_phi_budget_prefix(p, ids.drop_last(), i);
    } else {
        assert(ids.take(i) =~= ids);
    }
}

/// Whether the transform can run on `p` with the predecessors `preds`: the recorded
/// predecessors come before their blocks, every callable body reaches only present, non-empty
/// blocks whose predecessors it reaches too, distinct bodies reach no common block, and the
/// variable numbers that the program assigns leave room for every phi node it may add.
pub open spec fn ssa_ready(p: &Program, preds: IndexMap<BlockId, Vec<BlockId>>) -> bool {
    &&& p.well_formed()
    &&& preds.well_formed()
    &&& preds_acyclic(preds)
    &&& forall|k: nat| #[trigger] preds.has(k) ==> preds.at(k)@.len() > 0
    &&& forall|c: nat| #[trigger] body_of(p, c) matches Some(e) ==> closed_from(p, e)
    &&& forall|c: nat, b: BlockId, i: int|
        #![trigger body_reaches(p, c, b), preds_at(preds, b)[i]]
        body_reaches(p, c, b) && 0 <= i < preds_at(preds, b).len() ==> body_reaches(p, c, preds_at(preds, b)[i])
    &&& forall|c1: nat, c2: nat, b: BlockId|
        #[trigger] body_reaches(p, c1, b) && #[trigger] body_reaches(p, c2, b) ==> c1 == c2
    &&& ssa_room(p) <= u32::MAX
    &&& assigned_below(p, (u32::MAX - ssa_room(p)) as nat)
}

/// One step of the transform: `pb` is `pa` with the body of callable `c` of `p0` in SSA form,
/// its new variables numbered from `na` up to `nb`, or `pa` itself when `c` has no body.
pub open spec fn ssa_chain_step(
    p0: &Program,
    preds: IndexMap<BlockId, Vec<BlockId>>,
    c: nat,
    pa: Program,
    pb: Program,
    na: nat,
    nb: nat,
) -> bool {
    match body_of(p0, c) {
        Some(e) => body_to_ssa(&pa, &pb, e, inputs_of(p0.callables.at(c)), preds, na, nb),
        None => pb == pa && nb == na,
    }
}

/// Whether `progs` and `nexts` record the transform over the callables `ids` of `p0`, one after
/// the other.
pub open spec fn ssa_chain(
    p0: &Program,
    preds: IndexMap<BlockId, Vec<BlockId>>,
    ids: Seq<nat>,
    progs: Seq<Program>,
    nexts: Seq<nat>,
) -> bool {
    &&& progs.len() == ids.len() + 1
    &&& nexts.len() == ids.len() + 1
    &&& progs[0] == *p0
    &&& forall|t: int|
        0 <= t < ids.len() ==> #[trigger] ssa_chain_step(p0, preds, ids[t], progs[t], progs[t + 1], nexts[t], nexts[t + 1])
}

/// Puts the body of every callable in SSA form, callable by callable in ascending order of id:
/// the stores go, and phi nodes, with variables numbered upwards from the first number that the
/// program does not assign, join the values that reach a block along different predecessors.
pub fn transform_to_ssa(program: &mut Program, preds: &IndexMap<BlockId, Vec<BlockId>>)
    requires
        ssa_ready(old(program), *preds),
    ensures
        final(program).well_formed(),
        same_except_blocks(old(program), final(program)),
        final(program).blocks@.len() == old(program).blocks@.len(),
        forall|k: nat| #[trigger] final(program).blocks.has(k) == old(program).blocks.has(k),
        forall|k: int|
            0 <= k < old(program).blocks@.len() && !reached_from_bodies(old(program), old(program).callables.key_seq(), k)
                ==> #[trigger] final(program).blocks@[k] == old(program).blocks@[k],
        forall|k: nat, j: int|
            #![trigger final(program).blocks.at(k).0@[j]]
            k < old(program).blocks@.len() && reached_from_bodies(old(program), old(program).callables.key_seq(), k as int)
                && 0 <= j < final(program).blocks.at(k).0@.len() ==> !(final(program).blocks.at(k).0@[j] is Store),
        exists|progs: Seq<Program>, nexts: Seq<nat>|
            {
                &&& #[trigger] ssa_chain(old(program), *preds, old(program).callables.key_seq(), progs, nexts)
                &&& is_first_free_variable(old(program), nexts[0])
                &&& progs.last() == *final(program)
                &&& nexts.last() <= u32::MAX
            },
{
    let ghost p0 = *program;
    let ghost room = ssa_room(&p0);
    let ghost bslots = p0.blocks.slot_count();
    let mut next_var_id = next_variable_id(program);
    let ghost n0 = next_var_id.0 as nat;
    proof {
        if n0 > 0 {
            crate::utils::lemma_assigned_below_bound(&p0, (u32::MAX - room) as nat, (n0 - 1) as u32);
        }
        assert(n0 + room <= u32::MAX);
        crate::index_map::lemma_key_seq_increasing(p0.callables);
    }
    let ids = program.all_callable_ids();
    let ghost key_nats = p0.callables.key_seq();
    let ghost mut progs: Seq<Program> = seq![p0];
    let ghost mut nexts: Seq<nat> = seq![n0];
    proof {
        assert(key_nats.take(0) =~= Seq::<nat>::empty());
    }
    for t in 0..ids.len()
        invariant
            ssa_ready(&p0, *preds),
            room == ssa_room(&p0),
            bslots == p0.blocks.slot_count(),
            n0 + room <= u32::MAX,
            key_nats == p0.callables.key_seq(),
            ids@.map_values(|k: CallableId| k.0 as nat) == key_nats,
            forall|i: int, j: int| 0 <= i < j < key_nats.len() ==> key_nats[i] < key_nats[j],
            program.well_formed(),
            same_except_blocks(&p0, program),
            program.blocks@.len() == bslots,
            forall|k: nat| #[trigger] program.blocks.has(k) == p0.blocks.has(k),
            forall|k: int|
                0 <= k < bslots && !reached_from_bodies(&p0, key_nats.take(t as int), k)
                    ==> #[trigger] program.blocks@[k] == p0.blocks@[k],
            forall|k: nat, j: int|
                #![trigger program.blocks.at(k).0@[j]]
                k < bslots && reached_from_bodies(&p0, key_nats.take(t as int), k as int) && 0 <= j
                    < program.blocks.at(k).0@.len() ==> !(program.blocks.at(k).0@[j] is Store),
            ssa_chain(&p0, *preds, key_nats.take(t as int), progs, nexts),
            nexts[0] == n0,
            progs.last() == *program,
            nexts.last() == next_var_id.0 as nat,
            next_var_id.0 <= n0 + phi_budget_of(&p0, key_nats.take(t as int)),
    {
        let c = ids[t];
        let ghost before = *program;
        let ghost nb = next_var_id.0 as nat;
        let ghost cn = key_nats[t as int];
        let ghost ids_t = key_nats.take(t as int);
        proof {
            assert(key_nats.take(t + 1) =~= ids_t.push(cn));
            assert(!ids_t.contains(cn)) by {
                if ids_t.contains(cn) {
                    let i = choose|i: int| 0 <= i < ids_t.len() && ids_t[i] == cn;
                    assert(key_nats[i] < key_nats[t as int]);
                }
            }
            assert(key_nats.take(t + 1).drop_last() =~= ids_t);
            lemma_phi_budget_prefix(&p0, key_nats, t + 1);
            assert(phi_budget_of(&p0, key_nats.take(t + 1)) == phi_budget_of(&p0, ids_t) + body_phi_budget(&p0, cn));
            assert(c.0 as nat == cn);
            crate::utils::lemma_key_seq_has(p0.callables, t as int);
            assert(program.callables.has(cn));
            assert(body_of(&p0, cn) == before.callables.at(cn).body);
        }
        let body = program.get_callable(c).body;
        if let Some(e) = body {
            let input_vars = zip_inputs(program.get_callable(c));
            proof {
                assert(closed_from(&p0, e));
                assert forall|b: BlockId| #[trigger] reaches(&p0, e, b) implies before.blocks@[b.0 as int]
                    == p0.blocks@[b.0 as int] by {
                    assert(block_ok(&p0, b));
                    assert(body_reaches(&p0, cn, b));
                    if reached_from_bodies(&p0, key_nats.take(t as int), b.0 as int) {
                        let i = choose|i: int|
                            0 <= i < key_nats.take(t as int).len() && #[trigger] body_reaches(
                                &p0,
                                key_nats.take(t as int)[i],
                                BlockId((b.0 as int) as u32),
                            );
                        assert(BlockId((b.0 as int) as u32) == b);
                        assert(key_nats[i] < key_nats[t as int]);
                        assert(false);
                    }
                }
                crate::utils::lemma_reaches_same(&p0, &before, e);
                assert forall|b: BlockId, i: int|
                    reaches(&before, e, b) && 0 <= i < preds_at(*preds, b).len() implies reaches(
                        &before,
                        e,
                        #[trigger] preds_at(*preds, b)[i],
                    ) by {
                    assert(body_reaches(&p0, cn, b));
                    assert(body_reaches(&p0, cn, preds_at(*preds, b)[i]));
                }
                let keys = body_vars(&p0, cn);
                crate::utils::lemma_below_bounded(keys, 0x1_0000_0000);
                assert forall|b: BlockId, j: int|
                    reaches(&before, e, b) && 0 <= j < before.blocks.at(b.0 as nat).0@.len() implies (
                    #[trigger] before.blocks.at(b.0 as nat).0@[j] matches Instruction::Store(_, v) ==> keys.contains(
                        v.variable_id.0 as int,
                    )) by {
                    assert(reaches(&p0, e, b));
                    assert(block_ok(&p0, b));
                    assert(before.blocks@[b.0 as int] == p0.blocks@[b.0 as int]);
                    assert(p0.blocks.at(b.0 as nat).0@[j] == before.blocks.at(b.0 as nat).0@[j]);
                    assert(p0.blocks.has(b.0 as nat));
                    if let Instruction::Store(_, v) = before.blocks.at(b.0 as nat).0@[j] {
                        assert(body_reaches(&p0, cn, b));
                        assert(crate::insert_alloca_load::is_store_to(p0.blocks.at(b.0 as nat).0@[j], v.variable_id.0));
                        assert(stores_var(p0.blocks.at(b.0 as nat).0@, ((v.variable_id.0) as int) as u32));
                    }
                }
                assert forall|i: int| 0 <= i < input_vars@.len() implies keys.contains(
                    (#[trigger] input_vars@[i]).0.0 as int,
                ) by {
                    assert(input_vars@[i].0 == p0.callables.at(cn).input_vars@[i]);
                    assert(p0.callables.at(cn).input_vars@[i].0 == input_vars@[i].0.0 as int);
                }
                assert(reach_set(&before, e) =~= reach_set(&p0, e));
                assert(body_phi_budget(&p0, cn) == reach_set(&p0, e).len() * keys.len());
            }
            transform_body_to_ssa(program, e, &input_vars, preds, &mut next_var_id, Ghost(body_vars(&p0, cn)));
        }
        proof {
            let after = *program;
            let na = next_var_id.0 as nat;
            let old_progs = progs;
            let old_nexts = nexts;
            progs = progs.push(after);
            nexts = nexts.push(na);
            let ids_t1 = key_nats.take(t + 1);
            assert(ids_t1.drop_last() =~= ids_t);
            assert(ids_t1[t as int] == cn);
            assert(ssa_chain_step(&p0, *preds, cn, before, after, nb, na));
            assert forall|u: int| 0 <= u < ids_t1.len() implies #[trigger] ssa_chain_step(
                &p0,
                *preds,
                ids_t1[u],
                progs[u],
                progs[u + 1],
                nexts[u],
                nexts[u + 1],
            ) by {
                if u < t {
                    assert(ids_t1[u] == ids_t[u]);
                    assert(progs[u] == old_progs[u]);
                    assert(progs[u + 1] == old_progs[u + 1]);
                    assert(nexts[u] == old_nexts[u]);
                    assert(nexts[u + 1] == old_nexts[u + 1]);
                } else {
                    assert(progs[u] == before);
                    assert(nexts[u] == nb);
                }
            }
            match body {
                None => {
                    assert forall|k: int|
                        0 <= k < bslots && !reached_from_bodies(&p0, ids_t1, k) implies #[trigger] after.blocks@[k]
                            == p0.blocks@[k] by {
                        if reached_from_bodies(&p0, ids_t, k) {
                            let i = choose|i: int|
                                0 <= i < ids_t.len() && #[trigger] body_reaches(&p0, ids_t[i], BlockId(k as u32));
                            assert(ids_t1[i] == ids_t[i]);
                        }
                    }
                    assert forall|k: nat, j: int|
                        k < bslots && reached_from_bodies(&p0, ids_t1, k as int) && 0 <= j < after.blocks.at(k).0@.len()
                            implies !(#[trigger] after.blocks.at(k).0@[j] is Store) by {
                        let i = choose|i: int|
                            0 <= i < ids_t1.len() && #[trigger] body_reaches(&p0, ids_t1[i], BlockId((k as int) as u32));
                        assert(i != t);
                        assert(ids_t[i] == ids_t1[i]);
                        assert(reached_from_bodies(&p0, ids_t, k as int));
                    }
                    assert(next_var_id.0 <= n0 + phi_budget_of(&p0, ids_t1));
                },
                Some(e) => {
                    assert forall|k: int|
                        0 <= k < bslots && !reached_from_bodies(&p0, ids_t1, k) implies #[trigger] after.blocks@[k]
                            == p0.blocks@[k] by {
                        if reached_from_bodies(&p0, ids_t, k) {
                            let i = choose|i: int|
                                0 <= i < ids_t.len() && #[trigger] body_reaches(&p0, ids_t[i], BlockId(k as u32));
                            assert(ids_t1[i] == ids_t[i]);
                        }
                        if reaches(&before, e, BlockId(k as u32)) {
                            assert(reaches(&p0, e, BlockId(k as u32)));
                            assert(body_reaches(&p0, ids_t1[t as int], BlockId(k as u32)));
                        }
                    }
                    assert forall|k: nat, j: int|
                        k < bslots && reached_from_bodies(&p0, ids_t1, k as int) && 0 <= j < after.blocks.at(k).0@.len()
                            implies !(#[trigger] after.blocks.at(k).0@[j] is Store) by {
                        let b = BlockId((k as int) as u32);
                        let i = choose|i: int| 0 <= i < ids_t1.len() && #[trigger] body_reaches(&p0, ids_t1[i], b);
                        assert(b.0 as nat == k);
                        if i == t {
                            assert(reaches(&p0, e, b));
                            assert(reaches(&before, e, b));
                            assert(after.blocks.at(b.0 as nat).0@[j] == after.blocks.at(k).0@[j]);
                        } else {
                            assert(ids_t[i] == ids_t1[i]);
                            assert(reached_from_bodies(&p0, ids_t, k as int));
                            assert(!reaches(&p0, e, b)) by {
                                if reaches(&p0, e, b) {
                                    assert(body_reaches(&p0, cn, b));
                                    assert(ids_t1[i] < ids_t1[t as int]);
                                }
                            }
                            assert(!reaches(&before, e, b));
                            assert(after.blocks@[k as int] == before.blocks@[k as int]);
                            assert(before.blocks.at(k).0@[j] == after.blocks.at(k).0@[j]);
                        }
                    }
                    assert(reach_set(&before, e) =~= reach_set(&p0, e));
                    assert(next_var_id.0 <= n0 + phi_budget_of(&p0, ids_t1));
                },
            }
        }
    }
    proof {
        assert(key_nats.take(ids@.len() as int) =~= key_nats);
        assert(ssa_chain(&p0, *preds, key_nats, progs, nexts));
        assert(is_first_free_variable(&p0, nexts[0]));
    }
}

} // verus!
