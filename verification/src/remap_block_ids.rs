//! Renumbering of blocks: the blocks reachable from the callable bodies get the ids
//! `0..n` in the order of a breadth-first walk, which is a topological order when the
//! control flow has no cycle.
use crate::fx::PositionMap;
use crate::index_map::{slots_insert, IndexMap};
use crate::insert_alloca_load::{body_of, body_reaches, reached_from_bodies};
use crate::rir::{Block, BlockId, Callable, CallableId, Instruction, Operand, Program};
use crate::utils::{
    all_blocks_nonempty, block_ok, block_successors, closed_from, edge, get_all_block_successors,
    get_block_successors, has_cycle, lemma_closed_set_holds_reachable, lemma_distinct_ids_bounded,
    lemma_filter_take_push, lemma_has_in_key_seq, lemma_key_seq_has, lemma_reach_step, not_in, reach_n, reaches,
    reaches_strict,
};
use std::collections::VecDeque;
use vstd::prelude::*;

verus! {

/// Whether every block is non-empty and names only present blocks as successors.
pub open spec fn successors_present(p: &Program) -> bool {
    &&& all_blocks_nonempty(p)
    &&& forall|k: nat, c: BlockId|
        #![trigger p.blocks.has(k), block_successors(p.blocks.at(k)).contains(c)]
        p.blocks.has(k) && block_successors(p.blocks.at(k)).contains(c) ==> p.blocks.has(c.0 as nat)
}

/// When successors are present, every present block reaches only present, non-empty blocks.
pub proof fn lemma_closed_everywhere(p: &Program, a: BlockId)
    requires
        successors_present(p),
        p.blocks.has(a.0 as nat),
    ensures
        closed_from(p, a),
{
    assert forall|b: BlockId| reaches(p, a, b) implies block_ok(p, b) by {
        let n = choose|n: nat| reach_n(p, a, b, n);
        lemma_present_along(p, a, b, n);
    }
}

proof fn lemma_present_along(p: &Program, a: BlockId, b: BlockId, n: nat)
    requires
        successors_present(p),
        p.blocks.has(a.0 as nat),
        reach_n(p, a, b, n),
    ensures
        block_ok(p, b),
    decreases n,
{
    if n == 0 {
        assert(p.blocks.at(a.0 as nat).0@.len() > 0);
    } else {
        let c = choose|c: BlockId| #[trigger] edge(p, a, c) && reach_n(p, c, b, (n - 1) as nat);
        assert(block_successors(p.blocks.at(a.0 as nat)).contains(c));
        lemma_present_along(p, c, b, (n - 1) as nat);
    }
}

/// Whether the program has no cycle, asked of every block in turn.
fn check_acyclic(program: &Program) -> (r: bool)
    requires
        program.well_formed(),
        successors_present(program),
    ensures
        r == !has_cycle(program),
{
    let keys = program.blocks.keys();
    let ghost key_nats = program.blocks.key_seq();
    for ki in 0..keys.len()
        invariant
            program.well_formed(),
            successors_present(program),
            keys@.map_values(|k: BlockId| k.0 as nat) == key_nats,
            key_nats == program.blocks.key_seq(),
            forall|t: int| 0 <= t < ki ==> !reaches_strict(program, #[trigger] keys@[t], keys@[t]),
    {
        let block_id = keys[ki];
        proof {
            assert(key_nats[ki as int] == block_id.0 as nat);
            lemma_key_seq_has(program.blocks, ki as int);
            lemma_closed_everywhere(program, block_id);
        }
        let succs = get_all_block_successors(block_id, program);
        let mut found = false;
        for j in 0..succs.len()
            invariant
                found <==> exists|i: int| 0 <= i < j && succs@[i] == block_id,
        {
            if succs[j] == block_id {
                found = true;
            }
        }
        if found {
            proof {
                assert(succs@.contains(block_id));
                assert(has_cycle(program));
            }
            return false;
        }
        proof {
            assert(!succs@.contains(block_id));
        }
    }
    proof {
        assert forall|b: BlockId| program.blocks.has(b.0 as nat) implies !reaches_strict(program, b, b) by {
            lemma_has_in_key_seq(program.blocks, b.0 as nat);
            let t = choose|t: int| 0 <= t < key_nats.len() && key_nats[t] == b.0 as nat;
            assert(keys@[t].0 == b.0);
            assert(keys@[t] == b);
        }
    }
    true
}

/// Whether no block reaches itself.
pub open spec fn no_cycle(p: &Program) -> bool {
    !has_cycle(p)
}

/// The test for not being the block `b`.
pub open spec fn not_block(b: BlockId) -> spec_fn(BlockId) -> bool {
    |x: BlockId| x != b
}

/// Whether `x` comes before `y` in `s`.
pub open spec fn before(s: Seq<BlockId>, x: BlockId, y: BlockId) -> bool {
    exists|i: int, j: int| 0 <= i < j < s.len() && s[i] == x && s[j] == y
}

/// One step of the walk that orders blocks, over (blocks in order, queue). The front of the
/// queue is taken. Without cycles it moves to the end of the order; with cycles it is added
/// at the end unless it is already ordered, in which case the step ends. Its successors then
/// go to the back of the queue, leaving it elsewhere, unless they already end the queue in
/// that order.
pub open spec fn order_step(p: &Program, acyclic: bool, st: (Seq<BlockId>, Seq<BlockId>)) -> (
    Seq<BlockId>,
    Seq<BlockId>,
) {
    let order = st.0;
    let queue = st.1;
    if queue.len() == 0 {
        st
    } else {
        let b = queue[0];
        let rest = queue.drop_first();
        if !acyclic && order.contains(b) {
            (order, rest)
        } else {
            let order2 = if acyclic {
                order.filter(not_block(b)).push(b)
            } else {
                order.push(b)
            };
            let succs = block_successors(p.blocks.at(b.0 as nat));
            if rest.len() >= succs.len() && rest.skip(rest.len() - succs.len()) == succs {
                (order2, rest)
            } else {
                (order2, rest.filter(not_in(succs)) + succs)
            }
        }
    }
}

/// The walk after `n` steps from the order `order0` and a queue holding `entry` alone.
pub open spec fn order_walk(p: &Program, acyclic: bool, order0: Seq<BlockId>, entry: BlockId, n: nat) -> (
    Seq<BlockId>,
    Seq<BlockId>,
)
    decreases n,
{
    if n == 0 {
        (order0, seq![entry])
    } else {
        order_step(p, acyclic, order_walk(p, acyclic, order0, entry, (n - 1) as nat))
    }
}

/// Whether the walk from `entry`, started on the order `order0`, ends with its queue empty
/// and the order `order1`.
pub open spec fn walk_ends_at(
    p: &Program,
    acyclic: bool,
    order0: Seq<BlockId>,
    entry: BlockId,
    order1: Seq<BlockId>,
) -> bool {
    exists|n: nat|
        #[trigger] order_walk(p, acyclic, order0, entry, n).1.len() == 0 && order_walk(
            p,
            acyclic,
            order0,
            entry,
            n,
        ).0 == order1
}

/// What the walks of the bodies do to the order, callable by callable.
pub open spec fn order_chain_step(p: &Program, acyclic: bool, c: nat, o0: Seq<BlockId>, o1: Seq<BlockId>) -> bool {
    match body_of(p, c) {
        Some(e) => walk_ends_at(p, acyclic, o0, e, o1),
        None => o1 == o0,
    }
}

/// Whether `orders` records the walks over the bodies of the callables `ids`, one after the
/// other, from an empty order.
pub open spec fn block_order_chain(p: &Program, acyclic: bool, ids: Seq<nat>, orders: Seq<Seq<BlockId>>) -> bool {
    &&& orders.len() == ids.len() + 1
    &&& orders[0] == Seq::<BlockId>::empty()
    &&& forall|t: int|
        0 <= t < ids.len() ==> #[trigger] order_chain_step(p, acyclic, ids[t], orders[t], orders[t + 1])
}

/// What holds of the order and the queue while blocks are ordered: the order lists present
/// blocks once each, the successors of ordered blocks are ordered or queued, and, without
/// cycles, each such successor not queued comes later in the order.
pub open spec fn walk_inv(p: &Program, acyclic: bool, order: Seq<BlockId>, queue: Seq<BlockId>) -> bool {
    &&& order.no_duplicates()
    &&& forall|x: BlockId| #[trigger] order.contains(x) ==> block_ok(p, x)
    &&& forall|x: BlockId| #[trigger] queue.contains(x) ==> block_ok(p, x)
    &&& forall|x: BlockId, y: BlockId|
        order.contains(x) && #[trigger] edge(p, x, y) ==> order.contains(y) || queue.contains(y)
    &&& acyclic ==> forall|x: BlockId, y: BlockId|
        order.contains(x) && #[trigger] edge(p, x, y) ==> queue.contains(y) || before(order, x, y)
}

/// A filter keeps a sequence free of duplicates.
proof fn lemma_filter_no_dups(s: Seq<BlockId>, f: spec_fn(BlockId) -> bool)
    requires
        s.no_duplicates(),
    ensures
        s.filter(f).no_duplicates(),
    decreases s.len(),
{
    reveal_with_fuel(Seq::<_>::filter, 1);
    if s.len() > 0 {
        let d = s.drop_last();
        lemma_filter_no_dups(d, f);
        if f(s.last()) {
            if d.filter(f).contains(s.last()) {
                d.lemma_filter_contains_rev(f, s.last());
                let i = choose|i: int| 0 <= i < d.len() && d[i] == s.last();
                assert(s[i] == s[s.len() - 1]);
            }
        }
    }
}

/// A filter keeps the relative order of what it keeps.
proof fn lemma_filter_before(s: Seq<BlockId>, f: spec_fn(BlockId) -> bool, x: BlockId, y: BlockId)
    requires
        before(s, x, y),
        f(x),
        f(y),
    ensures
        before(s.filter(f), x, y),
    decreases s.len(),
{
    reveal_with_fuel(Seq::<_>::filter, 1);
    let d = s.drop_last();
    let (i, j) = choose|i: int, j: int| 0 <= i < j < s.len() && s[i] == x && s[j] == y;
    if j == s.len() - 1 {
        assert(d[i] == x);
        d.lemma_filter_contains(f, i);
        let fd = d.filter(f);
        let k = choose|k: int| 0 <= k < fd.len() && fd[k] == x;
        assert(s.filter(f) == fd.push(y));
        assert(s.filter(f)[k] == x && s.filter(f)[fd.len() as int] == y);
    } else {
        assert(d[i] == x && d[j] == y);
        lemma_filter_before(d, f, x, y);
        let fd = d.filter(f);
        let (a, b) = choose|a: int, b: int| 0 <= a < b < fd.len() && fd[a] == x && fd[b] == y;
        if f(s.last()) {
            assert(s.filter(f)[a] == x && s.filter(f)[b] == y);
        }
    }
}

/// The weight `3^n` given to a queued block that reaches `n` blocks.
pub open spec fn weight(n: nat) -> nat
    decreases n,
{
    if n == 0 {
        1
    } else {
        3 * weight((n - 1) as nat)
    }
}

proof fn lemma_weight_mono(m: nat, n: nat)
    requires
        m <= n,
    ensures
        1 <= weight(m) <= weight(n),
    decreases n,
{
    if n > m {
        lemma_weight_mono(m, (n - 1) as nat);
    } else if n > 0 {
        lemma_weight_mono(0, (n - 1) as nat);
    }
}

/// How many of the blocks numbered below `k` can be reached from `x` by one or more edges.
pub open spec fn reach_count(p: &Program, x: BlockId, k: nat) -> nat
    decreases k,
{
    if k == 0 {
        0
    } else {
        reach_count(p, x, (k - 1) as nat) + if reaches_strict(p, x, BlockId((k - 1) as u32)) {
            1nat
        } else {
            0nat
        }
    }
}

/// The weight of a queue: the sum of the weights of its blocks.
pub open spec fn queue_weight(p: &Program, q: Seq<BlockId>) -> nat
    decreases q.len(),
{
    if q.len() == 0 {
        0
    } else {
        queue_weight(p, q.drop_last()) + weight(reach_count(p, q.last(), p.blocks@.len()))
    }
}

proof fn lemma_queue_weight_add(p: &Program, a: Seq<BlockId>, b: Seq<BlockId>)
    ensures
        queue_weight(p, a + b) == queue_weight(p, a) + queue_weight(p, b),
    decreases b.len(),
{
    if b.len() == 0 {
        assert(a + b =~= a);
    } else {
        assert((a + b).drop_last() =~= a + b.drop_last());
        lemma_queue_weight_add(p, a, b.drop_last());
    }
}

proof fn lemma_queue_weight_filter(p: &Program, q: Seq<BlockId>, f: spec_fn(BlockId) -> bool)
    ensures
        queue_weight(p, q.filter(f)) <= queue_weight(p, q),
    decreases q.len(),
{
    reveal_with_fuel(Seq::<_>::filter, 1);
    if q.len() > 0 {
        lemma_queue_weight_filter(p, q.drop_last(), f);
        if f(q.last()) {
            assert(q.filter(f).drop_last() =~= q.drop_last().filter(f));
        }
    }
}

proof fn lemma_queue_weight_front(p: &Program, q: Seq<BlockId>)
    requires
        q.len() > 0,
    ensures
        queue_weight(p, q) == weight(reach_count(p, q[0], p.blocks@.len())) + queue_weight(p, q.drop_first()),
{
    let one = seq![q[0]];
    assert(q =~= one + q.drop_first());
    lemma_queue_weight_add(p, one, q.drop_first());
    assert(one.drop_last() =~= Seq::<BlockId>::empty());
    assert(queue_weight(p, one.drop_last()) == 0);
    assert(one.last() == q[0]);
}

/// Without cycles, a successor reaches fewer blocks than its predecessor.
proof fn lemma_reach_count_edge(p: &Program, b: BlockId, c: BlockId, k: nat)
    requires
        edge(p, b, c),
        !has_cycle(p),
        p.blocks.has(c.0 as nat),
    ensures
        reach_count(p, c, k) <= reach_count(p, b, k),
        c.0 < k ==> reach_count(p, c, k) < reach_count(p, b, k),
    decreases k,
{
    if k > 0 {
        lemma_reach_count_edge(p, b, c, (k - 1) as nat);
        let y = BlockId((k - 1) as u32);
        if reaches_strict(p, c, y) {
            let n = choose|n: nat| n > 0 && reach_n(p, c, y, n);
            assert(edge(p, b, c) && reach_n(p, c, y, n));
            assert(reach_n(p, b, y, n + 1));
        }
        if c.0 == k - 1 {
            assert(y == c);
            assert(reach_n(p, c, c, 0));
            assert(reach_n(p, b, c, 1));
            assert(!reaches_strict(p, c, c));
        }
    }
}

/// The weight of the successors of `b` is below the weight of `b`.
proof fn lemma_successors_weight(p: &Program, b: BlockId)
    requires
        successors_present(p),
        p.blocks.has(b.0 as nat),
        !has_cycle(p),
    ensures
        queue_weight(p, block_successors(p.blocks.at(b.0 as nat))) < weight(
            reach_count(p, b, p.blocks@.len()),
        ),
{
    let succs = block_successors(p.blocks.at(b.0 as nat));
    let n = p.blocks@.len();
    let wb = reach_count(p, b, n);
    assert forall|i: int| 0 <= i < succs.len() implies reach_count(p, #[trigger] succs[i], n) < wb
        && weight(reach_count(p, succs[i], n)) * 3 <= weight(wb) by {
        assert(succs.contains(succs[i]));
        assert(edge(p, b, succs[i]));
        assert(p.blocks.has(succs[i].0 as nat));
        lemma_reach_count_edge(p, b, succs[i], n);
        lemma_weight_mono(reach_count(p, succs[i], n), (wb - 1) as nat);
    }
    lemma_weight_mono(0, wb);
    assert(succs.len() <= 2);
    if succs.len() == 1 {
        assert(succs.drop_last() =~= Seq::<BlockId>::empty());
        assert(queue_weight(p, succs.drop_last()) == 0);
        assert(queue_weight(p, succs) == weight(reach_count(p, succs[0], n)));
    } else if succs.len() == 2 {
        let d = succs.drop_last();
        assert(d.drop_last() =~= Seq::<BlockId>::empty());
        assert(queue_weight(p, d.drop_last()) == 0);
        assert(d.last() == succs[0]);
        assert(queue_weight(p, d) == weight(reach_count(p, succs[0], n)));
        assert(queue_weight(p, succs) == weight(reach_count(p, succs[0], n)) + weight(
            reach_count(p, succs[1], n),
        ));
    } else {
        assert(succs.len() == 0);
    }
}

/// Whether `order` holds `b`.
fn order_contains(order: &Vec<BlockId>, b: BlockId) -> (r: bool)
    ensures
        r == order@.contains(b),
{
    for i in 0..order.len()
        invariant
            forall|j: int| 0 <= j < i ==> order@[j] != b,
    {
        if order[i] == b {
            return true;
        }
    }
    false
}

/// Drops `b` from `order`.
fn remove_block(order: &mut Vec<BlockId>, b: BlockId)
    ensures
        final(order)@ == old(order)@.filter(not_block(b)),
{
    let mut kept: Vec<BlockId> = Vec::new();
    for i in 0..order.len()
        invariant
            kept@ == order@.take(i as int).filter(not_block(b)),
    {
        proof {
            lemma_filter_take_push(order@, not_block(b), i as int);
        }
        if order[i] != b {
            kept.push(order[i]);
        }
    }
    proof {
        assert(order@.take(order@.len() as int) =~= order@);
    }
    *order = kept;
}

/// Whether `queue` ends with `succs`, in that order.
fn queue_ends_with(queue: &VecDeque<BlockId>, succs: &Vec<BlockId>) -> (r: bool)
    ensures
        r == (queue@.len() >= succs@.len() && queue@.skip(queue@.len() - succs@.len()) == succs@),
{
    if queue.len() < succs.len() {
        return false;
    }
    let off = queue.len() - succs.len();
    for i in 0..succs.len()
        invariant
            off + succs.len() == queue.len(),
            forall|j: int| 0 <= j < i ==> queue@[off + j] == succs@[j],
    {
        if queue[off + i] != succs[i] {
            proof {
                assert(queue@.skip(off as int)[i as int] != succs@[i as int]);
            }
            return false;
        }
    }
    proof {
        assert(queue@.skip(off as int) =~= succs@);
    }
    true
}

/// Drops the blocks of `succs` from `queue`.
fn remove_queued(queue: &mut VecDeque<BlockId>, succs: &Vec<BlockId>)
    ensures
        final(queue)@ == old(queue)@.filter(not_in(succs@)),
{
    let mut kept: VecDeque<BlockId> = VecDeque::new();
    for i in 0..queue.len()
        invariant
            kept@ == queue@.take(i as int).filter(not_in(succs@)),
    {
        proof {
            lemma_filter_take_push(queue@, not_in(succs@), i as int);
        }
        let x = queue[i];
        if !order_contains(succs, x) {
            kept.push_back(x);
        }
    }
    proof {
        assert(queue@.take(queue@.len() as int) =~= queue@);
    }
    *queue = kept;
}

/// Walks the blocks reachable from `entry` breadth first and places them in `order`: without
/// cycles each block moves to the end whenever it is reached again, so that it follows every
/// block that reaches it; with cycles each block is placed once, when first reached.
fn order_callable_blocks(program: &Program, acyclic: bool, order: &mut Vec<BlockId>, entry: BlockId)
    requires
        program.well_formed(),
        successors_present(program),
        program.blocks.has(entry.0 as nat),
        acyclic == !has_cycle(program),
        walk_inv(program, acyclic, old(order)@, Seq::empty()),
    ensures
        walk_inv(program, acyclic, final(order)@, Seq::empty()),
        walk_ends_at(program, acyclic, old(order)@, entry, final(order)@),
        final(order)@.contains(entry),
        forall|x: BlockId| #[trigger] old(order)@.contains(x) ==> final(order)@.contains(x),
{
    let ghost o0 = order@;
    let ghost slots = program.blocks@.len();
    let mut queue: VecDeque<BlockId> = VecDeque::new();
    queue.push_back(entry);
    let ghost mut steps: nat = 0;
    proof {
        assert(queue@ =~= seq![entry]);
        assert(block_ok(program, entry));
        assert forall|x: BlockId| #[trigger] queue@.contains(x) implies block_ok(program, x) by {
            assert(queue@[0] == x);
        }
        assert(queue@[0] == entry);
    }
    while queue.len() > 0
        invariant
            program.well_formed(),
            successors_present(program),
            acyclic == !has_cycle(program),
            slots == program.blocks@.len(),
            walk_inv(program, acyclic, order@, queue@),
            order_walk(program, acyclic, o0, entry, steps) == (order@, queue@),
            order@.contains(entry) || queue@.contains(entry),
            forall|x: BlockId| #[trigger] o0.contains(x) ==> order@.contains(x),
        decreases (if acyclic {
            queue_weight(program, queue@) as int
        } else {
            3 * (slots - order@.len()) + queue@.len()
        }),
    {
        let ghost q = queue@;
        let ghost o = order@;
        let b = queue.pop_front().unwrap();
        let ghost rest = queue@;
        proof {
            assert(rest =~= q.drop_first());
            assert(q.contains(b));
            assert(block_ok(program, b));
            assert forall|x: BlockId| #[trigger] q.contains(x) && x != b implies rest.contains(x) by {
                let i = choose|i: int| 0 <= i < q.len() && q[i] == x;
                assert(i != 0);
                assert(rest[i - 1] == x);
            }
            assert forall|x: BlockId| #[trigger] rest.contains(x) implies q.contains(x) by {
                let i = choose|i: int| 0 <= i < rest.len() && rest[i] == x;
                assert(q[i + 1] == x);
            }
            if acyclic {
                lemma_queue_weight_front(program, q);
            }
            assert forall|i: int| 0 <= i < o.len() implies (#[trigger] o[i]).0 < slots by {
                assert(o.contains(o[i]));
            }
            lemma_distinct_ids_bounded(o, slots);
        }
        if acyclic {
            remove_block(order, b);
        } else if order_contains(order, b) {
            proof {
                assert(order_step(program, acyclic, (o, q)) == (o, rest));
                steps = steps + 1;
            }
            continue;
        }
        let ghost filtered = order@;
        order.push(b);
        let ghost o2 = order@;
        proof {
            if acyclic {
                lemma_filter_no_dups(o, not_block(b));
                if filtered.contains(b) {
                    o.lemma_filter_pred(not_block(b), choose|i: int| 0 <= i < filtered.len() && filtered[i] == b);
                    assert(false);
                }
            } else {
                assert(filtered == o);
            }
            assert(o2.no_duplicates()) by {
                assert forall|i: int, j: int| 0 <= i < o2.len() && 0 <= j < o2.len() && i != j implies o2[i] != o2[j] by {
                    if i < filtered.len() && j < filtered.len() {
                        assert(o2[i] == filtered[i] && o2[j] == filtered[j]);
                    } else if i == filtered.len() {
                        assert(filtered.contains(o2[j]));
                    } else {
                        assert(filtered.contains(o2[i]));
                    }
                }
            }
            assert forall|x: BlockId| #[trigger] o.contains(x) && x != b implies filtered.contains(x) by {
                if acyclic {
                    let i = choose|i: int| 0 <= i < o.len() && o[i] == x;
                    o.lemma_filter_contains(not_block(b), i);
                }
            }
            assert forall|x: BlockId| #[trigger] filtered.contains(x) implies o.contains(x) by {
                if acyclic {
                    o.lemma_filter_contains_rev(not_block(b), x);
                }
            }
            assert forall|x: BlockId| #[trigger] o2.contains(x) <==> (filtered.contains(x) || x == b) by {
                if o2.contains(x) && x != b {
                    let i = choose|i: int| 0 <= i < o2.len() && o2[i] == x;
                    assert(i < filtered.len());
                    assert(filtered[i] == x);
                }
                if filtered.contains(x) {
                    let i = choose|i: int| 0 <= i < filtered.len() && filtered[i] == x;
                    assert(o2[i] == x);
                }
                if x == b {
                    assert(o2[o2.len() - 1] == b);
                }
            }
        }
        let succs = get_block_successors(program.get_block(b));
        let ghost sq = succs@;
        proof {
            assert forall|y: BlockId| #[trigger] sq.contains(y) implies block_ok(program, y) by {
                assert(block_successors(program.blocks.at(b.0 as nat)).contains(y));
                assert(program.blocks.has(y.0 as nat));
            }
            assert forall|y: BlockId| #[trigger] edge(program, b, y) <==> sq.contains(y) by {}
            if acyclic {
                lemma_successors_weight(program, b);
                lemma_weight_mono(0, reach_count(program, b, slots));
            }
            assert forall|i: int| 0 <= i < o2.len() implies (#[trigger] o2[i]).0 < slots by {
                assert(o2.contains(o2[i]));
                if o2[i] != b {
                    assert(filtered.contains(o2[i]));
                    assert(o.contains(o2[i]));
                }
            }
            lemma_distinct_ids_bounded(o2, slots);
            assert(sq.len() <= 2);
        }
        if queue_ends_with(&queue, &succs) {
            proof {
                assert(order_step(program, acyclic, (o, q)) == (o2, rest));
                steps = steps + 1;
                assert forall|y: BlockId| #[trigger] sq.contains(y) implies rest.contains(y) by {
                    let i = choose|i: int| 0 <= i < sq.len() && sq[i] == y;
                    assert(rest.skip(rest.len() - sq.len())[i] == y);
                    assert(rest[rest.len() - sq.len() + i] == y);
                }
                lemma_order_step_keeps(program, acyclic, o, q, b, filtered, o2, rest, sq, rest);
            }
            continue;
        }
        remove_queued(&mut queue, &succs);
        let ghost kept = queue@;
        for i in 0..succs.len()
            invariant
                queue@ == kept + sq.take(i as int),
                sq == succs@,
        {
            queue.push_back(succs[i]);
            proof {
                assert(sq.take(i + 1) =~= sq.take(i as int).push(sq[i as int]));
            }
        }
        proof {
            assert(sq.take(sq.len() as int) =~= sq);
            let q2 = queue@;
            assert(q2 == kept + sq);
            assert(kept == rest.filter(not_in(sq)));
            rest.lemma_filter_len(not_in(sq));
            assert(order_step(program, acyclic, (o, q)) == (o2, q2));
            steps = steps + 1;
            assert forall|y: BlockId| #[trigger] sq.contains(y) implies q2.contains(y) by {
                let i = choose|i: int| 0 <= i < sq.len() && sq[i] == y;
                assert(q2[kept.len() + i] == y);
            }
            assert forall|y: BlockId| #[trigger] rest.contains(y) implies q2.contains(y) by {
                if !sq.contains(y) {
                    let i = choose|i: int| 0 <= i < rest.len() && rest[i] == y;
                    rest.lemma_filter_contains(not_in(sq), i);
                    let k = choose|k: int| 0 <= k < kept.len() && kept[k] == y;
                    assert(q2[k] == y);
                }
            }
            assert forall|y: BlockId| #[trigger] q2.contains(y) implies rest.contains(y) || sq.contains(y) by {
                let i = choose|i: int| 0 <= i < q2.len() && q2[i] == y;
                if i < kept.len() {
                    assert(kept.contains(y));
                    rest.lemma_filter_contains_rev(not_in(sq), y);
                } else {
                    assert(sq[i - kept.len()] == y);
                }
            }
            if acyclic {
                lemma_queue_weight_add(program, rest.filter(not_in(sq)), sq);
                lemma_queue_weight_filter(program, rest, not_in(sq));
            }
            lemma_order_step_keeps(program, acyclic, o, q, b, filtered, o2, rest, sq, q2);
        }
    }
    proof {
        assert(queue@.len() == 0);
        assert(order_walk(program, acyclic, o0, entry, steps).1.len() == 0);
        assert(walk_ends_at(program, acyclic, o0, entry, order@));
    }
}

/// What one step of the walk keeps of `walk_inv`, stated over the pieces of the step.
proof fn lemma_order_step_keeps(
    p: &Program,
    acyclic: bool,
    o: Seq<BlockId>,
    q: Seq<BlockId>,
    b: BlockId,
    filtered: Seq<BlockId>,
    o2: Seq<BlockId>,
    rest: Seq<BlockId>,
    sq: Seq<BlockId>,
    q2: Seq<BlockId>,
)
    requires
        walk_inv(p, acyclic, o, q),
        q.len() > 0,
        b == q[0],
        block_ok(p, b),
        acyclic ==> filtered == o.filter(not_block(b)),
        !acyclic ==> filtered == o,
        o2 == filtered.push(b),
        o2.no_duplicates(),
        forall|x: BlockId| #[trigger] o.contains(x) && x != b ==> filtered.contains(x),
        forall|x: BlockId| #[trigger] filtered.contains(x) ==> o.contains(x),
        forall|x: BlockId| #[trigger] o2.contains(x) <==> (filtered.contains(x) || x == b),
        forall|x: BlockId| #[trigger] q.contains(x) && x != b ==> rest.contains(x),
        forall|x: BlockId| #[trigger] rest.contains(x) ==> q.contains(x),
        forall|y: BlockId| #[trigger] edge(p, b, y) <==> sq.contains(y),
        forall|y: BlockId| #[trigger] sq.contains(y) ==> block_ok(p, y),
        forall|y: BlockId| #[trigger] sq.contains(y) ==> q2.contains(y),
        forall|y: BlockId| #[trigger] rest.contains(y) ==> q2.contains(y),
        forall|y: BlockId| #[trigger] q2.contains(y) ==> rest.contains(y) || sq.contains(y),
    ensures
        walk_inv(p, acyclic, o2, q2),
        forall|x: BlockId| #[trigger] o.contains(x) ==> o2.contains(x),
        o.contains(b) || q.contains(b) ==> o2.contains(b),
        forall|x: BlockId| #[trigger] q.contains(x) ==> o2.contains(x) || q2.contains(x),
{
    assert(q.contains(b)) by {
        assert(q[0] == b);
    }
    assert forall|x: BlockId| #[trigger] o2.contains(x) implies block_ok(p, x) by {
        if x != b {
            assert(o.contains(x));
        }
    }
    assert forall|x: BlockId| #[trigger] q2.contains(x) implies block_ok(p, x) by {
        if !sq.contains(x) {
            assert(rest.contains(x));
            assert(q.contains(x));
        }
    }
    assert forall|x: BlockId, y: BlockId| o2.contains(x) && #[trigger] edge(p, x, y) implies o2.contains(y)
        || q2.contains(y) by {
        if x == b {
            assert(sq.contains(y));
        } else {
            assert(o.contains(x));
            if o.contains(y) && y != b {
                assert(filtered.contains(y));
            } else if q.contains(y) && y != b {
                assert(rest.contains(y));
            }
        }
    }
    if acyclic {
        assert forall|x: BlockId, y: BlockId| o2.contains(x) && #[trigger] edge(p, x, y) implies q2.contains(y)
            || before(o2, x, y) by {
            if x == b {
                assert(sq.contains(y));
            } else {
                assert(o.contains(x));
                assert(filtered.contains(x));
                let i = choose|i: int| 0 <= i < filtered.len() && filtered[i] == x;
                if y == b {
                    assert(o2[i] == x && o2[filtered.len() as int] == b);
                } else if q.contains(y) {
                    assert(rest.contains(y));
                } else {
                    assert(before(o, x, y));
                    lemma_filter_before(o, not_block(b), x, y);
                    let (a, c) = choose|a: int, c: int| 0 <= a < c < filtered.len() && filtered[a] == x && filtered[c] == y;
                    assert(o2[a] == x && o2[c] == y);
                }
            }
        }
    }
}

/// The position of `b` in `order` (meaningful when `order` holds `b`).
pub open spec fn rank(order: Seq<BlockId>, b: BlockId) -> int {
    choose|i: int| 0 <= i < order.len() && order[i] == b
}

/// The new id of block `b`: its position in `order`.
pub open spec fn renumber(order: Seq<BlockId>, b: BlockId) -> BlockId {
    BlockId(rank(order, b) as u32)
}

/// A phi argument with its block renumbered.
pub open spec fn phi_renumberer(order: Seq<BlockId>) -> spec_fn((Operand, BlockId)) -> (Operand, BlockId) {
    |a: (Operand, BlockId)| (a.0, renumber(order, a.1))
}

/// Whether the instructions up to position `j` of `s` are all phi nodes.
pub open spec fn leading_phi(s: Seq<Instruction>, j: int) -> bool {
    forall|k: int| 0 <= k <= j ==> #[trigger] s[k] is Phi
}

/// Whether `out` is instruction `j` of `s` with its blocks renumbered: the arguments of a phi
/// node among those that open the block, and the targets of the jump or branch that ends it.
pub open spec fn instr_renumbered(order: Seq<BlockId>, s: Seq<Instruction>, j: int, out: Instruction) -> bool {
    if leading_phi(s, j) {
        match s[j] {
            Instruction::Phi(args, v) => match out {
                Instruction::Phi(args2, v2) => v2 == v && args2@ == args@.map_values(phi_renumberer(order)),
                _ => false,
            },
            _ => false,
        }
    } else if j == s.len() - 1 {
        match s[j] {
            Instruction::Jump(t) => out == Instruction::Jump(renumber(order, t)),
            Instruction::Branch(c, t, f, md) => out == Instruction::Branch(
                c,
                renumber(order, t),
                renumber(order, f),
                md,
            ),
            _ => out == s[j],
        }
    } else {
        out == s[j]
    }
}

/// Whether block `b1` is block `b0` with its blocks renumbered by their position in `order`.
pub open spec fn block_renumbered(order: Seq<BlockId>, b0: Block, b1: Block) -> bool {
    &&& b1.0@.len() == b0.0@.len()
    &&& forall|j: int| 0 <= j < b0.0@.len() ==> instr_renumbered(order, b0.0@, j, #[trigger] b1.0@[j])
}

/// Whether callable `c1` is `c0` with its body renumbered by its position in `order`.
pub open spec fn callable_renumbered(order: Seq<BlockId>, c0: Callable, c1: Callable) -> bool {
    &&& c1.name == c0.name
    &&& c1.input_type == c0.input_type
    &&& c1.input_vars == c0.input_vars
    &&& c1.output_type == c0.output_type
    &&& c1.call_type == c0.call_type
    &&& c1.body == match c0.body {
        Some(e) => Some(renumber(order, e)),
        None => None,
    }
}

/// Whether `p1` is `p0` with block `order[i]` moved to id `i` for every `i`, and every
/// reference to a block renumbered to match.
pub open spec fn program_renumbered(p0: &Program, p1: &Program, order: Seq<BlockId>) -> bool {
    &&& p1.entry == p0.entry
    &&& p1.config == p0.config
    &&& p1.num_qubits == p0.num_qubits
    &&& p1.num_results == p0.num_results
    &&& p1.tags == p0.tags
    &&& p1.array_literals == p0.array_literals
    &&& p1.use_dynamic_qubit_management == p0.use_dynamic_qubit_management
    &&& p1.callables@.len() == p0.callables@.len()
    &&& forall|c: nat| #[trigger] p1.callables.has(c) == p0.callables.has(c)
    &&& forall|c: nat|
        #[trigger] p0.callables.has(c) ==> callable_renumbered(order, p0.callables.at(c), p1.callables.at(c))
    &&& p1.blocks@.len() == order.len()
    &&& forall|i: int|
        0 <= i < order.len() ==> #[trigger] p1.blocks.has(i as nat) && block_renumbered(
            order,
            p0.blocks.at(order[i].0 as nat),
            p1.blocks.at(i as nat),
        )
}

/// Whether the phi nodes that open each block name present blocks.
pub open spec fn phi_args_present(p: &Program) -> bool {
    forall|k: nat, j: int|
        #![trigger p.blocks.at(k).0@[j]]
        p.blocks.has(k) && 0 <= j < p.blocks.at(k).0@.len() && leading_phi(p.blocks.at(k).0@, j)
            ==> match p.blocks.at(k).0@[j] {
            Instruction::Phi(args, _) => forall|a: int|
                0 <= a < args@.len() ==> p.blocks.has((#[trigger] args@[a]).1.0 as nat),
            _ => true,
        }
}

/// In a sequence without duplicates, the position of an element is where it stands.
proof fn lemma_rank(order: Seq<BlockId>, i: int)
    requires
        order.no_duplicates(),
        0 <= i < order.len(),
    ensures
        rank(order, order[i]) == i,
{
    assert(order[i] == order[i]);
}

/// What `pos` holds for `order`: each block's number maps to its position.
pub open spec fn positions_of(pos: Map<u32, usize>, order: Seq<BlockId>) -> bool {
    &&& forall|k: u32| #[trigger] pos.contains_key(k) <==> order.contains(BlockId(k))
    &&& forall|i: int| 0 <= i < order.len() ==> pos[(#[trigger] order[i]).0] == i
}

/// The position of every block of `order`, by block number.
fn position_map(order: &Vec<BlockId>) -> (r: PositionMap)
    requires
        order@.no_duplicates(),
    ensures
        positions_of(r.contents(), order@),
{
    let mut pos = PositionMap::new();
    for i in 0..order.len()
        invariant
            order@.no_duplicates(),
            positions_of(pos.contents(), order@.take(i as int)),
    {
        let b = order[i];
        pos.insert(b.0, i);
        proof {
            let t = order@.take(i + 1);
            assert(t =~= order@.take(i as int).push(b));
            assert forall|k: u32| #[trigger] pos.contents().contains_key(k) <==> t.contains(BlockId(k)) by {
                if t.contains(BlockId(k)) && k != b.0 {
                    let j = choose|j: int| 0 <= j < t.len() && t[j] == BlockId(k);
                    assert(order@.take(i as int)[j] == BlockId(k));
                }
                if pos.contents().contains_key(k) && k != b.0 {
                    assert(order@.take(i as int).contains(BlockId(k)));
                    let j = choose|j: int| 0 <= j < i && order@.take(i as int)[j] == BlockId(k);
                    assert(t[j] == BlockId(k));
                }
                if k == b.0 {
                    assert(t[i as int] == BlockId(k));
                }
            }
            assert forall|j: int| 0 <= j < t.len() implies pos.contents()[(#[trigger] t[j]).0] == j by {
                if j < i {
                    assert(t[j] == order@[j]);
                    assert(order@[j] != order@[i as int]);
                    assert(order@.take(i as int)[j] == t[j]);
                }
            }
        }
    }
    proof {
        assert(order@.take(order@.len() as int) =~= order@);
    }
    pos
}

/// The new id of block `b`.
fn renumbered_id(pos: &PositionMap, b: BlockId, Ghost(order): Ghost<Seq<BlockId>>) -> (r: BlockId)
    requires
        order.no_duplicates(),
        order.len() <= u32::MAX + 1,
        positions_of(pos.contents(), order),
        order.contains(b),
    ensures
        r == renumber(order, b),
        (r.0 as int) == rank(order, b),
        0 <= rank(order, b) < order.len(),
{
    let i = pos.get(b.0).unwrap();
    proof {
        let j = choose|j: int| 0 <= j < order.len() && order[j] == b;
        assert(pos.contents()[order[j].0] == j);
        lemma_rank(order, j);
    }
    BlockId(i as u32)
}

/// The arguments of a phi node with their blocks renumbered.
fn renumber_phi_args(
    pos: &PositionMap,
    args: &Vec<(Operand, BlockId)>,
    Ghost(order): Ghost<Seq<BlockId>>,
) -> (r: Vec<(Operand, BlockId)>)
    requires
        order.no_duplicates(),
        order.len() <= u32::MAX + 1,
        positions_of(pos.contents(), order),
        forall|a: int| 0 <= a < args@.len() ==> order.contains((#[trigger] args@[a]).1),
    ensures
        r@ == args@.map_values(phi_renumberer(order)),
{
    let mut r: Vec<(Operand, BlockId)> = Vec::new();
    for i in 0..args.len()
        invariant
            order.no_duplicates(),
            order.len() <= u32::MAX + 1,
            positions_of(pos.contents(), order),
            forall|a: int| 0 <= a < args@.len() ==> order.contains((#[trigger] args@[a]).1),
            r@ == args@.take(i as int).map_values(phi_renumberer(order)),
    {
        let (op, b) = args[i];
        proof {
            assert(order.contains(args@[i as int].1));
        }
        let nb = renumbered_id(pos, b, Ghost(order));
        r.push((op, nb));
        proof {
            assert(args@.take(i + 1).map_values(phi_renumberer(order)) =~= args@.take(i as int).map_values(
                phi_renumberer(order),
            ).push((op, renumber(order, b))));
        }
    }
    proof {
        assert(args@.take(args@.len() as int) =~= args@);
    }
    r
}

/// Renumbers the blocks named by the phi nodes that open a block.
fn update_phi_nodes(pos: &PositionMap, instrs: &mut Vec<Instruction>, Ghost(order): Ghost<Seq<BlockId>>)
    requires
        order.no_duplicates(),
        order.len() <= u32::MAX + 1,
        positions_of(pos.contents(), order),
        forall|j: int|
            0 <= j < old(instrs)@.len() && leading_phi(old(instrs)@, j) ==> match #[trigger] old(instrs)@[j] {
                Instruction::Phi(args, _) => forall|a: int|
                    0 <= a < args@.len() ==> order.contains((#[trigger] args@[a]).1),
                _ => true,
            },
    ensures
        final(instrs)@.len() == old(instrs)@.len(),
        forall|j: int|
            0 <= j < old(instrs)@.len() && leading_phi(old(instrs)@, j) ==> match old(instrs)@[j] {
                Instruction::Phi(args, v) => match #[trigger] final(instrs)@[j] {
                    Instruction::Phi(args2, v2) => v2 == v && args2@ == args@.map_values(phi_renumberer(order)),
                    _ => false,
                },
                _ => false,
            },
        forall|j: int|
            0 <= j < old(instrs)@.len() && !leading_phi(old(instrs)@, j) ==> #[trigger] final(instrs)@[j]
                == old(instrs)@[j],
{
    let ghost o = instrs@;
    let mut i: usize = 0;
    let mut in_phis = true;
    while i < instrs.len() && in_phis
        invariant
            order.no_duplicates(),
            order.len() <= u32::MAX + 1,
            positions_of(pos.contents(), order),
            forall|j: int|
                0 <= j < o.len() && leading_phi(o, j) ==> match #[trigger] o[j] {
                    Instruction::Phi(args, _) => forall|a: int|
                        0 <= a < args@.len() ==> order.contains((#[trigger] args@[a]).1),
                    _ => true,
                },
            instrs@.len() == o.len(),
            i <= o.len(),
            forall|j: int| 0 <= j < i ==> #[trigger] o[j] is Phi,
            !in_phis ==> i < o.len() && !(o[i as int] is Phi),
            forall|j: int|
                0 <= j < i ==> match o[j] {
                    Instruction::Phi(args, v) => match #[trigger] instrs@[j] {
                        Instruction::Phi(args2, v2) => v2 == v && args2@ == args@.map_values(
                            phi_renumberer(order),
                        ),
                        _ => false,
                    },
                    _ => false,
                },
            forall|j: int| i <= j < o.len() ==> #[trigger] instrs@[j] == o[j],
        decreases o.len() - i, if in_phis { 1int } else { 0int },
    {
        let replacement = match &instrs[i] {
            Instruction::Phi(args, v) => {
                proof {
                    assert(leading_phi(o, i as int));
                }
                Some(Instruction::Phi(renumber_phi_args(pos, args, Ghost(order)), *v))
            },
            _ => None,
        };
        match replacement {
            Some(new_instr) => {
                instrs.set(i, new_instr);
                i = i + 1;
            },
            None => {
                in_phis = false;
            },
        }
    }
    proof {
        assert forall|j: int| 0 <= j < o.len() && leading_phi(o, j) implies j < i by {
            if j >= i {
                assert(o[i as int] is Phi);
            }
        }
        assert forall|j: int| 0 <= j < i implies leading_phi(o, j) by {}
    }
}

/// Renumbers the targets of a jump or branch.
fn update_terminator(pos: &PositionMap, instr: Instruction, Ghost(order): Ghost<Seq<BlockId>>) -> (r: Instruction)
    requires
        order.no_duplicates(),
        order.len() <= u32::MAX + 1,
        positions_of(pos.contents(), order),
        match instr {
            Instruction::Jump(t) => order.contains(t),
            Instruction::Branch(_, t, f, _) => order.contains(t) && order.contains(f),
            _ => true,
        },
    ensures
        r == match instr {
            Instruction::Jump(t) => Instruction::Jump(renumber(order, t)),
            Instruction::Branch(c, t, f, md) => Instruction::Branch(c, renumber(order, t), renumber(order, f), md),
            _ => instr,
        },
{
    match instr {
        Instruction::Jump(t) => Instruction::Jump(renumbered_id(pos, t, Ghost(order))),
        Instruction::Branch(c, t, f, md) => {
            let t2 = renumbered_id(pos, t, Ghost(order));
            let f2 = renumbered_id(pos, f, Ghost(order));
            Instruction::Branch(c, t2, f2, md)
        },
        other => other,
    }
}

/// The successors of a renumbered block are the renumbered successors of the block.
proof fn lemma_renumbered_successors(order: Seq<BlockId>, b0: Block, b1: Block, c: BlockId)
    requires
        block_renumbered(order, b0, b1),
        b0.0@.len() > 0,
        block_successors(b1).contains(c),
    ensures
        exists|c0: BlockId| #[trigger] block_successors(b0).contains(c0) && c == renumber(order, c0),
{
    let s = b0.0@;
    let j = s.len() - 1;
    assert(instr_renumbered(order, s, j, b1.0@[j]));
    assert(b1.0@.last() == b1.0@[j]);
    if leading_phi(s, j) {
        assert(s[j] is Phi);
        assert(b1.0@[j] is Phi);
    } else {
        match s[j] {
            Instruction::Jump(t) => {
                assert(block_successors(b0) == seq![t]);
                assert(seq![t][0] == t);
                assert(seq![t].contains(t));
            },
            Instruction::Branch(cond, t, f, md) => {
                assert(block_successors(b0) == seq![t, f]);
                assert(block_successors(b1) == seq![renumber(order, t), renumber(order, f)]);
                assert(seq![t, f][0] == t && seq![t, f][1] == f);
                if c == renumber(order, t) {
                    assert(seq![t, f].contains(t));
                } else {
                    assert(seq![t, f].contains(f));
                }
            },
            _ => {},
        }
    }
}

/// Every block is reached from some callable body.
pub open spec fn all_blocks_reached(p: &Program) -> bool {
    forall|k: nat| #[trigger] p.blocks.has(k) ==> reached_from_bodies(p, p.callables.key_seq(), k as int)
}

/// What holds of the final order of the walks: it lists every present block once and only
/// present, non-empty blocks, and, without cycles, each block before its successors.
pub open spec fn order_complete(p: &Program, acyclic: bool, m: Seq<BlockId>) -> bool {
    &&& m.no_duplicates()
    &&& m.len() <= p.blocks@.len()
    &&& forall|x: BlockId| #[trigger] m.contains(x) ==> block_ok(p, x)
    &&& forall|k: nat| #[trigger] p.blocks.has(k) ==> m.contains(BlockId(k as u32))
    &&& acyclic ==> forall|x: BlockId, y: BlockId| m.contains(x) && #[trigger] edge(p, x, y) ==> before(m, x, y)
}

/// The walks over the bodies of all callables, in ascending order of id.
fn order_all_blocks(program: &Program, acyclic: bool) -> (r: Vec<BlockId>)
    requires
        program.well_formed(),
        successors_present(program),
        acyclic == !has_cycle(program),
        forall|c: nat| #[trigger] body_of(program, c) matches Some(e) ==> program.blocks.has(e.0 as nat),
        all_blocks_reached(program),
    ensures
        order_complete(program, acyclic, r@),
        exists|orders: Seq<Seq<BlockId>>|
            #[trigger] block_order_chain(program, acyclic, program.callables.key_seq(), orders)
                && orders.last() == r@,
{
    let ghost p0 = *program;
    let ghost slots = p0.blocks@.len();
    let mut order: Vec<BlockId> = Vec::new();
    let ids = program.all_callable_ids();
    let ghost key_nats = p0.callables.key_seq();
    let ghost mut orders: Seq<Seq<BlockId>> = seq![Seq::empty()];
    proof {
        assert(key_nats.take(0) =~= Seq::<nat>::empty());
    }
    for t in 0..ids.len()
        invariant
            *program == p0,
            p0.well_formed(),
            successors_present(&p0),
            acyclic == !has_cycle(&p0),
            forall|c: nat| #[trigger] body_of(&p0, c) matches Some(e) ==> p0.blocks.has(e.0 as nat),
            key_nats == p0.callables.key_seq(),
            ids@.map_values(|k: CallableId| k.0 as nat) == key_nats,
            walk_inv(&p0, acyclic, order@, Seq::empty()),
            block_order_chain(&p0, acyclic, key_nats.take(t as int), orders),
            orders.last() == order@,
            forall|u: int, b: BlockId|
                0 <= u < t && #[trigger] body_reaches(&p0, key_nats[u], b) ==> order@.contains(b),
    {
        let c = ids[t];
        let ghost cn = key_nats[t as int];
        let ghost before = order@;
        proof {
            assert(c.0 as nat == cn);
            lemma_key_seq_has(p0.callables, t as int);
            assert(body_of(&p0, cn) == p0.callables.at(cn).body);
        }
        let body = program.get_callable(c).body;
        match body {
            None => {},
            Some(e) => {
                order_callable_blocks(program, acyclic, &mut order, e);
            },
        }
        proof {
            let ids_t = key_nats.take(t as int);
            let ids_t1 = key_nats.take(t + 1);
            let old_orders = orders;
            orders = orders.push(order@);
            assert(ids_t1.drop_last() =~= ids_t);
            assert(ids_t1[t as int] == cn);
            assert(order_chain_step(&p0, acyclic, cn, before, order@));
            assert forall|u: int| 0 <= u < ids_t1.len() implies #[trigger] order_chain_step(
                &p0,
                acyclic,
                ids_t1[u],
                orders[u],
                orders[u + 1],
            ) by {
                if u < t {
                    assert(ids_t1[u] == ids_t[u]);
                    assert(orders[u] == old_orders[u]);
                    assert(orders[u + 1] == old_orders[u + 1]);
                }
            }
            assert forall|u: int, b: BlockId|
                0 <= u < t + 1 && #[trigger] body_reaches(&p0, key_nats[u], b) implies order@.contains(b) by {
                if u < t {
                    assert(before.contains(b));
                } else if let Some(e) = body {
                    assert(reaches(&p0, e, b));
                    let st = Set::new(|x: BlockId| order@.contains(x));
                    assert forall|x: BlockId, y: BlockId| st.contains(x) && #[trigger] edge(&p0, x, y) implies st.contains(y) by {
                        assert(order@.contains(y) || Seq::<BlockId>::empty().contains(y));
                    }
                    let n = choose|n: nat| reach_n(&p0, e, b, n);
                    lemma_closed_set_holds_reachable(&p0, st, e, b, n);
                }
            }
        }
    }
    let ghost m = order@;
    proof {
        assert(key_nats.take(ids@.len() as int) =~= key_nats);
        assert forall|i: int| 0 <= i < m.len() implies (#[trigger] m[i]).0 < slots by {
            assert(m.contains(m[i]));
        }
        lemma_distinct_ids_bounded(m, slots);
        assert forall|k: nat| #[trigger] p0.blocks.has(k) implies m.contains(BlockId(k as u32)) by {
            assert(reached_from_bodies(&p0, key_nats, k as int));
            let u = choose|u: int| 0 <= u < key_nats.len() && #[trigger] body_reaches(
                &p0,
                key_nats[u],
                BlockId((k as int) as u32),
            );
        }
        if acyclic {
            assert forall|x: BlockId, y: BlockId| m.contains(x) && #[trigger] edge(&p0, x, y) implies before(m, x, y) by {
                assert(Seq::<BlockId>::empty().contains(y) || before(m, x, y));
            }
        }
        assert(block_order_chain(&p0, acyclic, key_nats, orders));
    }
    order
}

/// Moves each block to its new id and renumbers the blocks it names.
fn place_blocks(
    old_blocks: IndexMap<BlockId, Block>,
    pos: &PositionMap,
    Ghost(p0): Ghost<Program>,
    Ghost(m): Ghost<Seq<BlockId>>,
) -> (r: IndexMap<BlockId, Block>)
    requires
        old_blocks == p0.blocks,
        p0.well_formed(),
        successors_present(&p0),
        phi_args_present(&p0),
        order_complete(&p0, false, m),
        positions_of(pos.contents(), m),
    ensures
        r.well_formed(),
        r@.len() == m.len(),
        forall|i: int|
            0 <= i < m.len() ==> #[trigger] r.has(i as nat) && block_renumbered(
                m,
                p0.blocks.at(m[i].0 as nat),
                r.at(i as nat),
            ),
{
    let ghost slots = p0.blocks@.len();
    let mut old_blocks = old_blocks;
    let mut blocks: IndexMap<BlockId, Block> = IndexMap::new();
    let keys = old_blocks.keys();
    let ghost bkeys = p0.blocks.key_seq();
    proof {
        crate::index_map::lemma_key_seq_increasing(p0.blocks);
        assert(bkeys.take(0) =~= Seq::<nat>::empty());
    }
    for ki in 0..keys.len()
        invariant
            p0.well_formed(),
            successors_present(&p0),
            phi_args_present(&p0),
            order_complete(&p0, false, m),
            slots == p0.blocks@.len(),
            slots <= u32::MAX + 1,
            positions_of(pos.contents(), m),
            bkeys == p0.blocks.key_seq(),
            keys@.map_values(|k: BlockId| k.0 as nat) == bkeys,
            forall|i: int, j: int| 0 <= i < j < bkeys.len() ==> bkeys[i] < bkeys[j],
            old_blocks.well_formed(),
            old_blocks@.len() == slots,
            forall|t: int| ki <= t < bkeys.len() ==> #[trigger] old_blocks@[bkeys[t] as int] == p0.blocks@[bkeys[t] as int],
            blocks.well_formed(),
            blocks@.len() <= m.len(),
            forall|i: int|
                0 <= i < blocks@.len() ==> (#[trigger] blocks@[i] is Some <==> bkeys.take(
                    ki as int,
                ).contains(m[i].0 as nat)),
            forall|i: int|
                0 <= i < blocks@.len() && #[trigger] blocks@[i] is Some ==> block_renumbered(
                    m,
                    p0.blocks.at(m[i].0 as nat),
                    blocks@[i]->0,
                ),
            forall|t: int| 0 <= t < ki ==> rank(m, BlockId(#[trigger] bkeys[t] as u32)) < blocks@.len(),
    {
        let k = keys[ki];
        let ghost kn = bkeys[ki as int];
        proof {
            assert(k.0 as nat == kn);
            lemma_key_seq_has(p0.blocks, ki as int);
            assert(BlockId(kn as u32) == k);
            assert(m.contains(k));
        }
        let ghost ob = old_blocks@;
        proof {
            assert(ob[bkeys[ki as int] as int] == p0.blocks@[bkeys[ki as int] as int]);
        }
        let removed = old_blocks.remove(k);
        let mut block = removed.unwrap();
        let ghost b0 = block;
        proof {
            assert(old_blocks@[kn as int] == None::<Block>);
            assert(b0 == p0.blocks.at(kn));
            assert(block_ok(&p0, k));
            assert forall|j: int|
                0 <= j < b0.0@.len() && leading_phi(b0.0@, j) implies match #[trigger] b0.0@[j] {
                    Instruction::Phi(args, _) => forall|a: int|
                        0 <= a < args@.len() ==> m.contains((#[trigger] args@[a]).1),
                    _ => true,
                } by {
                assert(p0.blocks.at(kn).0@[j] == b0.0@[j]);
                match b0.0@[j] {
                    Instruction::Phi(args, _) => {
                        assert forall|a: int| 0 <= a < args@.len() implies m.contains((#[trigger] args@[a]).1) by {
                            assert(p0.blocks.has(args@[a].1.0 as nat));
                            assert(BlockId(args@[a].1.0 as nat as u32) == args@[a].1);
                        }
                    },
                    _ => {},
                }
            }
        }
        let new_id = renumbered_id(pos, k, Ghost(m));
        update_phi_nodes(pos, &mut block.0, Ghost(m));
        let ghost after_phi = block.0@;
        let last = block.0.pop().unwrap();
        proof {
            let j = b0.0@.len() - 1;
            assert(last == after_phi[j]);
            if !leading_phi(b0.0@, j) {
                assert(last == b0.0@[j]);
                match b0.0@[j] {
                    Instruction::Jump(t) => {
                        assert(block_successors(b0) == seq![t]);
                        assert(seq![t][0] == t);
                        assert(seq![t].contains(t));
                        assert(p0.blocks.has(t.0 as nat));
                        assert(BlockId(t.0 as nat as u32) == t);
                    },
                    Instruction::Branch(cnd, t, f, md) => {
                        assert(block_successors(b0) == seq![t, f]);
                        assert(seq![t, f][0] == t && seq![t, f][1] == f);
                        assert(seq![t, f].contains(t) && seq![t, f].contains(f));
                        assert(p0.blocks.has(t.0 as nat) && p0.blocks.has(f.0 as nat));
                        assert(BlockId(t.0 as nat as u32) == t);
                        assert(BlockId(f.0 as nat as u32) == f);
                    },
                    _ => {},
                }
            } else {
                assert(b0.0@[j] is Phi);
                assert(last is Phi);
            }
        }
        let last2 = update_terminator(pos, last, Ghost(m));
        block.0.push(last2);
        proof {
            let j = b0.0@.len() - 1;
            assert forall|jj: int| 0 <= jj < b0.0@.len() implies instr_renumbered(m, b0.0@, jj, #[trigger] block.0@[jj]) by {
                if jj < j {
                    assert(block.0@[jj] == after_phi[jj]);
                    if !leading_phi(b0.0@, jj) {
                        assert(after_phi[jj] == b0.0@[jj]);
                    }
                } else {
                    assert(block.0@[jj] == last2);
                }
            }
            assert(block_renumbered(m, b0, block));
        }
        let ghost before_blocks = blocks@;
        blocks.insert(new_id, block);
        proof {
            let r = rank(m, k);
            let tk = bkeys.take(ki as int);
            let tk1 = bkeys.take(ki + 1);
            assert(tk1 =~= tk.push(kn));
            assert(m[r] == k);
            assert(!tk.contains(kn)) by {
                if tk.contains(kn) {
                    let t = choose|t: int| 0 <= t < tk.len() && tk[t] == kn;
                    assert(bkeys[t] < bkeys[ki as int]);
                }
            }
            assert(r >= before_blocks.len() || before_blocks[r] is None) by {
                if r < before_blocks.len() {
                    assert(m[r].0 as nat == kn);
                }
            }
            assert forall|i: int|
                0 <= i < blocks@.len() implies (#[trigger] blocks@[i] is Some <==> tk1.contains(
                    m[i].0 as nat,
                )) by {
                if i == r {
                    assert(tk1[ki as int] == kn);
                } else {
                    if tk1.contains(m[i].0 as nat) {
                        let t = choose|t: int| 0 <= t < tk1.len() && tk1[t] == m[i].0 as nat;
                        if t == ki {
                            assert(m[i].0 == k.0);
                            assert(m[i] == m[r]);
                        } else {
                            assert(tk[t] == m[i].0 as nat);
                        }
                    }
                    if i < before_blocks.len() && tk.contains(m[i].0 as nat) {
                        let t = choose|t: int| 0 <= t < tk.len() && tk[t] == m[i].0 as nat;
                        assert(tk1[t] == m[i].0 as nat);
                    }
                }
            }
            assert forall|i: int|
                0 <= i < blocks@.len() && #[trigger] blocks@[i] is Some implies block_renumbered(
                    m,
                    p0.blocks.at(m[i].0 as nat),
                    blocks@[i]->0,
                ) by {
                if i == r {
                    assert(m[i].0 as nat == kn);
                } else {
                    assert(i < before_blocks.len());
                    assert(before_blocks[i] is Some);
                }
            }
            assert forall|t: int| 0 <= t < ki + 1 implies rank(m, BlockId(#[trigger] bkeys[t] as u32)) < blocks@.len() by {
                if t == ki {
                    assert(BlockId(bkeys[t] as u32) == k);
                }
            }
            assert forall|t: int| ki + 1 <= t < bkeys.len() implies #[trigger] old_blocks@[bkeys[t] as int] == p0.blocks@[bkeys[t] as int] by {
                assert(bkeys[ki as int] < bkeys[t]);
                assert(ob[bkeys[t] as int] == p0.blocks@[bkeys[t] as int]);
                lemma_key_seq_has(p0.blocks, t);
                assert(old_blocks@ == ob.update(kn as int, None));
            }
        }
    }
    proof {
        let bd = blocks@;
        assert(bkeys.take(keys@.len() as int) =~= bkeys);
        assert forall|i: int| 0 <= i < m.len() implies i < bd.len() && #[trigger] bd[i] is Some by {
            assert(m.contains(m[i]));
            assert(block_ok(&p0, m[i]));
            lemma_has_in_key_seq(p0.blocks, m[i].0 as nat);
            let t = choose|t: int| 0 <= t < bkeys.len() && bkeys[t] == m[i].0 as nat;
            assert(BlockId(bkeys[t] as u32) == m[i]);
            lemma_rank(m, i);
            assert(rank(m, BlockId(bkeys[t] as u32)) < bd.len());
            assert(bkeys.contains(m[i].0 as nat));
        }
        if m.len() > 0 {
            assert(m.len() - 1 < bd.len() && bd[m.len() - 1] is Some);
        }
        assert(bd.len() == m.len());
        assert forall|i: int| 0 <= i < m.len() implies #[trigger] blocks.has(i as nat) && block_renumbered(
            m,
            p0.blocks.at(m[i].0 as nat),
            blocks.at(i as nat),
        ) by {
            assert(bd[i] is Some);
        }
    }
    blocks
}

/// Points each callable with a body at the new id of that body.
fn renumber_bodies(
    callables: &mut IndexMap<CallableId, Callable>,
    pos: &PositionMap,
    Ghost(p0): Ghost<Program>,
    Ghost(m): Ghost<Seq<BlockId>>,
)
    requires
        *old(callables) == p0.callables,
        p0.well_formed(),
        forall|c: nat| #[trigger] body_of(&p0, c) matches Some(e) ==> p0.blocks.has(e.0 as nat),
        order_complete(&p0, false, m),
        positions_of(pos.contents(), m),
    ensures
        final(callables).well_formed(),
        final(callables)@.len() == p0.callables@.len(),
        forall|c: nat| #[trigger] final(callables).has(c) == p0.callables.has(c),
        forall|c: nat|
            #[trigger] p0.callables.has(c) ==> callable_renumbered(m, p0.callables.at(c), final(callables).at(c)),
{
    let keys = callables.keys();
    let ghost key_nats = p0.callables.key_seq();
    proof {
        crate::index_map::lemma_key_seq_increasing(p0.callables);
        assert(m.len() <= u32::MAX + 1);
    }
    for t in 0..keys.len()
        invariant
            p0.well_formed(),
            callables.well_formed(),
            callables@.len() == p0.callables@.len(),
            forall|c: nat| #[trigger] callables.has(c) == p0.callables.has(c),
            keys@.map_values(|k: CallableId| k.0 as nat) == key_nats,
            key_nats == p0.callables.key_seq(),
            forall|i: int, j: int| 0 <= i < j < key_nats.len() ==> key_nats[i] < key_nats[j],
            forall|u: int|
                0 <= u < t ==> callable_renumbered(
                    m,
                    p0.callables.at(#[trigger] key_nats[u]),
                    callables.at(key_nats[u]),
                ),
            forall|u: int| t <= u < key_nats.len() ==> #[trigger] callables.at(key_nats[u]) == p0.callables.at(key_nats[u]),
            forall|c: nat| #[trigger] body_of(&p0, c) matches Some(e) ==> p0.blocks.has(e.0 as nat),
            order_complete(&p0, false, m),
            m.len() <= u32::MAX + 1,
            positions_of(pos.contents(), m),
    {
        let c = keys[t];
        let ghost cn = key_nats[t as int];
        proof {
            assert(c.0 as nat == cn);
            lemma_key_seq_has(p0.callables, t as int);
            assert(callables.has(cn));
            assert(body_of(&p0, cn) == p0.callables.at(cn).body);
        }
        let body = callables.get(c).unwrap().body;
        let ghost before = *callables;
        if let Some(old_body) = body {
            proof {
                assert(p0.blocks.has(old_body.0 as nat));
                assert(BlockId(old_body.0 as nat as u32) == old_body);
            }
            let new_body = renumbered_id(pos, old_body, Ghost(m));
            let callable = callables.get_mut(c);
            callable.body = Some(new_body);
        }
        proof {
            assert forall|c2: nat| #[trigger] callables.has(c2) == p0.callables.has(c2) by {
                assert(before.has(c2) == p0.callables.has(c2));
            }
            assert forall|u: int| 0 <= u < t + 1 implies callable_renumbered(
                m,
                p0.callables.at(#[trigger] key_nats[u]),
                callables.at(key_nats[u]),
            ) by {
                if u < t {
                    assert(key_nats[u] < key_nats[t as int]);
                    lemma_key_seq_has(p0.callables, u);
                }
            }
            assert forall|u: int| t + 1 <= u < key_nats.len() implies #[trigger] callables.at(key_nats[u])
                == p0.callables.at(key_nats[u]) by {
                assert(key_nats[t as int] < key_nats[u]);
                assert(before.at(key_nats[u]) == p0.callables.at(key_nats[u]));
                lemma_key_seq_has(p0.callables, u);
            }
        }
    }
    proof {
        assert forall|c: nat| #[trigger] p0.callables.has(c) implies callable_renumbered(
            m,
            p0.callables.at(c),
            callables.at(c),
        ) by {
            lemma_has_in_key_seq(p0.callables, c);
            let u = choose|u: int| 0 <= u < key_nats.len() && key_nats[u] == c;
        }
    }
}

/// The final order lists as many blocks as the program has.
proof fn lemma_order_len(p: &Program, m: Seq<BlockId>)
    requires
        p.well_formed(),
        order_complete(p, false, m),
    ensures
        m.len() == p.blocks.key_seq().len(),
{
    let bkeys = p.blocks.key_seq();
    crate::index_map::lemma_key_seq_increasing(p.blocks);
    let mk = m.map_values(|b: BlockId| b.0 as nat);
    assert(mk.no_duplicates()) by {
        assert forall|i: int, j: int| 0 <= i < mk.len() && 0 <= j < mk.len() && i != j implies mk[i] != mk[j] by {
            assert(m[i] != m[j]);
        }
    }
    assert(bkeys.no_duplicates()) by {
        assert forall|i: int, j: int| 0 <= i < bkeys.len() && 0 <= j < bkeys.len() && i != j implies bkeys[i] != bkeys[j] by {
            if i < j {
                assert(bkeys[i] < bkeys[j]);
            } else {
                assert(bkeys[j] < bkeys[i]);
            }
        }
    }
    assert(mk.to_set() =~= bkeys.to_set()) by {
        assert forall|x: nat| mk.to_set().contains(x) <==> bkeys.to_set().contains(x) by {
            if mk.contains(x) {
                let i = choose|i: int| 0 <= i < mk.len() && mk[i] == x;
                assert(m.contains(m[i]));
                assert(block_ok(p, m[i]));
                lemma_has_in_key_seq(p.blocks, x);
            }
            if bkeys.contains(x) {
                let t = choose|t: int| 0 <= t < bkeys.len() && bkeys[t] == x;
                lemma_key_seq_has(p.blocks, t);
                assert(m.contains(BlockId(x as u32)));
                let i = choose|i: int| 0 <= i < m.len() && m[i] == BlockId(x as u32);
                assert(mk[i] == x);
            }
        }
    }
    mk.unique_seq_to_set();
    bkeys.unique_seq_to_set();
}

/// Without cycles, renumbering by the final order sends every edge to a higher id.
proof fn lemma_renumbered_topological(p0: &Program, p1: &Program, m: Seq<BlockId>, k: nat, c: BlockId)
    requires
        p0.well_formed(),
        order_complete(p0, true, m),
        program_renumbered(p0, p1, m),
        p1.blocks.has(k),
        block_successors(p1.blocks.at(k)).contains(c),
    ensures
        k < c.0,
{
    let i = k as int;
    assert(i < m.len());
    assert(p1.blocks.has(i as nat));
    assert(block_renumbered(m, p0.blocks.at(m[i].0 as nat), p1.blocks.at(k)));
    assert(m.contains(m[i]));
    assert(block_ok(p0, m[i]));
    lemma_renumbered_successors(m, p0.blocks.at(m[i].0 as nat), p1.blocks.at(k), c);
    let c0 = choose|c0: BlockId| #[trigger] block_successors(p0.blocks.at(m[i].0 as nat)).contains(c0)
        && c == renumber(m, c0);
    assert(edge(p0, m[i], c0));
    assert(before(m, m[i], c0));
    let (a, b) = choose|a: int, b: int| 0 <= a < b < m.len() && m[a] == m[i] && m[b] == c0;
    lemma_rank(m, a);
    lemma_rank(m, b);
    lemma_rank(m, i);
    assert(a == i);
    assert(m.len() <= p0.blocks@.len());
    assert(rank(m, c0) == b);
    assert(c.0 == b);
}

/// Renumbering is a bijection: when `p1` is `p0` renumbered by an order `m` that lists every
/// block of `p0` once, the blocks of `p1` are numbered `0..n` for the `n` blocks of `p0`, new
/// block `i` is old block `m[i]` with its block references renumbered, each old block `b` lands
/// at `rank(m, b)`, each callable body `Some(b)` becomes `Some(renumber(m, b))`, and, when the
/// order puts every block before its successors, every edge of `p1` goes to a higher id.
pub proof fn lemma_renumbering_bijection(p0: &Program, p1: &Program, m: Seq<BlockId>, acyclic: bool)
    requires
        p0.well_formed(),
        order_complete(p0, acyclic, m),
        program_renumbered(p0, p1, m),
    ensures
        m.len() == p0.blocks.key_seq().len(),
        forall|k: nat| #[trigger] p1.blocks.has(k) <==> k < m.len(),
        forall|i: int| 0 <= i < m.len() ==> p0.blocks.has((#[trigger] m[i]).0 as nat),
        forall|i: int, j: int| 0 <= i < m.len() && 0 <= j < m.len() && i != j ==> m[i] != m[j],
        forall|k: nat|
            #[trigger] p0.blocks.has(k) ==> {
                let r = rank(m, BlockId(k as u32));
                &&& 0 <= r < m.len()
                &&& m[r] == BlockId(k as u32)
                &&& renumber(m, BlockId(k as u32)) == BlockId(r as u32)
                &&& block_renumbered(m, p0.blocks.at(k), p1.blocks.at(r as nat))
            },
        forall|c: nat|
            #[trigger] p0.callables.has(c) ==> p1.callables.has(c) && callable_renumbered(
                m,
                p0.callables.at(c),
                p1.callables.at(c),
            ),
        acyclic ==> forall|k: nat, c: BlockId|
            #![trigger p1.blocks.has(k), block_successors(p1.blocks.at(k)).contains(c)]
            p1.blocks.has(k) && block_successors(p1.blocks.at(k)).contains(c) ==> k < c.0,
{
    assert(order_complete(p0, false, m));
    lemma_order_len(p0, m);
    assert forall|k: nat| #[trigger] p1.blocks.has(k) <==> k < m.len() by {
        if k < m.len() {
            let i = k as int;
            assert(0 <= i < m.len());
            assert(p1.blocks.has(i as nat));
        }
    }
    assert forall|i: int| 0 <= i < m.len() implies p0.blocks.has((#[trigger] m[i]).0 as nat) by {
        assert(m.contains(m[i]));
        assert(block_ok(p0, m[i]));
    }
    assert forall|k: nat| #[trigger] p0.blocks.has(k) implies {
        let r = rank(m, BlockId(k as u32));
        &&& 0 <= r < m.len()
        &&& m[r] == BlockId(k as u32)
        &&& renumber(m, BlockId(k as u32)) == BlockId(r as u32)
        &&& block_renumbered(m, p0.blocks.at(k), p1.blocks.at(r as nat))
    } by {
        let b = BlockId(k as u32);
        assert(m.contains(b));
        let r = rank(m, b);
        assert(0 <= r < m.len() && m[r] == b);
        assert(b.0 as nat == k);
        assert(p1.blocks.has(r as nat) && block_renumbered(m, p0.blocks.at(m[r].0 as nat), p1.blocks.at(r as nat)));
    }
    if acyclic {
        assert forall|k: nat, c: BlockId|
            p1.blocks.has(k) && block_successors(p1.blocks.at(k)).contains(c) implies k < c.0 by {
            lemma_renumbered_topological(p0, p1, m, k, c);
        }
    }
}

/// Gives the blocks reachable from the callable bodies the ids `0..n`, in the order of a
/// breadth-first walk from each body in turn (callables in ascending order of id), and
/// renames every reference to a block to match. Without cycles, each block moves behind
/// every block that reaches it, so that successors get higher ids than their predecessors.
pub fn remap_block_ids(program: &mut Program)
    requires
        old(program).well_formed(),
        successors_present(old(program)),
        phi_args_present(old(program)),
        forall|c: nat|
            #[trigger] body_of(old(program), c) matches Some(e) ==> old(program).blocks.has(e.0 as nat),
        all_blocks_reached(old(program)),
    ensures
        final(program).well_formed(),
        exists|orders: Seq<Seq<BlockId>>|
            {
                &&& #[trigger] block_order_chain(
                    old(program),
                    no_cycle(old(program)),
                    old(program).callables.key_seq(),
                    orders,
                )
                &&& program_renumbered(old(program), final(program), orders.last())
                &&& order_complete(old(program), no_cycle(old(program)), orders.last())
            },
        final(program).blocks@.len() == old(program).blocks.key_seq().len(),
        forall|k: nat| k < final(program).blocks@.len() ==> #[trigger] final(program).blocks.has(k),
        no_cycle(old(program)) ==> forall|k: nat, c: BlockId|
            #![trigger final(program).blocks.has(k), block_successors(final(program).blocks.at(k)).contains(c)]
            final(program).blocks.has(k) && block_successors(final(program).blocks.at(k)).contains(c) ==> k
                < c.0,
{
    let ghost p0 = *program;
    let acyclic = check_acyclic(program);
    let order = order_all_blocks(program, acyclic);
    let ghost m = order@;
    let pos = position_map(&order);
    let mut old_blocks: IndexMap<BlockId, Block> = IndexMap::new();
    std::mem::swap(&mut old_blocks, &mut program.blocks);
    program.blocks = place_blocks(old_blocks, &pos, Ghost(p0), Ghost(m));
    renumber_bodies(&mut program.callables, &pos, Ghost(p0), Ghost(m));
    proof {
        lemma_order_len(&p0, m);
        assert(program_renumbered(&p0, program, m));
        let orders = choose|orders: Seq<Seq<BlockId>>|
            #[trigger] block_order_chain(&p0, acyclic, p0.callables.key_seq(), orders) && orders.last() == m;
        assert(block_order_chain(&p0, no_cycle(&p0), p0.callables.key_seq(), orders));
        assert forall|k: nat| k < program.blocks@.len() implies #[trigger] program.blocks.has(k) by {
            let i = k as int;
            assert(0 <= i < m.len());
            assert(program.blocks.has(i as nat));
        }
        if acyclic {
            assert forall|k: nat, c: BlockId|
                program.blocks.has(k) && block_successors(program.blocks.at(k)).contains(c) implies k < c.0 by {
                lemma_renumbered_topological(&p0, program, m, k, c);
            }
        }
    }
}

} // verus!
