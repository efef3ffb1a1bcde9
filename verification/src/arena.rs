//! An arena of blocks with a list of the slots that are free for reuse.
use vstd::prelude::*;

verus! {

use crate::desc::{flagged, slot_of};
use crate::seqs::{concat, lemma_concat_around};

/// The listed slots exist, are empty and are listed once.
pub open spec fn free_list_ok(pool: Seq<Vec<u32>>, free_ids: Seq<u32>) -> bool {
    &&& forall|k: int|
        0 <= k < free_ids.len() ==> {
            &&& (#[trigger] free_ids[k]) < pool.len()
            &&& pool[free_ids[k] as int]@.len() == 0
        }
    &&& forall|i: int, j: int|
        0 <= i < j < free_ids.len() ==> (#[trigger] free_ids[i]) != (#[trigger] free_ids[j])
}

/// `q` is `p` but for the slots `x` and `y`, new slots among them.
pub open spec fn rewritten(p: Seq<Vec<u32>>, q: Seq<Vec<u32>>, x: int, y: int) -> bool {
    &&& p.len() <= q.len()
    &&& forall|s: int|
        0 <= s < q.len() && s != x && s != y ==> s < p.len() && #[trigger] q[s] == p[s]
}

/// The slots of the arena `q` hold what those of `p` held, but for four of them, new
/// slots among these.
pub open spec fn four_rewritten(p: Seq<Seq<u32>>, q: Seq<Seq<u32>>, a: int, b: int, c: int, d: int) -> bool {
    &&& p.len() <= q.len()
    &&& forall|s: int|
        0 <= s < q.len() && s != a && s != b && s != c && s != d ==> #[trigger] kept(p, q, s)
}

/// Slot `s` is in `p` already and holds the same in `q`.
pub open spec fn kept(p: Seq<Seq<u32>>, q: Seq<Seq<u32>>, s: int) -> bool {
    s < p.len() && q[s] == p[s]
}

/// The number `id` is the last free one, which is no longer free, or, where none is
/// free, the next after the `len0` numbers in use; there are then `len1` numbers.
pub open spec fn taken(free0: Seq<u32>, len0: nat, free1: Seq<u32>, len1: nat, id: int) -> bool {
    &&& free0.len() > 0 ==> id == free0.last() && free1 == free0.drop_last() && len1 == len0
    &&& free0.len() == 0 ==> id == len0 && free1.len() == 0 && len1 == len0 + 1
}

/// What the slots of an arena hold.
pub open spec fn slots(pool: Seq<Vec<u32>>) -> Seq<Seq<u32>> {
    Seq::new(pool.len(), |s: int| pool[s]@)
}

/// Three steps that rewrite two slots each, four different ones in all.
pub proof fn lemma_four_rewritten(
    p: Seq<Vec<u32>>,
    q0: Seq<Vec<u32>>,
    q1: Seq<Vec<u32>>,
    q2: Seq<Vec<u32>>,
    a: int,
    b: int,
    c: int,
    d: int,
)
    requires
        rewritten(p, q0, a, b),
        rewritten(q0, q1, b, c),
        rewritten(q1, q2, a, d),
    ensures
        four_rewritten(slots(p), slots(q2), a, b, c, d),
{
    assert forall|s: int| 0 <= s < q2.len() && s != a && s != b && s != c && s != d implies #[trigger] kept(
        slots(p),
        slots(q2),
        s,
    ) by {
        assert(q2[s] == q1[s]);
        assert(q1[s] == q0[s]);
        assert(q0[s] == p[s]);
    }
}

/// Every empty slot is listed.
pub open spec fn free_list_full(pool: Seq<Vec<u32>>, free_ids: Seq<u32>) -> bool {
    forall|s: int|
        0 <= s < pool.len() && (#[trigger] pool[s])@.len() == 0 ==> exists|k: int|
            0 <= k < free_ids.len() && #[trigger] free_ids[k] == s
}

/// The number of elements in all blocks of the arena.
pub open spec fn total_len(pool: Seq<Vec<u32>>) -> nat
    decreases pool.len(),
{
    if pool.len() == 0 {
        0
    } else {
        total_len(pool.drop_last()) + pool.last()@.len()
    }
}

/// The pieces of `ss` that `names` names, in that order.
pub open spec fn picked(ss: Seq<Seq<u32>>, names: Seq<int>) -> Seq<Seq<u32>> {
    Seq::new(names.len(), |i: int| ss[names[i]])
}

pub proof fn lemma_total_slots(pool: Seq<Vec<u32>>)
    ensures
        concat(slots(pool)).len() == total_len(pool),
    decreases pool.len(),
{
    if pool.len() > 0 {
        lemma_total_slots(pool.drop_last());
        assert(slots(pool).drop_last() =~= slots(pool.drop_last()));
    }
}

/// Different pieces have together at most the length of all.
pub proof fn lemma_picked(ss: Seq<Seq<u32>>, names: Seq<int>, x: int)
    requires
        names.no_duplicates(),
        forall|i: int| 0 <= i < names.len() ==> 0 <= #[trigger] names[i] < ss.len() && names[i] != x,
        0 <= x < ss.len(),
    ensures
        concat(picked(ss, names)).len() + ss[x].len() <= concat(ss).len(),
    decreases names.len(),
{
    if names.len() == 0 {
        lemma_concat_around(ss, x);
    } else {
        let y = names[names.len() - 1];
        let rest = names.drop_last();
        let ss1 = ss.update(y, Seq::empty());
        assert forall|i: int| 0 <= i < rest.len() implies 0 <= #[trigger] rest[i] < ss1.len() && rest[i] != x && rest[i]
            != y by {
            assert(rest[i] == names[i]);
        }
        lemma_picked(ss1, rest, x);
        lemma_concat_around(ss, y);
        lemma_concat_around(ss1, y);
        assert(ss1.take(y) =~= ss.take(y));
        assert(ss1.skip(y + 1) =~= ss.skip(y + 1));
        assert(picked(ss1, rest) =~= picked(ss, names).drop_last());
    }
}

pub proof fn lemma_total_push(pool: Seq<Vec<u32>>, block: Vec<u32>)
    ensures
        total_len(pool.push(block)) == total_len(pool) + block@.len(),
{
    assert(pool.push(block).drop_last() =~= pool);
}

pub proof fn lemma_total_update(pool: Seq<Vec<u32>>, i: int, block: Vec<u32>)
    requires
        0 <= i < pool.len(),
    ensures
        total_len(pool.update(i, block)) == total_len(pool) - pool[i]@.len() + block@.len(),
        pool[i]@.len() <= total_len(pool),
    decreases pool.len(),
{
    let n = pool.update(i, block);
    if i == pool.len() - 1 {
        assert(n.drop_last() =~= pool.drop_last());
    } else {
        assert(n.drop_last() =~= pool.drop_last().update(i, block));
        lemma_total_update(pool.drop_last(), i, block);
    }
}

/// An arena without empty slots has no more slots than elements.
pub proof fn lemma_total_count(pool: Seq<Vec<u32>>)
    requires
        forall|s: int| 0 <= s < pool.len() ==> (#[trigger] pool[s])@.len() > 0,
    ensures
        pool.len() <= total_len(pool),
    decreases pool.len(),
{
    if pool.len() > 0 {
        assert(pool[pool.len() - 1]@.len() > 0);
        assert forall|s: int| 0 <= s < pool.drop_last().len() implies (#[trigger] pool.drop_last()[s])@.len()
            > 0 by {
            assert(pool[s]@.len() > 0);
        }
        lemma_total_count(pool.drop_last());
    }
}

/// The elements of the block that `d` describes, in the order they have in the
/// sequence.
pub open spec fn piece(pool: Seq<Vec<u32>>, d: u32) -> Seq<u32> {
    if flagged(d) {
        pool[slot_of(d)]@.reverse()
    } else {
        pool[slot_of(d)]@
    }
}

/// Stores `block` in a free slot, or in a new one when none is free, and returns
/// the slot.
pub fn put_block(pool: &mut Vec<Vec<u32>>, free_ids: &mut Vec<u32>, block: Vec<u32>) -> (id: u32)
    requires
        free_list_ok(old(pool)@, old(free_ids)@),
        old(free_ids)@.len() == 0 ==> old(pool)@.len() <= u32::MAX,
    ensures
        free_list_ok(final(pool)@, final(free_ids)@),
        old(free_ids)@.len() == 0 ==> {
            &&& id == old(pool)@.len()
            &&& final(pool)@.len() == old(pool)@.len() + 1
            &&& final(free_ids)@.len() == 0
        },
        old(free_ids)@.len() > 0 ==> {
            &&& id == old(free_ids)@.last()
            &&& id < old(pool)@.len()
            &&& old(pool)@[id as int]@.len() == 0
            &&& final(pool)@.len() == old(pool)@.len()
            &&& final(free_ids)@ == old(free_ids)@.drop_last()
        },
        final(pool)@[id as int] == block,
        forall|s: int| 0 <= s < old(pool)@.len() && s != id ==> #[trigger] final(pool)@[s] == old(pool)@[s],
        total_len(final(pool)@) == total_len(old(pool)@) + block@.len(),
        block@.len() > 0 && free_list_full(old(pool)@, old(free_ids)@) ==> free_list_full(
            final(pool)@,
            final(free_ids)@,
        ),
{
    let ghost n = free_ids@.len();
    match free_ids.pop() {
        Some(f) => {
            proof {
                lemma_total_update(pool@, f as int, block);
            }
            pool[f as usize] = block;
            proof {
                if block@.len() > 0 && free_list_full(old(pool)@, old(free_ids)@) {
                    assert forall|s: int| 0 <= s < pool@.len() && (#[trigger] pool@[s])@.len() == 0 implies exists|
                        k: int,
                    | 0 <= k < free_ids@.len() && #[trigger] free_ids@[k] == s by {
                        assert(old(pool)@[s]@.len() == 0);
                        let k = choose|k: int|
                            0 <= k < old(free_ids)@.len() && #[trigger] old(free_ids)@[k] == s;
                        assert(k < n - 1);
                        assert(free_ids@[k] == s);
                    }
                }
            }
            f
        },
        None => {
            let id: u32 = pool.len() as u32;
            proof {
                lemma_total_push(pool@, block);
            }
            pool.push(block);
            proof {
                if block@.len() > 0 && free_list_full(old(pool)@, old(free_ids)@) {
                    assert forall|s: int| 0 <= s < pool@.len() && (#[trigger] pool@[s])@.len() == 0 implies exists|
                        k: int,
                    | 0 <= k < free_ids@.len() && #[trigger] free_ids@[k] == s by {
                        assert(old(pool)@[s]@.len() == 0);
                    }
                }
            }
            id
        },
    }
}

/// Takes the block out of slot `id` and lists the slot as free.
pub fn take_block(pool: &mut Vec<Vec<u32>>, free_ids: &mut Vec<u32>, id: u32) -> (block: Vec<u32>)
    requires
        free_list_ok(old(pool)@, old(free_ids)@),
        id < old(pool)@.len(),
        old(pool)@[id as int]@.len() > 0,
    ensures
        free_list_ok(final(pool)@, final(free_ids)@),
        block == old(pool)@[id as int],
        final(pool)@.len() == old(pool)@.len(),
        final(pool)@[id as int]@.len() == 0,
        final(free_ids)@ == old(free_ids)@.push(id),
        forall|s: int| 0 <= s < old(pool)@.len() && s != id ==> #[trigger] final(pool)@[s] == old(pool)@[s],
        total_len(final(pool)@) == total_len(old(pool)@) - block@.len(),
        free_list_full(old(pool)@, old(free_ids)@) ==> free_list_full(final(pool)@, final(free_ids)@),
{
    let mut block: Vec<u32> = Vec::new();
    proof {
        lemma_total_update(pool@, id as int, block);
    }
    std::mem::swap(&mut block, &mut pool[id as usize]);
    free_ids.push(id);
    proof {
        if free_list_full(old(pool)@, old(free_ids)@) {
            assert forall|s: int| 0 <= s < pool@.len() && (#[trigger] pool@[s])@.len() == 0 implies exists|
                k: int,
            | 0 <= k < free_ids@.len() && #[trigger] free_ids@[k] == s by {
                if s == id {
                    assert(free_ids@[free_ids@.len() - 1] == s);
                } else {
                    assert(old(pool)@[s]@.len() == 0);
                    let k = choose|k: int|
                        0 <= k < old(free_ids)@.len() && #[trigger] old(free_ids)@[k] == s;
                    assert(free_ids@[k] == s);
                }
            }
        }
    }
    block
}

} // verus!
