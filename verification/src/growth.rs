//! How a cluster grows: what was packed stays where it is, and what comes later is packed behind
//! it.
use crate::cluster::{
    batches, lemma_next_slot_written, lemma_slots_append, slot_at, slot_of, slots_of, stored,
    stored_all, stride, with_next_slot, with_slots, zero_slot, ClusterModel, SlotModel,
};
use crate::quantized::QuantizedModel;
use vstd::prelude::*;

verus! {

impl ClusterModel {
    /// The slots of the packed vectors from `from` on.
    pub open spec fn slots_from(self, from: int) -> Seq<SlotModel> {
        Seq::new((self.num_vectors - from) as nat, |i: int| self.slot(from + i))
    }

    /// Whether the packed vectors from `from` on say nothing in place of extended codes.
    pub open spec fn plain_from(self, from: int) -> bool {
        forall|i: int|
            from <= i < self.num_vectors ==> {
                &&& (#[trigger] self.ex_codes[i]).len() == 0
                &&& self.f_add_ex[i] == 0
                &&& self.f_rescale_ex[i] == 0
            }
    }

    /// Whether this cluster has grown out of `base`: the packed vectors of `base` come first, and
    /// the others have been packed behind them.
    pub open spec fn grew_from(self, base: ClusterModel) -> bool {
        let n = base.num_vectors as int;
        &&& self.well_formed()
        &&& base.well_formed()
        &&& n <= self.num_vectors
        &&& self.centroid == base.centroid
        &&& self.padded_dim == base.padded_dim
        &&& self.ex_bits == base.ex_bits
        &&& self.ids.take(n) == base.ids
        &&& self.ex_codes.take(n) == base.ex_codes
        &&& self.f_add_ex.take(n) == base.f_add_ex
        &&& self.f_rescale_ex.take(n) == base.f_rescale_ex
        &&& self.delta.take(n) == base.delta
        &&& self.vl.take(n) == base.vl
        &&& self.batch_data == with_slots(
            base.batch_data,
            base.padded_dim as int,
            n,
            self.slots_from(n),
        )
        &&& self.ex_bits == 0 ==> self.plain_from(n)
    }
}

/// One slot after slots were written into batches of `n` vectors: it is one of the new ones, or as
/// it was, or zeros in a batch that was begun. A byte of a batch that was full does not change.
#[verifier::rlimit(30)]
proof fn lemma_one_of_slots_written(
    data: Seq<u8>,
    padded_dim: int,
    n: int,
    slots: Seq<SlotModel>,
    k: int,
    p: int,
)
    requires
        0 <= padded_dim,
        0 <= n,
        data.len() == batches(n) * stride(padded_dim),
        forall|i: int| 0 <= i < slots.len() ==> (#[trigger] slots[i]).code.len() == padded_dim / 8,
    ensures
        with_slots(data, padded_dim, n, slots).len() == batches(n + slots.len()) * stride(
            padded_dim,
        ),
        0 <= k < 32 * batches(n + slots.len()) ==> slot_at(
            with_slots(data, padded_dim, n, slots),
            padded_dim,
            k,
        ) == if n <= k < n + slots.len() {
            slots[k - n]
        } else if k < 32 * batches(n) {
            slot_at(data, padded_dim, k)
        } else {
            zero_slot(padded_dim)
        },
        0 <= p < (n / 32) * stride(padded_dim) ==> with_slots(data, padded_dim, n, slots)[p]
            == data[p],
    decreases slots.len(),
{
    let st = stride(padded_dim);
    if slots.len() > 0 {
        let init = slots.drop_last();
        assert forall|i: int| 0 <= i < init.len() implies (#[trigger] init[i]).code.len()
            == padded_dim / 8 by {
            assert(init[i] == slots[i]);
        }
        lemma_one_of_slots_written(data, padded_dim, n, init, k, p);
        let before = with_slots(data, padded_dim, n, init);
        let m = n + init.len();
        assert(slots.last().code.len() == padded_dim / 8);
        assert((n / 32) * st <= (m / 32) * st) by (nonlinear_arith)
            requires
                n / 32 <= m / 32,
                0 <= st,
        ;
        lemma_one_slot_written(before, padded_dim, m, slots.last(), k, p);
    }
}

proof fn lemma_one_slot_written(
    data: Seq<u8>,
    padded_dim: int,
    n: int,
    slot: SlotModel,
    k: int,
    p: int,
)
    requires
        0 <= padded_dim,
        0 <= n,
        slot.code.len() == padded_dim / 8,
        data.len() == batches(n) * stride(padded_dim),
    ensures
        with_next_slot(data, padded_dim, n, slot).len() == batches(n + 1) * stride(padded_dim),
        0 <= k < 32 * batches(n + 1) ==> slot_at(
            with_next_slot(data, padded_dim, n, slot),
            padded_dim,
            k,
        ) == if k == n {
            slot
        } else if k < 32 * batches(n) {
            slot_at(data, padded_dim, k)
        } else {
            zero_slot(padded_dim)
        },
        0 <= p < (n / 32) * stride(padded_dim) ==> with_next_slot(data, padded_dim, n, slot)[p]
            == data[p],
{
    lemma_next_slot_written(data, padded_dim, n, slot);
}

/// What slots leave that were written into batches of `n` vectors: the slots from before, the new
/// ones, and zeros behind them. No byte of a batch that was full changes.
pub proof fn lemma_slots_written(data: Seq<u8>, padded_dim: int, n: int, slots: Seq<SlotModel>)
    requires
        0 <= padded_dim,
        0 <= n,
        data.len() == batches(n) * stride(padded_dim),
        forall|i: int| 0 <= i < slots.len() ==> (#[trigger] slots[i]).code.len() == padded_dim / 8,
    ensures
        with_slots(data, padded_dim, n, slots).len() == batches(n + slots.len()) * stride(
            padded_dim,
        ),
        forall|k: int|
            0 <= k < 32 * batches(n + slots.len()) ==> #[trigger] slot_at(
                with_slots(data, padded_dim, n, slots),
                padded_dim,
                k,
            ) == if n <= k < n + slots.len() {
                slots[k - n]
            } else if k < 32 * batches(n) {
                slot_at(data, padded_dim, k)
            } else {
                zero_slot(padded_dim)
            },
        forall|p: int|
            0 <= p < (n / 32) * stride(padded_dim) ==> #[trigger] with_slots(
                data,
                padded_dim,
                n,
                slots,
            )[p] == data[p],
{
    lemma_one_of_slots_written(data, padded_dim, n, slots, 0, 0);
    let after = with_slots(data, padded_dim, n, slots);
    assert forall|k: int| 0 <= k < 32 * batches(n + slots.len()) implies #[trigger] slot_at(
        after,
        padded_dim,
        k,
    ) == if n <= k < n + slots.len() {
        slots[k - n]
    } else if k < 32 * batches(n) {
        slot_at(data, padded_dim, k)
    } else {
        zero_slot(padded_dim)
    } by {
        lemma_one_of_slots_written(data, padded_dim, n, slots, k, 0);
    }
    assert forall|p: int| 0 <= p < (n / 32) * stride(padded_dim) implies #[trigger] after[p]
        == data[p] by {
        lemma_one_of_slots_written(data, padded_dim, n, slots, 0, p);
    }
}

/// A cluster has grown out of itself.
pub proof fn law_growth_is_reflexive(c: ClusterModel)
    requires
        c.well_formed(),
    ensures
        c.grew_from(c),
{
    let n = c.num_vectors as int;
    assert(c.slots_from(n) =~= Seq::empty());
    assert(c.ids.take(n) =~= c.ids);
    assert(c.ex_codes.take(n) =~= c.ex_codes);
    assert(c.f_add_ex.take(n) =~= c.f_add_ex);
    assert(c.f_rescale_ex.take(n) =~= c.f_rescale_ex);
    assert(c.delta.take(n) =~= c.delta);
    assert(c.vl.take(n) =~= c.vl);
}

/// The slot and the other entries of a packed vector can be told from the vector.
pub proof fn lemma_packed_tells(a: ClusterModel, i: int, b: ClusterModel, j: int)
    requires
        a.well_formed(),
        b.well_formed(),
        0 <= i < a.num_vectors,
        0 <= j < b.num_vectors,
        a.padded_dim == b.padded_dim,
        a.packed(i) == b.packed(j),
    ensures
        a.slot(i) == b.slot(j),
        a.ex_codes[i] == b.ex_codes[j],
        a.f_add_ex[i] == b.f_add_ex[j],
        a.f_rescale_ex[i] == b.f_rescale_ex[j],
        a.delta[i] == b.delta[j],
        a.vl[i] == b.vl[j],
{
    let x = a.slot(i).code;
    let y = b.slot(j).code;
    if a.padded_dim % 8 != 0 {
        assert(x =~= x.push(0).drop_last());
        assert(y =~= y.push(0).drop_last());
    }
    assert(a.slot(i) =~= b.slot(j));
}

/// A vector that was stored takes the slot and the entries that it calls for.
proof fn lemma_stored_tells(c: ClusterModel, i: int, q: QuantizedModel)
    requires
        c.well_formed(),
        0 <= i < c.num_vectors,
        c.packed(i) == stored(q, c.padded_dim, c.ex_bits),
    ensures
        c.slot(i) == slot_of(q),
        c.ex_bits == 0 ==> {
            &&& c.ex_codes[i].len() == 0
            &&& c.f_add_ex[i] == 0
            &&& c.f_rescale_ex[i] == 0
        },
{
    let x = c.slot(i).code;
    if c.padded_dim % 8 != 0 {
        assert(x =~= x.push(0).drop_last());
        assert(q.code =~= q.code.push(0).drop_last());
    }
    assert(c.slot(i) =~= slot_of(q));
}

/// Where more vectors have been packed into a cluster that grew out of `base`, it still has.
#[verifier::rlimit(30)]
proof fn lemma_grows_on(
    base: ClusterModel,
    c: ClusterModel,
    after: ClusterModel,
    moved: Seq<QuantizedModel>,
)
    requires
        c.grew_from(base),
        after.well_formed(),
        after.centroid == c.centroid,
        after.padded_dim == c.padded_dim,
        after.ex_bits == c.ex_bits,
        after.num_vectors == c.num_vectors + moved.len(),
        after.ids.take(c.num_vectors as int) == c.ids,
        after.packed_vectors() == c.packed_vectors() + stored_all(moved, c.padded_dim, c.ex_bits),
        after.batch_data == with_slots(
            c.batch_data,
            c.padded_dim as int,
            c.num_vectors as int,
            slots_of(moved),
        ),
    ensures
        after.grew_from(base),
{
    let n = base.num_vectors as int;
    let k = c.num_vectors as int;
    assert forall|i: int| 0 <= i < k implies #[trigger] after.packed(i) == c.packed(i) by {
        assert(after.packed_vectors()[i] == c.packed_vectors()[i]);
    }
    assert forall|i: int| 0 <= i < k implies {
        &&& #[trigger] after.slot(i) == c.slot(i)
        &&& after.ex_codes[i] == c.ex_codes[i]
        &&& after.f_add_ex[i] == c.f_add_ex[i]
        &&& after.f_rescale_ex[i] == c.f_rescale_ex[i]
        &&& after.delta[i] == c.delta[i]
        &&& after.vl[i] == c.vl[i]
    } by {
        assert(after.packed(i) == c.packed(i));
        lemma_packed_tells(after, i, c, i);
    }
    assert forall|i: int| 0 <= i < moved.len() implies {
        &&& #[trigger] after.slot(k + i) == slot_of(moved[i])
        &&& after.ex_bits == 0 ==> after.ex_codes[k + i].len() == 0 && after.f_add_ex[k + i] == 0
            && after.f_rescale_ex[k + i] == 0
    } by {
        let s = stored_all(moved, c.padded_dim, c.ex_bits);
        assert(after.packed_vectors()[k + i] == s[i]);
        lemma_stored_tells(after, k + i, moved[i]);
    }
    assert forall|i: int| n <= i < after.num_vectors && after.ex_bits == 0 implies {
        &&& (#[trigger] after.ex_codes[i]).len() == 0
        &&& after.f_add_ex[i] == 0
        &&& after.f_rescale_ex[i] == 0
    } by {
        if i < k {
            assert(after.slot(i) == c.slot(i));
            assert(c.ex_codes[i].len() == 0);
        } else {
            assert(after.slot(k + (i - k)) == slot_of(moved[i - k]));
        }
    }
    assert(after.ids.take(n) =~= c.ids.take(n)) by {
        assert forall|i: int| 0 <= i < n implies after.ids[i] == c.ids[i] by {
            assert(after.ids.take(k)[i] == after.ids[i]);
        }
    }
    assert forall|i: int| 0 <= i < n implies {
        &&& #[trigger] after.ex_codes[i] == c.ex_codes[i]
        &&& after.f_add_ex[i] == c.f_add_ex[i]
        &&& after.f_rescale_ex[i] == c.f_rescale_ex[i]
        &&& after.delta[i] == c.delta[i]
        &&& after.vl[i] == c.vl[i]
    } by {
        assert(after.slot(i) == c.slot(i));
    }
    assert(after.ex_codes.take(n) =~= c.ex_codes.take(n));
    assert forall|i: int| 0 <= i < n implies #[trigger] after.f_add_ex[i] == c.f_add_ex[i] by {
        assert(after.ex_codes[i] == c.ex_codes[i]);
    }
    assert(after.f_add_ex.take(n) =~= c.f_add_ex.take(n));
    assert forall|i: int| 0 <= i < n implies #[trigger] after.f_rescale_ex[i]
        == c.f_rescale_ex[i] by {
        assert(after.ex_codes[i] == c.ex_codes[i]);
    }
    assert(after.f_rescale_ex.take(n) =~= c.f_rescale_ex.take(n));
    assert forall|i: int| 0 <= i < n implies #[trigger] after.delta[i] == c.delta[i] by {
        assert(after.ex_codes[i] == c.ex_codes[i]);
    }
    assert(after.delta.take(n) =~= c.delta.take(n));
    assert forall|i: int| 0 <= i < n implies #[trigger] after.vl[i] == c.vl[i] by {
        assert(after.ex_codes[i] == c.ex_codes[i]);
    }
    assert(after.vl.take(n) =~= c.vl.take(n));
    let some = c.slots_from(n);
    assert forall|i: int| 0 <= i < after.slots_from(n).len() implies after.slots_from(n)[i] == (some
        + slots_of(moved))[i] by {
        if n + i < k {
            assert(after.slot(n + i) == c.slot(n + i));
        } else {
            let j = n + i - k;
            assert(after.slot(k + j) == slot_of(moved[j]));
        }
    }
    assert(after.slots_from(n) =~= some + slots_of(moved));
    lemma_slots_append(base.batch_data, base.padded_dim as int, n, some, slots_of(moved));
}

/// A flush lets a cluster grow.
pub proof fn law_growth_survives_flush(
    base: ClusterModel,
    c: ClusterModel,
    after: ClusterModel,
)
    requires
        c.grew_from(base),
        c.flushes(after),
    ensures
        after.grew_from(base),
{
    assert(after.ids.take(c.num_vectors as int) =~= c.ids);
    lemma_grows_on(base, c, after, c.pending);
}

/// Appending lets a cluster grow, or leaves what is packed as it is.
pub proof fn law_growth_survives_append(
    base: ClusterModel,
    c: ClusterModel,
    after: ClusterModel,
    id: u64,
    q: QuantizedModel,
)
    requires
        c.grew_from(base),
        after.well_formed(),
        c.appends(after, id, q),
    ensures
        after.grew_from(base),
{
    let w = c.with_pending(id, q);
    let n = base.num_vectors as int;
    assert forall|i: int| 0 <= i < c.num_vectors implies #[trigger] w.slot(i) == c.slot(i) by {}
    assert(w.slots_from(n) =~= c.slots_from(n));
    if c.pending_ids.len() + 1 >= 32 {
        assert forall|i: int| 0 <= i < c.num_vectors implies #[trigger] w.packed(i)
            == c.packed(i) by {
            assert(w.slot(i) == c.slot(i));
        }
        assert(w.packed_vectors() =~= c.packed_vectors());
        assert(after.ids.take(c.num_vectors as int) =~= c.ids);
        lemma_grows_on(base, c, after, w.pending);
    }
}

/// The vectors that a batch leaves packed: those from before, and behind them as many of the
/// pending and the new ones as are no longer pending.
#[verifier::rlimit(30)]
proof fn lemma_batch_moves(
    c: ClusterModel,
    after: ClusterModel,
    ids: Seq<u64>,
    qs: Seq<QuantizedModel>,
    moved: Seq<QuantizedModel>,
)
    requires
        c.well_formed(),
        ids.len() == qs.len(),
        c.receives(after, ids, qs),
        moved == (c.pending + qs).take((c.pending + qs).len() - after.pending.len()),
    ensures
        after.well_formed(),
        after.centroid == c.centroid,
        after.padded_dim == c.padded_dim,
        after.ex_bits == c.ex_bits,
        after.batch_data == with_slots(
            c.batch_data,
            c.padded_dim as int,
            c.num_vectors as int,
            slots_of(moved),
        ),
        after.num_vectors == c.num_vectors + moved.len(),
        after.ids.take(c.num_vectors as int) == c.ids,
        after.packed_vectors() == c.packed_vectors() + stored_all(moved, c.padded_dim, c.ex_bits),
{
    let all = c.pending + qs;
    let k = c.num_vectors as int;
    let pd = c.padded_dim;
    let eb = c.ex_bits;
    assert(0 <= c.pending_after(qs.len() as int) <= all.len());
    assert forall|i: int| 0 <= i < k implies after.ids[i] == c.ids[i] by {
        assert(after.all_ids()[i] == after.ids[i]);
        assert((c.all_ids() + ids)[i] == c.ids[i]);
    }
    assert(after.ids.take(k) =~= c.ids);
    let before = c.packed_vectors();
    let packed = after.packed_vectors();
    let waiting = stored_all(c.pending, pd, eb);
    let target = before + stored_all(moved, pd, eb);
    let contents = (before + waiting) + stored_all(qs, pd, eb);
    assert(contents == after.contents());
    assert forall|i: int| 0 <= i < packed.len() implies packed[i] == target[i] by {
        assert(after.contents()[i] == packed[i]);
        if i >= k {
            let j = i - k;
            assert(target[i] == stored(all[j], pd, eb));
            if j < c.pending.len() {
                assert(contents[i] == waiting[j]);
            } else {
                assert(contents[i] == stored_all(qs, pd, eb)[j - c.pending.len()]);
            }
        } else {
            assert(contents[i] == before[i]);
        }
    }
    assert(packed =~= target);
}

/// A batch lets a cluster grow, or leaves what is packed as it is.
pub proof fn law_growth_survives_batch(
    base: ClusterModel,
    c: ClusterModel,
    after: ClusterModel,
    ids: Seq<u64>,
    qs: Seq<QuantizedModel>,
)
    requires
        c.grew_from(base),
        c.receives(after, ids, qs),
        ids.len() == qs.len(),
    ensures
        after.grew_from(base),
{
    let all = c.pending + qs;
    let moved = all.take(all.len() - after.pending.len());
    lemma_batch_moves(c, after, ids, qs, moved);
    lemma_grows_on(base, c, after, moved);
}

// ----------------------------------------------------------------------------
// The bytes of a flush
// ----------------------------------------------------------------------------

/// A flush writes behind what stands: no byte of a full batch changes. Where the last batch was
/// full, the bytes from before are the first ones afterwards, and the flush adds one stride for
/// each 32 vectors that it moves, or part of 32.
pub proof fn law_flush_keeps_full_batches(before: ClusterModel, after: ClusterModel)
    requires
        before.well_formed(),
        before.flushes(after),
    ensures
        after.centroid == before.centroid,
        forall|p: int|
            0 <= p < (before.num_vectors as int / 32) * stride(before.padded_dim as int)
                ==> #[trigger] after.batch_data[p] == before.batch_data[p],
        before.num_vectors % 32 == 0 ==> {
            &&& before.batch_data.len() <= after.batch_data.len()
            &&& after.batch_data.take(before.batch_data.len() as int) == before.batch_data
            &&& after.batch_data.len() == before.batch_data.len() + batches(
                before.pending.len() as int,
            ) * stride(before.padded_dim as int)
        },
{
    let pd = before.padded_dim as int;
    let n = before.num_vectors as int;
    let st = stride(pd);
    let full = (n / 32) * st;
    assert(full <= batches(n) * st) by (nonlinear_arith)
        requires
            n / 32 <= batches(n),
            0 <= st,
            full == (n / 32) * st,
    ;
    lemma_slots_written(before.batch_data, pd, n, slots_of(before.pending));
    if n % 32 == 0 {
        let more = before.pending.len() as int;
        assert(batches(n) == n / 32);
        assert(batches(n + more) == batches(n) + batches(more));
        assert((batches(n) + batches(more)) * st == batches(n) * st + batches(more) * st)
            by (nonlinear_arith);
        assert(0 <= batches(more) * st) by (nonlinear_arith)
            requires
                0 <= batches(more),
                0 <= st,
        ;
        assert(after.batch_data.take(before.batch_data.len() as int) =~= before.batch_data);
    }
}

} // verus!
