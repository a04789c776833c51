//! The vectors of one cluster in their contiguous layout.
//!
//! Vectors that are packed stand in batches of 32. A batch is one stride of `batch_data`: the
//! binary codes in the FastScan layout, then 32 values each of `f_add`, `f_rescale` and
//! `f_error`. Vector `i` takes slot `i % 32` of batch `i / 32`. New vectors wait in a pending
//! buffer until they are flushed into the batches.
use crate::bytes::{read_f32s, u32_at, u32s_at};
use crate::fastscan::{
    code_at, code_byte, lane, lemma_code_written, load_code, store_code, with_code,
    FASTSCAN_BATCH_SIZE,
};
use crate::quantized::{lemma_models_push, models, nested, QuantizedModel, QuantizedVector};
use vstd::prelude::*;

verus! {

/// Bytes of one batch: `padded_dim * 32 / 8` of codes and three times 32 parameters.
pub open spec fn stride(padded_dim: int) -> int {
    4 * padded_dim + 384
}

/// Number of batches that hold `n` vectors.
pub open spec fn batches(n: int) -> int {
    (n + 31) / 32
}

/// What one slot of a batch holds.
#[verifier::ext_equal]
pub struct SlotModel {
    pub code: Seq<u8>,
    pub f_add: u32,
    pub f_rescale: u32,
    pub f_error: u32,
}

/// Slot `k % 32` of batch `k / 32`.
pub open spec fn slot_at(data: Seq<u8>, padded_dim: int, k: int) -> SlotModel {
    let base = (k / 32) * stride(padded_dim);
    let params = base + 4 * padded_dim + 4 * (k % 32);
    SlotModel {
        code: code_at(data, base, k % 32, padded_dim / 8),
        f_add: u32_at(data, params),
        f_rescale: u32_at(data, params + 128),
        f_error: u32_at(data, params + 256),
    }
}

/// A slot of zeros.
pub open spec fn zero_slot(padded_dim: int) -> SlotModel {
    SlotModel {
        code: Seq::new((padded_dim / 8) as nat, |c: int| 0u8),
        f_add: 0,
        f_rescale: 0,
        f_error: 0,
    }
}

/// The slot that a vector is packed into.
pub open spec fn slot_of(q: QuantizedModel) -> SlotModel {
    SlotModel { code: q.code, f_add: q.f_add, f_rescale: q.f_rescale, f_error: q.f_error }
}

/// Bytes with a 32-bit number written at `at`, least significant byte first.
pub open spec fn with_u32(data: Seq<u8>, at: int, value: u32) -> Seq<u8> {
    data.update(at, (value % 256) as u8).update(at + 1, ((value / 256) % 256) as u8).update(
        at + 2,
        ((value / 65536) % 256) as u8,
    ).update(at + 3, (value / 16777216) as u8)
}

/// Batches with slot `k % 32` of batch `k / 32` written.
pub open spec fn with_slot(data: Seq<u8>, padded_dim: int, k: int, slot: SlotModel) -> Seq<u8> {
    let base = (k / 32) * stride(padded_dim);
    let params = base + 4 * padded_dim + 4 * (k % 32);
    with_u32(
        with_u32(
            with_u32(with_code(data, base, k % 32, slot.code), params, slot.f_add),
            params + 128,
            slot.f_rescale,
        ),
        params + 256,
        slot.f_error,
    )
}

/// Batches of `n` vectors with one more in the next slot, after a fresh batch of zeros where the
/// last one is full.
pub open spec fn with_next_slot(data: Seq<u8>, padded_dim: int, n: int, slot: SlotModel) -> Seq<
    u8,
> {
    with_slot(
        if n % 32 == 0 {
            data + Seq::new(stride(padded_dim) as nat, |i: int| 0u8)
        } else {
            data
        },
        padded_dim,
        n,
        slot,
    )
}

/// Batches of `n` vectors with more in the next slots.
pub open spec fn with_slots(
    data: Seq<u8>,
    padded_dim: int,
    n: int,
    slots: Seq<SlotModel>,
) -> Seq<u8>
    decreases slots.len(),
{
    if slots.len() == 0 {
        data
    } else {
        with_next_slot(
            with_slots(data, padded_dim, n, slots.drop_last()),
            padded_dim,
            n + slots.len() - 1,
            slots.last(),
        )
    }
}

/// The slots that vectors are packed into.
pub open spec fn slots_of(vectors: Seq<QuantizedModel>) -> Seq<SlotModel> {
    vectors.map_values(|q: QuantizedModel| slot_of(q))
}

/// One slot more is written behind the others.
pub proof fn lemma_slots_push(
    data: Seq<u8>,
    padded_dim: int,
    n: int,
    slots: Seq<SlotModel>,
    slot: SlotModel,
)
    ensures
        with_slots(data, padded_dim, n, slots.push(slot)) == with_next_slot(
            with_slots(data, padded_dim, n, slots),
            padded_dim,
            n + slots.len(),
            slot,
        ),
{
    assert(slots.push(slot).drop_last() =~= slots);
}

/// Slots can be written in two goes.
pub proof fn lemma_slots_append(
    data: Seq<u8>,
    padded_dim: int,
    n: int,
    some: Seq<SlotModel>,
    more: Seq<SlotModel>,
)
    ensures
        with_slots(data, padded_dim, n, some + more) == with_slots(
            with_slots(data, padded_dim, n, some),
            padded_dim,
            n + some.len(),
            more,
        ),
    decreases more.len(),
{
    if more.len() == 0 {
        assert(some + more =~= some);
    } else {
        lemma_slots_append(data, padded_dim, n, some, more.drop_last());
        assert((some + more).drop_last() =~= some + more.drop_last());
    }
}

proof fn lemma_slot_frame(a: Seq<u8>, b: Seq<u8>, padded_dim: int, k: int)
    requires
        0 <= padded_dim,
        0 <= k,
        forall|i: int|
            (k / 32) * stride(padded_dim) <= i < (k / 32) * stride(padded_dim) + stride(padded_dim)
                ==> #[trigger] a[i] == b[i],
    ensures
        slot_at(a, padded_dim, k) == slot_at(b, padded_dim, k),
{
    let base = (k / 32) * stride(padded_dim);
    let s = k % 32;
    assert forall|c: int| 0 <= c < padded_dim / 8 implies code_byte(a, base, s, c) == code_byte(
        b,
        base,
        s,
        c,
    ) by {
        assert(0 <= lane(s) < 16);
    }
    assert(code_at(a, base, s, padded_dim / 8) =~= code_at(b, base, s, padded_dim / 8));
}

proof fn lemma_zero_slots(data: Seq<u8>, padded_dim: int, k: int)
    requires
        0 <= padded_dim,
        0 <= k,
        forall|i: int|
            (k / 32) * stride(padded_dim) <= i < (k / 32) * stride(padded_dim) + stride(padded_dim)
                ==> #[trigger] data[i] == 0,
    ensures
        slot_at(data, padded_dim, k) == zero_slot(padded_dim),
{
    let base = (k / 32) * stride(padded_dim);
    let s = k % 32;
    assert forall|c: int| 0 <= c < padded_dim / 8 implies code_byte(data, base, s, c) == 0 by {
        assert(0 <= lane(s) < 16);
    }
    assert(code_at(data, base, s, padded_dim / 8) =~= zero_slot(padded_dim).code);
}

proof fn lemma_batches_apart(padded_dim: int, a: int, b: int)
    requires
        0 <= padded_dim,
        0 <= a < b,
    ensures
        0 <= a * stride(padded_dim),
        a * stride(padded_dim) + stride(padded_dim) <= b * stride(padded_dim),
{
    let st = stride(padded_dim);
    assert(0 <= a * st && a * st + st <= b * st) by (nonlinear_arith)
        requires
            0 <= a < b,
            0 <= st,
    ;
}

fn store_u32(data: &mut Vec<u8>, at: usize, value: u32)
    requires
        at + 4 <= old(data)@.len(),
    ensures
        final(data)@ == with_u32(old(data)@, at as int, value),
{
    let total: usize = data.len();
    assert(at + 4 <= total);
    data.set(at, (value % 256) as u8);
    data.set(at + 1, ((value / 256) % 256) as u8);
    data.set(at + 2, ((value / 65536) % 256) as u8);
    data.set(at + 3, (value / 16777216) as u8);
}

proof fn lemma_u32_written(data: Seq<u8>, at: int, value: u32)
    requires
        0 <= at,
        at + 4 <= data.len(),
    ensures
        with_u32(data, at, value).len() == data.len(),
        u32_at(with_u32(data, at, value), at) == value,
        forall|i: int|
            0 <= i < data.len() && !(at <= i < at + 4) ==> #[trigger] with_u32(data, at, value)[i]
                == data[i],
{
}

/// A slot that was written is the one that is read, all other slots stay as they are, and so do
/// all bytes outside its batch.
#[verifier::rlimit(30)]
pub proof fn lemma_slot_written(data: Seq<u8>, padded_dim: int, k: int, slot: SlotModel)
    requires
        0 <= padded_dim,
        0 <= k,
        slot.code.len() == padded_dim / 8,
        (k / 32) * stride(padded_dim) + stride(padded_dim) <= data.len(),
    ensures
        with_slot(data, padded_dim, k, slot).len() == data.len(),
        slot_at(with_slot(data, padded_dim, k, slot), padded_dim, k) == slot,
        forall|i: int|
            0 <= i && i != k && (i / 32) * stride(padded_dim) + stride(padded_dim) <= data.len()
                ==> #[trigger] slot_at(with_slot(data, padded_dim, k, slot), padded_dim, i)
                == slot_at(data, padded_dim, i),
        forall|p: int|
            0 <= p < (k / 32) * stride(padded_dim) ==> #[trigger] with_slot(
                data,
                padded_dim,
                k,
                slot,
            )[p] == data[p],
{
    let pd = padded_dim;
    let base = (k / 32) * stride(pd);
    let s = k % 32;
    assert(0 <= base) by (nonlinear_arith)
        requires
            0 <= k / 32,
            0 <= stride(pd),
            base == (k / 32) * stride(pd),
    ;
    let params = base + 4 * pd + 4 * s;
    let coded = with_code(data, base, s, slot.code);
    let one = with_u32(coded, params, slot.f_add);
    let two = with_u32(one, params + 128, slot.f_rescale);
    let after = with_u32(two, params + 256, slot.f_error);
    assert(after == with_slot(data, pd, k, slot));
    lemma_code_written(data, base, s, slot.code);
    lemma_u32_written(coded, params, slot.f_add);
    lemma_u32_written(one, params + 128, slot.f_rescale);
    lemma_u32_written(two, params + 256, slot.f_error);
    assert forall|p: int|
        0 <= p < data.len() && !(base <= p < base + stride(pd)) implies #[trigger] after[p]
        == data[p] by {
        assert(coded[p] == data[p]);
    }
    assert forall|t: int, c: int| 0 <= t < 32 && 0 <= c < pd / 8 implies #[trigger] code_byte(
        after,
        base,
        t,
        c,
    ) == code_byte(coded, base, t, c) by {
        assert(0 <= lane(t) < 16);
    }
    assert(code_at(after, base, s, pd / 8) =~= code_at(coded, base, s, pd / 8));
    assert(slot_at(after, pd, k) =~= slot);
    assert forall|i: int|
        0 <= i && i != k && (i / 32) * stride(pd) + stride(pd)
            <= data.len() implies #[trigger] slot_at(after, pd, i) == slot_at(data, pd, i) by {
        if i / 32 == k / 32 {
            let t = i % 32;
            assert(t != s);
            assert forall|c: int| 0 <= c < pd / 8 implies code_byte(after, base, t, c) == code_byte(
                data,
                base,
                t,
                c,
            ) by {
                assert(code_byte(after, base, t, c) == code_byte(coded, base, t, c));
            }
            assert(code_at(after, base, t, pd / 8) =~= code_at(data, base, t, pd / 8));
            let other = base + 4 * pd + 4 * t;
            assert forall|p: int| base + 4 * pd <= p < base + stride(pd) && !(params <= p < params
                + 4) && !(params + 128 <= p < params + 132) && !(params + 256 <= p < params
                + 260) implies #[trigger] after[p] == data[p] by {
                assert(coded[p] == data[p]);
            }
            assert(u32_at(after, other) == u32_at(data, other));
            assert(u32_at(after, other + 128) == u32_at(data, other + 128));
            assert(u32_at(after, other + 256) == u32_at(data, other + 256));
        } else {
            if i / 32 < k / 32 {
                lemma_batches_apart(pd, i / 32, k / 32);
            } else {
                lemma_batches_apart(pd, k / 32, i / 32);
            }
            lemma_slot_frame(after, data, pd, i);
        }
    }
}

/// What one more slot leaves: the slots from before, the new one, and zeros behind it where a
/// batch was begun.
#[verifier::rlimit(30)]
pub proof fn lemma_next_slot_written(data: Seq<u8>, padded_dim: int, n: int, slot: SlotModel)
    requires
        0 <= padded_dim,
        0 <= n,
        slot.code.len() == padded_dim / 8,
        data.len() == batches(n) * stride(padded_dim),
    ensures
        with_next_slot(data, padded_dim, n, slot).len() == batches(n + 1) * stride(padded_dim),
        slot_at(with_next_slot(data, padded_dim, n, slot), padded_dim, n) == slot,
        forall|k: int|
            0 <= k < 32 * batches(n + 1) && k != n ==> #[trigger] slot_at(
                with_next_slot(data, padded_dim, n, slot),
                padded_dim,
                k,
            ) == if k < 32 * batches(n) {
                slot_at(data, padded_dim, k)
            } else {
                zero_slot(padded_dim)
            },
        forall|p: int|
            0 <= p < (n / 32) * stride(padded_dim) ==> #[trigger] with_next_slot(
                data,
                padded_dim,
                n,
                slot,
            )[p] == data[p],
{
    let pd = padded_dim;
    let st = stride(pd);
    let grown = if n % 32 == 0 {
        data + Seq::new(st as nat, |i: int| 0u8)
    } else {
        data
    };
    lemma_batch_count(n);
    assert(batches(n + 1) == n / 32 + 1);
    assert((n / 32 + 1) * st == (n / 32) * st + st) by (nonlinear_arith);
    if n % 32 == 0 {
        assert(batches(n) == n / 32);
    } else {
        assert(batches(n) == n / 32 + 1);
    }
    assert((n / 32) * st <= batches(n) * st) by (nonlinear_arith)
        requires
            n / 32 <= batches(n),
            0 <= st,
    ;
    assert(grown.len() == batches(n + 1) * st);
    lemma_slot_written(grown, pd, n, slot);
    assert forall|k: int| 0 <= k < 32 * batches(n + 1) && k != n implies #[trigger] slot_at(
        with_next_slot(data, pd, n, slot),
        pd,
        k,
    ) == if k < 32 * batches(n) {
        slot_at(data, pd, k)
    } else {
        zero_slot(pd)
    } by {
        lemma_batches_apart(pd, k / 32, batches(n + 1));
        assert(slot_at(with_next_slot(data, pd, n, slot), pd, k) == slot_at(grown, pd, k));
        if k < 32 * batches(n) {
            lemma_batches_apart(pd, k / 32, batches(n));
            lemma_slot_frame(grown, data, pd, k);
        } else {
            assert(k / 32 == batches(n));
            lemma_zero_slots(grown, pd, k);
        }
    }
}

/// Writes a vector into slot `k % 32` of batch `k / 32`.
fn store_slot(data: &mut Vec<u8>, padded_dim: usize, k: usize, q: &QuantizedVector)
    requires
        q@.code.len() == padded_dim / 8,
        (k as int / 32) * stride(padded_dim as int) + stride(padded_dim as int)
            <= old(data)@.len(),
    ensures
        final(data)@ == with_slot(old(data)@, padded_dim as int, k as int, slot_of(q@)),
{
    let total: usize = data.len();
    let ghost pd = padded_dim as int;
    proof {
        assert(0 <= (k as int / 32) * stride(pd)) by (nonlinear_arith)
            requires
                0 <= k as int / 32,
                0 <= stride(pd),
        ;
    }
    assert(data@.len() == total);
    let base: usize = (k / 32) * (4 * padded_dim + 384);
    let s: usize = k % 32;
    store_code(data, base, s, q.binary_code_packed.as_slice());
    let params: usize = base + 4 * padded_dim + 4 * s;
    store_u32(data, params, q.f_add);
    store_u32(data, params + 128, q.f_rescale);
    store_u32(data, params + 256, q.f_error);
}

/// The vectors of one cluster.
#[derive(Debug)]
pub struct ClusterData {
    /// Cluster centroid, as bits.
    pub centroid: Vec<u32>,
    /// Ids of the packed vectors.
    pub ids: Vec<u64>,
    /// All batches, one after the other.
    pub batch_data: Vec<u8>,
    /// Packed extended code of each packed vector.
    pub ex_codes_packed: Vec<Vec<u8>>,
    /// Parameters of the refined distance of each packed vector.
    pub f_add_ex: Vec<u32>,
    pub f_rescale_ex: Vec<u32>,
    /// Reconstruction parameters of each packed vector.
    pub delta: Vec<u32>,
    pub vl: Vec<u32>,
    /// Number of packed vectors.
    pub num_vectors: usize,
    pub padded_dim: usize,
    pub ex_bits: usize,
    /// Ids of the vectors that are not packed yet.
    pub pending_ids: Vec<u64>,
    /// The vectors that are not packed yet.
    pub pending_vectors: Vec<QuantizedVector>,
}

/// What a cluster holds.
#[verifier::ext_equal]
pub struct ClusterModel {
    pub centroid: Seq<u32>,
    pub ids: Seq<u64>,
    pub batch_data: Seq<u8>,
    pub ex_codes: Seq<Seq<u8>>,
    pub f_add_ex: Seq<u32>,
    pub f_rescale_ex: Seq<u32>,
    pub delta: Seq<u32>,
    pub vl: Seq<u32>,
    pub num_vectors: usize,
    pub padded_dim: usize,
    pub ex_bits: usize,
    pub pending_ids: Seq<u64>,
    pub pending: Seq<QuantizedModel>,
}

impl View for ClusterData {
    type V = ClusterModel;

    open spec fn view(&self) -> ClusterModel {
        ClusterModel {
            centroid: self.centroid@,
            ids: self.ids@,
            batch_data: self.batch_data@,
            ex_codes: nested(self.ex_codes_packed@),
            f_add_ex: self.f_add_ex@,
            f_rescale_ex: self.f_rescale_ex@,
            delta: self.delta@,
            vl: self.vl@,
            num_vectors: self.num_vectors,
            padded_dim: self.padded_dim,
            ex_bits: self.ex_bits,
            pending_ids: self.pending_ids@,
            pending: models(self.pending_vectors@),
        }
    }
}

/// A vector as a cluster with `ex_bits` extended bits keeps it once it is packed.
pub open spec fn stored(q: QuantizedModel, padded_dim: usize, ex_bits: usize) -> QuantizedModel {
    QuantizedModel {
        code: if padded_dim % 8 == 0 {
            q.code
        } else {
            q.code.push(0)
        },
        ex_code: if ex_bits > 0 {
            q.ex_code
        } else {
            Seq::empty()
        },
        ex_bits: ex_bits as u8,
        dim: padded_dim,
        delta: q.delta,
        vl: q.vl,
        f_add: q.f_add,
        f_rescale: q.f_rescale,
        f_error: q.f_error,
        residual_norm: 0,
        f_add_ex: if ex_bits > 0 {
            q.f_add_ex
        } else {
            0
        },
        f_rescale_ex: if ex_bits > 0 {
            q.f_rescale_ex
        } else {
            0
        },
    }
}

/// The vectors of a sequence as a cluster keeps them once they are packed.
pub open spec fn stored_all(
    vectors: Seq<QuantizedModel>,
    padded_dim: usize,
    ex_bits: usize,
) -> Seq<QuantizedModel> {
    vectors.map_values(|q: QuantizedModel| stored(q, padded_dim, ex_bits))
}

/// Whether a code has the length that a cluster packs.
pub open spec fn packable(vectors: Seq<QuantizedModel>, padded_dim: int) -> bool {
    forall|i: int| 0 <= i < vectors.len() ==> (#[trigger] vectors[i]).code.len() == padded_dim / 8
}

/// The element at `i`, or `default` past the end.
pub open spec fn get_or<T>(s: Seq<T>, i: int, default: T) -> T {
    if 0 <= i < s.len() {
        s[i]
    } else {
        default
    }
}

impl ClusterModel {
    /// The layout holds together: one entry of everything for each packed vector, and exactly
    /// as many batches as these need.
    pub open spec fn well_formed(self) -> bool {
        let n = self.num_vectors as int;
        &&& self.centroid.len() == self.padded_dim
        &&& self.ids.len() == n
        &&& self.batch_data.len() == batches(n) * stride(self.padded_dim as int)
        &&& self.ex_codes.len() == n
        &&& self.f_add_ex.len() == n
        &&& self.f_rescale_ex.len() == n
        &&& self.delta.len() == n
        &&& self.vl.len() == n
        &&& self.pending_ids.len() == self.pending.len()
        &&& packable(self.pending, self.padded_dim as int)
    }

    /// Number of vectors, packed and pending.
    pub open spec fn total(self) -> int {
        self.num_vectors + self.pending_ids.len()
    }

    /// Whether the batches of `extra` more vectors can be addressed.
    pub open spec fn has_room(self, extra: int) -> bool {
        &&& self.num_vectors + extra + 31 <= usize::MAX
        &&& batches(self.num_vectors + extra) * stride(self.padded_dim as int) <= usize::MAX
    }

    /// Slot `k` of the batches.
    pub open spec fn slot(self, k: int) -> SlotModel {
        slot_at(self.batch_data, self.padded_dim as int, k)
    }

    /// Packed vector `i`. Missing per-vector entries read as zero or empty.
    pub open spec fn packed(self, i: int) -> QuantizedModel {
        let slot = self.slot(i);
        QuantizedModel {
            code: if self.padded_dim % 8 == 0 {
                slot.code
            } else {
                slot.code.push(0)
            },
            ex_code: get_or(self.ex_codes, i, Seq::empty()),
            ex_bits: self.ex_bits as u8,
            dim: self.padded_dim,
            delta: get_or(self.delta, i, 0),
            vl: get_or(self.vl, i, 0),
            f_add: slot.f_add,
            f_rescale: slot.f_rescale,
            f_error: slot.f_error,
            residual_norm: 0,
            f_add_ex: get_or(self.f_add_ex, i, 0),
            f_rescale_ex: get_or(self.f_rescale_ex, i, 0),
        }
    }

    /// The packed vectors, in order.
    pub open spec fn packed_vectors(self) -> Seq<QuantizedModel> {
        Seq::new(self.num_vectors as nat, |i: int| self.packed(i))
    }

    /// All vectors, packed and pending, in order.
    pub open spec fn vectors(self) -> Seq<QuantizedModel> {
        self.packed_vectors() + self.pending
    }

    /// The ids of all vectors, packed and pending, in order.
    pub open spec fn all_ids(self) -> Seq<u64> {
        self.ids + self.pending_ids
    }

    /// Every slot behind the last packed vector holds zeros.
    pub open spec fn zero_padded(self) -> bool {
        forall|k: int|
            self.num_vectors <= k < 32 * batches(self.num_vectors as int)
                ==> #[trigger] self.slot(k) == zero_slot(self.padded_dim as int)
    }

    /// This cluster with one more packed vector: it takes the next slot, after a fresh batch of
    /// zeros where the last one is full. Nothing else changes.
    pub open spec fn packs(self, after: ClusterModel, id: u64, q: QuantizedModel) -> bool {
        let n = self.num_vectors as int;
        &&& after.centroid == self.centroid
        &&& after.ids == self.ids.push(id)
        &&& after.ex_codes == self.ex_codes.push(
            if self.ex_bits > 0 {
                q.ex_code
            } else {
                Seq::empty()
            },
        )
        &&& after.f_add_ex == self.f_add_ex.push(
            if self.ex_bits > 0 {
                q.f_add_ex
            } else {
                0
            },
        )
        &&& after.f_rescale_ex == self.f_rescale_ex.push(
            if self.ex_bits > 0 {
                q.f_rescale_ex
            } else {
                0
            },
        )
        &&& after.delta == self.delta.push(q.delta)
        &&& after.vl == self.vl.push(q.vl)
        &&& after.num_vectors == n + 1
        &&& after.padded_dim == self.padded_dim
        &&& after.ex_bits == self.ex_bits
        &&& after.pending_ids == self.pending_ids
        &&& after.pending == self.pending
        &&& after.batch_data.len() == batches(n + 1) * stride(self.padded_dim as int)
        &&& after.batch_data == with_next_slot(
            self.batch_data,
            self.padded_dim as int,
            n,
            slot_of(q),
        )
        &&& after.slot(n) == slot_of(q)
        &&& forall|k: int|
            0 <= k < 32 * batches(n + 1) && k != n ==> #[trigger] after.slot(k) == if k < 32
                * batches(n) {
                self.slot(k)
            } else {
                zero_slot(self.padded_dim as int)
            }
    }
}

impl ClusterModel {
    /// This cluster with one more pending vector.
    pub open spec fn with_pending(self, id: u64, q: QuantizedModel) -> ClusterModel {
        ClusterModel {
            pending_ids: self.pending_ids.push(id),
            pending: self.pending.push(q),
            ..self
        }
    }

    /// This cluster with all pending vectors packed, in order, behind the packed ones.
    pub open spec fn flushes(self, after: ClusterModel) -> bool {
        &&& after.well_formed()
        &&& after.centroid == self.centroid
        &&& after.ids == self.all_ids()
        &&& after.num_vectors == self.total()
        &&& after.padded_dim == self.padded_dim
        &&& after.ex_bits == self.ex_bits
        &&& after.pending_ids == Seq::<u64>::empty()
        &&& after.pending == Seq::<QuantizedModel>::empty()
        &&& after.packed_vectors() == self.packed_vectors() + stored_all(
            self.pending,
            self.padded_dim,
            self.ex_bits,
        )
        &&& after.batch_data == with_slots(
            self.batch_data,
            self.padded_dim as int,
            self.num_vectors as int,
            slots_of(self.pending),
        )
        &&& self.zero_padded() ==> after.zero_padded()
    }

    /// This cluster with one more vector: it waits in the pending buffer, unless it is the one
    /// that fills a batch of 32 there, which flushes the buffer.
    pub open spec fn appends(self, after: ClusterModel, id: u64, q: QuantizedModel) -> bool {
        if self.pending_ids.len() + 1 >= 32 {
            self.with_pending(id, q).flushes(after)
        } else {
            after == self.with_pending(id, q)
        }
    }
}

pub proof fn lemma_packs(before: ClusterModel, after: ClusterModel, id: u64, q: QuantizedModel)
    requires
        before.well_formed(),
        before.packs(after, id, q),
    ensures
        after.packed_vectors() == before.packed_vectors().push(
            stored(q, before.padded_dim, before.ex_bits),
        ),
        before.zero_padded() ==> after.zero_padded(),
{
    let n = before.num_vectors as int;
    lemma_batch_count(n);
    assert forall|i: int| 0 <= i < n implies after.packed(i) == before.packed(i) by {
        assert(after.slot(i) == before.slot(i));
    }
    assert(after.slot(n) == slot_of(q));
    assert(after.packed(n) == stored(q, before.padded_dim, before.ex_bits));
    assert(after.packed_vectors() =~= before.packed_vectors().push(
        stored(q, before.padded_dim, before.ex_bits),
    ));
    if before.zero_padded() {
        assert forall|k: int| n + 1 <= k < 32 * batches(n + 1) implies #[trigger] after.slot(k)
            == zero_slot(after.padded_dim as int) by {
            if k < 32 * batches(n) {
                assert(before.slot(k) == zero_slot(before.padded_dim as int));
            }
        }
    }
}

proof fn lemma_room(c: ClusterModel, few: int, many: int)
    requires
        0 <= few <= many,
        c.has_room(many),
    ensures
        c.has_room(few),
{
    let n = c.num_vectors as int;
    let st = stride(c.padded_dim as int);
    assert(batches(n + few) * st <= batches(n + many) * st) by (nonlinear_arith)
        requires
            batches(n + few) <= batches(n + many),
            0 <= st,
    ;
}

/// A cluster that has received some of the vectors that it had room for has room for the next.
pub proof fn lemma_room_left(before: ClusterModel, now: ClusterModel, extra: int)
    requires
        before.has_room(before.pending.len() + extra),
        before.pending.len() == before.pending_ids.len(),
        now.pending.len() == now.pending_ids.len(),
        now.padded_dim == before.padded_dim,
        now.total() + 1 <= before.total() + extra,
    ensures
        now.has_room(now.pending.len() + 1int),
{
    let n = now.total() + 1;
    let all = before.total() + extra;
    let st = stride(before.padded_dim as int);
    assert(batches(n) * st <= batches(all) * st) by (nonlinear_arith)
        requires
            batches(n) <= batches(all),
            0 <= st,
    ;
}

impl ClusterData {
    /// Bytes of one batch.
    pub fn batch_stride(padded_dim: usize) -> (r: usize)
        requires
            stride(padded_dim as int) <= usize::MAX,
        ensures
            r == stride(padded_dim as int),
    {
        4 * padded_dim + 384
    }

    /// A cluster without vectors.
    pub fn new(centroid: Vec<u32>, padded_dim: usize, ex_bits: usize) -> (r: ClusterData)
        ensures
            r@ == empty_cluster(centroid@, padded_dim, ex_bits),
    {
        let r = ClusterData {
            centroid,
            ids: Vec::new(),
            batch_data: Vec::new(),
            ex_codes_packed: Vec::new(),
            f_add_ex: Vec::new(),
            f_rescale_ex: Vec::new(),
            delta: Vec::new(),
            vl: Vec::new(),
            num_vectors: 0,
            padded_dim,
            ex_bits,
            pending_ids: Vec::new(),
            pending_vectors: Vec::new(),
        };
        assert(r@ =~= empty_cluster(centroid@, padded_dim, ex_bits));
        r
    }

    /// Packs one vector into the next free slot.
    pub fn pack_vector(&mut self, id: u64, q: &QuantizedVector)
        requires
            old(self)@.well_formed(),
            old(self)@.has_room(1),
            q@.code.len() == old(self)@.padded_dim / 8,
        ensures
            final(self)@.well_formed(),
            old(self)@.packs(final(self)@, id, q@),
    {
        let ghost before = self@;
        let ghost pd = self.padded_dim as int;
        let ghost n = self.num_vectors as int;
        let k: usize = self.num_vectors;
        let padded_dim: usize = self.padded_dim;
        proof {
            lemma_batch_count(n);
            lemma_stride_fits(pd, batches(n + 1));
            assert(batches(n) * stride(pd) + stride(pd) == (batches(n) + 1) * stride(pd))
                by (nonlinear_arith);
        }
        if k % FASTSCAN_BATCH_SIZE == 0 {
            let grown: usize = self.batch_data.len() + Self::batch_stride(padded_dim);
            self.batch_data.resize(grown, 0u8);
        }
        proof {
            if n % 32 == 0 {
                assert(self.batch_data@ =~= before.batch_data + Seq::new(
                    stride(pd) as nat,
                    |i: int| 0u8,
                ));
            }
            lemma_batches_apart(pd, n / 32, batches(n + 1));
            lemma_next_slot_written(before.batch_data, pd, n, slot_of(q@));
        }
        store_slot(&mut self.batch_data, padded_dim, k, q);
        if self.ex_bits > 0 {
            self.ex_codes_packed.push(vstd::slice::slice_to_vec(q.ex_code_packed.as_slice()));
            self.f_add_ex.push(q.f_add_ex);
            self.f_rescale_ex.push(q.f_rescale_ex);
        } else {
            self.ex_codes_packed.push(Vec::new());
            self.f_add_ex.push(0);
            self.f_rescale_ex.push(0);
        }
        self.delta.push(q.delta);
        self.vl.push(q.vl);
        self.ids.push(id);
        self.num_vectors = self.num_vectors + 1;
        proof {
            assert(self@.ex_codes =~= before.ex_codes.push(
                if before.ex_bits > 0 {
                    q@.ex_code
                } else {
                    Seq::empty()
                },
            ));
        }
    }
}

impl ClusterData {
    /// Builds a cluster from its vectors, packed in order and padded with zeros to whole
    /// batches.
    pub fn from_quantized_vectors(
        centroid: Vec<u32>,
        ids: Vec<u64>,
        vectors: Vec<QuantizedVector>,
        padded_dim: usize,
        ex_bits: usize,
    ) -> (r: ClusterData)
        requires
            centroid@.len() == padded_dim,
            ids@.len() == vectors@.len(),
            packable(models(vectors@), padded_dim as int),
            empty_cluster(centroid@, padded_dim, ex_bits).has_room(vectors@.len() as int),
        ensures
            is_packed_cluster(r@, centroid@, ids@, models(vectors@), padded_dim, ex_bits),
    {
        let ghost start = empty_cluster(centroid@, padded_dim, ex_bits);
        let mut cluster = ClusterData::new(centroid, padded_dim, ex_bits);
        let mut i: usize = 0;
        assert(models(vectors@).take(0) =~= Seq::empty());
        assert(cluster@.packed_vectors() =~= stored_all(Seq::empty(), padded_dim, ex_bits));
        assert(cluster@.ids =~= ids@.take(0));
        while i < vectors.len()
            invariant
                i <= vectors@.len(),
                ids@.len() == vectors@.len(),
                packable(models(vectors@), padded_dim as int),
                start == empty_cluster(start.centroid, padded_dim, ex_bits),
                start.centroid.len() == padded_dim,
                start.has_room(vectors@.len() as int),
                is_packed_cluster(
                    cluster@,
                    start.centroid,
                    ids@.take(i as int),
                    models(vectors@).take(i as int),
                    padded_dim,
                    ex_bits,
                ),
            decreases vectors@.len() - i,
        {
            let ghost before = cluster@;
            proof {
                lemma_room(start, i + 1, vectors@.len() as int);
                assert(models(vectors@)[i as int] == vectors@[i as int]@);
            }
            cluster.pack_vector(ids[i], &vectors[i]);
            proof {
                let q = vectors@[i as int]@;
                lemma_packs(before, cluster@, ids@[i as int], q);
                assert(models(vectors@).take(i + 1) =~= models(vectors@).take(i as int).push(q));
                lemma_slots_push(
                    Seq::empty(),
                    padded_dim as int,
                    0,
                    slots_of(models(vectors@).take(i as int)),
                    slot_of(q),
                );
                assert(slots_of(models(vectors@).take(i + 1)) =~= slots_of(
                    models(vectors@).take(i as int),
                ).push(slot_of(q)));
                assert(ids@.take(i + 1) =~= ids@.take(i as int).push(ids@[i as int]));
                assert(stored_all(models(vectors@).take(i + 1), padded_dim, ex_bits) =~= stored_all(
                    models(vectors@).take(i as int),
                    padded_dim,
                    ex_bits,
                ).push(stored(q, padded_dim, ex_bits)));
            }
            i += 1;
        }
        assert(ids@.take(i as int) =~= ids@);
        assert(models(vectors@).take(i as int) =~= models(vectors@));
        cluster
    }

    /// Number of vectors, packed and pending.
    pub fn total_vectors(&self) -> (r: usize)
        requires
            self@.total() <= usize::MAX,
        ensures
            r == self@.total(),
    {
        self.num_vectors + self.pending_ids.len()
    }

    /// Packs all pending vectors, behind the packed ones. The last batch is padded with zeros
    /// where they do not fill it.
    pub fn flush_pending(&mut self)
        requires
            old(self)@.well_formed(),
            old(self)@.has_room(old(self)@.pending.len() as int),
        ensures
            old(self)@.flushes(final(self)@),
    {
        let ghost before = self@;
        let mut ids: Vec<u64> = Vec::new();
        let mut vectors: Vec<QuantizedVector> = Vec::new();
        std::mem::swap(&mut self.pending_ids, &mut ids);
        std::mem::swap(&mut self.pending_vectors, &mut vectors);
        let mut i: usize = 0;
        proof {
            assert(self@.pending =~= Seq::<QuantizedModel>::empty());
            assert(self@.ids =~= before.ids + ids@.take(0));
            assert(before.pending == models(vectors@));
            assert(stored_all(
                models(vectors@).take(0),
                before.padded_dim,
                before.ex_bits,
            ) =~= Seq::empty());
            assert forall|j: int| 0 <= j < before.num_vectors implies self@.packed(j)
                == before.packed(j) by {
                assert(self@.slot(j) == before.slot(j));
            }
            assert(self@.packed_vectors() =~= before.packed_vectors() + stored_all(
                models(vectors@).take(0),
                before.padded_dim,
                before.ex_bits,
            ));
            if before.zero_padded() {
                assert forall|k: int|
                    self@.num_vectors <= k < 32 * batches(
                        self@.num_vectors as int,
                    ) implies #[trigger] self@.slot(k) == zero_slot(
                    self@.padded_dim as int,
                ) by {
                    assert(self@.slot(k) == before.slot(k));
                }
            }
        }
        while i < ids.len()
            invariant
                i <= ids@.len(),
                ids@.len() == vectors@.len(),
                before.well_formed(),
                before.has_room(ids@.len() as int),
                before.pending_ids == ids@,
                before.pending == models(vectors@),
                self@.well_formed(),
                self@.centroid == before.centroid,
                self@.ids == before.ids + ids@.take(i as int),
                self@.num_vectors == before.num_vectors + i,
                self@.padded_dim == before.padded_dim,
                self@.ex_bits == before.ex_bits,
                self@.pending_ids == Seq::<u64>::empty(),
                self@.pending == Seq::<QuantizedModel>::empty(),
                self@.packed_vectors() == before.packed_vectors() + stored_all(
                    models(vectors@).take(i as int),
                    before.padded_dim,
                    before.ex_bits,
                ),
                self@.batch_data == with_slots(
                    before.batch_data,
                    before.padded_dim as int,
                    before.num_vectors as int,
                    slots_of(models(vectors@).take(i as int)),
                ),
                before.zero_padded() ==> self@.zero_padded(),
            decreases ids@.len() - i,
        {
            let ghost current = self@;
            proof {
                lemma_room(before, i + 1, ids@.len() as int);
                assert(before.pending[i as int] == vectors@[i as int]@);
            }
            self.pack_vector(ids[i], &vectors[i]);
            proof {
                let q = vectors@[i as int]@;
                lemma_packs(current, self@, ids@[i as int], q);
                assert(models(vectors@).take(i + 1) =~= models(vectors@).take(i as int).push(q));
                lemma_slots_push(
                    before.batch_data,
                    before.padded_dim as int,
                    before.num_vectors as int,
                    slots_of(models(vectors@).take(i as int)),
                    slot_of(q),
                );
                assert(slots_of(models(vectors@).take(i + 1)) =~= slots_of(
                    models(vectors@).take(i as int),
                ).push(slot_of(q)));
                assert(self@.ids =~= before.ids + ids@.take(i + 1));
                assert(self@.packed_vectors() =~= before.packed_vectors() + stored_all(
                    models(vectors@).take(i + 1),
                    before.padded_dim,
                    before.ex_bits,
                ));
            }
            i += 1;
        }
        assert(ids@.take(i as int) =~= ids@);
        assert(models(vectors@).take(i as int) =~= models(vectors@));
    }

    /// Adds a vector to the pending buffer, and flushes the buffer when it holds a full batch.
    pub fn append_vector(&mut self, new_id: u64, new_q: QuantizedVector)
        requires
            old(self)@.well_formed(),
            new_q@.code.len() == old(self)@.padded_dim / 8,
            old(self)@.has_room(old(self)@.pending.len() + 1int),
        ensures
            final(self)@.well_formed(),
            old(self)@.appends(final(self)@, new_id, new_q@),
    {
        let ghost before = self@;
        self.pending_ids.push(new_id);
        self.pending_vectors.push(new_q);
        assert(self@ =~= before.with_pending(new_id, new_q@));
        if self.pending_ids.len() >= FASTSCAN_BATCH_SIZE {
            self.flush_pending();
        }
    }
}

impl ClusterModel {
    /// Whether batch `b` lies within the data.
    pub open spec fn has_batch(self, b: int) -> bool {
        &&& 0 <= b
        &&& b * stride(self.padded_dim as int) + stride(self.padded_dim as int)
            <= self.batch_data.len()
    }
}

/// The batch of a packed vector lies within the data of a well-formed cluster.
pub proof fn lemma_has_batch(c: ClusterModel, i: int)
    requires
        c.well_formed(),
        0 <= i < c.num_vectors,
    ensures
        c.has_batch(i / 32),
{
    lemma_batches_apart(c.padded_dim as int, i / 32, batches(c.num_vectors as int));
}

/// A copy of the element at `i`, or zero past the end.
fn get_or_zero(v: &[u32], i: usize) -> (r: u32)
    ensures
        r == get_or(v@, i as int, 0),
{
    if i < v.len() {
        v[i]
    } else {
        0
    }
}

impl ClusterData {
    /// Number of batches that are full.
    pub fn num_complete_batches(&self) -> (r: usize)
        ensures
            r == self@.num_vectors as int / 32,
    {
        self.num_vectors / FASTSCAN_BATCH_SIZE
    }

    /// Number of vectors in the batch that is not full.
    pub fn num_remainder_vectors(&self) -> (r: usize)
        ensures
            r == self@.num_vectors as int % 32,
    {
        self.num_vectors % FASTSCAN_BATCH_SIZE
    }

    /// The first byte of a batch.
    fn batch_base(&self, batch_idx: usize) -> (base: usize)
        requires
            self@.has_batch(batch_idx as int),
        ensures
            base == batch_idx * stride(self@.padded_dim as int),
            base + stride(self@.padded_dim as int) <= self@.batch_data.len(),
            self@.batch_data.len() <= usize::MAX,
    {
        let total: usize = self.batch_data.len();
        proof {
            let st = stride(self@.padded_dim as int);
            assert(0 <= batch_idx * st) by (nonlinear_arith)
                requires
                    0 <= st,
            ;
            assert(st <= total);
        }
        batch_idx * (4 * self.padded_dim + 384)
    }

    /// The packed binary codes of a batch.
    pub fn batch_bin_codes(&self, batch_idx: usize) -> (codes: &[u8])
        requires
            self@.has_batch(batch_idx as int),
        ensures
            codes@ == self@.batch_data.subrange(
                batch_idx * stride(self@.padded_dim as int),
                batch_idx * stride(self@.padded_dim as int) + 4 * self@.padded_dim,
            ),
    {
        let base: usize = self.batch_base(batch_idx);
        vstd::slice::slice_subrange(
            self.batch_data.as_slice(),
            base,
            base + 4 * self.padded_dim,
        )
    }

    fn batch_params(&self, batch_idx: usize, skip: usize) -> (values: Vec<u32>)
        requires
            self@.has_batch(batch_idx as int),
            skip <= 256,
        ensures
            values@ == u32s_at(
                self@.batch_data,
                batch_idx * stride(self@.padded_dim as int) + 4 * self@.padded_dim + skip,
                32,
            ),
    {
        let base: usize = self.batch_base(batch_idx);
        let mut pos: usize = base + 4 * self.padded_dim + skip;
        match read_f32s(self.batch_data.as_slice(), &mut pos, FASTSCAN_BATCH_SIZE) {
            Ok(values) => values,
            Err(_) => Vec::new(),
        }
    }

    /// The `f_add` parameters of a batch.
    pub fn batch_f_add(&self, batch_idx: usize) -> (values: Vec<u32>)
        requires
            self@.has_batch(batch_idx as int),
        ensures
            values@ == Seq::new(32, |s: int| self@.slot(32 * batch_idx + s).f_add),
    {
        let values: Vec<u32> = self.batch_params(batch_idx, 0);
        assert(values@ =~= Seq::new(32, |s: int| self@.slot(32 * batch_idx + s).f_add));
        values
    }

    /// The `f_rescale` parameters of a batch.
    pub fn batch_f_rescale(&self, batch_idx: usize) -> (values: Vec<u32>)
        requires
            self@.has_batch(batch_idx as int),
        ensures
            values@ == Seq::new(32, |s: int| self@.slot(32 * batch_idx + s).f_rescale),
    {
        let values: Vec<u32> = self.batch_params(batch_idx, 128);
        assert(values@ =~= Seq::new(32, |s: int| self@.slot(32 * batch_idx + s).f_rescale));
        values
    }

    /// The `f_error` parameters of a batch.
    pub fn batch_f_error(&self, batch_idx: usize) -> (values: Vec<u32>)
        requires
            self@.has_batch(batch_idx as int),
        ensures
            values@ == Seq::new(32, |s: int| self@.slot(32 * batch_idx + s).f_error),
    {
        let values: Vec<u32> = self.batch_params(batch_idx, 256);
        assert(values@ =~= Seq::new(32, |s: int| self@.slot(32 * batch_idx + s).f_error));
        values
    }

    /// The `f_add` parameter of one vector.
    pub fn get_vector_f_add(&self, vec_idx: usize) -> (value: u32)
        requires
            self@.has_batch(vec_idx as int / 32),
        ensures
            value == self@.slot(vec_idx as int).f_add,
    {
        let values: Vec<u32> = self.batch_f_add(vec_idx / FASTSCAN_BATCH_SIZE);
        values[vec_idx % FASTSCAN_BATCH_SIZE]
    }

    /// The `f_rescale` parameter of one vector.
    pub fn get_vector_f_rescale(&self, vec_idx: usize) -> (value: u32)
        requires
            self@.has_batch(vec_idx as int / 32),
        ensures
            value == self@.slot(vec_idx as int).f_rescale,
    {
        let values: Vec<u32> = self.batch_f_rescale(vec_idx / FASTSCAN_BATCH_SIZE);
        values[vec_idx % FASTSCAN_BATCH_SIZE]
    }

    /// The `f_error` parameter of one vector.
    fn get_vector_f_error(&self, vec_idx: usize) -> (value: u32)
        requires
            self@.has_batch(vec_idx as int / 32),
        ensures
            value == self@.slot(vec_idx as int).f_error,
    {
        let values: Vec<u32> = self.batch_f_error(vec_idx / FASTSCAN_BATCH_SIZE);
        values[vec_idx % FASTSCAN_BATCH_SIZE]
    }

    /// Reads one packed vector back.
    pub fn packed_vector(&self, vec_idx: usize) -> (q: QuantizedVector)
        requires
            self@.has_batch(vec_idx as int / 32),
        ensures
            q@ == self@.packed(vec_idx as int),
    {
        let base: usize = self.batch_base(vec_idx / FASTSCAN_BATCH_SIZE);
        let mut code: Vec<u8> = load_code(
            self.batch_data.as_slice(),
            base,
            vec_idx % FASTSCAN_BATCH_SIZE,
            self.padded_dim / 8,
        );
        if self.padded_dim % 8 != 0 {
            code.push(0);
        }
        let ex_code: Vec<u8> = if vec_idx < self.ex_codes_packed.len() {
            vstd::slice::slice_to_vec(self.ex_codes_packed[vec_idx].as_slice())
        } else {
            Vec::new()
        };
        let q = QuantizedVector {
            binary_code_packed: code,
            ex_code_packed: ex_code,
            ex_bits: self.ex_bits as u8,
            dim: self.padded_dim,
            delta: get_or_zero(self.delta.as_slice(), vec_idx),
            vl: get_or_zero(self.vl.as_slice(), vec_idx),
            f_add: self.get_vector_f_add(vec_idx),
            f_rescale: self.get_vector_f_rescale(vec_idx),
            f_error: self.get_vector_f_error(vec_idx),
            residual_norm: 0,
            f_add_ex: get_or_zero(self.f_add_ex.as_slice(), vec_idx),
            f_rescale_ex: get_or_zero(self.f_rescale_ex.as_slice(), vec_idx),
        };
        assert(q@ =~= self@.packed(vec_idx as int));
        q
    }

    /// Reads all vectors back, the packed ones and then the pending ones.
    pub fn collect_quantized_vectors(&self) -> (vectors: Vec<QuantizedVector>)
        requires
            batches(self@.num_vectors as int) * stride(self@.padded_dim as int)
                <= self@.batch_data.len(),
        ensures
            models(vectors@) == self@.vectors(),
    {
        let mut result: Vec<QuantizedVector> = Vec::new();
        let mut i: usize = 0;
        assert(models(result@) =~= self@.packed_vectors().take(0));
        while i < self.num_vectors
            invariant
                i <= self.num_vectors,
                batches(self@.num_vectors as int) * stride(self@.padded_dim as int)
                    <= self@.batch_data.len(),
                models(result@) == self@.packed_vectors().take(i as int),
            decreases self.num_vectors - i,
        {
            proof {
                lemma_batches_apart(
                    self@.padded_dim as int,
                    i as int / 32,
                    batches(self@.num_vectors as int),
                );
            }
            let ghost sofar = result@;
            let q: QuantizedVector = self.packed_vector(i);
            result.push(q);
            proof {
                lemma_models_push(sofar, q);
            }
            i += 1;
            assert(models(result@) =~= self@.packed_vectors().take(i as int));
        }
        let mut j: usize = 0;
        assert(models(result@) =~= self@.packed_vectors() + self@.pending.take(0));
        while j < self.pending_vectors.len()
            invariant
                j <= self.pending_vectors@.len(),
                models(result@) == self@.packed_vectors() + self@.pending.take(j as int),
            decreases self.pending_vectors@.len() - j,
        {
            let ghost sofar = result@;
            let q: QuantizedVector = self.pending_vectors[j].duplicate();
            result.push(q);
            proof {
                lemma_models_push(sofar, q);
            }
            j += 1;
            assert(models(result@) =~= self@.packed_vectors() + self@.pending.take(j as int));
        }
        assert(self@.pending.take(j as int) =~= self@.pending);
        result
    }
}

/// A cluster whose vectors are all packed, padded with zeros to whole batches.
pub open spec fn is_packed_cluster(
    c: ClusterModel,
    centroid: Seq<u32>,
    ids: Seq<u64>,
    vectors: Seq<QuantizedModel>,
    padded_dim: usize,
    ex_bits: usize,
) -> bool {
    &&& c.well_formed()
    &&& c.centroid == centroid
    &&& c.ids == ids
    &&& c.num_vectors == vectors.len()
    &&& c.padded_dim == padded_dim
    &&& c.ex_bits == ex_bits
    &&& c.pending_ids == Seq::<u64>::empty()
    &&& c.pending == Seq::<QuantizedModel>::empty()
    &&& c.packed_vectors() == stored_all(vectors, padded_dim, ex_bits)
    &&& c.batch_data == with_slots(Seq::empty(), padded_dim as int, 0, slots_of(vectors))
    &&& c.zero_padded()
}

/// A cluster without vectors.
pub open spec fn empty_cluster(
    centroid: Seq<u32>,
    padded_dim: usize,
    ex_bits: usize,
) -> ClusterModel {
    ClusterModel {
        centroid,
        ids: Seq::empty(),
        batch_data: Seq::empty(),
        ex_codes: Seq::empty(),
        f_add_ex: Seq::empty(),
        f_rescale_ex: Seq::empty(),
        delta: Seq::empty(),
        vl: Seq::empty(),
        num_vectors: 0,
        padded_dim,
        ex_bits,
        pending_ids: Seq::empty(),
        pending: Seq::empty(),
    }
}

proof fn lemma_batch_count(n: int)
    requires
        0 <= n,
    ensures
        batches(n + 1) == if n % 32 == 0 {
            batches(n) + 1
        } else {
            batches(n)
        },
        n / 32 == batches(n + 1) - 1,
        n % 32 == 0 ==> batches(n) == n / 32,
{
}

proof fn lemma_stride_fits(padded_dim: int, b: int)
    requires
        0 <= padded_dim,
        1 <= b,
        b * stride(padded_dim) <= usize::MAX,
    ensures
        stride(padded_dim) <= usize::MAX,
{
    assert(stride(padded_dim) <= b * stride(padded_dim)) by (nonlinear_arith)
        requires
            1 <= b,
            0 <= stride(padded_dim),
    ;
}

impl ClusterModel {
    /// The vectors of the cluster as they are once all are packed.
    pub open spec fn contents(self) -> Seq<QuantizedModel> {
        self.packed_vectors() + stored_all(self.pending, self.padded_dim, self.ex_bits)
    }

    /// Number of pending vectors after `n` more have been appended: the buffer is flushed by the
    /// one that fills it.
    pub open spec fn pending_after(self, n: int) -> int {
        if n <= 0 {
            self.pending.len() as int
        } else if self.pending.len() >= 32 {
            (n - 1) % 32
        } else {
            (self.pending.len() + n) % 32
        }
    }

    /// This cluster after the vectors `qs` have been appended under the ids `ids`.
    pub open spec fn receives(
        self,
        after: ClusterModel,
        ids: Seq<u64>,
        qs: Seq<QuantizedModel>,
    ) -> bool {
        let waiting = self.pending_after(qs.len() as int);
        &&& after.well_formed()
        &&& after.centroid == self.centroid
        &&& after.padded_dim == self.padded_dim
        &&& after.ex_bits == self.ex_bits
        &&& after.all_ids() == self.all_ids() + ids
        &&& after.contents() == self.contents() + stored_all(qs, self.padded_dim, self.ex_bits)
        &&& after.total() == self.total() + qs.len()
        &&& after.pending.len() == waiting
        &&& after.pending == (self.pending + qs).subrange(
            (self.pending + qs).len() - waiting,
            (self.pending + qs).len() as int,
        )
        &&& after.batch_data == with_slots(
            self.batch_data,
            self.padded_dim as int,
            self.num_vectors as int,
            slots_of((self.pending + qs).take((self.pending + qs).len() - waiting)),
        )
        &&& self.zero_padded() ==> after.zero_padded()
    }
}

/// A cluster has received nothing from itself.
pub proof fn lemma_receives_nothing(c: ClusterModel)
    requires
        c.well_formed(),
    ensures
        c.receives(c, Seq::empty(), Seq::empty()),
{
    let none = Seq::<QuantizedModel>::empty();
    assert(c.all_ids() =~= c.all_ids() + Seq::empty());
    assert(c.contents() =~= c.contents() + stored_all(none, c.padded_dim, c.ex_bits));
    assert(c.pending =~= (c.pending + none).subrange(0, c.pending.len() as int));
    assert(slots_of((c.pending + none).take(0)) =~= Seq::empty());
}

proof fn lemma_append_step(b: ClusterModel, c: ClusterModel, id: u64, q: QuantizedModel)
    requires
        b.well_formed(),
        c.well_formed(),
        b.appends(c, id, q),
    ensures
        c.centroid == b.centroid,
        c.padded_dim == b.padded_dim,
        c.ex_bits == b.ex_bits,
        c.all_ids() == b.all_ids().push(id),
        c.contents() == b.contents().push(stored(q, b.padded_dim, b.ex_bits)),
        c.total() == b.total() + 1,
        c.pending == if b.pending.len() + 1 >= 32 {
            Seq::empty()
        } else {
            b.pending.push(q)
        },
        c.batch_data == if b.pending.len() + 1 >= 32 {
            with_slots(
                b.batch_data,
                b.padded_dim as int,
                b.num_vectors as int,
                slots_of(b.pending.push(q)),
            )
        } else {
            b.batch_data
        },
        b.zero_padded() ==> c.zero_padded(),
{
    let pd = b.padded_dim;
    let eb = b.ex_bits;
    let w = b.with_pending(id, q);
    assert(w.packed_vectors() =~= b.packed_vectors()) by {
        assert forall|i: int| 0 <= i < b.num_vectors implies w.packed(i) == b.packed(i) by {
            assert(w.slot(i) == b.slot(i));
        }
    }
    assert(stored_all(b.pending.push(q), pd, eb) =~= stored_all(b.pending, pd, eb).push(
        stored(q, pd, eb),
    ));
    assert(w.all_ids() =~= b.all_ids().push(id));
    assert(w.contents() =~= b.contents().push(stored(q, pd, eb)));
    if b.zero_padded() {
        assert forall|k: int|
            w.num_vectors <= k < 32 * batches(w.num_vectors as int) implies #[trigger] w.slot(k)
            == zero_slot(w.padded_dim as int) by {
            assert(w.slot(k) == b.slot(k));
        }
    }
    if b.pending_ids.len() + 1 >= 32 {
        assert(c.all_ids() =~= w.all_ids());
        assert(c.contents() =~= w.contents());
    }
}

proof fn lemma_concat_push<T>(x: Seq<T>, y: Seq<T>, e: T)
    ensures
        (x + y).push(e) == x + y.push(e),
{
    assert((x + y).push(e) =~= x + y.push(e));
}

proof fn lemma_waiting(
    a: ClusterModel,
    before: Seq<QuantizedModel>,
    after: Seq<QuantizedModel>,
    qs: Seq<QuantizedModel>,
    q: QuantizedModel,
)
    requires
        before.len() == a.pending_after(qs.len() as int),
        before == (a.pending + qs).subrange(
            (a.pending + qs).len() - before.len(),
            (a.pending + qs).len() as int,
        ),
        after == if before.len() + 1 >= 32 {
            Seq::empty()
        } else {
            before.push(q)
        },
    ensures
        after.len() == a.pending_after(qs.push(q).len() as int),
        after == (a.pending + qs.push(q)).subrange(
            (a.pending + qs.push(q)).len() - after.len(),
            (a.pending + qs.push(q)).len() as int,
        ),
{
    let more = a.pending + qs.push(q);
    lemma_concat_push(a.pending, qs, q);
    assert(after =~= more.subrange(more.len() - after.len(), more.len() as int));
}

/// Appending one more vector to what a cluster has received.
pub proof fn lemma_receives_one_more(
    a: ClusterModel,
    b: ClusterModel,
    c: ClusterModel,
    ids: Seq<u64>,
    qs: Seq<QuantizedModel>,
    id: u64,
    q: QuantizedModel,
)
    requires
        a.well_formed(),
        a.receives(b, ids, qs),
        c.well_formed(),
        b.appends(c, id, q),
    ensures
        a.receives(c, ids.push(id), qs.push(q)),
{
    let pd = a.padded_dim;
    let eb = a.ex_bits;
    lemma_append_step(b, c, id, q);
    assert(stored_all(qs.push(q), pd, eb) =~= stored_all(qs, pd, eb).push(stored(q, pd, eb)));
    lemma_concat_push(a.all_ids(), ids, id);
    lemma_concat_push(a.contents(), stored_all(qs, pd, eb), stored(q, pd, eb));
    lemma_waiting(a, b.pending, c.pending, qs, q);
    let few = a.pending + qs;
    let more = a.pending + qs.push(q);
    let moved = few.take(few.len() - b.pending.len());
    lemma_concat_push(a.pending, qs, q);
    if b.pending.len() + 1 >= 32 {
        lemma_slots_append(
            a.batch_data,
            pd as int,
            a.num_vectors as int,
            slots_of(moved),
            slots_of(b.pending.push(q)),
        );
        assert(b.num_vectors == a.num_vectors + moved.len());
        assert(slots_of(more.take(more.len() as int)) =~= slots_of(moved) + slots_of(
            b.pending.push(q),
        ));
    } else {
        assert(more.take(more.len() - c.pending.len()) =~= moved);
    }
}

/// Flushing changes neither the ids nor the vectors of a cluster, only where they are kept.
pub proof fn law_flush_keeps_contents(before: ClusterModel, after: ClusterModel)
    requires
        before.well_formed(),
        before.flushes(after),
    ensures
        after.all_ids() == before.all_ids(),
        after.contents() == before.contents(),
        after.total() == before.total(),
{
    assert(after.all_ids() =~= before.all_ids());
    assert(after.contents() =~= before.contents());
}

/// Appending adds exactly one vector at the end: the new one, under the new id.
pub proof fn law_append_adds_one(
    before: ClusterModel,
    after: ClusterModel,
    id: u64,
    q: QuantizedModel,
)
    requires
        before.well_formed(),
        after.well_formed(),
        before.appends(after, id, q),
    ensures
        after.all_ids() == before.all_ids().push(id),
        after.contents() == before.contents().push(
            stored(q, before.padded_dim, before.ex_bits),
        ),
        after.total() == before.total() + 1,
        before.pending.len() < 32 ==> after.pending.len() < 32,
{
    lemma_append_step(before, after, id, q);
}

// ----------------------------------------------------------------------------
// Checks
// ----------------------------------------------------------------------------

/// The bytes of the batches of `n` vectors. The arithmetic is wide enough for every pair.
fn packed_size(n: usize, padded_dim: usize) -> (size: u128)
    ensures
        size == batches(n as int) * stride(padded_dim as int),
{
    let count: u128 = (n as u128 + 31) / 32;
    let bytes: u128 = 4 * (padded_dim as u128) + 384;
    proof {
        assert(count * bytes <= 0x1000_0000_0000_0000 * 0x8_0000_0000_0000_0000) by (
        nonlinear_arith)
            requires
                count <= 0x1000_0000_0000_0000,
                bytes <= 0x8_0000_0000_0000_0000,
        ;
    }
    count * bytes
}

impl ClusterData {
    /// Whether the layout holds together.
    pub fn is_well_formed(&self) -> (r: bool)
        ensures
            r == self@.well_formed(),
    {
        let n: usize = self.num_vectors;
        if self.centroid.len() != self.padded_dim || self.ids.len() != n
            || self.ex_codes_packed.len() != n || self.f_add_ex.len() != n
            || self.f_rescale_ex.len() != n || self.delta.len() != n || self.vl.len() != n
            || self.pending_ids.len() != self.pending_vectors.len() {
            return false;
        }
        if self.batch_data.len() as u128 != packed_size(n, self.padded_dim) {
            return false;
        }
        let mut i: usize = 0;
        while i < self.pending_vectors.len()
            invariant
                i <= self.pending_vectors@.len(),
                packable(self@.pending.take(i as int), self.padded_dim as int),
            decreases self.pending_vectors@.len() - i,
        {
            assert(self@.pending[i as int] == self.pending_vectors@[i as int]@);
            if self.pending_vectors[i].binary_code_packed.len() != self.padded_dim / 8 {
                return false;
            }
            i += 1;
            assert forall|j: int| 0 <= j < i implies (#[trigger] self@.pending.take(
                i as int,
            )[j]).code.len() == self.padded_dim as int / 8 by {
                if j < i - 1 {
                    assert(self@.pending.take(i - 1)[j] == self@.pending[j]);
                }
            }
        }
        assert(self@.pending.take(i as int) =~= self@.pending);
        true
    }

    /// Whether the batches of `extra` more vectors can be addressed.
    pub fn has_room_for(&self, extra: usize) -> (r: bool)
        ensures
            r == self@.has_room(extra as int),
    {
        if self.num_vectors > usize::MAX - extra {
            return false;
        }
        let n: usize = self.num_vectors + extra;
        n <= usize::MAX - 31 && packed_size(n, self.padded_dim) <= usize::MAX as u128
    }
}

} // verus!
