//! How much memory an index takes.
//!
//! What a vector has allocated is up to the allocator. So the sums stand in functions that take
//! the capacities as arguments, and those that look at an index state what holds whatever the
//! allocator did.
use crate::cluster::{ClusterData, ClusterModel};
use crate::index::{IndexModel, IvfRabitqIndex};
use crate::quantized::QuantizedModel;
use vstd::layout::size_of;
use vstd::prelude::*;

verus! {

/// A number that counts no further than the largest size.
pub open spec fn capped(n: int) -> usize {
    if n <= usize::MAX {
        n as usize
    } else {
        usize::MAX
    }
}

/// The sum of numbers.
pub open spec fn sum_of(values: Seq<usize>) -> int
    decreases values.len(),
{
    if values.len() == 0 {
        0
    } else {
        sum_of(values.drop_last()) + values.last()
    }
}

fn plus(a: usize, b: usize) -> (r: usize)
    ensures
        r == capped(a + b),
{
    if a > usize::MAX - b {
        usize::MAX
    } else {
        a + b
    }
}

fn times(a: usize, b: usize) -> (r: usize)
    ensures
        r == capped(a * b),
{
    proof {
        assert(0 <= a * b <= 0xffff_ffff_ffff_ffff * 0xffff_ffff_ffff_ffff) by (nonlinear_arith)
            requires
                0 <= a <= 0xffff_ffff_ffff_ffff,
                0 <= b <= 0xffff_ffff_ffff_ffff,
        ;
    }
    let wide: u128 = a as u128 * b as u128;
    if wide > usize::MAX as u128 {
        usize::MAX
    } else {
        wide as usize
    }
}

proof fn lemma_sum_is_nat(values: Seq<usize>)
    ensures
        0 <= sum_of(values),
    decreases values.len(),
{
    if values.len() > 0 {
        lemma_sum_is_nat(values.drop_last());
    }
}

/// The sum of numbers, counted no further than the largest size.
pub fn capped_sum(values: &[usize]) -> (r: usize)
    ensures
        r == capped(sum_of(values@)),
{
    let mut sum: usize = 0;
    let mut i: usize = 0;
    assert(values@.take(0) =~= Seq::empty());
    while i < values.len()
        invariant
            i <= values@.len(),
            sum == capped(sum_of(values@.take(i as int))),
        decreases values@.len() - i,
    {
        proof {
            let next = values@.take(i + 1);
            assert(next.drop_last() =~= values@.take(i as int));
            assert(next.last() == values@[i as int]);
            lemma_sum_is_nat(values@.take(i as int));
        }
        sum = plus(sum, values[i]);
        i += 1;
    }
    assert(values@.take(i as int) =~= values@);
    sum
}

/// The capacities of the vectors of a cluster, and the lengths that count for themselves.
#[derive(Debug)]
pub struct ClusterSizes {
    pub centroid_len: usize,
    pub ids: usize,
    pub batch_data: usize,
    pub ex_codes: usize,
    /// Of each extended code.
    pub ex_code_bytes: Vec<usize>,
    pub f_add_ex: usize,
    pub f_rescale_ex: usize,
    pub delta: usize,
    pub vl: usize,
    /// Bytes of the codes of each pending vector.
    pub pending_bytes: Vec<usize>,
    pub pending_ids_len: usize,
}

/// What the sizes of a cluster are.
pub struct SizesModel {
    pub centroid_len: usize,
    pub ids: usize,
    pub batch_data: usize,
    pub ex_codes: usize,
    pub ex_code_bytes: Seq<usize>,
    pub f_add_ex: usize,
    pub f_rescale_ex: usize,
    pub delta: usize,
    pub vl: usize,
    pub pending_bytes: Seq<usize>,
    pub pending_ids_len: usize,
}

impl View for ClusterSizes {
    type V = SizesModel;

    open spec fn view(&self) -> SizesModel {
        SizesModel {
            centroid_len: self.centroid_len,
            ids: self.ids,
            batch_data: self.batch_data,
            ex_codes: self.ex_codes,
            ex_code_bytes: self.ex_code_bytes@,
            f_add_ex: self.f_add_ex,
            f_rescale_ex: self.f_rescale_ex,
            delta: self.delta,
            vl: self.vl,
            pending_bytes: self.pending_bytes@,
            pending_ids_len: self.pending_ids_len,
        }
    }
}

/// The bytes of a cluster: the struct, its vectors by capacity, and each extended code. The pending
/// vectors are counted apart.
pub open spec fn packed_memory(s: SizesModel, struct_size: int, vec_size: int) -> int {
    struct_size + 4 * s.centroid_len + 8 * s.ids + s.batch_data + vec_size * s.ex_codes + sum_of(
        s.ex_code_bytes,
    ) + 4 * s.f_add_ex + 4 * s.f_rescale_ex + 4 * s.delta + 4 * s.vl
}

/// The bytes of the pending vectors of a cluster.
pub open spec fn pending_memory(s: SizesModel) -> int {
    sum_of(s.pending_bytes) + 8 * s.pending_ids_len
}

impl ClusterSizes {
    /// The bytes of a cluster without its pending vectors, no more than the largest size.
    pub fn packed_memory(&self, struct_size: usize, vec_size: usize) -> (r: usize)
        ensures
            r == capped(packed_memory(self@, struct_size as int, vec_size as int)),
    {
        proof {
            lemma_sum_is_nat(self@.ex_code_bytes);
            assert(0 <= vec_size * self@.ex_codes) by (nonlinear_arith);
            assert(vec_size * self@.ex_codes == self@.ex_codes * vec_size) by (nonlinear_arith);
        }
        let mut r: usize = plus(struct_size, times(4, self.centroid_len));
        r = plus(r, times(8, self.ids));
        r = plus(r, self.batch_data);
        r = plus(r, times(vec_size, self.ex_codes));
        r = plus(r, capped_sum(self.ex_code_bytes.as_slice()));
        r = plus(r, times(4, self.f_add_ex));
        r = plus(r, times(4, self.f_rescale_ex));
        r = plus(r, times(4, self.delta));
        plus(r, times(4, self.vl))
    }

    /// The bytes of the pending vectors of a cluster, no more than the largest size.
    pub fn pending_memory(&self) -> (r: usize)
        ensures
            r == capped(pending_memory(self@)),
    {
        proof {
            lemma_sum_is_nat(self@.pending_bytes);
        }
        plus(capped_sum(self.pending_bytes.as_slice()), times(8, self.pending_ids_len))
    }
}

/// Calls `Vec::capacity`. The contract claims that the capacity is at least the length; how much
/// more it is, is up to the allocator.
#[verifier::external_body]
fn capacity_of<T>(v: &Vec<T>) -> (c: usize)
    ensures
        c >= v@.len(),
{
    v.capacity()
}

/// Whether sizes are those of a cluster: its lengths where these count, and capacities that hold
/// its vectors.
pub open spec fn sizes_hold(s: SizesModel, c: ClusterModel) -> bool {
    &&& s.centroid_len == c.centroid.len()
    &&& s.ids >= c.ids.len()
    &&& s.batch_data >= c.batch_data.len()
    &&& s.ex_codes >= c.ex_codes.len()
    &&& s.ex_code_bytes.len() == c.ex_codes.len()
    &&& forall|i: int|
        0 <= i < c.ex_codes.len() ==> (#[trigger] s.ex_code_bytes[i]) >= c.ex_codes[i].len()
    &&& s.f_add_ex >= c.f_add_ex.len()
    &&& s.f_rescale_ex >= c.f_rescale_ex.len()
    &&& s.delta >= c.delta.len()
    &&& s.vl >= c.vl.len()
    &&& s.pending_bytes.len() == c.pending.len()
    &&& forall|i: int|
        0 <= i < c.pending.len() ==> pending_holds(#[trigger] s.pending_bytes[i], c.pending[i])
    &&& s.pending_ids_len == c.pending_ids.len()
}

/// Whether a number of bytes holds the codes of a vector, as far as it can be counted.
pub open spec fn pending_holds(bytes: usize, q: QuantizedModel) -> bool {
    bytes >= capped(q.code.len() as int + q.ex_code.len())
}

impl ClusterData {
    /// The sizes of a cluster.
    pub fn sizes(&self) -> (s: ClusterSizes)
        ensures
            sizes_hold(s@, self@),
    {
        let mut ex_code_bytes: Vec<usize> = Vec::new();
        let mut i: usize = 0;
        while i < self.ex_codes_packed.len()
            invariant
                i <= self.ex_codes_packed@.len(),
                ex_code_bytes@.len() == i,
                forall|j: int|
                    0 <= j < i ==> (#[trigger] ex_code_bytes@[j]) >= self@.ex_codes[j].len(),
            decreases self.ex_codes_packed@.len() - i,
        {
            assert(self@.ex_codes[i as int] == self.ex_codes_packed@[i as int]@);
            ex_code_bytes.push(capacity_of(&self.ex_codes_packed[i]));
            i += 1;
        }
        let mut pending_bytes: Vec<usize> = Vec::new();
        let mut k: usize = 0;
        while k < self.pending_vectors.len()
            invariant
                k <= self.pending_vectors@.len(),
                pending_bytes@.len() == k,
                forall|j: int|
                    0 <= j < k ==> pending_holds(
                        #[trigger] pending_bytes@[j],
                        self@.pending[j],
                    ),
            decreases self.pending_vectors@.len() - k,
        {
            let q = &self.pending_vectors[k];
            assert(self@.pending[k as int] == self.pending_vectors@[k as int]@);
            pending_bytes.push(
                plus(capacity_of(&q.binary_code_packed), capacity_of(&q.ex_code_packed)),
            );
            k += 1;
        }
        ClusterSizes {
            centroid_len: self.centroid.len(),
            ids: capacity_of(&self.ids),
            batch_data: capacity_of(&self.batch_data),
            ex_codes: capacity_of(&self.ex_codes_packed),
            ex_code_bytes,
            f_add_ex: capacity_of(&self.f_add_ex),
            f_rescale_ex: capacity_of(&self.f_rescale_ex),
            delta: capacity_of(&self.delta),
            vl: capacity_of(&self.vl),
            pending_bytes,
            pending_ids_len: self.pending_ids.len(),
        }
    }
}

/// The bytes of clusters of these sizes.
pub open spec fn clusters_memory(sizes: Seq<SizesModel>, struct_size: int, vec_size: int) -> int
    decreases sizes.len(),
{
    if sizes.len() == 0 {
        0
    } else {
        clusters_memory(sizes.drop_last(), struct_size, vec_size) + packed_memory(
            sizes.last(),
            struct_size,
            vec_size,
        ) + pending_memory(sizes.last())
    }
}

/// The sizes of a sequence of clusters.
pub open spec fn size_models(sizes: Seq<ClusterSizes>) -> Seq<SizesModel> {
    sizes.map_values(|s: ClusterSizes| s@)
}

proof fn lemma_memory_is_nat(s: SizesModel, struct_size: int, vec_size: int)
    requires
        0 <= struct_size,
        0 <= vec_size,
    ensures
        0 <= packed_memory(s, struct_size, vec_size),
        0 <= pending_memory(s),
{
    lemma_sum_is_nat(s.ex_code_bytes);
    lemma_sum_is_nat(s.pending_bytes);
    assert(0 <= vec_size * s.ex_codes) by (nonlinear_arith)
        requires
            0 <= vec_size,
            0 <= s.ex_codes,
    ;
}

proof fn lemma_clusters_memory_is_nat(sizes: Seq<SizesModel>, struct_size: int, vec_size: int)
    requires
        0 <= struct_size,
        0 <= vec_size,
    ensures
        0 <= clusters_memory(sizes, struct_size, vec_size),
    decreases sizes.len(),
{
    if sizes.len() > 0 {
        lemma_clusters_memory_is_nat(sizes.drop_last(), struct_size, vec_size);
        lemma_memory_is_nat(sizes.last(), struct_size, vec_size);
    }
}

/// The bytes of an index whose clusters have these sizes, no more than the largest size. The
/// caller gives the sizes of the three structs: index, cluster and vector.
pub fn index_memory(
    sizes: &[ClusterSizes],
    index_size: usize,
    struct_size: usize,
    vec_size: usize,
) -> (r: usize)
    ensures
        r == capped(
            index_size + clusters_memory(size_models(sizes@), struct_size as int, vec_size as int),
        ),
{
    let ghost all = size_models(sizes@);
    let mut r: usize = index_size;
    let mut i: usize = 0;
    assert(all.take(0) =~= Seq::empty());
    while i < sizes.len()
        invariant
            i <= sizes@.len(),
            all == size_models(sizes@),
            r == capped(
                index_size + clusters_memory(
                    all.take(i as int),
                    struct_size as int,
                    vec_size as int,
                ),
            ),
        decreases sizes@.len() - i,
    {
        proof {
            let next = all.take(i + 1);
            assert(next.drop_last() =~= all.take(i as int));
            assert(next.last() == sizes@[i as int]@);
            lemma_clusters_memory_is_nat(
                all.take(i as int),
                struct_size as int,
                vec_size as int,
            );
            lemma_memory_is_nat(next.last(), struct_size as int, vec_size as int);
        }
        r = plus(r, sizes[i].packed_memory(struct_size, vec_size));
        r = plus(r, sizes[i].pending_memory());
        i += 1;
    }
    assert(all.take(i as int) =~= all);
    r
}

/// Whether sizes are those of the clusters of an index.
pub open spec fn index_sizes_hold(sizes: Seq<SizesModel>, m: IndexModel) -> bool {
    &&& sizes.len() == m.clusters.len()
    &&& forall|i: int|
        0 <= i < sizes.len() ==> sizes_hold(#[trigger] sizes[i], m.clusters[i])
}

impl IvfRabitqIndex {
    /// The bytes that the index takes, no more than the largest size.
    pub fn memory_usage(&self) -> (r: usize)
        ensures
            exists|sizes: Seq<SizesModel>|
                #[trigger] index_sizes_hold(sizes, self@) && r == capped(
                    size_of::<IvfRabitqIndex>() + clusters_memory(
                        sizes,
                        size_of::<ClusterData>() as int,
                        size_of::<Vec<u8>>() as int,
                    ),
                ),
    {
        let mut sizes: Vec<ClusterSizes> = Vec::new();
        let mut i: usize = 0;
        while i < self.clusters.len()
            invariant
                i <= self.clusters@.len(),
                sizes@.len() == i,
                forall|j: int|
                    0 <= j < i ==> sizes_hold((#[trigger] sizes@[j])@, self@.clusters[j]),
            decreases self.clusters@.len() - i,
        {
            assert(self@.clusters[i as int] == self.clusters@[i as int]@);
            sizes.push(self.clusters[i].sizes());
            i += 1;
        }
        let r: usize = index_memory(
            sizes.as_slice(),
            core::mem::size_of::<IvfRabitqIndex>(),
            core::mem::size_of::<ClusterData>(),
            core::mem::size_of::<Vec<u8>>(),
        );
        assert(index_sizes_hold(size_models(sizes@), self@));
        r
    }
}

} // verus!
