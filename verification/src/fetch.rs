//! Reading a stored vector back by its id.
use crate::cluster::ClusterModel;
use crate::fastscan::{code_bits, unpack_bits};
use crate::index::{IndexModel, IvfRabitqIndex};
use crate::quantized::{QuantizedModel, QuantizedVector};
use vstd::prelude::*;

verus! {

/// Where a vector is kept.
#[derive(Debug, Clone, Copy, PartialEq, Eq, Structural)]
pub enum VectorPlace {
    /// In the batches of a cluster.
    Packed { cluster: usize, index: usize },
    /// In the pending buffer of a cluster.
    Pending { cluster: usize, index: usize },
}

/// The integer code of a vector, and what turns it back into numbers: each dimension of the
/// rotated vector is that of the centroid plus `delta` times the code plus `vl`.
#[derive(Debug)]
pub struct EmbeddingCode {
    /// The cluster whose centroid the code refers to.
    pub cluster: usize,
    pub code: Vec<u16>,
    pub delta: u32,
    pub vl: u32,
}

/// The first position of `id` at or behind `from`.
pub open spec fn position(ids: Seq<u64>, id: u64, from: int) -> Option<int>
    decreases ids.len() - from,
{
    if from < 0 || from >= ids.len() {
        None
    } else if ids[from] == id {
        Some(from)
    } else {
        position(ids, id, from + 1)
    }
}

/// The first cluster at or behind `from` that holds `id` among its packed vectors, and where.
pub open spec fn packed_place(
    clusters: Seq<ClusterModel>,
    id: u64,
    from: int,
) -> Option<VectorPlace>
    decreases clusters.len() - from,
{
    if from < 0 || from >= clusters.len() {
        None
    } else {
        match position(clusters[from].ids, id, 0) {
            Some(i) => Some(VectorPlace::Packed { cluster: from as usize, index: i as usize }),
            None => packed_place(clusters, id, from + 1),
        }
    }
}

/// The first cluster at or behind `from` that holds `id` among its pending vectors, and where.
pub open spec fn pending_place(
    clusters: Seq<ClusterModel>,
    id: u64,
    from: int,
) -> Option<VectorPlace>
    decreases clusters.len() - from,
{
    if from < 0 || from >= clusters.len() {
        None
    } else {
        match position(clusters[from].pending_ids, id, 0) {
            Some(i) => Some(VectorPlace::Pending { cluster: from as usize, index: i as usize }),
            None => pending_place(clusters, id, from + 1),
        }
    }
}

/// Where the vector with an id is kept: packed vectors come before pending ones.
pub open spec fn place_of(m: IndexModel, id: u64) -> Option<VectorPlace> {
    match packed_place(m.clusters, id, 0) {
        Some(p) => Some(p),
        None => pending_place(m.clusters, id, 0),
    }
}

/// The vector at a place.
pub open spec fn vector_at(m: IndexModel, p: VectorPlace) -> QuantizedModel {
    match p {
        VectorPlace::Packed { cluster, index } => m.clusters[cluster as int].packed(index as int),
        VectorPlace::Pending { cluster, index } => m.clusters[cluster as int].pending[index as int],
    }
}

/// Whether a place is one of the index.
pub open spec fn is_place(m: IndexModel, p: VectorPlace) -> bool {
    match p {
        VectorPlace::Packed { cluster, index } => cluster < m.clusters.len() && index
            < m.clusters[cluster as int].ids.len(),
        VectorPlace::Pending { cluster, index } => cluster < m.clusters.len() && index
            < m.clusters[cluster as int].pending_ids.len(),
    }
}

fn find_id(ids: &[u64], id: u64) -> (r: Option<usize>)
    ensures
        match position(ids@, id, 0) {
            Some(i) => r == Some(i as usize) && 0 <= i < ids@.len(),
            None => r is None,
        },
{
    let mut i: usize = 0;
    while i < ids.len()
        invariant
            i <= ids@.len(),
            position(ids@, id, 0) == position(ids@, id, i as int),
        decreases ids@.len() - i,
    {
        if ids[i] == id {
            return Some(i);
        }
        i += 1;
    }
    None
}

pub proof fn lemma_position(ids: Seq<u64>, id: u64, from: int)
    requires
        0 <= from,
    ensures
        match position(ids, id, from) {
            Some(i) => from <= i < ids.len() && ids[i] == id && forall|j: int|
                from <= j < i ==> #[trigger] ids[j] != id,
            None => forall|j: int| from <= j < ids.len() ==> #[trigger] ids[j] != id,
        },
    decreases ids.len() - from,
{
    if from < ids.len() && ids[from] != id {
        lemma_position(ids, id, from + 1);
    }
}

pub proof fn lemma_places(clusters: Seq<ClusterModel>, id: u64, from: int)
    requires
        0 <= from,
        clusters.len() <= usize::MAX,
        forall|c: int|
            0 <= c < clusters.len() ==> (#[trigger] clusters[c]).ids.len() <= usize::MAX
                && clusters[c].pending_ids.len() <= usize::MAX,
    ensures
        match packed_place(clusters, id, from) {
            Some(VectorPlace::Packed { cluster, index }) => from <= cluster < clusters.len()
                && index < clusters[cluster as int].ids.len()
                && clusters[cluster as int].ids[index as int] == id,
            Some(_) => false,
            None => forall|c: int|
                from <= c < clusters.len() ==> !(#[trigger] clusters[c]).ids.contains(id),
        },
        match pending_place(clusters, id, from) {
            Some(VectorPlace::Pending { cluster, index }) => from <= cluster < clusters.len()
                && index < clusters[cluster as int].pending_ids.len()
                && clusters[cluster as int].pending_ids[index as int] == id,
            Some(_) => false,
            None => forall|c: int|
                from <= c < clusters.len() ==> !(#[trigger] clusters[c]).pending_ids.contains(id),
        },
    decreases clusters.len() - from,
{
    if from < clusters.len() {
        lemma_position(clusters[from].ids, id, 0);
        lemma_position(clusters[from].pending_ids, id, 0);
        lemma_places(clusters, id, from + 1);
    }
}

/// An id has a place exactly if a cluster holds it, packed or pending, and its place holds it.
pub proof fn law_place_iff_held(m: IndexModel, id: u64)
    requires
        m.clusters.len() <= usize::MAX,
        forall|c: int|
            0 <= c < m.clusters.len() ==> (#[trigger] m.clusters[c]).ids.len() <= usize::MAX
                && m.clusters[c].pending_ids.len() <= usize::MAX,
    ensures
        place_of(m, id) is Some <==> exists|c: int|
            0 <= c < m.clusters.len() && (#[trigger] m.clusters[c]).all_ids().contains(id),
        place_of(m, id) matches Some(p) ==> is_place(m, p) && match p {
            VectorPlace::Packed { cluster, index } => m.clusters[cluster as int].ids[index as int]
                == id,
            VectorPlace::Pending { cluster, index } => {
                m.clusters[cluster as int].pending_ids[index as int] == id
            },
        },
{
    lemma_places(m.clusters, id, 0);
    if let Some(p) = place_of(m, id) {
        match p {
            VectorPlace::Packed { cluster, index } => {
                let c = m.clusters[cluster as int];
                assert(c.all_ids()[index as int] == id);
            },
            VectorPlace::Pending { cluster, index } => {
                let c = m.clusters[cluster as int];
                assert(c.all_ids()[c.ids.len() + index] == id);
            },
        }
    } else {
        assert forall|c: int| 0 <= c < m.clusters.len() implies !(
        #[trigger] m.clusters[c]).all_ids().contains(id) by {
            let cl = m.clusters[c];
            assert(!cl.ids.contains(id));
            assert(!cl.pending_ids.contains(id));
            if cl.all_ids().contains(id) {
                let j = choose|j: int| 0 <= j < cl.all_ids().len() && cl.all_ids()[j] == id;
                if j < cl.ids.len() {
                    assert(cl.ids[j] == id);
                } else {
                    assert(cl.pending_ids[j - cl.ids.len()] == id);
                }
            }
        }
    }
}

/// Two to the power of `n`.
pub open spec fn two_to(n: int) -> int
    decreases n,
{
    if n <= 0 {
        1
    } else {
        2 * two_to(n - 1)
    }
}

/// The code of one dimension: the sign bit in front of the extended bits.
pub open spec fn joined(bit: u8, ex: u16, ex_bits: int) -> u16 {
    (ex + bit * two_to(ex_bits)) as u16
}

/// The codes of all dimensions.
pub open spec fn joined_code(
    code: Seq<u8>,
    ex: Seq<u16>,
    padded_dim: int,
    ex_bits: int,
) -> Seq<u16> {
    Seq::new(
        padded_dim as nat,
        |d: int|
            joined(
                code_bits(code, padded_dim)[d],
                if ex_bits > 0 {
                    ex[d]
                } else {
                    0
                },
                ex_bits,
            ),
    )
}

proof fn lemma_two_to_bound(n: int)
    requires
        0 <= n <= 15,
    ensures
        1 <= two_to(n) <= 32768,
{
    reveal_with_fuel(two_to, 16);
}

fn power_of_two(n: usize) -> (r: u16)
    requires
        n <= 15,
    ensures
        r == two_to(n as int),
{
    let mut r: u16 = 1;
    let mut i: usize = 0;
    while i < n
        invariant
            i <= n <= 15,
            r == two_to(i as int),
        decreases n - i,
    {
        proof {
            lemma_two_to_bound(i + 1);
        }
        r = 2 * r;
        i += 1;
    }
    r
}

/// Joins the sign bits of a packed code with unpacked extended codes.
pub fn join_code(code: &[u8], ex: &[u16], padded_dim: usize, ex_bits: usize) -> (r: Vec<u16>)
    requires
        ex_bits <= 15,
        ex_bits > 0 ==> ex@.len() >= padded_dim,
        forall|d: int| 0 <= d < ex@.len() ==> (#[trigger] ex@[d]) < two_to(ex_bits as int),
    ensures
        r@ == joined_code(code@, ex@, padded_dim as int, ex_bits as int),
{
    let bits: Vec<u8> = unpack_bits(code, padded_dim);
    let weight: u16 = power_of_two(ex_bits);
    let mut r: Vec<u16> = Vec::new();
    let mut d: usize = 0;
    proof {
        lemma_two_to_bound(ex_bits as int);
        assert(r@ =~= joined_code(code@, ex@, padded_dim as int, ex_bits as int).take(0));
    }
    while d < padded_dim
        invariant
            d <= padded_dim,
            ex_bits <= 15,
            ex_bits > 0 ==> ex@.len() >= padded_dim,
            forall|i: int| 0 <= i < ex@.len() ==> (#[trigger] ex@[i]) < two_to(ex_bits as int),
            bits@ == code_bits(code@, padded_dim as int),
            weight == two_to(ex_bits as int),
            1 <= weight <= 32768,
            r@ == joined_code(code@, ex@, padded_dim as int, ex_bits as int).take(d as int),
        decreases padded_dim - d,
    {
        let low: u16 = if ex_bits > 0 { ex[d] } else { 0 };
        let bit: u8 = bits[d];
        assert(bit == 0 || bit == 1);
        let high: u16 = if bit == 0 { 0 } else { weight };
        assert(high == bit * two_to(ex_bits as int)) by {
            if bit == 1 {
                assert(1 * two_to(ex_bits as int) == two_to(ex_bits as int));
            } else {
                assert(0 * two_to(ex_bits as int) == 0);
            }
        }
        r.push(low + high);
        d += 1;
        assert(r@ =~= joined_code(code@, ex@, padded_dim as int, ex_bits as int).take(d as int));
    }
    assert(joined_code(code@, ex@, padded_dim as int, ex_bits as int).take(d as int)
        =~= joined_code(code@, ex@, padded_dim as int, ex_bits as int));
    r
}

impl IvfRabitqIndex {
    /// Finds where the vector with an id is kept.
    pub fn locate(&self, vector_id: u64) -> (r: Option<VectorPlace>)
        ensures
            r == place_of(self@, vector_id),
            r matches Some(p) ==> is_place(self@, p),
    {
        let mut i: usize = 0;
        while i < self.clusters.len()
            invariant
                i <= self.clusters@.len(),
                packed_place(self@.clusters, vector_id, 0) == packed_place(
                    self@.clusters,
                    vector_id,
                    i as int,
                ),
            decreases self.clusters@.len() - i,
        {
            assert(self@.clusters[i as int] == self.clusters@[i as int]@);
            match find_id(self.clusters[i].ids.as_slice(), vector_id) {
                Some(index) => {
                    return Some(VectorPlace::Packed { cluster: i, index });
                },
                None => {},
            }
            i += 1;
        }
        let mut j: usize = 0;
        while j < self.clusters.len()
            invariant
                j <= self.clusters@.len(),
                packed_place(self@.clusters, vector_id, 0) is None,
                pending_place(self@.clusters, vector_id, 0) == pending_place(
                    self@.clusters,
                    vector_id,
                    j as int,
                ),
            decreases self.clusters@.len() - j,
        {
            assert(self@.clusters[j as int] == self.clusters@[j as int]@);
            match find_id(self.clusters[j].pending_ids.as_slice(), vector_id) {
                Some(index) => {
                    return Some(VectorPlace::Pending { cluster: j, index });
                },
                None => {},
            }
            j += 1;
        }
        None
    }

    /// Reads the vector at a place.
    pub fn stored_vector(&self, p: VectorPlace) -> (q: QuantizedVector)
        requires
            self@.well_formed(),
            is_place(self@, p),
        ensures
            q@ == vector_at(self@, p),
    {
        match p {
            VectorPlace::Packed { cluster, index } => {
                proof {
                    let c = self@.clusters[cluster as int];
                    assert(c == self.clusters@[cluster as int]@);
                    assert(c.well_formed());
                    crate::cluster::lemma_has_batch(c, index as int);
                }
                self.clusters[cluster].packed_vector(index)
            },
            VectorPlace::Pending { cluster, index } => {
                proof {
                    let c = self@.clusters[cluster as int];
                    assert(c == self.clusters@[cluster as int]@);
                    assert(c.well_formed());
                    assert(c.pending[index as int]
                        == self.clusters@[cluster as int].pending_vectors@[index as int]@);
                }
                self.clusters[cluster].pending_vectors[index].duplicate()
            },
        }
    }

    /// Fetches the code of the vector with an id, packed or pending; `None` where the index does
    /// not hold the id. The caller gives the unpacked extended code of the vector.
    pub fn fetch_embedding(&self, vector_id: u64, ex_code_unpacked: &[u16]) -> (r: Option<
        EmbeddingCode,
    >)
        requires
            self@.well_formed(),
            self@.ex_bits <= 15,
            self@.ex_bits > 0 && place_of(self@, vector_id) is Some ==> ex_code_unpacked@.len()
                >= self@.padded_dim,
            forall|d: int|
                0 <= d < ex_code_unpacked@.len() ==> (#[trigger] ex_code_unpacked@[d]) < two_to(
                    self@.ex_bits as int,
                ),
        ensures
            match place_of(self@, vector_id) {
                None => r is None,
                Some(p) => {
                    let q = vector_at(self@, p);
                    &&& r is Some
                    &&& r->0.cluster == match p {
                        VectorPlace::Packed { cluster, index } => cluster,
                        VectorPlace::Pending { cluster, index } => cluster,
                    }
                    &&& r->0.code@ == joined_code(
                        q.code,
                        ex_code_unpacked@,
                        self@.padded_dim as int,
                        self@.ex_bits as int,
                    )
                    &&& r->0.delta == q.delta
                    &&& r->0.vl == q.vl
                },
            },
    {
        let p: VectorPlace = match self.locate(vector_id) {
            Some(p) => p,
            None => {
                return None;
            },
        };
        let q: QuantizedVector = self.stored_vector(p);
        let cluster: usize = match p {
            VectorPlace::Packed { cluster, index: _ } => cluster,
            VectorPlace::Pending { cluster, index: _ } => cluster,
        };
        let code: Vec<u16> = join_code(
            q.binary_code_packed.as_slice(),
            ex_code_unpacked,
            self.padded_dim,
            self.ex_bits,
        );
        Some(EmbeddingCode { cluster, code, delta: q.delta, vl: q.vl })
    }
}

} // verus!
