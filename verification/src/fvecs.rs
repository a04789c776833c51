//! Vector files in batches.
//!
//! A file is a row of records: the number of values as four bytes, then the values, four bytes
//! each. A reader gives every vector the same dimension, whatever the records say.
use crate::bytes::u32_at;
use vstd::prelude::*;

verus! {

/// The vector of a record that states `d` values and whose values start `body`: cut off at `dim`,
/// and filled up with zeros where values are missing.
pub open spec fn row_of(body: Seq<u8>, d: int, dim: int) -> Seq<u32> {
    Seq::new(
        dim as nat,
        |i: int|
            if i < d && 4 * i + 4 <= body.len() {
                u32_at(body, 4 * i)
            } else {
                0
            },
    )
}

/// Whether a record starts at `pos`.
pub open spec fn record_starts(b: Seq<u8>, pos: int) -> bool {
    pos + 4 <= b.len()
}

/// Where the record behind the one at `pos` starts.
pub open spec fn record_end(b: Seq<u8>, pos: int) -> int {
    pos + 4 + 4 * u32_at(b, pos)
}

/// Number of records from `pos` on, up to `n`.
pub open spec fn record_count(b: Seq<u8>, pos: int, n: int) -> int
    decreases n,
{
    if n <= 0 || !record_starts(b, pos) {
        0
    } else {
        1 + record_count(b, record_end(b, pos), n - 1)
    }
}

/// The vectors of up to `n` records from `pos` on, one behind the other.
pub open spec fn rows_from(b: Seq<u8>, pos: int, dim: int, n: int) -> Seq<u32>
    decreases n,
{
    if n <= 0 || !record_starts(b, pos) {
        Seq::empty()
    } else {
        row_of(b.subrange(pos + 4, b.len() as int), u32_at(b, pos) as int, dim) + rows_from(
            b,
            record_end(b, pos),
            dim,
            n - 1,
        )
    }
}

/// Where the record behind up to `n` records from `pos` on starts.
pub open spec fn rows_end(b: Seq<u8>, pos: int, n: int) -> int
    decreases n,
{
    if n <= 0 || !record_starts(b, pos) {
        pos
    } else {
        rows_end(b, record_end(b, pos), n - 1)
    }
}

/// A reader of batches of vectors. It holds one batch at a time.
#[derive(Debug)]
pub struct BatchReader {
    dim: usize,
    batch_size: usize,
    remaining: usize,
    rows: usize,
    buf: Vec<u32>,
}

/// What a reader holds.
pub struct ReaderModel {
    pub dim: usize,
    pub batch_size: usize,
    /// Vectors that may still be read.
    pub remaining: usize,
    /// Vectors in the batch so far.
    pub rows: usize,
    pub buf: Seq<u32>,
}

impl View for BatchReader {
    type V = ReaderModel;

    closed spec fn view(&self) -> ReaderModel {
        ReaderModel {
            dim: self.dim,
            batch_size: self.batch_size,
            remaining: self.remaining,
            rows: self.rows,
            buf: self.buf@,
        }
    }
}

/// The smaller of two numbers.
pub open spec fn least(a: usize, b: usize) -> int {
    if a < b {
        a as int
    } else {
        b as int
    }
}

impl ReaderModel {
    /// The batch holds together and fits.
    pub open spec fn well_formed(self) -> bool {
        &&& self.batch_size * self.dim <= usize::MAX
        &&& self.rows <= self.batch_size
        &&& self.buf.len() == self.rows * self.dim
    }
}

impl BatchReader {
    /// A reader of vectors of `dim` values, `batch_size` at a time, and `limit` in all.
    pub fn new(dim: usize, batch_size: usize, limit: Option<usize>) -> (r: BatchReader)
        requires
            batch_size * dim <= usize::MAX,
        ensures
            r@.well_formed(),
            r@.dim == dim,
            r@.batch_size == batch_size,
            r@.remaining == match limit {
                Some(n) => n,
                None => usize::MAX,
            },
            r@.rows == 0,
            r@.buf == Seq::<u32>::empty(),
    {
        let remaining: usize = match limit {
            Some(n) => n,
            None => usize::MAX,
        };
        BatchReader { dim, batch_size, remaining, rows: 0, buf: Vec::new() }
    }

    /// Whether the batch takes another record.
    pub fn wants_record(&self) -> (r: bool)
        ensures
            r == (self@.rows < self@.batch_size && self@.remaining > 0),
    {
        self.rows < self.batch_size && self.remaining > 0
    }

    /// Takes a record that states `d` values and whose values start `body`, and says how many
    /// bytes of the record lie behind the `dim` values that count.
    pub fn push_record(&mut self, d: u32, body: &[u8]) -> (skip: u64)
        requires
            old(self)@.well_formed(),
            old(self)@.rows < old(self)@.batch_size,
            old(self)@.remaining > 0,
        ensures
            final(self)@.well_formed(),
            final(self)@.dim == old(self)@.dim,
            final(self)@.batch_size == old(self)@.batch_size,
            final(self)@.remaining == old(self)@.remaining - 1,
            final(self)@.rows == old(self)@.rows + 1,
            final(self)@.buf == old(self)@.buf + row_of(body@, d as int, old(self)@.dim as int),
            skip == if d > old(self)@.dim {
                4 * (d - old(self)@.dim)
            } else {
                0
            },
    {
        let ghost before = self@.buf;
        let ghost rows = self@.rows;
        let ghost row = row_of(body@, d as int, self.dim as int);
        let mut i: usize = 0;
        assert(row.take(0) =~= Seq::empty());
        assert(self@.buf =~= before + row.take(0));
        let dim: usize = self.dim;
        let total: usize = body.len();
        while i < dim
            invariant
                i <= dim,
                dim == self@.dim,
                total == body@.len(),
                self@.dim == old(self)@.dim,
                self@.batch_size == old(self)@.batch_size,
                self@.remaining == old(self)@.remaining,
                self@.rows == old(self)@.rows,
                row == row_of(body@, d as int, dim as int),
                self@.buf == before + row.take(i as int),
            decreases dim - i,
        {
            let v: u32 = if (i as u64) < d as u64 && i < total / 4 {
                let at: usize = 4 * i;
                body[at] as u32 + 256 * (body[at + 1] as u32) + 65536 * (body[at + 2] as u32)
                    + 16777216 * (body[at + 3] as u32)
            } else {
                0
            };
            assert(v == row[i as int]);
            self.buf.push(v);
            i += 1;
            assert(self@.buf =~= before + row.take(i as int));
        }
        assert(row.take(i as int) =~= row);
        self.remaining = self.remaining - 1;
        self.rows = self.rows + 1;
        proof {
            assert((rows + 1) * dim == rows * dim + dim) by (nonlinear_arith);
        }
        if d as u64 > dim as u64 {
            4 * (d as u64 - dim as u64)
        } else {
            0
        }
    }

    /// Ends the batch: its vectors, or nothing if there are none.
    pub fn take_batch(&mut self) -> (batch: Option<Vec<u32>>)
        requires
            old(self)@.well_formed(),
        ensures
            final(self)@.well_formed(),
            final(self)@.dim == old(self)@.dim,
            final(self)@.batch_size == old(self)@.batch_size,
            final(self)@.remaining == old(self)@.remaining,
            final(self)@.rows == 0,
            match batch {
                None => old(self)@.rows == 0,
                Some(values) => old(self)@.rows > 0 && values@ == old(self)@.buf,
            },
    {
        if self.rows == 0 {
            return None;
        }
        self.rows = 0;
        let mut values: Vec<u32> = Vec::new();
        std::mem::swap(&mut values, &mut self.buf);
        Some(values)
    }

    /// The next batch of the records that stand at `pos`, and the position behind them; nothing
    /// when the records or the limit are exhausted.
    pub fn next_batch(&mut self, data: &[u8], pos: &mut usize) -> (batch: Option<Vec<u32>>)
        requires
            old(self)@.well_formed(),
            old(self)@.rows == 0,
            *old(pos) <= data@.len(),
        ensures
            final(self)@.well_formed(),
            final(self)@.rows == 0,
            final(self)@.dim == old(self)@.dim,
            final(self)@.batch_size == old(self)@.batch_size,
            ({
                let room = least(old(self)@.batch_size, old(self)@.remaining);
                let count = record_count(data@, *old(pos) as int, room);
                let end = rows_end(data@, *old(pos) as int, room);
                &&& final(self)@.remaining == old(self)@.remaining - count
                &&& *final(pos) == resumed(data@, end)
                &&& match batch {
                    None => count == 0,
                    Some(values) => count > 0 && values@ == rows_from(
                        data@,
                        *old(pos) as int,
                        old(self)@.dim as int,
                        room,
                    ),
                }
            }),
    {
        let ghost start = *pos as int;
        let ghost room = least(self@.batch_size, self@.remaining);
        let ghost dim = self@.dim as int;
        let ghost b = data@;
        let total: usize = data.len();
        let ghost mut at = start;
        assert(self@.buf =~= Seq::empty());
        while self.wants_record() && total - *pos >= 4
            invariant
                self@.well_formed(),
                b == data@,
                total == b.len(),
                *pos <= total,
                0 <= start,
                *pos == if at <= b.len() {
                    at
                } else {
                    b.len() as int
                },
                start <= at,
                self@.dim == old(self)@.dim,
                dim == self@.dim,
                self@.batch_size == old(self)@.batch_size,
                self@.remaining == old(self)@.remaining - self@.rows,
                room == least(self@.batch_size, old(self)@.remaining),
                self@.rows <= room,
                record_count(b, start, room) == self@.rows + record_count(
                    b,
                    at,
                    room - self@.rows,
                ),
                rows_from(b, start, dim, room) == self@.buf + rows_from(
                    b,
                    at,
                    dim,
                    room - self@.rows,
                ),
                rows_end(b, start, room) == rows_end(b, at, room - self@.rows),
            decreases self@.remaining,
        {
            let ghost rows = self@.rows as int;
            let here: usize = *pos;
            let d: u32 = data[here] as u32 + 256 * (data[here + 1] as u32) + 65536 * (data[here
                + 2] as u32) + 16777216 * (data[here + 3] as u32);
            let body = vstd::slice::slice_subrange(data, here + 4, total);
            proof {
                assert(at == here);
                assert(d == u32_at(b, at));
                assert(rows_from(b, at, dim, room - rows) == row_of(body@, d as int, dim)
                    + rows_from(b, record_end(b, at), dim, room - rows - 1));
                assert(record_count(b, at, room - rows) == 1 + record_count(
                    b,
                    record_end(b, at),
                    room - rows - 1,
                ));
                assert(self@.buf + (row_of(body@, d as int, dim) + rows_from(
                    b,
                    record_end(b, at),
                    dim,
                    room - rows - 1,
                )) =~= (self@.buf + row_of(body@, d as int, dim)) + rows_from(
                    b,
                    record_end(b, at),
                    dim,
                    room - rows - 1,
                ));
            }
            self.push_record(d, body);
            let left: u64 = (total - here - 4) as u64;
            if left >= 4 * (d as u64) {
                *pos = here + 4 + 4 * (d as usize);
            } else {
                *pos = total;
            }
            proof {
                at = record_end(b, at);
            }
        }
        proof {
            let left = room - self@.rows;
            assert(left <= 0 || !record_starts(b, at));
            assert(self@.buf + Seq::<u32>::empty() =~= self@.buf);
        }
        self.take_batch()
    }
}

/// A batch holds as many values as its vectors have together.
pub proof fn law_batch_length(b: Seq<u8>, pos: int, dim: int, n: int)
    requires
        0 <= dim,
    ensures
        rows_from(b, pos, dim, n).len() == record_count(b, pos, n) * dim,
        0 <= record_count(b, pos, n),
        0 <= n ==> record_count(b, pos, n) <= n,
    decreases n,
{
    if n <= 0 || !record_starts(b, pos) {
        assert(0 * dim == 0);
    } else {
        law_batch_length(b, record_end(b, pos), dim, n - 1);
        let k = record_count(b, record_end(b, pos), n - 1);
        assert((1 + k) * dim == dim + k * dim) by (nonlinear_arith);
    }
}

/// Batches lose no vector: reading `n` records and then `m` from where these end gives the same
/// vectors as reading `n + m` at once.
pub proof fn law_batches_join(b: Seq<u8>, pos: int, dim: int, n: int, m: int)
    requires
        0 <= n,
        0 <= m,
    ensures
        rows_from(b, pos, dim, n + m) == rows_from(b, pos, dim, n) + rows_from(
            b,
            rows_end(b, pos, n),
            dim,
            m,
        ),
        rows_end(b, pos, n + m) == rows_end(b, rows_end(b, pos, n), m),
    decreases n,
{
    if n == 0 {
        assert(rows_from(b, pos, dim, 0) + rows_from(b, pos, dim, m) =~= rows_from(
            b,
            pos,
            dim,
            m,
        ));
    } else if record_starts(b, pos) {
        law_batches_join(b, record_end(b, pos), dim, n - 1, m);
        let row = row_of(b.subrange(pos + 4, b.len() as int), u32_at(b, pos) as int, dim);
        let first = rows_from(b, record_end(b, pos), dim, n - 1);
        let rest = rows_from(b, rows_end(b, pos, n), dim, m);
        assert(row + (first + rest) =~= (row + first) + rest);
    } else {
        assert(rows_from(b, pos, dim, n) + rows_from(b, pos, dim, m) =~= Seq::empty());
    }
}

// ----------------------------------------------------------------------------
// Reading a file to its end
// ----------------------------------------------------------------------------

/// Where reading goes on behind records that end at `end`: there, or at the end of the bytes.
pub open spec fn resumed(b: Seq<u8>, end: int) -> int {
    if end <= b.len() {
        end
    } else {
        b.len() as int
    }
}

/// The batches that a reader gives, call by call, until there is none: up to `size` vectors each,
/// and `remaining` in all.
pub open spec fn batches_from(
    b: Seq<u8>,
    pos: int,
    dim: int,
    size: usize,
    remaining: usize,
) -> Seq<Seq<u32>>
    decreases remaining,
{
    let room = least(size, remaining);
    let count = record_count(b, pos, room);
    if count <= 0 || count > remaining {
        Seq::empty()
    } else {
        seq![rows_from(b, pos, dim, room)] + batches_from(
            b,
            resumed(b, rows_end(b, pos, room)),
            dim,
            size,
            (remaining - count) as usize,
        )
    }
}

/// Batches one behind the other.
pub open spec fn joined(batches: Seq<Seq<u32>>) -> Seq<u32>
    decreases batches.len(),
{
    if batches.len() == 0 {
        Seq::empty()
    } else {
        batches[0] + joined(batches.drop_first())
    }
}

/// A limit takes the first records: up to `n` of those that a larger limit gives.
pub proof fn law_limit_takes_the_first(b: Seq<u8>, pos: int, dim: int, n: int, m: int)
    requires
        0 <= n <= m,
    ensures
        record_count(b, pos, n) == if record_count(b, pos, m) < n {
            record_count(b, pos, m)
        } else {
            n
        },
        rows_from(b, pos, dim, n) == rows_from(b, pos, dim, record_count(b, pos, n)),
    decreases n,
{
    if n > 0 && record_starts(b, pos) {
        law_limit_takes_the_first(b, record_end(b, pos), dim, n - 1, m - 1);
        law_batch_length(b, record_end(b, pos), 0, n - 1);
    } else {
        law_batch_length(b, pos, 0, m);
    }
}

/// Behind `n` records come those that are left.
proof fn lemma_counts_join(b: Seq<u8>, pos: int, n: int, m: int)
    requires
        0 <= n,
        0 <= m,
    ensures
        record_count(b, pos, n + m) == record_count(b, pos, n) + record_count(
            b,
            rows_end(b, pos, n),
            m,
        ),
    decreases n,
{
    if n > 0 && record_starts(b, pos) {
        lemma_counts_join(b, record_end(b, pos), n - 1, m);
    }
}

proof fn lemma_resumed(b: Seq<u8>, end: int, dim: int, n: int)
    ensures
        record_count(b, resumed(b, end), n) == record_count(b, end, n),
        rows_from(b, resumed(b, end), dim, n) == rows_from(b, end, dim, n),
{
}

proof fn lemma_no_records(b: Seq<u8>, pos: int, n: int)
    requires
        record_count(b, pos, n) == 0,
        0 < n,
    ensures
        !record_starts(b, pos),
        rows_end(b, pos, n) == pos,
{
    if record_starts(b, pos) {
        law_batch_length(b, record_end(b, pos), 0, n - 1);
    }
}

/// A file comes whole: calls until there is no batch give the first vectors of the file, up to the
/// limit, one behind the other and in order, whatever the size of a batch. They come in as few
/// batches as hold them, all of them full but the last, and none of them empty.
#[verifier::rlimit(30)]
pub proof fn law_batches_make_the_file(
    b: Seq<u8>,
    pos: int,
    dim: int,
    size: usize,
    remaining: usize,
)
    requires
        1 <= size,
        0 <= dim,
    ensures
        ({
            let all = batches_from(b, pos, dim, size, remaining);
            let m = record_count(b, pos, remaining as int);
            &&& joined(all) == rows_from(b, pos, dim, remaining as int)
            &&& 0 <= m <= all.len() * size < m + size
            &&& forall|i: int| 0 <= i < all.len() - 1 ==> (#[trigger] all[i]).len() == size * dim
            &&& all.len() > 0 ==> all.last().len() == (m - (all.len() - 1) * size) * dim
        }),
    decreases remaining,
{
    let room = least(size, remaining);
    let count = record_count(b, pos, room);
    let m = record_count(b, pos, remaining as int);
    let all = batches_from(b, pos, dim, size, remaining);
    law_batch_length(b, pos, dim, room);
    law_batch_length(b, pos, dim, remaining as int);
    law_limit_takes_the_first(b, pos, dim, room, remaining as int);
    if count == 0 {
        assert(m == 0) by {
            if remaining > 0 {
                lemma_no_records(b, pos, room);
            }
        }
        assert(all =~= Seq::empty());
        assert(rows_from(b, pos, dim, remaining as int).len() == 0) by {
            assert(0 * dim == 0);
        }
        assert(joined(all) =~= rows_from(b, pos, dim, remaining as int));
        assert(0 * size == 0);
    } else {
        let end = rows_end(b, pos, room);
        let next = resumed(b, end);
        let left = (remaining - count) as usize;
        let rest = batches_from(b, next, dim, size, left);
        law_batches_make_the_file(b, next, dim, size, left);
        lemma_resumed(b, end, dim, left as int);
        assert(all =~= seq![rows_from(b, pos, dim, room)] + rest);
        assert(all.drop_first() =~= rest);
        lemma_counts_join(b, pos, room, remaining - room);
        law_batches_join(b, pos, dim, room, remaining - room);
        if count < room {
            // The records are exhausted.
            assert(m == count);
            law_batch_length(b, end, dim, remaining - room);
            lemma_exhausted(b, pos, room);
            assert(rows_from(b, end, dim, remaining - room) =~= Seq::empty());
            assert(rows_from(b, end, dim, left as int) =~= Seq::empty());
        }
        let after = record_count(b, end, left as int);
        assert(m == count + after);
        assert(joined(all) =~= rows_from(b, pos, dim, remaining as int));
        assert(all.len() == rest.len() + 1);
        let k = rest.len() as int;
        assert((k + 1) * size == k * size + size) by (nonlinear_arith);
        if rest.len() == 0 {
            assert(after == 0) by {
                assert(0 * size == 0);
            }
            assert((m - 0 * size) * dim == count * dim) by (nonlinear_arith)
                requires
                    m == count,
            ;
            assert(all.last() == rows_from(b, pos, dim, room));
        } else {
            assert(after > 0) by {
                if after == 0 {
                    assert(k * size >= size) by (nonlinear_arith)
                        requires
                            1 <= k,
                            1 <= size,
                    ;
                }
            }
            assert(count == size) by {
                if count < room {
                    lemma_exhausted(b, pos, room);
                }
            }
            assert(all.last() == rest.last());
            assert(after - (k - 1) * size == m - k * size) by (nonlinear_arith)
                requires
                    m == size + after,
            ;
            assert forall|i: int| 0 <= i < all.len() - 1 implies (#[trigger] all[i]).len() == size
                * dim by {
                if i > 0 {
                    assert(all[i] == rest[i - 1]);
                }
            }
        }
    }
}

proof fn lemma_exhausted(b: Seq<u8>, pos: int, n: int)
    requires
        record_count(b, pos, n) < n,
    ensures
        !record_starts(b, rows_end(b, pos, n)),
    decreases n,
{
    if n > 0 && record_starts(b, pos) {
        lemma_exhausted(b, record_end(b, pos), n - 1);
    }
}

/// A reader that has given its last batch gives none ever after: a call that gives none leaves the
/// position and what may still be read as they are.
pub proof fn law_exhausted_stays_exhausted(b: Seq<u8>, pos: int, size: usize, remaining: usize)
    requires
        1 <= size,
        0 <= pos <= b.len(),
        record_count(b, pos, least(size, remaining)) == 0,
    ensures
        resumed(b, rows_end(b, pos, least(size, remaining))) == pos,
        batches_from(b, pos, 0, size, remaining).len() == 0,
{
    if remaining > 0 {
        lemma_no_records(b, pos, least(size, remaining));
    }
}

// ----------------------------------------------------------------------------
// Rows of any length
// ----------------------------------------------------------------------------

/// The values of the record at `pos`, as far as the data goes.
pub open spec fn row_at(b: Seq<u8>, pos: int) -> Seq<u32> {
    let stated = u32_at(b, pos) as int;
    let there = (b.len() - pos - 4) / 4;
    Seq::new(
        (if stated <= there {
            stated
        } else {
            there
        }) as nat,
        |i: int| u32_at(b, pos + 4 + 4 * i),
    )
}

/// The rows of up to `n` records from `pos` on.
pub open spec fn row_list(b: Seq<u8>, pos: int, n: int) -> Seq<Seq<u32>>
    decreases n,
{
    if n <= 0 || !record_starts(b, pos) {
        Seq::empty()
    } else {
        seq![row_at(b, pos)] + row_list(b, record_end(b, pos), n - 1)
    }
}

/// The rows of a vector of rows.
pub open spec fn row_models(rows: Seq<Vec<u32>>) -> Seq<Seq<u32>> {
    rows.map_values(|r: Vec<u32>| r@)
}

fn read_row(data: &[u8], pos: usize) -> (row: Vec<u32>)
    requires
        pos + 4 <= data@.len(),
    ensures
        row@ == row_at(data@, pos as int),
{
    let total: usize = data.len();
    let d: u32 = data[pos] as u32 + 256 * (data[pos + 1] as u32) + 65536 * (data[pos + 2] as u32)
        + 16777216 * (data[pos + 3] as u32);
    let there: usize = (total - pos - 4) / 4;
    let n: usize = if d as u64 <= there as u64 { d as usize } else { there };
    let mut row: Vec<u32> = Vec::new();
    let mut i: usize = 0;
    assert(row@ =~= row_at(data@, pos as int).take(0));
    while i < n
        invariant
            i <= n,
            total == data@.len(),
            pos + 4 + 4 * n <= total,
            n == row_at(data@, pos as int).len(),
            row@ == row_at(data@, pos as int).take(i as int),
        decreases n - i,
    {
        let at: usize = pos + 4 + 4 * i;
        row.push(
            data[at] as u32 + 256 * (data[at + 1] as u32) + 65536 * (data[at + 2] as u32)
                + 16777216 * (data[at + 3] as u32),
        );
        i += 1;
        assert(row@ =~= row_at(data@, pos as int).take(i as int));
    }
    assert(row_at(data@, pos as int).take(i as int) =~= row_at(data@, pos as int));
    row
}

/// Reads the rows of a file of numbers, up to a limit.
pub fn read_rows(data: &[u8], limit: Option<usize>) -> (rows: Vec<Vec<u32>>)
    ensures
        row_models(rows@) == row_list(
            data@,
            0,
            match limit {
                Some(n) => n as int,
                None => usize::MAX as int,
            },
        ),
{
    let total: usize = data.len();
    let room: usize = match limit {
        Some(n) => n,
        None => usize::MAX,
    };
    let ghost b = data@;
    let ghost mut at: int = 0;
    let mut rows: Vec<Vec<u32>> = Vec::new();
    let mut pos: usize = 0;
    let mut n: usize = 0;
    assert(row_models(rows@) + row_list(b, 0, room as int) =~= row_list(b, 0, room as int));
    while n < room && total - pos >= 4
        invariant
            n <= room,
            b == data@,
            total == b.len(),
            pos <= total,
            0 <= at,
            pos == if at <= b.len() {
                at
            } else {
                b.len() as int
            },
            row_list(b, 0, room as int) == row_models(rows@) + row_list(b, at, room - n),
        decreases room - n,
    {
        let row: Vec<u32> = read_row(data, pos);
        let d: u32 = data[pos] as u32 + 256 * (data[pos + 1] as u32) + 65536 * (data[pos
            + 2] as u32) + 16777216 * (data[pos + 3] as u32);
        let ghost before = rows@;
        proof {
            assert(at == pos);
            assert(d == u32_at(b, at));
            assert(row_list(b, at, room - n) == seq![row@] + row_list(
                b,
                record_end(b, at),
                room - n - 1,
            ));
        }
        rows.push(row);
        let left: u64 = (total - pos - 4) as u64;
        if left >= 4 * (d as u64) {
            pos = pos + 4 + 4 * (d as usize);
        } else {
            pos = total;
        }
        n += 1;
        proof {
            assert(row_models(rows@) =~= row_models(before).push(row@));
            assert(row_models(before) + (seq![row@] + row_list(b, record_end(b, at), room - n))
                =~= row_models(rows@) + row_list(b, record_end(b, at), room - n));
            at = record_end(b, at);
        }
    }
    assert(row_models(rows@) + Seq::<Seq<u32>>::empty() =~= row_models(rows@));
    rows
}

} // verus!
