//! What is written to a vector file is what is read from it.
use crate::bytes::u32_at;
use crate::fvecs::{
    batches_from, joined, law_batches_make_the_file, record_count, record_end, record_starts,
    row_at, row_list, row_of, rows_from,
};
use vstd::prelude::*;

verus! {

/// Byte `k` of a number, the least significant first.
pub open spec fn byte_of(x: int, k: int) -> u8 {
    (if k == 0 {
        x % 256
    } else if k == 1 {
        (x / 256) % 256
    } else if k == 2 {
        (x / 65536) % 256
    } else {
        (x / 16777216) % 256
    }) as u8
}

/// The record of a vector: the number of its values and then the values, four bytes each.
pub open spec fn written_record(row: Seq<u32>) -> Seq<u8> {
    Seq::new(
        4 + 4 * row.len(),
        |p: int|
            byte_of(
                if p < 4 {
                    row.len() as int
                } else {
                    row[p / 4 - 1] as int
                },
                p % 4,
            ),
    )
}

/// The file of vectors: their records one behind the other.
pub open spec fn written_file(rows: Seq<Seq<u32>>) -> Seq<u8>
    decreases rows.len(),
{
    if rows.len() == 0 {
        Seq::empty()
    } else {
        written_record(rows[0]) + written_file(rows.drop_first())
    }
}

/// The values of vectors one behind the other.
pub open spec fn flat(rows: Seq<Seq<u32>>) -> Seq<u32>
    decreases rows.len(),
{
    if rows.len() == 0 {
        Seq::empty()
    } else {
        rows[0] + flat(rows.drop_first())
    }
}

/// The first `n` vectors, or all where there are fewer.
pub open spec fn up_to(rows: Seq<Seq<u32>>, n: int) -> Seq<Seq<u32>> {
    if n < rows.len() {
        rows.take(n)
    } else {
        rows
    }
}

/// Whether the numbers of values can be written.
pub open spec fn can_be_written(rows: Seq<Seq<u32>>) -> bool {
    forall|r: int| 0 <= r < rows.len() ==> (#[trigger] rows[r]).len() <= u32::MAX
}

proof fn lemma_word(b: Seq<u8>, pos: int, x: u32)
    requires
        b[pos] == byte_of(x as int, 0),
        b[pos + 1] == byte_of(x as int, 1),
        b[pos + 2] == byte_of(x as int, 2),
        b[pos + 3] == byte_of(x as int, 3),
    ensures
        u32_at(b, pos) == x,
{
}

/// The record at `pos` of bytes that go on with the file of some vectors.
proof fn lemma_record(b: Seq<u8>, pos: int, rows: Seq<Seq<u32>>)
    requires
        rows.len() > 0,
        can_be_written(rows),
        0 <= pos <= b.len(),
        b.subrange(pos, b.len() as int) == written_file(rows),
    ensures
        record_starts(b, pos),
        u32_at(b, pos) == rows[0].len(),
        record_end(b, pos) == pos + 4 + 4 * rows[0].len(),
        record_end(b, pos) <= b.len(),
        b.subrange(record_end(b, pos), b.len() as int) == written_file(rows.drop_first()),
        row_at(b, pos) == rows[0],
        row_of(
            b.subrange(pos + 4, b.len() as int),
            u32_at(b, pos) as int,
            rows[0].len() as int,
        ) == rows[0],
{
    let row = rows[0];
    let n = row.len() as int;
    let file = written_file(rows);
    let head = written_record(row);
    let tail = b.subrange(pos, b.len() as int);
    assert(rows[0].len() <= u32::MAX);
    assert(file == head + written_file(rows.drop_first()));
    assert(tail.len() == file.len());
    assert(b.len() - pos >= 4 + 4 * n);
    assert forall|p: int| 0 <= p < head.len() implies b[pos + p] == #[trigger] head[p] by {
        assert(tail[p] == b[pos + p]);
        assert(file[p] == head[p]);
    }
    assert(b[pos] == head[0] && b[pos + 1] == head[1] && b[pos + 2] == head[2] && b[pos + 3]
        == head[3]);
    lemma_word(b, pos, n as u32);
    assert forall|i: int| 0 <= i < n implies #[trigger] u32_at(b, pos + 4 + 4 * i) == row[i] by {
        let p = 4 + 4 * i;
        assert(b[pos + p] == head[p] && b[pos + p + 1] == head[p + 1] && b[pos + p + 2] == head[p
            + 2] && b[pos + p + 3] == head[p + 3]);
        assert(p / 4 - 1 == i && (p + 1) / 4 - 1 == i && (p + 2) / 4 - 1 == i && (p + 3) / 4 - 1
            == i);
        lemma_word(b, pos + p, row[i]);
    }
    assert(row_at(b, pos) =~= row);
    let body = b.subrange(pos + 4, b.len() as int);
    let read = row_of(body, n, n);
    assert forall|i: int| 0 <= i < n implies read[i] == row[i] by {
        assert(u32_at(body, 4 * i) == u32_at(b, pos + 4 + 4 * i));
    }
    assert(read =~= row);
    let rest = b.subrange(pos + 4 + 4 * n, b.len() as int);
    let more = written_file(rows.drop_first());
    assert(rest.len() == more.len());
    assert forall|p: int| 0 <= p < rest.len() implies rest[p] == more[p] by {
        assert(tail[4 + 4 * n + p] == b[pos + 4 + 4 * n + p]);
        assert(file[4 + 4 * n + p] == more[p]);
    }
    assert(rest =~= more);
}

proof fn lemma_rows_read(b: Seq<u8>, pos: int, rows: Seq<Seq<u32>>, n: int)
    requires
        can_be_written(rows),
        0 <= pos <= b.len(),
        b.subrange(pos, b.len() as int) == written_file(rows),
        0 <= n,
    ensures
        row_list(b, pos, n) == up_to(rows, n),
        record_count(b, pos, n) == up_to(rows, n).len(),
    decreases n,
{
    if rows.len() == 0 {
        assert(b.subrange(pos, b.len() as int).len() == 0);
        assert(row_list(b, pos, n) =~= up_to(rows, n));
    } else if n == 0 {
        assert(row_list(b, pos, n) =~= up_to(rows, n));
    } else {
        lemma_record(b, pos, rows);
        let rest = rows.drop_first();
        assert forall|r: int| 0 <= r < rest.len() implies (#[trigger] rest[r]).len()
            <= u32::MAX by {
            assert(rest[r] == rows[r + 1]);
        }
        lemma_rows_read(b, record_end(b, pos), rest, n - 1);
        assert(row_list(b, pos, n) =~= up_to(rows, n));
    }
}

proof fn lemma_batch_read(b: Seq<u8>, pos: int, rows: Seq<Seq<u32>>, dim: int, n: int)
    requires
        can_be_written(rows),
        forall|r: int| 0 <= r < rows.len() ==> (#[trigger] rows[r]).len() == dim,
        0 <= pos <= b.len(),
        b.subrange(pos, b.len() as int) == written_file(rows),
        0 <= n,
    ensures
        rows_from(b, pos, dim, n) == flat(up_to(rows, n)),
    decreases n,
{
    if rows.len() == 0 {
        assert(b.subrange(pos, b.len() as int).len() == 0);
        assert(up_to(rows, n).len() == 0);
    } else if n == 0 {
        assert(up_to(rows, n).len() == 0);
    } else {
        lemma_record(b, pos, rows);
        let rest = rows.drop_first();
        assert forall|r: int| 0 <= r < rest.len() implies (#[trigger] rest[r]).len() == dim
            && rest[r].len() <= u32::MAX by {
            assert(rest[r] == rows[r + 1]);
        }
        lemma_batch_read(b, record_end(b, pos), rest, dim, n - 1);
        assert(rows[0].len() == dim);
        assert(up_to(rows, n)[0] == rows[0]);
        assert(up_to(rows, n).drop_first() =~= up_to(rest, n - 1));
    }
}

/// Rows read back as they were written: those of a file of vectors of any lengths, up to the limit, in
/// order and with all their values.
pub proof fn law_rows_read_back(rows: Seq<Seq<u32>>, n: int)
    requires
        can_be_written(rows),
        0 <= n,
    ensures
        row_list(written_file(rows), 0, n) == up_to(rows, n),
{
    let b = written_file(rows);
    assert(b.subrange(0, b.len() as int) =~= b);
    lemma_rows_read(b, 0, rows, n);
}

/// Vectors read back in batches as they were written: whatever the size of a batch, the batches of a
/// file of vectors of one dimension hold the values of its first vectors, up to the limit, in order.
pub proof fn law_batches_read_back(
    rows: Seq<Seq<u32>>,
    dim: int,
    size: usize,
    remaining: usize,
)
    requires
        0 <= dim <= u32::MAX,
        forall|r: int| 0 <= r < rows.len() ==> (#[trigger] rows[r]).len() == dim,
        1 <= size,
    ensures
        joined(batches_from(written_file(rows), 0, dim, size, remaining)) == flat(
            up_to(rows, remaining as int),
        ),
{
    let b = written_file(rows);
    assert(b.subrange(0, b.len() as int) =~= b);
    assert(can_be_written(rows));
    lemma_batch_read(b, 0, rows, dim, remaining as int);
    law_batches_make_the_file(b, 0, dim, size, remaining);
}

/// One call reads the next vectors: up to `n` of those that a file holds, with all their values, and
/// it counts them.
pub proof fn law_batch_reads_back(rows: Seq<Seq<u32>>, dim: int, n: int)
    requires
        0 <= dim <= u32::MAX,
        forall|r: int| 0 <= r < rows.len() ==> (#[trigger] rows[r]).len() == dim,
        0 <= n,
    ensures
        rows_from(written_file(rows), 0, dim, n) == flat(up_to(rows, n)),
        record_count(written_file(rows), 0, n) == up_to(rows, n).len(),
{
    let b = written_file(rows);
    assert(b.subrange(0, b.len() as int) =~= b);
    assert(can_be_written(rows));
    lemma_batch_read(b, 0, rows, dim, n);
    lemma_rows_read(b, 0, rows, n);
}

/// A record of another length is fitted to the dimension: a value that it states and that is there is
/// taken, little end first, and where there is none the vector has a zero.
pub proof fn law_records_are_fitted(body: Seq<u8>, d: int, dim: int, i: int)
    requires
        0 <= i < dim,
    ensures
        row_of(body, d, dim).len() == dim,
        i < d && 4 * i + 3 < body.len() ==> row_of(body, d, dim)[i] == body[4 * i] + 256 * body[4 * i
            + 1] + 65536 * body[4 * i + 2] + 16777216 * body[4 * i + 3],
        d <= i || body.len() <= 4 * i + 3 ==> row_of(body, d, dim)[i] == 0,
{
}

} // verus!
