//! Row-stride correction for interleaved pixel buffers.
//!
//! A decoder may lay an image out with `stride` bytes per row while only
//! the first `row_len` bytes of each row are pixel data; the rest is
//! alignment padding. The functions here trim that padding away, turning
//! such a buffer into tightly packed rows fit for a row-oriented encoder.

use vstd::math::min;
use vstd::prelude::*;

verus! {

/// Row `r` of `data`, trimmed of its padding: rows start every `stride`
/// bytes, and only the first `row_len` bytes of a row are pixel data.
pub open spec fn row_of(data: Seq<u8>, stride: nat, row_len: nat, r: nat) -> Seq<u8> {
    data.subrange((r * stride) as int, (r * stride + row_len) as int)
}

/// The first `rows` rows of `data`, each trimmed to its first `row_len`
/// bytes, concatenated in row order.
pub open spec fn packed_rows(data: Seq<u8>, stride: nat, row_len: nat, rows: nat) -> Seq<u8>
    decreases rows,
{
    if rows == 0 {
        Seq::<u8>::empty()
    } else {
        packed_rows(data, stride, row_len, (rows - 1) as nat) + row_of(
            data,
            stride,
            row_len,
            (rows - 1) as nat,
        )
    }
}

/// What a chunk-by-chunk pass over `data` emits: `data` is cut into
/// chunks of `chunk_size` bytes each, the last one possibly shorter, and
/// of each chunk only its first `keep` bytes are kept (all of it, where
/// the chunk is shorter than `keep`).
pub open spec fn trimmed_chunks(data: Seq<u8>, chunk_size: nat, keep: nat) -> Seq<u8>
    decreases data.len(),
{
    if chunk_size == 0 || data.len() == 0 {
        Seq::<u8>::empty()
    } else if data.len() <= chunk_size {
        data.take(min(data.len() as int, keep as int))
    } else {
        data.take(min(chunk_size as int, keep as int)) + trimmed_chunks(
            data.skip(chunk_size as int),
            chunk_size,
            keep,
        )
    }
}

/// Walks `data` chunk by chunk, `chunk_size` bytes at a time (the last
/// chunk may be shorter), and keeps of each chunk all but its last
/// `offset_chunk` bytes, in order.
///
/// This is the raw trimming pass alone. The layout rules stand in
/// [`repack`], which rejects a buffer whose length its row count does
/// not divide (`MalformedBuffer`) or whose inferred stride falls short
/// of the logical row size (`NegativeOffset`) before this pass runs, and
/// so never calls it with `offset_chunk` above `chunk_size`.
pub fn stream_all_diff(data: &Vec<u8>, chunk_size: usize, offset_chunk: usize) -> (out: Vec<u8>)
    requires
        chunk_size > 0,
        offset_chunk <= chunk_size,
    ensures
        out@ == trimmed_chunks(data@, chunk_size as nat, (chunk_size - offset_chunk) as nat),
{
    let keep: usize = chunk_size - offset_chunk;
    let mut out: Vec<u8> = Vec::new();
    let mut pos: usize = 0;
    proof {
        assert(data@.skip(0) =~= data@);
        assert(out@ + trimmed_chunks(data@, chunk_size as nat, keep as nat) =~= trimmed_chunks(
            data@,
            chunk_size as nat,
            keep as nat,
        ));
    }
    while pos < data.len()
        invariant
            pos <= data.len(),
            chunk_size > 0,
            keep == chunk_size - offset_chunk,
            out@ + trimmed_chunks(data@.skip(pos as int), chunk_size as nat, keep as nat)
                == trimmed_chunks(data@, chunk_size as nat, keep as nat),
        decreases data.len() - pos,
    {
        let rem: usize = data.len() - pos;
        let take_n: usize = if rem < keep {
            rem
        } else {
            keep
        };
        let ghost out0 = out@;
        let mut j: usize = 0;
        while j < take_n
            invariant
                take_n <= data.len() - pos,
                j <= take_n,
                pos <= data.len(),
                out@ == out0 + data@.subrange(pos as int, pos + j),
            decreases take_n - j,
        {
            out.push(data[pos + j]);
            j += 1;
            assert(out@ =~= out0 + data@.subrange(pos as int, pos + j));
        }
        proof {
            let s = data@.skip(pos as int);
            assert(out@ == out0 + s.take(take_n as int)) by {
                assert(out0 + data@.subrange(pos as int, pos + take_n) =~= out0 + s.take(
                    take_n as int,
                ));
            }
            if rem <= chunk_size {
                assert(trimmed_chunks(s, chunk_size as nat, keep as nat) == s.take(take_n as int));
                assert(data@.skip(data@.len() as int) =~= Seq::<u8>::empty());
                assert(out@ + Seq::<u8>::empty() =~= out0 + trimmed_chunks(
                    s,
                    chunk_size as nat,
                    keep as nat,
                ));
            } else {
                assert(trimmed_chunks(s, chunk_size as nat, keep as nat) == s.take(take_n as int)
                    + trimmed_chunks(s.skip(chunk_size as int), chunk_size as nat, keep as nat));
                assert(s.skip(chunk_size as int) =~= data@.skip(pos + chunk_size));
                assert(out@ + trimmed_chunks(
                    data@.skip(pos + chunk_size),
                    chunk_size as nat,
                    keep as nat,
                ) =~= out0 + trimmed_chunks(s, chunk_size as nat, keep as nat));
            }
        }
        pos = if rem <= chunk_size {
            data.len()
        } else {
            pos + chunk_size
        };
    }
    proof {
        assert(data@.skip(pos as int) =~= Seq::<u8>::empty());
        assert(out@ + Seq::<u8>::empty() =~= out@);
    }
    out
}

/// Every trimmed row holds exactly `row_len` bytes, so the packed output
/// for `rows` rows holds exactly `rows * row_len` bytes, however much
/// padding the buffer carried.
pub proof fn lemma_packed_rows_len(data: Seq<u8>, stride: nat, row_len: nat, rows: nat)
    requires
        row_len <= stride,
        rows * stride <= data.len(),
    ensures
        packed_rows(data, stride, row_len, rows).len() == rows * row_len,
    decreases rows,
{
    if rows > 0 {
        let m = (rows - 1) as nat;
        assert(m * (stride as int) == rows * (stride as int) - stride && m * (row_len as int)
            == rows * (row_len as int) - row_len && rows * (stride as int) >= stride)
            by (nonlinear_arith)
            requires
                m == rows - 1,
                rows >= 1,
                stride >= 0,
                row_len >= 0,
        ;
        lemma_packed_rows_len(data, stride, row_len, m);
        assert(m * stride + row_len <= data.len());
    } else {
        assert(rows * (row_len as int) == 0) by (nonlinear_arith)
            requires
                rows == 0,
        ;
    }
}

/// With no padding (`stride == row_len`) trimming changes nothing: the
/// packed rows are the buffer itself, byte for byte.
pub proof fn lemma_packed_rows_identity(data: Seq<u8>, row_len: nat, rows: nat)
    requires
        data.len() == rows * row_len,
    ensures
        packed_rows(data, row_len, row_len, rows) == data,
{
    lemma_packed_rows_take(data, row_len, rows);
    assert(data.take((rows * row_len) as int) =~= data);
}

/// A synthetic padded layout divides evenly: a buffer of `rows` rows of
/// `row_len + offset` bytes each has a length that `rows` divides, and
/// the inferred stride is exactly `row_len + offset`. By `repack`'s
/// contract, its output on such a buffer is therefore the concatenation
/// of the first `row_len` bytes of each row.
pub proof fn lemma_padded_layout_stride(data: Seq<u8>, row_len: nat, offset: nat, rows: nat)
    requires
        rows >= 1,
        data.len() == rows * (row_len + offset),
    ensures
        data.len() % rows == 0,
        data.len() / rows == row_len + offset,
{
    assert(rows * ((row_len + offset) as int) == ((row_len + offset) as int) * rows)
        by (nonlinear_arith);
    vstd::arithmetic::div_mod::lemma_fundamental_div_mod_converse(
        data.len() as int,
        rows as int,
        (row_len + offset) as int,
        0,
    );
}

proof fn lemma_packed_rows_take(data: Seq<u8>, row_len: nat, n: nat)
    requires
        n * row_len <= data.len(),
    ensures
        packed_rows(data, row_len, row_len, n) == data.take((n * row_len) as int),
    decreases n,
{
    if n == 0 {
        assert(n * row_len == 0) by (nonlinear_arith)
            requires
                n == 0,
        ;
        assert(data.take(0) =~= Seq::<u8>::empty());
    } else {
        let m = (n - 1) as nat;
        assert(m * (row_len as int) == n * (row_len as int) - row_len && n * (row_len as int)
            >= row_len) by (nonlinear_arith)
            requires
                m == n - 1,
                n >= 1,
                row_len >= 0,
        ;
        lemma_packed_rows_take(data, row_len, m);
        assert(data.take((m * row_len) as int) + row_of(data, row_len, row_len, m) =~= data.take(
            (n * row_len) as int,
        ));
    }
}

proof fn lemma_packed_rows_shift(data: Seq<u8>, stride: nat, row_len: nat, rows: nat)
    requires
        0 < stride,
        row_len <= stride,
        (rows + 1) * stride <= data.len(),
    ensures
        packed_rows(data, stride, row_len, rows + 1) == row_of(data, stride, row_len, 0)
            + packed_rows(data.skip(stride as int), stride, row_len, rows),
    decreases rows,
{
    if rows == 0 {
        assert((rows + 1) * (stride as int) == stride) by (nonlinear_arith)
            requires
                rows == 0,
        ;
        assert(packed_rows(data, stride, row_len, 0) == Seq::<u8>::empty());
        assert(Seq::<u8>::empty() + row_of(data, stride, row_len, 0) =~= row_of(
            data,
            stride,
            row_len,
            0,
        ) + Seq::<u8>::empty());
    } else {
        let m = (rows - 1) as nat;
        assert(rows * (stride as int) == m * (stride as int) + stride && (rows + 1) * (
        stride as int) == rows * (stride as int) + stride && m * (stride as int) >= 0)
            by (nonlinear_arith)
            requires
                m == rows - 1,
                rows >= 1,
                stride >= 0,
        ;
        lemma_packed_rows_shift(data, stride, row_len, m);
        assert(row_of(data, stride, row_len, rows) =~= row_of(
            data.skip(stride as int),
            stride,
            row_len,
            m,
        ));
        assert((row_of(data, stride, row_len, 0) + packed_rows(
            data.skip(stride as int),
            stride,
            row_len,
            m,
        )) + row_of(data.skip(stride as int), stride, row_len, m) =~= row_of(
            data,
            stride,
            row_len,
            0,
        ) + packed_rows(data.skip(stride as int), stride, row_len, rows));
    }
}

proof fn lemma_trimmed_chunks_are_rows(data: Seq<u8>, stride: nat, row_len: nat, rows: nat)
    requires
        0 < stride,
        row_len <= stride,
        data.len() == rows * stride,
    ensures
        trimmed_chunks(data, stride, row_len) == packed_rows(data, stride, row_len, rows),
    decreases rows,
{
    if rows == 0 {
        assert(rows * (stride as int) == 0) by (nonlinear_arith)
            requires
                rows == 0,
        ;
    } else if rows == 1 {
        assert(rows * (stride as int) == stride) by (nonlinear_arith)
            requires
                rows == 1,
        ;
        assert(packed_rows(data, stride, row_len, 0) == Seq::<u8>::empty());
        assert(data.take(row_len as int) =~= row_of(data, stride, row_len, 0));
        assert(Seq::<u8>::empty() + row_of(data, stride, row_len, 0) =~= row_of(
            data,
            stride,
            row_len,
            0,
        ));
    } else {
        let m = (rows - 1) as nat;
        assert(rows * (stride as int) == m * (stride as int) + stride && m * (stride as int)
            >= stride) by (nonlinear_arith)
            requires
                m == rows - 1,
                rows >= 2,
                stride >= 1,
        ;
        let tail = data.skip(stride as int);
        assert(tail.len() == m * stride);
        lemma_trimmed_chunks_are_rows(tail, stride, row_len, m);
        lemma_packed_rows_shift(data, stride, row_len, m);
        assert(data.take(row_len as int) =~= row_of(data, stride, row_len, 0));
    }
}

/// Why a buffer cannot be repacked.
#[derive(Clone, Copy, Debug, PartialEq, Eq)]
pub enum RepackError {
    /// The buffer's byte length is not evenly divisible by the row count,
    /// so no per-row stride can be inferred.
    MalformedBuffer,
    /// The inferred stride is smaller than the logical row size: the rows
    /// asked for do not fit in the buffer's layout.
    NegativeOffset,
}

/// Repacks `data`, laid out as `height` rows of an inferred common
/// stride, into tightly packed rows of `logical_row_size` bytes each:
/// the output is the concatenation, in row order, of the first
/// `logical_row_size` bytes of every row.
///
/// The stride is inferred as `data.len() / height`. A buffer whose
/// length the row count does not divide is rejected as malformed; one
/// whose inferred stride falls short of the logical row size is
/// rejected, since trimming could only lose pixel data.
pub fn repack(data: &Vec<u8>, height: usize, logical_row_size: usize) -> (r: Result<
    Vec<u8>,
    RepackError,
>)
    requires
        height > 0,
        logical_row_size > 0,
        data@.len() > 0,
    ensures
        match r {
            Ok(out) => {
                &&& data@.len() % (height as nat) == 0
                &&& logical_row_size as nat <= data@.len() / (height as nat)
                &&& out@ == packed_rows(
                    data@,
                    data@.len() / (height as nat),
                    logical_row_size as nat,
                    height as nat,
                )
                &&& out@.len() == (logical_row_size as nat) * (height as nat)
            },
            Err(e) => match e {
                RepackError::MalformedBuffer => data@.len() % (height as nat) != 0,
                RepackError::NegativeOffset => data@.len() % (height as nat) == 0 && data@.len() / (
                height as nat) < logical_row_size as nat,
            },
        },
{
    if data.len() % height != 0 {
        return Err(RepackError::MalformedBuffer);
    }
    let stride: usize = data.len() / height;
    if stride < logical_row_size {
        return Err(RepackError::NegativeOffset);
    }
    proof {
        vstd::arithmetic::div_mod::lemma_fundamental_div_mod(data@.len() as int, height as int);
        assert(data@.len() == (height as nat) * (stride as nat));
        assert((height as int) * (stride as int) == (stride as int) * (height as int)
            && (height as int) * (logical_row_size as int) == (logical_row_size as int) * (
        height as int)) by (nonlinear_arith);
    }
    if stride == logical_row_size {
        let mut out: Vec<u8> = Vec::new();
        let mut i: usize = 0;
        while i < data.len()
            invariant
                i <= data.len(),
                out@ == data@.subrange(0, i as int),
            decreases data.len() - i,
        {
            out.push(data[i]);
            i += 1;
            assert(out@ =~= data@.subrange(0, i as int));
        }
        proof {
            assert(out@ =~= data@);
            lemma_packed_rows_identity(data@, stride as nat, height as nat);
            lemma_packed_rows_len(data@, stride as nat, logical_row_size as nat, height as nat);
        }
        Ok(out)
    } else {
        let out = stream_all_diff(data, stride, stride - logical_row_size);
        proof {
            lemma_trimmed_chunks_are_rows(
                data@,
                stride as nat,
                logical_row_size as nat,
                height as nat,
            );
            lemma_packed_rows_len(data@, stride as nat, logical_row_size as nat, height as nat);
        }
        Ok(out)
    }
}

} // verus!
