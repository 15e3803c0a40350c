//! Repacking of decoded RGBA pictures between strided planes (rows that
//! start every `stride` bytes, as a decoder or scaler lays them out) and
//! tight buffers (rows back to back, as the image crate expects them).

use vstd::prelude::*;

verus! {

/// Row `y` of a plane whose rows start every `stride` bytes and hold
/// `row_len` bytes each.
pub open spec fn plane_row(data: Seq<u8>, stride: int, row_len: int, y: int) -> Seq<u8> {
    data.subrange(y * stride, y * stride + row_len)
}

/// Whether `rows` rows of `row_len` bytes, starting every `stride` bytes,
/// lie inside a buffer of `len` bytes.
pub open spec fn rows_fit(len: int, stride: int, row_len: int, rows: int) -> bool {
    rows == 0 || (rows - 1) * stride + row_len <= len
}

/// The first `rows` rows of a strided plane, back to back.
pub open spec fn packed_rows(data: Seq<u8>, stride: int, row_len: int, rows: nat) -> Seq<u8>
    decreases rows,
{
    if rows == 0 {
        Seq::empty()
    } else {
        packed_rows(data, stride, row_len, (rows - 1) as nat) + plane_row(
            data,
            stride,
            row_len,
            rows - 1,
        )
    }
}

/// `dest` with `bytes` written over it from position `at` on.
pub open spec fn overwrite(dest: Seq<u8>, at: int, bytes: Seq<u8>) -> Seq<u8> {
    dest.subrange(0, at) + bytes + dest.subrange(at + bytes.len(), dest.len() as int)
}

/// `dest` after the first `rows` rows of the tight buffer `src` (rows of
/// `row_len` bytes) have been written into it, row `y` at `y * stride`,
/// in increasing order of `y`.
pub open spec fn written_rows(
    dest: Seq<u8>,
    stride: int,
    src: Seq<u8>,
    row_len: int,
    rows: nat,
) -> Seq<u8>
    decreases rows,
{
    if rows == 0 {
        dest
    } else {
        let y = rows - 1;
        overwrite(
            written_rows(dest, stride, src, row_len, (rows - 1) as nat),
            y * stride,
            src.subrange(y * row_len, y * row_len + row_len),
        )
    }
}

proof fn lemma_row_in_bounds(len: int, stride: int, row_len: int, rows: int, y: int)
    requires
        rows_fit(len, stride, row_len, rows),
        0 <= y < rows,
        0 <= stride,
        0 <= row_len,
    ensures
        0 <= y * stride,
        y * stride + row_len <= len,
{
    assert(0 <= y * stride && y * stride <= (rows - 1) * stride) by (nonlinear_arith)
        requires
            0 <= y < rows,
            0 <= stride,
    ;
}

proof fn lemma_packed_rows_len(data: Seq<u8>, stride: int, row_len: int, rows: nat)
    requires
        rows_fit(data.len() as int, stride, row_len, rows as int),
        0 <= stride,
        0 <= row_len,
    ensures
        packed_rows(data, stride, row_len, rows).len() == rows * row_len,
    decreases rows,
{
    if rows > 0 {
        let y = rows - 1;
        lemma_row_in_bounds(data.len() as int, stride, row_len, rows as int, y);
        if rows > 1 {
            lemma_row_in_bounds(data.len() as int, stride, row_len, rows as int, rows - 2);
        }
        lemma_packed_rows_len(data, stride, row_len, (rows - 1) as nat);
        assert(plane_row(data, stride, row_len, y).len() == row_len);
        assert(y * row_len + row_len == rows * row_len) by (nonlinear_arith)
            requires
                y == rows - 1,
        ;
    } else {
        assert(rows * row_len == 0) by (nonlinear_arith)
            requires
                rows == 0,
        ;
    }
}

/// Copies `height` rows of `width` RGBA pixels out of a plane whose rows
/// start every `stride` bytes, into a buffer whose rows follow each other
/// with no gap.
pub fn pack_rows(data: &[u8], stride: usize, width: u32, height: u32) -> (tight: Vec<u8>)
    requires
        width * height * 4 <= u32::MAX,
        rows_fit(data@.len() as int, stride as int, width * 4, height as int),
    ensures
        tight@ == packed_rows(data@, stride as int, width * 4, height as nat),
        tight@.len() == width * height * 4,
        forall|y: int, b: int|
            0 <= y < height && 0 <= b < width * 4 ==> #[trigger] tight@[y * (width * 4) + b]
                == data@[y * stride + b],
{
    let mut tight: Vec<u8> = Vec::with_capacity((width * height * 4) as usize);
    if height == 0 {
        return tight;
    }
    assert(width * 4 <= width * height * 4) by (nonlinear_arith)
        requires
            height >= 1,
    ;
    let row_len = (width as usize) * 4;
    let rows = height as usize;
    let mut y: usize = 0;
    while y < rows
        invariant
            y <= rows,
            rows == height,
            row_len == width * 4,
            rows_fit(data@.len() as int, stride as int, row_len as int, rows as int),
            tight@ == packed_rows(data@, stride as int, row_len as int, y as nat),
        decreases rows - y,
    {
        proof {
            lemma_row_in_bounds(data@.len() as int, stride as int, row_len as int, rows as int, y as int);
        }
        assert(data@.len() == data.len());
        let start = y * stride;
        let end = start + row_len;
        let mut i = start;
        let ghost before = tight@;
        while i < end
            invariant
                start <= i <= end,
                end <= data@.len(),
                end == start + row_len,
                tight@ =~= before + data@.subrange(start as int, i as int),
            decreases end - i,
        {
            tight.push(data[i]);
            i = i + 1;
        }
        y = y + 1;
    }
    proof {
        lemma_packed_rows_bytes(data@, stride as int, row_len as int, height as nat);
        lemma_packed_rows_len(data@, stride as int, row_len as int, height as nat);
        assert(height * (width * 4) == width * height * 4) by (nonlinear_arith);
    }
    tight
}

proof fn lemma_written_rows_len(dest: Seq<u8>, stride: int, src: Seq<u8>, row_len: int, rows: nat)
    requires
        rows_fit(dest.len() as int, stride, row_len, rows as int),
        rows * row_len <= src.len(),
        0 <= stride,
        0 <= row_len,
    ensures
        written_rows(dest, stride, src, row_len, rows).len() == dest.len(),
    decreases rows,
{
    if rows > 0 {
        let y = rows - 1;
        lemma_row_in_bounds(dest.len() as int, stride, row_len, rows as int, y);
        if rows > 1 {
            lemma_row_in_bounds(dest.len() as int, stride, row_len, rows as int, rows - 2);
        }
        assert(0 <= y * row_len && y * row_len + row_len <= rows * row_len) by (nonlinear_arith)
            requires
                y == rows - 1,
                0 <= row_len,
                rows >= 1,
        ;
        assert((rows - 1) * row_len <= rows * row_len) by (nonlinear_arith)
            requires
                0 <= row_len,
        ;
        lemma_written_rows_len(dest, stride, src, row_len, (rows - 1) as nat);
    }
}

/// Writes `height` rows of `width` RGBA pixels, taken from a buffer whose
/// rows follow each other with no gap, into a plane whose rows start every
/// `dest_stride` bytes. Bytes of `dest` outside the written rows are left
/// as they were.
pub fn copy_rows_into(dest: &mut Vec<u8>, dest_stride: usize, src: &[u8], width: u32, height: u32)
    requires
        width * 4 <= u32::MAX,
        height * (width * 4) <= src@.len(),
        rows_fit(old(dest)@.len() as int, dest_stride as int, width * 4, height as int),
    ensures
        final(dest)@ == written_rows(old(dest)@, dest_stride as int, src@, width * 4, height as nat),
        final(dest)@.len() == old(dest)@.len(),
        dest_stride >= width * 4 ==> forall|y: int, b: int|
            0 <= y < height && 0 <= b < width * 4 ==> #[trigger] final(dest)@[y * dest_stride + b]
                == src@[y * (width * 4) + b],
        dest_stride >= width * 4 ==> forall|i: int|
            0 <= i < old(dest)@.len() && (forall|y: int|
                0 <= y < height ==> !#[trigger] in_row(i, dest_stride as int, width * 4, y))
                ==> #[trigger] final(dest)@[i] == old(dest)@[i],
{
    let src_stride = (width * 4) as usize;
    let rows = height as usize;
    let ghost original = dest@;
    let mut y: usize = 0;
    while y < rows
        invariant
            y <= rows,
            rows == height,
            src_stride == width * 4,
            rows * src_stride <= src@.len(),
            rows_fit(original.len() as int, dest_stride as int, src_stride as int, rows as int),
            dest@ == written_rows(original, dest_stride as int, src@, src_stride as int, y as nat),
            dest@.len() == original.len(),
        decreases rows - y,
    {
        proof {
            lemma_row_in_bounds(original.len() as int, dest_stride as int, src_stride as int, rows as int, y as int);
            assert(0 <= y * src_stride && y * src_stride + src_stride <= rows * src_stride) by (nonlinear_arith)
                requires
                    y < rows,
            ;
        }
        assert(src@.len() == src.len());
        assert(original.len() == dest.len());
        let src_start = y * src_stride;
        let dest_start = y * dest_stride;
        let ghost before = dest@;
        let ghost row = src@.subrange(src_start as int, src_start + src_stride);
        assert(overwrite(before, dest_start as int, row.subrange(0, 0)) =~= before);
        let mut i: usize = 0;
        while i < src_stride
            invariant
                i <= src_stride,
                src@.len() == src.len(),
                before.len() == dest.len(),
                src_start + src_stride <= src@.len(),
                dest_start + src_stride <= before.len(),
                row == src@.subrange(src_start as int, src_start + src_stride),
                dest@.len() == before.len(),
                dest@ =~= overwrite(before, dest_start as int, row.subrange(0, i as int)),
            decreases src_stride - i,
        {
            let b = src[src_start + i];
            dest[dest_start + i] = b;
            proof {
                assert(dest@ =~= overwrite(before, dest_start as int, row.subrange(0, i + 1)));
            }
            i = i + 1;
        }
        proof {
            assert(row.subrange(0, src_stride as int) =~= row);
        }
        y = y + 1;
    }
    proof {
        if dest_stride >= width * 4 {
            lemma_written_rows_bytes(original, dest_stride as int, src@, width * 4, height as nat);
        }
    }
}

proof fn lemma_written_row(dest: Seq<u8>, stride: int, src: Seq<u8>, row_len: int, rows: nat, j: int)
    requires
        0 <= row_len <= stride,
        rows_fit(dest.len() as int, stride, row_len, rows as int),
        rows * row_len <= src.len(),
        0 <= j < rows,
    ensures
        plane_row(written_rows(dest, stride, src, row_len, rows), stride, row_len, j)
            == src.subrange(j * row_len, j * row_len + row_len),
    decreases rows,
{
    let y = rows - 1;
    let prev = written_rows(dest, stride, src, row_len, (rows - 1) as nat);
    let r = src.subrange(y * row_len, y * row_len + row_len);
    lemma_row_in_bounds(dest.len() as int, stride, row_len, rows as int, y);
    if rows > 1 {
        lemma_row_in_bounds(dest.len() as int, stride, row_len, rows as int, rows - 2);
    }
    assert(0 <= y * row_len && y * row_len + row_len <= rows * row_len) by (nonlinear_arith)
        requires
            y == rows - 1,
            0 <= row_len,
            rows >= 1,
    ;
    assert((rows - 1) * row_len <= rows * row_len) by (nonlinear_arith)
        requires
            0 <= row_len,
    ;
    lemma_written_rows_len(dest, stride, src, row_len, (rows - 1) as nat);
    let cur = written_rows(dest, stride, src, row_len, rows);
    assert(cur == overwrite(prev, y * stride, r));
    if j == y {
        assert(plane_row(cur, stride, row_len, j) =~= r);
    } else {
        lemma_written_row(dest, stride, src, row_len, (rows - 1) as nat, j);
        lemma_row_in_bounds(dest.len() as int, stride, row_len, rows as int, j);
        assert(j * stride + row_len <= y * stride) by (nonlinear_arith)
            requires
                0 <= j < y,
                0 <= row_len <= stride,
        ;
        assert(plane_row(cur, stride, row_len, j) =~= plane_row(prev, stride, row_len, j));
    }
}

proof fn lemma_packed_rows_match(data: Seq<u8>, stride: int, row_len: int, rows: nat, src: Seq<u8>)
    requires
        0 <= row_len,
        rows * row_len <= src.len(),
        forall|j: int|
            0 <= j < rows ==> #[trigger] plane_row(data, stride, row_len, j) == src.subrange(
                j * row_len,
                j * row_len + row_len,
            ),
    ensures
        packed_rows(data, stride, row_len, rows) == src.subrange(0, rows * row_len),
    decreases rows,
{
    if rows == 0 {
        assert(rows * row_len == 0) by (nonlinear_arith)
            requires
                rows == 0,
        ;
        assert(src.subrange(0, 0) =~= Seq::<u8>::empty());
    } else {
        let y = rows - 1;
        assert(y * row_len + row_len == rows * row_len && 0 <= y * row_len) by (nonlinear_arith)
            requires
                y == rows - 1,
                rows >= 1,
                0 <= row_len,
        ;
        lemma_packed_rows_match(data, stride, row_len, (rows - 1) as nat, src);
        assert(plane_row(data, stride, row_len, y) == src.subrange(y * row_len, y * row_len + row_len));
        assert(packed_rows(data, stride, row_len, rows) =~= src.subrange(0, rows * row_len));
    }
}

/// Writing the rows of a tight buffer into a plane and packing them back
/// out gives the tight buffer again, whatever the plane held before, as long
/// as the plane's rows do not overlap (its stride is at least a row long).
pub proof fn lemma_pack_after_copy(dest: Seq<u8>, stride: int, src: Seq<u8>, row_len: int, rows: nat)
    requires
        0 <= row_len <= stride,
        rows_fit(dest.len() as int, stride, row_len, rows as int),
        rows * row_len <= src.len(),
    ensures
        packed_rows(written_rows(dest, stride, src, row_len, rows), stride, row_len, rows)
            == src.subrange(0, rows * row_len),
{
    let w = written_rows(dest, stride, src, row_len, rows);
    assert forall|j: int| 0 <= j < rows implies #[trigger] plane_row(w, stride, row_len, j)
        == src.subrange(j * row_len, j * row_len + row_len) by {
        lemma_written_row(dest, stride, src, row_len, rows, j);
    }
    lemma_packed_rows_match(w, stride, row_len, rows, src);
}

/// Whether byte position `i` lies in row `y` of a plane whose rows start
/// every `stride` bytes and hold `row_len` bytes.
pub open spec fn in_row(i: int, stride: int, row_len: int, y: int) -> bool {
    y * stride <= i < y * stride + row_len
}

/// Packing takes byte `b` of row `y` of the plane to position
/// `y * row_len + b` of the tight buffer, for every row and byte.
pub proof fn lemma_packed_rows_bytes(data: Seq<u8>, stride: int, row_len: int, rows: nat)
    requires
        rows_fit(data.len() as int, stride, row_len, rows as int),
        0 <= stride,
        0 <= row_len,
    ensures
        packed_rows(data, stride, row_len, rows).len() == rows * row_len,
        forall|y: int, b: int|
            0 <= y < rows && 0 <= b < row_len ==> #[trigger] packed_rows(data, stride, row_len, rows)[y
                * row_len + b] == data[y * stride + b],
    decreases rows,
{
    lemma_packed_rows_len(data, stride, row_len, rows);
    if rows > 0 {
        let last = rows - 1;
        if rows > 1 {
            lemma_row_in_bounds(data.len() as int, stride, row_len, rows as int, rows - 2);
        }
        lemma_row_in_bounds(data.len() as int, stride, row_len, rows as int, last);
        lemma_packed_rows_bytes(data, stride, row_len, (rows - 1) as nat);
        let prev = packed_rows(data, stride, row_len, (rows - 1) as nat);
        let cur = packed_rows(data, stride, row_len, rows);
        assert forall|y: int, b: int| 0 <= y < rows && 0 <= b < row_len implies #[trigger] cur[y
            * row_len + b] == data[y * stride + b] by {
            if y < last {
                assert(y * row_len + b < last * row_len && 0 <= y * row_len + b) by (nonlinear_arith)
                    requires
                        0 <= y < last,
                        0 <= b < row_len,
                ;
                assert(cur[y * row_len + b] == prev[y * row_len + b]);
            } else {
                assert(y * row_len + b - last * row_len == b);
            }
        }
    }
}

/// Copying rows into a plane whose rows do not overlap puts byte `b` of
/// row `y` of the tight buffer at position `y * stride + b` of the plane,
/// and leaves every byte outside the written rows as it was.
pub proof fn lemma_written_rows_bytes(
    dest: Seq<u8>,
    stride: int,
    src: Seq<u8>,
    row_len: int,
    rows: nat,
)
    requires
        0 <= row_len <= stride,
        rows_fit(dest.len() as int, stride, row_len, rows as int),
        rows * row_len <= src.len(),
    ensures
        written_rows(dest, stride, src, row_len, rows).len() == dest.len(),
        forall|y: int, b: int|
            0 <= y < rows && 0 <= b < row_len ==> #[trigger] written_rows(
                dest,
                stride,
                src,
                row_len,
                rows,
            )[y * stride + b] == src[y * row_len + b],
        forall|i: int|
            0 <= i < dest.len() && (forall|y: int| 0 <= y < rows ==> !#[trigger] in_row(i, stride, row_len, y))
                ==> #[trigger] written_rows(dest, stride, src, row_len, rows)[i] == dest[i],
    decreases rows,
{
    lemma_written_rows_len(dest, stride, src, row_len, rows);
    let cur = written_rows(dest, stride, src, row_len, rows);
    assert forall|y: int, b: int| 0 <= y < rows && 0 <= b < row_len implies #[trigger] cur[y * stride
        + b] == src[y * row_len + b] by {
        lemma_written_row(dest, stride, src, row_len, rows, y);
        lemma_row_in_bounds(dest.len() as int, stride, row_len, rows as int, y);
        assert(plane_row(cur, stride, row_len, y)[b] == cur[y * stride + b]);
        assert(0 <= y * row_len && y * row_len + row_len <= rows * row_len) by (nonlinear_arith)
            requires
                0 <= y < rows,
                0 <= row_len,
        ;
    }
    if rows > 0 {
        let last = rows - 1;
        if rows > 1 {
            lemma_row_in_bounds(dest.len() as int, stride, row_len, rows as int, rows - 2);
        }
        lemma_row_in_bounds(dest.len() as int, stride, row_len, rows as int, last);
        assert((rows - 1) * row_len <= rows * row_len) by (nonlinear_arith)
            requires
                0 <= row_len,
        ;
        assert(0 <= last * row_len && last * row_len + row_len <= rows * row_len) by (nonlinear_arith)
            requires
                last == rows - 1,
                rows >= 1,
                0 <= row_len,
        ;
        lemma_written_rows_bytes(dest, stride, src, row_len, (rows - 1) as nat);
        lemma_written_rows_len(dest, stride, src, row_len, (rows - 1) as nat);
        let prev = written_rows(dest, stride, src, row_len, (rows - 1) as nat);
        assert forall|i: int|
            0 <= i < dest.len() && (forall|y: int| 0 <= y < rows ==> !#[trigger] in_row(i, stride, row_len, y))
                implies #[trigger] cur[i] == dest[i] by {
            assert(!in_row(i, stride, row_len, last));
            assert(cur[i] == prev[i]);
            assert(forall|y: int| 0 <= y < rows - 1 ==> !#[trigger] in_row(i, stride, row_len, y));
        }
    }
}

} // verus!
