//! The run-length codec for image payloads (ETRLE).
//!
//! A compressed stream is a sequence of control bytes. `0x00` terminates the
//! current row, padding the remaining columns with the transparent value 0.
//! A byte with bit 7 set emits its low 7 bits' worth of transparent pixels;
//! a byte with bit 7 clear copies that many literal bytes from the stream.
//! Compression partitions each row greedily into maximal zero runs and
//! maximal literal runs of at most 127 pixels and terminates every row
//! explicitly.

use vstd::prelude::*;

use crate::types::{StiError, StiErrorKind, StiResult};

verus! {

/// `n` transparent pixels.
pub open spec fn zeros(n: nat) -> Seq<u8> {
    Seq::new(n, |i: int| 0u8)
}

/// Length of the maximal prefix of zero bytes.
pub open spec fn zero_run(s: Seq<u8>) -> nat
    decreases s.len(),
{
    if s.len() == 0 || s[0] != 0 {
        0
    } else {
        (1 + zero_run(s.skip(1))) as nat
    }
}

/// Length of the maximal prefix of non-zero bytes.
pub open spec fn lit_run(s: Seq<u8>) -> nat
    decreases s.len(),
{
    if s.len() == 0 || s[0] == 0 {
        0
    } else {
        (1 + lit_run(s.skip(1))) as nat
    }
}

/// Length of the run the compressor emits next: the maximal run of the
/// leading byte's kind, capped at 127 (and, vacuously, at the remaining
/// length).
pub open spec fn head_run(s: Seq<u8>) -> nat {
    let r: nat = if s.len() == 0 {
        0
    } else if s[0] == 0 {
        zero_run(s)
    } else {
        lit_run(s)
    };
    let capped: nat = if r > 127 {
        127
    } else {
        r
    };
    if capped > s.len() {
        s.len()
    } else {
        capped
    }
}

/// The compressed encoding of one row (without the trailing row
/// terminator): greedy maximal runs, longest first.
pub open spec fn comp_row(s: Seq<u8>) -> Seq<u8>
    decreases s.len(),
{
    if s.len() == 0 {
        Seq::empty()
    } else {
        let k = head_run(s);
        if s[0] == 0 {
            seq![(0x80 + k) as u8] + comp_row(s.skip(k as int))
        } else {
            seq![k as u8] + s.take(k as int) + comp_row(s.skip(k as int))
        }
    }
}

/// The compressed encoding of rows `row..h` of a `w * h` pixel buffer:
/// each row's runs followed by an explicit row terminator.
pub open spec fn comp_rows(b: Seq<u8>, w: nat, row: nat, h: nat) -> Seq<u8>
    decreases h - row,
{
    if row >= h {
        Seq::empty()
    } else {
        comp_row(b.subrange((row * w) as int, (row * w + w) as int)) + seq![0u8] + comp_rows(
            b,
            w,
            (row + 1) as nat,
            h,
        )
    }
}

/// The compressed encoding of a whole `w * h` pixel buffer.
pub open spec fn spec_compress(b: Seq<u8>, w: nat, h: nat) -> Seq<u8> {
    comp_rows(b, w, 0, h)
}

/// One decompression state: remaining input, current row and column, output
/// so far. Returns the accumulated output when the input is exhausted or
/// all rows are done, and `None` when a run violates its row bounds or a
/// literal run outruns the input.
pub open spec fn dstep(data: Seq<u8>, w: nat, h: nat, row: nat, col: nat, acc: Seq<u8>) -> Option<
    Seq<u8>,
>
    decreases data.len(),
{
    if data.len() == 0 || row >= h {
        Some(acc)
    } else {
        let c = data[0];
        if c == 0 {
            dstep(data.skip(1), w, h, (row + 1) as nat, 0, acc + zeros((w - col) as nat))
        } else if c >= 0x80 {
            let k = (c - 0x80) as nat;
            if col + k > w {
                None
            } else {
                dstep(data.skip(1), w, h, row, (col + k) as nat, acc + zeros(k))
            }
        } else {
            let k = c as nat;
            if data.len() < 1 + k {
                None
            } else if col + k > w {
                None
            } else {
                dstep(
                    data.skip(1 + k as int),
                    w,
                    h,
                    row,
                    (col + k) as nat,
                    acc + data.subrange(1, 1 + k as int),
                )
            }
        }
    }
}

/// `s` padded with transparent pixels to length `n` (a no-op when already
/// long enough).
pub open spec fn pad_to(s: Seq<u8>, n: nat) -> Seq<u8> {
    if s.len() >= n {
        s
    } else {
        s + zeros((n - s.len()) as nat)
    }
}

/// What decompression of `data` for a `w * h` image returns: the run of the
/// state machine from the start, padded to the full pixel count; `None` on
/// a malformed stream.
pub open spec fn spec_decompress(data: Seq<u8>, w: nat, h: nat) -> Option<Seq<u8>> {
    match dstep(data, w, h, 0, 0, Seq::empty()) {
        Some(s) => Some(pad_to(s, w * h)),
        None => None,
    }
}

/// The zero run never exceeds the sequence's length.
proof fn lemma_zero_run_le(s: Seq<u8>)
    ensures
        zero_run(s) <= s.len(),
    decreases s.len(),
{
    if s.len() != 0 && s[0] == 0 {
        lemma_zero_run_le(s.skip(1));
    }
}

/// The literal run never exceeds the sequence's length.
proof fn lemma_lit_run_le(s: Seq<u8>)
    ensures
        lit_run(s) <= s.len(),
    decreases s.len(),
{
    if s.len() != 0 && s[0] != 0 {
        lemma_lit_run_le(s.skip(1));
    }
}

/// Every byte inside the zero run is zero.
proof fn lemma_zero_run_zeros(s: Seq<u8>)
    ensures
        forall|j: int| 0 <= j < zero_run(s) ==> s[j] == 0,
    decreases s.len(),
{
    if s.len() != 0 && s[0] == 0 {
        lemma_zero_run_le(s);
        lemma_zero_run_zeros(s.skip(1));
        assert forall|j: int| 0 <= j < zero_run(s) implies s[j] == 0 by {
            if j > 0 {
                assert(s.skip(1)[j - 1] == s[j]);
            }
        }
    }
}

/// Every byte inside the literal run is non-zero.
proof fn lemma_lit_run_nonzero(s: Seq<u8>)
    ensures
        forall|j: int| 0 <= j < lit_run(s) ==> s[j] != 0,
    decreases s.len(),
{
    if s.len() != 0 && s[0] != 0 {
        lemma_lit_run_le(s);
        lemma_lit_run_nonzero(s.skip(1));
        assert forall|j: int| 0 <= j < lit_run(s) implies s[j] != 0 by {
            if j > 0 {
                assert(s.skip(1)[j - 1] == s[j]);
            }
        }
    }
}

/// A prefix of `n` zeros followed by the end or a non-zero byte pins the
/// zero run at exactly `n`.
proof fn lemma_zero_run_exact(s: Seq<u8>, n: nat)
    requires
        n <= s.len(),
        forall|j: int| 0 <= j < n ==> s[j] == 0,
        n == s.len() || s[n as int] != 0,
    ensures
        zero_run(s) == n,
    decreases n,
{
    if n == 0 {
        if s.len() != 0 {
            assert(s[0] != 0);
        }
    } else {
        assert(s[0] == 0);
        assert forall|j: int| 0 <= j < n - 1 implies s.skip(1)[j] == 0 by {
            assert(s.skip(1)[j] == s[j + 1]);
        }
        if n < s.len() {
            assert(s.skip(1)[n - 1] == s[n as int]);
        }
        lemma_zero_run_exact(s.skip(1), (n - 1) as nat);
    }
}

/// A prefix of `n` zeros forces the zero run to be at least `n`.
proof fn lemma_zero_run_min(s: Seq<u8>, n: nat)
    requires
        n <= s.len(),
        forall|j: int| 0 <= j < n ==> s[j] == 0,
    ensures
        zero_run(s) >= n,
    decreases n,
{
    if n > 0 {
        assert(s[0] == 0);
        assert forall|j: int| 0 <= j < n - 1 implies s.skip(1)[j] == 0 by {
            assert(s.skip(1)[j] == s[j + 1]);
        }
        lemma_zero_run_min(s.skip(1), (n - 1) as nat);
    }
}

/// A prefix of `n` non-zero bytes followed by the end or a zero byte pins
/// the literal run at exactly `n`.
proof fn lemma_lit_run_exact(s: Seq<u8>, n: nat)
    requires
        n <= s.len(),
        forall|j: int| 0 <= j < n ==> s[j] != 0,
        n == s.len() || s[n as int] == 0,
    ensures
        lit_run(s) == n,
    decreases n,
{
    if n == 0 {
        if s.len() != 0 {
            assert(s[0] == 0);
        }
    } else {
        assert(s[0] != 0);
        assert forall|j: int| 0 <= j < n - 1 implies s.skip(1)[j] != 0 by {
            assert(s.skip(1)[j] == s[j + 1]);
        }
        if n < s.len() {
            assert(s.skip(1)[n - 1] == s[n as int]);
        }
        lemma_lit_run_exact(s.skip(1), (n - 1) as nat);
    }
}

/// A prefix of `n` non-zero bytes forces the literal run to be at least `n`.
proof fn lemma_lit_run_min(s: Seq<u8>, n: nat)
    requires
        n <= s.len(),
        forall|j: int| 0 <= j < n ==> s[j] != 0,
    ensures
        lit_run(s) >= n,
    decreases n,
{
    if n > 0 {
        assert(s[0] != 0);
        assert forall|j: int| 0 <= j < n - 1 implies s.skip(1)[j] != 0 by {
            assert(s.skip(1)[j] == s[j + 1]);
        }
        lemma_lit_run_min(s.skip(1), (n - 1) as nat);
    }
}

/// Decompressing the encoding of one full row, followed by its terminator
/// and arbitrary further data `t`, consumes exactly that encoding: it
/// appends the row's pixels to the output and advances to the next row.
proof fn lemma_comp_row_roundtrip(s: Seq<u8>, t: Seq<u8>, w: nat, h: nat, row: nat, col: nat, acc: Seq<u8>)
    requires
        col + s.len() == w,
        row < h,
    ensures
        dstep(comp_row(s) + seq![0u8] + t, w, h, row, col, acc) == dstep(
            t,
            w,
            h,
            (row + 1) as nat,
            0,
            acc + s,
        ),
    decreases s.len(),
{
    let data = comp_row(s) + seq![0u8] + t;
    if s.len() == 0 {
        assert(data =~= seq![0u8] + t);
        assert(data[0] == 0);
        assert(data.skip(1) =~= t);
        assert(zeros((w - col) as nat) =~= Seq::<u8>::empty());
        assert(acc + zeros((w - col) as nat) =~= acc);
        assert(acc + s =~= acc);
    } else {
        let k = head_run(s);
        if s[0] == 0 {
            lemma_zero_run_le(s);
            lemma_zero_run_zeros(s);
            assert(comp_row(s) == seq![(0x80 + k) as u8] + comp_row(s.skip(k as int)));
            assert(data[0] == (0x80 + k) as u8);
            assert(1 <= k <= 127);
            assert(data[0] != 0 && data[0] >= 0x80);
            assert((data[0] - 0x80) as nat == k);
            assert(col + k <= w);
            assert(data.skip(1) =~= comp_row(s.skip(k as int)) + seq![0u8] + t);
            assert(zeros(k) =~= s.take(k as int));
            lemma_comp_row_roundtrip(
                s.skip(k as int),
                t,
                w,
                h,
                row,
                (col + k) as nat,
                acc + s.take(k as int),
            );
            assert((acc + s.take(k as int)) + s.skip(k as int) =~= acc + s);
        } else {
            lemma_lit_run_le(s);
            assert(comp_row(s) == seq![k as u8] + s.take(k as int) + comp_row(s.skip(k as int)));
            assert(data[0] == k as u8);
            assert(1 <= k <= 127);
            assert(data[0] != 0 && data[0] < 0x80);
            assert(data.len() >= 1 + k);
            assert(col + k <= w);
            assert(data.subrange(1, 1 + k as int) =~= s.take(k as int));
            assert(data.skip(1 + k as int) =~= comp_row(s.skip(k as int)) + seq![0u8] + t);
            lemma_comp_row_roundtrip(
                s.skip(k as int),
                t,
                w,
                h,
                row,
                (col + k) as nat,
                acc + s.take(k as int),
            );
            assert((acc + s.take(k as int)) + s.skip(k as int) =~= acc + s);
        }
    }
}

/// Decompressing the encoding of rows `row..h` appends exactly those rows'
/// pixels to the output.
proof fn lemma_comp_rows_roundtrip(b: Seq<u8>, w: nat, h: nat, row: nat, acc: Seq<u8>)
    requires
        b.len() == w * h,
        row <= h,
    ensures
        dstep(comp_rows(b, w, row, h), w, h, row, 0, acc) == Some(acc + b.skip((row * w) as int)),
    decreases h - row,
{
    if row >= h {
        assert(row == h);
        assert(row * w == w * h) by (nonlinear_arith)
            requires
                row == h,
        ;
        assert(b.skip((row * w) as int) =~= Seq::<u8>::empty());
        assert(acc + b.skip((row * w) as int) =~= acc);
        assert(comp_rows(b, w, row, h).len() == 0);
    } else {
        assert(row * w + w == (row + 1) * w && (row + 1) * w <= w * h) by (nonlinear_arith)
            requires
                row < h,
        ;
        let rowseq = b.subrange((row * w) as int, (row * w + w) as int);
        let rest = comp_rows(b, w, (row + 1) as nat, h);
        assert(comp_rows(b, w, row, h) == comp_row(rowseq) + seq![0u8] + rest);
        lemma_comp_row_roundtrip(rowseq, rest, w, h, row, 0, acc);
        assert(acc + zeros(0) =~= acc);
        assert(acc + rowseq =~= acc + rowseq);
        lemma_comp_rows_roundtrip(b, w, h, (row + 1) as nat, acc + rowseq);
        assert((acc + rowseq) + b.skip(((row + 1) * w) as int) =~= acc + b.skip((row * w) as int));
    }
}

/// Round-trip law of the run-length codec: decompressing the compression
/// of any `w * h` pixel buffer gives the buffer back.
pub proof fn lemma_etrle_round_trip(b: Seq<u8>, w: nat, h: nat)
    requires
        b.len() == w * h,
    ensures
        spec_decompress(spec_compress(b, w, h), w, h) == Some(b),
{
    lemma_comp_rows_roundtrip(b, w, h, 0, Seq::empty());
    assert(b.skip(0) =~= b);
    assert(Seq::empty() + b =~= b);
    assert(pad_to(b, w * h) == b);
}

/// Every state of the decompressor keeps its output within the image:
/// whenever it returns, the output holds at most `w * h` bytes.
proof fn lemma_dstep_len(data: Seq<u8>, w: nat, h: nat, row: nat, col: nat, acc: Seq<u8>)
    requires
        col <= w,
        row <= h,
        row == h ==> col == 0,
        acc.len() == row * w + col,
    ensures
        match dstep(data, w, h, row, col, acc) {
            Some(s) => s.len() <= w * h,
            None => true,
        },
    decreases data.len(),
{
    if data.len() == 0 || row >= h {
        assert(row * w + col <= w * h) by (nonlinear_arith)
            requires
                row <= h,
                col <= w,
                row == h ==> col == 0,
        ;
    } else {
        let c = data[0];
        if c == 0 {
            assert((acc + zeros((w - col) as nat)).len() == (row + 1) * w + 0) by (nonlinear_arith)
                requires
                    acc.len() == row * w + col,
                    col <= w,
            ;
            lemma_dstep_len(
                data.skip(1),
                w,
                h,
                (row + 1) as nat,
                0,
                acc + zeros((w - col) as nat),
            );
        } else if c >= 0x80 {
            let k = (c - 0x80) as nat;
            if col + k <= w {
                lemma_dstep_len(data.skip(1), w, h, row, (col + k) as nat, acc + zeros(k));
            }
        } else {
            let k = c as nat;
            if data.len() >= 1 + k && col + k <= w {
                lemma_dstep_len(
                    data.skip(1 + k as int),
                    w,
                    h,
                    row,
                    (col + k) as nat,
                    acc + data.subrange(1, 1 + k as int),
                );
            }
        }
    }
}

/// A successful decompression yields exactly `w * h` pixel bytes.
pub proof fn lemma_decompress_len(data: Seq<u8>, w: nat, h: nat)
    ensures
        match spec_decompress(data, w, h) {
            Some(s) => s.len() == w * h,
            None => true,
        },
{
    assert(Seq::<u8>::empty().len() == 0 * w + 0) by (nonlinear_arith);
    lemma_dstep_len(data, w, h, 0, 0, Seq::empty());
}

/// Run-length codec for one image, parameterized by its dimensions.
pub struct EtrleDecoder {
    pub width: usize,
    pub height: usize,
}

impl EtrleDecoder {
    /// A codec for a `width * height` image.
    pub fn new(width: u16, height: u16) -> (r: Self)
        ensures
            r.width == width as usize,
            r.height == height as usize,
    {
        EtrleDecoder { width: width as usize, height: height as usize }
    }

    /// Decompresses a run-length stream into exactly `width * height`
    /// pixel bytes, padding truncated trailing data with the transparent
    /// value. Fails with a decompression error exactly when a run violates
    /// its row bounds or a literal run outruns the input.
    pub fn decompress(&self, compressed_data: &[u8]) -> (r: StiResult<Vec<u8>>)
        requires
            self.width <= 0xFFFF,
            self.height <= 0xFFFF,
        ensures
            match r {
                Ok(v) => spec_decompress(
                    compressed_data@,
                    self.width as nat,
                    self.height as nat,
                ) == Some(v@),
                Err(e) => spec_decompress(compressed_data@, self.width as nat, self.height as nat)
                    is None && e.kind() == StiErrorKind::Decompression,
            },
    {
        let w = self.width;
        let h = self.height;
        let ghost d = compressed_data@;
        let ghost wn = w as nat;
        let ghost hn = h as nat;
        let mut out: Vec<u8> = Vec::new();
        let mut pos: usize = 0;
        let mut row: usize = 0;
        let mut col: usize = 0;
        proof {
            assert(d.skip(0) =~= d);
            assert(out@ =~= Seq::<u8>::empty());
        }
        while pos < compressed_data.len() && row < h
            invariant
                w <= 0xFFFF,
                h <= 0xFFFF,
                w == self.width,
                h == self.height,
                wn == w as nat,
                hn == h as nat,
                d == compressed_data@,
                pos <= compressed_data.len(),
                row <= h,
                col <= w,
                row == h ==> col == 0,
                out@.len() == row * w + col,
                dstep(d, wn, hn, 0, 0, Seq::empty()) == dstep(
                    d.skip(pos as int),
                    wn,
                    hn,
                    row as nat,
                    col as nat,
                    out@,
                ),
            decreases compressed_data.len() - pos,
        {
            let ghost pos0 = pos as int;
            let ghost row0 = row as nat;
            let ghost col0 = col as nat;
            let ghost out0 = out@;
            let ghost d0 = d.skip(pos0);
            let control_byte = compressed_data[pos];
            pos = pos + 1;
            proof {
                assert(d0.len() > 0);
                assert(d0[0] == control_byte);
                assert(d0.skip(1) =~= d.skip(pos as int));
            }
            if control_byte == 0x00 {
                // Row terminator: pad the rest of the row with transparent
                // pixels and move to the next row.
                proof {
                    assert(out0 + zeros(0) =~= out0);
                }
                while col < w
                    invariant
                        col0 <= col <= w,
                        out@.len() == out0.len() + col - col0,
                        out@ == out0 + zeros((col - col0) as nat),
                    decreases w - col,
                {
                    out.push(0);
                    col = col + 1;
                    proof {
                        assert(out@ =~= out0 + zeros((col - col0) as nat));
                    }
                }
                row = row + 1;
                col = 0;
                proof {
                    assert(out@ == out0 + zeros((wn - col0) as nat));
                    assert(out@.len() == row * w + col) by (nonlinear_arith)
                        requires
                            out@.len() == out0.len() + (wn - col0),
                            col0 <= wn,
                            out0.len() == (row - 1) * w + col0,
                            col == 0,
                            wn == w,
                    ;
                    assert(dstep(d0, wn, hn, row0, col0, out0) == dstep(
                        d.skip(pos as int),
                        wn,
                        hn,
                        row as nat,
                        col as nat,
                        out@,
                    ));
                }
            } else if control_byte >= 0x80 {
                // Transparent run.
                let count = (control_byte - 0x80) as usize;
                if col + count > w {
                    proof {
                        assert(dstep(d0, wn, hn, row0, col0, out0) is None);
                    }
                    return Err(
                        StiError::Decompression("Transparent pixels exceed row width".to_string()),
                    );
                }
                proof {
                    assert(out0 + zeros(0) =~= out0);
                }
                let mut i: usize = 0;
                while i < count
                    invariant
                        i <= count,
                        out@ == out0 + zeros(i as nat),
                    decreases count - i,
                {
                    out.push(0);
                    i = i + 1;
                    proof {
                        assert(out@ =~= out0 + zeros(i as nat));
                    }
                }
                col = col + count;
                proof {
                    assert(dstep(d0, wn, hn, row0, col0, out0) == dstep(
                        d.skip(pos as int),
                        wn,
                        hn,
                        row as nat,
                        col as nat,
                        out@,
                    ));
                }
            } else {
                // Literal run: copy the next `count` bytes verbatim.
                let count = control_byte as usize;
                if count > compressed_data.len() - pos {
                    proof {
                        assert(d0.len() < 1 + count);
                        assert(dstep(d0, wn, hn, row0, col0, out0) is None);
                    }
                    return Err(
                        StiError::Decompression(
                            "Not enough data for non-transparent pixels".to_string(),
                        ),
                    );
                }
                if col + count > w {
                    proof {
                        assert(d0.len() >= 1 + count);
                        assert(dstep(d0, wn, hn, row0, col0, out0) is None);
                    }
                    return Err(
                        StiError::Decompression(
                            "Non-transparent pixels exceed row width".to_string(),
                        ),
                    );
                }
                proof {
                    assert(out0 + d.subrange(pos as int, pos as int) =~= out0);
                }
                let mut i: usize = 0;
                while i < count
                    invariant
                        i <= count,
                        count <= compressed_data.len() - pos,
                        pos + count <= compressed_data.len(),
                        d == compressed_data@,
                        out@ == out0 + d.subrange(pos as int, pos as int + i),
                    decreases count - i,
                {
                    out.push(compressed_data[pos + i]);
                    i = i + 1;
                    proof {
                        assert(out@ =~= out0 + d.subrange(pos as int, pos as int + i));
                    }
                }
                proof {
                    assert(d.subrange(pos0 + 1, pos0 + 1 + count) =~= d0.subrange(
                        1,
                        1 + count as int,
                    ));
                    assert(d0.skip(1 + count as int) =~= d.skip(pos0 + 1 + count));
                }
                pos = pos + count;
                col = col + count;
                proof {
                    assert(d0.len() >= 1 + count);
                    assert(dstep(d0, wn, hn, row0, col0, out0) == dstep(
                        d.skip(pos as int),
                        wn,
                        hn,
                        row as nat,
                        col as nat,
                        out@,
                    ));
                }
            }
        }
        proof {
            if pos == compressed_data.len() {
                assert(d.skip(pos as int) =~= Seq::<u8>::empty());
            }
            assert(dstep(d.skip(pos as int), wn, hn, row as nat, col as nat, out@) == Some(out@));
            assert(out@.len() <= wn * hn) by (nonlinear_arith)
                requires
                    out@.len() == row * wn + col,
                    row <= hn,
                    col <= wn,
                    row == hn ==> col == 0,
            ;
        }
        let ghost before_pad = out@;
        // Pad a short result to the full pixel count; a deliberate
        // tolerance of truncated trailing data.
        proof {
            assert(w * h <= 0xFFFF * 0xFFFF) by (nonlinear_arith)
                requires
                    w <= 0xFFFF,
                    h <= 0xFFFF,
            ;
        }
        let expected_size = w * h;
        proof {
            assert(before_pad + zeros(0) =~= before_pad);
        }
        while out.len() < expected_size
            invariant
                out@.len() >= before_pad.len(),
                before_pad.len() >= expected_size ==> out@.len() == before_pad.len(),
                before_pad.len() < expected_size ==> out@.len() <= expected_size,
                out@ == before_pad + zeros((out@.len() - before_pad.len()) as nat),
            decreases expected_size - out@.len(),
        {
            out.push(0);
            proof {
                assert(out@ =~= before_pad + zeros((out@.len() - before_pad.len()) as nat));
            }
        }
        proof {
            assert(out@ =~= pad_to(before_pad, wn * hn));
        }
        Ok(out)
    }

    /// Compresses a pixel buffer of exactly `width * height` bytes into a
    /// run-length stream; fails with a format error on any other length.
    pub fn compress(&self, pixel_data: &[u8]) -> (r: StiResult<Vec<u8>>)
        requires
            self.width <= 0xFFFF,
            self.height <= 0xFFFF,
        ensures
            match r {
                Ok(v) => pixel_data@.len() == self.width * self.height && v@ == spec_compress(
                    pixel_data@,
                    self.width as nat,
                    self.height as nat,
                ),
                Err(e) => pixel_data@.len() != self.width * self.height && e.kind()
                    == StiErrorKind::InvalidFormat,
            },
    {
        proof {
            assert(self.width * self.height <= 0xFFFF * 0xFFFF) by (nonlinear_arith)
                requires
                    self.width <= 0xFFFF,
                    self.height <= 0xFFFF,
            ;
        }
        let w = self.width;
        let h = self.height;
        if pixel_data.len() != w * h {
            return Err(
                StiError::InvalidFormat("Pixel data size doesn't match image dimensions".to_string()),
            );
        }
        let ghost b = pixel_data@;
        let ghost wn = w as nat;
        let ghost hn = h as nat;
        let mut compressed: Vec<u8> = Vec::new();
        let mut row: usize = 0;
        let mut row_start: usize = 0;
        proof {
            assert(Seq::<u8>::empty() + comp_rows(b, wn, 0, hn) =~= comp_rows(b, wn, 0, hn));
        }
        while row < h
            invariant
                row <= h,
                w <= 0xFFFF,
                h <= 0xFFFF,
                w == self.width,
                h == self.height,
                wn == w as nat,
                hn == h as nat,
                b == pixel_data@,
                b.len() == w * h,
                row_start == row * w,
                row_start <= b.len(),
                compressed@ + comp_rows(b, wn, row as nat, hn) == spec_compress(b, wn, hn),
            decreases h - row,
        {
            proof {
                assert(row_start + w <= b.len() && (row + 1) * w == row_start + w)
                    by (nonlinear_arith)
                    requires
                        row_start == row * w,
                        row < h,
                        b.len() == w * h,
                ;
                assert(w * h <= 0xFFFF * 0xFFFF) by (nonlinear_arith)
                    requires
                        w <= 0xFFFF,
                        h <= 0xFFFF,
                ;
            }
            let row_data = vstd::slice::slice_subrange(pixel_data, row_start, row_start + w);
            let ghost before = compressed@;
            let ghost rowseq = b.subrange(row_start as int, row_start as int + w);
            let res = self.compress_row(row_data, &mut compressed);
            proof {
                assert(res is Ok);
            }
            // An explicit terminator ends every row.
            compressed.push(0x00);
            row = row + 1;
            row_start = row_start + w;
            proof {
                assert(compressed@ =~= before + comp_row(rowseq) + seq![0u8]);
                assert(comp_rows(b, wn, (row - 1) as nat, hn) == comp_row(rowseq) + seq![0u8]
                    + comp_rows(b, wn, row as nat, hn));
                assert(before + (comp_row(rowseq) + seq![0u8] + comp_rows(b, wn, row as nat, hn))
                    =~= (before + comp_row(rowseq) + seq![0u8]) + comp_rows(b, wn, row as nat, hn));
            }
        }
        proof {
            assert(compressed@ + comp_rows(b, wn, row as nat, hn) =~= compressed@);
        }
        Ok(compressed)
    }

    /// Emits the greedy run encoding of one row (without the terminator)
    /// onto the output stream.
    fn compress_row(&self, row_data: &[u8], compressed: &mut Vec<u8>) -> (r: StiResult<()>)
        requires
            row_data@.len() <= 0xFFFF,
        ensures
            r is Ok,
            final(compressed)@ == old(compressed)@ + comp_row(row_data@),
    {
        let ghost b = row_data@;
        let ghost init = compressed@;
        let mut pos: usize = 0;
        proof {
            assert(b.skip(0) =~= b);
        }
        while pos < row_data.len()
            invariant
                pos <= row_data.len(),
                b == row_data@,
                b.len() <= 0xFFFF,
                init + comp_row(b) == compressed@ + comp_row(b.skip(pos as int)),
            decreases row_data.len() - pos,
        {
            let ghost pos0 = pos as int;
            let ghost s = b.skip(pos0);
            if row_data[pos] == 0 {
                // Maximal run of transparent pixels, at most 127.
                let mut count: usize = 0;
                while pos + count < row_data.len() && row_data[pos + count] == 0 && count < 127
                    invariant
                        pos == pos0,
                        b == row_data@,
                        pos + count <= row_data.len(),
                        count <= 127,
                        forall|j: int| pos <= j < pos + count ==> b[j] == 0,
                    decreases row_data.len() - pos - count,
                {
                    count = count + 1;
                }
                proof {
                    assert forall|j: int| 0 <= j < count implies s[j] == 0 by {
                        assert(s[j] == b[pos0 + j]);
                    }
                    lemma_zero_run_le(s);
                    if pos + count == row_data.len() || count == 127 {
                        lemma_zero_run_min(s, count as nat);
                    }
                    if pos + count < row_data.len() && b[pos0 + count] != 0 {
                        assert(s[count as int] == b[pos0 + count]);
                        lemma_zero_run_exact(s, count as nat);
                    }
                    assert(head_run(s) == count);
                    assert(b.skip(pos0).skip(count as int) =~= b.skip(pos0 + count));
                }
                compressed.push((0x80 + count) as u8);
                pos = pos + count;
                proof {
                    assert(comp_row(s) == seq![(0x80 + count as nat) as u8] + comp_row(
                        b.skip(pos as int),
                    ));
                    assert(init + comp_row(b) =~= compressed@ + comp_row(b.skip(pos as int)));
                }
            } else {
                // Maximal run of literal pixels, at most 127.
                let mut count: usize = 0;
                while pos + count < row_data.len() && row_data[pos + count] != 0 && count < 127
                    invariant
                        pos == pos0,
                        b == row_data@,
                        pos + count <= row_data.len(),
                        count <= 127,
                        forall|j: int| pos <= j < pos + count ==> b[j] != 0,
                    decreases row_data.len() - pos - count,
                {
                    count = count + 1;
                }
                proof {
                    assert forall|j: int| 0 <= j < count implies s[j] != 0 by {
                        assert(s[j] == b[pos0 + j]);
                    }
                    lemma_lit_run_le(s);
                    if pos + count == row_data.len() || count == 127 {
                        lemma_lit_run_min(s, count as nat);
                    }
                    if pos + count < row_data.len() && b[pos0 + count] == 0 {
                        assert(s[count as int] == b[pos0 + count]);
                        lemma_lit_run_exact(s, count as nat);
                    }
                    assert(head_run(s) == count);
                }
                compressed.push(count as u8);
                let ghost mid = compressed@;
                let mut i: usize = 0;
                proof {
                    assert(mid + b.subrange(pos0, pos0) =~= mid);
                }
                while i < count
                    invariant
                        i <= count,
                        pos == pos0,
                        b == row_data@,
                        pos + count <= row_data.len(),
                        compressed@ == mid + b.subrange(pos0, pos0 + i),
                    decreases count - i,
                {
                    compressed.push(row_data[pos + i]);
                    i = i + 1;
                    proof {
                        assert(compressed@ =~= mid + b.subrange(pos0, pos0 + i));
                    }
                }
                pos = pos + count;
                proof {
                    assert(s.take(count as int) =~= b.subrange(pos0, pos0 + count));
                    assert(s.skip(count as int) =~= b.skip(pos as int));
                    assert(comp_row(s) == seq![count as u8] + s.take(count as int) + comp_row(
                        b.skip(pos as int),
                    ));
                    assert(init + comp_row(b) =~= compressed@ + comp_row(b.skip(pos as int)));
                }
            }
        }
        proof {
            assert(b.skip(pos as int) =~= Seq::<u8>::empty());
            assert(comp_row(Seq::<u8>::empty()) == Seq::<u8>::empty());
            assert(compressed@ + comp_row(b.skip(pos as int)) =~= compressed@);
        }
        Ok(())
    }
}

} // verus!
