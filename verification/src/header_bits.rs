//! The packet-header bit writer and bit reader agree (B.10.1): with the 0xff bit stuffing on
//! both sides, the reader gives back every bit that the writer wrote.
use vstd::prelude::*;
use crate::decode_markers::{bit_of, pow2_int};
use crate::t2_encode::{BioWriterView, bio_byteout, bio_flush, bio_putbit, bio_putbits, bio_writer_start};
use crate::t2_read::{BioView, bio_read};

verus! {

/// A reader at the start of a header.
pub open spec fn bio_reader_start() -> BioView {
    BioView { pos: 0, reg: 0, ct: 0, prev_ff: false }
}

/// Reading `n` bits one at a time, in the order they come.
pub open spec fn bio_read_seq(s: BioView, bytes: Seq<u8>, n: nat) -> Option<(BioView, Seq<u32>)>
    decreases n,
{
    if n == 0 {
        Some((s, Seq::empty()))
    } else {
        match bio_read_seq(s, bytes, (n - 1) as nat) {
            None => None,
            Some((t, v)) => match bio_read(t, bytes) {
                None => None,
                Some((u, bit)) => Some((u, v.push(bit))),
            },
        }
    }
}

/// The writer's register fits 16 bits, and the bits below its count are still clear.
spec fn writer_ok(w: BioWriterView) -> bool {
    &&& w.reg < 0x1_0000
    &&& w.ct <= 8
    &&& w.reg & ((((1u32 << w.ct) - 1) as u32) & 0xff) == 0
}

/// `bytes` is what the writer has put out so far, followed by a byte whose bits from the
/// writer's count up are those of its register.
spec fn extends(bytes: Seq<u8>, w: BioWriterView) -> bool {
    &&& bytes.len() > w.buf.len()
    &&& bytes.subrange(0, w.buf.len() as int) == w.buf
    &&& (bytes[w.buf.len() as int] as u32) >> w.ct == (w.reg & 0xff) >> w.ct
}

/// The reader is where the writer was after the same bits.
spec fn in_step(r: BioView, w: BioWriterView, bytes: Seq<u8>) -> bool {
    ||| (w == bio_writer_start() && r == bio_reader_start())
    ||| {
        &&& r.pos == w.buf.len() + 1
        &&& r.ct == w.ct
        &&& w.ct <= 7
        &&& r.reg == bytes[w.buf.len() as int]
        &&& r.prev_ff == (r.reg == 0xff)
    }
}

proof fn lemma_byteout_bits(r: u32, x: u32)
    by (bit_vector)
    requires
        r < 0x1_0000,
        x == ((r * 256) % 0x1_0000) as u32,
    ensures
        x / 256 == r & 0xff,
        r & 0xff < 256,
        x & 0xff == 0,
        x == 0xff00 <==> r & 0xff == 0xff,
{
}

proof fn lemma_put_bit_bits(reg: u32, b: u32, c: u32)
    by (bit_vector)
    requires
        1 <= c <= 8,
        b <= 1,
        reg < 0x1_0000,
        reg & ((((1u32 << c) - 1) as u32) & 0xff) == 0,
    ensures
        (((reg | (b << ((c - 1) as u32))) & 0xff) >> ((c - 1) as u32)) & 1 == b,
        ((reg | (b << ((c - 1) as u32))) & 0xff) >> c == (reg & 0xff) >> c,
        (reg | (b << ((c - 1) as u32))) & ((((1u32 << ((c - 1) as u32)) - 1) as u32) & 0xff) == 0,
        reg | (b << ((c - 1) as u32)) < 0x1_0000,
{
}

proof fn lemma_shift_agree(x: u32, y: u32, c: u32)
    by (bit_vector)
    requires
        1 <= c <= 8,
        x >> ((c - 1) as u32) == y >> ((c - 1) as u32),
    ensures
        x >> c == y >> c,
        (x >> ((c - 1) as u32)) & 1 == (y >> ((c - 1) as u32)) & 1,
{
}

proof fn lemma_clear_low(reg: u32, c: u32)
    by (bit_vector)
    requires
        reg & 0xff == 0,
        c <= 8,
    ensures
        reg & ((((1u32 << c) - 1) as u32) & 0xff) == 0,
        (reg & 0xff) >> c == 0,
{
}

proof fn lemma_shift_div(v: u32, k: u32)
    by (bit_vector)
    requires
        v < 256,
        k < 8,
    ensures
        (v / (1u32 << k)) % 2 == (v >> k) & 1,
{
}

/// Bit `k` of a byte, as the reader takes it, is the shifted bit.
proof fn lemma_bit_of_shift(v: u8, k: u32)
    requires
        k < 8,
    ensures
        bit_of(v, k as nat) == (((v as u32) >> k) & 1 == 1),
{
    reveal_with_fuel(pow2_int, 8);
    assert((1u32 << 0u32) == 1 && (1u32 << 1u32) == 2 && (1u32 << 2u32) == 4 && (1u32 << 3u32) == 8
        && (1u32 << 4u32) == 16 && (1u32 << 5u32) == 32 && (1u32 << 6u32) == 64 && (1u32 << 7u32) == 128) by (bit_vector);
    assert(pow2_int(k as nat) == (1u32 << k) as int) by {
        if k == 0 {} else if k == 1 {} else if k == 2 {} else if k == 3 {}
        else if k == 4 {} else if k == 5 {} else if k == 6 {} else {}
    }
    lemma_shift_div(v as u32, k);
}

/// Writing a bit keeps the writer in order, and leaves at most seven bits in its byte.
proof fn lemma_putbit_ok(w: BioWriterView, b: u32)
    requires
        writer_ok(w),
        b <= 1,
    ensures
        writer_ok(bio_putbit(w, b)),
        bio_putbit(w, b).ct <= 7,
{
    if w.ct == 0 {
        let t = bio_byteout(w);
        lemma_byteout_bits(w.reg, t.reg);
        lemma_clear_low(t.reg, t.ct);
        lemma_put_bit_bits(t.reg, b, t.ct);
    } else {
        lemma_put_bit_bits(w.reg, b, w.ct);
    }
}

proof fn lemma_shift_zero(x: u32)
    by (bit_vector)
    ensures
        x >> 0u32 == x,
{
}

/// The bytes of a finished header extend the writer's last state.
proof fn lemma_flush_extends(w: BioWriterView)
    requires
        writer_ok(w),
    ensures
        extends(bio_flush(w), w),
{
    let t = bio_byteout(w);
    lemma_byteout_bits(w.reg, t.reg);
    let f = bio_flush(w);
    let n = w.buf.len();
    assert(f.subrange(0, n as int) =~= w.buf);
    assert(f[n as int] == (t.reg / 256) as u8);
}

/// Bytes that extend the writer after a bit extend it before that bit.
proof fn lemma_extends_back(bytes: Seq<u8>, w: BioWriterView, b: u32)
    requires
        writer_ok(w),
        b <= 1,
        extends(bytes, bio_putbit(w, b)),
    ensures
        extends(bytes, w),
{
    let n = w.buf.len();
    let w1 = bio_putbit(w, b);
    if w.ct == 0 {
        let t = bio_byteout(w);
        lemma_byteout_bits(w.reg, t.reg);
        assert(bytes.subrange(0, n as int) =~= bytes.subrange(0, n + 1int).subrange(0, n as int));
        assert(bytes[n as int] == bytes.subrange(0, n + 1int)[n as int]);
        lemma_shift_zero(bytes[n as int] as u32);
        lemma_shift_zero(w.reg & 0xff);
        assert(w1.buf == w.buf.push((t.reg / 256) as u8));
        assert(bytes.len() > n);
        assert(bytes.subrange(0, n as int) == w.buf);
        assert(bytes[n as int] == (t.reg / 256) as u8);
        assert((bytes[n as int] as u32) == w.reg & 0xff);
        assert((bytes[n as int] as u32) >> w.ct == (w.reg & 0xff) >> w.ct);
    } else {
        lemma_put_bit_bits(w.reg, b, w.ct);
        lemma_shift_agree(bytes[n as int] as u32, w1.reg & 0xff, w.ct);
    }
}

/// The writer after the first `k` bits.
spec fn writer_after(bits: Seq<u32>, k: int) -> BioWriterView {
    bio_putbits(bio_writer_start(), bits.take(k))
}

proof fn lemma_writer_after_next(bits: Seq<u32>, k: int)
    requires
        0 <= k < bits.len(),
    ensures
        writer_after(bits, k + 1) == bio_putbit(writer_after(bits, k), bits[k]),
{
    assert(bits.take(k + 1).drop_last() =~= bits.take(k));
}

proof fn lemma_writer_after_ok(bits: Seq<u32>, k: int)
    requires
        0 <= k <= bits.len(),
        forall|i: int| 0 <= i < bits.len() ==> #[trigger] bits[i] <= 1,
    ensures
        writer_ok(writer_after(bits, k)),
    decreases k,
{
    if k == 0 {
        assert(bits.take(0) =~= Seq::<u32>::empty());
        assert(0u32 & ((((1u32 << 8u32) - 1) as u32) & 0xff) == 0) by (bit_vector);
    } else {
        lemma_writer_after_ok(bits, k - 1);
        lemma_writer_after_next(bits, k - 1);
        lemma_putbit_ok(writer_after(bits, k - 1), bits[k - 1]);
    }
}

proof fn lemma_writer_after_extends(bits: Seq<u32>, k: int)
    requires
        0 <= k <= bits.len(),
        forall|i: int| 0 <= i < bits.len() ==> #[trigger] bits[i] <= 1,
    ensures
        extends(bio_flush(bio_putbits(bio_writer_start(), bits)), writer_after(bits, k)),
    decreases bits.len() - k,
{
    let f = bio_flush(bio_putbits(bio_writer_start(), bits));
    if k == bits.len() {
        assert(bits.take(k) =~= bits);
        lemma_writer_after_ok(bits, k);
        lemma_flush_extends(writer_after(bits, k));
    } else {
        lemma_writer_after_extends(bits, k + 1);
        lemma_writer_after_next(bits, k);
        lemma_writer_after_ok(bits, k);
        lemma_extends_back(f, writer_after(bits, k), bits[k]);
    }
}

/// One bit read where the writer put one.
proof fn lemma_read_step(r: BioView, w: BioWriterView, bytes: Seq<u8>, b: u32)
    requires
        writer_ok(w),
        b <= 1,
        in_step(r, w, bytes),
        extends(bytes, bio_putbit(w, b)),
    ensures
        bio_read(r, bytes) matches Some((r1, bit)) && bit == b && in_step(r1, bio_putbit(w, b), bytes),
{
    let w1 = bio_putbit(w, b);
    let n = w.buf.len();
    if w == bio_writer_start() && r == bio_reader_start() {
        lemma_put_bit_bits(0, b, 8);
        lemma_shift_agree(bytes[0] as u32, w1.reg & 0xff, 8);
        lemma_bit_of_shift(bytes[0], 7);
    } else if w.ct >= 1 {
        lemma_put_bit_bits(w.reg, b, w.ct);
        lemma_shift_agree(bytes[n as int] as u32, w1.reg & 0xff, w.ct);
        lemma_bit_of_shift(bytes[n as int], (w.ct - 1) as u32);
    } else {
        let t = bio_byteout(w);
        lemma_byteout_bits(w.reg, t.reg);
        lemma_clear_low(t.reg, t.ct);
        lemma_put_bit_bits(t.reg, b, t.ct);
        assert(bytes[n as int] == bytes.subrange(0, n + 1int)[n as int]);
        assert(bytes[n as int] == (t.reg / 256) as u8);
        lemma_shift_agree(bytes[n + 1int] as u32, w1.reg & 0xff, t.ct);
        lemma_bit_of_shift(bytes[n + 1int], (t.ct - 1) as u32);
    }
}

proof fn lemma_read_prefix(bits: Seq<u32>, k: int)
    requires
        0 <= k <= bits.len(),
        forall|i: int| 0 <= i < bits.len() ==> #[trigger] bits[i] <= 1,
    ensures
        ({
            let f = bio_flush(bio_putbits(bio_writer_start(), bits));
            bio_read_seq(bio_reader_start(), f, k as nat) matches Some((r, v))
                && v == bits.take(k) && in_step(r, writer_after(bits, k), f)
        }),
    decreases k,
{
    let f = bio_flush(bio_putbits(bio_writer_start(), bits));
    if k == 0 {
        assert(bits.take(0) =~= Seq::<u32>::empty());
    } else {
        lemma_read_prefix(bits, k - 1);
        let (r, v) = bio_read_seq(bio_reader_start(), f, (k - 1) as nat).unwrap();
        lemma_writer_after_ok(bits, k - 1);
        lemma_writer_after_next(bits, k - 1);
        lemma_writer_after_extends(bits, k);
        lemma_read_step(r, writer_after(bits, k - 1), f, bits[k - 1]);
        assert(bits.take(k - 1).push(bits[k - 1]) =~= bits.take(k));
    }
}

/// What the packet-header writer writes, the reader reads back: for any bits, the bytes of the
/// finished header, read from their start, give those bits in the same order.
pub proof fn lemma_header_bits_read_back(bits: Seq<u32>)
    requires
        forall|i: int| 0 <= i < bits.len() ==> #[trigger] bits[i] <= 1,
    ensures
        bio_read_seq(bio_reader_start(), bio_flush(bio_putbits(bio_writer_start(), bits)), bits.len())
            matches Some((_, v)) && v == bits,
{
    lemma_read_prefix(bits, bits.len() as int);
    assert(bits.take(bits.len() as int) =~= bits);
}

/// The reader after the first `k` bits of the header that `bits` make.
pub open spec fn reader_after(bits: Seq<u32>, k: nat) -> BioView {
    bio_read_seq(bio_reader_start(), bio_flush(bio_putbits(bio_writer_start(), bits)), k).unwrap().0
}

/// Each read from where the reader stands gives the next bit that was written, and moves the
/// reader on by that bit.
pub proof fn lemma_header_bit_at(bits: Seq<u32>, k: nat)
    requires
        forall|i: int| 0 <= i < bits.len() ==> #[trigger] bits[i] <= 1,
        k < bits.len(),
    ensures
        bio_read(reader_after(bits, k), bio_flush(bio_putbits(bio_writer_start(), bits)))
            == Some((reader_after(bits, k + 1), bits[k as int])),
{
    lemma_read_prefix(bits, k as int);
    lemma_read_prefix(bits, k + 1int);
    let f = bio_flush(bio_putbits(bio_writer_start(), bits));
    let (r, v) = bio_read_seq(bio_reader_start(), f, k).unwrap();
    let (r1, v1) = bio_read_seq(bio_reader_start(), f, k + 1).unwrap();
    assert(v1 == bits.take(k + 1int));
    assert(v1[k as int] == bits[k as int]);
}

/// A comma code that the writer puts at bit `k` reads back as the same count.
pub proof fn lemma_commacode_reads_back(bits: Seq<u32>, k: nat, n: nat)
    requires
        forall|i: int| 0 <= i < bits.len() ==> #[trigger] bits[i] <= 1,
        k + n + 1 <= bits.len(),
        bits.subrange(k as int, k + n + 1int) == crate::t2_encode::comma_bits(n),
        n <= u32::MAX,
    ensures
        crate::t2_read::bio_commacode(reader_after(bits, k), bio_flush(bio_putbits(bio_writer_start(), bits)), 0)
            == Some((reader_after(bits, k + n + 1), n as u32)),
{
    lemma_commacode_from(bits, k, n, n);
}

proof fn lemma_commacode_from(bits: Seq<u32>, k: nat, n: nat, left: nat)
    requires
        forall|i: int| 0 <= i < bits.len() ==> #[trigger] bits[i] <= 1,
        k + n + 1 <= bits.len(),
        bits.subrange(k as int, k + n + 1int) == crate::t2_encode::comma_bits(n),
        n <= u32::MAX,
        left <= n,
    ensures
        crate::t2_read::bio_commacode(reader_after(bits, (k + n - left) as nat), bio_flush(bio_putbits(bio_writer_start(), bits)), (n - left) as nat)
            == Some((reader_after(bits, k + n + 1), n as u32)),
    decreases left,
{
    let j = (k + n - left) as nat;
    lemma_header_bit_at(bits, j);
    assert(bits[j as int] == bits.subrange(k as int, k + n + 1int)[j - k]);
    if left > 0 {
        lemma_commacode_from(bits, k, n, (left - 1) as nat);
        assert((k + n - (left - 1)) as nat == j + 1);
    }
}

/// The number that `m` bits from `start` make, most significant first.
pub open spec fn bits_value(bits: Seq<u32>, start: int, m: nat) -> u32
    decreases m,
{
    if m == 0 {
        0
    } else {
        (crate::t2_read::shl1(bits_value(bits, start, (m - 1) as nat)) + bits[start + m - 1]) as u32
    }
}

/// Reading `m` bits at bit `k` gives the number that those written bits make.
pub proof fn lemma_header_bits_value(bits: Seq<u32>, k: nat, m: nat)
    requires
        forall|i: int| 0 <= i < bits.len() ==> #[trigger] bits[i] <= 1,
        k + m <= bits.len(),
    ensures
        crate::t2_read::bio_read_bits(reader_after(bits, k), bio_flush(bio_putbits(bio_writer_start(), bits)), m)
            == Some((reader_after(bits, k + m), bits_value(bits, k as int, m))),
    decreases m,
{
    if m > 0 {
        lemma_header_bits_value(bits, k, (m - 1) as nat);
        lemma_header_bit_at(bits, (k + m - 1) as nat);
    }
}

proof fn lemma_codeword_bits_short(n: u32, cw: u32)
    by (bit_vector)
    requires
        3 <= n <= 5,
        cw == 12 + (n - 3),
    ensures
        (cw >> 3u32) & 1 == 1,
        (cw >> 2u32) & 1 == 1,
        ((cw >> 1u32) & 1) * 2 + (cw & 1) == n - 3,
{
}

proof fn lemma_codeword_bits_mid(n: u32, cw: u32)
    by (bit_vector)
    requires
        6 <= n <= 36,
        cw == 0x1e0 + (n - 6),
    ensures
        (cw >> 8u32) & 1 == 1,
        (cw >> 7u32) & 1 == 1,
        (cw >> 6u32) & 1 == 1,
        (cw >> 5u32) & 1 == 1,
        ((cw >> 4u32) & 1) * 16 + ((cw >> 3u32) & 1) * 8 + ((cw >> 2u32) & 1) * 4 + ((cw >> 1u32) & 1) * 2
            + (cw & 1) == n - 6,
{
}

proof fn lemma_codeword_bits_long(n: u32, cw: u32)
    by (bit_vector)
    requires
        37 <= n <= 164,
        cw == 0xff80 + (n - 37),
    ensures
        (cw >> 15u32) & 1 == 1,
        (cw >> 14u32) & 1 == 1,
        (cw >> 13u32) & 1 == 1,
        (cw >> 12u32) & 1 == 1,
        (cw >> 11u32) & 1 == 1,
        (cw >> 10u32) & 1 == 1,
        (cw >> 9u32) & 1 == 1,
        (cw >> 8u32) & 1 == 1,
        (cw >> 7u32) & 1 == 1,
        ((cw >> 6u32) & 1) * 64 + ((cw >> 5u32) & 1) * 32 + ((cw >> 4u32) & 1) * 16 + ((cw >> 3u32) & 1) * 8
            + ((cw >> 2u32) & 1) * 4 + ((cw >> 1u32) & 1) * 2 + (cw & 1) == n - 37,
{
}

proof fn lemma_codeword_bits_two()
    by (bit_vector)
    ensures
        (0u32 >> 0u32) & 1 == 0,
        (2u32 >> 1u32) & 1 == 1,
        (2u32 >> 0u32) & 1 == 0,
{
}

/// A pass count that the writer codes at bit `k` (Table B.4) reads back as the same count.
pub proof fn lemma_numpasses_reads_back(bits: Seq<u32>, k: nat, n: u32)
    requires
        forall|i: int| 0 <= i < bits.len() ==> #[trigger] bits[i] <= 1,
        1 <= n <= 164,
        k + crate::t2_encode::numpasses_spec(n).1 <= bits.len(),
        bits.subrange(k as int, k + crate::t2_encode::numpasses_spec(n).1)
            == crate::t2_encode::msb_bits(crate::t2_encode::numpasses_spec(n).0, crate::t2_encode::numpasses_spec(n).1 as nat),
    ensures
        crate::t2_read::bio_numpasses(reader_after(bits, k), bio_flush(bio_putbits(bio_writer_start(), bits)))
            == Some((reader_after(bits, (k + crate::t2_encode::numpasses_spec(n).1) as nat), n)),
{
    let (cw, w) = crate::t2_encode::numpasses_spec(n);
    let f = bio_flush(bio_putbits(bio_writer_start(), bits));
    let goal = Some((reader_after(bits, (k + w) as nat), n));
    let code = crate::t2_encode::msb_bits(cw, w as nat);
    assert forall|i: int| 0 <= i < w implies #[trigger] bits[k + i] == (cw >> ((w - 1 - i) as u32)) & 1 by {
        assert(bits[k + i] == bits.subrange(k as int, k + w)[i]);
        assert(code[i] == (cw >> ((w - 1 - i) as u32)) & 1);
    }
    lemma_header_bit_at(bits, k);
    if n == 1 {
        lemma_codeword_bits_two();
        assert(bits[k + 0int] == 0);
        assert(crate::t2_read::bio_numpasses(reader_after(bits, k), f) == goal);
    } else {
        lemma_header_bit_at(bits, k + 1);
        if n == 2 {
            lemma_codeword_bits_two();
            assert(bits[k + 0int] == 1);
            assert(bits[k + 1int] == 0);
            assert(crate::t2_read::bio_numpasses(reader_after(bits, k), f) == goal);
        } else if n <= 5 {
            lemma_codeword_bits_short(n, cw);
            assert(bits[k + 0int] == 1 && bits[k + 1int] == 1);
            lemma_header_bits_value(bits, k + 2, 2);
            reveal_with_fuel(bits_value, 3);
            assert(bits[k + 2int] == (cw >> 1u32) & 1 && bits[k + 3int] == cw & 1) by {
                assert(bits[k + 3int] == (cw >> 0u32) & 1);
                assert((cw >> 0u32) == cw) by (bit_vector);
            }
            assert(bits_value(bits, k + 2int, 2) == n - 3);
            assert(crate::t2_read::bio_numpasses(reader_after(bits, k), f) == goal);
        } else {
            assert(bits[k + 0int] == 1 && bits[k + 1int] == 1 && bits[k + 2int] == 1 && bits[k + 3int] == 1) by {
                if n <= 36 { lemma_codeword_bits_mid(n, cw); } else { lemma_codeword_bits_long(n, cw); }
            }
            lemma_header_bits_value(bits, k + 2, 2);
            lemma_header_bits_value(bits, k + 4, 5);
            reveal_with_fuel(bits_value, 6);
            if n <= 36 {
                lemma_codeword_bits_mid(n, cw);
                assert(bits[k + 8int] == cw & 1) by {
                    assert((cw >> 0u32) == cw) by (bit_vector);
                }
                assert(bits[k + 4int] == (cw >> 4u32) & 1 && bits[k + 5int] == (cw >> 3u32) & 1
                    && bits[k + 6int] == (cw >> 2u32) & 1 && bits[k + 7int] == (cw >> 1u32) & 1);
                assert(bits_value(bits, k + 2int, 2) == 3);
                assert(bits_value(bits, k + 4int, 5) == n - 6);
                assert(crate::t2_read::bio_numpasses(reader_after(bits, k), f) == goal);
            } else {
                lemma_codeword_bits_long(n, cw);
                assert(bits[k + 4int] == 1 && bits[k + 5int] == 1 && bits[k + 6int] == 1 && bits[k + 7int] == 1 && bits[k + 8int] == 1);
                lemma_header_bits_value(bits, k + 9, 7);
                reveal_with_fuel(bits_value, 8);
                assert(bits[k + 15int] == cw & 1) by {
                    assert((cw >> 0u32) == cw) by (bit_vector);
                }
                assert(bits_value(bits, k + 2int, 2) == 3);
                assert(bits_value(bits, k + 4int, 5) == 31);
                assert(bits[k + 9int] == (cw >> 6u32) & 1 && bits[k + 10int] == (cw >> 5u32) & 1
                    && bits[k + 11int] == (cw >> 4u32) & 1 && bits[k + 12int] == (cw >> 3u32) & 1
                    && bits[k + 13int] == (cw >> 2u32) & 1 && bits[k + 14int] == (cw >> 1u32) & 1);
                assert(bits_value(bits, k + 9int, 7) == n - 37);
                assert(crate::t2_read::bio_numpasses(reader_after(bits, k), f) == goal);
            }
        }
    }
}

} // verus!
