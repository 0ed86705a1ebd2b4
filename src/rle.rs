//! Run-length encoding and decoding of byte streams.
//!
//! A run is a sequence of identical bytes of length two or more. A run of byte
//! `a` and length `n` is written as `a, a` followed by `n - 2` in groups of
//! seven bits, least significant group first; the top bit of a group's byte is
//! set on the last group only. A single byte is written as itself.
use vstd::prelude::*;
use crate::shared::{ByteSource, FiniteWriter, IoFailure};
use std::collections::VecDeque;

verus! {

/// `128` to the power `k`: the weight of the `k`-th seven-bit group.
pub open spec fn place_value(k: nat) -> nat
    decreases k,
{
    if k == 0 {
        1
    } else {
        128 * place_value((k - 1) as nat)
    }
}

/// The length groups of `v`: seven bits per byte, least significant first,
/// the top bit set on the last byte.
pub open spec fn varint(v: nat) -> Seq<u8>
    decreases v,
{
    if v < 128 {
        seq![(v + 128) as u8]
    } else {
        seq![(v % 128) as u8] + varint(v / 128)
    }
}

/// `n` copies of `b`.
pub open spec fn repeat(b: u8, n: nat) -> Seq<u8> {
    Seq::new(n, |i: int| b)
}

/// The wire form of a run of `n` copies of `b`; nothing when `n` is zero.
pub open spec fn encode_run(b: u8, n: nat) -> Seq<u8> {
    if n == 0 {
        Seq::empty()
    } else if n == 1 {
        seq![b]
    } else {
        seq![b, b] + varint((n - 2) as nat)
    }
}

/// What the encoder writes while it consumes `x`, starting with a pending run
/// of `n` copies of `b`. The run that is still pending at the end is not
/// written.
pub open spec fn encode_emitted(b: u8, n: nat, x: Seq<u8>) -> Seq<u8>
    decreases x.len(),
{
    if x.len() == 0 {
        Seq::empty()
    } else if n > 0 && x[0] == b {
        encode_emitted(b, n + 1, x.drop_first())
    } else {
        encode_run(b, n) + encode_emitted(x[0], 1, x.drop_first())
    }
}

/// The run that is pending after the encoder consumes `x`, starting with a
/// pending run of `n` copies of `b`.
pub open spec fn encode_pending(b: u8, n: nat, x: Seq<u8>) -> (u8, nat)
    decreases x.len(),
{
    if x.len() == 0 {
        (b, n)
    } else if n > 0 && x[0] == b {
        encode_pending(b, n + 1, x.drop_first())
    } else {
        encode_pending(x[0], 1, x.drop_first())
    }
}

/// The whole encoding from a pending run of `n` copies of `b`: what is written
/// while consuming `x`, then the run left pending.
pub open spec fn encode_from(b: u8, n: nat, x: Seq<u8>) -> Seq<u8> {
    encode_emitted(b, n, x) + encode_run(encode_pending(b, n, x).0, encode_pending(b, n, x).1)
}

/// The run-length encoding of `x`.
pub open spec fn rle_encode(x: Seq<u8>) -> Seq<u8> {
    encode_from(0, 0, x)
}

/// Decoding `x` with no byte pending: the bytes produced, and whether the
/// stream was sound (`false` once a length runs past nine groups; the bytes
/// before that point are still produced).
pub open spec fn decode_clean(x: Seq<u8>) -> (Seq<u8>, bool)
    decreases x.len(), 0nat,
{
    if x.len() == 0 {
        (Seq::empty(), true)
    } else {
        decode_single(x[0], x.drop_first())
    }
}

/// Decoding `x` with byte `a` seen once.
pub open spec fn decode_single(a: u8, x: Seq<u8>) -> (Seq<u8>, bool)
    decreases x.len(), 1nat,
{
    if x.len() == 0 {
        (seq![a], true)
    } else if x[0] == a {
        decode_run(a, 0, 0, x.drop_first())
    } else {
        let r = decode_single(x[0], x.drop_first());
        (seq![a] + r.0, r.1)
    }
}

/// Decoding `x` inside a run of `b` whose length groups so far sum to `acc`,
/// after `k` groups.
pub open spec fn decode_run(b: u8, acc: nat, k: nat, x: Seq<u8>) -> (Seq<u8>, bool)
    decreases x.len(), 1nat,
{
    if x.len() == 0 {
        (repeat(b, acc + 2), true)
    } else if k >= 9 {
        (Seq::empty(), false)
    } else {
        let acc2 = acc + (x[0] % 128) as nat * place_value(k);
        if x[0] >= 128 {
            let r = decode_clean(x.drop_first());
            (repeat(b, acc2 + 2) + r.0, r.1)
        } else {
            decode_run(b, acc2, k + 1, x.drop_first())
        }
    }
}

/// The run-length decoding of `x`.
pub open spec fn rle_decode(x: Seq<u8>) -> (Seq<u8>, bool) {
    decode_clean(x)
}

pub proof fn lemma_place_value_9()
    ensures
        place_value(9) == 0x8000_0000_0000_0000,
{
    reveal_with_fuel(place_value, 10);
}

pub proof fn lemma_place_value_positive(k: nat)
    ensures
        place_value(k) >= 1,
    decreases k,
{
    if k > 0 {
        lemma_place_value_positive((k - 1) as nat);
    }
}

/// A value below `128^m` takes at most `m` groups.
pub proof fn lemma_varint_len(v: nat, m: nat)
    requires
        m >= 1,
        v < place_value(m),
    ensures
        varint(v).len() <= m,
        varint(v).len() >= 1,
    decreases v,
{
    if v >= 128 {
        let p = place_value((m - 1) as nat);
        assert(v < 128 * p);
        assert(v / 128 < p) by (nonlinear_arith)
            requires
                v < 128 * p,
        ;
        if m == 1 {
            assert(place_value(0) == 1);
        } else {
            lemma_varint_len(v / 128, (m - 1) as nat);
        }
    }
}

/// Decoding the length groups of `v` inside a run finishes the run.
pub proof fn lemma_decode_varint(b: u8, acc: nat, k: nat, v: nat, y: Seq<u8>)
    requires
        k + varint(v).len() <= 9,
    ensures
        decode_run(b, acc, k, varint(v) + y) == (
            repeat(b, acc + v * place_value(k) + 2) + decode_clean(y).0,
            decode_clean(y).1,
        ),
    decreases v,
{
    let z = varint(v) + y;
    assert(z[0] == varint(v)[0]);
    if v < 128 {
        assert(z.drop_first() =~= y);
        assert(((v + 128) as u8) % 128 == v);
        assert((v + 128) as u8 >= 128);
    } else {
        assert(z.drop_first() =~= varint(v / 128) + y);
        let p = place_value(k);
        assert(place_value(k + 1) == 128 * p);
        let acc2 = acc + (v % 128) * p;
        lemma_decode_varint(b, acc2, k + 1, v / 128, y);
        assert(acc2 + (v / 128) * (128 * p) == acc + v * p) by (nonlinear_arith)
            requires
                acc2 == acc + (v % 128) * p,
                v == 128 * (v / 128) + v % 128,
        ;
    }
}

/// Decoding the wire form of one run, followed by anything that does not start
/// with the run's byte, gives the run and then the decoding of the rest.
pub proof fn lemma_decode_run_form(b: u8, n: nat, y: Seq<u8>)
    requires
        1 <= n <= 0x8000_0000_0000_0001,
        y.len() == 0 || y[0] != b,
    ensures
        decode_clean(encode_run(b, n) + y) == (
            repeat(b, n) + decode_clean(y).0,
            decode_clean(y).1,
        ),
{
    let z = encode_run(b, n) + y;
    if n == 1 {
        assert(z[0] == b);
        assert(z.drop_first() =~= y);
        if y.len() == 0 {
            assert(repeat(b, 1) + Seq::<u8>::empty() =~= seq![b]);
        } else {
            assert(y =~= seq![y[0]] + y.drop_first());
            assert(repeat(b, 1) =~= seq![b]);
        }
    } else {
        let v = (n - 2) as nat;
        lemma_place_value_9();
        lemma_varint_len(v, 9);
        assert(z[0] == b);
        assert(z.drop_first()[0] == b);
        assert(z.drop_first().drop_first() =~= varint(v) + y);
        lemma_decode_varint(b, 0, 0, v, y);
        assert(place_value(0) == 1);
    }
}

/// The encoding from a pending run starts with the run's byte.
pub proof fn lemma_encode_from_first(b: u8, n: nat, x: Seq<u8>)
    requires
        n >= 1,
    ensures
        encode_from(b, n, x).len() > 0,
        encode_from(b, n, x)[0] == b,
    decreases x.len(),
{
    if x.len() > 0 && x[0] == b {
        lemma_encode_from_first(b, n + 1, x.drop_first());
    } else if x.len() > 0 {
        assert(encode_run(b, n).len() > 0);
        assert(encode_from(b, n, x) =~= encode_run(b, n) + encode_from(x[0], 1, x.drop_first()));
    }
}

/// Round trip from a pending run: decoding what the encoder writes gives the
/// pending run and then the input.
pub proof fn lemma_round_trip_from(b: u8, n: nat, x: Seq<u8>)
    requires
        n >= 1,
        n + x.len() <= 0x8000_0000_0000_0001,
    ensures
        decode_clean(encode_from(b, n, x)) == (repeat(b, n) + x, true),
    decreases x.len(),
{
    if x.len() == 0 {
        lemma_decode_run_form(b, n, Seq::empty());
        assert(encode_from(b, n, x) =~= encode_run(b, n) + Seq::<u8>::empty());
        assert(repeat(b, n) + Seq::<u8>::empty() =~= repeat(b, n) + x);
    } else if x[0] == b {
        lemma_round_trip_from(b, n + 1, x.drop_first());
        assert(repeat(b, n + 1) + x.drop_first() =~= repeat(b, n) + x);
    } else {
        let c = x[0];
        let rest = x.drop_first();
        lemma_round_trip_from(c, 1, rest);
        lemma_encode_from_first(c, 1, rest);
        assert(encode_from(b, n, x) =~= encode_run(b, n) + encode_from(c, 1, rest));
        lemma_decode_run_form(b, n, encode_from(c, 1, rest));
        assert(repeat(b, n) + (repeat(c, 1) + rest) =~= repeat(b, n) + x);
    }
}

/// Decoding the run-length encoding of any input gives the input back, and the
/// decoder reports a sound stream. (Inputs are bounded so that no run reaches
/// `2^63 + 2` bytes, the longest length that nine groups hold.)
pub proof fn lemma_round_trip(x: Seq<u8>)
    requires
        x.len() <= 0x8000_0000_0000_0000,
    ensures
        rle_decode(rle_encode(x)) == (x, true),
{
    if x.len() == 0 {
        assert(rle_encode(x) =~= Seq::<u8>::empty());
    } else {
        let c = x[0];
        let rest = x.drop_first();
        lemma_round_trip_from(c, 1, rest);
        assert(rle_encode(x) =~= encode_from(c, 1, rest));
        assert(repeat(c, 1) + rest =~= x);
    }
}

/// Consuming `x` and then `y` writes what consuming `x + y` writes, and leaves
/// the same run pending: the encoder's output does not depend on how its input
/// is split into writes.
pub proof fn lemma_encode_split(b: u8, n: nat, x: Seq<u8>, y: Seq<u8>)
    ensures
        encode_emitted(b, n, x + y) == encode_emitted(b, n, x) + encode_emitted(
            encode_pending(b, n, x).0,
            encode_pending(b, n, x).1,
            y,
        ),
        encode_pending(b, n, x + y) == encode_pending(
            encode_pending(b, n, x).0,
            encode_pending(b, n, x).1,
            y,
        ),
    decreases x.len(),
{
    if x.len() == 0 {
        assert(x + y =~= y);
        assert(encode_emitted(b, n, x) + encode_emitted(b, n, y) =~= encode_emitted(b, n, y));
    } else {
        assert((x + y)[0] == x[0]);
        assert((x + y).drop_first() =~= x.drop_first() + y);
        if n > 0 && x[0] == b {
            lemma_encode_split(b, n + 1, x.drop_first(), y);
        } else {
            lemma_encode_split(x[0], 1, x.drop_first(), y);
            let p = encode_pending(x[0], 1, x.drop_first());
            assert(encode_emitted(b, n, x + y) =~= encode_emitted(b, n, x) + encode_emitted(
                p.0,
                p.1,
                y,
            ));
        }
    }
}

/// A fresh encoder that is given `x` and then finished writes exactly the
/// run-length encoding of `x`.
pub proof fn lemma_fresh_encoder_output(x: Seq<u8>)
    ensures
        encode_emitted(0, 0, x) + encode_run(encode_pending(0, 0, x).0, encode_pending(0, 0, x).1)
            == rle_encode(x),
{
}

pub proof fn lemma_place_value_bound(k: nat)
    requires
        k <= 9,
    ensures
        1 <= place_value(k) <= place_value(9),
    decreases 9 - k,
{
    lemma_place_value_positive(k);
    if k < 9 {
        lemma_place_value_bound(k + 1);
    }
}

/// Errors of the run-length decoder.
#[derive(Debug, Clone, Copy, PartialEq, Eq)]
pub enum RleError {
    /// A run length ran past nine groups, longer than any length the format
    /// can hold.
    OverlongRun,
    /// The source failed; its failure is passed on as it came.
    UnderlyingIoFailure(IoFailure),
}

/// `after` holds everything `before` held, and maybe more.
pub open spec fn extends(before: Seq<u8>, after: Seq<u8>) -> bool {
    after.len() >= before.len() && after.subrange(0, before.len() as int) == before
}

/// A run-length stream encoder that writes into the wrapped writer.
pub struct Encoder<W> {
    w: W,
    reps: u64,
    byte: u8,
    in_run: bool,
}

impl<W: FiniteWriter> Encoder<W> {
    /// The wrapped writer.
    pub closed spec fn writer(&self) -> W {
        self.w
    }

    /// The pending run: its byte and its length (zero before the first byte).
    pub closed spec fn pending(&self) -> (u8, nat) {
        (self.byte, self.reps as nat)
    }

    pub closed spec fn wf(&self) -> bool {
        self.in_run <==> self.reps > 0
    }

    /// Creates an encoder whose output is written to `w`.
    pub fn new(w: W) -> (r: Encoder<W>)
        ensures
            r.wf(),
            r.writer() == w,
            r.pending() == (0u8, 0nat),
    {
        Encoder { w, reps: 0, byte: 0, in_run: false }
    }

    /// Writes the pending run and returns the wrapped writer, with the
    /// writer's failure if it failed.
    pub fn finish(self) -> (r: (W, Result<(), IoFailure>))
        requires
            self.wf(),
        ensures
            r.0.reliable() == self.writer().reliable(),
            self.writer().reliable() ==> r.1 is Ok,
            r.1 is Ok ==> r.0.written() == self.writer().written() + encode_run(
                self.pending().0,
                self.pending().1,
            ),
            r.1 is Err ==> extends(self.writer().written(), r.0.written()),
    {
        let mut e = self;
        let res = e.flush_run();
        (e.w, res)
    }

    fn process_byte(&mut self, byte: u8) -> (r: Result<(), IoFailure>)
        requires
            old(self).wf(),
            old(self).reps < u64::MAX,
        ensures
            final(self).wf(),
            final(self).writer().reliable() == old(self).writer().reliable(),
            old(self).writer().reliable() ==> r is Ok,
            r is Err ==> final(self).pending() == old(self).pending() && extends(
                old(self).writer().written(),
                final(self).writer().written(),
            ),
            r is Ok && old(self).reps > 0 && byte == old(self).byte ==> final(self).writer().written()
                == old(self).writer().written() && final(self).pending() == (
                byte,
                (old(self).reps + 1) as nat,
            ),
            r is Ok && !(old(self).reps > 0 && byte == old(self).byte) ==> final(self).writer().written()
                == old(self).writer().written() + encode_run(old(self).byte, old(self).reps as nat)
                && final(self).pending() == (byte, 1nat),
    {
        if !self.in_run {
            self.byte = byte;
            self.reps = 1;
            self.in_run = true;
            assert(old(self).w.written() + encode_run(old(self).byte, 0) =~= old(self).w.written());
            return Ok(());
        }
        if self.byte == byte {
            self.reps += 1;
            return Ok(());
        }
        let res = self.flush_run();
        if res.is_err() {
            return res;
        }
        self.reps = 1;
        self.byte = byte;
        Ok(())
    }

    /// Encodes `buf`. Bytes that extend the pending run are held back until
    /// the run ends.
    pub fn write(&mut self, buf: &[u8]) -> (r: Result<(), IoFailure>)
        requires
            old(self).wf(),
            old(self).pending().1 + buf@.len() < u64::MAX,
        ensures
            final(self).wf(),
            final(self).writer().reliable() == old(self).writer().reliable(),
            old(self).writer().reliable() ==> r is Ok,
            r is Ok ==> final(self).writer().written() == old(self).writer().written()
                + encode_emitted(old(self).pending().0, old(self).pending().1, buf@),
            r is Ok ==> final(self).pending() == encode_pending(
                old(self).pending().0,
                old(self).pending().1,
                buf@,
            ),
    {
        let ghost w0 = self.w.written();
        let ghost p0 = self.pending();
        let mut i: usize = 0;
        assert(buf@.subrange(0, buf@.len() as int) =~= buf@);
        while i < buf.len()
            invariant
                self.wf(),
                self.w.reliable() == old(self).w.reliable(),
                i <= buf@.len(),
                self.reps <= p0.1 + i,
                p0.1 + buf@.len() < u64::MAX,
                self.w.written() + encode_emitted(
                    self.byte,
                    self.reps as nat,
                    buf@.subrange(i as int, buf@.len() as int),
                ) == w0 + encode_emitted(p0.0, p0.1, buf@),
                encode_pending(self.byte, self.reps as nat, buf@.subrange(i as int, buf@.len() as int))
                    == encode_pending(p0.0, p0.1, buf@),
            decreases buf.len() - i,
        {
            let ghost rest = buf@.subrange(i as int, buf@.len() as int);
            let ghost b = self.byte;
            let ghost n = self.reps as nat;
            let ghost w1 = self.w.written();
            let c = buf[i];
            let res = self.process_byte(c);
            if res.is_err() {
                return res;
            }
            proof {
                let tail = buf@.subrange(i + 1, buf@.len() as int);
                assert(rest[0] == c);
                assert(rest.drop_first() =~= tail);
                if !(n > 0 && c == b) {
                    assert(w1 + encode_emitted(b, n, rest) =~= self.w.written() + encode_emitted(
                        c,
                        1,
                        tail,
                    ));
                }
            }
            i += 1;
        }
        assert(buf@.subrange(buf@.len() as int, buf@.len() as int) =~= Seq::<u8>::empty());
        assert(self.w.written() =~= self.w.written() + Seq::<u8>::empty());
        Ok(())
    }

    /// Writes the pending run: the byte itself for a run of one, else the byte
    /// twice and the length groups of the length minus two.
    fn flush_run(&mut self) -> (r: Result<(), IoFailure>)
        ensures
            final(self).writer().reliable() == old(self).writer().reliable(),
            old(self).writer().reliable() ==> r is Ok,
            r is Ok ==> final(self).writer().written() == old(self).writer().written()
                + encode_run(old(self).pending().0, old(self).pending().1),
            r is Err ==> extends(old(self).writer().written(), final(self).writer().written()),
            final(self).pending() == old(self).pending(),
            final(self).in_run == old(self).in_run,
    {
        let b = self.byte;
        let mut out: Vec<u8> = Vec::new();
        if self.reps == 1 {
            out.push(b);
            assert(out@ =~= seq![b]);
        } else if self.reps > 1 {
            out.push(b);
            out.push(b);
            let mut v: u64 = self.reps - 2;
            let ghost whole = seq![b, b] + varint((self.reps - 2) as nat);
            assert(out@ + varint(v as nat) =~= whole);
            loop
                invariant_except_break
                    out@ + varint(v as nat) == whole,
                ensures
                    out@ == whole,
                decreases v,
            {
                if v < 128 {
                    let last: u8 = (v as u8) | 0x80;
                    assert(last == (v + 128) as u8) by (bit_vector)
                        requires
                            v < 128,
                            last == (v as u8) | 0x80,
                    ;
                    out.push(last);
                    assert(out@ =~= whole);
                    break;
                }
                let low: u8 = (v & 0x7f) as u8;
                assert(low == (v % 128) as u8) by (bit_vector)
                    requires
                        low == (v & 0x7f) as u8,
                ;
                let ghost old_out = out@;
                let ghost old_v = v as nat;
                out.push(low);
                assert(v >> 7 == v / 128) by (bit_vector);
                v = v >> 7;
                assert(out@ + varint(v as nat) =~= old_out + varint(old_v));
            }
        }
        self.w.write(out.as_slice())
    }
}

/// The length of a run being read: the groups seen so far.
#[derive(Clone, Copy)]
struct RunBuilder {
    byte: u8,
    acc: u64,
    place: u64,
    byte_count: u8,
}

impl RunBuilder {
    spec fn wf(&self) -> bool {
        &&& self.byte_count <= 9
        &&& self.place as nat == place_value(self.byte_count as nat)
        &&& (self.acc as nat) < place_value(self.byte_count as nat)
    }

    fn new(byte: u8) -> (r: RunBuilder)
        ensures
            r.wf(),
            r.byte == byte,
            r.acc == 0,
            r.byte_count == 0,
    {
        RunBuilder { byte, acc: 0, place: 1, byte_count: 0 }
    }

    fn to_run(&self) -> (r: Run)
        requires
            self.wf(),
        ensures
            r.byte == self.byte,
            r.reps == self.acc + 2,
    {
        proof {
            lemma_place_value_bound(self.byte_count as nat);
            lemma_place_value_9();
        }
        Run { byte: self.byte, reps: 2 + self.acc }
    }

    fn add_byte(&mut self, c: u8) -> (r: Result<(), RleError>)
        requires
            old(self).wf(),
        ensures
            r is Err <==> old(self).byte_count >= 9,
            r is Err ==> *final(self) == *old(self),
            r is Ok ==> *final(self) == builder_after(*old(self), c),
            r is Ok ==> final(self).wf() && final(self).byte == old(self).byte && final(self).acc
                == old(self).acc + (c % 128) as nat * place_value(old(self).byte_count as nat)
                && final(self).byte_count == old(self).byte_count + 1,
    {
        if self.byte_count >= 9 {
            return Err(RleError::OverlongRun);
        }
        let low: u8 = c & 0x7f;
        assert(low == c % 128) by (bit_vector)
            requires
                low == c & 0x7f,
        ;
        let ghost k = self.byte_count as nat;
        proof {
            lemma_place_value_bound(k + 1);
            lemma_place_value_9();
            assert(place_value(k + 1) == 128 * place_value(k));
            assert(self.acc + low * self.place < 128 * self.place) by (nonlinear_arith)
                requires
                    self.acc < self.place,
                    low < 128,
            ;
        }
        self.acc = self.acc + low as u64 * self.place;
        self.place = self.place * 128;
        self.byte_count = self.byte_count + 1;
        Ok(())
    }
}

/// A decoded run, handed out one byte at a time.
#[derive(Clone, Copy)]
struct Run {
    byte: u8,
    reps: u64,
}

#[derive(Clone, Copy)]
enum DecoderState {
    /// No byte pending.
    Clean,
    /// One byte seen, which may start a run.
    Single(u8),
    /// Two equal bytes seen; reading the run's length groups.
    Run(RunBuilder),
}

spec fn state_decode(st: DecoderState, x: Seq<u8>) -> (Seq<u8>, bool) {
    match st {
        DecoderState::Clean => decode_clean(x),
        DecoderState::Single(a) => decode_single(a, x),
        DecoderState::Run(rb) => decode_run(rb.byte, rb.acc as nat, rb.byte_count as nat, x),
    }
}

spec fn run_bytes(run: Option<Run>) -> Seq<u8> {
    match run {
        None => Seq::empty(),
        Some(r) => repeat(r.byte, r.reps as nat),
    }
}

/// The run builder after the length group `c`.
spec fn builder_after(rb: RunBuilder, c: u8) -> RunBuilder {
    RunBuilder {
        byte: rb.byte,
        acc: (rb.acc as int + (c % 128) as int * rb.place as int) as u64,
        place: (rb.place as int * 128) as u64,
        byte_count: (rb.byte_count + 1) as u8,
    }
}

/// The run that a pending state turns into when the input ends.
spec fn end_run(st: DecoderState) -> Option<Run> {
    match st {
        DecoderState::Clean => None,
        DecoderState::Single(a) => Some(Run { byte: a, reps: 1 }),
        DecoderState::Run(rb) => Some(Run { byte: rb.byte, reps: (rb.acc + 2) as u64 }),
    }
}

/// Driving the state machine from `st` over `x` until it hands out a run:
/// the run (none where the input ends clean), the state after it, how many
/// bytes were consumed, and `false` where a length ran past nine groups.
spec fn run_step(st: DecoderState, x: Seq<u8>) -> (Option<Run>, DecoderState, nat, bool)
    decreases x.len(),
{
    if x.len() == 0 {
        (end_run(st), DecoderState::Clean, 0, true)
    } else {
        let c = x[0];
        match st {
            DecoderState::Clean => {
                let r = run_step(DecoderState::Single(c), x.drop_first());
                (r.0, r.1, r.2 + 1, r.3)
            },
            DecoderState::Single(a) => {
                if c == a {
                    let r = run_step(
                        DecoderState::Run(RunBuilder { byte: a, acc: 0, place: 1, byte_count: 0 }),
                        x.drop_first(),
                    );
                    (r.0, r.1, r.2 + 1, r.3)
                } else {
                    (Some(Run { byte: a, reps: 1 }), DecoderState::Single(c), 1, true)
                }
            },
            DecoderState::Run(rb) => {
                if rb.byte_count >= 9 {
                    (None, st, 1, false)
                } else if c >= 128 {
                    (
                        Some(Run { byte: rb.byte, reps: (builder_after(rb, c).acc + 2) as u64 }),
                        DecoderState::Clean,
                        1,
                        true,
                    )
                } else {
                    let r = run_step(DecoderState::Run(builder_after(rb, c)), x.drop_first());
                    (r.0, r.1, r.2 + 1, r.3)
                }
            },
        }
    }
}

/// Size of the chunks in which the decoder pulls from its source.
const CHUNK: usize = 32;

/// A run-length stream decoder that reads from the wrapped source.
pub struct Decoder<R> {
    r: R,
    buf: VecDeque<u8>,
    state: DecoderState,
    run: Option<Run>,
}

impl<R: ByteSource> Decoder<R> {
    /// The wrapped source.
    pub closed spec fn source(&self) -> R {
        self.r
    }

    /// The encoded bytes not yet consumed: what is buffered, then what the
    /// source still holds.
    pub closed spec fn input(&self) -> Seq<u8> {
        self.buf@ + self.r.remaining()
    }

    /// Everything this decoder has yet to produce, and whether the stream is
    /// sound to its end.
    pub closed spec fn future(&self) -> (Seq<u8>, bool) {
        let d = state_decode(self.state, self.input());
        (run_bytes(self.run) + d.0, d.1)
    }

    /// Nothing consumed from the source yet.
    pub closed spec fn is_fresh(&self) -> bool {
        &&& self.state is Clean
        &&& self.run is None
        &&& self.buf@.len() == 0
    }

    pub closed spec fn wf(&self) -> bool {
        &&& (self.state matches DecoderState::Run(rb) ==> rb.wf())
        &&& (self.run matches Some(r) ==> r.reps >= 1)
    }

    /// Creates a decoder which reads encoded bytes from `r`.
    pub fn new(r: R) -> (d: Decoder<R>)
        ensures
            d.wf(),
            d.is_fresh(),
            d.source() == r,
            d.input() == r.remaining(),
            d.future() == rle_decode(r.remaining()),
    {
        let d = Decoder {
            r,
            buf: VecDeque::with_capacity(CHUNK),
            state: DecoderState::Clean,
            run: None,
        };
        assert(d.input() =~= r.remaining());
        assert(d.future().0 =~= rle_decode(r.remaining()).0);
        d
    }

    /// Returns the wrapped source.
    pub fn finish(self) -> (r: R)
        ensures
            r == self.source(),
    {
        self.r
    }

    /// Refill the empty queue with one read of at most `CHUNK` bytes, kept
    /// in order.
    fn fill_buf(&mut self) -> (r: Result<(), IoFailure>)
        requires
            old(self).wf(),
            old(self).buf@.len() == 0,
        ensures
            final(self).wf(),
            final(self).input() == old(self).input(),
            final(self).state == old(self).state,
            final(self).run == old(self).run,
            final(self).r.reliable() == old(self).r.reliable(),
            old(self).r.reliable() ==> r is Ok,
            r is Ok ==> {
                &&& final(self).buf@.len() <= CHUNK
                &&& old(self).r.remaining() == final(self).buf@ + final(self).r.remaining()
                &&& (final(self).buf@.len() > 0 <==> old(self).input().len() > 0)
            },
            r is Err ==> final(self).buf@.len() == 0,
    {
        let ghost before = self.input();
        let chunk = match self.r.read(CHUNK) {
            Ok(c) => c,
            Err(e) => {
                return Err(e);
            },
        };
        let ghost r1 = self.r;
        let mut i: usize = 0;
        while i < chunk.len()
            invariant
                i <= chunk@.len(),
                self.r == r1,
                self.state == old(self).state,
                self.run == old(self).run,
                self.buf@ == chunk@.subrange(0, i as int),
            decreases chunk.len() - i,
        {
            self.buf.push_back(chunk[i]);
            i += 1;
            assert(self.buf@ =~= chunk@.subrange(0, i as int));
        }
        assert(chunk@.subrange(0, chunk@.len() as int) =~= chunk@);
        assert(old(self).buf@ =~= Seq::<u8>::empty());
        assert(self.input() =~= old(self).input());
        Ok(())
    }

    /// The next encoded byte. The source is read only when the queue is
    /// empty.
    fn fetch_byte(&mut self) -> (r: Result<Option<u8>, IoFailure>)
        requires
            old(self).wf(),
        ensures
            final(self).wf(),
            final(self).state == old(self).state,
            final(self).run == old(self).run,
            final(self).r.reliable() == old(self).r.reliable(),
            old(self).r.reliable() ==> r is Ok,
            old(self).buf@.len() > 0 ==> r == Ok::<Option<u8>, IoFailure>(Some(old(self).buf@[0]))
                && final(self).r == old(self).r && final(self).buf@ == old(self).buf@.drop_first(),
            r matches Ok(Some(c)) ==> old(self).input().len() > 0 && c == old(self).input()[0]
                && final(self).input() == old(self).input().drop_first(),
            r matches Ok(None) ==> old(self).input().len() == 0 && final(self).input().len() == 0,
            old(self).input().len() > 0 ==> !(r matches Ok(None)),
            r is Err ==> final(self).input() == old(self).input(),
    {
        let ghost before = self.input();
        match self.buf.pop_front() {
            Some(c) => {
                assert(self.buf@ =~= old(self).buf@.drop_first());
                assert(self.input() =~= before.drop_first());
                Ok(Some(c))
            },
            None => {
                match self.fill_buf() {
                    Err(e) => {
                        return Err(e);
                    },
                    Ok(()) => {},
                }
                let ghost filled = self.input();
                match self.buf.pop_front() {
                    None => Ok(None),
                    Some(c) => {
                        assert(self.input() =~= filled.drop_first());
                        Ok(Some(c))
                    },
                }
            },
        }
    }

    /// The top bit marks the last length group of a run.
    fn is_final_run_byte(byte: u8) -> (r: bool)
        ensures
            r == (byte >= 128),
    {
        let r = 0x80 & byte != 0;
        assert(r == (byte >= 128)) by (bit_vector)
            requires
                r == (0x80 & byte != 0),
        ;
        r
    }

    /// Drive the state machine until it hands out the next run, or the input
    /// ends clean.
    fn read_run(&mut self) -> (res: Result<(), RleError>)
        requires
            old(self).wf(),
            old(self).run is None,
        ensures
            final(self).wf(),
            final(self).r.reliable() == old(self).r.reliable(),
            old(self).r.reliable() ==> !(res matches Err(RleError::UnderlyingIoFailure(_))),
            res is Ok ==> final(self).future() == old(self).future(),
            res is Ok && final(self).run is None ==> final(self).future() == (
                Seq::<u8>::empty(),
                true,
            ),
            res == Err::<(), RleError>(RleError::OverlongRun) ==> old(self).future() == (
                Seq::<u8>::empty(),
                false,
            ),
            res matches Err(RleError::UnderlyingIoFailure(_)) ==> final(self).future() == old(self).future(),
            res is Ok ==> ({
                let st = run_step(old(self).state, old(self).input());
                &&& st.3
                &&& final(self).run == st.0
                &&& final(self).state == st.1
                &&& st.2 <= old(self).input().len()
                &&& final(self).input() == old(self).input().subrange(
                    st.2 as int,
                    old(self).input().len() as int,
                )
            }),
            res == Err::<(), RleError>(RleError::OverlongRun) ==> !run_step(
                old(self).state,
                old(self).input(),
            ).3,
            old(self).r.reliable() ==> (res is Ok <==> run_step(old(self).state, old(self).input()).3),
            res is Ok ==> (final(self).state is Clean || final(self).state is Single),
            res is Ok && old(self).input().len() == 0 ==> final(self).state is Clean
                && final(self).run == end_run(old(self).state),
            res is Ok && old(self).input().len() > 0 ==> (old(self).state matches DecoderState::Single(
                a,
            ) ==> (old(self).input()[0] != a ==> final(self).run == Some(Run { byte: a, reps: 1 })
                && final(self).state == DecoderState::Single(old(self).input()[0])
                && final(self).input() == old(self).input().drop_first())),
    {
        let ghost f = state_decode(self.state, self.input());
        let ghost x0 = self.input();
        let ghost s0 = run_step(self.state, x0);
        assert(old(self).future().0 =~= f.0);
        assert(x0.subrange(0, x0.len() as int) =~= x0);
        loop
            invariant
                self.wf(),
                self.run is None,
                self.r.reliable() == old(self).r.reliable(),
                state_decode(self.state, self.input()) == f,
                old(self).future() == (f.0, f.1),
                x0 == old(self).input(),
                s0 == run_step(old(self).state, x0),
                self.input().len() <= x0.len(),
                self.input() == x0.subrange(x0.len() - self.input().len(), x0.len() as int),
                ({
                    let s = run_step(self.state, self.input());
                    s0 == (s.0, s.1, (s.2 + (x0.len() - self.input().len())) as nat, s.3)
                }),
            decreases self.input().len(),
        {
            let ghost x = self.input();
            let ghost k = (x0.len() - x.len()) as int;
            let next = match self.fetch_byte() {
                Ok(n) => n,
                Err(e) => {
                    return Err(RleError::UnderlyingIoFailure(e));
                },
            };
            match next {
                None => {
                    let run = match self.state {
                        DecoderState::Clean => None,
                        DecoderState::Single(a) => Some(Run { byte: a, reps: 1 }),
                        DecoderState::Run(rb) => Some(rb.to_run()),
                    };
                    proof {
                        assert(x =~= Seq::<u8>::empty());
                        assert(self.input() =~= Seq::<u8>::empty());
                        assert(run_bytes(run) + Seq::<u8>::empty() =~= f.0);
                        assert(x0.subrange(s0.2 as int, x0.len() as int) =~= Seq::<u8>::empty());
                    }
                    self.run = run;
                    self.state = DecoderState::Clean;
                    return Ok(());
                },
                Some(c) => {
                    proof {
                        assert(x[0] == c);
                        assert(self.input() =~= x0.subrange(k + 1, x0.len() as int));
                    }
                    match self.state {
                        DecoderState::Clean => {
                            self.state = DecoderState::Single(c);
                        },
                        DecoderState::Single(a) => {
                            if c == a {
                                self.state = DecoderState::Run(RunBuilder::new(a));
                                assert(place_value(0) == 1);
                            } else {
                                self.run = Some(Run { byte: a, reps: 1 });
                                self.state = DecoderState::Single(c);
                                assert(run_bytes(self.run) =~= seq![a]);
                                return Ok(());
                            }
                        },
                        DecoderState::Run(rb) => {
                            let mut rb = rb;
                            let added = rb.add_byte(c);
                            if added.is_err() {
                                return Err(RleError::OverlongRun);
                            }
                            if Self::is_final_run_byte(c) {
                                self.run = Some(rb.to_run());
                                self.state = DecoderState::Clean;
                                return Ok(());
                            } else {
                                self.state = DecoderState::Run(rb);
                            }
                        },
                    }
                },
            }
        }
    }

    /// The next decoded byte. A pending run is drained one byte at a time,
    /// without touching the input; only when none is pending is the next run
    /// decoded.
    fn read_byte(&mut self) -> (r: Result<Option<u8>, RleError>)
        requires
            old(self).wf(),
        ensures
            final(self).wf(),
            final(self).r.reliable() == old(self).r.reliable(),
            old(self).r.reliable() ==> !(r matches Err(RleError::UnderlyingIoFailure(_))),
            r matches Ok(Some(b)) ==> old(self).future().0.len() > 0 && b == old(self).future().0[0]
                && final(self).future() == (
                old(self).future().0.drop_first(),
                old(self).future().1,
            ),
            r matches Ok(None) ==> old(self).future().0.len() == 0 && old(self).future().1
                && final(self).future() == old(self).future(),
            r == Err::<Option<u8>, RleError>(RleError::OverlongRun) ==> old(self).future().0.len()
                == 0 && !old(self).future().1,
            r matches Err(RleError::UnderlyingIoFailure(_)) ==> final(self).future() == old(self).future(),
            old(self).run matches Some(rn) ==> {
                &&& r == Ok::<Option<u8>, RleError>(Some(rn.byte))
                &&& final(self).state == old(self).state
                &&& final(self).r == old(self).r
                &&& final(self).buf@ == old(self).buf@
                &&& final(self).run == if rn.reps <= 1 {
                    None
                } else {
                    Some(Run { byte: rn.byte, reps: (rn.reps - 1) as u64 })
                }
            },
    {
        if self.run.is_none() {
            let res = self.read_run();
            match res {
                Err(e) => {
                    return Err(e);
                },
                Ok(()) => {},
            }
        }
        match self.run {
            Some(run) => {
                let ghost d = state_decode(self.state, self.input());
                if run.reps <= 1 {
                    self.run = None;
                } else {
                    self.run = Some(Run { byte: run.byte, reps: run.reps - 1 });
                }
                assert(self.future().0 =~= (run_bytes(Some(run)) + d.0).drop_first());
                Ok(Some(run.byte))
            },
            None => Ok(None),
        }
    }

    /// Decodes up to `max` bytes. Over a source that never fails, it fails
    /// exactly where the stream turns unsound before `max` bytes are produced.
    pub fn read(&mut self, max: usize) -> (r: Result<Vec<u8>, RleError>)
        requires
            old(self).wf(),
        ensures
            final(self).wf(),
            final(self).source().reliable() == old(self).source().reliable(),
            r == Err::<Vec<u8>, RleError>(RleError::OverlongRun) ==> !old(self).future().1
                && old(self).future().0.len() < max,
            r is Ok ==> old(self).future().1 || old(self).future().0.len() >= max,
            old(self).source().reliable() ==> !(r matches Err(RleError::UnderlyingIoFailure(_))),
            old(self).source().reliable() ==> (r is Err <==> !old(self).future().1
                && old(self).future().0.len() < max),
            r matches Ok(out) ==> {
                &&& out@.len() == if max < old(self).future().0.len() {
                    max as int
                } else {
                    old(self).future().0.len() as int
                }
                &&& out@ == old(self).future().0.subrange(0, out@.len() as int)
                &&& final(self).future() == (
                    old(self).future().0.subrange(
                        out@.len() as int,
                        old(self).future().0.len() as int,
                    ),
                    old(self).future().1,
                )
            },
    {
        let ghost f = self.future();
        let mut out: Vec<u8> = Vec::new();
        let mut i: usize = 0;
        assert(f.0.subrange(0, 0) =~= Seq::<u8>::empty());
        assert(f.0.subrange(0, f.0.len() as int) =~= f.0);
        while i < max
            invariant
                self.wf(),
                self.r.reliable() == old(self).r.reliable(),
                i <= max,
                i <= f.0.len(),
                f == old(self).future(),
                out@ == f.0.subrange(0, i as int),
                self.future() == (f.0.subrange(i as int, f.0.len() as int), f.1),
            ensures
                self.wf(),
                self.r.reliable() == old(self).r.reliable(),
                i <= max,
                i <= f.0.len(),
                out@ == f.0.subrange(0, i as int),
                self.future() == (f.0.subrange(i as int, f.0.len() as int), f.1),
                i == max || (i == f.0.len() && f.1),
            decreases max - i,
        {
            let ghost cur = self.future();
            assert(cur.0.len() == f.0.len() - i);
            let b = self.read_byte();
            match b {
                Err(e) => {
                    return Err(e);
                },
                Ok(None) => {
                    assert(cur.0.len() == 0 && cur.1);
                    break;
                },
                Ok(Some(c)) => {
                    out.push(c);
                    i += 1;
                    assert(out@ =~= f.0.subrange(0, i as int));
                    assert(f.0.subrange(i - 1, f.0.len() as int).drop_first() =~= f.0.subrange(
                        i as int,
                        f.0.len() as int,
                    ));
                },
            }
        }
        Ok(out)
    }

    /// Decodes everything left. Over a source that never fails, it succeeds
    /// exactly when the rest of the stream is sound.
    pub fn read_to_end(&mut self) -> (r: Result<Vec<u8>, RleError>)
        requires
            old(self).wf(),
        ensures
            final(self).wf(),
            final(self).source().reliable() == old(self).source().reliable(),
            r matches Ok(out) ==> old(self).future().1 && out@ == old(self).future().0,
            r == Err::<Vec<u8>, RleError>(RleError::OverlongRun) ==> !old(self).future().1,
            old(self).source().reliable() ==> (r is Ok <==> old(self).future().1),
    {
        let ghost f = self.future();
        let mut out: Vec<u8> = Vec::new();
        assert(f.0.subrange(0, f.0.len() as int) =~= f.0);
        assert(f.0.subrange(0, 0) =~= Seq::<u8>::empty());
        loop
            invariant
                self.wf(),
                self.r.reliable() == old(self).r.reliable(),
                out@.len() <= f.0.len(),
                f == old(self).future(),
                out@ == f.0.subrange(0, out@.len() as int),
                self.future() == (f.0.subrange(out@.len() as int, f.0.len() as int), f.1),
            decreases f.0.len() - out@.len(),
        {
            let ghost cur = self.future();
            assert(cur.0.len() == f.0.len() - out@.len());
            let b = self.read_byte();
            match b {
                Err(e) => {
                    return Err(e);
                },
                Ok(None) => {
                    assert(cur.0.len() == 0 && cur.1);
                    assert(out@ =~= f.0);
                    return Ok(out);
                },
                Ok(Some(c)) => {
                    let ghost n = out@.len() as int;
                    out.push(c);
                    assert(out@ =~= f.0.subrange(0, n + 1));
                    assert(f.0.subrange(n, f.0.len() as int).drop_first() =~= f.0.subrange(
                        n + 1,
                        f.0.len() as int,
                    ));
                },
            }
        }
    }
}

/// Decoding does not depend on how the source splits its bytes into reads:
/// two fresh decoders over sources that hold the same bytes produce the same
/// output and the same verdict.
pub proof fn lemma_chunking_invisible<R1: ByteSource, R2: ByteSource>(
    d1: Decoder<R1>,
    d2: Decoder<R2>,
)
    requires
        d1.is_fresh(),
        d2.is_fresh(),
        d1.source().remaining() == d2.source().remaining(),
    ensures
        d1.future() == d2.future(),
        d1.future() == rle_decode(d1.source().remaining()),
{
    assert(d1.input() =~= d1.source().remaining());
    assert(d2.input() =~= d2.source().remaining());
    assert(d1.future().0 =~= d2.future().0);
}

} // verus!
