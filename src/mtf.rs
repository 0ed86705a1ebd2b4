//! Move-to-front encoder and decoder: each symbol becomes its rank by how
//! recently it was seen. Useful after a Burrows-Wheeler transform, whose output
//! turns into many zeroes and low ranks.
use vstd::prelude::*;
use crate::shared::{ByteSource, FiniteWriter, IoFailure};

verus! {

/// A byte value.
pub type Symbol = u8;

/// A position in the rank table.
pub type Rank = u8;

/// Number of distinct symbols.
pub const TOTAL_SYMBOLS: usize = 0x100;

/// Some rank of `t` holds `s`.
pub open spec fn holds_symbol(t: Seq<u8>, s: u8) -> bool {
    exists|i: int| 0 <= i < 256 && t[i] == s
}

/// `t` holds each of the 256 byte values exactly once.
pub open spec fn is_permutation(t: Seq<u8>) -> bool {
    &&& t.len() == 256
    &&& forall|s: u8| #[trigger] holds_symbol(t, s)
    &&& forall|i: int, j: int| 0 <= i < j < 256 ==> t[i] != t[j]
}

/// The table in alphabetical order: rank equals byte value.
pub open spec fn is_alphabetical(t: Seq<u8>) -> bool {
    &&& t.len() == 256
    &&& forall|i: int| 0 <= i < 256 ==> #[trigger] t[i] == i as u8
}

/// The position of `s` in a permutation `t`.
pub open spec fn rank_of(t: Seq<u8>, s: u8) -> int {
    choose|r: int| 0 <= r < 256 && t[r] == s
}

/// Take the entry at rank `r` out of `t` and put it in front.
pub open spec fn move_to_front(t: Seq<u8>, r: int) -> Seq<u8> {
    seq![t[r]] + t.subrange(0, r) + t.subrange(r + 1, t.len() as int)
}

/// The ranks that encoding `x` from table `t` produces.
pub open spec fn encode_ranks(t: Seq<u8>, x: Seq<u8>) -> Seq<u8>
    decreases x.len(),
{
    if x.len() == 0 {
        Seq::empty()
    } else {
        seq![rank_of(t, x[0]) as u8] + encode_ranks(
            move_to_front(t, rank_of(t, x[0])),
            x.drop_first(),
        )
    }
}

/// The table after encoding `x` from table `t`.
pub open spec fn encode_table(t: Seq<u8>, x: Seq<u8>) -> Seq<u8>
    decreases x.len(),
{
    if x.len() == 0 {
        t
    } else {
        encode_table(move_to_front(t, rank_of(t, x[0])), x.drop_first())
    }
}

/// The symbols that decoding `ranks` from table `t` produces.
pub open spec fn decode_symbols(t: Seq<u8>, ranks: Seq<u8>) -> Seq<u8>
    decreases ranks.len(),
{
    if ranks.len() == 0 {
        Seq::empty()
    } else {
        seq![t[ranks[0] as int]] + decode_symbols(
            move_to_front(t, ranks[0] as int),
            ranks.drop_first(),
        )
    }
}

/// The table after decoding `ranks` from table `t`.
pub open spec fn decode_table(t: Seq<u8>, ranks: Seq<u8>) -> Seq<u8>
    decreases ranks.len(),
{
    if ranks.len() == 0 {
        t
    } else {
        decode_table(move_to_front(t, ranks[0] as int), ranks.drop_first())
    }
}

/// In a permutation, the rank of a symbol is the one position that holds it.
pub proof fn lemma_rank_of_unique(t: Seq<u8>, s: u8, r: int)
    requires
        is_permutation(t),
        0 <= r < 256,
        t[r] == s,
    ensures
        rank_of(t, s) == r,
{
    assert(holds_symbol(t, s));
    let q = rank_of(t, s);
    assert(0 <= q < 256 && t[q] == s);
    if q < r {
        assert(t[q] != t[r]);
    } else if r < q {
        assert(t[r] != t[q]);
    }
}

/// Moving an entry to the front keeps a permutation a permutation.
pub proof fn lemma_move_to_front_permutation(t: Seq<u8>, r: int)
    requires
        is_permutation(t),
        0 <= r < 256,
    ensures
        is_permutation(move_to_front(t, r)),
        move_to_front(t, r).len() == 256,
{
    let m = move_to_front(t, r);
    assert(m.len() == 256);
    assert forall|i: int| 0 <= i < 256 implies #[trigger] m[i] == (if i == 0 {
        t[r]
    } else if i <= r {
        t[i - 1]
    } else {
        t[i]
    }) by {}
    assert forall|s: u8| #[trigger] holds_symbol(m, s) by {
        assert(holds_symbol(t, s));
        let j = choose|j: int| 0 <= j < 256 && t[j] == s;
        if j == r {
            assert(m[0] == s);
        } else if j < r {
            assert(m[j + 1] == s);
        } else {
            assert(m[j] == s);
        }
    }
    assert forall|i: int, j: int| 0 <= i < j < 256 implies m[i] != m[j] by {
        let a = if i == 0 { r } else if i <= r { i - 1 } else { i };
        let b = if j == 0 { r } else if j <= r { j - 1 } else { j };
        assert(m[i] == t[a]);
        assert(m[j] == t[b]);
        assert(a != b);
        if a < b {
            assert(t[a] != t[b]);
        } else {
            assert(t[b] != t[a]);
        }
    }
}

/// The alphabetical table is a permutation.
pub proof fn lemma_alphabetical_permutation(t: Seq<u8>)
    requires
        is_alphabetical(t),
    ensures
        is_permutation(t),
{
    assert forall|s: u8| #[trigger] holds_symbol(t, s) by {
        assert(t[s as int] == s);
    }
    assert forall|i: int, j: int| 0 <= i < j < 256 implies t[i] != t[j] by {
        assert(t[i] == i as u8 && t[j] == j as u8);
    }
}

/// Decoding the ranks that encoding produced gives back the input, and leaves
/// the decoder's table where the encoder's table is.
pub proof fn lemma_round_trip(t: Seq<u8>, x: Seq<u8>)
    requires
        is_permutation(t),
    ensures
        decode_symbols(t, encode_ranks(t, x)) == x,
        decode_table(t, encode_ranks(t, x)) == encode_table(t, x),
        is_permutation(encode_table(t, x)),
    decreases x.len(),
{
    if x.len() > 0 {
        assert(holds_symbol(t, x[0]));
        let r = rank_of(t, x[0]);
        assert(0 <= r < 256 && t[r] == x[0]);
        let t2 = move_to_front(t, r);
        lemma_move_to_front_permutation(t, r);
        lemma_round_trip(t2, x.drop_first());
        let e = encode_ranks(t, x);
        assert(e[0] == r as u8);
        assert(e.drop_first() =~= encode_ranks(t2, x.drop_first()));
        assert(decode_symbols(t, e) =~= x);
    }
}

/// Right after a symbol is encoded, encoding it again gives rank zero.
pub proof fn lemma_repeat_is_rank_zero(t: Seq<u8>, s: u8)
    requires
        is_permutation(t),
    ensures
        rank_of(move_to_front(t, rank_of(t, s)), s) == 0,
{
    assert(holds_symbol(t, s));
    let r = rank_of(t, s);
    assert(0 <= r < 256 && t[r] == s);
    lemma_move_to_front_permutation(t, r);
    lemma_rank_of_unique(move_to_front(t, r), s, 0);
}

/// Move-to-front encoder and decoder.
pub struct MTF {
    /// Rank-ordered list of the symbols.
    pub symbols: [Symbol; TOTAL_SYMBOLS],
}

impl MTF {
    /// Create a new MTF whose table is all zeroes.
    pub fn new() -> (r: MTF)
        ensures
            r.symbols@ == Seq::new(256, |i: int| 0u8),
    {
        let r = MTF { symbols: [0; TOTAL_SYMBOLS] };
        assert(r.symbols@ =~= Seq::new(256, |i: int| 0u8));
        r
    }

    /// Set the order of symbols to be alphabetical.
    pub fn reset_alphabetical(&mut self)
        ensures
            is_alphabetical(final(self).symbols@),
            is_permutation(final(self).symbols@),
    {
        let mut i: usize = 0;
        while i < TOTAL_SYMBOLS
            invariant
                i <= 256,
                forall|j: int| 0 <= j < i ==> #[trigger] self.symbols@[j] == j as u8,
            decreases 256 - i,
        {
            self.symbols[i] = i as Symbol;
            i += 1;
        }
        proof {
            lemma_alphabetical_permutation(self.symbols@);
        }
    }

    /// Encode a symbol into its rank, and move it to the front.
    pub fn encode(&mut self, sym: Symbol) -> (r: Rank)
        requires
            is_permutation(old(self).symbols@),
        ensures
            r as int == rank_of(old(self).symbols@, sym),
            old(self).symbols@[r as int] == sym,
            forall|i: int| 0 <= i < r ==> old(self).symbols@[i] != sym,
            final(self).symbols@ == move_to_front(old(self).symbols@, r as int),
            is_permutation(final(self).symbols@),
    {
        let ghost t = self.symbols@;
        proof {
            assert(holds_symbol(t, sym));
            let q = rank_of(t, sym);
            assert(0 <= q < 256 && t[q] == sym);
            lemma_move_to_front_permutation(t, q);
        }
        let mut next = self.symbols[0];
        if next == sym {
            proof {
                lemma_rank_of_unique(t, sym, 0);
                assert(move_to_front(t, 0) =~= t);
            }
            return 0;
        }
        let mut rank: usize = 1;
        loop
            invariant_except_break
                1 <= rank < 256,
                next == t[rank - 1],
                next != sym,
                forall|i: int| 1 <= i < rank ==> #[trigger] self.symbols@[i] == t[i - 1],
                forall|i: int| rank <= i < 256 ==> #[trigger] self.symbols@[i] == t[i],
                forall|i: int| 0 <= i < rank ==> #[trigger] t[i] != sym,
            invariant
                is_permutation(t),
                self.symbols@.len() == 256,
                self.symbols@[0] == t[0],
            ensures
                1 <= rank < 256,
                t[rank as int] == sym,
                forall|i: int| 1 <= i <= rank ==> #[trigger] self.symbols@[i] == t[i - 1],
                forall|i: int| rank < i < 256 ==> #[trigger] self.symbols@[i] == t[i],
                forall|i: int| 0 <= i < rank ==> #[trigger] t[i] != sym,
            decreases 256 - rank,
        {
            let cur = self.symbols[rank];
            self.symbols[rank] = next;
            next = cur;
            if next == sym {
                break;
            }
            proof {
                assert(holds_symbol(t, sym));
                let q = rank_of(t, sym);
                assert(0 <= q < 256 && t[q] == sym);
                assert(q > rank as int);
            }
            rank += 1;
        }
        self.symbols[0] = sym;
        proof {
            lemma_rank_of_unique(t, sym, rank as int);
            assert(self.symbols@ =~= move_to_front(t, rank as int));
        }
        rank as Rank
    }

    /// Decode a rank into its symbol, and move that symbol to the front.
    pub fn decode(&mut self, rank: Rank) -> (r: Symbol)
        requires
            old(self).symbols@.len() == 256,
        ensures
            r == old(self).symbols@[rank as int],
            final(self).symbols@ == move_to_front(old(self).symbols@, rank as int),
    {
        let ghost t = self.symbols@;
        let sym = self.symbols[rank as usize];
        let mut i: usize = rank as usize;
        while i > 0
            invariant
                i <= rank,
                self.symbols@.len() == 256,
                forall|j: int| 0 <= j <= i ==> #[trigger] self.symbols@[j] == t[j],
                forall|j: int| i < j <= rank ==> #[trigger] self.symbols@[j] == t[j - 1],
                forall|j: int| rank < j < 256 ==> #[trigger] self.symbols@[j] == t[j],
            decreases i,
        {
            self.symbols[i] = self.symbols[i - 1];
            i -= 1;
        }
        self.symbols[0] = sym;
        assert(self.symbols@ =~= move_to_front(t, rank as int));
        sym
    }
}

/// Decoding a concatenation decodes the second part from where the first left
/// the table.
pub proof fn lemma_decode_append(t: Seq<u8>, a: Seq<u8>, b: Seq<u8>)
    ensures
        decode_symbols(t, a + b) == decode_symbols(t, a) + decode_symbols(decode_table(t, a), b),
        decode_table(t, a + b) == decode_table(decode_table(t, a), b),
    decreases a.len(),
{
    if a.len() == 0 {
        assert(a + b =~= b);
    } else {
        let t2 = move_to_front(t, a[0] as int);
        lemma_decode_append(t2, a.drop_first(), b);
        assert((a + b).drop_first() =~= a.drop_first() + b);
        assert((a + b)[0] == a[0]);
        assert(decode_symbols(t, a + b) =~= decode_symbols(t, a) + decode_symbols(
            decode_table(t, a),
            b,
        ));
    }
}

/// A move-to-front stream encoder: each byte written becomes its rank.
pub struct Encoder<W> {
    w: W,
    mtf: MTF,
}

impl<W: FiniteWriter> Encoder<W> {
    /// The wrapped writer.
    pub closed spec fn writer(&self) -> W {
        self.w
    }

    /// The current rank table.
    pub closed spec fn table(&self) -> Seq<u8> {
        self.mtf.symbols@
    }

    pub open spec fn wf(&self) -> bool {
        is_permutation(self.table())
    }

    /// Start encoding into the given writer, from the alphabetical table.
    pub fn new(w: W) -> (r: Encoder<W>)
        ensures
            r.wf(),
            is_alphabetical(r.table()),
            r.writer() == w,
    {
        let mut mtf = MTF::new();
        mtf.reset_alphabetical();
        Encoder { w, mtf }
    }

    /// Finish encoding and return the wrapped writer.
    pub fn finish(self) -> (r: W)
        ensures
            r == self.writer(),
    {
        self.w
    }

    /// Encode `buf`, writing one rank per byte. The table moves on even where
    /// the writer fails.
    pub fn write(&mut self, buf: &[u8]) -> (r: Result<(), IoFailure>)
        requires
            old(self).wf(),
        ensures
            final(self).wf(),
            final(self).table() == encode_table(old(self).table(), buf@),
            final(self).writer().reliable() == old(self).writer().reliable(),
            old(self).writer().reliable() ==> r is Ok,
            r is Ok ==> final(self).writer().written() == old(self).writer().written()
                + encode_ranks(old(self).table(), buf@),
    {
        let ghost t0 = self.table();
        let mut ranks: Vec<u8> = Vec::new();
        let mut i: usize = 0;
        proof {
            assert(buf@.subrange(0, buf@.len() as int) =~= buf@);
            assert(ranks@ + encode_ranks(t0, buf@) =~= encode_ranks(t0, buf@));
        }
        while i < buf.len()
            invariant
                i <= buf@.len(),
                self.w == old(self).w,
                is_permutation(self.mtf.symbols@),
                ranks@ + encode_ranks(self.mtf.symbols@, buf@.subrange(i as int, buf@.len() as int))
                    == encode_ranks(t0, buf@),
                encode_table(self.mtf.symbols@, buf@.subrange(i as int, buf@.len() as int))
                    == encode_table(t0, buf@),
            decreases buf.len() - i,
        {
            let ghost t = self.mtf.symbols@;
            let ghost rest = buf@.subrange(i as int, buf@.len() as int);
            let rank = self.mtf.encode(buf[i]);
            proof {
                assert(rest[0] == buf@[i as int]);
                assert(rest.drop_first() =~= buf@.subrange(i + 1, buf@.len() as int));
                assert(ranks@.push(rank) + encode_ranks(self.mtf.symbols@, rest.drop_first())
                    =~= ranks@ + encode_ranks(t, rest));
            }
            ranks.push(rank);
            i += 1;
        }
        proof {
            assert(buf@.subrange(buf@.len() as int, buf@.len() as int) =~= Seq::<u8>::empty());
            assert(ranks@ =~= ranks@ + Seq::<u8>::empty());
        }
        self.w.write(ranks.as_slice())
    }

    /// Flush the wrapped writer.
    pub fn flush(&mut self) -> (r: Result<(), IoFailure>)
        ensures
            final(self).table() == old(self).table(),
            final(self).writer().written() == old(self).writer().written(),
            final(self).writer().reliable() == old(self).writer().reliable(),
            old(self).writer().reliable() ==> r is Ok,
    {
        self.w.flush()
    }
}

/// A move-to-front stream decoder: each rank read becomes its symbol.
pub struct Decoder<R> {
    r: R,
    mtf: MTF,
}

impl<R: ByteSource> Decoder<R> {
    /// The wrapped source of ranks.
    pub closed spec fn source(&self) -> R {
        self.r
    }

    /// The current rank table.
    pub closed spec fn table(&self) -> Seq<u8> {
        self.mtf.symbols@
    }

    /// Start decoding the given source, from the alphabetical table.
    pub fn new(r: R) -> (d: Decoder<R>)
        ensures
            is_alphabetical(d.table()),
            is_permutation(d.table()),
            d.source() == r,
    {
        let mut mtf = MTF::new();
        mtf.reset_alphabetical();
        Decoder { r, mtf }
    }

    /// Finish decoding and return the wrapped source.
    pub fn finish(self) -> (r: R)
        ensures
            r == self.source(),
    {
        self.r
    }

    /// Decode the next ranks that the source delivers, at most `max` of them.
    /// A failed read of the source changes nothing.
    pub fn read(&mut self, max: usize) -> (r: Result<Vec<u8>, IoFailure>)
        ensures
            final(self).source().reliable() == old(self).source().reliable(),
            old(self).source().reliable() ==> r is Ok,
            r is Err ==> final(self).table() == old(self).table() && final(self).source().remaining()
                == old(self).source().remaining(),
            r matches Ok(out) ==> {
                &&& out@.len() <= max
                &&& (out@.len() == 0 <==> (max == 0 || old(self).source().remaining().len() == 0))
                &&& out@.len() <= old(self).source().remaining().len()
                &&& out@ == decode_symbols(
                    old(self).table(),
                    old(self).source().remaining().subrange(0, out@.len() as int),
                )
                &&& final(self).table() == decode_table(
                    old(self).table(),
                    old(self).source().remaining().subrange(0, out@.len() as int),
                )
                &&& final(self).source().remaining() == old(self).source().remaining().subrange(
                    out@.len() as int,
                    old(self).source().remaining().len() as int,
                )
            },
    {
        let ghost t0 = self.mtf.symbols@;
        let ghost rem0 = self.r.remaining();
        let chunk = match self.r.read(max) {
            Ok(c) => c,
            Err(e) => {
                return Err(e);
            },
        };
        proof {
            assert(rem0.subrange(0, chunk@.len() as int) =~= chunk@);
            assert(rem0.subrange(chunk@.len() as int, rem0.len() as int) =~= self.r.remaining());
        }
        let ghost r1 = self.r;
        let mut out: Vec<u8> = Vec::new();
        let mut i: usize = 0;
        proof {
            assert(chunk@.subrange(0, chunk@.len() as int) =~= chunk@);
            assert(out@ + decode_symbols(t0, chunk@) =~= decode_symbols(t0, chunk@));
        }
        while i < chunk.len()
            invariant
                i <= chunk@.len(),
                self.r == r1,
                self.mtf.symbols@.len() == 256,
                out@.len() == i,
                out@ + decode_symbols(self.mtf.symbols@, chunk@.subrange(i as int, chunk@.len() as int))
                    == decode_symbols(t0, chunk@),
                decode_table(self.mtf.symbols@, chunk@.subrange(i as int, chunk@.len() as int))
                    == decode_table(t0, chunk@),
            decreases chunk.len() - i,
        {
            let ghost t = self.mtf.symbols@;
            let ghost rest = chunk@.subrange(i as int, chunk@.len() as int);
            let sym = self.mtf.decode(chunk[i]);
            proof {
                assert(rest[0] == chunk@[i as int]);
                assert(rest.drop_first() =~= chunk@.subrange(i + 1, chunk@.len() as int));
                assert(out@.push(sym) + decode_symbols(self.mtf.symbols@, rest.drop_first())
                    =~= out@ + decode_symbols(t, rest));
            }
            out.push(sym);
            i += 1;
        }
        proof {
            assert(chunk@.subrange(chunk@.len() as int, chunk@.len() as int) =~= Seq::<u8>::empty());
            assert(out@ =~= out@ + Seq::<u8>::empty());
        }
        Ok(out)
    }

    /// Decode every rank left in the source.
    pub fn read_to_end(&mut self) -> (r: Result<Vec<u8>, IoFailure>)
        ensures
            final(self).source().reliable() == old(self).source().reliable(),
            old(self).source().reliable() ==> r is Ok,
            r matches Ok(out) ==> {
                &&& out@ == decode_symbols(old(self).table(), old(self).source().remaining())
                &&& final(self).table() == decode_table(
                    old(self).table(),
                    old(self).source().remaining(),
                )
                &&& final(self).source().remaining().len() == 0
            },
    {
        let ghost t0 = self.table();
        let ghost rem0 = self.r.remaining();
        let mut out: Vec<u8> = Vec::new();
        assert(out@ + decode_symbols(t0, rem0) =~= decode_symbols(t0, rem0));
        loop
            invariant
                self.r.reliable() == old(self).r.reliable(),
                out@ + decode_symbols(self.table(), self.r.remaining()) == decode_symbols(t0, rem0),
                decode_table(self.table(), self.r.remaining()) == decode_table(t0, rem0),
            ensures
                self.r.remaining().len() == 0,
            decreases self.r.remaining().len(),
        {
            let ghost t = self.table();
            let ghost rem = self.r.remaining();
            let part = match self.read(256) {
                Ok(p) => p,
                Err(e) => {
                    return Err(e);
                },
            };
            if part.len() == 0 {
                proof {
                    assert(rem =~= Seq::<u8>::empty());
                }
                break;
            }
            proof {
                let k = part@.len() as int;
                assert(rem =~= rem.subrange(0, k) + rem.subrange(k, rem.len() as int));
                lemma_decode_append(t, rem.subrange(0, k), rem.subrange(k, rem.len() as int));
                assert(out@ + part@ + decode_symbols(self.table(), self.r.remaining())
                    =~= out@ + decode_symbols(t, rem));
            }
            let mut j: usize = 0;
            let ghost out_before = out@;
            while j < part.len()
                invariant
                    j <= part@.len(),
                    out@ == out_before + part@.subrange(0, j as int),
                decreases part.len() - j,
            {
                out.push(part[j]);
                j += 1;
                assert(out@ =~= out_before + part@.subrange(0, j as int));
            }
            assert(part@.subrange(0, part@.len() as int) =~= part@);
        }
        proof {
            assert(out@ =~= out@ + Seq::<u8>::empty());
        }
        Ok(out)
    }
}

} // verus!
