//! Cyclic redundancy check, CRC-32 with the reflected polynomial used by gzip.
use vstd::prelude::*;
use crate::shared::{ByteSource, IoFailure};

verus! {

/// The reflected CRC-32 polynomial.
pub const POLY: u32 = 0xedb8_8320;

/// One bit-reduction step of the table construction.
pub open spec fn reduce_step(c: u32) -> u32 {
    if c & 1 != 0 {
        POLY ^ (c >> 1)
    } else {
        c >> 1
    }
}

/// `k` bit-reduction steps applied to `c`.
pub open spec fn reduce_steps(c: u32, k: nat) -> u32
    decreases k,
{
    if k == 0 {
        c
    } else {
        reduce_step(reduce_steps(c, (k - 1) as nat))
    }
}

/// The table entry for byte value `n`: eight reduction steps.
pub open spec fn table_entry(n: u32) -> u32 {
    reduce_steps(n, 8)
}

/// The register after one byte, with table `t`.
pub open spec fn feed_byte(t: Seq<u32>, c: u32, b: u8) -> u32 {
    t[((c ^ (b as u32)) & 0xff) as int] ^ (c >> 8)
}

/// The register after feeding `s`, left to right, from `c`.
pub open spec fn feed_seq(t: Seq<u32>, c: u32, s: Seq<u8>) -> u32
    decreases s.len(),
{
    if s.len() == 0 {
        c
    } else {
        feed_byte(t, feed_seq(t, c, s.drop_last()), s.last())
    }
}

/// The initial register value.
pub const SEED: u32 = 0xffff_ffff;

/// The checksum of `s` as gzip defines it.
pub open spec fn crc32_of(t: Seq<u32>, s: Seq<u8>) -> u32 {
    feed_seq(t, SEED, s) ^ SEED
}

/// The checksum of empty input is zero, whatever the table.
pub proof fn lemma_empty_checksum(t: Seq<u32>)
    ensures
        crc32_of(t, Seq::empty()) == 0,
{
    assert(SEED ^ SEED == 0) by (bit_vector);
}

/// A table entry as the exclusive or of the entries of its set bits.
pub open spec fn entry_by_bits(n: u32) -> u32 {
    (if n & 1 != 0 { 0x7707_3096u32 } else { 0u32 })
    ^ (if n & 2 != 0 { 0xee0e_612cu32 } else { 0u32 })
    ^ (if n & 4 != 0 { 0x076d_c419u32 } else { 0u32 })
    ^ (if n & 8 != 0 { 0x0edb_8832u32 } else { 0u32 })
    ^ (if n & 16 != 0 { 0x1db7_1064u32 } else { 0u32 })
    ^ (if n & 32 != 0 { 0x3b6e_20c8u32 } else { 0u32 })
    ^ (if n & 64 != 0 { 0x76dc_4190u32 } else { 0u32 })
    ^ (if n & 128 != 0 { 0xedb8_8320u32 } else { 0u32 })
}

/// The table entries are linear in the index: each is the exclusive or of
/// the entries of its set bits.
pub proof fn lemma_table_entry_by_bits(n: u32)
    requires
        n < 256,
    ensures
        table_entry(n) == entry_by_bits(n),
{
    reveal_with_fuel(reduce_steps, 9);
    let s1 = reduce_step(n);
    let s2 = reduce_step(s1);
    let s3 = reduce_step(s2);
    let s4 = reduce_step(s3);
    let s5 = reduce_step(s4);
    let s6 = reduce_step(s5);
    let s7 = reduce_step(s6);
    let s8 = reduce_step(s7);
    assert(s8 == (if n & 1 != 0 { 0x7707_3096u32 } else { 0u32 })
        ^ (if n & 2 != 0 { 0xee0e_612cu32 } else { 0u32 })
        ^ (if n & 4 != 0 { 0x076d_c419u32 } else { 0u32 })
        ^ (if n & 8 != 0 { 0x0edb_8832u32 } else { 0u32 })
        ^ (if n & 16 != 0 { 0x1db7_1064u32 } else { 0u32 })
        ^ (if n & 32 != 0 { 0x3b6e_20c8u32 } else { 0u32 })
        ^ (if n & 64 != 0 { 0x76dc_4190u32 } else { 0u32 })
        ^ (if n & 128 != 0 { 0xedb8_8320u32 } else { 0u32 })) by (bit_vector)
        requires
            n < 256,
            s1 == (if n & 1 != 0 { POLY ^ (n >> 1) } else { n >> 1 }),
            s2 == (if s1 & 1 != 0 { POLY ^ (s1 >> 1) } else { s1 >> 1 }),
            s3 == (if s2 & 1 != 0 { POLY ^ (s2 >> 1) } else { s2 >> 1 }),
            s4 == (if s3 & 1 != 0 { POLY ^ (s3 >> 1) } else { s3 >> 1 }),
            s5 == (if s4 & 1 != 0 { POLY ^ (s4 >> 1) } else { s4 >> 1 }),
            s6 == (if s5 & 1 != 0 { POLY ^ (s5 >> 1) } else { s5 >> 1 }),
            s7 == (if s6 & 1 != 0 { POLY ^ (s6 >> 1) } else { s6 >> 1 }),
            s8 == (if s7 & 1 != 0 { POLY ^ (s7 >> 1) } else { s7 >> 1 }),
    ;
}

/// The checksum is sensitive to order: for two distinct bytes, `[a, b]` and
/// `[b, a]` have different checksums.
pub proof fn lemma_order_sensitive(tab: &Table32, a: u8, b: u8)
    requires
        tab.wf(),
        a != b,
    ensures
        crc32_of(tab.entries(), seq![a, b]) != crc32_of(tab.entries(), seq![b, a]),
{
    let t = tab.entries();
    // The register after each order: one table lookup per byte, each entry
    // in its linear form. A bit-vector query then compares the two.
    let ia: u32 = (SEED ^ (a as u32)) & 0xff;
    let ja: u32 = (SEED ^ (b as u32)) & 0xff;
    assert(ia < 256 && ja < 256) by (bit_vector)
        requires
            ia == (0xffff_ffffu32 ^ (a as u32)) & 0xff,
            ja == (0xffff_ffffu32 ^ (b as u32)) & 0xff,
    ;
    lemma_table_entry_by_bits(ia);
    lemma_table_entry_by_bits(ja);
    let c1: u32 = t[ia as int] ^ (SEED >> 8);
    let d1: u32 = t[ja as int] ^ (SEED >> 8);
    let ib: u32 = (c1 ^ (b as u32)) & 0xff;
    let jb: u32 = (d1 ^ (a as u32)) & 0xff;
    assert(ib < 256 && jb < 256) by (bit_vector)
        requires
            ib == (c1 ^ (b as u32)) & 0xff,
            jb == (d1 ^ (a as u32)) & 0xff,
    ;
    lemma_table_entry_by_bits(ib);
    lemma_table_entry_by_bits(jb);
    let ta = t[ia as int];
    let tb = t[ib as int];
    let ua = t[ja as int];
    let ub = t[jb as int];
    let c2: u32 = tb ^ (c1 >> 8);
    let d2: u32 = ub ^ (d1 >> 8);
    reveal_with_fuel(feed_seq, 3);
    assert(seq![a, b].drop_last() =~= seq![a]);
    assert(seq![a].drop_last() =~= Seq::<u8>::empty());
    assert(seq![b, a].drop_last() =~= seq![b]);
    assert(seq![b].drop_last() =~= Seq::<u8>::empty());
    assert(seq![a, b].last() == b && seq![a].last() == a);
    assert(seq![b, a].last() == a && seq![b].last() == b);
    assert(feed_seq(t, SEED, seq![a, b]) == c2);
    assert(feed_seq(t, SEED, seq![b, a]) == d2);
    assert(c2 != d2) by (bit_vector)
        requires
            a != b,
            ia == (0xffff_ffffu32 ^ (a as u32)) & 0xff,
            ja == (0xffff_ffffu32 ^ (b as u32)) & 0xff,
            ta == (if ia & 1 != 0 { 0x7707_3096u32 } else { 0u32 })
                ^ (if ia & 2 != 0 { 0xee0e_612cu32 } else { 0u32 })
                ^ (if ia & 4 != 0 { 0x076d_c419u32 } else { 0u32 })
                ^ (if ia & 8 != 0 { 0x0edb_8832u32 } else { 0u32 })
                ^ (if ia & 16 != 0 { 0x1db7_1064u32 } else { 0u32 })
                ^ (if ia & 32 != 0 { 0x3b6e_20c8u32 } else { 0u32 })
                ^ (if ia & 64 != 0 { 0x76dc_4190u32 } else { 0u32 })
                ^ (if ia & 128 != 0 { 0xedb8_8320u32 } else { 0u32 }),
            ua == (if ja & 1 != 0 { 0x7707_3096u32 } else { 0u32 })
                ^ (if ja & 2 != 0 { 0xee0e_612cu32 } else { 0u32 })
                ^ (if ja & 4 != 0 { 0x076d_c419u32 } else { 0u32 })
                ^ (if ja & 8 != 0 { 0x0edb_8832u32 } else { 0u32 })
                ^ (if ja & 16 != 0 { 0x1db7_1064u32 } else { 0u32 })
                ^ (if ja & 32 != 0 { 0x3b6e_20c8u32 } else { 0u32 })
                ^ (if ja & 64 != 0 { 0x76dc_4190u32 } else { 0u32 })
                ^ (if ja & 128 != 0 { 0xedb8_8320u32 } else { 0u32 }),
            c1 == ta ^ (0xffff_ffffu32 >> 8),
            d1 == ua ^ (0xffff_ffffu32 >> 8),
            ib == (c1 ^ (b as u32)) & 0xff,
            jb == (d1 ^ (a as u32)) & 0xff,
            tb == (if ib & 1 != 0 { 0x7707_3096u32 } else { 0u32 })
                ^ (if ib & 2 != 0 { 0xee0e_612cu32 } else { 0u32 })
                ^ (if ib & 4 != 0 { 0x076d_c419u32 } else { 0u32 })
                ^ (if ib & 8 != 0 { 0x0edb_8832u32 } else { 0u32 })
                ^ (if ib & 16 != 0 { 0x1db7_1064u32 } else { 0u32 })
                ^ (if ib & 32 != 0 { 0x3b6e_20c8u32 } else { 0u32 })
                ^ (if ib & 64 != 0 { 0x76dc_4190u32 } else { 0u32 })
                ^ (if ib & 128 != 0 { 0xedb8_8320u32 } else { 0u32 }),
            ub == (if jb & 1 != 0 { 0x7707_3096u32 } else { 0u32 })
                ^ (if jb & 2 != 0 { 0xee0e_612cu32 } else { 0u32 })
                ^ (if jb & 4 != 0 { 0x076d_c419u32 } else { 0u32 })
                ^ (if jb & 8 != 0 { 0x0edb_8832u32 } else { 0u32 })
                ^ (if jb & 16 != 0 { 0x1db7_1064u32 } else { 0u32 })
                ^ (if jb & 32 != 0 { 0x3b6e_20c8u32 } else { 0u32 })
                ^ (if jb & 64 != 0 { 0x76dc_4190u32 } else { 0u32 })
                ^ (if jb & 128 != 0 { 0xedb8_8320u32 } else { 0u32 }),
            c2 == tb ^ (c1 >> 8),
            d2 == ub ^ (d1 >> 8),
    ;
    assert((c2 ^ SEED) != (d2 ^ SEED)) by (bit_vector)
        requires
            c2 != d2,
    ;
}

/// A table required for efficient CRC computation. It is immutable and can be
/// shared by any number of states.
pub struct Table32 {
    table: [u32; 256],
}

impl Table32 {
    pub closed spec fn entries(&self) -> Seq<u32> {
        self.table@
    }

    /// The table is exactly the 256 entries of the polynomial.
    pub open spec fn wf(&self) -> bool {
        &&& self.entries().len() == 256
        &&& forall|n: int| 0 <= n < 256 ==> #[trigger] self.entries()[n] == table_entry(n as u32)
    }

    /// The table has exactly 256 entries.
    pub proof fn lemma_table_has_256_entries(&self)
        ensures
            self.entries().len() == 256,
    {
    }

    /// Initialise a CRC table.
    pub fn new() -> (r: Table32)
        ensures
            r.wf(),
    {
        let mut table: [u32; 256] = [0u32; 256];
        let mut n: usize = 0;
        while n < 256
            invariant
                n <= 256,
                forall|i: int| 0 <= i < n ==> #[trigger] table@[i] == table_entry(i as u32),
            decreases 256 - n,
        {
            let mut c: u32 = n as u32;
            let mut k: u32 = 0;
            while k < 8
                invariant
                    k <= 8,
                    n < 256,
                    c == reduce_steps(n as u32, k as nat),
                decreases 8 - k,
            {
                c = if c & 1 != 0 {
                    POLY ^ (c >> 1)
                } else {
                    c >> 1
                };
                k += 1;
            }
            table[n] = c;
            n += 1;
        }
        Table32 { table }
    }
}

/// State used during checksum calculation.
pub struct State32<'a> {
    crc: u32,
    table: &'a Table32,
}

impl<'a> State32<'a> {
    /// The current register value.
    pub closed spec fn register(&self) -> u32 {
        self.crc
    }

    /// The table this state reads.
    pub closed spec fn table_entries(&self) -> Seq<u32> {
        self.table.entries()
    }

    pub closed spec fn wf(&self) -> bool {
        self.table.wf()
    }

    /// Create a new state for calculating a CRC.
    pub fn new(table: &'a Table32) -> (r: State32<'a>)
        requires
            table.wf(),
        ensures
            r.wf(),
            r.register() == SEED,
            r.table_entries() == table.entries(),
    {
        State32 { crc: SEED, table }
    }

    /// Get checksum.
    pub fn crc32(&self) -> (r: u32)
        ensures
            r == self.register() ^ SEED,
    {
        self.crc ^ SEED
    }

    /// Reset CRC (a new CRC starts with the next byte fed).
    pub fn reset(&mut self)
        ensures
            final(self).register() == SEED,
            final(self).table_entries() == old(self).table_entries(),
            final(self).wf() == old(self).wf(),
    {
        self.crc = SEED;
    }

    /// Feed the CRC-calculator with more data.
    pub fn feed(&mut self, buf: &[u8])
        requires
            old(self).wf(),
        ensures
            final(self).wf(),
            final(self).register() == feed_seq(old(self).table_entries(), old(self).register(), buf@),
            final(self).table_entries() == old(self).table_entries(),
    {
        let mut c = self.crc;
        let mut n: usize = 0;
        while n < buf.len()
            invariant
                self.wf(),
                n <= buf@.len(),
                c == feed_seq(self.table_entries(), self.register(), buf@.subrange(0, n as int)),
            decreases buf.len() - n,
        {
            proof {
                assert(buf@.subrange(0, n + 1).drop_last() =~= buf@.subrange(0, n as int));
            }
            let b = buf[n];
            let m: u32 = (c ^ b as u32) & 0xff;
            assert(m < 256) by (bit_vector)
                requires
                    m == (c ^ b as u32) & 0xff,
            ;
            let idx = m as usize;
            c = self.table.table[idx] ^ (c >> 8);
            n += 1;
        }
        assert(buf@.subrange(0, buf@.len() as int) =~= buf@);
        self.crc = c;
    }
}

/// A reader which calculates a checksum of everything it delivers.
pub struct Reader32<'a, R> {
    inner: R,
    state: State32<'a>,
}

impl<'a, R: ByteSource> Reader32<'a, R> {
    /// The wrapped source.
    pub closed spec fn inner(&self) -> R {
        self.inner
    }

    /// The checksum state.
    pub closed spec fn state(&self) -> State32<'a> {
        self.state
    }

    /// Wrap `reader`, starting a fresh checksum.
    pub fn new(reader: R, table: &'a Table32) -> (r: Reader32<'a, R>)
        requires
            table.wf(),
        ensures
            r.inner() == reader,
            r.state().wf(),
            r.state().register() == SEED,
            r.state().table_entries() == table.entries(),
    {
        Reader32 { inner: reader, state: State32::new(table) }
    }

    /// Get checksum.
    pub fn crc32(&self) -> (r: u32)
        ensures
            r == self.state().register() ^ SEED,
    {
        self.state.crc32()
    }

    /// Reset CRC (a new CRC starts with the next read).
    pub fn reset(&mut self)
        ensures
            final(self).inner() == old(self).inner(),
            final(self).state().register() == SEED,
            final(self).state().table_entries() == old(self).state().table_entries(),
            final(self).state().wf() == old(self).state().wf(),
    {
        self.state.reset()
    }

    /// Destroy self, returning the wrapped source.
    pub fn unwrap(self) -> (r: R)
        ensures
            r == self.inner(),
    {
        self.inner
    }

    /// Read from the wrapped source, feeding what it delivers to the checksum;
    /// short reads, the end of input and failures pass through unchanged.
    pub fn read(&mut self, max: usize) -> (r: Result<Vec<u8>, IoFailure>)
        requires
            old(self).state().wf(),
        ensures
            final(self).state().wf(),
            final(self).state().table_entries() == old(self).state().table_entries(),
            final(self).inner().reliable() == old(self).inner().reliable(),
            old(self).inner().reliable() ==> r is Ok,
            r matches Ok(v) ==> {
                &&& v@.len() <= max
                &&& old(self).inner().remaining() == v@ + final(self).inner().remaining()
                &&& (v@.len() == 0 <==> (max == 0 || old(self).inner().remaining().len() == 0))
                &&& final(self).state().register() == feed_seq(
                    old(self).state().table_entries(),
                    old(self).state().register(),
                    v@,
                )
            },
            r is Err ==> final(self).inner().remaining() == old(self).inner().remaining()
                && final(self).state() == old(self).state(),
    {
        let r = self.inner.read(max);
        match r {
            Ok(v) => {
                self.state.feed(v.as_slice());
                Ok(v)
            },
            Err(e) => Err(e),
        }
    }
}

} // verus!
