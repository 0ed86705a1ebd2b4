//! Gzip member framing: header parsing with its optional fields and header
//! checksum, and validation of each member's trailer against the checksum and
//! length of its decompressed body. The body itself is inflated by the caller,
//! which hands the decompressed bytes to the member.
use vstd::prelude::*;
use crate::crc::{crc32_of, feed_seq, State32, Table32, SEED};

verus! {

/// Errors of the gzip decoder.
#[derive(Debug, Clone, Copy, PartialEq, Eq)]
pub enum GzError {
    /// Bad magic bytes, an unsupported compression method, or reserved flag
    /// bits set.
    MalformedHeader,
    /// The stream ends inside a field of fixed or declared size.
    TruncatedInput,
    /// The header checksum, or the body's checksum or length, does not match.
    ChecksumMismatch,
}

/// A little-endian 16-bit value at `i`.
pub open spec fn le16(s: Seq<u8>, i: int) -> int {
    s[i] as int + 256 * s[i + 1] as int
}

/// A little-endian 32-bit value at `i`.
pub open spec fn le32(s: Seq<u8>, i: int) -> int {
    s[i] as int + 0x100 * s[i + 1] as int + 0x1_0000 * s[i + 2] as int + 0x100_0000 * s[
        i + 3
    ] as int
}

/// The first zero byte at or after `i`, or -1 where there is none.
pub open spec fn find_zero(s: Seq<u8>, i: int) -> int
    decreases s.len() - i,
{
    if i < 0 || i >= s.len() {
        -1
    } else if s[i] == 0 {
        i
    } else {
        find_zero(s, i + 1)
    }
}

/// Flag bits of the header.
pub const FHCRC: u8 = 2;
pub const FEXTRA: u8 = 4;
pub const FNAME: u8 = 8;
pub const FCOMMENT: u8 = 16;
pub const RESERVED: u8 = 0xe0;

/// Where the extra field ends (10 without one); -1 where the stream ends
/// inside it.
pub open spec fn extra_end(s: Seq<u8>) -> int {
    if s[3] & FEXTRA == 0 {
        10
    } else if s.len() < 12 {
        -1
    } else if 12 + le16(s, 10) > s.len() {
        -1
    } else {
        12 + le16(s, 10)
    }
}

/// Where a zero-terminated field that starts at `i` ends, its terminator
/// included (`i` itself where the field is absent); -1 where the stream ends
/// first, or already ended before `i`.
pub open spec fn field_end(s: Seq<u8>, present: bool, i: int) -> int {
    if i < 0 {
        -1
    } else if !present {
        i
    } else if find_zero(s, i) < 0 {
        -1
    } else {
        find_zero(s, i) + 1
    }
}

pub open spec fn name_end(s: Seq<u8>) -> int {
    field_end(s, s[3] & FNAME != 0, extra_end(s))
}

pub open spec fn comment_end(s: Seq<u8>) -> int {
    field_end(s, s[3] & FCOMMENT != 0, name_end(s))
}

/// Where the header ends; -1 where the stream ends inside it.
pub open spec fn header_end(s: Seq<u8>) -> int {
    if comment_end(s) < 0 {
        -1
    } else if s[3] & FHCRC == 0 {
        comment_end(s)
    } else if comment_end(s) + 2 > s.len() {
        -1
    } else {
        comment_end(s) + 2
    }
}

pub open spec fn file_name_of(s: Seq<u8>) -> Seq<u8> {
    if s[3] & FNAME != 0 {
        s.subrange(extra_end(s), name_end(s) - 1)
    } else {
        Seq::empty()
    }
}

pub open spec fn file_comment_of(s: Seq<u8>) -> Seq<u8> {
    if s[3] & FCOMMENT != 0 {
        s.subrange(name_end(s), comment_end(s) - 1)
    } else {
        Seq::empty()
    }
}

/// The outcome of reading a member header from `s`, with CRC table `t`:
/// `Ok(None)` where the stream is exhausted, else the file name, the file
/// comment and the header's length.
pub open spec fn header_outcome(t: Seq<u32>, s: Seq<u8>) -> Result<
    Option<(Seq<u8>, Seq<u8>, int)>,
    GzError,
> {
    if s.len() == 0 {
        Ok(None)
    } else if s.len() < 10 {
        Err(GzError::TruncatedInput)
    } else if s[0] != 0x1f || s[1] != 0x8b || s[2] != 8 || s[3] & RESERVED != 0 {
        Err(GzError::MalformedHeader)
    } else if header_end(s) < 0 {
        Err(GzError::TruncatedInput)
    } else if s[3] & FHCRC != 0 && (crc32_of(t, s.subrange(0, comment_end(s))) & 0xffff) as int
        != le16(s, comment_end(s)) {
        Err(GzError::ChecksumMismatch)
    } else {
        Ok(Some((file_name_of(s), file_comment_of(s), header_end(s))))
    }
}

/// The outcome of reading a trailer that follows a body of `body_len` raw
/// bytes in `s`, for a body whose checksum is `crc` and whose length modulo
/// 2^32 is `len`.
pub open spec fn trailer_outcome(s: Seq<u8>, body_len: int, crc: u32, len: u32) -> Result<
    (),
    GzError,
> {
    if body_len + 8 > s.len() {
        Err(GzError::TruncatedInput)
    } else if le32(s, body_len) != crc as int || le32(s, body_len + 4) != len as int {
        Err(GzError::ChecksumMismatch)
    } else {
        Ok(())
    }
}

/// A zero found in `m` is found in the same place when more bytes follow.
pub proof fn lemma_find_zero_prefix(m: Seq<u8>, y: Seq<u8>, i: int)
    requires
        find_zero(m, i) >= 0,
    ensures
        find_zero(m + y, i) == find_zero(m, i),
        i <= find_zero(m, i) < m.len(),
    decreases m.len() - i,
{
    if i >= 0 && i < m.len() && m[i] != 0 {
        lemma_find_zero_prefix(m, y, i + 1);
    }
}

/// A complete header reads the same whatever follows it.
pub proof fn lemma_header_prefix(t: Seq<u32>, m: Seq<u8>, y: Seq<u8>)
    requires
        header_outcome(t, m) is Ok,
        header_outcome(t, m)->Ok_0 is Some,
    ensures
        header_outcome(t, m + y) == header_outcome(t, m),
        0 <= header_end(m) <= m.len(),
{
    let s = m + y;
    assert(forall|i: int| 0 <= i < m.len() ==> s[i] == m[i]);
    let f = m[3];
    assert(s[3] == f);
    assert(extra_end(s) == extra_end(m));
    let e = extra_end(m);
    if f & FNAME != 0 {
        lemma_find_zero_prefix(m, y, e);
    }
    assert(name_end(s) == name_end(m));
    let n = name_end(m);
    if f & FCOMMENT != 0 {
        lemma_find_zero_prefix(m, y, n);
    }
    assert(comment_end(s) == comment_end(m));
    let c = comment_end(m);
    assert(header_end(s) == header_end(m));
    assert(s.subrange(0, c) =~= m.subrange(0, c));
    if f & FNAME != 0 {
        assert(file_name_of(s) =~= file_name_of(m));
    }
    if f & FCOMMENT != 0 {
        assert(file_comment_of(s) =~= file_comment_of(m));
    }
}

/// `m` is one whole member: a complete header, a compressed body of
/// `body_len` bytes, and a trailer that matches a decompressed body with
/// checksum `crc` and length `len`.
pub open spec fn is_member(t: Seq<u32>, m: Seq<u8>, body_len: int, crc: u32, len: u32) -> bool {
    &&& header_outcome(t, m) is Ok
    &&& header_outcome(t, m)->Ok_0 is Some
    &&& body_len >= 0
    &&& header_end(m) + body_len + 8 == m.len()
    &&& trailer_outcome(m.subrange(header_end(m), m.len() as int), body_len, crc, len) == Ok::<
        (),
        GzError,
    >(())
}

/// Two members in a row read as two members, and then the stream is
/// exhausted: the first header and trailer read as they do alone, what follows
/// the first trailer is the second member, and after the second trailer
/// nothing is left.
pub proof fn lemma_two_members(
    t: Seq<u32>,
    m1: Seq<u8>,
    b1: int,
    crc1: u32,
    len1: u32,
    m2: Seq<u8>,
    b2: int,
    crc2: u32,
    len2: u32,
)
    requires
        is_member(t, m1, b1, crc1, len1),
        is_member(t, m2, b2, crc2, len2),
    ensures
        header_outcome(t, m1 + m2) == header_outcome(t, m1),
        trailer_outcome((m1 + m2).subrange(header_end(m1), (m1 + m2).len() as int), b1, crc1, len1)
            == Ok::<(), GzError>(()),
        (m1 + m2).subrange(header_end(m1), (m1 + m2).len() as int).subrange(
            b1 + 8,
            (m1 + m2).len() - header_end(m1),
        ) == m2,
        header_outcome(t, m2.subrange(header_end(m2), m2.len() as int).subrange(
            b2 + 8,
            m2.len() - header_end(m2),
        )) == Ok::<Option<(Seq<u8>, Seq<u8>, int)>, GzError>(None),
{
    lemma_header_prefix(t, m1, m2);
    let h = header_end(m1);
    let s = m1 + m2;
    let r = s.subrange(h, s.len() as int);
    let r1 = m1.subrange(h, m1.len() as int);
    assert(forall|i: int| 0 <= i < r1.len() ==> r[i] == r1[i]);
    assert(r[b1] == r1[b1] && r[b1 + 1] == r1[b1 + 1] && r[b1 + 2] == r1[b1 + 2] && r[b1 + 3]
        == r1[b1 + 3]);
    assert(r[b1 + 4] == r1[b1 + 4] && r[b1 + 5] == r1[b1 + 5] && r[b1 + 6] == r1[b1 + 6] && r[b1
        + 7] == r1[b1 + 7]);
    assert(r.subrange(b1 + 8, s.len() - h) =~= m2);
    let r2 = m2.subrange(header_end(m2), m2.len() as int);
    assert(r2.subrange(b2 + 8, m2.len() - header_end(m2)) =~= Seq::<u8>::empty());
}

/// A stream of at least ten bytes that does not begin with the gzip magic is
/// malformed.
pub proof fn lemma_bad_magic_is_malformed(t: Seq<u32>, s: Seq<u8>)
    requires
        s.len() >= 10,
        s[0] != 0x1f || s[1] != 0x8b,
    ensures
        header_outcome(t, s) == Err::<Option<(Seq<u8>, Seq<u8>, int)>, GzError>(
            GzError::MalformedHeader,
        ),
{
}

/// A header of at least ten bytes with any reserved flag bit set is malformed.
pub proof fn lemma_reserved_flags_are_malformed(t: Seq<u32>, s: Seq<u8>)
    requires
        s.len() >= 10,
        s[3] & RESERVED != 0,
    ensures
        header_outcome(t, s) == Err::<Option<(Seq<u8>, Seq<u8>, int)>, GzError>(
            GzError::MalformedHeader,
        ),
{
}

/// A complete trailer whose checksum field differs from the checksum of the
/// decompressed body is a checksum mismatch.
pub proof fn lemma_trailer_crc_mismatch(s: Seq<u8>, body_len: int, crc: u32, len: u32)
    requires
        0 <= body_len,
        body_len + 8 <= s.len(),
        le32(s, body_len) != crc as int,
    ensures
        trailer_outcome(s, body_len, crc, len) == Err::<(), GzError>(GzError::ChecksumMismatch),
{
}

/// The index of the first zero byte at or after `from` in `data[base..]`,
/// relative to `base`.
fn scan_zero(data: &Vec<u8>, base: usize, from: usize) -> (r: Option<usize>)
    requires
        base <= data@.len(),
    ensures
        r is None <==> find_zero(data@.subrange(base as int, data@.len() as int), from as int) < 0,
        r matches Some(z) ==> z as int == find_zero(
            data@.subrange(base as int, data@.len() as int),
            from as int,
        ) && from <= z < data@.len() - base,
{
    let ghost s = data@.subrange(base as int, data@.len() as int);
    let n = data.len() - base;
    let mut i = from;
    while i < n
        invariant
            base + n == data@.len(),
            data@.len() <= usize::MAX,
            s.len() == n,
            from <= i,
            s == data@.subrange(base as int, data@.len() as int),
            find_zero(s, from as int) == find_zero(s, i as int),
        decreases n - i,
    {
        if data[base + i] == 0 {
            assert(s[i as int] == 0);
            return Some(i);
        }
        i += 1;
    }
    None
}

/// A copy of `data[a..b]`.
fn copy_range(data: &Vec<u8>, a: usize, b: usize) -> (r: Vec<u8>)
    requires
        a <= b <= data@.len(),
    ensures
        r@ == data@.subrange(a as int, b as int),
{
    let mut out: Vec<u8> = Vec::new();
    let mut i = a;
    while i < b
        invariant
            a <= i <= b,
            b <= data@.len(),
            out@ == data@.subrange(a as int, i as int),
        decreases b - i,
    {
        out.push(data[i]);
        i += 1;
        assert(out@ =~= data@.subrange(a as int, i as int));
    }
    out
}

/// Read a zero-terminated field of `data[base..]` that starts at `p`, where
/// `present`; returns its bytes and where it ends.
fn zero_field(data: &Vec<u8>, base: usize, p: usize, present: bool) -> (r: Result<
    (Vec<u8>, usize),
    GzError,
>)
    requires
        base <= data@.len(),
        p <= data@.len() - base,
    ensures
        ({
            let s = data@.subrange(base as int, data@.len() as int);
            let e = field_end(s, present, p as int);
            &&& e < 0 ==> r == Err::<(Vec<u8>, usize), GzError>(GzError::TruncatedInput)
            &&& e >= 0 ==> (r matches Ok((v, q)) && q as int == e && q <= s.len() && v@ == (
            if present {
                s.subrange(p as int, e - 1)
            } else {
                Seq::empty()
            }))
        }),
{
    let ghost s = data@.subrange(base as int, data@.len() as int);
    let _len = data.len();
    if !present {
        return Ok((Vec::new(), p));
    }
    match scan_zero(data, base, p) {
        None => Err(GzError::TruncatedInput),
        Some(z) => {
            let v = copy_range(data, base + p, base + z);
            assert(v@ =~= s.subrange(p as int, z as int));
            Ok((v, z + 1))
        },
    }
}

/// Decodes a gzip stream held in memory, one member at a time.
pub struct Decoder<'a> {
    crc_table: &'a Table32,
    data: Vec<u8>,
    pos: usize,
    in_member: bool,
}

/// The header of one member, and the running checksum and length of its body.
pub struct Member<'a> {
    /// File name (may be empty). In theory ISO 8859-1 encoded; in practice
    /// often UTF-8.
    pub file_name: Vec<u8>,
    /// File comment (may be empty), encoded as the file name.
    pub file_comment: Vec<u8>,
    crc: State32<'a>,
    len: u32,
}

impl<'a> Member<'a> {
    /// The file name.
    pub closed spec fn name(&self) -> Seq<u8> {
        self.file_name@
    }

    /// The file comment.
    pub closed spec fn comment(&self) -> Seq<u8> {
        self.file_comment@
    }

    /// The checksum register over the body fed so far.
    pub closed spec fn register(&self) -> u32 {
        self.crc.register()
    }

    /// The table the checksum reads.
    pub closed spec fn table_entries(&self) -> Seq<u32> {
        self.crc.table_entries()
    }

    /// The length of the body fed so far, modulo 2^32.
    pub closed spec fn length(&self) -> u32 {
        self.len
    }

    pub closed spec fn wf(&self) -> bool {
        self.crc.wf()
    }

    /// Take the next decompressed bytes of the body into the checksum and the
    /// length.
    pub fn feed(&mut self, buf: &[u8])
        requires
            old(self).wf(),
        ensures
            final(self).wf(),
            final(self).name() == old(self).name(),
            final(self).comment() == old(self).comment(),
            final(self).table_entries() == old(self).table_entries(),
            final(self).register() == feed_seq(old(self).table_entries(), old(self).register(), buf@),
            final(self).length() as int == (old(self).length() as int + buf@.len()) % 0x1_0000_0000,
    {
        self.crc.feed(buf);
        let n = (buf.len() as u64 % 0x1_0000_0000) as u32;
        self.len = self.len.wrapping_add(n);
    }

    /// The checksum of the body fed so far.
    pub fn crc32(&self) -> (r: u32)
        ensures
            r == self.register() ^ SEED,
    {
        self.crc.crc32()
    }
}

impl<'a> Decoder<'a> {
    /// The bytes of the stream not yet consumed.
    pub closed spec fn rest(&self) -> Seq<u8> {
        self.data@.subrange(self.pos as int, self.data@.len() as int)
    }

    /// The CRC table in use.
    pub closed spec fn table_entries(&self) -> Seq<u32> {
        self.crc_table.entries()
    }

    /// A member is open: its body and trailer come next.
    pub closed spec fn member_open(&self) -> bool {
        self.in_member
    }

    pub closed spec fn wf(&self) -> bool {
        &&& self.pos <= self.data@.len()
        &&& self.crc_table.wf()
    }

    /// A decoder for the gzip stream `data`, which uses an existing CRC table.
    pub fn new_with_crc(data: Vec<u8>, crc_table: &'a Table32) -> (r: Decoder<'a>)
        requires
            crc_table.wf(),
        ensures
            r.wf(),
            r.rest() == data@,
            r.table_entries() == crc_table.entries(),
            !r.member_open(),
    {
        let r = Decoder { crc_table, data, pos: 0, in_member: false };
        assert(r.rest() =~= data@);
        r
    }

    /// Destroys this decoder, returning the bytes not yet consumed.
    pub fn unwrap(self) -> (r: Vec<u8>)
        requires
            self.wf(),
        ensures
            r@ == self.rest(),
    {
        copy_range(&self.data, self.pos, self.data.len())
    }

    /// Tests if the whole stream has been consumed.
    pub fn eof(&self) -> (r: bool)
        requires
            self.wf(),
        ensures
            r <==> self.rest().len() == 0,
    {
        self.pos >= self.data.len()
    }

    /// The whole stream, and where its unconsumed part starts: an open
    /// member's compressed body begins there.
    pub fn stream(&self) -> (r: (&[u8], usize))
        requires
            self.wf(),
        ensures
            r.1 <= r.0@.len(),
            r.0@.subrange(r.1 as int, r.0@.len() as int) == self.rest(),
    {
        (self.data.as_slice(), self.pos)
    }

    /// Read the next member's header. `Ok(None)` where the stream is
    /// exhausted; that is the normal end of a stream.
    pub fn member(&mut self) -> (r: Result<Option<Member<'a>>, GzError>)
        requires
            old(self).wf(),
            !old(self).member_open(),
        ensures
            final(self).wf(),
            final(self).table_entries() == old(self).table_entries(),
            match header_outcome(old(self).table_entries(), old(self).rest()) {
                Ok(None) => r matches Ok(None) && final(self).rest() == old(self).rest()
                    && !final(self).member_open(),
                Ok(Some(h)) => r matches Ok(Some(m)) && {
                    &&& m.wf()
                    &&& m.name() == h.0
                    &&& m.comment() == h.1
                    &&& m.register() == SEED
                    &&& m.length() == 0
                    &&& m.table_entries() == old(self).table_entries()
                    &&& 0 <= h.2 <= old(self).rest().len()
                    &&& final(self).rest() == old(self).rest().subrange(
                        h.2,
                        old(self).rest().len() as int,
                    )
                    &&& final(self).member_open()
                },
                Err(e) => r == Err::<Option<Member<'a>>, GzError>(e) && !final(self).member_open(),
            },
    {
        let ghost s = self.rest();
        let ghost t = self.table_entries();
        let b = self.pos;
        let n = self.data.len() - b;
        assert(s.len() == n);
        if n == 0 {
            return Ok(None);
        }
        if n < 10 {
            return Err(GzError::TruncatedInput);
        }
        assert(s[0] == self.data@[b as int] && s[1] == self.data@[b + 1] && s[2] == self.data@[b
            + 2] && s[3] == self.data@[b + 3]);
        if self.data[b] != 0x1f || self.data[b + 1] != 0x8b || self.data[b + 2] != 8 || self.data[b
            + 3] & RESERVED != 0 {
            return Err(GzError::MalformedHeader);
        }
        let flg = self.data[b + 3];
        let mut p: usize = 10;
        if flg & FEXTRA != 0 {
            if n < 12 {
                return Err(GzError::TruncatedInput);
            }
            let xlen = self.data[b + 10] as usize + 256 * self.data[b + 11] as usize;
            if xlen > n - 12 {
                return Err(GzError::TruncatedInput);
            }
            assert(s[10] == self.data@[b + 10] && s[11] == self.data@[b + 11]);
            p = 12 + xlen;
        }
        assert(p as int == extra_end(s));
        let (file_name, q) = match zero_field(&self.data, b, p, flg & FNAME != 0) {
            Err(e) => {
                return Err(e);
            },
            Ok(f) => f,
        };
        p = q;
        assert(p as int == name_end(s));
        let (file_comment, q) = match zero_field(&self.data, b, p, flg & FCOMMENT != 0) {
            Err(e) => {
                return Err(e);
            },
            Ok(f) => f,
        };
        p = q;
        assert(p as int == comment_end(s));
        if flg & FHCRC != 0 {
            if n - p < 2 {
                return Err(GzError::TruncatedInput);
            }
            let header = copy_range(&self.data, b, b + p);
            assert(header@ =~= s.subrange(0, p as int));
            let mut st = State32::new(self.crc_table);
            st.feed(header.as_slice());
            let crc = st.crc32();
            let crc16 = self.data[b + p] as u32 + 256 * self.data[b + p + 1] as u32;
            assert(s[p as int] == self.data@[b + p] && s[p + 1] == self.data@[b + p + 1]);
            if crc & 0xffff != crc16 {
                return Err(GzError::ChecksumMismatch);
            }
            p = p + 2;
        }
        assert(p as int == header_end(s));
        self.pos = b + p;
        self.in_member = true;
        assert(self.rest() =~= s.subrange(p as int, n as int));
        Ok(
            Some(
                Member {
                    file_name,
                    file_comment,
                    crc: State32::new(self.crc_table),
                    len: 0,
                },
            ),
        )
    }

    /// Close the open member: its compressed body took `body_len` raw bytes,
    /// and an 8-byte trailer follows, the little-endian checksum and length
    /// (modulo 2^32) of the decompressed body. Either must match `m`.
    pub fn finish_member(&mut self, m: &Member<'a>, body_len: usize) -> (r: Result<(), GzError>)
        requires
            old(self).wf(),
            old(self).member_open(),
        ensures
            final(self).wf(),
            !final(self).member_open(),
            final(self).table_entries() == old(self).table_entries(),
            r == trailer_outcome(old(self).rest(), body_len as int, m.register() ^ SEED, m.length()),
            r is Ok ==> final(self).rest() == old(self).rest().subrange(
                body_len + 8,
                old(self).rest().len() as int,
            ),
    {
        let ghost s = self.rest();
        self.in_member = false;
        let b = self.pos;
        let n = self.data.len() - b;
        if body_len > n || n - body_len < 8 {
            return Err(GzError::TruncatedInput);
        }
        let q = b + body_len;
        let crc = self.data[q] as u32 + 0x100 * self.data[q + 1] as u32 + 0x1_0000
            * self.data[q + 2] as u32 + 0x100_0000 * self.data[q + 3] as u32;
        let isize = self.data[q + 4] as u32 + 0x100 * self.data[q + 5] as u32 + 0x1_0000
            * self.data[q + 6] as u32 + 0x100_0000 * self.data[q + 7] as u32;
        if crc != m.crc32() || isize != m.len {
            return Err(GzError::ChecksumMismatch);
        }
        self.pos = q + 8;
        assert(self.rest() =~= s.subrange(body_len + 8, n as int));
        Ok(())
    }
}

} // verus!
