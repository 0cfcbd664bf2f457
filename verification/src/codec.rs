//! The word stream codec: a random-access store of 12-bit words packed into
//! bytes at three bytes per two words.
//!
//! Word index `i` occupies byte offset `3 * i / 2` and the following byte.
//! For an even index the first byte holds bits 0..8 of the word and the low
//! nibble of the second byte holds bits 8..12; for an odd index the high
//! nibble of the first byte holds bits 0..4 and the second byte holds bits
//! 4..12. The high nibble left untouched by an even word (and the low nibble
//! left untouched by an odd word) belongs to the neighbouring word and is
//! never disturbed.

use vstd::prelude::*;

verus! {

use vstd::pervasive::VecAdditionalExecFns;

/// Upper bound on word indices the codec accepts, so that the byte offset
/// `3 * i / 2 + 2` stays within `usize` on every platform.
pub const HEAD_LIMIT: usize = 0x1000_0000;

/// Byte offset of the first of the two bytes occupied by word index `i`.
pub open spec fn spec_word_base(i: int) -> int {
    3 * i / 2
}

/// Byte offset in the packed buffer of the word with index `addr`.
pub fn addr_u12_to_normal(addr: usize) -> (r: usize)
    requires
        addr <= HEAD_LIMIT,
    ensures
        r == spec_word_base(addr as int),
{
    addr * 3 / 2
}

/// Byte `k` of the buffer; bytes past the end read as zero, matching the
/// zero-fill that every growth of the buffer performs.
pub open spec fn byte_at(d: Seq<u8>, k: int) -> u8 {
    if 0 <= k < d.len() {
        d[k]
    } else {
        0
    }
}

/// Nibble `k` of the buffer: the low nibble of byte `k / 2` when `k` is even,
/// the high nibble when `k` is odd. Word index `i` occupies exactly the three
/// nibbles `3 * i`, `3 * i + 1` and `3 * i + 2`, lowest bits first.
pub open spec fn nib_at(d: Seq<u8>, k: int) -> u8 {
    if k % 2 == 0 {
        byte_at(d, k / 2) & 0xf
    } else {
        byte_at(d, k / 2) >> 4
    }
}

/// The 12-bit word stored at word index `i`.
pub open spec fn word_at(d: Seq<u8>, i: int) -> u16 {
    let n = spec_word_base(i);
    if i % 2 == 0 {
        (byte_at(d, n) as u16) | (((byte_at(d, n + 1) & 0xf) as u16) << 8)
    } else {
        ((byte_at(d, n) >> 4) as u16) | ((byte_at(d, n + 1) as u16) << 4)
    }
}

/// `d` zero-padded on the right to at least `n` bytes.
pub open spec fn zero_extend_bytes(d: Seq<u8>, n: int) -> Seq<u8> {
    if n <= d.len() {
        d
    } else {
        d + Seq::new((n - d.len()) as nat, |j: int| 0u8)
    }
}

/// The buffer after storing the 12-bit value `v` at word index `h`, growing
/// the buffer with zero bytes as needed and leaving the neighbouring words'
/// nibbles untouched.
pub open spec fn push_bytes(d: Seq<u8>, h: int, v: u16) -> Seq<u8> {
    let n = spec_word_base(h);
    let d1 = zero_extend_bytes(d, n + 2);
    if h % 2 == 0 {
        d1.update(n, (v & 0xff) as u8).update(n + 1, (d1[n + 1] & 0xf0) | (((v >> 8) & 0xf) as u8))
    } else {
        d1.update(n, (d1[n] & 0xf) | (((v & 0xf) as u8) << 4)).update(
            n + 1,
            ((v >> 4) & 0xff) as u8,
        )
    }
}

proof fn lemma_byte_at_zero_extend(d: Seq<u8>, n: int, k: int)
    ensures
        byte_at(zero_extend_bytes(d, n), k) == byte_at(d, k),
{
}

proof fn lemma_word_base_parity(i: int)
    requires
        i >= 0,
    ensures
        i % 2 == 0 ==> spec_word_base(i) == 3 * (i / 2) && 2 * spec_word_base(i) == 3 * i,
        i % 2 == 1 ==> spec_word_base(i) == 3 * (i / 2) + 1 && 2 * spec_word_base(i) == 3 * i - 1,
{
}

/// Every stored word is a 12-bit value.
pub proof fn lemma_word_at_bound(d: Seq<u8>, i: int)
    ensures
        word_at(d, i) < 0x1000,
{
    let n = spec_word_base(i);
    let b0 = byte_at(d, n);
    let b1 = byte_at(d, n + 1);
    assert((b0 as u16) | (((b1 & 0xf) as u16) << 8) < 0x1000) by (bit_vector);
    assert(((b0 >> 4) as u16) | ((b1 as u16) << 4) < 0x1000) by (bit_vector);
}

/// A word is the composition of its three nibbles, lowest bits first.
proof fn lemma_word_at_nibs(d: Seq<u8>, i: int)
    requires
        i >= 0,
    ensures
        word_at(d, i) == (nib_at(d, 3 * i) as u16) | ((nib_at(d, 3 * i + 1) as u16) << 4) | ((
        nib_at(d, 3 * i + 2) as u16) << 8),
{
    let n = spec_word_base(i);
    lemma_word_base_parity(i);
    if i % 2 == 0 {
        assert((3 * i) % 2 == 0 && (3 * i) / 2 == n);
        assert((3 * i + 1) % 2 == 1 && (3 * i + 1) / 2 == n);
        assert((3 * i + 2) % 2 == 0 && (3 * i + 2) / 2 == n + 1);
        let b0 = byte_at(d, n);
        let b1 = byte_at(d, n + 1);
        assert((b0 as u16) | (((b1 & 0xf) as u16) << 8) == ((b0 & 0xf) as u16) | (((b0
            >> 4) as u16) << 4) | (((b1 & 0xf) as u16) << 8)) by (bit_vector);
    } else {
        assert((3 * i) % 2 == 1 && (3 * i) / 2 == n);
        assert((3 * i + 1) % 2 == 0 && (3 * i + 1) / 2 == n + 1);
        assert((3 * i + 2) % 2 == 1 && (3 * i + 2) / 2 == n + 1);
        let b0 = byte_at(d, n);
        let b1 = byte_at(d, n + 1);
        assert(((b0 >> 4) as u16) | ((b1 as u16) << 4) == ((b0 >> 4) as u16) | (((b1
            & 0xf) as u16) << 4) | (((b1 >> 4) as u16) << 8)) by (bit_vector);
    }
}

/// Storing a word writes exactly its three nibbles and no other.
proof fn lemma_nib_push(d: Seq<u8>, h: int, v: u16, k: int)
    requires
        h >= 0,
        k >= 0,
    ensures
        k == 3 * h ==> nib_at(push_bytes(d, h, v), k) == (v & 0xf) as u8,
        k == 3 * h + 1 ==> nib_at(push_bytes(d, h, v), k) == ((v >> 4) & 0xf) as u8,
        k == 3 * h + 2 ==> nib_at(push_bytes(d, h, v), k) == ((v >> 8) & 0xf) as u8,
        !(3 * h <= k <= 3 * h + 2) ==> nib_at(push_bytes(d, h, v), k) == nib_at(d, k),
{
    let n = spec_word_base(h);
    let d1 = zero_extend_bytes(d, n + 2);
    let d2 = push_bytes(d, h, v);
    lemma_word_base_parity(h);
    lemma_byte_at_zero_extend(d, n + 2, k / 2);
    assert(d1.len() >= n + 2);
    // After the two updates, bytes other than n and n + 1 are unchanged.
    assert(k / 2 != n && k / 2 != n + 1 ==> byte_at(d2, k / 2) == byte_at(d1, k / 2));
    if h % 2 == 0 {
        assert(byte_at(d2, n) == (v & 0xff) as u8);
        assert(byte_at(d2, n + 1) == (byte_at(d1, n + 1) & 0xf0) | (((v >> 8) & 0xf) as u8));
        if k == 3 * h {
            assert(k % 2 == 0 && k / 2 == n);
            assert(((v & 0xff) as u8) & 0xf == (v & 0xf) as u8) by (bit_vector);
        } else if k == 3 * h + 1 {
            assert(k % 2 == 1 && k / 2 == n);
            assert(((v & 0xff) as u8) >> 4 == ((v >> 4) & 0xf) as u8) by (bit_vector);
        } else if k == 3 * h + 2 {
            assert(k % 2 == 0 && k / 2 == n + 1);
            let b = byte_at(d1, n + 1);
            assert(((b & 0xf0) | (((v >> 8) & 0xf) as u8)) & 0xf == ((v >> 8) & 0xf) as u8)
                by (bit_vector);
        } else if k == 3 * h + 3 {
            // The high nibble of byte n + 1 belongs to the next word and is kept.
            assert(k % 2 == 1 && k / 2 == n + 1);
            let b = byte_at(d1, n + 1);
            assert(((b & 0xf0) | (((v >> 8) & 0xf) as u8)) >> 4 == b >> 4) by (bit_vector);
        } else {
            assert(k / 2 != n && k / 2 != n + 1);
        }
    } else {
        assert(byte_at(d2, n) == (byte_at(d1, n) & 0xf) | (((v & 0xf) as u8) << 4));
        assert(byte_at(d2, n + 1) == ((v >> 4) & 0xff) as u8);
        if k == 3 * h {
            assert(k % 2 == 1 && k / 2 == n);
            let b = byte_at(d1, n);
            assert(((b & 0xf) | (((v & 0xf) as u8) << 4)) >> 4 == (v & 0xf) as u8) by (bit_vector);
        } else if k == 3 * h + 1 {
            assert(k % 2 == 0 && k / 2 == n + 1);
            assert((((v >> 4) & 0xff) as u8) & 0xf == ((v >> 4) & 0xf) as u8) by (bit_vector);
        } else if k == 3 * h + 2 {
            assert(k % 2 == 1 && k / 2 == n + 1);
            assert((((v >> 4) & 0xff) as u8) >> 4 == ((v >> 8) & 0xf) as u8) by (bit_vector);
        } else if k == 3 * h - 1 {
            // The low nibble of byte n belongs to the previous word and is kept.
            assert(k % 2 == 0 && k / 2 == n);
            let b = byte_at(d1, n);
            assert(((b & 0xf) | (((v & 0xf) as u8) << 4)) & 0xf == b & 0xf) by (bit_vector);
        } else {
            assert(k / 2 != n && k / 2 != n + 1);
        }
    }
}

/// Storing a 12-bit value and reading the same word index gives it back.
pub proof fn lemma_word_at_push_same(d: Seq<u8>, h: int, v: u16)
    requires
        h >= 0,
        v < 0x1000,
    ensures
        word_at(push_bytes(d, h, v), h) == v,
{
    let d2 = push_bytes(d, h, v);
    lemma_word_at_nibs(d2, h);
    lemma_nib_push(d, h, v, 3 * h);
    lemma_nib_push(d, h, v, 3 * h + 1);
    lemma_nib_push(d, h, v, 3 * h + 2);
    assert((((v & 0xf) as u8) as u16) | (((((v >> 4) & 0xf) as u8) as u16) << 4) | (((((v >> 8)
        & 0xf) as u8) as u16) << 8) == v) by (bit_vector)
        requires
            v < 0x1000,
    ;
}

/// Storing a word leaves every other word of the stream unchanged.
pub proof fn lemma_word_at_push_other(d: Seq<u8>, h: int, v: u16, j: int)
    requires
        h >= 0,
        j >= 0,
        j != h,
    ensures
        word_at(push_bytes(d, h, v), j) == word_at(d, j),
{
    let d2 = push_bytes(d, h, v);
    lemma_word_at_nibs(d2, j);
    lemma_word_at_nibs(d, j);
    lemma_nib_push(d, h, v, 3 * j);
    lemma_nib_push(d, h, v, 3 * j + 1);
    lemma_nib_push(d, h, v, 3 * j + 2);
}

/// Zero-padding the buffer changes no word.
pub proof fn lemma_word_at_zero_extend(d: Seq<u8>, n: int, j: int)
    ensures
        word_at(zero_extend_bytes(d, n), j) == word_at(d, j),
{
    let m = spec_word_base(j);
    lemma_byte_at_zero_extend(d, n, m);
    lemma_byte_at_zero_extend(d, n, m + 1);
}

/// A word's first byte never stands left of its index: two words take three
/// bytes.
pub proof fn lemma_word_base_ge(h: int)
    requires
        h >= 0,
    ensures
        spec_word_base(h) >= h,
{
}

/// Length of the buffer after a store: grown to just cover the word, never
/// shrunk.
pub proof fn lemma_push_bytes_len(d: Seq<u8>, h: int, v: u16)
    requires
        h >= 0,
    ensures
        push_bytes(d, h, v).len() == if d.len() >= spec_word_base(h) + 2 {
            d.len() as int
        } else {
            spec_word_base(h) + 2
        },
{
}

/// A random-access store of 12-bit words packed at three bytes per two
/// words, with `head` as the instruction pointer: the word index at which
/// the next append lands.
#[derive(Debug)]
pub struct Serialiser {
    pub data: Vec<u8>,
    pub head: usize,
}

impl Serialiser {
    /// An empty stream with the instruction pointer at word index zero.
    pub fn new() -> (s: Serialiser)
        ensures
            s.data@ == Seq::<u8>::empty(),
            s.head == 0,
    {
        Serialiser { data: Vec::new(), head: 0 }
    }

    /// Appends the 12-bit value `v` at the current instruction pointer and
    /// advances the pointer by one word. Grows the buffer as needed,
    /// zero-filling any newly created bytes.
    pub fn push_u12(&mut self, v: u16)
        requires
            old(self).head < HEAD_LIMIT,
            v < 0x1000,
        ensures
            final(self).head == old(self).head + 1,
            final(self).data@ == push_bytes(old(self).data@, old(self).head as int, v),
    {
        let ghost d0 = self.data@;
        let normhead = addr_u12_to_normal(self.head);
        while self.data.len() < normhead + 2
            invariant
                normhead == spec_word_base(old(self).head as int),
                normhead + 2 <= HEAD_LIMIT * 3 / 2 + 2,
                self.data@.len() <= normhead + 2 || self.data@ == d0,
                self.data@ == zero_extend_bytes(d0, self.data@.len() as int),
                self.head == old(self).head,
            decreases normhead + 2 - self.data@.len(),
        {
            self.data.push(0);
            proof {
                assert(self.data@ =~= zero_extend_bytes(d0, self.data@.len() as int));
            }
        }
        let ghost d1 = zero_extend_bytes(d0, normhead + 2);
        proof {
            assert(self.data@ =~= d1);
        }
        if self.head % 2 == 0 {
            self.data.set(normhead, (v & 0xff) as u8);
            let b1 = self.data[normhead + 1];
            self.data.set(normhead + 1, (b1 & 0xf0) | ((v >> 8) as u8));
            proof {
                assert((v >> 8) as u8 == ((v >> 8) & 0xf) as u8) by (bit_vector)
                    requires
                        v < 0x1000,
                ;
                assert(self.data@ =~= push_bytes(d0, old(self).head as int, v));
            }
        } else {
            let b0 = self.data[normhead];
            self.data.set(normhead, (b0 & 0xf) | ((v & 0xf) as u8) << 4);
            self.data.set(normhead + 1, (v >> 4) as u8);
            proof {
                assert((v >> 4) as u8 == ((v >> 4) & 0xff) as u8) by (bit_vector)
                    requires
                        v < 0x1000,
                ;
                assert(self.data@ =~= push_bytes(d0, old(self).head as int, v));
            }
        }
        self.head = self.head + 1;
    }

    /// Reads the 12-bit value stored at the current instruction pointer
    /// without advancing, masking so that no bits of the neighbouring words
    /// bleed in.
    pub fn decode_u12(&self) -> (r: u16)
        requires
            self.head <= HEAD_LIMIT,
            spec_word_base(self.head as int) + 1 < self.data@.len(),
        ensures
            r == word_at(self.data@, self.head as int),
    {
        let normhead = addr_u12_to_normal(self.head);
        if self.head % 2 == 0 {
            (self.data[normhead] as u16) | (((self.data[normhead + 1] as u16) & 0xf) << 8)
        } else {
            ((self.data[normhead] as u16) >> 4) | ((self.data[normhead + 1] as u16) << 4)
        }
    }

    /// Reads the word at the current instruction pointer and splits it into
    /// the fields of a basic instruction: opcode (bits 0..3), addressing
    /// mode (bits 3..5) and operand (bits 5..12).
    pub fn decode_basic(&self) -> (r: (u8, u8, u8))
        requires
            self.head <= HEAD_LIMIT,
            spec_word_base(self.head as int) + 1 < self.data@.len(),
        ensures
            ({
                let w = word_at(self.data@, self.head as int);
                r == (((w & 0x7) as u8), (((w >> 3) & 0x3) as u8), ((w >> 5) as u8))
            }),
    {
        let v = self.decode_u12();
        proof {
            lemma_word_at_bound(self.data@, self.head as int);
            assert(v < 0x1000 ==> (v >> 5) < 0x100) by (bit_vector);
        }
        ((v & 0x7) as u8, ((v >> 3) & 0x3) as u8, (v >> 5) as u8)
    }

    /// Repositions the instruction pointer to the word index `ip` and
    /// returns the previous pointer so that callers can restore it. No
    /// existing byte changes and the buffer never shrinks; seeking past the
    /// end zero-extends the buffer so that word position `ip` itself is
    /// covered, and the image so runs through the highest word index ever
    /// written or seeked to.
    pub fn set_ip(&mut self, ip: usize) -> (r: usize)
        requires
            ip <= HEAD_LIMIT,
        ensures
            r == old(self).head,
            final(self).head == ip,
            final(self).data@ == zero_extend_bytes(
                old(self).data@,
                spec_word_base(ip as int) + 2,
            ),
    {
        let ghost d0 = self.data@;
        let target = addr_u12_to_normal(ip) + 2;
        while self.data.len() < target
            invariant
                target == spec_word_base(ip as int) + 2,
                self.data@.len() <= target || self.data@ == d0,
                self.data@ == zero_extend_bytes(d0, self.data@.len() as int),
                self.head == old(self).head,
            decreases target - self.data@.len(),
        {
            self.data.push(0);
            proof {
                assert(self.data@ =~= zero_extend_bytes(d0, self.data@.len() as int));
            }
        }
        proof {
            assert(self.data@ =~= zero_extend_bytes(d0, spec_word_base(ip as int) + 2));
        }
        let old_head = self.head;
        self.head = ip;
        old_head
    }

    /// The current instruction pointer, as a word index.
    pub fn get_ip(&self) -> (r: usize)
        ensures
            r == self.head,
    {
        self.head
    }

    /// Appends a basic instruction word `opcode | mode << 3 | addr << 5`,
    /// truncated to 12 bits: an operand above 127 silently loses its high
    /// bit on encode.
    pub fn encode_basic(&mut self, opcode: u8, mode: u8, addr: u8)
        requires
            old(self).head < HEAD_LIMIT,
        ensures
            final(self).head == old(self).head + 1,
            final(self).data@ == push_bytes(
                old(self).data@,
                old(self).head as int,
                basic_word(opcode, mode, addr),
            ),
    {
        let w32: u32 = ((opcode as u32) | ((mode as u32) << 3) | ((addr as u32) << 5)) & 0xfff;
        proof {
            assert((((opcode as u32) | ((mode as u32) << 3) | ((addr as u32) << 5)) & 0xfff)
                < 0x1000) by (bit_vector);
        }
        self.push_u12(w32 as u16);
    }

    /// Appends an input/output instruction word `0b110 | device << 3 |
    /// function << 9`, truncated to 12 bits: only six bits of the device and
    /// three bits of the function are kept, larger values silently truncate.
    pub fn encode_iot(&mut self, device: u8, function: u8)
        requires
            old(self).head < HEAD_LIMIT,
        ensures
            final(self).head == old(self).head + 1,
            final(self).data@ == push_bytes(
                old(self).data@,
                old(self).head as int,
                iot_word(device, function),
            ),
    {
        let w32: u32 = ((0x6u32) | ((device as u32) << 3) | ((function as u32) << 9)) & 0xfff;
        proof {
            assert((((0x6u32) | ((device as u32) << 3) | ((function as u32) << 9)) & 0xfff)
                < 0x1000) by (bit_vector);
        }
        self.push_u12(w32 as u16);
    }

    /// Appends a raw 12-bit data word verbatim.
    pub fn encode_word(&mut self, word: u16)
        requires
            old(self).head < HEAD_LIMIT,
            word < 0x1000,
        ensures
            final(self).head == old(self).head + 1,
            final(self).data@ == push_bytes(old(self).data@, old(self).head as int, word),
    {
        self.push_u12(word);
    }
}

/// The encoded word of a basic instruction: opcode in bits 0..3, addressing
/// mode in bits 3..5, operand in bits 5..12, truncated to 12 bits.
pub open spec fn basic_word(opcode: u8, mode: u8, addr: u8) -> u16 {
    ((((opcode as u32) | ((mode as u32) << 3) | ((addr as u32) << 5)) & 0xfff) as u16)
}

/// The encoded word of an input/output instruction: opcode 0b110 in bits
/// 0..3, device in bits 3..9, function in bits 9..12, truncated to 12 bits.
pub open spec fn iot_word(device: u8, function: u8) -> u16 {
    ((((0x6u32) | ((device as u32) << 3) | ((function as u32) << 9)) & 0xfff) as u16)
}

/// Encoding a basic instruction and decoding the same word position recovers
/// the opcode and mode bits exactly, and the operand too whenever it fits
/// the seven bits of its field.
pub proof fn lemma_basic_round_trip(d: Seq<u8>, h: int, opcode: u8, mode: u8, addr: u8)
    requires
        h >= 0,
        opcode < 8,
        mode < 4,
    ensures
        ({
            let w = word_at(push_bytes(d, h, basic_word(opcode, mode, addr)), h);
            &&& (w & 0x7) as u8 == opcode
            &&& ((w >> 3) & 0x3) as u8 == mode
            &&& addr < 128 ==> (w >> 5) as u8 == addr
        }),
{
    let bw = basic_word(opcode, mode, addr);
    assert(bw < 0x1000 && (bw & 0x7) as u8 == opcode && ((bw >> 3) & 0x3) as u8 == mode && (addr
        < 128 ==> (bw >> 5) as u8 == addr)) by (bit_vector)
        requires
            opcode < 8,
            mode < 4,
            bw == ((((opcode as u32) | ((mode as u32) << 3) | ((addr as u32) << 5)) & 0xfff) as u16),
    ;
    lemma_word_at_push_same(d, h, bw);
}

/// Encoding an input/output instruction and decoding the same word position
/// recovers the device and function exactly whenever they fit their six- and
/// three-bit fields.
pub proof fn lemma_iot_round_trip(d: Seq<u8>, h: int, device: u8, function: u8)
    requires
        h >= 0,
        device < 64,
        function < 8,
    ensures
        ({
            let w = word_at(push_bytes(d, h, iot_word(device, function)), h);
            &&& (w & 0x7) as u8 == 0x6
            &&& ((w >> 3) & 0x3f) as u8 == device
            &&& ((w >> 9) & 0x7) as u8 == function
        }),
{
    let iw = iot_word(device, function);
    assert(iw < 0x1000 && (iw & 0x7) as u8 == 0x6 && ((iw >> 3) & 0x3f) as u8 == device && ((iw
        >> 9) & 0x7) as u8 == function) by (bit_vector)
        requires
            device < 64,
            function < 8,
            iw == ((((0x6u32) | ((device as u32) << 3) | ((function as u32) << 9)) & 0xfff) as u16),
    ;
    lemma_word_at_push_same(d, h, iw);
}

/// The buffer that holds the 12-bit values `words`, appended in order at
/// word indices 0, 1, 2, ... starting from an empty stream.
pub open spec fn appended_bytes(words: Seq<u16>) -> Seq<u8>
    decreases words.len(),
{
    if words.len() == 0 {
        Seq::<u8>::empty()
    } else {
        push_bytes(appended_bytes(words.drop_last()), words.len() - 1, words.last())
    }
}

/// Packing invariant: appending `N` 12-bit words to an empty stream yields a
/// buffer of exactly `ceil(N * 3 / 2)` bytes, and decoding word indices
/// `0..N` reproduces the appended values exactly.
pub proof fn lemma_packing(words: Seq<u16>)
    requires
        forall|i: int| 0 <= i < words.len() ==> words[i] < 0x1000,
    ensures
        appended_bytes(words).len() == (3 * words.len() + 1) / 2,
        forall|i: int|
            0 <= i < words.len() ==> #[trigger] word_at(appended_bytes(words), i) == words[i],
    decreases words.len(),
{
    if words.len() == 0 {
    } else {
        let n = words.len() - 1;
        let prefix = words.drop_last();
        lemma_packing(prefix);
        lemma_push_bytes_len(appended_bytes(prefix), n, words.last());
        lemma_word_at_push_same(appended_bytes(prefix), n, words.last());
        assert forall|i: int| 0 <= i < words.len() implies #[trigger] word_at(
            appended_bytes(words),
            i,
        ) == words[i] by {
            if i < n {
                lemma_word_at_push_other(appended_bytes(prefix), n, words.last(), i);
            }
        }
    }
}

} // verus!
