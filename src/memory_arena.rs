//! A bump allocator over one growing byte buffer, addressed by `u32` offsets.
use vstd::prelude::*;

verus! {

/// The address of a byte in a memory arena.
#[derive(Clone, Copy, Debug, PartialEq, Eq, Structural)]
pub struct Addr {
    pub offset: u32,
}

/// The offset that no allocation ever gets.
pub const NULL_OFFSET: u32 = 0xFFFF_FFFF;

impl Addr {
    /// The address that points nowhere.
    pub fn null_pointer() -> (r: Addr)
        ensures
            r.offset == NULL_OFFSET,
    {
        Addr { offset: NULL_OFFSET }
    }

    /// Whether the address points nowhere.
    pub fn is_null(self) -> (r: bool)
        ensures
            r == (self.offset == NULL_OFFSET),
    {
        self.offset == NULL_OFFSET
    }

    /// The address `delta` bytes further.
    pub fn offset(self, delta: u32) -> (r: Addr)
        requires
            self.offset + delta <= u32::MAX,
        ensures
            r.offset == self.offset + delta,
    {
        Addr { offset: self.offset + delta }
    }
}

/// Two bytes, least significant first.
pub open spec fn le_u16_bytes(v: u16) -> Seq<u8> {
    seq![(v % 256) as u8, (v / 256) as u8]
}

/// Four bytes, least significant first.
pub open spec fn le_u32_bytes(v: u32) -> Seq<u8> {
    seq![(v % 256) as u8, (v / 256 % 256) as u8, (v / 0x1_0000 % 256) as u8, (v / 0x100_0000) as u8]
}

/// The number that two bytes spell, least significant first.
pub open spec fn le_u16_value(b: Seq<u8>) -> u16 {
    (b[0] + 256 * b[1]) as u16
}

/// The number that four bytes spell, least significant first.
pub open spec fn le_u32_value(b: Seq<u8>) -> u32 {
    (b[0] + 256 * b[1] + 0x1_0000 * b[2] + 0x100_0000 * b[3]) as u32
}

pub proof fn lemma_le_u16_round_trip(v: u16)
    ensures
        le_u16_value(le_u16_bytes(v)) == v,
{
}

pub proof fn lemma_le_u32_round_trip(v: u32)
    ensures
        le_u32_value(le_u32_bytes(v)) == v,
{
    let x = v as int;
    assert(x % 256 + 256 * (x / 256 % 256) + 0x1_0000 * (x / 0x1_0000 % 256) + 0x100_0000 * (x
        / 0x100_0000) == x) by (nonlinear_arith)
        requires
            0 <= x < 0x1_0000_0000,
    ;
}

/// Memory handed out in chunks; freed only all at once.
pub struct MemoryArena {
    data: Vec<u8>,
}

impl View for MemoryArena {
    type V = Seq<u8>;

    closed spec fn view(&self) -> Seq<u8> {
        self.data@
    }
}

impl MemoryArena {
    /// An empty arena.
    pub fn new() -> (r: MemoryArena)
        ensures
            r@ == Seq::<u8>::empty(),
    {
        MemoryArena { data: Vec::new() }
    }

    /// The number of bytes handed out so far.
    pub fn len(&self) -> (r: usize)
        ensures
            r == self@.len(),
    {
        self.data.len()
    }

    /// Hands out `len` zeroed bytes and returns their address.
    pub fn allocate_space(&mut self, len: usize) -> (r: Addr)
        requires
            old(self)@.len() + len < NULL_OFFSET,
        ensures
            r.offset == old(self)@.len(),
            final(self)@ == old(self)@ + Seq::new(len as nat, |_i: int| 0u8),
    {
        let addr = Addr { offset: self.data.len() as u32 };
        let mut i: usize = 0;
        while i < len
            invariant
                i <= len,
                self@ == old(self)@ + Seq::new(i as nat, |_i: int| 0u8),
            decreases len - i,
        {
            self.data.push(0u8);
            i = i + 1;
            assert(self@ =~= old(self)@ + Seq::new(i as nat, |_i: int| 0u8));
        }
        addr
    }

    /// Writes bytes at an address.
    pub fn write_bytes(&mut self, addr: Addr, bytes: &[u8])
        requires
            addr.offset + bytes@.len() <= old(self)@.len(),
        ensures
            final(self)@.len() == old(self)@.len(),
            forall|i: int|
                0 <= i < old(self)@.len() ==> #[trigger] final(self)@[i] == if addr.offset <= i < addr.offset
                    + bytes@.len() {
                    bytes@[i - addr.offset]
                } else {
                    old(self)@[i]
                },
    {
        let start = addr.offset as usize;
        let n = self.data.len();
        let mut i: usize = 0;
        while i < bytes.len()
            invariant
                start == addr.offset,
                n == old(self)@.len(),
                start + bytes@.len() <= old(self)@.len(),
                i <= bytes@.len(),
                self@.len() == old(self)@.len(),
                forall|j: int|
                    0 <= j < old(self)@.len() ==> #[trigger] self@[j] == if start <= j < start + i {
                        bytes@[j - start]
                    } else {
                        old(self)@[j]
                    },
            decreases bytes@.len() - i,
        {
            self.data.set(start + i, bytes[i]);
            i = i + 1;
        }
    }

    /// Writes a `u16`, least significant byte first.
    pub fn write_u16(&mut self, addr: Addr, v: u16)
        requires
            addr.offset + 2 <= old(self)@.len(),
        ensures
            final(self)@ == old(self)@.update(addr.offset as int, (v % 256) as u8).update(
                addr.offset + 1,
                (v / 256) as u8,
            ),
    {
        let a = addr.offset as usize;
        let n = self.data.len();
        self.data.set(a, (v % 256) as u8);
        self.data.set(a + 1, (v / 256) as u8);
    }

    /// Writes a `u32`, least significant byte first.
    pub fn write_u32(&mut self, addr: Addr, v: u32)
        requires
            addr.offset + 4 <= old(self)@.len(),
        ensures
            final(self)@.len() == old(self)@.len(),
            final(self)@.subrange(addr.offset as int, addr.offset + 4) == le_u32_bytes(v),
            forall|i: int|
                0 <= i < old(self)@.len() && !(addr.offset <= i < addr.offset + 4)
                    ==> #[trigger] final(self)@[i] == old(self)@[i],
    {
        let a = addr.offset as usize;
        let n = self.data.len();
        self.data.set(a, (v % 256) as u8);
        self.data.set(a + 1, (v / 256 % 256) as u8);
        self.data.set(a + 2, (v / 0x1_0000 % 256) as u8);
        self.data.set(a + 3, (v / 0x100_0000) as u8);
        assert(self@.subrange(a as int, a + 4) =~= le_u32_bytes(v));
    }

    /// Reads a `u16` stored least significant byte first.
    pub fn read_u16(&self, addr: Addr) -> (r: u16)
        requires
            addr.offset + 2 <= self@.len(),
        ensures
            r == le_u16_value(self@.subrange(addr.offset as int, addr.offset + 2)),
    {
        let a = addr.offset as usize;
        let n = self.data.len();
        self.data[a] as u16 + 256 * self.data[a + 1] as u16
    }

    /// Reads a `u32` stored least significant byte first.
    pub fn read_u32(&self, addr: Addr) -> (r: u32)
        requires
            addr.offset + 4 <= self@.len(),
        ensures
            r == le_u32_value(self@.subrange(addr.offset as int, addr.offset + 4)),
    {
        let a = addr.offset as usize;
        let n = self.data.len();
        self.data[a] as u32 + 256 * self.data[a + 1] as u32 + 0x1_0000 * self.data[a + 2] as u32
            + 0x100_0000 * self.data[a + 3] as u32
    }

    /// The bytes from `addr` on, `len` of them.
    pub fn slice(&self, addr: Addr, len: usize) -> (r: &[u8])
        requires
            addr.offset + len <= self@.len(),
        ensures
            r@ == self@.subrange(addr.offset as int, addr.offset + len),
    {
        let a = addr.offset as usize;
        let n = self.data.len();
        &self.data.as_slice()[a..a + len]
    }
}

} // verus!
