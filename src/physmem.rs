//! Bounded access to physical memory, modelled as a byte image that starts
//! at a base address, and a cursor for sequential, length-checked reads.

use vstd::prelude::*;

verus! {

/// A strongly typed physical address
#[derive(Clone, Copy, Debug, PartialEq, Eq, PartialOrd, Ord, Structural)]
pub struct PhysAddr(pub u64);

/// `256` to the power `n`
pub open spec fn pow256(n: nat) -> nat
    decreases n,
{
    if n == 0 {
        1
    } else {
        256 * pow256((n - 1) as nat)
    }
}

/// The little-endian value of the bytes `s`
pub open spec fn le_bytes(s: Seq<u8>) -> nat
    decreases s.len(),
{
    if s.len() == 0 {
        0
    } else {
        s[0] as nat + 256 * le_bytes(s.drop_first())
    }
}

/// The `n` low bytes of `v`, least significant first
pub open spec fn le_encode(v: nat, n: nat) -> Seq<u8>
    decreases n,
{
    if n == 0 {
        Seq::empty()
    } else {
        seq![(v % 256) as u8] + le_encode(v / 256, (n - 1) as nat)
    }
}

pub proof fn lemma_pow256_8()
    ensures
        pow256(1) == 0x100,
        pow256(2) == 0x10000,
        pow256(4) == 0x1_0000_0000,
        pow256(8) == 0x1_0000_0000_0000_0000,
{
    reveal_with_fuel(pow256, 9);
}

pub proof fn lemma_le_bytes_bound(s: Seq<u8>)
    ensures
        le_bytes(s) < pow256(s.len()),
    decreases s.len(),
{
    if s.len() > 0 {
        lemma_le_bytes_bound(s.drop_first());
        let a = le_bytes(s.drop_first());
        let b = pow256(s.drop_first().len());
        assert(s[0] as nat + 256 * a < 256 * b) by (nonlinear_arith)
            requires
                a < b,
                s[0] < 256,
        ;
    }
}

/// Reading back the `n` bytes that encode `v` gives `v` truncated to `n` bytes
pub proof fn lemma_le_round_trip(v: nat, n: nat)
    ensures
        le_encode(v, n).len() == n,
        le_bytes(le_encode(v, n)) == v % pow256(n),
    decreases n,
{
    if n > 0 {
        lemma_le_round_trip(v / 256, (n - 1) as nat);
        let e = le_encode(v, n);
        assert(e.drop_first() =~= le_encode(v / 256, (n - 1) as nat));
        assert(pow256(n) == 256 * pow256((n - 1) as nat));
        assert(pow256((n - 1) as nat) > 0) by {
            lemma_pow256_pos((n - 1) as nat);
        }
        vstd::arithmetic::div_mod::lemma_breakdown(v as int, 256, pow256((n - 1) as nat) as int);
    } else {
        assert(v % 1 == 0);
    }
}

proof fn lemma_pow256_pos(n: nat)
    ensures
        pow256(n) > 0,
    decreases n,
{
    if n > 0 {
        lemma_pow256_pos((n - 1) as nat);
    }
}

/// Read the little-endian value of `n` bytes of `bytes` starting at `off`
pub fn le_at(bytes: &[u8], off: usize, n: usize) -> (r: u64)
    requires
        off + n <= bytes@.len(),
        n <= 8,
    ensures
        r as nat == le_bytes(bytes@.subrange(off as int, off + n)),
{
    let blen = bytes.len();
    let mut acc: u64 = 0;
    let mut k: usize = n;
    while k > 0
        invariant
            blen == bytes@.len(),
            off + n <= bytes@.len(),
            n <= 8,
            k <= n,
            acc as nat == le_bytes(bytes@.subrange(off + k, off + n)),
        decreases k,
    {
        let ghost tail = bytes@.subrange(off + k, off + n);
        k = k - 1;
        let b = bytes[off + k];
        proof {
            let s = bytes@.subrange(off + k, off + n);
            assert(s.drop_first() =~= tail);
            lemma_le_bytes_bound(tail);
            lemma_pow256_8();
            assert(pow256(tail.len()) <= pow256(7)) by {
                reveal_with_fuel(pow256, 9);
            }
            assert(pow256(7) == 0x100_0000_0000_0000) by {
                reveal_with_fuel(pow256, 8);
            }
        }
        acc = b as u64 + 256 * acc;
    }
    acc
}

/// A byte image of physical memory: byte `i` of the image lies at address
/// `base + i`. Addresses outside the image are unmapped.
#[derive(Debug)]
pub struct PhysMemory {
    /// Address of the first byte of the image
    base: u64,

    /// The bytes of the image
    bytes: Vec<u8>,
}

impl PhysMemory {
    /// Address of the first byte of the image
    pub closed spec fn base_addr(&self) -> int {
        self.base as int
    }

    /// The bytes of the image
    pub closed spec fn image(&self) -> Seq<u8> {
        self.bytes@
    }

    /// The image ends below the top of the 64-bit address space
    pub open spec fn wf(&self) -> bool {
        self.base_addr() + self.image().len() <= u64::MAX
    }

    /// The `n` bytes at `addr` all lie inside the image
    pub open spec fn mapped(&self, addr: int, n: int) -> bool {
        self.base_addr() <= addr && addr + n <= self.base_addr() + self.image().len()
    }

    /// The `n` bytes at `addr`
    pub open spec fn bytes_at(&self, addr: int, n: int) -> Seq<u8> {
        self.image().subrange(addr - self.base_addr(), addr - self.base_addr() + n)
    }

    /// Create an image of `bytes` at address `base`; `None` when the image
    /// would reach the top of the address space
    pub fn new(base: PhysAddr, bytes: Vec<u8>) -> (r: Option<PhysMemory>)
        ensures
            r is Some <==> base.0 + bytes@.len() <= u64::MAX,
            r matches Some(m) ==> m.wf() && m.base_addr() == base.0 && m.image() == bytes@,
    {
        let len = bytes.len();
        if len as u128 + base.0 as u128 > u64::MAX as u128 {
            return None;
        }
        Some(PhysMemory { base: base.0, bytes })
    }

    /// Whether the `n` bytes at `addr` lie inside the image
    pub fn is_mapped(&self, addr: u64, n: usize) -> (r: bool)
        requires
            self.wf(),
        ensures
            r == self.mapped(addr as int, n as int),
    {
        addr >= self.base && n <= self.bytes.len() && addr - self.base <= (self.bytes.len() - n) as u64
    }

    /// Copy out the `n` bytes at `addr`; `None` when any of them is unmapped
    pub fn read_bytes(&self, addr: PhysAddr, n: usize) -> (r: Option<Vec<u8>>)
        requires
            self.wf(),
        ensures
            r is Some <==> self.mapped(addr.0 as int, n as int),
            r matches Some(v) ==> v@ == self.bytes_at(addr.0 as int, n as int),
    {
        if !self.is_mapped(addr.0, n) {
            return None;
        }
        let len = self.bytes.len();
        assert(addr.0 - self.base <= len);
        let off = (addr.0 - self.base) as usize;
        let mut out: Vec<u8> = Vec::new();
        let mut k: usize = 0;
        while k < n
            invariant
                len == self.image().len(),
                self.mapped(addr.0 as int, n as int),
                off == addr.0 - self.base_addr(),
                k <= n,
                out@ == self.image().subrange(off as int, off + k),
            decreases n - k,
        {
            out.push(self.bytes[off + k]);
            k = k + 1;
            assert(out@ =~= self.image().subrange(off as int, off + k));
        }
        Some(out)
    }

    /// Read the little-endian value of the `n` bytes at `addr`, whatever
    /// its alignment; `None` when any of them is unmapped
    pub fn read_le(&self, addr: PhysAddr, n: usize) -> (r: Option<u64>)
        requires
            self.wf(),
            n <= 8,
        ensures
            r is Some <==> self.mapped(addr.0 as int, n as int),
            r matches Some(v) ==> v as nat == le_bytes(self.bytes_at(addr.0 as int, n as int)),
    {
        if !self.is_mapped(addr.0, n) {
            return None;
        }
        let len = self.bytes.len();
        assert(addr.0 - self.base <= len);
        let off = (addr.0 - self.base) as usize;
        Some(le_at(self.bytes.as_slice(), off, n))
    }

    /// Store the `n` low bytes of `val` at `addr`, least significant first;
    /// fails, changing nothing, when any of them is unmapped
    pub fn write_le(&mut self, addr: PhysAddr, n: usize, val: u64) -> (r: Result<(), ()>)
        requires
            old(self).wf(),
            n <= 8,
        ensures
            final(self).wf(),
            final(self).base_addr() == old(self).base_addr(),
            final(self).image().len() == old(self).image().len(),
            r is Ok <==> old(self).mapped(addr.0 as int, n as int),
            r is Err ==> final(self).image() == old(self).image(),
            r is Ok ==> final(self).image() == old(self).image().subrange(0, addr.0 - old(self).base_addr())
                + le_encode(val as nat, n as nat) + old(self).image().subrange(
                addr.0 - old(self).base_addr() + n, old(self).image().len() as int),
    {
        if !self.is_mapped(addr.0, n) {
            return Err(());
        }
        let len = self.bytes.len();
        assert(addr.0 - self.base <= len);
        let off = (addr.0 - self.base) as usize;
        let ghost pre = self.image();
        let mut v: u64 = val;
        let mut k: usize = 0;
        assert(pow256(0) == 1);
        assert(self.image() =~= pre.subrange(0, off as int) + le_encode(val as nat, 0)
            + pre.subrange(off as int, pre.len() as int));
        while k < n
            invariant
                len == self.image().len(),
                self.base_addr() == old(self).base_addr(),
                pre == old(self).image(),
                old(self).mapped(addr.0 as int, n as int),
                off == addr.0 - self.base_addr(),
                k <= n,
                n <= 8,
                self.image().len() == pre.len(),
                v as nat == val as nat / pow256(k as nat),
                self.image() == pre.subrange(0, off as int) + le_encode(val as nat, k as nat)
                    + pre.subrange(off + k, pre.len() as int),
            decreases n - k,
        {
            proof {
                lemma_encode_step(val as nat, k as nat);
                lemma_pow256_pos(k as nat);
                vstd::arithmetic::div_mod::lemma_div_denominator(val as int, pow256(k as nat) as int, 256);
                assert(pow256(k as nat) * 256 == pow256((k + 1) as nat));
            }
            self.bytes.set(off + k, (v % 256) as u8);
            v = v / 256;
            k = k + 1;
            assert(self.image() =~= pre.subrange(0, off as int) + le_encode(val as nat, k as nat)
                + pre.subrange(off + k, pre.len() as int));
        }
        Ok(())
    }
}

/// Encoding one more byte appends the next byte of `v`
proof fn lemma_encode_step(v: nat, k: nat)
    ensures
        le_encode(v, k + 1) == le_encode(v, k).push(((v / pow256(k)) % 256) as u8),
    decreases k,
{
    if k == 0 {
        reveal_with_fuel(le_encode, 2);
        assert(le_encode(v, 1) =~= seq![(v % 256) as u8]);
        assert(le_encode(v, 0) =~= Seq::<u8>::empty());
        assert(v / 1 == v);
    } else {
        lemma_encode_step(v / 256, (k - 1) as nat);
        lemma_pow256_pos((k - 1) as nat);
        vstd::arithmetic::div_mod::lemma_div_denominator(v as int, 256, pow256((k - 1) as nat) as int);
        assert(le_encode(v, k + 1) =~= seq![(v % 256) as u8] + le_encode(v / 256, k));
        assert(le_encode(v, k) =~= seq![(v % 256) as u8] + le_encode(v / 256, (k - 1) as nat));
        assert(le_encode(v, k + 1) =~= le_encode(v, k).push(((v / pow256(k)) % 256) as u8));
    }
}

/// A consumable slice of physical memory: a cursor over `remaining` bytes
/// starting at `start`
#[derive(Debug)]
pub struct PhysSlice {
    /// The physical address the rest of the slice starts at
    addr: PhysAddr,

    /// The number of bytes left in the slice
    len: usize,
}

impl PhysSlice {
    /// Address of the first byte not yet consumed
    pub closed spec fn start(&self) -> int {
        self.addr.0 as int
    }

    /// Number of bytes not yet consumed
    pub closed spec fn remaining(&self) -> int {
        self.len as int
    }

    /// The slice ends below the top of the address space
    pub open spec fn wf(&self) -> bool {
        self.start() + self.remaining() <= u64::MAX
    }

    /// Create a new slice to physical memory at `addr` for `len` bytes
    pub fn new(addr: PhysAddr, len: usize) -> (r: PhysSlice)
        requires
            addr.0 + len <= u64::MAX,
        ensures
            r.wf(),
            r.start() == addr.0,
            r.remaining() == len,
    {
        PhysSlice { addr, len }
    }

    /// Get the remaining length of the slice
    pub fn len(&self) -> (r: usize)
        ensures
            r == self.remaining(),
    {
        self.len
    }

    /// Discard `bytes` from the front of the slice; fails, changing
    /// nothing, when fewer bytes remain
    pub fn discard(&mut self, bytes: usize) -> (r: Result<(), ()>)
        requires
            old(self).wf(),
        ensures
            final(self).wf(),
            r is Ok <==> bytes <= old(self).remaining(),
            r is Ok ==> final(self).start() == old(self).start() + bytes
                && final(self).remaining() == old(self).remaining() - bytes,
            r is Err ==> *final(self) == *old(self),
    {
        if self.len >= bytes {
            self.addr = PhysAddr(self.addr.0 + bytes as u64);
            self.len = self.len - bytes;
            Ok(())
        } else {
            Err(())
        }
    }

    /// Read `n` bytes from the front of the slice; fails, changing nothing,
    /// when fewer bytes remain or any of them is unmapped
    pub fn consume(&mut self, mem: &PhysMemory, n: usize) -> (r: Result<Vec<u8>, ()>)
        requires
            old(self).wf(),
            mem.wf(),
        ensures
            final(self).wf(),
            r is Ok <==> n <= old(self).remaining() && mem.mapped(old(self).start(), n as int),
            r matches Ok(v) ==> v@ == mem.bytes_at(old(self).start(), n as int)
                && final(self).start() == old(self).start() + n
                && final(self).remaining() == old(self).remaining() - n,
            r is Err ==> *final(self) == *old(self),
    {
        if self.len < n {
            return Err(());
        }
        match mem.read_bytes(self.addr, n) {
            Some(v) => {
                self.addr = PhysAddr(self.addr.0 + n as u64);
                self.len = self.len - n;
                Ok(v)
            },
            None => Err(()),
        }
    }

    /// Read the little-endian value of `n` bytes from the front of the
    /// slice, whatever its alignment; fails, changing nothing, when fewer
    /// bytes remain or any of them is unmapped
    pub fn consume_le(&mut self, mem: &PhysMemory, n: usize) -> (r: Result<u64, ()>)
        requires
            old(self).wf(),
            mem.wf(),
            n <= 8,
        ensures
            final(self).wf(),
            r is Ok <==> n <= old(self).remaining() && mem.mapped(old(self).start(), n as int),
            r matches Ok(v) ==> v as nat == le_bytes(mem.bytes_at(old(self).start(), n as int))
                && final(self).start() == old(self).start() + n
                && final(self).remaining() == old(self).remaining() - n,
            r is Err ==> *final(self) == *old(self),
    {
        if self.len < n {
            return Err(());
        }
        match mem.read_le(self.addr, n) {
            Some(v) => {
                self.addr = PhysAddr(self.addr.0 + n as u64);
                self.len = self.len - n;
                Ok(v)
            },
            None => Err(()),
        }
    }
}

/// A cursor never hands out more than it holds, and its accounting is
/// exact: after a successful consume of `n` bytes and a successful discard
/// of `m` bytes, `n + m` fewer bytes remain and the start has moved by as
/// many
pub proof fn lemma_consume_then_discard(c0: PhysSlice, c1: PhysSlice, c2: PhysSlice, n: int, m: int)
    requires
        c0.wf(),
        n >= 0,
        m >= 0,
        n <= c0.remaining(),
        c1.start() == c0.start() + n,
        c1.remaining() == c0.remaining() - n,
        m <= c1.remaining(),
        c2.start() == c1.start() + m,
        c2.remaining() == c1.remaining() - m,
    ensures
        c2.remaining() == c0.remaining() - n - m,
        0 <= c2.remaining() <= c0.remaining(),
        c2.start() == c0.start() + n + m,
        c2.start() + c2.remaining() == c0.start() + c0.remaining(),
{
}

} // verus!
