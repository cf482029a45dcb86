//! Fixed-width big-endian integers: the wire form of every derived value
//! (length prefix or discriminant) a producer field writes.

use vstd::prelude::*;

verus! {

/// The integer kinds a producer field may declare for its derived value.
#[derive(Clone, Copy, PartialEq, Eq, Structural, Debug)]
pub enum IntKind {
    U8,
    U16,
    U32,
    U64,
}

/// 256 raised to `w`: the number of values `w` bytes can carry.
pub open spec fn pow256(w: nat) -> nat
    decreases w,
{
    if w == 0 {
        1
    } else {
        256 * pow256((w - 1) as nat)
    }
}

impl IntKind {
    /// Width of the kind on the wire, in bytes.
    pub open spec fn width(self) -> nat {
        match self {
            IntKind::U8 => 1,
            IntKind::U16 => 2,
            IntKind::U32 => 4,
            IntKind::U64 => 8,
        }
    }

    /// Largest value the kind can carry.
    pub open spec fn max_value(self) -> nat {
        (pow256(self.width()) - 1) as nat
    }

    pub fn width_bytes(&self) -> (w: usize)
        ensures
            w == self.width(),
    {
        match self {
            IntKind::U8 => 1,
            IntKind::U16 => 2,
            IntKind::U32 => 4,
            IntKind::U64 => 8,
        }
    }

    pub fn max_value_u64(&self) -> (m: u64)
        ensures
            m as nat == self.max_value(),
    {
        proof {
            lemma_pow256_values();
        }
        match self {
            IntKind::U8 => 0xff,
            IntKind::U16 => 0xffff,
            IntKind::U32 => 0xffff_ffff,
            IntKind::U64 => 0xffff_ffff_ffff_ffff,
        }
    }
}

/// The big-endian bytes of `v`, `w` bytes wide: the last byte is the least
/// significant.
pub open spec fn be_bytes(v: nat, w: nat) -> Seq<u8>
    decreases w,
{
    if w == 0 {
        Seq::empty()
    } else {
        be_bytes(v / 256, (w - 1) as nat) + seq![(v % 256) as u8]
    }
}

/// The value of a big-endian byte string.
pub open spec fn be_value(s: Seq<u8>) -> nat
    decreases s.len(),
{
    if s.len() == 0 {
        0
    } else {
        be_value(s.drop_last()) * 256 + s.last() as nat
    }
}

pub proof fn lemma_pow256_values()
    ensures
        pow256(1) == 0x100,
        pow256(2) == 0x10000,
        pow256(4) == 0x1_0000_0000,
        pow256(8) == 0x1_0000_0000_0000_0000,
{
    reveal_with_fuel(pow256, 9);
}

pub proof fn lemma_pow256_pos(i: nat)
    ensures
        pow256(i) >= 1,
    decreases i,
{
    if i > 0 {
        lemma_pow256_pos((i - 1) as nat);
    }
}

pub proof fn lemma_pow256_increases(i: nat, j: nat)
    requires
        i <= j,
    ensures
        pow256(i) <= pow256(j),
        pow256(i) >= 1,
    decreases j,
{
    lemma_pow256_pos(i);
    if i < j {
        lemma_pow256_increases(i, (j - 1) as nat);
    }
}

proof fn lemma_div256_bound(v: nat, w: nat)
    requires
        w >= 1,
        v < pow256(w),
    ensures
        v / 256 < pow256((w - 1) as nat),
{
    let p = pow256((w - 1) as nat);
    assert(v < 256 * p);
    assert(v / 256 < p) by (nonlinear_arith)
        requires
            v < 256 * p,
    ;
}

pub proof fn lemma_be_bytes_len(v: nat, w: nat)
    ensures
        be_bytes(v, w).len() == w,
    decreases w,
{
    if w > 0 {
        lemma_be_bytes_len(v / 256, (w - 1) as nat);
    }
}

/// Reading back the big-endian bytes of an in-range value yields the value.
pub proof fn lemma_be_value_of_bytes(v: nat, w: nat)
    requires
        v < pow256(w),
    ensures
        be_value(be_bytes(v, w)) == v,
    decreases w,
{
    if w > 0 {
        let rest = be_bytes(v / 256, (w - 1) as nat);
        let whole = rest + seq![(v % 256) as u8];
        lemma_be_bytes_len(v / 256, (w - 1) as nat);
        assert(whole.drop_last() =~= rest);
        lemma_div256_bound(v, w);
        lemma_be_value_of_bytes(v / 256, (w - 1) as nat);
        assert(be_value(whole) == (v / 256) * 256 + v % 256);
        assert((v / 256) * 256 + v % 256 == v) by (nonlinear_arith);
    }
}

/// The value of `w` bytes is below `pow256(w)`.
pub proof fn lemma_be_value_bound(s: Seq<u8>)
    ensures
        be_value(s) < pow256(s.len()),
    decreases s.len(),
{
    if s.len() > 0 {
        lemma_be_value_bound(s.drop_last());
        let p = pow256((s.len() - 1) as nat);
        assert(be_value(s.drop_last()) * 256 <= (p - 1) * 256) by (nonlinear_arith)
            requires
                be_value(s.drop_last()) <= p - 1,
        ;
    }
}

fn push_be(v: u64, w: usize, out: &mut Vec<u8>)
    requires
        w <= 8,
        (v as nat) < pow256(w as nat),
    ensures
        final(out)@ == old(out)@ + be_bytes(v as nat, w as nat),
    decreases w,
{
    if w == 0 {
        assert(out@ =~= old(out)@ + be_bytes(v as nat, 0));
    } else {
        proof {
            lemma_div256_bound(v as nat, w as nat);
        }
        push_be(v / 256, w - 1, out);
        out.push((v % 256) as u8);
        assert(out@ =~= old(out)@ + be_bytes(v as nat, w as nat));
    }
}

/// Appends the big-endian encoding of `v`, `kind.width()` bytes wide.
pub fn write_be(kind: IntKind, v: u64, out: &mut Vec<u8>)
    requires
        v as nat <= kind.max_value(),
    ensures
        final(out)@ == old(out)@ + be_bytes(v as nat, kind.width()),
{
    let w = kind.width_bytes();
    proof {
        lemma_pow256_increases(kind.width(), kind.width());
    }
    push_be(v, w, out);
}

/// Reads a big-endian integer `kind.width()` bytes wide at `pos`.
pub fn read_be(kind: IntKind, data: &Vec<u8>, pos: usize) -> (v: u64)
    requires
        pos + kind.width() <= data@.len(),
    ensures
        v as nat == be_value(data@.subrange(pos as int, pos as int + kind.width())),
        v as nat <= kind.max_value(),
{
    let w = kind.width_bytes();
    let n: usize = data.len();
    let mut acc: u64 = 0;
    let mut i: usize = 0;
    proof {
        lemma_pow256_values();
        assert(data@.subrange(pos as int, pos as int) =~= Seq::<u8>::empty());
    }
    while i < w
        invariant
            i <= w,
            w == kind.width(),
            n == data@.len(),
            pos + w <= n,
            acc as nat == be_value(data@.subrange(pos as int, pos as int + i)),
            (acc as nat) < pow256(i as nat),
            pow256(8) == 0x1_0000_0000_0000_0000,
        decreases w - i,
    {
        let b = data[pos + i];
        proof {
            let taken = data@.subrange(pos as int, pos as int + i + 1);
            assert(taken.drop_last() =~= data@.subrange(pos as int, pos as int + i));
            assert(taken.last() == b);
            lemma_pow256_increases((i + 1) as nat, 8);
            assert(acc as nat * 256 + b < pow256((i + 1) as nat)) by (nonlinear_arith)
                requires
                    (acc as nat) < pow256(i as nat),
                    b < 256,
                    pow256((i + 1) as nat) == 256 * pow256(i as nat),
            ;
        }
        acc = acc * 256 + b as u64;
        i = i + 1;
    }
    proof {
        lemma_be_value_bound(data@.subrange(pos as int, pos as int + w));
    }
    acc
}

} // verus!
