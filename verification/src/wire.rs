//! Fixed-width integers as wire bytes, in either byte order.
//!
//! The little-endian form is the one from `vstd::bytes`; the big-endian form
//! is its reversal.  The executable conversions here are the only place the
//! codec turns integers into bytes or back.

use crate::config::Endianness;
use vstd::bytes::*;
use vstd::prelude::*;
use vstd::seq_lib::*;

verus! {

/// The two bytes of `x` in byte order `e`.
pub open spec fn u16_bytes(e: Endianness, x: u16) -> Seq<u8> {
    match e {
        Endianness::Little => spec_u16_to_le_bytes(x),
        Endianness::Big => spec_u16_to_le_bytes(x).reverse(),
    }
}

/// The four bytes of `x` in byte order `e`.
pub open spec fn u32_bytes(e: Endianness, x: u32) -> Seq<u8> {
    match e {
        Endianness::Little => spec_u32_to_le_bytes(x),
        Endianness::Big => spec_u32_to_le_bytes(x).reverse(),
    }
}

/// The eight bytes of `x` in byte order `e`.
pub open spec fn u64_bytes(e: Endianness, x: u64) -> Seq<u8> {
    match e {
        Endianness::Little => spec_u64_to_le_bytes(x),
        Endianness::Big => spec_u64_to_le_bytes(x).reverse(),
    }
}

/// The integer encoded by two bytes in byte order `e`.
pub open spec fn u16_of_bytes(e: Endianness, s: Seq<u8>) -> u16
    recommends
        s.len() == 2,
{
    match e {
        Endianness::Little => spec_u16_from_le_bytes(s),
        Endianness::Big => spec_u16_from_le_bytes(s.reverse()),
    }
}

/// The integer encoded by four bytes in byte order `e`.
pub open spec fn u32_of_bytes(e: Endianness, s: Seq<u8>) -> u32
    recommends
        s.len() == 4,
{
    match e {
        Endianness::Little => spec_u32_from_le_bytes(s),
        Endianness::Big => spec_u32_from_le_bytes(s.reverse()),
    }
}

/// The integer encoded by eight bytes in byte order `e`.
pub open spec fn u64_of_bytes(e: Endianness, s: Seq<u8>) -> u64
    recommends
        s.len() == 8,
{
    match e {
        Endianness::Little => spec_u64_from_le_bytes(s),
        Endianness::Big => spec_u64_from_le_bytes(s.reverse()),
    }
}

/// Writing a 16-bit integer and reading it back are mutually inverse.
pub proof fn lemma_u16_bytes(e: Endianness)
    ensures
        forall|x: u16| (#[trigger] u16_bytes(e, x)).len() == 2,
        forall|x: u16| u16_of_bytes(e, #[trigger] u16_bytes(e, x)) == x,
        forall|s: Seq<u8>| s.len() == 2 ==> #[trigger] u16_bytes(e, u16_of_bytes(e, s)) == s,
{
    lemma_auto_spec_u16_to_from_le_bytes();
    assert forall|s: Seq<u8>| s.len() == 2 implies #[trigger] u16_bytes(e, u16_of_bytes(e, s))
        == s by {
        assert(s.reverse().reverse() =~= s);
        assert(u16_bytes(e, u16_of_bytes(e, s)) =~= s);
    }
    assert forall|x: u16| u16_of_bytes(e, #[trigger] u16_bytes(e, x)) == x by {
        assert(spec_u16_to_le_bytes(x).reverse().reverse() =~= spec_u16_to_le_bytes(x));
    }
}

/// Writing a 32-bit integer and reading it back are mutually inverse.
pub proof fn lemma_u32_bytes(e: Endianness)
    ensures
        forall|x: u32| (#[trigger] u32_bytes(e, x)).len() == 4,
        forall|x: u32| u32_of_bytes(e, #[trigger] u32_bytes(e, x)) == x,
        forall|s: Seq<u8>| s.len() == 4 ==> #[trigger] u32_bytes(e, u32_of_bytes(e, s)) == s,
{
    lemma_auto_spec_u32_to_from_le_bytes();
    assert forall|s: Seq<u8>| s.len() == 4 implies #[trigger] u32_bytes(e, u32_of_bytes(e, s))
        == s by {
        assert(s.reverse().reverse() =~= s);
        assert(u32_bytes(e, u32_of_bytes(e, s)) =~= s);
    }
    assert forall|x: u32| u32_of_bytes(e, #[trigger] u32_bytes(e, x)) == x by {
        assert(spec_u32_to_le_bytes(x).reverse().reverse() =~= spec_u32_to_le_bytes(x));
    }
}

/// Writing a 64-bit integer and reading it back are mutually inverse.
pub proof fn lemma_u64_bytes(e: Endianness)
    ensures
        forall|x: u64| (#[trigger] u64_bytes(e, x)).len() == 8,
        forall|x: u64| u64_of_bytes(e, #[trigger] u64_bytes(e, x)) == x,
        forall|s: Seq<u8>| s.len() == 8 ==> #[trigger] u64_bytes(e, u64_of_bytes(e, s)) == s,
{
    lemma_auto_spec_u64_to_from_le_bytes();
    assert forall|s: Seq<u8>| s.len() == 8 implies #[trigger] u64_bytes(e, u64_of_bytes(e, s))
        == s by {
        assert(s.reverse().reverse() =~= s);
        assert(u64_bytes(e, u64_of_bytes(e, s)) =~= s);
    }
    assert forall|x: u64| u64_of_bytes(e, #[trigger] u64_bytes(e, x)) == x by {
        assert(spec_u64_to_le_bytes(x).reverse().reverse() =~= spec_u64_to_le_bytes(x));
    }
}

/// A prefix of a concatenation is the concatenation of prefixes.
pub proof fn lemma_take_concat(a: Seq<u8>, b: Seq<u8>, k: int)
    ensures
        0 <= k <= a.len() ==> (a + b).take(k) == a.take(k),
        a.len() <= k <= a.len() + b.len() ==> (a + b).take(k) == a + b.take(k - a.len()),
{
    if 0 <= k <= a.len() {
        assert((a + b).take(k) =~= a.take(k));
    }
    if a.len() <= k <= a.len() + b.len() {
        assert((a + b).take(k) =~= a + b.take(k - a.len()));
    }
}

/// A concatenation leading a stream splits into a leading part and a part
/// leading the rest.
pub proof fn lemma_prefix_parts(a: Seq<u8>, b: Seq<u8>, stream: Seq<u8>)
    requires
        (a + b).is_prefix_of(stream),
    ensures
        a.is_prefix_of(stream),
        b.is_prefix_of(stream.skip(a.len() as int)),
{
    let ab = a + b;
    assert(ab == stream.subrange(0, ab.len() as int));
    assert(forall|i: int| 0 <= i < b.len() ==> b[i] == ab[a.len() + i]);
    assert(forall|i: int|
        0 <= i < ab.len() ==> ab[i] == stream.subrange(0, ab.len() as int)[i]);
    assert(a =~= stream.subrange(0, a.len() as int));
    assert(b =~= stream.skip(a.len() as int).subrange(0, b.len() as int));
}

/// Two adjacent runs leading a stream join into one leading run.
pub proof fn lemma_prefix_join(a: Seq<u8>, b: Seq<u8>, stream: Seq<u8>)
    requires
        a.is_prefix_of(stream),
        b.is_prefix_of(stream.skip(a.len() as int)),
    ensures
        (a + b).is_prefix_of(stream),
{
    assert((a + b) =~= stream.subrange(0, a.len() as int + b.len() as int));
}

/// Being a leading run is transitive.
pub proof fn lemma_prefix_trans(a: Seq<u8>, b: Seq<u8>, c: Seq<u8>)
    requires
        a.is_prefix_of(b),
        b.is_prefix_of(c),
    ensures
        a.is_prefix_of(c),
{
    assert(a =~= c.subrange(0, a.len() as int));
}

/// A fresh vector holding the bytes of `s` in reverse order.
fn reverse_bytes(s: &[u8]) -> (r: Vec<u8>)
    ensures
        r@ == s@.reverse(),
{
    let n = s.len();
    let mut r: Vec<u8> = Vec::new();
    let mut i: usize = 0;
    while i < n
        invariant
            n == s@.len(),
            i <= n,
            r@.len() == i,
            forall|j: int| 0 <= j < i ==> r@[j] == s@[n - 1 - j],
        decreases n - i,
    {
        r.push(*vstd::slice::slice_index_get(s, n - 1 - i));
        i = i + 1;
    }
    assert(r@ =~= s@.reverse());
    r
}

/// The wire bytes of a 16-bit integer in byte order `e`.
pub fn u16_to_bytes(e: Endianness, x: u16) -> (r: Vec<u8>)
    ensures
        r@ == u16_bytes(e, x),
{
    let le = u16_to_le_bytes(x);
    match e {
        Endianness::Little => le,
        Endianness::Big => reverse_bytes(le.as_slice()),
    }
}

/// The wire bytes of a 32-bit integer in byte order `e`.
pub fn u32_to_bytes(e: Endianness, x: u32) -> (r: Vec<u8>)
    ensures
        r@ == u32_bytes(e, x),
{
    let le = u32_to_le_bytes(x);
    match e {
        Endianness::Little => le,
        Endianness::Big => reverse_bytes(le.as_slice()),
    }
}

/// The wire bytes of a 64-bit integer in byte order `e`.
pub fn u64_to_bytes(e: Endianness, x: u64) -> (r: Vec<u8>)
    ensures
        r@ == u64_bytes(e, x),
{
    let le = u64_to_le_bytes(x);
    match e {
        Endianness::Little => le,
        Endianness::Big => reverse_bytes(le.as_slice()),
    }
}

/// Reads a 16-bit integer from exactly two bytes in byte order `e`.
pub fn u16_from_bytes(e: Endianness, s: &[u8]) -> (x: u16)
    requires
        s@.len() == 2,
    ensures
        x == u16_of_bytes(e, s@),
{
    match e {
        Endianness::Little => u16_from_le_bytes(s),
        Endianness::Big => {
            let r = reverse_bytes(s);
            u16_from_le_bytes(r.as_slice())
        },
    }
}

/// Reads a 32-bit integer from exactly four bytes in byte order `e`.
pub fn u32_from_bytes(e: Endianness, s: &[u8]) -> (x: u32)
    requires
        s@.len() == 4,
    ensures
        x == u32_of_bytes(e, s@),
{
    match e {
        Endianness::Little => u32_from_le_bytes(s),
        Endianness::Big => {
            let r = reverse_bytes(s);
            u32_from_le_bytes(r.as_slice())
        },
    }
}

/// Reads a 64-bit integer from exactly eight bytes in byte order `e`.
pub fn u64_from_bytes(e: Endianness, s: &[u8]) -> (x: u64)
    requires
        s@.len() == 8,
    ensures
        x == u64_of_bytes(e, s@),
{
    match e {
        Endianness::Little => u64_from_le_bytes(s),
        Endianness::Big => {
            let r = reverse_bytes(s);
            u64_from_le_bytes(r.as_slice())
        },
    }
}

} // verus!
