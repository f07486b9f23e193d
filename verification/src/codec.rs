//! The wire encoding of a frame header: an unsigned 64-bit length stored in
//! 8 bytes, least significant byte first.

use vstd::prelude::*;

verus! {

/// Number of bytes in a frame header.
pub const HEADER_SIZE: usize = 8;

/// The value of a byte sequence read as a little-endian unsigned integer:
/// the first byte is the least significant.
pub open spec fn le_value(s: Seq<u8>) -> nat
    decreases s.len(),
{
    if s.len() == 0 {
        0
    } else {
        s[0] as nat + 256 * le_value(s.drop_first())
    }
}

/// The little-endian encoding of `n` in exactly `len` bytes; bytes beyond
/// `len` are cut off.
pub open spec fn le_bytes(n: nat, len: nat) -> Seq<u8>
    decreases len,
{
    if len == 0 {
        Seq::empty()
    } else {
        seq![(n % 256) as u8] + le_bytes(n / 256, (len - 1) as nat)
    }
}

/// 256 raised to the power `n`: the number of values `n` bytes can hold.
pub open spec fn pow256(n: nat) -> nat
    decreases n,
{
    if n == 0 {
        1
    } else {
        256 * pow256((n - 1) as nat)
    }
}

pub proof fn lemma_pow256_values()
    ensures
        pow256(0) == 1,
        pow256(1) == 0x100,
        pow256(2) == 0x1_0000,
        pow256(3) == 0x100_0000,
        pow256(4) == 0x1_0000_0000,
        pow256(5) == 0x100_0000_0000,
        pow256(6) == 0x1_0000_0000_0000,
        pow256(7) == 0x100_0000_0000_0000,
        pow256(8) == 0x1_0000_0000_0000_0000,
{
    assert(pow256(0) == 1);
    assert(pow256(1) == 0x100);
    assert(pow256(2) == 0x1_0000);
    assert(pow256(3) == 0x100_0000);
    assert(pow256(4) == 0x1_0000_0000);
    assert(pow256(5) == 0x100_0000_0000);
    assert(pow256(6) == 0x1_0000_0000_0000);
    assert(pow256(7) == 0x100_0000_0000_0000);
    assert(pow256(8) == 0x1_0000_0000_0000_0000);
}

pub proof fn lemma_pow256_increases(a: nat, b: nat)
    requires
        a <= b,
    ensures
        pow256(a) <= pow256(b),
    decreases b,
{
    if a < b {
        lemma_pow256_increases(a, (b - 1) as nat);
        assert(pow256((b - 1) as nat) >= 1) by {
            lemma_pow256_positive((b - 1) as nat);
        }
    }
}

pub proof fn lemma_pow256_positive(n: nat)
    ensures
        pow256(n) >= 1,
    decreases n,
{
    if n > 0 {
        lemma_pow256_positive((n - 1) as nat);
    }
}

/// A sequence of `len` bytes holds a value below `256^len`.
pub proof fn lemma_le_value_bound(s: Seq<u8>)
    ensures
        le_value(s) < pow256(s.len()),
    decreases s.len(),
{
    if s.len() > 0 {
        lemma_le_value_bound(s.drop_first());
    }
}

/// Decoding an encoded value gives the value back, as long as it fits.
pub proof fn lemma_le_roundtrip(n: nat, len: nat)
    requires
        n < pow256(len),
    ensures
        le_value(le_bytes(n, len)) == n,
    decreases len,
{
    if len == 0 {
        assert(n == 0);
    } else {
        let b = n % 256;
        let rest = n / 256;
        vstd::arithmetic::div_mod::lemma_fundamental_div_mod(n as int, 256);
        assert(rest < pow256((len - 1) as nat)) by {
            if rest >= pow256((len - 1) as nat) {
                assert(256 * rest >= 256 * pow256((len - 1) as nat));
                assert(pow256(len) == 256 * pow256((len - 1) as nat));
                assert(n >= 256 * rest);
            }
        }
        lemma_le_roundtrip(rest, (len - 1) as nat);
        let enc = le_bytes(n, len);
        assert(enc.drop_first() =~= le_bytes(rest, (len - 1) as nat));
        assert(enc[0] == b as u8);
    }
}

/// Reads an 8-byte little-endian header as the declared payload length.
pub fn le_u64_of(bytes: &[u8]) -> (n: u64)
    requires
        bytes@.len() == 8,
    ensures
        n as nat == le_value(bytes@),
{
    let mut n: u64 = 0;
    let mut i: usize = 8;
    while i > 0
        invariant
            bytes@.len() == 8,
            i <= 8,
            n as nat == le_value(bytes@.skip(i as int)),
        decreases i,
    {
        proof {
            lemma_le_value_bound(bytes@.skip(i as int));
            lemma_pow256_increases((8 - i) as nat, 7);
            lemma_pow256_values();
        }
        let b = bytes[i - 1];
        n = n * 256 + b as u64;
        i = i - 1;
        proof {
            assert(bytes@.skip(i as int).drop_first() =~= bytes@.skip(i as int + 1));
            assert(bytes@.skip(i as int)[0] == bytes@[i as int]);
        }
    }
    proof {
        assert(bytes@.skip(0) =~= bytes@);
    }
    n
}

/// Writes `n` as an 8-byte little-endian header.
pub fn encode_header(n: u64) -> (h: Vec<u8>)
    ensures
        h@ == le_bytes(n as nat, 8),
        h@.len() == 8,
        le_value(h@) == n as nat,
{
    let mut h: Vec<u8> = Vec::new();
    let mut rest: u64 = n;
    let mut k: usize = 0;
    while k < 8
        invariant
            k <= 8,
            h@.len() == k,
            le_bytes(n as nat, 8) == h@ + le_bytes(rest as nat, (8 - k) as nat),
        decreases 8 - k,
    {
        let ghost prev_h = h@;
        let ghost prev_rest = rest as nat;
        let ghost prev_left = (8 - k) as nat;
        let b = (rest % 256) as u8;
        h.push(b);
        rest = rest / 256;
        k = k + 1;
        proof {
            assert(le_bytes(prev_rest, prev_left) =~= seq![b] + le_bytes(
                rest as nat,
                (prev_left - 1) as nat,
            ));
            assert(prev_h + le_bytes(prev_rest, prev_left) =~= h@ + le_bytes(
                rest as nat,
                (8 - k) as nat,
            ));
        }
    }
    proof {
        assert(le_bytes(rest as nat, 0) =~= Seq::<u8>::empty());
        assert(h@ + le_bytes(rest as nat, 0) =~= h@);
        lemma_pow256_values();
        lemma_le_roundtrip(n as nat, 8);
    }
    h
}

/// Builds one wire frame: the payload's length as an 8-byte little-endian
/// header, followed by the payload itself.
pub fn encode_frame(payload: &Vec<u8>) -> (frame: Vec<u8>)
    ensures
        frame@ == le_bytes(payload@.len(), 8) + payload@,
        frame@.len() == 8 + payload@.len(),
        frame@.take(8) == le_bytes(payload@.len(), 8),
        frame@.skip(8) == payload@,
        le_value(frame@.take(8)) == payload@.len(),
{
    let mut frame = encode_header(payload.len() as u64);
    let ghost hdr = frame@;
    let mut j: usize = 0;
    while j < payload.len()
        invariant
            j <= payload@.len(),
            hdr == le_bytes(payload@.len(), 8),
            hdr.len() == 8,
            le_value(hdr) == payload@.len(),
            frame@ == hdr + payload@.take(j as int),
        decreases payload@.len() - j,
    {
        let b = payload[j];
        frame.push(b);
        j = j + 1;
        proof {
            assert(hdr + payload@.take(j - 1).push(b) =~= hdr + payload@.take(j as int));
        }
    }
    proof {
        assert(payload@.take(payload@.len() as int) =~= payload@);
        assert(frame@.take(8) =~= hdr);
        assert(frame@.skip(8) =~= payload@);
    }
    frame
}

} // verus!
