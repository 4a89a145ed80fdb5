//! Unsigned base-128 varint (LEB128) writing, and the compact-protocol
//! primitives built on it: length-prefixed binary strings and list headers.

use vstd::prelude::*;

verus! {

/// The LEB128 byte sequence of `n`: 7-bit groups, least significant first,
/// the high bit of every byte but the last set. Zero is one zero byte.
pub open spec fn varint(n: u64) -> Seq<u8>
    decreases n,
{
    if n < 0x80 {
        seq![n as u8]
    } else {
        seq![(n % 0x80 + 0x80) as u8] + varint(n / 0x80)
    }
}

/// The value a standard LEB128 reader takes from the head of `s`: it consumes
/// bytes while the high bit is set, then one more.
pub open spec fn leb128_read(s: Seq<u8>) -> int
    decreases s.len(),
{
    if s.len() == 0 {
        0
    } else if s[0] < 0x80 {
        s[0] as int
    } else {
        (s[0] - 0x80) + 0x80 * leb128_read(s.skip(1))
    }
}

/// How many bytes the reader consumes from the head of `s`.
pub open spec fn leb128_len(s: Seq<u8>) -> int
    decreases s.len(),
{
    if s.len() == 0 {
        0
    } else if s[0] < 0x80 {
        1
    } else {
        1 + leb128_len(s.skip(1))
    }
}

/// A binary value: the varint byte length, then the raw bytes verbatim.
pub open spec fn binary(b: Seq<u8>) -> Seq<u8> {
    varint(b.len() as u64) + b
}

/// A list header for a list of struct elements (type code 12): one byte
/// holding count and type for short lists, the extended form with a varint
/// count from 15 elements up.
pub open spec fn list_header(count: u64) -> Seq<u8> {
    if count < 15 {
        seq![(16 * count + 12) as u8]
    } else {
        seq![0xfcu8] + varint(count)
    }
}

/// Append the LEB128 bytes of `n` to `buf`.
pub fn write_varint(buf: &mut Vec<u8>, n: u64)
    ensures
        final(buf)@ == old(buf)@ + varint(n),
{
    let mut m: u64 = n;
    let mut done: bool = false;
    while !done
        invariant
            !done ==> buf@ + varint(m) == old(buf)@ + varint(n),
            done ==> buf@ == old(buf)@ + varint(n),
        decreases m + (if done { 0int } else { 1int }),
    {
        if m < 0x80 {
            buf.push(m as u8);
            proof {
                assert(buf@ =~= old(buf)@ + varint(n));
            }
            done = true;
        } else {
            let b: u8 = (m % 0x80) as u8 + 0x80;
            buf.push(b);
            proof {
                assert(buf@ + varint(m / 0x80) =~= old(buf)@ + varint(n));
            }
            m = m / 0x80;
        }
    }
}

/// Append a binary value: varint length prefix, then the bytes verbatim.
pub fn encode(bytes: &[u8], buf: &mut Vec<u8>)
    ensures
        final(buf)@ == old(buf)@ + binary(bytes@),
{
    write_varint(buf, bytes.len() as u64);
    let mut i: usize = 0;
    while i < bytes.len()
        invariant
            i <= bytes@.len(),
            buf@ == old(buf)@ + varint(bytes@.len() as u64) + bytes@.take(i as int),
        decreases bytes@.len() - i,
    {
        buf.push(bytes[i]);
        proof {
            assert(bytes@.take(i + 1) =~= bytes@.take(i as int).push(bytes@[i as int]));
            assert(buf@ =~= old(buf)@ + varint(bytes@.len() as u64) + bytes@.take(i + 1));
        }
        i = i + 1;
    }
    proof {
        assert(bytes@.take(bytes@.len() as int) =~= bytes@);
        assert(buf@ =~= old(buf)@ + binary(bytes@));
    }
}

/// Append a struct-list header for `count` elements.
pub fn write_list_header(buf: &mut Vec<u8>, count: usize)
    ensures
        final(buf)@ == old(buf)@ + list_header(count as u64),
{
    if count < 15 {
        buf.push((16 * count + 12) as u8);
        proof {
            assert(buf@ =~= old(buf)@ + list_header(count as u64));
        }
    } else {
        buf.push(0xfc);
        write_varint(buf, count as u64);
        proof {
            assert(buf@ =~= old(buf)@ + list_header(count as u64));
        }
    }
}

/// A standard LEB128 reader handed `varint(n)` at the head of a stream gives
/// back exactly `n`, consuming exactly the written bytes, whatever follows.
pub proof fn lemma_varint_round_trip(n: u64, rest: Seq<u8>)
    ensures
        leb128_read(varint(n) + rest) == n,
        leb128_len(varint(n) + rest) == varint(n).len(),
    decreases n,
{
    let s = varint(n) + rest;
    if n < 0x80 {
        assert(s[0] == n as u8);
    } else {
        assert(s[0] == (n % 0x80 + 0x80) as u8);
        assert(s.skip(1) =~= varint(n / 0x80) + rest);
        lemma_varint_round_trip(n / 0x80, rest);
        vstd::arithmetic::div_mod::lemma_fundamental_div_mod(n as int, 0x80);
    }
}

/// The byte count of a varint: one byte below 128, and one more byte for
/// every further 7 significant bits.
pub proof fn lemma_varint_len(n: u64)
    ensures
        n < 0x80 ==> varint(n).len() == 1,
        n >= 0x80 ==> varint(n).len() == 1 + varint(n / 0x80).len(),
{
}

} // verus!
