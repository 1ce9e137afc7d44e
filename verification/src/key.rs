//! Keys of hash tables.
//!
//! A key feeds a canonical byte encoding of itself to the standard
//! library's `DefaultHasher`, and compares with other keys by value. Both
//! depend only on the key's view, so equal keys always land in the same
//! probe sequence.
use std::collections::hash_map::DefaultHasher;
use std::hash::Hasher;
use vstd::prelude::*;
use vstd::std_specs::hash::DefaultHasherAdditionalSpecFns;
use vstd::utf8::encode_utf8;

verus! {

/// A type whose values can be hashed and compared by their views.
pub trait HashKey: View + Sized {
    /// The byte strings that `hash_into` writes for a key with view `k`.
    spec fn hash_input(k: Self::V) -> Seq<Seq<u8>>;

    /// Writes this key's bytes to `state`.
    fn hash_into(&self, state: &mut DefaultHasher)
        ensures
            final(state)@ == old(state)@ + Self::hash_input(self@),
    ;

    /// Whether two keys are the same key.
    fn key_eq(&self, other: &Self) -> (b: bool)
        ensures
            b == (self@ == other@),
    ;
}

/// The hash of a key with view `k`: what a fresh `DefaultHasher` finishes
/// with after the key's bytes were written to it.
pub open spec fn key_hash<K: HashKey>(k: K::V) -> u64 {
    DefaultHasher::spec_finish(K::hash_input(k))
}

/// Hashes `key` with a fresh `DefaultHasher`.
pub fn make_hash<K: HashKey>(key: &K) -> (h: u64)
    ensures
        h == key_hash::<K>(key@),
{
    let mut hasher = DefaultHasher::new();
    key.hash_into(&mut hasher);
    proof {
        assert(Seq::<Seq<u8>>::empty() + K::hash_input(key@) =~= K::hash_input(key@));
    }
    hasher.finish()
}

/// The little-endian bytes of a 32-bit pattern.
pub open spec fn bytes_u32(x: u32) -> Seq<u8> {
    seq![x as u8, (x >> 8u32) as u8, (x >> 16u32) as u8, (x >> 24u32) as u8]
}

/// The little-endian bytes of a 64-bit pattern.
pub open spec fn bytes_u64(x: u64) -> Seq<u8> {
    seq![
        x as u8,
        (x >> 8u64) as u8,
        (x >> 16u64) as u8,
        (x >> 24u64) as u8,
        (x >> 32u64) as u8,
        (x >> 40u64) as u8,
        (x >> 48u64) as u8,
        (x >> 56u64) as u8,
    ]
}

/// The byte of an 8-bit pattern.
pub open spec fn bytes_u8(x: u8) -> Seq<u8> {
    seq![x]
}

/// The little-endian bytes of a 16-bit pattern.
pub open spec fn bytes_u16(x: u16) -> Seq<u8> {
    seq![x as u8, (x >> 8u16) as u8]
}

fn write_u8(state: &mut DefaultHasher, x: u8)
    ensures
        final(state)@ == old(state)@.push(bytes_u8(x)),
{
    let b: [u8; 1] = [x];
    state.write(b.as_slice());
    proof {
        assert(b@ =~= bytes_u8(x));
    }
}

fn write_u16(state: &mut DefaultHasher, x: u16)
    ensures
        final(state)@ == old(state)@.push(bytes_u16(x)),
{
    let b: [u8; 2] = [x as u8, (x >> 8u16) as u8];
    state.write(b.as_slice());
    proof {
        assert(b@ =~= bytes_u16(x));
    }
}

fn write_u32(state: &mut DefaultHasher, x: u32)
    ensures
        final(state)@ == old(state)@.push(bytes_u32(x)),
{
    let b: [u8; 4] = [x as u8, (x >> 8u32) as u8, (x >> 16u32) as u8, (x >> 24u32) as u8];
    state.write(b.as_slice());
}

fn write_u64(state: &mut DefaultHasher, x: u64)
    ensures
        final(state)@ == old(state)@.push(bytes_u64(x)),
{
    let b: [u8; 8] = [
        x as u8,
        (x >> 8u64) as u8,
        (x >> 16u64) as u8,
        (x >> 24u64) as u8,
        (x >> 32u64) as u8,
        (x >> 40u64) as u8,
        (x >> 48u64) as u8,
        (x >> 56u64) as u8,
    ];
    state.write(b.as_slice());
}

impl HashKey for u32 {
    open spec fn hash_input(k: u32) -> Seq<Seq<u8>> {
        seq![bytes_u32(k)]
    }

    fn hash_into(&self, state: &mut DefaultHasher) {
        write_u32(state, *self);
        proof {
            assert(old(state)@.push(bytes_u32(*self)) =~= old(state)@ + seq![bytes_u32(*self)]);
        }
    }

    fn key_eq(&self, other: &Self) -> (b: bool) {
        *self == *other
    }
}

impl HashKey for i32 {
    open spec fn hash_input(k: i32) -> Seq<Seq<u8>> {
        seq![bytes_u32(k as u32)]
    }

    fn hash_into(&self, state: &mut DefaultHasher) {
        write_u32(state, *self as u32);
        proof {
            assert(old(state)@.push(bytes_u32(*self as u32)) =~= old(state)@ + seq![
                bytes_u32(*self as u32),
            ]);
        }
    }

    fn key_eq(&self, other: &Self) -> (b: bool) {
        *self == *other
    }
}

impl HashKey for u64 {
    open spec fn hash_input(k: u64) -> Seq<Seq<u8>> {
        seq![bytes_u64(k)]
    }

    fn hash_into(&self, state: &mut DefaultHasher) {
        write_u64(state, *self);
        proof {
            assert(old(state)@.push(bytes_u64(*self)) =~= old(state)@ + seq![bytes_u64(*self)]);
        }
    }

    fn key_eq(&self, other: &Self) -> (b: bool) {
        *self == *other
    }
}

impl HashKey for i64 {
    open spec fn hash_input(k: i64) -> Seq<Seq<u8>> {
        seq![bytes_u64(k as u64)]
    }

    fn hash_into(&self, state: &mut DefaultHasher) {
        write_u64(state, *self as u64);
        proof {
            assert(old(state)@.push(bytes_u64(*self as u64)) =~= old(state)@ + seq![
                bytes_u64(*self as u64),
            ]);
        }
    }

    fn key_eq(&self, other: &Self) -> (b: bool) {
        *self == *other
    }
}

impl HashKey for usize {
    open spec fn hash_input(k: usize) -> Seq<Seq<u8>> {
        seq![bytes_u64(k as u64)]
    }

    fn hash_into(&self, state: &mut DefaultHasher) {
        write_u64(state, *self as u64);
        proof {
            assert(old(state)@.push(bytes_u64(*self as u64)) =~= old(state)@ + seq![
                bytes_u64(*self as u64),
            ]);
        }
    }

    fn key_eq(&self, other: &Self) -> (b: bool) {
        *self == *other
    }
}

impl HashKey for u8 {
    open spec fn hash_input(k: u8) -> Seq<Seq<u8>> {
        seq![bytes_u8(k)]
    }

    fn hash_into(&self, state: &mut DefaultHasher) {
        write_u8(state, *self);
        proof {
            assert(old(state)@.push(bytes_u8(*self)) =~= old(state)@ + seq![bytes_u8(*self)]);
        }
    }

    fn key_eq(&self, other: &Self) -> (b: bool) {
        *self == *other
    }
}

impl HashKey for i8 {
    open spec fn hash_input(k: i8) -> Seq<Seq<u8>> {
        seq![bytes_u8(k as u8)]
    }

    fn hash_into(&self, state: &mut DefaultHasher) {
        write_u8(state, *self as u8);
        proof {
            assert(old(state)@.push(bytes_u8(*self as u8)) =~= old(state)@ + seq![bytes_u8(*self as u8)]);
        }
    }

    fn key_eq(&self, other: &Self) -> (b: bool) {
        *self == *other
    }
}

impl HashKey for u16 {
    open spec fn hash_input(k: u16) -> Seq<Seq<u8>> {
        seq![bytes_u16(k)]
    }

    fn hash_into(&self, state: &mut DefaultHasher) {
        write_u16(state, *self);
        proof {
            assert(old(state)@.push(bytes_u16(*self)) =~= old(state)@ + seq![bytes_u16(*self)]);
        }
    }

    fn key_eq(&self, other: &Self) -> (b: bool) {
        *self == *other
    }
}

impl HashKey for i16 {
    open spec fn hash_input(k: i16) -> Seq<Seq<u8>> {
        seq![bytes_u16(k as u16)]
    }

    fn hash_into(&self, state: &mut DefaultHasher) {
        write_u16(state, *self as u16);
        proof {
            assert(old(state)@.push(bytes_u16(*self as u16)) =~= old(state)@ + seq![bytes_u16(*self as u16)]);
        }
    }

    fn key_eq(&self, other: &Self) -> (b: bool) {
        *self == *other
    }
}

impl HashKey for isize {
    open spec fn hash_input(k: isize) -> Seq<Seq<u8>> {
        seq![bytes_u64(k as u64)]
    }

    fn hash_into(&self, state: &mut DefaultHasher) {
        write_u64(state, *self as u64);
        proof {
            assert(old(state)@.push(bytes_u64(*self as u64)) =~= old(state)@ + seq![bytes_u64(*self as u64)]);
        }
    }

    fn key_eq(&self, other: &Self) -> (b: bool) {
        *self == *other
    }
}

impl HashKey for char {
    open spec fn hash_input(k: char) -> Seq<Seq<u8>> {
        seq![bytes_u32(k as u32)]
    }

    fn hash_into(&self, state: &mut DefaultHasher) {
        write_u32(state, *self as u32);
        proof {
            assert(old(state)@.push(bytes_u32(*self as u32)) =~= old(state)@ + seq![bytes_u32(*self as u32)]);
        }
    }

    fn key_eq(&self, other: &Self) -> (b: bool) {
        *self == *other
    }
}

/// `false` writes the byte 0 and `true` the byte 1.
impl HashKey for bool {
    open spec fn hash_input(k: bool) -> Seq<Seq<u8>> {
        seq![bytes_u8(if k { 1u8 } else { 0u8 })]
    }

    fn hash_into(&self, state: &mut DefaultHasher) {
        let byte: u8 = if *self {
            1
        } else {
            0
        };
        write_u8(state, byte);
        proof {
            assert(old(state)@.push(bytes_u8(byte)) =~= old(state)@ + seq![bytes_u8(byte)]);
        }
    }

    fn key_eq(&self, other: &Self) -> (b: bool) {
        *self == *other
    }
}

/// A 128-bit key writes its low and then its high 64 bits.
impl HashKey for u128 {
    open spec fn hash_input(k: u128) -> Seq<Seq<u8>> {
        seq![bytes_u64(k as u64), bytes_u64((k >> 64u128) as u64)]
    }

    fn hash_into(&self, state: &mut DefaultHasher) {
        write_u64(state, *self as u64);
        write_u64(state, (*self >> 64u128) as u64);
        proof {
            assert(old(state)@.push(bytes_u64(*self as u64)).push(bytes_u64((*self >> 64u128) as u64))
                =~= old(state)@ + seq![bytes_u64(*self as u64), bytes_u64((*self >> 64u128) as u64)]);
        }
    }

    fn key_eq(&self, other: &Self) -> (b: bool) {
        *self == *other
    }
}

/// A 128-bit key writes its low and then its high 64 bits.
impl HashKey for i128 {
    open spec fn hash_input(k: i128) -> Seq<Seq<u8>> {
        seq![bytes_u64(k as u64), bytes_u64((k as u128 >> 64u128) as u64)]
    }

    fn hash_into(&self, state: &mut DefaultHasher) {
        let bits: u128 = *self as u128;
        write_u64(state, bits as u64);
        write_u64(state, (bits >> 64u128) as u64);
        proof {
            assert(bits as u64 == *self as u64) by (bit_vector)
                requires
                    bits == *self as u128,
            ;
            assert(old(state)@.push(bytes_u64(*self as u64)).push(bytes_u64((bits >> 64u128) as u64))
                =~= old(state)@ + seq![bytes_u64(*self as u64), bytes_u64((*self as u128 >> 64u128) as u64)]);
        }
    }

    fn key_eq(&self, other: &Self) -> (b: bool) {
        *self == *other
    }
}

/// A string writes its UTF-8 bytes followed by the byte `0xff`, which
/// never occurs in UTF-8, so that no two strings share an encoding.
impl HashKey for String {
    open spec fn hash_input(k: Seq<char>) -> Seq<Seq<u8>> {
        seq![encode_utf8(k), seq![0xffu8]]
    }

    fn hash_into(&self, state: &mut DefaultHasher) {
        state.write(self.as_str().as_bytes());
        let end: [u8; 1] = [0xffu8];
        state.write(end.as_slice());
        proof {
            assert(end@ =~= seq![0xffu8]);
            assert(old(state)@.push(encode_utf8(self@)).push(seq![0xffu8]) =~= old(state)@
                + seq![encode_utf8(self@), seq![0xffu8]]);
        }
    }

    fn key_eq(&self, other: &Self) -> (b: bool) {
        *self == *other
    }
}

} // verus!
