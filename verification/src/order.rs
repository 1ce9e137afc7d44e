//! Total orders on element types.
//!
//! A priority queue needs to compare its elements, and its proofs need to
//! know that the comparison really is a total order. `TotalOrder` bundles
//! an ordering relation, the laws it obeys, and an executable comparison
//! that agrees with it.
use vstd::prelude::*;
use vstd::utf8::{
    char_is_scalar, encode_scalar, encode_utf8, has_width_1_encoding, has_width_2_encoding,
    has_width_3_encoding, is_scalar, last_continuation_byte, leading_byte_width_1,
    leading_byte_width_2, leading_byte_width_3, leading_byte_width_4,
    second_last_continuation_byte, third_last_continuation_byte,
};

verus! {

/// A total order: reflexive, transitive and total.
pub trait TotalOrder: Sized {
    /// `self` sorts at or before `other`.
    spec fn ord_le(self, other: Self) -> bool;

    proof fn ord_reflexive(x: Self)
        ensures
            Self::ord_le(x, x),
    ;

    proof fn ord_transitive(x: Self, y: Self, z: Self)
        requires
            Self::ord_le(x, y),
            Self::ord_le(y, z),
        ensures
            Self::ord_le(x, z),
    ;

    proof fn ord_total(x: Self, y: Self)
        ensures
            Self::ord_le(x, y) || Self::ord_le(y, x),
    ;

    /// Whether `self` sorts strictly after `other`.
    fn is_greater(&self, other: &Self) -> (r: bool)
        ensures
            r == !Self::ord_le(*self, *other),
    ;
}

impl TotalOrder for i32 {
    open spec fn ord_le(self, other: Self) -> bool {
        self <= other
    }

    proof fn ord_reflexive(x: Self) {
    }

    proof fn ord_transitive(x: Self, y: Self, z: Self) {
    }

    proof fn ord_total(x: Self, y: Self) {
    }

    fn is_greater(&self, other: &Self) -> (r: bool) {
        *self > *other
    }
}

impl TotalOrder for i64 {
    open spec fn ord_le(self, other: Self) -> bool {
        self <= other
    }

    proof fn ord_reflexive(x: Self) {
    }

    proof fn ord_transitive(x: Self, y: Self, z: Self) {
    }

    proof fn ord_total(x: Self, y: Self) {
    }

    fn is_greater(&self, other: &Self) -> (r: bool) {
        *self > *other
    }
}

impl TotalOrder for u32 {
    open spec fn ord_le(self, other: Self) -> bool {
        self <= other
    }

    proof fn ord_reflexive(x: Self) {
    }

    proof fn ord_transitive(x: Self, y: Self, z: Self) {
    }

    proof fn ord_total(x: Self, y: Self) {
    }

    fn is_greater(&self, other: &Self) -> (r: bool) {
        *self > *other
    }
}

impl TotalOrder for u64 {
    open spec fn ord_le(self, other: Self) -> bool {
        self <= other
    }

    proof fn ord_reflexive(x: Self) {
    }

    proof fn ord_transitive(x: Self, y: Self, z: Self) {
    }

    proof fn ord_total(x: Self, y: Self) {
    }

    fn is_greater(&self, other: &Self) -> (r: bool) {
        *self > *other
    }
}

impl TotalOrder for usize {
    open spec fn ord_le(self, other: Self) -> bool {
        self <= other
    }

    proof fn ord_reflexive(x: Self) {
    }

    proof fn ord_transitive(x: Self, y: Self, z: Self) {
    }

    proof fn ord_total(x: Self, y: Self) {
    }

    fn is_greater(&self, other: &Self) -> (r: bool) {
        *self > *other
    }
}

impl TotalOrder for i8 {
    open spec fn ord_le(self, other: Self) -> bool {
        self <= other
    }

    proof fn ord_reflexive(x: Self) {
    }

    proof fn ord_transitive(x: Self, y: Self, z: Self) {
    }

    proof fn ord_total(x: Self, y: Self) {
    }

    fn is_greater(&self, other: &Self) -> (r: bool) {
        *self > *other
    }
}

impl TotalOrder for i16 {
    open spec fn ord_le(self, other: Self) -> bool {
        self <= other
    }

    proof fn ord_reflexive(x: Self) {
    }

    proof fn ord_transitive(x: Self, y: Self, z: Self) {
    }

    proof fn ord_total(x: Self, y: Self) {
    }

    fn is_greater(&self, other: &Self) -> (r: bool) {
        *self > *other
    }
}

impl TotalOrder for isize {
    open spec fn ord_le(self, other: Self) -> bool {
        self <= other
    }

    proof fn ord_reflexive(x: Self) {
    }

    proof fn ord_transitive(x: Self, y: Self, z: Self) {
    }

    proof fn ord_total(x: Self, y: Self) {
    }

    fn is_greater(&self, other: &Self) -> (r: bool) {
        *self > *other
    }
}

impl TotalOrder for i128 {
    open spec fn ord_le(self, other: Self) -> bool {
        self <= other
    }

    proof fn ord_reflexive(x: Self) {
    }

    proof fn ord_transitive(x: Self, y: Self, z: Self) {
    }

    proof fn ord_total(x: Self, y: Self) {
    }

    fn is_greater(&self, other: &Self) -> (r: bool) {
        *self > *other
    }
}

impl TotalOrder for u8 {
    open spec fn ord_le(self, other: Self) -> bool {
        self <= other
    }

    proof fn ord_reflexive(x: Self) {
    }

    proof fn ord_transitive(x: Self, y: Self, z: Self) {
    }

    proof fn ord_total(x: Self, y: Self) {
    }

    fn is_greater(&self, other: &Self) -> (r: bool) {
        *self > *other
    }
}

impl TotalOrder for u16 {
    open spec fn ord_le(self, other: Self) -> bool {
        self <= other
    }

    proof fn ord_reflexive(x: Self) {
    }

    proof fn ord_transitive(x: Self, y: Self, z: Self) {
    }

    proof fn ord_total(x: Self, y: Self) {
    }

    fn is_greater(&self, other: &Self) -> (r: bool) {
        *self > *other
    }
}

impl TotalOrder for u128 {
    open spec fn ord_le(self, other: Self) -> bool {
        self <= other
    }

    proof fn ord_reflexive(x: Self) {
    }

    proof fn ord_transitive(x: Self, y: Self, z: Self) {
    }

    proof fn ord_total(x: Self, y: Self) {
    }

    fn is_greater(&self, other: &Self) -> (r: bool) {
        *self > *other
    }
}

impl TotalOrder for char {
    open spec fn ord_le(self, other: Self) -> bool {
        self <= other
    }

    proof fn ord_reflexive(x: Self) {
    }

    proof fn ord_transitive(x: Self, y: Self, z: Self) {
    }

    proof fn ord_total(x: Self, y: Self) {
    }

    fn is_greater(&self, other: &Self) -> (r: bool) {
        *self > *other
    }
}

/// `false` sorts before `true`.
impl TotalOrder for bool {
    open spec fn ord_le(self, other: Self) -> bool {
        !self || other
    }

    proof fn ord_reflexive(x: Self) {
    }

    proof fn ord_transitive(x: Self, y: Self, z: Self) {
    }

    proof fn ord_total(x: Self, y: Self) {
    }

    fn is_greater(&self, other: &Self) -> (r: bool) {
        *self && !*other
    }
}


/// Values of `i8` sort in numeric order, as `i8`'s `Ord` orders them.
pub proof fn lemma_i8_order_is_numeric(x: i8, y: i8)
    ensures
        x.ord_le(y) <==> x as int <= y as int,
        !x.ord_le(y) <==> x as int > y as int,
{
}

/// Values of `i16` sort in numeric order, as `i16`'s `Ord` orders them.
pub proof fn lemma_i16_order_is_numeric(x: i16, y: i16)
    ensures
        x.ord_le(y) <==> x as int <= y as int,
        !x.ord_le(y) <==> x as int > y as int,
{
}

/// Values of `i32` sort in numeric order, as `i32`'s `Ord` orders them.
pub proof fn lemma_i32_order_is_numeric(x: i32, y: i32)
    ensures
        x.ord_le(y) <==> x as int <= y as int,
        !x.ord_le(y) <==> x as int > y as int,
{
}

/// Values of `i64` sort in numeric order, as `i64`'s `Ord` orders them.
pub proof fn lemma_i64_order_is_numeric(x: i64, y: i64)
    ensures
        x.ord_le(y) <==> x as int <= y as int,
        !x.ord_le(y) <==> x as int > y as int,
{
}

/// Values of `i128` sort in numeric order, as `i128`'s `Ord` orders them.
pub proof fn lemma_i128_order_is_numeric(x: i128, y: i128)
    ensures
        x.ord_le(y) <==> x as int <= y as int,
        !x.ord_le(y) <==> x as int > y as int,
{
}

/// Values of `isize` sort in numeric order, as `isize`'s `Ord` orders them.
pub proof fn lemma_isize_order_is_numeric(x: isize, y: isize)
    ensures
        x.ord_le(y) <==> x as int <= y as int,
        !x.ord_le(y) <==> x as int > y as int,
{
}

/// Values of `u8` sort in numeric order, as `u8`'s `Ord` orders them.
pub proof fn lemma_u8_order_is_numeric(x: u8, y: u8)
    ensures
        x.ord_le(y) <==> x as int <= y as int,
        !x.ord_le(y) <==> x as int > y as int,
{
}

/// Values of `u16` sort in numeric order, as `u16`'s `Ord` orders them.
pub proof fn lemma_u16_order_is_numeric(x: u16, y: u16)
    ensures
        x.ord_le(y) <==> x as int <= y as int,
        !x.ord_le(y) <==> x as int > y as int,
{
}

/// Values of `u32` sort in numeric order, as `u32`'s `Ord` orders them.
pub proof fn lemma_u32_order_is_numeric(x: u32, y: u32)
    ensures
        x.ord_le(y) <==> x as int <= y as int,
        !x.ord_le(y) <==> x as int > y as int,
{
}

/// Values of `u64` sort in numeric order, as `u64`'s `Ord` orders them.
pub proof fn lemma_u64_order_is_numeric(x: u64, y: u64)
    ensures
        x.ord_le(y) <==> x as int <= y as int,
        !x.ord_le(y) <==> x as int > y as int,
{
}

/// Values of `u128` sort in numeric order, as `u128`'s `Ord` orders them.
pub proof fn lemma_u128_order_is_numeric(x: u128, y: u128)
    ensures
        x.ord_le(y) <==> x as int <= y as int,
        !x.ord_le(y) <==> x as int > y as int,
{
}

/// Values of `usize` sort in numeric order, as `usize`'s `Ord` orders them.
pub proof fn lemma_usize_order_is_numeric(x: usize, y: usize)
    ensures
        x.ord_le(y) <==> x as int <= y as int,
        !x.ord_le(y) <==> x as int > y as int,
{
}

/// Characters sort by code point, as `char`'s `Ord` orders them.
pub proof fn lemma_char_order_is_code_point(x: char, y: char)
    ensures
        x.ord_le(y) <==> (x as u32) <= (y as u32),
{
}

/// `false` sorts before `true`, as `bool`'s `Ord` orders them.
pub proof fn lemma_bool_order_false_first(x: bool, y: bool)
    ensures
        x.ord_le(y) <==> (x == y || (!x && y)),
        false.ord_le(true),
        !true.ord_le(false),
{
}

/// Lexicographic order on byte strings: a proper prefix sorts first, and
/// otherwise the first differing byte decides.
pub open spec fn bytes_le(a: Seq<u8>, b: Seq<u8>) -> bool
    decreases a.len(),
{
    if a.len() == 0 {
        true
    } else if b.len() == 0 {
        false
    } else if a[0] != b[0] {
        a[0] < b[0]
    } else {
        bytes_le(a.drop_first(), b.drop_first())
    }
}

proof fn lemma_bytes_le_reflexive(a: Seq<u8>)
    ensures
        bytes_le(a, a),
    decreases a.len(),
{
    if a.len() > 0 {
        lemma_bytes_le_reflexive(a.drop_first());
    }
}

proof fn lemma_bytes_le_transitive(a: Seq<u8>, b: Seq<u8>, c: Seq<u8>)
    requires
        bytes_le(a, b),
        bytes_le(b, c),
    ensures
        bytes_le(a, c),
    decreases a.len(),
{
    if a.len() > 0 && b.len() > 0 && c.len() > 0 && a[0] == b[0] && b[0] == c[0] {
        lemma_bytes_le_transitive(a.drop_first(), b.drop_first(), c.drop_first());
    }
}

proof fn lemma_bytes_le_total(a: Seq<u8>, b: Seq<u8>)
    ensures
        bytes_le(a, b) || bytes_le(b, a),
    decreases a.len(),
{
    if a.len() > 0 && b.len() > 0 && a[0] == b[0] {
        lemma_bytes_le_total(a.drop_first(), b.drop_first());
    }
}

/// Compares two byte strings lexicographically: whether `a` sorts strictly
/// after `b`.
fn bytes_greater(a: &[u8], b: &[u8]) -> (r: bool)
    ensures
        r == !bytes_le(a@, b@),
{
    let mut i: usize = 0;
    assert(a@.skip(0) =~= a@);
    assert(b@.skip(0) =~= b@);
    while i < a.len() && i < b.len() && a[i] == b[i]
        invariant
            i <= a@.len(),
            i <= b@.len(),
            bytes_le(a@, b@) == bytes_le(a@.skip(i as int), b@.skip(i as int)),
        decreases a@.len() - i,
    {
        assert(a@.skip(i as int).drop_first() =~= a@.skip(i + 1));
        assert(b@.skip(i as int).drop_first() =~= b@.skip(i + 1));
        i = i + 1;
    }
    if i == a.len() {
        false
    } else if i == b.len() {
        true
    } else {
        a[i] > b[i]
    }
}

/// Strings are ordered by their UTF-8 bytes, which is also the order of
/// their code points.
impl TotalOrder for String {
    open spec fn ord_le(self, other: Self) -> bool {
        bytes_le(encode_utf8(self@), encode_utf8(other@))
    }

    proof fn ord_reflexive(x: Self) {
        lemma_bytes_le_reflexive(encode_utf8(x@));
    }

    proof fn ord_transitive(x: Self, y: Self, z: Self) {
        lemma_bytes_le_transitive(encode_utf8(x@), encode_utf8(y@), encode_utf8(z@));
    }

    proof fn ord_total(x: Self, y: Self) {
        lemma_bytes_le_total(encode_utf8(x@), encode_utf8(y@));
    }

    fn is_greater(&self, other: &Self) -> (r: bool) {
        bytes_greater(self.as_str().as_bytes(), other.as_str().as_bytes())
    }
}

/// Lexicographic order on character strings by code point: a proper
/// prefix sorts first, and otherwise the first differing character
/// decides.
pub open spec fn chars_le(a: Seq<char>, b: Seq<char>) -> bool
    decreases a.len(),
{
    if a.len() == 0 {
        true
    } else if b.len() == 0 {
        false
    } else if (a[0] as u32) != (b[0] as u32) {
        (a[0] as u32) < (b[0] as u32)
    } else {
        chars_le(a.drop_first(), b.drop_first())
    }
}

/// The number of bytes in the UTF-8 encoding of scalar `u`.
spec fn enc_width(u: u32) -> u32 {
    if has_width_1_encoding(u) {
        1
    } else if has_width_2_encoding(u) {
        2
    } else if has_width_3_encoding(u) {
        3
    } else {
        4
    }
}

/// The bytes of the UTF-8 encoding of scalar `u`, by position.
spec fn enc_byte0(u: u32) -> u8 {
    if has_width_1_encoding(u) {
        leading_byte_width_1(u)
    } else if has_width_2_encoding(u) {
        leading_byte_width_2(u)
    } else if has_width_3_encoding(u) {
        leading_byte_width_3(u)
    } else {
        leading_byte_width_4(u)
    }
}

spec fn enc_byte1(u: u32) -> u8 {
    if has_width_2_encoding(u) {
        last_continuation_byte(u)
    } else if has_width_3_encoding(u) {
        second_last_continuation_byte(u)
    } else {
        third_last_continuation_byte(u)
    }
}

spec fn enc_byte2(u: u32) -> u8 {
    if has_width_3_encoding(u) {
        last_continuation_byte(u)
    } else {
        second_last_continuation_byte(u)
    }
}

proof fn lemma_enc_byte0_order(u: u32, v: u32)
    by (bit_vector)
    requires
        is_scalar(u),
        is_scalar(v),
    ensures
        enc_byte0(u) < enc_byte0(v) ==> u < v,
        enc_byte0(u) == enc_byte0(v) ==> enc_width(u) == enc_width(v),
        enc_byte0(u) == enc_byte0(v) && enc_width(u) == 1 ==> u == v,
{
}

proof fn lemma_enc_byte1_order(u: u32, v: u32)
    by (bit_vector)
    requires
        is_scalar(u),
        is_scalar(v),
        enc_byte0(u) == enc_byte0(v),
        enc_width(u) >= 2,
        enc_width(v) == enc_width(u),
    ensures
        enc_byte1(u) < enc_byte1(v) ==> u < v,
        enc_byte1(u) == enc_byte1(v) && enc_width(u) == 2 ==> u == v,
{
}

proof fn lemma_enc_byte2_order(u: u32, v: u32)
    by (bit_vector)
    requires
        is_scalar(u),
        is_scalar(v),
        enc_byte0(u) == enc_byte0(v),
        enc_byte1(u) == enc_byte1(v),
        enc_width(u) >= 3,
        enc_width(v) == enc_width(u),
    ensures
        enc_byte2(u) < enc_byte2(v) ==> u < v,
        enc_byte2(u) == enc_byte2(v) && enc_width(u) == 3 ==> u == v,
{
}

proof fn lemma_enc_byte3_order(u: u32, v: u32)
    by (bit_vector)
    requires
        is_scalar(u),
        is_scalar(v),
        enc_byte0(u) == enc_byte0(v),
        enc_byte1(u) == enc_byte1(v),
        enc_byte2(u) == enc_byte2(v),
        enc_width(u) == 4,
        enc_width(v) == 4,
    ensures
        last_continuation_byte(u) < last_continuation_byte(v) ==> u < v,
        last_continuation_byte(u) == last_continuation_byte(v) ==> u == v,
{
}

/// The encoding of a scalar, byte by byte.
proof fn lemma_encode_scalar_bytes(u: u32)
    requires
        is_scalar(u),
    ensures
        encode_scalar(u).len() == enc_width(u),
        encode_scalar(u)[0] == enc_byte0(u),
        enc_width(u) >= 2 ==> encode_scalar(u)[1] == enc_byte1(u),
        enc_width(u) >= 3 ==> encode_scalar(u)[2] == enc_byte2(u),
        enc_width(u) == 4 ==> encode_scalar(u)[3] == last_continuation_byte(u),
        enc_width(u) == 2 ==> encode_scalar(u)[1] == last_continuation_byte(u),
        enc_width(u) == 3 ==> encode_scalar(u)[2] == last_continuation_byte(u),
{
}

/// Byte strings that agree before position `k` and differ at it are
/// ordered by their bytes at `k`.
proof fn lemma_bytes_le_first_difference(x: Seq<u8>, y: Seq<u8>, k: int)
    requires
        0 <= k < x.len(),
        k < y.len(),
        forall|i: int| 0 <= i < k ==> x[i] == y[i],
        x[k] != y[k],
    ensures
        bytes_le(x, y) == (x[k] < y[k]),
    decreases k,
{
    if k > 0 {
        lemma_bytes_le_first_difference(x.drop_first(), y.drop_first(), k - 1);
    }
}

/// A common prefix does not change how two byte strings compare.
proof fn lemma_bytes_le_common_prefix(p: Seq<u8>, s: Seq<u8>, t: Seq<u8>)
    ensures
        bytes_le(p + s, p + t) == bytes_le(s, t),
    decreases p.len(),
{
    if p.len() > 0 {
        assert((p + s).drop_first() =~= p.drop_first() + s);
        assert((p + t).drop_first() =~= p.drop_first() + t);
        lemma_bytes_le_common_prefix(p.drop_first(), s, t);
    }
}

/// The encodings of two different scalars, whatever follows them, are
/// ordered as the scalars are.
proof fn lemma_encode_scalar_order(u: u32, v: u32, s: Seq<u8>, t: Seq<u8>)
    requires
        is_scalar(u),
        is_scalar(v),
        u != v,
    ensures
        bytes_le(encode_scalar(u) + s, encode_scalar(v) + t) == (u < v),
{
    let e = encode_scalar(u);
    let f = encode_scalar(v);
    let x = e + s;
    let y = f + t;
    lemma_encode_scalar_bytes(u);
    lemma_encode_scalar_bytes(v);
    lemma_enc_byte0_order(u, v);
    lemma_enc_byte0_order(v, u);
    if enc_byte0(u) != enc_byte0(v) {
        lemma_bytes_le_first_difference(x, y, 0);
        return ;
    }
    lemma_enc_byte1_order(u, v);
    lemma_enc_byte1_order(v, u);
    if enc_byte1(u) != enc_byte1(v) {
        lemma_bytes_le_first_difference(x, y, 1);
        return ;
    }
    lemma_enc_byte2_order(u, v);
    lemma_enc_byte2_order(v, u);
    if enc_byte2(u) != enc_byte2(v) {
        lemma_bytes_le_first_difference(x, y, 2);
        return ;
    }
    lemma_enc_byte3_order(u, v);
    lemma_enc_byte3_order(v, u);
    assert forall|i: int| 0 <= i < 3 implies x[i] == y[i] by {
    }
    lemma_bytes_le_first_difference(x, y, 3);
}

/// Comparing UTF-8 encodings byte by byte compares the characters by code
/// point.
proof fn lemma_encode_utf8_order(a: Seq<char>, b: Seq<char>)
    ensures
        bytes_le(encode_utf8(a), encode_utf8(b)) == chars_le(a, b),
    decreases a.len(),
{
    if a.len() > 0 {
        char_is_scalar(a[0]);
        lemma_encode_scalar_bytes(a[0] as u32);
        if b.len() > 0 {
            char_is_scalar(b[0]);
            let u = a[0] as u32;
            let v = b[0] as u32;
            if u == v {
                lemma_bytes_le_common_prefix(
                    encode_scalar(u),
                    encode_utf8(a.drop_first()),
                    encode_utf8(b.drop_first()),
                );
                lemma_encode_utf8_order(a.drop_first(), b.drop_first());
            } else {
                lemma_encode_scalar_order(u, v, encode_utf8(a.drop_first()), encode_utf8(b.drop_first()));
            }
        }
    }
}

/// Strings sort lexicographically by code point, as `String`'s `Ord`
/// orders them: its byte order on UTF-8 agrees with the code points.
pub proof fn lemma_string_order_is_lexicographic(x: String, y: String)
    ensures
        x.ord_le(y) <==> chars_le(x@, y@),
{
    lemma_encode_utf8_order(x@, y@);
}

} // verus!
