//! Byte-level building blocks of the wire format: ASCII character classes,
//! case folding, big-endian integer fields, and the length-prefixed label
//! encoding shared by domain names and character strings.

use vstd::prelude::*;

verus! {

// ---------------------------------------------------------------------------
// ASCII character classes and case folding
// ---------------------------------------------------------------------------

/// An ASCII letter.
pub open spec fn is_alpha_byte(b: u8) -> bool {
    (65 <= b && b <= 90) || (97 <= b && b <= 122)
}

/// An ASCII decimal digit.
pub open spec fn is_digit_byte(b: u8) -> bool {
    48 <= b && b <= 57
}

/// An ASCII letter or digit.
pub open spec fn is_alnum_byte(b: u8) -> bool {
    is_alpha_byte(b) || is_digit_byte(b)
}

/// ASCII lower-casing of one byte: DNS name comparison is case-insensitive.
pub open spec fn lower_byte(b: u8) -> u8 {
    if 65 <= b && b <= 90 {
        (b + 32) as u8
    } else {
        b
    }
}

/// ASCII lower-casing of a byte sequence.
pub open spec fn lower_bytes(s: Seq<u8>) -> Seq<u8> {
    s.map_values(|b: u8| lower_byte(b))
}

/// The bytes of an ASCII string, one byte per character.
pub open spec fn ascii_bytes(s: Seq<char>) -> Seq<u8> {
    s.map_values(|c: char| c as u8)
}

pub fn alpha_byte(b: u8) -> (r: bool)
    ensures
        r == is_alpha_byte(b),
{
    (65 <= b && b <= 90) || (97 <= b && b <= 122)
}

pub fn alnum_byte(b: u8) -> (r: bool)
    ensures
        r == is_alnum_byte(b),
{
    alpha_byte(b) || (48 <= b && b <= 57)
}

pub fn to_lower_byte(b: u8) -> (r: u8)
    ensures
        r == lower_byte(b),
{
    if 65 <= b && b <= 90 {
        b + 32
    } else {
        b
    }
}

/// Copy a byte vector.
pub fn clone_bytes(v: &Vec<u8>) -> (r: Vec<u8>)
    ensures
        r@ == v@,
{
    vstd::slice::slice_to_vec(v.as_slice())
}

// ---------------------------------------------------------------------------
// Big-endian integer fields
// ---------------------------------------------------------------------------

/// The two bytes of a 16-bit integer, most significant first.
pub open spec fn u16_be(x: u16) -> Seq<u8> {
    seq![(x / 256) as u8, (x % 256) as u8]
}

/// The 16-bit integer read from two bytes, most significant first.
pub open spec fn u16_of(hi: u8, lo: u8) -> u16 {
    (hi as int * 256 + lo as int) as u16
}

/// The four bytes of a 32-bit integer, most significant first.
pub open spec fn u32_be(x: u32) -> Seq<u8> {
    seq![
        (x / 0x1000000) as u8,
        ((x / 0x10000) % 256) as u8,
        ((x / 256) % 256) as u8,
        (x % 256) as u8,
    ]
}

/// The 32-bit integer read from four bytes, most significant first.
pub open spec fn u32_of(b0: u8, b1: u8, b2: u8, b3: u8) -> u32 {
    (b0 as int * 0x1000000 + b1 as int * 0x10000 + b2 as int * 256 + b3 as int) as u32
}

/// The two's-complement 32-bit pattern of a signed 32-bit integer.
pub open spec fn i32_bits(x: i32) -> u32 {
    if x >= 0 {
        x as u32
    } else {
        (x + 0x1_0000_0000) as u32
    }
}

/// The signed 32-bit integer whose two's-complement pattern is `u`.
pub open spec fn i32_of_bits(u: u32) -> i32 {
    if u <= 0x7FFF_FFFF {
        u as i32
    } else {
        (u - 0x1_0000_0000) as i32
    }
}

/// The four bytes of a signed 32-bit integer, most significant first.
pub open spec fn i32_be(x: i32) -> Seq<u8> {
    u32_be(i32_bits(x))
}

pub proof fn lemma_u16_be_of(x: u16)
    ensures
        u16_of(u16_be(x)[0], u16_be(x)[1]) == x,
{
}

pub proof fn lemma_u32_be_of(x: u32)
    ensures
        u32_of(u32_be(x)[0], u32_be(x)[1], u32_be(x)[2], u32_be(x)[3]) == x,
{
}

/// Append the big-endian bytes of a 16-bit integer.
pub fn push_u16_be(out: &mut Vec<u8>, x: u16)
    ensures
        final(out)@ == old(out)@ + u16_be(x),
{
    out.push((x / 256) as u8);
    out.push((x % 256) as u8);
    proof {
        assert(final(out)@ =~= old(out)@ + u16_be(x));
    }
}

/// Append the big-endian bytes of a 32-bit integer.
pub fn push_u32_be(out: &mut Vec<u8>, x: u32)
    ensures
        final(out)@ == old(out)@ + u32_be(x),
{
    out.push((x / 0x1000000) as u8);
    out.push(((x / 0x10000) % 256) as u8);
    out.push(((x / 256) % 256) as u8);
    out.push((x % 256) as u8);
    proof {
        assert(final(out)@ =~= old(out)@ + u32_be(x));
    }
}

/// Append the big-endian bytes of a signed 32-bit integer.
pub fn push_i32_be(out: &mut Vec<u8>, x: i32)
    ensures
        final(out)@ == old(out)@ + i32_be(x),
{
    let u: u32 = if x >= 0 {
        x as u32
    } else {
        ((x as i64) + 0x1_0000_0000) as u32
    };
    assert(u == i32_bits(x));
    push_u32_be(out, u);
}

/// Read a big-endian 16-bit integer at position `pos`.
pub fn read_u16_be(bytes: &[u8], pos: usize) -> (r: u16)
    requires
        pos + 2 <= bytes@.len(),
    ensures
        r == u16_of(bytes@[pos as int], bytes@[pos as int + 1]),
{
    let hi = bytes[pos];
    let lo = bytes[pos + 1];
    (hi as u16) * 256 + (lo as u16)
}

/// Read a big-endian 32-bit integer at position `pos`.
pub fn read_u32_be(bytes: &[u8], pos: usize) -> (r: u32)
    requires
        pos + 4 <= bytes@.len(),
    ensures
        r == u32_of(
            bytes@[pos as int],
            bytes@[pos as int + 1],
            bytes@[pos as int + 2],
            bytes@[pos as int + 3],
        ),
{
    let b0 = bytes[pos] as u32;
    let b1 = bytes[pos + 1] as u32;
    let b2 = bytes[pos + 2] as u32;
    let b3 = bytes[pos + 3] as u32;
    b0 * 0x1000000 + b1 * 0x10000 + b2 * 256 + b3
}

/// Read a big-endian signed 32-bit integer at position `pos`.
pub fn read_i32_be(bytes: &[u8], pos: usize) -> (r: i32)
    requires
        pos + 4 <= bytes@.len(),
    ensures
        r == i32_of_bits(
            u32_of(
                bytes@[pos as int],
                bytes@[pos as int + 1],
                bytes@[pos as int + 2],
                bytes@[pos as int + 3],
            ),
        ),
{
    let u = read_u32_be(bytes, pos);
    if u <= 0x7FFF_FFFF {
        u as i32
    } else {
        ((u as i64) - 0x1_0000_0000) as i32
    }
}

// ---------------------------------------------------------------------------
// Length-prefixed labels
// ---------------------------------------------------------------------------

/// The wire form of one label: a length octet followed by the text octets.
pub open spec fn label_wire(text: Seq<u8>) -> Seq<u8>
    recommends
        text.len() <= 255,
{
    seq![text.len() as u8] + text
}

/// The concatenated wire forms of a run of labels, with no terminator.
pub open spec fn labels_wire(ls: Seq<Seq<u8>>) -> Seq<u8>
    decreases ls.len(),
{
    if ls.len() == 0 {
        Seq::empty()
    } else {
        label_wire(ls[0]) + labels_wire(ls.drop_first())
    }
}

/// The wire form of a whole domain name: every label, then the root label.
pub open spec fn name_wire(ls: Seq<Seq<u8>>) -> Seq<u8> {
    labels_wire(ls) + seq![0u8]
}

pub proof fn lemma_labels_wire_push(ls: Seq<Seq<u8>>, x: Seq<u8>)
    ensures
        labels_wire(ls.push(x)) == labels_wire(ls) + label_wire(x),
    decreases ls.len(),
{
    if ls.len() == 0 {
        assert(ls.push(x).drop_first() =~= ls);
        assert(labels_wire(ls.push(x)) =~= labels_wire(ls) + label_wire(x));
    } else {
        assert(ls.push(x).drop_first() =~= ls.drop_first().push(x));
        lemma_labels_wire_push(ls.drop_first(), x);
        assert(labels_wire(ls.push(x)) =~= labels_wire(ls) + label_wire(x));
    }
}

pub proof fn lemma_labels_wire_concat(a: Seq<Seq<u8>>, b: Seq<Seq<u8>>)
    ensures
        labels_wire(a + b) == labels_wire(a) + labels_wire(b),
    decreases a.len(),
{
    if a.len() == 0 {
        assert(a + b =~= b);
        assert(labels_wire(a) + labels_wire(b) =~= labels_wire(b));
    } else {
        assert((a + b).drop_first() =~= a.drop_first() + b);
        lemma_labels_wire_concat(a.drop_first(), b);
        assert(labels_wire(a + b) =~= labels_wire(a) + labels_wire(b));
    }
}

/// The wire length of a run of labels splits at any index.
pub proof fn lemma_labels_wire_split(ls: Seq<Seq<u8>>, i: int)
    requires
        0 <= i <= ls.len(),
    ensures
        labels_wire(ls) == labels_wire(ls.take(i)) + labels_wire(ls.skip(i)),
{
    assert(ls =~= ls.take(i) + ls.skip(i));
    lemma_labels_wire_concat(ls.take(i), ls.skip(i));
}

pub proof fn lemma_labels_wire_take_succ(ls: Seq<Seq<u8>>, i: int)
    requires
        0 <= i < ls.len(),
    ensures
        labels_wire(ls.take(i + 1)) == labels_wire(ls.take(i)) + label_wire(ls[i]),
{
    assert(ls.take(i + 1) =~= ls.take(i).push(ls[i]));
    lemma_labels_wire_push(ls.take(i), ls[i]);
}

} // verus!
