//! Hex and binary bitstring literals, stored into everscale-types cells.

use vstd::prelude::*;
use vstd::arithmetic::power2::pow2;

use everscale_types::cell::CellBuilder;

use crate::error::Error;

verus! {

#[verifier::external_type_specification]
#[verifier::external_body]
pub struct ExCellBuilder(CellBuilder);

/// The most bits that a cell holds.
pub const MAX_BIT_LEN: u16 = 1023;

/// The data bits that a cell builder holds, first bit first.
pub uninterp spec fn builder_bits(b: CellBuilder) -> Seq<bool>;

/// The bits of a byte, most significant first.
pub open spec fn byte_bits(b: u8) -> Seq<bool> {
    Seq::new(8, |i: int| (b >> ((7 - i) as u8)) & 1u8 == 1u8)
}

/// The bits of a run of bytes, each byte most significant bit first.
pub open spec fn bytes_bits(v: Seq<u8>) -> Seq<bool> {
    Seq::new(8 * v.len(), |p: int| byte_bits(v[p / 8])[p % 8])
}

/// Relies on `CellBuilder::new`: a builder that holds no bits.
#[verifier::external_body]
fn new_builder() -> (r: CellBuilder)
    ensures
        builder_bits(r).len() == 0,
{
    CellBuilder::new()
}

/// Relies on `CellBuilder::store_raw`: where the builder has room for `bits`
/// more bits (at most `MAX_BIT_LEN` in all), appends the first `bits` bits of
/// `value` and succeeds; otherwise fails and leaves the builder as it was.
#[verifier::external_body]
fn store_raw(b: &mut CellBuilder, value: &Vec<u8>, bits: u16) -> (r: bool)
    requires
        bits <= 8 * value@.len(),
        8 * value@.len() <= u16::MAX,
        builder_bits(*old(b)).len() + bits <= u16::MAX,
    ensures
        r == (builder_bits(*old(b)).len() + bits <= MAX_BIT_LEN),
        r ==> builder_bits(*final(b)) == builder_bits(*old(b)) + bytes_bits(value@).take(
            bits as int,
        ),
        !r ==> builder_bits(*final(b)) == builder_bits(*old(b)),
{
    b.store_raw(value, bits).is_ok()
}

/// The value of a hex digit, or -1.
pub open spec fn hex_val(c: char) -> int {
    if '0' <= c && c <= '9' {
        c as int - '0' as int
    } else if 'a' <= c && c <= 'f' {
        c as int - 'a' as int + 10
    } else if 'A' <= c && c <= 'F' {
        c as int - 'A' as int + 10
    } else {
        -1
    }
}

/// Every character is a hex digit.
pub open spec fn all_hex(t: Seq<char>) -> bool {
    forall|i: int| 0 <= i < t.len() ==> hex_val(#[trigger] t[i]) >= 0
}

/// Every character is ASCII.
pub open spec fn all_ascii(t: Seq<char>) -> bool {
    forall|i: int| 0 <= i < t.len() ==> (#[trigger] t[i] as u32) < 128
}

/// The bytes that pairs of hex digits stand for.
pub open spec fn hex_pairs(s: Seq<char>) -> Seq<u8> {
    Seq::new(s.len() / 2, |i: int| (hex_val(s[2 * i]) * 16 + hex_val(s[2 * i + 1])) as u8)
}

/// Relies on `hex::decode`: pairs of hex digits, each pair one byte.
#[verifier::external_body]
fn hex_decode(s: &Vec<char>) -> (r: Option<Vec<u8>>)
    requires
        forall|i: int| 0 <= i < s@.len() ==> (#[trigger] s@[i] as u32) < 128,
    ensures
        r is Some <==> (s@.len() % 2 == 0 && forall|i: int|
            0 <= i < s@.len() ==> hex_val(#[trigger] s@[i]) >= 0),
        r matches Some(v) ==> v@ == hex_pairs(s@),
{
    let t: String = s.iter().collect();
    hex::decode(t.as_bytes()).ok()
}

/// How many zero bits end a byte (8 for zero).
pub open spec fn trailing_zeros(b: nat) -> nat
    decreases b,
{
    if b == 0 {
        8
    } else if b % 2 == 1 {
        0
    } else {
        1 + trailing_zeros(b / 2)
    }
}

/// The position of the last 1 bit of the bytes (the tag that ends a
/// bitstring), or 0 where there is none.
pub open spec fn tag_len(v: Seq<u8>) -> int
    decreases v.len(),
{
    if v.len() == 0 {
        0
    } else if v.last() == 0 {
        tag_len(v.drop_last())
    } else {
        8 * v.len() - 1 - trailing_zeros(v.last() as nat)
    }
}

proof fn lemma_trailing_zeros_bound(b: nat, k: nat)
    requires
        0 < b < pow2(k),
        k <= 8,
    ensures
        trailing_zeros(b) < k,
    decreases k,
{
    vstd::arithmetic::power2::lemma2_to64();
    if k > 0 && b % 2 == 0 {
        assert(pow2(k) == 2 * pow2((k - 1) as nat));
        lemma_trailing_zeros_bound(b / 2, (k - 1) as nat);
    }
}

proof fn lemma_tag_len_bound(v: Seq<u8>)
    ensures
        0 <= tag_len(v) <= 8 * v.len(),
    decreases v.len(),
{
    if v.len() > 0 {
        lemma_tag_len_bound(v.drop_last());
        if v.last() != 0 {
            vstd::arithmetic::power2::lemma2_to64();
            lemma_trailing_zeros_bound(v.last() as nat, 8);
        }
    }
}

/// The text without a final `_`, and whether it had one.
pub open spec fn tag_split(s: Seq<char>) -> (Seq<char>, bool) {
    if s.len() > 0 && s.last() == '_' {
        (s.drop_last(), true)
    } else {
        (s, false)
    }
}

/// The bytes and the bit count of a hex bitstring: hex digits, an odd last
/// one standing for four bits, and an optional `_` that says the bits end
/// before their last 1 bit; `None` where the text is no such bitstring.
pub open spec fn hex_parts(s: Seq<char>) -> Option<(Seq<u8>, int)> {
    let body = tag_split(s).0;
    let tagged = tag_split(s).1;
    let odd = body.len() % 2 == 1;
    let even = if odd {
        body.drop_last()
    } else {
        body
    };
    if !all_ascii(s) {
        None
    } else if odd && hex_val(body.last()) < 0 {
        None
    } else if even.len() > 256 {
        None
    } else if !all_hex(even) {
        None
    } else {
        let bytes = if odd {
            hex_pairs(even).push((hex_val(body.last()) * 16) as u8)
        } else {
            hex_pairs(even)
        };
        let bits = if tagged {
            tag_len(bytes)
        } else if odd {
            8 * hex_pairs(even).len() as int + 4
        } else {
            8 * hex_pairs(even).len() as int
        };
        Some((bytes, bits))
    }
}

fn hex_char(c: char) -> (r: Option<u8>)
    ensures
        r is Some <==> hex_val(c) >= 0,
        r matches Some(v) ==> v == hex_val(c),
{
    if c >= '0' && c <= '9' {
        Some((c as u32 - '0' as u32) as u8)
    } else if c >= 'a' && c <= 'f' {
        Some((c as u32 - 'a' as u32 + 10) as u8)
    } else if c >= 'A' && c <= 'F' {
        Some((c as u32 - 'A' as u32 + 10) as u8)
    } else {
        None
    }
}

fn byte_trailing_zeros(b: u8) -> (r: u16)
    requires
        b != 0,
    ensures
        r == trailing_zeros(b as nat),
        r < 8,
{
    let mut x: u8 = b;
    let mut t: u16 = 0;
    proof {
        vstd::arithmetic::power2::lemma2_to64();
        lemma_trailing_zeros_bound(b as nat, 8);
    }
    while x % 2 == 0
        invariant
            x != 0,
            t + trailing_zeros(x as nat) == trailing_zeros(b as nat),
            trailing_zeros(b as nat) < 8,
        decreases x,
    {
        x = x / 2;
        t = t + 1;
    }
    t
}

/// A cell builder holding the bits that a hex bitstring stands for.
pub fn decode_hex_bitstring(s: &Vec<char>) -> (r: Result<CellBuilder, Error>)
    ensures
        match hex_parts(s@) {
            None => r == Err::<CellBuilder, Error>(Error::InvalidBitString),
            Some((bytes, bits)) => if bits <= MAX_BIT_LEN {
                r matches Ok(b) && builder_bits(b) == bytes_bits(bytes).take(bits)
            } else {
                r == Err::<CellBuilder, Error>(Error::CellOverflow)
            },
        },
{
    let mut i: usize = 0;
    while i < s.len()
        invariant
            i <= s@.len(),
            forall|j: int| 0 <= j < i ==> (#[trigger] s@[j] as u32) < 128,
        decreases s@.len() - i,
    {
        if s[i] as u32 >= 128 {
            return Err(Error::InvalidBitString);
        }
        i += 1;
    }
    let tagged = s.len() > 0 && s[s.len() - 1] == '_';
    let body = if tagged {
        crate::lexer::copy_range(s, 0, s.len() - 1)
    } else {
        crate::lexer::copy_range(s, 0, s.len())
    };
    assert(body@ == tag_split(s@).0);
    let odd = body.len() % 2 == 1;
    let mut half: Option<u8> = None;
    let even = if odd {
        half = match hex_char(body[body.len() - 1]) {
            Some(h) => Some(h),
            None => return Err(Error::InvalidBitString),
        };
        crate::lexer::copy_range(&body, 0, body.len() - 1)
    } else {
        body
    };
    assert(even@ =~= (if odd {
        body@.drop_last()
    } else {
        body@
    }));
    assert(all_ascii(s@));
    if even.len() > 256 {
        return Err(Error::InvalidBitString);
    }
    assert forall|j: int| 0 <= j < even@.len() implies (#[trigger] even@[j] as u32) < 128 by {
        assert(even@[j] == s@[j]);
    }
    assert(even@.len() % 2 == 0);
    let mut bytes = match hex_decode(&even) {
        Some(v) => v,
        None => {
            assert(!all_hex(even@));
            return Err(Error::InvalidBitString);
        },
    };
    let ghost pairs = bytes@;
    assert(pairs == hex_pairs(even@));
    assert(all_hex(even@));
    let mut bits: u16 = (bytes.len() * 8) as u16;
    match half {
        Some(h) => {
            bits = bits + 4;
            bytes.push(h * 16);
            assert(h == hex_val(body@.last()));
        },
        None => {},
    }
    if tagged {
        let n = bytes.len();
        let mut k: usize = n;
        let mut found = false;
        proof {
            assert(bytes@.subrange(0, k as int) =~= bytes@);
        }
        while k > 0
            invariant
                k <= n == bytes@.len() <= 129,
                !found ==> tag_len(bytes@) == tag_len(bytes@.subrange(0, k as int)),
                found ==> k == 0,
                found ==> bits == tag_len(bytes@),
            decreases k,
        {
            let ghost pre = bytes@.subrange(0, k as int);
            assert(pre.drop_last() =~= bytes@.subrange(0, k - 1));
            if bytes[k - 1] == 0 {
                k -= 1;
            } else {
                let tz = byte_trailing_zeros(bytes[k - 1]);
                assert(pre.last() == bytes@[k - 1]);
                assert(tag_len(pre) == 8 * k - 1 - trailing_zeros(bytes@[k - 1] as nat));
                let v: usize = 8 * k - 1 - tz as usize;
                assert(v == tag_len(bytes@));
                assert(v < 2000);
                bits = v as u16;
                assert(bits == tag_len(bytes@));
                found = true;
                k = 0;
            }
        }
        if !found {
            assert(bytes@.subrange(0, 0) =~= Seq::<u8>::empty());
            bits = 0;
        }
    }
    proof {
        lemma_tag_len_bound(bytes@);
    }
    assert(hex_parts(s@) == Some((bytes@, bits as int)));
    let mut b = new_builder();
    if store_raw(&mut b, &bytes, bits) {
        Ok(b)
    } else {
        Err(Error::CellOverflow)
    }
}

/// The bits that a binary bitstring stands for, `1` true.
pub open spec fn binary_bits(s: Seq<char>) -> Seq<bool> {
    Seq::new(s.len(), |i: int| s[i] == '1')
}

/// Only `0` and `1`, and no more than fit in a cell.
pub open spec fn binary_ok(s: Seq<char>) -> bool {
    &&& s.len() <= MAX_BIT_LEN
    &&& forall|i: int| 0 <= i < s.len() ==> #[trigger] s[i] == '0' || s[i] == '1'
}

proof fn lemma_set_bit(b: u8, v: u8, j: u8, i: u8)
    requires
        v <= 1,
        j < 8,
        i < 8,
        (b >> (7 - j) as u8) & 1u8 != 1u8,
    ensures
        ((b | (v << (7 - j) as u8)) >> (7 - i) as u8) & 1u8 == if i == j {
            v
        } else {
            (b >> (7 - i) as u8) & 1u8
        },
{
    assert(((b | (v << (7 - j) as u8)) >> (7 - i) as u8) & 1u8 == if i == j {
        v
    } else {
        (b >> (7 - i) as u8) & 1u8
    }) by (bit_vector)
        requires
            v <= 1,
            j < 8,
            i < 8,
            (b >> (7 - j) as u8) & 1u8 != 1u8,
    ;
}

proof fn lemma_zero_byte(i: u8)
    requires
        i < 8,
    ensures
        (0u8 >> (7 - i) as u8) & 1u8 == 0u8,
{
    assert((0u8 >> (7 - i) as u8) & 1u8 == 0u8) by (bit_vector);
}

/// A cell builder holding the bits of a binary bitstring.
pub fn decode_binary_bitstring(s: &Vec<char>) -> (r: Result<CellBuilder, Error>)
    ensures
        binary_ok(s@) ==> (r matches Ok(b) && builder_bits(b) == binary_bits(s@)),
        !binary_ok(s@) ==> r == Err::<CellBuilder, Error>(Error::InvalidBitString),
{
    let mut buffer: Vec<u8> = Vec::new();
    while buffer.len() < 128
        invariant
            buffer@.len() <= 128,
            forall|k: int| 0 <= k < buffer@.len() ==> #[trigger] buffer@[k] == 0u8,
        decreases 128 - buffer@.len(),
    {
        buffer.push(0u8);
    }
    let mut bits: usize = 0;
    assert forall|p: int| 0 <= p < 1024 implies !#[trigger] bytes_bits(buffer@)[p] by {
        lemma_zero_byte((p % 8) as u8);
        assert(buffer@[p / 8] == 0u8);
    }
    while bits < s.len()
        invariant
            bits <= s@.len(),
            bits <= MAX_BIT_LEN,
            buffer@.len() == 128,
            forall|k: int| 0 <= k < bits ==> (#[trigger] s@[k] == '0' || s@[k] == '1'),
            forall|p: int|
                0 <= p < bits ==> #[trigger] bytes_bits(buffer@)[p] == (s@[p] == '1'),
            forall|p: int| bits <= p < 1024 ==> !#[trigger] bytes_bits(buffer@)[p],
        decreases s@.len() - bits,
    {
        let c = s[bits];
        let value: u8 = if c == '0' {
            0
        } else if c == '1' {
            1
        } else {
            return Err(Error::InvalidBitString);
        };
        let k = bits / 8;
        let j = (bits % 8) as u8;
        let old_byte = buffer[k];
        let ghost old_buf = buffer@;
        let new_byte = old_byte | (value << (7 - j));
        buffer.set(k, new_byte);
        proof {
            assert(!bytes_bits(old_buf)[bits as int]);
            assert(byte_bits(old_byte)[j as int] == bytes_bits(old_buf)[bits as int]);
            assert forall|p: int| 0 <= p < 1024 implies #[trigger] bytes_bits(buffer@)[p] == if p
                == bits {
                value == 1
            } else {
                bytes_bits(old_buf)[p]
            } by {
                if p / 8 == k as int {
                    lemma_set_bit(old_byte, value, j, (p % 8) as u8);
                } else {
                    assert(buffer@[p / 8] == old_buf[p / 8]);
                }
            }
        }
        bits += 1;
        if bits > MAX_BIT_LEN as usize {
            assert(s@.len() > MAX_BIT_LEN);
            return Err(Error::InvalidBitString);
        }
    }
    let mut b = new_builder();
    let ok = store_raw(&mut b, &buffer, bits as u16);
    assert(ok);
    assert(builder_bits(b) =~= binary_bits(s@));
    Ok(b)
}

/// The lower-case hex digit of a value below 16.
pub open spec fn hex_digit(n: int) -> char {
    if n < 10 {
        (n + '0' as int) as char
    } else {
        (n - 10 + 'a' as int) as char
    }
}

/// Two lower-case hex digits per byte.
pub open spec fn hex_of(v: Seq<u8>) -> Seq<char> {
    Seq::new(2 * v.len(), |i: int| if i % 2 == 0 {
        hex_digit(v[i / 2] as int / 16)
    } else {
        hex_digit(v[i / 2] as int % 16)
    })
}

/// Relies on `hex::encode`: two lower-case hex digits per byte.
#[verifier::external_body]
fn hex_encode(v: &[u8]) -> (r: Vec<char>)
    ensures
        r@ == hex_of(v@),
{
    hex::encode(v).chars().collect()
}

/// The byte with its bits after the first `rem` cleared and the bit right
/// after them set: the tag that marks where the data ends.
pub open spec fn tagged_byte(b: u8, rem: u16) -> u8 {
    (b & !(((1u8 << (7 - rem) as u8) - 1) as u8)) | (1u8 << (7 - rem) as u8)
}

/// Marks the end of the first `bit_len` bits of `data` with a tag bit,
/// where they end inside a byte.
pub fn append_tag(data: &mut Vec<u8>, bit_len: u16)
    requires
        bit_len < 1024,
        old(data)@.len() == 128,
    ensures
        final(data)@.len() == 128,
        bit_len % 8 == 0 ==> final(data)@ == old(data)@,
        bit_len % 8 != 0 ==> final(data)@ == old(data)@.update(
            (bit_len / 8) as int,
            tagged_byte(old(data)@[(bit_len / 8) as int], bit_len % 8),
        ),
{
    let rem = bit_len % 8;
    let last = (bit_len / 8) as usize;
    if rem > 0 {
        let sh: u8 = (7 - rem) as u8;
        let tag_mask: u8 = 1u8 << sh;
        assert(1u8 << sh >= 1u8) by (bit_vector)
            requires
                sh < 8,
        ;
        let data_mask: u8 = !(tag_mask - 1);
        let b = data[last];
        data.set(last, (b & data_mask) | tag_mask);
    }
}

/// The text of a cell's data bits: `x{` hex digits `}`, where a final `_`
/// says the digits end in a tag bit.
pub fn slice_data_text(data: &Vec<u8>, bits: u16) -> (r: Vec<char>)
    requires
        bits < 1024,
        data@.len() == 128,
    ensures
        ({
            let tagged = if bits % 8 == 0 {
                data@
            } else {
                data@.update((bits / 8) as int, tagged_byte(data@[(bits / 8) as int], bits % 8))
            };
            let digits = hex_of(tagged.subrange(0, (bits as int + 7) / 8));
            let trimmed = if bits % 8 <= 4 && digits.len() > 0 {
                digits.drop_last()
            } else {
                digits
            };
            r@ == seq!['x', '{'] + trimmed + (if bits % 4 != 0 {
                seq!['_']
            } else {
                Seq::empty()
            }) + seq!['}']
        }),
{
    let mut buffer = crate::byte_runs::copy_bytes(data);
    append_tag(&mut buffer, bits);
    let n = ((bits as usize) + 7) / 8;
    let mut digits = hex_encode(crate::byte_runs::prefix(&buffer, n));
    if bits % 8 <= 4 && digits.len() > 0 {
        digits.pop();
    }
    let mut r: Vec<char> = vec!['x', '{'];
    let mut i: usize = 0;
    let ghost r0 = r@;
    while i < digits.len()
        invariant
            i <= digits@.len(),
            r@ == r0 + digits@.subrange(0, i as int),
        decreases digits@.len() - i,
    {
        r.push(digits[i]);
        i += 1;
        assert(r@ =~= r0 + digits@.subrange(0, i as int));
    }
    assert(digits@.subrange(0, i as int) =~= digits@);
    if bits % 4 != 0 {
        r.push('_');
    }
    r.push('}');
    assert(buffer@.subrange(0, n as int) == (if bits % 8 == 0 {
        data@
    } else {
        data@.update((bits / 8) as int, tagged_byte(data@[(bits / 8) as int], bits % 8))
    }).subrange(0, (bits as int + 7) / 8));
    r
}

} // verus!
