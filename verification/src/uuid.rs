//! Zero-dependency, version-4 style identifiers drawn from a linear
//! congruential generator.
use vstd::prelude::*;

verus! {

/// Multiplier of the generator that the identifiers are drawn from.
pub const LCG_MULTIPLIER: u64 = 6_364_136_223_846_793_005;

/// The state the generator starts from in a fresh process.
pub const UUID_SEED_INIT: u64 = 0xAAAA_BBBB_CCCC_DDDD;

/// One step of the generator: `state * LCG_MULTIPLIER + 1` modulo 2^64.
pub open spec fn lcg_step(state: u64) -> u64 {
    ((state as nat * LCG_MULTIPLIER as nat + 1) % 0x1_0000_0000_0000_0000) as u64
}

/// Advances the generator state by one step.
pub fn next_seed(state: u64) -> (next: u64)
    ensures
        next == lcg_step(state),
        next as nat == (state as nat * 6_364_136_223_846_793_005nat + 1) % 0x1_0000_0000_0000_0000,
{
    let m = state.wrapping_mul(LCG_MULTIPLIER);
    let r = m.wrapping_add(1);
    proof {
        let p = state as nat * LCG_MULTIPLIER as nat;
        assert(m as nat == p % 0x1_0000_0000_0000_0000);
        vstd::arithmetic::div_mod::lemma_add_mod_noop(p as int, 1, 0x1_0000_0000_0000_0000);
    }
    r
}

/// Byte `j` (0 = least significant) of the little-endian encoding of `x`.
pub open spec fn le_byte(x: u64, j: nat) -> u8 {
    ((x as nat / vstd::arithmetic::power2::pow2(8 * j)) % 256) as u8
}

/// The 16 raw bytes drawn from two generator outputs: the little-endian
/// bytes of `first` followed by those of `second`.
pub open spec fn draw_bytes(first: u64, second: u64) -> Seq<u8> {
    Seq::new(16, |i: int| if i < 8 { le_byte(first, i as nat) } else { le_byte(second, (i - 8) as nat) })
}

/// Marks raw bytes as a version-4, RFC 4122 variant identifier: the high
/// nibble of byte 6 becomes `4`, the two high bits of byte 8 become `10`.
pub open spec fn stamp_version(raw: Seq<u8>) -> Seq<u8> {
    raw.update(6, ((raw[6] & 0x0f) | 0x40) as u8).update(8, ((raw[8] & 0x3f) | 0x80) as u8)
}

/// The identifier that a generator in state `state` hands out next.
pub open spec fn uuid_bytes_from_state(state: u64) -> Seq<u8> {
    stamp_version(draw_bytes(lcg_step(state), lcg_step(lcg_step(state))))
}

/// Whether 16 bytes carry the version-4 nibble and the RFC 4122 variant bits.
pub open spec fn is_version4(bytes: Seq<u8>) -> bool {
    &&& bytes.len() == 16
    &&& bytes[6] / 16 == 4
    &&& bytes[8] / 64 == 2
}

/// A 128-bit identifier.
#[derive(Clone, Copy, PartialEq, Eq, Hash)]
pub struct Uuid(pub [u8; 16]);

/// The little-endian bytes of `x`.
fn le_bytes(x: u64) -> (b: [u8; 8])
    ensures
        forall|j: int| 0 <= j < 8 ==> #[trigger] b@[j] == le_byte(x, j as nat),
{
    let b = [
        x as u8,
        (x >> 8u64) as u8,
        (x >> 16u64) as u8,
        (x >> 24u64) as u8,
        (x >> 32u64) as u8,
        (x >> 40u64) as u8,
        (x >> 48u64) as u8,
        (x >> 56u64) as u8,
    ];
    proof {
        lemma_le_bytes(x);
    }
    b
}

proof fn lemma_le_bytes(x: u64)
    ensures
        x as u8 == le_byte(x, 0),
        (x >> 8u64) as u8 == le_byte(x, 1),
        (x >> 16u64) as u8 == le_byte(x, 2),
        (x >> 24u64) as u8 == le_byte(x, 3),
        (x >> 32u64) as u8 == le_byte(x, 4),
        (x >> 40u64) as u8 == le_byte(x, 5),
        (x >> 48u64) as u8 == le_byte(x, 6),
        (x >> 56u64) as u8 == le_byte(x, 7),
{
    vstd::arithmetic::power2::lemma2_to64();
    vstd::arithmetic::power2::lemma2_to64_rest();
    assert(vstd::arithmetic::power2::pow2(8 * 0) == 0x1);
    assert(vstd::arithmetic::power2::pow2(8 * 1) == 0x100);
    assert(vstd::arithmetic::power2::pow2(8 * 2) == 0x1_0000);
    assert(vstd::arithmetic::power2::pow2(8 * 3) == 0x100_0000);
    assert(vstd::arithmetic::power2::pow2(8 * 4) == 0x1_0000_0000);
    assert(vstd::arithmetic::power2::pow2(8 * 5) == 0x100_0000_0000);
    assert(vstd::arithmetic::power2::pow2(8 * 6) == 0x1_0000_0000_0000);
    assert(vstd::arithmetic::power2::pow2(8 * 7) == 0x100_0000_0000_0000);
    assert(x as u8 == (x / 0x1) % 256) by (bit_vector);
    assert((x >> 8u64) as u8 == (x / 0x100) % 256) by (bit_vector);
    assert((x >> 16u64) as u8 == (x / 0x1_0000) % 256) by (bit_vector);
    assert((x >> 24u64) as u8 == (x / 0x100_0000) % 256) by (bit_vector);
    assert((x >> 32u64) as u8 == (x / 0x1_0000_0000) % 256) by (bit_vector);
    assert((x >> 40u64) as u8 == (x / 0x100_0000_0000) % 256) by (bit_vector);
    assert((x >> 48u64) as u8 == (x / 0x1_0000_0000_0000) % 256) by (bit_vector);
    assert((x >> 56u64) as u8 == (x / 0x100_0000_0000_0000) % 256) by (bit_vector);
}

impl Uuid {
    /// Draws the next identifier from the generator state `seed`, advancing
    /// it by two steps. Every identifier drawn carries the version-4 marks.
    pub fn new(seed: &mut u64) -> (id: Uuid)
        ensures
            *final(seed) == lcg_step(lcg_step(*old(seed))),
            id.0@ == uuid_bytes_from_state(*old(seed)),
            is_version4(id.0@),
            ({
                let a = (*old(seed) as nat * 6_364_136_223_846_793_005nat + 1) % 0x1_0000_0000_0000_0000;
                let b = (a * 6_364_136_223_846_793_005nat + 1) % 0x1_0000_0000_0000_0000;
                &&& *final(seed) as nat == b
                &&& forall|j: int| 0 <= j < 8 && j != 6 ==> #[trigger] id.0@[j] as nat
                    == (a / vstd::arithmetic::power2::pow2((8 * j) as nat)) % 256
                &&& id.0@[6] as nat == ((a / vstd::arithmetic::power2::pow2(48)) % 256) % 16 + 64
                &&& forall|j: int| 1 <= j < 8 ==> #[trigger] id.0@[8 + j] as nat
                    == (b / vstd::arithmetic::power2::pow2((8 * j) as nat)) % 256
                &&& id.0@[8] as nat == (b % 256) % 64 + 128
            }),
    {
        let ghost old_seed = *seed;
        let a = next_seed(*seed);
        let b = next_seed(a);
        *seed = b;
        let lo = le_bytes(a);
        let hi = le_bytes(b);
        let r6: u8 = lo[6];
        let r8: u8 = hi[0];
        let v6: u8 = (r6 & 0x0f) | 0x40;
        let v8: u8 = (r8 & 0x3f) | 0x80;
        let id = Uuid([
            lo[0], lo[1], lo[2], lo[3], lo[4], lo[5], v6, lo[7],
            v8, hi[1], hi[2], hi[3], hi[4], hi[5], hi[6], hi[7],
        ]);
        proof {
            let raw = draw_bytes(a, b);
            assert(v6 / 16 == 4) by (bit_vector)
                requires v6 == (r6 & 0x0f) | 0x40;
            assert(v8 / 64 == 2) by (bit_vector)
                requires v8 == (r8 & 0x3f) | 0x80;
            assert(raw[6] == r6);
            assert(raw[8] == r8);
            assert(id.0@ =~= stamp_version(raw));
            lemma_uuid_bytes_from_state(old_seed);
        }
        id
    }
}

/// The lower-case hexadecimal digit for `n`, for `n < 16`.
pub open spec fn hex_digit(n: u8) -> char {
    if n < 10 {
        (n + 48) as char
    } else {
        (n + 87) as char
    }
}

/// The two lower-case hexadecimal digits of `b`, high nibble first.
pub open spec fn hex_pair(b: u8) -> Seq<char> {
    seq![hex_digit(b / 16), hex_digit(b % 16)]
}

/// The lower-case hexadecimal text of `bytes`, two digits per byte.
pub open spec fn hex_text(bytes: Seq<u8>) -> Seq<char>
    decreases bytes.len(),
{
    if bytes.len() == 0 {
        Seq::empty()
    } else {
        hex_text(bytes.drop_last()) + hex_pair(bytes.last())
    }
}

/// The canonical `8-4-4-4-12` hyphenated text of 16 identifier bytes.
pub open spec fn hyphenated(b: Seq<u8>) -> Seq<char> {
    hex_text(b.subrange(0, 4)) + seq!['-'] + hex_text(b.subrange(4, 6)) + seq!['-']
        + hex_text(b.subrange(6, 8)) + seq!['-'] + hex_text(b.subrange(8, 10)) + seq!['-']
        + hex_text(b.subrange(10, 16))
}

/// `String::push`: appends the character `c` at the end of `s`.
#[verifier::external_body]
fn push_char(s: &mut String, c: char)
    ensures
        final(s)@ == old(s)@.push(c),
{
    s.push(c);
}

fn hex_digit_char(n: u8) -> (c: char)
    requires
        n < 16,
    ensures
        c == hex_digit(n),
{
    if n < 10 {
        (n + 48) as char
    } else {
        (n + 87) as char
    }
}

/// Appends the hexadecimal text of `bytes[from..to]` to `s`.
fn push_hex(s: &mut String, bytes: &[u8; 16], from: usize, to: usize)
    requires
        from <= to <= 16,
    ensures
        final(s)@ == old(s)@ + hex_text(bytes@.subrange(from as int, to as int)),
{
    let ghost start = s@;
    let mut i = from;
    assert(bytes@.subrange(from as int, from as int) =~= Seq::<u8>::empty());
    assert(s@ =~= start + hex_text(bytes@.subrange(from as int, from as int)));
    while i < to
        invariant
            from <= i <= to <= 16,
            s@ == start + hex_text(bytes@.subrange(from as int, i as int)),
        decreases to - i,
    {
        let b = bytes[i];
        push_char(s, hex_digit_char(b / 16));
        push_char(s, hex_digit_char(b % 16));
        proof {
            let sub = bytes@.subrange(from as int, i + 1);
            assert(sub.drop_last() =~= bytes@.subrange(from as int, i as int));
            assert(sub.last() == b);
            assert(s@ =~= start + hex_text(sub));
        }
        i = i + 1;
    }
}

impl Uuid {
    /// The identifier as lower-case hexadecimal text in the `8-4-4-4-12`
    /// grouping, e.g. `aaaabbbb-cccc-4ddd-8eee-ffff00001111`.
    pub fn to_hyphenated_string(&self) -> (text: String)
        ensures
            text@ == hyphenated(self.0@),
    {
        let mut s = String::new();
        push_hex(&mut s, &self.0, 0, 4);
        push_char(&mut s, '-');
        push_hex(&mut s, &self.0, 4, 6);
        push_char(&mut s, '-');
        push_hex(&mut s, &self.0, 6, 8);
        push_char(&mut s, '-');
        push_hex(&mut s, &self.0, 8, 10);
        push_char(&mut s, '-');
        push_hex(&mut s, &self.0, 10, 16);
        s
    }
}

/// Whether `c` is a lower-case hexadecimal digit.
pub open spec fn is_lower_hex(c: char) -> bool {
    (48 <= c as int <= 57) || (97 <= c as int <= 102)
}

proof fn lemma_hex_text(bytes: Seq<u8>)
    ensures
        hex_text(bytes).len() == 2 * bytes.len(),
        forall|i: int| 0 <= i < hex_text(bytes).len() ==> is_lower_hex(#[trigger] hex_text(bytes)[i]),
    decreases bytes.len(),
{
    if bytes.len() > 0 {
        let init = bytes.drop_last();
        lemma_hex_text(init);
        let b = bytes.last();
        let hi = b / 16;
        let lo = b % 16;
        assert(is_lower_hex(hex_digit(hi)));
        assert(is_lower_hex(hex_digit(lo)));
        let t = hex_text(bytes);
        assert forall|i: int| 0 <= i < t.len() implies is_lower_hex(#[trigger] t[i]) by {
            if i < hex_text(init).len() {
                assert(t[i] == hex_text(init)[i]);
            }
        }
    }
}

/// The text of an identifier has the `8-4-4-4-12` layout: 36 characters,
/// hyphens at positions 8, 13, 18 and 23, lower-case hexadecimal digits
/// everywhere else.
pub proof fn lemma_hyphenated_layout(bytes: Seq<u8>)
    requires
        bytes.len() == 16,
    ensures
        hyphenated(bytes).len() == 36,
        forall|i: int|
            0 <= i < 36 ==> (if i == 8 || i == 13 || i == 18 || i == 23 {
                #[trigger] hyphenated(bytes)[i] == '-'
            } else {
                is_lower_hex(hyphenated(bytes)[i])
            }),
{
    let s0 = hex_text(bytes.subrange(0, 4));
    let s1 = hex_text(bytes.subrange(4, 6));
    let s2 = hex_text(bytes.subrange(6, 8));
    let s3 = hex_text(bytes.subrange(8, 10));
    let s4 = hex_text(bytes.subrange(10, 16));
    lemma_hex_text(bytes.subrange(0, 4));
    lemma_hex_text(bytes.subrange(4, 6));
    lemma_hex_text(bytes.subrange(6, 8));
    lemma_hex_text(bytes.subrange(8, 10));
    lemma_hex_text(bytes.subrange(10, 16));
    let h = hyphenated(bytes);
    let d = seq!['-'];
    assert(h =~= s0 + d + s1 + d + s2 + d + s3 + d + s4);
    assert forall|i: int| 0 <= i < 36 implies (if i == 8 || i == 13 || i == 18 || i == 23 {
        #[trigger] h[i] == '-'
    } else {
        is_lower_hex(h[i])
    }) by {
        if i < 8 {
            assert(h[i] == s0[i]);
        } else if 8 < i < 13 {
            assert(h[i] == s1[i - 9]);
        } else if 13 < i < 18 {
            assert(h[i] == s2[i - 14]);
        } else if 18 < i < 23 {
            assert(h[i] == s3[i - 19]);
        } else if 23 < i {
            assert(h[i] == s4[i - 24]);
        }
    }
}

/// Stamping the version marks every 16 raw bytes as version 4 and changes
/// nothing but the high nibble of byte 6 and the two high bits of byte 8.
pub proof fn lemma_stamp_version(raw: Seq<u8>)
    requires
        raw.len() == 16,
    ensures
        is_version4(stamp_version(raw)),
        stamp_version(raw)[6] % 16 == raw[6] % 16,
        stamp_version(raw)[8] % 64 == raw[8] % 64,
        forall|i: int| 0 <= i < 16 && i != 6 && i != 8 ==> #[trigger] stamp_version(raw)[i] == raw[i],
{
    let r6 = raw[6];
    let r8 = raw[8];
    let v6: u8 = ((r6 & 0x0f) | 0x40) as u8;
    let v8: u8 = ((r8 & 0x3f) | 0x80) as u8;
    assert(v6 / 16 == 4 && v6 % 16 == r6 % 16) by (bit_vector)
        requires v6 == ((r6 & 0x0f) | 0x40) as u8;
    assert(v8 / 64 == 2 && v8 % 64 == r8 % 64) by (bit_vector)
        requires v8 == ((r8 & 0x3f) | 0x80) as u8;
}

/// The generator step is `state * 6364136223846793005 + 1`, wrapped to
/// 64 bits.
pub proof fn lemma_lcg_step_arithmetic(state: u64)
    ensures
        lcg_step(state) as nat == (state as nat * 6_364_136_223_846_793_005nat + 1) % 0x1_0000_0000_0000_0000,
{
}

/// The identifier drawn from generator state `s`: with `a` the next state
/// and `b` the one after, bytes 0..8 are the little-endian bytes of `a` and
/// bytes 8..16 those of `b`, except that byte 6 keeps only its low nibble
/// and gains `0x40`, and byte 8 keeps only its low six bits and gains `0x80`.
pub proof fn lemma_uuid_bytes_from_state(s: u64)
    ensures
        ({
            let a = (s as nat * 6_364_136_223_846_793_005nat + 1) % 0x1_0000_0000_0000_0000;
            let b = (a * 6_364_136_223_846_793_005nat + 1) % 0x1_0000_0000_0000_0000;
            let id = uuid_bytes_from_state(s);
            &&& id.len() == 16
            &&& forall|j: int| 0 <= j < 8 && j != 6 ==> #[trigger] id[j] as nat
                == (a / vstd::arithmetic::power2::pow2((8 * j) as nat)) % 256
            &&& id[6] as nat == ((a / vstd::arithmetic::power2::pow2(48)) % 256) % 16 + 64
            &&& forall|j: int| 1 <= j < 8 ==> #[trigger] id[8 + j] as nat
                == (b / vstd::arithmetic::power2::pow2((8 * j) as nat)) % 256
            &&& id[8] as nat == (b % 256) % 64 + 128
        }),
{
    let a = lcg_step(s);
    let b = lcg_step(a);
    let raw = draw_bytes(a, b);
    let id = uuid_bytes_from_state(s);
    vstd::arithmetic::power2::lemma2_to64();
    assert(id == stamp_version(raw));
    assert forall|j: int| 0 <= j < 8 && j != 6 implies #[trigger] id[j] as nat
        == (a as nat / vstd::arithmetic::power2::pow2((8 * j) as nat)) % 256 by {
        assert(id[j] == raw[j]);
    }
    assert forall|j: int| 1 <= j < 8 implies #[trigger] id[8 + j] as nat
        == (b as nat / vstd::arithmetic::power2::pow2((8 * j) as nat)) % 256 by {
        assert(id[8 + j] == raw[8 + j]);
    }
    let r6 = raw[6];
    let r8 = raw[8];
    assert(((r6 & 0x0f) | 0x40) as u8 == r6 % 16 + 64) by (bit_vector);
    assert(((r8 & 0x3f) | 0x80) as u8 == r8 % 64 + 128) by (bit_vector);
    assert(r6 as nat == (a as nat / vstd::arithmetic::power2::pow2(48)) % 256);
    assert(r8 as nat == (b as nat / vstd::arithmetic::power2::pow2(0)) % 256);
}

proof fn lemma_hex_text_digits(bytes: Seq<u8>, k: int)
    requires
        0 <= k < bytes.len(),
    ensures
        hex_text(bytes).len() == 2 * bytes.len(),
        hex_text(bytes)[2 * k] == hex_digit(bytes[k] / 16),
        hex_text(bytes)[2 * k + 1] == hex_digit(bytes[k] % 16),
    decreases bytes.len(),
{
    lemma_hex_text(bytes);
    let init = bytes.drop_last();
    lemma_hex_text(init);
    if k < bytes.len() - 1 {
        lemma_hex_text_digits(init, k);
    }
}

/// Where the two digits of byte `k` start in the `8-4-4-4-12` text.
pub open spec fn byte_text_position(k: int) -> int {
    2 * k + (if k >= 4 { 1int } else { 0 }) + (if k >= 6 { 1int } else { 0 }) + (if k >= 8 { 1int } else { 0 })
        + (if k >= 10 { 1int } else { 0 })
}

/// The text encodes the bytes: for each byte `k`, the two characters at
/// `byte_text_position(k)` are lower-case hexadecimal digits (`0`-`9`,
/// `a`-`f`) whose values are the high and the low nibble of the byte.
pub proof fn lemma_hyphenated_encodes(bytes: Seq<u8>)
    requires
        bytes.len() == 16,
    ensures
        forall|k: int|
            #![trigger byte_text_position(k)]
            0 <= k < 16 ==> {
                let p = byte_text_position(k);
                let hi = hyphenated(bytes)[p] as int;
                let lo = hyphenated(bytes)[p + 1] as int;
                &&& (48 <= hi <= 57 && hi - 48 == bytes[k] / 16) || (97 <= hi <= 102 && hi - 87
                    == bytes[k] / 16)
                &&& (48 <= lo <= 57 && lo - 48 == bytes[k] % 16) || (97 <= lo <= 102 && lo - 87
                    == bytes[k] % 16)
            },
{
    let s0 = bytes.subrange(0, 4);
    let s1 = bytes.subrange(4, 6);
    let s2 = bytes.subrange(6, 8);
    let s3 = bytes.subrange(8, 10);
    let s4 = bytes.subrange(10, 16);
    lemma_hex_text(s0);
    lemma_hex_text(s1);
    lemma_hex_text(s2);
    lemma_hex_text(s3);
    lemma_hex_text(s4);
    let d = seq!['-'];
    let h = hyphenated(bytes);
    assert(h =~= hex_text(s0) + d + hex_text(s1) + d + hex_text(s2) + d + hex_text(s3) + d + hex_text(s4));
    assert forall|k: int| #![trigger byte_text_position(k)] 0 <= k < 16 implies {
        let p = byte_text_position(k);
        let hi = h[p] as int;
        let lo = h[p + 1] as int;
        &&& (48 <= hi <= 57 && hi - 48 == bytes[k] / 16) || (97 <= hi <= 102 && hi - 87 == bytes[k] / 16)
        &&& (48 <= lo <= 57 && lo - 48 == bytes[k] % 16) || (97 <= lo <= 102 && lo - 87 == bytes[k] % 16)
    } by {
        let p = byte_text_position(k);
        if k < 4 {
            lemma_hex_text_digits(s0, k);
            assert(h[p] == hex_text(s0)[2 * k] && h[p + 1] == hex_text(s0)[2 * k + 1]);
        } else if k < 6 {
            lemma_hex_text_digits(s1, k - 4);
            assert(h[p] == hex_text(s1)[2 * (k - 4)] && h[p + 1] == hex_text(s1)[2 * (k - 4) + 1]);
        } else if k < 8 {
            lemma_hex_text_digits(s2, k - 6);
            assert(h[p] == hex_text(s2)[2 * (k - 6)] && h[p + 1] == hex_text(s2)[2 * (k - 6) + 1]);
        } else if k < 10 {
            lemma_hex_text_digits(s3, k - 8);
            assert(h[p] == hex_text(s3)[2 * (k - 8)] && h[p + 1] == hex_text(s3)[2 * (k - 8) + 1]);
        } else {
            lemma_hex_text_digits(s4, k - 10);
            assert(h[p] == hex_text(s4)[2 * (k - 10)] && h[p + 1] == hex_text(s4)[2 * (k - 10) + 1]);
        }
    }
}

} // verus!
