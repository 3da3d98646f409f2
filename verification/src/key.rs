//! Keys and their chunks: how 32 bytes route through a 32-way trie.
use vstd::prelude::*;

verus! {

/// The 16 bits from byte `byte` of a key on; past its end there are zeros.
pub open spec fn window(k: Seq<u8>, byte: int) -> u16 {
    ((k[byte] as u16) << 8u16) | (if byte + 1 < 32 {
        k[byte + 1] as u16
    } else {
        0u16
    })
}

/// The 5 bits at `shift` of a window.
pub open spec fn five(w: u16, shift: u16) -> u8 {
    ((w >> shift) & 0x1Fu16) as u8
}

/// The 5-bit chunk of a key at `depth`. 256 bits make 51 full levels and one bit: two different
/// keys part within 52.
pub open spec fn chunk_of(k: Seq<u8>, depth: int) -> u8 {
    five(window(k, (5 * depth) / 8), (11 - (5 * depth) % 8) as u16)
}

/// Whether two keys take the same way for `depth` levels.
pub open spec fn agree(a: Seq<u8>, b: Seq<u8>, depth: int) -> bool {
    forall|i: int| 0 <= i < depth ==> #[trigger] chunk_of(a, i) == chunk_of(b, i)
}

proof fn lemma_five_bound(w: u16, s: u16)
    requires
        s < 16,
    ensures
        five(w, s) < 32,
{
    assert(((w >> s) & 0x1Fu16) < 32) by (bit_vector);
    let x = (w >> s) & 0x1Fu16;
    assert(x as u8 == x);
}

/// A chunk is one of 32.
pub proof fn lemma_chunk_bound(k: Seq<u8>, depth: int)
    requires
        0 <= depth < 52,
    ensures
        chunk_of(k, depth) < 32,
{
    lemma_five_bound(window(k, (5 * depth) / 8), (11 - (5 * depth) % 8) as u16);
}

/// The 5-bit chunk of the key at `depth`.
pub(crate) fn chunk(key: &[u8; 32], depth: u8) -> (c: u8)
    requires
        depth < 52,
    ensures
        c == chunk_of(key@, depth as int),
        c < 32,
{
    proof {
        lemma_chunk_bound(key@, depth as int);
    }
    let bit: usize = depth as usize * 5;
    let byte: usize = bit / 8;
    let off: usize = bit % 8;
    let hi: u16 = (key[byte] as u16) << 8u16;
    let lo: u16 = if byte + 1 < 32 {
        key[byte + 1] as u16
    } else {
        0
    };
    let shift: u16 = (11 - off) as u16;
    (((hi | lo) >> shift) & 0x1F) as u8
}

// ---------------------------------------------------------------- different keys part

proof fn lemma_five_eq(v: u16, w: u16, s: u16)
    requires
        s < 16,
        five(v, s) == five(w, s),
    ensures
        (v >> s) & 0x1Fu16 == (w >> s) & 0x1Fu16,
{
    assert(((v >> s) & 0x1Fu16) < 32) by (bit_vector);
    assert(((w >> s) & 0x1Fu16) < 32) by (bit_vector);
}

proof fn lemma_group_bits(
    v0: u16,
    v1: u16,
    v2: u16,
    v3: u16,
    v4: u16,
    w0: u16,
    w1: u16,
    w2: u16,
    w3: u16,
    w4: u16,
)
    by (bit_vector)
    requires
        v0 & 0xff == v1 >> 8u16,
        v1 & 0xff == v2 >> 8u16,
        v2 & 0xff == v3 >> 8u16,
        v3 & 0xff == v4 >> 8u16,
        w0 & 0xff == w1 >> 8u16,
        w1 & 0xff == w2 >> 8u16,
        w2 & 0xff == w3 >> 8u16,
        w3 & 0xff == w4 >> 8u16,
        (v0 >> 11u16) & 0x1F == (w0 >> 11u16) & 0x1F,
        (v0 >> 6u16) & 0x1F == (w0 >> 6u16) & 0x1F,
        (v1 >> 9u16) & 0x1F == (w1 >> 9u16) & 0x1F,
        (v1 >> 4u16) & 0x1F == (w1 >> 4u16) & 0x1F,
        (v2 >> 7u16) & 0x1F == (w2 >> 7u16) & 0x1F,
        (v3 >> 10u16) & 0x1F == (w3 >> 10u16) & 0x1F,
        (v3 >> 5u16) & 0x1F == (w3 >> 5u16) & 0x1F,
        (v4 >> 8u16) & 0x1F == (w4 >> 8u16) & 0x1F,
    ensures
        v0 >> 8u16 == w0 >> 8u16,
        v1 >> 8u16 == w1 >> 8u16,
        v2 >> 8u16 == w2 >> 8u16,
        v3 >> 8u16 == w3 >> 8u16,
        v4 >> 8u16 == w4 >> 8u16,
{
}

proof fn lemma_tail_bits(v0: u16, v1: u16, w0: u16, w1: u16)
    by (bit_vector)
    requires
        v0 & 0xff == v1 >> 8u16,
        w0 & 0xff == w1 >> 8u16,
        (v0 >> 11u16) & 0x1F == (w0 >> 11u16) & 0x1F,
        (v0 >> 6u16) & 0x1F == (w0 >> 6u16) & 0x1F,
        (v1 >> 9u16) & 0x1F == (w1 >> 9u16) & 0x1F,
        (v1 >> 4u16) & 0x1F == (w1 >> 4u16) & 0x1F,
    ensures
        v0 >> 8u16 == w0 >> 8u16,
        v1 >> 8u16 == w1 >> 8u16,
{
}

proof fn lemma_window_bytes(k: Seq<u8>, byte: int)
    requires
        k.len() == 32,
        0 <= byte < 32,
    ensures
        window(k, byte) >> 8u16 == k[byte] as u16,
        byte + 1 < 32 ==> window(k, byte) & 0xff == k[byte + 1] as u16,
{
    let a = k[byte];
    let b: u8 = if byte + 1 < 32 {
        k[byte + 1]
    } else {
        0
    };
    assert((((a as u16) << 8u16) | (b as u16)) >> 8u16 == a as u16) by (bit_vector);
    assert((((a as u16) << 8u16) | (b as u16)) & 0xff == b as u16) by (bit_vector);
    assert(window(k, byte) == ((a as u16) << 8u16) | (b as u16));
}

proof fn lemma_chunks_eq_at(a: Seq<u8>, b: Seq<u8>, d: int, byte: int, s: u16)
    requires
        chunk_of(a, d) == chunk_of(b, d),
        0 <= d < 52,
        byte == (5 * d) / 8,
        s == 11 - (5 * d) % 8,
    ensures
        (window(a, byte) >> s) & 0x1Fu16 == (window(b, byte) >> s) & 0x1Fu16,
{
    lemma_five_eq(window(a, byte), window(b, byte), s);
}

proof fn lemma_group_equal(a: Seq<u8>, b: Seq<u8>, q: int)
    requires
        a.len() == 32,
        b.len() == 32,
        0 <= q < 6,
        agree(a, b, 52),
    ensures
        a[5 * q] == b[5 * q],
        a[5 * q + 1] == b[5 * q + 1],
        a[5 * q + 2] == b[5 * q + 2],
        a[5 * q + 3] == b[5 * q + 3],
        a[5 * q + 4] == b[5 * q + 4],
{
    let n = 5 * q;
    let d = 8 * q;
    assert(chunk_of(a, d) == chunk_of(b, d));
    assert(chunk_of(a, d + 1) == chunk_of(b, d + 1));
    assert(chunk_of(a, d + 2) == chunk_of(b, d + 2));
    assert(chunk_of(a, d + 3) == chunk_of(b, d + 3));
    assert(chunk_of(a, d + 4) == chunk_of(b, d + 4));
    assert(chunk_of(a, d + 5) == chunk_of(b, d + 5));
    assert(chunk_of(a, d + 6) == chunk_of(b, d + 6));
    assert(chunk_of(a, d + 7) == chunk_of(b, d + 7));
    lemma_chunks_eq_at(a, b, d, n, 11);
    lemma_chunks_eq_at(a, b, d + 1, n, 6);
    lemma_chunks_eq_at(a, b, d + 2, n + 1, 9);
    lemma_chunks_eq_at(a, b, d + 3, n + 1, 4);
    lemma_chunks_eq_at(a, b, d + 4, n + 2, 7);
    lemma_chunks_eq_at(a, b, d + 5, n + 3, 10);
    lemma_chunks_eq_at(a, b, d + 6, n + 3, 5);
    lemma_chunks_eq_at(a, b, d + 7, n + 4, 8);
    lemma_window_bytes(a, n);
    lemma_window_bytes(a, n + 1);
    lemma_window_bytes(a, n + 2);
    lemma_window_bytes(a, n + 3);
    lemma_window_bytes(a, n + 4);
    lemma_window_bytes(b, n);
    lemma_window_bytes(b, n + 1);
    lemma_window_bytes(b, n + 2);
    lemma_window_bytes(b, n + 3);
    lemma_window_bytes(b, n + 4);
    lemma_group_bits(
        window(a, n),
        window(a, n + 1),
        window(a, n + 2),
        window(a, n + 3),
        window(a, n + 4),
        window(b, n),
        window(b, n + 1),
        window(b, n + 2),
        window(b, n + 3),
        window(b, n + 4),
    );
}

proof fn lemma_tail_equal(a: Seq<u8>, b: Seq<u8>)
    requires
        a.len() == 32,
        b.len() == 32,
        agree(a, b, 52),
    ensures
        a[30] == b[30],
        a[31] == b[31],
{
    assert(chunk_of(a, 48) == chunk_of(b, 48));
    assert(chunk_of(a, 49) == chunk_of(b, 49));
    assert(chunk_of(a, 50) == chunk_of(b, 50));
    assert(chunk_of(a, 51) == chunk_of(b, 51));
    lemma_chunks_eq_at(a, b, 48, 30, 11);
    lemma_chunks_eq_at(a, b, 49, 30, 6);
    lemma_chunks_eq_at(a, b, 50, 31, 9);
    lemma_chunks_eq_at(a, b, 51, 31, 4);
    lemma_window_bytes(a, 30);
    lemma_window_bytes(a, 31);
    lemma_window_bytes(b, 30);
    lemma_window_bytes(b, 31);
    lemma_tail_bits(window(a, 30), window(a, 31), window(b, 30), window(b, 31));
}

/// Law: two keys that take the same way for 52 levels are the same key.
pub proof fn law_different_keys_part(a: Seq<u8>, b: Seq<u8>)
    requires
        a.len() == 32,
        b.len() == 32,
        agree(a, b, 52),
    ensures
        a == b,
{
    lemma_group_equal(a, b, 0);
    lemma_group_equal(a, b, 1);
    lemma_group_equal(a, b, 2);
    lemma_group_equal(a, b, 3);
    lemma_group_equal(a, b, 4);
    lemma_group_equal(a, b, 5);
    lemma_tail_equal(a, b);
    assert forall|i: int| 0 <= i < 32 implies a[i] == b[i] by {
        if i < 30 {
            let q = i / 5;
            let r = i % 5;
            assert(i == 5 * q + r);
        }
    }
    assert(a =~= b);
}

// ---------------------------------------------------------------- routes

/// The bits of a window with the 5 bits at `s` replaced.
pub open spec fn patched(w: u16, slot: u16, s: u16) -> u16 {
    (w & !(0x1Fu16 << s)) | (slot << s)
}

proof fn lemma_patched_reads(w: u16, slot: u16, s: u16)
    by (bit_vector)
    requires
        slot < 32,
        4 <= s <= 11,
    ensures
        (((w & !(0x1Fu16 << s)) | (slot << s)) >> s) & 0x1F == slot,
{
}

/// The same where the low byte is not stored.
proof fn lemma_patched_reads_end(w: u16, slot: u16, s: u16)
    by (bit_vector)
    requires
        slot < 32,
        4 <= s <= 11,
        s < 8 ==> s == 4 && slot & 0xF == 0,
    ensures
        (((((w & !(0x1Fu16 << s)) | (slot << s)) >> 8u16) << 8u16) >> s) & 0x1F == slot,
{
}

/// The chunk just before, in the same window.
proof fn lemma_patched_above(w: u16, slot: u16, s: u16, t: u16)
    by (bit_vector)
    requires
        slot < 32,
        4 <= s <= 11,
        s + 5 <= t <= 11,
    ensures
        (((w & !(0x1Fu16 << s)) | (slot << s)) >> t) & 0x1F == (w >> t) & 0x1F,
{
}

/// The same where the low byte is not stored.
proof fn lemma_patched_above_end(w: u16, slot: u16, s: u16, t: u16)
    by (bit_vector)
    requires
        slot < 32,
        4 <= s <= 11,
        s + 5 <= t <= 11,
        w & 0xff == 0,
    ensures
        (((((w & !(0x1Fu16 << s)) | (slot << s)) >> 8u16) << 8u16) >> t) & 0x1F == (w >> t) & 0x1F,
{
}

/// A chunk of the window one byte earlier.
proof fn lemma_patched_before(a: u16, w: u16, slot: u16, s: u16, t: u16)
    by (bit_vector)
    requires
        a < 256,
        slot < 32,
        4 <= s <= 11,
        t <= 11,
        t + 3 >= s,
        t >= 4,
    ensures
        ((((a << 8u16) | (((w & !(0x1Fu16 << s)) | (slot << s)) >> 8u16)) >> t) & 0x1F) == ((((a
            << 8u16) | (w >> 8u16)) >> t) & 0x1F),
{
}

proof fn lemma_low_byte(x: u16)
    ensures
        (x & 0xffu16) < 256,
        (x >> 8u16) < 256,
        ((x >> 8u16) << 8u16) | (x & 0xffu16) == x,
{
    assert((x & 0xffu16) < 256) by (bit_vector);
    assert((x >> 8u16) < 256) by (bit_vector);
    assert(((x >> 8u16) << 8u16) | (x & 0xffu16) == x) by (bit_vector);
}

/// The last chunk of a key has one bit of it, its highest.
pub proof fn lemma_last_chunk(k: Seq<u8>)
    requires
        k.len() == 32,
    ensures
        chunk_of(k, 51) % 16 == 0,
{
    let a = k[31];
    let w = window(k, 31);
    assert(w == ((a as u16) << 8u16) | 0u16);
    assert(((((((a as u16) << 8u16) | 0u16) >> 4u16) & 0x1F) as u8) % 16 == 0) by (bit_vector);
    assert((11 - (5 * 51) % 8) as u16 == 4u16);
}

/// `base` with the chunk at `depth` set to `slot`.
pub open spec fn routed(base: Seq<u8>, depth: int, slot: u8) -> Seq<u8> {
    let b = (5 * depth) / 8;
    let new = patched(window(base, b), slot as u16, (11 - (5 * depth) % 8) as u16);
    let r = base.update(b, (new >> 8u16) as u8);
    if b + 1 < 32 {
        r.update(b + 1, (new & 0xFF) as u8)
    } else {
        r
    }
}

/// A routed key keeps its chunks before `depth` and has `slot` there. The last chunk has only one
/// bit of the key, its highest.
pub proof fn lemma_routed(k: Seq<u8>, depth: int, slot: u8)
    requires
        k.len() == 32,
        0 <= depth < 52,
        slot < 32,
    ensures
        routed(k, depth, slot).len() == 32,
        agree(routed(k, depth, slot), k, depth),
        depth < 51 || slot % 16 == 0 ==> chunk_of(routed(k, depth, slot), depth) == slot,
{
    let b = (5 * depth) / 8;
    let s = (11 - (5 * depth) % 8) as u16;
    let w = window(k, b);
    let new = patched(w, slot as u16, s);
    let r = routed(k, depth, slot);
    lemma_low_byte(new);
    lemma_low_byte(w);
    lemma_window_bytes(k, b);
    lemma_window_bytes(r, b);
    assert(window(r, b) == (if b + 1 < 32 {
        new
    } else {
        (new >> 8u16) << 8u16
    })) by {
        let hi = new >> 8u16;
        assert((hi << 8u16) | 0u16 == hi << 8u16) by (bit_vector);
        assert(r[b] as u16 == hi);
    }
    if depth < 51 || slot % 16 == 0 {
        let sl = slot as u16;
        assert(sl % 16 == 0 ==> sl & 0xF == 0) by (bit_vector);
        lemma_patched_reads(w, sl, s);
        if b + 1 >= 32 {
            lemma_patched_reads_end(w, sl, s);
        }
    }
    assert forall|i: int| 0 <= i < depth implies #[trigger] chunk_of(r, i) == chunk_of(k, i) by {
        let bi = (5 * i) / 8;
        let t = (11 - (5 * i) % 8) as u16;
        if bi == b {
            if b + 1 < 32 {
                lemma_patched_above(w, slot as u16, s, t);
            } else {
                assert(w & 0xff == 0) by {
                    let a = k[b];
                    assert((((a as u16) << 8u16) | 0u16) & 0xff == 0) by (bit_vector);
                }
                lemma_patched_above_end(w, slot as u16, s, t);
            }
        } else if bi + 1 == b {
            lemma_patched_before(k[bi] as u16, w, slot as u16, s, t);
            assert(window(k, bi) == ((k[bi] as u16) << 8u16) | (w >> 8u16));
            assert(r[bi] == k[bi]);
            assert(window(r, bi) == ((k[bi] as u16) << 8u16) | (new >> 8u16));
        } else {
            assert(bi + 1 < b);
            assert(r[bi] == k[bi]);
            assert(r[bi + 1] == k[bi + 1]);
        }
    }
}

/// `base` with the chunk at `depth` set to `slot`: threads the descent path down to children, so
/// that a pointer can be routed back to.
pub(crate) fn route_with_chunk(base: [u8; 32], depth: u8, slot: u8) -> (r: [u8; 32])
    requires
        depth < 52,
        slot < 32,
    ensures
        r@ == routed(base@, depth as int, slot),
{
    let bit: usize = depth as usize * 5;
    let byte: usize = bit / 8;
    let off: usize = bit % 8;
    let ghost k = base@;
    let mut base = base;
    let lo: u16 = if byte + 1 < 32 {
        base[byte + 1] as u16
    } else {
        0
    };
    let w: u16 = ((base[byte] as u16) << 8u16) | lo;
    let shift: u16 = (11 - off) as u16;
    let mask: u16 = 0x1Fu16 << shift;
    let new: u16 = (w & !mask) | ((slot as u16) << shift);
    proof {
        assert(w == window(k, byte as int));
        assert(new == patched(w, slot as u16, shift));
    }
    base[byte] = (new >> 8u16) as u8;
    if byte + 1 < 32 {
        base[byte + 1] = (new & 0xFF) as u8;
    }
    assert(base@ =~= routed(k, depth as int, slot));
    base
}

/// Agreement runs both ways, and through a third key.
pub proof fn lemma_agree_through(a: Seq<u8>, b: Seq<u8>, c: Seq<u8>, d: int)
    requires
        agree(a, b, d),
        agree(b, c, d),
    ensures
        agree(a, c, d),
        agree(c, a, d),
        agree(b, a, d),
{
    assert forall|i: int| 0 <= i < d implies #[trigger] chunk_of(a, i) == chunk_of(c, i) by {
        assert(chunk_of(a, i) == chunk_of(b, i));
        assert(chunk_of(b, i) == chunk_of(c, i));
    }
    assert forall|i: int| 0 <= i < d implies #[trigger] chunk_of(c, i) == chunk_of(a, i) by {
        assert(chunk_of(a, i) == chunk_of(c, i));
    }
    assert forall|i: int| 0 <= i < d implies #[trigger] chunk_of(b, i) == chunk_of(a, i) by {
        assert(chunk_of(a, i) == chunk_of(b, i));
    }
}

/// Law: the chunks of a key are its bits, five at a time, the highest first: the chunk at a depth is what
/// stands from bit `5 * depth` on in the two bytes that hold it, with zeros past the last byte.
pub proof fn law_chunk_is_five_bits_of_the_key(k: Seq<u8>, depth: int)
    requires
        k.len() == 32,
        0 <= depth < 52,
    ensures
        ({
            let at = 5 * depth / 8;
            let both = 256 * k[at] + (if at < 31 {
                k[at + 1] as int
            } else {
                0
            });
            chunk_of(k, depth) == (both / (vstd::arithmetic::power2::pow2(
                (11 - 5 * depth % 8) as nat,
            ) as int)) % 32
        }),
{
    let at = 5 * depth / 8;
    let hi = k[at];
    let lo: u8 = if at < 31 {
        k[at + 1]
    } else {
        0
    };
    let s = (11 - 5 * depth % 8) as u16;
    let w = window(k, at);
    assert(w == ((hi as u16) << 8u16) | (lo as u16));
    assert(((hi as u16) << 8u16) | (lo as u16) == 256 * hi + lo) by (bit_vector);
    assert(4 <= s <= 11);
    let x = (w >> s) & 0x1Fu16;
    assert(x < 32) by (bit_vector)
        requires
            x == (w >> s) & 0x1Fu16,
    ;
    vstd::arithmetic::power2::lemma2_to64();
    assert(s == 4 ==> x == (w / 16) % 32) by (bit_vector)
        requires
            x == (w >> s) & 0x1Fu16,
    ;
    assert(s == 5 ==> x == (w / 32) % 32) by (bit_vector)
        requires
            x == (w >> s) & 0x1Fu16,
    ;
    assert(s == 6 ==> x == (w / 64) % 32) by (bit_vector)
        requires
            x == (w >> s) & 0x1Fu16,
    ;
    assert(s == 7 ==> x == (w / 128) % 32) by (bit_vector)
        requires
            x == (w >> s) & 0x1Fu16,
    ;
    assert(s == 8 ==> x == (w / 256) % 32) by (bit_vector)
        requires
            x == (w >> s) & 0x1Fu16,
    ;
    assert(s == 9 ==> x == (w / 512) % 32) by (bit_vector)
        requires
            x == (w >> s) & 0x1Fu16,
    ;
    assert(s == 10 ==> x == (w / 1024) % 32) by (bit_vector)
        requires
            x == (w >> s) & 0x1Fu16,
    ;
    assert(s == 11 ==> x == (w / 2048) % 32) by (bit_vector)
        requires
            x == (w >> s) & 0x1Fu16,
    ;
}

}
