//! Laws of the codec, proved over the specification models.

use vstd::prelude::*;

use crate::compress::block_inner;
use crate::compress::blocks_rec;
use crate::compress::count_trailer;
use crate::compress::emit_literals;
use crate::compress::extend_len;
use crate::compress::hash_of;
use crate::compress::le32_at;
use crate::compress::lemma_extend_rec_bounds;
use crate::compress::match_bytes;
use crate::compress::spec_compress;
use crate::decompress::back_copied;
use crate::decompress::decode_from;
use crate::decompress::decode_tail;
use crate::decompress::spec_decompress;
use crate::decompress::zeros_from;
use crate::spec_worst_compress;
use crate::Error;
use vstd::arithmetic::div_mod::lemma_basic_div;
use vstd::arithmetic::div_mod::lemma_div_is_ordered;
use vstd::arithmetic::div_mod::lemma_div_is_ordered_by_denominator;
use vstd::arithmetic::div_mod::lemma_div_nonincreasing;
use vstd::arithmetic::div_mod::lemma_div_pos_is_pos;
use vstd::arithmetic::div_mod::lemma_fundamental_div_mod;
use vstd::arithmetic::div_mod::lemma_hoist_over_denominator;

verus! {

/// Terminator presence: every compressed stream ends in the three-byte
/// end-of-stream marker `0x11 0x00 0x00`.
pub proof fn lemma_terminator_presence(s: Seq<u8>)
    ensures
        spec_compress(s).len() >= 3,
        spec_compress(s).subrange(spec_compress(s).len() - 3, spec_compress(s).len() as int)
            == seq![17u8, 0u8, 0u8],
{
    let c = spec_compress(s);
    assert(c.subrange(c.len() - 3, c.len() as int) =~= seq![17u8, 0u8, 0u8]);
}

/// Determinism: the stream is a function of the input bytes alone, so two
/// compressions of equal inputs are byte-identical.
pub proof fn lemma_compress_deterministic(a: Seq<u8>, b: Seq<u8>)
    requires
        a == b,
    ensures
        spec_compress(a) == spec_compress(b),
{
}

/// Empty input: the stream for no data is exactly the end-of-stream marker.
pub proof fn lemma_compress_empty()
    ensures
        spec_compress(seq![]) == seq![17u8, 0u8, 0u8],
{
    assert(spec_compress(seq![]) =~= seq![17u8, 0u8, 0u8]);
}

/// Tiny inputs: up to 31 bytes, the stream is a single initial literal run
/// (header `len + 17`, then the bytes) followed by the marker.
pub proof fn lemma_compress_tiny(s: Seq<u8>)
    requires
        1 <= s.len() <= 31,
    ensures
        spec_compress(s) == seq![(s.len() + 17) as u8] + s + seq![17u8, 0u8, 0u8],
{
    assert(s.subrange(0, s.len() as int) =~= s);
    assert(spec_compress(s) =~= seq![(s.len() + 17) as u8] + s + seq![17u8, 0u8, 0u8]);
}

/// Round trip on tiny inputs: decoding the stream for `s` against a buffer
/// of exactly `s.len()` bytes gives `s` back.
#[verifier::rlimit(100)]
pub proof fn lemma_roundtrip_tiny(s: Seq<u8>)
    requires
        s.len() <= 31,
    ensures
        spec_decompress(spec_compress(s), s.len() as int) == Ok::<Seq<u8>, Error>(s),
{
    reveal(decode_from);
    reveal(decode_tail);
    let c = spec_compress(s);
    let n = s.len() as int;
    if n == 0 {
        lemma_compress_empty();
        assert(c[0] == 17 && c[1] == 0 && c[2] == 0);
        assert(s =~= seq![]);
        assert(decode_from(c, 0, seq![], 0, 0) == Ok::<Seq<u8>, Error>(seq![]));
        assert(spec_decompress(c, 0) == decode_from(c, 0, seq![], 0, 0));
    } else {
        lemma_compress_tiny(s);
        assert(c.len() == n + 4);
        assert(c[0] == (n + 17) as u8);
        assert(c[0] > 17 && c[0] as int - 17 == n);
        assert(c[1 + n] == 17 && c[2 + n] == 0 && c[3 + n] == 0);
        assert(c.subrange(1, 1 + n) =~= s);
        let st: int = if n < 4 { n } else { 4 };
        assert(decode_from(c, 1 + n, s, n, st) == Ok::<Seq<u8>, Error>(s));
        assert(c.subrange(1, 1 + n) == s);
        assert(spec_decompress(c, n) == decode_from(c, 1 + n, c.subrange(1, 1 + n), n, st));
    }
}

/// Floor division by 16 is superadditive.
proof fn lemma_div16_superadd(x: int, y: int)
    requires
        0 <= x,
        0 <= y,
    ensures
        x / 16 + y / 16 <= (x + y) / 16,
{
    lemma_hoist_over_denominator(x, y / 16, 16nat);
    lemma_fundamental_div_mod(y, 16);
    lemma_div_is_ordered(x + (y / 16) * 16, x + y, 16);
}

/// Length of a count trailer: one byte per full 255, plus the closing byte.
proof fn lemma_count_trailer_len(tt: int)
    requires
        1 <= tt,
    ensures
        1 <= count_trailer(tt).len() <= 1 + tt / 255,
    decreases tt,
{
    lemma_div_pos_is_pos(tt, 255);
    if tt > 255 {
        lemma_count_trailer_len(tt - 255);
        lemma_hoist_over_denominator(tt - 255, 1, 255nat);
    }
}

/// A match instruction is always shorter than the match it encodes.
proof fn lemma_match_bytes_len(m: int, d: int)
    requires
        4 <= m,
    ensures
        2 <= match_bytes(m, d).len() <= m - 1,
{
    if m <= 8 && d <= 0x800 {
    } else if d <= 0x4000 {
        if m > 33 {
            lemma_count_trailer_len(m - 33);
            lemma_div_nonincreasing(m - 33, 255);
        }
    } else {
        if m > 9 {
            lemma_count_trailer_len(m - 9);
            lemma_div_nonincreasing(m - 9, 255);
        }
    }
}

/// The accounting invariant of the match finder: the stream emitted so far
/// never exceeds the emitted anchor position plus a sixteenth of it. The
/// anchor `ii - ti` only moves forward, and an instruction pair (pending
/// literals, then a match) pays for itself.
proof fn lemma_block_inner_bound(
    s: Seq<u8>,
    blk: int,
    ip_end: int,
    ip: int,
    ii: int,
    ti: int,
    dict: Seq<u16>,
    out: Seq<u8>,
)
    requires
        blk <= ii <= ip,
        ip <= ip_end + 0x700,
        blk <= ip_end <= blk + 0xC000,
        0 <= blk,
        ip_end + 20 <= s.len(),
        dict.len() == 8192,
        0 <= ti <= ii,
        out.len() <= (ii - ti) + (ii - ti) / 16,
        out.len() >= 2 || ip - (ii - ti) >= 4,
    ensures
        ({
            let r = block_inner(s, blk, ip_end, ip, ii, ti, dict, out);
            &&& 0 <= r.2 <= r.1
            &&& ii - ti <= r.1 - r.2
            &&& r.1 - r.2 <= (if ii - ti > ip_end + 11 { ii - ti } else { ip_end + 11 })
            &&& r.0.len() <= (r.1 - r.2) + (r.1 - r.2) / 16
            &&& ((r.0 == out && r.1 == ii && r.2 == ti) || r.0.len() >= 2)
        }),
    decreases ip_end + 0x700 - ip,
{
    lemma_div_pos_is_pos(ii - ti, 16);
    if ip >= ip_end {
        return;
    }
    let dv = le32_at(s, ip);
    let h = hash_of(dv);
    assert(0 <= (dv * 0x1824429D) % 0x1_0000_0000 < 0x1_0000_0000);
    lemma_div_pos_is_pos((dv * 0x1824429D) % 0x1_0000_0000, 0x8_0000);
    lemma_div_is_ordered((dv * 0x1824429D) % 0x1_0000_0000, 0xFFFF_FFFF, 0x8_0000);
    assert(0 <= h < 8192);
    let m_pos = blk + dict[h] as int;
    let dict2 = dict.update(h, (ip - blk) as u16);
    if le32_at(s, m_pos) != dv {
        lemma_div_is_ordered(ip - ii, 0xC000, 32);
        lemma_div_pos_is_pos(ip - ii, 32);
        lemma_block_inner_bound(s, blk, ip_end, ip + (ip - ii) / 32 + 1, ii, ti, dict2, out);
    } else {
        let a = ii - ti;
        let t = ip - a;
        let m_len = extend_len(s, ip, m_pos, ip_end);
        lemma_extend_rec_bounds(s, ip, m_pos, ip_end, 4, (ip_end + 7 - ip) as nat);
        assert(4 <= m_len && ip + m_len <= ip_end + 11);
        let out2 = if t != 0 {
            emit_literals(out, s, a, t)
        } else {
            out
        };
        assert(s.subrange(a, a + t).len() == t);
        if t != 0 {
            if t <= 3 {
                assert(out.len() >= 2);
                assert(out2.len() == out.len() + t);
            } else if t <= 18 {
                assert(out2.len() == out.len() + 1 + t);
            } else {
                lemma_count_trailer_len(t - 18);
                assert(out2.len() == out.len() + 1 + count_trailer(t - 18).len() + t);
            }
        }
        // the header of the pending literals costs at most one byte more
        // than a sixteenth of the progress the pair makes
        let aa = ip + m_len;
        lemma_div16_superadd(a, t + m_len);
        lemma_div_pos_is_pos(t + m_len, 16);
        if t > 18 {
            lemma_count_trailer_len(t - 18);
            lemma_div_is_ordered_by_denominator(t - 18, 16, 255);
            lemma_hoist_over_denominator(t - 18, 1, 16nat);
            lemma_div_is_ordered(t - 18 + 16, t + 4, 16);
            lemma_div_is_ordered(t + 4, t + m_len, 16);
            assert((t - 18) / 255 + 1 <= (t + m_len) / 16);
        }
        assert(out2.len() <= a + a / 16 + t + 1 + (t + m_len) / 16);
        lemma_match_bytes_len(m_len, ip - m_pos);
        let out3 = out2 + match_bytes(m_len, ip - m_pos);
        assert(out3.len() <= aa + aa / 16);
        lemma_block_inner_bound(s, blk, ip_end, ip + m_len, ip + m_len, 0, dict2, out3);
    }
}

/// The accounting invariant carried across blocks.
#[verifier::rlimit(100)]
proof fn lemma_blocks_bound(s: Seq<u8>, ip: int, l: int, t: int, out: Seq<u8>)
    requires
        0 <= t <= ip,
        0 <= l,
        ip + l == s.len(),
        out.len() <= (ip - t) + (ip - t) / 16,
        out.len() == 0 ==> t == ip,
        out.len() == 0 || out.len() >= 2,
    ensures
        ({
            let r = blocks_rec(s, ip, l, t, out);
            &&& 0 <= r.2 <= r.1 <= s.len()
            &&& ip - t <= r.1 - r.2
            &&& r.0.len() <= (r.1 - r.2) + (r.1 - r.2) / 16
            &&& (r.0.len() == 0 ==> (r.0 == out && r.1 - r.2 == ip - t))
            &&& (r.0.len() == 0 || r.0.len() >= 2)
        }),
    decreases l,
{
    if l <= 20 {
        return;
    }
    let ll = if l <= 0xC000 { l } else { 0xC000 };
    if t + ll <= 31 {
        return;
    }
    let adv = if t < 4 { 4 - t } else { 0 };
    let ip0 = ip + adv;
    lemma_basic_div(adv, 32);
    let start = ip0 + (ip0 - ip) / 32 + 1;
    assert(start == ip + adv + 1);
    let zeros = Seq::new(8192, |k: int| 0u16);
    let r = block_inner(s, ip, ip + ll - 20, start, ip, t, zeros, out);
    let t2 = ip + ll - (r.1 - r.2);
    assert(blocks_rec(s, ip, l, t, out) == blocks_rec(s, ip + ll, l - ll, t2, r.0));
    lemma_block_inner_bound(s, ip, ip + ll - 20, start, ip, t, zeros, out);
    assert(0 <= t2 <= ip + ll) by {
        assert(r.2 <= r.1);
        assert(r.1 - r.2 <= ip + ll - 9);
    }
    assert((ip + ll) - t2 == r.1 - r.2);
    assert(r.0.len() <= ((ip + ll) - t2) + ((ip + ll) - t2) / 16);
    assert(r.0.len() == 0 ==> t2 == ip + ll && r.0 == out) by {
        if r.0.len() == 0 {
            assert(r.0 == out && r.1 == ip && r.2 == t);
        }
    }
    lemma_blocks_bound(s, ip + ll, l - ll, t2, r.0);
}

/// Worst-case bound: a compressed stream is never longer than
/// `worst_compress` of the input length.
pub proof fn lemma_worst_case_bound(s: Seq<u8>)
    ensures
        spec_compress(s).len() <= spec_worst_compress(s.len() as int),
{
    let n = s.len() as int;
    lemma_blocks_bound(s, 0, n, 0, seq![]);
    let r = blocks_rec(s, 0, n, 0, seq![]);
    let a = r.1 - r.2;
    let t2 = r.2 + (n - r.1);
    assert(a + t2 == n);
    lemma_div_pos_is_pos(a, 16);
    lemma_div_is_ordered(a, n, 16);
    lemma_div_pos_is_pos(n, 16);
    if t2 > 0 && !(r.0.len() == 0 && t2 <= 238) && t2 > 18 {
        lemma_count_trailer_len(t2 - 18);
        lemma_div_is_ordered_by_denominator(t2 - 18, 16, 255);
        lemma_div16_superadd(a, t2 - 18);
        lemma_div_is_ordered(a + t2 - 18, n, 16);
        assert(a / 16 + (t2 - 18) / 255 <= n / 16);
    }
}

/// A back-reference copy grows the output by exactly its length.
proof fn lemma_back_copied_len(out: Seq<u8>, m: int, n: int)
    requires
        0 <= n,
    ensures
        back_copied(out, m, n).len() == out.len() + n,
    decreases n,
{
    if n > 0 {
        lemma_back_copied_len(out.push(out[m]), m + 1, n - 1);
    }
}

/// Whatever instruction follows, the output never outgrows the capacity.
proof fn lemma_decode_tail_fits(s: Seq<u8>, ip: int, out: Seq<u8>, cap: int, nx: int)
    requires
        0 <= nx,
        0 <= ip <= s.len(),
        out.len() <= cap,
    ensures
        decode_tail(s, ip, out, cap, nx) matches Ok(data) ==> data.len() <= cap,
    decreases s.len() - ip, 1int,
{
    reveal(decode_tail);
    reveal(decode_from);
    if s.len() - ip >= nx + 3 && cap - out.len() >= nx {
        lemma_decode_from_fits(s, ip + nx, out + s.subrange(ip, ip + nx), cap, nx);
    }
}

/// The decoder checks the remaining room before every copy, so a decoded
/// result is never longer than the capacity it was decoded against.
proof fn lemma_decode_from_fits(s: Seq<u8>, ip: int, out: Seq<u8>, cap: int, st: int)
    requires
        0 <= ip <= s.len() - 3,
        out.len() <= cap,
    ensures
        decode_from(s, ip, out, cap, st) matches Ok(data) ==> data.len() <= cap,
    decreases s.len() - ip, 0int,
{
    reveal(decode_from);
    reveal(decode_tail);
    let t = s[ip] as int;
    let ip1 = ip + 1;
    if t < 16 {
        if st == 0 {
            let z = zeros_from(s, ip1);
            if !(t == 0 && ip1 + z >= s.len()) && !(t == 0 && z > usize::MAX as int / 255 - 2) {
                let run = if t == 0 { z * 255 + 15 + s[ip1 + z] + 3 } else { t + 3 };
                let ip2 = if t == 0 { ip1 + z + 1 } else { ip1 };
                if cap - out.len() >= run && s.len() - ip2 >= run + 3 {
                    lemma_decode_from_fits(s, ip2 + run, out + s.subrange(ip2, ip2 + run), cap, 4);
                }
            }
        } else if st != 4 {
            let dist = 1 + t / 4 + s[ip1] as int * 4;
            if dist <= out.len() && cap - out.len() >= 2 {
                lemma_back_copied_len(out, out.len() - dist, 2);
                lemma_decode_tail_fits(s, ip1 + 1, back_copied(out, out.len() - dist, 2), cap,
                    t % 4);
            }
        } else {
            let dist = 0x801 + t / 4 + s[ip1] as int * 4;
            if dist <= out.len() && cap - out.len() >= t {
                lemma_back_copied_len(out, out.len() - dist, t);
                lemma_decode_tail_fits(s, ip1 + 1, back_copied(out, out.len() - dist, t), cap,
                    t % 4);
            }
        }
    } else if t >= 64 {
        let dist = 1 + (t / 4) % 8 + s[ip1] as int * 8;
        let run = t / 32 + 1;
        if dist <= out.len() && cap - out.len() >= run {
            lemma_back_copied_len(out, out.len() - dist, run);
            lemma_decode_tail_fits(s, ip1 + 1, back_copied(out, out.len() - dist, run), cap,
                t % 4);
        }
    } else if t >= 32 {
        let z = zeros_from(s, ip1);
        let ext = t % 32 == 0;
        if !(ext && ip1 + z >= s.len()) && !(ext && z > usize::MAX as int / 255 - 2) {
            let run = if ext { 33 + z * 255 + s[ip1 + z] } else { t % 32 + 2 };
            let ipw = if ext { ip1 + z + 1 } else { ip1 };
            if !(ext && s.len() - ipw < 2) {
                let w = s[ipw] + s[ipw + 1] * 0x100;
                let dist = 1 + w / 4;
                if dist <= out.len() && cap - out.len() >= run {
                    lemma_back_copied_len(out, out.len() - dist, run);
                    lemma_decode_tail_fits(s, ipw + 2, back_copied(out, out.len() - dist, run),
                        cap, w % 4);
                }
            }
        }
    } else {
        let base = ((t / 8) % 2) * 0x4000;
        let z = zeros_from(s, ip1);
        let ext = t % 8 == 0;
        if !(ext && ip1 + z >= s.len()) && !(ext && z > usize::MAX as int / 255 - 2) {
            let run = if ext { 9 + z * 255 + s[ip1 + z] } else { t % 8 + 2 };
            let ipw = if ext { ip1 + z + 1 } else { ip1 };
            if !(ext && s.len() - ipw < 2) {
                let w = s[ipw] + s[ipw + 1] * 0x100;
                let d = base + w / 4;
                if d != 0 {
                    let dist = d + 0x4000;
                    if dist <= out.len() && cap - out.len() >= run {
                        lemma_back_copied_len(out, out.len() - dist, run);
                        lemma_decode_tail_fits(s, ipw + 2, back_copied(out, out.len() - dist, run),
                            cap, w % 4);
                    }
                }
            }
        }
    }
}

/// Decoder robustness, capacity side: a successfully decoded result always
/// fits the buffer capacity it was decoded against.
pub proof fn lemma_decoded_fits(s: Seq<u8>, cap: int)
    requires
        0 <= cap,
    ensures
        spec_decompress(s, cap) matches Ok(data) ==> data.len() <= cap,
{
    if s.len() >= 3 {
        if s[0] > 17 {
            let t = s[0] - 17;
            let st: int = if t < 4 { t as int } else { 4 };
            if cap >= t && s.len() - 1 >= t + 3 {
                lemma_decode_from_fits(s, 1 + t, s.subrange(1, 1 + t), cap, st);
            }
        } else {
            lemma_decode_from_fits(s, 0, seq![], cap, 0);
        }
    }
}

} // verus!
