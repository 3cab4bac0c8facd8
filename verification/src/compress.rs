//! The LZO1X-1 encoder.
//!
//! `spec_compress` is the mathematical definition of the stream the encoder
//! emits; `compress_to_slice` is the executable encoder, verified to produce
//! exactly that stream.

use vstd::prelude::*;

verus! {

// ===================== specification model =====================

/// The little-endian 32-bit value of the four bytes of `s` at `i`.
pub open spec fn le32_at(s: Seq<u8>, i: int) -> int {
    s[i] + s[i + 1] * 0x100 + s[i + 2] * 0x1_0000 + s[i + 3] * 0x100_0000
}

/// The 13-bit dictionary hash the match finder applies to a four-byte group.
pub open spec fn hash_of(dv: int) -> int {
    ((dv * 0x1824429D) % 0x1_0000_0000) / 0x8_0000
}

/// Trailer of a variable-length count: one zero byte for every full 255 the
/// count holds beyond its base, closed by a byte holding the remainder
/// (always in `1 ..= 255`).
pub open spec fn count_trailer(tt: int) -> Seq<u8>
    decreases tt,
{
    if tt > 255 {
        seq![0u8] + count_trailer(tt - 255)
    } else {
        seq![tt as u8]
    }
}

/// Emission of `t` pending literal bytes `s[ii .. ii + t]` in mid-stream
/// position. A count of 1 to 3 has no header of its own: it is OR-ed into
/// the low two bits of the second-to-last byte already emitted (the first
/// byte of the previous match's offset word, whose low two bits are zero).
pub open spec fn emit_literals(out: Seq<u8>, s: Seq<u8>, ii: int, t: int) -> Seq<u8> {
    let with_header = if t <= 3 {
        out.update(out.len() - 2, out[out.len() - 2] | t as u8)
    } else if t <= 18 {
        out + seq![(t - 3) as u8]
    } else {
        out + seq![0u8] + count_trailer(t - 18)
    };
    with_header + s.subrange(ii, ii + t)
}

/// Bytes encoding a match of length `m` (at least 4) at backward distance
/// `d` (in `1 ..= 0xBFFF`). The three instruction shapes: a two-byte short
/// match, a medium match with a 14-bit offset, and a distant match with the
/// offset biased by 0x4000; the last two end in a two-byte offset word whose
/// low two bits are left zero for a following literal count.
pub open spec fn match_bytes(m: int, d: int) -> Seq<u8> {
    if m <= 8 && d <= 0x800 {
        let dd = d - 1;
        seq![((m - 1) * 32 + (dd % 8) * 4) as u8, (dd / 8) as u8]
    } else if d <= 0x4000 {
        let dd = d - 1;
        let head = if m <= 33 {
            seq![(32 + (m - 2)) as u8]
        } else {
            seq![32u8] + count_trailer(m - 33)
        };
        head + seq![((dd * 4) % 256) as u8, ((dd / 64) % 256) as u8]
    } else {
        let dd = d - 0x4000;
        let bit = ((dd / 0x4000) % 2) * 8;
        let head = if m <= 9 {
            seq![(16 + bit + (m - 2)) as u8]
        } else {
            seq![(16 + bit) as u8] + count_trailer(m - 9)
        };
        head + seq![((dd * 4) % 256) as u8, ((dd / 64) % 256) as u8]
    }
}

/// One step of the greedy match extension: the length grows while input
/// bytes keep matching the earlier occurrence; every eighth byte past the
/// first the extension also stops when it has reached the tail margin of the
/// block. `fuel` only bounds the recursion and is chosen large enough by
/// `extend_len` that it never runs out.
pub open spec fn extend_rec(s: Seq<u8>, ip: int, m_pos: int, ip_end: int, m: int, fuel: nat) -> int
    decreases fuel,
{
    if fuel == 0 {
        m
    } else if m % 8 == 4 && m != 4 && ip + m >= ip_end {
        m
    } else if s[ip + m] != s[m_pos + m] {
        m
    } else {
        extend_rec(s, ip, m_pos, ip_end, m + 1, (fuel - 1) as nat)
    }
}

/// Length of the match at `ip` against `m_pos`, extended from the four
/// bytes already known equal.
pub open spec fn extend_len(s: Seq<u8>, ip: int, m_pos: int, ip_end: int) -> int {
    extend_rec(s, ip, m_pos, ip_end, 4, (ip_end + 7 - ip) as nat)
}

/// The inner match-finder loop of one block, starting from a probe at `ip`.
///
/// `blk` is the block start, `ip_end` the probe limit (20 bytes short of the
/// block end), `ii - ti` the anchor of the pending literals, `dict` the
/// 8192-entry hash dictionary of block-relative positions, and `out` the
/// stream emitted so far. Returns the stream together with the final `ii`
/// and `ti`.
pub open spec fn block_inner(
    s: Seq<u8>,
    blk: int,
    ip_end: int,
    ip: int,
    ii: int,
    ti: int,
    dict: Seq<u16>,
    out: Seq<u8>,
) -> (Seq<u8>, int, int)
    decreases ip_end + 0x700 - ip,
        when blk <= ii <= ip && blk <= ip_end <= blk + 0xC000 && dict.len() == 8192
        via block_inner_decreases
{
    if ip >= ip_end {
        (out, ii, ti)
    } else {
        let dv = le32_at(s, ip);
        let h = hash_of(dv);
        let m_pos = blk + dict[h] as int;
        let dict2 = dict.update(h, (ip - blk) as u16);
        if le32_at(s, m_pos) != dv {
            // no match: skip ahead, faster the longer nothing has matched
            block_inner(s, blk, ip_end, ip + (ip - ii) / 32 + 1, ii, ti, dict2, out)
        } else {
            let anchor = ii - ti;
            let t = ip - anchor;
            let out2 = if t != 0 {
                emit_literals(out, s, anchor, t)
            } else {
                out
            };
            let m_len = extend_len(s, ip, m_pos, ip_end);
            let out3 = out2 + match_bytes(m_len, ip - m_pos);
            block_inner(s, blk, ip_end, ip + m_len, ip + m_len, 0, dict2, out3)
        }
    }
}

#[via_fn]
proof fn block_inner_decreases(
    s: Seq<u8>,
    blk: int,
    ip_end: int,
    ip: int,
    ii: int,
    ti: int,
    dict: Seq<u16>,
    out: Seq<u8>,
) {
    if ip < ip_end {
        lemma_extend_rec_bounds(s, ip, blk + dict[hash_of(le32_at(s, ip))] as int, ip_end, 4,
            (ip_end + 7 - ip) as nat);
    }
}

/// The extension length lies between its starting point and the fuel bound.
pub proof fn lemma_extend_rec_bounds(s: Seq<u8>, ip: int, m_pos: int, ip_end: int, m: int, fuel: nat)
    ensures
        m <= extend_rec(s, ip, m_pos, ip_end, m, fuel) <= m + fuel,
    decreases fuel,
{
    if fuel > 0 && !(m % 8 == 4 && m != 4 && ip + m >= ip_end) && s[ip + m] == s[m_pos + m] {
        lemma_extend_rec_bounds(s, ip, m_pos, ip_end, m + 1, (fuel - 1) as nat);
    }
}

/// The block loop: as long as more than 20 bytes remain (and the pending
/// count does not make the block trivially literal), run the match finder
/// over a block of at most 0xC000 bytes with a fresh dictionary. Returns
/// the emitted stream, the position after the consumed blocks, and the
/// pending literal count.
pub open spec fn blocks_rec(s: Seq<u8>, ip: int, l: int, t: int, out: Seq<u8>) -> (Seq<u8>, int, int)
    decreases l,
{
    if l <= 20 {
        (out, ip, t)
    } else {
        let ll = if l <= 0xC000 { l } else { 0xC000 };
        if t + ll <= 31 {
            (out, ip, t)
        } else {
            let adv = if t < 4 { 4 - t } else { 0 };
            let ip0 = ip + adv;
            let start = ip0 + (ip0 - ip) / 32 + 1;
            let r = block_inner(s, ip, ip + ll - 20, start, ip, t, Seq::new(8192, |k: int| 0u16), out);
            blocks_rec(s, ip + ll, l - ll, ip + ll - (r.1 - r.2), r.0)
        }
    }
}

/// Emission of the `t` bytes of `s` that remain unemitted at the end of the
/// stream. A run that is the whole stream (nothing emitted yet) and no
/// longer than 238 bytes gets the one-byte header `t + 17`; otherwise the
/// mid-stream forms apply.
pub open spec fn emit_final(out: Seq<u8>, s: Seq<u8>, t: int) -> Seq<u8> {
    if t == 0 {
        out
    } else {
        let ii = s.len() - t;
        if out.len() == 0 && t <= 238 {
            out + seq![(t + 17) as u8] + s.subrange(ii, s.len() as int)
        } else {
            emit_literals(out, s, ii, t)
        }
    }
}

/// The complete LZO1X-1 stream for input `s`: the block loop's output, the
/// final literal run, and the three-byte end-of-stream marker.
pub open spec fn spec_compress(s: Seq<u8>) -> Seq<u8> {
    let r = blocks_rec(s, 0, s.len() as int, 0, seq![]);
    let t = r.2 + (s.len() - r.1);
    emit_final(r.0, s, t) + seq![17u8, 0u8, 0u8]
}

// ===================== executable encoder =====================

/// Appends `input[ii .. ii + t]` to `out`.
fn append_from(out: &mut Vec<u8>, input: &[u8], ii: usize, t: usize)
    requires
        ii + t <= input@.len(),
    ensures
        final(out)@ == old(out)@ + input@.subrange(ii as int, ii + t),
{
    let n = input.len();
    let mut j: usize = 0;
    while j < t
        invariant
            j <= t,
            ii + t <= n == input@.len(),
            out@ == old(out)@ + input@.subrange(ii as int, ii + j),
        decreases t - j,
    {
        out.push(input[ii + j]);
        j += 1;
        proof {
            assert(input@.subrange(ii as int, ii + j) =~= input@.subrange(ii as int, ii + j - 1)
                .push(input@[ii + j - 1]));
            assert(out@ =~= old(out)@ + input@.subrange(ii as int, ii + j));
        }
    }
    proof {
        assert(out@ =~= old(out)@ + input@.subrange(ii as int, ii + t));
    }
}

/// Appends the trailer of a variable-length count.
fn push_count_trailer(out: &mut Vec<u8>, tt: usize)
    requires
        1 <= tt,
    ensures
        final(out)@ == old(out)@ + count_trailer(tt as int),
{
    let ghost tt0 = tt as int;
    let mut tt = tt;
    while tt > 255
        invariant
            1 <= tt,
            out@ + count_trailer(tt as int) == old(out)@ + count_trailer(tt0),
        decreases tt,
    {
        out.push(0);
        tt -= 255;
        proof {
            assert(out@ + count_trailer(tt as int) =~= old(out)@ + count_trailer(tt0));
        }
    }
    out.push(tt as u8);
    proof {
        assert(out@ =~= old(out)@ + count_trailer(tt0));
    }
}

/// Emits `t` pending literal bytes in mid-stream position.
fn emit_pending(out: &mut Vec<u8>, input: &[u8], ii: usize, t: usize)
    requires
        1 <= t,
        ii + t <= input@.len(),
        t <= 3 ==> old(out)@.len() >= 2,
    ensures
        final(out)@ == emit_literals(old(out)@, input@, ii as int, t as int),
{
    if t <= 3 {
        let idx = out.len() - 2;
        let b = out[idx];
        out[idx] = b | (t as u8);
    } else if t <= 18 {
        out.push((t - 3) as u8);
    } else {
        out.push(0);
        push_count_trailer(out, t - 18);
    }
    append_from(out, input, ii, t);
    proof {
        assert(out@ =~= emit_literals(old(out)@, input@, ii as int, t as int));
    }
}

/// Emits one match instruction for length `m_len` at distance `m_off`.
fn emit_match(out: &mut Vec<u8>, m_len: usize, m_off: usize)
    requires
        4 <= m_len,
        1 <= m_off <= 0xBFFF,
    ensures
        final(out)@ == old(out)@ + match_bytes(m_len as int, m_off as int),
{
    if m_len <= 8 && m_off <= 0x800 {
        let d = m_off - 1;
        out.push(((m_len - 1) * 32 + (d % 8) * 4) as u8);
        out.push((d / 8) as u8);
    } else if m_off <= 0x4000 {
        let d = m_off - 1;
        if m_len <= 33 {
            out.push((32 + (m_len - 2)) as u8);
        } else {
            out.push(32);
            push_count_trailer(out, m_len - 33);
        }
        out.push(((d * 4) % 256) as u8);
        out.push(((d / 64) % 256) as u8);
    } else {
        let d = m_off - 0x4000;
        let bit = ((d / 0x4000) % 2) * 8;
        if m_len <= 9 {
            out.push((16 + bit + (m_len - 2)) as u8);
        } else {
            out.push((16 + bit) as u8);
            push_count_trailer(out, m_len - 9);
        }
        out.push(((d * 4) % 256) as u8);
        out.push(((d / 64) % 256) as u8);
    }
    proof {
        assert(out@ =~= old(out)@ + match_bytes(m_len as int, m_off as int));
    }
}

/// Greedy extension of a four-byte match, with the block-tail stop every
/// eighth byte past the first.
fn match_extend(input: &[u8], ip: usize, m_pos: usize, ip_end: usize) -> (m: usize)
    requires
        m_pos < ip,
        ip < ip_end,
        ip_end + 20 <= input@.len(),
        input@.len() <= usize::MAX - 0x10000,
    ensures
        m == extend_len(input@, ip as int, m_pos as int, ip_end as int),
        4 <= m,
        ip + m <= ip_end + 11,
{
    let ghost s = input@;
    let mut m: usize = 4;
    loop
        invariant
            4 <= m,
            ip < ip_end,
            m_pos < ip,
            ip_end + 20 <= s.len(),
            s.len() <= usize::MAX - 0x10000,
            s == input@,
            ip + m <= ip_end + 11,
            m % 8 != 4 ==> ip + m - ((m - 4) % 8) <= ip_end + 3,
            m % 8 == 4 && m != 4 ==> ip + m - 8 <= ip_end + 3,
            extend_rec(s, ip as int, m_pos as int, ip_end as int, m as int,
                (ip_end + 11 - ip - m) as nat) == extend_len(s, ip as int, m_pos as int,
                ip_end as int),
        ensures
            4 <= m,
            ip + m <= ip_end + 11,
            m == extend_len(s, ip as int, m_pos as int, ip_end as int),
        decreases ip_end + 11 - ip - m,
    {
        if m % 8 == 4 && m != 4 && ip + m >= ip_end {
            proof {
                assert(extend_rec(s, ip as int, m_pos as int, ip_end as int, m as int,
                    (ip_end + 11 - ip - m) as nat) == m);
            }
            break;
        }
        if input[ip + m] != input[m_pos + m] {
            proof {
                assert(extend_rec(s, ip as int, m_pos as int, ip_end as int, m as int,
                    (ip_end + 11 - ip - m) as nat) == m);
            }
            break;
        }
        proof {
            assert((m + 1 - 4) % 8 == ((m - 4) % 8 + 1) % 8) by (nonlinear_arith);
            if m % 8 == 4 && m != 4 {
                assert(ip + m < ip_end);
            }
        }
        m = m + 1;
    }
    m
}

/// The match finder over one block: probes a fresh 8192-entry dictionary,
/// emits pending literals and match instructions, and returns the pending
/// literal count left over for the next block.
fn compress_block(input: &[u8], blk: usize, ll: usize, t0: usize, out: &mut Vec<u8>) -> (tf: usize)
    requires
        blk + ll <= input@.len(),
        21 <= ll <= 0xC000,
        t0 <= blk,
        old(out)@.len() == 0 ==> t0 == blk,
        old(out)@.len() == 0 || old(out)@.len() >= 2,
        input@.len() <= usize::MAX - 0x10000,
    ensures
        ({
            let adv: int = if t0 < 4 { 4 - t0 } else { 0 };
            let ip0 = blk + adv;
            let start = ip0 + (ip0 - blk) / 32 + 1;
            let r = block_inner(input@, blk as int, blk + ll - 20, start, blk as int, t0 as int,
                Seq::new(8192, |k: int| 0u16), old(out)@);
            final(out)@ == r.0 && tf == blk + ll - (r.1 - r.2)
        }),
        tf <= blk + ll,
        final(out)@.len() == 0 ==> (final(out)@ == old(out)@ && tf == t0 + ll),
        final(out)@.len() == 0 || final(out)@.len() >= 2,
{
    let ghost s = input@;
    let ip_end = blk + ll - 20;

    let mut dict: Vec<u16> = Vec::new();
    let mut k: usize = 0;
    while k < 8192
        invariant
            dict@.len() == k,
            k <= 8192,
            forall|j: int| 0 <= j < k ==> dict@[j] == 0u16,
        decreases 8192 - k,
    {
        dict.push(0);
        k += 1;
    }
    proof {
        assert(dict@ =~= Seq::new(8192, |j: int| 0u16));
    }

    let adv = if t0 < 4 { 4 - t0 } else { 0 };
    let ip0 = blk + adv;
    let mut ip = ip0 + (ip0 - blk) / 32 + 1;
    let mut ii = blk;
    let mut ti = t0;

    let ghost goal = block_inner(s, blk as int, ip_end as int, ip as int, ii as int, ti as int,
        dict@, old(out)@);

    loop
        invariant
            ip_end == blk + ll - 20,
            blk + ll <= s.len(),
            21 <= ll <= 0xC000,
            s.len() <= usize::MAX - 0x10000,
            s == input@,
            blk <= ii <= ip,
            ti <= ii,
            ii <= ip_end + 11,
            ip <= ip_end + 0x700,
            dict@.len() == 8192,
            forall|j: int| 0 <= j < 8192 ==> (dict@[j] as int) < ip - blk,
            (ii == blk && ti == t0 && out@ == old(out)@ && blk + adv < ip) || (ti == 0 && blk < ii
                && out@.len() >= 2),
            old(out)@.len() == 0 ==> t0 == blk,
            old(out)@.len() == 0 || old(out)@.len() >= 2,
            t0 <= blk,
            adv == (if t0 < 4 { 4 - t0 } else { 0 }),
            block_inner(s, blk as int, ip_end as int, ip as int, ii as int, ti as int, dict@, out@)
                == goal,
        ensures
            ip >= ip_end,
            blk <= ii <= ip,
            ti <= ii,
            ii <= ip_end + 11,
            dict@.len() == 8192,
            (ii == blk && ti == t0 && out@ == old(out)@) || (ti == 0 && blk < ii && out@.len()
                >= 2),
            goal == (out@, ii as int, ti as int),
        decreases ip_end + 0x700 - ip,
    {
        if ip >= ip_end {
            proof {
                assert(block_inner(s, blk as int, ip_end as int, ip as int, ii as int, ti as int,
                    dict@, out@) == (out@, ii as int, ti as int));
            }
            break;
        }
        let ghost pre_ip = ip as int;
        let ghost pre_dict = dict@;
        let ghost pre_out = out@;
        let b0 = input[ip] as u32;
        let b1 = input[ip + 1] as u32;
        let b2 = input[ip + 2] as u32;
        let b3 = input[ip + 3] as u32;
        let dv: u32 = b0 + b1 * 0x100 + b2 * 0x1_0000 + b3 * 0x100_0000;
        let h = (dv.wrapping_mul(0x1824429D) / 0x8_0000) as usize;
        proof {
            assert(dv == le32_at(s, ip as int));
            assert(dv.wrapping_mul(0x1824429D) == (dv * 0x1824429D) % 0x1_0000_0000);
            assert(h == hash_of(le32_at(s, ip as int)));
            assert(h < 8192);
        }
        let m_pos = blk + dict[h] as usize;
        dict[h] = (ip - blk) as u16;
        proof {
            assert(dict@ == pre_dict.update(h as int, (ip - blk) as u16));
        }
        let c0 = input[m_pos] as u32;
        let c1 = input[m_pos + 1] as u32;
        let c2 = input[m_pos + 2] as u32;
        let c3 = input[m_pos + 3] as u32;
        let cv: u32 = c0 + c1 * 0x100 + c2 * 0x1_0000 + c3 * 0x100_0000;
        proof {
            assert(cv == le32_at(s, m_pos as int));
        }
        if cv != dv {
            proof {
                vstd::arithmetic::div_mod::lemma_div_is_ordered(ip - ii, 0xC000, 32);
                assert(block_inner(s, blk as int, ip_end as int, pre_ip, ii as int, ti as int,
                    pre_dict, out@) == block_inner(s, blk as int, ip_end as int,
                    pre_ip + (pre_ip - ii) / 32 + 1, ii as int, ti as int, dict@, out@));
            }
            ip = ip + (ip - ii) / 32 + 1;
            continue;
        }
        let anchor = ii - ti;
        let t = ip - anchor;
        if t != 0 {
            emit_pending(out, input, anchor, t);
        }
        let m_len = match_extend(input, ip, m_pos, ip_end);
        emit_match(out, m_len, ip - m_pos);
        proof {
            assert(out@ == (if t != 0 { emit_literals(pre_out, s, anchor as int, t as int) } else {
                pre_out
            }) + match_bytes(m_len as int, (ip - m_pos) as int));
            assert(block_inner(s, blk as int, ip_end as int, pre_ip, ii as int, ti as int,
                pre_dict, pre_out) == block_inner(s, blk as int, ip_end as int, pre_ip + m_len,
                pre_ip + m_len, 0, dict@, out@));
        }
        ip = ip + m_len;
        ii = ip;
        ti = 0;
    }
    (blk + ll - ii) + ti
}

/// Compress `input` into `output`, returning the length of the stream.
///
/// `output` is cleared and then filled with exactly the LZO1X-1 stream
/// `spec_compress` defines for `input`; compression never fails and is a
/// pure function of the input bytes. The stream is never longer than
/// `worst_compress(input.len())` bytes. The input must be small enough
/// that `worst_compress` of its length fits in `usize`.
pub fn compress_to_slice(input: &[u8], output: &mut Vec<u8>) -> (n: usize)
    requires
        input@.len() + input@.len() / 16 + 67 <= usize::MAX,
    ensures
        final(output)@ == spec_compress(input@),
        n == final(output)@.len(),
        n <= crate::spec_worst_compress(input@.len() as int),
{
    proof {
        crate::laws::lemma_worst_case_bound(input@);
    }
    let ghost s = input@;
    proof {
        if s.len() > 0x100000 {
            vstd::arithmetic::div_mod::lemma_div_is_ordered(0x100000, s.len() as int, 16);
        }
        assert(s.len() <= usize::MAX - 0x10000);
    }
    output.clear();

    let mut ip: usize = 0;
    let mut l: usize = input.len();
    let mut t: usize = 0;

    let ghost goal = blocks_rec(s, 0, s.len() as int, 0, seq![]);

    loop
        invariant
            l == s.len() - ip,
            s == input@,
            t <= ip,
            s.len() <= usize::MAX - 0x10000,
            output@.len() == 0 ==> t == ip,
            output@.len() == 0 || output@.len() >= 2,
            blocks_rec(s, ip as int, l as int, t as int, output@) == goal,
        ensures
            l == s.len() - ip,
            t <= ip,
            output@.len() == 0 ==> t == ip,
            output@.len() == 0 || output@.len() >= 2,
            goal == (output@, ip as int, t as int),
        decreases l,
    {
        if l <= 20 {
            proof {
                assert(blocks_rec(s, ip as int, l as int, t as int, output@) == (output@,
                    ip as int, t as int));
            }
            break;
        }
        let ll = if l <= 0xC000 { l } else { 0xC000 };
        if t + ll <= 31 {
            proof {
                assert(blocks_rec(s, ip as int, l as int, t as int, output@) == (output@,
                    ip as int, t as int));
            }
            break;
        }
        let tn = compress_block(input, ip, ll, t, output);
        t = tn;
        ip += ll;
        l -= ll;
    }

    let ghost r = goal;

    t += l;
    if t > 0 {
        let ii = input.len() - t;
        if output.len() == 0 && t <= 238 {
            output.push((t + 17) as u8);
            append_from(output, input, ii, t);
        } else if t <= 3 {
            let idx = output.len() - 2;
            let b = output[idx];
            output[idx] = b | (t as u8);
            append_from(output, input, ii, t);
        } else if t <= 18 {
            output.push((t - 3) as u8);
            append_from(output, input, ii, t);
        } else {
            output.push(0);
            push_count_trailer(output, t - 18);
            append_from(output, input, ii, t);
        }
        proof {
            assert(input@.subrange(ii as int, ii + t) =~= s.subrange(s.len() - t, s.len() as int));
            assert(output@ =~= emit_final(r.0, s, t as int));
        }
    }
    output.push(17);
    output.push(0);
    output.push(0);
    proof {
        assert(output@ =~= spec_compress(s));
    }
    output.len()
}

} // verus!
