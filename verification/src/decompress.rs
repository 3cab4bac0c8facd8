//! The LZO1X-1 decoder.
//!
//! `spec_decompress` is the mathematical definition of what decoding an
//! arbitrary byte string against an output buffer of a given capacity
//! returns: the decoded bytes, or one of the four typed errors.
//! `decompress_to_slice` is the executable decoder, verified to return
//! exactly that result and to write the decoded bytes into the buffer.

use vstd::prelude::*;

use crate::Error;

verus! {

// ===================== specification model =====================

/// Number of consecutive zero bytes of `s` from `i` on.
pub open spec fn zeros_from(s: Seq<u8>, i: int) -> nat
    decreases s.len() - i,
{
    if i < 0 || i >= s.len() {
        0
    } else if s[i] != 0 {
        0
    } else {
        (zeros_from(s, i + 1) + 1) as nat
    }
}

/// `out` extended by `n` bytes copied one at a time from position `m` on:
/// the byte-replication semantics of an overlapping back-reference, where
/// freshly written bytes take part in the source window.
pub open spec fn back_copied(out: Seq<u8>, m: int, n: int) -> Seq<u8>
    decreases n,
{
    if n <= 0 {
        out
    } else {
        back_copied(out.push(out[m]), m + 1, n - 1)
    }
}

/// The trailing-literal step shared by every back-reference instruction:
/// `nx` (0 to 3) literal bytes follow inline and become the next state.
#[verifier::opaque]
pub open spec fn decode_tail(s: Seq<u8>, ip: int, out: Seq<u8>, cap: int, nx: int) -> Result<
    Seq<u8>,
    Error,
>
    decreases s.len() - ip, 1int,
        when 0 <= nx
{
    if s.len() - ip < nx + 3 {
        Err(Error::InputOverrun)
    } else if cap - out.len() < nx {
        Err(Error::OutputOverrun)
    } else {
        decode_from(s, ip + nx, out + s.subrange(ip, ip + nx), cap, nx)
    }
}

/// One instruction of the decoder, at input position `ip`, with `out` the
/// bytes produced so far, `cap` the output buffer's capacity and `st` the
/// state counter: the number of literal bytes the previous instruction
/// carried (0 to 3), or 4 after a long literal run. The state selects among
/// three meanings of an opcode byte below 16.
#[verifier::opaque]
pub open spec fn decode_from(s: Seq<u8>, ip: int, out: Seq<u8>, cap: int, st: int) -> Result<
    Seq<u8>,
    Error,
>
    decreases s.len() - ip, 0int,
        when 0 <= ip <= s.len() - 3
{
    let t = s[ip] as int;
    let ip1 = ip + 1;
    if t < 16 {
        if st == 0 {
            // a long literal run, its count possibly extended by zero bytes
            let z = zeros_from(s, ip1);
            if t == 0 && ip1 + z >= s.len() {
                Err(Error::InputOverrun)
            } else if t == 0 && z > usize::MAX as int / 255 - 2 {
                Err(Error::Format)
            } else {
                let run = if t == 0 { z * 255 + 15 + s[ip1 + z] + 3 } else { t + 3 };
                let ip2 = if t == 0 { ip1 + z + 1 } else { ip1 };
                if cap - out.len() < run {
                    Err(Error::OutputOverrun)
                } else if s.len() - ip2 < run + 3 {
                    Err(Error::InputOverrun)
                } else {
                    decode_from(s, ip2 + run, out + s.subrange(ip2, ip2 + run), cap, 4)
                }
            }
        } else if st != 4 {
            // a two-byte match right behind 1 to 3 trailing literals
            let h = s[ip1] as int;
            let dist = 1 + t / 4 + h * 4;
            if dist > out.len() {
                Err(Error::Format)
            } else if cap - out.len() < 2 {
                Err(Error::OutputOverrun)
            } else {
                decode_tail(s, ip1 + 1, back_copied(out, out.len() - dist, 2), cap, t % 4)
            }
        } else {
            // a short match beyond 0x800, right behind a long literal run
            let h = s[ip1] as int;
            let dist = 0x801 + t / 4 + h * 4;
            if dist > out.len() {
                Err(Error::Format)
            } else if cap - out.len() < t {
                Err(Error::OutputOverrun)
            } else {
                decode_tail(s, ip1 + 1, back_copied(out, out.len() - dist, t), cap, t % 4)
            }
        }
    } else if t >= 64 {
        // a short match of 3 to 8 bytes, distance up to 0x800
        let h = s[ip1] as int;
        let dist = 1 + (t / 4) % 8 + h * 8;
        let run = t / 32 + 1;
        if dist > out.len() {
            Err(Error::Format)
        } else if cap - out.len() < run {
            Err(Error::OutputOverrun)
        } else {
            decode_tail(s, ip1 + 1, back_copied(out, out.len() - dist, run), cap, t % 4)
        }
    } else if t >= 32 {
        // a medium match, distance up to 0x4000, length possibly extended
        let z = zeros_from(s, ip1);
        let ext = t % 32 == 0;
        if ext && ip1 + z >= s.len() {
            Err(Error::InputOverrun)
        } else if ext && z > usize::MAX as int / 255 - 2 {
            Err(Error::Format)
        } else {
            let run = if ext { 33 + z * 255 + s[ip1 + z] } else { t % 32 + 2 };
            let ipw = if ext { ip1 + z + 1 } else { ip1 };
            if ext && s.len() - ipw < 2 {
                Err(Error::InputOverrun)
            } else {
                let w = s[ipw] + s[ipw + 1] * 0x100;
                let dist = 1 + w / 4;
                if dist > out.len() {
                    Err(Error::Format)
                } else if cap - out.len() < run {
                    Err(Error::OutputOverrun)
                } else {
                    decode_tail(s, ipw + 2, back_copied(out, out.len() - dist, run), cap, w % 4)
                }
            }
        }
    } else {
        // a distant match beyond 0x4000, or the end-of-stream marker
        let base = ((t / 8) % 2) * 0x4000;
        let z = zeros_from(s, ip1);
        let ext = t % 8 == 0;
        if ext && ip1 + z >= s.len() {
            Err(Error::InputOverrun)
        } else if ext && z > usize::MAX as int / 255 - 2 {
            Err(Error::Format)
        } else {
            let run = if ext { 9 + z * 255 + s[ip1 + z] } else { t % 8 + 2 };
            let ipw = if ext { ip1 + z + 1 } else { ip1 };
            if ext && s.len() - ipw < 2 {
                Err(Error::InputOverrun)
            } else {
                let w = s[ipw] + s[ipw + 1] * 0x100;
                let d = base + w / 4;
                if d == 0 {
                    // the end-of-stream marker; its length field must be 3
                    if run != 3 {
                        Err(Error::Format)
                    } else if ipw + 2 == s.len() {
                        Ok(out)
                    } else if ipw + 2 < s.len() {
                        Err(Error::InputNotConsumed)
                    } else {
                        Err(Error::InputOverrun)
                    }
                } else {
                    let dist = d + 0x4000;
                    if dist > out.len() {
                        Err(Error::Format)
                    } else if cap - out.len() < run {
                        Err(Error::OutputOverrun)
                    } else {
                        decode_tail(s, ipw + 2, back_copied(out, out.len() - dist, run), cap, w % 4)
                    }
                }
            }
        }
    }
}

/// The result of decoding stream `s` against an output buffer of `cap`
/// bytes: the decoded data, or the first error the decoder meets. A stream
/// shorter than 3 bytes cannot hold the end-of-stream marker; a first byte
/// above 17 opens the stream with a literal run of that many bytes less 17.
pub open spec fn spec_decompress(s: Seq<u8>, cap: int) -> Result<Seq<u8>, Error> {
    if s.len() < 3 {
        Err(Error::InputOverrun)
    } else if s[0] > 17 {
        let t = s[0] - 17;
        let st = if t < 4 { t as int } else { 4 };
        if cap < t {
            Err(Error::OutputOverrun)
        } else if s.len() - 1 < t + 3 {
            Err(Error::InputOverrun)
        } else {
            decode_from(s, 1 + t, s.subrange(1, 1 + t), cap, st)
        }
    } else {
        decode_from(s, 0, seq![], cap, 0)
    }
}

// ===================== executable decoder =====================

/// Scans the zero bytes of a run-length extension from `start` on. Returns
/// their count, and whether they reach the end of the input.
fn scan_zero_run(input: &[u8], start: usize) -> (r: (usize, bool))
    requires
        start < input@.len(),
    ensures
        r.1 == (start + zeros_from(input@, start as int) == input@.len()),
        !r.1 ==> r.0 == zeros_from(input@, start as int) && start + r.0 < input@.len()
            && input@[start + r.0] != 0,
{
    let ghost s = input@;
    let n = input.len();
    let mut i = start;
    loop
        invariant
            start <= i < n,
            n == s.len(),
            s == input@,
            zeros_from(s, start as int) == i - start + zeros_from(s, i as int),
        decreases n - i,
    {
        if input[i] != 0 {
            return (i - start, false);
        }
        i += 1;
        if i == n {
            proof {
                assert(zeros_from(s, i as int) == 0);
            }
            return (0, true);
        }
    }
}

/// Copies `n` bytes of `input` at `ip` into `output` at `op`.
fn copy_literals(output: &mut Vec<u8>, input: &[u8], op: usize, ip: usize, n: usize)
    requires
        op + n <= old(output)@.len(),
        ip + n <= input@.len(),
    ensures
        final(output)@.len() == old(output)@.len(),
        final(output)@.subrange(0, op as int) == old(output)@.subrange(0, op as int),
        final(output)@.subrange(0, op + n) == old(output)@.subrange(0, op as int)
            + input@.subrange(ip as int, ip + n),
{
    let olen = output.len();
    let ilen = input.len();
    let mut j: usize = 0;
    while j < n
        invariant
            j <= n,
            op + n <= olen,
            ip + n <= ilen,
            olen == output@.len() == old(output)@.len(),
            ilen == input@.len(),
            output@.subrange(0, op as int) == old(output)@.subrange(0, op as int),
            output@.subrange(op as int, op + j) == input@.subrange(ip as int, ip + j),
        decreases n - j,
    {
        let ghost prev = output@;
        output[op + j] = input[ip + j];
        j += 1;
        proof {
            assert(output@.subrange(0, op as int) =~= prev.subrange(0, op as int));
            assert(output@.subrange(op as int, op + j) =~= input@.subrange(ip as int, ip + j));
        }
    }
    proof {
        assert(output@.subrange(0, op + n) =~= output@.subrange(0, op as int) + output@.subrange(
            op as int, op + n));
    }
}

/// Copies `n` bytes inside `output` from `op - dist` on to `op` on, one
/// byte at a time, so that an overlapping copy replicates what it has just
/// written.
fn copy_match(output: &mut Vec<u8>, op: usize, dist: usize, n: usize)
    requires
        1 <= dist <= op,
        op + n <= old(output)@.len(),
    ensures
        final(output)@.len() == old(output)@.len(),
        final(output)@.subrange(0, op as int) == old(output)@.subrange(0, op as int),
        final(output)@.subrange(0, op + n) == back_copied(old(output)@.subrange(0, op as int),
            op - dist, n as int),
{
    let ghost target = back_copied(old(output)@.subrange(0, op as int), op - dist, n as int);
    let olen = output.len();
    let mut j: usize = 0;
    let mut m = op - dist;
    while j < n
        invariant
            j <= n,
            m == op - dist + j,
            1 <= dist <= op,
            op + n <= olen,
            olen == output@.len() == old(output)@.len(),
            output@.subrange(0, op as int) == old(output)@.subrange(0, op as int),
            back_copied(output@.subrange(0, op + j), m as int, n - j) == target,
        decreases n - j,
    {
        let ghost prev = output@.subrange(0, op + j);
        let b = output[m];
        output[op + j] = b;
        j += 1;
        m += 1;
        proof {
            assert(b == prev[op - dist + j - 1]);
            assert(output@.subrange(0, op + j) =~= prev.push(b));
            assert(output@.subrange(0, op as int) =~= prev.subrange(0, op as int));
        }
    }
}

/// Takes the `nx` trailing literal bytes of an instruction, after checking
/// that the input still holds an instruction and that the output has room.
/// Returns the new output and input positions.
fn take_trailing(output: &mut Vec<u8>, input: &[u8], op: usize, ip: usize, nx: usize) -> (r:
    Result<(usize, usize), crate::Error>)
    requires
        nx <= 3,
        op <= old(output)@.len(),
        ip <= input@.len(),
    ensures
        final(output)@.len() == old(output)@.len(),
        match r {
            Ok(p) => {
                &&& p.0 == op + nx && p.1 == ip + nx
                &&& op + nx <= final(output)@.len() && ip + nx + 3 <= input@.len()
                &&& decode_tail(input@, ip as int, old(output)@.subrange(0, op as int),
                    old(output)@.len() as int, nx as int) == decode_from(input@, p.1 as int,
                    final(output)@.subrange(0, p.0 as int), old(output)@.len() as int, nx as int)
            },
            Err(e) => {
                &&& decode_tail(input@, ip as int, old(output)@.subrange(0, op as int),
                    old(output)@.len() as int, nx as int) == Err::<Seq<u8>, crate::Error>(e)
                &&& final(output)@ == old(output)@
            },
        },
{
    proof {
        reveal(decode_tail);
        reveal(decode_from);
    }
    if input.len() - ip < nx + 3 {
        return Err(Error::InputOverrun);
    }
    if output.len() - op < nx {
        return Err(Error::OutputOverrun);
    }
    copy_literals(output, input, op, ip, nx);
    proof {
        reveal(decode_tail);
        reveal(decode_from);
        assert(output@.subrange(0, op + nx) == old(output)@.subrange(0, op as int)
            + input@.subrange(ip as int, ip + nx));
        assert(decode_tail(input@, ip as int, old(output)@.subrange(0, op as int),
            old(output)@.len() as int, nx as int) == decode_from(input@, ip + nx,
            output@.subrange(0, op + nx), old(output)@.len() as int, nx as int));
    }
    Ok((op + nx, ip + nx))
}

/// Decompress `input` into `output`, returning the number of bytes written.
///
/// `output` keeps its length: that length is the buffer capacity the decoder
/// works against. On success the decoded data stands in the front of
/// `output`; on failure the error is exactly the one `spec_decompress`
/// assigns to this input and capacity, and nothing valid is promised about
/// the buffer's contents.
#[verifier::rlimit(100)]
pub fn decompress_to_slice(input: &[u8], output: &mut Vec<u8>) -> (r: Result<usize, crate::Error>)
    ensures
        final(output)@.len() == old(output)@.len(),
        match spec_decompress(input@, old(output)@.len() as int) {
            Ok(data) => r == Ok::<usize, crate::Error>(data.len() as usize) && final(output)@
                .subrange(0, data.len() as int) == data,
            Err(e) => r == Err::<usize, crate::Error>(e),
        },
{
    let ghost s = input@;
    let cap = output.len();
    let ghost goal = spec_decompress(s, cap as int);

    if input.len() < 3 {
        return Err(Error::InputOverrun);
    }

    let mut ip: usize = 0;
    let mut op: usize = 0;
    let mut state: usize = 0;

    if input[0] > 17 {
        let t = (input[0] - 17) as usize;
        ip = 1;
        state = if t < 4 { t } else { 4 };
        if cap < t {
            return Err(Error::OutputOverrun);
        }
        if input.len() - 1 < t + 3 {
            return Err(Error::InputOverrun);
        }
        copy_literals(output, input, 0, 1, t);
        op = t;
        ip = 1 + t;
        proof {
            assert(output@.subrange(0, op as int) =~= seq![] + s.subrange(1, 1 + t));
            assert(output@.subrange(0, op as int) == s.subrange(1, 1 + t));
        }
    } else {
        proof {
            assert(output@.subrange(0, 0) =~= seq![]);
        }
    }

    loop
        invariant
            s == input@,
            cap == output@.len() == old(output)@.len(),
            op <= cap,
            ip + 3 <= s.len(),
            state <= 4,
            goal == spec_decompress(s, cap as int),
            goal == decode_from(s, ip as int, output@.subrange(0, op as int), cap as int,
                state as int),
        decreases s.len() - ip,
    {
        let ghost ip_h = ip as int;
        let ghost pref_h = output@.subrange(0, op as int);
        let ghost st_h = state as int;
        let t = input[ip] as usize;
        ip += 1;

        if t < 16 {
            if state == 0 {
                // a long literal run
                let mut run: usize = t + 3;
                let mut ip2: usize = ip;
                if t == 0 {
                    let sc = scan_zero_run(input, ip2);
                    if sc.1 {
                        proof {
                            reveal(decode_from);
            reveal(decode_tail);
                reveal(decode_tail);
                    reveal(decode_tail);
                        reveal(decode_tail);
                            assert(goal == Err::<Seq<u8>, crate::Error>(Error::InputOverrun));
                        }
                        return Err(Error::InputOverrun);
                    }
                    let z = sc.0;
                    if z > usize::MAX / 255 - 2 {
                        proof {
                            reveal(decode_from);
            reveal(decode_tail);
                reveal(decode_tail);
                    reveal(decode_tail);
                        reveal(decode_tail);
                            assert(goal == Err::<Seq<u8>, crate::Error>(Error::Format));
                        }
                        return Err(Error::Format);
                    }
                    proof {
                        vstd::arithmetic::div_mod::lemma_fundamental_div_mod(usize::MAX as int,
                            255);
                    }
                    let b = input[ip2 + z] as usize;
                    run = z * 255 + 15 + b + 3;
                    ip2 = ip2 + z + 1;
                }
                if output.len() - op < run {
                    proof {
                        reveal(decode_from);
            reveal(decode_tail);
                reveal(decode_tail);
                    reveal(decode_tail);
                        reveal(decode_tail);
                        assert(goal == Err::<Seq<u8>, crate::Error>(Error::OutputOverrun));
                    }
                    return Err(Error::OutputOverrun);
                }
                if input.len() - ip2 < run + 3 {
                    proof {
                        reveal(decode_from);
            reveal(decode_tail);
                reveal(decode_tail);
                    reveal(decode_tail);
                        reveal(decode_tail);
                        assert(goal == Err::<Seq<u8>, crate::Error>(Error::InputOverrun));
                    }
                    return Err(Error::InputOverrun);
                }
                copy_literals(output, input, op, ip2, run);
                op += run;
                ip = ip2 + run;
                state = 4;
                proof {
                    reveal(decode_from);
            reveal(decode_tail);
                reveal(decode_tail);
                    reveal(decode_tail);
                    assert(output@.subrange(0, op as int) == pref_h + s.subrange(ip2 as int,
                        ip2 + run));
                    assert(goal == decode_from(s, ip as int, output@.subrange(0, op as int),
                        cap as int, state as int));
                }
                continue;
            } else if state != 4 {
                // a two-byte match right behind trailing literals
                let h = input[ip] as usize;
                ip += 1;
                let dist = 1 + t / 4 + h * 4;
                let nx = t % 4;
                if dist > op {
                    proof {
                        reveal(decode_from);
            reveal(decode_tail);
                reveal(decode_tail);
                    reveal(decode_tail);
                        reveal(decode_tail);
                        assert(goal == Err::<Seq<u8>, crate::Error>(Error::Format));
                    }
                    return Err(Error::Format);
                }
                if output.len() - op < 2 {
                    proof {
                        reveal(decode_from);
            reveal(decode_tail);
                reveal(decode_tail);
                    reveal(decode_tail);
                        reveal(decode_tail);
                        assert(goal == Err::<Seq<u8>, crate::Error>(Error::OutputOverrun));
                    }
                    return Err(Error::OutputOverrun);
                }
                copy_match(output, op, dist, 2);
                proof {
                    reveal(decode_from);
            reveal(decode_tail);
                reveal(decode_tail);
                    reveal(decode_tail);
                    assert(decode_from(s, ip_h, pref_h, cap as int, st_h) == decode_tail(s,
                        ip as int, output@.subrange(0, op + 2), cap as int, nx as int));
                }
                match take_trailing(output, input, op + 2, ip, nx) {
                    Err(e) => {
                        proof {
                            assert(goal == Err::<Seq<u8>, crate::Error>(e));
                        }
                        return Err(e);
                    },
                    Ok(p) => {
                        op = p.0;
                        ip = p.1;
                        state = nx;
                    },
                }
                continue;
            } else {
                // a short match beyond 0x800 after a long literal run
                let h = input[ip] as usize;
                ip += 1;
                let dist = 0x801 + t / 4 + h * 4;
                let nx = t % 4;
                if dist > op {
                    proof {
                        reveal(decode_from);
            reveal(decode_tail);
                reveal(decode_tail);
                    reveal(decode_tail);
                        reveal(decode_tail);
                        assert(goal == Err::<Seq<u8>, crate::Error>(Error::Format));
                    }
                    return Err(Error::Format);
                }
                if output.len() - op < t {
                    proof {
                        reveal(decode_from);
            reveal(decode_tail);
                reveal(decode_tail);
                    reveal(decode_tail);
                        reveal(decode_tail);
                        assert(goal == Err::<Seq<u8>, crate::Error>(Error::OutputOverrun));
                    }
                    return Err(Error::OutputOverrun);
                }
                copy_match(output, op, dist, t);
                proof {
                    reveal(decode_from);
            reveal(decode_tail);
                reveal(decode_tail);
                    reveal(decode_tail);
                    assert(decode_from(s, ip_h, pref_h, cap as int, st_h) == decode_tail(s,
                        ip as int, output@.subrange(0, op + t), cap as int, nx as int));
                }
                match take_trailing(output, input, op + t, ip, nx) {
                    Err(e) => {
                        proof {
                            assert(goal == Err::<Seq<u8>, crate::Error>(e));
                        }
                        return Err(e);
                    },
                    Ok(p) => {
                        op = p.0;
                        ip = p.1;
                        state = nx;
                    },
                }
                continue;
            }
        } else if t >= 64 {
            // a short match of 3 to 8 bytes
            let h = input[ip] as usize;
            ip += 1;
            let dist = 1 + (t / 4) % 8 + h * 8;
            let run = t / 32 + 1;
            let nx = t % 4;
            if dist > op {
                proof {
                    reveal(decode_from);
            reveal(decode_tail);
                reveal(decode_tail);
                    reveal(decode_tail);
                    assert(goal == Err::<Seq<u8>, crate::Error>(Error::Format));
                }
                return Err(Error::Format);
            }
            if output.len() - op < run {
                proof {
                    reveal(decode_from);
            reveal(decode_tail);
                reveal(decode_tail);
                    reveal(decode_tail);
                    assert(goal == Err::<Seq<u8>, crate::Error>(Error::OutputOverrun));
                }
                return Err(Error::OutputOverrun);
            }
            copy_match(output, op, dist, run);
            proof {
                reveal(decode_from);
            reveal(decode_tail);
                reveal(decode_tail);
                assert(decode_from(s, ip_h, pref_h, cap as int, st_h) == decode_tail(s, ip as int,
                    output@.subrange(0, op + run), cap as int, nx as int));
            }
            match take_trailing(output, input, op + run, ip, nx) {
                Err(e) => {
                    proof {
                        assert(goal == Err::<Seq<u8>, crate::Error>(e));
                    }
                    return Err(e);
                },
                Ok(p) => {
                    op = p.0;
                    ip = p.1;
                    state = nx;
                },
            }
            continue;
        } else if t >= 32 {
            // a medium match
            let mut run: usize = (t % 32) + 2;
            let mut ipw: usize = ip;
            if t % 32 == 0 {
                let sc = scan_zero_run(input, ipw);
                if sc.1 {
                    proof {
                        reveal(decode_from);
            reveal(decode_tail);
                reveal(decode_tail);
                    reveal(decode_tail);
                        reveal(decode_tail);
                        assert(goal == Err::<Seq<u8>, crate::Error>(Error::InputOverrun));
                    }
                    return Err(Error::InputOverrun);
                }
                let z = sc.0;
                if z > usize::MAX / 255 - 2 {
                    proof {
                        reveal(decode_from);
            reveal(decode_tail);
                reveal(decode_tail);
                    reveal(decode_tail);
                        reveal(decode_tail);
                        assert(goal == Err::<Seq<u8>, crate::Error>(Error::Format));
                    }
                    return Err(Error::Format);
                }
                proof {
                    vstd::arithmetic::div_mod::lemma_fundamental_div_mod(usize::MAX as int, 255);
                }
                let b = input[ipw + z] as usize;
                run = 33 + z * 255 + b;
                ipw = ipw + z + 1;
                if input.len() - ipw < 2 {
                    proof {
                        reveal(decode_from);
            reveal(decode_tail);
                reveal(decode_tail);
                    reveal(decode_tail);
                        reveal(decode_tail);
                        assert(goal == Err::<Seq<u8>, crate::Error>(Error::InputOverrun));
                    }
                    return Err(Error::InputOverrun);
                }
            }
            let w = input[ipw] as usize + input[ipw + 1] as usize * 0x100;
            ip = ipw + 2;
            let dist = 1 + w / 4;
            let nx = w % 4;
            if dist > op {
                proof {
                    reveal(decode_from);
            reveal(decode_tail);
                reveal(decode_tail);
                    reveal(decode_tail);
                    assert(goal == Err::<Seq<u8>, crate::Error>(Error::Format));
                }
                return Err(Error::Format);
            }
            if output.len() - op < run {
                proof {
                    reveal(decode_from);
            reveal(decode_tail);
                reveal(decode_tail);
                    reveal(decode_tail);
                    assert(goal == Err::<Seq<u8>, crate::Error>(Error::OutputOverrun));
                }
                return Err(Error::OutputOverrun);
            }
            copy_match(output, op, dist, run);
            proof {
                reveal(decode_from);
            reveal(decode_tail);
                reveal(decode_tail);
                assert(decode_from(s, ip_h, pref_h, cap as int, st_h) == decode_tail(s, ip as int,
                    output@.subrange(0, op + run), cap as int, nx as int));
            }
            match take_trailing(output, input, op + run, ip, nx) {
                Err(e) => {
                    proof {
                        assert(goal == Err::<Seq<u8>, crate::Error>(e));
                    }
                    return Err(e);
                },
                Ok(p) => {
                    op = p.0;
                    ip = p.1;
                    state = nx;
                },
            }
            continue;
        } else {
            // a distant match, or the end-of-stream marker
            let base = ((t / 8) % 2) * 0x4000;
            let mut run: usize = (t % 8) + 2;
            let mut ipw: usize = ip;
            if t % 8 == 0 {
                let sc = scan_zero_run(input, ipw);
                if sc.1 {
                    proof {
                        reveal(decode_from);
            reveal(decode_tail);
                reveal(decode_tail);
                    reveal(decode_tail);
                        reveal(decode_tail);
                        assert(goal == Err::<Seq<u8>, crate::Error>(Error::InputOverrun));
                    }
                    return Err(Error::InputOverrun);
                }
                let z = sc.0;
                if z > usize::MAX / 255 - 2 {
                    proof {
                        reveal(decode_from);
            reveal(decode_tail);
                reveal(decode_tail);
                    reveal(decode_tail);
                        reveal(decode_tail);
                        assert(goal == Err::<Seq<u8>, crate::Error>(Error::Format));
                    }
                    return Err(Error::Format);
                }
                proof {
                    vstd::arithmetic::div_mod::lemma_fundamental_div_mod(usize::MAX as int, 255);
                }
                let b = input[ipw + z] as usize;
                run = 9 + z * 255 + b;
                ipw = ipw + z + 1;
                if input.len() - ipw < 2 {
                    proof {
                        reveal(decode_from);
            reveal(decode_tail);
                reveal(decode_tail);
                    reveal(decode_tail);
                        reveal(decode_tail);
                        assert(goal == Err::<Seq<u8>, crate::Error>(Error::InputOverrun));
                    }
                    return Err(Error::InputOverrun);
                }
            }
            let w = input[ipw] as usize + input[ipw + 1] as usize * 0x100;
            ip = ipw + 2;
            let d = base + w / 4;
            let nx = w % 4;
            if d == 0 {
                // the end-of-stream marker
                if run != 3 {
                    proof {
                        reveal(decode_from);
            reveal(decode_tail);
                reveal(decode_tail);
                    reveal(decode_tail);
                        reveal(decode_tail);
                        assert(goal == Err::<Seq<u8>, crate::Error>(Error::Format));
                    }
                    return Err(Error::Format);
                }
                if ip == input.len() {
                    proof {
                        reveal(decode_from);
            reveal(decode_tail);
                reveal(decode_tail);
                    reveal(decode_tail);
                        reveal(decode_tail);
                        assert(goal == Ok::<Seq<u8>, crate::Error>(pref_h));
                    }
                    return Ok(op);
                }
                proof {
                    reveal(decode_from);
            reveal(decode_tail);
                reveal(decode_tail);
                    reveal(decode_tail);
                    assert(goal == Err::<Seq<u8>, crate::Error>(Error::InputNotConsumed));
                }
                return Err(Error::InputNotConsumed);
            }
            let dist = d + 0x4000;
            if dist > op {
                proof {
                    reveal(decode_from);
            reveal(decode_tail);
                reveal(decode_tail);
                    reveal(decode_tail);
                    assert(goal == Err::<Seq<u8>, crate::Error>(Error::Format));
                }
                return Err(Error::Format);
            }
            if output.len() - op < run {
                proof {
                    reveal(decode_from);
            reveal(decode_tail);
                reveal(decode_tail);
                    reveal(decode_tail);
                    assert(goal == Err::<Seq<u8>, crate::Error>(Error::OutputOverrun));
                }
                return Err(Error::OutputOverrun);
            }
            copy_match(output, op, dist, run);
            proof {
                reveal(decode_from);
            reveal(decode_tail);
                reveal(decode_tail);
                assert(decode_from(s, ip_h, pref_h, cap as int, st_h) == decode_tail(s, ip as int,
                    output@.subrange(0, op + run), cap as int, nx as int));
            }
            match take_trailing(output, input, op + run, ip, nx) {
                Err(e) => {
                    proof {
                        assert(goal == Err::<Seq<u8>, crate::Error>(e));
                    }
                    return Err(e);
                },
                Ok(p) => {
                    op = p.0;
                    ip = p.1;
                    state = nx;
                },
            }
            continue;
        }
    }
}

} // verus!
