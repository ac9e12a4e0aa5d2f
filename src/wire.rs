//! Protocol-buffer varints and length-delimited framing.
use vstd::prelude::*;

verus! {

/// The largest number of bytes a varint may span.
pub const MAX_VARINT_BYTES: u64 = 10;

/// Decodes the varint at the start of `s`, looking at no more than `fuel`
/// bytes: `Some((value, length))` when a terminating byte (below 0x80) is found
/// in time. `value` is the exact, unbounded number the groups of seven bits spell.
pub open spec fn varint_within(s: Seq<u8>, fuel: nat) -> Option<(nat, nat)>
    decreases fuel,
{
    if fuel == 0 || s.len() == 0 {
        None
    } else if s[0] < 128 {
        Some((s[0] as nat, 1))
    } else {
        match varint_within(s.drop_first(), (fuel - 1) as nat) {
            Some((v, n)) => Some((((s[0] - 128) + 128 * v) as nat, n + 1)),
            None => None,
        }
    }
}

/// The varint at the start of `s`, as a protocol-buffer reader accepts it.
pub open spec fn varint(s: Seq<u8>) -> Option<(nat, nat)> {
    varint_within(s, MAX_VARINT_BYTES as nat)
}

/// The 32-bit value a protocol-buffer reader keeps of a varint.
pub open spec fn low32(v: nat) -> nat {
    v % 0x1_0000_0000
}

/// The canonical (shortest) varint encoding of `v`.
pub open spec fn varint_bytes(v: nat) -> Seq<u8>
    decreases v,
{
    if v < 128 {
        seq![v as u8]
    } else {
        seq![(v % 128 + 128) as u8] + varint_bytes(v / 128)
    }
}

/// One length-delimited record: the varint length of `p`, then `p`.
pub open spec fn frame(p: Seq<u8>) -> Seq<u8> {
    varint_bytes(p.len()) + p
}

/// The records of `ps`, framed and laid end to end.
pub open spec fn frames(ps: Seq<Seq<u8>>) -> Seq<u8>
    decreases ps.len(),
{
    if ps.len() == 0 {
        Seq::empty()
    } else {
        frames(ps.drop_last()) + frame(ps.last())
    }
}

/// Relies on protobuf's `CodedInputStream::read_raw_varint32`: it reads a
/// varint of at most ten bytes and keeps its low 32 bits; `pos` then gives
/// the number of bytes it consumed. It fails when no byte below 0x80 comes
/// within the first ten bytes or before the end of the input.
#[verifier::external_body]
fn read_raw_varint32(data: &[u8]) -> (r: Option<(u32, usize)>)
    ensures
        r is Some <==> varint(data@) is Some,
        r is Some ==> r->Some_0.0 as nat == low32(varint(data@)->Some_0.0)
            && r->Some_0.1 as nat == varint(data@)->Some_0.1,
{
    let mut input = protobuf::CodedInputStream::from_bytes(data);
    match input.read_raw_varint32() {
        Ok(v) => Some((v, input.pos() as usize)),
        Err(_) => None,
    }
}

/// Relies on protobuf's `CodedOutputStream::write_raw_varint64`, writing into
/// a `Vec` and flushed: it appends the canonical varint encoding of `v`.
#[verifier::external_body]
fn write_raw_varint64(out: &mut Vec<u8>, v: u64)
    ensures
        final(out)@ == old(out)@ + varint_bytes(v as nat),
{
    let mut output = protobuf::CodedOutputStream::vec(out);
    let _ = output.write_raw_varint64(v);
    let _ = output.flush();
}

/// Reads the varint that starts at `pos` in `data`; `None` where it is
/// malformed. On success the second component is the position after it.
pub fn read_varint32_at(data: &[u8], pos: usize) -> (r: Option<(u32, usize)>)
    requires
        pos <= data@.len(),
    ensures
        r is Some <==> varint(data@.subrange(pos as int, data@.len() as int)) is Some,
        r is Some ==> ({
            let (v, n) = varint(data@.subrange(pos as int, data@.len() as int))->Some_0;
            r->Some_0.0 as nat == low32(v) && r->Some_0.1 == pos + n && pos + n <= data@.len()
        }),
{
    let rest = vstd::slice::slice_subrange(data, pos, data.len());
    proof {
        lemma_varint_len(rest@, MAX_VARINT_BYTES as nat);
    }
    match read_raw_varint32(rest) {
        Some((v, n)) => Some((v, pos + n)),
        None => None,
    }
}

/// The 64-bit value kept of a varint.
pub open spec fn low64(v: nat) -> nat {
    v % 0x1_0000_0000_0000_0000
}

/// Relies on protobuf's `CodedInputStream::read_raw_varint64`: it reads a
/// varint of at most ten bytes and keeps its value modulo 2^64; `pos` then
/// gives the number of bytes it consumed. It fails when no byte below 0x80
/// comes within the first ten bytes or before the end of the input.
#[verifier::external_body]
fn read_raw_varint64(data: &[u8]) -> (r: Option<(u64, usize)>)
    ensures
        r is Some <==> varint(data@) is Some,
        r is Some ==> r->Some_0.0 as nat == low64(varint(data@)->Some_0.0)
            && r->Some_0.1 as nat == varint(data@)->Some_0.1,
{
    let mut input = protobuf::CodedInputStream::from_bytes(data);
    match input.read_raw_varint64() {
        Ok(v) => Some((v, input.pos() as usize)),
        Err(_) => None,
    }
}

/// The largest `u64`.
pub const U64_MAX: u64 = 0xffff_ffff_ffff_ffff;

/// Reads the varint that starts at `pos` in `data` as a length: `None` where
/// it is malformed; otherwise its whole value, or `U64_MAX` where the value
/// does not fit 64 bits, and the position after it.
pub fn read_length_at(data: &[u8], pos: usize) -> (r: Option<(u64, usize)>)
    requires
        pos <= data@.len(),
    ensures
        r is Some <==> varint(data@.subrange(pos as int, data@.len() as int)) is Some,
        r is Some ==> ({
            let (v, n) = varint(data@.subrange(pos as int, data@.len() as int))->Some_0;
            &&& (v <= U64_MAX ==> r->Some_0.0 == v)
            &&& (v > U64_MAX ==> r->Some_0.0 == U64_MAX)
            &&& r->Some_0.1 == pos + n
            &&& pos + n <= data@.len()
        }),
{
    let rest = vstd::slice::slice_subrange(data, pos, data.len());
    proof {
        lemma_varint_len(rest@, MAX_VARINT_BYTES as nat);
        lemma_varint_bounds(rest@, MAX_VARINT_BYTES as nat);
        lemma_pow128_values();
    }
    match read_raw_varint64(rest) {
        Some((v, n)) => {
            if n == 10 && rest[9] > 1 {
                proof {
                    let (w, m) = varint(rest@)->Some_0;
                    assert(w >= 0x1_0000_0000_0000_0000) by (nonlinear_arith)
                        requires
                            pow128(9) * rest@[9] <= w,
                            pow128(9) == 0x8000_0000_0000_0000,
                            rest@[9] >= 2,
                    ;
                }
                Some((U64_MAX, pos + n))
            } else {
                proof {
                    let (w, m) = varint(rest@)->Some_0;
                    if m < 10 {
                        lemma_pow128_mono((m - 1) as nat, 8);
                        assert(w < 0x1_0000_0000_0000_0000) by (nonlinear_arith)
                            requires
                                w < pow128((m - 1) as nat) * (rest@[m - 1] + 1),
                                pow128((m - 1) as nat) <= pow128(8),
                                pow128(8) == 0x100_0000_0000_0000,
                                rest@[m - 1] < 128,
                        ;
                    } else {
                        assert(w < 0x1_0000_0000_0000_0000) by (nonlinear_arith)
                            requires
                                w < pow128(9) * (rest@[9] + 1),
                                pow128(9) == 0x8000_0000_0000_0000,
                                rest@[9] <= 1,
                        ;
                    }
                }
                Some((v, pos + n))
            }
        },
        None => None,
    }
}

/// Where a varint's last byte is `b` and it spans `n` bytes, its value lies in
/// `[128^(n-1) * b, 128^(n-1) * (b + 1))`.
pub proof fn lemma_varint_bounds(s: Seq<u8>, fuel: nat)
    ensures
        varint_within(s, fuel) is Some ==> ({
            let (v, n) = varint_within(s, fuel)->Some_0;
            &&& 1 <= n <= s.len()
            &&& pow128((n - 1) as nat) * s[n - 1] <= v
            &&& v < pow128((n - 1) as nat) * (s[n - 1] + 1)
            &&& s[n - 1] < 128
        }),
    decreases fuel,
{
    lemma_varint_len(s, fuel);
    if fuel > 0 && s.len() > 0 {
        if s[0] < 128 {
            assert(pow128(0) == 1);
        } else {
            let t = s.drop_first();
            lemma_varint_bounds(t, (fuel - 1) as nat);
            if let Some((w, k)) = varint_within(t, (fuel - 1) as nat) {
                let p = pow128((k - 1) as nat);
                let b = t[k - 1] as int;
                assert(s[k as int] == t[k - 1]);
                assert(pow128(k) == 128 * p);
                let v = (s[0] - 128) + 128 * w;
                assert(128 * p * b <= v && v < 128 * p * (b + 1)) by (nonlinear_arith)
                    requires
                        p * b <= w,
                        w < p * (b + 1),
                        0 <= s[0] - 128 < 128,
                        v == (s[0] - 128) + 128 * w,
                ;
            }
        }
    }
}

/// `128^a <= 128^b` for `a <= b`.
pub proof fn lemma_pow128_mono(a: nat, b: nat)
    requires
        a <= b,
    ensures
        pow128(a) <= pow128(b),
    decreases b,
{
    if a < b {
        lemma_pow128_mono(a, (b - 1) as nat);
        assert(pow128(b) == 128 * pow128((b - 1) as nat));
    }
}

/// The powers of 128 up to the ninth.
pub proof fn lemma_pow128_values()
    ensures
        pow128(8) == 0x100_0000_0000_0000,
        pow128(9) == 0x8000_0000_0000_0000,
        pow128(10) == 0x40_0000_0000_0000_0000,
{
    reveal_with_fuel(pow128, 3);
    assert(pow128(1) == 128);
    assert(pow128(2) == 0x4000);
    assert(pow128(3) == 0x20_0000);
    assert(pow128(4) == 0x1000_0000);
    assert(pow128(5) == 0x8_0000_0000);
    assert(pow128(6) == 0x400_0000_0000);
    assert(pow128(7) == 0x2_0000_0000_0000);
    assert(pow128(8) == 0x100_0000_0000_0000);
    assert(pow128(9) == 0x8000_0000_0000_0000);
    assert(pow128(10) == 0x40_0000_0000_0000_0000);
}

/// Appends to `out` the varint encoding of `v`.
pub fn push_varint(out: &mut Vec<u8>, v: u64)
    ensures
        final(out)@ == old(out)@ + varint_bytes(v as nat),
{
    write_raw_varint64(out, v);
}

/// Appends to `out` the record `payload`, length-delimited.
pub fn push_frame(out: &mut Vec<u8>, payload: &[u8])
    ensures
        final(out)@ == old(out)@ + frame(payload@),
{
    push_varint(out, payload.len() as u64);
    push_bytes(out, payload);
    assert(out@ =~= old(out)@ + frame(payload@));
}

/// Appends the bytes of `b` to `out`.
pub fn push_bytes(out: &mut Vec<u8>, b: &[u8])
    ensures
        final(out)@ == old(out)@ + b@,
{
    let mut i: usize = 0;
    while i < b.len()
        invariant
            i <= b@.len(),
            out@ == old(out)@ + b@.subrange(0, i as int),
        decreases b@.len() - i,
    {
        out.push(b[i]);
        i = i + 1;
        assert(out@ =~= old(out)@ + b@.subrange(0, i as int));
    }
    assert(b@.subrange(0, b@.len() as int) =~= b@);
}

/// A decoded varint is at least one byte long and lies inside its input.
pub proof fn lemma_varint_len(s: Seq<u8>, fuel: nat)
    ensures
        varint_within(s, fuel) is Some ==> 1 <= varint_within(s, fuel)->Some_0.1 <= s.len()
            && varint_within(s, fuel)->Some_0.1 <= fuel,
    decreases fuel,
{
    if fuel > 0 && s.len() > 0 && s[0] >= 128 {
        lemma_varint_len(s.drop_first(), (fuel - 1) as nat);
    }
}

/// The canonical encoding of a value below `128^k` spans at most `k` bytes.
pub proof fn lemma_varint_bytes_len(v: nat, k: nat)
    requires
        1 <= k,
        v < pow128(k),
    ensures
        1 <= varint_bytes(v).len() <= k,
    decreases v,
{
    reveal_with_fuel(pow128, 2);
    if v >= 128 {
        assert(k > 1);
        assert(v / 128 < pow128((k - 1) as nat)) by (nonlinear_arith)
            requires
                v < pow128(k),
                pow128(k) == 128 * pow128((k - 1) as nat),
        ;
        lemma_varint_bytes_len(v / 128, (k - 1) as nat);
    }
}

/// `128^k`.
pub open spec fn pow128(k: nat) -> nat
    decreases k,
{
    if k == 0 {
        1
    } else {
        128 * pow128((k - 1) as nat)
    }
}

/// Decoding the canonical encoding of `v`, whatever follows it, gives `v` back.
pub proof fn lemma_varint_round_trip(v: nat, rest: Seq<u8>, fuel: nat)
    requires
        varint_bytes(v).len() <= fuel,
    ensures
        varint_within(varint_bytes(v) + rest, fuel) == Some((v, varint_bytes(v).len())),
    decreases v,
{
    let s = varint_bytes(v) + rest;
    if v < 128 {
        assert(s[0] == v as u8);
    } else {
        let tail = varint_bytes(v / 128);
        assert(s.drop_first() =~= tail + rest);
        lemma_varint_round_trip(v / 128, rest, (fuel - 1) as nat);
        assert(s[0] == (v % 128 + 128) as u8);
    }
}

/// The 64-bit values: their encodings fit the varint bound, and decode back.
pub proof fn lemma_varint64_round_trip(v: u64, rest: Seq<u8>)
    ensures
        varint(varint_bytes(v as nat) + rest) == Some((v as nat, varint_bytes(v as nat).len())),
        varint_bytes(v as nat).len() <= MAX_VARINT_BYTES,
{
    lemma_pow128_values();
    lemma_varint_bytes_len(v as nat, 10);
    lemma_varint_round_trip(v as nat, rest, 10);
}

} // verus!
