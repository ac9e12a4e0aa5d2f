//! What holds of reading, grouping and writing over every well-formed stream.
use vstd::prelude::*;
use vstd::arithmetic::div_mod::{lemma_div_plus_one, lemma_mod_add_multiples_vanish, lemma_small_mod};
use crate::batch_gen::{batch_of, batches_from, next_record, pull, signature_of};
use crate::message::{batch_bytes, batch_header_bytes, rest, transaction_signature, DecodeError};
use crate::wire::{frame, frames, lemma_varint64_round_trip, varint_bytes};

verus! {

/// Every payload of `ps` is a well-formed transaction message whose length
/// fits 64 bits.
pub open spec fn valid_transactions(ps: Seq<Seq<u8>>) -> bool {
    forall|i: int| 0 <= i < ps.len() ==> {
        &&& #[trigger] transaction_signature(ps[i]) is Some
        &&& ps[i].len() < 0x1_0000_0000_0000_0000
    }
}

/// Where the record `j` of `frames(ps)` starts.
pub open spec fn offset(ps: Seq<Seq<u8>>, j: int) -> nat {
    frames(ps.take(j)).len()
}

/// `qs` cut into consecutive groups of `m`, the last one possibly shorter.
pub open spec fn chunks(qs: Seq<Seq<u8>>, m: nat) -> Seq<Seq<Seq<u8>>>
    decreases qs.len(),
{
    if qs.len() == 0 || m == 0 {
        Seq::empty()
    } else if qs.len() <= m {
        seq![qs]
    } else {
        seq![qs.take(m as int)] + chunks(qs.skip(m as int), m)
    }
}

/// Framing two runs of records one after the other frames their concatenation.
pub proof fn lemma_frames_append(a: Seq<Seq<u8>>, b: Seq<Seq<u8>>)
    ensures
        frames(a + b) == frames(a) + frames(b),
    decreases b.len(),
{
    if b.len() == 0 {
        assert(a + b =~= a);
        assert(frames(a) + frames(b) =~= frames(a));
    } else {
        assert((a + b).drop_last() =~= a + b.drop_last());
        assert((a + b).last() == b.last());
        lemma_frames_append(a, b.drop_last());
        assert(frames(a + b) =~= frames(a) + frames(b));
    }
}

/// Record offsets grow with the record index, up to the whole stream.
proof fn lemma_offset_mono(ps: Seq<Seq<u8>>, a: int, b: int)
    requires
        0 <= a <= b <= ps.len(),
    ensures
        offset(ps, a) <= offset(ps, b) <= frames(ps).len(),
{
    assert(ps.take(b) =~= ps.take(a) + ps.subrange(a, b));
    lemma_frames_append(ps.take(a), ps.subrange(a, b));
    assert(ps =~= ps.take(b) + ps.skip(b));
    lemma_frames_append(ps.take(b), ps.skip(b));
}

/// The record at offset `j` of a well-formed stream is the payload `ps[j]`.
proof fn lemma_record_at(ps: Seq<Seq<u8>>, j: int)
    requires
        valid_transactions(ps),
        0 <= j < ps.len(),
    ensures
        next_record(frames(ps), offset(ps, j)) == Ok::<(Seq<u8>, nat), DecodeError>(
            (ps[j], offset(ps, j + 1)),
        ),
        offset(ps, j) < offset(ps, j + 1) <= frames(ps).len(),
{
    lemma_record_at_in(ps, j, Seq::empty());
    assert(frames(ps) + Seq::<u8>::empty() =~= frames(ps));
}

/// The same, whatever bytes follow the well-formed records.
proof fn lemma_record_at_in(ps: Seq<Seq<u8>>, j: int, extra: Seq<u8>)
    requires
        valid_transactions(ps),
        0 <= j < ps.len(),
    ensures
        next_record(frames(ps) + extra, offset(ps, j)) == Ok::<(Seq<u8>, nat), DecodeError>(
            (ps[j], offset(ps, j + 1)),
        ),
        offset(ps, j) < offset(ps, j + 1) <= frames(ps).len(),
{
    let p = ps[j];
    let head = frames(ps.take(j));
    let tail = frames(ps.skip(j + 1));
    assert(ps.take(j + 1).drop_last() =~= ps.take(j));
    assert(ps.take(j + 1).last() == p);
    assert(frames(ps.take(j + 1)) == head + frame(p));
    assert(ps =~= ps.take(j + 1) + ps.skip(j + 1));
    lemma_frames_append(ps.take(j + 1), ps.skip(j + 1));
    assert(transaction_signature(ps[j]) is Some && ps[j].len() < 0x1_0000_0000_0000_0000);
    assert(frames(ps) + extra =~= head + frame(p) + (tail + extra));
    lemma_next_record_framed(head, p, tail + extra);
}

/// A framed record between any two runs of bytes reads back as itself.
proof fn lemma_next_record_framed(head: Seq<u8>, p: Seq<u8>, tail: Seq<u8>)
    requires
        p.len() < 0x1_0000_0000_0000_0000,
    ensures
        next_record(head + frame(p) + tail, head.len()) == Ok::<(Seq<u8>, nat), DecodeError>(
            (p, head.len() + frame(p).len()),
        ),
{
    let s = head + frame(p) + tail;
    assert(rest(s, head.len()) =~= varint_bytes(p.len()) + (p + tail));
    lemma_varint64_round_trip(p.len() as u64, p + tail);
    let n = varint_bytes(p.len()).len();
    assert(s.subrange((head.len() + n) as int, (head.len() + n + p.len()) as int) =~= p);
}

/// Pulling `k` from record `j` of a well-formed stream gives the next
/// `min(k, n - j)` payloads and stops right after them.
proof fn lemma_pull_from(ps: Seq<Seq<u8>>, j: int, k: nat)
    requires
        valid_transactions(ps),
        0 <= j <= ps.len(),
    ensures
        ({
            let e = if j + k <= ps.len() { j + k } else { ps.len() as int };
            pull(frames(ps), offset(ps, j), k) == Ok::<(Seq<Seq<u8>>, nat), DecodeError>(
                (ps.subrange(j, e), offset(ps, e)),
            )
        }),
    decreases k,
{
    let s = frames(ps);
    let e = if j + k <= ps.len() { j + k } else { ps.len() as int };
    if k == 0 {
        assert(ps.subrange(j, j) =~= Seq::<Seq<u8>>::empty());
    } else if j == ps.len() {
        assert(ps.take(j) =~= ps);
        assert(ps.subrange(j, j) =~= Seq::<Seq<u8>>::empty());
    } else {
        lemma_record_at(ps, j);
        lemma_pull_from(ps, j + 1, (k - 1) as nat);
        assert(seq![ps[j]] + ps.subrange(j + 1, e) =~= ps.subrange(j, e));
    }
}

/// An empty stream is exhausted from the start: any pull reads nothing and
/// reports no error.
pub proof fn lemma_empty_source_is_exhausted(k: nat)
    ensures
        pull(Seq::empty(), 0, k) == Ok::<(Seq<Seq<u8>>, nat), DecodeError>(
            (Seq::empty(), 0),
        ),
{
}

/// Once a stream is consumed it stays consumed: every later pull reads
/// nothing and stays where it is.
pub proof fn lemma_exhaustion_is_final(s: Seq<u8>, pos: nat, k: nat)
    requires
        pos >= s.len(),
    ensures
        pull(s, pos, k) == Ok::<(Seq<Seq<u8>>, nat), DecodeError>(
            (Seq::empty(), pos),
        ),
{
}

/// On a stream of `n >= k` well-formed records, a pull of `k` returns
/// exactly the first `k`, and the next pull of `k` returns the following
/// `min(k, n - k)`, none of them read twice.
pub proof fn lemma_bounded_pull(ps: Seq<Seq<u8>>, k: nat)
    requires
        valid_transactions(ps),
        k <= ps.len(),
    ensures
        pull(frames(ps), 0, k) == Ok::<(Seq<Seq<u8>>, nat), DecodeError>(
            (ps.take(k as int), offset(ps, k as int)),
        ),
        ({
            let e = if 2 * k <= ps.len() { (2 * k) as int } else { ps.len() as int };
            pull(frames(ps), offset(ps, k as int), k) == Ok::<(Seq<Seq<u8>>, nat), DecodeError>(
                (ps.subrange(k as int, e), offset(ps, e)),
            )
        }),
{
    assert(ps.take(0) =~= Seq::<Seq<u8>>::empty());
    lemma_pull_from(ps, 0, k);
    assert(ps.subrange(0, k as int) =~= ps.take(k as int));
    lemma_pull_from(ps, k as int, k);
}

/// Generating from record `j` of a well-formed stream gives the remaining
/// payloads cut into groups of `m`, with no error.
proof fn lemma_batches_from(ps: Seq<Seq<u8>>, j: int, m: nat)
    requires
        valid_transactions(ps),
        0 <= j <= ps.len(),
        m >= 1,
    ensures
        batches_from(frames(ps), offset(ps, j), m) == (chunks(ps.skip(j), m), None::<DecodeError>),
    decreases ps.len() - j,
{
    let s = frames(ps);
    lemma_pull_from(ps, j, m);
    if j == ps.len() {
        assert(ps.subrange(j, j) =~= Seq::<Seq<u8>>::empty());
        assert(ps.skip(j) =~= Seq::<Seq<u8>>::empty());
    } else {
        let e = if j + m <= ps.len() { j + m } else { ps.len() as int };
        lemma_record_at(ps, j);
        lemma_offset_mono(ps, j + 1, e);
        lemma_batches_from(ps, e, m);
        let qs = ps.skip(j);
        if qs.len() <= m {
            assert(ps.subrange(j, e) =~= qs);
            assert(ps.skip(e) =~= Seq::<Seq<u8>>::empty());
            assert(seq![qs] + Seq::<Seq<Seq<u8>>>::empty() =~= seq![qs]);
        } else {
            assert(ps.subrange(j, e) =~= qs.take(m as int));
            assert(qs.skip(m as int) =~= ps.skip(e));
        }
    }
}

/// The group sizes: `ceil(n / m)` groups, all of `m` but the last, which has
/// `n mod m`, or `m` where that is zero.
proof fn lemma_chunk_sizes(qs: Seq<Seq<u8>>, m: nat)
    requires
        m >= 1,
    ensures
        chunks(qs, m).len() == (qs.len() + m - 1) / m as int,
        forall|i: int| 0 <= i < chunks(qs, m).len() - 1 ==> (#[trigger] chunks(qs, m)[i]).len() == m,
        chunks(qs, m).len() > 0 ==> chunks(qs, m).last().len() == (if qs.len() % m == 0 {
            m
        } else {
            qs.len() % m
        }),
    decreases qs.len(),
{
    let n = qs.len();
    if n == 0 {
        assert((m - 1) / (m as int) == 0) by (nonlinear_arith)
            requires
                m >= 1,
        ;
    } else if n <= m {
        assert((n + m - 1) / (m as int) == 1) by (nonlinear_arith)
            requires
                m >= 1,
                1 <= n <= m,
        ;
        if n == m {
            assert(n % m == 0) by (nonlinear_arith)
                requires
                    n == m,
                    m >= 1,
            ;
        } else {
            lemma_small_mod(n, m);
        }
    } else {
        let r = qs.skip(m as int);
        lemma_chunk_sizes(r, m);
        lemma_div_plus_one((r.len() + m - 1) as int, m as int);
        lemma_mod_add_multiples_vanish(r.len() as int, m as int);
        let c = chunks(qs, m);
        assert(c == seq![qs.take(m as int)] + chunks(r, m));
        assert forall|i: int| 0 <= i < c.len() - 1 implies (#[trigger] c[i]).len() == m by {
            if i > 0 {
                assert(c[i] == chunks(r, m)[i - 1]);
            }
        }
    }
}

/// The groups, laid end to end, give back `qs` in order.
proof fn lemma_chunks_flatten(qs: Seq<Seq<u8>>, m: nat)
    requires
        m >= 1,
    ensures
        chunks(qs, m).flatten() == qs,
    decreases qs.len(),
{
    let c = chunks(qs, m);
    if qs.len() == 0 {
    } else if qs.len() <= m {
        c.lemma_flatten_one_element();
    } else {
        lemma_chunks_flatten(qs.skip(m as int), m);
        assert(c.drop_first() =~= chunks(qs.skip(m as int), m));
        assert(qs.take(m as int) + qs.skip(m as int) =~= qs);
    }
}

/// On a well-formed stream of `n` transactions with batches of at most
/// `m >= 1`, generation ends without error after `ceil(n / m)` batches; each
/// has `m` transactions but the last, which has `n mod m`, or `m` where that
/// is zero.
pub proof fn lemma_size_partition(ps: Seq<Seq<u8>>, m: nat)
    requires
        valid_transactions(ps),
        m >= 1,
    ensures
        ({
            let (bs, e) = batches_from(frames(ps), 0, m);
            &&& e is None
            &&& bs.len() == (ps.len() + m - 1) / m as int
            &&& forall|i: int| 0 <= i < bs.len() - 1 ==> (#[trigger] bs[i]).len() == m
            &&& bs.len() > 0 ==> bs.last().len() == (if ps.len() % m == 0 {
                m
            } else {
                ps.len() % m
            })
        }),
{
    assert(ps.take(0) =~= Seq::<Seq<u8>>::empty());
    assert(ps.skip(0) =~= ps);
    lemma_batches_from(ps, 0, m);
    lemma_chunk_sizes(ps, m);
}

/// The identifier lists of the groups, laid end to end, are the identifiers
/// of `qs` in order.
proof fn lemma_chunk_ids_flatten(qs: Seq<Seq<u8>>, m: nat)
    requires
        m >= 1,
    ensures
        chunks(qs, m).map_values(|b: Seq<Seq<u8>>| ids_of(b)).flatten() == ids_of(qs),
    decreases qs.len(),
{
    let c = chunks(qs, m);
    let f = |b: Seq<Seq<u8>>| ids_of(b);
    if qs.len() == 0 {
        assert(c.map_values(f) =~= Seq::<Seq<Seq<u8>>>::empty());
        assert(ids_of(qs) =~= Seq::<Seq<u8>>::empty());
    } else if qs.len() <= m {
        assert(c.map_values(f) =~= seq![ids_of(qs)]);
        seq![ids_of(qs)].lemma_flatten_one_element();
    } else {
        let r = qs.skip(m as int);
        lemma_chunk_ids_flatten(r, m);
        assert(c.map_values(f).drop_first() =~= chunks(r, m).map_values(f));
        assert(c.map_values(f).first() == ids_of(qs.take(m as int)));
        assert(ids_of(qs.take(m as int)) + ids_of(r) =~= ids_of(qs));
    }
}

/// The header signatures of the transaction messages `ps`, in order.
pub open spec fn ids_of(ps: Seq<Seq<u8>>) -> Seq<Seq<u8>> {
    ps.map_values(|p: Seq<u8>| signature_of(p))
}

/// On a well-formed stream, the batches' transactions, laid end to end in the
/// order the batches are produced, are the input transactions in their order,
/// none lost, repeated or moved; and so are the identifier lists that the
/// batch headers hold.
pub proof fn lemma_order_preservation(ps: Seq<Seq<u8>>, m: nat)
    requires
        valid_transactions(ps),
        m >= 1,
    ensures
        batches_from(frames(ps), 0, m).0.flatten() == ps,
        batches_from(frames(ps), 0, m).0.map_values(|b: Seq<Seq<u8>>| ids_of(b)).flatten() == ids_of(ps),
        forall|i: int| 0 <= i < batches_from(frames(ps), 0, m).0.len() ==>
            batch_of(#[trigger] batches_from(frames(ps), 0, m).0[i])
                == batch_bytes(batch_header_bytes(ids_of(batches_from(frames(ps), 0, m).0[i])),
                    batches_from(frames(ps), 0, m).0[i]),
{
    assert(ps.take(0) =~= Seq::<Seq<u8>>::empty());
    assert(ps.skip(0) =~= ps);
    lemma_batches_from(ps, 0, m);
    lemma_chunks_flatten(ps, m);
    lemma_chunk_ids_flatten(ps, m);
}

/// Pulling `k` from record `j`, where `k` more well-formed records follow,
/// whatever bytes come after them.
proof fn lemma_pull_within(ps: Seq<Seq<u8>>, j: int, k: nat, extra: Seq<u8>)
    requires
        valid_transactions(ps),
        0 <= j,
        j + k <= ps.len(),
    ensures
        pull(frames(ps) + extra, offset(ps, j), k) == Ok::<(Seq<Seq<u8>>, nat), DecodeError>(
            (ps.subrange(j, j + k), offset(ps, j + k)),
        ),
    decreases k,
{
    if k == 0 {
        assert(ps.subrange(j, j) =~= Seq::<Seq<u8>>::empty());
    } else {
        lemma_record_at_in(ps, j, extra);
        lemma_pull_within(ps, j + 1, (k - 1) as nat, extra);
        assert(seq![ps[j]] + ps.subrange(j + 1, j + k) =~= ps.subrange(j, j + k));
    }
}

/// A pull that reaches a record declaring `len` bytes, of which fewer remain,
/// fails as truncated.
proof fn lemma_pull_into_truncated(ps: Seq<Seq<u8>>, j: int, k: nat, len: nat, tail: Seq<u8>)
    requires
        valid_transactions(ps),
        0 <= j <= ps.len() < j + k,
        tail.len() < len < 0x1_0000_0000_0000_0000,
    ensures
        pull(frames(ps) + (varint_bytes(len) + tail), offset(ps, j), k)
            == Err::<(Seq<Seq<u8>>, nat), DecodeError>(DecodeError::Truncated),
    decreases k,
{
    let extra = varint_bytes(len) + tail;
    let s = frames(ps) + extra;
    if j == ps.len() {
        assert(ps.take(j) =~= ps);
        assert(rest(s, frames(ps).len()) =~= varint_bytes(len) + tail);
        lemma_varint64_round_trip(len as u64, tail);
    } else {
        lemma_record_at_in(ps, j, extra);
        lemma_pull_into_truncated(ps, j + 1, (k - 1) as nat, len, tail);
    }
}

/// Generating from record `j` of well-formed records followed by a truncated
/// one: the whole groups of `m` before it, then the error.
proof fn lemma_batches_truncated(ps: Seq<Seq<u8>>, j: int, m: nat, len: nat, tail: Seq<u8>)
    requires
        valid_transactions(ps),
        0 <= j <= ps.len(),
        m >= 1,
        tail.len() < len < 0x1_0000_0000_0000_0000,
    ensures
        batches_from(frames(ps) + (varint_bytes(len) + tail), offset(ps, j), m) == (
            chunks(ps.subrange(j, j + ((ps.len() - j) / m as int) * m), m),
            Some(DecodeError::Truncated),
        ),
    decreases ps.len() - j,
{
    let extra = varint_bytes(len) + tail;
    let s = frames(ps) + extra;
    let n = ps.len() as int;
    if j + m <= n {
        lemma_pull_within(ps, j, m, extra);
        lemma_record_at_in(ps, j, extra);
        lemma_offset_mono(ps, j + 1, j + m);
        lemma_batches_truncated(ps, j + m, m, len, tail);
        let q = (n - j - m) / m as int;
        lemma_div_plus_one(n - j - m, m as int);
        assert((1 + q) * m == m + q * m) by (nonlinear_arith);
        assert(0 <= q * m <= n - j - m) by (nonlinear_arith)
            requires
                q == (n - j - m) / m as int,
                n - j - m >= 0,
                m >= 1,
        ;
        let qs = ps.subrange(j, j + m + q * m);
        if qs.len() <= m {
            assert(qs =~= ps.subrange(j, j + m));
            assert(ps.subrange(j + m, j + m + q * m) =~= Seq::<Seq<u8>>::empty());
            assert(seq![qs] + Seq::<Seq<Seq<u8>>>::empty() =~= seq![qs]);
        } else {
            assert(qs.take(m as int) =~= ps.subrange(j, j + m));
            assert(qs.skip(m as int) =~= ps.subrange(j + m, j + m + q * m));
        }
    } else {
        lemma_pull_into_truncated(ps, j, m, len, tail);
        assert((n - j) / m as int == 0) by (nonlinear_arith)
            requires
                0 <= n - j < m,
        ;
        assert(ps.subrange(j, j) =~= Seq::<Seq<u8>>::empty());
    }
}

/// Where a record declares more bytes than remain, generation ends with a
/// truncation error; the batches produced before it are the whole groups of
/// `m` among the records before it, and no batch holds any record of the
/// group that met the error.
pub proof fn lemma_truncated_record_aborts(ps: Seq<Seq<u8>>, m: nat, len: nat, tail: Seq<u8>)
    requires
        valid_transactions(ps),
        m >= 1,
        tail.len() < len < 0x1_0000_0000_0000_0000,
    ensures
        batches_from(frames(ps) + (varint_bytes(len) + tail), 0, m) == (
            chunks(ps.take((ps.len() as int / m as int) * (m as int)), m),
            Some(DecodeError::Truncated),
        ),
{
    assert(ps.take(0) =~= Seq::<Seq<u8>>::empty());
    lemma_batches_truncated(ps, 0, m, len, tail);
    assert(ps.subrange(0, (ps.len() as int / m as int) * (m as int)) =~= ps.take((ps.len() as int / m as int) * (m as int)));
}

/// Successive calls of `next_batch` walk `batches_from`: where a pull from
/// `pos` returns the group `ps` and stops at `f`, the groups from `pos` are
/// `ps` followed by the groups from `f`, with the same outcome; where it
/// returns nothing, there are no more groups and no error.
pub proof fn lemma_next_batch_step(s: Seq<u8>, pos: nat, m: nat)
    requires
        pos <= s.len(),
        m >= 1,
    ensures
        pull(s, pos, m) is Ok ==> ({
            let (ps, f) = pull(s, pos, m)->Ok_0;
            &&& ps.len() == 0 ==> batches_from(s, pos, m) == (Seq::<Seq<Seq<u8>>>::empty(), None::<DecodeError>)
            &&& ps.len() > 0 ==> batches_from(s, pos, m) == (
                seq![ps] + batches_from(s, f, m).0,
                batches_from(s, f, m).1,
            )
        }),
        pull(s, pos, m) is Err ==> batches_from(s, pos, m) == (
            Seq::<Seq<Seq<u8>>>::empty(),
            Some(pull(s, pos, m)->Err_0),
        ),
{
    crate::batch_gen::lemma_pull_advances(s, pos, m);
}

} // verus!
