//! Reading length-delimited transactions, grouping them into batches, and
//! writing the batches length-delimited.
use vstd::prelude::*;
use crate::message::{
    batch_bytes, batch_header_bytes, encodings, rest, signatures, transaction_signature, Batch,
    DecodeError, Transaction,
};
use crate::wire::{frames, lemma_varint_len, push_frame, read_length_at, varint, MAX_VARINT_BYTES};

verus! {

/// The record that starts at `pos` in `s`: its payload and the position after it.
pub open spec fn next_record(s: Seq<u8>, pos: nat) -> Result<(Seq<u8>, nat), DecodeError> {
    match varint(rest(s, pos)) {
        None => Err(DecodeError::MalformedLength),
        Some((l, n)) => {
            let e = pos + n + l;
            if e <= s.len() {
                Ok((s.subrange((pos + n) as int, e as int), e))
            } else {
                Err(DecodeError::Truncated)
            }
        },
    }
}

/// Reads at most `k` transaction records from position `pos` of `s`, stopping
/// early at the end of `s`: the payloads read and the position after them, or
/// the first error met.
pub open spec fn pull(s: Seq<u8>, pos: nat, k: nat) -> Result<(Seq<Seq<u8>>, nat), DecodeError>
    decreases k,
{
    if k == 0 || pos >= s.len() {
        Ok((Seq::empty(), pos))
    } else {
        match next_record(s, pos) {
            Err(e) => Err(e),
            Ok((p, e)) => if transaction_signature(p) is None {
                Err(DecodeError::InvalidMessage)
            } else {
                prepend(seq![p], pull(s, e, (k - 1) as nat))
            },
        }
    }
}

/// `r` with `ps` put in front of the payloads it read.
pub open spec fn prepend(
    ps: Seq<Seq<u8>>,
    r: Result<(Seq<Seq<u8>>, nat), DecodeError>,
) -> Result<(Seq<Seq<u8>>, nat), DecodeError> {
    match r {
        Ok((qs, f)) => Ok((ps + qs, f)),
        Err(e) => Err(e),
    }
}

/// The groups of payloads that pulling `m` at a time from position `pos` of
/// `s` gives, until a pull comes back empty; and the error that stopped it
/// early, if one did.
pub open spec fn batches_from(s: Seq<u8>, pos: nat, m: nat) -> (Seq<Seq<Seq<u8>>>, Option<DecodeError>)
    decreases s.len() - pos,
{
    match pull(s, pos, m) {
        Err(e) => (Seq::empty(), Some(e)),
        Ok((ps, f)) => if ps.len() == 0 || f <= pos || f > s.len() {
            (Seq::empty(), None)
        } else {
            let (bs, e) = batches_from(s, f, m);
            (seq![ps] + bs, e)
        },
    }
}

/// The header signature of the transaction message `p`.
pub open spec fn signature_of(p: Seq<u8>) -> Seq<u8> {
    transaction_signature(p)->Some_0
}

/// The serialized batch of the transaction messages `ps`.
pub open spec fn batch_of(ps: Seq<Seq<u8>>) -> Seq<u8> {
    batch_bytes(batch_header_bytes(ps.map_values(|p: Seq<u8>| signature_of(p))), ps)
}

/// The output stream for the groups `bs`: each batch, length-delimited.
pub open spec fn batch_stream(bs: Seq<Seq<Seq<u8>>>) -> Seq<u8> {
    frames(bs.map_values(|ps: Seq<Seq<u8>>| batch_of(ps)))
}

/// Each of `ts` is what decoding the matching payload of `ps` gives.
pub open spec fn decoded_all(ts: Seq<Transaction>, ps: Seq<Seq<u8>>) -> bool {
    &&& ts.len() == ps.len()
    &&& forall|i: int| 0 <= i < ts.len() ==> #[trigger] ts[i].decodes_from(ps[i])
}

/// Decodes transaction messages from a length-delimited byte stream.
pub struct LengthDelimitedMessageSource {
    data: Vec<u8>,
    pos: usize,
}

impl LengthDelimitedMessageSource {
    /// The whole stream.
    pub closed spec fn bytes(&self) -> Seq<u8> {
        self.data@
    }

    /// How far the stream has been read.
    pub closed spec fn position(&self) -> nat {
        self.pos as nat
    }

    /// The read position lies inside the stream.
    pub closed spec fn wf(&self) -> bool {
        self.pos <= self.data@.len()
    }

    /// A source positioned at the start of `data`.
    pub fn new(data: Vec<u8>) -> (r: LengthDelimitedMessageSource)
        ensures
            r.wf(),
            r.bytes() == data@,
            r.position() == 0,
    {
        LengthDelimitedMessageSource { data, pos: 0 }
    }

    /// Decodes up to `max_msgs` transactions. An empty result means the stream
    /// is consumed. On an error, what this call had decoded is dropped.
    pub fn next(&mut self, max_msgs: usize) -> (r: Result<Vec<Transaction>, DecodeError>)
        requires
            old(self).wf(),
        ensures
            final(self).wf(),
            final(self).bytes() == old(self).bytes(),
            final(self).position() >= old(self).position(),
            match pull(old(self).bytes(), old(self).position(), max_msgs as nat) {
                Ok((ps, f)) => r is Ok && decoded_all(r->Ok_0@, ps) && final(self).position() == f,
                Err(e) => r == Err::<Vec<Transaction>, DecodeError>(e),
            },
    {
        let ghost s = self.data@;
        let ghost pos0 = self.pos as nat;
        let ghost mut got: Seq<Seq<u8>> = Seq::empty();
        let mut results: Vec<Transaction> = Vec::new();
        let mut count: usize = 0;
        assert(got + Seq::<Seq<u8>>::empty() =~= Seq::<Seq<u8>>::empty());
        while count < max_msgs
            invariant
                s == old(self).data@,
                pos0 == old(self).pos,
                self.data@ == s,
                pos0 <= self.pos <= s.len(),
                count <= max_msgs,
                got.len() == count,
                decoded_all(results@, got),
                pull(s, pos0, max_msgs as nat) == prepend(
                    got,
                    pull(s, self.pos as nat, (max_msgs - count) as nat),
                ),
            ensures
                self.data@ == s,
                pos0 <= self.pos <= s.len(),
                decoded_all(results@, got),
                pull(s, pos0, max_msgs as nat) == prepend(
                    got,
                    pull(s, self.pos as nat, (max_msgs - count) as nat),
                ),
                count == max_msgs || self.pos >= s.len(),
            decreases max_msgs - count,
        {
            if self.pos >= self.data.len() {
                break;
            }
            let data = self.data.as_slice();
            proof {
                lemma_varint_len(rest(s, self.pos as nat), MAX_VARINT_BYTES as nat);
            }
            let (len, start) = match read_length_at(data, self.pos) {
                Some(x) => x,
                None => return Err(DecodeError::MalformedLength),
            };
            if len > (data.len() - start) as u64 {
                return Err(DecodeError::Truncated);
            }
            let end = start + len as usize;
            let payload = vstd::slice::slice_subrange(data, start, end);
            let txn = match Transaction::decode(payload) {
                Ok(t) => t,
                Err(_) => return Err(DecodeError::InvalidMessage),
            };
            proof {
                let ghost p = payload@;
                assert(next_record(s, self.pos as nat) == Ok::<(Seq<u8>, nat), DecodeError>((p, end as nat)));
                assert(got + (seq![p] + Seq::<Seq<u8>>::empty()) =~= got.push(p) + Seq::<Seq<u8>>::empty());
                assert(forall|q: Seq<Seq<u8>>| got + (seq![p] + q) =~= got.push(p) + q);
                got = got.push(p);
            }
            results.push(txn);
            self.pos = end;
            count = count + 1;
        }
        assert(got + Seq::<Seq<u8>>::empty() =~= got);
        Ok(results)
    }
}

/// Why batches could not be generated.
#[derive(Debug, Clone, Copy, PartialEq, Eq, Structural)]
pub enum BatchingError {
    /// A transaction record could not be decoded.
    MessageError(DecodeError),
    /// A batch could not be signed.
    SigningError,
    /// The largest batch size asked for is zero.
    InvalidBatchSize,
}

impl BatchingError {
    /// A short description of the error.
    pub fn description(&self) -> (r: &'static str)
        ensures
            match *self {
                BatchingError::MessageError(e) => r@ == e.description_spec(),
                BatchingError::SigningError => r@ == "Unable to sign batch"@,
                BatchingError::InvalidBatchSize => r@ == "Batch size must be at least one"@,
            },
    {
        match self {
            BatchingError::MessageError(e) => e.description(),
            BatchingError::SigningError => "Unable to sign batch",
            BatchingError::InvalidBatchSize => "Batch size must be at least one",
        }
    }

    /// The full message for the error, naming what went wrong underneath.
    pub fn message(&self) -> (r: &'static str)
        ensures
            match *self {
                BatchingError::MessageError(DecodeError::MalformedLength) =>
                    r@ == "Error occurred reading messages: Malformed length prefix"@,
                BatchingError::MessageError(DecodeError::Truncated) =>
                    r@ == "Error occurred reading messages: Record shorter than its length prefix"@,
                BatchingError::MessageError(DecodeError::InvalidMessage) =>
                    r@ == "Error occurred reading messages: Malformed transaction message"@,
                BatchingError::SigningError => r@ == "Unable to sign batch"@,
                BatchingError::InvalidBatchSize => r@ == "Batch size must be at least one"@,
            },
    {
        match self {
            BatchingError::MessageError(DecodeError::MalformedLength) =>
                "Error occurred reading messages: Malformed length prefix",
            BatchingError::MessageError(DecodeError::Truncated) =>
                "Error occurred reading messages: Record shorter than its length prefix",
            BatchingError::MessageError(DecodeError::InvalidMessage) =>
                "Error occurred reading messages: Malformed transaction message",
            BatchingError::SigningError => "Unable to sign batch",
            BatchingError::InvalidBatchSize => "Batch size must be at least one",
        }
    }

    /// The decoding error underneath, if there is one.
    pub fn cause(&self) -> (r: Option<DecodeError>)
        ensures
            match *self {
                BatchingError::MessageError(e) => r == Some(e),
                _ => r is None,
            },
    {
        match self {
            BatchingError::MessageError(e) => Some(*e),
            _ => None,
        }
    }
}

/// Produces batches from a length-delimited stream of transactions.
pub struct SignedBatchProducer {
    transaction_source: LengthDelimitedMessageSource,
    max_batch_size: usize,
}

impl SignedBatchProducer {
    /// The transaction stream.
    pub closed spec fn bytes(&self) -> Seq<u8> {
        self.transaction_source.bytes()
    }

    /// How far the transaction stream has been read.
    pub closed spec fn position(&self) -> nat {
        self.transaction_source.position()
    }

    /// The largest number of transactions in a batch.
    pub closed spec fn batch_size(&self) -> nat {
        self.max_batch_size as nat
    }

    /// The source is well formed and batches hold at least one transaction.
    pub closed spec fn wf(&self) -> bool {
        self.transaction_source.wf() && self.max_batch_size >= 1
    }

    /// A producer over the transaction stream `data`, with at most
    /// `max_batch_size` transactions in a batch.
    pub fn new(data: Vec<u8>, max_batch_size: usize) -> (r: SignedBatchProducer)
        requires
            max_batch_size >= 1,
        ensures
            r.wf(),
            r.bytes() == data@,
            r.position() == 0,
            r.batch_size() == max_batch_size,
    {
        SignedBatchProducer { transaction_source: LengthDelimitedMessageSource::new(data), max_batch_size }
    }

    /// The next batch, or `None` once the stream is consumed.
    pub fn next_batch(&mut self) -> (r: Result<Option<Batch>, BatchingError>)
        requires
            old(self).wf(),
        ensures
            final(self).wf(),
            final(self).bytes() == old(self).bytes(),
            final(self).batch_size() == old(self).batch_size(),
            final(self).position() >= old(self).position(),
            match pull(old(self).bytes(), old(self).position(), old(self).batch_size()) {
                Ok((ps, f)) => final(self).position() == f && if ps.len() == 0 {
                    r == Ok::<Option<Batch>, BatchingError>(None)
                } else {
                    r is Ok && r->Ok_0 is Some && ({
                        let b = r->Ok_0->Some_0;
                        &&& decoded_all(b.transactions@, ps)
                        &&& b.header@ == batch_header_bytes(signatures(b.transactions@))
                    })
                },
                Err(e) => r == Err::<Option<Batch>, BatchingError>(BatchingError::MessageError(e)),
            },
    {
        let txns = match self.transaction_source.next(self.max_batch_size) {
            Ok(txns) => txns,
            Err(err) => return Err(BatchingError::MessageError(err)),
        };
        if txns.len() == 0 {
            return Ok(None);
        }
        Ok(Some(Batch::new(txns)))
    }
}

/// Pulling from a position inside the stream never moves backwards nor past
/// the end, and moves forward whenever it reads anything.
pub proof fn lemma_pull_advances(s: Seq<u8>, pos: nat, k: nat)
    requires
        pos <= s.len(),
    ensures
        pull(s, pos, k) is Ok ==> ({
            let (ps, f) = pull(s, pos, k)->Ok_0;
            &&& pos <= f <= s.len()
            &&& ps.len() <= k
            &&& (ps.len() > 0 ==> pos < f)
            &&& (ps.len() == 0 ==> f == pos)
        }),
    decreases k,
{
    if k > 0 && pos < s.len() {
        lemma_varint_len(rest(s, pos), MAX_VARINT_BYTES as nat);
        if let Ok((p, e)) = next_record(s, pos) {
            lemma_pull_advances(s, e, (k - 1) as nat);
        }
    }
}

/// The serialized batch holding `txns`, decoded from `ps`, is `batch_of(ps)`.
proof fn lemma_batch_encoding(b: Batch, ps: Seq<Seq<u8>>)
    requires
        decoded_all(b.transactions@, ps),
        b.header@ == batch_header_bytes(signatures(b.transactions@)),
    ensures
        batch_bytes(b.header@, encodings(b.transactions@)) == batch_of(ps),
{
    assert forall|i: int| 0 <= i < ps.len() implies encodings(b.transactions@)[i] == ps[i]
        && signatures(b.transactions@)[i] == signature_of(ps[i]) by {
        assert(b.transactions@[i].decodes_from(ps[i]));
    }
    assert(encodings(b.transactions@) =~= ps);
    assert(signatures(b.transactions@) =~= ps.map_values(|p: Seq<u8>| signature_of(p)));
}

/// Reads every transaction of `input`, groups them `max_batch_size` at a time
/// in stream order, and appends each batch to `output`, length-delimited. It
/// stops at the first record that cannot be decoded; the batches written
/// before it stay in `output`.
pub fn generate_signed_batches(input: &[u8], output: &mut Vec<u8>, max_batch_size: usize) -> (r: Result<(), BatchingError>)
    ensures
        max_batch_size == 0 ==> r == Err::<(), BatchingError>(BatchingError::InvalidBatchSize)
            && final(output)@ == old(output)@,
        max_batch_size >= 1 ==> ({
            let (bs, e) = batches_from(input@, 0, max_batch_size as nat);
            &&& final(output)@ == old(output)@ + batch_stream(bs)
            &&& match e {
                None => r == Ok::<(), BatchingError>(()),
                Some(d) => r == Err::<(), BatchingError>(BatchingError::MessageError(d)),
            }
        }),
{
    if max_batch_size == 0 {
        return Err(BatchingError::InvalidBatchSize);
    }
    let ghost s = input@;
    let ghost m = max_batch_size as nat;
    let ghost mut done: Seq<Seq<Seq<u8>>> = Seq::empty();
    let mut producer = SignedBatchProducer::new(vstd::slice::slice_to_vec(input), max_batch_size);
    proof {
        assert(done + batches_from(s, 0, m).0 =~= batches_from(s, 0, m).0);
        assert(done.map_values(|ps: Seq<Seq<u8>>| batch_of(ps)) =~= Seq::<Seq<u8>>::empty());
        assert(output@ =~= old(output)@ + batch_stream(done));
    }
    loop
        invariant
            m == max_batch_size,
            m >= 1,
            s == input@,
            producer.wf(),
            producer.bytes() == s,
            producer.batch_size() == m,
            producer.position() <= s.len(),
            batches_from(s, 0, m) == ({
                let (bs, e) = batches_from(s, producer.position(), m);
                (done + bs, e)
            }),
            output@ == old(output)@ + batch_stream(done),
        decreases s.len() - producer.position(),
    {
        let ghost pos = producer.position();
        proof {
            lemma_pull_advances(s, pos, m);
        }
        match producer.next_batch() {
            Ok(Some(batch)) => {
                let encoded = batch.encode();
                push_frame(output, encoded.as_slice());
                proof {
                    let ps = pull(s, pos, m)->Ok_0.0;
                    lemma_batch_encoding(batch, ps);
                    let f = |ps: Seq<Seq<u8>>| batch_of(ps);
                    assert(done.push(ps).map_values(f) =~= done.map_values(f).push(batch_of(ps)));
                    assert(done.push(ps).map_values(f).drop_last() =~= done.map_values(f));
                    assert(seq![ps] + batches_from(s, producer.position(), m).0 =~= batches_from(s, pos, m).0);
                    assert(done + batches_from(s, pos, m).0 =~= done.push(ps) + batches_from(s, producer.position(), m).0);
                    done = done.push(ps);
                }
            },
            Ok(None) => {
                proof {
                    assert(done + Seq::<Seq<Seq<u8>>>::empty() =~= done);
                }
                return Ok(());
            },
            Err(err) => {
                proof {
                    assert(done + Seq::<Seq<Seq<u8>>>::empty() =~= done);
                }
                return Err(err);
            },
        }
    }
}

} // verus!
