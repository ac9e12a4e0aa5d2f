//! The two message kinds of the stream: transactions (read) and batches
//! (written), in protocol-buffer wire form.
use vstd::prelude::*;
use vstd::utf8::valid_utf8;
use crate::wire::{frame, low32, push_frame, push_varint, read_length_at, read_varint32_at, varint, varint_bytes};

verus! {

/// Field number of a transaction's header signature.
pub const TRANSACTION_SIGNATURE_FIELD: u64 = 2;

/// Field number of the transaction identifiers in a batch header.
pub const HEADER_TRANSACTION_IDS_FIELD: u64 = 2;

/// Field number of a batch's serialized header.
pub const BATCH_HEADER_FIELD: u64 = 1;

/// Field number of a batch's transactions.
pub const BATCH_TRANSACTIONS_FIELD: u64 = 3;

/// Why a record could not be decoded.
#[derive(Debug, Clone, Copy, PartialEq, Eq, Structural)]
pub enum DecodeError {
    /// The length prefix is not a well-formed varint.
    MalformedLength,
    /// Fewer bytes remain than the length prefix declares.
    Truncated,
    /// The payload is not a well-formed transaction message.
    InvalidMessage,
}

impl DecodeError {
    /// What `description` returns.
    pub open spec fn description_spec(&self) -> Seq<char> {
        match *self {
            DecodeError::MalformedLength => "Malformed length prefix"@,
            DecodeError::Truncated => "Record shorter than its length prefix"@,
            DecodeError::InvalidMessage => "Malformed transaction message"@,
        }
    }

    /// A short description of the error.
    pub fn description(&self) -> (r: &'static str)
        ensures
            r@ == self.description_spec(),
    {
        match self {
            DecodeError::MalformedLength => "Malformed length prefix",
            DecodeError::Truncated => "Record shorter than its length prefix",
            DecodeError::InvalidMessage => "Malformed transaction message",
        }
    }
}

/// The rest of `s` from position `i`.
pub open spec fn rest(s: Seq<u8>, i: nat) -> Seq<u8> {
    s.subrange(i as int, s.len() as int)
}

/// Walks the fields of a transaction message from position `i`, where `sig`
/// is the header signature seen so far (the last occurrence wins; each must
/// be UTF-8 text) and `g` says whether the walk is inside a group. Every field
/// is a varint (wire type 0), 64-bit (1), length-delimited (2) or 32-bit (5)
/// value, or a group of such fields opened by wire type 3 and closed by wire
/// type 4 (groups do not nest). The transaction's own fields 1 to 3 are all
/// length-delimited; fields inside a group are skipped whatever their number.
pub open spec fn scan_signature(s: Seq<u8>, i: nat, sig: Seq<u8>, g: bool) -> Option<Seq<u8>>
    decreases s.len() - i,
{
    if i >= s.len() {
        if g {
            None
        } else {
            Some(sig)
        }
    } else {
        match varint(rest(s, i)) {
            None => None,
            Some((tag, n)) => {
                let t = low32(tag);
                let field = t / 8;
                let wire = t % 8;
                let j = i + n;
                if n == 0 || j > s.len() || field == 0 || (!g && field <= 3 && wire != 2) {
                    None
                } else if wire == 3 {
                    if g {
                        None
                    } else {
                        scan_signature(s, j, sig, true)
                    }
                } else if wire == 4 {
                    if g {
                        scan_signature(s, j, sig, false)
                    } else {
                        None
                    }
                } else if wire == 0 {
                    match varint(rest(s, j)) {
                        Some((_, m)) => if m > 0 && j + m <= s.len() {
                            scan_signature(s, j + m, sig, g)
                        } else {
                            None
                        },
                        None => None,
                    }
                } else if wire == 1 || wire == 5 {
                    let e = if wire == 1 { j + 8 } else { j + 4 };
                    if e <= s.len() {
                        scan_signature(s, e, sig, g)
                    } else {
                        None
                    }
                } else if wire == 2 {
                    match varint(rest(s, j)) {
                        Some((l, m)) => {
                            let e = j + m + l;
                            let v = s.subrange((j + m) as int, e as int);
                            if !(m > 0 && e <= s.len()) {
                                None
                            } else if !g && field == TRANSACTION_SIGNATURE_FIELD {
                                if valid_utf8(v) {
                                    scan_signature(s, e, v, false)
                                } else {
                                    None
                                }
                            } else {
                                scan_signature(s, e, sig, g)
                            }
                        },
                        None => None,
                    }
                } else {
                    None
                }
            },
        }
    }
}

/// The header signature of the transaction message `p`, or `None` where `p`
/// is not a well-formed transaction message. An absent signature is empty.
pub open spec fn transaction_signature(p: Seq<u8>) -> Option<Seq<u8>> {
    scan_signature(p, 0, Seq::empty(), false)
}

/// Relies on std's `str::from_utf8`: it succeeds exactly on well-formed UTF-8.
#[verifier::external_body]
fn is_utf8(b: &[u8]) -> (r: bool)
    ensures
        r == valid_utf8(b@),
{
    std::str::from_utf8(b).is_ok()
}

/// A transaction: the message as it was read, and its header signature.
#[derive(Debug, Clone, PartialEq, Eq)]
pub struct Transaction {
    pub encoded: Vec<u8>,
    pub header_signature: Vec<u8>,
}

impl Transaction {
    /// `self` is what decoding the message `p` gives.
    pub open spec fn decodes_from(&self, p: Seq<u8>) -> bool {
        &&& self.encoded@ == p
        &&& transaction_signature(p) == Some(self.header_signature@)
    }

    /// Decodes a transaction message, keeping its bytes verbatim.
    pub fn decode(p: &[u8]) -> (r: Result<Transaction, DecodeError>)
        ensures
            r is Ok <==> transaction_signature(p@) is Some,
            r is Ok ==> r->Ok_0.decodes_from(p@),
            r is Err ==> r == Err::<Transaction, DecodeError>(DecodeError::InvalidMessage),
    {
        let mut i: usize = 0;
        let mut a: usize = 0;
        let mut b: usize = 0;
        let mut in_group = false;
        assert(p@.subrange(0, 0) =~= Seq::<u8>::empty());
        while i < p.len()
            invariant
                i <= p@.len(),
                a <= b <= p@.len(),
                scan_signature(p@, i as nat, p@.subrange(a as int, b as int), in_group)
                    == transaction_signature(p@),
            decreases p@.len() - i,
        {
            let (tag, j) = match read_varint32_at(p, i) {
                Some(x) => x,
                None => return Err(DecodeError::InvalidMessage),
            };
            let field = tag / 8;
            let wire = tag % 8;
            if field == 0 || (!in_group && field <= 3 && wire != 2) {
                return Err(DecodeError::InvalidMessage);
            }
            if wire == 3 {
                if in_group {
                    return Err(DecodeError::InvalidMessage);
                }
                in_group = true;
                i = j;
            } else if wire == 4 {
                if !in_group {
                    return Err(DecodeError::InvalidMessage);
                }
                in_group = false;
                i = j;
            } else if wire == 0 {
                match read_varint32_at(p, j) {
                    Some((_, e)) => {
                        i = e;
                    },
                    None => return Err(DecodeError::InvalidMessage),
                }
            } else if wire == 1 || wire == 5 {
                let w: usize = if wire == 1 { 8 } else { 4 };
                if w > p.len() - j {
                    return Err(DecodeError::InvalidMessage);
                }
                i = j + w;
            } else if wire == 2 {
                match read_length_at(p, j) {
                    Some((l, k)) => {
                        if l > (p.len() - k) as u64 {
                            return Err(DecodeError::InvalidMessage);
                        }
                        if !in_group && field as u64 == TRANSACTION_SIGNATURE_FIELD {
                            let v = vstd::slice::slice_subrange(p, k, k + l as usize);
                            if !is_utf8(v) {
                                return Err(DecodeError::InvalidMessage);
                            }
                            a = k;
                            b = k + l as usize;
                        }
                        i = k + l as usize;
                    },
                    None => return Err(DecodeError::InvalidMessage),
                }
            } else {
                return Err(DecodeError::InvalidMessage);
            }
        }
        if in_group {
            return Err(DecodeError::InvalidMessage);
        }
        let sig = vstd::slice::slice_to_vec(vstd::slice::slice_subrange(p, a, b));
        Ok(Transaction { encoded: vstd::slice::slice_to_vec(p), header_signature: sig })
    }
}

/// The field `number`, length-delimited, holding `v`.
pub open spec fn delimited_field(number: nat, v: Seq<u8>) -> Seq<u8> {
    varint_bytes(number * 8 + 2) + frame(v)
}

/// One length-delimited field `number` for each of `vs`, in order.
pub open spec fn repeated_field(number: nat, vs: Seq<Seq<u8>>) -> Seq<u8>
    decreases vs.len(),
{
    if vs.len() == 0 {
        Seq::empty()
    } else {
        repeated_field(number, vs.drop_last()) + delimited_field(number, vs.last())
    }
}

/// The serialized batch header that lists the transaction identifiers `ids`.
pub open spec fn batch_header_bytes(ids: Seq<Seq<u8>>) -> Seq<u8> {
    repeated_field(HEADER_TRANSACTION_IDS_FIELD as nat, ids)
}

/// The serialized batch with header `header` and transaction messages `txns`
/// (an empty header, being the default value, is left out).
pub open spec fn batch_bytes(header: Seq<u8>, txns: Seq<Seq<u8>>) -> Seq<u8> {
    (if header.len() == 0 {
        Seq::empty()
    } else {
        delimited_field(BATCH_HEADER_FIELD as nat, header)
    }) + repeated_field(BATCH_TRANSACTIONS_FIELD as nat, txns)
}

/// The header signatures of `ts`, in order.
pub open spec fn signatures(ts: Seq<Transaction>) -> Seq<Seq<u8>> {
    ts.map_values(|t: Transaction| t.header_signature@)
}

/// The messages of `ts`, in order.
pub open spec fn encodings(ts: Seq<Transaction>) -> Seq<Seq<u8>> {
    ts.map_values(|t: Transaction| t.encoded@)
}

/// Appends to `out` the length-delimited field `number` holding `v`.
fn push_delimited_field(out: &mut Vec<u8>, number: u64, v: &[u8])
    requires
        number < 0x1000_0000,
    ensures
        final(out)@ == old(out)@ + delimited_field(number as nat, v@),
{
    push_varint(out, number * 8 + 2);
    push_frame(out, v);
    assert(out@ =~= old(out)@ + delimited_field(number as nat, v@));
}

/// Serializes the batch header that lists the signatures of `txns`.
pub fn encode_batch_header(txns: &[Transaction]) -> (r: Vec<u8>)
    ensures
        r@ == batch_header_bytes(signatures(txns@)),
{
    let mut out: Vec<u8> = Vec::new();
    let mut i: usize = 0;
    while i < txns.len()
        invariant
            i <= txns@.len(),
            out@ == batch_header_bytes(signatures(txns@.subrange(0, i as int))),
        decreases txns@.len() - i,
    {
        push_delimited_field(&mut out, HEADER_TRANSACTION_IDS_FIELD, txns[i].header_signature.as_slice());
        proof {
            let s = signatures(txns@.subrange(0, i + 1));
            assert(s.drop_last() =~= signatures(txns@.subrange(0, i as int)));
            assert(s.last() == txns@[i as int].header_signature@);
        }
        i = i + 1;
    }
    assert(txns@.subrange(0, txns@.len() as int) =~= txns@);
    out
}

/// A batch: its serialized header and the transactions it groups.
#[derive(Debug, Clone, PartialEq, Eq)]
pub struct Batch {
    pub header: Vec<u8>,
    pub transactions: Vec<Transaction>,
}

impl Batch {
    /// Groups `transactions` under a header that lists their signatures in order.
    pub fn new(transactions: Vec<Transaction>) -> (r: Batch)
        ensures
            r.transactions@ == transactions@,
            r.header@ == batch_header_bytes(signatures(transactions@)),
    {
        let header = encode_batch_header(transactions.as_slice());
        Batch { header, transactions }
    }

    /// Serializes the batch message.
    pub fn encode(&self) -> (r: Vec<u8>)
        ensures
            r@ == batch_bytes(self.header@, encodings(self.transactions@)),
    {
        let mut out: Vec<u8> = Vec::new();
        if self.header.len() > 0 {
            push_delimited_field(&mut out, BATCH_HEADER_FIELD, self.header.as_slice());
        }
        let ghost head = out@;
        let mut i: usize = 0;
        while i < self.transactions.len()
            invariant
                i <= self.transactions@.len(),
                out@ == head + repeated_field(
                    BATCH_TRANSACTIONS_FIELD as nat,
                    encodings(self.transactions@.subrange(0, i as int)),
                ),
            decreases self.transactions@.len() - i,
        {
            push_delimited_field(&mut out, BATCH_TRANSACTIONS_FIELD, self.transactions[i].encoded.as_slice());
            proof {
                let s = encodings(self.transactions@.subrange(0, i + 1));
                assert(s.drop_last() =~= encodings(self.transactions@.subrange(0, i as int)));
                assert(s.last() == self.transactions@[i as int].encoded@);
            }
            i = i + 1;
        }
        assert(self.transactions@.subrange(0, self.transactions@.len() as int) =~= self.transactions@);
        assert(out@ =~= batch_bytes(self.header@, encodings(self.transactions@)));
        out
    }
}

} // verus!
