use protobuf::{CodedInputStream, CodedOutputStream};
use sawtooth_workload::batch_gen;
use sawtooth_workload::batch_gen::{BatchingError, LengthDelimitedMessageSource, SignedBatchProducer};
use sawtooth_workload::message::{encode_batch_header, Batch, DecodeError, Transaction};
use sawtooth_workload::wire::{push_frame, push_varint, read_length_at, read_varint32_at};

fn make_header() -> Vec<u8> {
    let mut header = Vec::new();
    {
        let mut os = CodedOutputStream::vec(&mut header);
        os.write_string(1, "some_pubkey").unwrap();
        os.write_string(3, "test_family").unwrap();
        os.write_string(4, "1.0").unwrap();
        os.write_string(8, "some_pubkey").unwrap();
        os.write_string(9, "some_sha512_hash").unwrap();
        os.flush().unwrap();
    }
    header
}

fn make_txn(sig: &str) -> Vec<u8> {
    let mut txn = Vec::new();
    {
        let mut os = CodedOutputStream::vec(&mut txn);
        os.write_bytes(1, &make_header()).unwrap();
        os.write_string(2, sig).unwrap();
        os.write_bytes(3, sig.as_bytes()).unwrap();
        os.flush().unwrap();
    }
    txn
}

fn write_txn_with_sig(sig: &str, out: &mut Vec<u8>) {
    let txn = make_txn(sig);
    let mut os = CodedOutputStream::vec(out);
    os.write_raw_varint32(txn.len() as u32).unwrap();
    os.write_raw_bytes(&txn).unwrap();
    os.flush().unwrap();
}

/// The transaction identifiers listed in a serialized batch header.
fn transaction_ids(header: &[u8]) -> Vec<String> {
    let mut is = CodedInputStream::from_bytes(header);
    let mut ids = Vec::new();
    while !is.eof().unwrap() {
        let (field, wire_type) = is.read_tag_unpack().unwrap();
        if field == 2 {
            ids.push(is.read_string().unwrap());
        } else {
            is.skip_field(wire_type).unwrap();
        }
    }
    ids
}

/// The serialized header and transactions of a serialized batch.
fn batch_fields(batch: &[u8]) -> (Vec<u8>, Vec<Vec<u8>>) {
    let mut is = CodedInputStream::from_bytes(batch);
    let mut header = Vec::new();
    let mut txns = Vec::new();
    while !is.eof().unwrap() {
        let (field, wire_type) = is.read_tag_unpack().unwrap();
        match field {
            1 => header = is.read_bytes().unwrap(),
            3 => txns.push(is.read_bytes().unwrap()),
            _ => is.skip_field(wire_type).unwrap(),
        }
    }
    (header, txns)
}

/// The length-delimited records of a stream.
fn records(stream: &[u8]) -> Vec<Vec<u8>> {
    let mut is = CodedInputStream::from_bytes(stream);
    let mut out = Vec::new();
    while !is.eof().unwrap() {
        let len = is.read_raw_varint32().unwrap();
        out.push(is.read_raw_bytes(len).unwrap());
    }
    out
}

fn three_transactions() -> Vec<u8> {
    let mut encoded_bytes: Vec<u8> = Vec::new();
    write_txn_with_sig("sig1", &mut encoded_bytes);
    write_txn_with_sig("sig2", &mut encoded_bytes);
    write_txn_with_sig("sig3", &mut encoded_bytes);
    encoded_bytes
}

#[test]
fn empty_transaction_source() {
    let encoded_bytes: Vec<u8> = Vec::new();
    let mut txn_stream = LengthDelimitedMessageSource::new(encoded_bytes);
    let txns = txn_stream.next(2).unwrap();
    assert_eq!(txns.len(), 0);
}

#[test]
fn next_transactions() {
    let encoded_bytes = three_transactions();
    let mut txn_stream = LengthDelimitedMessageSource::new(encoded_bytes);

    let mut txns = txn_stream.next(2).unwrap();
    assert_eq!(txns.len(), 2);

    // ensure that it is exhausted, even when more are requested
    txns = txn_stream.next(2).unwrap();
    assert_eq!(txns.len(), 1);
}

#[test]
fn signed_batches_empty_transactions() {
    let encoded_bytes: Vec<u8> = Vec::new();
    let mut producer = SignedBatchProducer::new(encoded_bytes, 2);
    let batch_result = producer.next_batch().unwrap();
    assert_eq!(batch_result, None);
}

#[test]
fn signed_batches_single_transaction() {
    let mut encoded_bytes: Vec<u8> = Vec::new();
    write_txn_with_sig("sig1", &mut encoded_bytes);

    let mut producer = SignedBatchProducer::new(encoded_bytes, 2);
    let mut batch_result = producer.next_batch().unwrap();
    assert!(batch_result.is_some());

    let batch = batch_result.unwrap();
    let ids = transaction_ids(&batch.header);
    assert_eq!(ids.len(), 1);
    assert_eq!(ids[0], String::from("sig1"));

    // test exhaustion
    batch_result = producer.next_batch().unwrap();
    assert_eq!(batch_result, None);
}

#[test]
fn signed_batches_multiple_batches() {
    let encoded_bytes = three_transactions();
    let mut producer = SignedBatchProducer::new(encoded_bytes, 2);
    let mut batch_result = producer.next_batch().unwrap();
    assert!(batch_result.is_some());

    let batch = batch_result.unwrap();
    let ids = transaction_ids(&batch.header);
    assert_eq!(ids.len(), 2);
    assert_eq!(ids[0], String::from("sig1"));
    assert_eq!(ids[1], String::from("sig2"));

    // pull the next batch
    batch_result = producer.next_batch().unwrap();
    assert!(batch_result.is_some());

    let batch = batch_result.unwrap();
    let ids = transaction_ids(&batch.header);
    assert_eq!(ids.len(), 1);
    assert_eq!(ids[0], String::from("sig3"));

    // test exhaustion
    batch_result = producer.next_batch().unwrap();
    assert_eq!(batch_result, None);
}

#[test]
fn generate_signed_batches() {
    let encoded_bytes = three_transactions();
    let mut output: Vec<u8> = Vec::new();

    batch_gen::generate_signed_batches(&encoded_bytes, &mut output, 2)
        .expect("Should have generated batches!");

    let batches = records(&output);

    let (header, _) = batch_fields(&batches[0]);
    let ids = transaction_ids(&header);
    assert_eq!(ids.len(), 2);
    assert_eq!(ids[0], String::from("sig1"));
    assert_eq!(ids[1], String::from("sig2"));

    let (header, _) = batch_fields(&batches[1]);
    let ids = transaction_ids(&header);
    assert_eq!(ids.len(), 1);
    assert_eq!(ids[0], String::from("sig3"));
}

#[test]
fn generated_stream_round_trips() {
    let encoded_bytes = three_transactions();
    let mut output: Vec<u8> = Vec::new();
    batch_gen::generate_signed_batches(&encoded_bytes, &mut output, 2).unwrap();

    let batches = records(&output);
    assert_eq!(batches.len(), 2);
    let (_, txns) = batch_fields(&batches[0]);
    assert_eq!(txns, vec![make_txn("sig1"), make_txn("sig2")]);
    let (_, txns) = batch_fields(&batches[1]);
    assert_eq!(txns, vec![make_txn("sig3")]);
}

#[test]
fn single_transaction_gives_one_batch() {
    let mut encoded_bytes: Vec<u8> = Vec::new();
    write_txn_with_sig("sig1", &mut encoded_bytes);
    let mut output: Vec<u8> = Vec::new();
    batch_gen::generate_signed_batches(&encoded_bytes, &mut output, 2).unwrap();
    let batches = records(&output);
    assert_eq!(batches.len(), 1);
    let (header, txns) = batch_fields(&batches[0]);
    assert_eq!(txns.len(), 1);
    assert_eq!(transaction_ids(&header), vec![String::from("sig1")]);
}

#[test]
fn empty_input_gives_no_batches() {
    let mut output: Vec<u8> = Vec::new();
    batch_gen::generate_signed_batches(&[], &mut output, 3).unwrap();
    assert!(output.is_empty());
}

#[test]
fn zero_batch_size_is_rejected() {
    let encoded_bytes = three_transactions();
    let mut output: Vec<u8> = Vec::new();
    let r = batch_gen::generate_signed_batches(&encoded_bytes, &mut output, 0);
    assert_eq!(r, Err(BatchingError::InvalidBatchSize));
    assert!(output.is_empty());
}

#[test]
fn batch_sizes_partition_the_input() {
    let mut encoded_bytes: Vec<u8> = Vec::new();
    let sigs = ["a", "b", "c", "d", "e", "f", "g"];
    for s in sigs.iter() {
        write_txn_with_sig(s, &mut encoded_bytes);
    }
    let mut output: Vec<u8> = Vec::new();
    batch_gen::generate_signed_batches(&encoded_bytes, &mut output, 3).unwrap();
    let batches = records(&output);
    let sizes: Vec<usize> = batches.iter().map(|b| batch_fields(b).1.len()).collect();
    assert_eq!(sizes, vec![3, 3, 1]);
    let ids: Vec<String> = batches
        .iter()
        .flat_map(|b| transaction_ids(&batch_fields(b).0))
        .collect();
    assert_eq!(ids, sigs.iter().map(|s| s.to_string()).collect::<Vec<_>>());
}

#[test]
fn exact_multiple_gives_full_last_batch() {
    let mut encoded_bytes: Vec<u8> = Vec::new();
    for s in ["a", "b", "c", "d"].iter() {
        write_txn_with_sig(s, &mut encoded_bytes);
    }
    let mut output: Vec<u8> = Vec::new();
    batch_gen::generate_signed_batches(&encoded_bytes, &mut output, 2).unwrap();
    let sizes: Vec<usize> = records(&output).iter().map(|b| batch_fields(b).1.len()).collect();
    assert_eq!(sizes, vec![2, 2]);
}

#[test]
fn truncated_record_aborts_generation() {
    let mut encoded_bytes: Vec<u8> = Vec::new();
    write_txn_with_sig("sig1", &mut encoded_bytes);
    write_txn_with_sig("sig2", &mut encoded_bytes);
    // a record that declares 50 bytes but holds 3
    encoded_bytes.extend_from_slice(&[50, 1, 2, 3]);
    let mut output: Vec<u8> = Vec::new();
    let r = batch_gen::generate_signed_batches(&encoded_bytes, &mut output, 1);
    assert_eq!(r, Err(BatchingError::MessageError(DecodeError::Truncated)));
    let batches = records(&output);
    assert_eq!(batches.len(), 2);
    assert_eq!(transaction_ids(&batch_fields(&batches[1]).0), vec![String::from("sig2")]);
}

#[test]
fn truncated_record_discards_its_pull() {
    let mut encoded_bytes: Vec<u8> = Vec::new();
    write_txn_with_sig("sig1", &mut encoded_bytes);
    encoded_bytes.extend_from_slice(&[50, 1, 2, 3]);
    let mut output: Vec<u8> = Vec::new();
    let r = batch_gen::generate_signed_batches(&encoded_bytes, &mut output, 2);
    assert_eq!(r, Err(BatchingError::MessageError(DecodeError::Truncated)));
    assert!(output.is_empty());
}

#[test]
fn malformed_length_prefix_is_an_error() {
    let bytes = vec![0x80u8; 11];
    let mut source = LengthDelimitedMessageSource::new(bytes);
    assert_eq!(source.next(1), Err(DecodeError::MalformedLength));
    let mut source = LengthDelimitedMessageSource::new(vec![0x80u8, 0x80]);
    assert_eq!(source.next(1), Err(DecodeError::MalformedLength));
}

#[test]
fn undecodable_payload_is_an_error() {
    // a field with wire type 7
    let mut source = LengthDelimitedMessageSource::new(vec![1, 0x0f]);
    assert_eq!(source.next(1), Err(DecodeError::InvalidMessage));
    let mut producer = SignedBatchProducer::new(vec![1, 0x0f], 1);
    assert_eq!(
        producer.next_batch(),
        Err(BatchingError::MessageError(DecodeError::InvalidMessage))
    );
}

#[test]
fn zero_count_pull_reads_nothing() {
    let mut source = LengthDelimitedMessageSource::new(three_transactions());
    assert_eq!(source.next(0).unwrap().len(), 0);
    assert_eq!(source.next(5).unwrap().len(), 3);
    assert_eq!(source.next(5).unwrap().len(), 0);
}

#[test]
fn decode_keeps_message_and_signature() {
    let bytes = make_txn("sig-x");
    let t = Transaction::decode(&bytes).unwrap();
    assert_eq!(t.encoded, bytes);
    assert_eq!(t.header_signature, b"sig-x".to_vec());
    let empty = Transaction::decode(&[]).unwrap();
    assert!(empty.header_signature.is_empty());
    // a header signature that is not UTF-8
    assert_eq!(Transaction::decode(&[0x12, 1, 0xff]), Err(DecodeError::InvalidMessage));
    // a field of the transaction sent as a varint
    assert_eq!(Transaction::decode(&[0x10, 1]), Err(DecodeError::InvalidMessage));
}

#[test]
fn header_lists_signatures_in_order() {
    let a = Transaction::decode(&make_txn("one")).unwrap();
    let b = Transaction::decode(&make_txn("two")).unwrap();
    let header = encode_batch_header(&[a.clone(), b.clone()]);
    assert_eq!(header, vec![0x12, 3, b'o', b'n', b'e', 0x12, 3, b't', b'w', b'o']);
    let batch = Batch::new(vec![a, b]);
    assert_eq!(batch.header, header);
    let encoded = batch.encode();
    let (h, txns) = batch_fields(&encoded);
    assert_eq!(h, header);
    assert_eq!(txns, vec![make_txn("one"), make_txn("two")]);
}

#[test]
fn varints_are_written_and_read() {
    let mut out = Vec::new();
    push_varint(&mut out, 300);
    assert_eq!(out, vec![0xac, 0x02]);
    push_varint(&mut out, 1);
    assert_eq!(read_varint32_at(&out, 0), Some((300, 2)));
    assert_eq!(read_varint32_at(&out, 2), Some((1, 3)));
    assert_eq!(read_varint32_at(&out, 3), None);
    let mut framed = Vec::new();
    push_frame(&mut framed, b"abc");
    assert_eq!(framed, vec![3, b'a', b'b', b'c']);
}

#[test]
fn batching_error_descriptions() {
    assert_eq!(BatchingError::SigningError.description(), "Unable to sign batch");
    assert_eq!(BatchingError::SigningError.cause(), None);
    assert_eq!(
        BatchingError::MessageError(DecodeError::Truncated).cause(),
        Some(DecodeError::Truncated)
    );
}

#[test]
fn length_of_two_to_the_32_is_truncated() {
    // a record declaring 2^32 bytes, with nothing after it
    let bytes = vec![0x80u8, 0x80, 0x80, 0x80, 0x10];
    let mut source = LengthDelimitedMessageSource::new(bytes.clone());
    assert_eq!(source.next(1), Err(DecodeError::Truncated));
    let mut producer = SignedBatchProducer::new(bytes.clone(), 2);
    assert_eq!(
        producer.next_batch(),
        Err(BatchingError::MessageError(DecodeError::Truncated))
    );
    let mut output: Vec<u8> = Vec::new();
    let r = batch_gen::generate_signed_batches(&bytes, &mut output, 2);
    assert_eq!(r, Err(BatchingError::MessageError(DecodeError::Truncated)));
    assert!(output.is_empty());
}

#[test]
fn length_beyond_64_bits_is_truncated() {
    let mut bytes = vec![0x80u8; 9];
    bytes.push(0x02);
    assert_eq!(read_length_at(&bytes, 0), Some((u64::MAX, 10)));
    let mut source = LengthDelimitedMessageSource::new(bytes);
    assert_eq!(source.next(1), Err(DecodeError::Truncated));
}

#[test]
fn lengths_are_read_whole() {
    let bytes = vec![0x80u8, 0x80, 0x80, 0x80, 0x10];
    assert_eq!(read_length_at(&bytes, 0), Some((1u64 << 32, 5)));
    let mut max = vec![0xffu8; 9];
    max.push(0x01);
    assert_eq!(read_length_at(&max, 0), Some((u64::MAX, 10)));
    assert_eq!(read_length_at(&[0xac, 0x02], 0), Some((300, 2)));
}

#[test]
fn batching_error_messages() {
    assert_eq!(
        BatchingError::MessageError(DecodeError::Truncated).message(),
        "Error occurred reading messages: Record shorter than its length prefix"
    );
    assert_eq!(BatchingError::SigningError.message(), "Unable to sign batch");
}

#[test]
fn unknown_groups_are_skipped() {
    // field 5 as a group holding a field 2, then the signature "ok"
    let bytes = vec![0x2b, 0x12, 1, b'x', 0x2c, 0x12, 2, b'o', b'k'];
    let t = Transaction::decode(&bytes).unwrap();
    assert_eq!(t.header_signature, b"ok".to_vec());
    // a group that is never closed
    assert_eq!(Transaction::decode(&[0x2b, 0x08, 1]), Err(DecodeError::InvalidMessage));
    // a nested group
    assert_eq!(Transaction::decode(&[0x2b, 0x33, 0x34, 0x2c]), Err(DecodeError::InvalidMessage));
    // a group closed that was never opened
    assert_eq!(Transaction::decode(&[0x2c]), Err(DecodeError::InvalidMessage));
}
