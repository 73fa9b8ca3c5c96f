//! The stream decoder: walks a payload record by record.

use crate::schema::{DescriptorView, Schema};
use crate::value::{array_to_decimal, scaled_of, Scaled, ScaledView};
use vstd::prelude::*;
use vstd::slice::slice_subrange;

verus! {

/// Bytes in front of every payload: the type code, a reserved byte that is
/// passed over, and the channel number.
pub const HEADER_LEN: usize = 3;

/// Where in a record's header the channel number sits.
pub const CHANNEL_OFFSET: usize = 2;

/// What a [`DecodedReading`] says, as plain mathematical values.
pub struct ReadingView {
    pub name: Seq<char>,
    pub channel: u8,
    pub value: ScaledView,
}

/// One decoded field.
#[derive(Debug, PartialEq, Eq)]
pub struct DecodedReading {
    /// Name of the descriptor that matched the record's type code.
    pub name: String,
    /// Channel number read from the record's header.
    pub channel: u8,
    /// The field's scaled value.
    pub value: Scaled,
}

impl View for DecodedReading {
    type V = ReadingView;

    open spec fn view(&self) -> ReadingView {
        ReadingView { name: self.name@, channel: self.channel, value: self.value@ }
    }
}

/// What a [`DecodeError`] says, as plain mathematical values.
pub enum DecodeErrorView {
    UnknownFieldType { type_code: u8, position: nat },
    TruncatedPayload { name: Seq<char>, required: nat, available: nat },
}

/// Why decoding stopped before the end of the stream.
#[derive(Debug, PartialEq, Eq)]
pub enum DecodeError {
    /// The record at offset `position` starts with a type code that the
    /// schema has no descriptor for, so its width cannot be known.
    UnknownFieldType { type_code: u8, position: usize },
    /// The stream ends before the payload of the field `name` is complete:
    /// `required` bytes were called for and `available` are there.
    TruncatedPayload { name: String, required: usize, available: usize },
}

impl View for DecodeError {
    type V = DecodeErrorView;

    open spec fn view(&self) -> DecodeErrorView {
        match self {
            DecodeError::UnknownFieldType { type_code, position } => {
                DecodeErrorView::UnknownFieldType {
                    type_code: *type_code,
                    position: *position as nat,
                }
            },
            DecodeError::TruncatedPayload { name, required, available } => {
                DecodeErrorView::TruncatedPayload {
                    name: name@,
                    required: *required as nat,
                    available: *available as nat,
                }
            },
        }
    }
}

/// What a [`Decoded`] result says, as plain mathematical values.
pub struct DecodedView {
    pub readings: Seq<ReadingView>,
    pub errors: Seq<DecodeErrorView>,
}

/// The outcome of a decode run: the readings in stream order, and what
/// stopped the run, if anything did.
#[derive(Debug, PartialEq, Eq)]
pub struct Decoded {
    pub readings: Vec<DecodedReading>,
    pub errors: Vec<DecodeError>,
}

/// The mathematical content of a list of readings.
pub open spec fn reading_views(readings: Seq<DecodedReading>) -> Seq<ReadingView> {
    readings.map_values(|reading: DecodedReading| reading@)
}

/// The mathematical content of a list of errors.
pub open spec fn error_views(errors: Seq<DecodeError>) -> Seq<DecodeErrorView> {
    errors.map_values(|error: DecodeError| error@)
}

impl View for Decoded {
    type V = DecodedView;

    open spec fn view(&self) -> DecodedView {
        DecodedView {
            readings: reading_views(self.readings@),
            errors: error_views(self.errors@),
        }
    }
}

/// What the record at `cursor` comes to: a reading and the offset of the
/// next record, or the error that stops the run.
pub enum RecordOutcome {
    Reading { reading: ReadingView, next: int },
    Failure { error: DecodeErrorView },
}

/// Number of payload bytes the stream holds for the record at `cursor`:
/// what is left behind the record's header, none if the header itself is
/// cut short.
pub open spec fn payload_available(bytes: Seq<u8>, cursor: int) -> nat {
    if cursor + HEADER_LEN <= bytes.len() {
        (bytes.len() - cursor - HEADER_LEN) as nat
    } else {
        0
    }
}

/// Decodes the one record that starts at `cursor`.
///
/// The type code is looked up first. Without a descriptor the record fails
/// as unknown, whatever follows. With one, the record fails as truncated
/// unless the stream holds the header and the whole payload; else the
/// payload is converted.
pub open spec fn decode_record(
    schema: Map<u8, DescriptorView>,
    bytes: Seq<u8>,
    cursor: int,
) -> RecordOutcome
    recommends
        0 <= cursor < bytes.len(),
{
    let type_code = bytes[cursor];
    if !schema.contains_key(type_code) {
        RecordOutcome::Failure {
            error: DecodeErrorView::UnknownFieldType { type_code, position: cursor as nat },
        }
    } else {
        let descriptor = schema[type_code];
        let start = cursor + HEADER_LEN;
        let end = start + descriptor.byte_width;
        if end > bytes.len() {
            RecordOutcome::Failure {
                error: DecodeErrorView::TruncatedPayload {
                    name: descriptor.name,
                    required: descriptor.byte_width,
                    available: payload_available(bytes, cursor),
                },
            }
        } else {
            RecordOutcome::Reading {
                reading: ReadingView {
                    name: descriptor.name,
                    channel: bytes[cursor + CHANNEL_OFFSET],
                    value: scaled_of(
                        bytes.subrange(start, end),
                        descriptor.signed,
                        descriptor.divisor,
                    ),
                },
                next: end,
            }
        }
    }
}

/// Decodes the records from `cursor` to the end of the stream, or to the
/// first record that fails.
pub open spec fn decode_from(
    schema: Map<u8, DescriptorView>,
    bytes: Seq<u8>,
    cursor: int,
) -> DecodedView
    decreases bytes.len() - cursor,
{
    if cursor < 0 || cursor >= bytes.len() {
        DecodedView { readings: Seq::empty(), errors: Seq::empty() }
    } else {
        match decode_record(schema, bytes, cursor) {
            RecordOutcome::Failure { error } => DecodedView {
                readings: Seq::empty(),
                errors: seq![error],
            },
            RecordOutcome::Reading { reading, next } => {
                let rest = decode_from(schema, bytes, next);
                DecodedView { readings: seq![reading] + rest.readings, errors: rest.errors }
            },
        }
    }
}

/// What decoding a whole stream gives.
pub open spec fn decoding_of(schema: Map<u8, DescriptorView>, bytes: Seq<u8>) -> DecodedView {
    decode_from(schema, bytes, 0)
}

/// Decodes a stream of records into readings.
///
/// Records are taken in order until the stream is used up or one of them
/// fails. A failure ends the run: the readings before it are kept, the
/// failing record gives no reading, and its error is the one entry of
/// `errors`. On a clean run `errors` is empty.
pub fn decode(schema: &Schema, bytes: &[u8]) -> (decoded: Decoded)
    ensures
        decoded@ == decoding_of(schema@, bytes@),
        decoded.errors@.len() <= 1,
{
    proof {
        lemma_at_most_one_error(schema@, bytes@, 0);
    }
    let mut readings: Vec<DecodedReading> = Vec::new();
    let mut errors: Vec<DecodeError> = Vec::new();
    let mut cursor: usize = 0;
    while cursor < bytes.len()
        invariant
            cursor <= bytes@.len(),
            errors@.len() == 0,
            decoding_of(schema@, bytes@).readings == reading_views(readings@) + decode_from(
                schema@,
                bytes@,
                cursor as int,
            ).readings,
            decoding_of(schema@, bytes@).errors == decode_from(
                schema@,
                bytes@,
                cursor as int,
            ).errors,
        decreases bytes@.len() - cursor,
    {
        let type_code = bytes[cursor];
        let remaining = bytes.len() - cursor;
        let available = if remaining >= HEADER_LEN {
            remaining - HEADER_LEN
        } else {
            0
        };
        match schema.lookup(type_code) {
            None => {
                errors.push(DecodeError::UnknownFieldType { type_code, position: cursor });
                proof {
                    assert(error_views(errors@) == seq![errors@[0]@]);
                }
                return Decoded { readings, errors };
            },
            Some(descriptor) => {
                if available < descriptor.byte_width {
                    errors.push(
                        DecodeError::TruncatedPayload {
                            name: descriptor.name.clone(),
                            required: descriptor.byte_width,
                            available,
                        },
                    );
                    proof {
                        assert(error_views(errors@) == seq![errors@[0]@]);
                    }
                    return Decoded { readings, errors };
                }
                let start = cursor + HEADER_LEN;
                let end = start + descriptor.byte_width;
                let reading = DecodedReading {
                    name: descriptor.name.clone(),
                    channel: bytes[cursor + CHANNEL_OFFSET],
                    value: array_to_decimal(
                        slice_subrange(bytes, start, end),
                        descriptor.signed,
                        descriptor.divisor,
                    ),
                };
                proof {
                    let rest = decode_from(schema@, bytes@, end as int).readings;
                    assert(reading_views(readings@.push(reading)) == reading_views(
                        readings@,
                    ).push(reading@));
                    assert(reading_views(readings@).push(reading@) + rest == reading_views(
                        readings@,
                    ) + (seq![reading@] + rest));
                }
                readings.push(reading);
                cursor = end;
            },
        }
    }
    proof {
        assert(error_views(errors@) == Seq::<DecodeErrorView>::empty());
    }
    Decoded { readings, errors }
}

/// A run reports at most one error: the one that stopped it.
pub proof fn lemma_at_most_one_error(schema: Map<u8, DescriptorView>, bytes: Seq<u8>, cursor: int)
    ensures
        decode_from(schema, bytes, cursor).errors.len() <= 1,
    decreases bytes.len() - cursor,
{
    if 0 <= cursor < bytes.len() {
        if let RecordOutcome::Reading { next, .. } = decode_record(schema, bytes, cursor) {
            lemma_at_most_one_error(schema, bytes, next);
        }
    }
}

/// Decoding keeps no state between runs: two results of decoding the same
/// bytes with the same schema say the same.
pub proof fn lemma_decode_is_repeatable(
    schema: Schema,
    bytes: Seq<u8>,
    first: Decoded,
    second: Decoded,
)
    requires
        first@ == decoding_of(schema@, bytes),
        second@ == decoding_of(schema@, bytes),
    ensures
        first@ == second@,
{
}

/// Bytes behind a stream that decodes cleanly do not change what the stream
/// itself gives: from any record boundary of `head`, the longer stream
/// yields the readings of `head` and then whatever the records from the end
/// of `head` on come to.
pub proof fn lemma_decode_after_clean_prefix(
    schema: Map<u8, DescriptorView>,
    head: Seq<u8>,
    tail: Seq<u8>,
    cursor: int,
)
    requires
        0 <= cursor <= head.len(),
        decode_from(schema, head, cursor).errors.len() == 0,
    ensures
        decode_from(schema, head + tail, cursor).readings == decode_from(
            schema,
            head,
            cursor,
        ).readings + decode_from(schema, head + tail, head.len() as int).readings,
        decode_from(schema, head + tail, cursor).errors == decode_from(
            schema,
            head + tail,
            head.len() as int,
        ).errors,
    decreases head.len() - cursor,
{
    let whole = head + tail;
    let behind = decode_from(schema, whole, head.len() as int).readings;
    if cursor < head.len() {
        match decode_record(schema, head, cursor) {
            RecordOutcome::Reading { reading, next } => {
                assert(whole.subrange(cursor + HEADER_LEN, next) == head.subrange(
                    cursor + HEADER_LEN,
                    next,
                ));
                assert(decode_record(schema, whole, cursor) == decode_record(
                    schema,
                    head,
                    cursor,
                ));
                lemma_decode_after_clean_prefix(schema, head, tail, next);
                let rest = decode_from(schema, head, next).readings;
                assert(seq![reading] + (rest + behind) == (seq![reading] + rest) + behind);
            },
            RecordOutcome::Failure { error } => {
                assert(decode_from(schema, head, cursor).errors == seq![error]);
            },
        }
    }
}

/// A stream that ends inside a record, be it in the header or in the
/// payload, gives every reading before that record, no reading for it, and
/// the one error `TruncatedPayload`.
pub proof fn lemma_truncated_record_ends_run(
    schema: Map<u8, DescriptorView>,
    head: Seq<u8>,
    tail: Seq<u8>,
)
    requires
        decoding_of(schema, head).errors.len() == 0,
        tail.len() > 0,
        schema.contains_key(tail[0]),
        tail.len() < HEADER_LEN + schema[tail[0]].byte_width,
    ensures
        decoding_of(schema, head + tail) == (DecodedView {
            readings: decoding_of(schema, head).readings,
            errors: seq![
                DecodeErrorView::TruncatedPayload {
                    name: schema[tail[0]].name,
                    required: schema[tail[0]].byte_width,
                    available: payload_available(tail, 0),
                },
            ],
        }),
{
    lemma_decode_after_clean_prefix(schema, head, tail, 0);
    assert((head + tail)[head.len() as int] == tail[0]);
}

/// A type code without a schema entry ends the run where it stands,
/// whatever bytes follow: every reading before it is kept, and the one error
/// `UnknownFieldType` names the code and the offset it was found at.
pub proof fn lemma_unknown_type_ends_run(
    schema: Map<u8, DescriptorView>,
    head: Seq<u8>,
    tail: Seq<u8>,
)
    requires
        decoding_of(schema, head).errors.len() == 0,
        tail.len() > 0,
        !schema.contains_key(tail[0]),
    ensures
        decoding_of(schema, head + tail) == (DecodedView {
            readings: decoding_of(schema, head).readings,
            errors: seq![
                DecodeErrorView::UnknownFieldType { type_code: tail[0], position: head.len() },
            ],
        }),
{
    lemma_decode_after_clean_prefix(schema, head, tail, 0);
    assert((head + tail)[head.len() as int] == tail[0]);
}

} // verus!
