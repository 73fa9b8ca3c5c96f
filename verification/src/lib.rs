//! Decoder for packed telemetry payloads.
//!
//! A payload is a flat run of records without length prefixes. Each record
//! starts with a type code, a reserved byte and a channel number; the bytes
//! that follow are the field's raw big-endian integer, whose width,
//! signedness and scaling divisor are looked up in a [`Schema`] by the type
//! code.
//!
//! [`build_schema`] makes the schema and [`decode`] walks a payload with it.
//! A reading is kept exact, as a raw integer beside its divisor (see
//! [`Scaled`]); dividing the one by the other is left to the caller.

pub mod decoder;
pub mod schema;
pub mod value;

pub use decoder::{
    decode, decode_from, decode_record, decoding_of, payload_available, DecodeError,
    DecodeErrorView, Decoded, DecodedReading, DecodedView, ReadingView, RecordOutcome,
    CHANNEL_OFFSET, HEADER_LEN,
};
pub use schema::{
    all_valid, build_schema, table_of, DescriptorView, FieldDescriptor, InvalidDescriptor, Schema,
    SchemaEntry,
};
pub use value::{array_to_decimal, be_value, edge, raw_value, scaled_of, Scaled, ScaledView};
