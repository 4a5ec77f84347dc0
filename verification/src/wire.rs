//! The bytes of a profile in the protobuf wire format.
//!
//! A message is the run of its fields, in the order of their numbers. A field
//! that holds a number starts with a key, which is the number of the field
//! and the kind of its value, and goes on with the value as a varint; a field
//! whose value is zero is left out. A field that holds bytes (a string, a
//! nested message or a packed run of numbers) starts with its key and the
//! number of the bytes.

use vstd::prelude::*;
use vstd::string::StringSliceAdditionalSpecFns;
use protobuf::CodedOutputStream;
use crate::proto::Function;
use crate::proto::Label;
use crate::proto::Line;
use crate::proto::Location;
use crate::proto::LocationView;
use crate::proto::Profile;
use crate::proto::ProfileView;
use crate::proto::Sample;
use crate::proto::SampleView;
use crate::proto::ValueType;

verus! {

/// The largest number that a field can have.
pub const MAX_FIELD_NUMBER: u32 = 0x1fff_ffff;

/// The largest number of bytes that the value of one field can have.
pub const MAX_PAYLOAD: usize = 0xffff_ffff;

/// The kind of a value that is a varint.
pub const VARINT: u32 = 0;

/// The kind of a value that is a run of bytes with its length in front.
pub const LENGTH_DELIMITED: u32 = 2;

/// A number as a varint: its digits in base 128, the lowest first, each but
/// the last with the high bit set.
pub open spec fn varint(value: u64) -> Seq<u8>
    decreases value,
{
    if value < 128 {
        seq![value as u8]
    } else {
        seq![(value % 128 + 128) as u8] + varint(value / 128)
    }
}

/// The key of a field: its number and the kind of its value, as a varint.
pub open spec fn key(field_number: u32, kind: u32) -> Seq<u8> {
    varint((field_number * 8 + kind) as u64)
}

/// A signed number as the unsigned number with the same 64 bits.
pub open spec fn same_bits(value: i64) -> u64 {
    if value >= 0 {
        value as u64
    } else {
        (value + 0x1_0000_0000_0000_0000) as u64
    }
}

/// A field that holds an unsigned number.
pub open spec fn uint64_field(field_number: u32, value: u64) -> Seq<u8> {
    key(field_number, VARINT) + varint(value)
}

/// A field that holds a signed number.
pub open spec fn int64_field(field_number: u32, value: i64) -> Seq<u8> {
    key(field_number, VARINT) + varint(same_bits(value))
}

/// A field that holds bytes.
pub open spec fn bytes_field(field_number: u32, payload: Seq<u8>) -> Seq<u8> {
    key(field_number, LENGTH_DELIMITED) + varint(payload.len() as u64) + payload
}

/// A field that holds an unsigned number and is left out when that is zero.
pub open spec fn optional_uint64(field_number: u32, value: u64) -> Seq<u8> {
    if value == 0 {
        Seq::empty()
    } else {
        uint64_field(field_number, value)
    }
}

/// A field that holds a signed number and is left out when that is zero.
pub open spec fn optional_int64(field_number: u32, value: i64) -> Seq<u8> {
    if value == 0 {
        Seq::empty()
    } else {
        int64_field(field_number, value)
    }
}

/// A run of unsigned numbers, each as a varint.
pub open spec fn packed_uint64(values: Seq<u64>) -> Seq<u8>
    decreases values.len(),
{
    if values.len() == 0 {
        Seq::empty()
    } else {
        packed_uint64(values.drop_last()) + varint(values.last())
    }
}

/// A run of signed numbers, each as a varint.
pub open spec fn packed_int64(values: Seq<i64>) -> Seq<u8>
    decreases values.len(),
{
    if values.len() == 0 {
        Seq::empty()
    } else {
        packed_int64(values.drop_last()) + varint(same_bits(values.last()))
    }
}

/// A field that holds a packed run of numbers and is left out when the run
/// is empty.
pub open spec fn packed_field(field_number: u32, payload: Seq<u8>) -> Seq<u8> {
    if payload.len() == 0 {
        Seq::empty()
    } else {
        bytes_field(field_number, payload)
    }
}

/// A field that occurs once for each of `payloads`, in their order.
pub open spec fn repeated_field(field_number: u32, payloads: Seq<Seq<u8>>) -> Seq<u8>
    decreases payloads.len(),
{
    if payloads.len() == 0 {
        Seq::empty()
    } else {
        repeated_field(field_number, payloads.drop_last()) + bytes_field(
            field_number,
            payloads.last(),
        )
    }
}

/// Whether each of `payloads` is short enough for the value of a field.
pub open spec fn payloads_fit(payloads: Seq<Seq<u8>>) -> bool {
    forall|i: int| 0 <= i < payloads.len() ==> (#[trigger] payloads[i]).len() <= MAX_PAYLOAD
}

/// The bytes of a `ValueType`.
pub open spec fn wire_value_type(value: ValueType) -> Seq<u8> {
    optional_int64(1, value.type_) + optional_int64(2, value.unit)
}

/// The bytes of a `Label`.
pub open spec fn wire_label(label: Label) -> Seq<u8> {
    optional_int64(1, label.key) + optional_int64(2, label.str)
}

/// The bytes of a `Line`.
pub open spec fn wire_line(line: Line) -> Seq<u8> {
    optional_uint64(1, line.function_id) + optional_int64(2, line.line)
}

/// The bytes of a `Function`.
pub open spec fn wire_function(function: Function) -> Seq<u8> {
    optional_uint64(1, function.id) + optional_int64(2, function.name) + optional_int64(
        3,
        function.system_name,
    ) + optional_int64(4, function.filename) + optional_int64(5, function.start_line)
}

/// The bytes of each line of a location.
pub open spec fn wire_lines(lines: Seq<Line>) -> Seq<Seq<u8>> {
    Seq::new(lines.len(), |i: int| wire_line(lines[i]))
}

/// The bytes of a `Location`.
pub open spec fn wire_location(location: LocationView) -> Seq<u8> {
    optional_uint64(1, location.id) + optional_uint64(3, location.address) + repeated_field(
        4,
        wire_lines(location.line),
    )
}

/// The bytes of each label of a sample.
pub open spec fn wire_labels(labels: Seq<Label>) -> Seq<Seq<u8>> {
    Seq::new(labels.len(), |i: int| wire_label(labels[i]))
}

/// The bytes of a `Sample`.
pub open spec fn wire_sample(sample: SampleView) -> Seq<u8> {
    packed_field(1, packed_uint64(sample.location_id)) + packed_field(
        2,
        packed_int64(sample.value),
    ) + repeated_field(3, wire_labels(sample.label))
}

/// Whether the parts of a location are short enough to be written.
pub open spec fn location_fits(location: LocationView) -> bool {
    payloads_fit(wire_lines(location.line))
}

/// Whether the parts of a sample are short enough to be written.
pub open spec fn sample_fits(sample: SampleView) -> bool {
    &&& packed_uint64(sample.location_id).len() <= MAX_PAYLOAD
    &&& packed_int64(sample.value).len() <= MAX_PAYLOAD
    &&& payloads_fit(wire_labels(sample.label))
}

/// The bytes of each sample type of a profile.
pub open spec fn wire_value_types(values: Seq<ValueType>) -> Seq<Seq<u8>> {
    Seq::new(values.len(), |i: int| wire_value_type(values[i]))
}

/// The bytes of each sample of a profile.
pub open spec fn wire_samples(samples: Seq<SampleView>) -> Seq<Seq<u8>> {
    Seq::new(samples.len(), |i: int| wire_sample(samples[i]))
}

/// The bytes of each location of a profile.
pub open spec fn wire_locations(locations: Seq<LocationView>) -> Seq<Seq<u8>> {
    Seq::new(locations.len(), |i: int| wire_location(locations[i]))
}

/// The bytes of each function of a profile.
pub open spec fn wire_functions(functions: Seq<Function>) -> Seq<Seq<u8>> {
    Seq::new(functions.len(), |i: int| wire_function(functions[i]))
}

/// The bytes of each string of a profile: its characters in UTF-8.
pub open spec fn wire_strings(strings: Seq<Seq<char>>) -> Seq<Seq<u8>> {
    Seq::new(strings.len(), |i: int| vstd::utf8::encode_utf8(strings[i]))
}

/// The bytes of a `Profile`.
pub open spec fn wire_profile(profile: ProfileView) -> Seq<u8> {
    repeated_field(1, wire_value_types(profile.sample_type)) + repeated_field(
        2,
        wire_samples(profile.sample),
    ) + repeated_field(4, wire_locations(profile.location)) + repeated_field(
        5,
        wire_functions(profile.function),
    ) + repeated_field(6, wire_strings(profile.string_table))
}

/// Whether every part of a profile is short enough to be written.
pub open spec fn profile_fits(profile: ProfileView) -> bool {
    &&& payloads_fit(wire_value_types(profile.sample_type))
    &&& forall|i: int| 0 <= i < profile.sample.len() ==> sample_fits(#[trigger] profile.sample[i])
    &&& payloads_fit(wire_samples(profile.sample))
    &&& forall|i: int|
        0 <= i < profile.location.len() ==> location_fits(#[trigger] profile.location[i])
    &&& payloads_fit(wire_locations(profile.location))
    &&& payloads_fit(wire_functions(profile.function))
    &&& payloads_fit(wire_strings(profile.string_table))
}

/// Appends to `out` what `CodedOutputStream::write_raw_varint64` writes for
/// `value`: the value as a varint. A stream that writes to a vector, as this
/// one and those of the next three functions do, reports no error.
#[verifier::external_body]
fn write_raw_varint64(out: &mut Vec<u8>, value: u64)
    ensures
        final(out)@ == old(out)@ + varint(value),
{
    let mut stream = CodedOutputStream::vec(out);
    stream.write_raw_varint64(value).unwrap();
    stream.flush().unwrap();
}

/// Appends to `out` what `CodedOutputStream::write_uint64` writes: the key
/// of the field, for a varint, and `value` as a varint.
#[verifier::external_body]
fn write_uint64(out: &mut Vec<u8>, field_number: u32, value: u64)
    requires
        0 < field_number <= MAX_FIELD_NUMBER,
    ensures
        final(out)@ == old(out)@ + uint64_field(field_number, value),
{
    let mut stream = CodedOutputStream::vec(out);
    stream.write_uint64(field_number, value).unwrap();
    stream.flush().unwrap();
}

/// Appends to `out` what `CodedOutputStream::write_int64` writes: the key of
/// the field, for a varint, and the 64 bits of `value` as a varint.
#[verifier::external_body]
fn write_int64(out: &mut Vec<u8>, field_number: u32, value: i64)
    requires
        0 < field_number <= MAX_FIELD_NUMBER,
    ensures
        final(out)@ == old(out)@ + int64_field(field_number, value),
{
    let mut stream = CodedOutputStream::vec(out);
    stream.write_int64(field_number, value).unwrap();
    stream.flush().unwrap();
}

/// Appends to `out` what `CodedOutputStream::write_bytes` writes: the key of
/// the field, for bytes with their length, the number of the bytes as a
/// varint, and the bytes. The number is written in 32 bits, so there may not
/// be more bytes than these hold.
#[verifier::external_body]
fn write_bytes(out: &mut Vec<u8>, field_number: u32, bytes: &[u8])
    requires
        0 < field_number <= MAX_FIELD_NUMBER,
        bytes@.len() <= MAX_PAYLOAD,
    ensures
        final(out)@ == old(out)@ + bytes_field(field_number, bytes@),
{
    let mut stream = CodedOutputStream::vec(out);
    stream.write_bytes(field_number, bytes).unwrap();
    stream.flush().unwrap();
}

/// Appends a field that holds an unsigned number, unless that is zero.
fn put_uint64(out: &mut Vec<u8>, field_number: u32, value: u64)
    requires
        0 < field_number <= MAX_FIELD_NUMBER,
    ensures
        final(out)@ == old(out)@ + optional_uint64(field_number, value),
{
    if value != 0 {
        write_uint64(out, field_number, value);
    }
    assert(out@ =~= old(out)@ + optional_uint64(field_number, value));
}

/// Appends a field that holds a signed number, unless that is zero.
fn put_int64(out: &mut Vec<u8>, field_number: u32, value: i64)
    requires
        0 < field_number <= MAX_FIELD_NUMBER,
    ensures
        final(out)@ == old(out)@ + optional_int64(field_number, value),
{
    if value != 0 {
        write_int64(out, field_number, value);
    }
    assert(out@ =~= old(out)@ + optional_int64(field_number, value));
}

/// Appends a field that holds bytes, if they are not too many, and says
/// whether it did.
fn put_bytes(out: &mut Vec<u8>, field_number: u32, bytes: &[u8]) -> (done: bool)
    requires
        0 < field_number <= MAX_FIELD_NUMBER,
    ensures
        done == (bytes@.len() <= MAX_PAYLOAD),
        done ==> final(out)@ == old(out)@ + bytes_field(field_number, bytes@),
{
    if bytes.len() > MAX_PAYLOAD {
        return false;
    }
    write_bytes(out, field_number, bytes);
    true
}

/// Appends a field that holds a packed run of numbers given by their bytes,
/// unless the run is empty, and says whether the bytes were not too many.
fn put_packed(out: &mut Vec<u8>, field_number: u32, payload: &[u8]) -> (done: bool)
    requires
        0 < field_number <= MAX_FIELD_NUMBER,
    ensures
        done == (payload@.len() <= MAX_PAYLOAD),
        done ==> final(out)@ == old(out)@ + packed_field(field_number, payload@),
{
    if payload.len() == 0 {
        assert(out@ =~= old(out)@ + packed_field(field_number, payload@));
        return true;
    }
    put_bytes(out, field_number, payload)
}

/// The bytes of a run of unsigned numbers.
fn pack_uint64(values: &Vec<u64>) -> (payload: Vec<u8>)
    ensures
        payload@ == packed_uint64(values@),
{
    let mut payload: Vec<u8> = Vec::new();
    let mut i: usize = 0;
    while i < values.len()
        invariant
            i <= values.len(),
            payload@ == packed_uint64(values@.take(i as int)),
        decreases values.len() - i,
    {
        write_raw_varint64(&mut payload, values[i]);
        proof {
            assert(values@.take(i as int + 1).drop_last() =~= values@.take(i as int));
        }
        i = i + 1;
    }
    assert(values@.take(i as int) =~= values@);
    payload
}

/// The unsigned number with the 64 bits of `value`.
fn to_bits(value: i64) -> (bits: u64)
    ensures
        bits == same_bits(value),
{
    if value >= 0 {
        value as u64
    } else {
        // The two numbers differ by 2^64; add it in two halves.
        let above: i64 = value + i64::MAX + 1;
        above as u64 + 0x8000_0000_0000_0000
    }
}

/// The bytes of a run of signed numbers.
fn pack_int64(values: &Vec<i64>) -> (payload: Vec<u8>)
    ensures
        payload@ == packed_int64(values@),
{
    let mut payload: Vec<u8> = Vec::new();
    let mut i: usize = 0;
    while i < values.len()
        invariant
            i <= values.len(),
            payload@ == packed_int64(values@.take(i as int)),
        decreases values.len() - i,
    {
        write_raw_varint64(&mut payload, to_bits(values[i]));
        proof {
            assert(values@.take(i as int + 1).drop_last() =~= values@.take(i as int));
        }
        i = i + 1;
    }
    assert(values@.take(i as int) =~= values@);
    payload
}

/// A message of the profile format.
pub trait Message {
    /// The bytes of the message.
    spec fn wire(&self) -> Seq<u8>;

    /// Whether the parts of the message are short enough to be written.
    spec fn fits(&self) -> bool;

    /// The bytes of the message, if its parts are short enough to be written.
    fn encode(&self) -> (bytes: Option<Vec<u8>>)
        ensures
            bytes is Some <==> self.fits(),
            bytes matches Some(written) ==> written@ == self.wire(),
    ;
}

/// The bytes of each of `messages`.
pub open spec fn wire_messages<M: Message>(messages: Seq<M>) -> Seq<Seq<u8>> {
    Seq::new(messages.len(), |i: int| messages[i].wire())
}

/// Whether each of `messages` can be written as the value of a field.
pub open spec fn messages_fit<M: Message>(messages: Seq<M>) -> bool {
    &&& forall|i: int| 0 <= i < messages.len() ==> (#[trigger] messages[i]).fits()
    &&& payloads_fit(wire_messages(messages))
}

/// Appends one field for each of `messages`, and says whether all of them
/// could be written.
fn put_messages<M: Message>(out: &mut Vec<u8>, field_number: u32, messages: &Vec<M>) -> (done: bool)
    requires
        0 < field_number <= MAX_FIELD_NUMBER,
    ensures
        done == messages_fit(messages@),
        done ==> final(out)@ == old(out)@ + repeated_field(field_number, wire_messages(messages@)),
{
    let ghost payloads = wire_messages(messages@);
    let mut i: usize = 0;
    while i < messages.len()
        invariant
            i <= messages.len(),
            0 < field_number <= MAX_FIELD_NUMBER,
            payloads == wire_messages(messages@),
            out@ == old(out)@ + repeated_field(field_number, payloads.take(i as int)),
            forall|k: int| 0 <= k < i ==> (#[trigger] messages@[k]).fits(),
            forall|k: int| 0 <= k < i ==> (#[trigger] payloads[k]).len() <= MAX_PAYLOAD,
        decreases messages.len() - i,
    {
        let written = match messages[i].encode() {
            Some(bytes) => put_bytes(out, field_number, bytes.as_slice()),
            None => false,
        };
        if !written {
            proof {
                if messages@[i as int].fits() {
                    assert(payloads[i as int].len() > MAX_PAYLOAD);
                }
            }
            return false;
        }
        proof {
            let before = repeated_field(field_number, payloads.take(i as int));
            let field = bytes_field(field_number, payloads[i as int]);
            assert(payloads.take(i as int + 1).drop_last() =~= payloads.take(i as int));
            assert(old(out)@ + before + field =~= old(out)@ + (before + field));
        }
        i = i + 1;
    }
    assert(payloads.take(i as int) =~= payloads);
    true
}

impl Message for ValueType {
    open spec fn wire(&self) -> Seq<u8> {
        wire_value_type(*self)
    }

    open spec fn fits(&self) -> bool {
        true
    }

    fn encode(&self) -> (bytes: Option<Vec<u8>>) {
        let mut out: Vec<u8> = Vec::new();
        put_int64(&mut out, 1, self.type_);
        put_int64(&mut out, 2, self.unit);
        assert(out@ =~= self.wire());
        Some(out)
    }
}

impl Message for Label {
    open spec fn wire(&self) -> Seq<u8> {
        wire_label(*self)
    }

    open spec fn fits(&self) -> bool {
        true
    }

    fn encode(&self) -> (bytes: Option<Vec<u8>>) {
        let mut out: Vec<u8> = Vec::new();
        put_int64(&mut out, 1, self.key);
        put_int64(&mut out, 2, self.str);
        assert(out@ =~= self.wire());
        Some(out)
    }
}

impl Message for Line {
    open spec fn wire(&self) -> Seq<u8> {
        wire_line(*self)
    }

    open spec fn fits(&self) -> bool {
        true
    }

    fn encode(&self) -> (bytes: Option<Vec<u8>>) {
        let mut out: Vec<u8> = Vec::new();
        put_uint64(&mut out, 1, self.function_id);
        put_int64(&mut out, 2, self.line);
        assert(out@ =~= self.wire());
        Some(out)
    }
}

impl Message for Function {
    open spec fn wire(&self) -> Seq<u8> {
        wire_function(*self)
    }

    open spec fn fits(&self) -> bool {
        true
    }

    fn encode(&self) -> (bytes: Option<Vec<u8>>) {
        let mut out: Vec<u8> = Vec::new();
        put_uint64(&mut out, 1, self.id);
        put_int64(&mut out, 2, self.name);
        put_int64(&mut out, 3, self.system_name);
        put_int64(&mut out, 4, self.filename);
        put_int64(&mut out, 5, self.start_line);
        assert(out@ =~= self.wire());
        Some(out)
    }
}

impl Message for Location {
    open spec fn wire(&self) -> Seq<u8> {
        wire_location(self@)
    }

    open spec fn fits(&self) -> bool {
        location_fits(self@)
    }

    fn encode(&self) -> (bytes: Option<Vec<u8>>) {
        let mut out: Vec<u8> = Vec::new();
        put_uint64(&mut out, 1, self.id);
        put_uint64(&mut out, 3, self.address);
        assert(wire_messages(self.line@) =~= wire_lines(self@.line));
        if !put_messages(&mut out, 4, &self.line) {
            return None;
        }
        assert(out@ =~= self.wire());
        Some(out)
    }
}

impl Message for Sample {
    open spec fn wire(&self) -> Seq<u8> {
        wire_sample(self@)
    }

    open spec fn fits(&self) -> bool {
        sample_fits(self@)
    }

    fn encode(&self) -> (bytes: Option<Vec<u8>>) {
        let mut out: Vec<u8> = Vec::new();
        let locations = pack_uint64(&self.location_id);
        if !put_packed(&mut out, 1, locations.as_slice()) {
            return None;
        }
        let values = pack_int64(&self.value);
        if !put_packed(&mut out, 2, values.as_slice()) {
            return None;
        }
        assert(wire_messages(self.label@) =~= wire_labels(self@.label));
        if !put_messages(&mut out, 3, &self.label) {
            return None;
        }
        assert(out@ =~= self.wire());
        Some(out)
    }
}

/// Appends one field for each of `strings`, and says whether all of them
/// could be written.
fn put_strings(out: &mut Vec<u8>, field_number: u32, strings: &Vec<String>) -> (done: bool)
    requires
        0 < field_number <= MAX_FIELD_NUMBER,
    ensures
        done == payloads_fit(wire_strings(Seq::new(strings@.len(), |i: int| strings@[i]@))),
        done ==> final(out)@ == old(out)@ + repeated_field(
            field_number,
            wire_strings(Seq::new(strings@.len(), |i: int| strings@[i]@)),
        ),
{
    let ghost payloads = wire_strings(Seq::new(strings@.len(), |i: int| strings@[i]@));
    let mut i: usize = 0;
    while i < strings.len()
        invariant
            i <= strings.len(),
            0 < field_number <= MAX_FIELD_NUMBER,
            payloads == wire_strings(Seq::new(strings@.len(), |i: int| strings@[i]@)),
            out@ == old(out)@ + repeated_field(field_number, payloads.take(i as int)),
            forall|k: int| 0 <= k < i ==> (#[trigger] payloads[k]).len() <= MAX_PAYLOAD,
        decreases strings.len() - i,
    {
        let text = strings[i].as_str();
        assert(text.spec_bytes() == payloads[i as int]);
        if !put_bytes(out, field_number, text.as_bytes()) {
            return false;
        }
        proof {
            let before = repeated_field(field_number, payloads.take(i as int));
            let field = bytes_field(field_number, payloads[i as int]);
            assert(payloads.take(i as int + 1).drop_last() =~= payloads.take(i as int));
            assert(old(out)@ + before + field =~= old(out)@ + (before + field));
        }
        i = i + 1;
    }
    assert(payloads.take(i as int) =~= payloads);
    true
}

impl Profile {
    /// The bytes of the profile in the protobuf wire format, if every part of
    /// it is short enough to be written.
    pub fn write_to_bytes(&self) -> (bytes: Option<Vec<u8>>)
        ensures
            bytes is Some <==> profile_fits(self@),
            bytes matches Some(written) ==> written@ == wire_profile(self@),
    {
        let mut out: Vec<u8> = Vec::new();
        proof {
            assert(wire_messages(self.sample_type@) =~= wire_value_types(self@.sample_type));
            assert(wire_messages(self.sample@) =~= wire_samples(self@.sample));
            assert(wire_messages(self.location@) =~= wire_locations(self@.location));
            assert(wire_messages(self.function@) =~= wire_functions(self@.function));
            assert(Seq::new(self.string_table@.len(), |i: int| self.string_table@[i]@)
                =~= self@.string_table);
            assert forall|i: int| 0 <= i < self.sample@.len() implies (#[trigger] self.sample@[i]).fits()
                == sample_fits(self@.sample[i]) by {}
            assert forall|i: int| 0 <= i < self.location@.len() implies (
            #[trigger] self.location@[i]).fits() == location_fits(self@.location[i]) by {}
        }
        if !put_messages(&mut out, 1, &self.sample_type) {
            return None;
        }
        if !put_messages(&mut out, 2, &self.sample) {
            return None;
        }
        if !put_messages(&mut out, 4, &self.location) {
            return None;
        }
        if !put_messages(&mut out, 5, &self.function) {
            return None;
        }
        if !put_strings(&mut out, 6, &self.string_table) {
            return None;
        }
        assert(out@ =~= wire_profile(self@));
        Some(out)
    }
}

} // verus!
