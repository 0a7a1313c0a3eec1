//! The protobuf descriptor of `matrix.proto`, the message that carries a
//! tensor between processes: `Mat { int32 width = 1; int32 height = 2;
//! repeated float data = 3; }`.
use vstd::prelude::*;
use protobuf::descriptor::FileDescriptorProto;
use protobuf::reflect::FileDescriptor;

verus! {

#[verifier::external_type_specification]
#[verifier::external_body]
pub struct ExFileDescriptorProto(FileDescriptorProto);

#[verifier::external_type_specification]
#[verifier::external_body]
pub struct ExFileDescriptor(FileDescriptor);

/// Whether protobuf reads all of `b` as one `FileDescriptorProto`.
pub uninterp spec fn parses_as_file_descriptor(b: Seq<u8>) -> bool;

/// Relies on protobuf's `Message::parse_from_bytes` for `FileDescriptorProto`:
/// it succeeds or fails on the bytes alone.
#[verifier::external_body]
fn parse_file_descriptor_proto(b: &[u8]) -> (r: Option<FileDescriptorProto>)
    ensures
        r is Some == parses_as_file_descriptor(b@),
{
    <FileDescriptorProto as protobuf::Message>::parse_from_bytes(b).ok()
}

/// Relies on protobuf's `Message::parse_from_bytes` for `FileDescriptorProto`
/// and on `FileDescriptor::new_dynamic`, called with no dependencies, to build
/// the reflection view of `matrix.proto`. Only those bytes are accepted: they
/// declare no enum, so the lookups in which `new_dynamic` can panic are never
/// reached.
#[verifier::external_body]
fn build_matrix_file_descriptor(b: &[u8]) -> (r: Option<FileDescriptor>)
    requires
        b@ == matrix_proto_bytes(),
    ensures
        r is Some ==> parses_as_file_descriptor(b@),
{
    let proto = <FileDescriptorProto as protobuf::Message>::parse_from_bytes(b).ok()?;
    FileDescriptor::new_dynamic(proto, &[]).ok()
}

/// The serialized `FileDescriptorProto` of `matrix.proto`, source locations included.
pub open spec fn matrix_proto_bytes() -> Seq<u8> {
    seq![
        10, 12, 109, 97, 116, 114, 105, 120, 46, 112, 114, 111, 116, 111, 34, 71,
        10, 3, 77, 97, 116, 18, 20, 10, 5, 119, 105, 100, 116, 104, 24, 1,
        32, 1, 40, 5, 82, 5, 119, 105, 100, 116, 104, 18, 22, 10, 6, 104,
        101, 105, 103, 104, 116, 24, 2, 32, 1, 40, 5, 82, 6, 104, 101, 105,
        103, 104, 116, 18, 18, 10, 4, 100, 97, 116, 97, 24, 3, 32, 3, 40,
        2, 82, 4, 100, 97, 116, 97, 74, 221, 1, 10, 6, 18, 4, 0, 0,
        6, 1, 10, 8, 10, 1, 12, 18, 3, 0, 0, 18, 10, 10, 10, 2,
        4, 0, 18, 4, 2, 0, 6, 1, 10, 10, 10, 3, 4, 0, 1, 18,
        3, 2, 8, 11, 10, 11, 10, 4, 4, 0, 2, 0, 18, 3, 3, 2,
        18, 10, 12, 10, 5, 4, 0, 2, 0, 5, 18, 3, 3, 2, 7, 10,
        12, 10, 5, 4, 0, 2, 0, 1, 18, 3, 3, 8, 13, 10, 12, 10,
        5, 4, 0, 2, 0, 3, 18, 3, 3, 16, 17, 10, 11, 10, 4, 4,
        0, 2, 1, 18, 3, 4, 2, 19, 10, 12, 10, 5, 4, 0, 2, 1,
        5, 18, 3, 4, 2, 7, 10, 12, 10, 5, 4, 0, 2, 1, 1, 18,
        3, 4, 8, 14, 10, 12, 10, 5, 4, 0, 2, 1, 3, 18, 3, 4,
        17, 18, 10, 11, 10, 4, 4, 0, 2, 2, 18, 3, 5, 2, 26, 10,
        12, 10, 5, 4, 0, 2, 2, 4, 18, 3, 5, 2, 10, 10, 12, 10,
        5, 4, 0, 2, 2, 5, 18, 3, 5, 11, 16, 10, 12, 10, 5, 4,
        0, 2, 2, 1, 18, 3, 5, 17, 21, 10, 12, 10, 5, 4, 0, 2,
        2, 3, 18, 3, 5, 24, 25, 98, 6, 112, 114, 111, 116, 111, 51,
    ]
}

/// The bytes of `matrix_proto_bytes`.
pub fn file_descriptor_proto_data() -> (r: Vec<u8>)
    ensures
        r@ == matrix_proto_bytes(),
{
    let r: Vec<u8> = vec![
        10, 12, 109, 97, 116, 114, 105, 120, 46, 112, 114, 111, 116, 111, 34, 71,
        10, 3, 77, 97, 116, 18, 20, 10, 5, 119, 105, 100, 116, 104, 24, 1,
        32, 1, 40, 5, 82, 5, 119, 105, 100, 116, 104, 18, 22, 10, 6, 104,
        101, 105, 103, 104, 116, 24, 2, 32, 1, 40, 5, 82, 6, 104, 101, 105,
        103, 104, 116, 18, 18, 10, 4, 100, 97, 116, 97, 24, 3, 32, 3, 40,
        2, 82, 4, 100, 97, 116, 97, 74, 221, 1, 10, 6, 18, 4, 0, 0,
        6, 1, 10, 8, 10, 1, 12, 18, 3, 0, 0, 18, 10, 10, 10, 2,
        4, 0, 18, 4, 2, 0, 6, 1, 10, 10, 10, 3, 4, 0, 1, 18,
        3, 2, 8, 11, 10, 11, 10, 4, 4, 0, 2, 0, 18, 3, 3, 2,
        18, 10, 12, 10, 5, 4, 0, 2, 0, 5, 18, 3, 3, 2, 7, 10,
        12, 10, 5, 4, 0, 2, 0, 1, 18, 3, 3, 8, 13, 10, 12, 10,
        5, 4, 0, 2, 0, 3, 18, 3, 3, 16, 17, 10, 11, 10, 4, 4,
        0, 2, 1, 18, 3, 4, 2, 19, 10, 12, 10, 5, 4, 0, 2, 1,
        5, 18, 3, 4, 2, 7, 10, 12, 10, 5, 4, 0, 2, 1, 1, 18,
        3, 4, 8, 14, 10, 12, 10, 5, 4, 0, 2, 1, 3, 18, 3, 4,
        17, 18, 10, 11, 10, 4, 4, 0, 2, 2, 18, 3, 5, 2, 26, 10,
        12, 10, 5, 4, 0, 2, 2, 4, 18, 3, 5, 2, 10, 10, 12, 10,
        5, 4, 0, 2, 2, 5, 18, 3, 5, 11, 16, 10, 12, 10, 5, 4,
        0, 2, 2, 1, 18, 3, 5, 17, 21, 10, 12, 10, 5, 4, 0, 2,
        2, 3, 18, 3, 5, 24, 25, 98, 6, 112, 114, 111, 116, 111, 51,
    ];
    assert(r@ =~= matrix_proto_bytes());
    r
}

/// The parsed descriptor of `matrix.proto`; `None` exactly when protobuf
/// does not read the bytes as a descriptor.
pub fn file_descriptor_proto() -> (r: Option<FileDescriptorProto>)
    ensures
        r is Some == parses_as_file_descriptor(matrix_proto_bytes()),
{
    let data = file_descriptor_proto_data();
    parse_file_descriptor_proto(data.as_slice())
}

/// The reflection view of `matrix.proto`; present only when its bytes parse.
pub fn file_descriptor() -> (r: Option<FileDescriptor>)
    ensures
        r is Some ==> parses_as_file_descriptor(matrix_proto_bytes()),
{
    let data = file_descriptor_proto_data();
    build_matrix_file_descriptor(data.as_slice())
}

} // verus!
