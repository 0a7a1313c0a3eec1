use fastestdet::matrix::{file_descriptor, file_descriptor_proto, file_descriptor_proto_data};

#[test]
fn descriptor_bytes_parse() {
    let p = file_descriptor_proto().unwrap();
    assert_eq!(p.name(), "matrix.proto");
    assert_eq!(p.syntax(), "proto3");
    assert_eq!(p.message_type.len(), 1);
    let m = &p.message_type[0];
    assert_eq!(m.name(), "Mat");
    let fields: Vec<(&str, i32)> = m.field.iter().map(|f| (f.name(), f.number())).collect();
    assert_eq!(fields, vec![("width", 1), ("height", 2), ("data", 3)]);
    assert!(p.source_code_info.is_some());
}

#[test]
fn descriptor_is_built() {
    let d = file_descriptor().unwrap();
    assert_eq!(d.name(), "matrix.proto");
    assert!(d.message_by_package_relative_name("Mat").is_some());
}

#[test]
fn descriptor_data_starts_with_file_name() {
    let b = file_descriptor_proto_data();
    assert_eq!(b.len(), 319);
    assert_eq!(&b[2..14], b"matrix.proto");
}
