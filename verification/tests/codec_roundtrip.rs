//! Round trips through the typed codec layer: byte runs, text, optional
//! values, sequences, and reflected records.

use replication::reflect::{FieldValue, MemberField, Ty, UserDefinedType};
use replication::stream::{GameIoError, InputMemoryStream, OutputMemoryStream};

fn transfer(out: &OutputMemoryStream) -> InputMemoryStream {
    InputMemoryStream::new(out.buffer().clone())
}

#[test]
fn bytes_roundtrip() {
    for payload in [vec![], vec![7u8], vec![1u8, 2, 3, 4, 5, 250]] {
        let mut out = OutputMemoryStream::new();
        out.write_bytes(&payload).unwrap();
        let mut inp = transfer(&out);
        assert_eq!(inp.read_bytes().unwrap(), payload);
    }
}

#[test]
fn text_roundtrip_empty_ascii_multibyte() {
    for text in ["", "robo cat", "ハロー wörld 🐱"] {
        let mut out = OutputMemoryStream::new();
        out.write_str(text).unwrap();
        let mut inp = transfer(&out);
        assert_eq!(inp.read_string().unwrap(), text);
    }
}

#[test]
fn text_truncated_length_is_end_of_stream() {
    let mut out = OutputMemoryStream::new();
    // A length prefix that promises more bytes than the buffer holds.
    out.write_usize(100).unwrap();
    out.write_u8(b'x').unwrap();
    let mut inp = transfer(&out);
    match inp.read_string() {
        Err(GameIoError::UnexpectedEof(_, _)) => {}
        other => panic!("expected end of stream, got {:?}", other),
    }
}

#[test]
fn text_invalid_utf8_is_rejected() {
    let mut out = OutputMemoryStream::new();
    out.write_bytes(&[0xFF, 0xFE, 0x80]).unwrap();
    let mut inp = transfer(&out);
    match inp.read_string() {
        Err(GameIoError::Utf8Error) => {}
        other => panic!("expected a text decoding error, got {:?}", other),
    }
}

#[test]
fn sequence_roundtrip_zero_one_many() {
    for values in [vec![], vec![42u32], (0..97u32).map(|x| x * 3 + 1).collect::<Vec<_>>()] {
        let mut out = OutputMemoryStream::new();
        out.write_u32_seq(&values).unwrap();
        let mut inp = transfer(&out);
        let got = inp.read_u32_seq().unwrap();
        assert_eq!(got.len(), values.len());
        assert_eq!(got, values);
    }
}

#[test]
fn option_present_and_absent() {
    let mut out = OutputMemoryStream::new();
    out.write_option_u64_bits(&Some(0x1F), 5).unwrap();
    out.write_option_u64_bits(&None, 5).unwrap();
    out.write_option_u64_bits(&Some(7), 64).unwrap();
    let mut inp = transfer(&out);
    assert_eq!(inp.read_option_u64_bits(5).unwrap(), Some(0x1F));
    assert_eq!(inp.read_option_u64_bits(5).unwrap(), None);
    assert_eq!(inp.read_option_u64_bits(64).unwrap(), Some(7));
}

fn sample_layout() -> UserDefinedType {
    UserDefinedType::new(vec![
        MemberField::new("count".to_owned(), Ty::Int),
        MemberField::new("label".to_owned(), Ty::Text),
        MemberField::new("ratio".to_owned(), Ty::Float),
    ])
}

#[test]
fn reflected_record_roundtrip() {
    let layout = sample_layout();
    let ratio: f32 = 2.75;
    let fields = vec![
        FieldValue::Int(77),
        FieldValue::Text("tuna".to_owned()),
        FieldValue::Float(ratio.to_bits()),
    ];
    let mut out = OutputMemoryStream::new();
    out.write_reflected(&layout, &fields).unwrap();
    let mut inp = transfer(&out);
    let got = inp.read_reflected(&layout).unwrap();
    assert_eq!(got.len(), 3);
    match &got[0] {
        FieldValue::Int(v) => assert_eq!(*v, 77),
        other => panic!("wrong first field: {:?}", other),
    }
    match &got[1] {
        FieldValue::Text(s) => assert_eq!(s, "tuna"),
        other => panic!("wrong second field: {:?}", other),
    }
    match &got[2] {
        FieldValue::Float(p) => assert_eq!(f32::from_bits(*p), 2.75),
        other => panic!("wrong third field: {:?}", other),
    }
}

#[test]
fn reflected_record_truncated_is_end_of_stream() {
    let layout = sample_layout();
    let fields = vec![
        FieldValue::Int(5),
        FieldValue::Text("x".to_owned()),
        FieldValue::Float(0),
    ];
    let mut out = OutputMemoryStream::new();
    out.write_reflected(&layout, &fields).unwrap();
    let mut bytes = out.buffer().clone();
    bytes.truncate(bytes.len() - 2);
    let mut inp = InputMemoryStream::new(bytes);
    match inp.read_reflected(&layout) {
        Err(GameIoError::UnexpectedEof(_, _)) => {}
        other => panic!("expected end of stream, got {:?}", other),
    }
}
