use ui_extractor::embedding::{
    check_vector_shape, read_u16, read_u32, write_u16, write_u32, EmbeddingIndex, IndexError,
    ParsedIndex, VectorShapeProblem, EMBED_DIM,
};

fn sample_index() -> EmbeddingIndex {
    let dim = EMBED_DIM as usize;
    let mut codes = Vec::with_capacity(2 * dim);
    for i in 0..2 * dim {
        codes.push((((i * 37) % 255) as i32 - 127) as i8);
    }
    EmbeddingIndex {
        dim: EMBED_DIM,
        names: vec!["home".into(), "menu".into()],
        codes,
        scales: vec![0.25f32.to_bits(), 0.5f32.to_bits()],
    }
}

#[test]
fn index_roundtrip_i8() {
    let index = sample_index();
    let bytes = index.to_bytes().unwrap();
    let loaded = match EmbeddingIndex::from_bytes(&bytes).unwrap() {
        ParsedIndex::Quantized(ix) => ix,
        ParsedIndex::Float { .. } => panic!("expected a quantized index"),
    };
    assert_eq!(loaded.names, index.names);
    assert_eq!(loaded.scales, index.scales);
    assert_eq!(loaded.codes, index.codes);
    assert_eq!(loaded.count(), 2);
}

#[test]
fn load_v1_converts_to_i8() {
    let mut bytes = b"MCL2".to_vec();
    write_u32(&mut bytes, 1);
    write_u32(&mut bytes, EMBED_DIM);
    write_u32(&mut bytes, 1);
    write_u16(&mut bytes, 4);
    bytes.extend_from_slice(b"home");
    for i in 0..EMBED_DIM {
        bytes.extend_from_slice(&((i as f32) / 512.0).to_le_bytes());
    }
    match EmbeddingIndex::from_bytes(&bytes).unwrap() {
        ParsedIndex::Float { dim, names, vectors } => {
            assert_eq!(dim, EMBED_DIM);
            assert_eq!(names, vec!["home".to_string()]);
            assert_eq!(vectors.len(), EMBED_DIM as usize);
            assert_eq!(f32::from_bits(vectors[256]), 0.5);
        }
        ParsedIndex::Quantized(_) => panic!("expected float vectors"),
    }
}

#[test]
fn header_errors() {
    assert_eq!(EmbeddingIndex::from_bytes(&b"MC".to_vec()).err(), Some(IndexError::Truncated));
    assert_eq!(EmbeddingIndex::from_bytes(&b"XXXX".to_vec()).err(), Some(IndexError::BadMagic));
    let mut bytes = b"MCL2".to_vec();
    write_u32(&mut bytes, 2);
    write_u32(&mut bytes, 64);
    write_u32(&mut bytes, 0);
    assert_eq!(EmbeddingIndex::from_bytes(&bytes).err(), Some(IndexError::WrongDim(64)));
    let mut bytes = b"MCL2".to_vec();
    write_u32(&mut bytes, 3);
    write_u32(&mut bytes, EMBED_DIM);
    write_u32(&mut bytes, 0);
    assert_eq!(EmbeddingIndex::from_bytes(&bytes).err(), Some(IndexError::UnsupportedVersion(3)));
}

#[test]
fn body_errors() {
    let mut bytes = b"MCL2".to_vec();
    write_u32(&mut bytes, 2);
    write_u32(&mut bytes, EMBED_DIM);
    write_u32(&mut bytes, 1);
    write_u16(&mut bytes, 2);
    bytes.extend_from_slice(&[0xff, 0xfe]);
    assert_eq!(EmbeddingIndex::from_bytes(&bytes).err(), Some(IndexError::BadName));
    let mut bytes = b"MCL2".to_vec();
    write_u32(&mut bytes, 2);
    write_u32(&mut bytes, EMBED_DIM);
    write_u32(&mut bytes, 1);
    write_u16(&mut bytes, 1);
    bytes.push(b'a');
    bytes.extend_from_slice(&[0; 10]);
    assert_eq!(EmbeddingIndex::from_bytes(&bytes).err(), Some(IndexError::Truncated));
}

#[test]
fn long_name_is_refused() {
    let mut index = sample_index();
    index.names[1] = "x".repeat(70000);
    assert_eq!(index.to_bytes().err(), Some(IndexError::NameTooLong(1)));
}

#[test]
fn little_endian_fields() {
    let mut out = Vec::new();
    write_u32(&mut out, 0x0102_0304);
    write_u16(&mut out, 0xabcd);
    assert_eq!(out, vec![4, 3, 2, 1, 0xcd, 0xab]);
    assert_eq!(read_u32(&out, 0), Ok(0x0102_0304));
    assert_eq!(read_u16(&out, 4), Ok(0xabcd));
    assert_eq!(read_u16(&out, 5), Err(IndexError::Truncated));
}

#[test]
fn float_vector_shape_checked_before_quantizing() {
    assert_eq!(check_vector_shape(4, 0, 0), Err(VectorShapeProblem::NoVectors));
    assert_eq!(check_vector_shape(4, 2, 7), Err(VectorShapeProblem::CountMismatch));
    assert_eq!(check_vector_shape(4, 2, 8), Ok(()));
}
