use rusty_space::mqo::MqoError;
use rusty_space::mqo_document::{
    chunk_material, chunk_object, expect_token, load_mqo, read_header, skip_chunk, MqoObject,
};

const CUBE: &str = "Metasequoia Document\r\nFormat Text Ver 1.0\r\n\r\nScene {\r\n\tpos 0 0 1500\r\n\tdirlights 1 {\r\n\t\tlight { dir 0.4 0.5 0.7 }\r\n\t}\r\n}\r\nMaterial 1 {\r\n\t\"mat1\" col(1 1 1 1) dif(0.8)\r\n}\r\nObject \"cube\" {\r\n\tdepth 0\r\n\tshading 1\r\n\tfacet 59.5\r\n\tmirror 1\r\n\tmirror_axis 1\r\n\tvertex 3 {\r\n\t\t0 0 0\r\n\t\t1.5 0 0\r\n\t\t0 1 -2e1\r\n\t}\r\n\tface 2 {\r\n\t\t3 V(0 1 2) M(0) UV(0 0 1 0 1 1)\r\n\t\t4 V(0 1 2 0) M(0)\r\n\t}\r\n}\r\nEof\r\n";

fn texts(list: &[&str]) -> Vec<Vec<u8>> {
    list.iter().map(|t| t.as_bytes().to_vec()).collect()
}

#[test]
fn document_with_one_mirrored_object() {
    assert_eq!(
        load_mqo(CUBE.as_bytes()),
        Ok(vec![MqoObject {
            name: b"\"cube\"".to_vec(),
            coordinates: texts(&["0", "0", "0", "1.5", "0", "0", "0", "1", "-2e1"]),
            faces: vec![2, 1, 0, 3, 4, 5],
            mirror: true,
            mirror_axis: 1,
        }])
    );
}

#[test]
fn header_names_the_format_and_version() {
    assert_eq!(
        read_header(b"Metasequoia Document Format Text Ver 1.1 rest"),
        Ok(&b"rest"[..])
    );
    assert_eq!(
        read_header(b"Metasequoia Document Format Text Ver 2.0 rest"),
        Err(MqoError::UnsupportedVersion)
    );
    assert_eq!(
        read_header(b"Metasequoia Documents Format Text Ver 1.0 "),
        Err(MqoError::UnexpectedHeader)
    );
    assert_eq!(read_header(b"Metasequoia Document"), Err(MqoError::UnexpectedEof));
    assert_eq!(expect_token(b" Ver 1.0", "Ver"), Ok(&b"1.0"[..]));
    assert_eq!(expect_token(b" ver 1.0", "Ver"), Err(MqoError::UnexpectedHeader));
    assert_eq!(load_mqo(b""), Err(MqoError::UnexpectedEof));
    assert_eq!(load_mqo(b"Metasequoia Document Format Text Ver 1.0 "), Ok(vec![]));
    assert_eq!(load_mqo(b"Metasequoia Document Format Text Ver 1.0 EOF junk "), Ok(vec![]));
}

#[test]
fn unknown_chunk_is_skipped_to_its_closing_brace() {
    assert_eq!(skip_chunk(b"{ a { b } { c } } next "), Ok(&b"next "[..]));
    // only the first byte of a token counts
    assert_eq!(skip_chunk(b"{ a {b} } } next "), Ok(&b"next "[..]));
    // a closing brace that closes nothing counts below zero
    assert_eq!(skip_chunk(b"x y } { } after "), Err(MqoError::UnexpectedEof));
    assert_eq!(skip_chunk(b"} { { } } after "), Ok(&b"} after "[..]));
    assert_eq!(skip_chunk(b"{ a { b } "), Err(MqoError::UnexpectedEof));
}

#[test]
fn material_chunk_has_a_line_for_each_material() {
    assert_eq!(
        chunk_material(b"2 {\n \"a\" col(1)\n \"b\" col(2)\n}\nnext"),
        Ok(&b"next"[..])
    );
    assert_eq!(
        chunk_material(b"1 {\n \"a\" col(1)\n \"b\" col(2)\n}\n"),
        Err(MqoError::MaterialNotClosed)
    );
    assert_eq!(chunk_material(b"1 {\n   \nnext"), Ok(&b"next"[..]));
    assert_eq!(chunk_material(b"x {\n}\n"), Err(MqoError::InvalidDigit));
    assert_eq!(chunk_material(b"1 {\n \"a\"\n"), Err(MqoError::UnexpectedEof));
}

#[test]
fn object_chunk_faults() {
    let name = || b"o".to_vec();
    assert_eq!(
        chunk_object(b"{\nvertex 1 {\n0 0 x\n}\n}\n", name()),
        Err(MqoError::InvalidFloat)
    );
    assert_eq!(
        chunk_object(b"{\nvertex 1 {\n0 0 0\n0 0 0\n}\n}\n", name()),
        Err(MqoError::VertexNotClosed)
    );
    assert_eq!(
        chunk_object(b"{\nface 1 {\n3 V(0 1 70000)\n}\n}\n", name()),
        Err(MqoError::Overflow)
    );
    assert_eq!(
        chunk_object(b"{\nface 1 {\n3 V(0 1 2)\n3 V(0 1 2)\n}\n}\n", name()),
        Err(MqoError::FaceNotClosed)
    );
    assert_eq!(chunk_object(b"{\nmirror yes\n}\n", name()), Err(MqoError::InvalidDigit));
    assert_eq!(chunk_object(b"{\nshading\n}\n", name()), Err(MqoError::InvalidFloat));
    assert_eq!(
        chunk_object(
            b"{\nmirror 1\nmirror_axis 7\nvertex 1 {\n0 0 0\n}\nface 1 {\n3 V(0 0 65535)\n}\n}\n",
            name()
        ),
        Err(MqoError::TooManyVertices)
    );
    // no vertex, or no triangle: no object
    assert_eq!(chunk_object(b"{\nvertex 1 {\n0 0 0\n}\n}\nrest", name()), Ok((&b"rest"[..], None)));
    assert_eq!(chunk_object(b"{\n}\nrest", name()), Ok((&b"rest"[..], None)));
}

#[test]
fn mirror_images_follow_the_axes() {
    let (rest, object) = chunk_object(
        b"{\nMIRROR 2\nMirror_Axis 5\nvertex 2 {\n0 0 0\n1 1 1\n}\nface 1 {\n3 V(0 1 0)\n}\n}\n",
        b"m".to_vec(),
    )
    .unwrap();
    assert_eq!(rest, &b""[..]);
    let object = object.unwrap();
    // two vertices; the first axis moves by 2, the third by 4
    assert_eq!(object.faces, vec![0, 1, 0, 2, 3, 2, 4, 5, 4, 6, 7, 6]);
    assert_eq!(object.mirror_axis, 5);
    assert!(object.mirror);
}
