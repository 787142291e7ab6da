//! The structure of a Metasequoia document: its header, its chunks, and
//! what the chunk of an object says of the object.

use vstd::prelude::*;
use crate::builtins::{is_word, word_bytes};
use crate::bytes::{run_end, texts, ByteClass};
use crate::mqo::{
    check_float_text, is_float_text, lowered, parse_i32, parse_u8, quotok, read_line, read_token,
    skip_whitespace, spec_parse_i32, spec_parse_u8, spec_quotok, spec_read_line, spec_read_token,
    to_lower, MqoError,
};

verus! {

/// The next token of `s`: what follows it, and the token.
pub open spec fn token_of(s: Seq<u8>) -> Result<(Seq<u8>, Seq<u8>), MqoError> {
    match spec_read_token(s) {
        Ok((next, token)) => Ok((s.skip(next), token)),
        Err(e) => Err(e),
    }
}

/// The next line of `s`: what follows it, and the line.
pub open spec fn line_of(s: Seq<u8>) -> Result<(Seq<u8>, Seq<u8>), MqoError> {
    match spec_read_line(s) {
        Ok((next, line)) => Ok((s.skip(next), line)),
        Err(e) => Err(e),
    }
}

/// The next field of `line`: what follows it, and the field.
pub open spec fn field_of(line: Seq<u8>) -> (Seq<u8>, Seq<u8>) {
    (line.skip(spec_quotok(line).0), spec_quotok(line).1)
}

/// What follows the next token of `s`, where that token is `word`.
pub open spec fn spec_expect_token(s: Seq<u8>, word: Seq<u8>) -> Result<Seq<u8>, MqoError> {
    match token_of(s) {
        Err(e) => Err(e),
        Ok((rest, token)) => if token == word {
            Ok(rest)
        } else {
            Err(MqoError::UnexpectedHeader)
        },
    }
}

/// Reads the next token of `input`, which has to be `word`: what follows
/// it.
pub fn expect_token<'a>(input: &'a [u8], word: &str) -> (r: Result<&'a [u8], MqoError>)
    requires
        word.is_ascii(),
    ensures
        match r {
            Ok(rest) => spec_expect_token(input@, word_bytes(word@)) == Ok::<Seq<u8>, MqoError>(
                rest@,
            ) && rest@.len() < input@.len(),
            Err(e) => spec_expect_token(input@, word_bytes(word@)) == Err::<Seq<u8>, MqoError>(e),
        },
{
    match read_token(input) {
        Err(e) => Err(e),
        Ok((rest, token)) => {
            if is_word(token.as_slice(), word) {
                Ok(rest)
            } else {
                Err(MqoError::UnexpectedHeader)
            }
        },
    }
}

/// What follows the header of the document `s`: the words `Metasequoia
/// Document Format Text Ver` and the version, which is 1.0 or 1.1.
pub open spec fn spec_header(s: Seq<u8>) -> Result<Seq<u8>, MqoError> {
    match spec_expect_token(s, word_bytes("Metasequoia"@)) {
        Err(e) => Err(e),
        Ok(s1) => match spec_expect_token(s1, word_bytes("Document"@)) {
            Err(e) => Err(e),
            Ok(s2) => match spec_expect_token(s2, word_bytes("Format"@)) {
                Err(e) => Err(e),
                Ok(s3) => match spec_expect_token(s3, word_bytes("Text"@)) {
                    Err(e) => Err(e),
                    Ok(s4) => match spec_expect_token(s4, word_bytes("Ver"@)) {
                        Err(e) => Err(e),
                        Ok(s5) => match token_of(s5) {
                            Err(e) => Err(e),
                            Ok((rest, version)) => if version == word_bytes("1.0"@) || version
                                == word_bytes("1.1"@) {
                                Ok(rest)
                            } else {
                                Err(MqoError::UnsupportedVersion)
                            },
                        },
                    },
                },
            },
        },
    }
}

/// Reads the header of a document: what follows it.
pub fn read_header(input: &[u8]) -> (r: Result<&[u8], MqoError>)
    ensures
        match r {
            Ok(rest) => spec_header(input@) == Ok::<Seq<u8>, MqoError>(rest@) && rest@.len()
                < input@.len(),
            Err(e) => spec_header(input@) == Err::<Seq<u8>, MqoError>(e),
        },
{
    proof {
        reveal_strlit("Metasequoia");
        reveal_strlit("Document");
        reveal_strlit("Format");
        reveal_strlit("Text");
        reveal_strlit("Ver");
        reveal_strlit("1.0");
        reveal_strlit("1.1");
    }
    let s1 = expect_token(input, "Metasequoia")?;
    let s2 = expect_token(s1, "Document")?;
    let s3 = expect_token(s2, "Format")?;
    let s4 = expect_token(s3, "Text")?;
    let s5 = expect_token(s4, "Ver")?;
    let (rest, version) = read_token(s5)?;
    if is_word(version.as_slice(), "1.0") || is_word(version.as_slice(), "1.1") {
        Ok(rest)
    } else {
        Err(MqoError::UnsupportedVersion)
    }
}

/// What follows a chunk that is skipped: the tokens of `s` up to the one
/// that, starting with a closing brace, brings the count of open braces
/// from `level` to zero. A token that starts with an opening brace adds
/// one to the count, one that starts with a closing brace takes one off.
pub open spec fn spec_skip_chunk(s: Seq<u8>, level: int) -> Result<Seq<u8>, MqoError>
    decreases s.len(),
{
    match token_of(s) {
        Err(e) => Err(e),
        Ok((rest, token)) => if token.len() > 0 && token[0] == 0x7d && level == 1 {
            Ok(rest)
        } else if rest.len() < s.len() {
            spec_skip_chunk(
                rest,
                if token.len() > 0 && token[0] == 0x7b {
                    level + 1
                } else if token.len() > 0 && token[0] == 0x7d {
                    level - 1
                } else {
                    level
                },
            )
        } else {
            Err(MqoError::UnexpectedEof)
        },
    }
}

/// Skips a chunk of an unknown kind: what follows it.
pub fn skip_chunk(input: &[u8]) -> (r: Result<&[u8], MqoError>)
    ensures
        match r {
            Ok(rest) => spec_skip_chunk(input@, 0) == Ok::<Seq<u8>, MqoError>(rest@) && rest@.len()
                < input@.len(),
            Err(e) => spec_skip_chunk(input@, 0) == Err::<Seq<u8>, MqoError>(e),
        },
{
    let mut at: &[u8] = input;
    let mut level: i128 = 0;
    let size: usize = input.len();
    loop
        invariant
            at@.len() <= input@.len() == size,
            -(input@.len() - at@.len()) <= level <= input@.len() - at@.len(),
            spec_skip_chunk(input@, 0) == spec_skip_chunk(at@, level as int),
        decreases at@.len(),
    {
        let (rest, token) = match read_token(at) {
            Ok(found) => found,
            Err(e) => {
                return Err(e);
            },
        };
        if token[0] == 0x7b {
            level = level + 1;
        } else if token[0] == 0x7d {
            level = level - 1;
            if level == 0 {
                return Ok(rest);
            }
        }
        at = rest;
    }
}

/// What follows the next token of `s` that is an opening brace by
/// itself.
pub open spec fn spec_until_brace(s: Seq<u8>) -> Result<Seq<u8>, MqoError>
    decreases s.len(),
{
    match token_of(s) {
        Err(e) => Err(e),
        Ok((rest, token)) => if token == seq![0x7bu8] {
            Ok(rest)
        } else if rest.len() < s.len() {
            spec_until_brace(rest)
        } else {
            Err(MqoError::UnexpectedEof)
        },
    }
}

fn until_brace(input: &[u8]) -> (r: Result<&[u8], MqoError>)
    ensures
        match r {
            Ok(rest) => spec_until_brace(input@) == Ok::<Seq<u8>, MqoError>(rest@) && rest@.len()
                < input@.len(),
            Err(e) => spec_until_brace(input@) == Err::<Seq<u8>, MqoError>(e),
        },
{
    let mut at: &[u8] = input;
    loop
        invariant
            at@.len() <= input@.len(),
            spec_until_brace(input@) == spec_until_brace(at@),
        decreases at@.len(),
    {
        let (rest, token) = match read_token(at) {
            Ok(found) => found,
            Err(e) => {
                return Err(e);
            },
        };
        if token.len() == 1 && token[0] == 0x7b {
            assert(token@ =~= seq![0x7bu8]);
            return Ok(rest);
        }
        at = rest;
    }
}

/// The lines of up to `n` materials, from `s` on: what follows them, and
/// whether a line without a field ended them, and with them the chunk.
pub open spec fn spec_material_lines(s: Seq<u8>, n: nat) -> Result<(Seq<u8>, bool), MqoError>
    decreases n,
{
    if n == 0 {
        Ok((s, false))
    } else {
        match line_of(s) {
            Err(e) => Err(e),
            Ok((rest, line)) => if field_of(line).1.len() == 0 {
                Ok((rest, true))
            } else {
                spec_material_lines(rest, (n - 1) as nat)
            },
        }
    }
}

/// What follows the chunk of the materials: their count, anything up to
/// an opening brace, a line for each material, and a line that is a
/// closing brace.
pub open spec fn spec_chunk_material(s: Seq<u8>) -> Result<Seq<u8>, MqoError> {
    match token_of(s) {
        Err(e) => Err(e),
        Ok((s1, count)) => match spec_parse_u8(count) {
            Err(e) => Err(e),
            Ok(n) => if n > usize::MAX {
                Err(MqoError::Overflow)
            } else {
                match spec_until_brace(s1) {
                    Err(e) => Err(e),
                    Ok(s2) => match spec_material_lines(s2, n as nat) {
                        Err(e) => Err(e),
                        Ok((s3, ended)) => if ended {
                            Ok(s3)
                        } else {
                            match line_of(s3) {
                                Err(e) => Err(e),
                                Ok((s4, line)) => if line == seq![0x7du8] {
                                    Ok(s4)
                                } else {
                                    Err(MqoError::MaterialNotClosed)
                                },
                            }
                        },
                    },
                }
            },
        },
    }
}

fn material_lines(input: &[u8], n: u64) -> (r: Result<(&[u8], bool), MqoError>)
    ensures
        match r {
            Ok((rest, ended)) => spec_material_lines(input@, n as nat) == Ok::<
                (Seq<u8>, bool),
                MqoError,
            >((rest@, ended)) && rest@.len() <= input@.len(),
            Err(e) => spec_material_lines(input@, n as nat) == Err::<(Seq<u8>, bool), MqoError>(e),
        },
{
    let mut at: &[u8] = input;
    let mut i: u64 = 0;
    while i < n
        invariant
            i <= n,
            at@.len() <= input@.len(),
            spec_material_lines(input@, n as nat) == spec_material_lines(at@, (n - i) as nat),
        decreases n - i,
    {
        let (rest, line) = match read_line(at) {
            Ok(found) => found,
            Err(e) => {
                return Err(e);
            },
        };
        let (_, field) = match quotok(line.as_slice()) {
            Ok(found) => found,
            Err(e) => {
                return Err(e);
            },
        };
        if field.len() == 0 {
            return Ok((rest, true));
        }
        at = rest;
        i = i + 1;
    }
    Ok((at, false))
}

/// Reads the chunk of the materials: what follows it.
pub fn chunk_material(input: &[u8]) -> (r: Result<&[u8], MqoError>)
    ensures
        match r {
            Ok(rest) => spec_chunk_material(input@) == Ok::<Seq<u8>, MqoError>(rest@)
                && rest@.len() < input@.len(),
            Err(e) => spec_chunk_material(input@) == Err::<Seq<u8>, MqoError>(e),
        },
{
    let (s1, count) = read_token(input)?;
    let n = parse_u8(count.as_slice())?;
    if n > usize::MAX as u64 {
        return Err(MqoError::Overflow);
    }
    let s2 = until_brace(s1)?;
    let (s3, ended) = material_lines(s2, n)?;
    if ended {
        return Ok(s3);
    }
    let (s4, line) = read_line(s3)?;
    if line.len() == 1 && line[0] == 0x7d {
        assert(line@ =~= seq![0x7du8]);
        Ok(s4)
    } else {
        Err(MqoError::MaterialNotClosed)
    }
}

/// What the text of a count of at most `max` reads as.
pub open spec fn spec_parse_bounded(text: Seq<u8>, max: int) -> Result<u64, MqoError> {
    match spec_parse_u8(text) {
        Ok(v) => if v > max {
            Err(MqoError::Overflow)
        } else {
            Ok(v)
        },
        Err(e) => Err(e),
    }
}

fn parse_bounded(text: &[u8], max: u64) -> (r: Result<u64, MqoError>)
    ensures
        r == spec_parse_bounded(text@, max as int),
{
    let v = parse_u8(text)?;
    if v > max {
        Err(MqoError::Overflow)
    } else {
        Ok(v)
    }
}

/// The three coordinates that the line of a vertex gives, as they are
/// written: its first three fields, each of which has to write a float.
pub open spec fn spec_vertex_line(line: Seq<u8>) -> Result<Seq<Seq<u8>>, MqoError> {
    let (r1, x) = field_of(line);
    let (r2, y) = field_of(r1);
    let (r3, z) = field_of(r2);
    if is_float_text(x) && is_float_text(y) && is_float_text(z) {
        Ok(seq![x, y, z])
    } else {
        Err(MqoError::InvalidFloat)
    }
}

fn vertex_line(line: &[u8], coordinates: Vec<Vec<u8>>) -> (r: Result<Vec<Vec<u8>>, MqoError>)
    ensures
        match r {
            Ok(v) => spec_vertex_line(line@) matches Ok(found) && texts(v@) == texts(coordinates@)
                + found,
            Err(e) => spec_vertex_line(line@) == Err::<Seq<Seq<u8>>, MqoError>(e),
        },
{
    let mut coordinates = coordinates;
    let ghost before = texts(coordinates@);
    let (r1, x) = quotok(line)?;
    if !check_float_text(x.as_slice()) {
        return Err(MqoError::InvalidFloat);
    }
    let (r2, y) = quotok(r1)?;
    if !check_float_text(y.as_slice()) {
        return Err(MqoError::InvalidFloat);
    }
    let (_, z) = quotok(r2)?;
    if !check_float_text(z.as_slice()) {
        return Err(MqoError::InvalidFloat);
    }
    coordinates.push(x);
    coordinates.push(y);
    coordinates.push(z);
    assert(texts(coordinates@) =~= before + seq![x@, y@, z@]);
    Ok(coordinates)
}

/// Whether the line starts with an opening brace.
pub open spec fn opens_brace(line: Seq<u8>) -> bool {
    line.len() > 0 && line[0] == 0x7b
}

/// The lines of up to `n` vertices, from `s` on, after the coordinates in
/// `acc`: what follows them, and the coordinates. A line that starts with
/// an opening brace ends them early.
pub open spec fn spec_vertex_lines(s: Seq<u8>, n: nat, acc: Seq<Seq<u8>>) -> Result<
    (Seq<u8>, Seq<Seq<u8>>),
    MqoError,
>
    decreases n,
{
    if n == 0 {
        Ok((s, acc))
    } else {
        match line_of(s) {
            Err(e) => Err(e),
            Ok((rest, line)) => if opens_brace(line) {
                Ok((rest, acc))
            } else {
                match spec_vertex_line(line) {
                    Err(e) => Err(e),
                    Ok(found) => spec_vertex_lines(rest, (n - 1) as nat, acc + found),
                }
            },
        }
    }
}

fn vertex_lines(input: &[u8], n: u32, coordinates: Vec<Vec<u8>>) -> (r: Result<
    (&[u8], Vec<Vec<u8>>),
    MqoError,
>)
    ensures
        match r {
            Ok((rest, v)) => spec_vertex_lines(input@, n as nat, texts(coordinates@)) == Ok::<
                (Seq<u8>, Seq<Seq<u8>>),
                MqoError,
            >((rest@, texts(v@))) && rest@.len() <= input@.len(),
            Err(e) => spec_vertex_lines(input@, n as nat, texts(coordinates@)) == Err::<
                (Seq<u8>, Seq<Seq<u8>>),
                MqoError,
            >(e),
        },
{
    let ghost start = texts(coordinates@);
    let mut found = coordinates;
    let mut at: &[u8] = input;
    let mut i: u32 = 0;
    while i < n
        invariant
            i <= n,
            at@.len() <= input@.len(),
            start == texts(coordinates@),
            spec_vertex_lines(input@, n as nat, start) == spec_vertex_lines(
                at@,
                (n - i) as nat,
                texts(found@),
            ),
        decreases n - i,
    {
        let (rest, line) = match read_line(at) {
            Ok(found) => found,
            Err(e) => {
                return Err(e);
            },
        };
        if line.len() > 0 && line[0] == 0x7b {
            return Ok((rest, found));
        }
        found = match vertex_line(line.as_slice(), found) {
            Ok(more) => more,
            Err(e) => {
                return Err(e);
            },
        };
        at = rest;
        i = i + 1;
    }
    Ok((at, found))
}

/// What follows a line whose first field is a closing brace; `fault`
/// where the next line is another.
pub open spec fn spec_closing(s: Seq<u8>, fault: MqoError) -> Result<Seq<u8>, MqoError> {
    match line_of(s) {
        Err(e) => Err(e),
        Ok((rest, line)) => if field_of(line).1 == seq![0x7du8] {
            Ok(rest)
        } else {
            Err(fault)
        },
    }
}

fn closing(input: &[u8], fault: MqoError) -> (r: Result<&[u8], MqoError>)
    ensures
        match r {
            Ok(rest) => spec_closing(input@, fault) == Ok::<Seq<u8>, MqoError>(rest@) && rest@.len()
                < input@.len(),
            Err(e) => spec_closing(input@, fault) == Err::<Seq<u8>, MqoError>(e),
        },
{
    let (rest, line) = read_line(input)?;
    let (_, field) = quotok(line.as_slice())?;
    if field.len() == 1 && field[0] == 0x7d {
        assert(field@ =~= seq![0x7du8]);
        Ok(rest)
    } else {
        Err(fault)
    }
}

/// The count that the field after the name of a list gives; a negative
/// one counts as none.
pub open spec fn spec_count(header: Seq<u8>) -> Result<nat, MqoError> {
    match spec_parse_i32(field_of(header).1) {
        Ok(v) => Ok(
            if v < 0 {
                0nat
            } else {
                v as nat
            },
        ),
        Err(e) => Err(e),
    }
}

fn count(header: &[u8]) -> (r: Result<u32, MqoError>)
    ensures
        match r {
            Ok(n) => spec_count(header@) == Ok::<nat, MqoError>(n as nat),
            Err(e) => spec_count(header@) == Err::<nat, MqoError>(e),
        },
{
    let (_, text) = quotok(header)?;
    let v = parse_i32(text.as_slice())?;
    if v < 0 {
        Ok(0)
    } else {
        Ok(v as u32)
    }
}

/// The vertices of an object: as many lines as the header says, each
/// with three coordinates, and a closing brace.
pub open spec fn spec_vertex_chunk(s: Seq<u8>, header: Seq<u8>, acc: Seq<Seq<u8>>) -> Result<
    (Seq<u8>, Seq<Seq<u8>>),
    MqoError,
> {
    match spec_count(header) {
        Err(e) => Err(e),
        Ok(n) => match spec_vertex_lines(s, n, acc) {
            Err(e) => Err(e),
            Ok((s1, found)) => match spec_closing(s1, MqoError::VertexNotClosed) {
                Err(e) => Err(e),
                Ok(s2) => Ok((s2, found)),
            },
        },
    }
}

fn vertex_chunk<'a>(input: &'a [u8], header: &[u8], coordinates: Vec<Vec<u8>>) -> (r: Result<
    (&'a [u8], Vec<Vec<u8>>),
    MqoError,
>)
    ensures
        match r {
            Ok((rest, v)) => spec_vertex_chunk(input@, header@, texts(coordinates@)) == Ok::<
                (Seq<u8>, Seq<Seq<u8>>),
                MqoError,
            >((rest@, texts(v@))) && rest@.len() < input@.len(),
            Err(e) => spec_vertex_chunk(input@, header@, texts(coordinates@)) == Err::<
                (Seq<u8>, Seq<Seq<u8>>),
                MqoError,
            >(e),
        },
{
    let n = count(header)?;
    let (s1, found) = vertex_lines(input, n, coordinates)?;
    let s2 = closing(s1, MqoError::VertexNotClosed)?;
    Ok((s2, found))
}

/// The vertices of the triangle that the line of a face gives, last
/// first; none where the face is no triangle or names no vertices.
///
/// The first field of the line is the number of corners. After it, for
/// a triangle, `V(` opens the list of its three vertices.
pub open spec fn spec_face_line(line: Seq<u8>) -> Result<Option<Seq<u16>>, MqoError> {
    let (rest, corners) = field_of(line);
    let list = rest.skip(run_end(rest, 0, ByteClass::AsciiWhitespace));
    let (r1, a) = field_of(list.skip(2));
    let (r2, b) = field_of(r1);
    let (r3, c) = field_of(r2);
    match spec_parse_bounded(corners, usize::MAX as int) {
        Err(e) => Err(e),
        Ok(n) => if n != 3 || !(list.len() >= 2 && list[0] == 0x56 && list[1] == 0x28) {
            Ok(None)
        } else {
            match spec_parse_bounded(a, u16::MAX as int) {
                Err(e) => Err(e),
                Ok(va) => match spec_parse_bounded(b, u16::MAX as int) {
                    Err(e) => Err(e),
                    Ok(vb) => match spec_parse_bounded(c, u16::MAX as int) {
                        Err(e) => Err(e),
                        Ok(vc) => Ok(Some(seq![vc as u16, vb as u16, va as u16])),
                    },
                },
            }
        },
    }
}

fn face_line(line: &[u8], faces: Vec<u16>) -> (r: Result<Vec<u16>, MqoError>)
    ensures
        match r {
            Ok(v) => match spec_face_line(line@) {
                Ok(Some(found)) => v@ == faces@ + found,
                Ok(None) => v@ == faces@,
                Err(_) => false,
            },
            Err(e) => spec_face_line(line@) == Err::<Option<Seq<u16>>, MqoError>(e),
        },
{
    let mut faces = faces;
    let ghost before = faces@;
    let (rest, corners) = quotok(line)?;
    let n = parse_bounded(corners.as_slice(), usize::MAX as u64)?;
    if n != 3 {
        return Ok(faces);
    }
    let list = skip_whitespace(rest);
    if !(list.len() >= 2 && list[0] == 0x56 && list[1] == 0x28) {
        return Ok(faces);
    }
    let inside = vstd::slice::slice_subrange(list, 2, list.len());
    assert(inside@ =~= list@.skip(2));
    let (r1, a) = quotok(inside)?;
    let va = parse_bounded(a.as_slice(), 0xffff)?;
    let (r2, b) = quotok(r1)?;
    let vb = parse_bounded(b.as_slice(), 0xffff)?;
    let (_, c) = quotok(r2)?;
    let vc = parse_bounded(c.as_slice(), 0xffff)?;
    faces.push(vc as u16);
    faces.push(vb as u16);
    faces.push(va as u16);
    assert(faces@ =~= before + seq![vc as u16, vb as u16, va as u16]);
    Ok(faces)
}

/// The lines of up to `n` faces, from `s` on, after the vertices in
/// `acc`: what follows them, and the vertices of the triangles, three for
/// each. A line that starts with an opening brace ends them early.
pub open spec fn spec_face_lines(s: Seq<u8>, n: nat, acc: Seq<u16>) -> Result<
    (Seq<u8>, Seq<u16>),
    MqoError,
>
    decreases n,
{
    if n == 0 {
        Ok((s, acc))
    } else {
        match line_of(s) {
            Err(e) => Err(e),
            Ok((rest, line)) => if opens_brace(line) {
                Ok((rest, acc))
            } else {
                match spec_face_line(line) {
                    Err(e) => Err(e),
                    Ok(Some(found)) => spec_face_lines(rest, (n - 1) as nat, acc + found),
                    Ok(None) => spec_face_lines(rest, (n - 1) as nat, acc),
                }
            },
        }
    }
}

fn face_lines(input: &[u8], n: u32, faces: Vec<u16>) -> (r: Result<(&[u8], Vec<u16>), MqoError>)
    ensures
        match r {
            Ok((rest, v)) => spec_face_lines(input@, n as nat, faces@) == Ok::<
                (Seq<u8>, Seq<u16>),
                MqoError,
            >((rest@, v@)) && rest@.len() <= input@.len(),
            Err(e) => spec_face_lines(input@, n as nat, faces@) == Err::<
                (Seq<u8>, Seq<u16>),
                MqoError,
            >(e),
        },
{
    let mut found = faces;
    let mut at: &[u8] = input;
    let mut i: u32 = 0;
    while i < n
        invariant
            i <= n,
            at@.len() <= input@.len(),
            spec_face_lines(input@, n as nat, faces@) == spec_face_lines(
                at@,
                (n - i) as nat,
                found@,
            ),
        decreases n - i,
    {
        let (rest, line) = match read_line(at) {
            Ok(found) => found,
            Err(e) => {
                return Err(e);
            },
        };
        if line.len() > 0 && line[0] == 0x7b {
            return Ok((rest, found));
        }
        found = match face_line(line.as_slice(), found) {
            Ok(more) => more,
            Err(e) => {
                return Err(e);
            },
        };
        at = rest;
        i = i + 1;
    }
    Ok((at, found))
}

/// The faces of an object: as many lines as the header says, and a
/// closing brace.
pub open spec fn spec_face_chunk(s: Seq<u8>, header: Seq<u8>, acc: Seq<u16>) -> Result<
    (Seq<u8>, Seq<u16>),
    MqoError,
> {
    match spec_count(header) {
        Err(e) => Err(e),
        Ok(n) => match spec_face_lines(s, n, acc) {
            Err(e) => Err(e),
            Ok((s1, found)) => match spec_closing(s1, MqoError::FaceNotClosed) {
                Err(e) => Err(e),
                Ok(s2) => Ok((s2, found)),
            },
        },
    }
}

fn face_chunk<'a>(input: &'a [u8], header: &[u8], faces: Vec<u16>) -> (r: Result<
    (&'a [u8], Vec<u16>),
    MqoError,
>)
    ensures
        match r {
            Ok((rest, v)) => spec_face_chunk(input@, header@, faces@) == Ok::<
                (Seq<u8>, Seq<u16>),
                MqoError,
            >((rest@, v@)) && rest@.len() < input@.len(),
            Err(e) => spec_face_chunk(input@, header@, faces@) == Err::<
                (Seq<u8>, Seq<u16>),
                MqoError,
            >(e),
        },
{
    let n = count(header)?;
    let (s1, found) = face_lines(input, n, faces)?;
    let s2 = closing(s1, MqoError::FaceNotClosed)?;
    Ok((s2, found))
}

/// What an object is known to have while its chunk is read.
pub struct ObjectState {
    /// The coordinates of the vertices as they are written, three for
    /// each vertex.
    pub coordinates: Seq<Seq<u8>>,
    /// The vertices of the triangles, three for each.
    pub faces: Seq<u16>,
    pub mirror: bool,
    pub mirror_axis: i32,
}

/// What an object is known to have while its chunk is read.
pub struct ObjectDraft {
    pub coordinates: Vec<Vec<u8>>,
    pub faces: Vec<u16>,
    pub mirror: bool,
    pub mirror_axis: i32,
}

impl View for ObjectDraft {
    type V = ObjectState;

    open spec fn view(&self) -> ObjectState {
        ObjectState {
            coordinates: texts(self.coordinates@),
            faces: self.faces@,
            mirror: self.mirror,
            mirror_axis: self.mirror_axis,
        }
    }
}

/// What one line of an object's chunk does, by the name that is its
/// first field, whatever the case of its letters: what follows, the
/// object after it, and whether the chunk ends with it.
///
/// `vertex` and `face` start a list, which follows on the next lines.
/// `shading` and `facet` have a float after them, `mirror` and
/// `mirror_axis` a signed number. A closing brace ends the chunk. Any
/// other line changes nothing.
pub open spec fn spec_attr(rest: Seq<u8>, line: Seq<u8>, state: ObjectState) -> Result<
    (Seq<u8>, ObjectState, bool),
    MqoError,
> {
    let (header, name) = field_of(line);
    let key = lowered(name);
    let value = field_of(header).1;
    if key == word_bytes("vertex"@) {
        match spec_vertex_chunk(rest, header, state.coordinates) {
            Err(e) => Err(e),
            Ok((next, found)) => Ok((next, ObjectState { coordinates: found, ..state }, false)),
        }
    } else if key == word_bytes("face"@) {
        match spec_face_chunk(rest, header, state.faces) {
            Err(e) => Err(e),
            Ok((next, found)) => Ok((next, ObjectState { faces: found, ..state }, false)),
        }
    } else if key == word_bytes("shading"@) || key == word_bytes("facet"@) {
        if is_float_text(value) {
            Ok((rest, state, false))
        } else {
            Err(MqoError::InvalidFloat)
        }
    } else if key == word_bytes("mirror"@) {
        match spec_parse_i32(value) {
            Err(e) => Err(e),
            Ok(v) => Ok((rest, ObjectState { mirror: v != 0, ..state }, false)),
        }
    } else if key == word_bytes("mirror_axis"@) {
        match spec_parse_i32(value) {
            Err(e) => Err(e),
            Ok(v) => Ok((rest, ObjectState { mirror_axis: v, ..state }, false)),
        }
    } else if key == seq![0x7du8] {
        Ok((rest, state, true))
    } else {
        Ok((rest, state, false))
    }
}

fn attr<'a>(rest: &'a [u8], line: &[u8], draft: ObjectDraft) -> (r: Result<
    (&'a [u8], ObjectDraft, bool),
    MqoError,
>)
    ensures
        match r {
            Ok((next, after, done)) => spec_attr(rest@, line@, draft@) == Ok::<
                (Seq<u8>, ObjectState, bool),
                MqoError,
            >((next@, after@, done)) && next@.len() <= rest@.len(),
            Err(e) => spec_attr(rest@, line@, draft@) == Err::<
                (Seq<u8>, ObjectState, bool),
                MqoError,
            >(e),
        },
{
    proof {
        reveal_strlit("vertex");
        reveal_strlit("face");
        reveal_strlit("shading");
        reveal_strlit("facet");
        reveal_strlit("mirror");
        reveal_strlit("mirror_axis");
    }
    let (header, name) = quotok(line)?;
    let key = to_lower(name.as_slice());
    let ObjectDraft { coordinates, faces, mirror, mirror_axis } = draft;
    if is_word(key.as_slice(), "vertex") {
        let (next, found) = vertex_chunk(rest, header, coordinates)?;
        Ok((next, ObjectDraft { coordinates: found, faces, mirror, mirror_axis }, false))
    } else if is_word(key.as_slice(), "face") {
        let (next, found) = face_chunk(rest, header, faces)?;
        Ok((next, ObjectDraft { coordinates, faces: found, mirror, mirror_axis }, false))
    } else if is_word(key.as_slice(), "shading") || is_word(key.as_slice(), "facet") {
        let (_, value) = quotok(header)?;
        if check_float_text(value.as_slice()) {
            Ok((rest, ObjectDraft { coordinates, faces, mirror, mirror_axis }, false))
        } else {
            Err(MqoError::InvalidFloat)
        }
    } else if is_word(key.as_slice(), "mirror") {
        let (_, value) = quotok(header)?;
        let v = parse_i32(value.as_slice())?;
        Ok((rest, ObjectDraft { coordinates, faces, mirror: v != 0, mirror_axis }, false))
    } else if is_word(key.as_slice(), "mirror_axis") {
        let (_, value) = quotok(header)?;
        let v = parse_i32(value.as_slice())?;
        Ok((rest, ObjectDraft { coordinates, faces, mirror, mirror_axis: v }, false))
    } else if key.len() == 1 && key[0] == 0x7d {
        assert(key@ =~= seq![0x7du8]);
        Ok((rest, ObjectDraft { coordinates, faces, mirror, mirror_axis }, true))
    } else {
        Ok((rest, ObjectDraft { coordinates, faces, mirror, mirror_axis }, false))
    }
}

/// The lines of an object's chunk, from `s` on: what follows the chunk,
/// and the object after it. The chunk ends with its closing brace, or
/// where the document has no further line; then nothing follows.
pub open spec fn spec_object_attrs(s: Seq<u8>, state: ObjectState) -> Result<
    (Seq<u8>, ObjectState),
    MqoError,
>
    decreases s.len(),
{
    match line_of(s) {
        Err(_) => Ok((Seq::empty(), state)),
        Ok((rest, line)) => match spec_attr(rest, line, state) {
            Err(e) => Err(e),
            Ok((next, after, done)) => if !done && next.len() < s.len() {
                spec_object_attrs(next, after)
            } else {
                Ok((next, after))
            },
        },
    }
}

fn object_attrs(input: &[u8], draft: ObjectDraft) -> (r: Result<(&[u8], ObjectDraft), MqoError>)
    ensures
        match r {
            Ok((rest, after)) => spec_object_attrs(input@, draft@) == Ok::<
                (Seq<u8>, ObjectState),
                MqoError,
            >((rest@, after@)) && rest@.len() <= input@.len(),
            Err(e) => spec_object_attrs(input@, draft@) == Err::<(Seq<u8>, ObjectState), MqoError>(
                e,
            ),
        },
{
    let ghost start = draft@;
    let mut at: &[u8] = input;
    let mut current = draft;
    loop
        invariant
            at@.len() <= input@.len(),
            start == draft@,
            spec_object_attrs(input@, start) == spec_object_attrs(at@, current@),
        decreases at@.len(),
    {
        let (rest, line) = match read_line(at) {
            Ok(found) => found,
            Err(_) => {
                let nothing = vstd::slice::slice_subrange(at, at.len(), at.len());
                assert(nothing@ =~= Seq::<u8>::empty());
                return Ok((nothing, current));
            },
        };
        let (next, after, done) = match attr(rest, line.as_slice(), current) {
            Ok(found) => found,
            Err(e) => {
                return Err(e);
            },
        };
        if done {
            return Ok((next, after));
        }
        at = next;
        current = after;
    }
}

/// How many vertices the mirror image of the triangles of `faces` has:
/// three for each whole triangle.
pub open spec fn mirror_len(faces: Seq<u16>) -> int {
    3 * (faces.len() as int / 3)
}

/// The vertex at place `k` of the mirror image of the triangles of
/// `faces`: the triangles in order, each with its vertices last first,
/// and every vertex moved by `offset`.
pub open spec fn mirrored_vertex(faces: Seq<u16>, offset: int, k: int) -> int {
    faces[3 * (k / 3) + 2 - k % 3] + offset
}

/// `faces`, and after them their mirror image. It is a fault where a
/// vertex of the image is beyond what 16 bits count.
pub open spec fn spec_mirror_once(faces: Seq<u16>, offset: int) -> Result<Seq<u16>, MqoError> {
    if forall|k: int|
        0 <= k < mirror_len(faces) ==> #[trigger] mirrored_vertex(faces, offset, k) <= u16::MAX {
        Ok(
            faces + Seq::new(
                mirror_len(faces) as nat,
                |k: int| mirrored_vertex(faces, offset, k) as u16,
            ),
        )
    } else {
        Err(MqoError::TooManyVertices)
    }
}

proof fn lemma_place(t: int, j: int)
    requires
        0 <= t,
        0 <= j < 3,
    ensures
        (3 * t + j) / 3 == t,
        (3 * t + j) % 3 == j,
{
    assert((3 * t + j) / 3 == t && (3 * t + j) % 3 == j) by (nonlinear_arith)
        requires
            0 <= t,
            0 <= j < 3,
    ;
}

fn mirror_once(faces: Vec<u16>, offset: u128) -> (r: Result<Vec<u16>, MqoError>)
    requires
        offset <= 0x4_0000_0000_0000_0000,
    ensures
        match r {
            Ok(v) => spec_mirror_once(faces@, offset as int) == Ok::<Seq<u16>, MqoError>(v@),
            Err(e) => spec_mirror_once(faces@, offset as int) == Err::<Seq<u16>, MqoError>(e),
        },
{
    let size: usize = faces.len();
    let triangles: usize = size / 3;
    let mut image: Vec<u16> = Vec::new();
    let mut t: usize = 0;
    while t < triangles
        invariant
            faces@.len() == size,
            t <= triangles == faces@.len() / 3,
            offset <= 0x4_0000_0000_0000_0000,
            image@.len() == 3 * t,
            forall|k: int|
                0 <= k < 3 * t ==> #[trigger] mirrored_vertex(faces@, offset as int, k) <= u16::MAX
                    && image@[k] == mirrored_vertex(faces@, offset as int, k),
        decreases triangles - t,
    {
        proof {
            lemma_place(t as int, 0);
            lemma_place(t as int, 1);
            lemma_place(t as int, 2);
            assert(3 * t + 3 <= faces@.len()) by (nonlinear_arith)
                requires
                    t < faces@.len() / 3,
            ;
        }
        let a: u128 = faces[3 * t + 2] as u128 + offset;
        let b: u128 = faces[3 * t + 1] as u128 + offset;
        let c: u128 = faces[3 * t] as u128 + offset;
        assert(a == mirrored_vertex(faces@, offset as int, 3 * t));
        assert(b == mirrored_vertex(faces@, offset as int, 3 * t + 1));
        assert(c == mirrored_vertex(faces@, offset as int, 3 * t + 2));
        if a > 0xffff || b > 0xffff || c > 0xffff {
            return Err(MqoError::TooManyVertices);
        }
        image.push(a as u16);
        image.push(b as u16);
        image.push(c as u16);
        t = t + 1;
    }
    let ghost before = faces@;
    let mut faces = faces;
    assert(image@ =~= Seq::new(
        mirror_len(before) as nat,
        |k: int| mirrored_vertex(before, offset as int, k) as u16,
    ));
    faces.append(&mut image);
    Ok(faces)
}

/// The triangles of an object that is mirrored, where it has `count`
/// vertices of its own: for each axis that `axis` names, in the order of
/// the axes, what is there and its mirror image. The image of an axis
/// moves its vertices by the number of vertices that are there before
/// that axis, which every axis before it has doubled.
pub open spec fn spec_mirrored(faces: Seq<u16>, count: int, axis: i32) -> Result<
    Seq<u16>,
    MqoError,
> {
    let first = if axis & 1 != 0 {
        spec_mirror_once(faces, count)
    } else {
        Ok(faces)
    };
    let count1 = if axis & 1 != 0 {
        2 * count
    } else {
        count
    };
    let count2 = if axis & 2 != 0 {
        2 * count1
    } else {
        count1
    };
    match first {
        Err(e) => Err(e),
        Ok(f1) => match (if axis & 2 != 0 {
            spec_mirror_once(f1, count1)
        } else {
            Ok(f1)
        }) {
            Err(e) => Err(e),
            Ok(f2) => if axis & 4 != 0 {
                spec_mirror_once(f2, count2)
            } else {
                Ok(f2)
            },
        },
    }
}

fn mirrored(faces: Vec<u16>, count: usize, axis: i32) -> (r: Result<Vec<u16>, MqoError>)
    ensures
        match r {
            Ok(v) => spec_mirrored(faces@, count as int, axis) == Ok::<Seq<u16>, MqoError>(v@),
            Err(e) => spec_mirrored(faces@, count as int, axis) == Err::<Seq<u16>, MqoError>(e),
        },
{
    let count0: u128 = count as u128;
    let f1 = if axis & 1 != 0 {
        mirror_once(faces, count0)?
    } else {
        faces
    };
    let count1: u128 = if axis & 1 != 0 {
        2 * count0
    } else {
        count0
    };
    let f2 = if axis & 2 != 0 {
        mirror_once(f1, count1)?
    } else {
        f1
    };
    let count2: u128 = if axis & 2 != 0 {
        2 * count1
    } else {
        count1
    };
    if axis & 4 != 0 {
        mirror_once(f2, count2)
    } else {
        Ok(f2)
    }
}

/// What an object of a document denotes.
pub struct MqoObjectModel {
    pub name: Seq<u8>,
    pub coordinates: Seq<Seq<u8>>,
    pub faces: Seq<u16>,
    pub mirror: bool,
    pub mirror_axis: i32,
}

/// An object of a document.
#[derive(Debug, PartialEq, Eq)]
pub struct MqoObject {
    pub name: Vec<u8>,
    /// The coordinates of the vertices that the document gives, as they
    /// are written, three for each vertex. Each writes a float.
    pub coordinates: Vec<Vec<u8>>,
    /// The vertices of the triangles, three for each; with the mirror
    /// images of the triangles where the object is mirrored.
    pub faces: Vec<u16>,
    /// Whether the object is mirrored.
    pub mirror: bool,
    /// The axes that the object is mirrored along: 1 for the first, 2 for
    /// the second, 4 for the third, added up.
    pub mirror_axis: i32,
}

impl View for MqoObject {
    type V = MqoObjectModel;

    open spec fn view(&self) -> MqoObjectModel {
        MqoObjectModel {
            name: self.name@,
            coordinates: texts(self.coordinates@),
            faces: self.faces@,
            mirror: self.mirror,
            mirror_axis: self.mirror_axis,
        }
    }
}

/// The objects of `v`, as what they denote.
pub open spec fn object_models(v: Seq<MqoObject>) -> Seq<MqoObjectModel> {
    v.map_values(|o: MqoObject| o@)
}

/// The object of the name `name` that a chunk has given as `state`: with
/// its mirror images where it is mirrored; none where it has no vertex
/// or no triangle.
pub open spec fn spec_finish(name: Seq<u8>, state: ObjectState) -> Result<
    Option<MqoObjectModel>,
    MqoError,
> {
    match (if state.mirror {
        spec_mirrored(state.faces, state.coordinates.len() as int / 3, state.mirror_axis)
    } else {
        Ok(state.faces)
    }) {
        Err(e) => Err(e),
        Ok(faces) => if state.coordinates.len() == 0 || faces.len() == 0 {
            Ok(None)
        } else {
            Ok(
                Some(
                    MqoObjectModel {
                        name,
                        coordinates: state.coordinates,
                        faces,
                        mirror: state.mirror,
                        mirror_axis: state.mirror_axis,
                    },
                ),
            )
        },
    }
}

/// Whether `r` is the optional object `m`.
pub open spec fn object_read(r: Option<MqoObject>, m: Option<MqoObjectModel>) -> bool {
    match r {
        Some(o) => m == Some(o@),
        None => m is None,
    }
}

/// The chunk of the object of the name `name`: what follows it, and the
/// object. The rest of the line that opens the chunk is not looked at.
pub open spec fn spec_chunk_object(s: Seq<u8>, name: Seq<u8>) -> Result<
    (Seq<u8>, Option<MqoObjectModel>),
    MqoError,
> {
    match line_of(s) {
        Err(e) => Err(e),
        Ok((s1, _)) => match spec_object_attrs(
            s1,
            ObjectState {
                coordinates: Seq::empty(),
                faces: Seq::empty(),
                mirror: false,
                mirror_axis: 0,
            },
        ) {
            Err(e) => Err(e),
            Ok((s2, state)) => match spec_finish(name, state) {
                Err(e) => Err(e),
                Ok(found) => Ok((s2, found)),
            },
        },
    }
}

/// Reads the chunk of the object of the name `name`: what follows it,
/// and the object, if it has a vertex and a triangle.
pub fn chunk_object(input: &[u8], name: Vec<u8>) -> (r: Result<(&[u8], Option<MqoObject>), MqoError>)
    ensures
        match r {
            Ok((rest, found)) => spec_chunk_object(input@, name@) matches Ok((next, m)) && rest@
                == next && object_read(found, m) && rest@.len() < input@.len(),
            Err(e) => spec_chunk_object(input@, name@) == Err::<
                (Seq<u8>, Option<MqoObjectModel>),
                MqoError,
            >(e),
        },
{
    let (s1, _) = read_line(input)?;
    let draft = ObjectDraft {
        coordinates: Vec::new(),
        faces: Vec::new(),
        mirror: false,
        mirror_axis: 0,
    };
    assert(texts(draft.coordinates@) =~= Seq::<Seq<u8>>::empty());
    let (s2, after) = object_attrs(s1, draft)?;
    let ObjectDraft { coordinates, faces, mirror, mirror_axis } = after;
    let faces = if mirror {
        mirrored(faces, coordinates.len() / 3, mirror_axis)?
    } else {
        faces
    };
    if coordinates.len() == 0 || faces.len() == 0 {
        Ok((s2, None))
    } else {
        Ok((s2, Some(MqoObject { name, coordinates, faces, mirror, mirror_axis })))
    }
}

/// The next chunk of a document: what follows it, and its object if it
/// is one; nothing where the document ends, with `eof` or for want of a
/// further token. A chunk starts with its kind, whatever the case of its
/// letters.
pub open spec fn spec_next_chunk(s: Seq<u8>) -> Result<
    Option<(Seq<u8>, Option<MqoObjectModel>)>,
    MqoError,
> {
    match token_of(s) {
        Err(_) => Ok(None),
        Ok((rest, kind)) => if lowered(kind) == word_bytes("eof"@) {
            Ok(None)
        } else {
            match spec_chunk(rest, lowered(kind)) {
                Err(e) => Err(e),
                Ok(found) => Ok(Some(found)),
            }
        },
    }
}

/// The chunks of a document, from `s` on, after the objects in `acc`: the
/// objects of the document.
pub open spec fn spec_chunks(s: Seq<u8>, acc: Seq<MqoObjectModel>) -> Result<
    Seq<MqoObjectModel>,
    MqoError,
>
    decreases s.len(),
{
    match spec_next_chunk(s) {
        Err(e) => Err(e),
        Ok(None) => Ok(acc),
        Ok(Some((next, found))) => if next.len() < s.len() {
            spec_chunks(
                next,
                match found {
                    Some(object) => acc.push(object),
                    None => acc,
                },
            )
        } else {
            Err(MqoError::UnexpectedEof)
        },
    }
}

/// One chunk of the kind `key`: what follows it, and its object if it is
/// one.
pub open spec fn spec_chunk(s: Seq<u8>, key: Seq<u8>) -> Result<
    (Seq<u8>, Option<MqoObjectModel>),
    MqoError,
> {
    if key == word_bytes("material"@) {
        match spec_chunk_material(s) {
            Err(e) => Err(e),
            Ok(next) => Ok((next, None)),
        }
    } else if key == word_bytes("object"@) {
        match token_of(s) {
            Err(e) => Err(e),
            Ok((rest, name)) => spec_chunk_object(rest, name),
        }
    } else {
        match spec_skip_chunk(s, 0) {
            Err(e) => Err(e),
            Ok(next) => Ok((next, None)),
        }
    }
}

/// The objects of the document `s`.
pub open spec fn spec_load_mqo(s: Seq<u8>) -> Result<Seq<MqoObjectModel>, MqoError> {
    match spec_header(s) {
        Err(e) => Err(e),
        Ok(rest) => spec_chunks(rest, Seq::empty()),
    }
}

fn chunk<'a>(input: &'a [u8], key: &[u8]) -> (r: Result<(&'a [u8], Option<MqoObject>), MqoError>)
    ensures
        match r {
            Ok((rest, found)) => spec_chunk(input@, key@) matches Ok((next, m)) && rest@ == next
                && object_read(found, m) && rest@.len() < input@.len(),
            Err(e) => spec_chunk(input@, key@) == Err::<
                (Seq<u8>, Option<MqoObjectModel>),
                MqoError,
            >(e),
        },
{
    proof {
        reveal_strlit("material");
        reveal_strlit("object");
    }
    if is_word(key, "material") {
        let next = chunk_material(input)?;
        Ok((next, None))
    } else if is_word(key, "object") {
        let (rest, name) = read_token(input)?;
        chunk_object(rest, name)
    } else {
        let next = skip_chunk(input)?;
        Ok((next, None))
    }
}

fn ends_document(key: &[u8]) -> (r: bool)
    ensures
        r == (key@ == word_bytes("eof"@)),
{
    proof {
        reveal_strlit("eof");
    }
    is_word(key, "eof")
}

fn next_chunk(input: &[u8]) -> (r: Result<Option<(&[u8], Option<MqoObject>)>, MqoError>)
    ensures
        match r {
            Ok(Some((rest, found))) => spec_next_chunk(input@) matches Ok(Some((next, m))) && rest@
                == next && object_read(found, m) && rest@.len() < input@.len(),
            Ok(None) => spec_next_chunk(input@) matches Ok(None),
            Err(e) => spec_next_chunk(input@) == Err::<
                Option<(Seq<u8>, Option<MqoObjectModel>)>,
                MqoError,
            >(e),
        },
{
    let (rest, kind) = match read_token(input) {
        Ok(found) => found,
        Err(_) => {
            return Ok(None);
        },
    };
    let key = to_lower(kind.as_slice());
    if ends_document(key.as_slice()) {
        return Ok(None);
    }
    match chunk(rest, key.as_slice()) {
        Ok(found) => Ok(Some(found)),
        Err(e) => Err(e),
    }
}

/// Reads a Metasequoia document: its objects, in order, that have a
/// vertex and a triangle.
pub fn load_mqo(input: &[u8]) -> (r: Result<Vec<MqoObject>, MqoError>)
    ensures
        match r {
            Ok(v) => spec_load_mqo(input@) == Ok::<Seq<MqoObjectModel>, MqoError>(
                object_models(v@),
            ),
            Err(e) => spec_load_mqo(input@) == Err::<Seq<MqoObjectModel>, MqoError>(e),
        },
{
    let start = read_header(input)?;
    let mut objects: Vec<MqoObject> = Vec::new();
    let mut at: &[u8] = start;
    assert(object_models(objects@) =~= Seq::<MqoObjectModel>::empty());
    loop
        invariant
            spec_header(input@) == Ok::<Seq<u8>, MqoError>(start@),
            spec_chunks(start@, Seq::empty()) == spec_chunks(at@, object_models(objects@)),
        decreases at@.len(),
    {
        let (next, found) = match next_chunk(at) {
            Ok(Some(found)) => found,
            Ok(None) => {
                return Ok(objects);
            },
            Err(e) => {
                return Err(e);
            },
        };
        match found {
            Some(object) => {
                assert(object_models(objects@.push(object)) =~= object_models(objects@).push(
                    object@,
                ));
                objects.push(object);
            },
            None => {},
        }
        at = next;
    }
}

} // verus!
