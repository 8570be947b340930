//! The Wavefront OBJ subset that the application reads: vertex lines
//! (`v x y z`), vertex normal lines (`vn x y z`) and face lines
//! (`f v/t/n v/t/n v/t/n ...`), fields separated by single spaces.
//!
//! Coordinates are kept as the text of their fields; turning them into
//! numbers is left to the caller. Face references are checked against the
//! vertices and normals defined on the lines before them.
use vstd::prelude::*;
use crate::text::{
    byte_seqs, split, lines, split_bytes, text_lines, lemma_split_shape, lemma_split_plain,
    lemma_split_sep_then_plain,
};

verus! {

/// The space byte, which separates the fields of a line.
pub const SPACE: u8 = 32u8;

/// The slash byte, which separates the indices of a face corner.
pub const SLASH: u8 = 47u8;

/// The plus sign that may lead a decimal number.
pub const PLUS: u8 = 43u8;

/// An ASCII decimal digit.
pub open spec fn is_digit(b: u8) -> bool {
    48 <= b <= 57
}

/// The value of a string of decimal digits.
pub open spec fn decimal_value(s: Seq<u8>) -> nat
    decreases s.len(),
{
    if s.len() == 0 {
        0
    } else {
        decimal_value(s.drop_last()) * 10 + (s.last() - 48) as nat
    }
}

/// A field without its leading plus sign, if it has one.
pub open spec fn unsigned_digits(tok: Seq<u8>) -> Seq<u8> {
    if tok.len() > 0 && tok[0] == PLUS {
        tok.skip(1)
    } else {
        tok
    }
}

/// What `str::parse::<usize>` gives for a field: an optional leading `+`,
/// then at least one decimal digit and nothing else, with a value that fits
/// in `usize`.
pub open spec fn parse_usize(tok: Seq<u8>) -> Option<nat> {
    let digits = unsigned_digits(tok);
    if digits.len() > 0 && (forall|i: int| 0 <= i < digits.len() ==> is_digit(#[trigger] digits[i]))
        && decimal_value(digits) <= usize::MAX {
        Some(decimal_value(digits))
    } else {
        None
    }
}

/// A decimal value only grows as digits are appended.
proof fn lemma_decimal_prefix(s: Seq<u8>, i: int)
    requires
        0 <= i <= s.len(),
        forall|k: int| 0 <= k < s.len() ==> is_digit(#[trigger] s[k]),
    ensures
        decimal_value(s.take(i)) <= decimal_value(s),
    decreases s.len() - i,
{
    if i < s.len() {
        lemma_decimal_prefix(s, i + 1);
        assert(s.take(i + 1).drop_last() =~= s.take(i));
    } else {
        assert(s.take(i) =~= s);
    }
}

/// `str::parse::<usize>` on a field.
pub fn parse_usize_field(tok: &[u8]) -> (res: Option<usize>)
    ensures
        match parse_usize(tok@) {
            Some(v) => res == Some(v as usize),
            None => res.is_none(),
        },
{
    let n = tok.len();
    let start: usize = if n > 0 && tok[0] == PLUS {
        1
    } else {
        0
    };
    let ghost digits = unsigned_digits(tok@);
    assert(digits =~= tok@.subrange(start as int, n as int));
    if start >= n {
        return None;
    }
    let mut value: usize = 0;
    let mut i: usize = start;
    while i < n
        invariant
            start <= i <= n,
            n == tok@.len(),
            digits =~= tok@.subrange(start as int, n as int),
            digits == unsigned_digits(tok@),
            forall|k: int| 0 <= k < i - start ==> is_digit(#[trigger] digits[k]),
            value as nat == decimal_value(digits.take(i - start)),
        decreases n - i,
    {
        let b = tok[i];
        if b < 48 || b > 57 {
            assert(!is_digit(digits[i - start]));
            assert(parse_usize(tok@).is_none());
            return None;
        }
        proof {
            assert(digits.take(i - start + 1).drop_last() =~= digits.take(i - start));
            assert(digits.take(i - start + 1).last() == b);
            assert(decimal_value(digits.take(i - start + 1)) == value * 10 + (b - 48));
        }
        let d = (b - 48) as usize;
        match value.checked_mul(10) {
            None => {
                proof {
                    lemma_rest_digits(digits, (i - start) as int);
                    assert(parse_usize(tok@).is_none());
                }
                return None;
            },
            Some(t) => match t.checked_add(d) {
                None => {
                    proof {
                        lemma_rest_digits(digits, (i - start) as int);
                        assert(parse_usize(tok@).is_none());
                    }
                    return None;
                },
                Some(v) => {
                    value = v;
                },
            },
        }
        i = i + 1;
    }
    assert(digits.take(n - start) =~= digits);
    Some(value)
}

/// When the value of the first `i + 1` digits already passes `usize::MAX`, the
/// field does not parse, whatever follows.
proof fn lemma_rest_digits(digits: Seq<u8>, i: int)
    requires
        0 <= i < digits.len(),
        forall|k: int| 0 <= k <= i ==> is_digit(#[trigger] digits[k]),
        decimal_value(digits.take(i + 1)) > usize::MAX,
    ensures
        !((forall|k: int| 0 <= k < digits.len() ==> is_digit(#[trigger] digits[k]))
            && decimal_value(digits) <= usize::MAX),
{
    if forall|k: int| 0 <= k < digits.len() ==> is_digit(#[trigger] digits[k]) {
        lemma_decimal_prefix(digits, i + 1);
    }
}

} // verus!

verus! {

/// One corner of a face: the index of its vertex and, when the corner names
/// one, of its normal (both counted from 0).
#[derive(Clone, Copy, Debug, PartialEq, Eq, Structural)]
pub struct FaceRef {
    pub vertex: usize,
    pub normal: Option<usize>,
}

/// The text of the three coordinate fields of a `v` or `vn` line.
pub struct Coords {
    pub x: Vec<u8>,
    pub y: Vec<u8>,
    pub z: Vec<u8>,
}

impl View for Coords {
    type V = Seq<Seq<u8>>;

    open spec fn view(&self) -> Seq<Seq<u8>> {
        seq![self.x@, self.y@, self.z@]
    }
}

/// The corners of a face, in the order of the line (at least three).
pub struct ObjFace {
    pub corners: Vec<FaceRef>,
}

/// A parsed model: vertices, normals and faces in the order of their lines.
pub struct ObjModel {
    pub vertices: Vec<Coords>,
    pub normals: Vec<Coords>,
    pub faces: Vec<ObjFace>,
}

/// The abstract content of a model.
#[verifier::ext_equal]
pub struct ObjSpec {
    pub vertices: Seq<Seq<Seq<u8>>>,
    pub normals: Seq<Seq<Seq<u8>>>,
    pub faces: Seq<Seq<FaceRef>>,
}

impl View for ObjModel {
    type V = ObjSpec;

    open spec fn view(&self) -> ObjSpec {
        ObjSpec {
            vertices: self.vertices@.map_values(|c: Coords| c@),
            normals: self.normals@.map_values(|c: Coords| c@),
            faces: self.faces@.map_values(|f: ObjFace| f.corners@),
        }
    }
}

/// Why a line was refused.
#[derive(Clone, Copy, Debug, PartialEq, Eq, Structural)]
pub enum ObjErrorKind {
    /// A face corner whose vertex index is not a number from 1 to the number
    /// of vertices defined so far.
    VertexRef,
    /// A face corner with a normal field whose index is not a number from 1
    /// to the number of normals defined so far.
    NormalRef,
    /// A face line with fewer than three corners.
    TooFewCorners,
    /// A `v` or `vn` line with fewer than three coordinate fields.
    MissingCoordinate,
}

/// The first refused line (counted from 0) and why it was refused.
#[derive(Clone, Copy, Debug, PartialEq, Eq, Structural)]
pub struct ObjError {
    pub line: usize,
    pub kind: ObjErrorKind,
}

/// The model with no lines read.
pub open spec fn empty_model() -> ObjSpec {
    ObjSpec {
        vertices: Seq::empty(),
        normals: Seq::empty(),
        faces: Seq::empty(),
    }
}

/// A 1-based index field checked against `count` items, turned 0-based.
pub open spec fn resolve_index(tok: Seq<u8>, count: nat) -> Option<usize> {
    match parse_usize(tok) {
        Some(k) => if 1 <= k <= count {
            Some((k - 1) as usize)
        } else {
            None
        },
        None => None,
    }
}

/// A face corner `v`, `v/t` or `v/t/n...`: the vertex index comes from the
/// first part, the normal index from the third part when there is one.
pub open spec fn parse_corner(tok: Seq<u8>, nv: nat, nn: nat) -> Result<FaceRef, ObjErrorKind> {
    let parts = split(tok, SLASH);
    match resolve_index(parts[0], nv) {
        None => Err(ObjErrorKind::VertexRef),
        Some(v) => if parts.len() <= 2 {
            Ok(FaceRef { vertex: v, normal: None })
        } else {
            match resolve_index(parts[2], nn) {
                None => Err(ObjErrorKind::NormalRef),
                Some(n) => Ok(FaceRef { vertex: v, normal: Some(n) }),
            }
        },
    }
}

/// All corners of a face line, or the error of the first bad one.
pub open spec fn parse_corners(toks: Seq<Seq<u8>>, nv: nat, nn: nat) -> Result<
    Seq<FaceRef>,
    ObjErrorKind,
>
    decreases toks.len(),
{
    if toks.len() == 0 {
        Ok(Seq::empty())
    } else {
        match parse_corners(toks.drop_last(), nv, nn) {
            Err(k) => Err(k),
            Ok(cs) => match parse_corner(toks.last(), nv, nn) {
                Err(k) => Err(k),
                Ok(c) => Ok(cs.push(c)),
            },
        }
    }
}

/// The model after one more line.
pub open spec fn parse_line(m: ObjSpec, line: Seq<u8>) -> Result<ObjSpec, ObjErrorKind> {
    let fields = split(line, SPACE);
    let head = fields[0];
    if head == seq![102u8] {
        match parse_corners(fields.skip(1), m.vertices.len(), m.normals.len()) {
            Err(k) => Err(k),
            Ok(cs) => if cs.len() < 3 {
                Err(ObjErrorKind::TooFewCorners)
            } else {
                Ok(ObjSpec { faces: m.faces.push(cs), ..m })
            },
        }
    } else if head == seq![118u8] {
        if fields.len() < 4 {
            Err(ObjErrorKind::MissingCoordinate)
        } else {
            Ok(ObjSpec { vertices: m.vertices.push(fields.subrange(1, 4)), ..m })
        }
    } else if head == seq![118u8, 110u8] {
        if fields.len() < 4 {
            Err(ObjErrorKind::MissingCoordinate)
        } else {
            Ok(ObjSpec { normals: m.normals.push(fields.subrange(1, 4)), ..m })
        }
    } else {
        Ok(m)
    }
}

/// The model read from a sequence of lines, or the first error.
pub open spec fn parse_lines(ls: Seq<Seq<u8>>) -> Result<ObjSpec, ObjError>
    decreases ls.len(),
{
    if ls.len() == 0 {
        Ok(empty_model())
    } else {
        match parse_lines(ls.drop_last()) {
            Err(e) => Err(e),
            Ok(m) => match parse_line(m, ls.last()) {
                Err(k) => Err(ObjError { line: (ls.len() - 1) as usize, kind: k }),
                Ok(m2) => Ok(m2),
            },
        }
    }
}

/// The model held by an OBJ text.
pub open spec fn parse_obj_spec(data: Seq<u8>) -> Result<ObjSpec, ObjError> {
    parse_lines(lines(data))
}

/// A field of a line: text without a space in it.
pub open spec fn is_field(b: Seq<u8>) -> bool {
    forall|k: int| 0 <= k < b.len() ==> b[k] != SPACE
}

/// The fields of `keyword x y z` are the keyword and the three coordinates.
proof fn lemma_fields_of_coordinate_line(kw: Seq<u8>, x: Seq<u8>, y: Seq<u8>, z: Seq<u8>)
    requires
        is_field(kw),
        is_field(x),
        is_field(y),
        is_field(z),
    ensures
        split(kw + seq![SPACE] + x + seq![SPACE] + y + seq![SPACE] + z, SPACE) == seq![kw, x, y, z],
{
    let l1 = kw.push(SPACE) + x;
    let l2 = l1.push(SPACE) + y;
    let l3 = l2.push(SPACE) + z;
    assert(kw + seq![SPACE] + x + seq![SPACE] + y + seq![SPACE] + z =~= l3);
    lemma_split_plain(kw, SPACE);
    lemma_split_sep_then_plain(kw, x, SPACE);
    lemma_split_sep_then_plain(l1, y, SPACE);
    lemma_split_sep_then_plain(l2, z, SPACE);
    assert(seq![kw].push(x).push(y).push(z) =~= seq![kw, x, y, z]);
}

/// A line `v x y z` adds the vertex with coordinates `x`, `y`, `z`, and a
/// line `vn x y z` adds the normal with those coordinates; nothing else of
/// the model changes.
pub proof fn law_coordinate_lines(m: ObjSpec, x: Seq<u8>, y: Seq<u8>, z: Seq<u8>)
    requires
        is_field(x),
        is_field(y),
        is_field(z),
    ensures
        parse_line(m, seq![118u8, SPACE] + x + seq![SPACE] + y + seq![SPACE] + z) == Ok::<
            ObjSpec,
            ObjErrorKind,
        >(ObjSpec { vertices: m.vertices.push(seq![x, y, z]), ..m }),
        parse_line(m, seq![118u8, 110u8, SPACE] + x + seq![SPACE] + y + seq![SPACE] + z) == Ok::<
            ObjSpec,
            ObjErrorKind,
        >(ObjSpec { normals: m.normals.push(seq![x, y, z]), ..m }),
{
    let v = seq![118u8];
    let vn = seq![118u8, 110u8];
    lemma_fields_of_coordinate_line(v, x, y, z);
    lemma_fields_of_coordinate_line(vn, x, y, z);
    assert(seq![118u8, SPACE] + x =~= v + seq![SPACE] + x);
    assert(seq![118u8, 110u8, SPACE] + x =~= vn + seq![SPACE] + x);
    assert(seq![v, x, y, z].subrange(1, 4) =~= seq![x, y, z]);
    assert(seq![vn, x, y, z].subrange(1, 4) =~= seq![x, y, z]);
    assert(v[0] != seq![102u8][0]);
    assert(vn.len() != seq![102u8].len());
    assert(vn.len() != seq![118u8].len());
}

/// Reading one more `vn x y z` line after lines that were read without
/// error adds exactly the normal `[x, y, z]` at the end of the normals.
pub proof fn law_normal_line_appends(ls: Seq<Seq<u8>>, m: ObjSpec, x: Seq<u8>, y: Seq<u8>, z: Seq<u8>)
    requires
        parse_lines(ls) == Ok::<ObjSpec, ObjError>(m),
        is_field(x),
        is_field(y),
        is_field(z),
    ensures
        parse_lines(ls.push(seq![118u8, 110u8, SPACE] + x + seq![SPACE] + y + seq![SPACE] + z))
            == Ok::<ObjSpec, ObjError>(ObjSpec { normals: m.normals.push(seq![x, y, z]), ..m }),
{
    let line = seq![118u8, 110u8, SPACE] + x + seq![SPACE] + y + seq![SPACE] + z;
    law_coordinate_lines(m, x, y, z);
    assert(ls.push(line).drop_last() =~= ls);
}

/// Once a prefix of the corners fails, the whole face fails the same way.
proof fn lemma_corners_error_sticks(toks: Seq<Seq<u8>>, i: int, nv: nat, nn: nat)
    requires
        0 <= i <= toks.len(),
        parse_corners(toks.take(i), nv, nn) is Err,
    ensures
        parse_corners(toks, nv, nn) == parse_corners(toks.take(i), nv, nn),
    decreases toks.len() - i,
{
    if i < toks.len() {
        assert(toks.take(i + 1).drop_last() =~= toks.take(i));
        lemma_corners_error_sticks(toks, i + 1, nv, nn);
    } else {
        assert(toks.take(i) =~= toks);
    }
}

/// Once a prefix of the lines fails, the whole text fails the same way.
proof fn lemma_lines_error_sticks(ls: Seq<Seq<u8>>, i: int)
    requires
        0 <= i <= ls.len(),
        parse_lines(ls.take(i)) is Err,
    ensures
        parse_lines(ls) == parse_lines(ls.take(i)),
    decreases ls.len() - i,
{
    if i < ls.len() {
        assert(ls.take(i + 1).drop_last() =~= ls.take(i));
        lemma_lines_error_sticks(ls, i + 1);
    } else {
        assert(ls.take(i) =~= ls);
    }
}

/// Check a 1-based index field against `count` items.
fn resolve_field(tok: &[u8], count: usize) -> (r: Option<usize>)
    ensures
        r == resolve_index(tok@, count as nat),
{
    match parse_usize_field(tok) {
        Some(k) => if 1 <= k && k <= count {
            Some(k - 1)
        } else {
            None
        },
        None => None,
    }
}

/// Read one face corner.
fn parse_corner_field(tok: &[u8], nv: usize, nn: usize) -> (r: Result<FaceRef, ObjErrorKind>)
    ensures
        r == parse_corner(tok@, nv as nat, nn as nat),
{
    let parts = split_bytes(tok, SLASH);
    proof {
        lemma_split_shape(tok@, SLASH);
        assert(parts@[0]@ == split(tok@, SLASH)[0]);
    }
    match resolve_field(parts[0].as_slice(), nv) {
        None => Err(ObjErrorKind::VertexRef),
        Some(v) => if parts.len() <= 2 {
            Ok(FaceRef { vertex: v, normal: None })
        } else {
            assert(parts@[2]@ == split(tok@, SLASH)[2]);
            match resolve_field(parts[2].as_slice(), nn) {
                None => Err(ObjErrorKind::NormalRef),
                Some(n) => Ok(FaceRef { vertex: v, normal: Some(n) }),
            }
        },
    }
}

/// Read the corners of a face line whose fields are `fields`.
fn parse_face_fields(fields: &Vec<Vec<u8>>, nv: usize, nn: usize) -> (r: Result<
    Vec<FaceRef>,
    ObjErrorKind,
>)
    requires
        fields@.len() >= 1,
    ensures
        match r {
            Ok(cs) => parse_corners(byte_seqs(fields@).skip(1), nv as nat, nn as nat) == Ok::<
                Seq<FaceRef>,
                ObjErrorKind,
            >(cs@),
            Err(k) => parse_corners(byte_seqs(fields@).skip(1), nv as nat, nn as nat) == Err::<
                Seq<FaceRef>,
                ObjErrorKind,
            >(k),
        },
{
    let ghost toks = byte_seqs(fields@).skip(1);
    let mut corners: Vec<FaceRef> = Vec::new();
    let mut i: usize = 1;
    assert(toks.take(0) =~= Seq::<Seq<u8>>::empty());
    while i < fields.len()
        invariant
            1 <= i <= fields@.len(),
            toks == byte_seqs(fields@).skip(1),
            toks.len() == fields@.len() - 1,
            parse_corners(toks.take(i - 1), nv as nat, nn as nat) == Ok::<
                Seq<FaceRef>,
                ObjErrorKind,
            >(corners@),
        decreases fields@.len() - i,
    {
        proof {
            assert(toks.take(i as int).drop_last() =~= toks.take(i - 1));
            assert(toks.take(i as int).last() == fields@[i as int]@);
        }
        match parse_corner_field(fields[i].as_slice(), nv, nn) {
            Err(k) => {
                proof {
                    lemma_corners_error_sticks(toks, i as int, nv as nat, nn as nat);
                }
                return Err(k);
            },
            Ok(c) => {
                corners.push(c);
            },
        }
        i = i + 1;
    }
    assert(toks.take(i - 1) =~= toks);
    Ok(corners)
}

/// Move the three coordinate fields out of a `v` or `vn` line.
fn take_coords(fields: &mut Vec<Vec<u8>>) -> (c: Coords)
    requires
        old(fields)@.len() >= 4,
    ensures
        c@ == byte_seqs(old(fields)@).subrange(1, 4),
{
    let mut x: Vec<u8> = Vec::new();
    let mut y: Vec<u8> = Vec::new();
    let mut z: Vec<u8> = Vec::new();
    let ghost f = old(fields)@;
    fields.set_and_swap(1, &mut x);
    fields.set_and_swap(2, &mut y);
    fields.set_and_swap(3, &mut z);
    let c = Coords { x, y, z };
    assert(c@ =~= byte_seqs(f).subrange(1, 4));
    c
}

/// Whether a field is exactly the given one- or two-byte keyword.
fn is_keyword(field: &Vec<u8>, k0: u8, k1: Option<u8>) -> (r: bool)
    ensures
        r == (field@ == match k1 {
            Some(b) => seq![k0, b],
            None => seq![k0],
        }),
{
    match k1 {
        None => {
            let r = field.len() == 1 && field[0] == k0;
            if r {
                assert(field@ =~= seq![k0]);
            }
            r
        },
        Some(b) => {
            let r = field.len() == 2 && field[0] == k0 && field[1] == b;
            if r {
                assert(field@ =~= seq![k0, b]);
            }
            r
        },
    }
}

/// Read one line into the model.
fn parse_line_into(m: &mut ObjModel, line: &Vec<u8>) -> (r: Result<(), ObjErrorKind>)
    ensures
        match parse_line(old(m)@, line@) {
            Ok(m2) => r is Ok && final(m)@ == m2,
            Err(k) => r == Err::<(), ObjErrorKind>(k),
        },
{
    let mut fields = split_bytes(line.as_slice(), SPACE);
    proof {
        lemma_split_shape(line@, SPACE);
    }
    let ghost fs = split(line@, SPACE);
    assert(fields@[0]@ == fs[0]);
    if is_keyword(&fields[0], 102u8, None) {
        assert(byte_seqs(fields@).skip(1) == fs.skip(1));
        match parse_face_fields(&fields, m.vertices.len(), m.normals.len()) {
            Err(k) => Err(k),
            Ok(cs) => if cs.len() < 3 {
                Err(ObjErrorKind::TooFewCorners)
            } else {
                let ghost before = m@;
                m.faces.push(ObjFace { corners: cs });
                assert(m@ =~= ObjSpec { faces: before.faces.push(cs@), ..before });
                Ok(())
            },
        }
    } else if is_keyword(&fields[0], 118u8, None) {
        if fields.len() < 4 {
            Err(ObjErrorKind::MissingCoordinate)
        } else {
            let ghost before = m@;
            let c = take_coords(&mut fields);
            m.vertices.push(c);
            assert(m@ =~= ObjSpec { vertices: before.vertices.push(fs.subrange(1, 4)), ..before });
            Ok(())
        }
    } else if is_keyword(&fields[0], 118u8, Some(110u8)) {
        if fields.len() < 4 {
            Err(ObjErrorKind::MissingCoordinate)
        } else {
            let ghost before = m@;
            let c = take_coords(&mut fields);
            m.normals.push(c);
            assert(m@ =~= ObjSpec { normals: before.normals.push(fs.subrange(1, 4)), ..before });
            Ok(())
        }
    } else {
        Ok(())
    }
}

/// Read an OBJ text. On success the model holds every `v`, `vn` and `f` line
/// in order; otherwise the first line that the application could not use is
/// reported.
pub fn parse_obj(data: &[u8]) -> (res: Result<ObjModel, ObjError>)
    ensures
        match res {
            Ok(m) => parse_obj_spec(data@) == Ok::<ObjSpec, ObjError>(m@),
            Err(e) => parse_obj_spec(data@) == Err::<ObjSpec, ObjError>(e),
        },
{
    let ls = text_lines(data);
    let ghost lsv = lines(data@);
    let mut m = ObjModel { vertices: Vec::new(), normals: Vec::new(), faces: Vec::new() };
    assert(m@ =~= empty_model());
    assert(lsv.take(0) =~= Seq::<Seq<u8>>::empty());
    let mut i: usize = 0;
    while i < ls.len()
        invariant
            0 <= i <= ls@.len(),
            byte_seqs(ls@) == lsv,
            lsv == lines(data@),
            parse_lines(lsv.take(i as int)) == Ok::<ObjSpec, ObjError>(m@),
        decreases ls@.len() - i,
    {
        proof {
            assert(lsv.take(i + 1).drop_last() =~= lsv.take(i as int));
            assert(lsv.take(i + 1).last() == ls@[i as int]@);
        }
        match parse_line_into(&mut m, &ls[i]) {
            Err(k) => {
                proof {
                    lemma_lines_error_sticks(lsv, i + 1);
                }
                return Err(ObjError { line: i, kind: k });
            },
            Ok(()) => {},
        }
        i = i + 1;
    }
    assert(lsv.take(i as int) =~= lsv);
    Ok(m)
}

} // verus!
