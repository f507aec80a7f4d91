//! The OBJ text format: reading, writing and decompressing.

use std::io::Read;

use vstd::prelude::*;
use vstd::string::{StrSliceExecFns, StringExecFns};

use crate::extract::same_text;
use crate::io::{IOFace, IOMesh, IOPatch, IOVertex};

verus! {

/// A vertex position as written in a file: the texts of its three
/// coordinates.
#[derive(Debug, Clone)]
pub struct CoordText {
    pub x: String,
    pub y: String,
    pub z: String,
}

impl View for CoordText {
    type V = (Seq<char>, Seq<char>, Seq<char>);

    open spec fn view(&self) -> (Seq<char>, Seq<char>, Seq<char>) {
        (self.x@, self.y@, self.z@)
    }
}

/// A malformed line of an OBJ text, by its 0-based index.
#[derive(Debug, Clone, Copy, PartialEq, Eq, Structural)]
pub struct ParseError {
    pub line: usize,
}

/// The lines of a text, as `str::lines` gives them.
pub uninterp spec fn lines_of(s: Seq<char>) -> Seq<Seq<char>>;

/// The whitespace-separated words of a text, as `str::split_whitespace`
/// gives them.
pub uninterp spec fn words_of(s: Seq<char>) -> Seq<Seq<char>>;

/// Relies on `str::lines`: the lines of the text without their endings.
#[verifier::external_body]
fn text_lines(s: &str) -> (r: Vec<String>)
    ensures
        r@.map_values(|l: String| l@) == lines_of(s@),
{
    s.lines().map(|l| l.to_string()).collect()
}

/// Relies on `str::split_whitespace`: the words of the text.
#[verifier::external_body]
fn text_words(s: &str) -> (r: Vec<String>)
    ensures
        r@.map_values(|w: String| w@) == words_of(s@),
{
    s.split_whitespace().map(|w| w.to_string()).collect()
}

/// What an OBJ text describes: vertex coordinate texts, faces as 0-based
/// vertex indices with a patch index, and patch names.
pub struct ObjModel {
    pub vertices: Seq<(Seq<char>, Seq<char>, Seq<char>)>,
    pub faces: Seq<(Seq<usize>, Option<usize>)>,
    pub patches: Seq<Seq<char>>,
}

/// The patch that newly read faces join: the last one opened, if any.
pub open spec fn latest(st: ObjModel) -> Option<usize> {
    if st.patches.len() == 0 {
        None
    } else {
        Some((st.patches.len() - 1) as usize)
    }
}

/// Words `1 .. n` of `w` joined by single spaces.
pub open spec fn group_name(w: Seq<Seq<char>>, n: int) -> Seq<char>
    decreases n,
{
    if n <= 2 {
        w[1]
    } else {
        group_name(w, n - 1) + seq![' '] + w[n - 1]
    }
}

/// The effect of one line, given by its words: `v x y z` adds a vertex,
/// `f r1 r2 r3 ...` a face in the latest patch, `g name` a patch; other
/// lines change nothing. `None` for a malformed line.
pub open spec fn obj_line(st: ObjModel, w: Seq<Seq<char>>) -> Option<ObjModel> {
    if w.len() == 0 {
        Some(st)
    } else if w[0] == seq!['v'] {
        if w.len() == 4 {
            Some(ObjModel { vertices: st.vertices.push((w[1], w[2], w[3])), ..st })
        } else {
            None
        }
    } else if w[0] == seq!['f'] {
        if w.len() >= 4 && forall|i: int| 1 <= i < w.len() ==> #[trigger] ref_value(w[i]).is_some() {
            Some(
                ObjModel {
                    faces: st.faces.push(
                        (Seq::new((w.len() - 1) as nat, |i: int| ref_value(w[i + 1]).unwrap()), latest(st)),
                    ),
                    ..st
                },
            )
        } else {
            None
        }
    } else if w[0] == seq!['g'] {
        if w.len() >= 2 {
            Some(ObjModel { patches: st.patches.push(group_name(w, w.len() as int)), ..st })
        } else {
            None
        }
    } else {
        Some(st)
    }
}

/// The model of the lines `ls`, or the index of the first malformed one.
pub open spec fn obj_parse(ls: Seq<Seq<char>>) -> Result<ObjModel, int>
    decreases ls.len(),
{
    if ls.len() == 0 {
        Ok(ObjModel { vertices: seq![], faces: seq![], patches: seq![] })
    } else {
        match obj_parse(ls.drop_last()) {
            Err(e) => Err(e),
            Ok(st) => match obj_line(st, words_of(ls.last())) {
                Some(next) => Ok(next),
                None => Err(ls.len() - 1),
            },
        }
    }
}

/// `io` holds what `st` describes.
pub open spec fn holds(io: IOMesh<CoordText>, st: ObjModel) -> bool {
    &&& io.spec_vertices().len() == st.vertices.len()
    &&& forall|i: int| 0 <= i < st.vertices.len() ==> (#[trigger] io.spec_vertices()[i]).spec_origin()@ == st.vertices[i]
    &&& io.spec_faces().len() == st.faces.len()
    &&& forall|i: int| #![trigger io.spec_faces()[i]]
        0 <= i < st.faces.len() ==> io.spec_faces()[i].spec_vertices() == st.faces[i].0
            && io.spec_faces()[i].spec_patch() == st.faces[i].1
    &&& io.spec_patches().len() == st.patches.len()
    &&& forall|i: int| 0 <= i < st.patches.len() ==> (#[trigger] io.spec_patches()[i])@ == st.patches[i]
}

/// The value of a string of decimal digits.
pub open spec fn digits_value(s: Seq<char>) -> int
    decreases s.len(),
{
    if s.len() == 0 {
        0
    } else {
        digits_value(s.drop_last()) * 10 + (s.last() as int - '0' as int)
    }
}

pub open spec fn all_digits(s: Seq<char>) -> bool {
    forall|i: int| 0 <= i < s.len() ==> '0' <= #[trigger] s[i] <= '9'
}

/// The value of a non-empty string of decimal digits that fits in `usize`.
pub open spec fn digits_index(d: Seq<char>) -> Option<usize> {
    if d.len() > 0 && all_digits(d) && digits_value(d) <= usize::MAX {
        Some(digits_value(d) as usize)
    } else {
        None
    }
}

/// A decimal index: digits, optionally after a `+`, whose value fits in
/// `usize`.
pub open spec fn index_value(s: Seq<char>) -> Option<usize> {
    digits_index(if s.len() > 0 && s[0] == '+' { s.skip(1) } else { s })
}

/// The part of a face reference before its first `/`.
pub open spec fn ref_part(s: Seq<char>) -> Seq<char>
    decreases s.len(),
{
    if s.len() == 0 {
        s
    } else if s[0] == '/' {
        Seq::empty()
    } else {
        seq![s[0]] + ref_part(s.drop_first())
    }
}

/// The 0-based vertex index that a face reference such as `12/4/7` names:
/// its 1-based vertex index, less one. Texture and normal indices are
/// ignored.
pub open spec fn ref_value(s: Seq<char>) -> Option<usize> {
    match index_value(ref_part(s)) {
        Some(v) => if v >= 1 {
            Some((v - 1) as usize)
        } else {
            None
        },
        None => None,
    }
}

proof fn lemma_digits_monotonic(s: Seq<char>, i: int)
    requires
        all_digits(s),
        0 <= i <= s.len(),
    ensures
        digits_value(s.take(i)) <= digits_value(s),
        0 <= digits_value(s.take(i)),
    decreases s.len() - i,
{
    if i < s.len() {
        lemma_digits_monotonic(s, i + 1);
        assert(s.take(i + 1).drop_last() =~= s.take(i));
        assert('0' <= s[i] <= '9');
    } else {
        assert(s.take(i) =~= s);
    }
    lemma_digits_nonneg(s.take(i));
}

proof fn lemma_digits_nonneg(s: Seq<char>)
    requires
        all_digits(s),
    ensures
        0 <= digits_value(s),
    decreases s.len(),
{
    if s.len() > 0 {
        lemma_digits_nonneg(s.drop_last());
        assert('0' <= s[s.len() - 1] <= '9');
    }
}

/// The value of the characters `from .. to` of `s` as a decimal index.
fn index_in(s: &str, from: usize, to: usize) -> (r: Option<usize>)
    requires
        from <= to <= s@.len(),
    ensures
        r == index_value(s@.subrange(from as int, to as int)),
{
    let ghost t = s@.subrange(from as int, to as int);
    let mut start = from;
    if from < to && s.get_char(from) == '+' {
        start = from + 1;
    }
    let ghost d = s@.subrange(start as int, to as int);
    proof {
        if from < to && t[0] == '+' {
            assert(d =~= t.skip(1));
        } else {
            assert(d =~= t);
        }
    }
    assert(index_value(t) == digits_index(d));
    if start == to {
        return None;
    }
    let lim = usize::MAX / 10;
    let last = usize::MAX % 10;
    let mut v: usize = 0;
    let mut i = start;
    while i < to
        invariant
            from <= start <= i <= to <= s@.len(),
            d == s@.subrange(start as int, to as int),
            t == s@.subrange(from as int, to as int),
            index_value(t) == digits_index(d),
            d.len() > 0,
            lim == usize::MAX / 10,
            last == usize::MAX % 10,
            all_digits(d.take(i - start)),
            v == digits_value(d.take(i - start)),
        decreases to - i,
    {
        let c = s.get_char(i);
        assert(c == d[i - start]);
        if c < '0' || c > '9' {
            assert(!all_digits(d));
            return None;
        }
        let dv = (c as u32 - '0' as u32) as usize;
        assert(d.take(i - start + 1).drop_last() =~= d.take(i - start));
        if v > lim || (v == lim && dv > last) {
            proof {
                assert(v * 10 + dv > usize::MAX) by (nonlinear_arith)
                    requires
                        v > lim || (v == lim && dv > last),
                        lim == usize::MAX / 10,
                        last == usize::MAX % 10,
                        0 <= dv,
                ;
                if all_digits(d) {
                    lemma_digits_monotonic(d, i - start + 1);
                    assert(digits_value(d.take(i - start + 1)) == v * 10 + dv);
                }
            }
            return None;
        }
        proof {
            assert(v * 10 + dv <= usize::MAX) by (nonlinear_arith)
                requires
                    !(v > lim || (v == lim && dv > last)),
                    lim == usize::MAX / 10,
                    last == usize::MAX % 10,
                    0 <= dv <= 9,
            ;
        }
        v = v * 10 + dv;
        i += 1;
    }
    assert(d.take(to - start) =~= d);
    Some(v)
}

/// The vertex index that a face reference names; see `ref_value`.
pub fn parse_ref(s: &str) -> (r: Option<usize>)
    ensures
        r == ref_value(s@),
{
    let n = s.unicode_len();
    let mut j: usize = 0;
    assert(s@.skip(0) =~= s@);
    assert(s@.take(0) =~= Seq::<char>::empty());
    while j < n && s.get_char(j) != '/'
        invariant
            n == s@.len(),
            j <= n,
            ref_part(s@) == s@.take(j as int) + ref_part(s@.skip(j as int)),
        decreases n - j,
    {
        assert(s@.skip(j as int).drop_first() =~= s@.skip(j + 1));
        assert(s@.take(j + 1) =~= s@.take(j as int) + seq![s@[j as int]]);
        j += 1;
    }
    if j < n {
        assert(s@.skip(j as int)[0] == '/');
        assert(ref_part(s@.skip(j as int)) =~= Seq::<char>::empty());
    } else {
        assert(s@.skip(j as int) =~= Seq::<char>::empty());
    }
    assert(ref_part(s@) =~= s@.subrange(0, j as int));
    match index_in(s, 0, j) {
        Some(v) => {
            if v >= 1 {
                Some(v - 1)
            } else {
                None
            }
        },
        None => None,
    }
}

/// The character of a decimal digit.
pub open spec fn digit_char(d: int) -> char {
    if d == 0 { '0' } else if d == 1 { '1' } else if d == 2 { '2' } else if d == 3 { '3' } else if d == 4 {
        '4'
    } else if d == 5 { '5' } else if d == 6 { '6' } else if d == 7 { '7' } else if d == 8 { '8' } else { '9' }
}

/// The decimal text of `n`.
pub open spec fn decimal(n: nat) -> Seq<char>
    decreases n,
{
    if n < 10 {
        seq![digit_char(n as int)]
    } else {
        decimal(n / 10) + seq![digit_char((n % 10) as int)]
    }
}

/// The line of a vertex: `v x y z`.
pub open spec fn vertex_line(c: (Seq<char>, Seq<char>, Seq<char>)) -> Seq<char> {
    seq!['v', ' '] + c.0 + seq![' '] + c.1 + seq![' '] + c.2 + seq!['\n']
}

/// The references of a face, each after a space, 1-based.
pub open spec fn refs_text(vs: Seq<usize>, n: int) -> Seq<char>
    decreases n,
{
    if n <= 0 {
        seq![]
    } else {
        refs_text(vs, n - 1) + seq![' '] + decimal((vs[n - 1] + 1) as nat)
    }
}

/// The line of a face: `f` and its 1-based vertex references.
pub open spec fn face_line(vs: Seq<usize>) -> Seq<char> {
    seq!['f'] + refs_text(vs, vs.len() as int) + seq!['\n']
}

/// The vertex lines of the first `n` vertices.
pub open spec fn vertices_text(io: IOMesh<CoordText>, n: int) -> Seq<char>
    decreases n,
{
    if n <= 0 {
        seq![]
    } else {
        vertices_text(io, n - 1) + vertex_line(io.spec_vertices()[n - 1].spec_origin()@)
    }
}

/// The lines of those of the first `n` faces whose patch is `patch`.
pub open spec fn faces_text(io: IOMesh<CoordText>, patch: Option<usize>, n: int) -> Seq<char>
    decreases n,
{
    if n <= 0 {
        seq![]
    } else if io.spec_faces()[n - 1].spec_patch() == patch {
        faces_text(io, patch, n - 1) + face_line(io.spec_faces()[n - 1].spec_vertices())
    } else {
        faces_text(io, patch, n - 1)
    }
}

/// The groups of the first `n` patches: each its `g` line, then its faces.
pub open spec fn groups_text(io: IOMesh<CoordText>, n: int) -> Seq<char>
    decreases n,
{
    if n <= 0 {
        seq![]
    } else {
        groups_text(io, n - 1) + seq!['g', ' '] + io.spec_patches()[n - 1]@ + seq!['\n'] + faces_text(
            io,
            Some((n - 1) as usize),
            io.spec_faces().len() as int,
        )
    }
}

/// The OBJ text of a mesh: its vertices in order, then the faces that
/// belong to no patch, then each patch's `g` line followed by its faces.
pub open spec fn obj_text(io: IOMesh<CoordText>) -> Seq<char> {
    vertices_text(io, io.spec_vertices().len() as int) + faces_text(io, None, io.spec_faces().len() as int)
        + groups_text(io, io.spec_patches().len() as int)
}

fn digit_text(d: u128) -> (r: &'static str)
    requires
        d < 10,
    ensures
        r@ == seq![digit_char(d as int)],
{
    proof {
        reveal_strlit("0");
        reveal_strlit("1");
        reveal_strlit("2");
        reveal_strlit("3");
        reveal_strlit("4");
        reveal_strlit("5");
        reveal_strlit("6");
        reveal_strlit("7");
        reveal_strlit("8");
        reveal_strlit("9");
    }
    let r = if d == 0 { "0" } else if d == 1 { "1" } else if d == 2 { "2" } else if d == 3 { "3" } else if d == 4 {
        "4"
    } else if d == 5 { "5" } else if d == 6 { "6" } else if d == 7 { "7" } else if d == 8 { "8" } else { "9" };
    assert(r@ =~= seq![digit_char(d as int)]);
    r
}

/// Append the decimal text of `n` to `out`.
fn push_decimal(out: &mut String, n: u128)
    ensures
        final(out)@ == old(out)@ + decimal(n as nat),
    decreases n,
{
    if n < 10 {
        out.append(digit_text(n));
    } else {
        push_decimal(out, n / 10);
        out.append(digit_text(n % 10));
    }
}

/// Write the OBJ text of a mesh whose coordinates are already text; see
/// `obj_text`.
pub fn write_obj(io: &IOMesh<CoordText>) -> (r: String)
    ensures
        r@ == obj_text(*io),
{
    proof {
        reveal_strlit("v ");
        reveal_strlit(" ");
        reveal_strlit("\n");
        reveal_strlit("g ");
        assert("v "@ =~= seq!['v', ' ']);
        assert(" "@ =~= seq![' ']);
        assert("\n"@ =~= seq!['\n']);
        assert("g "@ =~= seq!['g', ' ']);
    }
    let mut out = String::new();
    let nv = io.number_of_vertices();
    let mut i: usize = 0;
    while i < nv
        invariant
            nv == io.spec_vertices().len(),
            i <= nv,
            out@ == vertices_text(*io, i as int),
        decreases nv - i,
    {
        proof {
            reveal_strlit("v ");
            reveal_strlit(" ");
            reveal_strlit("\n");
            reveal_strlit("g ");
            reveal_strlit("f");
            assert("v "@ =~= seq!['v', ' ']);
            assert(" "@ =~= seq![' ']);
            assert("\n"@ =~= seq!['\n']);
            assert("g "@ =~= seq!['g', ' ']);
            assert("f"@ =~= seq!['f']);
        }
        let c = io.vertex(i).origin_ref();
        out.append("v ");
        out.append(c.x.as_str());
        out.append(" ");
        out.append(c.y.as_str());
        out.append(" ");
        out.append(c.z.as_str());
        out.append("\n");
        assert(out@ =~= vertices_text(*io, i + 1));
        i += 1;
    }
    let ghost head = out@;
    write_faces(io, &mut out, None);
    let np = io.number_of_patches();
    let mut p: usize = 0;
    while p < np
        invariant
            np == io.spec_patches().len(),
            p <= np,
            out@ == head + faces_text(*io, None, io.spec_faces().len() as int) + groups_text(*io, p as int),
        decreases np - p,
    {
        proof {
            reveal_strlit("v ");
            reveal_strlit(" ");
            reveal_strlit("\n");
            reveal_strlit("g ");
            reveal_strlit("f");
            assert("v "@ =~= seq!['v', ' ']);
            assert(" "@ =~= seq![' ']);
            assert("\n"@ =~= seq!['\n']);
            assert("g "@ =~= seq!['g', ' ']);
            assert("f"@ =~= seq!['f']);
        }
        let ghost before = out@;
        out.append("g ");
        out.append(io.patch(p).name());
        out.append("\n");
        write_faces(io, &mut out, Some(p));
        assert(out@ =~= head + faces_text(*io, None, io.spec_faces().len() as int) + groups_text(*io, p + 1));
        p += 1;
    }
    out
}

/// Append the lines of the faces whose patch is `patch`.
fn write_faces(io: &IOMesh<CoordText>, out: &mut String, patch: Option<usize>)
    ensures
        final(out)@ == old(out)@ + faces_text(*io, patch, io.spec_faces().len() as int),
{
    proof {
        reveal_strlit(" ");
        reveal_strlit("\n");
        reveal_strlit("f");
        assert(" "@ =~= seq![' ']);
        assert("\n"@ =~= seq!['\n']);
        assert("f"@ =~= seq!['f']);
    }
    let ghost start = out@;
    let nf = io.number_of_faces();
    let mut f: usize = 0;
    while f < nf
        invariant
            nf == io.spec_faces().len(),
            f <= nf,
            out@ == start + faces_text(*io, patch, f as int),
        decreases nf - f,
    {
        proof {
            reveal_strlit("v ");
            reveal_strlit(" ");
            reveal_strlit("\n");
            reveal_strlit("g ");
            reveal_strlit("f");
            assert("v "@ =~= seq!['v', ' ']);
            assert(" "@ =~= seq![' ']);
            assert("\n"@ =~= seq!['\n']);
            assert("g "@ =~= seq!['g', ' ']);
            assert("f"@ =~= seq!['f']);
        }
        let face = io.face(f);
        if face.patch() == patch {
            let ghost before = out@;
            out.append("f");
            let vs = face.vertices();
            let mut k: usize = 0;
            assert(out@ =~= before + seq!['f'] + refs_text(vs@, 0));
            while k < vs.len()
                invariant
                    k <= vs@.len(),
                    out@ == before + seq!['f'] + refs_text(vs@, k as int),
                decreases vs@.len() - k,
            {
                proof {
                    reveal_strlit(" ");
                    assert(" "@ =~= seq![' ']);
                }
                out.append(" ");
                push_decimal(out, vs[k] as u128 + 1);
                assert(out@ =~= before + seq!['f'] + refs_text(vs@, k + 1));
                k += 1;
            }
            out.append("\n");
            assert(out@ =~= start + faces_text(*io, patch, f + 1));
        }
        f += 1;
    }
}

/// Why the contents of a file could not be read as OBJ text.
#[derive(Debug, Clone, Copy, PartialEq, Eq, Structural)]
pub enum ReadError {
    /// The path has no file extension.
    InvalidPath,
    /// The contents are not valid gzip or not valid UTF-8 text.
    Corrupt,
}

/// The text that a gzip stream decompresses to, if it is valid gzip holding
/// UTF-8 text.
pub uninterp spec fn gunzip_text(b: Seq<u8>) -> Option<Seq<char>>;

/// The text that bytes encode, if they are valid UTF-8.
pub uninterp spec fn utf8_text(b: Seq<u8>) -> Option<Seq<char>>;

/// Relies on `flate2::read::GzDecoder`: decompresses a gzip stream and reads
/// it as UTF-8 text.
#[verifier::external_body]
fn gunzip(b: &Vec<u8>) -> (r: Option<String>)
    ensures
        match r {
            Some(s) => gunzip_text(b@) == Some(s@),
            None => gunzip_text(b@).is_none(),
        },
{
    let mut s = String::new();
    match flate2::read::GzDecoder::new(b.as_slice()).read_to_string(&mut s) {
        Ok(_) => Some(s),
        Err(_) => None,
    }
}

/// Relies on `String::from_utf8`: the text of UTF-8 bytes.
#[verifier::external_body]
fn utf8(b: Vec<u8>) -> (r: Option<String>)
    ensures
        match r {
            Some(s) => utf8_text(b@) == Some(s@),
            None => utf8_text(b@).is_none(),
        },
{
    String::from_utf8(b).ok()
}

/// A file extension that marks gzip-compressed contents: `gz` in any case.
pub open spec fn gz_extension(e: Seq<char>) -> bool {
    e.len() == 2 && (e[0] == 'g' || e[0] == 'G') && (e[1] == 'z' || e[1] == 'Z')
}

/// Whether a file extension marks gzip-compressed contents.
pub fn is_gz_extension(e: &str) -> (r: bool)
    ensures
        r == gz_extension(e@),
{
    if e.unicode_len() != 2 {
        return false;
    }
    let a = e.get_char(0);
    let b = e.get_char(1);
    (a == 'g' || a == 'G') && (b == 'z' || b == 'Z')
}

/// The text of an OBJ file from its extension and contents: contents with a
/// `gz` extension (in any case) are decompressed first. A path without an
/// extension is refused.
pub fn obj_file_text(extension: Option<&str>, bytes: Vec<u8>) -> (r: Result<String, ReadError>)
    ensures
        match extension {
            None => r == Err::<String, ReadError>(ReadError::InvalidPath),
            Some(e) => {
                let t = if gz_extension(e@) {
                    gunzip_text(bytes@)
                } else {
                    utf8_text(bytes@)
                };
                match t {
                    Some(text) => r.is_ok() && r.unwrap()@ == text,
                    None => r == Err::<String, ReadError>(ReadError::Corrupt),
                }
            },
        },
{
    match extension {
        None => Err(ReadError::InvalidPath),
        Some(e) => {
            let text = if is_gz_extension(e) {
                gunzip(&bytes)
            } else {
                utf8(bytes)
            };
            match text {
                Some(t) => Ok(t),
                None => Err(ReadError::Corrupt),
            }
        },
    }
}

/// A malformed line ends the reading: the lines after it do not matter.
proof fn lemma_parse_error_sticks(ls: Seq<Seq<char>>, k: int)
    requires
        0 <= k <= ls.len(),
        obj_parse(ls.take(k)) is Err,
    ensures
        obj_parse(ls) == obj_parse(ls.take(k)),
    decreases ls.len() - k,
{
    if k < ls.len() {
        assert(ls.take(k + 1).drop_last() =~= ls.take(k));
        lemma_parse_error_sticks(ls, k + 1);
    } else {
        assert(ls.take(k) =~= ls);
    }
}

/// Read an OBJ text: `v` lines add vertices (their three coordinates kept
/// as text), `f` lines add faces of at least three 1-based vertex references
/// to the patch opened last, `g` lines open patches; other lines are
/// ignored. Fails on the first malformed line.
pub fn parse_obj(text: &str) -> (r: Result<IOMesh<CoordText>, ParseError>)
    ensures
        match (r, obj_parse(lines_of(text@))) {
            (Ok(io), Ok(st)) => holds(io, st),
            (Err(e), Err(l)) => e.line == l,
            _ => false,
        },
{
    let lines = text_lines(text);
    let ghost ls = lines_of(text@);
    let mut io: IOMesh<CoordText> = IOMesh::new();
    let ghost mut st = ObjModel { vertices: seq![], faces: seq![], patches: seq![] };
    let n = lines.len();
    assert(ls.take(0) =~= Seq::<Seq<char>>::empty());
    let mut i: usize = 0;
    while i < n
        invariant
            ls == lines_of(text@),
            lines@.map_values(|l: String| l@) == ls,
            n == ls.len(),
            i <= n,
            obj_parse(ls.take(i as int)) == Ok::<ObjModel, int>(st),
            holds(io, st),
        decreases n - i,
    {
        assert(ls.take(i + 1).drop_last() =~= ls.take(i as int));
        assert(ls.take(i + 1).last() == ls[i as int]);
        assert(ls[i as int] == lines@[i as int]@);
        let w = text_words(lines[i].as_str());
        let ghost ws = words_of(ls[i as int]);
        assert(w@.map_values(|x: String| x@) == ws);
        proof {
            reveal_strlit("v");
            reveal_strlit("f");
            reveal_strlit("g");
            assert("v"@ =~= seq!['v']);
            assert("f"@ =~= seq!['f']);
            assert("g"@ =~= seq!['g']);
        }
        if w.len() == 0 {
        } else if same_text(w[0].as_str(), "v") {
            assert(ws[0] == w@[0]@);
            if w.len() != 4 {
                proof {
                    lemma_parse_error_sticks(ls, i as int + 1);
                }
                return Err(ParseError { line: i });
            }
            assert(ws[1] == w@[1]@ && ws[2] == w@[2]@ && ws[3] == w@[3]@);
            let c = CoordText { x: w[1].clone(), y: w[2].clone(), z: w[3].clone() };
            io.insert_vertex(IOVertex::new(c));
            proof {
                st = ObjModel { vertices: st.vertices.push((ws[1], ws[2], ws[3])), ..st };
            }
        } else if same_text(w[0].as_str(), "f") {
            assert(ws[0] == w@[0]@);
            assert(ws[0] != seq!['v']);
            if w.len() < 4 {
                proof {
                    lemma_parse_error_sticks(ls, i as int + 1);
                }
                return Err(ParseError { line: i });
            }
            let mut refs: Vec<usize> = Vec::new();
            let mut j: usize = 1;
            while j < w.len()
                invariant
                    w@.map_values(|x: String| x@) == ws,
                    ls == lines_of(text@),
                    n == ls.len(),
                    i < n,
                    obj_parse(ls.take(i as int)) == Ok::<ObjModel, int>(st),
                    ls.take(i + 1).drop_last() == ls.take(i as int),
                    ls.take(i + 1).last() == ls[i as int],
                    ws == words_of(ls[i as int]),
                    ws[0] == seq!['f'],
                    ws[0] != seq!['v'],
                    ws.len() >= 4,
                    1 <= j <= w@.len(),
                    refs@.len() == j - 1,
                    forall|k: int| 1 <= k < j ==> #[trigger] ref_value(ws[k]).is_some() && refs@[k - 1] == ref_value(ws[k]).unwrap(),
                decreases w@.len() - j,
            {
                assert(ws[j as int] == w@[j as int]@);
                match parse_ref(w[j].as_str()) {
                    Some(v) => refs.push(v),
                    None => {
                        proof {
                            assert(ref_value(ws[j as int]).is_none());
                            assert(obj_line(st, ws).is_none());
                            assert(obj_parse(ls.take(i + 1)) == Err::<ObjModel, int>(i as int));
                            lemma_parse_error_sticks(ls, i as int + 1);
                        }
                        return Err(ParseError { line: i });
                    },
                }
                j += 1;
            }
            let ghost fv = Seq::new((ws.len() - 1) as nat, |k: int| ref_value(ws[k + 1]).unwrap());
            assert(ws.len() == w@.len());
            assert forall|k: int| 0 <= k < fv.len() implies refs@[k] == fv[k] by {
                assert(ref_value(ws[k + 1]).is_some() && refs@[k + 1 - 1] == ref_value(ws[k + 1]).unwrap());
            }
            assert(refs@ =~= fv);
            let patch = io.latest_patch();
            io.insert_face(IOFace::new(refs, patch));
            proof {
                st = ObjModel { faces: st.faces.push((fv, latest(st))), ..st };
            }
        } else if same_text(w[0].as_str(), "g") {
            assert(ws[0] == w@[0]@);
            assert(ws[0] != seq!['v']);
            assert(ws[0] != seq!['f']);
            if w.len() < 2 {
                proof {
                    lemma_parse_error_sticks(ls, i as int + 1);
                }
                return Err(ParseError { line: i });
            }
            let mut name = w[1].clone();
            let mut j: usize = 2;
            assert(ws[1] == w@[1]@);
            while j < w.len()
                invariant
                    w@.map_values(|x: String| x@) == ws,
                    2 <= j <= w@.len(),
                    name@ == group_name(ws, j as int),
                decreases w@.len() - j,
            {
                assert(ws[j as int] == w@[j as int]@);
                proof {
                    reveal_strlit(" ");
                    assert(" "@ =~= seq![' ']);
                }
                name.append(" ");
                name.append(w[j].as_str());
                assert(name@ =~= group_name(ws, j + 1));
                j += 1;
            }
            io.insert_patch(IOPatch::new(name));
            proof {
                st = ObjModel { patches: st.patches.push(group_name(ws, ws.len() as int)), ..st };
            }
        } else {
            assert(ws[0] == w@[0]@);
        }
        i += 1;
    }
    assert(ls.take(n as int) =~= ls);
    Ok(io)
}

} // verus!
