use vstd::prelude::*;

use crate::hierarchy::Hierarchy;

verus! {

/// ASCII whitespace, as a separator of words on an OBJ line.
pub open spec fn is_space(b: u8) -> bool {
    b == 32 || b == 9 || b == 10 || b == 12 || b == 13
}

pub open spec fn is_digit(b: u8) -> bool {
    48 <= b <= 57
}

/// The words of `s` after the word being read, `cur`: maximal runs of
/// non-whitespace bytes, in order.
pub open spec fn split_words(s: Seq<u8>, cur: Seq<u8>) -> Seq<Seq<u8>>
    decreases s.len(),
{
    if s.len() == 0 {
        if cur.len() > 0 {
            seq![cur]
        } else {
            Seq::empty()
        }
    } else if is_space(s[0]) {
        if cur.len() > 0 {
            seq![cur] + split_words(s.drop_first(), Seq::empty())
        } else {
            split_words(s.drop_first(), Seq::empty())
        }
    } else {
        split_words(s.drop_first(), cur.push(s[0]))
    }
}

/// The words of a line.
pub open spec fn words(line: Seq<u8>) -> Seq<Seq<u8>> {
    split_words(line, Seq::empty())
}

/// The number that a string of decimal digits denotes.
pub open spec fn digits_value(s: Seq<u8>) -> nat
    decreases s.len(),
{
    if s.len() == 0 {
        0
    } else {
        digits_value(s.drop_last()) * 10 + (s.last() - 48) as nat
    }
}

/// An index field: one or more decimal digits whose value fits in `usize`.
pub open spec fn parse_index(s: Seq<u8>) -> Option<nat> {
    if s.len() > 0 && (forall|i: int| 0 <= i < s.len() ==> is_digit(#[trigger] s[i]))
        && digits_value(s) <= usize::MAX {
        Some(digits_value(s))
    } else {
        None
    }
}

/// `a` is the position of the first `/` in `s`, or the length of `s` if it has none.
pub open spec fn is_first_slash(s: Seq<u8>, a: int) -> bool {
    0 <= a <= s.len() && (a == s.len() || s[a] == 47) && forall|i: int| 0 <= i < a ==> s[i] != 47
}

/// The position of the first `/` in `s`, or its length.
pub open spec fn first_slash(s: Seq<u8>) -> int {
    choose|a: int| is_first_slash(s, a)
}

/// The vertex index and the optional normal index of a face corner written
/// `v`, `v/t`, `v//n` or `v/t/n`; `None` when a field is not a number (the
/// texture index, when present, must be one too but is not kept).
pub open spec fn corner_syntax(tok: Seq<u8>) -> Option<(nat, Option<nat>)> {
    let a = first_slash(tok);
    match parse_index(tok.subrange(0, a)) {
        None => None,
        Some(v) => if a == tok.len() {
            Some((v, None))
        } else {
            let rest = tok.subrange(a + 1, tok.len() as int);
            let b = first_slash(rest);
            let tex = rest.subrange(0, b);
            if tex.len() > 0 && parse_index(tex) is None {
                None
            } else if b == rest.len() || b + 1 == rest.len() {
                Some((v, None))
            } else {
                match parse_index(rest.subrange(b + 1, rest.len() as int)) {
                    None => None,
                    Some(n) => Some((v, Some(n))),
                }
            }
        },
    }
}

/// What can be wrong with an OBJ file.
#[derive(Clone, Copy, Debug, PartialEq, Eq, Structural)]
pub enum ObjError {
    /// A field that must be a number is not one.
    MalformedObjNumber,
    /// A face refers to a vertex or a normal that has not been defined (yet).
    IndexOutOfRange,
}

/// One corner of a face: a 1-based vertex index and an optional 1-based
/// normal index.
#[derive(Clone, Copy, Debug, PartialEq, Eq, Structural)]
pub struct Corner {
    pub vertex: usize,
    pub normal: Option<usize>,
}

/// A face corner read with `vertex_count` vertices and `normal_count`
/// normals defined so far.
pub open spec fn parse_corner(tok: Seq<u8>, vertex_count: nat, normal_count: nat) -> Result<
    Corner,
    ObjError,
> {
    match corner_syntax(tok) {
        None => Err(ObjError::MalformedObjNumber),
        Some((v, n)) => if 1 <= v <= vertex_count && match n {
            None => true,
            Some(k) => 1 <= k <= normal_count,
        } {
            Ok(Corner { vertex: v as usize, normal: match n { None => None, Some(k) => Some(k as usize) } })
        } else {
            Err(ObjError::IndexOutOfRange)
        },
    }
}

/// The contents of a sequence of byte strings.
pub open spec fn byte_strings(v: Seq<Vec<u8>>) -> Seq<Seq<u8>> {
    v.map_values(|w: Vec<u8>| w@)
}

/// Splits a line into its words.
pub fn split_line(line: &Vec<u8>) -> (r: Vec<Vec<u8>>)
    ensures
        byte_strings(r@) == words(line@),
{
    let mut out: Vec<Vec<u8>> = Vec::new();
    let mut cur: Vec<u8> = Vec::new();
    let mut k: usize = 0;
    assert(line@.subrange(0, line.len() as int) =~= line@);
    assert(byte_strings(out@) =~= Seq::<Seq<u8>>::empty());
    while k < line.len()
        invariant
            k <= line.len(),
            byte_strings(out@) + split_words(line@.subrange(k as int, line.len() as int), cur@)
                == words(line@),
        decreases line.len() - k,
    {
        let ghost rest = line@.subrange(k as int, line.len() as int);
        assert(rest.drop_first() =~= line@.subrange(k + 1, line.len() as int));
        let b = line[k];
        assert(rest[0] == b);
        if b == 32 || b == 9 || b == 10 || b == 12 || b == 13 {
            if cur.len() > 0 {
                let ghost old_out = byte_strings(out@);
                let ghost c = cur@;
                out.push(cur);
                cur = Vec::new();
                assert(byte_strings(out@) =~= old_out + seq![c]);
                assert(split_words(rest, c) == seq![c] + split_words(rest.drop_first(), Seq::empty()));
                assert(old_out + seq![c] + split_words(rest.drop_first(), cur@) =~= old_out + (seq![c]
                    + split_words(rest.drop_first(), Seq::empty())));
                assert(byte_strings(out@) + split_words(rest.drop_first(), cur@) == words(line@));
            } else {
                assert(cur@ =~= Seq::<u8>::empty());
            }
        } else {
            let ghost c = cur@;
            cur.push(b);
            assert(split_words(rest, c) == split_words(rest.drop_first(), cur@));
            assert(byte_strings(out@) + split_words(rest.drop_first(), cur@) == words(line@));
        }
        k = k + 1;
    }
    if cur.len() > 0 {
        let ghost old_out = byte_strings(out@);
        let ghost c = cur@;
        out.push(cur);
        assert(byte_strings(out@) =~= old_out + seq![c]);
    }
    proof {
        assert(line@.subrange(k as int, line.len() as int).len() == 0);
    }
    out
}

proof fn lemma_digits_grow(s: Seq<u8>, k: int)
    requires
        0 <= k <= s.len(),
        forall|i: int| 0 <= i < s.len() ==> is_digit(#[trigger] s[i]),
    ensures
        digits_value(s.subrange(0, k)) <= digits_value(s),
    decreases s.len() - k,
{
    if k < s.len() {
        lemma_digits_grow(s, k + 1);
        assert(s.subrange(0, k + 1).drop_last() =~= s.subrange(0, k));
    } else {
        assert(s.subrange(0, k) =~= s);
    }
}

/// Reads the index field `tok[from..to]`.
fn read_index(tok: &Vec<u8>, from: usize, to: usize) -> (r: Option<usize>)
    requires
        from <= to <= tok.len(),
    ensures
        match parse_index(tok@.subrange(from as int, to as int)) {
            None => r is None,
            Some(v) => r == Some(v as usize),
        },
{
    let ghost s = tok@.subrange(from as int, to as int);
    if from == to {
        return None;
    }
    let mut value: usize = 0;
    let mut k: usize = from;
    while k < to
        invariant
            from <= k <= to <= tok.len(),
            s == tok@.subrange(from as int, to as int),
            forall|i: int| 0 <= i < k - from ==> is_digit(#[trigger] s[i]),
            value as nat == digits_value(s.subrange(0, k - from)),
        decreases to - k,
    {
        let b = tok[k];
        if b < 48 || b > 57 {
            assert(!is_digit(s[k - from]));
            return None;
        }
        let d: usize = (b - 48) as usize;
        assert(s.subrange(0, k + 1 - from).drop_last() =~= s.subrange(0, k - from));
        if value > (usize::MAX - d) / 10 {
            proof {
                assert(value * 10 + d > usize::MAX) by (nonlinear_arith)
                    requires value > (usize::MAX - d) / 10, d <= 9;
                if forall|i: int| 0 <= i < s.len() ==> is_digit(#[trigger] s[i]) {
                    lemma_digits_grow(s, k + 1 - from);
                }
            }
            return None;
        }
        proof {
            assert(value * 10 + d <= usize::MAX) by (nonlinear_arith)
                requires value <= (usize::MAX - d) / 10, d <= 9;
        }
        value = value * 10 + d;
        k = k + 1;
    }
    assert(s.subrange(0, to - from) =~= s);
    Some(value)
}

/// The position of the first `/` in `tok[from..]`, or the length of `tok`.
fn find_slash(tok: &Vec<u8>, from: usize) -> (r: usize)
    requires
        from <= tok.len(),
    ensures
        from <= r <= tok.len(),
        r - from == first_slash(tok@.subrange(from as int, tok.len() as int)),
{
    let ghost s = tok@.subrange(from as int, tok.len() as int);
    let mut k: usize = from;
    while k < tok.len() && tok[k] != 47
        invariant
            from <= k <= tok.len(),
            s == tok@.subrange(from as int, tok.len() as int),
            forall|i: int| 0 <= i < k - from ==> s[i] != 47,
        decreases tok.len() - k,
    {
        k = k + 1;
    }
    proof {
        assert(is_first_slash(s, k - from));
        let c = first_slash(s);
        assert(is_first_slash(s, c));
        if c < k - from {
            assert(s[c] != 47);
        } else if c > k - from {
            assert(s[k - from] != 47);
        }
    }
    k
}

/// One triangle of a face: three 1-based vertex indices, and the three normal
/// indices when every corner names one (a smooth triangle).
#[derive(Clone, Copy, Debug)]
pub struct ObjTriangle {
    pub vertices: (usize, usize, usize),
    pub normals: Option<(usize, usize, usize)>,
}

/// The triangle with corners `a`, `b` and `c`.
pub open spec fn triangle_of(a: Corner, b: Corner, c: Corner) -> ObjTriangle {
    ObjTriangle {
        vertices: (a.vertex, b.vertex, c.vertex),
        normals: match (a.normal, b.normal, c.normal) {
            (Some(x), Some(y), Some(z)) => Some((x, y, z)),
            _ => None,
        },
    }
}

/// The fan triangulation of a polygon: the first corner with each pair of
/// neighbouring later corners.
pub open spec fn fan(cs: Seq<Corner>) -> Seq<ObjTriangle>
    recommends
        cs.len() >= 3,
{
    Seq::new((cs.len() - 2) as nat, |i: int| triangle_of(cs[0], cs[i + 1], cs[i + 2]))
}

/// The corners of a face, read in order; the first corner that cannot be
/// read decides the error.
pub open spec fn parse_corners(toks: Seq<Seq<u8>>, vertex_count: nat, normal_count: nat) -> Result<
    Seq<Corner>,
    ObjError,
>
    decreases toks.len(),
{
    if toks.len() == 0 {
        Ok(Seq::empty())
    } else {
        match parse_corners(toks.drop_last(), vertex_count, normal_count) {
            Err(e) => Err(e),
            Ok(cs) => match parse_corner(toks.last(), vertex_count, normal_count) {
                Err(e) => Err(e),
                Ok(c) => Ok(cs.push(c)),
            },
        }
    }
}

proof fn lemma_corners_err(toks: Seq<Seq<u8>>, j: int, vertex_count: nat, normal_count: nat)
    requires
        0 <= j <= toks.len(),
        parse_corners(toks.subrange(0, j), vertex_count, normal_count) is Err,
    ensures
        parse_corners(toks, vertex_count, normal_count) == parse_corners(
            toks.subrange(0, j),
            vertex_count,
            normal_count,
        ),
    decreases toks.len() - j,
{
    if j == toks.len() {
        assert(toks.subrange(0, j) =~= toks);
    } else {
        assert(toks.subrange(0, j + 1).drop_last() =~= toks.subrange(0, j));
        lemma_corners_err(toks, j + 1, vertex_count, normal_count);
    }
}

/// Reads one face corner, with `vertex_count` vertices and `normal_count`
/// normals defined so far.
pub fn read_corner(tok: &Vec<u8>, vertex_count: usize, normal_count: usize) -> (r: Result<
    Corner,
    ObjError,
>)
    ensures
        r == parse_corner(tok@, vertex_count as nat, normal_count as nat),
{
    let len = tok.len();
    assert(tok@.subrange(0, len as int) =~= tok@);
    let a = find_slash(tok, 0);
    let syntax: Option<(usize, Option<usize>)> = match read_index(tok, 0, a) {
        None => None,
        Some(v) => {
            if a == len {
                Some((v, None))
            } else {
                let b = find_slash(tok, a + 1);
                let ghost rest = tok@.subrange(a + 1, len as int);
                assert(rest.subrange(0, b - (a + 1)) =~= tok@.subrange(a + 1, b as int));
                let tex_bad = b > a + 1 && read_index(tok, a + 1, b).is_none();
                if tex_bad {
                    None
                } else if b == len || b + 1 == len {
                    Some((v, None))
                } else {
                    assert(rest.subrange(b - (a + 1) + 1, rest.len() as int) =~= tok@.subrange(
                        b + 1,
                        len as int,
                    ));
                    match read_index(tok, b + 1, len) {
                        None => None,
                        Some(n) => Some((v, Some(n))),
                    }
                }
            }
        },
    };
    assert(match corner_syntax(tok@) {
        None => syntax is None,
        Some((v, n)) => syntax == Some(
            (v as usize, match n { None => None::<usize>, Some(k) => Some(k as usize) }),
        ),
    });
    match syntax {
        None => Err(ObjError::MalformedObjNumber),
        Some((v, n)) => {
            let ok = 1 <= v && v <= vertex_count && match n {
                None => true,
                Some(k) => 1 <= k && k <= normal_count,
            };
            if ok {
                Ok(Corner { vertex: v, normal: n })
            } else {
                Err(ObjError::IndexOutOfRange)
            }
        },
    }
}

fn make_triangle(a: Corner, b: Corner, c: Corner) -> (r: ObjTriangle)
    ensures
        r == triangle_of(a, b, c),
{
    let normals = match (a.normal, b.normal, c.normal) {
        (Some(x), Some(y), Some(z)) => Some((x, y, z)),
        _ => None,
    };
    ObjTriangle { vertices: (a.vertex, b.vertex, c.vertex), normals }
}

/// Reads an `f` record (`words[0]` is the keyword) into its fan of triangles.
pub fn read_face(words: &Vec<Vec<u8>>, vertex_count: usize, normal_count: usize) -> (r: Result<
    Vec<ObjTriangle>,
    ObjError,
>)
    requires
        words.len() >= 4,
    ensures
        match parse_corners(byte_strings(words@).drop_first(), vertex_count as nat, normal_count as nat) {
            Err(e) => r == Err::<Vec<ObjTriangle>, ObjError>(e),
            Ok(cs) => r is Ok && r->Ok_0@ == fan(cs),
        },
{
    let ghost toks = byte_strings(words@).drop_first();
    let mut corners: Vec<Corner> = Vec::new();
    let mut k: usize = 1;
    assert(toks.subrange(0, 0) =~= Seq::<Seq<u8>>::empty());
    while k < words.len()
        invariant
            1 <= k <= words.len(),
            toks == byte_strings(words@).drop_first(),
            corners.len() == k - 1,
            parse_corners(toks.subrange(0, k - 1), vertex_count as nat, normal_count as nat) == Ok::<
                Seq<Corner>,
                ObjError,
            >(corners@),
        decreases words.len() - k,
    {
        assert(toks.subrange(0, k as int).drop_last() =~= toks.subrange(0, k - 1));
        assert(toks[k - 1] == words@[k as int]@);
        match read_corner(&words[k], vertex_count, normal_count) {
            Err(e) => {
                proof {
                    lemma_corners_err(toks, k as int, vertex_count as nat, normal_count as nat);
                }
                return Err(e);
            },
            Ok(c) => {
                corners.push(c);
            },
        }
        k = k + 1;
    }
    assert(toks.subrange(0, k - 1) =~= toks);
    let mut tris: Vec<ObjTriangle> = Vec::new();
    let n = corners.len();
    let mut i: usize = 0;
    while i + 2 < n
        invariant
            n == corners.len(),
            n >= 3,
            i + 2 <= n,
            tris@ == fan(corners@).subrange(0, i as int),
        decreases n - i,
    {
        let t = make_triangle(corners[0], corners[i + 1], corners[i + 2]);
        tris.push(t);
        assert(tris@ =~= fan(corners@).subrange(0, i + 1));
        i = i + 1;
    }
    assert(tris@ =~= fan(corners@));
    Ok(tris)
}

/// The three coordinate fields of a `v` or `vn` record, as written.
#[derive(Clone, Debug)]
pub struct VertexText {
    pub x: Vec<u8>,
    pub y: Vec<u8>,
    pub z: Vec<u8>,
}

impl View for VertexText {
    type V = Seq<Seq<u8>>;

    open spec fn view(&self) -> Seq<Seq<u8>> {
        seq![self.x@, self.y@, self.z@]
    }
}

/// A named group of triangles.
#[derive(Clone, Debug)]
pub struct ObjGroup {
    pub name: Vec<u8>,
    pub triangles: Vec<ObjTriangle>,
}

/// The contents of an OBJ file: the vertex and normal tables (1-based in the
/// file, 0-based here), the triangles outside any named group, and the named
/// groups in order of first use.
#[derive(Clone, Debug)]
pub struct ObjFile {
    pub vertices: Vec<VertexText>,
    pub normals: Vec<VertexText>,
    pub default_group: Vec<ObjTriangle>,
    pub groups: Vec<ObjGroup>,
}

/// An OBJ file as values: the coordinate fields of each vertex and normal,
/// the default group, and the named groups with their triangles.
pub struct ObjFileView {
    pub vertices: Seq<Seq<Seq<u8>>>,
    pub normals: Seq<Seq<Seq<u8>>>,
    pub default_group: Seq<ObjTriangle>,
    pub groups: Seq<(Seq<u8>, Seq<ObjTriangle>)>,
}

/// The coordinate fields of each vertex of a table.
pub open spec fn vertex_views(v: Seq<VertexText>) -> Seq<Seq<Seq<u8>>> {
    v.map_values(|x: VertexText| x@)
}

/// The name and triangles of each group.
pub open spec fn group_views(g: Seq<ObjGroup>) -> Seq<(Seq<u8>, Seq<ObjTriangle>)> {
    g.map_values(|x: ObjGroup| (x.name@, x.triangles@))
}

impl View for ObjFile {
    type V = ObjFileView;

    open spec fn view(&self) -> ObjFileView {
        ObjFileView {
            vertices: vertex_views(self.vertices@),
            normals: vertex_views(self.normals@),
            default_group: self.default_group@,
            groups: group_views(self.groups@),
        }
    }
}

/// No two groups share a name.
pub open spec fn unique_names(g: Seq<(Seq<u8>, Seq<ObjTriangle>)>) -> bool {
    forall|i: int, j: int| 0 <= i < g.len() && 0 <= j < g.len() && i != j ==> g[i].0 != g[j].0
}

/// `g` with triangle `t` appended to the group called `name`, which is
/// created at the end if there is none yet.
pub open spec fn add_to_group(g: Seq<(Seq<u8>, Seq<ObjTriangle>)>, name: Seq<u8>, t: ObjTriangle) -> Seq<
    (Seq<u8>, Seq<ObjTriangle>),
> {
    if exists|i: int| 0 <= i < g.len() && g[i].0 == name {
        let i = choose|i: int| 0 <= i < g.len() && g[i].0 == name;
        g.update(i, (name, g[i].1.push(t)))
    } else {
        g.push((name, seq![t]))
    }
}

/// `g` with triangle `t` appended to each group in `names`, in order.
pub open spec fn add_to_groups(
    g: Seq<(Seq<u8>, Seq<ObjTriangle>)>,
    names: Seq<Seq<u8>>,
    t: ObjTriangle,
) -> Seq<(Seq<u8>, Seq<ObjTriangle>)>
    decreases names.len(),
{
    if names.len() == 0 {
        g
    } else {
        add_to_group(add_to_groups(g, names.drop_last(), t), names.last(), t)
    }
}

/// The file after triangle `t` is read while the groups `current` are active:
/// it joins each of them, or the default group when none is.
pub open spec fn add_triangle(f: ObjFileView, current: Seq<Seq<u8>>, t: ObjTriangle) -> ObjFileView {
    if current.len() == 0 {
        ObjFileView { default_group: f.default_group.push(t), ..f }
    } else {
        ObjFileView { groups: add_to_groups(f.groups, current, t), ..f }
    }
}

/// The file after the triangles `ts` are read, in order.
pub open spec fn add_triangles(f: ObjFileView, current: Seq<Seq<u8>>, ts: Seq<ObjTriangle>) -> ObjFileView
    decreases ts.len(),
{
    if ts.len() == 0 {
        f
    } else {
        add_triangle(add_triangles(f, current, ts.drop_last()), current, ts.last())
    }
}

/// The state of a reader: the file so far and the active group names.
pub struct ObjReading {
    pub file: ObjFileView,
    pub current: Seq<Seq<u8>>,
}

/// The reading after one line whose words are `w`. Lines of fewer than two
/// words and unknown records change nothing; `v` and `vn` need exactly three
/// fields and `f` at least three corners.
pub open spec fn apply_line(r: ObjReading, w: Seq<Seq<u8>>) -> Result<ObjReading, ObjError> {
    if w.len() < 2 {
        Ok(r)
    } else if w[0] == seq![118u8] && w.len() == 4 {
        Ok(ObjReading { file: ObjFileView { vertices: r.file.vertices.push(w.subrange(1, 4)), ..r.file }, ..r })
    } else if w[0] == seq![118u8, 110u8] && w.len() == 4 {
        Ok(ObjReading { file: ObjFileView { normals: r.file.normals.push(w.subrange(1, 4)), ..r.file }, ..r })
    } else if w[0] == seq![102u8] && w.len() >= 4 {
        match parse_corners(w.drop_first(), r.file.vertices.len(), r.file.normals.len()) {
            Err(e) => Err(e),
            Ok(cs) => Ok(ObjReading { file: add_triangles(r.file, r.current, fan(cs)), ..r }),
        }
    } else if w[0] == seq![103u8] {
        Ok(ObjReading { current: w.drop_first(), ..r })
    } else {
        Ok(r)
    }
}

/// The reading before any line: nothing defined, no active group.
pub open spec fn empty_reading() -> ObjReading {
    ObjReading {
        file: ObjFileView {
            vertices: Seq::empty(),
            normals: Seq::empty(),
            default_group: Seq::empty(),
            groups: Seq::empty(),
        },
        current: Seq::empty(),
    }
}

/// The reading after `lines`; the first line in error decides the error.
pub open spec fn read_lines(lines: Seq<Seq<u8>>) -> Result<ObjReading, ObjError>
    decreases lines.len(),
{
    if lines.len() == 0 {
        Ok(empty_reading())
    } else {
        match read_lines(lines.drop_last()) {
            Err(e) => Err(e),
            Ok(r) => apply_line(r, words(lines.last())),
        }
    }
}

proof fn lemma_lines_err(lines: Seq<Seq<u8>>, j: int)
    requires
        0 <= j <= lines.len(),
        read_lines(lines.subrange(0, j)) is Err,
    ensures
        read_lines(lines) == read_lines(lines.subrange(0, j)),
    decreases lines.len() - j,
{
    if j == lines.len() {
        assert(lines.subrange(0, j) =~= lines);
    } else {
        assert(lines.subrange(0, j + 1).drop_last() =~= lines.subrange(0, j));
        lemma_lines_err(lines, j + 1);
    }
}

fn copy_bytes(v: &Vec<u8>) -> (r: Vec<u8>)
    ensures
        r@ == v@,
{
    let mut r: Vec<u8> = Vec::new();
    let mut k: usize = 0;
    while k < v.len()
        invariant
            k <= v.len(),
            r@ == v@.subrange(0, k as int),
        decreases v.len() - k,
    {
        r.push(v[k]);
        k = k + 1;
        assert(r@ =~= v@.subrange(0, k as int));
    }
    assert(v@.subrange(0, k as int) =~= v@);
    r
}

fn bytes_equal(a: &Vec<u8>, b: &Vec<u8>) -> (r: bool)
    ensures
        r == (a@ == b@),
{
    if a.len() != b.len() {
        return false;
    }
    let mut k: usize = 0;
    while k < a.len()
        invariant
            k <= a.len() == b.len(),
            forall|i: int| 0 <= i < k ==> a@[i] == b@[i],
        decreases a.len() - k,
    {
        if a[k] != b[k] {
            return false;
        }
        k = k + 1;
    }
    assert(a@ =~= b@);
    true
}

fn add_to_named_group(groups: &mut Vec<ObjGroup>, name: &Vec<u8>, t: ObjTriangle)
    requires
        unique_names(group_views(old(groups)@)),
    ensures
        group_views(final(groups)@) == add_to_group(group_views(old(groups)@), name@, t),
        unique_names(group_views(final(groups)@)),
{
    let ghost g = group_views(groups@);
    let mut i: usize = 0;
    while i < groups.len()
        invariant
            i <= groups.len(),
            groups@ == old(groups)@,
            g == group_views(groups@),
            unique_names(g),
            forall|j: int| 0 <= j < i ==> g[j].0 != name@,
        decreases groups.len() - i,
    {
        if bytes_equal(&groups[i].name, name) {
            proof {
                assert(g[i as int] == (groups@[i as int].name@, groups@[i as int].triangles@));
                assert(g[i as int].0 == name@);
                let c = choose|c: int| 0 <= c < g.len() && g[c].0 == name@;
                if c != i {
                    assert(g[c].0 != g[i as int].0);
                }
            }
            let ghost gi = groups@[i as int];
            groups[i].triangles.push(t);
            proof {
                let h = group_views(groups@);
                assert(groups@[i as int].name@ == gi.name@);
                assert(groups@[i as int].triangles@ == gi.triangles@.push(t));
                assert forall|a: int| 0 <= a < h.len() implies h[a] == g.update(i as int, (name@, g[i as int].1.push(t)))[a] by {
                    if a != i {
                        assert(groups@[a] == old(groups)@[a]);
                    }
                }
                assert(h =~= g.update(i as int, (name@, g[i as int].1.push(t))));
                assert forall|a: int, b: int| 0 <= a < h.len() && 0 <= b < h.len() && a != b implies h[a].0
                    != h[b].0 by {
                    assert(h[a].0 == g[a].0 && h[b].0 == g[b].0);
                    assert(g[a].0 != g[b].0);
                }
            }
            return;
        }
        i = i + 1;
    }
    let name_copy = copy_bytes(name);
    let mut ts: Vec<ObjTriangle> = Vec::new();
    ts.push(t);
    groups.push(ObjGroup { name: name_copy, triangles: ts });
    proof {
        let h = group_views(groups@);
        assert(ts@ =~= seq![t]);
        assert(h =~= g.push((name@, seq![t])));
        assert forall|a: int, b: int| 0 <= a < h.len() && 0 <= b < h.len() && a != b implies h[a].0 != h[b].0 by {
            if a < g.len() {
                assert(h[a].0 == g[a].0);
            }
            if b < g.len() {
                assert(h[b].0 == g[b].0);
            }
        }
    }
}

fn add_one_triangle(file: &mut ObjFile, current: &Vec<Vec<u8>>, t: ObjTriangle)
    requires
        unique_names(old(file)@.groups),
    ensures
        final(file)@ == add_triangle(old(file)@, byte_strings(current@), t),
        unique_names(final(file)@.groups),
{
    if current.len() == 0 {
        file.default_group.push(t);
        assert(final(file)@.default_group == old(file)@.default_group.push(t));
        return;
    }
    let ghost names = byte_strings(current@);
    let ghost f0 = file@;
    let mut k: usize = 0;
    while k < current.len()
        invariant
            k <= current.len(),
            names == byte_strings(current@),
            unique_names(file@.groups),
            file@ == (ObjFileView { groups: add_to_groups(f0.groups, names.subrange(0, k as int), t), ..f0 }),
        decreases current.len() - k,
    {
        add_to_named_group(&mut file.groups, &current[k], t);
        assert(names.subrange(0, k + 1).drop_last() =~= names.subrange(0, k as int));
        k = k + 1;
    }
    assert(names.subrange(0, k as int) =~= names);
}

/// Reads an OBJ file given as its lines. `v x y z` adds a vertex and `vn x y
/// z` a normal (the coordinates are kept as written); `f` with three or more
/// corners adds the fan triangulation of the polygon to every active named
/// group, or to the default group when none is active; `g` followed by names
/// makes those groups the active ones. Anything else is ignored. A corner
/// field that is not a number gives `MalformedObjNumber`; a corner index of
/// zero or past the vertices (normals) read so far gives `IndexOutOfRange`.
pub fn parse_obj_file(lines: &Vec<Vec<u8>>) -> (r: Result<ObjFile, ObjError>)
    ensures
        match read_lines(byte_strings(lines@)) {
            Err(e) => r == Err::<ObjFile, ObjError>(e),
            Ok(reading) => r is Ok && r->Ok_0@ == reading.file,
        },
        r is Ok ==> indices_in_range(r->Ok_0@),
{
    let ghost all = byte_strings(lines@);
    let mut file = ObjFile {
        vertices: Vec::new(),
        normals: Vec::new(),
        default_group: Vec::new(),
        groups: Vec::new(),
    };
    let mut current: Vec<Vec<u8>> = Vec::new();
    assert(file@.vertices =~= empty_reading().file.vertices);
    assert(file@.normals =~= empty_reading().file.normals);
    assert(file@.default_group =~= empty_reading().file.default_group);
    assert(file@.groups =~= empty_reading().file.groups);
    assert(byte_strings(current@) =~= Seq::<Seq<u8>>::empty());
    assert(all.subrange(0, 0) =~= Seq::<Seq<u8>>::empty());
    let mut i: usize = 0;
    while i < lines.len()
        invariant
            i <= lines.len(),
            all == byte_strings(lines@),
            unique_names(file@.groups),
            read_lines(all.subrange(0, i as int)) == Ok::<ObjReading, ObjError>(
                ObjReading { file: file@, current: byte_strings(current@) },
            ),
        decreases lines.len() - i,
    {
        assert(all.subrange(0, i + 1).drop_last() =~= all.subrange(0, i as int));
        assert(all.subrange(0, i + 1).last() == lines@[i as int]@);
        let ghost before = ObjReading { file: file@, current: byte_strings(current@) };
        let mut w = split_line(&lines[i]);
        let ghost ws = words(lines@[i as int]@);
        if w.len() >= 2 {
            let is_v = w[0].len() == 1 && w[0][0] == 118;
            let is_vn = w[0].len() == 2 && w[0][0] == 118 && w[0][1] == 110;
            let is_f = w[0].len() == 1 && w[0][0] == 102;
            let is_g = w[0].len() == 1 && w[0][0] == 103;
            proof {
                assert(ws[0] == w@[0]@);
                assert(is_v <==> ws[0] == seq![118u8]) by {
                    if ws[0].len() == 1 && ws[0][0] == 118 {
                        assert(ws[0] =~= seq![118u8]);
                    }
                }
                assert(is_vn <==> ws[0] == seq![118u8, 110u8]) by {
                    if ws[0].len() == 2 && ws[0][0] == 118 && ws[0][1] == 110 {
                        assert(ws[0] =~= seq![118u8, 110u8]);
                    }
                }
                assert(is_f <==> ws[0] == seq![102u8]) by {
                    if ws[0].len() == 1 && ws[0][0] == 102 {
                        assert(ws[0] =~= seq![102u8]);
                    }
                }
                assert(is_g <==> ws[0] == seq![103u8]) by {
                    if ws[0].len() == 1 && ws[0][0] == 103 {
                        assert(ws[0] =~= seq![103u8]);
                    }
                }
            }
            if (is_v || is_vn) && w.len() == 4 {
                let vt = VertexText { x: copy_bytes(&w[1]), y: copy_bytes(&w[2]), z: copy_bytes(&w[3]) };
                assert(vt@ =~= ws.subrange(1, 4));
                if is_v {
                    file.vertices.push(vt);
                    assert(vertex_views(file.vertices@) =~= before.file.vertices.push(ws.subrange(1, 4)));
                } else {
                    file.normals.push(vt);
                    assert(vertex_views(file.normals@) =~= before.file.normals.push(ws.subrange(1, 4)));
                }
            } else if is_f && w.len() >= 4 {
                assert(vertex_views(file.vertices@).len() == file.vertices.len());
                assert(vertex_views(file.normals@).len() == file.normals.len());
                match read_face(&w, file.vertices.len(), file.normals.len()) {
                    Err(e) => {
                        proof {
                            lemma_lines_err(all, i + 1);
                        }
                        return Err(e);
                    },
                    Ok(tris) => {
                        let ghost f0 = file@;
                        let mut k: usize = 0;
                        while k < tris.len()
                            invariant
                                k <= tris.len(),
                                unique_names(file@.groups),
                                file@ == add_triangles(f0, byte_strings(current@), tris@.subrange(0, k as int)),
                            decreases tris.len() - k,
                        {
                            add_one_triangle(&mut file, &current, tris[k]);
                            assert(tris@.subrange(0, k + 1).drop_last() =~= tris@.subrange(0, k as int));
                            k = k + 1;
                        }
                        assert(tris@.subrange(0, k as int) =~= tris@);
                    },
                }
            } else if is_g {
                let ghost rest = ws.drop_first();
                w.remove(0);
                assert(byte_strings(w@) =~= rest);
                current = w;
            }
        }
        i = i + 1;
    }
    assert(all.subrange(0, i as int) =~= all);
    proof {
        lemma_read_lines_in_range(all);
    }
    Ok(file)
}

/// Every index of `t` names an entry of a table of `vertex_count` vertices
/// and `normal_count` normals (1-based).
pub open spec fn triangle_in_range(t: ObjTriangle, vertex_count: nat, normal_count: nat) -> bool {
    &&& 1 <= t.vertices.0 <= vertex_count
    &&& 1 <= t.vertices.1 <= vertex_count
    &&& 1 <= t.vertices.2 <= vertex_count
    &&& match t.normals {
        None => true,
        Some((a, b, c)) => 1 <= a <= normal_count && 1 <= b <= normal_count && 1 <= c <= normal_count,
    }
}

pub open spec fn triangles_in_range(ts: Seq<ObjTriangle>, vertex_count: nat, normal_count: nat) -> bool {
    forall|i: int| 0 <= i < ts.len() ==> triangle_in_range(#[trigger] ts[i], vertex_count, normal_count)
}

/// Every triangle of the file refers only to vertices and normals it defines.
pub open spec fn indices_in_range(f: ObjFileView) -> bool {
    &&& triangles_in_range(f.default_group, f.vertices.len(), f.normals.len())
    &&& forall|g: int|
        0 <= g < f.groups.len() ==> triangles_in_range(#[trigger] f.groups[g].1, f.vertices.len(), f.normals.len())
}

pub open spec fn corner_in_range(c: Corner, vertex_count: nat, normal_count: nat) -> bool {
    &&& 1 <= c.vertex <= vertex_count
    &&& match c.normal {
        None => true,
        Some(k) => 1 <= k <= normal_count,
    }
}

proof fn lemma_corners_in_range(toks: Seq<Seq<u8>>, vertex_count: nat, normal_count: nat)
    requires
        parse_corners(toks, vertex_count, normal_count) is Ok,
    ensures
        ({
            let cs = parse_corners(toks, vertex_count, normal_count)->Ok_0;
            cs.len() == toks.len() && forall|i: int|
                0 <= i < cs.len() ==> corner_in_range(#[trigger] cs[i], vertex_count, normal_count)
        }),
    decreases toks.len(),
{
    if toks.len() > 0 {
        lemma_corners_in_range(toks.drop_last(), vertex_count, normal_count);
        let cs = parse_corners(toks.drop_last(), vertex_count, normal_count)->Ok_0;
        let all = parse_corners(toks, vertex_count, normal_count)->Ok_0;
        assert forall|i: int| 0 <= i < all.len() implies corner_in_range(#[trigger] all[i], vertex_count, normal_count) by {
            if i < cs.len() {
                assert(all[i] == cs[i]);
            }
        }
    }
}

proof fn lemma_add_to_group_in_range(g: Seq<(Seq<u8>, Seq<ObjTriangle>)>, name: Seq<u8>, t: ObjTriangle, nv: nat, nn: nat)
    requires
        forall|k: int| 0 <= k < g.len() ==> triangles_in_range(#[trigger] g[k].1, nv, nn),
        triangle_in_range(t, nv, nn),
    ensures
        forall|k: int| 0 <= k < add_to_group(g, name, t).len() ==> triangles_in_range(#[trigger] add_to_group(g, name, t)[k].1, nv, nn),
{
    let h = add_to_group(g, name, t);
    assert forall|i: int, k: int| 0 <= i < g.len() && 0 <= k < g.len() implies triangles_in_range(
        #[trigger] g.update(i, (name, g[i].1.push(t)))[k].1,
        nv,
        nn,
    ) by {
        let u = g.update(i, (name, g[i].1.push(t)));
        if k == i {
            let ts = g[i].1.push(t);
            assert(u[k].1 == ts);
            assert forall|j: int| 0 <= j < ts.len() implies triangle_in_range(#[trigger] ts[j], nv, nn) by {
                if j < g[i].1.len() {
                    assert(ts[j] == g[i].1[j]);
                }
            }
        } else {
            assert(u[k] == g[k]);
        }
    }
    if !(exists|i: int| 0 <= i < g.len() && g[i].0 == name) {
        assert forall|k: int| 0 <= k < h.len() implies triangles_in_range(#[trigger] h[k].1, nv, nn) by {
            if k < g.len() {
                assert(h[k] == g[k]);
            } else {
                assert(h[k].1 == seq![t]);
            }
        }
    }
}

proof fn lemma_add_to_groups_in_range(
    g: Seq<(Seq<u8>, Seq<ObjTriangle>)>,
    names: Seq<Seq<u8>>,
    t: ObjTriangle,
    nv: nat,
    nn: nat,
)
    requires
        forall|k: int| 0 <= k < g.len() ==> triangles_in_range(#[trigger] g[k].1, nv, nn),
        triangle_in_range(t, nv, nn),
    ensures
        forall|k: int| 0 <= k < add_to_groups(g, names, t).len() ==> triangles_in_range(#[trigger] add_to_groups(g, names, t)[k].1, nv, nn),
    decreases names.len(),
{
    if names.len() > 0 {
        lemma_add_to_groups_in_range(g, names.drop_last(), t, nv, nn);
        lemma_add_to_group_in_range(add_to_groups(g, names.drop_last(), t), names.last(), t, nv, nn);
    }
}

proof fn lemma_add_triangles_in_range(f: ObjFileView, current: Seq<Seq<u8>>, ts: Seq<ObjTriangle>)
    requires
        indices_in_range(f),
        triangles_in_range(ts, f.vertices.len(), f.normals.len()),
    ensures
        indices_in_range(add_triangles(f, current, ts)),
        add_triangles(f, current, ts).vertices == f.vertices,
        add_triangles(f, current, ts).normals == f.normals,
    decreases ts.len(),
{
    if ts.len() > 0 {
        let nv = f.vertices.len();
        let nn = f.normals.len();
        assert forall|i: int| 0 <= i < ts.drop_last().len() implies triangle_in_range(#[trigger] ts.drop_last()[i], nv, nn) by {
            assert(ts.drop_last()[i] == ts[i]);
        }
        lemma_add_triangles_in_range(f, current, ts.drop_last());
        let f2 = add_triangles(f, current, ts.drop_last());
        let t = ts.last();
        assert(triangle_in_range(t, nv, nn));
        if current.len() == 0 {
            let d = f2.default_group.push(t);
            assert forall|i: int| 0 <= i < d.len() implies triangle_in_range(#[trigger] d[i], nv, nn) by {
                if i < f2.default_group.len() {
                    assert(d[i] == f2.default_group[i]);
                }
            }
        } else {
            lemma_add_to_groups_in_range(f2.groups, current, t, nv, nn);
        }
    }
}

/// Every triangle of a file that reads without error refers only to vertices
/// and normals that the file defines.
pub proof fn lemma_read_lines_in_range(lines: Seq<Seq<u8>>)
    requires
        read_lines(lines) is Ok,
    ensures
        indices_in_range(read_lines(lines)->Ok_0.file),
    decreases lines.len(),
{
    if lines.len() > 0 {
        lemma_read_lines_in_range(lines.drop_last());
        let r = read_lines(lines.drop_last())->Ok_0;
        let f = r.file;
        let w = words(lines.last());
        let nv = f.vertices.len();
        let nn = f.normals.len();
        if w.len() >= 2 && (w[0] == seq![118u8] || w[0] == seq![118u8, 110u8]) && w.len() == 4 {
            let g = read_lines(lines)->Ok_0.file;
            assert(g.default_group == f.default_group && g.groups == f.groups);
            assert(g.vertices.len() >= nv && g.normals.len() >= nn);
            assert forall|i: int| 0 <= i < g.default_group.len() implies triangle_in_range(#[trigger] g.default_group[i], g.vertices.len(), g.normals.len()) by {
                assert(triangle_in_range(f.default_group[i], nv, nn));
            }
            assert forall|k: int| 0 <= k < g.groups.len() implies triangles_in_range(#[trigger] g.groups[k].1, g.vertices.len(), g.normals.len()) by {
                assert(triangles_in_range(f.groups[k].1, nv, nn));
                assert forall|i: int| 0 <= i < g.groups[k].1.len() implies triangle_in_range(#[trigger] g.groups[k].1[i], g.vertices.len(), g.normals.len()) by {
                    assert(triangle_in_range(f.groups[k].1[i], nv, nn));
                }
            }
        } else if w.len() >= 2 && w[0] == seq![102u8] && w.len() >= 4 {
            lemma_corners_in_range(w.drop_first(), nv, nn);
            let cs = parse_corners(w.drop_first(), nv, nn)->Ok_0;
            let ts = fan(cs);
            assert forall|i: int| 0 <= i < ts.len() implies triangle_in_range(#[trigger] ts[i], nv, nn) by {
                assert(corner_in_range(cs[0], nv, nn));
                assert(corner_in_range(cs[i + 1], nv, nn));
                assert(corner_in_range(cs[i + 2], nv, nn));
            }
            lemma_add_triangles_in_range(f, r.current, ts);
        }
    }
}

/// A shape made for an OBJ file: a group, or one of the file's triangles.
#[derive(Clone, Copy, Debug)]
pub enum ObjNode {
    Group,
    Triangle(ObjTriangle),
}

/// The placement of shapes made in order: each with the position (among the
/// shapes made) of its parent, if it has one.
pub type Layout = Seq<(ObjNode, Option<nat>)>;

/// A group of triangles made at position `start`, as a child of the shape at
/// position 0, followed by its triangles as its children.
pub open spec fn block_layout(tris: Seq<ObjTriangle>, start: nat) -> Layout {
    seq![(ObjNode::Group, Some(0nat))] + tris.map_values(|t: ObjTriangle| (ObjNode::Triangle(t), Some(start)))
}

/// Blocks for groups of triangles made one after another from position `start`.
pub open spec fn groups_layout(gs: Seq<Seq<ObjTriangle>>, start: nat) -> Layout
    decreases gs.len(),
{
    if gs.len() == 0 {
        Seq::empty()
    } else {
        let prev = groups_layout(gs.drop_last(), start);
        prev + block_layout(gs.last(), start + prev.len())
    }
}

/// The groups of triangles an OBJ file contributes: the default group when it
/// is not empty, then every named group.
pub open spec fn included_groups(f: ObjFileView) -> Seq<Seq<ObjTriangle>> {
    (if f.default_group.len() > 0 {
        seq![f.default_group]
    } else {
        Seq::empty()
    }) + f.groups.map_values(|g: (Seq<u8>, Seq<ObjTriangle>)| g.1)
}

/// The shapes made for an OBJ file: one group, holding a group for each of
/// the file's groups of triangles, which holds those triangles.
pub open spec fn obj_layout(f: ObjFileView) -> Layout {
    seq![(ObjNode::Group, None::<nat>)] + groups_layout(included_groups(f), 1)
}

/// The parent links of a layout whose first shape is numbered `base`.
pub open spec fn placed_parents(layout: Layout, base: nat) -> Seq<Option<usize>> {
    layout.map_values(
        |e: (ObjNode, Option<nat>)|
            match e.1 {
                None => None,
                Some(q) => Some((base + q) as usize),
            },
    )
}

/// Which shapes of a layout are groups.
pub open spec fn placed_groups(layout: Layout) -> Seq<bool> {
    layout.map_values(|e: (ObjNode, Option<nat>)| e.0 is Group)
}

/// What each shape of a layout is.
pub open spec fn layout_nodes(layout: Layout) -> Seq<ObjNode> {
    layout.map_values(|e: (ObjNode, Option<nat>)| e.0)
}

/// Adds a group holding `tris` under the group `base`, whose layout starts at
/// `base`.
fn add_block(tree: &mut Hierarchy, base: usize, tris: &Vec<ObjTriangle>, nodes: &mut Vec<ObjNode>)
    requires
        old(tree).wf(),
        base < old(tree).spec_len(),
        old(tree)@.is_group[base as int],
        old(tree).spec_len() + 1 + tris.len() < usize::MAX,
    ensures
        final(tree).wf(),
        final(tree).spec_len() == old(tree).spec_len() + 1 + tris.len(),
        final(tree)@.parents == old(tree)@.parents + placed_parents(
            block_layout(tris@, (old(tree).spec_len() - base) as nat),
            base as nat,
        ),
        final(tree)@.is_group == old(tree)@.is_group + placed_groups(
            block_layout(tris@, (old(tree).spec_len() - base) as nat),
        ),
        final(nodes)@ == old(nodes)@ + layout_nodes(block_layout(tris@, (old(tree).spec_len() - base) as nat)),
{
    let ghost start = (old(tree).spec_len() - base) as nat;
    let ghost whole = block_layout(tris@, start);
    let g = match tree.add_new_child(base, true) {
        Ok(g) => g,
        Err(_) => {
            return;
        },
    };
    nodes.push(ObjNode::Group);
    let mut k: usize = 0;
    proof {
        tree.lemma_well_formed();
        assert(whole.subrange(0, 1) =~= seq![(ObjNode::Group, Some(0nat))]);
        assert(placed_parents(whole.subrange(0, 1), base as nat) =~= seq![Some(base)]);
        assert(placed_groups(whole.subrange(0, 1)) =~= seq![true]);
        assert(layout_nodes(whole.subrange(0, 1)) =~= seq![ObjNode::Group]);
    }
    while k < tris.len()
        invariant
            tree.wf(),
            g == old(tree).spec_len(),
            start == g - base,
            whole == block_layout(tris@, start),
            k <= tris.len(),
            tree.spec_len() == old(tree).spec_len() + 1 + k,
            tree@.is_group[g as int],
            old(tree).spec_len() + 1 + tris.len() < usize::MAX,
            tree@.parents == old(tree)@.parents + placed_parents(whole.subrange(0, k + 1), base as nat),
            tree@.is_group == old(tree)@.is_group + placed_groups(whole.subrange(0, k + 1)),
            nodes@ == old(nodes)@ + layout_nodes(whole.subrange(0, k + 1)),
        decreases tris.len() - k,
    {
        let t = tris[k];
        proof {
            tree.lemma_well_formed();
        }
        let ghost before = tree@;
        let _ = tree.add_new_child(g, false);
        nodes.push(ObjNode::Triangle(t));
        proof {
            assert(whole[k + 1] == (ObjNode::Triangle(t), Some(start)));
            assert(whole.subrange(0, k + 2) =~= whole.subrange(0, k + 1).push(whole[k + 1]));
            assert(placed_parents(whole.subrange(0, k + 2), base as nat) =~= placed_parents(
                whole.subrange(0, k + 1),
                base as nat,
            ).push(Some(g)));
            assert(placed_groups(whole.subrange(0, k + 2)) =~= placed_groups(whole.subrange(0, k + 1)).push(
                false,
            ));
            assert(layout_nodes(whole.subrange(0, k + 2)) =~= layout_nodes(whole.subrange(0, k + 1)).push(
                ObjNode::Triangle(t),
            ));
            assert(tree@.is_group[g as int] == before.is_group[g as int]);
        }
        k = k + 1;
    }
    assert(whole.subrange(0, k + 1) =~= whole);
}

proof fn lemma_placed_concat(a: Layout, b: Layout, base: nat)
    ensures
        placed_parents(a + b, base) == placed_parents(a, base) + placed_parents(b, base),
        placed_groups(a + b) == placed_groups(a) + placed_groups(b),
        layout_nodes(a + b) == layout_nodes(a) + layout_nodes(b),
{
    assert(placed_parents(a + b, base) =~= placed_parents(a, base) + placed_parents(b, base));
    assert(placed_groups(a + b) =~= placed_groups(a) + placed_groups(b));
    assert(layout_nodes(a + b) =~= layout_nodes(a) + layout_nodes(b));
}

proof fn lemma_layout_len(gs: Seq<Seq<ObjTriangle>>, start: nat, k: int)
    requires
        0 <= k <= gs.len(),
    ensures
        groups_layout(gs.subrange(0, k), start).len() <= groups_layout(gs, start).len(),
    decreases gs.len() - k,
{
    if k < gs.len() {
        lemma_layout_len(gs, start, k + 1);
        assert(gs.subrange(0, k + 1).drop_last() =~= gs.subrange(0, k));
    } else {
        assert(gs.subrange(0, k) =~= gs);
    }
}

impl ObjFile {
    /// Adds the shapes of this file to `tree`: one group holding the default
    /// group when it has triangles, then every named group, each holding its
    /// triangles in order. Returns what each new shape is, in the order they
    /// are numbered; the first is the group that holds everything.
    pub fn obj_to_group(&self, tree: &mut Hierarchy) -> (r: Vec<ObjNode>)
        requires
            old(tree).wf(),
            old(tree).spec_len() + obj_layout(self@).len() < usize::MAX,
        ensures
            final(tree).wf(),
            r@ == layout_nodes(obj_layout(self@)),
            final(tree).spec_len() == old(tree).spec_len() + obj_layout(self@).len(),
            final(tree)@.parents == old(tree)@.parents + placed_parents(
                obj_layout(self@),
                old(tree).spec_len(),
            ),
            final(tree)@.is_group == old(tree)@.is_group + placed_groups(obj_layout(self@)),
    {
        let ghost base = old(tree).spec_len();
        let ghost inc = included_groups(self@);
        let ghost total = obj_layout(self@);
        let top = tree.add_shape(true);
        let mut nodes: Vec<ObjNode> = Vec::new();
        nodes.push(ObjNode::Group);
        let ghost head = seq![(ObjNode::Group, None::<nat>)];
        proof {
            assert(placed_parents(head, base) =~= seq![None::<usize>]);
            assert(placed_groups(head) =~= seq![true]);
            assert(layout_nodes(head) =~= seq![ObjNode::Group]);
            assert(inc.subrange(0, 0) =~= Seq::<Seq<ObjTriangle>>::empty());
        }
        let ghost mut k: int = 0;
        if self.default_group.len() > 0 {
            proof {
                assert(inc[0] == self.default_group@);
                assert(inc.subrange(0, 1).drop_last() =~= inc.subrange(0, 0));
                assert(inc.subrange(0, 1).last() == inc[0]);
                assert(groups_layout(inc.subrange(0, 0), 1) =~= Seq::<(ObjNode, Option<nat>)>::empty());
                tree.lemma_well_formed();
                lemma_layout_len(inc, 1, 1);
                assert(groups_layout(inc.subrange(0, 1), 1) == block_layout(self.default_group@, 1));
            }
            add_block(tree, top, &self.default_group, &mut nodes);
            proof {
                lemma_placed_concat(head, block_layout(self.default_group@, 1), base);
                k = 1;
            }
        }
        proof {
            tree.lemma_well_formed();
            old(tree).lemma_well_formed();
        }
        let ghost first = k;
        let mut i: usize = 0;
        while i < self.groups.len()
            invariant
                tree.wf(),
                top == base,
                inc == included_groups(self@),
                total == obj_layout(self@),
                total == head + groups_layout(inc, 1),
                head == seq![(ObjNode::Group, None::<nat>)],
                k == first + i,
                first == (if self@.default_group.len() > 0 { 1int } else { 0int }),
                i <= self.groups.len(),
                base + total.len() < usize::MAX,
                tree@.is_group[top as int],
                top < tree.spec_len(),
                tree.spec_len() == base + 1 + groups_layout(inc.subrange(0, k), 1).len(),
                tree@.parents == old(tree)@.parents + placed_parents(
                    head + groups_layout(inc.subrange(0, k), 1),
                    base,
                ),
                tree@.is_group == old(tree)@.is_group + placed_groups(head + groups_layout(inc.subrange(0, k), 1)),
                nodes@ == layout_nodes(head + groups_layout(inc.subrange(0, k), 1)),
            decreases self.groups.len() - i,
        {
            let ghost prev = groups_layout(inc.subrange(0, k), 1);
            proof {
                tree.lemma_well_formed();
                assert(inc.subrange(0, k + 1).last() == inc[k]);
                assert(inc[k] == self.groups@[i as int].triangles@);
                assert(inc.subrange(0, k + 1).drop_last() =~= inc.subrange(0, k));
                lemma_layout_len(inc, 1, k + 1);
                assert(groups_layout(inc.subrange(0, k + 1), 1) == prev + block_layout(
                    self.groups@[i as int].triangles@,
                    1 + prev.len(),
                ));
            }
            add_block(tree, top, &self.groups[i].triangles, &mut nodes);
            proof {
                let b = block_layout(self.groups@[i as int].triangles@, 1 + prev.len());
                lemma_placed_concat(head + prev, b, base);
                assert(head + prev + b =~= head + (prev + b));
                tree.lemma_well_formed();
                k = k + 1;
            }
            i = i + 1;
        }
        proof {
            assert(inc.len() == first + self.groups.len());
            assert(inc.subrange(0, k) =~= inc);
        }
        nodes
    }
}

} // verus!
