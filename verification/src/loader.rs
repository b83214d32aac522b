//! The mesh file format, one line at a time: optional header lines, the
//! two counts, the vertex lines and the polygon lines.

use crate::mesh::{Mesh, Polygon, Vertex};
use crate::numeric::UNIT;
use vstd::prelude::*;

verus! {

/// A blank separates the words of a line: a space, a tab or a carriage
/// return.
pub open spec fn is_blank(b: u8) -> bool {
    b == 32 || b == 9 || b == 13
}

/// An ASCII digit.
pub open spec fn is_digit(b: u8) -> bool {
    48 <= b <= 57
}

/// The words of a line that are complete, and the word that is being read.
pub struct Scan {
    pub done: Seq<Seq<u8>>,
    pub word: Seq<u8>,
}

/// A line read byte by byte: a blank ends the word before it, any other
/// byte goes to the word being read.
pub open spec fn scan(line: Seq<u8>) -> Scan
    decreases line.len(),
{
    if line.len() == 0 {
        Scan { done: Seq::empty(), word: Seq::empty() }
    } else {
        let before = scan(line.drop_last());
        if !is_blank(line.last()) {
            Scan { done: before.done, word: before.word.push(line.last()) }
        } else if before.word.len() > 0 {
            Scan { done: before.done.push(before.word), word: Seq::empty() }
        } else {
            before
        }
    }
}

/// The words of a line: its longest stretches without a blank.
pub open spec fn words(line: Seq<u8>) -> Seq<Seq<u8>> {
    let s = scan(line);
    if s.word.len() > 0 {
        s.done.push(s.word)
    } else {
        s.done
    }
}

/// Every byte is a digit.
pub open spec fn all_digits(s: Seq<u8>) -> bool {
    forall|k: int| 0 <= k < s.len() ==> is_digit(#[trigger] s[k])
}

/// The number that a string of digits writes in base ten.
pub open spec fn digits_value(s: Seq<u8>) -> int
    decreases s.len(),
{
    if s.len() == 0 {
        0
    } else {
        digits_value(s.drop_last()) * 10 + (s.last() - 48)
    }
}

/// The integer that a word writes: digits, after a minus sign or not.
pub open spec fn number(word: Seq<u8>) -> Option<int> {
    if word.len() > 0 && word[0] == 45 {
        let digits = word.subrange(1, word.len() as int);
        if digits.len() > 0 && all_digits(digits) {
            Some(-digits_value(digits))
        } else {
            None
        }
    } else if word.len() > 0 && all_digits(word) {
        Some(digits_value(word))
    } else {
        None
    }
}

/// The word writes an integer whose magnitude fits in an `i64`.
pub open spec fn fits(word: Seq<u8>) -> bool {
    number(word) matches Some(v) && -i64::MAX <= v <= i64::MAX
}

/// The integers that a line writes, if all its words are integers whose
/// magnitude fits in an `i64`.
pub open spec fn numbers(line: Seq<u8>) -> Option<Seq<i64>> {
    let ws = words(line);
    if forall|k: int| 0 <= k < ws.len() ==> fits(#[trigger] ws[k]) {
        Some(Seq::new(ws.len(), |k: int| number(ws[k])->0 as i64))
    } else {
        None
    }
}

/// The views of a sequence of byte vectors.
pub open spec fn word_views(ws: Seq<Vec<u8>>) -> Seq<Seq<u8>> {
    ws.map_values(|w: Vec<u8>| w@)
}

/// A longer string of digits does not write a smaller number.
pub proof fn lemma_digits_grow(s: Seq<u8>, k: int)
    requires
        all_digits(s),
        0 <= k <= s.len(),
    ensures
        0 <= digits_value(s.subrange(0, k)) <= digits_value(s),
    decreases s.len() - k,
{
    if k == s.len() {
        assert(s.subrange(0, k) =~= s);
        lemma_digits_nonnegative(s);
    } else {
        lemma_digits_grow(s, k + 1);
        let longer = s.subrange(0, k + 1);
        assert(longer.drop_last() =~= s.subrange(0, k));
        assert(is_digit(s[k]));
        assert(longer.last() == s[k]);
        lemma_digits_nonnegative(s.subrange(0, k));
        assert(all_digits(s.subrange(0, k))) by {
            assert forall|j: int| 0 <= j < k implies is_digit(#[trigger] s.subrange(0, k)[j]) by {
                assert(is_digit(s[j]));
            }
        }
    }
}

/// A string of digits writes a number that is not negative.
pub proof fn lemma_digits_nonnegative(s: Seq<u8>)
    requires
        all_digits(s),
    ensures
        0 <= digits_value(s),
    decreases s.len(),
{
    if s.len() > 0 {
        assert forall|j: int| 0 <= j < s.drop_last().len() implies is_digit(
            #[trigger] s.drop_last()[j],
        ) by {
            assert(is_digit(s[j]));
        }
        lemma_digits_nonnegative(s.drop_last());
        assert(is_digit(s[s.len() - 1]));
    }
}

/// The words of a line.
pub fn split_words(line: &[u8]) -> (ws: Vec<Vec<u8>>)
    ensures
        word_views(ws@) == words(line@),
{
    let mut done: Vec<Vec<u8>> = Vec::new();
    let mut word: Vec<u8> = Vec::new();
    let mut k: usize = 0;
    assert(line@.subrange(0, 0) =~= Seq::<u8>::empty());
    assert(word_views(done@) =~= Seq::<Seq<u8>>::empty());
    while k < line.len()
        invariant
            k <= line@.len(),
            word_views(done@) == scan(line@.subrange(0, k as int)).done,
            word@ == scan(line@.subrange(0, k as int)).word,
        decreases line@.len() - k,
    {
        let b = line[k];
        proof {
            let longer = line@.subrange(0, k + 1);
            assert(longer.drop_last() =~= line@.subrange(0, k as int));
            assert(longer.last() == b);
        }
        if !(b == 32 || b == 9 || b == 13) {
            word.push(b);
        } else if word.len() > 0 {
            let ghost before = word_views(done@);
            let ghost w = word@;
            done.push(word);
            word = Vec::new();
            assert(word_views(done@) =~= before.push(w));
        }
        k += 1;
    }
    assert(line@.subrange(0, line@.len() as int) =~= line@);
    if word.len() > 0 {
        let ghost before = word_views(done@);
        let ghost w = word@;
        done.push(word);
        assert(word_views(done@) =~= before.push(w));
    }
    done
}

/// The integer that a word writes, if it writes one whose magnitude fits
/// in an `i64`.
pub fn parse_number(word: &Vec<u8>) -> (n: Option<i64>)
    ensures
        n == (match number(word@) {
            Some(v) => if -i64::MAX <= v <= i64::MAX {
                Some(v as i64)
            } else {
                None
            },
            None => None,
        }),
{
    if word.len() == 0 {
        return None;
    }
    let negative = word[0] == 45;
    let first: usize = if negative {
        1
    } else {
        0
    };
    if first == word.len() {
        return None;
    }
    let ghost digits = word@.subrange(first as int, word@.len() as int);
    let mut value: i64 = 0;
    let mut k: usize = first;
    assert(digits.subrange(0, 0) =~= Seq::<u8>::empty());
    while k < word.len()
        invariant
            first <= k <= word@.len(),
            word@.len() > 0,
            negative == (word@[0] == 45),
            first == (if negative {
                1usize
            } else {
                0usize
            }),
            digits == word@.subrange(first as int, word@.len() as int),
            all_digits(digits.subrange(0, k - first)),
            value == digits_value(digits.subrange(0, k - first)),
            0 <= value,
        decreases word@.len() - k,
    {
        let b = word[k];
        let ghost shorter = digits.subrange(0, k - first);
        let ghost longer = digits.subrange(0, k - first + 1);
        proof {
            assert(longer.drop_last() =~= shorter);
            assert(longer.last() == b);
            assert(digits[k - first] == b);
        }
        if !(48 <= b && b <= 57) {
            assert(!all_digits(digits));
            assert(!negative ==> digits =~= word@);
            return None;
        }
        assert(all_digits(longer)) by {
            assert forall|j: int| 0 <= j < longer.len() implies is_digit(#[trigger] longer[j]) by {
                if j < shorter.len() {
                    assert(is_digit(shorter[j]));
                }
            }
        }
        let d = (b - 48) as i64;
        if value > (i64::MAX - d) / 10 {
            proof {
                assert(digits_value(longer) > i64::MAX);
                if all_digits(digits) {
                    lemma_digits_grow(digits, k - first + 1);
                }
                assert(!negative ==> digits =~= word@);
            }
            return None;
        }
        value = value * 10 + d;
        k += 1;
    }
    proof {
        assert(digits.subrange(0, digits.len() as int) =~= digits);
        assert(!negative ==> digits =~= word@);
        if !negative {
            assert(word@[0] != 45);
        }
    }
    if negative {
        Some(-value)
    } else {
        Some(value)
    }
}

/// The integers that a line writes.
pub fn parse_numbers(line: &[u8]) -> (ns: Option<Vec<i64>>)
    ensures
        match ns {
            Some(v) => numbers(line@) == Some(v@),
            None => numbers(line@) is None,
        },
{
    let ws = split_words(line);
    let mut ns: Vec<i64> = Vec::with_capacity(ws.len());
    let mut k: usize = 0;
    while k < ws.len()
        invariant
            k <= ws@.len(),
            word_views(ws@) == words(line@),
            ns@.len() == k,
            forall|j: int| 0 <= j < k ==> fits(#[trigger] words(line@)[j]),
            forall|j: int| 0 <= j < k ==> ns@[j] == number(words(line@)[j])->0 as i64,
        decreases ws@.len() - k,
    {
        assert(word_views(ws@)[k as int] == ws@[k as int]@);
        match parse_number(&ws[k]) {
            Some(v) => {
                ns.push(v);
            },
            None => {
                assert(!fits(words(line@)[k as int]));
                return None;
            },
        }
        k += 1;
    }
    assert(word_views(ws@).len() == ws@.len());
    assert(ns@ =~= numbers(line@)->0);
    Some(ns)
}

/// Why a line of a mesh file was turned down.
#[derive(Debug, Clone, Copy, PartialEq, Eq, Structural)]
pub enum LoadError {
    /// The line should hold the two counts, and does not.
    Header,
    /// The line should hold a vertex, and does not.
    Vertex,
    /// The line should hold a polygon, and does not.
    Polygon,
    /// The line comes after the last polygon.
    Surplus,
}

/// What the next line of a mesh file is taken for.
#[derive(Debug, Clone, Copy, PartialEq, Eq, Structural)]
pub enum Phase {
    /// Header lines, then the line with the two counts.
    Header,
    /// Vertex lines, as many as the first count says.
    Vertices,
    /// Polygon lines, as many as the second count says.
    Polygons,
}

/// What a line is, given what has been read before it.
#[derive(Debug, Clone, Copy, PartialEq, Eq, Structural)]
pub enum LineKind {
    /// A header line, passed over.
    Skip,
    /// The line with the two counts.
    Counts,
    VertexLine,
    PolygonLine,
    /// A line after the last polygon.
    Surplus,
}

/// A mesh that is being read from the lines of a file.
#[derive(Debug)]
pub struct MeshLoader {
    /// What has been read so far.
    pub mesh: Mesh,
    /// Vertex lines still to come.
    pub nb_vertices: usize,
    /// Polygon lines still to come.
    pub nb_polygons: usize,
    pub phase: Phase,
}

/// The line is one of the two header lines: `mesh` or `2`.
pub open spec fn is_header_line(line: Seq<u8>) -> bool {
    line == seq![109u8, 101u8, 115u8, 104u8] || line == seq![50u8]
}

/// The two counts that a line holds: two integers that are not negative.
pub open spec fn counts_of(ns: Option<Seq<i64>>) -> Option<(usize, usize)> {
    match ns {
        Some(n) => if n.len() == 2 && 0 <= n[0] <= usize::MAX && 0 <= n[1] <= usize::MAX {
            Some((n[0] as usize, n[1] as usize))
        } else {
            None
        },
        None => None,
    }
}

/// The integers from place `from` on are polygon indices.
pub open spec fn indices_from(n: Seq<i64>, from: int) -> bool {
    forall|k: int| from <= k < n.len() ==> isize::MIN <= #[trigger] n[k] <= isize::MAX
}

/// The integers from place `from` on, as polygon indices.
pub open spec fn tail(n: Seq<i64>, from: int) -> Seq<isize> {
    if n.len() > from {
        Seq::new((n.len() - from) as nat, |k: int| n[from + k] as isize)
    } else {
        Seq::empty()
    }
}

/// A vertex line: two whole coordinates that are not negative, a count
/// that is passed over, and the polygons around the vertex.
pub open spec fn vertex_line(ns: Option<Seq<i64>>) -> bool {
    ns matches Some(n) && n.len() >= 2 && 0 <= n[0] <= u32::MAX && 0 <= n[1] <= u32::MAX
        && indices_from(n, 3)
}

/// The vertex that a vertex line holds.
pub open spec fn vertex_made(v: Vertex, n: Seq<i64>) -> bool {
    &&& v.x == n[0] * UNIT
    &&& v.y == n[1] * UNIT
    &&& v.polygons@ == tail(n, 3)
    &&& v.is_corner == tail(n, 3).contains(-1isize)
}

/// A polygon line: the number of vertices, then as many vertex indices,
/// then as many neighbours.
pub open spec fn polygon_line(ns: Option<Seq<i64>>) -> bool {
    ns matches Some(n) && n.len() >= 1 && 0 <= n[0] && n.len() - 1 == 2 * n[0] && indices_from(
        n,
        1,
    )
}

/// The polygon that a polygon line holds.
pub open spec fn polygon_made(p: Polygon, n: Seq<i64>) -> bool {
    &&& p.vertices@.len() == n[0]
    &&& forall|k: int|
        0 <= k < n[0] ==> p.vertices@[k] == crate::mesh::vertex_index(#[trigger] tail(n, 1)[k])
    &&& p.is_one_way == crate::mesh::one_way(tail(n, 1).subrange(n[0] as int, 2 * n[0]))
}

fn indices(n: &Vec<i64>, from: usize) -> (list: Option<Vec<isize>>)
    ensures
        match list {
            Some(l) => indices_from(n@, from as int) && l@ == tail(n@, from as int),
            None => !indices_from(n@, from as int),
        },
{
    let mut list: Vec<isize> = Vec::new();
    if n.len() <= from {
        assert(list@ =~= tail(n@, from as int));
        return Some(list);
    }
    let mut k: usize = from;
    while k < n.len()
        invariant
            from <= k <= n@.len(),
            from < n@.len(),
            list@.len() == k - from,
            forall|j: int| from <= j < k ==> isize::MIN <= #[trigger] n@[j] <= isize::MAX,
            forall|j: int| 0 <= j < k - from ==> list@[j] == n@[from + j] as isize,
        decreases n@.len() - k,
    {
        let v = n[k];
        if v < isize::MIN as i64 || v > isize::MAX as i64 {
            assert(!(isize::MIN <= n@[k as int] <= isize::MAX));
            return None;
        }
        list.push(v as isize);
        k += 1;
    }
    assert(list@ =~= tail(n@, from as int));
    Some(list)
}

fn is_header(line: &[u8]) -> (b: bool)
    ensures
        b == is_header_line(line@),
{
    if line.len() == 4 {
        let b = line[0] == 109 && line[1] == 101 && line[2] == 115 && line[3] == 104;
        proof {
            if b {
                assert(line@ =~= seq![109u8, 101u8, 115u8, 104u8]);
            } else {
                assert(seq![109u8, 101u8, 115u8, 104u8][0] == 109u8);
                assert(seq![109u8, 101u8, 115u8, 104u8][1] == 101u8);
                assert(seq![109u8, 101u8, 115u8, 104u8][2] == 115u8);
                assert(seq![109u8, 101u8, 115u8, 104u8][3] == 104u8);
            }
            assert(seq![50u8].len() == 1);
        }
        b
    } else if line.len() == 1 {
        let b = line[0] == 50;
        proof {
            if b {
                assert(line@ =~= seq![50u8]);
            } else {
                assert(seq![50u8][0] == 50u8);
            }
            assert(seq![109u8, 101u8, 115u8, 104u8].len() == 4);
        }
        b
    } else {
        proof {
            assert(seq![50u8].len() == 1);
            assert(seq![109u8, 101u8, 115u8, 104u8].len() == 4);
        }
        false
    }
}

impl MeshLoader {
    /// What the line `line` is taken for.
    pub open spec fn kind(self, line: Seq<u8>) -> LineKind {
        match self.phase {
            Phase::Header => if is_header_line(line) {
                LineKind::Skip
            } else {
                LineKind::Counts
            },
            Phase::Vertices => if self.nb_vertices > 0 {
                LineKind::VertexLine
            } else if self.nb_polygons > 0 {
                LineKind::PolygonLine
            } else {
                LineKind::Surplus
            },
            Phase::Polygons => if self.nb_polygons > 0 {
                LineKind::PolygonLine
            } else {
                LineKind::Surplus
            },
        }
    }

    /// Every line that was announced has been read.
    pub open spec fn complete(self) -> bool {
        self.phase != Phase::Header && self.nb_vertices == 0 && self.nb_polygons == 0
    }

    /// A loader that has read nothing.
    pub fn new() -> (loader: MeshLoader)
        ensures
            loader.phase == Phase::Header,
            loader.nb_vertices == 0,
            loader.nb_polygons == 0,
            loader.mesh.vertices@.len() == 0,
            loader.mesh.polygons@.len() == 0,
    {
        MeshLoader {
            mesh: Mesh { vertices: Vec::new(), polygons: Vec::new() },
            nb_vertices: 0,
            nb_polygons: 0,
            phase: Phase::Header,
        }
    }

    /// Reads the next line of the file, without its line end.  A line that
    /// is turned down leaves the loader as it was.
    pub fn feed(&mut self, line: &[u8]) -> (r: Result<(), LoadError>)
        ensures
            r is Err ==> *final(self) == *old(self),
            match old(self).kind(line@) {
                LineKind::Skip => r is Ok && *final(self) == *old(self),
                LineKind::Counts => match counts_of(numbers(line@)) {
                    Some(c) => {
                        &&& r is Ok
                        &&& final(self).nb_vertices == c.0
                        &&& final(self).nb_polygons == c.1
                        &&& final(self).phase == Phase::Vertices
                        &&& final(self).mesh == old(self).mesh
                    },
                    None => r == Err::<(), LoadError>(LoadError::Header),
                },
                LineKind::VertexLine => if vertex_line(numbers(line@)) {
                    &&& r is Ok
                    &&& final(self).mesh.vertices@.len() == old(self).mesh.vertices@.len() + 1
                    &&& final(self).mesh.vertices@.drop_last() == old(self).mesh.vertices@
                    &&& vertex_made(final(self).mesh.vertices@.last(), numbers(line@)->0)
                    &&& final(self).mesh.polygons == old(self).mesh.polygons
                    &&& final(self).nb_vertices == old(self).nb_vertices - 1
                    &&& final(self).nb_polygons == old(self).nb_polygons
                    &&& final(self).phase == Phase::Vertices
                } else {
                    r == Err::<(), LoadError>(LoadError::Vertex)
                },
                LineKind::PolygonLine => if polygon_line(numbers(line@)) {
                    &&& r is Ok
                    &&& final(self).mesh.polygons@.len() == old(self).mesh.polygons@.len() + 1
                    &&& final(self).mesh.polygons@.drop_last() == old(self).mesh.polygons@
                    &&& polygon_made(final(self).mesh.polygons@.last(), numbers(line@)->0)
                    &&& final(self).mesh.vertices == old(self).mesh.vertices
                    &&& final(self).nb_vertices == old(self).nb_vertices
                    &&& final(self).nb_polygons == old(self).nb_polygons - 1
                    &&& final(self).phase == Phase::Polygons
                } else {
                    r == Err::<(), LoadError>(LoadError::Polygon)
                },
                LineKind::Surplus => r == Err::<(), LoadError>(LoadError::Surplus),
            },
    {
        match self.phase {
            Phase::Header => {
                if is_header(line) {
                    return Ok(());
                }
                let ns = match parse_numbers(line) {
                    Some(ns) => ns,
                    None => {
                        return Err(LoadError::Header);
                    },
                };
                if ns.len() != 2 || ns[0] < 0 || ns[1] < 0 || ns[0] as u64 > usize::MAX as u64
                    || ns[1] as u64 > usize::MAX as u64 {
                    return Err(LoadError::Header);
                }
                self.nb_vertices = ns[0] as usize;
                self.nb_polygons = ns[1] as usize;
                self.phase = Phase::Vertices;
                Ok(())
            },
            Phase::Vertices => {
                if self.nb_vertices > 0 {
                    self.feed_vertex(line)
                } else {
                    self.feed_polygon(line)
                }
            },
            Phase::Polygons => self.feed_polygon(line),
        }
    }

    fn feed_vertex(&mut self, line: &[u8]) -> (r: Result<(), LoadError>)
        requires
            old(self).nb_vertices > 0,
        ensures
            r is Err ==> *final(self) == *old(self),
            if vertex_line(numbers(line@)) {
                &&& r is Ok
                &&& final(self).mesh.vertices@.len() == old(self).mesh.vertices@.len() + 1
                &&& final(self).mesh.vertices@.drop_last() == old(self).mesh.vertices@
                &&& vertex_made(final(self).mesh.vertices@.last(), numbers(line@)->0)
                &&& final(self).mesh.polygons == old(self).mesh.polygons
                &&& final(self).nb_vertices == old(self).nb_vertices - 1
                &&& final(self).nb_polygons == old(self).nb_polygons
                &&& final(self).phase == old(self).phase
            } else {
                r == Err::<(), LoadError>(LoadError::Vertex)
            },
    {
        let ns = match parse_numbers(line) {
            Some(ns) => ns,
            None => {
                return Err(LoadError::Vertex);
            },
        };
        if ns.len() < 2 || ns[0] < 0 || ns[0] > u32::MAX as i64 || ns[1] < 0 || ns[1]
            > u32::MAX as i64 {
            return Err(LoadError::Vertex);
        }
        let around = match indices(&ns, 3) {
            Some(around) => around,
            None => {
                return Err(LoadError::Vertex);
            },
        };
        let vertex = Vertex::new(ns[0] as u32, ns[1] as u32, around);
        self.mesh.vertices.push(vertex);
        self.nb_vertices = self.nb_vertices - 1;
        assert(self.mesh.vertices@.drop_last() =~= old(self).mesh.vertices@);
        Ok(())
    }

    fn feed_polygon(&mut self, line: &[u8]) -> (r: Result<(), LoadError>)
        ensures
            r is Err ==> *final(self) == *old(self),
            if old(self).nb_polygons == 0 {
                r == Err::<(), LoadError>(LoadError::Surplus)
            } else if polygon_line(numbers(line@)) {
                &&& r is Ok
                &&& final(self).mesh.polygons@.len() == old(self).mesh.polygons@.len() + 1
                &&& final(self).mesh.polygons@.drop_last() == old(self).mesh.polygons@
                &&& polygon_made(final(self).mesh.polygons@.last(), numbers(line@)->0)
                &&& final(self).mesh.vertices == old(self).mesh.vertices
                &&& final(self).nb_vertices == old(self).nb_vertices
                &&& final(self).nb_polygons == old(self).nb_polygons - 1
                &&& final(self).phase == Phase::Polygons
            } else {
                r == Err::<(), LoadError>(LoadError::Polygon)
            },
    {
        if self.nb_polygons == 0 {
            return Err(LoadError::Surplus);
        }
        let ns = match parse_numbers(line) {
            Some(ns) => ns,
            None => {
                return Err(LoadError::Polygon);
            },
        };
        if ns.len() < 1 || ns[0] < 0 {
            return Err(LoadError::Polygon);
        }
        let rest = ns.len() - 1;
        if ns[0] as u64 > rest as u64 || rest - ns[0] as usize != ns[0] as usize {
            return Err(LoadError::Polygon);
        }
        let data = match indices(&ns, 1) {
            Some(data) => data,
            None => {
                return Err(LoadError::Polygon);
            },
        };
        let polygon = Polygon::new(ns[0] as usize, data);
        self.mesh.polygons.push(polygon);
        self.nb_polygons = self.nb_polygons - 1;
        self.phase = Phase::Polygons;
        assert(self.mesh.polygons@.drop_last() =~= old(self).mesh.polygons@);
        Ok(())
    }

    /// Tells whether every line that was announced has been read.
    pub fn is_complete(&self) -> (b: bool)
        ensures
            b == self.complete(),
    {
        self.phase != Phase::Header && self.nb_vertices == 0 && self.nb_polygons == 0
    }

    /// The mesh that has been read.
    pub fn finish(self) -> (mesh: Mesh)
        ensures
            mesh == self.mesh,
    {
        self.mesh
    }
}

} // verus!
