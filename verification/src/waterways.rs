//! Corridors: navigable channels that the land polygons do not show as water.
//!
//! Rivers are absent from polygons derived from the coastline; fjords and straits are there,
//! but narrower than the raster, which seals them shut. Each corridor is painted into the
//! land raster as water, so the quadtree forms ordinary cells along it.
use vstd::prelude::*;

use crate::geo::{Point, KM};

verus! {

/// A navigable channel that the land polygons do not model as water.
pub struct Waterway {
    pub name: String,
    /// Centreline in order: mouth first, head last, by convention.
    pub points: Vec<Point>,
    /// Half the width of the corridor, in micrometres. The painted channel is twice this
    /// across.
    pub half_width: u64,
}

/// Half width of a corridor that does not set one: 1.2 kilometres each side give a channel
/// of one raster cell, the narrowest that survives rasterization.
pub const DEFAULT_HALF_WIDTH: u64 = 1_200_000_000;

/// The lines of one feature.
#[allow(inconsistent_fields)]
pub enum Lines {
    LineString { coordinates: Vec<Point> },
    MultiLineString { coordinates: Vec<Vec<Point>> },
}

/// One feature of a corridor file.
pub struct Feature {
    pub name: Option<String>,
    pub half_width: Option<u64>,
    pub geometry: Lines,
}

/// What a waterway holds.
pub ghost struct Corridor {
    pub name: Seq<char>,
    pub points: Seq<Point>,
    pub half_width: u64,
}

impl View for Waterway {
    type V = Corridor;

    open spec fn view(&self) -> Corridor {
        Corridor { name: self.name@, points: self.points@, half_width: self.half_width }
    }
}

/// The name of a feature; one without is unnamed.
pub open spec fn feature_name(f: Feature) -> Seq<char> {
    match f.name {
        Some(name) => name@,
        None => "unnamed"@,
    }
}

/// The half width of a feature.
pub open spec fn feature_width(f: Feature) -> u64 {
    match f.half_width {
        Some(w) => w,
        None => DEFAULT_HALF_WIDTH,
    }
}

/// The lines of a feature.
pub open spec fn feature_lines(f: Feature) -> Seq<Seq<Point>> {
    match f.geometry {
        Lines::LineString { coordinates } => seq![coordinates@],
        Lines::MultiLineString { coordinates } => coordinates@.map_values(|l: Vec<Point>| l@),
    }
}

/// One corridor for each of the first `k` lines that has two points or more.
pub open spec fn line_corridors(name: Seq<char>, half_width: u64, lines: Seq<Seq<Point>>, k: int) -> Seq<Corridor>
    decreases k,
{
    if k <= 0 {
        Seq::empty()
    } else {
        let before = line_corridors(name, half_width, lines, k - 1);
        if lines[k - 1].len() >= 2 {
            before.push(Corridor { name, points: lines[k - 1], half_width })
        } else {
            before
        }
    }
}

/// The corridors of the first `k` features.
pub open spec fn corridors_of(features: Seq<Feature>, k: int) -> Seq<Corridor>
    decreases k,
{
    if k <= 0 {
        Seq::empty()
    } else {
        let f = features[k - 1];
        let lines = feature_lines(f);
        corridors_of(features, k - 1) + line_corridors(
            feature_name(f),
            feature_width(f),
            lines,
            lines.len() as int,
        )
    }
}

/// The corridors held by a list of waterways.
pub open spec fn views(ways: Seq<Waterway>) -> Seq<Corridor> {
    ways.map_values(|w: Waterway| w@)
}

fn copy_points(points: &Vec<Point>) -> (r: Vec<Point>)
    ensures
        r@ == points@,
{
    let mut r: Vec<Point> = Vec::new();
    let mut i: usize = 0;
    while i < points.len()
        invariant
            i <= points.len(),
            r@ =~= points@.take(i as int),
        decreases points.len() - i,
    {
        r.push(points[i]);
        i = i + 1;
    }
    r
}

fn push_line(ways: &mut Vec<Waterway>, name: &String, half_width: u64, line: &Vec<Point>)
    ensures
        views(final(ways)@) == if line.len() >= 2 {
            views(old(ways)@).push(Corridor { name: name@, points: line@, half_width })
        } else {
            views(old(ways)@)
        },
{
    if line.len() >= 2 {
        let ghost before = ways@;
        let way = Waterway { name: name.clone(), points: copy_points(line), half_width };
        ways.push(way);
        assert(views(ways@) =~= views(before).push(way@));
    }
}

/// The corridors of a file's features: one for each line of two points or more.
pub fn load(features: &Vec<Feature>) -> (ways: Vec<Waterway>)
    ensures
        views(ways@) == corridors_of(features@, features.len() as int),
{
    let mut ways: Vec<Waterway> = Vec::new();
    assert(views(ways@) =~= Seq::<Corridor>::empty());
    let mut i: usize = 0;
    while i < features.len()
        invariant
            i <= features.len(),
            views(ways@) == corridors_of(features@, i as int),
        decreases features.len() - i,
    {
        let f = &features[i];
        let ghost before = views(ways@);
        let name = match &f.name {
            Some(name) => name.clone(),
            None => "unnamed".to_string(),
        };
        let half_width = match f.half_width {
            Some(w) => w,
            None => DEFAULT_HALF_WIDTH,
        };
        let ghost lines = feature_lines(*f);
        match &f.geometry {
            Lines::LineString { coordinates } => {
                push_line(&mut ways, &name, half_width, coordinates);
                proof {
                    reveal_with_fuel(line_corridors, 2);
                    assert(views(ways@) =~= before + line_corridors(name@, half_width, lines, 1));
                }
            },
            Lines::MultiLineString { coordinates } => {
                let mut k: usize = 0;
                assert(before =~= before + line_corridors(name@, half_width, lines, 0));
                while k < coordinates.len()
                    invariant
                        k <= coordinates.len(),
                        lines == coordinates@.map_values(|l: Vec<Point>| l@),
                        views(ways@) == before + line_corridors(name@, half_width, lines, k as int),
                    decreases coordinates.len() - k,
                {
                    push_line(&mut ways, &name, half_width, &coordinates[k]);
                    assert(lines[k as int] == coordinates@[k as int]@);
                    assert(views(ways@) =~= before + line_corridors(name@, half_width, lines, k + 1));
                    k = k + 1;
                }
            },
        }
        i = i + 1;
    }
    ways
}

/// Every corridor has two points or more.
pub proof fn lemma_corridors_are_lines(features: Seq<Feature>, k: int, i: int)
    requires
        0 <= k <= features.len(),
        0 <= i < corridors_of(features, k).len(),
    ensures
        corridors_of(features, k)[i].points.len() >= 2,
    decreases k,
{
    let before = corridors_of(features, k - 1);
    if i < before.len() {
        lemma_corridors_are_lines(features, k - 1, i);
    } else {
        let f = features[k - 1];
        let lines = feature_lines(f);
        lemma_line_corridors(feature_name(f), feature_width(f), lines, lines.len() as int, i - before.len());
    }
}

proof fn lemma_line_corridors(name: Seq<char>, half_width: u64, lines: Seq<Seq<Point>>, k: int, i: int)
    requires
        0 <= i < line_corridors(name, half_width, lines, k).len(),
    ensures
        line_corridors(name, half_width, lines, k)[i].points.len() >= 2,
    decreases k,
{
    if k > 0 && i < line_corridors(name, half_width, lines, k - 1).len() {
        lemma_line_corridors(name, half_width, lines, k - 1, i);
    }
}

/// The hash of a file's bytes: FNV-1a.
pub open spec fn fnv(bytes: Seq<u8>) -> u64
    decreases bytes.len(),
{
    if bytes.len() == 0 {
        0xcbf2_9ce4_8422_2325
    } else {
        (((fnv(bytes.drop_last()) ^ bytes.last() as u64) * 0x100_0000_01b3) % 0x1_0000_0000_0000_0000) as u64
    }
}

/// Hash of the content of a corridor file, by which an edited file is told from the one
/// before; zero where there is no file.
pub fn fingerprint(content: Option<&Vec<u8>>) -> (h: u64)
    ensures
        h == match content {
            Some(bytes) => fnv(bytes@),
            None => 0,
        },
{
    let bytes = match content {
        Some(bytes) => bytes,
        None => return 0,
    };
    let mut h: u64 = 0xcbf2_9ce4_8422_2325;
    let mut i: usize = 0;
    assert(bytes@.take(0) =~= Seq::<u8>::empty());
    while i < bytes.len()
        invariant
            i <= bytes.len(),
            h == fnv(bytes@.take(i as int)),
        decreases bytes.len() - i,
    {
        let x = h ^ (bytes[i] as u64);
        assert(bytes@.take(i + 1).drop_last() =~= bytes@.take(i as int));
        h = x.wrapping_mul(0x100_0000_01b3);
        i = i + 1;
    }
    assert(bytes@.take(bytes.len() as int) =~= bytes@);
    h
}

/// Multiplication by the odd factor of the hash can be undone.
proof fn lemma_factor(x: u64)
    ensures
        (((x * 0x100_0000_01b3) % 0x1_0000_0000_0000_0000) * 0xce96_5057_aff6_957b)
            % 0x1_0000_0000_0000_0000 == x,
{
    let m: int = 0x1_0000_0000_0000_0000;
    let inverse: int = 0xce96_5057_aff6_957b;
    let y = x * 0x100_0000_01b3;
    let q = y / m;
    let r = y % m;
    vstd::arithmetic::div_mod::lemma_fundamental_div_mod(y, m);
    assert(0x100_0000_01b3 * inverse == 1 + m * 887_285_111_055);
    assert(r * inverse == m * (x * 887_285_111_055 - q * inverse) + x) by (nonlinear_arith)
        requires
            y == m * q + r,
            y == x * 0x100_0000_01b3,
            0x100_0000_01b3 * inverse == 1 + m * 887_285_111_055,
    ;
    vstd::arithmetic::div_mod::lemma_fundamental_div_mod_converse(
        r * inverse,
        m,
        x * 887_285_111_055 - q * inverse,
        x as int,
    );
}

proof fn lemma_hash_step(g: u64, h: u64, a: u8, b: u8)
    requires
        (((g ^ a as u64) * 0x100_0000_01b3) % 0x1_0000_0000_0000_0000) as u64 == (((h ^ b as u64)
            * 0x100_0000_01b3) % 0x1_0000_0000_0000_0000) as u64,
    ensures
        g == h <==> a == b,
{
    lemma_factor(g ^ a as u64);
    lemma_factor(h ^ b as u64);
    assert(g ^ a as u64 == h ^ b as u64);
    assert(g ^ a as u64 == h ^ b as u64 ==> (g == h <==> a == b)) by (bit_vector);
}

/// An edit of one byte changes the hash of a file.
pub proof fn lemma_edit_changes_hash(a: Seq<u8>, b: Seq<u8>, at: int)
    requires
        a.len() == b.len(),
        0 <= at < a.len(),
        a[at] != b[at],
        forall|i: int| 0 <= i < a.len() && i != at ==> a[i] == b[i],
    ensures
        fnv(a) != fnv(b),
    decreases a.len(),
{
    let x = a.drop_last();
    let y = b.drop_last();
    if at == a.len() - 1 {
        assert(x =~= y);
        if fnv(a) == fnv(b) {
            lemma_hash_step(fnv(x), fnv(y), a.last(), b.last());
        }
    } else {
        lemma_edit_changes_hash(x, y, at);
        if fnv(a) == fnv(b) {
            lemma_hash_step(fnv(x), fnv(y), a.last(), b.last());
        }
    }
}

/// A corridor whose file gives no width is 1.2 kilometres to either side.
pub proof fn lemma_width_of_a_corridor(f: Feature)
    ensures
        f.half_width is None ==> 5 * feature_width(f) == 6 * KM,
        f.half_width matches Some(w) ==> feature_width(f) == w,
{
}

/// Every line of two points or more of every feature becomes a corridor, with the name and the width
/// of its feature.
pub proof fn lemma_every_line_is_a_corridor(features: Seq<Feature>, k: int, f: int, line: Seq<Point>)
    requires
        0 <= f < k <= features.len(),
        feature_lines(features[f]).contains(line),
        line.len() >= 2,
    ensures
        corridors_of(features, k).contains(
            (Corridor {
                name: feature_name(features[f]),
                points: line,
                half_width: feature_width(features[f]),
            }),
        ),
    decreases k,
{
    let c = Corridor {
        name: feature_name(features[f]),
        points: line,
        half_width: feature_width(features[f]),
    };
    let before = corridors_of(features, k - 1);
    let all = corridors_of(features, k);
    if f == k - 1 {
        let lines = feature_lines(features[f]);
        let n = choose|n: int| 0 <= n < lines.len() && lines[n] == line;
        let new = line_corridors(c.name, c.half_width, lines, lines.len() as int);
        lemma_line_is_corridor(c.name, c.half_width, lines, lines.len() as int, n);
        let i = choose|i: int| 0 <= i < new.len() && new[i] == c;
        assert(all[before.len() + i] == c);
    } else {
        lemma_every_line_is_a_corridor(features, k - 1, f, line);
        let i = choose|i: int| 0 <= i < before.len() && before[i] == c;
        assert(all[i] == c);
    }
}

proof fn lemma_line_is_corridor(name: Seq<char>, half_width: u64, lines: Seq<Seq<Point>>, k: int, n: int)
    requires
        0 <= n < k <= lines.len(),
        lines[n].len() >= 2,
    ensures
        line_corridors(name, half_width, lines, k).contains((Corridor { name, points: lines[n], half_width })),
    decreases k,
{
    let c = Corridor { name, points: lines[n], half_width };
    let before = line_corridors(name, half_width, lines, k - 1);
    let all = line_corridors(name, half_width, lines, k);
    if n == k - 1 {
        assert(all[before.len() as int] == c);
    } else {
        lemma_line_is_corridor(name, half_width, lines, k - 1, n);
        let i = choose|i: int| 0 <= i < before.len() && before[i] == c;
        assert(all[i] == c);
    }
}

/// The hash is that of FNV-1a with 64 bits: each byte is mixed in before the product is taken.
pub proof fn lemma_hash_is_fnv1a(bytes: Seq<u8>, next: u8)
    ensures
        fnv(Seq::empty()) == 14_695_981_039_346_656_037,
        fnv(bytes.push(next)) == ((fnv(bytes) ^ next as u64) * 1_099_511_628_211) % 18_446_744_073_709_551_616,
{
    assert(bytes.push(next).drop_last() =~= bytes);
}

} // verus!
