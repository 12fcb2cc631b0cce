//! Canals and straits that must appear in the graph: man-made or narrow waterways that
//! the land polygons show as land.
use vstd::prelude::*;

use crate::geo::{Point, DEGREE, HALF_TURN, QUARTER_TURN};

verus! {

/// A waterway, as a path of waypoints through it.
pub struct CanalPassage {
    pub name: &'static str,
    pub waypoints: Vec<Point>,
}

/// Positions given in units of 0.0001 degrees, longitude first.
pub open spec fn charted(table: Seq<(int, int)>) -> Seq<Point> {
    table.map_values(
        |p: (int, int)| Point { lon: (p.0 * 128_000) as i64, lat: (p.1 * 128_000) as i64 },
    )
}

/// The Suez Canal, from the Port Said entrance to Port Tewfik.
pub open spec fn suez() -> Seq<(int, int)> {
    seq![
        (323_263, 312_757),
        (323_067, 312_505),
        (323_047, 312_402),
        (323_043, 312_200),
        (323_177, 308_114),
        (323_353, 307_482),
        (323_437, 307_128),
        (323_440, 307_050),
        (323_243, 306_200),
        (323_048, 305_809),
        (323_039, 305_656),
        (323_088, 305_496),
        (323_342, 305_181),
        (323_390, 305_061),
        (323_500, 304_522),
        (323_578, 304_352),
        (323_729, 303_606),
        (324_428, 302_827),
        (325_292, 302_532),
        (325_387, 302_429),
        (325_654, 302_010),
        (325_685, 301_865),
        (325_731, 300_537),
        (325_868, 299_728),
        (325_841, 299_576),
        (325_805, 299_506),
        (325_759, 299_436),
        (325_607, 299_303),
    ]
}

/// The Panama Canal, from Limon Bay through Gatun Lake to Balboa.
pub open spec fn panama() -> Seq<(int, int)> {
    seq![
        (-799_170, 93_830),
        (-799_130, 93_600),
        (-799_070, 92_800),
        (-798_700, 92_100),
        (-798_200, 91_900),
        (-797_600, 91_600),
        (-797_100, 91_300),
        (-796_800, 90_900),
        (-796_400, 90_500),
        (-796_000, 90_200),
        (-795_800, 89_900),
        (-795_600, 89_600),
        (-795_400, 89_400),
        (-795_300, 89_000),
    ]
}

/// The Kiel Canal, from Brunsbuttel on the Elbe to Kiel-Holtenau on the Baltic.
pub open spec fn kiel() -> Seq<(int, int)> {
    seq![
        (91_300, 538_870),
        (91_950, 539_000),
        (93_200, 539_180),
        (94_800, 539_400),
        (96_200, 539_650),
        (97_300, 539_850),
        (98_200, 540_850),
        (99_300, 541_750),
        (100_250, 542_650),
        (100_950, 543_300),
        (101_630, 543_740),
    ]
}

/// The Corinth Canal, from the Gulf of Corinth to the Saronic Gulf.
pub open spec fn corinth() -> Seq<(int, int)> {
    seq![(229_530, 379_410), (229_660, 379_380), (229_840, 379_350), (230_030, 379_180)]
}

fn chart(table: &Vec<(i64, i64)>, Ghost(view): Ghost<Seq<(int, int)>>) -> (r: Vec<Point>)
    requires
        view.len() == table.len(),
        forall|i: int|
            0 <= i < table.len() ==> (#[trigger] table[i]).0 == view[i].0 && table[i].1 == view[i].1,
        forall|i: int|
            0 <= i < table.len() ==> -1_800_000 <= (#[trigger] table[i]).0 <= 1_800_000 && -900_000
                <= table[i].1 <= 900_000,
    ensures
        r@ == charted(view),
        forall|i: int|
            0 <= i < r.len() ==> -HALF_TURN <= (#[trigger] r[i]).lon <= HALF_TURN && -QUARTER_TURN
                <= r[i].lat <= QUARTER_TURN,
{
    let mut r: Vec<Point> = Vec::new();
    let mut i: usize = 0;
    while i < table.len()
        invariant
            i <= table.len(),
            view.len() == table.len(),
            forall|k: int|
                0 <= k < table.len() ==> (#[trigger] table[k]).0 == view[k].0 && table[k].1 == view[k].1,
            forall|k: int|
                0 <= k < table.len() ==> -1_800_000 <= (#[trigger] table[k]).0 <= 1_800_000 && -900_000
                    <= table[k].1 <= 900_000,
            r@ =~= charted(view).take(i as int),
            forall|k: int|
                0 <= k < r.len() ==> -HALF_TURN <= (#[trigger] r[k]).lon <= HALF_TURN && -QUARTER_TURN
                    <= r[k].lat <= QUARTER_TURN,
        decreases table.len() - i,
    {
        let (lon, lat) = table[i];
        assert(-1_800_000 <= table[i as int].0 <= 1_800_000);
        r.push(Point { lon: lon * 128_000, lat: lat * 128_000 });
        i = i + 1;
    }
    assert(r@ =~= charted(view));
    r
}

/// The waypoints of each canal, in order.
pub open spec fn canal_charts() -> Seq<Seq<Point>> {
    seq![charted(suez()), charted(panama()), charted(kiel()), charted(corinth())]
}

/// The canals and straits that need manual injection.
pub fn canals() -> (r: Vec<CanalPassage>)
    ensures
        r.len() == 4,
        r[0].name@ == "Suez Canal"@,
        r[1].name@ == "Panama Canal"@,
        r[2].name@ == "Kiel Canal"@,
        r[3].name@ == "Corinth Canal"@,
        forall|k: int| 0 <= k < 4 ==> (#[trigger] r[k]).waypoints@ == canal_charts()[k],
        forall|k: int, i: int|
            #![trigger r[k].waypoints[i]]
            0 <= k < 4 && 0 <= i < r[k].waypoints.len() ==> -HALF_TURN <= r[k].waypoints[i].lon
                <= HALF_TURN && -QUARTER_TURN <= r[k].waypoints[i].lat <= QUARTER_TURN,
{
    let suez_table: Vec<(i64, i64)> = vec![
        (323_263, 312_757),
        (323_067, 312_505),
        (323_047, 312_402),
        (323_043, 312_200),
        (323_177, 308_114),
        (323_353, 307_482),
        (323_437, 307_128),
        (323_440, 307_050),
        (323_243, 306_200),
        (323_048, 305_809),
        (323_039, 305_656),
        (323_088, 305_496),
        (323_342, 305_181),
        (323_390, 305_061),
        (323_500, 304_522),
        (323_578, 304_352),
        (323_729, 303_606),
        (324_428, 302_827),
        (325_292, 302_532),
        (325_387, 302_429),
        (325_654, 302_010),
        (325_685, 301_865),
        (325_731, 300_537),
        (325_868, 299_728),
        (325_841, 299_576),
        (325_805, 299_506),
        (325_759, 299_436),
        (325_607, 299_303),
    ];
    let panama_table: Vec<(i64, i64)> = vec![
        (-799_170, 93_830),
        (-799_130, 93_600),
        (-799_070, 92_800),
        (-798_700, 92_100),
        (-798_200, 91_900),
        (-797_600, 91_600),
        (-797_100, 91_300),
        (-796_800, 90_900),
        (-796_400, 90_500),
        (-796_000, 90_200),
        (-795_800, 89_900),
        (-795_600, 89_600),
        (-795_400, 89_400),
        (-795_300, 89_000),
    ];
    let kiel_table: Vec<(i64, i64)> = vec![
        (91_300, 538_870),
        (91_950, 539_000),
        (93_200, 539_180),
        (94_800, 539_400),
        (96_200, 539_650),
        (97_300, 539_850),
        (98_200, 540_850),
        (99_300, 541_750),
        (100_250, 542_650),
        (100_950, 543_300),
        (101_630, 543_740),
    ];
    let corinth_table: Vec<(i64, i64)> = vec![
        (229_530, 379_410),
        (229_660, 379_380),
        (229_840, 379_350),
        (230_030, 379_180),
    ];
    let mut r: Vec<CanalPassage> = Vec::new();
    r.push(CanalPassage { name: "Suez Canal", waypoints: chart(&suez_table, Ghost(suez())) });
    r.push(CanalPassage { name: "Panama Canal", waypoints: chart(&panama_table, Ghost(panama())) });
    r.push(CanalPassage { name: "Kiel Canal", waypoints: chart(&kiel_table, Ghost(kiel())) });
    r.push(CanalPassage { name: "Corinth Canal", waypoints: chart(&corinth_table, Ghost(corinth())) });
    r
}

/// The waypoints of a canal lie close together: half a degree apart at most, in longitude and in
/// latitude.
pub open spec fn no_gaps(path: Seq<Point>) -> bool {
    forall|i: int, j: int|
        0 <= i && j == i + 1 && j < path.len() ==> {
            &&& -DEGREE <= 2 * ((#[trigger] path[i]).lon - (#[trigger] path[j]).lon) <= DEGREE
            &&& -DEGREE <= 2 * (path[i].lat - path[j].lat) <= DEGREE
        }
}

/// The canals lead from one sea to the other without a gap: Suez from the Mediterranean to the Gulf of
/// Suez, Panama from the Caribbean to the Pacific, Kiel from the Elbe to the Baltic, and Corinth from
/// the Gulf of Corinth to the Saronic Gulf.
pub proof fn lemma_canals_join_seas()
    ensures
        canal_charts().len() == 4,
        no_gaps(canal_charts()[0]),
        no_gaps(canal_charts()[1]),
        no_gaps(canal_charts()[2]),
        no_gaps(canal_charts()[3]),
        ({
            let suez = canal_charts()[0];
            &&& suez.first().lat > 31 * DEGREE
            &&& suez.last().lat < 30 * DEGREE
            &&& 32 * DEGREE < suez.first().lon < 33 * DEGREE
            &&& 32 * DEGREE < suez.last().lon < 33 * DEGREE
        }),
        ({
            let panama = canal_charts()[1];
            &&& 9 * DEGREE < panama.first().lat < 10 * DEGREE
            &&& 8 * DEGREE < panama.last().lat < 9 * DEGREE
            &&& -80 * DEGREE < panama.first().lon < panama.last().lon < -79 * DEGREE
        }),
        ({
            let kiel = canal_charts()[2];
            &&& 53 * DEGREE < kiel.first().lat < 54 * DEGREE
            &&& 54 * DEGREE < kiel.last().lat < 55 * DEGREE
            &&& 9 * DEGREE < kiel.first().lon < 10 * DEGREE
            &&& 10 * DEGREE < kiel.last().lon < 11 * DEGREE
        }),
        ({
            let corinth = canal_charts()[3];
            &&& 37 * DEGREE < corinth.last().lat < corinth.first().lat < 38 * DEGREE
            &&& 22 * DEGREE < corinth.first().lon < 23 * DEGREE
            &&& 23 * DEGREE < corinth.last().lon < 24 * DEGREE
        }),
{
    let s = charted(suez());
    assert(s.len() == 28);
    assert forall|i: int, j: int| 0 <= i && j == i + 1 && j < s.len() implies {
        &&& -DEGREE <= 2 * ((#[trigger] s[i]).lon - (#[trigger] s[j]).lon) <= DEGREE
        &&& -DEGREE <= 2 * (s[i].lat - s[j].lat) <= DEGREE
    } by {}
    let p = charted(panama());
    assert(p.len() == 14);
    let k = charted(kiel());
    assert(k.len() == 11);
    let c = charted(corinth());
    assert(c.len() == 4);
}

} // verus!
