//! Reading a map from its table.
//!
//! A map is a table in CSV format with a header line and one row per region:
//! the name (with `/` and a coast where the row is for one coast of a
//! province), whether the region is a supply centre (`true` or `false`), who
//! owns it at the start, the kind of unit that starts there (`Army`, `Fleet` or
//! nothing), the provinces a fleet can go to, and those an army can go to.
//! Rows for several coasts of one province make one region; its fleet borders
//! are those of all the rows.

use vstd::prelude::*;
use crate::text::{chars_of, reads, split_words, texts, words};
use crate::types::{
    province_of, provinces_view, regions_view, MapRegion, Phase, Power, Province, ProvinceView,
    RegionView, Stpsyr, Unit, UnitType,
};

verus! {

/// Why a map could not be read.
#[derive(Clone, Copy, Debug, PartialEq, Eq, Structural)]
pub enum MapError {
    /// The text is not a table in CSV format.
    Malformed,
    /// A row does not have six fields, or its supply-centre field is neither
    /// `true` nor `false`.
    BadRow,
    /// A unit is neither an `Army` nor a `Fleet`.
    UnknownUnitType,
    /// A region starts with a unit but without an owner.
    UnitWithoutOwner,
}

/// Declares `csv::Error`, the error that a `csv::Reader` reports. Nothing is
/// claimed about what such a value holds.
#[verifier::external_type_specification]
#[verifier::external_body]
pub struct ExCsvError(csv::Error);

/// The rows of a table in CSV format, each a list of fields, without the
/// header line: what the records of a `csv::Reader` over the text are. `None`
/// when the reader reports an error.
pub uninterp spec fn records_of(text: Seq<char>) -> Option<Seq<Seq<Seq<char>>>>;

/// The fields held by a row.
pub open spec fn fields_view(row: Seq<String>) -> Seq<Seq<char>> {
    Seq::new(row.len(), |j: int| row[j]@)
}

/// The fields held by a vector of rows.
pub open spec fn rows_view(rows: Seq<Vec<String>>) -> Seq<Seq<Seq<char>>> {
    Seq::new(rows.len(), |i: int| fields_view(rows[i]@))
}

/// Calls `csv::Reader::from_reader` on the bytes of the text and collects what
/// `Reader::records` yields, each record as the list of its fields. The reader
/// has its default settings, so the first line is a header and is left out. The
/// records are a function of the text alone; the contract gives them the name
/// [`records_of`] and claims nothing else about them.
#[verifier::external_body]
fn read_records(text: &str) -> (r: Result<Vec<Vec<String>>, csv::Error>)
    ensures
        match r {
            Ok(rows) => records_of(text@) == Some(rows_view(rows@)),
            Err(_) => records_of(text@) is None,
        },
{
    csv::Reader::from_reader(text.as_bytes()).records().map(
        |rec| rec.map(|fields| fields.iter().map(String::from).collect()),
    ).collect()
}

/// The truth value that a field spells.
pub open spec fn flag_of(s: Seq<char>) -> Option<bool> {
    if s == "true"@ {
        Some(true)
    } else if s == "false"@ {
        Some(false)
    } else {
        None
    }
}

/// The text of a field, or nothing for an empty field.
pub open spec fn optional(s: Seq<char>) -> Option<Seq<char>> {
    if s.len() == 0 {
        None
    } else {
        Some(s)
    }
}

/// The kind of unit that a field spells.
pub open spec fn unit_type_of(s: Seq<char>) -> Option<UnitType> {
    if s == "Army"@ {
        Some(UnitType::Army)
    } else if s == "Fleet"@ {
        Some(UnitType::Fleet)
    } else {
        None
    }
}

/// The border list that the words `ws` spell for a region on the coast `from`.
pub open spec fn borders_of(ws: Seq<Seq<char>>, from: Option<char>) -> Seq<ProvinceView> {
    Seq::new(ws.len(), |i: int| ProvinceView { from_coast: from, ..province_of(ws[i]) })
}

/// The unit that a row puts into its region.
pub open spec fn unit_of(row: Seq<Seq<char>>) -> Result<Option<(Seq<char>, UnitType)>, MapError> {
    if row[3].len() == 0 {
        Ok(None)
    } else if unit_type_of(row[3]) is None {
        Err(MapError::UnknownUnitType)
    } else if row[2].len() == 0 {
        Err(MapError::UnitWithoutOwner)
    } else {
        Ok(Some((row[2], unit_type_of(row[3])->0)))
    }
}

/// The index of the first region at or after `i` with the given name, or the
/// number of regions.
pub open spec fn named_from(regions: Seq<RegionView>, name: Seq<char>, i: int) -> int
    decreases regions.len() - i,
{
    if i < 0 || i >= regions.len() {
        regions.len() as int
    } else if regions[i].province.name == name {
        i
    } else {
        named_from(regions, name, i + 1)
    }
}

/// The map `regions` with one more row read. A row for a province that the map
/// has already only adds its fleet borders to that region.
pub open spec fn with_row(regions: Seq<RegionView>, row: Seq<Seq<char>>) -> Result<
    Seq<RegionView>,
    MapError,
> {
    if row.len() != 6 || flag_of(row[1]) is None {
        Err(MapError::BadRow)
    } else {
        let province = province_of(row[0]);
        let fleet = borders_of(words(row[4]), province.coast);
        let k = named_from(regions, province.name, 0);
        if k < regions.len() {
            Ok(
                regions.update(
                    k,
                    RegionView { fleet_borders: regions[k].fleet_borders + fleet, ..regions[k] },
                ),
            )
        } else {
            match unit_of(row) {
                Err(e) => Err(e),
                Ok(unit) => Ok(
                    regions.push(
                        RegionView {
                            province,
                            sc: flag_of(row[1])->0,
                            owner: optional(row[2]),
                            home_power: optional(row[2]),
                            unit,
                            fleet_borders: fleet,
                            army_borders: borders_of(words(row[5]), None),
                        },
                    ),
                ),
            }
        }
    }
}

/// The map that the first `n` rows describe.
pub open spec fn regions_upto(rows: Seq<Seq<Seq<char>>>, n: int) -> Result<
    Seq<RegionView>,
    MapError,
>
    decreases n,
{
    if n <= 0 {
        Ok(Seq::empty())
    } else {
        match regions_upto(rows, n - 1) {
            Err(e) => Err(e),
            Ok(regions) => with_row(regions, rows[n - 1]),
        }
    }
}

/// The map that a table describes.
pub open spec fn map_of(text: Seq<char>) -> Result<Seq<RegionView>, MapError> {
    match records_of(text) {
        None => Err(MapError::Malformed),
        Some(rows) => regions_upto(rows, rows.len() as int),
    }
}

/// Reads a border list: one province per word, each marked with the coast
/// `from` that the border starts from.
pub fn read_borders(field: &str, from: Option<char>) -> (r: Vec<Province>)
    ensures
        provinces_view(r@) == borders_of(words(field@), from),
{
    let ws = split_words(&chars_of(field));
    let mut out: Vec<Province> = Vec::new();
    let mut i: usize = 0;
    while i < ws.len()
        invariant
            i <= ws.len(),
            texts(ws@) == words(field@),
            out.len() == i,
            forall|j: int|
                0 <= j < i ==> (#[trigger] out[j])@ == (ProvinceView {
                    from_coast: from,
                    ..province_of(ws@[j]@)
                }),
        decreases ws.len() - i,
    {
        let mut p = Province::read(&ws[i]);
        p.from_coast = from;
        out.push(p);
        i += 1;
    }
    assert(provinces_view(out@) =~= borders_of(words(field@), from)) by {
        assert forall|j: int| 0 <= j < out.len() implies provinces_view(out@)[j]
            == borders_of(words(field@), from)[j] by {
            assert(texts(ws@)[j] == ws@[j]@);
        }
    }
    out
}

/// Finds the region with the given name.
fn find_named(map: &Vec<MapRegion>, p: &Province) -> (r: usize)
    ensures
        r as int == named_from(regions_view(map@), p.name@, 0),
        r <= map.len(),
        r < map.len() ==> map[r as int].province.same(*p),
        forall|j: int| 0 <= j < r ==> !(#[trigger] map[j]).province.same(*p),
{
    let mut i: usize = 0;
    while i < map.len()
        invariant
            i <= map.len(),
            named_from(regions_view(map@), p.name@, 0) == named_from(
                regions_view(map@),
                p.name@,
                i as int,
            ),
            forall|j: int| 0 <= j < i ==> !(#[trigger] map[j]).province.same(*p),
        decreases map.len() - i,
    {
        assert(regions_view(map@)[i as int] == map[i as int]@);
        if map[i].province.is(p) {
            return i;
        }
        i += 1;
    }
    i
}

/// Reads the unit that a row puts into its region.
fn read_unit(row: &Vec<String>) -> (r: Result<Option<Unit>, MapError>)
    requires
        row.len() == 6,
    ensures
        match r {
            Ok(u) => unit_of(fields_view(row@)) == Ok::<_, MapError>(
                match u {
                    Some(u) => Some((u.owner.name@, u.unit_type)),
                    None => None,
                },
            ),
            Err(e) => unit_of(fields_view(row@)) == Err::<
                Option<(Seq<char>, UnitType)>,
                _,
            >(e),
        },
{
    let kind = chars_of(row[3].as_str());
    if kind.len() == 0 {
        return Ok(None);
    }
    let unit_type = if reads(&kind, "Army") {
        UnitType::Army
    } else if reads(&kind, "Fleet") {
        UnitType::Fleet
    } else {
        return Err(MapError::UnknownUnitType);
    };
    let owner = chars_of(row[2].as_str());
    if owner.len() == 0 {
        return Err(MapError::UnitWithoutOwner);
    }
    Ok(Some(Unit { owner: Power { name: row[2].clone() }, unit_type }))
}

/// Reads one more row into the map.
fn add_row(map: &mut Vec<MapRegion>, row: &Vec<String>) -> (r: Result<(), MapError>)
    requires
        forall|i: int, j: int|
            0 <= i < j < old(map).len() ==> !(#[trigger] old(map)[i]).province.same(
                (#[trigger] old(map)[j]).province,
            ),
    ensures
        match r {
            Ok(_) => with_row(regions_view(old(map)@), fields_view(row@)) == Ok::<
                _,
                MapError,
            >(regions_view(final(map)@)),
            Err(e) => with_row(regions_view(old(map)@), fields_view(row@)) == Err::<
                Seq<RegionView>,
                _,
            >(e),
        },
        forall|i: int, j: int|
            0 <= i < j < final(map).len() ==> !(#[trigger] final(map)[i]).province.same(
                (#[trigger] final(map)[j]).province,
            ),
{
    let ghost fields = fields_view(row@);
    let ghost was = regions_view(map@);
    if row.len() != 6 {
        return Err(MapError::BadRow);
    }
    let flag = chars_of(row[1].as_str());
    let sc = if reads(&flag, "true") {
        true
    } else if reads(&flag, "false") {
        false
    } else {
        return Err(MapError::BadRow);
    };
    let province = Province::parse(row[0].as_str());
    let mut fleet = read_borders(row[4].as_str(), province.coast);
    let k = find_named(map, &province);
    if k < map.len() {
        let ghost old_fleet = map[k as int].fleet_borders@;
        let ghost new_fleet = fleet@;
        map[k].fleet_borders.append(&mut fleet);
        proof {
            assert(provinces_view(map[k as int].fleet_borders@)
                =~= provinces_view(old_fleet) + provinces_view(
                new_fleet,
            ));
            assert(regions_view(map@) =~= was.update(
                k as int,
                RegionView {
                    fleet_borders: was[k as int].fleet_borders + borders_of(
                        words(fields[4]),
                        province.coast,
                    ),
                    ..was[k as int]
                },
            ));
        }
        return Ok(());
    }
    let unit = read_unit(row)?;
    let owner_name = chars_of(row[2].as_str());
    let (owner, home_power) = if owner_name.len() == 0 {
        (None, None)
    } else {
        (Some(Power { name: row[2].clone() }), Some(Power { name: row[2].clone() }))
    };
    let army = read_borders(row[5].as_str(), None);
    let region = MapRegion {
        province,
        sc,
        owner,
        home_power,
        unit,
        fleet_borders: fleet,
        army_borders: army,
    };
    map.push(region);
    proof {
        assert(regions_view(map@) =~= was.push(region@));
    }
    Ok(())
}

/// Reads the regions that the rows of a table describe.
pub fn build_map(rows: &Vec<Vec<String>>) -> (r: Result<Vec<MapRegion>, MapError>)
    ensures
        match r {
            Ok(map) => regions_upto(rows_view(rows@), rows.len() as int) == Ok::<_, MapError>(
                regions_view(map@),
            ) && forall|i: int, j: int|
                0 <= i < j < map.len() ==> !(#[trigger] map[i]).province.same(
                    (#[trigger] map[j]).province,
                ),
            Err(e) => regions_upto(rows_view(rows@), rows.len() as int) == Err::<
                Seq<RegionView>,
                _,
            >(e),
        },
{
    let mut map: Vec<MapRegion> = Vec::new();
    let mut n: usize = 0;
    assert(regions_view(map@) =~= Seq::<RegionView>::empty());
    while n < rows.len()
        invariant
            n <= rows.len(),
            regions_upto(rows_view(rows@), n as int) == Ok::<_, MapError>(regions_view(map@)),
            forall|i: int, j: int|
                0 <= i < j < map.len() ==> !(#[trigger] map[i]).province.same(
                    (#[trigger] map[j]).province,
                ),
        decreases rows.len() - n,
    {
        assert(rows_view(rows@)[n as int] == fields_view(rows@[n as int]@));
        match add_row(&mut map, &rows[n]) {
            Err(e) => {
                proof {
                    lemma_stays_bad(rows_view(rows@), n as int + 1, rows.len() as int);
                }
                return Err(e);
            },
            Ok(_) => {},
        }
        n += 1;
    }
    Ok(map)
}

/// Once a row cannot be read, no later row makes the map readable again.
pub proof fn lemma_stays_bad(rows: Seq<Seq<Seq<char>>>, m: int, n: int)
    requires
        0 <= m <= n,
        regions_upto(rows, m) is Err,
    ensures
        regions_upto(rows, n) == regions_upto(rows, m),
    decreases n - m,
{
    if m < n {
        lemma_stays_bad(rows, m, n - 1);
    }
}

impl Stpsyr {
    /// Sets up a game on the map that the table `text` describes: spring 1901,
    /// no orders given yet.
    pub fn new(text: &str) -> (r: Result<Stpsyr, MapError>)
        ensures
            match r {
                Ok(game) => {
                    &&& map_of(text@) == Ok::<_, MapError>(regions_view(game.map@))
                    &&& game.orders@.len() == 0
                    &&& game.retreats@.len() == 0
                    &&& game.adjusts@.len() == 0
                    &&& game.dependencies@.len() == 0
                    &&& game.dislodged@.len() == 0
                    &&& game.contested@.len() == 0
                    &&& game.phase == Phase::SpringDiplomacy
                    &&& game.year == 1901
                    &&& game.sound()
                },
                Err(e) => map_of(text@) == Err::<Seq<RegionView>, _>(e),
            },
    {
        let rows = match read_records(text) {
            Ok(rows) => rows,
            Err(_) => {
                return Err(MapError::Malformed);
            },
        };
        let map = build_map(&rows)?;
        Ok(
            Stpsyr {
                map,
                orders: Vec::new(),
                retreats: Vec::new(),
                adjusts: Vec::new(),
                dependencies: Vec::new(),
                dislodged: Vec::new(),
                contested: Vec::new(),
                phase: Phase::SpringDiplomacy,
                year: 1901,
            },
        )
    }
}

} // verus!
