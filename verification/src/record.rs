//! The rows of the data set and the table that finds a region's record for a year.

use vstd::prelude::*;
use vstd::hash_map::StringHashMap;
use crate::text::{decimal_text, lowercase_text, push_char, push_decimal, to_lowercase};

verus! {

/// One line of the data file, as it was read.
///
/// Life expectancy is a real number; the library never computes with it and only
/// orders rows by it, so it is carried as an `i64` whose order is the order of the
/// real numbers it stands for.
pub struct SourceRecord {
    pub region: String,
    pub code: String,
    pub year: i32,
    pub life_expectancy: i64,
}

/// A row of a query: a region, its code, a year, the life expectancy of that year
/// and the change of life expectancy that a delta query found (zero before one).
///
/// `life_expectancy` and `delta` are order keys: integers whose order is the order
/// of the real values they stand for, with zero standing for zero.
pub struct Row {
    pub region: String,
    pub code: String,
    pub year: i32,
    pub life_expectancy: i64,
    pub delta: i64,
}

impl Clone for Row {
    fn clone(&self) -> (r: Self)
        ensures
            r == *self,
    {
        Row {
            region: self.region.clone(),
            code: self.code.clone(),
            year: self.year,
            life_expectancy: self.life_expectancy,
            delta: self.delta,
        }
    }
}

/// What the life table holds for a region and a year.
pub struct LifeEntry {
    pub code: String,
    pub life_expectancy: i64,
}

/// The key under which the table files a region's record of a year:
/// the region, a colon, and the year in decimal.
pub open spec fn life_key_text(region: Seq<char>, year: int) -> Seq<char> {
    region + seq![':'] + decimal_text(year)
}

/// Builds the key of a region and a year.
pub fn life_key(region: &str, year: i32) -> (key: String)
    ensures
        key@ == life_key_text(region@, year as int),
{
    let mut key: String = region.to_owned();
    push_char(&mut key, ':');
    push_decimal(&mut key, year);
    proof {
        assert(key@ =~= life_key_text(region@, year as int));
    }
    key
}

/// The life table: for each key of a region and a year, the code and the life
/// expectancy of the last record read under that key.
pub struct LifeTable {
    entries: StringHashMap<LifeEntry>,
}

impl View for LifeTable {
    type V = Map<Seq<char>, (Seq<char>, i64)>;

    closed spec fn view(&self) -> Self::V {
        self.entries@.map_values(|e: LifeEntry| (e.code@, e.life_expectancy))
    }
}

/// A row as the loader makes it from a record: region and code in lower case,
/// no delta yet.
pub open spec fn loaded_row(rec: SourceRecord, row: Row) -> bool {
    &&& row.region@ == lowercase_text(rec.region@)
    &&& row.code@ == lowercase_text(rec.code@)
    &&& row.year == rec.year
    &&& row.life_expectancy == rec.life_expectancy
    &&& row.delta == 0
}

/// The key under which the loader files a record.
pub open spec fn record_key(rec: SourceRecord) -> Seq<char> {
    life_key_text(lowercase_text(rec.region@), rec.year as int)
}

/// The table that the loader builds from a sequence of records: each record is
/// filed under the key of its lower-cased region and its year, a later record
/// replacing an earlier one under the same key.
pub open spec fn life_table_of(recs: Seq<SourceRecord>) -> Map<Seq<char>, (Seq<char>, i64)>
    decreases recs.len(),
{
    if recs.len() == 0 {
        Map::empty()
    } else {
        let rec = recs.last();
        life_table_of(recs.drop_last()).insert(
            record_key(rec),
            (lowercase_text(rec.code@), rec.life_expectancy),
        )
    }
}

impl LifeTable {
    /// Looks up the life expectancy filed under a region and a year.
    pub fn life_expectancy_at(&self, region: &str, year: i32) -> (r: Option<i64>)
        ensures
            r == (match self@.get(life_key_text(region@, year as int)) {
                Some(e) => Some(e.1),
                None => None,
            }),
    {
        let key: String = life_key(region, year);
        match self.entries.get(key.as_str()) {
            Some(e) => Some(e.life_expectancy),
            None => None,
        }
    }

}

/// Turns the records of the data file into the rows of the data set and the
/// life table: lower-cases regions and codes, starts every delta at zero, and
/// files every record in the table under its region and year.
pub fn load_records(records: &Vec<SourceRecord>) -> (result: (LifeTable, Vec<Row>))
    ensures
        result.0@ == life_table_of(records@),
        result.1.len() == records.len(),
        forall|i: int| 0 <= i < records.len() ==> loaded_row(records[i], #[trigger] result.1[i]),
{
    let mut table: StringHashMap<LifeEntry> = StringHashMap::new();
    let mut rows: Vec<Row> = Vec::new();
    let mut i: usize = 0;
    while i < records.len()
        invariant
            i <= records.len(),
            table@.map_values(|e: LifeEntry| (e.code@, e.life_expectancy)) == life_table_of(
                records@.take(i as int),
            ),
            rows.len() == i,
            forall|k: int| 0 <= k < i ==> loaded_row(records[k], #[trigger] rows[k]),
        decreases records.len() - i,
    {
        let rec: &SourceRecord = &records[i];
        let code: String = to_lowercase(rec.code.as_str());
        let region: String = to_lowercase(rec.region.as_str());
        let key: String = life_key(region.as_str(), rec.year);
        let entry = LifeEntry { code: code.clone(), life_expectancy: rec.life_expectancy };
        let ghost before = table@;
        table.insert(key, entry);
        proof {
            assert(records@.take(i + 1).drop_last() =~= records@.take(i as int));
            assert(table@.map_values(|e: LifeEntry| (e.code@, e.life_expectancy)) =~= before.map_values(
                |e: LifeEntry| (e.code@, e.life_expectancy),
            ).insert(
                life_key_text(lowercase_text(rec.region@), rec.year as int),
                (lowercase_text(rec.code@), rec.life_expectancy),
            ));
        }
        rows.push(
            Row {
                region,
                code,
                year: rec.year,
                life_expectancy: rec.life_expectancy,
                delta: 0,
            },
        );
        i = i + 1;
    }
    proof {
        assert(records@.take(records.len() as int) =~= records@);
    }
    (LifeTable { entries: table }, rows)
}

/// Reading the table gives back what loading wrote: a key is in the table exactly
/// when some record was filed under it, and it holds the code and the life
/// expectancy of the last such record.
pub proof fn life_table_holds_last_record(recs: Seq<SourceRecord>, key: Seq<char>)
    ensures
        life_table_of(recs).contains_key(key) <==> exists|i: int|
            0 <= i < recs.len() && record_key(#[trigger] recs[i]) == key,
        forall|i: int|
            0 <= i < recs.len() && record_key(#[trigger] recs[i]) == key && (forall|j: int|
                i < j < recs.len() ==> record_key(#[trigger] recs[j]) != key) ==> life_table_of(
                recs,
            )[key] == (lowercase_text(recs[i].code@), recs[i].life_expectancy),
    decreases recs.len(),
{
    if recs.len() > 0 {
        let init = recs.drop_last();
        let n = recs.len() - 1;
        life_table_holds_last_record(init, key);
        if exists|i: int| 0 <= i < init.len() && record_key(#[trigger] init[i]) == key {
            let i = choose|i: int| 0 <= i < init.len() && record_key(#[trigger] init[i]) == key;
            assert(recs[i] == init[i]);
        }
        if exists|i: int| 0 <= i < recs.len() && record_key(#[trigger] recs[i]) == key {
            let i = choose|i: int| 0 <= i < recs.len() && record_key(#[trigger] recs[i]) == key;
            if i < n {
                assert(recs[i] == init[i]);
            }
        }
        assert forall|i: int|
            0 <= i < recs.len() && record_key(#[trigger] recs[i]) == key && (forall|j: int|
                i < j < recs.len() ==> record_key(#[trigger] recs[j]) != key) implies life_table_of(
            recs,
        )[key] == (lowercase_text(recs[i].code@), recs[i].life_expectancy) by {
            if i < n {
                assert(recs[i] == init[i]);
                assert(record_key(recs[n]) != key);
                assert forall|j: int| i < j < init.len() implies record_key(#[trigger] init[j]) != key by {
                    assert(init[j] == recs[j]);
                }
            }
        }
    }
}

} // verus!
