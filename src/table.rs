//! Coefficient tables: probe identifier to weight, in nano-units.
use vstd::prelude::*;
use crate::decimal::{decimal_nanos, parse_decimal};
use crate::rows::{csv_rows, read_rows, rows_view};

verus! {

/// Weights by probe identifier, as the contracts see a table.
pub type Weights = Map<Seq<char>, int>;

/// Why a coefficient resource could not be turned into a table.
#[derive(Clone, Copy, Debug, PartialEq, Eq, Structural)]
pub enum LoadError {
    /// Text that is not UTF-8, a row without exactly two fields, or a
    /// weight that is not a number (or too large to hold).
    Parse,
    /// A probe identifier given twice.
    DuplicateKey,
}

/// The table that `rows` describe: each row `(identifier, weight)` in turn,
/// stopping at the first row that is malformed or repeats an identifier.
pub open spec fn table_spec(rows: Seq<Seq<Seq<char>>>) -> Result<Map<Seq<char>, int>, LoadError>
    decreases rows.len(),
{
    if rows.len() == 0 {
        Ok(Map::empty())
    } else {
        match table_spec(rows.drop_last()) {
            Err(e) => Err(e),
            Ok(m) => {
                let r = rows.last();
                if r.len() != 2 {
                    Err(LoadError::Parse)
                } else if m.contains_key(r[0]) {
                    Err(LoadError::DuplicateKey)
                } else {
                    match decimal_nanos(r[1]) {
                        None => Err(LoadError::Parse),
                        Some(w) => Ok(m.insert(r[0], w)),
                    }
                }
            },
        }
    }
}

/// The table that a coefficient resource describes.
pub open spec fn load_spec(b: Seq<u8>) -> Result<Map<Seq<char>, int>, LoadError> {
    match csv_rows(b) {
        None => Err(LoadError::Parse),
        Some(rows) => table_spec(rows),
    }
}

/// A row that stops the table stops it for every longer input too.
proof fn lemma_error_persists(rows: Seq<Seq<Seq<char>>>, n: int, m: int)
    requires
        0 <= n <= m <= rows.len(),
        table_spec(rows.take(n)) is Err,
    ensures
        table_spec(rows.take(m)) == table_spec(rows.take(n)),
    decreases m,
{
    if m > n {
        lemma_error_persists(rows, n, m - 1);
        assert(rows.take(m).drop_last() =~= rows.take(m - 1));
    }
}

/// What a successful build guarantees of its rows: each has two fields,
/// its identifier is in the table, and no identifier comes twice.
proof fn lemma_ok_rows(rows: Seq<Seq<Seq<char>>>, m: Weights)
    requires
        table_spec(rows) == Ok::<Weights, LoadError>(m),
    ensures
        forall|k: int| 0 <= k < rows.len() ==> #[trigger] rows[k].len() == 2 && m.contains_key(rows[k][0]),
        forall|i: int, j: int| 0 <= i < j < rows.len() ==> #[trigger] rows[i][0] != #[trigger] rows[j][0],
    decreases rows.len(),
{
    if rows.len() > 0 {
        let prev = rows.drop_last();
        let m0 = table_spec(prev)->Ok_0;
        lemma_ok_rows(prev, m0);
        assert forall|k: int| 0 <= k < rows.len() implies #[trigger] rows[k].len() == 2 && m.contains_key(rows[k][0]) by {
            if k < rows.len() - 1 {
                assert(prev[k] == rows[k]);
            }
        }
        assert forall|i: int, j: int| 0 <= i < j < rows.len() implies #[trigger] rows[i][0] != #[trigger] rows[j][0] by {
            assert(prev[i] == rows[i]);
            if j < rows.len() - 1 {
                assert(prev[j] == rows[j]);
            } else {
                assert(m0.contains_key(prev[i][0]));
            }
        }
    }
}

/// A coefficient resource that names one probe identifier on two rows
/// never yields a table: loading it fails rather than keep either weight.
pub proof fn lemma_duplicate_fails(b: Seq<u8>, rows: Seq<Seq<Seq<char>>>, i: int, j: int)
    requires
        csv_rows(b) == Some(rows),
        0 <= i < j < rows.len(),
        rows[i].len() > 0,
        rows[j].len() > 0,
        rows[i][0] == rows[j][0],
    ensures
        load_spec(b) is Err,
{
    if table_spec(rows) is Ok {
        lemma_ok_rows(rows, table_spec(rows)->Ok_0);
        assert(rows[i][0] != rows[j][0]);
    }
}

/// Loading the same resource bytes twice gives equal tables.
pub proof fn lemma_load_deterministic(a: Seq<u8>, b: Seq<u8>, ta: Weights, tb: Weights)
    requires
        a == b,
        load_spec(a) == Ok::<Weights, LoadError>(ta),
        load_spec(b) == Ok::<Weights, LoadError>(tb),
    ensures
        ta == tb,
{
}

pub open spec fn entries_match(e: Seq<(String, i64)>, m: Map<Seq<char>, i64>) -> bool {
    &&& forall|i: int|
        0 <= i < e.len() ==> m.contains_key(#[trigger] e[i].0@) && m[e[i].0@] == e[i].1
    &&& forall|k: Seq<char>|
        #[trigger] m.contains_key(k) ==> exists|i: int| 0 <= i < e.len() && e[i].0@ == k
}

pub open spec fn widen(m: Map<Seq<char>, i64>) -> Weights {
    m.map_values(|v: i64| v as int)
}

/// Weights by probe identifier, identifiers unique.
pub struct CoefTable {
    entries: Vec<(String, i64)>,
    map: Ghost<Map<Seq<char>, i64>>,
}

impl View for CoefTable {
    type V = Map<Seq<char>, int>;

    closed spec fn view(&self) -> Map<Seq<char>, int> {
        widen(self.map@)
    }
}

impl CoefTable {
    #[verifier::type_invariant]
    spec fn inv(self) -> bool {
        entries_match(self.entries@, self.map@)
    }

    /// Every weight of a table fits in an `i64`.
    pub proof fn lemma_weights_fit(&self)
        ensures
            forall|k: Seq<char>| #[trigger] self@.contains_key(k) ==> i64::MIN <= self@[k] <= i64::MAX,
    {
    }

    /// The weight of `key`, if the table has one.
    pub fn get(&self, key: &String) -> (r: Option<i64>)
        ensures
            match r {
                Some(v) => self@.contains_key(key@) && self@[key@] == v,
                None => !self@.contains_key(key@),
            },
    {
        proof {
            use_type_invariant(self);
        }
        let mut i: usize = 0;
        while i < self.entries.len()
            invariant
                entries_match(self.entries@, self.map@),
                forall|j: int| 0 <= j < i ==> self.entries@[j].0@ != key@,
            decreases self.entries.len() - i,
        {
            if self.entries[i].0 == *key {
                return Some(self.entries[i].1);
            }
            i = i + 1;
        }
        None
    }

    /// Builds the table that `rows` describe.
    pub fn from_rows(rows: &Vec<Vec<String>>) -> (r: Result<CoefTable, LoadError>)
        ensures
            match r {
                Ok(t) => table_spec(rows_view(rows@)) == Ok::<Weights, LoadError>(t@),
                Err(e) => table_spec(rows_view(rows@)) == Err::<Weights, LoadError>(e),
            },
    {
        let ghost rv = rows_view(rows@);
        let mut entries: Vec<(String, i64)> = Vec::new();
        let ghost mut m: Map<Seq<char>, i64> = Map::empty();
        assert(widen(m) =~= Map::empty());
        let mut i: usize = 0;
        assert(rv.take(0) =~= Seq::empty());
        while i < rows.len()
            invariant
                i <= rows.len(),
                rv == rows_view(rows@),
                entries_match(entries@, m),
                table_spec(rv.take(i as int)) == Ok::<Weights, LoadError>(widen(m)),
            decreases rows.len() - i,
        {
            let row = &rows[i];
            assert(rv.take(i + 1).drop_last() =~= rv.take(i as int));
            assert(rv.take(i + 1).last() == rv[i as int]);
            assert(rv[i as int] == row@.map_values(|f: String| f@));
            proof {
                if table_spec(rv.take(i + 1)) is Err {
                    lemma_error_persists(rv, i + 1, rv.len() as int);
                    assert(rv.take(rv.len() as int) =~= rv);
                }
            }
            if row.len() != 2 {
                return Err(LoadError::Parse);
            }
            let key = &row[0];
            let probe = CoefTable { entries: entries, map: Ghost(m) };
            let found = probe.get(key);
            entries = probe.entries;
            if found.is_some() {
                return Err(LoadError::DuplicateKey);
            }
            let w = match parse_decimal(row[1].as_str()) {
                Some(w) => w,
                None => return Err(LoadError::Parse),
            };
            let ghost old_m = m;
            let ghost old_e = entries@;
            proof {
                m = m.insert(key@, w);
                assert(widen(m) =~= widen(old_m).insert(key@, w as int));
            }
            entries.push((key.clone(), w));
            assert forall|k: Seq<char>| #[trigger] m.contains_key(k) implies exists|j: int|
                0 <= j < entries@.len() && entries@[j].0@ == k by {
                if k != key@ {
                    assert(old_m.contains_key(k));
                    let j = choose|j: int| 0 <= j < old_e.len() && old_e[j].0@ == k;
                    assert(entries@[j].0@ == k);
                } else {
                    assert(entries@[entries@.len() - 1].0@ == k);
                }
            }
            i = i + 1;
        }
        assert(rv.take(rows.len() as int) =~= rv);
        let t = CoefTable { entries, map: Ghost(m) };
        assert(t@ == widen(m));
        Ok(t)
    }

    /// Loads a coefficient resource: comma-separated rows
    /// `(probe identifier, weight)` with no header row.
    pub fn load(resource: &[u8]) -> (r: Result<CoefTable, LoadError>)
        ensures
            match r {
                Ok(t) => load_spec(resource@) == Ok::<Weights, LoadError>(t@),
                Err(e) => load_spec(resource@) == Err::<Weights, LoadError>(e),
            },
    {
        match read_rows(resource) {
            None => Err(LoadError::Parse),
            Some(rows) => CoefTable::from_rows(&rows),
        }
    }
}

} // verus!
