//! The scoring engine: one pass over a subject's readings, one running sum
//! per model, then each model's adjustment.
use vstd::prelude::*;
use crate::decimal::{decimal_nanos, parse_decimal, NANOS};
use crate::model::{adjusted, intercept_key, weight_of, Age, Model, ACC_LIMIT};
use crate::rows::{csv_rows, read_rows, rows_view};
use crate::table::Weights;

verus! {

/// One subject reading: a probe identifier and its value in nano-units,
/// `None` where the value field was empty or not a number.
pub struct Reading {
    pub probe: String,
    pub value: Option<i64>,
}

/// A reading as the contracts see it.
pub type ReadingView = (Seq<char>, Option<int>);

impl View for Reading {
    type V = ReadingView;

    open spec fn view(&self) -> ReadingView {
        (
            self.probe@,
            match self.value {
                Some(v) => Some(v as int),
                None => None,
            },
        )
    }
}

/// Why a scoring pass stopped.
#[derive(Clone, Copy, Debug, PartialEq, Eq, Structural)]
pub enum ScoreError {
    /// A model's table has no `"intercept"` entry.
    MissingIntercept,
    /// Subject input that is not UTF-8, or a row with fewer than two
    /// fields.
    MalformedRow,
    /// A running sum left the range `-ACC_LIMIT..=ACC_LIMIT`.
    Overflow,
}

pub open spec fn readings_view(v: Seq<Reading>) -> Seq<ReadingView> {
    v.map_values(|r: Reading| r@)
}

/// The reading that a subject row gives: its first field and the value of
/// its second; further fields are ignored.
pub open spec fn reading_of(row: Seq<Seq<char>>) -> ReadingView {
    (row[0], decimal_nanos(row[1]))
}

pub open spec fn rows_well_formed(rows: Seq<Seq<Seq<char>>>) -> bool {
    forall|i: int| 0 <= i < rows.len() ==> #[trigger] rows[i].len() >= 2
}

/// What a reading adds to a model's sum (units of 10^-18).
pub open spec fn contribution(t: Weights, r: ReadingView) -> int {
    weight_of(t, r.0) * match r.1 {
        Some(v) => v,
        None => 0,
    }
}

/// A model's running sum after the first `n` readings, seeded with its
/// intercept.
pub open spec fn accumulated(t: Weights, rs: Seq<ReadingView>, n: nat) -> int
    decreases n,
{
    if n == 0 {
        t[intercept_key()] * NANOS
    } else {
        accumulated(t, rs, (n - 1) as nat) + contribution(t, rs[n - 1])
    }
}

pub open spec fn in_range(x: int) -> bool {
    -ACC_LIMIT <= x <= ACC_LIMIT
}

pub open spec fn has_intercepts(ms: Seq<Model>) -> bool {
    forall|i: int| 0 <= i < ms.len() ==> #[trigger] ms[i].weights().contains_key(intercept_key())
}

/// No running sum of any model leaves the range at any point of the pass.
pub open spec fn stays_in_range(ms: Seq<Model>, rs: Seq<ReadingView>) -> bool {
    forall|i: int, n: nat|
        0 <= i < ms.len() && n <= rs.len() ==> in_range(
            #[trigger] accumulated(ms[i].weights(), rs, n),
        )
}

/// The age that model `m` reports after all of `rs`.
pub open spec fn final_age(m: Model, rs: Seq<ReadingView>) -> Age {
    adjusted(m.kind(), accumulated(m.weights(), rs, rs.len()))
}

/// What scoring `rs` against `ms` gives.
pub open spec fn scored(r: Result<Vec<Age>, ScoreError>, ms: Seq<Model>, rs: Seq<ReadingView>) -> bool {
    match r {
        Ok(ages) => has_intercepts(ms) && stays_in_range(ms, rs) && ages@.len() == ms.len()
            && forall|i: int| 0 <= i < ms.len() ==> ages@[i] == #[trigger] final_age(ms[i], rs),
        Err(e) => if !has_intercepts(ms) {
            e == ScoreError::MissingIntercept
        } else {
            !stays_in_range(ms, rs) && e == ScoreError::Overflow
        },
    }
}

/// With an empty reading stream every model reports its adjustment applied
/// to its intercept alone.
pub proof fn lemma_empty_stream(ms: Seq<Model>, r: Result<Vec<Age>, ScoreError>)
    requires
        has_intercepts(ms),
        scored(r, ms, Seq::empty()),
    ensures
        r is Ok,
        r->Ok_0@.len() == ms.len(),
        forall|i: int|
            0 <= i < ms.len() ==> r->Ok_0@[i] == adjusted(
                ms[i].kind(),
                ms[i].weights()[intercept_key()] * NANOS,
            ),
{
    let rs = Seq::<ReadingView>::empty();
    assert forall|i: int, n: nat| 0 <= i < ms.len() && n <= rs.len() implies in_range(
        #[trigger] accumulated(ms[i].weights(), rs, n),
    ) by {
        assert(ms[i].weights().contains_key(intercept_key()));
        ms[i].coefs.lemma_weights_fit();
        let c = ms[i].weights()[intercept_key()];
        assert(-ACC_LIMIT <= c * NANOS <= ACC_LIMIT) by (nonlinear_arith)
            requires
                i64::MIN <= c <= i64::MAX,
                NANOS == 1_000_000_000,
                ACC_LIMIT == 1_000_000_000_000_000_000_000_000_000_000_000_000,
        ;
    }
    assert forall|i: int| 0 <= i < ms.len() implies r->Ok_0@[i] == adjusted(
        ms[i].kind(),
        ms[i].weights()[intercept_key()] * NANOS,
    ) by {
        assert(r->Ok_0@[i] == final_age(ms[i], rs));
    }
}

/// A reading whose probe a table does not hold leaves that table's sum
/// where it was, whatever other tables hold.
pub proof fn lemma_unknown_probe(t: Weights, rs: Seq<ReadingView>, n: nat)
    requires
        n < rs.len(),
        !t.contains_key(rs[n as int].0),
    ensures
        accumulated(t, rs, n + 1) == accumulated(t, rs, n),
{
}

/// A subject row whose value field is empty or not a number still gives a
/// reading, and that reading leaves every model's sum where it was.
pub proof fn lemma_unparseable_value(t: Weights, rows: Seq<Seq<Seq<char>>>, n: nat)
    requires
        n < rows.len(),
        rows[n as int].len() >= 2,
        decimal_nanos(rows[n as int][1]) is None,
    ensures
        ({
            let rs = rows.map_values(|row: Seq<Seq<char>>| reading_of(row));
            accumulated(t, rs, n + 1) == accumulated(t, rs, n)
        }),
{
}

/// The running sums with a value-less reading put in at `pos`: the same up
/// to `pos`, and the same one step later after it.
proof fn lemma_insert_valueless(t: Weights, rs: Seq<ReadingView>, pos: int, p: Seq<char>, n: nat)
    requires
        0 <= pos <= rs.len(),
        n <= rs.len(),
    ensures
        n <= pos ==> accumulated(t, rs.insert(pos, (p, None)), n) == accumulated(t, rs, n),
        n >= pos ==> accumulated(t, rs.insert(pos, (p, None)), n + 1) == accumulated(t, rs, n),
    decreases n,
{
    let rs2 = rs.insert(pos, (p, None::<int>));
    if n > 0 {
        lemma_insert_valueless(t, rs, pos, p, (n - 1) as nat);
        if n <= pos {
            assert(rs2[n - 1] == rs[n - 1]);
        }
        if n - 1 >= pos {
            assert(rs2[n as int] == rs[n - 1]);
        }
    }
    if n == pos {
        assert(contribution(t, rs2[pos]) == 0);
    }
}

/// A reading without a value, put in anywhere among the readings, changes
/// no model's outcome: the same ages, or the same error.
pub proof fn lemma_valueless_reading(
    ms: Seq<Model>,
    rs: Seq<ReadingView>,
    pos: int,
    p: Seq<char>,
    r1: Result<Vec<Age>, ScoreError>,
    r2: Result<Vec<Age>, ScoreError>,
)
    requires
        0 <= pos <= rs.len(),
        scored(r1, ms, rs),
        scored(r2, ms, rs.insert(pos, (p, None))),
    ensures
        r1 is Ok <==> r2 is Ok,
        r1 is Ok ==> r1->Ok_0@ == r2->Ok_0@,
        r1 is Err ==> r1->Err_0 == r2->Err_0,
{
    let rs2 = rs.insert(pos, (p, None::<int>));
    assert forall|i: int, n: nat| 0 <= i < ms.len() && n <= rs.len() implies
        #[trigger] accumulated(ms[i].weights(), rs, n) == accumulated(ms[i].weights(), rs2, if n
        <= pos {
        n
    } else {
        n + 1
    }) by {
        lemma_insert_valueless(ms[i].weights(), rs, pos, p, n);
    }
    assert forall|i: int, n: nat| 0 <= i < ms.len() && n <= rs2.len() implies
        #[trigger] accumulated(ms[i].weights(), rs2, n) == accumulated(ms[i].weights(), rs, if n
        <= pos {
        n
    } else {
        (n - 1) as nat
    }) by {
        if n <= pos {
            lemma_insert_valueless(ms[i].weights(), rs, pos, p, n);
        } else {
            lemma_insert_valueless(ms[i].weights(), rs, pos, p, (n - 1) as nat);
        }
    }
    if stays_in_range(ms, rs) {
        assert forall|i: int, n: nat| 0 <= i < ms.len() && n <= rs2.len() implies in_range(
            #[trigger] accumulated(ms[i].weights(), rs2, n),
        ) by {
            let m: nat = if n <= pos { n } else { (n - 1) as nat };
            assert(in_range(accumulated(ms[i].weights(), rs, m)));
        }
    }
    if stays_in_range(ms, rs2) {
        assert forall|i: int, n: nat| 0 <= i < ms.len() && n <= rs.len() implies in_range(
            #[trigger] accumulated(ms[i].weights(), rs, n),
        ) by {
            let m: nat = if n <= pos { n } else { n + 1 };
            assert(in_range(accumulated(ms[i].weights(), rs2, m)));
        }
    }
    if r1 is Ok && r2 is Ok {
        assert forall|i: int| 0 <= i < ms.len() implies r1->Ok_0@[i] == r2->Ok_0@[i] by {
            assert(r1->Ok_0@[i] == final_age(ms[i], rs));
            assert(r2->Ok_0@[i] == final_age(ms[i], rs2));
            lemma_insert_valueless(ms[i].weights(), rs, pos, p, rs.len());
        }
        assert(r1->Ok_0@ =~= r2->Ok_0@);
    }
}

/// A subject row with fewer than two fields makes the rows malformed, and
/// so stops the pass.
pub proof fn lemma_short_row(rows: Seq<Seq<Seq<char>>>, n: int)
    requires
        0 <= n < rows.len(),
        rows[n].len() < 2,
    ensures
        !rows_well_formed(rows),
{
}

/// Turns subject rows into readings.
pub fn readings(rows: &Vec<Vec<String>>) -> (r: Result<Vec<Reading>, ScoreError>)
    ensures
        match r {
            Ok(v) => rows_well_formed(rows_view(rows@)) && readings_view(v@) == rows_view(
                rows@,
            ).map_values(|row: Seq<Seq<char>>| reading_of(row)),
            Err(e) => !rows_well_formed(rows_view(rows@)) && e == ScoreError::MalformedRow,
        },
{
    let ghost rv = rows_view(rows@);
    let mut out: Vec<Reading> = Vec::new();
    let mut i: usize = 0;
    while i < rows.len()
        invariant
            i <= rows.len(),
            rv == rows_view(rows@),
            out@.len() == i,
            forall|j: int| 0 <= j < i ==> #[trigger] rv[j].len() >= 2,
            forall|j: int| 0 <= j < i ==> #[trigger] out@[j]@ == reading_of(rv[j]),
        decreases rows.len() - i,
    {
        let row = &rows[i];
        assert(rv[i as int] == row@.map_values(|f: String| f@));
        if row.len() < 2 {
            return Err(ScoreError::MalformedRow);
        }
        let value = parse_decimal(row[1].as_str());
        out.push(Reading { probe: row[0].clone(), value });
        i = i + 1;
    }
    assert(readings_view(out@) =~= rv.map_values(|row: Seq<Seq<char>>| reading_of(row)));
    Ok(out)
}

/// Reads subject input, comma-separated rows `(probe identifier, value)`
/// with no header row, into readings.
pub fn read_readings(input: &[u8]) -> (r: Result<Vec<Reading>, ScoreError>)
    ensures
        match csv_rows(input@) {
            None => r is Err && r->Err_0 == ScoreError::MalformedRow,
            Some(rows) => match r {
                Ok(v) => rows_well_formed(rows) && readings_view(v@) == rows.map_values(
                    |row: Seq<Seq<char>>| reading_of(row),
                ),
                Err(e) => !rows_well_formed(rows) && e == ScoreError::MalformedRow,
            },
        },
{
    match read_rows(input) {
        None => Err(ScoreError::MalformedRow),
        Some(rows) => readings(&rows),
    }
}

/// Whether every model has an intercept.
fn check_intercepts(models: &Vec<Model>) -> (r: bool)
    ensures
        r == has_intercepts(models@),
{
    let mut i: usize = 0;
    while i < models.len()
        invariant
            i <= models.len(),
            forall|j: int| 0 <= j < i ==> #[trigger] models@[j].weights().contains_key(intercept_key()),
        decreases models.len() - i,
    {
        if models[i].intercept().is_none() {
            return false;
        }
        i = i + 1;
    }
    true
}

/// Scores readings against every model in one pass, then applies each
/// model's adjustment; one age per model, in the models' order.
pub fn score_readings(models: &Vec<Model>, rs: &Vec<Reading>) -> (r: Result<Vec<Age>, ScoreError>)
    ensures
        scored(r, models@, readings_view(rs@)),
{
    let ghost rv = readings_view(rs@);
    let mut accs: Vec<i128> = Vec::new();
    let mut k: usize = 0;
    while k < models.len()
        invariant
            k <= models.len(),
            accs@.len() == k,
            forall|j: int| 0 <= j < k ==> #[trigger] models@[j].weights().contains_key(intercept_key()),
            forall|j: int|
                0 <= j < k ==> accs@[j] == #[trigger] accumulated(models@[j].weights(), rv, 0),
            forall|j: int|
                0 <= j < k ==> in_range(#[trigger] accumulated(models@[j].weights(), rv, 0)),
        decreases models.len() - k,
    {
        match models[k].intercept() {
            None => return Err(ScoreError::MissingIntercept),
            Some(c) => {
                assert(-10_000_000_000_000_000_000_000_000_000i128 <= c * NANOS
                    <= 10_000_000_000_000_000_000_000_000_000i128) by (nonlinear_arith)
                    requires
                        i64::MIN <= c <= i64::MAX,
                        NANOS == 1_000_000_000,
                ;
                accs.push(c as i128 * NANOS as i128);
            },
        }
        k = k + 1;
    }
    let mut i: usize = 0;
    while i < rs.len()
        invariant
            i <= rs.len(),
            rv == readings_view(rs@),
            has_intercepts(models@),
            accs@.len() == models@.len(),
            forall|j: int|
                0 <= j < models@.len() ==> accs@[j] == #[trigger] accumulated(
                    models@[j].weights(),
                    rv,
                    i as nat,
                ),
            forall|j: int, n: nat|
                0 <= j < models@.len() && n <= i ==> in_range(
                    #[trigger] accumulated(models@[j].weights(), rv, n),
                ),
        decreases rs.len() - i,
    {
        let value: i64 = match rs[i].value {
            Some(v) => v,
            None => 0,
        };
        let mut j: usize = 0;
        while j < models.len()
            invariant
                i < rs.len(),
                j <= models.len(),
                has_intercepts(models@),
                rv == readings_view(rs@),
                value == match rv[i as int].1 {
                    Some(v) => v,
                    None => 0,
                },
                accs@.len() == models@.len(),
                forall|q: int|
                    0 <= q < j ==> accs@[q] == #[trigger] accumulated(
                        models@[q].weights(),
                        rv,
                        (i + 1) as nat,
                    ),
                forall|q: int|
                    j <= q < models@.len() ==> accs@[q] == #[trigger] accumulated(
                        models@[q].weights(),
                        rv,
                        i as nat,
                    ),
                forall|q: int, n: nat|
                    0 <= q < models@.len() && n <= i ==> in_range(
                        #[trigger] accumulated(models@[q].weights(), rv, n),
                    ),
                forall|q: int|
                    0 <= q < j ==> in_range(
                        #[trigger] accumulated(models@[q].weights(), rv, (i + 1) as nat),
                    ),
            decreases models.len() - j,
        {
            let w = models[j].weight(&rs[i].probe);
            let ghost t = models@[j as int].weights();
            assert(rv[i as int] == rs@[i as int]@);
            assert(accumulated(t, rv, (i + 1) as nat) == accumulated(t, rv, i as nat) + contribution(
                t,
                rv[i as int],
            ));
            assert(in_range(accumulated(t, rv, i as nat)));
            assert(-0x4000_0000_0000_0000_0000_0000_0000_0000 <= w * value
                <= 0x4000_0000_0000_0000_0000_0000_0000_0000) by (nonlinear_arith)
                requires
                    i64::MIN <= w <= i64::MAX,
                    i64::MIN <= value <= i64::MAX,
            ;
            let next: i128 = accs[j] + (w as i128) * (value as i128);
            if next < -ACC_LIMIT || next > ACC_LIMIT {
                assert(!in_range(accumulated(t, rv, (i + 1) as nat)));
                assert(!stays_in_range(models@, rv));
                return Err(ScoreError::Overflow);
            }
            accs.set(j, next);
            j = j + 1;
        }
        let ghost prev = i;
        i = i + 1;
        assert forall|q: int| 0 <= q < models@.len() implies accs@[q] == #[trigger] accumulated(
            models@[q].weights(),
            rv,
            i as nat,
        ) by {
            assert(accs@[q] == accumulated(models@[q].weights(), rv, (prev + 1) as nat));
        }
        assert forall|q: int, n: nat|
            0 <= q < models@.len() && n <= i implies in_range(
                #[trigger] accumulated(models@[q].weights(), rv, n),
            ) by {
            if n == i {
                assert(in_range(accumulated(models@[q].weights(), rv, (prev + 1) as nat)));
            }
        }
    }
    let mut ages: Vec<Age> = Vec::new();
    let mut j: usize = 0;
    while j < models.len()
        invariant
            j <= models.len(),
            rv == readings_view(rs@),
            accs@.len() == models@.len(),
            ages@.len() == j,
            forall|q: int|
                0 <= q < models@.len() ==> accs@[q] == #[trigger] accumulated(
                    models@[q].weights(),
                    rv,
                    rv.len(),
                ),
            forall|q: int, n: nat|
                0 <= q < models@.len() && n <= rv.len() ==> in_range(
                    #[trigger] accumulated(models@[q].weights(), rv, n),
                ),
            forall|q: int| 0 <= q < j ==> ages@[q] == #[trigger] final_age(models@[q], rv),
        decreases models.len() - j,
    {
        assert(in_range(accumulated(models@[j as int].weights(), rv, rv.len())));
        ages.push(models[j].adjustment(accs[j]));
        j = j + 1;
    }
    Ok(ages)
}

/// Scores subject input against every model.
pub fn score(models: &Vec<Model>, input: &[u8]) -> (r: Result<Vec<Age>, ScoreError>)
    ensures
        if !has_intercepts(models@) {
            r is Err && r->Err_0 == ScoreError::MissingIntercept
        } else {
            match csv_rows(input@) {
                None => r is Err && r->Err_0 == ScoreError::MalformedRow,
                Some(rows) => if !rows_well_formed(rows) {
                    r is Err && r->Err_0 == ScoreError::MalformedRow
                } else {
                    scored(r, models@, rows.map_values(|row: Seq<Seq<char>>| reading_of(row)))
                },
            }
        },
{
    if !check_intercepts(models) {
        return Err(ScoreError::MissingIntercept);
    }
    let rs = match read_readings(input) {
        Ok(rs) => rs,
        Err(e) => return Err(e),
    };
    score_readings(models, &rs)
}

} // verus!
