use vstd::prelude::*;
use crate::decimal::{Decimal, field_value};

verus! {

/// Why a source text could not be loaded.
#[derive(Clone, Copy, Debug, PartialEq, Eq, Structural)]
pub enum LoadError {
    /// The delimited text itself could not be read.
    Malformed,
    /// A field of a row that is kept is no number.
    NotANumber,
}

#[verifier::external_type_specification]
#[verifier::external_body]
pub struct ExCsvError(csv::Error);

/// The data records that the csv reader finds in a text (its first record
/// taken as the header row, records of any length accepted), each as the
/// raw bytes of its fields; `None` where the reader reports an error.
pub uninterp spec fn csv_records(text: Seq<u8>) -> Option<Seq<Seq<Seq<u8>>>>;

/// Relies on `csv::ReaderBuilder` (headers on, flexible record lengths) and
/// `csv::Reader::byte_records`: the records read depend on the text alone.
#[verifier::external_body]
fn read_records(text: &[u8]) -> (r: Result<Vec<Vec<Vec<u8>>>, csv::Error>)
    ensures
        r is Ok ==> csv_records(text@) == Some(records_view(r->Ok_0@)),
        r is Err ==> csv_records(text@) is None,
{
    let mut reader = csv::ReaderBuilder::new().has_headers(true).flexible(true).from_reader(text);
    reader.byte_records().map(|rec| rec.map(|rec| rec.iter().map(|f| f.to_vec()).collect())).collect()
}

/// Columns of samples read from a delimited source text.
pub struct LoadedTable {
    /// One vector per column, in source column order; each holds the
    /// column's samples in source row order.
    pub columns: Vec<Vec<Decimal>>,
    /// How many rows were skipped because their field count differed from
    /// that of the first row.
    pub skipped: usize,
}

pub open spec fn records_view(r: Seq<Vec<Vec<u8>>>) -> Seq<Seq<Seq<u8>>> {
    r.map_values(|row: Vec<Vec<u8>>| row@.map_values(|f: Vec<u8>| f@))
}

pub open spec fn columns_view(c: Seq<Vec<Decimal>>) -> Seq<Seq<Decimal>> {
    c.map_values(|col: Vec<Decimal>| col@)
}

impl LoadedTable {
    pub open spec fn view(&self) -> Seq<Seq<Decimal>> {
        columns_view(self.columns@)
    }

    /// Every sample is a well-formed decimal.
    pub open spec fn wf(&self) -> bool {
        forall|c: int, j: int|
            0 <= c < self@.len() && 0 <= j < self@[c].len() ==> (#[trigger] self@[c][j]).wf()
    }
}

/// The field count that the first row fixes.
pub open spec fn width_of(rows: Seq<Seq<Seq<u8>>>) -> int {
    if rows.len() == 0 {
        0
    } else {
        rows[0].len() as int
    }
}

/// The rows that have exactly `n` fields, in order.
pub open spec fn kept_rows(rows: Seq<Seq<Seq<u8>>>, n: int) -> Seq<Seq<Seq<u8>>>
    decreases rows.len(),
{
    if rows.len() == 0 {
        Seq::empty()
    } else if rows.last().len() == n {
        kept_rows(rows.drop_last(), n).push(rows.last())
    } else {
        kept_rows(rows.drop_last(), n)
    }
}

/// Whether every field of every row with `n` fields is a number.
pub open spec fn all_numeric(rows: Seq<Seq<Seq<u8>>>, n: int) -> bool {
    forall|i: int, c: int|
        0 <= i < rows.len() && rows[i].len() == n && 0 <= c < n ==> (#[trigger] field_value(
            rows[i][c],
        )) is Some
}

/// The value of each field of `rows`, column by column.
pub open spec fn columns_of(rows: Seq<Seq<Seq<u8>>>, n: int) -> Seq<Seq<Decimal>> {
    Seq::new(
        n as nat,
        |c: int| Seq::new(rows.len(), |j: int| field_value(rows[j][c])->Some_0),
    )
}

/// The table that `rows` load as: the rows whose field count is that of the
/// first row, read column by column.
pub open spec fn table_of(rows: Seq<Seq<Seq<u8>>>) -> Seq<Seq<Decimal>> {
    columns_of(kept_rows(rows, width_of(rows)), width_of(rows))
}

proof fn lemma_kept_len(rows: Seq<Seq<Seq<u8>>>, n: int)
    ensures
        kept_rows(rows, n).len() <= rows.len(),
        forall|j: int| 0 <= j < kept_rows(rows, n).len() ==> (#[trigger] kept_rows(rows, n)[j]).len() == n,
    decreases rows.len(),
{
    if rows.len() > 0 {
        lemma_kept_len(rows.drop_last(), n);
    }
}

proof fn lemma_kept_all(rows: Seq<Seq<Seq<u8>>>, n: int)
    requires
        forall|i: int| 0 <= i < rows.len() ==> (#[trigger] rows[i]).len() == n,
    ensures
        kept_rows(rows, n) == rows,
    decreases rows.len(),
{
    if rows.len() > 0 {
        lemma_kept_all(rows.drop_last(), n);
        assert(rows.drop_last().push(rows.last()) =~= rows);
    }
}

proof fn lemma_kept_all_but(rows: Seq<Seq<Seq<u8>>>, n: int, k: int)
    requires
        0 <= k < rows.len(),
        rows[k].len() != n,
        forall|i: int| 0 <= i < rows.len() && i != k ==> (#[trigger] rows[i]).len() == n,
    ensures
        kept_rows(rows, n) == rows.remove(k),
    decreases rows.len(),
{
    let d = rows.drop_last();
    if k == rows.len() - 1 {
        lemma_kept_all(d, n);
        assert(rows.remove(k) =~= d);
    } else {
        lemma_kept_all_but(d, n, k);
        assert(d.remove(k).push(rows.last()) =~= rows.remove(k));
    }
}

/// A text whose rows all have the first row's field count loads whole: one
/// column per field, each as long as the text has rows, in source order.
pub proof fn lemma_uniform_rows_load_whole(rows: Seq<Seq<Seq<u8>>>)
    requires
        forall|i: int| 0 <= i < rows.len() ==> (#[trigger] rows[i]).len() == width_of(rows),
    ensures
        kept_rows(rows, width_of(rows)).len() == rows.len(),
        table_of(rows).len() == width_of(rows),
        forall|c: int| 0 <= c < width_of(rows) ==> (#[trigger] table_of(rows)[c]).len() == rows.len(),
        forall|c: int, j: int|
            0 <= c < width_of(rows) && 0 <= j < rows.len() ==> #[trigger] table_of(rows)[c][j]
                == field_value(rows[j][c])->Some_0,
{
    lemma_kept_all(rows, width_of(rows));
}

/// A text in which one row after the first has a different field count
/// loads as all rows but that one, with one row counted as skipped.
pub proof fn lemma_odd_row_skipped(rows: Seq<Seq<Seq<u8>>>, k: int)
    requires
        0 < k < rows.len(),
        rows[k].len() != width_of(rows),
        forall|i: int| 0 <= i < rows.len() && i != k ==> (#[trigger] rows[i]).len() == width_of(rows),
    ensures
        kept_rows(rows, width_of(rows)) == rows.remove(k),
        rows.len() - kept_rows(rows, width_of(rows)).len() == 1,
        table_of(rows) == columns_of(rows.remove(k), width_of(rows)),
{
    lemma_kept_all_but(rows, width_of(rows), k);
}

/// A field that is no number, in a row with the first row's field count,
/// makes the whole text fail to load: no table is produced.
pub proof fn lemma_bad_field_fails(rows: Seq<Seq<Seq<u8>>>, i: int, c: int)
    requires
        0 <= i < rows.len(),
        rows[i].len() == width_of(rows),
        0 <= c < width_of(rows),
        field_value(rows[i][c]) is None,
    ensures
        !all_numeric(rows, width_of(rows)),
{
}

/// Builds the table of the records of a source text: the first record fixes
/// the column count, records with another count are skipped and counted,
/// and every field of the others must be a number.
pub fn table_from_records(records: &Vec<Vec<Vec<u8>>>) -> (r: Result<LoadedTable, LoadError>)
    ensures
        ({
            let rows = records_view(records@);
            let n = width_of(rows);
            match r {
                Ok(t) => {
                    &&& t.wf()
                    &&& all_numeric(rows, n)
                    &&& t@ == table_of(rows)
                    &&& t.skipped == rows.len() - kept_rows(rows, n).len()
                },
                Err(e) => !all_numeric(rows, n) && e == LoadError::NotANumber,
            }
        }),
{
    let ghost rows = records_view(records@);
    let m = records.len();
    let n: usize = if m == 0 {
        0
    } else {
        records[0].len()
    };
    assert(n == width_of(rows));
    let mut parsed: Vec<Vec<Decimal>> = Vec::new();
    let mut skipped: usize = 0;
    let mut i: usize = 0;
    while i < m
        invariant
            m == records@.len() == rows.len(),
            rows == records_view(records@),
            n == width_of(rows),
            i <= m,
            all_numeric(rows.take(i as int), n as int),
            parsed@.len() == kept_rows(rows.take(i as int), n as int).len(),
            skipped == i - parsed@.len(),
            forall|j: int|
                0 <= j < parsed@.len() ==> (#[trigger] parsed@[j])@.len() == n,
            forall|j: int, c: int|
                0 <= j < parsed@.len() && 0 <= c < n ==> (#[trigger] parsed@[j]@[c]).wf(),
            forall|j: int, c: int|
                0 <= j < parsed@.len() && 0 <= c < n ==> #[trigger] parsed@[j]@[c]
                    == field_value(kept_rows(rows.take(i as int), n as int)[j][c])->Some_0,
        decreases m - i,
    {
        let ghost before = rows.take(i as int);
        let ghost after = rows.take(i + 1);
        assert(after.drop_last() =~= before);
        proof {
            lemma_kept_len(before, n as int);
        }
        let row = &records[i];
        if row.len() != n {
            assert(kept_rows(after, n as int) == kept_rows(before, n as int));
            assert(all_numeric(after, n as int)) by {
                assert forall|a: int, c: int|
                    0 <= a < after.len() && after[a].len() == n && 0 <= c < n implies (
                    #[trigger] field_value(after[a][c])) is Some by {
                    assert(after[a] == before[a]);
                }
            }
            skipped = skipped + 1;
        } else {
            let mut vals: Vec<Decimal> = Vec::new();
            let mut c: usize = 0;
            while c < n
                invariant
                    m == records@.len() == rows.len(),
                    rows == records_view(records@),
                    n == width_of(rows),
                    i < m,
                    row == records@[i as int],
                    row@.len() == n,
                    c <= n,
                    vals@.len() == c,
                    forall|k: int| 0 <= k < c ==> vals@[k] == field_value(rows[i as int][k])->Some_0,
                    forall|k: int| 0 <= k < c ==> (#[trigger] vals@[k]).wf(),
                    forall|k: int| 0 <= k < c ==> (#[trigger] field_value(rows[i as int][k])) is Some,
                decreases n - c,
            {
                assert(rows[i as int][c as int] == row@[c as int]@);
                let f = row[c].as_slice();
                assert(f@ == rows[i as int][c as int]);
                match crate::decimal::parse_field(f) {
                    None => {
                        assert(!all_numeric(rows, n as int)) by {
                            assert(rows[i as int].len() == n);
                            assert(field_value(rows[i as int][c as int]) is None);
                        }
                        return Err(LoadError::NotANumber);
                    },
                    Some(v) => {
                        vals.push(v);
                    },
                }
                c = c + 1;
            }
            assert(kept_rows(after, n as int) == kept_rows(before, n as int).push(rows[i as int]));
            assert(all_numeric(after, n as int)) by {
                assert forall|a: int, k: int|
                    0 <= a < after.len() && after[a].len() == n && 0 <= k < n implies (
                    #[trigger] field_value(after[a][k])) is Some by {
                    if a < i {
                        assert(after[a] == before[a]);
                    } else {
                        assert(after[a] == rows[i as int]);
                    }
                }
            }
            parsed.push(vals);
        }
        i = i + 1;
    }
    assert(rows.take(m as int) =~= rows);
    let ghost kept = kept_rows(rows, n as int);
    let mut columns: Vec<Vec<Decimal>> = Vec::new();
    let k = parsed.len();
    let mut c: usize = 0;
    while c < n
        invariant
            k == parsed@.len() == kept.len(),
            c <= n,
            columns@.len() == c,
            forall|j: int| 0 <= j < k ==> (#[trigger] parsed@[j])@.len() == n,
            forall|j: int, q: int| 0 <= j < k && 0 <= q < n ==> (#[trigger] parsed@[j]@[q]).wf(),
            forall|q: int, j: int| 0 <= q < c && 0 <= j < k ==> (#[trigger] columns@[q]@[j]).wf(),
            forall|j: int, q: int|
                0 <= j < k && 0 <= q < n ==> #[trigger] parsed@[j]@[q] == field_value(
                    kept[j][q],
                )->Some_0,
            forall|q: int|
                0 <= q < c ==> (#[trigger] columns@[q])@ == columns_of(kept, n as int)[q],
        decreases n - c,
    {
        let mut col: Vec<Decimal> = Vec::new();
        let mut j: usize = 0;
        while j < k
            invariant
                k == parsed@.len() == kept.len(),
                c < n,
                j <= k,
                col@.len() == j,
                forall|a: int| 0 <= a < k ==> (#[trigger] parsed@[a])@.len() == n,
                forall|a: int, q: int| 0 <= a < k && 0 <= q < n ==> (#[trigger] parsed@[a]@[q]).wf(),
                forall|a: int| 0 <= a < j ==> (#[trigger] col@[a]).wf(),
                forall|a: int, q: int|
                    0 <= a < k && 0 <= q < n ==> #[trigger] parsed@[a]@[q] == field_value(
                        kept[a][q],
                    )->Some_0,
                forall|a: int| 0 <= a < j ==> col@[a] == field_value(kept[a][c as int])->Some_0,
            decreases k - j,
        {
            col.push(parsed[j][c]);
            j = j + 1;
        }
        assert(col@ =~= columns_of(kept, n as int)[c as int]);
        columns.push(col);
        c = c + 1;
    }
    let t = LoadedTable { columns, skipped };
    assert(t@ =~= table_of(rows));
    Ok(t)
}

/// Loads a delimited source text: a header row, then rows of numeric
/// fields. Rows whose field count differs from the first data row's are
/// skipped and counted; a field that is no number fails the whole load.
pub fn load_csv(text: &[u8]) -> (r: Result<LoadedTable, LoadError>)
    ensures
        csv_records(text@) is None ==> r == Err::<LoadedTable, LoadError>(LoadError::Malformed),
        csv_records(text@) matches Some(rows) ==> match r {
            Ok(t) => {
                &&& t.wf()
                &&& all_numeric(rows, width_of(rows))
                &&& t@ == table_of(rows)
                &&& t.skipped == rows.len() - kept_rows(rows, width_of(rows)).len()
            },
            Err(e) => !all_numeric(rows, width_of(rows)) && e == LoadError::NotANumber,
        },
{
    match read_records(text) {
        Err(_) => Err(LoadError::Malformed),
        Ok(records) => table_from_records(&records),
    }
}

} // verus!
