//! Reading columns of a CSV text, the training samples of the schemes.

use vstd::prelude::*;

verus! {

/// What the CSV parser makes of `content`: its header record and its data
/// records, each a sequence of fields; `None` when the text is not valid CSV.
pub uninterp spec fn csv_table(content: Seq<u8>) -> Option<(Seq<Seq<char>>, Seq<Seq<Seq<char>>>)>;

/// Relies on csv's `ReaderBuilder` with a header row, reading `content`:
/// `headers` and then every record of `records`; `None` when csv reports an
/// error. The result depends on `content` alone.
#[verifier::external_body]
fn parse_csv(content: &[u8]) -> (r: Option<(Vec<String>, Vec<Vec<String>>)>)
    ensures
        r.deep_view() == csv_table(content@),
{
    let mut reader = csv::ReaderBuilder::new().has_headers(true).from_reader(content);
    let headers: Vec<String> = match reader.headers() {
        Ok(h) => h.iter().map(|f| f.to_string()).collect(),
        Err(_) => return None,
    };
    let mut rows: Vec<Vec<String>> = Vec::new();
    for record in reader.records() {
        match record {
            Ok(rec) => rows.push(rec.iter().map(|f| f.to_string()).collect()),
            Err(_) => return None,
        }
    }
    Some((headers, rows))
}

/// Why a column could not be read.
#[derive(Clone, Copy, Debug, PartialEq, Eq)]
pub enum CsvError {
    /// The text is not valid CSV, or a record lacks the column.
    Parse,
    /// No header names the column.
    ColumnNotFound,
}

/// Position of the first header equal to `name`, or -1.
pub open spec fn column_index(headers: Seq<Seq<char>>, name: Seq<char>) -> int
    decreases headers.len(),
{
    if headers.len() == 0 {
        -1
    } else {
        let k = column_index(headers.drop_last(), name);
        if k >= 0 {
            k
        } else if headers.last() == name {
            headers.len() - 1
        } else {
            -1
        }
    }
}

/// Every record has a field at position `idx`.
pub open spec fn all_have(rows: Seq<Seq<Seq<char>>>, idx: int) -> bool {
    forall|i: int| 0 <= i < rows.len() ==> idx < #[trigger] rows[i].len()
}

/// The field at position `idx` of every record.
pub open spec fn column_of(rows: Seq<Seq<Seq<char>>>, idx: int) -> Seq<Seq<char>> {
    rows.map_values(|r: Seq<Seq<char>>| r[idx])
}

/// What reading the column `name` of `content` gives.
pub open spec fn read_column_spec(content: Seq<u8>, name: Seq<char>) -> Result<Seq<Seq<char>>, CsvError> {
    match csv_table(content) {
        None => Err(CsvError::Parse),
        Some((h, rows)) => {
            let idx = column_index(h, name);
            if idx < 0 {
                Err(CsvError::ColumnNotFound)
            } else if !all_have(rows, idx) {
                Err(CsvError::Parse)
            } else {
                Ok(column_of(rows, idx))
            }
        },
    }
}

/// The strings of a vector, as plain values.
pub open spec fn strings_view(v: Seq<String>) -> Seq<Seq<char>> {
    v.map_values(|s: String| s@)
}

fn find_column(headers: &Vec<String>, name: &String) -> (r: Option<usize>)
    ensures
        r matches Some(i) ==> i == column_index(headers.deep_view(), name@),
        r is None ==> column_index(headers.deep_view(), name@) < 0,
{
    let ghost hs = headers.deep_view();
    let mut i: usize = 0;
    while i < headers.len()
        invariant
            i <= headers@.len(),
            hs == headers.deep_view(),
            column_index(hs.subrange(0, i as int), name@) < 0,
        decreases headers@.len() - i,
    {
        proof {
            assert(hs.subrange(0, i + 1).drop_last() =~= hs.subrange(0, i as int));
            assert(hs[i as int] == headers@[i as int]@);
        }
        if headers[i] == *name {
            proof {
                lemma_column_index_prefix(hs, i as int + 1, name@);
            }
            return Some(i);
        }
        i = i + 1;
    }
    assert(hs.subrange(0, hs.len() as int) =~= hs);
    None
}

proof fn lemma_column_index_prefix(hs: Seq<Seq<char>>, k: int, name: Seq<char>)
    requires
        0 < k <= hs.len(),
        column_index(hs.subrange(0, k), name) >= 0,
    ensures
        column_index(hs, name) == column_index(hs.subrange(0, k), name),
    decreases hs.len() - k,
{
    if k < hs.len() {
        assert(hs.subrange(0, k + 1).drop_last() =~= hs.subrange(0, k));
        lemma_column_index_prefix(hs, k + 1, name);
    } else {
        assert(hs.subrange(0, k) =~= hs);
    }
}

fn read_column(headers: &Vec<String>, rows: &Vec<Vec<String>>, name: &String) -> (r: Result<Vec<String>, CsvError>)
    ensures
        match read_column_spec_parts(headers.deep_view(), rows.deep_view(), name@) {
            Ok(v) => r matches Ok(x) && strings_view(x@) == v,
            Err(e) => r == Err::<Vec<String>, CsvError>(e),
        },
{
    let idx = match find_column(headers, name) {
        Some(i) => i,
        None => return Err(CsvError::ColumnNotFound),
    };
    let ghost rs = rows.deep_view();
    let mut out: Vec<String> = Vec::new();
    let mut k: usize = 0;
    while k < rows.len()
        invariant
            k <= rows@.len(),
            rs == rows.deep_view(),
            idx == column_index(headers.deep_view(), name@),
            forall|i: int| 0 <= i < k ==> idx < #[trigger] rs[i].len(),
            strings_view(out@) == column_of(rs.subrange(0, k as int), idx as int),
        decreases rows@.len() - k,
    {
        proof {
            assert(rs[k as int] == rows@[k as int].deep_view());
        }
        if idx >= rows[k].len() {
            return Err(CsvError::Parse);
        }
        let field = rows[k][idx].clone();
        let ghost o0 = strings_view(out@);
        out.push(field);
        proof {
            assert(strings_view(out@) =~= o0.push(field@));
            assert(rs[k as int][idx as int] == rows@[k as int]@[idx as int]@);
            assert(column_of(rs.subrange(0, k + 1), idx as int) =~= column_of(rs.subrange(0, k as int), idx as int).push(
                rs[k as int][idx as int],
            ));
        }
        k = k + 1;
    }
    assert(rs.subrange(0, rs.len() as int) =~= rs);
    Ok(out)
}

/// `read_column_spec` on an already parsed table.
pub open spec fn read_column_spec_parts(h: Seq<Seq<char>>, rows: Seq<Seq<Seq<char>>>, name: Seq<char>) -> Result<Seq<Seq<char>>, CsvError> {
    let idx = column_index(h, name);
    if idx < 0 {
        Err(CsvError::ColumnNotFound)
    } else if !all_have(rows, idx) {
        Err(CsvError::Parse)
    } else {
        Ok(column_of(rows, idx))
    }
}

/// Reads the column `column_name` of the CSV text `content`, whose first
/// record names the columns.
pub fn read_csv_exact(content: &[u8], column_name: &str) -> (r: Result<Vec<String>, CsvError>)
    ensures
        match read_column_spec(content@, column_name@) {
            Ok(v) => r matches Ok(x) && strings_view(x@) == v,
            Err(e) => r == Err::<Vec<String>, CsvError>(e),
        },
{
    broadcast use vstd::string::to_string_from_display_ensures_for_str;

    let name = column_name.to_string();
    match parse_csv(content) {
        Some((headers, rows)) => read_column(&headers, &rows, &name),
        None => Err(CsvError::Parse),
    }
}

/// Reads several columns of the CSV text `content`; fails on the first
/// column that cannot be read.
pub fn read_csv_multiple(content: &[u8], column_names: &[String]) -> (r: Result<Vec<Vec<String>>, CsvError>)
    ensures
        r matches Ok(cols) ==> cols@.len() == column_names@.len() && forall|i: int|
            0 <= i < cols@.len() ==> read_column_spec(content@, column_names@[i]@) == Ok::<Seq<Seq<char>>, CsvError>(
                strings_view(#[trigger] cols@[i]@),
            ),
        r matches Err(e) ==> exists|i: int|
            0 <= i < column_names@.len() && #[trigger] read_column_spec(content@, column_names@[i]@) == Err::<
                Seq<Seq<char>>,
                CsvError,
            >(e),
        (forall|i: int| 0 <= i < column_names@.len() ==> #[trigger] read_column_spec(content@, column_names@[i]@) is Ok)
            ==> r is Ok,
{
    let (headers, rows) = match parse_csv(content) {
        Some(t) => t,
        None => {
            if column_names.len() == 0 {
                return Ok(Vec::new());
            }
            assert(read_column_spec(content@, column_names@[0]@) == Err::<Seq<Seq<char>>, CsvError>(CsvError::Parse));
            return Err(CsvError::Parse);
        },
    };
    let mut cols: Vec<Vec<String>> = Vec::new();
    let mut i: usize = 0;
    while i < column_names.len()
        invariant
            i <= column_names@.len(),
            csv_table(content@) == Some((headers.deep_view(), rows.deep_view())),
            cols@.len() == i,
            forall|j: int|
                0 <= j < i ==> read_column_spec(content@, column_names@[j]@) == Ok::<Seq<Seq<char>>, CsvError>(
                    strings_view(#[trigger] cols@[j]@),
                ),
        decreases column_names@.len() - i,
    {
        proof {
            assert(read_column_spec(content@, column_names@[i as int]@) == read_column_spec_parts(
                headers.deep_view(),
                rows.deep_view(),
                column_names@[i as int]@,
            ));
        }
        match read_column(&headers, &rows, &column_names[i]) {
            Ok(col) => {
                let ghost c0 = cols@;
                cols.push(col);
                proof {
                    assert forall|j: int|
                        0 <= j < i + 1 implies read_column_spec(content@, column_names@[j]@) == Ok::<Seq<Seq<char>>, CsvError>(
                            strings_view(#[trigger] cols@[j]@),
                        ) by {
                        if j < i {
                            assert(cols@[j] == c0[j]);
                        }
                    }
                }
            },
            Err(e) => {
                return Err(e);
            },
        }
        i = i + 1;
    }
    Ok(cols)
}

} // verus!
