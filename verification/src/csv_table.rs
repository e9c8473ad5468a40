//! Texts of a CSV dataset: the CSV bytes are parsed by the `csv` crate,
//! and the texts are the fields of the column whose header names it.
use vstd::prelude::*;
use crate::vocab::string_views;
use crate::text::str_eq;

verus! {

/// An error of the `csv` crate.
#[verifier::external_type_specification]
#[verifier::external_body]
pub struct ExCsvError(csv::Error);

/// What the `csv` crate reads from CSV bytes (with the default settings and
/// `has_headers` as given): `None` when the header row (the first row) does
/// not parse; otherwise that row's fields and the records, the records
/// being `None` when one of them does not parse.
pub uninterp spec fn csv_table(bytes: Seq<u8>, has_headers: bool) -> Option<(Seq<Seq<char>>, Option<Seq<Seq<Seq<char>>>>)>;

/// The views of a list of records.
pub open spec fn records_view(rows: Seq<Vec<String>>) -> Seq<Seq<Seq<char>>> {
    rows.map_values(|r: Vec<String>| string_views(r@))
}

/// Reads CSV bytes with the `csv` crate: `ReaderBuilder::new().has_headers(..)`
/// and `from_reader`, then `Reader::headers` and `Reader::records` (every
/// record up to the first error). The fields are taken as strings. Both
/// results are named by `csv_table`, a function of the bytes and the flag.
#[verifier::external_body]
fn read_csv(bytes: &[u8], has_headers: bool) -> (r: Result<(Vec<String>, Result<Vec<Vec<String>>, csv::Error>), csv::Error>)
    ensures
        match r {
            Err(_) => csv_table(bytes@, has_headers) is None,
            Ok((h, rows)) => csv_table(bytes@, has_headers) matches Some((hv, rv)) && hv == string_views(h@) && match rows {
                Err(_) => rv is None,
                Ok(rs) => rv == Some(records_view(rs@)),
            },
        },
{
    let mut rdr = csv::ReaderBuilder::new().has_headers(has_headers).from_reader(bytes);
    let headers: Vec<String> = rdr.headers()?.iter().map(|f| f.to_string()).collect();
    let rows = rdr.records().map(|rec| rec.map(|rec| rec.iter().map(|f| f.to_string()).collect())).collect();
    Ok((headers, rows))
}

/// The position of the first header equal to `col`, or -1.
pub open spec fn first_index(headers: Seq<Seq<char>>, col: Seq<char>) -> int
    decreases headers.len(),
{
    if headers.len() == 0 {
        -1
    } else if headers[0] == col {
        0
    } else {
        let k = first_index(headers.drop_first(), col);
        if k < 0 {
            -1
        } else {
            k + 1
        }
    }
}

/// Field `k` of each record that has one, in order.
pub open spec fn column_values(rows: Seq<Seq<Seq<char>>>, k: int) -> Seq<Seq<char>>
    decreases rows.len(),
{
    if rows.len() == 0 {
        Seq::empty()
    } else {
        let r = column_values(rows.drop_last(), k);
        if 0 <= k < rows.last().len() {
            r.push(rows.last()[k])
        } else {
            r
        }
    }
}

/// The first matching header is a header equal to `col`, with none before it;
/// there is none exactly when no header equals `col`.
pub proof fn lemma_first_index(headers: Seq<Seq<char>>, col: Seq<char>)
    ensures
        -1 <= first_index(headers, col) < headers.len(),
        first_index(headers, col) >= 0 ==> headers[first_index(headers, col)] == col,
        forall|j: int| 0 <= j < first_index(headers, col) ==> headers[j] != col,
        (first_index(headers, col) < 0) <==> !headers.contains(col),
    decreases headers.len(),
{
    if headers.len() > 0 {
        let t = headers.drop_first();
        lemma_first_index(t, col);
        if headers[0] != col {
            assert forall|j: int| 0 <= j < first_index(headers, col) implies headers[j] != col by {
                if j > 0 {
                    assert(headers[j] == t[j - 1]);
                }
            }
            if first_index(t, col) >= 0 {
                assert(headers[first_index(t, col) + 1] == t[first_index(t, col)]);
            }
            if headers.contains(col) {
                let j = choose|j: int| 0 <= j < headers.len() && headers[j] == col;
                assert(t[j - 1] == col);
            }
            if t.contains(col) {
                let j = choose|j: int| 0 <= j < t.len() && t[j] == col;
                assert(headers[j + 1] == col);
            }
        }
    }
}

/// The texts of column `text_column`: `None` when no header is equal to
/// it; otherwise field `k` of each record that has one, `k` being the
/// position of the first header equal to `text_column`.
pub fn column_texts(headers: &[String], rows: &[Vec<String>], text_column: &str) -> (r: Option<Vec<String>>)
    ensures
        r is None <==> !string_views(headers@).contains(text_column@),
        first_index(string_views(headers@), text_column@) >= 0 ==> (r matches Some(v)
            && string_views(v@) == column_values(records_view(rows@), first_index(string_views(headers@), text_column@))),
{
    let ghost hv = string_views(headers@);
    proof {
        lemma_first_index(hv, text_column@);
    }
    let mut k: usize = 0;
    let mut found = false;
    while k < headers.len() && !found
        invariant
            k <= headers@.len(),
            hv == string_views(headers@),
            forall|j: int| 0 <= j < k ==> hv[j] != text_column@,
            found ==> k < headers@.len() && hv[k as int] == text_column@,
        decreases headers.len() - k + (if found { 0int } else { 1int }),
    {
        if str_eq(headers[k].as_str(), text_column) {
            found = true;
        } else {
            k = k + 1;
        }
    }
    if !found {
        proof {
            assert(!hv.contains(text_column@)) by {
                if hv.contains(text_column@) {
                    let j = choose|j: int| 0 <= j < hv.len() && hv[j] == text_column@;
                }
            }
        }
        return None;
    }
    proof {
        assert(hv[k as int] == text_column@);
        assert(first_index(hv, text_column@) == k as int);
    }
    let ghost rv = records_view(rows@);
    let mut out: Vec<String> = Vec::new();
    let mut i: usize = 0;
    assert(rv.take(0) =~= Seq::<Seq<Seq<char>>>::empty());
    assert(string_views(out@) =~= Seq::<Seq<char>>::empty());
    while i < rows.len()
        invariant
            i <= rows@.len(),
            k < headers@.len(),
            rv == records_view(rows@),
            string_views(out@) == column_values(rv.take(i as int), k as int),
        decreases rows.len() - i,
    {
        proof {
            assert(rv.take(i + 1).drop_last() =~= rv.take(i as int));
            assert(rv.take(i + 1).last() == string_views(rows@[i as int]@));
        }
        if k < rows[i].len() {
            let ghost before = out@;
            out.push(rows[i][k].clone());
            assert(string_views(out@) =~= string_views(before).push(rows@[i as int]@[k as int]@));
        }
        i = i + 1;
    }
    assert(rv.take(i as int) =~= rv);
    Some(out)
}

/// Why the texts of a CSV dataset could not be read.
#[derive(Debug)]
pub enum CsvLoadError {
    /// The CSV data does not parse.
    Parse(csv::Error),
    /// No header names the text column.
    ColumnNotFound,
}

/// What loading the texts of column `col` from CSV bytes gives: a parse
/// error when the header row does not parse; otherwise an error when no
/// header names the column; otherwise a parse error when a record does not
/// parse; otherwise the column's texts (see `column_values`).
pub open spec fn csv_texts_ok(bytes: Seq<u8>, has_headers: bool, col: Seq<char>, r: Result<Vec<String>, CsvLoadError>) -> bool {
    match csv_table(bytes, has_headers) {
        None => r matches Err(CsvLoadError::Parse(_)),
        Some((h, rows)) => if !h.contains(col) {
            r matches Err(CsvLoadError::ColumnNotFound)
        } else {
            match rows {
                None => r matches Err(CsvLoadError::Parse(_)),
                Some(rs) => r matches Ok(v) && string_views(v@) == column_values(rs, first_index(h, col)),
            }
        },
    }
}

/// Reads the texts of column `text_column` from CSV bytes (see `csv_texts_ok`).
pub fn load_csv_texts(bytes: &[u8], has_headers: bool, text_column: &str) -> (r: Result<Vec<String>, CsvLoadError>)
    ensures
        csv_texts_ok(bytes@, has_headers, text_column@, r),
{
    match read_csv(bytes, has_headers) {
        Err(e) => Err(CsvLoadError::Parse(e)),
        Ok((headers, rows)) => {
            proof {
                lemma_first_index(string_views(headers@), text_column@);
            }
            match column_texts(headers.as_slice(), &[], text_column) {
                None => Err(CsvLoadError::ColumnNotFound),
                Some(_) => match rows {
                    Err(e) => Err(CsvLoadError::Parse(e)),
                    Ok(rs) => match column_texts(headers.as_slice(), rs.as_slice(), text_column) {
                        Some(v) => Ok(v),
                        None => Err(CsvLoadError::ColumnNotFound),
                    },
                },
            }
        },
    }
}

} // verus!
