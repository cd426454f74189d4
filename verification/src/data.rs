//! CSV ingestion: the indexing model, the verified parser, and the shared
//! application state that serves lookups.
//!
//! A CSV text is a sequence of lines separated by `'\n'` (a trailing
//! `'\r'` on a line is dropped, so `"\r\n"` sources work too). Each line
//! splits on the configured single-character delimiter into exactly five
//! fields: id, title, description, brand, price. A line that has the wrong
//! field count or a non-numeric id is malformed; it is skipped and never
//! aborts ingestion. A parsed row whose id is zero (including the sentinel
//! substituted for malformed rows) is excluded. When several rows share an
//! id, the last occurrence wins.

use crate::error::Error;
use crate::model::{product_json, Product, ProductView};
use crate::settings::Settings;
use crate::strutil::{chars_to_string, dec_value, is_dec_digits, parse_usize, split_chars, split_on, str_chars};
use std::collections::HashMap;
use vstd::prelude::*;

verus! {

broadcast use vstd::std_specs::hash::group_hash_axioms;

/// A line with its trailing carriage return (if any) removed.
pub open spec fn strip_cr(line: Seq<char>) -> Seq<char> {
    if line.len() > 0 && line.last() == '\r' {
        line.drop_last()
    } else {
        line
    }
}

/// The lines of a CSV text: split on newlines, each stripped of a trailing
/// carriage return.
pub open spec fn lines_of(text: Seq<char>) -> Seq<Seq<char>> {
    split_on(text, '\n').map_values(|l: Seq<char>| strip_cr(l))
}

/// The record described by one (already line-ending-stripped) CSV line, or
/// `None` when the line is malformed: wrong field count, or an id that is
/// not a plain decimal number fitting `usize`.
pub open spec fn row_product(line: Seq<char>, d: char) -> Option<ProductView> {
    let fs = split_on(line, d);
    if fs.len() == 5 && is_dec_digits(fs[0]) && dec_value(fs[0]) <= usize::MAX {
        Some(
            ProductView {
                id: dec_value(fs[0]) as usize,
                title: fs[1],
                description: if fs[2].len() == 0 {
                    None
                } else {
                    Some(fs[2])
                },
                brand: fs[3],
                price: fs[4],
            },
        )
    } else {
        None
    }
}

/// The index built from the first `n` rows, in order: malformed rows and
/// rows with id zero contribute nothing, later rows overwrite earlier ones.
pub open spec fn index_rows_upto(rows: Seq<Seq<char>>, d: char, n: int) -> Map<usize, ProductView>
    decreases n,
{
    if n <= 0 {
        Map::empty()
    } else {
        let m = index_rows_upto(rows, d, n - 1);
        match row_product(rows[n - 1], d) {
            Some(p) => if p.id != 0 {
                m.insert(p.id, p)
            } else {
                m
            },
            None => m,
        }
    }
}

/// The index built from all rows.
pub open spec fn index_rows(rows: Seq<Seq<char>>, d: char) -> Map<usize, ProductView> {
    index_rows_upto(rows, d, rows.len() as int)
}

/// The index described by a whole CSV text and a delimiter.
pub open spec fn csv_index(text: Seq<char>, d: char) -> Map<usize, ProductView> {
    index_rows(lines_of(text), d)
}

/// The (zero-based) numbers of the malformed lines among the first `n`
/// rows, in order.
pub open spec fn malformed_upto(rows: Seq<Seq<char>>, d: char, n: int) -> Seq<usize>
    decreases n,
{
    if n <= 0 {
        Seq::<usize>::empty()
    } else {
        let prefix = malformed_upto(rows, d, n - 1);
        if row_product(rows[n - 1], d) is None {
            prefix.push((n - 1) as usize)
        } else {
            prefix
        }
    }
}

/// The (zero-based) numbers of all malformed lines, in order.
pub open spec fn malformed_lines(rows: Seq<Seq<char>>, d: char) -> Seq<usize> {
    malformed_upto(rows, d, rows.len() as int)
}

/// A copy of `line` without its trailing carriage return, if it has one.
fn strip_cr_exec(line: &Vec<char>) -> (r: Vec<char>)
    ensures
        r@ == strip_cr(line@),
{
    let n: usize = if line.len() > 0 && line[line.len() - 1] == '\r' {
        line.len() - 1
    } else {
        line.len()
    };
    let mut r: Vec<char> = Vec::new();
    let mut i: usize = 0;
    while i < n
        invariant
            i <= n,
            n <= line@.len(),
            r@ == line@.take(n as int).take(i as int),
        decreases n - i,
    {
        r.push(line[i]);
        i = i + 1;
        proof {
            assert(r@ =~= line@.take(n as int).take(i as int));
        }
    }
    proof {
        assert(r@ =~= line@.take(n as int));
        assert(line@.take(n as int) =~= strip_cr(line@));
    }
    r
}

/// Parses one line (already stripped of its line ending) into a record;
/// `None` exactly when the indexing model calls the line malformed.
fn parse_row(line: &Vec<char>, d: char) -> (r: Option<Product>)
    ensures
        match r {
            Some(p) => row_product(line@, d) matches Some(pv) && p@ == pv,
            None => row_product(line@, d) is None,
        },
{
    let fields = split_chars(line, d);
    if fields.len() != 5 {
        return None;
    }
    match parse_usize(&fields[0]) {
        None => None,
        Some(id) => {
            let title = chars_to_string(&fields[1]);
            let description = if fields[2].len() == 0 {
                None
            } else {
                Some(chars_to_string(&fields[2]))
            };
            let brand = chars_to_string(&fields[3]);
            let price = chars_to_string(&fields[4]);
            Some(Product { id, title, description, brand, price })
        },
    }
}

/// Relates an executable map of records to its mathematical index: same
/// keys, and each record's value is the model's record.
pub open spec fn map_view_matches(m: Map<usize, Product>, s: Map<usize, ProductView>) -> bool {
    &&& forall|k: usize|
        #![trigger m.contains_key(k)]
        #![trigger s.contains_key(k)]
        m.contains_key(k) <==> s.contains_key(k)
    &&& forall|k: usize| #![trigger m[k]] m.contains_key(k) ==> m[k]@ == s[k]
}

/// Indexes CSV text with the configured delimiter and reports the
/// (zero-based) numbers of the lines that were skipped as malformed, so
/// the caller can log them.
///
/// An empty delimiter is a configuration error reported before any parsing
/// begins. Otherwise parsing never fails: malformed rows and rows with id
/// zero are skipped, and for duplicate ids the last row wins, as
/// [`csv_index`] states.
pub fn parse_csv_with_report(settings: &Settings, data: String) -> (r: Result<
    (HashMap<usize, Product>, Vec<usize>),
    Error,
>)
    ensures
        settings.csv.delimiter@.len() == 0 ==> (r matches Err(e) && e is ConfigError),
        settings.csv.delimiter@.len() > 0 ==> (r matches Ok(p) && map_view_matches(
            p.0@,
            csv_index(data@, settings.csv.delimiter@[0]),
        ) && p.1@ == malformed_lines(lines_of(data@), settings.csv.delimiter@[0])),
{
    if settings.csv.delimiter.as_str().unicode_len() == 0 {
        return Err(Error::ConfigError("the csv delimiter must not be empty".to_owned()));
    }
    let d = settings.csv.delimiter.as_str().get_char(0);
    let chars = str_chars(data.as_str());
    let lines = split_chars(&chars, '\n');
    let ghost rows = lines_of(data@);
    proof {
        assert(rows.len() == lines@.len());
    }
    let mut map: HashMap<usize, Product> = HashMap::new();
    let mut skipped: Vec<usize> = Vec::new();
    let mut i: usize = 0;
    while i < lines.len()
        invariant
            i <= lines@.len(),
            rows == lines_of(data@),
            rows.len() == lines@.len(),
            forall|j: int| 0 <= j < lines@.len() ==> #[trigger] lines@[j]@ == split_on(data@, '\n')[j],
            vstd::std_specs::hash::obeys_key_model::<usize>(),
            vstd::std_specs::hash::builds_valid_hashers::<std::collections::hash_map::RandomState>(),
            map_view_matches(map@, index_rows_upto(rows, d, i as int)),
            skipped@ == malformed_upto(rows, d, i as int),
        decreases lines@.len() - i,
    {
        let stripped = strip_cr_exec(&lines[i]);
        proof {
            assert(rows[i as int] == strip_cr(split_on(data@, '\n')[i as int]));
            assert(stripped@ == rows[i as int]);
        }
        match parse_row(&stripped, d) {
            Some(p) => {
                if p.id != 0 {
                    let ghost pv = row_product(rows[i as int], d)->0;
                    map.insert(p.id, p);
                    proof {
                        let m2 = index_rows_upto(rows, d, i as int + 1);
                        assert(m2 == index_rows_upto(rows, d, i as int).insert(pv.id, pv));
                        assert forall|k: usize| map@.contains_key(k) <==> m2.contains_key(k) by {
                        }
                        assert forall|k: usize| map@.contains_key(k) implies #[trigger] map@[k]@
                            == m2[k] by {
                        }
                    }
                } else {
                    proof {
                        assert(index_rows_upto(rows, d, i as int + 1) == index_rows_upto(
                            rows,
                            d,
                            i as int,
                        ));
                    }
                }
            },
            None => {
                skipped.push(i);
                proof {
                    assert(index_rows_upto(rows, d, i as int + 1) == index_rows_upto(
                        rows,
                        d,
                        i as int,
                    ));
                    assert(skipped@ =~= malformed_upto(rows, d, i as int + 1));
                }
            },
        }
        i = i + 1;
    }
    proof {
        assert(index_rows_upto(rows, d, rows.len() as int) == csv_index(
            data@,
            settings.csv.delimiter@[0],
        ));
    }
    Ok((map, skipped))
}

/// Indexes CSV text with the configured delimiter; the reporting variant
/// with the skipped line numbers dropped.
pub fn parse_csv(settings: &Settings, data: String) -> (r: Result<
    HashMap<usize, Product>,
    Error,
>)
    ensures
        settings.csv.delimiter@.len() == 0 ==> (r matches Err(e) && e is ConfigError),
        settings.csv.delimiter@.len() > 0 ==> (r matches Ok(m) && map_view_matches(
            m@,
            csv_index(data@, settings.csv.delimiter@[0]),
        )),
{
    match parse_csv_with_report(settings, data) {
        Ok((map, _)) => Ok(map),
        Err(e) => Err(e),
    }
}

/// The process-wide application state: the immutable settings and the
/// indexed record table. Built once at startup; the surrounding
/// application shares it across request handlers (behind its guard) and
/// only ever calls [`AppState::lookup`] on it afterwards.
#[derive(Debug)]
pub struct AppState {
    pub settings: Settings,
    pub map: HashMap<usize, Product>,
}

impl AppState {
    /// Builds the state from already-fetched CSV text and reports the
    /// skipped line numbers for the caller to log. Any indexing failure
    /// aborts construction: the service must not start with a partially
    /// built index.
    pub fn build_with_report(settings: Settings, data: String) -> (r: Result<
        (AppState, Vec<usize>),
        Error,
    >)
        ensures
            settings.csv.delimiter@.len() == 0 ==> (r matches Err(e) && e is ConfigError),
            settings.csv.delimiter@.len() > 0 ==> (r matches Ok(p) && p.0.settings == settings
                && map_view_matches(p.0.map@, csv_index(data@, settings.csv.delimiter@[0]))
                && p.1@ == malformed_lines(lines_of(data@), settings.csv.delimiter@[0])),
    {
        let (map, skipped) = match parse_csv_with_report(&settings, data) {
            Ok(p) => p,
            Err(e) => {
                return Err(e);
            },
        };
        Ok((AppState { settings, map }, skipped))
    }

    /// Builds the state from already-fetched CSV text.
    pub fn build(settings: Settings, data: String) -> (r: Result<AppState, Error>)
        ensures
            settings.csv.delimiter@.len() == 0 ==> (r matches Err(e) && e is ConfigError),
            settings.csv.delimiter@.len() > 0 ==> (r matches Ok(st) && st.settings == settings
                && map_view_matches(st.map@, csv_index(data@, settings.csv.delimiter@[0]))),
    {
        match AppState::build_with_report(settings, data) {
            Ok((st, _)) => Ok(st),
            Err(e) => Err(e),
        }
    }

    /// The reply for a product request: 200 with the record's JSON body
    /// when the id is indexed, 404 with no body otherwise.
    pub fn product_response(&self, id: usize) -> (r: (u16, Option<String>))
        ensures
            self.map@.contains_key(id) ==> r.0 == 200 && (r.1 matches Some(b) && b@
                == product_json(self.map@[id]@)),
            !self.map@.contains_key(id) ==> r.0 == 404 && r.1 is None,
    {
        match self.lookup(id) {
            Some(p) => (200, Some(p.to_json())),
            None => (404, None),
        }
    }

    /// Looks up the record with the given id: a single read of the index.
    pub fn lookup(&self, id: usize) -> (r: Option<&Product>)
        ensures
            match r {
                Some(p) => self.map@.contains_key(id) && *p == self.map@[id],
                None => !self.map@.contains_key(id),
            },
    {
        self.map.get(&id)
    }
}

/// Holds when row `i` parses to a record with id `k`.
pub open spec fn row_yields(rows: Seq<Seq<char>>, d: char, i: int, k: usize) -> bool {
    row_product(rows[i], d) matches Some(p) && p.id == k
}

proof fn lemma_index_keys_upto(rows: Seq<Seq<char>>, d: char, n: int)
    requires
        0 <= n <= rows.len(),
    ensures
        forall|k: usize|
            #[trigger] index_rows_upto(rows, d, n).contains_key(k) <==> (k != 0 && exists|i: int|
                0 <= i < n && #[trigger] row_yields(rows, d, i, k)),
    decreases n,
{
    if n > 0 {
        lemma_index_keys_upto(rows, d, n - 1);
        assert forall|k: usize|
            index_rows_upto(rows, d, n).contains_key(k) <==> (k != 0 && exists|i: int|
                0 <= i < n && #[trigger] row_yields(rows, d, i, k)) by {
            if index_rows_upto(rows, d, n).contains_key(k) {
                if index_rows_upto(rows, d, n - 1).contains_key(k) {
                    let i = choose|i: int| 0 <= i < n - 1 && #[trigger] row_yields(rows, d, i, k);
                    assert(row_yields(rows, d, i, k));
                } else {
                    assert(row_yields(rows, d, n - 1, k));
                }
            }
            if k != 0 && exists|i: int| 0 <= i < n && #[trigger] row_yields(rows, d, i, k) {
                let i = choose|i: int| 0 <= i < n && #[trigger] row_yields(rows, d, i, k);
                if i < n - 1 {
                    assert(index_rows_upto(rows, d, n - 1).contains_key(k));
                }
            }
        }
    }
}

/// The index's keys are exactly the distinct nonzero ids of the rows that
/// parse, whatever the input.
pub proof fn lemma_index_keys(rows: Seq<Seq<char>>, d: char)
    ensures
        forall|k: usize|
            #[trigger] index_rows(rows, d).contains_key(k) <==> (k != 0 && exists|i: int|
                0 <= i < rows.len() && #[trigger] row_yields(rows, d, i, k)),
{
    lemma_index_keys_upto(rows, d, rows.len() as int);
}

proof fn lemma_last_wins_upto(rows: Seq<Seq<char>>, d: char, i: int, k: usize, n: int)
    requires
        0 <= i < n <= rows.len(),
        k != 0,
        row_yields(rows, d, i, k),
        forall|j: int| i < j < n ==> !(#[trigger] row_yields(rows, d, j, k)),
    ensures
        index_rows_upto(rows, d, n).contains_key(k),
        index_rows_upto(rows, d, n)[k] == row_product(rows[i], d)->0,
    decreases n,
{
    if n == i + 1 {
    } else {
        lemma_last_wins_upto(rows, d, i, k, n - 1);
        assert(!row_yields(rows, d, n - 1, k));
    }
}

/// When several rows share a nonzero id, the index keeps the record of the
/// last of them: if no row after `i` yields id `k`, the index maps `k` to
/// row `i`'s record.
pub proof fn lemma_index_last_wins(rows: Seq<Seq<char>>, d: char, i: int, k: usize)
    requires
        0 <= i < rows.len(),
        k != 0,
        row_yields(rows, d, i, k),
        forall|j: int| i < j < rows.len() ==> !(#[trigger] row_yields(rows, d, j, k)),
    ensures
        index_rows(rows, d).contains_key(k),
        index_rows(rows, d)[k] == row_product(rows[i], d)->0,
{
    lemma_last_wins_upto(rows, d, i, k, rows.len() as int);
}

proof fn lemma_index_upto_congruent(r1: Seq<Seq<char>>, r2: Seq<Seq<char>>, d: char, n: int)
    requires
        n <= r1.len(),
        n <= r2.len(),
        forall|i: int| 0 <= i < n ==> r1[i] == r2[i],
    ensures
        index_rows_upto(r1, d, n) == index_rows_upto(r2, d, n),
    decreases n,
{
    if n > 0 {
        lemma_index_upto_congruent(r1, r2, d, n - 1);
    }
}

proof fn lemma_remove_shift(rows: Seq<Seq<char>>, d: char, j: int, n: int)
    requires
        0 <= j < rows.len(),
        row_product(rows[j], d) is None,
        j <= n <= rows.len() - 1,
    ensures
        index_rows_upto(rows.remove(j), d, n) == index_rows_upto(rows, d, n + 1),
    decreases n,
{
    if n == j {
        lemma_index_upto_congruent(rows.remove(j), rows, d, j);
        assert(index_rows_upto(rows, d, j + 1) == index_rows_upto(rows, d, j));
    } else {
        lemma_remove_shift(rows, d, j, n - 1);
        assert(rows.remove(j)[n - 1] == rows[n]);
    }
}

/// A malformed row contributes nothing: removing it from the input leaves
/// the index unchanged (and indexing itself is total, so one bad row never
/// aborts ingestion of the rest).
pub proof fn lemma_malformed_row_dropped(rows: Seq<Seq<char>>, d: char, j: int)
    requires
        0 <= j < rows.len(),
        row_product(rows[j], d) is None,
    ensures
        index_rows(rows.remove(j), d) == index_rows(rows, d),
{
    lemma_remove_shift(rows, d, j, rows.len() - 1);
    assert(rows.remove(j).len() == rows.len() - 1);
}

} // verus!
