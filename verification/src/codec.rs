use vstd::prelude::*;

use crate::record::{models, Record, RecordModel, StoreError};
use vstd::string::StrSliceExecFns;

verus! {

/// The one line of delimited text that encodes a record carrying this
/// index (in decimal), this text (quoted as the format requires) and
/// this flag ("true"/"false"), terminator included.
pub uninterp spec fn csv_line_of(index: u32, action: Seq<char>, done: bool) -> Seq<u8>;

/// The rows of string fields that reading these bytes as headerless
/// delimited text yields, or nothing when the bytes are not well-formed
/// in that format.
pub uninterp spec fn csv_rows_of(bytes: Seq<u8>) -> Option<Seq<Seq<Seq<char>>>>;

/// Relies on csv::Writer::write_record (headers off, in-memory sink):
/// encodes the three fields of one record as one line; the line depends
/// on the record's fields alone. Writing into a byte vector cannot fail.
#[verifier::external_body]
fn encode_record_line(r: &Record) -> (out: Vec<u8>)
    ensures
        out@ == csv_line_of(r.index, r.action@, r.done),
{
    let mut w = csv::WriterBuilder::new().has_headers(false).from_writer(Vec::new());
    w.write_record(&[r.index.to_string(), r.action.clone(), r.done.to_string()])
        .expect("writing to memory");
    w.into_inner().expect("flushing to memory")
}

/// Relies on csv::Reader::records (headers off, in-memory source): splits
/// the byte content into rows of string fields; any read error — the
/// outcome depends on the bytes alone — yields `None`.
#[verifier::external_body]
fn split_rows(bytes: &Vec<u8>) -> (out: Option<Vec<Vec<String>>>)
    ensures
        match out {
            Some(rows) => csv_rows_of(bytes@) == Some(rows.deep_view()),
            None => csv_rows_of(bytes@) is None,
        },
{
    let mut rdr = csv::ReaderBuilder::new().has_headers(false).from_reader(bytes.as_slice());
    let mut rows: Vec<Vec<String>> = Vec::new();
    for rec in rdr.records() {
        match rec {
            Ok(r) => rows.push(r.iter().map(|f| f.to_string()).collect()),
            Err(_) => return None,
        }
    }
    Some(rows)
}

/// A decimal digit.
pub open spec fn is_digit(c: char) -> bool {
    48 <= c as u32 <= 57
}

/// The value of a digit string read in base 10.
pub open spec fn digits_val(s: Seq<char>) -> int
    decreases s.len(),
{
    if s.len() == 0 {
        0
    } else {
        digits_val(s.drop_last()) * 10 + (s.last() as u32 - 48)
    }
}

/// Every character is a decimal digit.
pub open spec fn all_digits(s: Seq<char>) -> bool {
    forall|k: int| 0 <= k < s.len() ==> is_digit(#[trigger] s[k])
}

/// The digit part of a numeric field: what follows an optional leading
/// '+'.
pub open spec fn digit_part(s: Seq<char>) -> Seq<char> {
    if s.len() > 0 && s[0] == '+' {
        s.drop_first()
    } else {
        s
    }
}

/// How the codec reads a numeric index field: one or more decimal
/// digits, optionally preceded by '+', whose value fits in a u32.
pub open spec fn index_field_val(s: Seq<char>) -> Option<u32> {
    let digits = digit_part(s);
    if digits.len() > 0 && all_digits(digits) && digits_val(digits) <= u32::MAX as int {
        Some(digits_val(digits) as u32)
    } else {
        None
    }
}

/// How the codec reads a completion-flag field: exactly "true" or
/// "false".
pub open spec fn done_field_val(s: Seq<char>) -> Option<bool> {
    if s == seq!['t', 'r', 'u', 'e'] {
        Some(true)
    } else if s == seq!['f', 'a', 'l', 's', 'e'] {
        Some(false)
    } else {
        None
    }
}

/// What one row of fields decodes to: exactly three fields — index,
/// text, flag — with index and flag in the formats above.
pub open spec fn row_val(row: Seq<Seq<char>>) -> Option<RecordModel> {
    if row.len() == 3 {
        match (index_field_val(row[0]), done_field_val(row[2])) {
            (Some(i), Some(d)) => Some(RecordModel { index: i as int, action: row[1], done: d }),
            _ => None,
        }
    } else {
        None
    }
}

/// Every row of the file decodes.
pub open spec fn rows_ok(rows: Seq<Seq<Seq<char>>>) -> bool {
    forall|k: int| 0 <= k < rows.len() ==> (#[trigger] row_val(rows[k])) is Some
}

/// What a whole file of rows decodes to; one bad row is fatal.
pub open spec fn rows_val(rows: Seq<Seq<Seq<char>>>) -> Option<Seq<RecordModel>> {
    if rows_ok(rows) {
        Some(
            Seq::new(
                rows.len(),
                |k: int|
                    match row_val(rows[k]) {
                        Some(r) => r,
                        None => RecordModel { index: 0, action: Seq::empty(), done: false },
                    },
            ),
        )
    } else {
        None
    }
}

/// The digit-string value is never negative.
proof fn lemma_digits_val_nonneg(s: Seq<char>)
    requires
        all_digits(s),
    ensures
        digits_val(s) >= 0,
    decreases s.len(),
{
    if s.len() > 0 {
        assert(is_digit(s[s.len() - 1]));
        assert(all_digits(s.drop_last())) by {
            assert forall|k: int|
                0 <= k < s.drop_last().len() implies is_digit(#[trigger] s.drop_last()[k]) by {
                assert(s.drop_last()[k] == s[k]);
            }
        }
        lemma_digits_val_nonneg(s.drop_last());
    }
}

/// Reading more digits can only grow the value.
proof fn lemma_digits_val_prefix(s: Seq<char>, j: int)
    requires
        all_digits(s),
        0 <= j <= s.len(),
    ensures
        digits_val(s.subrange(0, j)) <= digits_val(s),
    decreases s.len() - j,
{
    if j == s.len() {
        assert(s.subrange(0, j) =~= s);
    } else {
        assert(all_digits(s.subrange(0, j))) by {
            assert forall|k: int|
                0 <= k < s.subrange(0, j).len() implies is_digit(
                #[trigger] s.subrange(0, j)[k],
            ) by {
                assert(s.subrange(0, j)[k] == s[k]);
            }
        }
        lemma_digits_val_nonneg(s.subrange(0, j));
        assert(s.subrange(0, j + 1).drop_last() =~= s.subrange(0, j));
        assert(s.subrange(0, j + 1).last() == s[j]);
        assert(is_digit(s[j]));
        assert(digits_val(s.subrange(0, j + 1)) >= digits_val(s.subrange(0, j)));
        lemma_digits_val_prefix(s, j + 1);
    }
}

/// Reads a numeric index field: optional '+', then decimal digits whose
/// value fits in a u32; anything else is rejected.
pub fn parse_index_field(s: &String) -> (r: Option<u32>)
    ensures
        r == index_field_val(s@),
{
    let st: &str = s.as_str();
    let n = st.unicode_len();
    let plus = n > 0 && st.get_char(0) == '+';
    let start: usize = if plus {
        1
    } else {
        0
    };
    let ghost digits = digit_part(s@);
    proof {
        assert(digits =~= s@.subrange(start as int, n as int));
    }
    if start >= n {
        return None;
    }
    let mut acc: u64 = 0;
    let mut j: usize = start;
    while j < n
        invariant
            start <= j <= n,
            n == s@.len(),
            st@ == s@,
            start <= 1,
            digits == digit_part(s@),
            digits == s@.subrange(start as int, n as int),
            forall|k: int| 0 <= k < j - start ==> is_digit(#[trigger] digits[k]),
            acc as int == digits_val(digits.subrange(0, j - start)),
            acc <= u32::MAX as u64,
        decreases n - j,
    {
        let c = st.get_char(j);
        let v = c as u32;
        proof {
            assert(digits[j - start] == s@[j as int]);
        }
        if v < 48 || v > 57 {
            proof {
                assert(!all_digits(digits)) by {
                    assert(0 <= j - start < digits.len());
                    assert(!is_digit(digits[j - start]));
                }
            }
            return None;
        }
        proof {
            assert(digits.subrange(0, j - start + 1).drop_last() =~= digits.subrange(
                0,
                j - start,
            ));
            assert(digits.subrange(0, j - start + 1).last() == digits[j - start]);
        }
        acc = acc * 10 + ((v - 48) as u64);
        if acc > (u32::MAX as u64) {
            proof {
                let pre = digits.subrange(0, j - start + 1);
                assert(acc as int == digits_val(pre));
                if all_digits(digits) {
                    lemma_digits_val_prefix(digits, j - start + 1);
                    assert(digits_val(digits) > u32::MAX as int);
                }
                assert(index_field_val(s@) is None);
            }
            return None;
        }
        j = j + 1;
    }
    proof {
        assert(digits.subrange(0, digits.len() as int) =~= digits);
    }
    Some(acc as u32)
}

/// Reads a completion-flag field: exactly "true" or "false".
pub fn parse_done_field(s: &String) -> (r: Option<bool>)
    ensures
        r == done_field_val(s@),
{
    let st: &str = s.as_str();
    let n = st.unicode_len();
    if n == 4 {
        if st.get_char(0) == 't' && st.get_char(1) == 'r' && st.get_char(2) == 'u' && st.get_char(3)
            == 'e' {
            proof {
                assert(s@ =~= seq!['t', 'r', 'u', 'e']);
            }
            return Some(true);
        }
        proof {
            assert(s@ != seq!['t', 'r', 'u', 'e']) by {
                if s@ == seq!['t', 'r', 'u', 'e'] {
                    assert(s@[0] == 't' && s@[1] == 'r' && s@[2] == 'u' && s@[3] == 'e');
                }
            }
            assert(s@ != seq!['f', 'a', 'l', 's', 'e']);
        }
        return None;
    }
    if n == 5 {
        if st.get_char(0) == 'f' && st.get_char(1) == 'a' && st.get_char(2) == 'l' && st.get_char(3)
            == 's' && st.get_char(4) == 'e' {
            proof {
                assert(s@ =~= seq!['f', 'a', 'l', 's', 'e']);
            }
            return Some(false);
        }
        proof {
            assert(s@ != seq!['f', 'a', 'l', 's', 'e']) by {
                if s@ == seq!['f', 'a', 'l', 's', 'e'] {
                    assert(s@[0] == 'f' && s@[1] == 'a' && s@[2] == 'l' && s@[3] == 's' && s@[4]
                        == 'e');
                }
            }
            assert(s@ != seq!['t', 'r', 'u', 'e']);
        }
        return None;
    }
    proof {
        assert(s@.len() != 4 && s@.len() != 5);
        assert(s@ != seq!['t', 'r', 'u', 'e']);
        assert(s@ != seq!['f', 'a', 'l', 's', 'e']);
    }
    None
}

/// Decodes one row of fields into a record; any shape violation is the
/// malformed-record error.
pub fn decode_row(row: &Vec<String>) -> (r: Result<Record, StoreError>)
    ensures
        match r {
            Ok(rec) => row_val(row.deep_view()) == Some(rec@),
            Err(e) => row_val(row.deep_view()) is None && e == StoreError::MalformedRecord,
        },
{
    proof {
        assert forall|k: int|
            0 <= k < row@.len() implies #[trigger] row.deep_view()[k] == row@[k]@ by {}
    }
    if row.len() != 3 {
        return Err(StoreError::MalformedRecord);
    }
    let index = match parse_index_field(&row[0]) {
        Some(i) => i,
        None => {
            return Err(StoreError::MalformedRecord);
        },
    };
    let done = match parse_done_field(&row[2]) {
        Some(d) => d,
        None => {
            return Err(StoreError::MalformedRecord);
        },
    };
    Ok(Record { index, action: row[1].clone(), done })
}

/// Decodes the store's whole byte content into records, in file order.
/// A read error at the line level and a row that does not decode are
/// both the malformed-record error, surfaced at the first bad row with
/// no partial recovery.
pub fn decode_store(bytes: &Vec<u8>) -> (r: Result<Vec<Record>, StoreError>)
    ensures
        match r {
            Ok(recs) => (match csv_rows_of(bytes@) {
                Some(rows) => rows_val(rows) == Some(models(recs@)),
                None => false,
            }),
            Err(e) => e == StoreError::MalformedRecord && (match csv_rows_of(bytes@) {
                Some(rows) => rows_val(rows) is None,
                None => true,
            }),
        },
{
    let rows = match split_rows(bytes) {
        Some(rows) => rows,
        None => {
            return Err(StoreError::MalformedRecord);
        },
    };
    let ghost rv = rows.deep_view();
    let mut out: Vec<Record> = Vec::new();
    let mut j: usize = 0;
    while j < rows.len()
        invariant
            j <= rows@.len(),
            rv == rows.deep_view(),
            rv.len() == rows@.len(),
            csv_rows_of(bytes@) == Some(rv),
            out@.len() == j,
            forall|k: int| 0 <= k < j ==> row_val(rv[k]) == Some(#[trigger] models(out@)[k]),
        decreases rows@.len() - j,
    {
        proof {
            assert(rv[j as int] == rows@[j as int].deep_view());
        }
        let rec = match decode_row(&rows[j]) {
            Ok(rec) => rec,
            Err(_) => {
                proof {
                    assert(row_val(rv[j as int]) is None);
                    assert(!rows_ok(rv));
                }
                return Err(StoreError::MalformedRecord);
            },
        };
        let ghost prev = out@;
        out.push(rec);
        j = j + 1;
        proof {
            assert forall|k: int|
                0 <= k < j implies row_val(rv[k]) == Some(#[trigger] models(out@)[k]) by {
                assert(models(out@)[k] == out@[k]@);
                if k < j - 1 {
                    assert(out@[k] == prev[k]);
                    assert(models(prev)[k] == prev[k]@);
                }
            }
        }
    }
    proof {
        assert forall|k: int| 0 <= k < rv.len() implies (#[trigger] row_val(rv[k])) is Some by {
            assert(row_val(rv[k]) == Some(models(out@)[k]));
        }
        assert(rows_ok(rv));
        assert(rows_val(rv) matches Some(v) && v =~= models(out@));
    }
    Ok(out)
}

/// The byte content that encodes a whole sequence of records: one line
/// per record, in order.
pub open spec fn encode_spec(s: Seq<Record>) -> Seq<u8>
    decreases s.len(),
{
    if s.len() == 0 {
        Seq::empty()
    } else {
        encode_spec(s.drop_last()) + csv_line_of(
            s.last().index,
            s.last().action@,
            s.last().done,
        )
    }
}

/// Encodes the records as the store's full byte content, one line per
/// record in store order — what a rewrite writes to the fresh file and
/// an append adds at the end of the existing one.
pub fn encode_records(records: &Vec<Record>) -> (out: Vec<u8>)
    ensures
        out@ == encode_spec(records@),
{
    let mut out: Vec<u8> = Vec::new();
    let mut j: usize = 0;
    proof {
        assert(records@.take(0) =~= Seq::<Record>::empty());
        assert(out@ =~= encode_spec(records@.take(0)));
    }
    while j < records.len()
        invariant
            j <= records@.len(),
            out@ == encode_spec(records@.take(j as int)),
        decreases records@.len() - j,
    {
        let mut line = encode_record_line(&records[j]);
        proof {
            assert(records@.take(j as int + 1).drop_last() =~= records@.take(j as int));
            assert(records@.take(j as int + 1).last() == records@[j as int]);
        }
        out.append(&mut line);
        j = j + 1;
    }
    proof {
        assert(records@.take(records@.len() as int) =~= records@);
    }
    out
}

} // verus!
