use vstd::prelude::*;
use vstd::string::{is_ascii_spec_bytes, StrSliceExecFns};
use vstd::utf8::is_ascii_chars;
use crate::error::ProfileError;
use crate::interval::{interval_views, GenomicInterval, IntervalView, Strand};

verus! {

/// The value of `c` as a digit in base `radix` (10 or 16), if it is one.
pub open spec fn digit_of(c: char, radix: int) -> Option<int> {
    if '0' <= c <= '9' {
        Some(c as int - '0' as int)
    } else if radix == 16 && 'a' <= c <= 'f' {
        Some(c as int - 'a' as int + 10)
    } else if radix == 16 && 'A' <= c <= 'F' {
        Some(c as int - 'A' as int + 10)
    } else {
        None
    }
}

/// Whether every character of `s` is a digit in base `radix`.
pub open spec fn all_digits(s: Seq<char>, radix: int) -> bool {
    forall|i: int| 0 <= i < s.len() ==> (#[trigger] digit_of(s[i], radix)) is Some
}

/// The number that the digits `s` write in base `radix`, most significant
/// digit first.
pub open spec fn number_of(s: Seq<char>, radix: int) -> int
    decreases s.len(),
{
    if s.len() == 0 {
        0
    } else {
        number_of(s.drop_last(), radix) * radix + digit_of(s.last(), radix).unwrap()
    }
}

/// The number that one or more digits write, when it fits 64 bits.
pub open spec fn written_by(digits: Seq<char>, radix: int) -> Option<u64> {
    if digits.len() > 0 && all_digits(digits, radix) && number_of(digits, radix) <= u64::MAX {
        Some(number_of(digits, radix) as u64)
    } else {
        None
    }
}

/// An unsigned number in base `radix`: an optional `+`, then one or more
/// digits whose value fits 64 bits.
pub open spec fn unsigned_of(s: Seq<char>, radix: int) -> Option<u64> {
    if s.len() > 0 && s[0] == '+' {
        written_by(s.subrange(1, s.len() as int), radix)
    } else {
        written_by(s, radix)
    }
}

/// The coordinate that a field writes: a decimal number, or after the prefix
/// `0x` a hexadecimal one.
pub open spec fn coordinate_of(s: Seq<char>) -> Option<u64> {
    if s.len() >= 2 && s[0] == '0' && s[1] == 'x' {
        unsigned_of(s.subrange(2, s.len() as int), 16)
    } else {
        unsigned_of(s, 10)
    }
}

proof fn lemma_number_grows(s: Seq<char>, radix: int, k: int)
    requires
        radix == 10 || radix == 16,
        all_digits(s, radix),
        0 <= k <= s.len(),
    ensures
        0 <= number_of(s.subrange(0, k), radix) <= number_of(s, radix),
    decreases s.len() - k,
{
    let head = s.subrange(0, k);
    if k == s.len() {
        assert(head =~= s);
        lemma_number_nonnegative(s, radix);
    } else {
        let next = s.subrange(0, k + 1);
        assert(next.drop_last() =~= head);
        assert(next.last() == s[k]);
        assert(digit_of(s[k], radix) is Some);
        assert forall|i: int| 0 <= i < head.len() implies (#[trigger] digit_of(head[i], radix)) is Some by {
            assert(head[i] == s[i]);
        }
        lemma_number_nonnegative(head, radix);
        assert(number_of(next, radix) >= number_of(head, radix)) by (nonlinear_arith)
            requires
                number_of(next, radix) == number_of(head, radix) * radix + digit_of(s[k], radix).unwrap(),
                number_of(head, radix) >= 0,
                radix >= 1,
                digit_of(s[k], radix).unwrap() >= 0,
        ;
        lemma_number_grows(s, radix, k + 1);
    }
}

proof fn lemma_number_nonnegative(s: Seq<char>, radix: int)
    requires
        radix == 10 || radix == 16,
        all_digits(s, radix),
    ensures
        0 <= number_of(s, radix),
    decreases s.len(),
{
    if s.len() > 0 {
        assert forall|i: int| 0 <= i < s.drop_last().len() implies (#[trigger] digit_of(s.drop_last()[i], radix)) is Some by {
            assert(s.drop_last()[i] == s[i]);
        }
        lemma_number_nonnegative(s.drop_last(), radix);
        assert(digit_of(s.last(), radix) is Some);
        assert(number_of(s.drop_last(), radix) * radix >= 0) by (nonlinear_arith)
            requires
                number_of(s.drop_last(), radix) >= 0,
                radix >= 1,
        ;
    }
}

/// The value of the ASCII byte `b` as a digit in base `radix`.
fn digit(b: u8, radix: u64) -> (value: Option<u64>)
    requires
        radix == 10 || radix == 16,
        b < 128,
    ensures
        match value {
            Some(d) => digit_of(b as char, radix as int) == Some(d as int) && d < radix,
            None => digit_of(b as char, radix as int) is None,
        },
{
    if 48 <= b && b <= 57 {
        Some((b - 48) as u64)
    } else if radix == 16 && 97 <= b && b <= 102 {
        Some((b - 97) as u64 + 10)
    } else if radix == 16 && 65 <= b && b <= 70 {
        Some((b - 65) as u64 + 10)
    } else {
        None
    }
}

proof fn lemma_coordinate_is_ascii(s: Seq<char>)
    ensures
        coordinate_of(s) is Some ==> is_ascii_chars(s),
{
    if coordinate_of(s) is Some {
        let hex = s.len() >= 2 && s[0] == '0' && s[1] == 'x';
        let body = if hex {
            s.subrange(2, s.len() as int)
        } else {
            s
        };
        let radix: int = if hex {
            16
        } else {
            10
        };
        let signed = body.len() > 0 && body[0] == '+';
        let digits = if signed {
            body.subrange(1, body.len() as int)
        } else {
            body
        };
        let off: int = (if hex {
            2int
        } else {
            0int
        }) + (if signed {
            1int
        } else {
            0int
        });
        assert(all_digits(digits, radix));
        assert forall|i: int| 0 <= i < s.len() implies '\0' <= #[trigger] s[i] <= '\u{7f}' by {
            if i >= off {
                assert(digits[i - off] == s[i]);
                assert(digit_of(digits[i - off], radix) is Some);
            } else if hex && i >= 2 {
                assert(body[0] == s[2]);
            }
        }
    }
}

/// Reads a coordinate: a decimal number, or a hexadecimal one after `0x`,
/// with an optional `+` before the digits. Anything else, and any number
/// beyond 64 bits, is no coordinate.
pub fn parse_coordinate(field: &str) -> (value: Option<u64>)
    ensures
        value == coordinate_of(field@),
{
    if !field.is_ascii() {
        proof {
            lemma_coordinate_is_ascii(field@);
        }
        return None;
    }
    let bytes = field.as_bytes();
    proof {
        is_ascii_spec_bytes(field);
    }
    let n = bytes.len();
    assert(n == field@.len());
    assert forall|i: int| 0 <= i < n implies bytes[i] < 128 && #[trigger] field@[i] == bytes[i] as char by {
        assert('\0' <= field@[i] <= '\u{7f}');
    }
    let hex = n >= 2 && bytes[0] == 48 && bytes[1] == 120;
    let radix: u64 = if hex {
        16
    } else {
        10
    };
    let mut at: usize = if hex {
        2
    } else {
        0
    };
    let ghost body = if hex {
        field@.subrange(2, n as int)
    } else {
        field@
    };
    assert(at < n ==> body[0] == field@[at as int]);
    if at < n && bytes[at] == 43 {
        at += 1;
    }
    let first = at;
    let ghost digits = field@.subrange(first as int, n as int);
    assert(digits =~= if body.len() > 0 && body[0] == '+' {
        body.subrange(1, body.len() as int)
    } else {
        body
    });
    assert(hex <==> (field@.len() >= 2 && field@[0] == '0' && field@[1] == 'x'));
    assert(coordinate_of(field@) == unsigned_of(body, radix as int));
    assert(coordinate_of(field@) == written_by(digits, radix as int));
    if at == n {
        return None;
    }
    let mut acc: u64 = 0;
    while at < n
        invariant
            first <= at <= n,
            coordinate_of(field@) == written_by(digits, radix as int),
            n == bytes.len(),
            n == field@.len(),
            radix == 10 || radix == 16,
            digits == field@.subrange(first as int, n as int),
            forall|i: int| 0 <= i < n ==> bytes[i] < 128 && #[trigger] field@[i] == bytes[i] as char,
            all_digits(digits.subrange(0, at - first), radix as int),
            acc == number_of(digits.subrange(0, at - first), radix as int),
        decreases n - at,
    {
        let ghost head = digits.subrange(0, at - first);
        let ghost next = digits.subrange(0, at - first + 1);
        assert(next.drop_last() =~= head);
        assert(next.last() == digits[at - first]);
        assert(digits[at - first] == field@[at as int]);
        match digit(bytes[at], radix) {
            None => {
                assert(digit_of(digits[at - first], radix as int) is None);
                return None;
            },
            Some(d) => {
                assert(number_of(next, radix as int) == acc * radix + d);
                assert forall|i: int| 0 <= i < next.len() implies (#[trigger] digit_of(next[i], radix as int)) is Some by {
                    if i < head.len() {
                        assert(next[i] == head[i]);
                    }
                }
                proof {
                    if all_digits(digits, radix as int) {
                        lemma_number_grows(digits, radix as int, at - first + 1);
                    }
                }
                match acc.checked_mul(radix) {
                    None => {
                        return None;
                    },
                    Some(scaled) => {
                        match scaled.checked_add(d) {
                            None => {
                                return None;
                            },
                            Some(sum) => {
                                acc = sum;
                            },
                        }
                    },
                }
            },
        }
        at += 1;
    }
    assert(digits.subrange(0, n - first) =~= digits);
    Some(acc)
}

/// The strand that a field writes: `+` is forward, `-` is reverse, and any
/// other single character, `.` among them, leaves the strand unknown. A field
/// that is not exactly one character long writes none.
pub open spec fn strand_of(s: Seq<char>) -> Option<Strand> {
    if s.len() != 1 {
        None
    } else if s[0] == '+' {
        Some(Strand::Forward)
    } else if s[0] == '-' {
        Some(Strand::Reverse)
    } else {
        Some(Strand::Unknown)
    }
}

/// Reads a strand from a field of exactly one character.
pub fn parse_strand(field: &str) -> (strand: Option<Strand>)
    ensures
        strand == strand_of(field@),
{
    if field.unicode_len() != 1 {
        return None;
    }
    let c = field.get_char(0);
    if c == '+' {
        Some(Strand::Forward)
    } else if c == '-' {
        Some(Strand::Reverse)
    } else {
        Some(Strand::Unknown)
    }
}

/// The fields of a record, each as its characters.
pub open spec fn fields_view(fields: Seq<String>) -> Seq<Seq<char>> {
    Seq::new(fields.len(), |k: int| fields[k]@)
}

/// The records of a file, each as its fields.
pub open spec fn rows_view(rows: Seq<Vec<String>>) -> Seq<Seq<Seq<char>>> {
    Seq::new(rows.len(), |i: int| fields_view(rows[i]@))
}

/// The strand column of a record: the sixth, where there is one.
pub open spec fn strand_field(fields: Seq<Seq<char>>) -> Option<Strand> {
    if fields.len() > 5 {
        strand_of(fields[5])
    } else {
        Some(Strand::Unknown)
    }
}

/// The interval that a record writes. Its first three fields are the
/// chromosome, the start and the end; a sixth field, where present, is the
/// strand. A record with fewer than three fields, with a start or end that
/// is no coordinate, with a start beyond its end, or with a strand field that
/// is not one character, writes none.
pub open spec fn interval_of_fields(fields: Seq<Seq<char>>) -> Option<IntervalView> {
    if fields.len() < 3 {
        None
    } else {
        match (coordinate_of(fields[1]), coordinate_of(fields[2]), strand_field(fields)) {
            (Some(start), Some(end), Some(strand)) => if start <= end {
                Some(IntervalView { chrom: fields[0], start, end, strand })
            } else {
                None
            },
            _ => None,
        }
    }
}

/// The intervals that the records of a file write, in their order, when
/// every record writes one.
pub open spec fn intervals_of_rows(rows: Seq<Seq<Seq<char>>>) -> Option<Seq<IntervalView>> {
    if forall|i: int| 0 <= i < rows.len() ==> (#[trigger] interval_of_fields(rows[i])) is Some {
        Some(Seq::new(rows.len(), |i: int| interval_of_fields(rows[i]).unwrap()))
    } else {
        None
    }
}

/// Reads one record into an interval.
pub fn interval_from_fields(fields: &Vec<String>) -> (interval: Result<GenomicInterval, ProfileError>)
    ensures
        match interval {
            Ok(made) => interval_of_fields(fields_view(fields@)) == Some(made@),
            Err(e) => e == ProfileError::ParseError && interval_of_fields(fields_view(fields@)) is None,
        },
{
    if fields.len() < 3 {
        return Err(ProfileError::ParseError);
    }
    let start = match parse_coordinate(fields[1].as_str()) {
        Some(start) => start,
        None => {
            return Err(ProfileError::ParseError);
        },
    };
    let end = match parse_coordinate(fields[2].as_str()) {
        Some(end) => end,
        None => {
            return Err(ProfileError::ParseError);
        },
    };
    let strand = if fields.len() > 5 {
        match parse_strand(fields[5].as_str()) {
            Some(strand) => strand,
            None => {
                return Err(ProfileError::ParseError);
            },
        }
    } else {
        Strand::Unknown
    };
    match GenomicInterval::new(fields[0].clone(), start, end, strand) {
        Some(made) => Ok(made),
        None => Err(ProfileError::ParseError),
    }
}

/// Reads the records of a file into intervals, in their order. One record
/// that writes no interval fails the whole file.
pub fn intervals_from_rows(rows: &Vec<Vec<String>>) -> (intervals: Result<Vec<GenomicInterval>, ProfileError>)
    ensures
        match intervals {
            Ok(made) => intervals_of_rows(rows_view(rows@)) == Some(interval_views(made@)),
            Err(e) => e == ProfileError::ParseError && intervals_of_rows(rows_view(rows@)) is None,
        },
{
    let mut made: Vec<GenomicInterval> = Vec::new();
    let mut i: usize = 0;
    while i < rows.len()
        invariant
            i <= rows.len(),
            made.len() == i,
            forall|k: int| 0 <= k < i ==> interval_of_fields(#[trigger] rows_view(rows@)[k]) == Some(made[k]@),
        decreases rows.len() - i,
    {
        assert(rows_view(rows@)[i as int] == fields_view(rows[i as int]@));
        match interval_from_fields(&rows[i]) {
            Ok(interval) => {
                made.push(interval);
            },
            Err(e) => {
                return Err(e);
            },
        }
        i += 1;
    }
    assert(interval_views(made@) =~= Seq::new(rows.len() as nat, |i: int| interval_of_fields(rows_view(rows@)[i]).unwrap()));
    Ok(made)
}

/// `csv::Error`, the error of the `csv` reader. Nothing is known of what it
/// holds; it is only told apart from success.
#[verifier::external_type_specification]
#[verifier::external_body]
pub struct ExCsvError(csv::Error);

/// The records that the `csv` crate reads from tab-separated `data` without
/// a header line, each as its fields, when it reads all of them without an
/// error.
pub uninterp spec fn tsv_rows(data: Seq<u8>) -> Option<Seq<Seq<Seq<char>>>>;

/// `csv::Reader::records` on a reader made by `csv::ReaderBuilder` with a tab
/// as delimiter and no header line: every record with its fields in order,
/// or the first error of the reader.
#[verifier::external_body]
fn read_rows(data: &[u8]) -> (rows: Result<Vec<Vec<String>>, csv::Error>)
    ensures
        tsv_rows(data@) == match rows {
            Ok(read) => Some(rows_view(read@)),
            Err(_) => None,
        },
{
    let mut reader = csv::ReaderBuilder::new().delimiter(b'\t').has_headers(false).from_reader(data);
    reader.records().map(|record| record.map(|fields| fields.iter().map(String::from).collect())).collect()
}

/// The intervals that a tab-separated file writes, when the file can be read
/// and every record writes an interval.
pub open spec fn intervals_of_bytes(data: Seq<u8>) -> Option<Seq<IntervalView>> {
    match tsv_rows(data) {
        Some(rows) => intervals_of_rows(rows),
        None => None,
    }
}

/// Reads the intervals of a tab-separated file from its bytes.
pub fn parse_intervals(data: &[u8]) -> (intervals: Result<Vec<GenomicInterval>, ProfileError>)
    ensures
        match intervals {
            Ok(made) => intervals_of_bytes(data@) == Some(interval_views(made@)),
            Err(e) => e == ProfileError::ParseError && intervals_of_bytes(data@) is None,
        },
{
    match read_rows(data) {
        Ok(rows) => intervals_from_rows(&rows),
        Err(_) => Err(ProfileError::ParseError),
    }
}

/// The number of intervals that a tab-separated file holds, when it holds
/// nothing else.
pub open spec fn interval_count(data: Seq<u8>) -> Option<nat> {
    match intervals_of_bytes(data) {
        Some(intervals) => Some(intervals.len()),
        None => None,
    }
}

/// Counts the intervals of a tab-separated file. The records are counted as
/// the reader finds them: a last record without a line feed counts, blank
/// lines do not. A file that cannot be read, or that holds a record which
/// writes no interval, has no count and gives `ParseError`.
pub fn count_lines(data: &[u8]) -> (count: Result<usize, ProfileError>)
    ensures
        match count {
            Ok(n) => interval_count(data@) == Some(n as nat),
            Err(e) => e == ProfileError::ParseError && interval_count(data@) is None,
        },
{
    match parse_intervals(data) {
        Ok(intervals) => Ok(intervals.len()),
        Err(e) => Err(e),
    }
}

} // verus!
