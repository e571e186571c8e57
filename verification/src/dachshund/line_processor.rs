//! Reads edge rows from lines of text.

use vstd::prelude::*;
use crate::dachshund::error::{CLQError, CLQResult};
use crate::dachshund::transformer_base::EdgeRow;

verus! {

/// The byte that parts two fields of a line.
pub const TAB: u8 = 9;

/// The largest amount a negative 64-bit number can have.
pub const MAX_AMOUNT: u64 = 0x8000_0000_0000_0000;

/// Whether the byte is one of `0` to `9`.
pub open spec fn is_digit(b: u8) -> bool {
    48 <= b <= 57
}

/// Whether every byte is a digit.
pub open spec fn all_digits(s: Seq<u8>) -> bool {
    forall|i: int| 0 <= i < s.len() ==> is_digit(#[trigger] s[i])
}

/// The number that the digits spell, most significant first.
pub open spec fn digits_value(s: Seq<u8>) -> nat
    decreases s.len(),
{
    if s.len() == 0 {
        0
    } else {
        (digits_value(s.drop_last()) * 10 + (s.last() - 48)) as nat
    }
}

/// The number that a field spells: digits, at least one, behind at most one
/// sign. There is none where the field is anything else, or where the number
/// does not fit in 64 bits.
pub open spec fn number_of(s: Seq<u8>) -> Option<i64> {
    let signed = s.len() > 0 && (s[0] == 45 || s[0] == 43);
    let body = if signed {
        s.subrange(1, s.len() as int)
    } else {
        s
    };
    let amount = digits_value(body);
    let value = if s.len() > 0 && s[0] == 45 {
        -amount
    } else {
        amount as int
    };
    if body.len() > 0 && all_digits(body) && i64::MIN <= value <= i64::MAX {
        Some(value as i64)
    } else {
        None
    }
}

/// Where the field that starts at `from` ends: at the next tab, or at the
/// end of the line.
pub open spec fn field_end(s: Seq<u8>, from: int) -> int
    decreases s.len() - from,
{
    if from >= s.len() || s[from] == TAB {
        from
    } else {
        field_end(s, from + 1)
    }
}

/// Whether nothing stands on the line but blanks, tabs and carriage returns.
pub open spec fn is_blank(s: Seq<u8>) -> bool {
    forall|i: int| 0 <= i < s.len() ==> (#[trigger] s[i]) == 32 || s[i] == TAB || s[i] == 13
}

/// The row that a line spells: its first three fields are the graph and the
/// two ends of an edge. More fields may follow. There is none where a field
/// is missing or is no number.
pub open spec fn row_of(s: Seq<u8>) -> Option<EdgeRow> {
    let first = field_end(s, 0);
    let second = field_end(s, first + 1);
    let third = field_end(s, second + 1);
    if first < s.len() && second < s.len() {
        match (
            number_of(s.subrange(0, first)),
            number_of(s.subrange(first + 1, second)),
            number_of(s.subrange(second + 1, third)),
        ) {
            (Some(g), Some(u), Some(v)) => Some(EdgeRow { graph_id: g, source_id: u, target_id: v }),
            _ => None,
        }
    } else {
        None
    }
}

/// Whether the line is neither blank nor a row.
pub open spec fn is_malformed(s: Seq<u8>) -> bool {
    !is_blank(s) && row_of(s) is None
}

/// The rows that the lines spell, in order; blank and malformed lines give
/// none.
pub open spec fn rows_of(lines: Seq<Vec<u8>>) -> Seq<EdgeRow>
    decreases lines.len(),
{
    if lines.len() == 0 {
        Seq::empty()
    } else if !is_blank(lines.last()@) && row_of(lines.last()@) is Some {
        rows_of(lines.drop_last()).push(row_of(lines.last()@).unwrap())
    } else {
        rows_of(lines.drop_last())
    }
}

/// Finds where the field that starts at `from` ends.
pub fn find_field_end(line: &[u8], from: usize) -> (r: usize)
    requires
        from <= line.len(),
    ensures
        r == field_end(line@, from as int),
        from <= r <= line.len(),
{
    let mut i: usize = from;
    while i < line.len() && line[i] != TAB
        invariant
            from <= i <= line.len(),
            field_end(line@, from as int) == field_end(line@, i as int),
        decreases line.len() - i,
    {
        i += 1;
    }
    i
}

/// Reads the number that the bytes from `start` up to `end` spell.
pub fn parse_number(line: &[u8], start: usize, end: usize) -> (r: Option<i64>)
    requires
        start <= end <= line.len(),
    ensures
        r == number_of(line@.subrange(start as int, end as int)),
{
    let ghost s = line@.subrange(start as int, end as int);
    if start == end {
        return None;
    }
    assert(s[0] == line@[start as int]);
    let negative: bool = line[start] == 45;
    let signed: bool = negative || line[start] == 43;
    let first: usize = if signed {
        start + 1
    } else {
        start
    };
    let ghost body = line@.subrange(first as int, end as int);
    assert(body =~= if signed {
        s.subrange(1, s.len() as int)
    } else {
        s
    });
    if first == end {
        return None;
    }
    let mut amount: u64 = 0;
    let mut over: bool = false;
    let mut i: usize = first;
    assert(body.subrange(0, 0) =~= Seq::<u8>::empty());
    while i < end
        invariant
            first <= i <= end <= line.len(),
            body == line@.subrange(first as int, end as int),
            s == line@.subrange(start as int, end as int),
            s.len() > 0,
            signed == (s[0] == 45 || s[0] == 43),
            body == if signed {
                s.subrange(1, s.len() as int)
            } else {
                s
            },
            all_digits(body.subrange(0, i - first)),
            !over ==> amount == digits_value(body.subrange(0, i - first)) && amount <= MAX_AMOUNT,
            over ==> digits_value(body.subrange(0, i - first)) > MAX_AMOUNT,
        decreases end - i,
    {
        let b: u8 = line[i];
        let ghost before = body.subrange(0, i - first);
        let ghost after = body.subrange(0, i - first + 1);
        assert(after.drop_last() =~= before);
        assert(after.last() == b);
        if b < 48 || b > 57 {
            assert(body[i - first] == b);
            assert(!all_digits(body));
            return None;
        }
        assert forall|j: int| 0 <= j < after.len() implies is_digit(#[trigger] after[j]) by {
            if j < before.len() {
                assert(after[j] == before[j]);
            }
        }
        let d: u64 = (b - 48) as u64;
        if !over {
            if amount > (MAX_AMOUNT - d) / 10 {
                over = true;
            } else {
                amount = amount * 10 + d;
            }
        }
        i += 1;
    }
    assert(body.subrange(0, end - first) =~= body);
    if over {
        return None;
    }
    if negative {
        if amount == MAX_AMOUNT {
            Some(i64::MIN)
        } else {
            let value: i64 = amount as i64;
            Some(-value)
        }
    } else if amount == MAX_AMOUNT {
        None
    } else {
        Some(amount as i64)
    }
}

/// Tells whether nothing stands on the line but blanks, tabs and carriage
/// returns.
pub fn check_blank(line: &[u8]) -> (r: bool)
    ensures
        r == is_blank(line@),
{
    let mut i: usize = 0;
    while i < line.len()
        invariant
            i <= line.len(),
            forall|j: int| 0 <= j < i ==> (#[trigger] line@[j]) == 32 || line@[j] == TAB || line@[j] == 13,
        decreases line.len() - i,
    {
        if line[i] != 32 && line[i] != TAB && line[i] != 13 {
            return false;
        }
        i += 1;
    }
    true
}

/// Reads one line: no row where it is blank, the row that it spells where it
/// spells one, and a parse error otherwise.
pub fn parse_row(line: &[u8]) -> (r: CLQResult<Option<EdgeRow>>)
    ensures
        is_blank(line@) ==> r == Ok::<Option<EdgeRow>, CLQError>(None),
        !is_blank(line@) && row_of(line@) is Some ==> r == Ok::<Option<EdgeRow>, CLQError>(row_of(line@)),
        is_malformed(line@) ==> r is Err && r->Err_0 is ParseError,
{
    if check_blank(line) {
        return Ok(None);
    }
    let first: usize = find_field_end(line, 0);
    if first >= line.len() {
        return Err(CLQError::ParseError("a row needs three fields".to_owned()));
    }
    let second: usize = find_field_end(line, first + 1);
    if second >= line.len() {
        return Err(CLQError::ParseError("a row needs three fields".to_owned()));
    }
    let third: usize = find_field_end(line, second + 1);
    let graph: Option<i64> = parse_number(line, 0, first);
    let source: Option<i64> = parse_number(line, first + 1, second);
    let target: Option<i64> = parse_number(line, second + 1, third);
    match (graph, source, target) {
        (Some(g), Some(u), Some(v)) => Ok(Some(EdgeRow { graph_id: g, source_id: u, target_id: v })),
        _ => Err(CLQError::ParseError("a field is no 64-bit integer".to_owned())),
    }
}

/// Reads the lines into rows. Blank lines give no row. A malformed line
/// fails the run, unless `skip_malformed` says to pass over such lines.
pub fn parse_rows(lines: &Vec<Vec<u8>>, skip_malformed: bool) -> (r: CLQResult<Vec<EdgeRow>>)
    ensures
        r is Ok <==> skip_malformed || forall|i: int|
            0 <= i < lines@.len() ==> !is_malformed(#[trigger] lines@[i]@),
        r is Ok ==> r->Ok_0@ == rows_of(lines@),
        r is Err ==> r->Err_0 is ParseError,
{
    let mut rows: Vec<EdgeRow> = Vec::new();
    let mut i: usize = 0;
    assert(lines@.subrange(0, 0) =~= Seq::<Vec<u8>>::empty());
    while i < lines.len()
        invariant
            i <= lines.len(),
            rows@ == rows_of(lines@.subrange(0, i as int)),
            skip_malformed || forall|j: int| 0 <= j < i ==> !is_malformed(#[trigger] lines@[j]@),
        decreases lines.len() - i,
    {
        let ghost upto = lines@.subrange(0, i + 1);
        assert(upto.drop_last() =~= lines@.subrange(0, i as int));
        assert(upto.last() == lines@[i as int]);
        match parse_row(lines[i].as_slice()) {
            Ok(Some(row)) => {
                rows.push(row);
            },
            Ok(None) => {},
            Err(e) => {
                if !skip_malformed {
                    return Err(e);
                }
            },
        }
        i += 1;
    }
    assert(lines@.subrange(0, lines.len() as int) =~= lines@);
    Ok(rows)
}

} // verus!
