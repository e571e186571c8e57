//! Edge rows as text.

use vstd::prelude::*;
use vstd::string::StringExecFns;

verus! {

/// The character that stands for the digit `d`.
pub open spec fn digit(d: int) -> char {
    if d == 0 {
        '0'
    } else if d == 1 {
        '1'
    } else if d == 2 {
        '2'
    } else if d == 3 {
        '3'
    } else if d == 4 {
        '4'
    } else if d == 5 {
        '5'
    } else if d == 6 {
        '6'
    } else if d == 7 {
        '7'
    } else if d == 8 {
        '8'
    } else {
        '9'
    }
}

/// The decimal digits of `n`, most significant first, without leading zeros.
pub open spec fn decimal(n: nat) -> Seq<char>
    decreases n,
{
    if n < 10 {
        seq![digit(n as int)]
    } else {
        decimal(n / 10).push(digit((n % 10) as int))
    }
}

/// The decimal digits of `n`, behind a minus sign where `n` is negative.
pub open spec fn signed_decimal(n: int) -> Seq<char> {
    if n < 0 {
        seq!['-'] + decimal((-n) as nat)
    } else {
        decimal(n as nat)
    }
}

/// One edge row as text: the graph's number and the two ends of the edge in
/// decimal, with a tab between each two.
pub open spec fn row_text(graph_id: usize, row: (i64, i64)) -> Seq<char> {
    decimal(graph_id as nat) + seq!['\t'] + signed_decimal(row.0 as int) + seq!['\t']
        + signed_decimal(row.1 as int)
}

/// The rows as text, one per line, with no line break after the last.
pub open spec fn rows_text(graph_id: usize, rows: Seq<(i64, i64)>) -> Seq<char>
    decreases rows.len(),
{
    if rows.len() == 0 {
        Seq::empty()
    } else if rows.len() == 1 {
        row_text(graph_id, rows[0])
    } else {
        rows_text(graph_id, rows.drop_last()) + seq!['\n'] + row_text(graph_id, rows.last())
    }
}

/// Calls `format!` with three integers and tabs between them. Not proved:
/// that an unsigned integer is shown as its decimal digits without leading
/// zeros, and a signed one likewise with a minus sign in front where it is
/// negative.
#[verifier::external_body]
pub(crate) fn format_row(graph_id: usize, source: i64, target: i64) -> (r: String)
    ensures
        r@ == row_text(graph_id, (source, target)),
{
    format!("{}\t{}\t{}", graph_id, source, target)
}

/// Writes the rows as text, one per line.
pub fn render_rows(graph_id: usize, rows: &Vec<(i64, i64)>) -> (r: String)
    ensures
        r@ == rows_text(graph_id, rows@),
{
    let mut out: String = String::new();
    let mut i: usize = 0;
    while i < rows.len()
        invariant
            i <= rows.len(),
            out@ == rows_text(graph_id, rows@.subrange(0, i as int)),
        decreases rows.len() - i,
    {
        let line: String = format_row(graph_id, rows[i].0, rows[i].1);
        proof {
            reveal_strlit("\n");
            assert(rows@.subrange(0, i + 1).drop_last() =~= rows@.subrange(0, i as int));
            assert("\n"@ =~= seq!['\n']);
        }
        if i > 0 {
            out.append("\n");
        }
        out.append(line.as_str());
        i += 1;
    }
    assert(rows@.subrange(0, rows.len() as int) =~= rows@);
    out
}

} // verus!
