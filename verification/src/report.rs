use crate::error::ContractError;
use vstd::prelude::*;
use vstd::string::*;

verus! {

/// Sum of column `j` of a matrix with `columns` columns, stored row after
/// row.
pub open spec fn column_sum(matrix: Seq<u8>, columns: int, j: int) -> int
    decreases matrix.len(),
{
    if columns <= 0 || matrix.len() < columns {
        0
    } else {
        column_sum(matrix.take(matrix.len() - columns), columns, j) + matrix[matrix.len()
            - columns + j]
    }
}

/// Whether `matrix` holds whole rows of `columns` indicator entries, each 0
/// or 1.
pub open spec fn is_indicator_matrix(matrix: Seq<u8>, columns: int) -> bool {
    &&& columns > 0
    &&& matrix.len() % (columns as nat) == 0
    &&& forall|i: int| 0 <= i < matrix.len() ==> #[trigger] matrix[i] <= 1
}

/// How often each class was predicted: the column sums of the matrix of
/// predictions, which holds one indicator row per observation.
///
/// Fails with `MalformedInput` unless the matrix holds whole rows of
/// `classes` entries, each 0 or 1.
pub fn class_frequencies(predictions: &Vec<u8>, classes: usize) -> (r: Result<
    Vec<u64>,
    ContractError,
>)
    ensures
        match r {
            Ok(frequencies) => {
                &&& is_indicator_matrix(predictions@, classes as int)
                &&& frequencies@.len() == classes
                &&& forall|j: int|
                    0 <= j < classes ==> #[trigger] frequencies@[j] == column_sum(
                        predictions@,
                        classes as int,
                        j,
                    )
            },
            Err(e) => !is_indicator_matrix(predictions@, classes as int) && e
                == ContractError::MalformedInput,
        },
{
    if classes == 0 || predictions.len() % classes != 0 {
        return Err(ContractError::MalformedInput);
    }
    let mut frequencies: Vec<u64> = Vec::new();
    let mut j: usize = 0;
    while j < classes
        invariant
            j <= classes,
            frequencies@.len() == j,
            forall|c: int| 0 <= c < j ==> #[trigger] frequencies@[c] == 0,
        decreases classes - j,
    {
        frequencies.push(0);
        j = j + 1;
    }
    let mut done: usize = 0;
    let ghost mut rows: int = 0;
    proof {
        assert(predictions@.take(0).len() == 0);
    }
    while done < predictions.len()
        invariant
            classes > 0,
            done <= predictions.len(),
            done == rows * classes,
            0 <= rows,
            predictions@.len() % (classes as nat) == 0,
            frequencies@.len() == classes,
            forall|i: int| 0 <= i < done ==> #[trigger] predictions@[i] <= 1,
            forall|c: int|
                0 <= c < classes ==> #[trigger] frequencies@[c] == column_sum(
                    predictions@.take(done as int),
                    classes as int,
                    c,
                ),
            forall|c: int| 0 <= c < classes ==> #[trigger] frequencies@[c] <= rows,
        decreases predictions.len() - done,
    {
        proof {
            lemma_whole_row_left(predictions@.len() as int, classes as int, rows);
        }
        let ghost next = predictions@.take(done + classes);
        proof {
            assert(next.take(next.len() - classes) == predictions@.take(done as int));
        }
        let mut c: usize = 0;
        while c < classes
            invariant
                c <= classes,
                classes > 0,
                done + classes <= predictions.len(),
                done == rows * classes,
                frequencies@.len() == classes,
                next == predictions@.take(done + classes),
                next.take(next.len() - classes) == predictions@.take(done as int),
                forall|i: int| 0 <= i < done + c ==> #[trigger] predictions@[i] <= 1,
                forall|b: int|
                    0 <= b < c ==> #[trigger] frequencies@[b] == column_sum(
                        next,
                        classes as int,
                        b,
                    ),
                forall|b: int|
                    c <= b < classes ==> #[trigger] frequencies@[b] == column_sum(
                        predictions@.take(done as int),
                        classes as int,
                        b,
                    ),
                forall|b: int| 0 <= b < c ==> #[trigger] frequencies@[b] <= rows + 1,
                forall|b: int| c <= b < classes ==> #[trigger] frequencies@[b] <= rows,
                rows < usize::MAX,
            decreases classes - c,
        {
            let entry: u8 = predictions[done + c];
            if entry > 1 {
                return Err(ContractError::MalformedInput);
            }
            let sum: u64 = frequencies[c] + entry as u64;
            frequencies.set(c, sum);
            c = c + 1;
        }
        proof {
            assert((rows + 1) * classes == rows * classes + classes) by (nonlinear_arith);
            rows = rows + 1;
        }
        done = done + classes;
    }
    proof {
        assert(predictions@.take(done as int) == predictions@);
    }
    Ok(frequencies)
}

/// Where whole rows are stored and `rows` of them are behind, either
/// nothing is left or a whole row is.
proof fn lemma_whole_row_left(len: int, columns: int, rows: int)
    requires
        columns > 0,
        0 <= rows,
        len % columns == 0,
        rows * columns < len,
    ensures
        rows * columns + columns <= len,
        rows < len,
{
    vstd::arithmetic::div_mod::lemma_fundamental_div_mod(len, columns);
    let total = len / columns;
    assert(len == columns * total);
    assert(rows < total) by (nonlinear_arith)
        requires
            rows * columns < columns * total,
            columns > 0,
    ;
    assert(rows * columns + columns <= columns * total) by (nonlinear_arith)
        requires
            rows + 1 <= total,
            columns > 0,
    ;
    assert(rows <= rows * columns) by (nonlinear_arith)
        requires
            rows >= 0,
            columns >= 1,
    ;
}

/// The character of a decimal digit.
pub open spec fn digit(d: int) -> char {
    if d == 0 {
        '0'
    } else if d == 1 {
        '1'
    } else if d == 2 {
        '2'
    } else if d == 3 {
        '3'
    } else if d == 4 {
        '4'
    } else if d == 5 {
        '5'
    } else if d == 6 {
        '6'
    } else if d == 7 {
        '7'
    } else if d == 8 {
        '8'
    } else {
        '9'
    }
}

/// A natural number in decimal, without leading zeros.
pub open spec fn decimal(n: nat) -> Seq<char>
    decreases n,
{
    if n < 10 {
        seq![digit(n as int)]
    } else {
        decimal(n / 10).push(digit((n % 10) as int))
    }
}

/// The report of the frequencies: for each class in ascending order, from
/// class 0, the text `Class <class>: <frequency>. `.
pub open spec fn frequency_report(frequencies: Seq<u64>) -> Seq<char>
    decreases frequencies.len(),
{
    if frequencies.len() == 0 {
        Seq::empty()
    } else {
        frequency_report(frequencies.drop_last()) + "Class "@ + decimal(
            (frequencies.len() - 1) as nat,
        ) + ": "@ + decimal(frequencies.last() as nat) + ". "@
    }
}

fn digit_text(d: u64) -> (text: &'static str)
    requires
        d < 10,
    ensures
        text@ == seq![digit(d as int)],
{
    proof {
        reveal_strlit("0");
        reveal_strlit("1");
        reveal_strlit("2");
        reveal_strlit("3");
        reveal_strlit("4");
        reveal_strlit("5");
        reveal_strlit("6");
        reveal_strlit("7");
        reveal_strlit("8");
        reveal_strlit("9");
    }
    let text = if d == 0 {
        "0"
    } else if d == 1 {
        "1"
    } else if d == 2 {
        "2"
    } else if d == 3 {
        "3"
    } else if d == 4 {
        "4"
    } else if d == 5 {
        "5"
    } else if d == 6 {
        "6"
    } else if d == 7 {
        "7"
    } else if d == 8 {
        "8"
    } else {
        "9"
    };
    assert(text@ =~= seq![digit(d as int)]);
    text
}

/// Appends `n` in decimal to `out`.
fn push_decimal(out: &mut String, n: u64)
    ensures
        final(out)@ == old(out)@ + decimal(n as nat),
    decreases n,
{
    if n >= 10 {
        push_decimal(out, n / 10);
    }
    out.append(digit_text(n % 10));
    proof {
        if n >= 10 {
            assert(old(out)@ + decimal((n / 10) as nat) + seq![digit((n % 10) as int)] =~= old(
                out,
            )@ + decimal(n as nat));
        }
    }
}

/// Renders the frequencies of the classes as text.
pub fn render_frequencies(frequencies: &Vec<u64>) -> (text: String)
    ensures
        text@ == frequency_report(frequencies@),
{
    let mut text = String::new();
    let mut class: usize = 0;
    while class < frequencies.len()
        invariant
            class <= frequencies.len(),
            text@ == frequency_report(frequencies@.take(class as int)),
        decreases frequencies.len() - class,
    {
        proof {
            assert(frequencies@.take(class + 1).drop_last() == frequencies@.take(class as int));
        }
        text.append("Class ");
        push_decimal(&mut text, class as u64);
        text.append(": ");
        push_decimal(&mut text, frequencies[class]);
        text.append(". ");
        class = class + 1;
    }
    proof {
        assert(frequencies@.take(class as int) == frequencies@);
    }
    text
}

} // verus!
