//! Reading one row of clustering data: the cluster labels of the cells at one resolution.

use crate::data::{is_grouping, CellSample, ResolutionData};
use vstd::prelude::*;
use vstd::string::*;

verus! {

/// The ways in which a row of clustering data can be refused.
#[derive(Clone, Copy, Debug, PartialEq, Eq, Structural)]
pub enum InputError {
    /// The cluster label in the given column is no number. Columns count from one, after
    /// the column of the resolution.
    InvalidClusterLabel { column: usize },
    /// The row holds no cluster label at all.
    NoCellData,
}

/// Whether the character is a decimal digit.
pub open spec fn is_digit(character: char) -> bool {
    '0' <= character <= '9'
}

/// The number that a decimal digit stands for.
pub open spec fn digit_value(character: char) -> nat {
    (character as u32 - '0' as u32) as nat
}

/// The number that a sequence of decimal digits stands for.
pub open spec fn digits_value(digits: Seq<char>) -> nat
    decreases digits.len(),
{
    if digits.len() == 0 {
        0
    } else {
        10 * digits_value(digits.drop_last()) + digit_value(digits.last())
    }
}

/// The digits of a label: the label without a plus sign at its start.
pub open spec fn label_digits(text: Seq<char>) -> Seq<char> {
    if text.len() > 0 && text[0] == '+' {
        text.drop_first()
    } else {
        text
    }
}

/// The cluster that a label names: the label is an optional plus sign and then at least one
/// decimal digit and nothing else, and its number fits a machine integer.
pub open spec fn label_value(text: Seq<char>) -> Option<usize> {
    let digits = label_digits(text);
    if digits.len() > 0 && (forall|i: int| 0 <= i < digits.len() ==> is_digit(digits[i]))
        && digits_value(digits) <= usize::MAX {
        Some(digits_value(digits) as usize)
    } else {
        None
    }
}

/// The number of the first digits of a sequence is at most the number of the sequence.
pub proof fn lemma_digits_value_grows(digits: Seq<char>, count: int)
    requires
        0 <= count <= digits.len(),
    ensures
        digits_value(digits.take(count)) <= digits_value(digits),
    decreases digits.len(),
{
    if count < digits.len() {
        lemma_digits_value_grows(digits.drop_last(), count);
        assert(digits.drop_last().take(count) =~= digits.take(count));
    } else {
        assert(digits.take(count) =~= digits);
    }
}

/// Returns the cluster that a label names, if it names one.
pub fn parse_cluster_label(text: &str) -> (value: Option<usize>)
    ensures
        value == label_value(text@),
{
    let length = text.unicode_len();
    let start: usize = if length > 0 && text.get_char(0) == '+' {
        1
    } else {
        0
    };
    let ghost digits = label_digits(text@);
    assert(digits =~= text@.subrange(start as int, length as int));
    if start == length {
        return None;
    }
    let mut value: usize = 0;
    let mut position: usize = start;
    assert(digits.take(0) =~= Seq::<char>::empty());
    while position < length
        invariant
            start <= position <= length,
            length == text@.len(),
            digits == text@.subrange(start as int, length as int),
            digits == label_digits(text@),
            digits.len() > 0,
            forall|i: int| 0 <= i < position - start ==> is_digit(digits[i]),
            value == digits_value(digits.take(position - start)),
        decreases length - position,
    {
        let character = text.get_char(position);
        assert(character == digits[position - start]);
        if character < '0' || character > '9' {
            return None;
        }
        let digit = (character as u32 - '0' as u32) as usize;
        proof {
            let longer = digits.take(position - start + 1);
            assert(longer.drop_last() =~= digits.take(position - start));
            assert(longer.last() == character);
            lemma_digits_value_grows(digits, position - start + 1);
        }
        if value > (usize::MAX - digit) / 10 {
            return None;
        }
        value = value * 10 + digit;
        position = position + 1;
    }
    assert(digits.take(position - start) =~= digits);
    Some(value)
}

/// Whether every label of the row names a cluster.
pub open spec fn all_labels_valid(labels: Seq<String>) -> bool {
    forall|i: int| 0 <= i < labels.len() ==> label_value(labels[i]@) is Some
}

/// The cells of a row: the cell of each column, numbered from one, with the cluster that
/// its label names.
pub open spec fn row_cells(labels: Seq<String>) -> Seq<CellSample> {
    Seq::new(
        labels.len(),
        |i: int| CellSample { id: (i + 1) as usize, cluster: label_value(labels[i]@)->Some_0 },
    )
}

/// Reads the clustering of one row of data from the resolution of the row and the cluster
/// labels of its cells. Fails with the first column whose label names no cluster, or, if
/// there is no such column, if the row has no cells.
pub fn row_to_resolution_data(resolution: u64, labels: &[String]) -> (result: Result<
    ResolutionData,
    InputError,
>)
    ensures
        all_labels_valid(labels@) && labels@.len() > 0 <==> result is Ok,
        result is Ok ==> result->Ok_0@.resolution == resolution && is_grouping(
            row_cells(labels@),
            result->Ok_0@.clusters,
        ),
        all_labels_valid(labels@) && labels@.len() == 0 ==> result == Err::<
            ResolutionData,
            InputError,
        >(InputError::NoCellData),
        !all_labels_valid(labels@) ==> exists|i: int|
            0 <= i < labels@.len() && label_value(labels@[i]@) is None && (forall|j: int|
                0 <= j < i ==> label_value(labels@[j]@) is Some) && result == Err::<
                ResolutionData,
                InputError,
            >(InputError::InvalidClusterLabel { column: (i + 1) as usize }),
{
    let mut cells: Vec<CellSample> = Vec::new();
    let mut column: usize = 0;
    while column < labels.len()
        invariant
            column <= labels.len(),
            cells.len() == column,
            forall|j: int| 0 <= j < column ==> label_value(labels@[j]@) is Some,
            forall|j: int| 0 <= j < column ==> cells[j] == row_cells(labels@)[j],
        decreases labels.len() - column,
    {
        let cluster = match parse_cluster_label(labels[column].as_str()) {
            Some(cluster) => cluster,
            None => {
                return Err(InputError::InvalidClusterLabel { column: column + 1 });
            },
        };
        cells.push(CellSample::new(column + 1, cluster));
        column = column + 1;
    }
    assert(cells@ =~= row_cells(labels@));
    if cells.len() == 0 {
        Err(InputError::NoCellData)
    } else {
        Ok(ResolutionData::new(resolution, cells.as_slice()))
    }
}

} // verus!
