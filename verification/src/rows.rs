//! Rows of delimited text: the fields of a row and the choice of the two that
//! hold a point's coordinates.
use vstd::prelude::*;
use vstd::slice::slice_subrange;

verus! {

/// The byte that separates the fields of a row: a comma.
pub const DELIMITER: u8 = 44;

/// The fields of `row`: the runs of bytes between its delimiters. A row
/// without a delimiter is one field; an empty row is one empty field.
pub open spec fn fields(row: Seq<u8>) -> Seq<Seq<u8>>
    decreases row.len(),
{
    if row.len() == 0 {
        seq![Seq::<u8>::empty()]
    } else {
        let before = fields(row.drop_last());
        if row.last() == DELIMITER {
            before.push(Seq::<u8>::empty())
        } else {
            before.update(before.len() - 1, before.last().push(row.last()))
        }
    }
}

/// Whether the fields at `index_x` and `index_y` can be taken from `row` as
/// the coordinates of a point: the row has exactly `n` fields, and the two
/// indices differ and are below `n`.
pub open spec fn selects(row: Seq<u8>, n: usize, index_x: usize, index_y: usize) -> bool {
    &&& fields(row).len() == n
    &&& index_x != index_y
    &&& index_x < n
    &&& index_y < n
}

/// A row has at least one field, and no more fields than bytes plus one.
pub proof fn lemma_fields_len(row: Seq<u8>)
    ensures
        1 <= fields(row).len() <= row.len() + 1,
    decreases row.len(),
{
    if row.len() > 0 {
        lemma_fields_len(row.drop_last());
    }
}

/// No field holds a delimiter.
pub proof fn lemma_fields_hold_no_delimiter(row: Seq<u8>, f: int, i: int)
    requires
        0 <= f < fields(row).len(),
        0 <= i < fields(row)[f].len(),
    ensures
        fields(row)[f][i] != DELIMITER,
    decreases row.len(),
{
    if row.len() > 0 {
        let before = fields(row.drop_last());
        lemma_fields_len(row.drop_last());
        if row.last() == DELIMITER {
            lemma_fields_hold_no_delimiter(row.drop_last(), f, i);
        } else if f < before.len() - 1 {
            lemma_fields_hold_no_delimiter(row.drop_last(), f, i);
        } else if i < before.last().len() {
            lemma_fields_hold_no_delimiter(row.drop_last(), f, i);
        }
    }
}

/// Takes from `row` the text of the two fields that hold the coordinates of
/// a point, or nothing where the row does not have `n` fields or the indices
/// do not name two different fields of it.
pub fn row_to_point<'a>(row: &'a [u8], n: usize, index_x: usize, index_y: usize) -> (res: Option<
    (&'a [u8], &'a [u8]),
>)
    ensures
        res is Some <==> selects(row@, n, index_x, index_y),
        res matches Some((x, y)) ==> x@ == fields(row@)[index_x as int] && y@ == fields(
            row@,
        )[index_y as int],
{
    let len: usize = row.len();
    let mut field: usize = 0;
    let mut start: usize = 0;
    let mut x_from: usize = 0;
    let mut x_to: usize = 0;
    let mut y_from: usize = 0;
    let mut y_to: usize = 0;
    let mut i: usize = 0;
    while i < len
        invariant
            i <= len,
            len == row@.len(),
            start <= i,
            field <= i,
            fields(row@.take(i as int)).len() == field + 1,
            fields(row@.take(i as int)).last() == row@.subrange(start as int, i as int),
            index_x < field ==> x_from <= x_to <= i && fields(row@.take(i as int))[index_x as int]
                == row@.subrange(x_from as int, x_to as int),
            index_y < field ==> y_from <= y_to <= i && fields(row@.take(i as int))[index_y as int]
                == row@.subrange(y_from as int, y_to as int),
        decreases len - i,
    {
        proof {
            assert(row@.take(i + 1).drop_last() =~= row@.take(i as int));
        }
        if row[i] == DELIMITER {
            if field == index_x {
                x_from = start;
                x_to = i;
            }
            if field == index_y {
                y_from = start;
                y_to = i;
            }
            field = field + 1;
            start = i + 1;
        } else {
            proof {
                assert(row@.subrange(start as int, i + 1) =~= row@.subrange(
                    start as int,
                    i as int,
                ).push(row@[i as int]));
            }
        }
        i = i + 1;
    }
    proof {
        assert(row@.take(len as int) =~= row@);
    }
    if field == index_x {
        x_from = start;
        x_to = len;
    }
    if field == index_y {
        y_from = start;
        y_to = len;
    }
    if n > 0 && field == n - 1 && index_x != index_y && index_x < n && index_y < n {
        Some((slice_subrange(row, x_from, x_to), slice_subrange(row, y_from, y_to)))
    } else {
        None
    }
}

} // verus!
