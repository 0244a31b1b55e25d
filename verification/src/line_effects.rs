//! How single lines bear on the parse of a text: lines that are passed
//! over, lines that make the parse fail, and lines that take the place of
//! earlier ones.
//!
//! Where a text is given by its lines, `join_lines` puts a newline between
//! each two of them.

use vstd::prelude::*;

use crate::grammar::{
    channel_record, channel_records, lemma_empty_line_skipped, matrix_record, matrix_records,
};
use crate::records::{
    entered_at, enters, entries_of, lemma_entries_of_last, lemma_entries_of_without,
    lemma_none_malformed_without, none_malformed, Record,
};
use crate::text::{
    join_lines, lemma_text_lines_of_join, no_newline, single_lines, text_lines,
};

verus! {

proof fn lemma_single_lines_around(before: Seq<Seq<char>>, line: Seq<char>, after: Seq<Seq<char>>)
    requires
        single_lines(before),
        no_newline(line),
        single_lines(after),
    ensures
        single_lines(before + seq![line] + after),
        single_lines(before + after),
{
    let with = before + seq![line] + after;
    let without = before + after;
    assert forall|i: int| 0 <= i < with.len() implies no_newline(#[trigger] with[i]) by {
        if i < before.len() {
            assert(with[i] == before[i]);
        } else if i > before.len() {
            assert(with[i] == after[i - before.len() - 1]);
        }
    }
    assert forall|i: int| 0 <= i < without.len() implies no_newline(#[trigger] without[i]) by {
        if i < before.len() {
            assert(without[i] == before[i]);
        } else {
            assert(without[i] == after[i - before.len()]);
        }
    }
}

/// The channel-map records of a text given by its lines, around one line.
proof fn lemma_channel_records_around(
    before: Seq<Seq<char>>,
    line: Seq<char>,
    after: Seq<Seq<char>>,
)
    requires
        single_lines(before),
        no_newline(line),
        single_lines(after),
    ensures
        channel_records(join_lines(before + seq![line] + after)) == before.map_values(
            |l: Seq<char>| channel_record(l),
        ) + seq![channel_record(line)] + after.map_values(|l: Seq<char>| channel_record(l)),
        before.len() + after.len() > 0 ==> channel_records(join_lines(before + after))
            == before.map_values(|l: Seq<char>| channel_record(l)) + after.map_values(
            |l: Seq<char>| channel_record(l),
        ),
        before.len() + after.len() == 0 ==> channel_records(join_lines(before + after)) == seq![
            Record::<(i32, i32)>::Skipped,
        ],
{
    let with = before + seq![line] + after;
    let without = before + after;
    lemma_single_lines_around(before, line, after);
    lemma_text_lines_of_join(with);
    assert(channel_records(join_lines(with)) =~= before.map_values(
        |l: Seq<char>| channel_record(l),
    ) + seq![channel_record(line)] + after.map_values(|l: Seq<char>| channel_record(l)));
    if without.len() > 0 {
        lemma_text_lines_of_join(without);
        assert(channel_records(join_lines(without)) =~= before.map_values(
            |l: Seq<char>| channel_record(l),
        ) + after.map_values(|l: Seq<char>| channel_record(l)));
    } else {
        lemma_empty_line_skipped();
        assert(join_lines(without) =~= Seq::<char>::empty());
        assert(channel_records(join_lines(without)) =~= seq![Record::<(i32, i32)>::Skipped]);
    }
}

/// The matrix records of a text given by its lines, around one line.
proof fn lemma_matrix_records_around(
    before: Seq<Seq<char>>,
    line: Seq<char>,
    after: Seq<Seq<char>>,
)
    requires
        single_lines(before),
        no_newline(line),
        single_lines(after),
    ensures
        matrix_records(join_lines(before + seq![line] + after)) == before.map_values(
            |l: Seq<char>| matrix_record(l),
        ) + seq![matrix_record(line)] + after.map_values(|l: Seq<char>| matrix_record(l)),
        before.len() + after.len() > 0 ==> matrix_records(join_lines(before + after))
            == before.map_values(|l: Seq<char>| matrix_record(l)) + after.map_values(
            |l: Seq<char>| matrix_record(l),
        ),
        before.len() + after.len() == 0 ==> matrix_records(join_lines(before + after)) == seq![
            Record::<((i32, i32), Seq<char>)>::Skipped,
        ],
{
    let with = before + seq![line] + after;
    let without = before + after;
    lemma_single_lines_around(before, line, after);
    lemma_text_lines_of_join(with);
    assert(matrix_records(join_lines(with)) =~= before.map_values(
        |l: Seq<char>| matrix_record(l),
    ) + seq![matrix_record(line)] + after.map_values(|l: Seq<char>| matrix_record(l)));
    if without.len() > 0 {
        lemma_text_lines_of_join(without);
        assert(matrix_records(join_lines(without)) =~= before.map_values(
            |l: Seq<char>| matrix_record(l),
        ) + after.map_values(|l: Seq<char>| matrix_record(l)));
    } else {
        lemma_empty_line_skipped();
        assert(join_lines(without) =~= Seq::<char>::empty());
        assert(matrix_records(join_lines(without)) =~= seq![
            Record::<((i32, i32), Seq<char>)>::Skipped,
        ]);
    }
}

/// A line that is no channel-map line changes nothing: the text with the
/// line, wherever it stands, and the text without it give the same
/// channel map.
pub proof fn lemma_channel_map_passes_over(
    before: Seq<Seq<char>>,
    line: Seq<char>,
    after: Seq<Seq<char>>,
)
    requires
        single_lines(before),
        no_newline(line),
        single_lines(after),
        channel_record(line) is Skipped,
    ensures
        entries_of(channel_records(join_lines(before + seq![line] + after))) == entries_of(
            channel_records(join_lines(before + after)),
        ),
{
    let b = before.map_values(|l: Seq<char>| channel_record(l));
    let a = after.map_values(|l: Seq<char>| channel_record(l));
    let skipped = Record::<(i32, i32)>::Skipped;
    lemma_channel_records_around(before, line, after);
    lemma_entries_of_without(b, skipped, a);
    if before.len() + after.len() == 0 {
        assert(b + seq![skipped] + a =~= seq![skipped]);
    }
}

/// A line that is no matrix line changes nothing: the text with the
/// line, wherever it stands, and the text without it either both fail to
/// parse or give the same matrix.
pub proof fn lemma_matrix_passes_over(
    before: Seq<Seq<char>>,
    line: Seq<char>,
    after: Seq<Seq<char>>,
)
    requires
        single_lines(before),
        no_newline(line),
        single_lines(after),
        matrix_record(line) is Skipped,
    ensures
        none_malformed(matrix_records(join_lines(before + seq![line] + after))) == none_malformed(
            matrix_records(join_lines(before + after)),
        ),
        entries_of(matrix_records(join_lines(before + seq![line] + after))) == entries_of(
            matrix_records(join_lines(before + after)),
        ),
{
    let b = before.map_values(|l: Seq<char>| matrix_record(l));
    let a = after.map_values(|l: Seq<char>| matrix_record(l));
    let skipped = Record::<((i32, i32), Seq<char>)>::Skipped;
    lemma_matrix_records_around(before, line, after);
    lemma_none_malformed_without(b, skipped, a);
    lemma_entries_of_without(b, skipped, a);
    if before.len() + after.len() == 0 {
        assert(b + seq![skipped] + a =~= seq![skipped]);
    }
}

/// One matrix line with a numeral that is too large, wherever it stands,
/// makes the parse of the whole text fail.
pub proof fn lemma_matrix_fails_on(before: Seq<Seq<char>>, line: Seq<char>, after: Seq<Seq<char>>)
    requires
        single_lines(before),
        no_newline(line),
        single_lines(after),
        matrix_record(line) is Malformed,
    ensures
        !none_malformed(matrix_records(join_lines(before + seq![line] + after))),
{
    let b = before.map_values(|l: Seq<char>| matrix_record(l));
    let a = after.map_values(|l: Seq<char>| matrix_record(l));
    lemma_matrix_records_around(before, line, after);
    lemma_none_malformed_without(b, matrix_record(line), a);
}

/// The channel map holds for an original channel what the last line that
/// is an entry for it says: if line `k` of the text is such an entry and
/// no line behind it is one for the same channel, the map has that
/// channel as a key and gives it the new channel of line `k`.
pub proof fn lemma_channel_map_last_line(text: Seq<char>, k: int)
    requires
        0 <= k < text_lines(text).len(),
        channel_record(text_lines(text)[k]) is Entry,
        forall|j: int|
            k < j < text_lines(text).len() ==> !enters(
                channel_record(#[trigger] text_lines(text)[j]),
                channel_record(text_lines(text)[k])->Entry_0.0,
            ),
    ensures
        entries_of(channel_records(text)).contains_key(
            channel_record(text_lines(text)[k])->Entry_0.0,
        ),
        entries_of(channel_records(text))[channel_record(text_lines(text)[k])->Entry_0.0]
            == channel_record(text_lines(text)[k])->Entry_0.1,
{
    let records = channel_records(text);
    let key = channel_record(text_lines(text)[k])->Entry_0.0;
    assert(records[k] == channel_record(text_lines(text)[k]));
    assert forall|j: int| k < j implies !#[trigger] entered_at(records, key, j) by {
        if j < records.len() {
            assert(records[j] == channel_record(text_lines(text)[j]));
        }
    }
    lemma_entries_of_last(records, key, k);
}

/// The matrix holds at a cell what the last line that is an entry for it
/// says: if line `k` of the text is such an entry and no line behind it
/// is one for the same cell, the matrix has that cell and holds there the
/// value of line `k`.
pub proof fn lemma_matrix_last_line(text: Seq<char>, k: int)
    requires
        0 <= k < text_lines(text).len(),
        matrix_record(text_lines(text)[k]) is Entry,
        forall|j: int|
            k < j < text_lines(text).len() ==> !enters(
                matrix_record(#[trigger] text_lines(text)[j]),
                matrix_record(text_lines(text)[k])->Entry_0.0,
            ),
    ensures
        entries_of(matrix_records(text)).contains_key(
            matrix_record(text_lines(text)[k])->Entry_0.0,
        ),
        entries_of(matrix_records(text))[matrix_record(text_lines(text)[k])->Entry_0.0]
            == matrix_record(text_lines(text)[k])->Entry_0.1,
{
    let records = matrix_records(text);
    let key = matrix_record(text_lines(text)[k])->Entry_0.0;
    assert(records[k] == matrix_record(text_lines(text)[k]));
    assert forall|j: int| k < j implies !#[trigger] entered_at(records, key, j) by {
        if j < records.len() {
            assert(records[j] == matrix_record(text_lines(text)[j]));
        }
    }
    lemma_entries_of_last(records, key, k);
}

} // verus!
