//! Text as a sequence of characters, and its division into lines.

use vstd::prelude::*;

verus! {

/// `String::push` appends one character at the end of the string and leaves
/// the characters before it as they were.
pub assume_specification[ String::push ](s: &mut String, ch: char)
    ensures
        final(s)@ == old(s)@.push(ch),
;

/// The lines of a text: the pieces between its newline characters, in
/// order and without the newlines. A text with `k` newlines has `k + 1`
/// lines; the empty text has one empty line.
pub open spec fn text_lines(s: Seq<char>) -> Seq<Seq<char>>
    decreases s.len(),
{
    if s.len() == 0 {
        seq![Seq::<char>::empty()]
    } else {
        let before = text_lines(s.drop_last());
        if s.last() == '\n' {
            before.push(Seq::<char>::empty())
        } else {
            before.drop_last().push(before.last().push(s.last()))
        }
    }
}

/// No character of `s` is a newline.
pub open spec fn no_newline(s: Seq<char>) -> bool {
    forall|i: int| 0 <= i < s.len() ==> #[trigger] s[i] != '\n'
}

/// The lines joined again, with a newline between each two neighbours.
pub open spec fn join_lines(lines: Seq<Seq<char>>) -> Seq<char>
    decreases lines.len(),
{
    if lines.len() == 0 {
        Seq::<char>::empty()
    } else if lines.len() == 1 {
        lines[0]
    } else {
        join_lines(lines.drop_last()) + seq!['\n'] + lines.last()
    }
}

/// The character sequences that a vector of lines holds.
pub open spec fn line_views(lines: Seq<Vec<char>>) -> Seq<Seq<char>> {
    Seq::new(lines.len(), |i: int| lines[i]@)
}

/// A text has at least one line, no line holds a newline, and the lines
/// joined by newlines give the text back.
pub proof fn lemma_text_lines(s: Seq<char>)
    ensures
        text_lines(s).len() > 0,
        forall|i: int| 0 <= i < text_lines(s).len() ==> no_newline(#[trigger] text_lines(s)[i]),
        join_lines(text_lines(s)) == s,
    decreases s.len(),
{
    if s.len() > 0 {
        let t = s.drop_last();
        lemma_text_lines(t);
        let before = text_lines(t);
        let lines = text_lines(s);
        if s.last() == '\n' {
            assert(lines.drop_last() =~= before);
            assert(join_lines(lines) =~= s);
        } else {
            let head = before.drop_last();
            let tail = before.last().push(s.last());
            assert(lines.drop_last() =~= head);
            assert(lines.last() == tail);
            if before.len() == 1 {
                assert(join_lines(before) == before[0]);
                assert(join_lines(lines) =~= s);
            } else {
                assert(join_lines(before) == join_lines(head) + seq!['\n'] + before.last());
                assert(join_lines(lines) == join_lines(head) + seq!['\n'] + tail);
                assert(join_lines(head) + seq!['\n'] + tail =~= t.push(s.last()));
                assert(t.push(s.last()) =~= s);
            }
        }
    }
}

/// A text without a newline is one line.
pub proof fn lemma_text_lines_single(s: Seq<char>)
    requires
        no_newline(s),
    ensures
        text_lines(s) == seq![s],
    decreases s.len(),
{
    if s.len() > 0 {
        let t = s.drop_last();
        lemma_text_lines_single(t);
        assert(t.push(s.last()) =~= s);
        assert(text_lines(s) =~= seq![s]);
    } else {
        assert(s =~= Seq::<char>::empty());
    }
}

/// The lines of two texts with a newline between them are the lines of
/// the first followed by the lines of the second.
pub proof fn lemma_text_lines_concat(a: Seq<char>, b: Seq<char>)
    ensures
        text_lines(a + seq!['\n'] + b) == text_lines(a) + text_lines(b),
    decreases b.len(),
{
    let whole = a + seq!['\n'] + b;
    if b.len() == 0 {
        assert(whole.drop_last() =~= a);
        assert(text_lines(whole) =~= text_lines(a) + text_lines(b));
    } else {
        let shorter = b.drop_last();
        lemma_text_lines_concat(a, shorter);
        lemma_text_lines(shorter);
        assert(whole.drop_last() =~= a + seq!['\n'] + shorter);
        assert(whole.last() == b.last());
        assert(text_lines(whole) =~= text_lines(a) + text_lines(b));
    }
}

/// No line of `lines` holds a newline.
pub open spec fn single_lines(lines: Seq<Seq<char>>) -> bool {
    forall|i: int| 0 <= i < lines.len() ==> no_newline(#[trigger] lines[i])
}

/// Lines without newlines, joined by newlines, are the lines of the text
/// that this gives.
pub proof fn lemma_text_lines_of_join(lines: Seq<Seq<char>>)
    requires
        lines.len() > 0,
        single_lines(lines),
    ensures
        text_lines(join_lines(lines)) == lines,
    decreases lines.len(),
{
    if lines.len() == 1 {
        lemma_text_lines_single(lines[0]);
        assert(lines =~= seq![lines[0]]);
    } else {
        let head = lines.drop_last();
        assert forall|i: int| 0 <= i < head.len() implies no_newline(#[trigger] head[i]) by {
            assert(head[i] == lines[i]);
        }
        lemma_text_lines_of_join(head);
        lemma_text_lines_single(lines.last());
        lemma_text_lines_concat(join_lines(head), lines.last());
        assert(head + seq![lines.last()] =~= lines);
    }
}

/// The lines of a text are the one sequence of lines without newlines
/// that, joined by newlines, gives the text.
pub proof fn lemma_text_lines_iff(s: Seq<char>, lines: Seq<Seq<char>>)
    ensures
        text_lines(s) == lines <==> lines.len() > 0 && single_lines(lines) && join_lines(lines)
            == s,
{
    if text_lines(s) == lines {
        lemma_text_lines(s);
    }
    if lines.len() > 0 && single_lines(lines) && join_lines(lines) == s {
        lemma_text_lines_of_join(lines);
    }
}

/// The text is empty or ends with a newline: its last line is empty.
pub open spec fn ends_lines(s: Seq<char>) -> bool {
    s.len() == 0 || s.last() == '\n'
}

/// A line and its newline, added to a text whose last line is empty, put
/// that line in the place of the empty one and an empty line behind it.
pub proof fn lemma_text_lines_append(t: Seq<char>, line: Seq<char>)
    requires
        ends_lines(t),
        no_newline(line),
    ensures
        text_lines(t).last() == Seq::<char>::empty(),
        text_lines(t + line + seq!['\n']) == text_lines(t).drop_last().push(line).push(
            Seq::<char>::empty(),
        ),
        ends_lines(t + line + seq!['\n']),
{
    let empty = Seq::<char>::empty();
    let added = line + seq!['\n'];
    lemma_text_lines_single(line);
    assert(added.drop_last() =~= line);
    assert(text_lines(added) =~= seq![line, empty]);
    if t.len() == 0 {
        assert(t + line + seq!['\n'] =~= added);
        assert(text_lines(t).drop_last().push(line).push(empty) =~= seq![line, empty]);
    } else {
        let head = t.drop_last();
        assert(t =~= head + seq!['\n']);
        assert(t + line + seq!['\n'] =~= head + seq!['\n'] + added);
        lemma_text_lines_concat(head, added);
        assert(text_lines(t) == text_lines(head).push(empty));
        assert(text_lines(t).drop_last() =~= text_lines(head));
        assert(text_lines(head) + seq![line, empty] =~= text_lines(head).push(line).push(empty));
    }
}

/// Splits a text at its newline characters.
pub fn split_lines(text: &str) -> (lines: Vec<Vec<char>>)
    ensures
        line_views(lines@) == text_lines(text@),
{
    let mut lines: Vec<Vec<char>> = Vec::new();
    let mut current: Vec<char> = Vec::new();
    for c in it: text.chars()
        invariant
            it.seq() == text@,
            line_views(lines@).push(current@) == text_lines(text@.take(it.index() as int)),
    {
        proof {
            assert(text@.take(it.index() + 1).drop_last() =~= text@.take(it.index() as int));
        }
        if c == '\n' {
            let ghost before = line_views(lines@).push(current@);
            lines.push(current);
            current = Vec::new();
            assert(line_views(lines@).push(current@) =~= before.push(Seq::<char>::empty()));
        } else {
            let ghost before = line_views(lines@).push(current@);
            current.push(c);
            assert(line_views(lines@).push(current@) =~= before.drop_last().push(
                before.last().push(c),
            ));
        }
    }
    proof {
        assert(text@.take(text@.len() as int) =~= text@);
    }
    let ghost before = line_views(lines@).push(current@);
    lines.push(current);
    assert(line_views(lines@) =~= before);
    lines
}

/// Makes a string of the given characters.
pub fn string_of(chars: &[char]) -> (s: String)
    ensures
        s@ == chars@,
{
    let mut s = String::new();
    let mut i: usize = 0;
    while i < chars.len()
        invariant
            i <= chars.len(),
            s@ == chars@.take(i as int),
        decreases chars.len() - i,
    {
        s.push(chars[i]);
        assert(chars@.take(i + 1) =~= chars@.take(i as int).push(chars@[i as int]));
        i = i + 1;
    }
    assert(chars@.take(i as int) =~= chars@);
    s
}

} // verus!
