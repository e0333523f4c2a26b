use vstd::prelude::*;

verus! {

/// `line` without the carriage return that a `"\r\n"` line ending leaves at its end.
pub open spec fn strip_cr(line: Seq<char>) -> Seq<char> {
    if line.len() > 0 && line.last() == '\r' {
        line.drop_last()
    } else {
        line
    }
}

/// The lines that remain when `rest` follows the unfinished line `cur`.
///
/// Each line feed ends the current line, and a carriage return right before
/// it is not part of the line. A last line that no line feed ends is kept
/// as it stands, unless it is empty.
pub open spec fn split_lines(rest: Seq<char>, cur: Seq<char>) -> Seq<Seq<char>>
    decreases rest.len(),
{
    if rest.len() == 0 {
        if cur.len() == 0 {
            seq![]
        } else {
            seq![cur]
        }
    } else if rest[0] == '\n' {
        seq![strip_cr(cur)] + split_lines(rest.drop_first(), seq![])
    } else {
        split_lines(rest.drop_first(), cur.push(rest[0]))
    }
}

/// The lines of `text`, in order: an empty text has none, and a line feed at
/// the very end does not start another line.
pub open spec fn lines_of(text: Seq<char>) -> Seq<Seq<char>> {
    split_lines(text, seq![])
}

/// The characters of `s`, in order.
pub fn chars_of(s: &str) -> (r: Vec<char>)
    ensures
        r@ == s@,
{
    broadcast use vstd::string::group_string_axioms;

    let mut r: Vec<char> = Vec::new();
    for c in it: s.chars()
        invariant
            r@ == it.seq().take(it.index() as int),
            it.seq() == s@,
    {
        r.push(c);
    }
    r
}

/// One step of the scan over `text`: how the lines that remain after
/// position `i` relate to those after `i + 1`, for the line that began at
/// `start`.
pub proof fn lemma_split_step(text: Seq<char>, start: int, i: int)
    requires
        0 <= start <= i < text.len(),
    ensures
        text[i] == '\n' ==> split_lines(text.subrange(i, text.len() as int), text.subrange(start, i))
            == seq![strip_cr(text.subrange(start, i))] + split_lines(
            text.subrange(i + 1, text.len() as int),
            text.subrange(i + 1, i + 1),
        ),
        text[i] != '\n' ==> split_lines(text.subrange(i, text.len() as int), text.subrange(start, i))
            == split_lines(text.subrange(i + 1, text.len() as int), text.subrange(start, i + 1)),
{
    let rest = text.subrange(i, text.len() as int);
    assert(rest.drop_first() =~= text.subrange(i + 1, text.len() as int));
    assert(text.subrange(i + 1, i + 1) =~= Seq::<char>::empty());
    assert(text.subrange(start, i).push(text[i]) =~= text.subrange(start, i + 1));
}

} // verus!
