use vstd::prelude::*;

use crate::lines::{chars_of, lemma_split_step, lines_of, split_lines, strip_cr};
use crate::slices::{byte_offset, lemma_offset_step, slice_chars, utf8_width};
use vstd::utf8::encode_utf8;

verus! {

/// The characters of `hay` from position `i` on begin with `needle`.
pub open spec fn stands_at(hay: Seq<char>, i: int, needle: Seq<char>) -> bool {
    0 <= i && i + needle.len() <= hay.len() && hay.subrange(i, i + needle.len()) == needle
}

/// `hay` holds `needle` as a contiguous run of characters.
pub open spec fn has_substring(hay: Seq<char>, needle: Seq<char>) -> bool {
    exists|i: int| #[trigger] stands_at(hay, i, needle)
}

/// What `str::to_lowercase` makes of a text.
pub uninterp spec fn lower_of(s: Seq<char>) -> Seq<char>;

/// Relies on `str::to_lowercase`: its result depends on the characters of
/// `s` alone, and an empty string stays empty.
#[verifier::external_body]
fn lowercase(s: &str) -> (r: String)
    ensures
        r@ == lower_of(s@),
        s@.len() == 0 ==> r@.len() == 0,
{
    s.to_lowercase()
}

/// Whether `needle` stands in `hay` at position `pos`.
fn occurs_at(hay: &Vec<char>, pos: usize, needle: &Vec<char>) -> (r: bool)
    requires
        pos + needle.len() <= hay.len(),
    ensures
        r == (hay@.subrange(pos as int, pos + needle.len()) == needle@),
{
    let m = needle.len();
    let mut j: usize = 0;
    while j < m
        invariant
            j <= m == needle.len(),
            pos + m <= hay.len(),
            forall|k: int| 0 <= k < j ==> hay@[pos + k] == needle@[k],
        decreases m - j,
    {
        if hay[pos + j] != needle[j] {
            assert(hay@.subrange(pos as int, pos + m)[j as int] != needle@[j as int]);
            return false;
        }
        j += 1;
    }
    assert(hay@.subrange(pos as int, pos + m) =~= needle@);
    true
}

/// Whether `needle` stands anywhere in the part of `hay` from `lo` up to `hi`.
fn occurs_in(hay: &Vec<char>, lo: usize, hi: usize, needle: &Vec<char>) -> (r: bool)
    requires
        lo <= hi <= hay.len(),
    ensures
        r == has_substring(hay@.subrange(lo as int, hi as int), needle@),
{
    let ghost part = hay@.subrange(lo as int, hi as int);
    let m = needle.len();
    if m > hi - lo {
        return false;
    }
    let last = hi - m;
    let mut pos: usize = lo;
    loop
        invariant
            lo <= pos <= last,
            last + m == hi <= hay.len(),
            m == needle.len(),
            part == hay@.subrange(lo as int, hi as int),
            forall|p: int| lo <= p < pos ==> !#[trigger] stands_at(hay@, p, needle@),
        ensures
            forall|p: int| lo <= p <= last ==> !#[trigger] stands_at(hay@, p, needle@),
        decreases last - pos,
    {
        if occurs_at(hay, pos, needle) {
            assert(part.subrange(pos - lo, pos - lo + m) =~= hay@.subrange(pos as int, pos + m));
            assert(stands_at(part, pos - lo, needle@));
            return true;
        }
        if pos == last {
            break;
        }
        pos += 1;
    }
    assert forall|i: int| !#[trigger] stands_at(part, i, needle@) by {
        if 0 <= i && i + m <= part.len() {
            assert(part.subrange(i, i + m) =~= hay@.subrange(lo + i, lo + i + m));
            assert(!stands_at(hay@, lo + i, needle@));
        }
    }
    false
}

/// Whether `hay` contains `needle` as a contiguous run of characters.
pub fn contains(hay: &str, needle: &str) -> (r: bool)
    ensures
        r == has_substring(hay@, needle@),
{
    let h = chars_of(hay);
    let n = chars_of(needle);
    assert(h@.subrange(0, h@.len() as int) =~= h@);
    occurs_in(&h, 0, h.len(), &n)
}

/// Whether `line` answers `query`: it contains `query`, or, when case is
/// ignored, its lowercase form contains the lowercase form of `query`.
pub open spec fn line_matches(line: Seq<char>, query: Seq<char>, ignore_case: bool) -> bool {
    if ignore_case {
        has_substring(lower_of(line), lower_of(query))
    } else {
        has_substring(line, query)
    }
}

/// The test that picks the numbered lines answering `query`.
pub open spec fn answers(query: Seq<char>, ignore_case: bool) -> spec_fn((int, Seq<char>)) -> bool {
    |m: (int, Seq<char>)| line_matches(m.1, query, ignore_case)
}

/// Each line with its 1-based number.
pub open spec fn numbered(lines: Seq<Seq<char>>) -> Seq<(int, Seq<char>)> {
    Seq::new(lines.len(), |i: int| (i + 1, lines[i]))
}

/// The numbered lines of `text` that answer `query`, in the order of the text.
pub open spec fn search_result(query: Seq<char>, text: Seq<char>, ignore_case: bool) -> Seq<
    (int, Seq<char>),
> {
    numbered(lines_of(text)).filter(answers(query, ignore_case))
}

/// The line numbers and line characters of a list of matches.
pub open spec fn matches_view<'a>(r: Seq<(usize, &'a str)>) -> Seq<(int, Seq<char>)> {
    r.map_values(|m: (usize, &'a str)| (m.0 as int, m.1@))
}

proof fn lemma_filter_push<A>(s: Seq<A>, x: A, p: spec_fn(A) -> bool)
    ensures
        s.push(x).filter(p) == (if p(x) {
            s.filter(p).push(x)
        } else {
            s.filter(p)
        }),
{
    reveal(Seq::filter);
    assert(s.push(x).drop_last() =~= s);
}

proof fn lemma_numbered_push(lines: Seq<Seq<char>>, line: Seq<char>)
    ensures
        numbered(lines.push(line)) == numbered(lines).push((lines.len() + 1 as int, line)),
{
    assert(numbered(lines.push(line)) =~= numbered(lines).push((lines.len() + 1 as int, line)));
}

/// The numbered lines that a test keeps carry valid, increasing numbers, each
/// with its own line.
proof fn lemma_numbers_valid(lines: Seq<Seq<char>>, p: spec_fn((int, Seq<char>)) -> bool)
    ensures
        forall|k: int|
            0 <= k < numbered(lines).filter(p).len() ==> {
                let m = #[trigger] numbered(lines).filter(p)[k];
                &&& 1 <= m.0 <= lines.len()
                &&& m.1 == lines[m.0 - 1]
            },
        forall|j: int, k: int|
            0 <= j < k < numbered(lines).filter(p).len() ==> (#[trigger] numbered(lines).filter(
                p,
            )[j]).0 < (#[trigger] numbered(lines).filter(p)[k]).0,
    decreases lines.len(),
{
    if lines.len() > 0 {
        let init = lines.drop_last();
        lemma_numbers_valid(init, p);
        assert(init.push(lines.last()) =~= lines);
        lemma_numbered_push(init, lines.last());
        lemma_filter_push(numbered(init), (init.len() + 1 as int, lines.last()), p);
    }
}

/// A test that keeps every item keeps the sequence as it is.
proof fn lemma_filter_all<A>(s: Seq<A>, p: spec_fn(A) -> bool)
    requires
        forall|k: int| 0 <= k < s.len() ==> p(#[trigger] s[k]),
    ensures
        s.filter(p) == s,
    decreases s.len(),
{
    if s.len() > 0 {
        lemma_filter_all(s.drop_last(), p);
        assert(s.drop_last().push(s.last()) =~= s);
        lemma_filter_push(s.drop_last(), s.last(), p);
    }
}

/// Adds the line of `contents` from `start` up to `end`, as line `number + 1`,
/// to `out` when it answers the query.
fn check_line<'a>(
    contents: &'a str,
    text: &Vec<char>,
    query: &str,
    query_chars: &Vec<char>,
    folded_query: &String,
    ignore_case: bool,
    start: usize,
    end: usize,
    start_byte: usize,
    end_byte: usize,
    number: usize,
    out: &mut Vec<(usize, &'a str)>,
)
    requires
        text@ == contents@,
        query_chars@ == query@,
        ignore_case ==> folded_query@ == lower_of(query@),
        start <= end <= text.len(),
        start_byte == byte_offset(contents@, start as int),
        end_byte == byte_offset(contents@, end as int),
        number < usize::MAX,
    ensures
        matches_view(final(out)@) == (if line_matches(
            contents@.subrange(start as int, end as int),
            query@,
            ignore_case,
        ) {
            matches_view(old(out)@).push((number + 1, contents@.subrange(start as int, end as int)))
        } else {
            matches_view(old(out)@)
        }),
{
    let ghost line_view = contents@.subrange(start as int, end as int);
    if ignore_case {
        let line = slice_chars(contents, start, end, start_byte, end_byte);
        let folded_line = lowercase(line);
        if contains(folded_line.as_str(), folded_query.as_str()) {
            out.push((number + 1, line));
            assert(matches_view(out@) =~= matches_view(old(out)@).push((number + 1, line_view)));
        }
    } else if occurs_in(text, start, end, query_chars) {
        let line = slice_chars(contents, start, end, start_byte, end_byte);
        out.push((number + 1, line));
        assert(matches_view(out@) =~= matches_view(old(out)@).push((number + 1, line_view)));
    }
}

/// The lines of `contents` that hold `query`, each with its 1-based line
/// number, in the order of the text. When `ignore_case` is set, a line
/// answers when its lowercase form holds the lowercase form of `query`; the
/// line handed back is the line as it stands in `contents`.
pub fn search<'a>(query: &str, contents: &'a str, ignore_case: &bool) -> (r: Vec<(usize, &'a str)>)
    ensures
        matches_view(r@) == search_result(query@, contents@, *ignore_case),
        forall|k: int|
            0 <= k < r@.len() ==> 1 <= #[trigger] r@[k].0 <= lines_of(contents@).len()
                && r@[k].1@ == lines_of(contents@)[r@[k].0 - 1],
        forall|j: int, k: int| 0 <= j < k < r@.len() ==> #[trigger] r@[j].0 < #[trigger] r@[k].0,
        query@.len() == 0 ==> matches_view(r@) == numbered(lines_of(contents@)),
{
    let text = chars_of(contents);
    let query_chars = chars_of(query);
    let folded_query = if *ignore_case {
        lowercase(query)
    } else {
        String::new()
    };
    let ghost p = answers(query@, *ignore_case);
    let n = text.len();
    let mut out: Vec<(usize, &'a str)> = Vec::new();
    let mut start: usize = 0;
    let mut number: usize = 0;
    let ghost mut done: Seq<Seq<char>> = seq![];
    let mut i: usize = 0;
    let mut start_byte: usize = 0;
    let mut byte_i: usize = 0;
    // The byte length of the text bounds every byte offset taken below.
    let total: usize = contents.as_bytes().len();
    assert(total == encode_utf8(contents@).len());
    assert(matches_view(out@) =~= numbered(done).filter(p)) by {
        reveal(Seq::filter);
    }
    assert(contents@.subrange(0, n as int) =~= contents@);
    assert(contents@.subrange(0, 0) =~= Seq::<char>::empty());
    assert(contents@.take(0) =~= Seq::<char>::empty());
    assert(done + lines_of(contents@) =~= lines_of(contents@));
    while i < n
        invariant
            text@ == contents@,
            query_chars@ == query@,
            *ignore_case ==> folded_query@ == lower_of(query@),
            p == answers(query@, *ignore_case),
            n == text.len(),
            encode_utf8(contents@).len() <= usize::MAX,
            start <= i <= n,
            number <= start,
            number == done.len(),
            start_byte == byte_offset(contents@, start as int),
            byte_i == byte_offset(contents@, i as int),
            lines_of(contents@) == done + split_lines(
                contents@.subrange(i as int, n as int),
                contents@.subrange(start as int, i as int),
            ),
            matches_view(out@) == numbered(done).filter(p),
        decreases n - i,
    {
        let c = text[i];
        let width = utf8_width(c);
        proof {
            lemma_split_step(contents@, start as int, i as int);
            lemma_offset_step(contents@, i as int);
        }
        let next_byte = byte_i + width;
        if c == '\n' {
            let mut end = i;
            let mut end_byte = byte_i;
            if i > start && text[i - 1] == '\r' {
                proof {
                    lemma_offset_step(contents@, i - 1);
                }
                end = i - 1;
                end_byte = byte_i - 1;
            }
            let ghost line = contents@.subrange(start as int, end as int);
            assert(line =~= strip_cr(contents@.subrange(start as int, i as int)));
            check_line(
                contents,
                &text,
                query,
                &query_chars,
                &folded_query,
                *ignore_case,
                start,
                end,
                start_byte,
                end_byte,
                number,
                &mut out,
            );
            proof {
                lemma_numbered_push(done, line);
                lemma_filter_push(numbered(done), (done.len() + 1 as int, line), p);
                assert(done + (seq![line] + split_lines(
                    contents@.subrange(i + 1, n as int),
                    contents@.subrange(i + 1, i + 1),
                )) =~= done.push(line) + split_lines(
                    contents@.subrange(i + 1, n as int),
                    contents@.subrange(i + 1, i + 1),
                ));
                done = done.push(line);
            }
            number += 1;
            start = i + 1;
            start_byte = next_byte;
        }
        i += 1;
        byte_i = next_byte;
    }
    assert(contents@.subrange(n as int, n as int).len() == 0);
    if start < n {
        let ghost line = contents@.subrange(start as int, n as int);
        check_line(
            contents,
            &text,
            query,
            &query_chars,
            &folded_query,
            *ignore_case,
            start,
            n,
            start_byte,
            byte_i,
            number,
            &mut out,
        );
        proof {
            lemma_numbered_push(done, line);
            lemma_filter_push(numbered(done), (done.len() + 1 as int, line), p);
            assert(done + seq![line] =~= done.push(line));
            done = done.push(line);
        }
    } else {
        assert(done + seq![] =~= done);
    }
    proof {
        assert(lines_of(contents@) == done);
        lemma_numbers_valid(done, p);
        assert forall|k: int| 0 <= k < out@.len() implies 1 <= #[trigger] out@[k].0 <= done.len()
            && out@[k].1@ == done[out@[k].0 - 1] by {
            assert(matches_view(out@)[k] == numbered(done).filter(p)[k]);
        }
        assert forall|j: int, k: int| 0 <= j < k < out@.len() implies #[trigger] out@[j].0
            < #[trigger] out@[k].0 by {
            assert(matches_view(out@)[j] == numbered(done).filter(p)[j]);
            assert(matches_view(out@)[k] == numbered(done).filter(p)[k]);
        }
        if query@.len() == 0 {
            assert forall|k: int| 0 <= k < numbered(done).len() implies p(
                #[trigger] numbered(done)[k],
            ) by {
                let line = numbered(done)[k].1;
                assert(line.subrange(0, 0) =~= query@);
                assert(stands_at(line, 0, query@));
                if *ignore_case {
                    assert(lower_of(line).subrange(0, 0) =~= lower_of(query@));
                    assert(stands_at(lower_of(line), 0, lower_of(query@)));
                }
            }
            lemma_filter_all(numbered(done), p);
        }
    }
    out
}

/// Searching is deterministic: two results of `search` for the same query,
/// text and case flag hold the same numbered lines.
pub proof fn lemma_search_deterministic<'a, 'b>(
    query: Seq<char>,
    text: Seq<char>,
    ignore_case: bool,
    first: Seq<(usize, &'a str)>,
    second: Seq<(usize, &'b str)>,
)
    requires
        matches_view(first) == search_result(query, text, ignore_case),
        matches_view(second) == search_result(query, text, ignore_case),
    ensures
        first.len() == second.len(),
        forall|k: int|
            0 <= k < first.len() ==> #[trigger] first[k].0 == second[k].0 && first[k].1@
                == second[k].1@,
{
    assert(matches_view(first).len() == first.len());
    assert(matches_view(second).len() == second.len());
    assert forall|k: int| 0 <= k < first.len() implies #[trigger] first[k].0 == second[k].0
        && first[k].1@ == second[k].1@ by {
        assert(matches_view(first)[k] == matches_view(second)[k]);
    }
}

/// Lowercasing `s` gives what lowercasing each of its characters alone and
/// joining the results gives.
pub open spec fn folds_by_char(s: Seq<char>) -> bool {
    lower_of(s) == s.flat_map(|c: char| lower_of(seq![c]))
}

proof fn lemma_flat_map_add<A, B>(a: Seq<A>, b: Seq<A>, f: spec_fn(A) -> Seq<B>)
    ensures
        (a + b).flat_map(f) == a.flat_map(f) + b.flat_map(f),
    decreases b.len(),
{
    if b.len() == 0 {
        assert(a + b =~= a);
        assert(b.flat_map(f) =~= Seq::<B>::empty()) by {
            reveal_with_fuel(Seq::flatten, 1);
        }
        assert(a.flat_map(f) + b.flat_map(f) =~= a.flat_map(f));
    } else {
        let init = b.drop_last();
        lemma_flat_map_add(a, init, f);
        assert(init.push(b.last()) =~= b);
        assert((a + init).push(b.last()) =~= a + b);
        (a + init).lemma_flat_map_push(f, b.last());
        init.lemma_flat_map_push(f, b.last());
        assert((a + b).flat_map(f) =~= a.flat_map(f) + b.flat_map(f));
    }
}

/// Where lowercasing acts character by character, a line that holds the
/// query also holds it once both are lowercased.
proof fn lemma_folding_keeps_substring(line: Seq<char>, query: Seq<char>)
    requires
        folds_by_char(line),
        folds_by_char(query),
        has_substring(line, query),
    ensures
        has_substring(lower_of(line), lower_of(query)),
{
    let f = |c: char| lower_of(seq![c]);
    let i = choose|i: int| stands_at(line, i, query);
    let before = line.take(i);
    let after = line.skip(i + query.len());
    assert(line =~= before + query + after);
    lemma_flat_map_add(before + query, after, f);
    lemma_flat_map_add(before, query, f);
    let j = before.flat_map(f).len() as int;
    let folded = lower_of(line);
    assert(folded.subrange(j, j + lower_of(query).len()) =~= lower_of(query));
    assert(stands_at(folded, j, lower_of(query)));
}

/// Ignoring case loses no match: where lowercasing acts character by
/// character on the query and on every line of the text, each match of a
/// case-sensitive search is also a match of the case-insensitive one.
pub proof fn lemma_ignore_case_keeps_matches(query: Seq<char>, text: Seq<char>)
    requires
        folds_by_char(query),
        forall|k: int| 0 <= k < lines_of(text).len() ==> folds_by_char(#[trigger] lines_of(text)[k]),
    ensures
        forall|k: int|
            0 <= k < search_result(query, text, false).len() ==> search_result(
                query,
                text,
                true,
            ).contains(#[trigger] search_result(query, text, false)[k]),
{
    let lines = lines_of(text);
    let exact = answers(query, false);
    let folded = answers(query, true);
    lemma_numbers_valid(lines, exact);
    broadcast use vstd::seq_lib::group_filter_ensures;

    assert forall|k: int| 0 <= k < search_result(query, text, false).len() implies search_result(
        query,
        text,
        true,
    ).contains(#[trigger] search_result(query, text, false)[k]) by {
        let m = numbered(lines).filter(exact)[k];
        let i = m.0 - 1;
        assert(numbered(lines)[i] == m);
        assert(exact(m));
        lemma_folding_keeps_substring(lines[i], query);
        assert(folded(numbered(lines)[i]));
    }
}

} // verus!
