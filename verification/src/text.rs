//! Text as a sequence of characters: its lines, and the rows of a board
//! file.

use vstd::prelude::*;

verus! {

/// The lines of `text`: what stands between its line feeds. A text
/// without a line feed is one line, and a text that ends in a line feed
/// has an empty last line.
pub open spec fn lines(text: Seq<char>) -> Seq<Seq<char>>
    decreases text.len(),
{
    if text.len() == 0 {
        seq![Seq::empty()]
    } else {
        let before = lines(text.drop_last());
        if text.last() == '\n' {
            before.push(Seq::empty())
        } else {
            before.update(before.len() - 1, before.last().push(text.last()))
        }
    }
}

/// A line that begins with two slashes is a comment.
pub open spec fn is_comment(line: Seq<char>) -> bool {
    line.len() >= 2 && line[0] == '/' && line[1] == '/'
}

/// Those of the first `n` lines that are no comments, in order.
pub open spec fn without_comments(all: Seq<Seq<char>>, n: int) -> Seq<Seq<char>>
    decreases n,
{
    if n <= 0 {
        Seq::empty()
    } else if is_comment(all[n - 1]) {
        without_comments(all, n - 1)
    } else {
        without_comments(all, n - 1).push(all[n - 1])
    }
}

/// The rows of a board file: its lines after the first, comments left out.
pub open spec fn board_rows(text: Seq<char>) -> Seq<Seq<char>> {
    let body = lines(text).drop_first();
    without_comments(body, body.len() as int)
}

/// The contents of the lines held in `rows`.
pub open spec fn rows_of(rows: Seq<Vec<char>>) -> Seq<Seq<char>> {
    Seq::new(rows.len(), |i: int| rows[i]@)
}

/// A text always has a first line.
pub proof fn lemma_lines_nonempty(text: Seq<char>)
    ensures
        lines(text).len() >= 1,
    decreases text.len(),
{
    if text.len() > 0 {
        lemma_lines_nonempty(text.drop_last());
    }
}

/// The characters of `text`, in order.
pub fn characters(text: &str) -> (res: Vec<char>)
    ensures
        res@ == text@,
{
    let mut res: Vec<char> = Vec::new();
    for c in it: text.chars()
        invariant
            res@ == text@.take(it.index() as int),
            it.seq() == text@,
    {
        res.push(c);
    }
    assert(text@.take(text@.len() as int) =~= text@);
    res
}

/// A copy of `line`.
pub fn copy_line(line: &Vec<char>) -> (res: Vec<char>)
    ensures
        res@ == line@,
{
    let mut res: Vec<char> = Vec::new();
    let mut i: usize = 0;
    while i < line.len()
        invariant
            i <= line.len(),
            res@ == line@.take(i as int),
        decreases line.len() - i,
    {
        res.push(line[i]);
        i += 1;
    }
    assert(line@.take(line@.len() as int) =~= line@);
    res
}

/// The lines of `text`.
pub fn split_lines(text: &Vec<char>) -> (res: Vec<Vec<char>>)
    ensures
        rows_of(res@) == lines(text@),
{
    let mut done: Vec<Vec<char>> = Vec::new();
    let mut current: Vec<char> = Vec::new();
    let mut i: usize = 0;
    assert(rows_of(done@).push(current@) =~= lines(text@.take(0)));
    while i < text.len()
        invariant
            i <= text.len(),
            rows_of(done@).push(current@) == lines(text@.take(i as int)),
        decreases text.len() - i,
    {
        let ghost before = lines(text@.take(i as int));
        let ghost old_done = done@;
        let ghost old_current = current@;
        proof {
            assert(text@.take(i + 1).drop_last() =~= text@.take(i as int));
            assert(text@.take(i + 1).last() == text@[i as int]);
        }
        if text[i] == '\n' {
            done.push(current);
            current = Vec::new();
            assert(rows_of(done@).push(current@) =~= before.push(Seq::empty()));
        } else {
            current.push(text[i]);
            assert(before.last() == old_current);
            assert(rows_of(done@).push(current@) =~= before.update(
                before.len() - 1,
                before.last().push(text@[i as int]),
            ));
        }
        i += 1;
    }
    assert(text@.take(text@.len() as int) =~= text@);
    let ghost all = rows_of(done@).push(current@);
    done.push(current);
    assert(rows_of(done@) =~= all);
    done
}

/// Whether `line` begins with two slashes.
pub fn is_comment_line(line: &Vec<char>) -> (res: bool)
    ensures
        res == is_comment(line@),
{
    line.len() >= 2 && line[0] == '/' && line[1] == '/'
}

/// The rows of the board file `text`: its lines after the first, comments
/// left out.
pub fn split_rows(text: &Vec<char>) -> (res: Vec<Vec<char>>)
    ensures
        rows_of(res@) == board_rows(text@),
{
    let all = split_lines(text);
    let ghost body = lines(text@).drop_first();
    proof {
        lemma_lines_nonempty(text@);
    }
    let mut rows: Vec<Vec<char>> = Vec::new();
    let mut i: usize = 1;
    assert(rows_of(rows@) =~= without_comments(body, 0));
    while i < all.len()
        invariant
            1 <= i <= all.len(),
            rows_of(all@) == lines(text@),
            body == lines(text@).drop_first(),
            rows_of(rows@) == without_comments(body, i - 1),
        decreases all.len() - i,
    {
        assert(rows_of(all@)[i as int] == all@[i as int]@);
        assert(body[i - 1] == all@[i as int]@);
        if !is_comment_line(&all[i]) {
            let ghost before = rows_of(rows@);
            let line = copy_line(&all[i]);
            rows.push(line);
            assert(rows_of(rows@) =~= before.push(body[i - 1]));
        }
        i += 1;
    }
    rows
}

} // verus!
