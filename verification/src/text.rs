//! Texts and their lines.

use vstd::prelude::*;

verus! {

/// `String::push` of std puts one character at the end of a string.
#[verifier::external_body]
pub(crate) fn push_char(text: &mut String, ch: char)
    ensures
        final(text)@ == old(text)@.push(ch),
{
    text.push(ch);
}

/// The lines one after the other, each followed by a line feed.
pub open spec fn join_lines(lines: Seq<Seq<char>>) -> Seq<char>
    decreases lines.len(),
{
    if lines.len() == 0 {
        Seq::empty()
    } else {
        lines[0] + seq!['\n'] + join_lines(lines.drop_first())
    }
}

/// The place of the first line feed in `text`, or the length of `text` where it has none.
pub open spec fn first_break(text: Seq<char>) -> int
    decreases text.len(),
{
    if text.len() == 0 || text[0] == '\n' {
        0
    } else {
        1 + first_break(text.drop_first())
    }
}

/// The lines of `text`. A line ends before a line feed; what follows the last
/// line feed is a line too unless it is empty.
pub open spec fn split_lines(text: Seq<char>) -> Seq<Seq<char>>
    decreases text.len(),
{
    if text.len() == 0 {
        Seq::empty()
    } else {
        let at = first_break(text);
        if 0 <= at < text.len() {
            seq![text.take(at)] + split_lines(text.skip(at + 1))
        } else {
            seq![text]
        }
    }
}

/// No character of `line` is a line feed.
pub open spec fn is_one_line(line: Seq<char>) -> bool {
    forall|i: int| 0 <= i < line.len() ==> #[trigger] line[i] != '\n'
}

/// The first line feed of a text lies in it or at its end, and before it lies none.
pub proof fn lemma_first_break(text: Seq<char>)
    ensures
        0 <= first_break(text) <= text.len(),
        is_one_line(text.take(first_break(text))),
        first_break(text) < text.len() ==> text[first_break(text)] == '\n',
    decreases text.len(),
{
    if text.len() == 0 || text[0] == '\n' {
    } else {
        let rest = text.drop_first();
        lemma_first_break(rest);
        let at = first_break(text);
        assert forall|i: int| 0 <= i < text.take(at).len() implies #[trigger] text.take(at)[i] != '\n' by {
            if i > 0 {
                assert(text.take(at)[i] == rest.take(at - 1)[i - 1]);
            }
        }
    }
}

/// Behind a line without a line feed, the first line feed of what follows is
/// the first of the whole.
pub proof fn lemma_first_break_after(line: Seq<char>, rest: Seq<char>)
    requires
        is_one_line(line),
    ensures
        first_break(line + rest) == line.len() + first_break(rest),
    decreases line.len(),
{
    if line.len() == 0 {
        assert(line + rest =~= rest);
    } else {
        let whole = line + rest;
        assert(whole[0] == line[0]);
        assert(whole.drop_first() =~= line.drop_first() + rest);
        assert forall|i: int| 0 <= i < line.drop_first().len() implies #[trigger] line.drop_first()[i]
            != '\n' by {
            assert(line.drop_first()[i] == line[i + 1]);
        }
        lemma_first_break_after(line.drop_first(), rest);
    }
}

/// A line without a line feed, a line feed and more text are split into that
/// line and the lines of the rest.
pub proof fn lemma_split_after_line(line: Seq<char>, rest: Seq<char>)
    requires
        is_one_line(line),
    ensures
        split_lines(line + seq!['\n'] + rest) == seq![line] + split_lines(rest),
{
    let tail = seq!['\n'] + rest;
    let whole = line + seq!['\n'] + rest;
    assert(whole =~= line + tail);
    lemma_first_break_after(line, tail);
    assert(first_break(tail) == 0);
    assert(whole.take(line.len() as int) =~= line);
    assert(whole.skip(line.len() as int + 1) =~= rest);
}

/// A text without a line feed is one line, or none where it is empty.
pub proof fn lemma_split_one_line(line: Seq<char>)
    requires
        is_one_line(line),
    ensures
        split_lines(line) == (if line.len() == 0 {
            Seq::<Seq<char>>::empty()
        } else {
            seq![line]
        }),
{
    if line.len() > 0 {
        lemma_first_break_after(line, Seq::<char>::empty());
        assert(line + Seq::<char>::empty() =~= line);
    }
}

/// Lines without line feeds, joined to a text, are split into the same lines.
pub proof fn lemma_split_join(lines: Seq<Seq<char>>)
    requires
        forall|i: int, j: int| 0 <= i < lines.len() && 0 <= j < lines[i].len() ==> #[trigger] lines[i][j] != '\n',
    ensures
        split_lines(join_lines(lines)) == lines,
    decreases lines.len(),
{
    if lines.len() == 0 {
    } else {
        let rest = lines.drop_first();
        assert forall|i: int, j: int| 0 <= i < rest.len() && 0 <= j < rest[i].len() implies #[trigger] rest[i][j]
            != '\n' by {
            assert(rest[i][j] == lines[i + 1][j]);
        }
        lemma_split_join(rest);
        assert(is_one_line(lines[0])) by {
            assert forall|j: int| 0 <= j < lines[0].len() implies #[trigger] lines[0][j] != '\n' by {}
        }
        lemma_split_after_line(lines[0], join_lines(rest));
        assert(seq![lines[0]] + rest =~= lines);
    }
}

/// Joining lines one by one: the text of more lines is the text of the first
/// of them and then the text of the others.
pub proof fn lemma_join_append(a: Seq<Seq<char>>, b: Seq<Seq<char>>)
    ensures
        join_lines(a + b) == join_lines(a) + join_lines(b),
    decreases a.len(),
{
    if a.len() == 0 {
        assert(a + b =~= b);
        assert(join_lines(a) + join_lines(b) =~= join_lines(b));
    } else {
        assert((a + b).drop_first() =~= a.drop_first() + b);
        lemma_join_append(a.drop_first(), b);
        assert((a + b)[0] == a[0]);
        assert(join_lines(a + b) =~= join_lines(a) + join_lines(b));
    }
}

/// The rows as one text, each row as a line that ends with a line feed.
pub fn join_rows(rows: &Vec<Vec<char>>) -> (text: String)
    ensures
        text@ == join_lines(Seq::new(rows.len() as nat, |i: int| rows[i]@)),
{
    let ghost lines = Seq::new(rows.len() as nat, |i: int| rows[i]@);
    let mut text = String::new();
    let mut r: usize = 0;
    while r < rows.len()
        invariant
            r <= rows.len(),
            lines == Seq::new(rows.len() as nat, |i: int| rows[i]@),
            text@ == join_lines(lines.take(r as int)),
        decreases rows.len() - r,
    {
        let row = &rows[r];
        let ghost before = text@;
        let mut c: usize = 0;
        while c < row.len()
            invariant
                c <= row.len(),
                text@ == before + row@.take(c as int),
            decreases row.len() - c,
        {
            push_char(&mut text, row[c]);
            c += 1;
            assert(text@ =~= before + row@.take(c as int));
        }
        push_char(&mut text, '\n');
        proof {
            assert(row@.take(row.len() as int) =~= row@);
            let one = seq![lines[r as int]];
            assert(lines.take(r as int + 1) =~= lines.take(r as int) + one);
            lemma_join_append(lines.take(r as int), one);
            assert(one.drop_first() =~= Seq::<Seq<char>>::empty());
            assert(join_lines(one.drop_first()) =~= Seq::<char>::empty());
            assert(one[0] == row@);
            assert(join_lines(one) =~= row@ + seq!['\n']);
            assert(text@ =~= before + join_lines(one));
        }
        r += 1;
    }
    assert(lines.take(rows.len() as int) =~= lines);
    text
}

/// The lines of `text`, each as a vector of characters.
pub fn split_text(text: &str) -> (rows: Vec<Vec<char>>)
    ensures
        Seq::new(rows.len() as nat, |i: int| rows[i]@) == split_lines(text@),
{
    let mut rows: Vec<Vec<char>> = Vec::new();
    let mut current: Vec<char> = Vec::new();
    let ghost mut done: Seq<Seq<char>> = Seq::empty();
    proof {
        assert(current@ + text@.skip(0) =~= text@);
        assert(done + split_lines(text@) =~= split_lines(text@));
    }
    for ch in it: text.chars()
        invariant
            it.seq() == text@,
            done == Seq::new(rows.len() as nat, |i: int| rows[i]@),
            is_one_line(current@),
            split_lines(text@) == done + split_lines(current@ + text@.skip(it.index() as int)),
    {
        let ghost i = it.index() as int;
        let ghost rest = text@.skip(i + 1);
        let ghost line = current@;
        let ghost done_before = done;
        proof {
            assert(ch == text@[i]);
            assert(text@.skip(i) =~= seq![ch] + rest);
            assert(split_lines(text@) == done_before + split_lines(line + text@.skip(i)));
        }
        if ch == '\n' {
            proof {
                assert(line + text@.skip(i) =~= line + seq!['\n'] + rest);
                lemma_split_after_line(line, rest);
                assert(done_before + (seq![line] + split_lines(rest)) =~= done_before.push(line)
                    + split_lines(rest));
                done = done_before.push(line);
            }
            rows.push(current);
            current = Vec::new();
            proof {
                assert(current@ + rest =~= rest);
                assert(done =~= Seq::new(rows.len() as nat, |i: int| rows[i]@));
                assert(split_lines(text@) == done + split_lines(current@ + rest));
            }
        } else {
            current.push(ch);
            proof {
                assert(current@ == line.push(ch));
                assert(current@ + rest =~= line + text@.skip(i));
                assert forall|k: int| 0 <= k < current@.len() implies #[trigger] current@[k] != '\n' by {
                    if k < line.len() {
                        assert(current@[k] == line[k]);
                    }
                }
                assert(split_lines(text@) == done + split_lines(current@ + rest));
            }
        }
    }
    proof {
        assert(text@.skip(text@.len() as int) =~= Seq::<char>::empty());
        assert(current@ + Seq::<char>::empty() =~= current@);
        lemma_split_one_line(current@);
    }
    if current.len() > 0 {
        proof {
            done = done.push(current@);
        }
        rows.push(current);
        assert(done =~= Seq::new(rows.len() as nat, |i: int| rows[i]@));
    } else {
        assert(done + Seq::<Seq<char>>::empty() =~= done);
    }
    rows
}

} // verus!
