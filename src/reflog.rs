//! Reconstruction of the branch-visit history from checkout-log text.
use vstd::prelude::*;
use crate::text::{chars_of, find, find_from, slice_of, string_of};

verus! {

/// The phrase that marks a checkout transition: `moving from `.
pub open spec fn marker() -> Seq<char> {
    seq!['m', 'o', 'v', 'i', 'n', 'g', ' ', 'f', 'r', 'o', 'm', ' ']
}

/// The separator between the source and the destination branch: ` to `.
pub open spec fn separator() -> Seq<char> {
    seq![' ', 't', 'o', ' ']
}

/// `line` without one trailing carriage return.
pub open spec fn strip_cr(line: Seq<char>) -> Seq<char> {
    if line.len() > 0 && line.last() == '\r' {
        line.drop_last()
    } else {
        line
    }
}

/// The pieces of `s` between newlines, in order; a piece that a newline ends
/// loses one trailing carriage return. The last piece is the unterminated rest,
/// possibly empty.
pub open spec fn pieces(s: Seq<char>) -> Seq<Seq<char>>
    decreases s.len(),
{
    if s.len() == 0 {
        seq![Seq::empty()]
    } else {
        let prev = pieces(s.drop_last());
        if s.last() == '\n' {
            prev.update(prev.len() - 1, strip_cr(prev.last())).push(Seq::empty())
        } else {
            prev.update(prev.len() - 1, prev.last().push(s.last()))
        }
    }
}

/// The source and destination branch of a transition line, if it is one: the
/// text after the first marker, split at the first separator.
pub open spec fn transition(line: Seq<char>) -> Option<(Seq<char>, Seq<char>)> {
    match find_from(line, marker(), 0) {
        None => None,
        Some(p) => {
            let rest = line.skip(p + marker().len());
            match find_from(rest, separator(), 0) {
                None => None,
                Some(q) => Some((rest.take(q), rest.skip(q + separator().len()))),
            }
        },
    }
}

/// The history after reading `lines` in order: the first transition seeds the
/// current branch with its destination, and every transition appends its source.
pub open spec fn history_of_lines(lines: Seq<Seq<char>>) -> Seq<Seq<char>>
    decreases lines.len(),
{
    if lines.len() == 0 {
        Seq::empty()
    } else {
        let h = history_of_lines(lines.drop_last());
        match transition(lines.last()) {
            None => h,
            Some((from, to)) => if h.len() == 0 {
                seq![to, from]
            } else {
                h.push(from)
            },
        }
    }
}

/// The branch history that a log text describes.
pub open spec fn branch_history(log: Seq<char>) -> Seq<Seq<char>> {
    history_of_lines(pieces(log))
}

/// How many of `lines` are transition lines.
pub open spec fn transition_count(lines: Seq<Seq<char>>) -> nat
    decreases lines.len(),
{
    if lines.len() == 0 {
        0
    } else {
        transition_count(lines.drop_last()) + if transition(lines.last()) is Some {
            1nat
        } else {
            0nat
        }
    }
}

/// The first transition among `lines`, in reading order.
pub open spec fn first_transition(lines: Seq<Seq<char>>) -> Option<(Seq<char>, Seq<char>)>
    decreases lines.len(),
{
    if lines.len() == 0 {
        None
    } else {
        match first_transition(lines.drop_last()) {
            Some(t) => Some(t),
            None => transition(lines.last()),
        }
    }
}

proof fn lemma_history_of_lines(lines: Seq<Seq<char>>)
    ensures
        transition_count(lines) == 0 ==> history_of_lines(lines).len() == 0,
        transition_count(lines) > 0 ==> history_of_lines(lines).len() == transition_count(lines) + 1,
        first_transition(lines) is None <==> transition_count(lines) == 0,
        first_transition(lines) matches Some((a, b)) ==> history_of_lines(lines)[0] == b,
    decreases lines.len(),
{
    if lines.len() > 0 {
        lemma_history_of_lines(lines.drop_last());
    }
}

/// A log with k transition lines, k at least one, gives a history of k + 1
/// branches; a log with none gives an empty history.
pub proof fn lemma_history_length(log: Seq<char>)
    ensures
        transition_count(pieces(log)) > 0 ==> branch_history(log).len() == transition_count(pieces(log)) + 1,
        transition_count(pieces(log)) == 0 ==> branch_history(log).len() == 0,
{
    lemma_history_of_lines(pieces(log));
}

/// The current branch is the destination of the first transition line read,
/// whatever lines come before it.
pub proof fn lemma_current_is_first_destination(log: Seq<char>)
    ensures
        first_transition(pieces(log)) matches Some((from, to)) ==> branch_history(log).len() > 0
            && branch_history(log)[0] == to,
{
    lemma_history_of_lines(pieces(log));
}

/// The views of a list of strings.
pub open spec fn views(v: Seq<String>) -> Seq<Seq<char>> {
    v.map_values(|s: String| s@)
}

fn marker_chars() -> (r: Vec<char>)
    ensures
        r@ == marker(),
{
    let r = vec!['m', 'o', 'v', 'i', 'n', 'g', ' ', 'f', 'r', 'o', 'm', ' '];
    assert(r@ =~= marker());
    r
}

fn separator_chars() -> (r: Vec<char>)
    ensures
        r@ == separator(),
{
    let r = vec![' ', 't', 'o', ' '];
    assert(r@ =~= separator());
    r
}

/// The source and destination branch of `line`, if it is a transition line.
pub fn parse_transition(line: &Vec<char>) -> (r: Option<(String, String)>)
    ensures
        r matches Some((a, b)) ==> transition(line@) == Some((a@, b@)),
        r is None ==> transition(line@) is None,
{
    let mk = marker_chars();
    let sep = separator_chars();
    match find(line, &mk, 0) {
        None => None,
        Some(p) => {
            let n = line.len();
            let rest = slice_of(line, p + mk.len(), n);
            assert(rest@ =~= line@.skip(p + marker().len()));
            match find(&rest, &sep, 0) {
                None => None,
                Some(q) => {
                    let from = string_of(&rest, 0, q);
                    let to = string_of(&rest, q + sep.len(), rest.len());
                    assert(from@ =~= rest@.take(q as int));
                    assert(to@ =~= rest@.skip(q + separator().len()));
                    Some((from, to))
                },
            }
        },
    }
}

fn add_line(history: &mut Vec<String>, line: &Vec<char>, Ghost(done): Ghost<Seq<Seq<char>>>)
    requires
        views(old(history)@) == history_of_lines(done),
    ensures
        views(final(history)@) == history_of_lines(done.push(line@)),
{
    assert(done.push(line@).drop_last() =~= done);
    match parse_transition(line) {
        None => {},
        Some((from, to)) => {
            if history.len() == 0 {
                history.push(to);
                history.push(from);
                assert(views(history@) =~= seq![to@, from@]);
            } else {
                let ghost before = history@;
                history.push(from);
                assert(views(history@) =~= views(before).push(from@));
            }
        },
    }
}

/// Extracts the branch-visit history from checkout-log text: the current branch
/// first, then the branch one checkout back, and so on.
pub fn extract_branch_history(reflog: &str) -> (r: Vec<String>)
    ensures
        views(r@) == branch_history(reflog@),
{
    let c = chars_of(reflog);
    let mut history: Vec<String> = Vec::new();
    let mut start: usize = 0;
    let mut i: usize = 0;
    let ghost mut done: Seq<Seq<char>> = Seq::empty();
    assert(c@.take(0) =~= Seq::<char>::empty());
    assert(views(history@) =~= Seq::<Seq<char>>::empty());
    while i < c.len()
        invariant
            start <= i <= c@.len(),
            pieces(c@.take(i as int)) == done.push(c@.subrange(start as int, i as int)),
            views(history@) == history_of_lines(done),
        decreases c@.len() - i,
    {
        let ghost prefix = c@.take(i as int);
        assert(c@.take(i + 1).drop_last() =~= prefix);
        if c[i] == '\n' {
            let mut end = i;
            if end > start && c[end - 1] == '\r' {
                end = end - 1;
            }
            let line = slice_of(&c, start, end);
            assert(line@ =~= strip_cr(c@.subrange(start as int, i as int)));
            proof {
                let prev = pieces(prefix);
                assert(c@.take(i + 1).last() == '\n');
                assert(pieces(c@.take(i + 1)) == prev.update(prev.len() - 1, strip_cr(prev.last())).push(Seq::empty()));
                assert(prev.last() == c@.subrange(start as int, i as int));
                assert(prev.update(prev.len() - 1, strip_cr(prev.last())) =~= done.push(line@));
                assert(c@.subrange(i + 1, i + 1) =~= Seq::<char>::empty());
            }
            add_line(&mut history, &line, Ghost(done));
            proof {
                done = done.push(line@);
            }
            start = i + 1;
            i = i + 1;
            assert(pieces(c@.take(i as int)) =~= done.push(c@.subrange(start as int, i as int)));
        } else {
            proof {
                let prev = pieces(prefix);
                assert(c@.take(i + 1).last() == c@[i as int]);
                assert(pieces(c@.take(i + 1)) == prev.update(prev.len() - 1, prev.last().push(c@[i as int])));
            }
            i = i + 1;
            assert(c@.subrange(start as int, i as int) =~= c@.subrange(start as int, i - 1).push(c@[i - 1]));
            assert(pieces(c@.take(i as int)) =~= done.push(c@.subrange(start as int, i as int)));
        }
    }
    assert(c@.take(i as int) =~= reflog@);
    let line = slice_of(&c, start, i);
    add_line(&mut history, &line, Ghost(done));
    history
}

/// The branch `n` checkouts back, where 0 is the current branch; none when the
/// history is not that long.
pub fn get_nth_previous_branch(history: &[String], n: usize) -> (r: Option<&String>)
    ensures
        n < history@.len() ==> r == Some(&history@[n as int]),
        n >= history@.len() ==> r is None,
{
    if n < history.len() {
        Some(&history[n])
    } else {
        None
    }
}

} // verus!
