//! Splitting raw text into lines and joining lines back into text.
//!
//! The convention is fixed once: lines are separated by a single `'\n'`, a
//! text with no `'\n'` is one line, and every `'\n'` opens a new (possibly
//! empty) line. Splitting and joining are exact inverses as long as no line
//! itself contains `'\n'`.

use vstd::prelude::*;

verus! {

/// True when no character of `s` is a line terminator.
pub open spec fn nl_free(s: Seq<char>) -> bool {
    forall|i: int| 0 <= i < s.len() ==> s[i] != '\n'
}

/// True when every line of `ls` is free of line terminators.
pub open spec fn all_nl_free(ls: Seq<Seq<char>>) -> bool {
    forall|i: int| 0 <= i < ls.len() ==> nl_free(#[trigger] ls[i])
}

/// The lines of `s`: `'\n'` separates lines, so `k` terminators give
/// `k + 1` lines. The empty text is one empty line.
pub open spec fn split_text(s: Seq<char>) -> Seq<Seq<char>>
    decreases s.len(),
{
    if s.len() == 0 {
        seq![Seq::<char>::empty()]
    } else if s[0] == '\n' {
        seq![Seq::<char>::empty()] + split_text(s.subrange(1, s.len() as int))
    } else {
        let rest = split_text(s.subrange(1, s.len() as int));
        rest.update(0, seq![s[0]] + rest[0])
    }
}

/// The text of the lines `ls`, joined by `'\n'`.
pub open spec fn join_text(ls: Seq<Seq<char>>) -> Seq<char>
    decreases ls.len(),
{
    if ls.len() == 0 {
        Seq::<char>::empty()
    } else if ls.len() == 1 {
        ls[0]
    } else {
        ls[0] + seq!['\n'] + join_text(ls.subrange(1, ls.len() as int))
    }
}

/// Splitting always yields at least one line.
pub proof fn lemma_split_len(s: Seq<char>)
    ensures
        split_text(s).len() >= 1,
    decreases s.len(),
{
    if s.len() != 0 && s[0] != '\n' {
        lemma_split_len(s.subrange(1, s.len() as int));
    }
}

/// Every line produced by splitting is itself free of terminators.
pub proof fn lemma_split_nl_free(s: Seq<char>)
    ensures
        all_nl_free(split_text(s)),
    decreases s.len(),
{
    if s.len() == 0 {
    } else {
        lemma_split_nl_free(s.subrange(1, s.len() as int));
        lemma_split_len(s.subrange(1, s.len() as int));
        if s[0] == '\n' {
        } else {
            let rest = split_text(s.subrange(1, s.len() as int));
            let r = rest.update(0, seq![s[0]] + rest[0]);
            assert forall|i: int| 0 <= i < r.len() implies nl_free(#[trigger] r[i]) by {
                if i == 0 {
                    assert(nl_free(rest[0]));
                    assert(forall|j: int| 0 <= j < r[0].len() ==> r[0][j] != '\n');
                }
            }
        }
    }
}

/// A text without terminators splits into exactly one line, itself.
pub proof fn lemma_split_no_nl(s: Seq<char>)
    requires
        nl_free(s),
    ensures
        split_text(s) == seq![s],
    decreases s.len(),
{
    if s.len() == 0 {
        assert(split_text(s) =~~= seq![s]);
    } else {
        let tail = s.subrange(1, s.len() as int);
        lemma_split_no_nl(tail);
        assert(seq![s[0]] + tail =~= s);
        assert(split_text(s) =~~= seq![s]);
    }
}

/// When the first terminator of `s` stands at `i`, the first line is
/// everything before it and the rest splits on its own.
pub proof fn lemma_split_first_nl(s: Seq<char>, i: int)
    requires
        0 <= i < s.len(),
        s[i] == '\n',
        forall|j: int| 0 <= j < i ==> s[j] != '\n',
    ensures
        split_text(s) == seq![s.subrange(0, i)] + split_text(s.subrange(i + 1, s.len() as int)),
    decreases i,
{
    let tail = s.subrange(1, s.len() as int);
    if i == 0 {
        assert(s.subrange(0, 0) =~= Seq::<char>::empty());
        assert(split_text(s) =~~= seq![s.subrange(0, i)] + split_text(
            s.subrange(i + 1, s.len() as int),
        ));
    } else {
        lemma_split_first_nl(tail, i - 1);
        lemma_split_len(tail.subrange(i, tail.len() as int));
        assert(tail.subrange(0, i - 1) =~= s.subrange(1, i));
        assert(tail.subrange(i, tail.len() as int) =~= s.subrange(i + 1, s.len() as int));
        assert(seq![s[0]] + s.subrange(1, i) =~= s.subrange(0, i));
        assert(split_text(s) =~~= seq![s.subrange(0, i)] + split_text(
            s.subrange(i + 1, s.len() as int),
        ));
    }
}

/// Joining the lines of a text gives back the text.
pub proof fn lemma_join_split(s: Seq<char>)
    ensures
        join_text(split_text(s)) == s,
    decreases s.len(),
{
    if s.len() == 0 {
        assert(join_text(split_text(s)) =~= s);
    } else {
        let tail = s.subrange(1, s.len() as int);
        lemma_join_split(tail);
        lemma_split_len(tail);
        if s[0] == '\n' {
            let parts = seq![Seq::<char>::empty()] + split_text(tail);
            assert(parts.subrange(1, parts.len() as int) =~= split_text(tail));
            assert(join_text(split_text(s)) =~= s);
        } else {
            let rest = split_text(tail);
            let parts = rest.update(0, seq![s[0]] + rest[0]);
            if rest.len() == 1 {
                assert(join_text(rest) == rest[0]);
                assert(join_text(parts) == parts[0]);
                assert(parts[0] =~= s);
            } else {
                assert(parts.subrange(1, parts.len() as int) =~= rest.subrange(
                    1,
                    rest.len() as int,
                ));
                let jtail = join_text(rest.subrange(1, rest.len() as int));
                assert(join_text(parts) == parts[0] + seq!['\n'] + jtail);
                assert(tail == rest[0] + seq!['\n'] + jtail);
                assert((seq![s[0]] + rest[0]) + seq!['\n'] + jtail =~= seq![s[0]] + (rest[0]
                    + seq!['\n'] + jtail));
                assert(join_text(parts) =~= s);
            }
        }
    }
}

/// Splitting the join of terminator-free lines gives back the lines.
pub proof fn lemma_split_join(ls: Seq<Seq<char>>)
    requires
        ls.len() >= 1,
        all_nl_free(ls),
    ensures
        split_text(join_text(ls)) == ls,
    decreases ls.len(),
{
    if ls.len() == 1 {
        lemma_split_no_nl(ls[0]);
        assert(split_text(join_text(ls)) =~~= ls);
    } else {
        let rest = ls.subrange(1, ls.len() as int);
        lemma_split_join(rest);
        let s = join_text(ls);
        let i = ls[0].len() as int;
        assert(s =~= ls[0] + seq!['\n'] + join_text(rest));
        assert(forall|j: int| 0 <= j < i ==> s[j] != '\n');
        assert(s[i] == '\n');
        lemma_split_first_nl(s, i);
        assert(s.subrange(0, i) =~= ls[0]);
        assert(s.subrange(i + 1, s.len() as int) =~= join_text(rest));
        assert(split_text(join_text(ls)) =~~= ls);
    }
}

/// Appending one more line to a joined text appends a terminator and the line.
pub proof fn lemma_join_snoc(ls: Seq<Seq<char>>, x: Seq<char>)
    requires
        ls.len() >= 1,
    ensures
        join_text(ls.push(x)) == join_text(ls) + seq!['\n'] + x,
    decreases ls.len(),
{
    if ls.len() == 1 {
        assert(ls.push(x).subrange(1, 2) =~= seq![x]);
        assert(ls.push(x)[0] == ls[0]);
        assert(join_text(seq![x]) == x);
        assert(join_text(ls) == ls[0]);
        assert(join_text(ls.push(x)) == ls.push(x)[0] + seq!['\n'] + join_text(
            ls.push(x).subrange(1, 2),
        ));
        assert(join_text(ls.push(x)) =~= join_text(ls) + seq!['\n'] + x);
    } else {
        let rest = ls.subrange(1, ls.len() as int);
        lemma_join_snoc(rest, x);
        assert(ls.push(x).subrange(1, ls.len() as int + 1) =~= rest.push(x));
        assert(join_text(ls.push(x)) == ls[0] + seq!['\n'] + join_text(rest.push(x)));
        assert(ls[0] + seq!['\n'] + (join_text(rest) + seq!['\n'] + x) =~= (ls[0] + seq!['\n']
            + join_text(rest)) + seq!['\n'] + x);
        assert(join_text(ls.push(x)) =~= join_text(ls) + seq!['\n'] + x);
    }
}

/// Only the empty text splits into a single empty line.
pub proof fn lemma_split_empty(s: Seq<char>)
    ensures
        (split_text(s).len() == 1 && split_text(s)[0].len() == 0) <==> s.len() == 0,
    decreases s.len(),
{
    if s.len() > 0 {
        let tail = s.subrange(1, s.len() as int);
        lemma_split_len(tail);
        if s[0] != '\n' {
            let rest = split_text(tail);
            assert(split_text(s)[0] == seq![s[0]] + rest[0]);
            assert(split_text(s)[0].len() > 0);
        }
    }
}

/// Splits `text` into its lines. The result always holds at least one line;
/// a `'\n'`-free text is a single line.
pub fn split_lines(text: &str) -> (r: Vec<String>)
    ensures
        r.deep_view() == split_text(text@),
        r@.len() >= 1,
{
    let n = text.unicode_len();
    let mut result: Vec<String> = Vec::new();
    let mut start: usize = 0;
    let mut i: usize = 0;
    proof {
        assert(text@.subrange(0, n as int) =~= text@);
        assert(result.deep_view() =~= Seq::<Seq<char>>::empty());
        assert(result.deep_view() + split_text(text@) =~= split_text(text@));
    }
    while i < n
        invariant
            start <= i <= n,
            n == text@.len(),
            forall|j: int| start <= j < i ==> text@[j] != '\n',
            split_text(text@) == result.deep_view() + split_text(
                text@.subrange(start as int, n as int),
            ),
        decreases n - i,
    {
        if text.get_char(i) == '\n' {
            let seg = text.substring_char(start, i).to_owned();
            let ghost dv0 = result.deep_view();
            result.push(seg);
            proof {
                let remain = text@.subrange(start as int, n as int);
                lemma_split_first_nl(remain, i - start);
                assert(remain.subrange(0, i - start) =~= text@.subrange(start as int, i as int));
                assert(remain.subrange(i - start + 1, remain.len() as int) =~= text@.subrange(
                    i + 1,
                    n as int,
                ));
                assert(result.deep_view() =~= dv0.push(seg@));
                assert(result.deep_view() + split_text(text@.subrange(i + 1, n as int)) =~= dv0
                    + split_text(remain));
            }
            start = i + 1;
        }
        i += 1;
    }
    let seg = text.substring_char(start, n).to_owned();
    let ghost dv0 = result.deep_view();
    result.push(seg);
    proof {
        let remain = text@.subrange(start as int, n as int);
        lemma_split_no_nl(remain);
        assert(result.deep_view() =~= dv0.push(seg@));
        assert(result.deep_view() =~= dv0 + split_text(remain));
    }
    result
}

} // verus!
