//! Splitting text into lines: at `\n` or `\r\n`; a final line ending is optional.

use vstd::prelude::*;

use crate::text::{lemma_split_on_len, split_on};

verus! {

/// A line with the `\r` of a `\r\n` ending removed.
pub open spec fn strip_cr(l: Seq<char>) -> Seq<char> {
    if l.len() > 0 && l.last() == '\r' {
        l.drop_last()
    } else {
        l
    }
}

/// The lines of `s`. Every piece before a `\n` is a line, without a `\r`
/// just before that `\n`; the text after the last `\n` is a line only when it
/// is not empty, and keeps a trailing `\r`.
pub open spec fn lines_of(s: Seq<char>) -> Seq<Seq<char>> {
    let p = split_on(s, '\n');
    let body = p.drop_last().map_values(|l: Seq<char>| strip_cr(l));
    if p.last().len() == 0 {
        body
    } else {
        body.push(p.last())
    }
}

/// The contents of a vector of character vectors.
pub open spec fn char_rows(v: Seq<Vec<char>>) -> Seq<Seq<char>> {
    v.map_values(|r: Vec<char>| r@)
}

/// The lines of `text`, in order.
pub fn split_lines(text: &Vec<char>) -> (r: Vec<Vec<char>>)
    ensures
        char_rows(r@) == lines_of(text@),
{
    let mut out: Vec<Vec<char>> = Vec::new();
    let mut cur: Vec<char> = Vec::new();
    let mut i: usize = 0;
    proof {
        lemma_split_on_len(text@.take(0), '\n');
    }
    while i < text.len()
        invariant
            0 <= i <= text.len(),
            split_on(text@.take(i as int), '\n').len() >= 1,
            char_rows(out@) == split_on(text@.take(i as int), '\n').drop_last().map_values(
                |l: Seq<char>| strip_cr(l),
            ),
            cur@ == split_on(text@.take(i as int), '\n').last(),
        decreases text.len() - i,
    {
        let ghost s = text@.take(i as int);
        let ghost s1 = text@.take(i + 1);
        proof {
            lemma_split_on_len(s, '\n');
            lemma_split_on_len(s1, '\n');
            assert(s1.drop_last() =~= s);
            assert(s1.last() == text@[i as int]);
        }
        let c = text[i];
        if c == '\n' {
            if cur.len() > 0 && cur[cur.len() - 1] == '\r' {
                cur.pop();
            }
            proof {
                assert(cur@ =~= strip_cr(split_on(s, '\n').last()));
            }
            let ghost old_out = out@;
            let ghost line = cur@;
            out.push(cur);
            cur = Vec::new();
            proof {
                let p = split_on(s, '\n');
                assert(char_rows(out@) =~= char_rows(old_out).push(line));
                assert(split_on(s1, '\n') == p.push(Seq::<char>::empty()));
                assert(p.push(Seq::<char>::empty()).drop_last() =~= p);
                assert(p =~= p.drop_last().push(p.last()));
                assert(char_rows(out@) =~= p.map_values(|l: Seq<char>| strip_cr(l)));
                assert(cur@ =~= split_on(s1, '\n').last());
            }
        } else {
            cur.push(c);
            proof {
                let p = split_on(s, '\n');
                let q = split_on(s1, '\n');
                assert(q == p.update(p.len() - 1, p.last().push(c)));
                assert(q.drop_last() =~= p.drop_last());
            }
        }
        i += 1;
    }
    proof {
        assert(text@.take(text.len() as int) =~= text@);
    }
    if cur.len() > 0 {
        out.push(cur);
        proof {
            assert(char_rows(out@) =~= lines_of(text@));
        }
    } else {
        proof {
            assert(char_rows(out@) =~= lines_of(text@));
        }
    }
    out
}

} // verus!
