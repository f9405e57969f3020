//! Character-level helpers shared by the modules that read or write text.

use vstd::prelude::*;

verus! {

/// The pieces of `s` that lie between occurrences of `d`, in order.
/// There is always at least one piece: the empty text has one empty piece,
/// and a text that ends with `d` has an empty last piece.
pub open spec fn split_on(s: Seq<char>, d: char) -> Seq<Seq<char>>
    decreases s.len(),
{
    if s.len() == 0 {
        seq![Seq::<char>::empty()]
    } else {
        let prev = split_on(s.drop_last(), d);
        if s.last() == d {
            prev.push(Seq::<char>::empty())
        } else {
            prev.update(prev.len() - 1, prev.last().push(s.last()))
        }
    }
}

/// `c` does not occur in `s`.
pub open spec fn lacks(s: Seq<char>, c: char) -> bool {
    forall|j: int| 0 <= j < s.len() ==> s[j] != c
}

pub proof fn lemma_split_on_len(s: Seq<char>, d: char)
    ensures
        split_on(s, d).len() >= 1,
    decreases s.len(),
{
    if s.len() > 0 {
        lemma_split_on_len(s.drop_last(), d);
    }
}

/// Appending text free of `d` only extends the last piece.
pub proof fn lemma_split_on_append_plain(a: Seq<char>, t: Seq<char>, d: char)
    requires
        lacks(t, d),
    ensures
        split_on(a + t, d) == split_on(a, d).update(
            split_on(a, d).len() - 1,
            split_on(a, d).last() + t,
        ),
    decreases t.len(),
{
    lemma_split_on_len(a, d);
    let s = split_on(a, d);
    if t.len() == 0 {
        assert(a + t =~= a);
        assert(s.last() + t =~= s.last());
        assert(s.update(s.len() - 1, s.last() + t) =~= s);
    } else {
        let t0 = t.drop_last();
        lemma_split_on_append_plain(a, t0, d);
        assert((a + t).drop_last() =~= a + t0);
        assert((a + t).last() == t.last());
        assert((s.last() + t0).push(t.last()) =~= s.last() + t);
        assert(split_on(a + t, d) =~= s.update(s.len() - 1, s.last() + t));
    }
}

/// The characters of `s`, in order.
pub(crate) fn chars_of(s: &str) -> (r: Vec<char>)
    ensures
        r@ == s@,
{
    broadcast use vstd::string::axiom_spec_iter, vstd::string::next_postcondition;

    let mut out: Vec<char> = Vec::new();
    let mut it = s.chars();
    loop
        invariant
            out@ + vstd::std_specs::iter::IteratorSpec::remaining(&it) == s@,
            vstd::std_specs::iter::IteratorSpec::decrease(&it) is Some,
        ensures
            out@ == s@,
        decreases vstd::std_specs::iter::IteratorSpec::decrease(&it)->0,
    {
        match it.next() {
            Some(c) => {
                out.push(c);
            },
            None => {
                assert(out@ =~= s@);
                break ;
            },
        }
    }
    out
}

/// Relies on `String`'s `FromIterator<&char>`: the string made of `v`'s characters, in order.
#[verifier::external_body]
pub(crate) fn string_of(v: &Vec<char>) -> (r: String)
    ensures
        r@ == v@,
{
    v.iter().collect()
}

} // verus!
