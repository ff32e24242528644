//! Small shared utilities: quoting a value for display, appending vectors
//! without needless moves, joining text with a separator, and a two-sided
//! value.

use vstd::prelude::*;

use crate::text::join_sep;
use crate::text::words_view;

verus! {

/// A value to be rendered inside single quotes, double quotes, or backticks.
#[derive(Clone, Copy)]
pub enum Quote<T> {
    Single(T),
    Double(T),
    Tick(T),
}

impl<T> Quote<T> {
    /// The quoted value, whichever quoting was asked for.
    pub fn inner(&self) -> (r: &T)
        ensures
            *r == self.spec_inner(),
    {
        match self {
            Quote::Single(inner) => inner,
            Quote::Double(inner) => inner,
            Quote::Tick(inner) => inner,
        }
    }

    /// The quoted value.
    pub open spec fn spec_inner(&self) -> T {
        match self {
            Quote::Single(inner) => *inner,
            Quote::Double(inner) => *inner,
            Quote::Tick(inner) => *inner,
        }
    }
}

impl Quote<String> {
    /// The value wrapped in its quotes.
    pub fn render(&self) -> (r: String)
        ensures
            r@ == self.quoted(),
    {
        proof {
            reveal_strlit("'");
            reveal_strlit("\"");
            reveal_strlit("`");
        }
        match self {
            Quote::Single(s) => {
                let mut out = String::new();
                out.append("'");
                out.append(s.as_str());
                out.append("'");
                out
            },
            Quote::Double(s) => {
                let mut out = String::new();
                out.append("\"");
                out.append(s.as_str());
                out.append("\"");
                out
            },
            Quote::Tick(s) => {
                let mut out = String::new();
                out.append("`");
                out.append(s.as_str());
                out.append("`");
                out
            },
        }
    }

    /// The characters of the value wrapped in its quotes.
    pub open spec fn quoted(&self) -> Seq<char> {
        match self {
            Quote::Single(s) => seq!['\''] + s@ + seq!['\''],
            Quote::Double(s) => seq!['"'] + s@ + seq!['"'],
            Quote::Tick(s) => seq!['`'] + s@ + seq!['`'],
        }
    }
}

/// One of two values, of which only the left is ever looked through.
pub enum Either<L, R> {
    Left(L),
    Right(R),
}

/// Moves `right` onto the end of `left`, stealing the whole vector when
/// `left` is empty.
pub fn append_maybe<T>(left: &mut Vec<T>, right: Vec<T>)
    ensures
        final(left)@ == old(left)@ + right@,
{
    let mut right = right;
    if right.is_empty() {
        proof {
            assert(old(left)@ + right@ =~= old(left)@);
        }
        return;
    }
    if left.is_empty() {
        proof {
            assert(old(left)@ + right@ =~= right@);
        }
        *left = right;
        return;
    }
    left.append(&mut right);
}

/// Joins the texts with the given character between them.
pub fn join_with(items: &Vec<String>, ch: char) -> (r: String)
    ensures
        r@ == join_sep(words_view(items@), ch),
{
    if ch == ' ' {
        return crate::text::join_words(items);
    }
    let sep = single_char_string(ch);
    let mut r = String::new();
    let mut i: usize = 0;
    proof {
        assert(words_view(items@).take(0) =~= Seq::<Seq<char>>::empty());
    }
    while i < items.len()
        invariant
            0 <= i <= items@.len(),
            sep@ == seq![ch],
            r@ == join_sep(words_view(items@).take(i as int), ch),
        decreases items@.len() - i,
    {
        if i > 0 {
            r.append(sep.as_str());
        }
        r.append(items[i].as_str());
        proof {
            let vs = words_view(items@);
            crate::text::lemma_join_sep_push(vs.take(i as int), vs[i as int], ch);
            assert(vs.take(i as int).push(vs[i as int]) =~= vs.take(i as int + 1));
            if i > 0 {
                assert(r@ =~= join_sep(vs.take(i as int + 1), ch));
            } else {
                assert(r@ =~= vs[0]);
            }
        }
        i = i + 1;
    }
    proof {
        assert(words_view(items@).take(items@.len() as int) =~= words_view(items@));
    }
    r
}

/// Relies on String::push: appends exactly the one character.
#[verifier::external_body]
fn single_char_string(ch: char) -> (r: String)
    ensures
        r@ == seq![ch],
{
    let mut s = String::new();
    s.push(ch);
    s
}

} // verus!
