//! The chat protocol's message pieces that are plain data: the tag map that
//! prefixes a line, and a parsed channel message with its badge lookups. The
//! socket handling around them lives with the runtime.

use vstd::prelude::*;

use crate::args::{pair_lookup, pairs_view, trim_spec, trim_str};
use crate::respond::Failure;
use crate::text::str_equal;

verus! {

/// Who we register as.
pub struct Registration {
    pub name: String,
    pub pass: String,
}

/// Who the service says we are.
pub struct Identity {
    pub name: String,
    pub user_id: u64,
}

/// The index of the first occurrence of `c`, if any.
pub open spec fn char_at(s: Seq<char>, c: char) -> Option<int>
    decreases s.len(),
{
    if s.len() == 0 {
        Option::None
    } else if s.first() == c {
        Option::Some(0)
    } else {
        match char_at(s.drop_first(), c) {
            Option::None => Option::None,
            Option::Some(p) => Option::Some(p + 1),
        }
    }
}

proof fn lemma_char_at_is(s: Seq<char>, c: char, m: int)
    requires
        0 <= m <= s.len(),
        forall|k: int| 0 <= k < m ==> s[k] != c,
        m < s.len() ==> s[m] == c,
    ensures
        m == s.len() ==> char_at(s, c) is None,
        m < s.len() ==> char_at(s, c) == Option::Some(m),
    decreases s.len(),
{
    if s.len() == 0 {
    } else if s.first() == c {
        assert(m == 0);
    } else {
        assert(m >= 1);
        assert forall|k: int| 0 <= k < m - 1 implies s.drop_first()[k] != c by {
            assert(s.drop_first()[k] == s[k + 1]);
        }
        if m - 1 < s.drop_first().len() {
            assert(s.drop_first()[m - 1] == s[m]);
        }
        lemma_char_at_is(s.drop_first(), c, m - 1);
    }
}

/// Where `char_at` points, that character stands, and none before it.
proof fn lemma_char_at_props(s: Seq<char>, c: char)
    ensures
        char_at(s, c) matches Option::Some(p) ==> 0 <= p < s.len() && s[p] == c && (forall|k: int|
            0 <= k < p ==> s[k] != c),
    decreases s.len(),
{
    if s.len() > 0 && s.first() != c {
        lemma_char_at_props(s.drop_first(), c);
        if char_at(s.drop_first(), c) is Some {
            let p = char_at(s.drop_first(), c).unwrap();
            assert forall|k: int| 0 <= k < p + 1 implies s[k] != c by {
                if k > 0 {
                    assert(s.drop_first()[k - 1] == s[k]);
                }
            }
            assert(s.drop_first()[p] == s[p + 1]);
        }
    }
}

/// Scans for the first occurrence of `c`.
fn find_char(s: &str, c: char) -> (r: Option<usize>)
    ensures
        r is Some <==> char_at(s@, c) is Some,
        r is Some ==> r.unwrap() as int == char_at(s@, c).unwrap() && r.unwrap() < s@.len(),
{
    let n = s.unicode_len();
    let mut i: usize = 0;
    while i < n
        invariant
            0 <= i <= n,
            n == s@.len(),
            forall|k: int| 0 <= k < i ==> s@[k] != c,
        decreases n - i,
    {
        if s.get_char(i) == c {
            proof {
                lemma_char_at_is(s@, c, i as int);
            }
            return Some(i);
        }
        i = i + 1;
    }
    proof {
        lemma_char_at_is(s@, c, n as int);
    }
    None
}

/// The key-to-value pairs of text shaped `k=v;k=v;...`: pieces are split on
/// `outer`, a piece without `inner` is dropped, and when asked, both sides
/// are trimmed.
pub open spec fn pairs_split(s: Seq<char>, outer: char, inner: char, do_trim: bool) -> Seq<
    (Seq<char>, Seq<char>),
>
    decreases s.len(),
    via pairs_split_decreases
{
    let seg_end = match char_at(s, outer) {
        Option::None => s.len() as int,
        Option::Some(q) => q,
    };
    let seg = s.take(seg_end);
    let this = match char_at(seg, inner) {
        Option::None => Seq::<(Seq<char>, Seq<char>)>::empty(),
        Option::Some(e) => if do_trim {
            seq![(trim_spec(seg.take(e)), trim_spec(seg.skip(e + 1)))]
        } else {
            seq![(seg.take(e), seg.skip(e + 1))]
        },
    };
    if char_at(s, outer) is None {
        this
    } else {
        this + pairs_split(s.skip(seg_end + 1), outer, inner, do_trim)
    }
}

#[via_fn]
proof fn pairs_split_decreases(s: Seq<char>, outer: char, inner: char, do_trim: bool) {
    lemma_char_at_props(s, outer);
}

/// Splits text shaped `k=v;k=v;...` into its pairs.
fn split_pairs(s: &str, outer: char, inner: char, do_trim: bool) -> (r: Vec<(String, String)>)
    ensures
        pairs_view(r@) == pairs_split(s@, outer, inner, do_trim),
    decreases s@.len(),
{
    let mut r: Vec<(String, String)> = Vec::new();
    let n = s.unicode_len();
    let (seg, rest): (String, Option<String>) = match find_char(s, outer) {
        Some(q) => {
            let seg = s.substring_char(0, q).to_owned();
            let rest = s.substring_char(q + 1, n).to_owned();
            proof {
                assert(seg@ =~= s@.take(char_at(s@, outer).unwrap()));
                assert(rest@ =~= s@.skip(char_at(s@, outer).unwrap() + 1));
            }
            (seg, Some(rest))
        },
        None => {
            proof {
                assert(s@.take(s@.len() as int) =~= s@);
            }
            (s.to_owned(), None)
        },
    };
    let seg_len = seg.as_str().unicode_len();
    match find_char(seg.as_str(), inner) {
        Some(e) => {
            let left = seg.as_str().substring_char(0, e);
            let right = seg.as_str().substring_char(e + 1, seg_len);
            proof {
                assert(left@ =~= seg@.take(char_at(seg@, inner).unwrap()));
                assert(right@ =~= seg@.skip(char_at(seg@, inner).unwrap() + 1));
            }
            if do_trim {
                r.push((trim_str(left), trim_str(right)));
            } else {
                r.push((left.to_owned(), right.to_owned()));
            }
        },
        None => {},
    }
    let ghost first_pairs = pairs_view(r@);
    match rest {
        Some(tail) => {
            let mut more = split_pairs(tail.as_str(), outer, inner, do_trim);
            let ghost morev = pairs_view(more@);
            let ghost rv = r@;
            r.append(&mut more);
            proof {
                assert(pairs_view(r@) =~= first_pairs + morev);
                assert(pairs_view(r@) =~= pairs_split(s@, outer, inner, do_trim));
            }
        },
        None => {
            proof {
                assert(pairs_view(r@) =~= pairs_split(s@, outer, inner, do_trim));
            }
        },
    }
    r
}

/// The tag map prefixed to a chat line: `@k=v;k=v ...`.
pub struct Tags {
    map: Vec<(String, String)>,
}

impl View for Tags {
    type V = Seq<(Seq<char>, Seq<char>)>;

    closed spec fn view(&self) -> Seq<(Seq<char>, Seq<char>)> {
        pairs_view(self.map@)
    }
}

/// What parsing the tag prefix of a line yields: the pairs of everything up
/// to the first space, keys and values trimmed, and the rest of the line.
pub open spec fn tags_of(s: Seq<char>) -> Option<(Seq<(Seq<char>, Seq<char>)>, Seq<char>)> {
    if s.len() == 0 || s[0] != '@' {
        Option::None
    } else {
        match char_at(s, ' ') {
            Option::None => Option::None,
            Option::Some(p) => Option::Some(
                (pairs_split(s.subrange(1, p), ';', '=', true), s.skip(p + 1)),
            ),
        }
    }
}

impl Tags {
    /// Tags holding exactly these pairs.
    pub fn from_pairs(map: Vec<(String, String)>) -> (r: Tags)
        ensures
            r@ == pairs_view(map@),
    {
        Tags { map }
    }

    /// No tags at all.
    pub fn empty() -> (r: Tags)
        ensures
            r@ =~= Seq::<(Seq<char>, Seq<char>)>::empty(),
    {
        let r = Tags { map: Vec::new() };
        proof {
            assert(r@ =~= Seq::<(Seq<char>, Seq<char>)>::empty());
        }
        r
    }

    /// Parses the tag prefix of a line: nothing unless the line starts with
    /// `@` and has a space; otherwise the tags and the rest of the line.
    pub fn parse(input: &str) -> (r: Option<(Tags, String)>)
        ensures
            r is Some <==> tags_of(input@) is Some,
            r is Some ==> r.unwrap().0@ == tags_of(input@).unwrap().0 && r.unwrap().1@ == tags_of(
                input@,
            ).unwrap().1,
    {
        if input.unicode_len() == 0 {
            return None;
        }
        if input.get_char(0) != '@' {
            proof {
                assert(input@[0] != '@');
            }
            return None;
        }
        let n = input.unicode_len();
        let p = match find_char(input, ' ') {
            Some(p) => p,
            None => {
                return None;
            },
        };
        proof {
            lemma_char_at_props(input@, ' ');
            assert(input@[p as int] == ' ');
            assert(p >= 1);
        }
        let head = input.substring_char(1, p);
        let tail = input.substring_char(p + 1, n).to_owned();
        proof {
            assert(head@ =~= input@.subrange(1, char_at(input@, ' ').unwrap()));
            assert(tail@ =~= input@.skip(char_at(input@, ' ').unwrap() + 1));
        }
        let map = split_pairs(head, ';', '=', true);
        Some((Tags::from_pairs(map), tail))
    }

    /// The first value filed under `k`, or a failure naming the key.
    pub fn get(&self, k: &str) -> (r: Result<&str, Failure>)
        ensures
            r is Ok <==> pair_lookup(self@, k@) is Some,
            r is Ok ==> r.unwrap()@ == pair_lookup(self@, k@).unwrap(),
    {
        let n = self.map.len();
        let mut i: usize = 0;
        proof {
            assert(self@.skip(0) =~= self@);
        }
        while i < n
            invariant
                0 <= i <= n,
                n == self.map@.len(),
                pair_lookup(self@, k@) == pair_lookup(self@.skip(i as int), k@),
            decreases n - i,
        {
            proof {
                assert(self@.skip(i as int).first() == self@[i as int]);
                assert(self@.skip(i as int).drop_first() =~= self@.skip(i as int + 1));
            }
            if str_equal(self.map[i].0.as_str(), k) {
                return Ok(self.map[i].1.as_str());
            }
            i = i + 1;
        }
        proof {
            assert(self@.skip(n as int) =~= Seq::<(Seq<char>, Seq<char>)>::empty());
        }
        Err(Failure { message: k.to_owned() })
    }

    /// The value filed under `k`, read as a decimal number.
    pub fn get_parsed(&self, k: &str) -> (r: Result<u64, Failure>)
        ensures
            r is Ok <==> (pair_lookup(self@, k@) matches Option::Some(v) && v.len() >= 1
                && crate::text::all_dec_digits(v) && crate::text::dec_value(v) <= u64::MAX),
            r is Ok ==> r.unwrap() == crate::text::dec_value(pair_lookup(self@, k@).unwrap()),
    {
        let raw = match self.get(k) {
            Ok(v) => v,
            Err(e) => {
                return Err(e);
            },
        };
        match crate::text::parse_u64(raw) {
            Some(v) => Ok(v),
            None => Err(Failure { message: k.to_owned() }),
        }
    }
}

/// One channel message.
pub struct Privmsg {
    pub tags: Tags,
    pub user: String,
    pub target: String,
    pub data: String,
}

/// The badge pairs of a message: the `badges` tag split on commas and
/// slashes.
pub open spec fn badges_of(pm: &Privmsg) -> Seq<(Seq<char>, Seq<char>)> {
    match pair_lookup(pm.tags@, "badges"@) {
        Option::None => Seq::empty(),
        Option::Some(v) => pairs_split(v, ',', '/', false),
    }
}

impl Privmsg {
    /// Every badge the sender carries, with its version.
    pub fn badge_iter(&self) -> (r: Vec<(String, String)>)
        ensures
            pairs_view(r@) == badges_of(self),
    {
        match self.tags.get("badges") {
            Ok(v) => split_pairs(v, ',', '/', false),
            Err(_) => {
                let r: Vec<(String, String)> = Vec::new();
                proof {
                    assert(pairs_view(r@) =~= Seq::<(Seq<char>, Seq<char>)>::empty());
                }
                r
            },
        }
    }

    /// Whether the sender carries the badge at version one.
    pub fn has_badge(&self, name: &str) -> (r: bool)
        ensures
            r == exists|i: int|
                0 <= i < badges_of(self).len() && (#[trigger] badges_of(self)[i]) == (
                    name@,
                    seq!['1'],
                ),
    {
        proof {
            reveal_strlit("1");
        }
        let badges = self.badge_iter();
        let n = badges.len();
        let mut i: usize = 0;
        while i < n
            invariant
                0 <= i <= n,
                n == badges@.len(),
                pairs_view(badges@) == badges_of(self),
                forall|k: int| 0 <= k < i ==> (#[trigger] badges_of(self)[k]) != (
                    name@,
                    seq!['1'],
                ),
            decreases n - i,
        {
            proof {
                reveal_strlit("1");
            }
            proof {
                assert(pairs_view(badges@)[i as int] == (badges@[i as int].0@, badges@[
                    i as int].1@));
                assert("1"@ =~= seq!['1']);
            }
            if str_equal(badges[i].0.as_str(), name) && str_equal(badges[i].1.as_str(), "1") {
                proof {
                    assert(badges_of(self)[i as int] == (name@, seq!['1']));
                }
                return true;
            }
            i = i + 1;
        }
        false
    }

    /// Whether the sender is the channel's broadcaster.
    pub fn is_from_broadcaster(&self) -> (r: bool)
        ensures
            r == exists|i: int|
                0 <= i < badges_of(self).len() && (#[trigger] badges_of(self)[i]) == (
                    "broadcaster"@,
                    seq!['1'],
                ),
    {
        self.has_badge("broadcaster")
    }

    /// Whether the sender is a moderator.
    pub fn is_from_moderator(&self) -> (r: bool)
        ensures
            r == exists|i: int|
                0 <= i < badges_of(self).len() && (#[trigger] badges_of(self)[i]) == (
                    "moderator"@,
                    seq!['1'],
                ),
    {
        self.has_badge("moderator")
    }

    /// The message's text.
    pub fn data(&self) -> (r: &str)
        ensures
            r@ == self.data@,
    {
        self.data.as_str()
    }

    /// The leading word of any text: its command.
    pub fn split_command(input: &str) -> (r: String)
        ensures
            r@ == crate::help::head_of_spec(input@),
    {
        crate::help::head_of(input)
    }

    /// The message's command: its leading word.
    pub fn command(&self) -> (r: String)
        ensures
            r@ == crate::help::head_of_spec(self.data@),
    {
        Self::split_command(self.data.as_str())
    }

    /// Whether the message invokes the command that `right` names.
    pub fn match_command(&self, right: &str) -> (r: bool)
        ensures
            r == (crate::help::head_of_spec(self.data@) == crate::help::head_of_spec(right@)),
    {
        let mine = self.command();
        let theirs = Self::split_command(right);
        mine.eq(&theirs)
    }
}

} // verus!
