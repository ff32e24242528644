//! Command argument handling: a usage pattern such as `<name> <body..>` is
//! parsed into typed argument slots, and a message's trailing text is split
//! against those slots into named values.

use vstd::prelude::*;

use crate::respond::Failure;
use crate::text::{is_space, str_equal};

verus! {

/// How one argument slot takes text.
#[derive(Clone, Copy, Debug, PartialEq, Eq, Structural)]
pub enum Kind {
    /// The slot must receive a word.
    Required,
    /// The slot may stay empty.
    Optional,
    /// The slot swallows the rest of the line.
    Variadic,
}

/// One named argument slot.
pub struct ArgType {
    pub key: String,
    pub kind: Kind,
}

/// The extracted arguments: key-to-text pairs in slot order.
pub struct Arguments {
    map: Vec<(String, String)>,
}

/// The views of key-to-text pairs.
pub open spec fn pairs_view(ps: Seq<(String, String)>) -> Seq<(Seq<char>, Seq<char>)> {
    ps.map_values(|p: (String, String)| (p.0@, p.1@))
}

impl View for Arguments {
    type V = Seq<(Seq<char>, Seq<char>)>;

    closed spec fn view(&self) -> Seq<(Seq<char>, Seq<char>)> {
        pairs_view(self.map@)
    }
}

/// The value of the first pair with this key.
pub open spec fn pair_lookup(ps: Seq<(Seq<char>, Seq<char>)>, key: Seq<char>) -> Option<Seq<char>>
    decreases ps.len(),
{
    if ps.len() == 0 {
        Option::None
    } else if ps.first().0 == key {
        Option::Some(ps.first().1)
    } else {
        pair_lookup(ps.drop_first(), key)
    }
}

impl Default for Arguments {
    /// No arguments.
    fn default() -> (r: Self)
        ensures
            r@ =~= Seq::<(Seq<char>, Seq<char>)>::empty(),
    {
        let r = Arguments { map: Vec::new() };
        proof {
            assert(r@ =~= Seq::<(Seq<char>, Seq<char>)>::empty());
        }
        r
    }
}

impl Arguments {
    /// Arguments holding exactly these pairs.
    pub fn from_pairs(map: Vec<(String, String)>) -> (r: Arguments)
        ensures
            r@ == pairs_view(map@),
    {
        Arguments { map }
    }

    /// The text of the argument named `key`, or a failure naming it.
    pub fn get(&self, key: &str) -> (r: Result<&str, Failure>)
        ensures
            r is Ok <==> pair_lookup(self@, key@) is Some,
            r is Ok ==> r.unwrap()@ == pair_lookup(self@, key@).unwrap(),
    {
        let n = self.map.len();
        let mut i: usize = 0;
        proof {
            assert(self@.skip(0) =~= self@);
        }
        while i < n
            invariant
                0 <= i <= n,
                n == self.map@.len(),
                pair_lookup(self@, key@) == pair_lookup(self@.skip(i as int), key@),
            decreases n - i,
        {
            proof {
                assert(self@.skip(i as int).first() == self@[i as int]);
                assert(self@.skip(i as int).drop_first() =~= self@.skip(i as int + 1));
            }
            if str_equal(self.map[i].0.as_str(), key) {
                return Ok(self.map[i].1.as_str());
            }
            i = i + 1;
        }
        proof {
            assert(self@.skip(n as int) =~= Seq::<(Seq<char>, Seq<char>)>::empty());
        }
        Err(Failure { message: key.to_owned() })
    }

    /// The argument named `key`, read as a decimal number.
    pub fn get_parsed(&self, key: &str) -> (r: Result<u64, Failure>)
        ensures
            r is Ok <==> (pair_lookup(self@, key@) matches Option::Some(v)
                && v.len() >= 1 && crate::text::all_dec_digits(v)
                && crate::text::dec_value(v) <= u64::MAX),
            r is Ok ==> r.unwrap() == crate::text::dec_value(pair_lookup(self@, key@).unwrap()),
    {
        let raw = match self.get(key) {
            Ok(v) => v,
            Err(e) => {
                return Err(e);
            },
        };
        match crate::text::parse_u64(raw) {
            Some(v) => Ok(v),
            None => Err(Failure { message: key.to_owned() }),
        }
    }
}

/// What extracting a message against the slots found.
pub enum Match<T> {
    /// A required slot got nothing.
    Required,
    /// The named values.
    Match(T),
    /// Text arrived where the pattern takes none, or the reverse.
    NoMatch,
    /// No slots and no text.
    Exact,
}

/// One usage token, classified: `<key>` required, `<key?>` optional,
/// `<key..>` variadic, anything else no slot at all.
pub open spec fn classify(w: Seq<char>) -> Option<(Seq<char>, Kind)> {
    if w.len() >= 4 && w.first() == '<' && w[w.len() - 3] == '.' && w[w.len() - 2] == '.'
        && w.last() == '>' && all_alpha(w.subrange(1, w.len() - 3)) {
        Option::Some((w.subrange(1, w.len() - 3), Kind::Variadic))
    } else if w.len() >= 3 && w.first() == '<' && w[w.len() - 2] == '?' && w.last() == '>'
        && all_alpha(w.subrange(1, w.len() - 2)) {
        Option::Some((w.subrange(1, w.len() - 2), Kind::Optional))
    } else if w.len() >= 2 && w.first() == '<' && w.last() == '>' && all_alpha(
        w.subrange(1, w.len() - 1),
    ) {
        Option::Some((w.subrange(1, w.len() - 1), Kind::Required))
    } else {
        Option::None
    }
}

pub open spec fn is_alpha(c: char) -> bool {
    ('a' <= c && c <= 'z') || ('A' <= c && c <= 'Z')
}

pub open spec fn all_alpha(s: Seq<char>) -> bool {
    forall|k: int| 0 <= k < s.len() ==> is_alpha(#[trigger] s[k])
}

/// Whether some slot already uses this key.
pub open spec fn has_key(acc: Seq<(Seq<char>, Kind)>, key: Seq<char>) -> bool {
    exists|i: int| 0 <= i < acc.len() && (#[trigger] acc[i]).0 == key
}

/// The slots a list of usage words denotes: classified in order, stopping
/// after a variadic slot; a repeated key spoils the whole pattern.
pub open spec fn parse_slots(ws: Seq<Seq<char>>, acc: Seq<(Seq<char>, Kind)>) -> Option<
    Seq<(Seq<char>, Kind)>,
>
    decreases ws.len(),
{
    if ws.len() == 0 {
        Option::Some(acc)
    } else {
        match classify(ws.first()) {
            Option::None => parse_slots(ws.drop_first(), acc),
            Option::Some((key, kind)) => if has_key(acc, key) {
                Option::None
            } else if kind == Kind::Variadic {
                Option::Some(acc.push((key, kind)))
            } else {
                parse_slots(ws.drop_first(), acc.push((key, kind)))
            },
        }
    }
}

/// The views of the slots.
pub open spec fn slots_view(args: Seq<ArgType>) -> Seq<(Seq<char>, Kind)> {
    args.map_values(|a: ArgType| (a.key@, a.kind))
}

/// The slot pattern of a command's usage line.
pub struct ExampleArgs {
    pub args: Vec<ArgType>,
}

/// Classifies one usage word.
fn classify_word(w: &str) -> (r: Option<(String, Kind)>)
    ensures
        r is Some <==> classify(w@) is Some,
        r is Some ==> (r.unwrap().0@, r.unwrap().1) == classify(w@).unwrap(),
{
    let n = w.unicode_len();
    if n >= 4 && w.get_char(0) == '<' && w.get_char(n - 3) == '.' && w.get_char(n - 2) == '.'
        && w.get_char(n - 1) == '>' && alpha_range(w, 1, n - 3) {
        proof {
            assert(w@.first() == w@[0]);
            assert(w@.last() == w@[n - 1]);
        }
        Some((w.substring_char(1, n - 3).to_owned(), Kind::Variadic))
    } else if n >= 3 && w.get_char(0) == '<' && w.get_char(n - 2) == '?' && w.get_char(n - 1) == '>'
        && alpha_range(w, 1, n - 2) {
        proof {
            assert(w@.first() == w@[0]);
            assert(w@.last() == w@[n - 1]);
        }
        Some((w.substring_char(1, n - 2).to_owned(), Kind::Optional))
    } else if n >= 2 && w.get_char(0) == '<' && w.get_char(n - 1) == '>' && alpha_range(
        w,
        1,
        n - 1,
    ) {
        proof {
            assert(w@.first() == w@[0]);
            assert(w@.last() == w@[n - 1]);
        }
        Some((w.substring_char(1, n - 1).to_owned(), Kind::Required))
    } else {
        proof {
            if w@.len() >= 2 {
                assert(w@.first() == w@[0]);
                assert(w@.last() == w@[w@.len() - 1]);
            }
        }
        None
    }
}

/// Whether the characters in `[lo, hi)` are all plain letters.
fn alpha_range(w: &str, lo: usize, hi: usize) -> (r: bool)
    requires
        0 <= lo <= hi <= w@.len(),
    ensures
        r == all_alpha(w@.subrange(lo as int, hi as int)),
{
    let mut i = lo;
    while i < hi
        invariant
            lo <= i <= hi <= w@.len(),
            forall|k: int| 0 <= k < i - lo ==> is_alpha(
                #[trigger] w@.subrange(lo as int, hi as int)[k],
            ),
        decreases hi - i,
    {
        let c = w.get_char(i);
        if !((c >= 'a' && c <= 'z') || (c >= 'A' && c <= 'Z')) {
            proof {
                assert(w@.subrange(lo as int, hi as int)[i - lo] == w@[i as int]);
            }
            return false;
        }
        i = i + 1;
    }
    true
}

impl ExampleArgs {
    /// Whether some slot takes text this way.
    pub fn contains(&self, arg: &Kind) -> (r: bool)
        ensures
            r == exists|i: int|
                0 <= i < slots_view(self.args@).len() && (#[trigger] slots_view(self.args@)[i]).1
                    == *arg,
    {
        let n = self.args.len();
        let mut i: usize = 0;
        while i < n
            invariant
                0 <= i <= n,
                n == self.args@.len(),
                forall|k: int| 0 <= k < i ==> (#[trigger] slots_view(self.args@)[k]).1 != *arg,
            decreases n - i,
        {
            if kind_eq(&self.args[i].kind, arg) {
                proof {
                    assert(slots_view(self.args@)[i as int].1 == *arg);
                }
                return true;
            }
            i = i + 1;
        }
        false
    }

    /// Parses a usage line into its slot pattern. Fails exactly when a key
    /// repeats.
    pub fn parse(input: &str) -> (r: Result<ExampleArgs, Failure>)
        ensures
            r is Ok <==> parse_slots(crate::text::split_ws(input@), Seq::empty()) is Some,
            r is Ok ==> slots_view(r.unwrap().args@) == parse_slots(
                crate::text::split_ws(input@),
                Seq::empty(),
            ).unwrap(),
    {
        let words = crate::split_words(input);
        let ghost ws = crate::text::words_view(words@);
        let mut args: Vec<ArgType> = Vec::new();
        let mut i: usize = 0;
        proof {
            assert(ws.skip(0) =~= ws);
            assert(slots_view(args@) =~= Seq::<(Seq<char>, Kind)>::empty());
        }
        while i < words.len()
            invariant
                0 <= i <= words@.len(),
                ws == crate::text::words_view(words@),
                ws == crate::text::split_ws(input@),
                parse_slots(ws, Seq::empty()) == parse_slots(
                    ws.skip(i as int),
                    slots_view(args@),
                ),
            decreases words@.len() - i,
        {
            proof {
                assert(ws.skip(i as int).first() == ws[i as int]);
                assert(ws.skip(i as int).drop_first() =~= ws.skip(i as int + 1));
            }
            proof {
                assert(ws[i as int] == words@[i as int]@);
            }
            match classify_word(words[i].as_str()) {
                None => {},
                Some((key, kind)) => {
                    let ghost sl = slots_view(args@);
                    proof {
                        assert(classify(ws[i as int]) == Option::Some((key@, kind)));
                    }
                    // a repeated key spoils the pattern
                    if has_key_exec(&args, key.as_str()) {
                        proof {
                            assert(parse_slots(ws.skip(i as int), sl) is None);
                            assert(parse_slots(ws, Seq::empty()) is None);
                        }
                        return Err(Failure { message: key });
                    }
                    let is_variadic = kind_eq(&kind, &Kind::Variadic);
                    args.push(ArgType { key, kind });
                    proof {
                        assert(slots_view(args@) =~= sl.push(
                            (args@.last().key@, args@.last().kind),
                        ));
                    }
                    if is_variadic {
                        proof {
                            assert(parse_slots(ws.skip(i as int), sl) == Option::Some(
                                slots_view(args@),
                            ));
                            assert(parse_slots(ws, Seq::empty()) == Option::Some(
                                slots_view(args@),
                            ));
                        }
                        return Ok(ExampleArgs { args });
                    }
                },
            }
            i = i + 1;
        }
        proof {
            assert(ws.skip(words@.len() as int) =~= Seq::<Seq<char>>::empty());
        }
        Ok(ExampleArgs { args })
    }
}

/// Leading characters of `s` that are spaces.
pub open spec fn leading_spaces(s: Seq<char>) -> nat
    decreases s.len(),
{
    if s.len() == 0 || !is_space(s.first()) {
        0
    } else {
        1 + leading_spaces(s.drop_first())
    }
}

/// Trailing characters of `s` that are spaces.
pub open spec fn trailing_spaces(s: Seq<char>) -> nat
    decreases s.len(),
{
    if s.len() == 0 || !is_space(s.last()) {
        0
    } else {
        1 + trailing_spaces(s.drop_last())
    }
}

/// `s` with leading and trailing spaces removed.
pub open spec fn trim_spec(s: Seq<char>) -> Seq<char> {
    if leading_spaces(s) == s.len() {
        Seq::empty()
    } else {
        s.subrange(leading_spaces(s) as int, s.len() - trailing_spaces(s) as int)
    }
}

proof fn lemma_leading_spaces_is(s: Seq<char>, m: int)
    requires
        0 <= m <= s.len(),
        forall|k: int| 0 <= k < m ==> is_space(#[trigger] s[k]),
        m < s.len() ==> !is_space(s[m]),
    ensures
        leading_spaces(s) == m,
    decreases s.len(),
{
    if s.len() == 0 {
    } else if !is_space(s.first()) {
        assert(m == 0);
    } else {
        assert(m >= 1);
        assert forall|k: int| 0 <= k < m - 1 implies is_space(#[trigger] s.drop_first()[k]) by {
            assert(s.drop_first()[k] == s[k + 1]);
        }
        if m - 1 < s.drop_first().len() {
            assert(s.drop_first()[m - 1] == s[m]);
        }
        lemma_leading_spaces_is(s.drop_first(), m - 1);
    }
}

proof fn lemma_trailing_spaces_is(s: Seq<char>, m: int)
    requires
        0 <= m <= s.len(),
        forall|k: int| s.len() - m <= k < s.len() ==> is_space(#[trigger] s[k]),
        m < s.len() ==> !is_space(s[s.len() - m - 1]),
    ensures
        trailing_spaces(s) == m,
    decreases s.len(),
{
    if s.len() == 0 {
    } else if !is_space(s.last()) {
        assert(s.last() == s[s.len() - 1]);
        assert(m == 0);
    } else {
        assert(s.last() == s[s.len() - 1]);
        assert(m >= 1);
        assert forall|k: int| s.drop_last().len() - (m - 1) <= k < s.drop_last().len() implies
            is_space(#[trigger] s.drop_last()[k]) by {
            assert(s.drop_last()[k] == s[k]);
        }
        if m - 1 < s.drop_last().len() {
            assert(s.drop_last()[s.drop_last().len() - (m - 1) - 1] == s[s.len() - m - 1]);
        }
        lemma_trailing_spaces_is(s.drop_last(), m - 1);
    }
}

/// The text with leading and trailing spaces removed.
pub fn trim_str(s: &str) -> (r: String)
    ensures
        r@ == trim_spec(s@),
{
    let n = s.unicode_len();
    let mut lo: usize = 0;
    while lo < n
        invariant
            0 <= lo <= n,
            n == s@.len(),
            forall|k: int| 0 <= k < lo ==> is_space(#[trigger] s@[k]),
        ensures
            0 <= lo <= n,
            forall|k: int| 0 <= k < lo ==> is_space(#[trigger] s@[k]),
            lo < n ==> !is_space(s@[lo as int]),
        decreases n - lo,
    {
        if !crate::text::space_char(s.get_char(lo)) {
            break;
        }
        lo = lo + 1;
    }
    proof {
        lemma_leading_spaces_is(s@, lo as int);
    }
    if lo == n {
        let r = String::new();
        return r;
    }
    let mut hi: usize = n;
    while hi > lo
        invariant
            lo <= hi <= n,
            n == s@.len(),
            forall|k: int| hi <= k < n ==> is_space(#[trigger] s@[k]),
        ensures
            lo <= hi <= n,
            forall|k: int| hi <= k < n ==> is_space(#[trigger] s@[k]),
            hi > lo ==> !is_space(s@[hi - 1]),
        decreases hi,
    {
        if !crate::text::space_char(s.get_char(hi - 1)) {
            break;
        }
        hi = hi - 1;
    }
    proof {
        assert(hi > lo);
        lemma_trailing_spaces_is(s@, n - hi as int);
        assert(trim_spec(s@) == s@.subrange(lo as int, hi as int));
    }
    s.substring_char(lo, hi).to_owned()
}

/// The index of the first plain space, if any.
pub open spec fn space_at(s: Seq<char>) -> Option<int>
    decreases s.len(),
{
    if s.len() == 0 {
        Option::None
    } else if s.first() == ' ' {
        Option::Some(0)
    } else {
        match space_at(s.drop_first()) {
            Option::None => Option::None,
            Option::Some(p) => Option::Some(p + 1),
        }
    }
}

proof fn lemma_space_at_is(s: Seq<char>, m: int)
    requires
        0 <= m <= s.len(),
        forall|k: int| 0 <= k < m ==> s[k] != ' ',
        m < s.len() ==> s[m] == ' ',
    ensures
        m == s.len() ==> space_at(s) is None,
        m < s.len() ==> space_at(s) == Option::Some(m),
    decreases s.len(),
{
    if s.len() == 0 {
    } else if s.first() == ' ' {
        assert(m == 0);
    } else {
        assert(m >= 1);
        assert forall|k: int| 0 <= k < m - 1 implies s.drop_first()[k] != ' ' by {
            assert(s.drop_first()[k] == s[k + 1]);
        }
        if m - 1 < s.drop_first().len() {
            assert(s.drop_first()[m - 1] == s[m]);
        }
        lemma_space_at_is(s.drop_first(), m - 1);
    }
}

/// Scans for the first plain space.
fn find_space(s: &str) -> (r: Option<usize>)
    ensures
        r is Some <==> space_at(s@) is Some,
        r is Some ==> r.unwrap() as int == space_at(s@).unwrap() && r.unwrap() < s@.len(),
{
    let n = s.unicode_len();
    let mut i: usize = 0;
    while i < n
        invariant
            0 <= i <= n,
            n == s@.len(),
            forall|k: int| 0 <= k < i ==> s@[k] != ' ',
        decreases n - i,
    {
        if s.get_char(i) == ' ' {
            proof {
                lemma_space_at_is(s@, i as int);
            }
            return Some(i);
        }
        i = i + 1;
    }
    proof {
        lemma_space_at_is(s@, n as int);
    }
    None
}

/// What extracting finds, as mathematics.
pub enum Extracted {
    Required,
    Pairs(Seq<(Seq<char>, Seq<char>)>),
    NoMatch,
    Exact,
}

/// The slot-by-slot walk: a variadic slot or the last stretch of text takes
/// everything left; otherwise the text up to the first space fills the slot
/// and the rest, trimmed, goes on. Empty leftovers fill nothing.
pub open spec fn extract_walk(
    slots: Seq<(Seq<char>, Kind)>,
    input: Seq<char>,
    acc: Seq<(Seq<char>, Seq<char>)>,
) -> Seq<(Seq<char>, Seq<char>)>
    decreases slots.len(),
{
    if slots.len() == 0 {
        acc
    } else {
        let key = slots.first().0;
        let kind = slots.first().1;
        match space_at(input) {
            Option::None => if input.len() > 0 {
                acc.push((key, input))
            } else {
                acc
            },
            Option::Some(p) => if kind == Kind::Variadic {
                if input.len() > 0 {
                    acc.push((key, input))
                } else {
                    acc
                }
            } else {
                extract_walk(
                    slots.drop_first(),
                    trim_spec(input.skip(p)),
                    acc.push((key, input.take(p))),
                )
            },
        }
    }
}

/// What extracting `input` against `slots` finds.
pub open spec fn extract_spec(slots: Seq<(Seq<char>, Kind)>, input: Seq<char>) -> Extracted {
    if input.len() == 0 && exists|i: int|
        0 <= i < slots.len() && (#[trigger] slots[i]).1 == Kind::Required {
        Extracted::Required
    } else if input.len() == 0 && slots.len() > 0 && !(exists|i: int|
        0 <= i < slots.len() && (#[trigger] slots[i]).1 == Kind::Optional) && !(exists|i: int|
        0 <= i < slots.len() && (#[trigger] slots[i]).1 == Kind::Variadic) {
        Extracted::NoMatch
    } else if input.len() == 0 && slots.len() == 0 {
        Extracted::Exact
    } else if input.len() > 0 && slots.len() == 0 {
        Extracted::NoMatch
    } else {
        Extracted::Pairs(extract_walk(slots, input, Seq::empty()))
    }
}

impl ExampleArgs {
    /// Splits a message's trailing text into the pattern's named values.
    pub fn extract(&self, input: &str) -> (r: Match<Arguments>)
        ensures
            ({
                let e = extract_spec(slots_view(self.args@), input@);
                &&& (r is Required <==> e is Required)
                &&& (r is NoMatch <==> e is NoMatch)
                &&& (r is Exact <==> e is Exact)
                &&& (r is Match <==> e is Pairs)
                &&& (r matches Match::Match(a) ==> a@ == e->Pairs_0)
            }),
    {
        let ghost slots = slots_view(self.args@);
        if input.unicode_len() == 0 {
            if self.contains(&Kind::Required) {
                return Match::Required;
            }
            let has_opt = self.contains(&Kind::Optional);
            let has_var = self.contains(&Kind::Variadic);
            if self.args.len() > 0 && !has_opt && !has_var {
                return Match::NoMatch;
            }
            if self.args.len() == 0 {
                return Match::Exact;
            }
        }
        if input.unicode_len() > 0 && self.args.len() == 0 {
            return Match::NoMatch;
        }
        let mut cur: String = input.to_owned();
        let mut pairs: Vec<(String, String)> = Vec::new();
        let mut idx: usize = 0;
        let n = self.args.len();
        proof {
            assert(slots.skip(0) =~= slots);
            assert(pairs_view(pairs@) =~= Seq::<(Seq<char>, Seq<char>)>::empty());
        }
        while idx < n
            invariant
                0 <= idx <= n,
                n == self.args@.len(),
                slots == slots_view(self.args@),
                extract_spec(slots, input@) == Extracted::Pairs(
                    extract_walk(slots, input@, Seq::empty()),
                ),
                extract_walk(slots, input@, Seq::empty()) == extract_walk(
                    slots.skip(idx as int),
                    cur@,
                    pairs_view(pairs@),
                ),
            decreases n - idx,
        {
            proof {
                assert(slots.skip(idx as int).first() == slots[idx as int]);
                assert(slots.skip(idx as int).drop_first() =~= slots.skip(idx as int + 1));
            }
            let kind_var = kind_eq(&self.args[idx].kind, &Kind::Variadic);
            let sp = find_space(cur.as_str());
            match sp {
                None => {
                    if cur.as_str().unicode_len() > 0 {
                        let ghost pv = pairs_view(pairs@);
                        let key = self.args[idx].key.clone();
                        pairs.push((key, cur));
                        proof {
                            assert(pairs_view(pairs@) =~= pv.push(
                                (slots[idx as int].0, pairs@.last().1@),
                            ));
                        }
                        return Match::Match(Arguments::from_pairs(pairs));
                    }
                    return Match::Match(Arguments::from_pairs(pairs));
                },
                Some(p) => {
                    if kind_var {
                        if cur.as_str().unicode_len() > 0 {
                            let ghost pv = pairs_view(pairs@);
                            let key = self.args[idx].key.clone();
                            pairs.push((key, cur));
                            proof {
                                assert(pairs_view(pairs@) =~= pv.push(
                                    (slots[idx as int].0, pairs@.last().1@),
                                ));
                            }
                            return Match::Match(Arguments::from_pairs(pairs));
                        }
                        return Match::Match(Arguments::from_pairs(pairs));
                    }
                    let head = cur.as_str().substring_char(0, p).to_owned();
                    let tail = trim_str(cur.as_str().substring_char(
                        p,
                        cur.as_str().unicode_len(),
                    ));
                    let ghost pv = pairs_view(pairs@);
                    let key = self.args[idx].key.clone();
                    proof {
                        assert(cur@.take(p as int) =~= cur@.subrange(0, p as int));
                        assert(cur@.skip(p as int) =~= cur@.subrange(
                            p as int,
                            cur@.len() as int,
                        ));
                    }
                    pairs.push((key, head));
                    proof {
                        assert(pairs_view(pairs@) =~= pv.push(
                            (slots[idx as int].0, cur@.take(p as int)),
                        ));
                    }
                    cur = tail;
                    idx = idx + 1;
                },
            }
        }
        proof {
            assert(slots.skip(n as int) =~= Seq::<(Seq<char>, Kind)>::empty());
        }
        Match::Match(Arguments::from_pairs(pairs))
    }
}

/// Whether some slot already uses this key, by scan.
fn has_key_exec(args: &Vec<ArgType>, key: &str) -> (r: bool)
    ensures
        r == has_key(slots_view(args@), key@),
{
    let n = args.len();
    let mut j: usize = 0;
    while j < n
        invariant
            0 <= j <= n,
            n == args@.len(),
            forall|k: int| 0 <= k < j ==> (#[trigger] slots_view(args@)[k]).0 != key@,
        decreases n - j,
    {
        if str_equal(args[j].key.as_str(), key) {
            proof {
                assert(slots_view(args@)[j as int].0 == key@);
            }
            return true;
        }
        j = j + 1;
    }
    false
}

/// Whether two slot kinds are the same.
fn kind_eq(a: &Kind, b: &Kind) -> (r: bool)
    ensures
        r == (*a == *b),
{
    match (a, b) {
        (Kind::Required, Kind::Required) => true,
        (Kind::Optional, Kind::Optional) => true,
        (Kind::Variadic, Kind::Variadic) => true,
        _ => false,
    }
}

} // verus!
