//! Cleans a chat line before it is learned: the bot's own name is stripped,
//! then links, words with characters beyond plain ASCII, commands and
//! mentions are dropped, word by word.

use vstd::prelude::*;

use crate::text::{join_sep, split_ws, split_words, words_view};

verus! {

/// The text with every occurrence of the bot's name (with its surrounding
/// punctuation) removed. What it is exactly is fixed by the pattern below.
pub uninterp spec fn name_stripped(s: Seq<char>) -> Seq<char>;

/// Relies on regex::Regex::new and regex::Regex::replace_all: the pattern is
/// a fixed, valid expression, so building it cannot fail, and what
/// replace_all returns depends on the pattern and the input text alone.
#[verifier::external_body]
fn remove_name(input: &str) -> (r: String)
    ensures
        r@ == name_stripped(input@),
{
    let pattern = regex::Regex::new(
        r#"(?x)
        ['"\(\[@\#]*?       # leading
        (shaken|shaken_bot) # name
        [,.!?:'"\)\]]*?     # trailing
        "#,
    )
    .expect("the pattern is fixed and valid");
    pattern.replace_all(input, "").to_string()
}

/// Whether the text parses as a URL. The answer depends on the text alone.
pub uninterp spec fn is_link(s: Seq<char>) -> bool;

/// Relies on url::Url::parse: succeeds exactly on text that is an absolute
/// URL by that crate's rules.
#[verifier::external_body]
fn parses_as_url(s: &str) -> (r: bool)
    ensures
        r == is_link(s@),
{
    url::Url::parse(s).is_ok()
}

/// The words that do not start with the given character.
pub open spec fn keep_unprefixed(ws: Seq<Seq<char>>, c: char) -> Seq<Seq<char>>
    decreases ws.len(),
{
    if ws.len() == 0 {
        Seq::empty()
    } else if ws.first().len() > 0 && ws.first()[0] == c {
        keep_unprefixed(ws.drop_first(), c)
    } else {
        seq![ws.first()] + keep_unprefixed(ws.drop_first(), c)
    }
}

/// The words made only of plain ASCII characters.
pub open spec fn keep_ascii(ws: Seq<Seq<char>>) -> Seq<Seq<char>>
    decreases ws.len(),
{
    if ws.len() == 0 {
        Seq::empty()
    } else if all_ascii(ws.first()) {
        seq![ws.first()] + keep_ascii(ws.drop_first())
    } else {
        keep_ascii(ws.drop_first())
    }
}

pub open spec fn all_ascii(w: Seq<char>) -> bool {
    forall|k: int| 0 <= k < w.len() ==> (#[trigger] w[k]) as u32 <= 127
}

/// The words that are not links.
pub open spec fn keep_nonlinks(ws: Seq<Seq<char>>) -> Seq<Seq<char>>
    decreases ws.len(),
{
    if ws.len() == 0 {
        Seq::empty()
    } else if is_link(ws.first()) {
        keep_nonlinks(ws.drop_first())
    } else {
        seq![ws.first()] + keep_nonlinks(ws.drop_first())
    }
}

/// Drops every word that starts a command.
pub fn filter_commands(input: &str) -> (r: String)
    ensures
        r@ == join_sep(keep_unprefixed(split_ws(input@), '!'), ' '),
{
    let words = split_words(input);
    let ghost ws = words_view(words@);
    let mut kept: Vec<String> = Vec::new();
    let mut i: usize = 0;
    proof {
        assert(ws.skip(0) =~= ws);
        assert(words_view(kept@) =~= Seq::<Seq<char>>::empty());
        assert(words_view(kept@) + keep_unprefixed(ws.skip(0), '!') =~= keep_unprefixed(ws, '!'));
    }
    while i < words.len()
        invariant
            0 <= i <= words@.len(),
            ws == words_view(words@),
            words_view(kept@) + keep_unprefixed(ws.skip(i as int), '!') == keep_unprefixed(
                ws,
                '!',
            ),
        decreases words@.len() - i,
    {
        proof {
            assert(ws.skip(i as int).first() == ws[i as int]);
            assert(ws.skip(i as int).drop_first() =~= ws.skip(i as int + 1));
        }
        let w = &words[i];
        let skip_it = w.as_str().unicode_len() > 0 && w.as_str().get_char(0) == '!';
        if !skip_it {
            let ghost kv = words_view(kept@);
            kept.push(w.clone());
            proof {
                assert(words_view(kept@) =~= kv.push(ws[i as int]));
                assert(words_view(kept@) + keep_unprefixed(ws.skip(i as int + 1), '!')
                    =~= keep_unprefixed(ws, '!'));
            }
        }
        i = i + 1;
    }
    proof {
        assert(ws.skip(words@.len() as int) =~= Seq::<Seq<char>>::empty());
        assert(words_view(kept@) + keep_unprefixed(
            ws.skip(words@.len() as int),
            '!',
        ) =~= words_view(kept@));
    }
    crate::text::join_words(&kept)
}

/// Drops every word that mentions someone.
pub fn filter_mentions(input: &str) -> (r: String)
    ensures
        r@ == join_sep(keep_unprefixed(split_ws(input@), '@'), ' '),
{
    let words = split_words(input);
    let ghost ws = words_view(words@);
    let mut kept: Vec<String> = Vec::new();
    let mut i: usize = 0;
    proof {
        assert(ws.skip(0) =~= ws);
        assert(words_view(kept@) =~= Seq::<Seq<char>>::empty());
        assert(words_view(kept@) + keep_unprefixed(ws.skip(0), '@') =~= keep_unprefixed(ws, '@'));
    }
    while i < words.len()
        invariant
            0 <= i <= words@.len(),
            ws == words_view(words@),
            words_view(kept@) + keep_unprefixed(ws.skip(i as int), '@') == keep_unprefixed(
                ws,
                '@',
            ),
        decreases words@.len() - i,
    {
        proof {
            assert(ws.skip(i as int).first() == ws[i as int]);
            assert(ws.skip(i as int).drop_first() =~= ws.skip(i as int + 1));
        }
        let w = &words[i];
        let skip_it = w.as_str().unicode_len() > 0 && w.as_str().get_char(0) == '@';
        if !skip_it {
            let ghost kv = words_view(kept@);
            kept.push(w.clone());
            proof {
                assert(words_view(kept@) =~= kv.push(ws[i as int]));
                assert(words_view(kept@) + keep_unprefixed(ws.skip(i as int + 1), '@')
                    =~= keep_unprefixed(ws, '@'));
            }
        }
        i = i + 1;
    }
    proof {
        assert(ws.skip(words@.len() as int) =~= Seq::<Seq<char>>::empty());
        assert(words_view(kept@) + keep_unprefixed(
            ws.skip(words@.len() as int),
            '@',
        ) =~= words_view(kept@));
    }
    crate::text::join_words(&kept)
}

/// Drops every word that holds a character beyond plain ASCII.
pub fn remove_garbage(input: &str) -> (r: String)
    ensures
        r@ == join_sep(keep_ascii(split_ws(input@)), ' '),
{
    let words = split_words(input);
    let ghost ws = words_view(words@);
    let mut kept: Vec<String> = Vec::new();
    let mut i: usize = 0;
    proof {
        assert(ws.skip(0) =~= ws);
        assert(words_view(kept@) =~= Seq::<Seq<char>>::empty());
        assert(words_view(kept@) + keep_ascii(ws.skip(0)) =~= keep_ascii(ws));
    }
    while i < words.len()
        invariant
            0 <= i <= words@.len(),
            ws == words_view(words@),
            words_view(kept@) + keep_ascii(ws.skip(i as int)) == keep_ascii(ws),
        decreases words@.len() - i,
    {
        proof {
            assert(ws.skip(i as int).first() == ws[i as int]);
            assert(ws.skip(i as int).drop_first() =~= ws.skip(i as int + 1));
        }
        if word_is_ascii(words[i].as_str()) {
            let ghost kv = words_view(kept@);
            let w = words[i].clone();
            kept.push(w);
            proof {
                assert(words_view(kept@) =~= kv.push(ws[i as int]));
                assert(words_view(kept@) + keep_ascii(ws.skip(i as int + 1)) =~= keep_ascii(ws));
            }
        }
        i = i + 1;
    }
    proof {
        assert(ws.skip(words@.len() as int) =~= Seq::<Seq<char>>::empty());
        assert(words_view(kept@) + keep_ascii(ws.skip(words@.len() as int)) =~= words_view(kept@));
    }
    crate::text::join_words(&kept)
}

/// Whether every character is plain ASCII.
fn word_is_ascii(w: &str) -> (r: bool)
    ensures
        r == all_ascii(w@),
{
    let n = w.unicode_len();
    let mut i: usize = 0;
    while i < n
        invariant
            0 <= i <= n,
            n == w@.len(),
            forall|k: int| 0 <= k < i ==> (#[trigger] w@[k]) as u32 <= 127,
        decreases n - i,
    {
        let c = w.get_char(i);
        if c as u32 > 127 {
            return false;
        }
        i = i + 1;
    }
    true
}

/// Drops every word that parses as a link.
pub fn remove_links(input: &str) -> (r: String)
    ensures
        r@ == join_sep(keep_nonlinks(split_ws(input@)), ' '),
{
    let words = split_words(input);
    let ghost ws = words_view(words@);
    let mut kept: Vec<String> = Vec::new();
    let mut i: usize = 0;
    proof {
        assert(ws.skip(0) =~= ws);
        assert(words_view(kept@) =~= Seq::<Seq<char>>::empty());
        assert(words_view(kept@) + keep_nonlinks(ws.skip(0)) =~= keep_nonlinks(ws));
    }
    while i < words.len()
        invariant
            0 <= i <= words@.len(),
            ws == words_view(words@),
            words_view(kept@) + keep_nonlinks(ws.skip(i as int)) == keep_nonlinks(ws),
        decreases words@.len() - i,
    {
        proof {
            assert(ws.skip(i as int).first() == ws[i as int]);
            assert(ws.skip(i as int).drop_first() =~= ws.skip(i as int + 1));
        }
        if !parses_as_url(words[i].as_str()) {
            let ghost kv = words_view(kept@);
            let w = words[i].clone();
            kept.push(w);
            proof {
                assert(words_view(kept@) =~= kv.push(ws[i as int]));
                assert(words_view(kept@) + keep_nonlinks(ws.skip(i as int + 1)) =~= keep_nonlinks(
                    ws,
                ));
            }
        }
        i = i + 1;
    }
    proof {
        assert(ws.skip(words@.len() as int) =~= Seq::<Seq<char>>::empty());
        assert(words_view(kept@) + keep_nonlinks(ws.skip(words@.len() as int)) =~= words_view(
            kept@,
        ));
    }
    crate::text::join_words(&kept)
}

/// The whole cleaning pass: name, links, garbage, commands, mentions.
pub open spec fn filter_spec(s: Seq<char>) -> Seq<char> {
    let s1 = name_stripped(s);
    let s2 = join_sep(keep_nonlinks(split_ws(s1)), ' ');
    let s3 = join_sep(keep_ascii(split_ws(s2)), ' ');
    let s4 = join_sep(keep_unprefixed(split_ws(s3), '!'), ' ');
    join_sep(keep_unprefixed(split_ws(s4), '@'), ' ')
}

/// Cleans one chat line for training.
pub fn filter(input: &str) -> (r: String)
    ensures
        r@ == filter_spec(input@),
{
    let s1 = remove_name(input);
    let s2 = remove_links(s1.as_str());
    let s3 = remove_garbage(s2.as_str());
    let s4 = filter_commands(s3.as_str());
    filter_mentions(s4.as_str())
}

} // verus!
