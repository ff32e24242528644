//! Text is treated as whitespace-delimited words. This module fixes the
//! library's tokenization rule (splitting on ASCII whitespace) and gives the
//! verified split and join that the chain engine and the bot commands share.

use vstd::prelude::*;

verus! {

/// The characters on which input text is split into words.
pub open spec fn is_space(c: char) -> bool {
    c == ' ' || c == '\t' || c == '\n' || c == '\r' || c == '\u{c}'
}

pub fn space_char(c: char) -> (r: bool)
    ensures
        r == is_space(c),
{
    c == ' ' || c == '\t' || c == '\n' || c == '\r' || c == '\u{c}'
}

/// Length of the maximal non-space prefix of `s`.
pub open spec fn word_prefix_len(s: Seq<char>) -> nat
    decreases s.len(),
{
    if s.len() == 0 || is_space(s.first()) {
        0
    } else {
        1 + word_prefix_len(s.drop_first())
    }
}

/// The words of `s`: maximal runs of non-space characters, in order.
pub open spec fn split_ws(s: Seq<char>) -> Seq<Seq<char>>
    decreases s.len(),
    via split_ws_decreases
{
    if s.len() == 0 {
        Seq::empty()
    } else if is_space(s.first()) {
        split_ws(s.drop_first())
    } else {
        seq![s.take(word_prefix_len(s) as int)]
            + split_ws(s.skip(word_prefix_len(s) as int))
    }
}

#[via_fn]
proof fn split_ws_decreases(s: Seq<char>) {
    lemma_word_prefix_len_bound(s);
}

/// `word_prefix_len` never exceeds the length of the sequence.
pub proof fn lemma_word_prefix_len_bound(s: Seq<char>)
    ensures
        word_prefix_len(s) <= s.len(),
        s.len() > 0 && !is_space(s.first()) ==> word_prefix_len(s) >= 1,
    decreases s.len(),
{
    if s.len() == 0 || is_space(s.first()) {
    } else {
        lemma_word_prefix_len_bound(s.drop_first());
    }
}

/// The view of a vector of words, word by word.
pub open spec fn words_view(ws: Seq<String>) -> Seq<Seq<char>> {
    ws.map_values(|w: String| w@)
}

/// `word_prefix_len` is the index of the first space (or the length).
pub proof fn lemma_word_prefix_len(s: Seq<char>)
    ensures
        word_prefix_len(s) <= s.len(),
        forall|k: int| 0 <= k < word_prefix_len(s) ==> !is_space(#[trigger] s[k]),
        word_prefix_len(s) < s.len() ==> is_space(s[word_prefix_len(s) as int]),
    decreases s.len(),
{
    if s.len() == 0 || is_space(s.first()) {
    } else {
        lemma_word_prefix_len(s.drop_first());
        assert forall|k: int| 0 <= k < word_prefix_len(s) implies !is_space(#[trigger] s[k]) by {
            if k > 0 {
                assert(s.drop_first()[k - 1] == s[k]);
            }
        }
        if word_prefix_len(s) < s.len() {
            assert(s.drop_first()[word_prefix_len(s) - 1] == s[word_prefix_len(s) as int]);
        }
    }
}

/// Conversely, an index with the first-space property is `word_prefix_len`.
pub proof fn lemma_word_prefix_len_is(s: Seq<char>, m: int)
    requires
        0 <= m <= s.len(),
        forall|k: int| 0 <= k < m ==> !is_space(#[trigger] s[k]),
        m < s.len() ==> is_space(s[m]),
    ensures
        word_prefix_len(s) == m,
    decreases s.len(),
{
    if s.len() == 0 {
    } else if is_space(s.first()) {
        assert(m == 0);
    } else {
        assert(m >= 1);
        assert forall|k: int| 0 <= k < m - 1 implies !is_space(#[trigger] s.drop_first()[k]) by {
            assert(s.drop_first()[k] == s[k + 1]);
        }
        if m - 1 < s.drop_first().len() {
            assert(s.drop_first()[m - 1] == s[m]);
        }
        lemma_word_prefix_len_is(s.drop_first(), m - 1);
    }
}

/// Every word that splitting yields is non-empty.
pub proof fn lemma_split_ws_nonempty(s: Seq<char>)
    ensures
        forall|k: int| 0 <= k < split_ws(s).len() ==> #[trigger] split_ws(s)[k].len() >= 1,
    decreases s.len(),
{
    if s.len() == 0 {
    } else if is_space(s.first()) {
        lemma_split_ws_nonempty(s.drop_first());
        assert(split_ws(s) == split_ws(s.drop_first()));
    } else {
        lemma_word_prefix_len(s);
        lemma_word_prefix_len_bound(s);
        lemma_split_ws_nonempty(s.skip(word_prefix_len(s) as int));
        let w = word_prefix_len(s) as int;
        let rest = split_ws(s.skip(w));
        assert(split_ws(s) == seq![s.take(w)] + rest);
        assert(s.take(w).len() == w >= 1);
        assert forall|k: int| 0 <= k < split_ws(s).len() implies
            #[trigger] split_ws(s)[k].len() >= 1 by {
            if k == 0 {
                assert(split_ws(s)[0] == s.take(w));
            } else {
                assert(split_ws(s)[k] == rest[k - 1]);
                assert(rest[k - 1].len() >= 1);
            }
        }
    }
}

/// Skipping a leading space does not change the words.
proof fn lemma_split_ws_skip_space(s: Seq<char>, i: int)
    requires
        0 <= i < s.len(),
        is_space(s[i]),
    ensures
        split_ws(s.skip(i)) == split_ws(s.skip(i + 1)),
{
    assert(s.skip(i).drop_first() =~= s.skip(i + 1));
    assert(s.skip(i).first() == s[i]);
}

/// At the start of a word, splitting yields that word and then the rest.
proof fn lemma_split_ws_word(s: Seq<char>, i: int, j: int)
    requires
        0 <= i < j <= s.len(),
        forall|k: int| i <= k < j ==> !is_space(#[trigger] s[k]),
        j < s.len() ==> is_space(s[j]),
    ensures
        split_ws(s.skip(i)) == seq![s.subrange(i, j)] + split_ws(s.skip(j)),
{
    let t = s.skip(i);
    assert forall|k: int| 0 <= k < j - i implies !is_space(#[trigger] t[k]) by {
        assert(t[k] == s[k + i]);
    }
    if j - i < t.len() {
        assert(t[j - i] == s[j]);
    }
    lemma_word_prefix_len_is(t, j - i);
    assert(!is_space(t.first()));
    assert(t.take(j - i) =~= s.subrange(i, j));
    assert(t.skip(j - i) =~= s.skip(j));
}

/// Splits `s` into its whitespace-delimited words.
pub fn split_words(s: &str) -> (r: Vec<String>)
    ensures
        words_view(r@) == split_ws(s@),
{
    let n = s.unicode_len();
    let mut r: Vec<String> = Vec::new();
    let mut i: usize = 0;
    proof {
        assert(s@.skip(0) =~= s@);
        assert(words_view(r@) =~= Seq::<Seq<char>>::empty());
        assert(words_view(r@) + split_ws(s@.skip(0)) =~= split_ws(s@));
    }
    while i < n
        invariant
            0 <= i <= n,
            n == s@.len(),
            words_view(r@) + split_ws(s@.skip(i as int)) == split_ws(s@),
        decreases n - i,
    {
        let c = s.get_char(i);
        if space_char(c) {
            proof {
                lemma_split_ws_skip_space(s@, i as int);
            }
            i = i + 1;
        } else {
            // scan to the end of the word
            let start = i;
            let mut j = i + 1;
            while j < n
                invariant
                    start < j <= n,
                    n == s@.len(),
                    forall|k: int| start <= k < j ==> !is_space(#[trigger] s@[k]),
                ensures
                    start < j <= n,
                    forall|k: int| start <= k < j ==> !is_space(#[trigger] s@[k]),
                    j < n ==> is_space(s@[j as int]),
                decreases n - j,
            {
                let c2 = s.get_char(j);
                if space_char(c2) {
                    break;
                }
                j = j + 1;
            }
            let word = s.substring_char(start, j).to_owned();
            proof {
                lemma_split_ws_word(s@, start as int, j as int);
            }
            let ghost old_r = r@;
            r.push(word);
            proof {
                assert(words_view(r@) =~= words_view(old_r).push(word@));
                assert(words_view(r@) + split_ws(s@.skip(j as int)) =~= split_ws(s@));
            }
            i = j;
        }
    }
    proof {
        assert(s@.skip(n as int) =~= Seq::<char>::empty());
        assert(words_view(r@) + split_ws(s@.skip(n as int)) =~= words_view(r@));
    }
    r
}

/// Words joined by a single separator character.
pub open spec fn join_sep(ws: Seq<Seq<char>>, sep: char) -> Seq<char>
    decreases ws.len(),
{
    if ws.len() == 0 {
        Seq::empty()
    } else if ws.len() == 1 {
        ws.first()
    } else {
        ws.first() + seq![sep] + join_sep(ws.drop_first(), sep)
    }
}

/// Appending one more word extends the joined text at its end.
pub proof fn lemma_join_sep_push(ws: Seq<Seq<char>>, w: Seq<char>, sep: char)
    ensures
        join_sep(ws.push(w), sep) == if ws.len() == 0 {
            w
        } else {
            join_sep(ws, sep) + seq![sep] + w
        },
    decreases ws.len(),
{
    if ws.len() == 0 {
        assert(ws.push(w).len() == 1);
        assert(ws.push(w).first() == w);
    } else {
        lemma_join_sep_push(ws.drop_first(), w, sep);
        assert(ws.push(w).drop_first() =~= ws.drop_first().push(w));
        assert(ws.push(w).first() == ws.first());
        if ws.len() == 1 {
            assert(ws.drop_first().len() == 0);
            assert(join_sep(ws, sep) == ws.first());
        } else {
            assert(join_sep(ws, sep) + seq![sep] + w =~= ws.first() + seq![sep] + (join_sep(
                ws.drop_first(),
                sep,
            ) + seq![sep] + w));
        }
    }
}

/// Joins the words with single spaces.
pub fn join_words(ws: &Vec<String>) -> (r: String)
    ensures
        r@ == join_sep(words_view(ws@), ' '),
{
    let mut r = String::new();
    let mut i: usize = 0;
    proof {
        assert(words_view(ws@).take(0) =~= Seq::<Seq<char>>::empty());
    }
    while i < ws.len()
        invariant
            0 <= i <= ws@.len(),
            r@ == join_sep(words_view(ws@).take(i as int), ' '),
        decreases ws@.len() - i,
    {
        if i > 0 {
            r.append(" ");
            proof {
                reveal_strlit(" ");
            }
        }
        r.append(ws[i].as_str());
        proof {
            let vs = words_view(ws@);
            lemma_join_sep_push(vs.take(i as int), vs[i as int], ' ');
            assert(vs.take(i as int).push(vs[i as int]) =~= vs.take(i as int + 1));
            if i > 0 {
                assert(r@ =~= join_sep(vs.take(i as int + 1), ' '));
            } else {
                assert(r@ =~= vs[0]);
            }
        }
        i = i + 1;
    }
    proof {
        assert(words_view(ws@).take(ws@.len() as int) =~= words_view(ws@));
    }
    r
}

/// Whether two strings hold the same characters.
pub fn str_equal(a: &str, b: &str) -> (r: bool)
    ensures
        r == (a@ == b@),
{
    let sa = a.to_owned();
    let sb = b.to_owned();
    sa.eq(&sb)
}

/// Relies on String::from_utf8: it returns a string exactly when the bytes
/// are valid UTF-8, and that string's characters encode to those same bytes.
#[verifier::external_body]
pub fn string_from_utf8(bytes: Vec<u8>) -> (r: Option<String>)
    ensures
        r is Some <==> vstd::utf8::valid_utf8(bytes@),
        r is Some ==> vstd::utf8::encode_utf8(r.unwrap()@) == bytes@,
{
    String::from_utf8(bytes).ok()
}

/// The numeric value of a sequence of decimal digits.
pub open spec fn dec_value(s: Seq<char>) -> nat
    decreases s.len(),
{
    if s.len() == 0 {
        0
    } else {
        (dec_value(s.drop_last()) * 10 + (s.last() as int - '0' as int)) as nat
    }
}

pub open spec fn is_dec_digit(c: char) -> bool {
    '0' <= c && c <= '9'
}

pub open spec fn all_dec_digits(s: Seq<char>) -> bool {
    forall|k: int| 0 <= k < s.len() ==> is_dec_digit(#[trigger] s[k])
}

/// The canonical decimal digits of `n`: no leading zero except for zero itself.
pub open spec fn dec_digits(n: nat) -> Seq<char>
    decreases n,
{
    if n < 10 {
        seq![digit_char(n)]
    } else {
        dec_digits(n / 10).push(digit_char(n % 10))
    }
}

pub open spec fn digit_char(d: nat) -> char {
    ((d + ('0' as nat)) as u32) as char
}

fn digit_str(d: u64) -> (r: &'static str)
    requires
        d < 10,
    ensures
        r@ == seq![digit_char(d as nat)],
{
    let r: &'static str = match d {
        0 => "0",
        1 => "1",
        2 => "2",
        3 => "3",
        4 => "4",
        5 => "5",
        6 => "6",
        7 => "7",
        8 => "8",
        _ => "9",
    };
    proof {
        reveal_strlit("0");
        reveal_strlit("1");
        reveal_strlit("2");
        reveal_strlit("3");
        reveal_strlit("4");
        reveal_strlit("5");
        reveal_strlit("6");
        reveal_strlit("7");
        reveal_strlit("8");
        reveal_strlit("9");
        assert(r@ =~= seq![digit_char(d as nat)]);
    }
    r
}

/// Renders `n` in decimal.
pub fn format_u64(n: u64) -> (r: String)
    ensures
        r@ == dec_digits(n as nat),
    decreases n,
{
    if n < 10 {
        digit_str(n).to_owned()
    } else {
        let mut r = format_u64(n / 10);
        r.append(digit_str(n % 10));
        proof {
            assert(r@ =~= dec_digits((n / 10) as nat).push(digit_char((n % 10) as nat)));
        }
        r
    }
}

/// The value of every digit prefix is no more than the value of the whole.
proof fn lemma_dec_value_take_mono(s: Seq<char>, m: int)
    requires
        0 <= m <= s.len(),
        all_dec_digits(s),
    ensures
        dec_value(s.take(m)) <= dec_value(s),
    decreases s.len() - m,
{
    if m < s.len() {
        lemma_dec_value_take_mono(s, m + 1);
        assert(s.take(m + 1).drop_last() =~= s.take(m));
        assert(s.take(m + 1).last() == s[m]);
        assert(dec_value(s.take(m)) <= dec_value(s.take(m + 1)));
    } else {
        assert(s.take(m) =~= s);
    }
}

/// Reads `s` as a decimal `u64`: all digits, at least one, value in range.
pub fn parse_u64(s: &str) -> (r: Option<u64>)
    ensures
        r is Some <==> (s@.len() >= 1 && all_dec_digits(s@) && dec_value(s@) <= u64::MAX),
        r is Some ==> r.unwrap() == dec_value(s@),
{
    let n = s.unicode_len();
    if n == 0 {
        return None;
    }
    let mut acc: u64 = 0;
    let mut i: usize = 0;
    proof {
        assert(s@.take(0) =~= Seq::<char>::empty());
    }
    while i < n
        invariant
            0 <= i <= n,
            n == s@.len(),
            acc == dec_value(s@.take(i as int)),
            all_dec_digits(s@.take(i as int)),
        decreases n - i,
    {
        let c = s.get_char(i);
        if !(c >= '0' && c <= '9') {
            proof {
                assert(!is_dec_digit(s@[i as int]));
            }
            return None;
        }
        let d: u64 = (c as u32 as u64) - 48;
        proof {
            assert(is_dec_digit(s@[i as int]));
            assert(d < 10);
            assert(s@.take(i as int + 1).drop_last() =~= s@.take(i as int));
            assert(s@.take(i as int + 1).last() == s@[i as int]);
            assert(d == s@[i as int] as int - '0' as int);
        }
        if acc > (u64::MAX - d) / 10 {
            proof {
                let q = ((u64::MAX - d) / 10) as int;
                assert(q * 10 + 10 > u64::MAX - d) by (nonlinear_arith)
                    requires
                        q == ((u64::MAX - d) as int) / 10,
                        0 <= d < 10,
                ;
                assert(acc * 10 >= (q + 1) * 10) by (nonlinear_arith)
                    requires
                        acc as int >= q + 1,
                ;
                assert(dec_value(s@.take(i as int + 1)) > u64::MAX);
                assert(all_dec_digits(s@.take(i as int + 1)));
                assert forall|k: int| 0 <= k < s@.len() implies is_dec_digit(#[trigger] s@[k])
                    || !all_dec_digits(s@) by {}
                if all_dec_digits(s@) {
                    lemma_dec_value_take_mono(s@, i as int + 1);
                }
            }
            return None;
        }
        proof {
            let q = ((u64::MAX - d) / 10) as int;
            assert(q * 10 <= u64::MAX - d) by (nonlinear_arith)
                requires
                    q == ((u64::MAX - d) as int) / 10,
                    0 <= d < 10,
            ;
            assert(acc * 10 <= q * 10) by (nonlinear_arith)
                requires
                    acc as int <= q,
            ;
        }
        acc = acc * 10 + d;
        i = i + 1;
    }
    proof {
        assert(s@.take(n as int) =~= s@);
    }
    Some(acc)
}

} // verus!
