//! The binary persistence format of a Brain, as mathematics: what the bytes
//! are for a given model, what model a given byte string denotes, and the
//! proof that parsing inverts encoding. The chain engine's `encode` and
//! `decode` carry these functions in their contracts, so a save/load round
//! trip reproduces the model exactly.
//!
//! The format, all integers little-endian 64-bit:
//! name, depth, the start words (count, then each word), the entries (count,
//! then each: its context words, then its links). A word is its UTF-8 byte
//! length followed by the bytes; a link is a tag byte (0 the end mark, 1 a
//! word), the word if any, and the weight.

use vstd::prelude::*;

use crate::brain::BrainView;
use crate::link::LinkView;
use crate::set::links_wf;
use crate::token::TokenView;
use vstd::utf8::{decode_utf8, encode_utf8, valid_utf8};

verus! {

pub open spec fn pow2_64() -> nat {
    0x1_0000_0000_0000_0000
}

/// `k` bytes of `n`, little-endian.
pub open spec fn enc_le(n: nat, k: nat) -> Seq<u8>
    decreases k,
{
    if k == 0 {
        Seq::empty()
    } else {
        seq![(n % 256) as u8] + enc_le(n / 256, (k - 1) as nat)
    }
}

/// The value of the first `k` bytes, little-endian.
pub open spec fn dec_le(s: Seq<u8>, k: nat) -> nat
    decreases k,
{
    if k == 0 || s.len() == 0 {
        0
    } else {
        (s[0] + 256 * dec_le(s.drop_first(), (k - 1) as nat)) as nat
    }
}

pub open spec fn enc8(n: nat) -> Seq<u8> {
    enc_le(n, 8)
}

pub open spec fn enc_word(w: Seq<char>) -> Seq<u8> {
    enc8(encode_utf8(w).len()) + encode_utf8(w)
}

pub open spec fn enc_words(ws: Seq<Seq<char>>) -> Seq<u8>
    decreases ws.len(),
{
    if ws.len() == 0 {
        Seq::empty()
    } else {
        enc_word(ws.first()) + enc_words(ws.drop_first())
    }
}

pub open spec fn enc_link(l: LinkView) -> Seq<u8> {
    match l.token {
        TokenView::End => seq![0u8] + enc8(l.count),
        TokenView::Word(w) => seq![1u8] + enc_word(w) + enc8(l.count),
    }
}

pub open spec fn enc_links(ls: Seq<LinkView>) -> Seq<u8>
    decreases ls.len(),
{
    if ls.len() == 0 {
        Seq::empty()
    } else {
        enc_link(ls.first()) + enc_links(ls.drop_first())
    }
}

/// One stored context with its links.
pub open spec fn enc_entry(e: (Seq<Seq<char>>, Seq<LinkView>)) -> Seq<u8> {
    enc8(e.0.len()) + enc_words(e.0) + enc8(e.1.len()) + enc_links(e.1)
}

pub open spec fn enc_entries(es: Seq<(Seq<Seq<char>>, Seq<LinkView>)>) -> Seq<u8>
    decreases es.len(),
{
    if es.len() == 0 {
        Seq::empty()
    } else {
        enc_entry(es.first()) + enc_entries(es.drop_first())
    }
}

/// The bytes of a whole model, given its parts in storage order.
pub open spec fn spec_encode(
    name: Seq<char>,
    depth: nat,
    head: Seq<Seq<char>>,
    entries: Seq<(Seq<Seq<char>>, Seq<LinkView>)>,
) -> Seq<u8> {
    enc_word(name) + enc8(depth) + enc8(head.len()) + enc_words(head) + enc8(entries.len())
        + enc_entries(entries)
}

// ---------------------------------------------------------------- parsing

pub open spec fn p64(s: Seq<u8>) -> Option<(nat, Seq<u8>)> {
    if s.len() >= 8 {
        Some((dec_le(s.take(8), 8), s.skip(8)))
    } else {
        None
    }
}

pub open spec fn p_word(s: Seq<u8>) -> Option<(Seq<char>, Seq<u8>)> {
    match p64(s) {
        Option::None => Option::None,
        Option::Some((n, r)) => if r.len() >= n {
            if valid_utf8(r.take(n as int)) {
                Option::Some((decode_utf8(r.take(n as int)), r.skip(n as int)))
            } else {
                Option::None
            }
        } else {
            Option::None
        },
    }
}

pub open spec fn p_words(s: Seq<u8>, n: nat) -> Option<(Seq<Seq<char>>, Seq<u8>)>
    decreases n,
{
    if n == 0 {
        Option::Some((Seq::empty(), s))
    } else {
        match p_word(s) {
            Option::None => Option::None,
            Option::Some((w, r)) => match p_words(r, (n - 1) as nat) {
                Option::None => Option::None,
                Option::Some((ws, r2)) => Option::Some((seq![w] + ws, r2)),
            },
        }
    }
}

pub open spec fn p_link(s: Seq<u8>) -> Option<(LinkView, Seq<u8>)> {
    if s.len() < 1 {
        Option::None
    } else if s[0] == 0u8 {
        match p64(s.drop_first()) {
            Option::None => Option::None,
            Option::Some((c, r)) => if 1 <= c <= usize::MAX as nat {
                Option::Some((LinkView { token: TokenView::End, count: c }, r))
            } else {
                Option::None
            },
        }
    } else if s[0] == 1u8 {
        match p_word(s.drop_first()) {
            Option::None => Option::None,
            Option::Some((w, r)) => match p64(r) {
                Option::None => Option::None,
                Option::Some((c, r2)) => if 1 <= c <= usize::MAX as nat {
                    Option::Some((LinkView { token: TokenView::Word(w), count: c }, r2))
                } else {
                    Option::None
                },
            },
        }
    } else {
        Option::None
    }
}

pub open spec fn p_links(s: Seq<u8>, n: nat) -> Option<(Seq<LinkView>, Seq<u8>)>
    decreases n,
{
    if n == 0 {
        Option::Some((Seq::empty(), s))
    } else {
        match p_link(s) {
            Option::None => Option::None,
            Option::Some((l, r)) => match p_links(r, (n - 1) as nat) {
                Option::None => Option::None,
                Option::Some((ls, r2)) => Option::Some((seq![l] + ls, r2)),
            },
        }
    }
}

pub open spec fn p_entry(s: Seq<u8>) -> Option<((Seq<Seq<char>>, Seq<LinkView>), Seq<u8>)> {
    match p64(s) {
        Option::None => Option::None,
        Option::Some((m, r)) => match p_words(r, m) {
            Option::None => Option::None,
            Option::Some((ctx, r2)) => match p64(r2) {
                Option::None => Option::None,
                Option::Some((ln, r3)) => match p_links(r3, ln) {
                    Option::None => Option::None,
                    Option::Some((ls, r4)) => Option::Some(((ctx, ls), r4)),
                },
            },
        },
    }
}

pub open spec fn p_entries(s: Seq<u8>, n: nat) -> Option<
    (Seq<(Seq<Seq<char>>, Seq<LinkView>)>, Seq<u8>),
>
    decreases n,
{
    if n == 0 {
        Option::Some((Seq::empty(), s))
    } else {
        match p_entry(s) {
            Option::None => Option::None,
            Option::Some((e, r)) => match p_entries(r, (n - 1) as nat) {
                Option::None => Option::None,
                Option::Some((es, r2)) => Option::Some((seq![e] + es, r2)),
            },
        }
    }
}

/// What must hold of parsed parts for them to denote a Brain at all.
pub open spec fn parts_wf(
    depth: nat,
    head: Seq<Seq<char>>,
    entries: Seq<(Seq<Seq<char>>, Seq<LinkView>)>,
) -> bool {
    &&& 1 <= depth <= usize::MAX as nat
    &&& forall|i: int, j: int| 0 <= i < j < head.len() ==> head[i] != head[j]
    &&& forall|i: int, j: int|
        0 <= i < j < entries.len() ==> (#[trigger] entries[i]).0 != (#[trigger] entries[j]).0
    &&& forall|i: int|
        0 <= i < entries.len() ==> 1 <= (#[trigger] entries[i]).0.len() <= depth
    &&& forall|i: int|
        0 <= i < entries.len() ==> (#[trigger] entries[i]).1.len() >= 1 && links_wf(entries[i].1)
}

/// The chain map the parsed entries denote.
pub open spec fn pairs_map(es: Seq<(Seq<Seq<char>>, Seq<LinkView>)>) -> Map<
    Seq<Seq<char>>,
    Seq<LinkView>,
>
    decreases es.len(),
{
    if es.len() == 0 {
        Map::empty()
    } else {
        pairs_map(es.drop_last()).insert(es.last().0, es.last().1)
    }
}

/// The model a byte string denotes: the parts, parsed in storage order and
/// consuming every byte, when they are well formed; nothing otherwise.
pub open spec fn spec_decode(s: Seq<u8>) -> Option<BrainView> {
    match p_word(s) {
        Option::None => Option::None,
        Option::Some((name, r1)) => match p64(r1) {
            Option::None => Option::None,
            Option::Some((depth, r2)) => match p64(r2) {
                Option::None => Option::None,
                Option::Some((hn, r3)) => match p_words(r3, hn) {
                    Option::None => Option::None,
                    Option::Some((head, r4)) => match p64(r4) {
                        Option::None => Option::None,
                        Option::Some((en, r5)) => match p_entries(r5, en) {
                            Option::None => Option::None,
                            Option::Some((entries, r6)) => if r6.len() == 0 && parts_wf(
                                depth,
                                head,
                                entries,
                            ) {
                                Option::Some(
                                    BrainView {
                                        name,
                                        depth,
                                        chain: pairs_map(entries),
                                        head,
                                    },
                                )
                            } else {
                                Option::None
                            },
                        },
                    },
                },
            },
        },
    }
}

// ------------------------------------------- parsing inverts encoding

/// 256 to the `k`.
pub open spec fn pow256(k: nat) -> nat
    decreases k,
{
    if k == 0 {
        1
    } else {
        256 * pow256((k - 1) as nat)
    }
}

pub broadcast proof fn lemma_enc_le_len(n: nat, k: nat)
    ensures
        (#[trigger] enc_le(n, k)).len() == k,
    decreases k,
{
    if k > 0 {
        lemma_enc_le_len(n / 256, (k - 1) as nat);
    }
}

/// Little-endian decoding inverts little-endian encoding.
pub proof fn lemma_le_roundtrip(n: nat, k: nat)
    requires
        n < pow256(k),
    ensures
        dec_le(enc_le(n, k), k) == n,
    decreases k,
{
    if k == 0 {
    } else {
        let e = enc_le(n, k);
        lemma_enc_le_len(n, k);
        assert(e.first() == (n % 256) as u8);
        assert(e.drop_first() =~= enc_le(n / 256, (k - 1) as nat));
        assert(n / 256 < pow256((k - 1) as nat)) by (nonlinear_arith)
            requires
                n < pow256(k),
                pow256(k) == 256 * pow256((k - 1) as nat),
        ;
        lemma_le_roundtrip(n / 256, (k - 1) as nat);
        assert(n % 256 + 256 * (n / 256) == n) by (nonlinear_arith);
    }
}

pub open spec fn fits64(n: nat) -> bool {
    n < pow2_64()
}

pub proof fn lemma_pow256_8()
    ensures
        pow256(8) == pow2_64(),
{
    reveal_with_fuel(pow256, 9);
}

/// Reading eight bytes after an eight-byte write yields the written value.
pub proof fn lemma_p64(n: nat, rest: Seq<u8>)
    requires
        fits64(n),
    ensures
        p64(enc8(n) + rest) == Option::Some((n, rest)),
{
    lemma_enc_le_len(n, 8);
    let s = enc8(n) + rest;
    assert(s.take(8) =~= enc8(n));
    assert(s.skip(8) =~= rest);
    lemma_pow256_8();
    lemma_le_roundtrip(n, 8);
}

/// Parsing a word after a word write yields the word.
pub proof fn lemma_p_word(w: Seq<char>, rest: Seq<u8>)
    requires
        fits64(encode_utf8(w).len()),
    ensures
        p_word(enc_word(w) + rest) == Option::Some((w, rest)),
{
    broadcast use vstd::utf8::encode_utf8_valid_utf8, vstd::utf8::encode_utf8_decode_utf8;

    let bs = encode_utf8(w);
    let n = bs.len();
    assert(enc_word(w) + rest =~= enc8(n) + (bs + rest));
    lemma_p64(n, bs + rest);
    let r = bs + rest;
    assert(r.take(n as int) =~= bs);
    assert(r.skip(n as int) =~= rest);
}

pub open spec fn words_fit(ws: Seq<Seq<char>>) -> bool {
    forall|i: int| 0 <= i < ws.len() ==> fits64(encode_utf8(#[trigger] ws[i]).len())
}

/// Parsing `n` words after writing `n` words yields them all.
pub proof fn lemma_p_words(ws: Seq<Seq<char>>, rest: Seq<u8>)
    requires
        words_fit(ws),
    ensures
        p_words(enc_words(ws) + rest, ws.len()) == Option::Some((ws, rest)),
    decreases ws.len(),
{
    if ws.len() == 0 {
        assert(enc_words(ws) + rest =~= rest);
    } else {
        assert(ws.first() == ws[0]);
        assert(enc_words(ws) + rest =~= enc_word(ws.first()) + (enc_words(ws.drop_first())
            + rest));
        lemma_p_word(ws.first(), enc_words(ws.drop_first()) + rest);
        assert forall|i: int| 0 <= i < ws.drop_first().len() implies fits64(
            encode_utf8(#[trigger] ws.drop_first()[i]).len(),
        ) by {
            assert(ws.drop_first()[i] == ws[i + 1]);
        }
        lemma_p_words(ws.drop_first(), rest);
        assert(seq![ws.first()] + ws.drop_first() =~= ws);
    }
}

pub open spec fn link_fits(l: LinkView) -> bool {
    &&& 1 <= l.count <= usize::MAX as nat
    &&& match l.token {
        TokenView::Word(w) => fits64(encode_utf8(w).len()),
        TokenView::End => true,
    }
}

pub proof fn lemma_usize_fits()
    ensures
        (usize::MAX as nat) < pow2_64(),
{
    reveal_with_fuel(pow256, 9);
    assert((usize::MAX as nat) < pow2_64());
}

/// Parsing a link after a link write yields the link.
pub proof fn lemma_p_link(l: LinkView, rest: Seq<u8>)
    requires
        link_fits(l),
    ensures
        p_link(enc_link(l) + rest) == Option::Some((l, rest)),
{
    lemma_usize_fits();
    match l.token {
        TokenView::End => {
            let s = enc_link(l) + rest;
            assert(s[0] == 0u8);
            assert(s.drop_first() =~= enc8(l.count) + rest);
            lemma_p64(l.count, rest);
        },
        TokenView::Word(w) => {
            let s = enc_link(l) + rest;
            assert(s[0] == 1u8);
            assert(s.drop_first() =~= enc_word(w) + (enc8(l.count) + rest));
            lemma_p_word(w, enc8(l.count) + rest);
            lemma_p64(l.count, rest);
        },
    }
}

pub open spec fn links_fit(ls: Seq<LinkView>) -> bool {
    forall|i: int| 0 <= i < ls.len() ==> link_fits(#[trigger] ls[i])
}

pub proof fn lemma_p_links(ls: Seq<LinkView>, rest: Seq<u8>)
    requires
        links_fit(ls),
    ensures
        p_links(enc_links(ls) + rest, ls.len()) == Option::Some((ls, rest)),
    decreases ls.len(),
{
    if ls.len() == 0 {
        assert(enc_links(ls) + rest =~= rest);
    } else {
        assert(ls.first() == ls[0]);
        assert(enc_links(ls) + rest =~= enc_link(ls.first()) + (enc_links(ls.drop_first())
            + rest));
        lemma_p_link(ls.first(), enc_links(ls.drop_first()) + rest);
        assert forall|i: int| 0 <= i < ls.drop_first().len() implies link_fits(
            #[trigger] ls.drop_first()[i],
        ) by {
            assert(ls.drop_first()[i] == ls[i + 1]);
        }
        lemma_p_links(ls.drop_first(), rest);
        assert(seq![ls.first()] + ls.drop_first() =~= ls);
    }
}

pub open spec fn entry_fits(e: (Seq<Seq<char>>, Seq<LinkView>)) -> bool {
    &&& fits64(e.0.len())
    &&& fits64(e.1.len())
    &&& words_fit(e.0)
    &&& links_fit(e.1)
}

pub proof fn lemma_p_entry(e: (Seq<Seq<char>>, Seq<LinkView>), rest: Seq<u8>)
    requires
        entry_fits(e),
    ensures
        p_entry(enc_entry(e) + rest) == Option::Some((e, rest)),
{
    assert(enc_entry(e) + rest =~= enc8(e.0.len()) + (enc_words(e.0) + (enc8(e.1.len()) + (
    enc_links(e.1) + rest))));
    lemma_p64(e.0.len(), enc_words(e.0) + (enc8(e.1.len()) + (enc_links(e.1) + rest)));
    lemma_p_words(e.0, enc8(e.1.len()) + (enc_links(e.1) + rest));
    lemma_p64(e.1.len(), enc_links(e.1) + rest);
    lemma_p_links(e.1, rest);
}

pub open spec fn entries_fit(es: Seq<(Seq<Seq<char>>, Seq<LinkView>)>) -> bool {
    forall|i: int| 0 <= i < es.len() ==> entry_fits(#[trigger] es[i])
}

pub proof fn lemma_p_entries(es: Seq<(Seq<Seq<char>>, Seq<LinkView>)>, rest: Seq<u8>)
    requires
        entries_fit(es),
    ensures
        p_entries(enc_entries(es) + rest, es.len()) == Option::Some((es, rest)),
    decreases es.len(),
{
    if es.len() == 0 {
        assert(enc_entries(es) + rest =~= rest);
    } else {
        assert(es.first() == es[0]);
        assert(enc_entries(es) + rest =~= enc_entry(es.first()) + (enc_entries(es.drop_first())
            + rest));
        lemma_p_entry(es.first(), enc_entries(es.drop_first()) + rest);
        assert forall|i: int| 0 <= i < es.drop_first().len() implies entry_fits(
            #[trigger] es.drop_first()[i],
        ) by {
            assert(es.drop_first()[i] == es[i + 1]);
        }
        lemma_p_entries(es.drop_first(), rest);
        assert(seq![es.first()] + es.drop_first() =~= es);
    }
}

/// The value of eight bytes, written out.
pub proof fn lemma_dec_le_8(t: Seq<u8>)
    requires
        t.len() >= 8,
    ensures
        dec_le(t, 8) == t[0] + 256 * (t[1] + 256 * (t[2] + 256 * (t[3] + 256 * (t[4] + 256 * (t[5]
            + 256 * (t[6] + 256 * (t[7] as nat))))))),
{
    reveal_with_fuel(dec_le, 9);
    let s1 = t.drop_first();
    let s2 = s1.drop_first();
    let s3 = s2.drop_first();
    let s4 = s3.drop_first();
    let s5 = s4.drop_first();
    let s6 = s5.drop_first();
    let s7 = s6.drop_first();
    assert(s1 =~= t.skip(1));
    assert(s2 =~= t.skip(2));
    assert(s3 =~= t.skip(3));
    assert(s4 =~= t.skip(4));
    assert(s5 =~= t.skip(5));
    assert(s6 =~= t.skip(6));
    assert(s7 =~= t.skip(7));
    assert(s1[0] == t[1]);
    assert(s2[0] == t[2]);
    assert(s3[0] == t[3]);
    assert(s4[0] == t[4]);
    assert(s5[0] == t[5]);
    assert(s6[0] == t[6]);
    assert(s7[0] == t[7]);
}

/// Writing one more word extends the bytes at their end.
pub proof fn lemma_enc_words_push(ws: Seq<Seq<char>>, w: Seq<char>)
    ensures
        enc_words(ws.push(w)) == enc_words(ws) + enc_word(w),
    decreases ws.len(),
{
    reveal_with_fuel(enc_words, 2);
    if ws.len() == 0 {
        assert(ws.push(w).first() == w);
        assert(ws.push(w).drop_first() =~= Seq::<Seq<char>>::empty());
        assert(enc_words(ws.push(w)) =~= enc_words(ws) + enc_word(w));
    } else {
        assert(ws.push(w).first() == ws.first());
        assert(ws.push(w).drop_first() =~= ws.drop_first().push(w));
        lemma_enc_words_push(ws.drop_first(), w);
        assert(enc_words(ws.push(w)) =~= enc_words(ws) + enc_word(w));
    }
}

/// Writing one more link extends the bytes at their end.
pub proof fn lemma_enc_links_push(ls: Seq<LinkView>, l: LinkView)
    ensures
        enc_links(ls.push(l)) == enc_links(ls) + enc_link(l),
    decreases ls.len(),
{
    reveal_with_fuel(enc_links, 2);
    if ls.len() == 0 {
        assert(ls.push(l).first() == l);
        assert(ls.push(l).drop_first() =~= Seq::<LinkView>::empty());
        assert(enc_links(ls.push(l)) =~= enc_links(ls) + enc_link(l));
    } else {
        assert(ls.push(l).first() == ls.first());
        assert(ls.push(l).drop_first() =~= ls.drop_first().push(l));
        lemma_enc_links_push(ls.drop_first(), l);
        assert(enc_links(ls.push(l)) =~= enc_links(ls) + enc_link(l));
    }
}

/// Writing one more entry extends the bytes at their end.
pub proof fn lemma_enc_entries_push(
    es: Seq<(Seq<Seq<char>>, Seq<LinkView>)>,
    e: (Seq<Seq<char>>, Seq<LinkView>),
)
    ensures
        enc_entries(es.push(e)) == enc_entries(es) + enc_entry(e),
    decreases es.len(),
{
    reveal_with_fuel(enc_entries, 2);
    if es.len() == 0 {
        assert(es.push(e).first() == e);
        assert(es.push(e).drop_first() =~= Seq::<(Seq<Seq<char>>, Seq<LinkView>)>::empty());
        assert(enc_entries(es.push(e)) =~= enc_entries(es) + enc_entry(e));
    } else {
        assert(es.push(e).first() == es.first());
        assert(es.push(e).drop_first() =~= es.drop_first().push(e));
        lemma_enc_entries_push(es.drop_first(), e);
        assert(enc_entries(es.push(e)) =~= enc_entries(es) + enc_entry(e));
    }
}

/// The round trip: decoding the encoding of well-formed parts yields exactly
/// the model they denote.
pub proof fn lemma_decode_encode(
    name: Seq<char>,
    depth: nat,
    head: Seq<Seq<char>>,
    entries: Seq<(Seq<Seq<char>>, Seq<LinkView>)>,
)
    requires
        parts_wf(depth, head, entries),
        fits64(encode_utf8(name).len()),
        fits64(head.len()),
        fits64(entries.len()),
        words_fit(head),
        entries_fit(entries),
    ensures
        spec_decode(spec_encode(name, depth, head, entries)) == Option::Some(
            BrainView { name, depth, chain: pairs_map(entries), head },
        ),
{
    lemma_usize_fits();
    let t5 = enc_entries(entries);
    let t4 = enc8(entries.len()) + t5;
    let t3 = enc_words(head) + t4;
    let t2 = enc8(head.len()) + t3;
    let t1 = enc8(depth) + t2;
    let s = spec_encode(name, depth, head, entries);
    assert(s =~= enc_word(name) + t1);
    lemma_p_word(name, t1);
    lemma_p64(depth, t2);
    lemma_p64(head.len(), t3);
    lemma_p_words(head, t4);
    lemma_p64(entries.len(), t5);
    assert(t5 =~= enc_entries(entries) + Seq::<u8>::empty());
    lemma_p_entries(entries, Seq::empty());
}

} // verus!
