//! The chain engine: a variable-order Markov model over whitespace-delimited
//! words. A Brain owns a mapping from contexts (one to `depth` words) to
//! weighted edge-sets, and the set of words seen at the start of a line.

use vstd::prelude::*;

use crate::link::{sat_add, Link, LinkView};
use crate::set::{bump_links, links_view, links_wf, EdgeSet};
use crate::text::{join_sep, split_words, split_ws, words_view};
use crate::token::{Token, TokenView};

verus! {

/// One learned context and its weighted continuations.
struct ChainEntry {
    context: Vec<String>,
    set: EdgeSet,
}

impl ChainEntry {
    spec fn key(&self) -> Seq<Seq<char>> {
        words_view(self.context@)
    }
}

/// The mathematical value of a Brain.
pub struct BrainView {
    pub name: Seq<char>,
    pub depth: nat,
    pub chain: Map<Seq<Seq<char>>, Seq<LinkView>>,
    pub head: Seq<Seq<char>>,
}

/// What holds of every Brain: the depth is at least one, every stored context
/// holds between one and `depth` words, every edge-set is non-empty and well
/// formed, and the start words are distinct.
pub open spec fn brain_wf(b: BrainView) -> bool {
    &&& b.depth >= 1
    &&& forall|k: Seq<Seq<char>>|
        b.chain.dom().contains(k) ==> 1 <= (#[trigger] k.len()) <= b.depth
    &&& forall|k: Seq<Seq<char>>|
        b.chain.dom().contains(k) ==> (#[trigger] b.chain[k]).len() >= 1 && links_wf(b.chain[k])
    &&& forall|i: int, j: int| 0 <= i < j < b.head.len() ==> b.head[i] != b.head[j]
}

/// The weight the chain attaches to continuing `ctx` with `tok`.
pub open spec fn chain_weight(b: BrainView, ctx: Seq<Seq<char>>, tok: TokenView) -> nat {
    if b.chain.dom().contains(ctx) {
        crate::set::weight_of(b.chain[ctx], tok)
    } else {
        0
    }
}

/// One observation: the edge-set of `ctx` learns `tok`.
pub open spec fn chain_bump(
    chain: Map<Seq<Seq<char>>, Seq<LinkView>>,
    ctx: Seq<Seq<char>>,
    tok: TokenView,
) -> Map<Seq<Seq<char>>, Seq<LinkView>> {
    if chain.dom().contains(ctx) {
        chain.insert(ctx, bump_links(chain[ctx], tok))
    } else {
        chain.insert(ctx, bump_links(Seq::empty(), tok))
    }
}

/// The chain after the word windows of width `w` starting at positions
/// `i` and later: each window's leading `w` words learn the trailing word.
pub open spec fn train_windows(
    chain: Map<Seq<Seq<char>>, Seq<LinkView>>,
    words: Seq<Seq<char>>,
    w: nat,
    i: nat,
) -> Map<Seq<Seq<char>>, Seq<LinkView>>
    decreases words.len() - i,
{
    if i + w < words.len() {
        train_windows(
            chain_bump(
                chain,
                words.subrange(i as int, (i + w) as int),
                TokenView::Word(words[(i + w) as int]),
            ),
            words,
            w,
            i + 1,
        )
    } else {
        chain
    }
}

/// The chain after one full width: every window of that width, then the
/// end-of-line mark for the line's last `w` words.
pub open spec fn train_width(
    chain: Map<Seq<Seq<char>>, Seq<LinkView>>,
    words: Seq<Seq<char>>,
    w: nat,
) -> Map<Seq<Seq<char>>, Seq<LinkView>> {
    chain_bump(
        train_windows(chain, words, w, 0),
        words.skip(words.len() - w as int),
        TokenView::End,
    )
}

/// The chain after all widths from 1 up to `d`.
pub open spec fn train_all(
    chain: Map<Seq<Seq<char>>, Seq<LinkView>>,
    words: Seq<Seq<char>>,
    d: nat,
) -> Map<Seq<Seq<char>>, Seq<LinkView>>
    decreases d,
{
    if d == 0 {
        chain
    } else {
        train_width(train_all(chain, words, (d - 1) as nat), words, d)
    }
}

/// The start-word set after observing `w` first: appended unless present.
pub open spec fn head_insert(h: Seq<Seq<char>>, w: Seq<char>) -> Seq<Seq<char>> {
    if h.contains(w) {
        h
    } else {
        h.push(w)
    }
}

/// The whole effect of training one line of words on a Brain.
pub open spec fn spec_train(b: BrainView, words: Seq<Seq<char>>) -> BrainView {
    if words.len() == 0 {
        b
    } else {
        BrainView {
            name: b.name,
            depth: b.depth,
            head: head_insert(b.head, words[0]),
            chain: train_all(
                b.chain,
                words,
                if b.depth <= words.len() - 1 {
                    b.depth
                } else {
                    (words.len() - 1) as nat
                },
            ),
        }
    }
}

/// The chain map denoted by a vector of entries, later entries winning
/// (the representation keeps the keys unique, so none ever has to win).
spec fn entries_map(es: Seq<ChainEntry>) -> Map<Seq<Seq<char>>, Seq<LinkView>>
    decreases es.len(),
{
    if es.len() == 0 {
        Map::empty()
    } else {
        entries_map(es.drop_last()).insert(es.last().key(), es.last().set@)
    }
}

spec fn entries_unique(es: Seq<ChainEntry>) -> bool {
    forall|i: int, j: int| 0 <= i < j < es.len() ==> (#[trigger] es[i]).key() != (
    #[trigger] es[j]).key()
}

proof fn lemma_entries_map_absent(es: Seq<ChainEntry>, k: Seq<Seq<char>>)
    requires
        forall|i: int| 0 <= i < es.len() ==> (#[trigger] es[i]).key() != k,
    ensures
        !entries_map(es).dom().contains(k),
    decreases es.len(),
{
    if es.len() > 0 {
        assert(es.last() == es[es.len() - 1]);
        assert forall|i: int| 0 <= i < es.drop_last().len() implies (
        #[trigger] es.drop_last()[i]).key() != k by {
            assert(es.drop_last()[i] == es[i]);
        }
        lemma_entries_map_absent(es.drop_last(), k);
    }
}

proof fn lemma_entries_map_lookup(es: Seq<ChainEntry>, i: int)
    requires
        entries_unique(es),
        0 <= i < es.len(),
    ensures
        entries_map(es).dom().contains(es[i].key()),
        entries_map(es)[es[i].key()] == es[i].set@,
    decreases es.len(),
{
    assert(es.last() == es[es.len() - 1]);
    if i == es.len() - 1 {
    } else {
        assert forall|a: int, b: int| 0 <= a < b < es.drop_last().len() implies (
        #[trigger] es.drop_last()[a]).key() != (#[trigger] es.drop_last()[b]).key() by {
            assert(es.drop_last()[a] == es[a]);
            assert(es.drop_last()[b] == es[b]);
        }
        assert(es.drop_last()[i] == es[i]);
        lemma_entries_map_lookup(es.drop_last(), i);
        assert(es[i].key() != es.last().key());
    }
}

proof fn lemma_entries_map_domain(es: Seq<ChainEntry>, k: Seq<Seq<char>>)
    requires
        entries_unique(es),
    ensures
        entries_map(es).dom().contains(k) <==> exists|i: int|
            0 <= i < es.len() && (#[trigger] es[i]).key() == k,
{
    if exists|i: int| 0 <= i < es.len() && (#[trigger] es[i]).key() == k {
        let i = choose|i: int| 0 <= i < es.len() && (#[trigger] es[i]).key() == k;
        lemma_entries_map_lookup(es, i);
    } else {
        assert forall|i: int| 0 <= i < es.len() implies (#[trigger] es[i]).key() != k by {}
        lemma_entries_map_absent(es, k);
    }
}

proof fn lemma_entries_map_update(es: Seq<ChainEntry>, i: int, e: ChainEntry)
    requires
        entries_unique(es),
        0 <= i < es.len(),
        e.key() == es[i].key(),
    ensures
        entries_map(es.update(i, e)) =~= entries_map(es).insert(e.key(), e.set@),
    decreases es.len(),
{
    let es2 = es.update(i, e);
    assert(es.last() == es[es.len() - 1]);
    assert(es2.last() == es2[es.len() - 1]);
    if i == es.len() - 1 {
        assert(es2.drop_last() =~= es.drop_last());
        assert(es2.last() == e);
    } else {
        assert(es2.drop_last() =~= es.drop_last().update(i, e));
        assert(es2.last() == es.last());
        assert forall|a: int, b: int| 0 <= a < b < es.drop_last().len() implies (
        #[trigger] es.drop_last()[a]).key() != (#[trigger] es.drop_last()[b]).key() by {
            assert(es.drop_last()[a] == es[a]);
            assert(es.drop_last()[b] == es[b]);
        }
        assert(es.drop_last()[i] == es[i]);
        lemma_entries_map_update(es.drop_last(), i, e);
        assert(e.key() != es.last().key());
    }
}

/// A trained Markov model, identified by name.
pub struct Brain {
    name: String,
    depth: usize,
    chain: Vec<ChainEntry>,
    head: Vec<String>,
}

impl View for Brain {
    type V = BrainView;

    closed spec fn view(&self) -> BrainView {
        BrainView {
            name: self.name@,
            depth: self.depth as nat,
            chain: entries_map(self.chain@),
            head: words_view(self.head@),
        }
    }
}

impl Brain {
    /// The representation invariant: entry keys are distinct, and the view is
    /// well formed.
    pub closed spec fn inv(&self) -> bool {
        &&& entries_unique(self.chain@)
        &&& forall|i: int|
            0 <= i < self.chain@.len() ==> 1 <= (#[trigger] self.chain@[i]).key().len()
                <= self.depth
        &&& forall|i: int|
            0 <= i < self.chain@.len() ==> (#[trigger] self.chain@[i]).set@.len() >= 1 && links_wf(
                self.chain@[i].set@,
            )
        &&& brain_wf(self@)
    }

    /// Every invariant-holding Brain has a well-formed view.
    pub proof fn lemma_inv_wf(&self)
        requires
            self.inv(),
        ensures
            brain_wf(self@),
    {
    }

    /// A fresh, untrained Brain.
    pub fn new(name: String, depth: usize) -> (r: Brain)
        requires
            depth >= 1,
        ensures
            r.inv(),
            r@.name == name@,
            r@.depth == depth as nat,
            r@.chain =~= Map::<Seq<Seq<char>>, Seq<LinkView>>::empty(),
            r@.head =~= Seq::<Seq<char>>::empty(),
    {
        let r = Brain { name, depth, chain: Vec::new(), head: Vec::new() };
        proof {
            assert(words_view(r.head@) =~= Seq::<Seq<char>>::empty());
        }
        r
    }

    /// The Brain's name.
    pub fn name(&self) -> (r: &str)
        ensures
            r@ == self@.name,
    {
        self.name.as_str()
    }

    /// The fixed context depth.
    pub fn depth(&self) -> (r: usize)
        ensures
            r as nat == self@.depth,
    {
        self.depth
    }

    /// The words seen at the start of a trained line, in first-seen order.
    pub fn head_words(&self) -> (r: &Vec<String>)
        ensures
            words_view(r@) == self@.head,
    {
        &self.head
    }

    /// The weight the Brain attaches to continuing `context` with `token`:
    /// zero when the context was never trained.
    pub fn weight(&self, context: &Vec<String>, token: &Token) -> (r: usize)
        requires
            self.inv(),
        ensures
            r as nat == chain_weight(self@, words_view(context@), token@),
    {
        proof {
            lemma_entries_map_domain(self.chain@, words_view(context@));
        }
        let n = self.chain.len();
        let mut i: usize = 0;
        while i < n
            invariant
                0 <= i <= n,
                n == self.chain@.len(),
                self.inv(),
                forall|j: int| 0 <= j < i ==> (#[trigger] self.chain@[j]).key() != words_view(
                    context@,
                ),
            decreases n - i,
        {
            if words_equal(&self.chain[i].context, context) {
                proof {
                    lemma_entries_map_lookup(self.chain@, i as int);
                }
                return weight_links(self.chain[i].set.links(), token);
            }
            i = i + 1;
        }
        proof {
            lemma_entries_map_absent(self.chain@, words_view(context@));
        }
        0
    }
}

impl Brain {
    /// Learns one line of text: the first word joins the start-word set, and
    /// for every width up to the depth, every window of that width learns its
    /// continuation and the line's tail learns the end mark. Text with no
    /// words is a no-op.
    pub fn train(&mut self, text: &str)
        requires
            old(self).inv(),
        ensures
            final(self).inv(),
            final(self)@ == spec_train(old(self)@, split_ws(text@)),
    {
        let ghost b0 = old(self)@;
        let words = split_words(text);
        let ghost ws = words_view(words@);
        if words.is_empty() {
            return;
        }
        proof {
            crate::text::lemma_split_ws_nonempty(text@);
        }

        // register the first word of the line as a start word
        if !contains_word(&self.head, &words[0]) {
            let ghost h0 = words_view(self.head@);
            proof {
                assert(h0 == b0.head);
                assert(forall|i: int, j: int| 0 <= i < j < b0.head.len() ==> b0.head[i]
                    != b0.head[j]);
            }
            self.head.push(words[0].clone());
            proof {
                assert(words_view(self.head@) =~= h0.push(ws[0]));
                let h1 = words_view(self.head@);
                assert forall|i: int, j: int| 0 <= i < j < h1.len() implies h1[i] != h1[j] by {
                    if j < h0.len() {
                        assert(h1[i] == h0[i] && h1[j] == h0[j]);
                        assert(h0[i] != h0[j]);
                    } else {
                        assert(h1[j] == ws[0]);
                        assert(h1[i] == h0[i]);
                        assert(h0.contains(h0[i]));
                    }
                }
            }
        }
        proof {
            assert(self@.head == head_insert(b0.head, ws[0]));
            assert(self@.chain == b0.chain);
        }
        let ghost b1 = self@;

        let d: usize = if self.depth <= words.len() - 1 {
            self.depth
        } else {
            words.len() - 1
        };
        let mut w: usize = 1;
        while w <= d
            invariant
                1 <= w <= d + 1,
                d as nat == if b0.depth <= ws.len() - 1 {
                    b0.depth
                } else {
                    (ws.len() - 1) as nat
                },
                ws.len() >= 1,
                ws.len() <= usize::MAX as nat,
                ws == words_view(words@),
                d < ws.len(),
                self.inv(),
                self@.name == b0.name,
                self@.depth == b0.depth,
                self@.head == head_insert(b0.head, ws[0]),
                self@.chain == train_all(b0.chain, ws, (w - 1) as nat),
                forall|k: int| 0 <= k < ws.len() ==> (#[trigger] ws[k]).len() >= 1,
            decreases d + 1 - w,
        {
            let ghost cstart = self@.chain;
            let mut i: usize = 0;
            let stop = words.len() - w;
            while i < stop
                invariant
                    0 <= i,
                    i + w <= ws.len(),
                    stop == ws.len() - w,
                    1 <= w <= d,
                    d < ws.len(),
                    ws.len() <= usize::MAX as nat,
                    ws == words_view(words@),
                    w <= b0.depth,
                    self.inv(),
                    self@.name == b0.name,
                    self@.depth == b0.depth,
                    self@.head == head_insert(b0.head, ws[0]),
                    train_windows(self@.chain, ws, w as nat, i as nat) == train_windows(
                        cstart,
                        ws,
                        w as nat,
                        0,
                    ),
                decreases ws.len() - i,
            {
                let j = i + w;
                self.train_link(&words, i, j, Token::Word(words[j].clone()));
                i = i + 1;
            }
            self.train_link(&words, words.len() - w, words.len(), Token::End);
            proof {
                assert(ws.subrange(ws.len() - w as int, ws.len() as int) =~= ws.skip(
                    ws.len() - w as int,
                ));
                assert(self@.chain == train_width(cstart, ws, w as nat));
                assert(self@.chain == train_all(b0.chain, ws, w as nat));
            }
            w = w + 1;
        }
        proof {
            assert(self@.chain == train_all(
                b0.chain,
                ws,
                if b0.depth <= ws.len() - 1 {
                    b0.depth
                } else {
                    (ws.len() - 1) as nat
                },
            ));
            assert(self@ == spec_train(b0, ws));
        }
    }

    /// Records that `token` follows the context `words[lo..hi]`.
    fn train_link(&mut self, words: &Vec<String>, lo: usize, hi: usize, token: Token)
        requires
            old(self).inv(),
            lo < hi <= words@.len(),
            1 <= hi - lo <= old(self).depth,
        ensures
            final(self).inv(),
            final(self)@.name == old(self)@.name,
            final(self)@.depth == old(self)@.depth,
            final(self)@.head == old(self)@.head,
            final(self)@.chain == chain_bump(
                old(self)@.chain,
                words_view(words@).subrange(lo as int, hi as int),
                token@,
            ),
    {
        let ghost key = words_view(words@).subrange(lo as int, hi as int);
        let n = self.chain.len();
        let mut i: usize = 0;
        while i < n
            invariant
                0 <= i <= n,
                n == self.chain@.len(),
                self == old(self),
                self.inv(),
                lo < hi <= words@.len(),
                1 <= hi - lo <= self.depth,
                key == words_view(words@).subrange(lo as int, hi as int),
                forall|j: int| 0 <= j < i ==> (#[trigger] self.chain@[j]).key() != key,
            decreases n - i,
        {
            if context_matches(&self.chain[i].context, words, lo, hi) {
                let ghost es = self.chain@;
                let ghost oldset = self.chain@[i as int].set@;
                self.chain[i].set.insert(token);
                proof {
                    let e2 = self.chain@[i as int];
                    assert(self.chain@ =~= es.update(i as int, e2));
                    assert(e2.key() == key);
                    assert(e2.set@ == bump_links(oldset, token@));
                    lemma_entries_map_lookup(es, i as int);
                    lemma_entries_map_update(es, i as int, e2);
                    crate::set::lemma_bump_links(oldset, token@);
                    assert forall|a: int, b: int| 0 <= a < b < self.chain@.len() implies (
                    #[trigger] self.chain@[a]).key() != (#[trigger] self.chain@[b]).key() by {
                        if a != i as int {
                            assert(self.chain@[a] == es[a]);
                        }
                        if b != i as int {
                            assert(self.chain@[b] == es[b]);
                        }
                        assert(es[a].key() != es[b].key());
                    }
                    assert forall|j: int| 0 <= j < self.chain@.len() implies 1 <= (
                    #[trigger] self.chain@[j]).key().len() <= self.depth && self.chain@[j].set@.len()
                        >= 1 && links_wf(self.chain@[j].set@) by {
                        if j != i as int {
                            assert(self.chain@[j] == es[j]);
                        }
                    }
                    lemma_entries_wf(self.chain@, self.depth as nat);
                    assert(final(self)@.chain =~= chain_bump(old(self)@.chain, key, token@));
                    assert(final(self)@.head =~= old(self)@.head);
                }
                return;
            }
            i = i + 1;
        }
        let context = copy_range(words, lo, hi);
        let ghost es = self.chain@;
        self.chain.push(ChainEntry { context, set: EdgeSet::new(token) });
        proof {
            let e = self.chain@[es.len() as int];
            assert(self.chain@ =~= es.push(e));
            assert(e.key() == key);
            assert(self.chain@.drop_last() =~= es);
            assert(entries_map(self.chain@) == entries_map(es).insert(key, e.set@));
            lemma_entries_map_absent(es, key);
            assert(bump_links(Seq::empty(), token@) =~= seq![
                LinkView { token: token@, count: 1 },
            ]);
            crate::set::lemma_bump_links(Seq::empty(), token@);
            assert forall|a: int, b: int| 0 <= a < b < self.chain@.len() implies (
            #[trigger] self.chain@[a]).key() != (#[trigger] self.chain@[b]).key() by {
                if b < es.len() {
                    assert(self.chain@[a] == es[a] && self.chain@[b] == es[b]);
                } else {
                    assert(self.chain@[a] == es[a]);
                    assert(self.chain@[b] == e);
                }
            }
            assert forall|j: int| 0 <= j < self.chain@.len() implies 1 <= (
            #[trigger] self.chain@[j]).key().len() <= self.depth && self.chain@[j].set@.len() >= 1
                && links_wf(self.chain@[j].set@) by {
                if j < es.len() {
                    assert(self.chain@[j] == es[j]);
                } else {
                    assert(self.chain@[j] == e);
                }
            }
            lemma_entries_wf(self.chain@, self.depth as nat);
            assert(final(self)@.chain =~= chain_bump(old(self)@.chain, key, token@));
            assert(final(self)@.head =~= old(self)@.head);
        }
    }
}

/// The chain clauses of `brain_wf`, derived from the per-entry facts.
proof fn lemma_entries_wf(es: Seq<ChainEntry>, depth: nat)
    requires
        entries_unique(es),
        forall|i: int| 0 <= i < es.len() ==> 1 <= (#[trigger] es[i]).key().len() <= depth,
        forall|i: int|
            0 <= i < es.len() ==> (#[trigger] es[i]).set@.len() >= 1 && links_wf(es[i].set@),
    ensures
        forall|k: Seq<Seq<char>>|
            entries_map(es).dom().contains(k) ==> 1 <= (#[trigger] k.len()) <= depth,
        forall|k: Seq<Seq<char>>|
            entries_map(es).dom().contains(k) ==> (#[trigger] entries_map(es)[k]).len() >= 1
                && links_wf(entries_map(es)[k]),
{
    assert forall|k: Seq<Seq<char>>| entries_map(es).dom().contains(k) implies 1 <= (
    #[trigger] k.len()) <= depth by {
        lemma_entries_map_domain(es, k);
        let i = choose|i: int| 0 <= i < es.len() && (#[trigger] es[i]).key() == k;
        lemma_entries_map_lookup(es, i);
    }
    assert forall|k: Seq<Seq<char>>| entries_map(es).dom().contains(k) implies (
    #[trigger] entries_map(es)[k]).len() >= 1 && links_wf(entries_map(es)[k]) by {
        lemma_entries_map_domain(es, k);
        let i = choose|i: int| 0 <= i < es.len() && (#[trigger] es[i]).key() == k;
        lemma_entries_map_lookup(es, i);
    }
}

/// Whether the start-word set already holds `w`.
fn contains_word(h: &Vec<String>, w: &String) -> (r: bool)
    ensures
        r == words_view(h@).contains(w@),
{
    let n = h.len();
    let mut i: usize = 0;
    while i < n
        invariant
            0 <= i <= n,
            n == h@.len(),
            forall|k: int| 0 <= k < i ==> (#[trigger] words_view(h@)[k]) != w@,
        decreases n - i,
    {
        if h[i].eq(w) {
            proof {
                assert(words_view(h@)[i as int] == w@);
            }
            return true;
        }
        i = i + 1;
    }
    proof {
        assert(forall|k: int| 0 <= k < words_view(h@).len() ==> (#[trigger] words_view(h@)[k])
            != w@);
    }
    false
}

/// Whether `ctx` holds exactly the words `words[lo..hi]`.
fn context_matches(ctx: &Vec<String>, words: &Vec<String>, lo: usize, hi: usize) -> (r: bool)
    requires
        lo <= hi <= words@.len(),
    ensures
        r == (words_view(ctx@) == words_view(words@).subrange(lo as int, hi as int)),
{
    let ghost key = words_view(words@).subrange(lo as int, hi as int);
    if ctx.len() != hi - lo {
        proof {
            assert(words_view(ctx@).len() != key.len());
        }
        return false;
    }
    let n = ctx.len();
    let mut i: usize = 0;
    while i < n
        invariant
            0 <= i <= n,
            n == ctx@.len(),
            lo <= hi <= words@.len(),
            n == hi - lo,
            key == words_view(words@).subrange(lo as int, hi as int),
            forall|k: int| 0 <= k < i ==> (#[trigger] words_view(ctx@)[k]) == key[k],
        decreases n - i,
    {
        if !ctx[i].eq(&words[lo + i]) {
            proof {
                assert(words_view(ctx@)[i as int] != key[i as int]);
            }
            return false;
        }
        i = i + 1;
    }
    proof {
        assert(words_view(ctx@) =~= key);
    }
    true
}

/// A copy of the words `words[lo..hi]`.
fn copy_range(words: &Vec<String>, lo: usize, hi: usize) -> (r: Vec<String>)
    requires
        lo <= hi <= words@.len(),
    ensures
        words_view(r@) == words_view(words@).subrange(lo as int, hi as int),
{
    let mut r: Vec<String> = Vec::new();
    let mut i: usize = lo;
    proof {
        assert(words_view(r@) =~= words_view(words@).subrange(lo as int, lo as int));
    }
    while i < hi
        invariant
            lo <= i <= hi <= words@.len(),
            words_view(r@) == words_view(words@).subrange(lo as int, i as int),
        decreases hi - i,
    {
        let ghost prev = r@;
        r.push(words[i].clone());
        proof {
            assert(words_view(r@) =~= words_view(prev).push(words@[i as int]@));
            assert(words_view(words@).subrange(lo as int, i as int + 1) =~= words_view(
                words@,
            ).subrange(lo as int, i as int).push(words_view(words@)[i as int]));
        }
        i = i + 1;
    }
    r
}

/// Whether two word vectors hold the same words.
pub fn words_equal(a: &Vec<String>, b: &Vec<String>) -> (r: bool)
    ensures
        r == (words_view(a@) == words_view(b@)),
{
    if a.len() != b.len() {
        proof {
            assert(words_view(a@).len() != words_view(b@).len());
        }
        return false;
    }
    let n = a.len();
    let mut i: usize = 0;
    while i < n
        invariant
            0 <= i <= n,
            n == a@.len() == b@.len(),
            forall|k: int| 0 <= k < i ==> (#[trigger] words_view(a@)[k]) == words_view(b@)[k],
        decreases n - i,
    {
        if !a[i].eq(&b[i]) {
            proof {
                assert(words_view(a@)[i as int] != words_view(b@)[i as int]);
            }
            return false;
        }
        i = i + 1;
    }
    proof {
        assert(words_view(a@) =~= words_view(b@));
    }
    true
}

/// The total weight of `token` in a list of links.
fn weight_links(links: &Vec<Link>, token: &Token) -> (r: usize)
    requires
        links_wf(links_view(links@)),
    ensures
        r as nat == crate::set::weight_of(links_view(links@), token@),
{
    let n = links.len();
    let mut i: usize = 0;
    while i < n
        invariant
            0 <= i <= n,
            n == links@.len(),
            links_wf(links_view(links@)),
            forall|k: int| 0 <= k < i ==> (#[trigger] links_view(links@)[k]).token != token@,
        decreases n - i,
    {
        if links[i].token.same(token) {
            proof {
                lemma_weight_unique(links_view(links@), token@, i as int);
            }
            return links[i].count;
        }
        i = i + 1;
    }
    proof {
        lemma_weight_none(links_view(links@), token@);
    }
    0
}

/// With distinct tokens, the weight of a token is its one link's count.
proof fn lemma_weight_unique(s: Seq<LinkView>, tok: TokenView, i: int)
    requires
        0 <= i < s.len(),
        s[i].token == tok,
        forall|k: int| 0 <= k < i ==> (#[trigger] s[k]).token != tok,
        forall|a: int, b: int| 0 <= a < b < s.len() ==> (#[trigger] s[a]).token != (
        #[trigger] s[b]).token,
    ensures
        crate::set::weight_of(s, tok) == s[i].count,
    decreases i,
{
    if i == 0 {
        assert(s.first() == s[0]);
        assert forall|k: int| 0 <= k < s.drop_first().len() implies (
        #[trigger] s.drop_first()[k]).token != tok by {
            assert(s.drop_first()[k] == s[k + 1]);
        }
        lemma_weight_none(s.drop_first(), tok);
    } else {
        assert(s.first() == s[0]);
        assert(s[0].token != tok);
        assert forall|k: int| 0 <= k < i - 1 implies (#[trigger] s.drop_first()[k]).token
            != tok by {
            assert(s.drop_first()[k] == s[k + 1]);
        }
        assert forall|a: int, b: int| 0 <= a < b < s.drop_first().len() implies (
        #[trigger] s.drop_first()[a]).token != (#[trigger] s.drop_first()[b]).token by {
            assert(s.drop_first()[a] == s[a + 1]);
            assert(s.drop_first()[b] == s[b + 1]);
        }
        assert(s.drop_first()[i - 1] == s[i]);
        lemma_weight_unique(s.drop_first(), tok, i - 1);
    }
}

/// A word the Brain has seen: a start word, or a stored continuation.
pub open spec fn brain_word(b: BrainView, w: Seq<char>) -> bool {
    b.head.contains(w) || exists|k: Seq<Seq<char>>, j: int|
        b.chain.dom().contains(k) && 0 <= j < b.chain[k].len() && (#[trigger] b.chain[k][j]).token
            == TokenView::Word(w)
}

/// The links with every weight multiplied by the width that found them.
pub open spec fn scale_links(s: Seq<LinkView>, w: nat) -> Seq<LinkView> {
    s.map_values(|l: LinkView| LinkView { token: l.token, count: crate::link::sat_mul(l.count, w) })
}

/// One link folded into the merged candidates: the matching candidate's
/// weight grows by the link's weight, or the link is appended.
pub open spec fn add_link(s: Seq<LinkView>, l: LinkView) -> Seq<LinkView>
    decreases s.len(),
{
    if s.len() == 0 {
        seq![l]
    } else if s.first().token == l.token {
        seq![LinkView { token: l.token, count: sat_add(s.first().count, l.count) }]
            + s.drop_first()
    } else {
        seq![s.first()] + add_link(s.drop_first(), l)
    }
}

/// A whole edge-set folded into the merged candidates, in order.
pub open spec fn merge_into(acc: Seq<LinkView>, s: Seq<LinkView>) -> Seq<LinkView>
    decreases s.len(),
{
    if s.len() == 0 {
        acc
    } else {
        merge_into(add_link(acc, s.first()), s.drop_first())
    }
}

/// The merged candidates over widths 1 to `w`: for each width, the edge-set
/// of the last `w` context words, scaled by the width, merged by token.
pub open spec fn merged_upto(b: BrainView, ctx: Seq<Seq<char>>, w: nat) -> Seq<LinkView>
    decreases w,
{
    if w == 0 {
        Seq::empty()
    } else {
        let acc = merged_upto(b, ctx, (w - 1) as nat);
        let key = ctx.skip(ctx.len() - w as int);
        if b.chain.dom().contains(key) {
            merge_into(acc, scale_links(b.chain[key], w))
        } else {
            acc
        }
    }
}

/// All merged candidates for a context.
pub open spec fn merged_links(b: BrainView, ctx: Seq<Seq<char>>) -> Seq<LinkView> {
    merged_upto(
        b,
        ctx,
        if b.depth <= ctx.len() {
            b.depth
        } else {
            ctx.len()
        },
    )
}

/// The sum of all weights.
pub open spec fn total_weight(s: Seq<LinkView>) -> nat
    decreases s.len(),
{
    if s.len() == 0 {
        0
    } else {
        s.first().count + total_weight(s.drop_first())
    }
}

/// The sum of all weights, saturating at `usize::MAX`.
pub open spec fn sat_total(s: Seq<LinkView>) -> nat {
    if total_weight(s) <= usize::MAX as nat {
        total_weight(s)
    } else {
        usize::MAX as nat
    }
}

/// The textbook weight-proportional choice: scan the links in order,
/// subtracting each weight from the draw until it would go negative.
pub open spec fn weighted_pick(s: Seq<LinkView>, r: nat) -> TokenView
    decreases s.len(),
{
    if s.len() == 0 {
        TokenView::End
    } else if r < s.first().count {
        s.first().token
    } else {
        weighted_pick(s.drop_first(), (r - s.first().count) as nat)
    }
}

/// A draw below the total always lands on one of the links.
pub proof fn lemma_pick_member(s: Seq<LinkView>, r: nat)
    requires
        r < total_weight(s),
    ensures
        exists|j: int| 0 <= j < s.len() && (#[trigger] s[j]).token == weighted_pick(s, r),
    decreases s.len(),
{
    if r < s.first().count {
        assert(s[0].token == weighted_pick(s, r));
    } else {
        lemma_pick_member(s.drop_first(), (r - s.first().count) as nat);
        let j = choose|j: int|
            0 <= j < s.drop_first().len() && (#[trigger] s.drop_first()[j]).token == weighted_pick(
                s.drop_first(),
                (r - s.first().count) as nat,
            );
        assert(s[j + 1].token == weighted_pick(s, r));
    }
}

/// Appending one link adds its weight to the total.
proof fn lemma_total_push(s: Seq<LinkView>, x: LinkView)
    ensures
        total_weight(s.push(x)) == total_weight(s) + x.count,
    decreases s.len(),
{
    if s.len() == 0 {
        reveal_with_fuel(total_weight, 2);
        assert(s.push(x).first() == x);
        assert(s.push(x).drop_first() =~= Seq::<LinkView>::empty());
    } else {
        assert(s.push(x).drop_first() =~= s.drop_first().push(x));
        assert(s.push(x).first() == s.first());
        lemma_total_push(s.drop_first(), x);
    }
}

/// What `add_link` does to well-formedness and to the token set.
proof fn lemma_add_link(s: Seq<LinkView>, l: LinkView)
    requires
        links_wf(s),
        1 <= l.count <= usize::MAX as nat,
    ensures
        links_wf(add_link(s, l)),
        add_link(s, l).len() >= 1,
        forall|j: int|
            0 <= j < add_link(s, l).len() ==> (#[trigger] add_link(s, l)[j]).token == l.token || (
            exists|i: int| 0 <= i < s.len() && (#[trigger] s[i]).token == add_link(s, l)[j].token),
    decreases s.len(),
{
    let b = add_link(s, l);
    if s.len() == 0 {
    } else if s.first().token == l.token {
        assert(b.drop_first() =~= s.drop_first());
        assert forall|x: int, y: int| 0 <= x < y < b.len() implies (#[trigger] b[x]).token != (
        #[trigger] b[y]).token by {
            assert(b[x].token == s[x].token);
            assert(b[y].token == s[y].token);
        }
        assert forall|j: int| 0 <= j < b.len() implies 1 <= (#[trigger] b[j]).count
            <= usize::MAX as nat by {
            if j > 0 {
                assert(b[j] == s[j]);
            }
        }
        assert forall|j: int| 0 <= j < b.len() implies (#[trigger] b[j]).token == l.token || (
        exists|i: int| 0 <= i < s.len() && (#[trigger] s[i]).token == b[j].token) by {
            if j > 0 {
                assert(s[j].token == b[j].token);
            }
        }
    } else {
        lemma_links_wf_drop_brain(s);
        lemma_add_link(s.drop_first(), l);
        let bd = add_link(s.drop_first(), l);
        assert(b.first() == s.first());
        assert(b.drop_first() =~= bd);
        assert forall|j: int| 0 <= j < b.len() implies (#[trigger] b[j]).token == l.token || (
        exists|i: int| 0 <= i < s.len() && (#[trigger] s[i]).token == b[j].token) by {
            if j == 0 {
                assert(s[0].token == b[0].token);
            } else {
                assert(b[j] == bd[j - 1]);
                if bd[j - 1].token != l.token {
                    let i = choose|i: int|
                        0 <= i < s.drop_first().len() && (#[trigger] s.drop_first()[i]).token
                            == bd[j - 1].token;
                    assert(s[i + 1].token == b[j].token);
                }
            }
        }
        assert forall|j: int| 0 <= j < b.len() implies 1 <= (#[trigger] b[j]).count
            <= usize::MAX as nat by {
            if j > 0 {
                assert(b[j] == bd[j - 1]);
            }
        }
        assert forall|x: int, y: int| 0 <= x < y < b.len() implies (#[trigger] b[x]).token != (
        #[trigger] b[y]).token by {
            if x == 0 {
                assert(b[y] == bd[y - 1]);
                if bd[y - 1].token != l.token {
                    let i = choose|i: int|
                        0 <= i < s.drop_first().len() && (#[trigger] s.drop_first()[i]).token
                            == bd[y - 1].token;
                    assert(s[i + 1].token == b[y].token);
                    assert(s[0].token != s[i + 1].token);
                }
            } else {
                assert(b[x] == bd[x - 1]);
                assert(b[y] == bd[y - 1]);
            }
        }
    }
}

/// Like `lemma_links_wf_drop` in the set module, stated here for reuse.
proof fn lemma_links_wf_drop_brain(s: Seq<LinkView>)
    requires
        links_wf(s),
        s.len() > 0,
    ensures
        links_wf(s.drop_first()),
{
    let d = s.drop_first();
    assert forall|i: int| 0 <= i < d.len() implies 1 <= (#[trigger] d[i]).count
        <= usize::MAX as nat by {
        assert(d[i] == s[i + 1]);
    }
    assert forall|i: int, j: int| 0 <= i < j < d.len() implies (#[trigger] d[i]).token != (
    #[trigger] d[j]).token by {
        assert(d[i] == s[i + 1]);
        assert(d[j] == s[j + 1]);
    }
}

/// What merging a whole edge-set does: well-formedness is kept, and every
/// token of the result came from the accumulator or from the set.
proof fn lemma_merge_into(acc: Seq<LinkView>, s: Seq<LinkView>)
    requires
        links_wf(acc),
        forall|i: int| 0 <= i < s.len() ==> 1 <= (#[trigger] s[i]).count <= usize::MAX as nat,
    ensures
        links_wf(merge_into(acc, s)),
        forall|j: int|
            0 <= j < merge_into(acc, s).len() ==> (exists|i: int|
                0 <= i < acc.len() && (#[trigger] acc[i]).token == (#[trigger] merge_into(
                    acc,
                    s,
                )[j]).token) || (exists|i: int|
                0 <= i < s.len() && (#[trigger] s[i]).token == merge_into(acc, s)[j].token),
    decreases s.len(),
{
    if s.len() > 0 {
        assert(s.first() == s[0]);
        lemma_add_link(acc, s.first());
        let a2 = add_link(acc, s.first());
        assert forall|i: int| 0 <= i < s.drop_first().len() implies 1 <= (
        #[trigger] s.drop_first()[i]).count <= usize::MAX as nat by {
            assert(s.drop_first()[i] == s[i + 1]);
        }
        lemma_merge_into(a2, s.drop_first());
        let m = merge_into(acc, s);
        assert(m == merge_into(a2, s.drop_first()));
        assert forall|j: int| 0 <= j < m.len() implies (exists|i: int|
            0 <= i < acc.len() && (#[trigger] acc[i]).token == (#[trigger] m[j]).token) || (
        exists|i: int| 0 <= i < s.len() && (#[trigger] s[i]).token == m[j].token) by {
            if exists|i: int| 0 <= i < a2.len() && (#[trigger] a2[i]).token == m[j].token {
                let i = choose|i: int|
                    0 <= i < a2.len() && (#[trigger] a2[i]).token == m[j].token;
                if a2[i].token == s[0].token {
                } else {
                    let i2 = choose|i2: int|
                        0 <= i2 < acc.len() && (#[trigger] acc[i2]).token == a2[i].token;
                }
            } else {
                let i = choose|i: int|
                    0 <= i < s.drop_first().len() && (#[trigger] s.drop_first()[i]).token
                        == m[j].token;
                assert(s[i + 1].token == m[j].token);
            }
        }
    }
}

/// The merged candidates are well formed, and every token in them is the end
/// mark or a word the Brain stores.
proof fn lemma_merged_upto(b: BrainView, ctx: Seq<Seq<char>>, w: nat)
    requires
        brain_wf(b),
    ensures
        links_wf(merged_upto(b, ctx, w)),
        forall|j: int|
            0 <= j < merged_upto(b, ctx, w).len() ==> (#[trigger] merged_upto(b, ctx, w)[j]).token
                == TokenView::End || (exists|wd: Seq<char>|
                merged_upto(b, ctx, w)[j].token == TokenView::Word(wd) && brain_word(b, wd)),
    decreases w,
{
    if w > 0 {
        lemma_merged_upto(b, ctx, (w - 1) as nat);
        let acc = merged_upto(b, ctx, (w - 1) as nat);
        let key = ctx.skip(ctx.len() - w as int);
        if b.chain.dom().contains(key) {
            let sc = scale_links(b.chain[key], w);
            assert forall|i: int| 0 <= i < sc.len() implies 1 <= (#[trigger] sc[i]).count
                <= usize::MAX as nat by {
                assert(sc[i].count == crate::link::sat_mul(b.chain[key][i].count, w));
                assert(b.chain[key][i].count >= 1);
                assert(crate::link::sat_mul(b.chain[key][i].count, w) >= 1) by {
                    if b.chain[key][i].count * w <= usize::MAX as nat {
                        assert(b.chain[key][i].count * w >= 1 * 1) by (nonlinear_arith)
                            requires
                                b.chain[key][i].count >= 1,
                                w >= 1,
                        ;
                    }
                }
            }
            lemma_merge_into(acc, sc);
            let m = merged_upto(b, ctx, w);
            assert forall|j: int| 0 <= j < m.len() implies (#[trigger] m[j]).token
                == TokenView::End || (exists|wd: Seq<char>|
                m[j].token == TokenView::Word(wd) && brain_word(b, wd)) by {
                if exists|i: int| 0 <= i < acc.len() && (#[trigger] acc[i]).token == m[j].token {
                } else {
                    let i = choose|i: int|
                        0 <= i < sc.len() && (#[trigger] sc[i]).token == m[j].token;
                    assert(sc[i].token == b.chain[key][i].token);
                    match b.chain[key][i].token {
                        TokenView::Word(wd) => {
                            assert(b.chain[key][i].token == TokenView::Word(wd));
                            assert(brain_word(b, wd));
                        },
                        TokenView::End => {},
                    }
                }
            }
        }
    }
}

impl Brain {
    /// All weighted candidates for continuing `words`: for every width up to
    /// the depth, the edge-set of the trailing `w` words, scaled by `w`,
    /// merged by token in order.
    fn merged_candidates(&self, words: &Vec<String>) -> (r: Vec<Link>)
        requires
            self.inv(),
        ensures
            links_view(r@) == merged_links(self@, words_view(words@)),
            links_wf(links_view(r@)),
    {
        let ghost ws = words_view(words@);
        let upper: usize = if self.depth <= words.len() {
            self.depth
        } else {
            words.len()
        };
        let mut acc: Vec<Link> = Vec::new();
        let mut wi: usize = 0;
        proof {
            assert(links_view(acc@) =~= merged_upto(self@, ws, 0));
        }
        while wi < upper
            invariant
                0 <= wi <= upper,
                self.inv(),
                upper as nat == if self@.depth <= ws.len() {
                    self@.depth
                } else {
                    ws.len()
                },
                upper <= words@.len(),
                ws == words_view(words@),
                links_view(acc@) == merged_upto(self@, ws, wi as nat),
            decreases upper - wi,
        {
            let w = wi + 1;
            let ghost key = ws.skip(ws.len() - w as int);
            let n = self.chain.len();
            let mut i: usize = 0;
            let mut found = false;
            while i < n && !found
                invariant
                    0 <= i <= n,
                    n == self.chain@.len(),
                    self.inv(),
                    1 <= w <= upper <= words@.len(),
                    w == wi + 1,
                    ws == words_view(words@),
                    key == ws.skip(ws.len() - w as int),
                    !found ==> forall|j: int|
                        0 <= j < i ==> (#[trigger] self.chain@[j]).key() != key,
                    found ==> i < n && self.chain@[i as int].key() == key,
                decreases n - i + if found {
                    0int
                } else {
                    1int
                },
            {
                proof {
                    assert(ws.skip(ws.len() - w as int) =~= words_view(words@).subrange(
                        (words@.len() - w as int) as int,
                        words@.len() as int,
                    ));
                }
                if context_matches(&self.chain[i].context, words, words.len() - w, words.len()) {
                    found = true;
                } else {
                    i = i + 1;
                }
            }
            if found {
                proof {
                    lemma_entries_map_lookup(self.chain@, i as int);
                    lemma_merged_upto(self@, ws, (w - 1) as nat);
                }
                let ghost set_links = self@.chain[key];
                let links = self.chain[i].set.links();
                let ghost start = links_view(acc@);
                proof {
                    assert(scale_links(set_links, w as nat).skip(0) =~= scale_links(
                        set_links,
                        w as nat,
                    ));
                }
                let m = links.len();
                let mut j: usize = 0;
                while j < m
                    invariant
                        0 <= j <= m,
                        m == links@.len(),
                        links_view(links@) == set_links,
                        1 <= w,
                        links_wf(set_links),
                        merge_into(
                            links_view(acc@),
                            scale_links(set_links, w as nat).skip(j as int),
                        ) == merge_into(start, scale_links(set_links, w as nat)),
                    decreases m - j,
                {
                    let ghost pre = links_view(acc@);
                    let ghost sc = scale_links(set_links, w as nat);
                    let count = match links[j].count.checked_mul(w) {
                        Some(c) => c,
                        None => usize::MAX,
                    };
                    proof {
                        assert(sc[j as int] == (LinkView {
                            token: links@[j as int]@.token,
                            count: crate::link::sat_mul(links@[j as int]@.count, w as nat),
                        }));
                        assert(count as nat == sc[j as int].count);
                    }
                    add_candidate(&mut acc, &links[j].token, count);
                    proof {
                        assert(links_view(acc@) == add_link(pre, sc[j as int]));
                        assert(sc.skip(j as int).first() == sc[j as int]);
                        assert(sc.skip(j as int).drop_first() =~= sc.skip(j as int + 1));
                        assert(merge_into(pre, sc.skip(j as int)) == merge_into(
                            links_view(acc@),
                            sc.skip(j as int + 1),
                        ));
                    }
                    j = j + 1;
                }
                proof {
                    let sc = scale_links(set_links, w as nat);
                    assert(sc.skip(m as int) =~= Seq::<LinkView>::empty());
                    assert(merge_into(links_view(acc@), sc.skip(m as int)) == links_view(acc@));
                    assert(links_view(acc@) == merged_upto(self@, ws, w as nat));
                }
            } else {
                proof {
                    lemma_entries_map_absent(self.chain@, key);
                    assert(links_view(acc@) == merged_upto(self@, ws, w as nat));
                }
            }
            wi = w;
        }
        proof {
            lemma_merged_upto(self@, ws, (upper) as nat);
        }
        acc
    }

    /// Chooses the next token for the trailing context of `words`: the end
    /// mark when nothing was learned for any width, else a weight-proportional
    /// draw over the merged candidates.
    fn select_token(&self, rng: &fastrand::Rng, words: &Vec<String>) -> (t: Token)
        requires
            self.inv(),
        ensures
            merged_links(self@, words_view(words@)).len() == 0 ==> t@ == TokenView::End,
            merged_links(self@, words_view(words@)).len() > 0 ==> exists|d: nat|
                d < sat_total(merged_links(self@, words_view(words@))) && t@ == weighted_pick(
                    merged_links(self@, words_view(words@)),
                    d,
                ),
            forall|w: Seq<char>| t@ == TokenView::Word(w) ==> brain_word(self@, w),
    {
        let cands = self.merged_candidates(words);
        if cands.is_empty() {
            return Token::End;
        }
        proof {
            lemma_merged_links_words(self@, words_view(words@));
        }
        let total = saturating_total(&cands);
        proof {
            assert(links_view(cands@)[0].count >= 1);
            lemma_total_lower(links_view(cands@), 0);
        }
        let draw = crate::rng::rng_below(rng, total);
        let t = weighted_select(&cands, draw);
        proof {
            lemma_pick_member(links_view(cands@), draw as nat);
            let m = merged_links(self@, words_view(words@));
            assert((draw as nat) < sat_total(m) && t@ == weighted_pick(m, draw as nat));
        }
        t
    }
}

/// Well-formedness of a chain map alone: every stored context holds between
/// one and `depth` words, every edge-set is non-empty and well formed.
pub open spec fn chain_wf(chain: Map<Seq<Seq<char>>, Seq<LinkView>>, depth: nat) -> bool {
    &&& forall|k: Seq<Seq<char>>| chain.dom().contains(k) ==> 1 <= (#[trigger] k.len()) <= depth
    &&& forall|k: Seq<Seq<char>>|
        chain.dom().contains(k) ==> (#[trigger] chain[k]).len() >= 1 && links_wf(chain[k])
}

/// The weight a chain map alone attaches to continuing `ctx` with `tok`.
pub open spec fn map_weight(
    chain: Map<Seq<Seq<char>>, Seq<LinkView>>,
    ctx: Seq<Seq<char>>,
    tok: TokenView,
) -> nat {
    if chain.dom().contains(ctx) {
        crate::set::weight_of(chain[ctx], tok)
    } else {
        0
    }
}

/// With distinct tokens, no weight exceeds the machine word.
proof fn lemma_weight_bounded(s: Seq<LinkView>, tok: TokenView)
    requires
        links_wf(s),
    ensures
        crate::set::weight_of(s, tok) <= usize::MAX as nat,
{
    if exists|i: int| 0 <= i < s.len() && (#[trigger] s[i]).token == tok {
        let i = choose|i: int| 0 <= i < s.len() && (#[trigger] s[i]).token == tok;
        let j = choose|j: int|
            0 <= j <= i && 0 <= j < s.len() && (#[trigger] s[j]).token == tok && forall|k: int|
                0 <= k < j ==> (#[trigger] s[k]).token != tok;
        if exists|j: int|
            0 <= j <= i && 0 <= j < s.len() && (#[trigger] s[j]).token == tok && forall|k: int|
                0 <= k < j ==> (#[trigger] s[k]).token != tok {
            lemma_weight_unique(s, tok, j);
        } else {
            lemma_first_match(s, tok, i);
        }
    } else {
        lemma_weight_none(s, tok);
    }
}

/// If some index matches, a first matching index exists.
proof fn lemma_first_match(s: Seq<LinkView>, tok: TokenView, i: int)
    requires
        0 <= i < s.len(),
        s[i].token == tok,
    ensures
        exists|j: int|
            0 <= j <= i && 0 <= j < s.len() && (#[trigger] s[j]).token == tok && forall|k: int|
                0 <= k < j ==> (#[trigger] s[k]).token != tok,
    decreases i,
{
    if forall|k: int| 0 <= k < i ==> (#[trigger] s[k]).token != tok {
        assert(0 <= i <= i && 0 <= i < s.len() && s[i].token == tok);
    } else {
        let i2 = choose|i2: int| 0 <= i2 < i && (#[trigger] s[i2]).token == tok;
        lemma_first_match(s, tok, i2);
        let j = choose|j: int|
            0 <= j <= i2 && 0 <= j < s.len() && (#[trigger] s[j]).token == tok && forall|k: int|
                0 <= k < j ==> (#[trigger] s[k]).token != tok;
        assert(0 <= j <= i);
    }
}

/// One observation keeps the chain well formed, never lowers any weight, and
/// raises the observed pair's weight by one, up to saturation.
proof fn lemma_chain_bump_mono(
    chain: Map<Seq<Seq<char>>, Seq<LinkView>>,
    ctx: Seq<Seq<char>>,
    tok: TokenView,
    depth: nat,
    c: Seq<Seq<char>>,
    t: TokenView,
)
    requires
        chain_wf(chain, depth),
        1 <= ctx.len() <= depth,
    ensures
        chain_wf(chain_bump(chain, ctx, tok), depth),
        map_weight(chain_bump(chain, ctx, tok), c, t) >= map_weight(chain, c, t),
{
    let b = chain_bump(chain, ctx, tok);
    if chain.dom().contains(ctx) {
        crate::set::lemma_bump_links(chain[ctx], tok);
    } else {
        crate::set::lemma_bump_links(Seq::empty(), tok);
    }
    assert forall|k: Seq<Seq<char>>| b.dom().contains(k) implies 1 <= (#[trigger] k.len())
        <= depth by {
        if k != ctx {
            assert(chain.dom().contains(k));
        }
    }
    assert forall|k: Seq<Seq<char>>| b.dom().contains(k) implies (#[trigger] b[k]).len() >= 1
        && links_wf(b[k]) by {
        if k != ctx {
            assert(chain.dom().contains(k));
            assert(b[k] == chain[k]);
        }
    }
    if c == ctx {
        if chain.dom().contains(ctx) {
            lemma_weight_bounded(chain[ctx], t);
            if t == tok {
                assert(crate::set::weight_of(b[ctx], tok) == sat_add(
                    crate::set::weight_of(chain[ctx], tok),
                    1,
                ));
            }
        }
    } else {
        if chain.dom().contains(c) {
            assert(b[c] == chain[c]);
        }
    }
}

/// Sliding the windows of one width keeps the chain well formed and never
/// lowers any weight.
proof fn lemma_train_windows_mono(
    chain: Map<Seq<Seq<char>>, Seq<LinkView>>,
    words: Seq<Seq<char>>,
    w: nat,
    i: nat,
    depth: nat,
    c: Seq<Seq<char>>,
    t: TokenView,
)
    requires
        chain_wf(chain, depth),
        1 <= w <= depth,
    ensures
        chain_wf(train_windows(chain, words, w, i), depth),
        map_weight(train_windows(chain, words, w, i), c, t) >= map_weight(chain, c, t),
    decreases words.len() - i,
{
    if i + w < words.len() {
        let ctx = words.subrange(i as int, (i + w) as int);
        let tok = TokenView::Word(words[(i + w) as int]);
        lemma_chain_bump_mono(chain, ctx, tok, depth, c, t);
        lemma_train_windows_mono(chain_bump(chain, ctx, tok), words, w, i + 1, depth, c, t);
    }
}

/// Training one width keeps the chain well formed and never lowers any weight.
proof fn lemma_train_width_mono(
    chain: Map<Seq<Seq<char>>, Seq<LinkView>>,
    words: Seq<Seq<char>>,
    w: nat,
    depth: nat,
    c: Seq<Seq<char>>,
    t: TokenView,
)
    requires
        chain_wf(chain, depth),
        1 <= w <= depth,
        w <= words.len(),
    ensures
        chain_wf(train_width(chain, words, w), depth),
        map_weight(train_width(chain, words, w), c, t) >= map_weight(chain, c, t),
{
    lemma_train_windows_mono(chain, words, w, 0, depth, c, t);
    let mid = train_windows(chain, words, w, 0);
    assert(words.skip(words.len() - w as int).len() == w);
    lemma_chain_bump_mono(mid, words.skip(words.len() - w as int), TokenView::End, depth, c, t);
}

/// Training all widths keeps the chain well formed and never lowers any
/// weight.
proof fn lemma_train_all_mono(
    chain: Map<Seq<Seq<char>>, Seq<LinkView>>,
    words: Seq<Seq<char>>,
    d: nat,
    depth: nat,
    c: Seq<Seq<char>>,
    t: TokenView,
)
    requires
        chain_wf(chain, depth),
        d <= depth,
        d <= words.len(),
    ensures
        chain_wf(train_all(chain, words, d), depth),
        map_weight(train_all(chain, words, d), c, t) >= map_weight(chain, c, t),
    decreases d,
{
    if d > 0 {
        lemma_train_all_mono(chain, words, (d - 1) as nat, depth, c, t);
        lemma_train_width_mono(train_all(chain, words, (d - 1) as nat), words, d, depth, c, t);
    }
}

/// Training is strictly additive: it never lowers the weight of any link,
/// and it keeps the Brain well formed. In particular no training can make a
/// stored context exceed the Brain's depth.
pub proof fn lemma_train_monotone(
    b: BrainView,
    words: Seq<Seq<char>>,
    ctx: Seq<Seq<char>>,
    tok: TokenView,
)
    requires
        brain_wf(b),
    ensures
        chain_weight(spec_train(b, words), ctx, tok) >= chain_weight(b, ctx, tok),
        brain_wf(spec_train(b, words)),
        spec_train(b, words).depth == b.depth,
{
    if words.len() > 0 {
        let d = if b.depth <= words.len() - 1 {
            b.depth
        } else {
            (words.len() - 1) as nat
        };
        lemma_train_all_mono(b.chain, words, d, b.depth, ctx, tok);
        let b2 = spec_train(b, words);
        if !b.head.contains(words[0]) {
            let h1 = b2.head;
            assert forall|i: int, j: int| 0 <= i < j < h1.len() implies h1[i] != h1[j] by {
                if j < b.head.len() {
                    assert(h1[i] == b.head[i] && h1[j] == b.head[j]);
                } else {
                    assert(h1[j] == words[0]);
                    assert(h1[i] == b.head[i]);
                    assert(b.head.contains(b.head[i]));
                }
            }
        }
    }
}

/// Before any successful training the start-word set is empty, and training
/// a line with at least one word always fills it: the set is empty exactly
/// when nothing was ever learned.
pub proof fn lemma_untrained_head(b: BrainView, words: Seq<Seq<char>>)
    ensures
        spec_train(b, words).head.len() >= b.head.len(),
        words.len() > 0 ==> spec_train(b, words).head.contains(words[0]),
        spec_train(b, words).head.len() == 0 <==> (b.head.len() == 0 && words.len() == 0),
{
    if words.len() > 0 {
        if b.head.contains(words[0]) {
        } else {
            assert(spec_train(b, words).head == b.head.push(words[0]));
            assert(spec_train(b, words).head[b.head.len() as int] == words[0]);
        }
    }
}

/// The anchor words a caller's query contributes to the output.
pub open spec fn query_words(q: Option<&str>) -> Seq<Seq<char>> {
    match q {
        Some(s) => split_ws(s@),
        None => Seq::empty(),
    }
}

/// The anchor words of an owned optional query.
pub open spec fn query_words_owned(q: Option<String>) -> Seq<Seq<char>> {
    match q {
        Option::Some(s) => split_ws(s@),
        Option::None => Seq::empty(),
    }
}

/// Every output word is a word the Brain stores or one of the anchors.
pub open spec fn output_ok(b: BrainView, anchors: Seq<Seq<char>>, ws: Seq<Seq<char>>) -> bool {
    forall|i: int|
        0 <= i < ws.len() ==> brain_word(b, #[trigger] ws[i]) || anchors.contains(ws[i])
}

/// One step of the generator's walk, as its contract records it: a sentence
/// start with a start word, a continuation drawn from the merged candidates
/// of everything before it, the end mark drawn there, or an anchor woven in.
/// A start or continuation may first weave one anchor in, as the generator
/// sometimes does.
pub enum GenStep {
    Start { word: Seq<char>, splice: Option<(Seq<char>, usize)> },
    Continue { word: Seq<char>, draw: nat, splice: Option<(Seq<char>, usize)> },
    Stop { draw: nat },
    Weave { word: Seq<char>, at: usize },
}

/// An anchor woven in at a position after the first word that is not
/// adjacent to any earlier anchor position; the position and its neighbours
/// are recorded so that no later anchor lands next to it. Or nothing woven.
pub open spec fn splice_apply(
    ws: Seq<Seq<char>>,
    used: Seq<usize>,
    splice: Option<(Seq<char>, usize)>,
    anchors: Seq<Seq<char>>,
) -> Option<(Seq<Seq<char>>, Seq<usize>)> {
    match splice {
        Option::None => Option::Some((ws, used)),
        Option::Some((a, p)) => if anchors.contains(a) && 1 <= p as int && (p as int)
            < anchor_limit(ws.len()) && !used.contains(p) {
            Option::Some(
                (
                    ws.insert(p as int, a),
                    used.push((p - 1) as usize).push(p).push(position_after(p)),
                ),
            )
        } else {
            Option::None
        },
    }
}

/// The walk relation: the words after the recorded steps, whether a new
/// sentence may start, and the positions anchors already sit at or next to;
/// nothing when a step breaks the rules. A sentence starts with a start word
/// only at the beginning or after the merged candidates yielded the end mark
/// (or offered nothing at all); every continuation is a weighted pick over
/// the merged candidates of the words so far; and every anchor takes a
/// position not adjacent to any earlier anchor.
pub open spec fn walk(b: BrainView, anchors: Seq<Seq<char>>, steps: Seq<GenStep>) -> Option<
    (Seq<Seq<char>>, bool, Seq<usize>),
>
    decreases steps.len(),
{
    if steps.len() == 0 {
        Option::Some((Seq::empty(), true, Seq::empty()))
    } else {
        match walk(b, anchors, steps.drop_last()) {
            Option::None => Option::None,
            Option::Some(st) => {
                let ws = st.0;
                let ready = st.1;
                let used = st.2;
                match steps.last() {
                    GenStep::Start { word, splice } => if ready && b.head.contains(word) {
                        match splice_apply(ws, used, splice, anchors) {
                            Option::None => Option::None,
                            Option::Some(spliced) => Option::Some(
                                (spliced.0.push(word), false, spliced.1),
                            ),
                        }
                    } else {
                        Option::None
                    },
                    GenStep::Continue { word, draw, splice } => {
                        let m = merged_links(b, ws);
                        if !ready && draw < sat_total(m) && weighted_pick(m, draw)
                            == TokenView::Word(word) {
                            match splice_apply(ws, used, splice, anchors) {
                                Option::None => Option::None,
                                Option::Some(spliced) => Option::Some(
                                    (spliced.0.push(word), false, spliced.1),
                                ),
                            }
                        } else {
                            Option::None
                        }
                    },
                    GenStep::Stop { draw } => {
                        let m = merged_links(b, ws);
                        if !ready && (m.len() == 0 || (draw < sat_total(m) && weighted_pick(
                            m,
                            draw,
                        ) == TokenView::End)) {
                            Option::Some((ws, true, used))
                        } else {
                            Option::None
                        }
                    },
                    GenStep::Weave { word, at } => match splice_apply(
                        ws,
                        used,
                        Option::Some((word, at)),
                        anchors,
                    ) {
                        Option::None => Option::None,
                        Option::Some(spliced) => Option::Some((spliced.0, ready, spliced.1)),
                    },
                }
            },
        }
    }
}

/// Some recorded walk yields exactly these words.
pub open spec fn generated_by(b: BrainView, anchors: Seq<Seq<char>>, ws: Seq<Seq<char>>) -> bool {
    exists|steps: Seq<GenStep>|
        #[trigger] walk(b, anchors, steps) matches Option::Some(st) && st.0 == ws
}

/// The first `n` words, or all of them when there are fewer.
pub open spec fn take_at_most(ws: Seq<Seq<char>>, n: int) -> Seq<Seq<char>> {
    if ws.len() <= n {
        ws
    } else {
        ws.take(n)
    }
}

/// The positions an anchor may take: after the first word, and past the end
/// only when the output is a single word.
pub open spec fn anchor_limit(len: nat) -> int {
    if len == 1 {
        2
    } else {
        len as int
    }
}

/// The position after `p`, as the generator records it.
pub open spec fn position_after(p: usize) -> usize {
    if p == usize::MAX {
        p
    } else {
        (p + 1) as usize
    }
}

impl Brain {
    /// Produces a line of text by a randomized, weight-proportional walk of
    /// the chain, between `min` and `max` words long, weaving in the query's
    /// anchor words; an empty result when the Brain is untrained or the
    /// deadline passes. Every produced line is a recorded walk: each sentence
    /// starts with a start word, every continuation is a weighted pick over
    /// the merged candidates of the words before it, and anchors are woven in
    /// after the first word at positions not adjacent to earlier anchors.
    pub fn generate(
        &self,
        rng: &fastrand::Rng,
        min: usize,
        max: usize,
        query: Option<&str>,
        time_out: std::time::Duration,
    ) -> (r: Option<String>)
        requires
            self.inv(),
            1 <= min <= max,
        ensures
            self@.head.len() == 0 ==> r is None,
            r is Some ==> self@.head.len() >= 1,
            r is Some ==> exists|ws: Seq<Seq<char>>|
                {
                    &&& generated_by(self@, query_words(query), ws)
                    &&& output_ok(self@, query_words(query), ws)
                    &&& ws.len() >= min
                    &&& min <= take_at_most(ws, max as int).len() <= max
                    &&& r.unwrap()@ == join_sep(take_at_most(ws, max as int), ' ')
                },
    {
        let ghost anchors = query_words(query);
        if self.head.is_empty() {
            return None;
        }
        let mut words: Vec<String> = Vec::new();
        let mut base: Vec<String> = match query {
            Some(q) => split_words(q),
            None => Vec::new(),
        };
        let mut used: Vec<usize> = Vec::new();
        let start = crate::clock::now();
        let ghost mut trace: Seq<GenStep> = Seq::empty();
        let ghost mut ready: bool = true;
        proof {
            assert forall|i: int| 0 <= i < words_view(base@).len() implies anchors.contains(
                #[trigger] words_view(base@)[i],
            ) by {
                assert(anchors[i] == words_view(base@)[i]);
            }
            assert(words_view(words@) =~= Seq::<Seq<char>>::empty());
            assert(used@ =~= Seq::<usize>::empty());
            assert(walk(self@, anchors, trace) == Option::Some(
                (words_view(words@), true, used@),
            ));
        }
        while words.len() < min
            invariant_except_break
                ready,
            invariant
                self.inv(),
                1 <= min <= max,
                self@.head.len() >= 1,
                words@.len() <= max + 1,
                anchors == query_words(query),
                output_ok(self@, anchors, words_view(words@)),
                walk(self@, anchors, trace) == Option::Some((words_view(words@), ready, used@)),
                forall|i: int|
                    0 <= i < words_view(base@).len() ==> anchors.contains(
                        #[trigger] words_view(base@)[i],
                    ),
            ensures
                self.inv(),
                words@.len() >= min,
                words@.len() <= max + 1,
                output_ok(self@, anchors, words_view(words@)),
                walk(self@, anchors, trace) == Option::Some((words_view(words@), ready, used@)),
                forall|i: int|
                    0 <= i < words_view(base@).len() ==> anchors.contains(
                        #[trigger] words_view(base@)[i],
                    ),
            decreases max + 2 - words@.len(),
        {
            if crate::clock::elapsed_exceeds(&start, &time_out) {
                return None;
            }

            // sometimes weave in a pending anchor before starting a sentence
            let ghost wpre = words_view(words@);
            let ghost upre = used@;
            let ghost mut sp: Option<(Seq<char>, usize)> = Option::None;
            if base.len() > 0 && words.len() > 1 && crate::rng::rng_coin(rng) {
                let k = crate::rng::rng_below(rng, base.len());
                let ghost base0 = base@;
                let a = base.swap_remove(k);
                proof {
                    lemma_swap_remove_keeps(base0, base@, k as int, anchors);
                }
                let ghost words0 = words_view(words@);
                let pos = insert_anchor(&mut words, &mut used, a, rng);
                proof {
                    lemma_output_still_ok(self@, anchors, words0, words_view(words@), base0[k as int]@);
                    if pos is Some {
                        sp = Option::Some((base0[k as int]@, pos.unwrap()));
                    }
                }
            }
            proof {
                assert(splice_apply(wpre, upre, sp, anchors) == Option::Some(
                    (words_view(words@), used@),
                ));
            }

            // start (or restart) a sentence with a random start word
            let hi = crate::rng::rng_below(rng, self.head.len());
            let ghost wmid = words_view(words@);
            words.push(self.head[hi].clone());
            proof {
                assert(words_view(words@) =~= wmid.push(self@.head[hi as int]));
                assert(self@.head.contains(self@.head[hi as int]));
                assert forall|i: int| 0 <= i < words_view(words@).len() implies brain_word(
                    self@,
                    #[trigger] words_view(words@)[i],
                ) || anchors.contains(words_view(words@)[i]) by {
                    if i < wmid.len() {
                        assert(words_view(words@)[i] == wmid[i]);
                    }
                }
                let step = GenStep::Start { word: self@.head[hi as int], splice: sp };
                assert(trace.push(step).drop_last() =~= trace);
                assert(trace.push(step).last() == step);
                trace = trace.push(step);
                ready = false;
                assert(walk(self@, anchors, trace) == Option::Some(
                    (words_view(words@), false, used@),
                ));
            }
            if words.len() >= max {
                break;
            }

            // follow the chain until it offers no continuation
            let ghost len0 = words@.len();
            let mut go = true;
            while go
                invariant
                    self.inv(),
                    1 <= min <= max,
                    anchors == query_words(query),
                    go ==> words@.len() < max,
                    words@.len() <= max + 1,
                    words@.len() >= 1,
                    words@.len() >= len0,
                    output_ok(self@, anchors, words_view(words@)),
                    walk(self@, anchors, trace) == Option::Some((words_view(words@), ready, used@)),
                    go ==> !ready,
                    !go ==> (ready || words@.len() >= max),
                    forall|i: int|
                        0 <= i < words_view(base@).len() ==> anchors.contains(
                            #[trigger] words_view(base@)[i],
                        ),
                decreases max + 1 - words@.len(), if go {
                    1int
                } else {
                    0int
                },
            {
                let t = self.select_token(rng, &words);
                let ghost tv = t@;
                let ghost wsel = words_view(words@);
                match t {
                    Token::End => {
                        proof {
                            let m = merged_links(self@, wsel);
                            let d: nat = if m.len() > 0 {
                                choose|d: nat| d < sat_total(m) && tv == weighted_pick(m, d)
                            } else {
                                0
                            };
                            let step = GenStep::Stop { draw: d };
                            assert(trace.push(step).drop_last() =~= trace);
                            assert(trace.push(step).last() == step);
                            trace = trace.push(step);
                            ready = true;
                            assert(walk(self@, anchors, trace) == Option::Some(
                                (words_view(words@), true, used@),
                            ));
                        }
                        go = false;
                    },
                    Token::Word(wd) => {
                        proof {
                            assert(merged_links(self@, wsel).len() > 0);
                        }
                        let ghost d: nat = choose|d: nat|
                            d < sat_total(merged_links(self@, wsel)) && tv == weighted_pick(
                                merged_links(self@, wsel),
                                d,
                            );
                        let ghost usel = used@;
                        let ghost mut sp: Option<(Seq<char>, usize)> = Option::None;
                        if base.len() > 0 && words.len() > 1 && crate::rng::rng_coin(rng) {
                            let k = crate::rng::rng_below(rng, base.len());
                            let ghost base0 = base@;
                            let a = base.swap_remove(k);
                            proof {
                                lemma_swap_remove_keeps(base0, base@, k as int, anchors);
                            }
                            let ghost words0 = words_view(words@);
                            let pos = insert_anchor(&mut words, &mut used, a, rng);
                            proof {
                                lemma_output_still_ok(
                                    self@,
                                    anchors,
                                    words0,
                                    words_view(words@),
                                    base0[k as int]@,
                                );
                                if pos is Some {
                                    sp = Option::Some((base0[k as int]@, pos.unwrap()));
                                }
                            }
                        }
                        proof {
                            assert(splice_apply(wsel, usel, sp, anchors) == Option::Some(
                                (words_view(words@), used@),
                            ));
                        }
                        let ghost words1 = words_view(words@);
                        let ghost wv = wd@;
                        proof {
                            assert(brain_word(self@, wd@));
                        }
                        words.push(wd);
                        proof {
                            assert(words_view(words@) =~= words1.push(wv));
                            assert forall|i: int| 0 <= i < words_view(words@).len() implies
                                brain_word(self@, #[trigger] words_view(words@)[i])
                                || anchors.contains(words_view(words@)[i]) by {
                                if i < words1.len() {
                                    assert(words_view(words@)[i] == words1[i]);
                                }
                            }
                            let step = GenStep::Continue { word: wv, draw: d, splice: sp };
                            assert(trace.push(step).drop_last() =~= trace);
                            assert(trace.push(step).last() == step);
                            trace = trace.push(step);
                            assert(walk(self@, anchors, trace) == Option::Some(
                                (words_view(words@), false, used@),
                            ));
                        }
                        if words.len() >= max {
                            go = false;
                        }
                    },
                }
            }
            if words.len() >= max {
                break;
            }
        }

        // weave in whatever anchors are still pending
        while base.len() > 0
            invariant
                self.inv(),
                1 <= min <= max,
                anchors == query_words(query),
                words@.len() >= min,
                output_ok(self@, anchors, words_view(words@)),
                walk(self@, anchors, trace) == Option::Some((words_view(words@), ready, used@)),
                forall|i: int|
                    0 <= i < words_view(base@).len() ==> anchors.contains(
                        #[trigger] words_view(base@)[i],
                    ),
            decreases base@.len(),
        {
            let k = crate::rng::rng_below(rng, base.len());
            let ghost base0 = base@;
            let a = base.swap_remove(k);
            proof {
                lemma_swap_remove_keeps(base0, base@, k as int, anchors);
            }
            let ghost words0 = words_view(words@);
            let ghost used0 = used@;
            let pos = insert_anchor(&mut words, &mut used, a, rng);
            proof {
                lemma_output_still_ok(self@, anchors, words0, words_view(words@), base0[k as int]@);
                if pos is Some {
                    let step = GenStep::Weave { word: base0[k as int]@, at: pos.unwrap() };
                    assert(trace.push(step).drop_last() =~= trace);
                    assert(trace.push(step).last() == step);
                    assert(splice_apply(
                        words0,
                        used0,
                        Option::Some((base0[k as int]@, pos.unwrap())),
                        anchors,
                    ) == Option::Some((words_view(words@), used@)));
                    trace = trace.push(step);
                }
                assert(walk(self@, anchors, trace) == Option::Some(
                    (words_view(words@), ready, used@),
                ));
            }
        }

        // render at most `max` words, joined by single spaces
        let ghost before = words_view(words@);
        words.truncate(max);
        proof {
            if max <= before.len() {
                assert(words_view(words@) =~= before.subrange(0, max as int));
            }
            assert(take_at_most(before, max as int) == words_view(words@));
        }
        let out = crate::text::join_words(&words);
        proof {
            assert(walk(self@, anchors, trace) matches Option::Some(st) && st.0 == before);
            assert(generated_by(self@, anchors, before));
            assert(before.len() >= min);
            assert(min <= take_at_most(before, max as int).len() <= max);
        }
        Some(out)
    }
}

/// After a `swap_remove` of a pending anchor, the removed word and everything
/// left are still anchors.
proof fn lemma_swap_remove_keeps(
    before: Seq<String>,
    after: Seq<String>,
    k: int,
    anchors: Seq<Seq<char>>,
)
    requires
        0 <= k < before.len(),
        after == before.update(k, before.last()).drop_last(),
        forall|i: int|
            0 <= i < words_view(before).len() ==> anchors.contains(
                #[trigger] words_view(before)[i],
            ),
    ensures
        anchors.contains(before[k]@),
        forall|i: int|
            0 <= i < words_view(after).len() ==> anchors.contains(#[trigger] words_view(after)[i]),
{
    assert(words_view(before)[k] == before[k]@);
    assert forall|i: int| 0 <= i < words_view(after).len() implies anchors.contains(
        #[trigger] words_view(after)[i],
    ) by {
        if i == k {
            assert(after[i] == before[before.len() - 1]);
            assert(words_view(before)[before.len() - 1] == words_view(after)[i]);
        } else {
            assert(after[i] == before[i]);
            assert(words_view(before)[i] == words_view(after)[i]);
        }
    }
}

/// Growing the output by one anchor keeps every word accounted for.
proof fn lemma_output_still_ok(
    b: BrainView,
    anchors: Seq<Seq<char>>,
    before: Seq<Seq<char>>,
    after: Seq<Seq<char>>,
    added: Seq<char>,
)
    requires
        output_ok(b, anchors, before),
        anchors.contains(added),
        forall|i: int|
            0 <= i < after.len() ==> before.contains(#[trigger] after[i]) || after[i] == added,
    ensures
        output_ok(b, anchors, after),
{
    assert forall|i: int| 0 <= i < after.len() implies brain_word(b, #[trigger] after[i])
        || anchors.contains(after[i]) by {
        if after[i] != added || !anchors.contains(after[i]) {
            if before.contains(after[i]) {
                let j = choose|j: int| 0 <= j < before.len() && before[j] == after[i];
            }
        }
    }
}

/// Weaves one anchor word into the output at a position drawn uniformly from
/// those not adjacent to any earlier anchor position, and records the chosen
/// position and its neighbours. Returns the position; when no non-adjacent
/// position remains the anchor is let go and nothing changes, which keeps the
/// weave bounded.
fn insert_anchor(words: &mut Vec<String>, used: &mut Vec<usize>, w: String, rng: &fastrand::Rng)
    -> (r: Option<usize>)
    requires
        old(words)@.len() >= 1,
    ensures
        old(words)@.len() <= final(words)@.len() <= old(words)@.len() + 1,
        forall|i: int|
            0 <= i < words_view(final(words)@).len() ==> words_view(old(words)@).contains(
                #[trigger] words_view(final(words)@)[i],
            ) || words_view(final(words)@)[i] == w@,
        r is None ==> final(words)@ == old(words)@ && final(used)@ == old(used)@ && (forall|
            p: usize,
        |
            1 <= p < anchor_limit(old(words)@.len()) ==> old(used)@.contains(p)),
        r matches Some(p) ==> {
            &&& 1 <= p as int && (p as int) < anchor_limit(old(words)@.len())
            &&& p as int <= old(words)@.len()
            &&& !old(used)@.contains(p)
            &&& words_view(final(words)@) == words_view(old(words)@).insert(p as int, w@)
            &&& final(used)@ == old(used)@.push((p - 1) as usize).push(p).push(position_after(p))
        },
{
    let limit: usize = if words.len() == 1 {
        2
    } else {
        words.len()
    };
    proof {
        assert(limit as int == anchor_limit(old(words)@.len()));
    }
    let mut cands: Vec<usize> = Vec::new();
    let mut t: usize = 1;
    while t < limit
        invariant
            1 <= t <= limit,
            limit <= words@.len() + 1,
            limit as int == anchor_limit(old(words)@.len()),
            words@ == old(words)@,
            used@ == old(used)@,
            forall|i: int|
                0 <= i < cands@.len() ==> 1 <= (#[trigger] cands@[i]) as int
                    && (cands@[i] as int) < limit as int && !used@.contains(cands@[i]),
            forall|p: usize| 1 <= p < t ==> (used@.contains(p) || cands@.contains(p)),
        decreases limit - t,
    {
        if !contains_usize(used, t) {
            let ghost c0 = cands@;
            cands.push(t);
            proof {
                assert forall|p: usize| 1 <= p < t + 1 implies (used@.contains(p)
                    || cands@.contains(p)) by {
                    if p < t && !used@.contains(p) {
                        assert(c0.contains(p));
                        let idx = choose|idx: int| 0 <= idx < c0.len() && c0[idx] == p;
                        assert(cands@[idx] == p);
                        assert(cands@.contains(p));
                    }
                    if p == t {
                        assert(cands@[cands@.len() - 1] == t);
                        assert(cands@.contains(t));
                    }
                }
            }
        }
        t = t + 1;
    }
    if cands.len() == 0 {
        proof {
            assert forall|p: usize| 1 <= p < anchor_limit(old(words)@.len()) implies old(
                used,
            )@.contains(p) by {
                if !old(used)@.contains(p) {
                    assert(cands@.contains(p));
                }
            }
        }
        return None;
    }
    let j = crate::rng::rng_below(rng, cands.len());
    let pick = cands[j];
    proof {
        assert(1 <= pick as int && (pick as int) < anchor_limit(old(words)@.len()));
        assert(!old(used)@.contains(pick));
    }
    let ghost used0 = used@;
    used.push(pick - 1);
    used.push(pick);
    used.push(pick.saturating_add(1));
    proof {
        assert(used@ =~= used0.push((pick - 1) as usize).push(pick).push(position_after(pick)));
    }
    let ghost before = words_view(words@);
    words.insert(pick, w);
    proof {
        let after = words_view(words@);
        assert(words@ == old(words)@.insert(pick as int, w));
        assert forall|i: int| 0 <= i < after.len() implies after[i] == before.insert(
            pick as int,
            w@,
        )[i] by {
            if i < pick {
                assert(words@[i] == old(words)@[i]);
                assert(before[i] == after[i]);
            } else if i == pick {
                assert(words@[i] == w);
            } else {
                assert(words@[i] == old(words)@[i - 1]);
                assert(before[i - 1] == after[i]);
            }
        }
        assert(after =~= before.insert(pick as int, w@));
        assert forall|i: int| 0 <= i < after.len() implies before.contains(#[trigger] after[i])
            || after[i] == w@ by {
            if i < pick {
                assert(before[i] == after[i]);
            } else if i > pick {
                assert(before[i - 1] == after[i]);
            }
        }
    }
    Some(pick)
}

/// Whether a vector of positions holds `x`.
fn contains_usize(v: &Vec<usize>, x: usize) -> (r: bool)
    ensures
        r == v@.contains(x),
{
    let n = v.len();
    let mut i: usize = 0;
    while i < n
        invariant
            0 <= i <= n,
            n == v@.len(),
            forall|k: int| 0 <= k < i ==> v@[k] != x,
        decreases n - i,
    {
        if v[i] == x {
            return true;
        }
        i = i + 1;
    }
    false
}

/// Every token of the merged candidates is the end mark or a stored word.
proof fn lemma_merged_links_words(b: BrainView, ctx: Seq<Seq<char>>)
    requires
        brain_wf(b),
    ensures
        links_wf(merged_links(b, ctx)),
        forall|j: int|
            0 <= j < merged_links(b, ctx).len() ==> (#[trigger] merged_links(b, ctx)[j]).token
                == TokenView::End || (exists|wd: Seq<char>|
                merged_links(b, ctx)[j].token == TokenView::Word(wd) && brain_word(b, wd)),
{
    lemma_merged_upto(
        b,
        ctx,
        if b.depth <= ctx.len() {
            b.depth
        } else {
            ctx.len()
        },
    );
}

/// Each link's weight is a lower bound on the total.
proof fn lemma_total_lower(s: Seq<LinkView>, i: int)
    requires
        0 <= i < s.len(),
    ensures
        total_weight(s) >= s[i].count,
    decreases s.len(),
{
    if i == 0 {
        assert(s.first() == s[0]);
    } else {
        assert(s.drop_first()[i - 1] == s[i]);
        lemma_total_lower(s.drop_first(), i - 1);
    }
}

/// Folds one scaled link into the merged candidates.
fn add_candidate(acc: &mut Vec<Link>, token: &Token, count: usize)
    ensures
        links_view(final(acc)@) == add_link(
            links_view(old(acc)@),
            LinkView { token: token@, count: count as nat },
        ),
{
    let n = acc.len();
    let mut i: usize = 0;
    while i < n
        invariant
            0 <= i <= n,
            n == acc@.len(),
            acc@ == old(acc)@,
            forall|j: int| 0 <= j < i ==> (#[trigger] links_view(acc@)[j]).token != token@,
        decreases n - i,
    {
        if acc[i].token.same(token) {
            proof {
                assert(links_view(old(acc)@)[i as int].token == token@);
                assert(forall|j: int|
                    0 <= j < i ==> (#[trigger] links_view(old(acc)@)[j]).token != token@);
            }
            let c = acc[i].count;
            acc[i].count = c.saturating_add(count);
            proof {
                lemma_add_link_prefix(
                    links_view(old(acc)@),
                    LinkView { token: token@, count: count as nat },
                    i as int,
                );
                assert(links_view(acc@) =~= links_view(old(acc)@).update(
                    i as int,
                    LinkView {
                        token: token@,
                        count: sat_add(links_view(old(acc)@)[i as int].count, count as nat),
                    },
                ));
            }
            return;
        }
        i = i + 1;
    }
    acc.push(Link { token: token.clone(), count });
    proof {
        let lv = LinkView { token: token@, count: count as nat };
        lemma_add_link_append(links_view(old(acc)@), lv);
        assert(links_view(acc@) =~= links_view(old(acc)@).push(lv));
    }
}

/// When the first matching token sits at `i`, adding updates exactly there.
proof fn lemma_add_link_prefix(s: Seq<LinkView>, l: LinkView, i: int)
    requires
        0 <= i < s.len(),
        s[i].token == l.token,
        forall|k: int| 0 <= k < i ==> (#[trigger] s[k]).token != l.token,
    ensures
        add_link(s, l) == s.update(
            i,
            LinkView { token: l.token, count: sat_add(s[i].count, l.count) },
        ),
    decreases i,
{
    if i == 0 {
        assert(s.first().token == l.token);
        assert(add_link(s, l) =~= s.update(
            0,
            LinkView { token: l.token, count: sat_add(s[0].count, l.count) },
        ));
    } else {
        assert(s.first().token != l.token);
        assert forall|k: int| 0 <= k < i - 1 implies (#[trigger] s.drop_first()[k]).token
            != l.token by {
            assert(s.drop_first()[k] == s[k + 1]);
        }
        assert(s.drop_first()[i - 1] == s[i]);
        lemma_add_link_prefix(s.drop_first(), l, i - 1);
        assert(add_link(s, l) =~= s.update(
            i,
            LinkView { token: l.token, count: sat_add(s[i].count, l.count) },
        ));
    }
}

/// When no token matches, adding appends the link.
proof fn lemma_add_link_append(s: Seq<LinkView>, l: LinkView)
    requires
        forall|k: int| 0 <= k < s.len() ==> (#[trigger] s[k]).token != l.token,
    ensures
        add_link(s, l) == s.push(l),
    decreases s.len(),
{
    if s.len() == 0 {
        assert(add_link(s, l) =~= s.push(l));
    } else {
        assert(s.first() == s[0]);
        assert forall|k: int| 0 <= k < s.drop_first().len() implies (
        #[trigger] s.drop_first()[k]).token != l.token by {
            assert(s.drop_first()[k] == s[k + 1]);
        }
        lemma_add_link_append(s.drop_first(), l);
        assert(add_link(s, l) =~= s.push(l));
    }
}

/// The total weight of the candidates, saturating at `usize::MAX`.
fn saturating_total(links: &Vec<Link>) -> (r: usize)
    ensures
        r as nat == sat_total(links_view(links@)),
{
    let ghost lv = links_view(links@);
    let n = links.len();
    let mut acc: usize = 0;
    let mut i: usize = 0;
    proof {
        assert(lv.take(0) =~= Seq::<LinkView>::empty());
    }
    while i < n
        invariant
            0 <= i <= n,
            n == links@.len(),
            lv == links_view(links@),
            acc as nat == sat_total(lv.take(i as int)),
        decreases n - i,
    {
        proof {
            lemma_total_push(lv.take(i as int), lv[i as int]);
            assert(lv.take(i as int).push(lv[i as int]) =~= lv.take(i as int + 1));
        }
        acc = acc.saturating_add(links[i].count);
        i = i + 1;
    }
    proof {
        assert(lv.take(n as int) =~= lv);
    }
    acc
}

/// The textbook weight-proportional selection: subtracts each candidate's
/// weight from the draw in order and returns the one that overshoots.
fn weighted_select(links: &Vec<Link>, draw: usize) -> (t: Token)
    requires
        links@.len() >= 1,
        (draw as nat) < sat_total(links_view(links@)),
    ensures
        t@ == weighted_pick(links_view(links@), draw as nat),
{
    let ghost lv = links_view(links@);
    let n = links.len();
    let mut rem = draw;
    let mut i: usize = 0;
    proof {
        assert(lv.skip(0) =~= lv);
    }
    while i < n
        invariant
            0 <= i <= n,
            n == links@.len(),
            lv == links_view(links@),
            (rem as nat) < total_weight(lv.skip(i as int)),
            weighted_pick(lv.skip(i as int), rem as nat) == weighted_pick(lv, draw as nat),
        decreases n - i,
    {
        proof {
            assert(lv.skip(i as int).first() == lv[i as int]);
            assert(lv.skip(i as int).drop_first() =~= lv.skip(i as int + 1));
        }
        if rem < links[i].count {
            return links[i].token.clone();
        }
        rem = rem - links[i].count;
        i = i + 1;
    }
    proof {
        assert(lv.skip(n as int) =~= Seq::<LinkView>::empty());
        assert(false);
    }
    unreached()
}

// ------------------------------------------------------- persistence codec

/// The entries as the pairs the storage format speaks of.
spec fn entries_pairs(es: Seq<ChainEntry>) -> Seq<(Seq<Seq<char>>, Seq<LinkView>)> {
    es.map_values(|e: ChainEntry| (e.key(), e.set@))
}

/// The chain map the pairs denote is the chain map the entries denote.
proof fn lemma_pairs_map_entries(es: Seq<ChainEntry>)
    ensures
        crate::codec::pairs_map(entries_pairs(es)) == entries_map(es),
    decreases es.len(),
{
    if es.len() == 0 {
        assert(crate::codec::pairs_map(entries_pairs(es)) =~= entries_map(es));
    } else {
        assert(entries_pairs(es).drop_last() =~= entries_pairs(es.drop_last()));
        lemma_pairs_map_entries(es.drop_last());
        assert(entries_pairs(es).last() == (es.last().key(), es.last().set@));
    }
}

/// Appends `n` as eight little-endian bytes.
fn push_u64(out: &mut Vec<u8>, n: u64)
    ensures
        final(out)@ == old(out)@ + crate::codec::enc8(n as nat),
{
    let b0 = (n % 256) as u8;
    let n1 = n / 256;
    let b1 = (n1 % 256) as u8;
    let n2 = n1 / 256;
    let b2 = (n2 % 256) as u8;
    let n3 = n2 / 256;
    let b3 = (n3 % 256) as u8;
    let n4 = n3 / 256;
    let b4 = (n4 % 256) as u8;
    let n5 = n4 / 256;
    let b5 = (n5 % 256) as u8;
    let n6 = n5 / 256;
    let b6 = (n6 % 256) as u8;
    let n7 = n6 / 256;
    let b7 = (n7 % 256) as u8;
    out.push(b0);
    out.push(b1);
    out.push(b2);
    out.push(b3);
    out.push(b4);
    out.push(b5);
    out.push(b6);
    out.push(b7);
    proof {
        reveal_with_fuel(crate::codec::enc_le, 9);
        assert(out@ =~= old(out)@ + crate::codec::enc8(n as nat));
    }
}

/// Appends one word: its UTF-8 length, then its bytes.
fn push_word(out: &mut Vec<u8>, w: &String)
    ensures
        final(out)@ == old(out)@ + crate::codec::enc_word(w@),
        crate::codec::fits64(vstd::utf8::encode_utf8(w@).len()),
{
    let bs = w.as_str().as_bytes();
    proof {
        crate::codec::lemma_usize_fits();
        assert(bs@ == vstd::utf8::encode_utf8(w@));
    }
    push_u64(out, bs.len() as u64);
    out.extend_from_slice(bs);
    proof {
        assert(out@ =~= old(out)@ + crate::codec::enc_word(w@));
    }
}

/// Appends every word of `ws` in order.
fn push_words(out: &mut Vec<u8>, ws: &Vec<String>)
    ensures
        final(out)@ == old(out)@ + crate::codec::enc_words(words_view(ws@)),
        crate::codec::words_fit(words_view(ws@)),
{
    let n = ws.len();
    let mut i: usize = 0;
    proof {
        assert(words_view(ws@).take(0) =~= Seq::<Seq<char>>::empty());
        assert(out@ =~= old(out)@ + crate::codec::enc_words(words_view(ws@).take(0)));
    }
    while i < n
        invariant
            0 <= i <= n,
            n == ws@.len(),
            out@ == old(out)@ + crate::codec::enc_words(words_view(ws@).take(i as int)),
            forall|k: int|
                0 <= k < i ==> crate::codec::fits64(
                    vstd::utf8::encode_utf8(#[trigger] words_view(ws@)[k]).len(),
                ),
        decreases n - i,
    {
        push_word(out, &ws[i]);
        proof {
            crate::codec::lemma_enc_words_push(
                words_view(ws@).take(i as int),
                words_view(ws@)[i as int],
            );
            assert(words_view(ws@).take(i as int).push(words_view(ws@)[i as int]) =~= words_view(
                ws@,
            ).take(i as int + 1));
            assert(out@ =~= old(out)@ + crate::codec::enc_words(
                words_view(ws@).take(i as int + 1),
            ));
        }
        i = i + 1;
    }
    proof {
        assert(words_view(ws@).take(n as int) =~= words_view(ws@));
    }
}

/// Appends one link: its tag, its word if any, and its weight.
fn push_link(out: &mut Vec<u8>, l: &Link)
    ensures
        final(out)@ == old(out)@ + crate::codec::enc_link(l@),
        l@.count >= 1 ==> crate::codec::link_fits(l@),
{
    proof {
        crate::codec::lemma_usize_fits();
    }
    match &l.token {
        Token::End => {
            out.push(0u8);
            push_u64(out, l.count as u64);
            proof {
                assert(out@ =~= old(out)@ + crate::codec::enc_link(l@));
            }
        },
        Token::Word(w) => {
            out.push(1u8);
            push_word(out, w);
            push_u64(out, l.count as u64);
            proof {
                assert(out@ =~= old(out)@ + crate::codec::enc_link(l@));
            }
        },
    }
}

/// Appends every link of `ls` in order.
fn push_links(out: &mut Vec<u8>, ls: &Vec<Link>)
    requires
        links_wf(links_view(ls@)),
    ensures
        final(out)@ == old(out)@ + crate::codec::enc_links(links_view(ls@)),
        crate::codec::links_fit(links_view(ls@)),
{
    let n = ls.len();
    let mut i: usize = 0;
    proof {
        assert(links_view(ls@).take(0) =~= Seq::<LinkView>::empty());
        assert(out@ =~= old(out)@ + crate::codec::enc_links(links_view(ls@).take(0)));
    }
    while i < n
        invariant
            0 <= i <= n,
            n == ls@.len(),
            links_wf(links_view(ls@)),
            out@ == old(out)@ + crate::codec::enc_links(links_view(ls@).take(i as int)),
            forall|k: int|
                0 <= k < i ==> crate::codec::link_fits(#[trigger] links_view(ls@)[k]),
        decreases n - i,
    {
        push_link(out, &ls[i]);
        proof {
            crate::codec::lemma_enc_links_push(
                links_view(ls@).take(i as int),
                links_view(ls@)[i as int],
            );
            assert(links_view(ls@).take(i as int).push(links_view(ls@)[i as int]) =~= links_view(
                ls@,
            ).take(i as int + 1));
            assert(out@ =~= old(out)@ + crate::codec::enc_links(
                links_view(ls@).take(i as int + 1),
            ));
        }
        i = i + 1;
    }
    proof {
        assert(links_view(ls@).take(n as int) =~= links_view(ls@));
    }
}

impl Brain {
    /// Serializes the Brain to its compact binary form. Decoding the result
    /// yields exactly this Brain's model: the save/load round trip is exact.
    pub fn encode(&self) -> (r: Vec<u8>)
        requires
            self.inv(),
        ensures
            crate::codec::spec_decode(r@) == Some(self@),
    {
        let mut out: Vec<u8> = Vec::new();
        push_word(&mut out, &self.name);
        push_u64(&mut out, self.depth as u64);
        push_u64(&mut out, self.head.len() as u64);
        push_words(&mut out, &self.head);
        push_u64(&mut out, self.chain.len() as u64);
        let ghost pairs = entries_pairs(self.chain@);
        let ghost prefix = out@;
        proof {
            assert(pairs.take(0) =~= Seq::<(Seq<Seq<char>>, Seq<LinkView>)>::empty());
            assert(out@ =~= prefix + crate::codec::enc_entries(pairs.take(0)));
        }
        let n = self.chain.len();
        let mut i: usize = 0;
        while i < n
            invariant
                0 <= i <= n,
                n == self.chain@.len(),
                self.inv(),
                pairs == entries_pairs(self.chain@),
                out@ == prefix + crate::codec::enc_entries(pairs.take(i as int)),
                forall|k: int|
                    0 <= k < i ==> crate::codec::entry_fits(#[trigger] pairs[k]),
            decreases n - i,
        {
            let e = &self.chain[i];
            proof {
                crate::codec::lemma_usize_fits();
                assert(pairs[i as int] == (e.key(), e.set@));
            }
            let ghost before = out@;
            let ls = e.set.links();
            push_u64(&mut out, e.context.len() as u64);
            push_words(&mut out, &e.context);
            push_u64(&mut out, ls.len() as u64);
            push_links(&mut out, ls);
            proof {
                assert(links_view(ls@) == e.set@);
                assert(out@ =~= before + crate::codec::enc_entry(pairs[i as int]));
                crate::codec::lemma_enc_entries_push(pairs.take(i as int), pairs[i as int]);
                assert(pairs.take(i as int).push(pairs[i as int]) =~= pairs.take(i as int + 1));
                assert(out@ =~= prefix + crate::codec::enc_entries(pairs.take(i as int + 1)));
            }
            i = i + 1;
        }
        proof {
            assert(pairs.take(n as int) =~= pairs);
            assert(out@ =~= crate::codec::spec_encode(
                self.name@,
                self.depth as nat,
                words_view(self.head@),
                pairs,
            ));
            crate::codec::lemma_usize_fits();
            assert forall|a: int, b: int| 0 <= a < b < pairs.len() implies (
            #[trigger] pairs[a]).0 != (#[trigger] pairs[b]).0 by {
                assert(pairs[a].0 == self.chain@[a].key());
                assert(pairs[b].0 == self.chain@[b].key());
            }
            assert forall|a: int| 0 <= a < pairs.len() implies 1 <= (#[trigger] pairs[a]).0.len()
                <= self.depth as nat && pairs[a].1.len() >= 1 && links_wf(pairs[a].1) by {
                assert(pairs[a] == (self.chain@[a].key(), self.chain@[a].set@));
            }
            assert(self@.depth >= 1);
            assert(1 <= self.depth as nat <= usize::MAX as nat);
            let hv = words_view(self.head@);
            assert(self@.head == hv);
            assert(forall|a: int, b: int| 0 <= a < b < hv.len() ==> hv[a] != hv[b]);
            assert(crate::codec::parts_wf(self.depth as nat, words_view(self.head@), pairs));
            crate::codec::lemma_decode_encode(
                self.name@,
                self.depth as nat,
                words_view(self.head@),
                pairs,
            );
            lemma_pairs_map_entries(self.chain@);
            assert((BrainView {
                name: self.name@,
                depth: self.depth as nat,
                chain: crate::codec::pairs_map(pairs),
                head: words_view(self.head@),
            }) == self@);
        }
        out
    }
}

/// Reads eight little-endian bytes at `pos`.
fn read_u64(bytes: &Vec<u8>, pos: usize) -> (r: Option<(u64, usize)>)
    requires
        pos <= bytes@.len(),
    ensures
        r is Some <==> crate::codec::p64(bytes@.skip(pos as int)) is Some,
        r is Some ==> {
            let pr = crate::codec::p64(bytes@.skip(pos as int)).unwrap();
            &&& r.unwrap().0 as nat == pr.0
            &&& r.unwrap().1 == pos + 8
            &&& pos + 8 <= bytes@.len()
            &&& pr.1 == bytes@.skip(pos as int + 8)
        },
{
    if bytes.len() - pos < 8 {
        proof {
            assert(bytes@.skip(pos as int).len() < 8);
        }
        return None;
    }
    let b0 = bytes[pos] as u64;
    let b1 = bytes[pos + 1] as u64;
    let b2 = bytes[pos + 2] as u64;
    let b3 = bytes[pos + 3] as u64;
    let b4 = bytes[pos + 4] as u64;
    let b5 = bytes[pos + 5] as u64;
    let b6 = bytes[pos + 6] as u64;
    let b7 = bytes[pos + 7] as u64;
    let t6: u64 = b6 + 256 * b7;
    let t5: u64 = b5 + 256 * t6;
    let t4: u64 = b4 + 256 * t5;
    let t3: u64 = b3 + 256 * t4;
    let t2: u64 = b2 + 256 * t3;
    let t1: u64 = b1 + 256 * t2;
    let n: u64 = b0 + 256 * t1;
    proof {
        let s = bytes@.skip(pos as int);
        let t = s.take(8);
        assert(t.len() == 8);
        assert(t[0] == bytes@[pos as int]);
        assert(t[1] == bytes@[pos as int + 1]);
        assert(t[2] == bytes@[pos as int + 2]);
        assert(t[3] == bytes@[pos as int + 3]);
        assert(t[4] == bytes@[pos as int + 4]);
        assert(t[5] == bytes@[pos as int + 5]);
        assert(t[6] == bytes@[pos as int + 6]);
        assert(t[7] == bytes@[pos as int + 7]);
        crate::codec::lemma_dec_le_8(t);
        assert(s.skip(8) =~= bytes@.skip(pos as int + 8));
    }
    Some((n, pos + 8))
}

/// Reads one length-prefixed UTF-8 word at `pos`.
fn read_word(bytes: &Vec<u8>, pos: usize) -> (r: Option<(String, usize)>)
    requires
        pos <= bytes@.len(),
    ensures
        r is Some <==> crate::codec::p_word(bytes@.skip(pos as int)) is Some,
        r is Some ==> {
            let pw = crate::codec::p_word(bytes@.skip(pos as int)).unwrap();
            &&& r.unwrap().0@ == pw.0
            &&& pos <= r.unwrap().1 <= bytes@.len()
            &&& pw.1 == bytes@.skip(r.unwrap().1 as int)
        },
{
    let (n, p1) = match read_u64(bytes, pos) {
        Some(v) => v,
        None => {
            return None;
        },
    };
    proof {
        assert(bytes@.skip(pos as int).skip(8) =~= bytes@.skip(p1 as int));
    }
    let rem = bytes.len() - p1;
    if n > rem as u64 {
        proof {
            assert(bytes@.skip(p1 as int).len() < n as nat);
        }
        return None;
    }
    let m = n as usize;
    let mut buf: Vec<u8> = Vec::new();
    let mut i: usize = 0;
    proof {
        assert(buf@ =~= bytes@.subrange(p1 as int, p1 as int));
    }
    while i < m
        invariant
            0 <= i <= m,
            p1 + m <= bytes@.len(),
            bytes@.len() <= usize::MAX as nat,
            buf@ == bytes@.subrange(p1 as int, p1 as int + i),
        decreases m - i,
    {
        buf.push(bytes[p1 + i]);
        proof {
            assert(buf@ =~= bytes@.subrange(p1 as int, p1 as int + i + 1));
        }
        i = i + 1;
    }
    proof {
        assert(buf@ =~= bytes@.skip(p1 as int).take(n as int));
    }
    let ghost bufv = buf@;
    match crate::text::string_from_utf8(buf) {
        None => {
            return None;
        },
        Some(w) => {
            proof {
                broadcast use vstd::utf8::encode_utf8_decode_utf8;

                assert(vstd::utf8::encode_utf8(w@) == bufv);
                assert(w@ == vstd::utf8::decode_utf8(bufv));
                assert(bytes@.skip(p1 as int).skip(n as int) =~= bytes@.skip(p1 as int + m));
            }
            Some((w, p1 + m))
        },
    }
}

/// Reads `n` words at `pos`.
fn read_words(bytes: &Vec<u8>, pos: usize, n: u64) -> (r: Option<(Vec<String>, usize)>)
    requires
        pos <= bytes@.len(),
    ensures
        r is Some <==> crate::codec::p_words(bytes@.skip(pos as int), n as nat) is Some,
        r is Some ==> {
            let pw = crate::codec::p_words(bytes@.skip(pos as int), n as nat).unwrap();
            &&& words_view(r.unwrap().0@) == pw.0
            &&& pos <= r.unwrap().1 <= bytes@.len()
            &&& pw.1 == bytes@.skip(r.unwrap().1 as int)
        },
{
    let mut acc: Vec<String> = Vec::new();
    let mut cur = pos;
    let mut i: u64 = 0;
    while i < n
        invariant
            0 <= i <= n,
            pos <= cur <= bytes@.len(),
            crate::codec::p_words(bytes@.skip(pos as int), n as nat) is Some
                <==> crate::codec::p_words(bytes@.skip(cur as int), (n - i) as nat) is Some,
            crate::codec::p_words(bytes@.skip(pos as int), n as nat) is Some
                ==> crate::codec::p_words(bytes@.skip(pos as int), n as nat).unwrap() == (
            words_view(acc@) + crate::codec::p_words(
                bytes@.skip(cur as int),
                (n - i) as nat,
            ).unwrap().0, crate::codec::p_words(
                bytes@.skip(cur as int),
                (n - i) as nat,
            ).unwrap().1),
        decreases n - i,
    {
        let (w, cur2) = match read_word(bytes, cur) {
            Some(v) => v,
            None => {
                return None;
            },
        };
        let ghost accv = words_view(acc@);
        acc.push(w);
        proof {
            assert(words_view(acc@) =~= accv.push(acc@.last()@));
            let rest = crate::codec::p_words(bytes@.skip(cur2 as int), (n - i - 1) as nat);
            if rest is Some {
                assert(accv + (seq![acc@.last()@] + rest.unwrap().0) =~= words_view(acc@)
                    + rest.unwrap().0);
            }
        }
        cur = cur2;
        i = i + 1;
    }
    proof {
        assert(words_view(acc@) + Seq::<Seq<char>>::empty() =~= words_view(acc@));
    }
    Some((acc, cur))
}

/// Reads one link at `pos`.
fn read_link(bytes: &Vec<u8>, pos: usize) -> (r: Option<(Link, usize)>)
    requires
        pos <= bytes@.len(),
    ensures
        r is Some <==> crate::codec::p_link(bytes@.skip(pos as int)) is Some,
        r is Some ==> {
            let pl = crate::codec::p_link(bytes@.skip(pos as int)).unwrap();
            &&& r.unwrap().0@ == pl.0
            &&& pos <= r.unwrap().1 <= bytes@.len()
            &&& pl.1 == bytes@.skip(r.unwrap().1 as int)
        },
{
    if pos >= bytes.len() {
        return None;
    }
    let tag = bytes[pos];
    proof {
        assert(bytes@.skip(pos as int)[0] == bytes@[pos as int]);
        assert(bytes@.skip(pos as int).drop_first() =~= bytes@.skip(pos as int + 1));
    }
    if tag == 0 {
        let (c, p2) = match read_u64(bytes, pos + 1) {
            Some(v) => v,
            None => {
                return None;
            },
        };
        if c < 1 || c > usize_max_u64() {
            return None;
        }
        proof {
            assert(bytes@.skip(pos as int + 1).skip(8) =~= bytes@.skip(p2 as int));
        }
        Some((Link { token: Token::End, count: c as usize }, p2))
    } else if tag == 1 {
        let (w, p2) = match read_word(bytes, pos + 1) {
            Some(v) => v,
            None => {
                return None;
            },
        };
        let (c, p3) = match read_u64(bytes, p2) {
            Some(v) => v,
            None => {
                return None;
            },
        };
        if c < 1 || c > usize_max_u64() {
            return None;
        }
        proof {
            assert(bytes@.skip(p2 as int).skip(8) =~= bytes@.skip(p3 as int));
        }
        Some((Link { token: Token::Word(w), count: c as usize }, p3))
    } else {
        None
    }
}

/// The largest weight that fits a machine word, as stored.
fn usize_max_u64() -> (r: u64)
    ensures
        r as nat == usize::MAX as nat,
{
    usize::MAX as u64
}

/// Reads `n` links at `pos`.
fn read_links(bytes: &Vec<u8>, pos: usize, n: u64) -> (r: Option<(Vec<Link>, usize)>)
    requires
        pos <= bytes@.len(),
    ensures
        r is Some <==> crate::codec::p_links(bytes@.skip(pos as int), n as nat) is Some,
        r is Some ==> {
            let pl = crate::codec::p_links(bytes@.skip(pos as int), n as nat).unwrap();
            &&& links_view(r.unwrap().0@) == pl.0
            &&& pos <= r.unwrap().1 <= bytes@.len()
            &&& pl.1 == bytes@.skip(r.unwrap().1 as int)
        },
{
    let mut acc: Vec<Link> = Vec::new();
    let mut cur = pos;
    let mut i: u64 = 0;
    proof {
        assert(links_view(acc@) =~= Seq::<LinkView>::empty());
    }
    while i < n
        invariant
            0 <= i <= n,
            pos <= cur <= bytes@.len(),
            crate::codec::p_links(bytes@.skip(pos as int), n as nat) is Some
                <==> crate::codec::p_links(bytes@.skip(cur as int), (n - i) as nat) is Some,
            crate::codec::p_links(bytes@.skip(pos as int), n as nat) is Some
                ==> crate::codec::p_links(bytes@.skip(pos as int), n as nat).unwrap() == (
            links_view(acc@) + crate::codec::p_links(
                bytes@.skip(cur as int),
                (n - i) as nat,
            ).unwrap().0, crate::codec::p_links(
                bytes@.skip(cur as int),
                (n - i) as nat,
            ).unwrap().1),
        decreases n - i,
    {
        let (l, cur2) = match read_link(bytes, cur) {
            Some(v) => v,
            None => {
                return None;
            },
        };
        let ghost accv = links_view(acc@);
        acc.push(l);
        proof {
            assert(links_view(acc@) =~= accv.push(acc@.last()@));
            let rest = crate::codec::p_links(bytes@.skip(cur2 as int), (n - i - 1) as nat);
            if rest is Some {
                assert(accv + (seq![acc@.last()@] + rest.unwrap().0) =~= links_view(acc@)
                    + rest.unwrap().0);
            }
        }
        cur = cur2;
        i = i + 1;
    }
    proof {
        assert(links_view(acc@) + Seq::<LinkView>::empty() =~= links_view(acc@));
    }
    Some((acc, cur))
}

/// Reads one stored context with its links at `pos`.
fn read_entry(bytes: &Vec<u8>, pos: usize) -> (r: Option<(ChainEntry, usize)>)
    requires
        pos <= bytes@.len(),
    ensures
        r is Some <==> crate::codec::p_entry(bytes@.skip(pos as int)) is Some,
        r is Some ==> {
            let pe = crate::codec::p_entry(bytes@.skip(pos as int)).unwrap();
            &&& (r.unwrap().0.key(), r.unwrap().0.set@) == pe.0
            &&& pos <= r.unwrap().1 <= bytes@.len()
            &&& pe.1 == bytes@.skip(r.unwrap().1 as int)
        },
{
    let (m, p1) = match read_u64(bytes, pos) {
        Some(v) => v,
        None => {
            return None;
        },
    };
    proof {
        assert(bytes@.skip(pos as int).skip(8) =~= bytes@.skip(p1 as int));
    }
    let (ctx, p2) = match read_words(bytes, p1, m) {
        Some(v) => v,
        None => {
            return None;
        },
    };
    let (ln, p3) = match read_u64(bytes, p2) {
        Some(v) => v,
        None => {
            return None;
        },
    };
    proof {
        assert(bytes@.skip(p2 as int).skip(8) =~= bytes@.skip(p3 as int));
    }
    let (ls, p4) = match read_links(bytes, p3, ln) {
        Some(v) => v,
        None => {
            return None;
        },
    };
    Some((ChainEntry { context: ctx, set: EdgeSet::from_links(ls) }, p4))
}

/// Reads `n` entries at `pos`.
fn read_entries(bytes: &Vec<u8>, pos: usize, n: u64) -> (r: Option<(Vec<ChainEntry>, usize)>)
    requires
        pos <= bytes@.len(),
    ensures
        r is Some <==> crate::codec::p_entries(bytes@.skip(pos as int), n as nat) is Some,
        r is Some ==> {
            let pe = crate::codec::p_entries(bytes@.skip(pos as int), n as nat).unwrap();
            &&& entries_pairs(r.unwrap().0@) == pe.0
            &&& pos <= r.unwrap().1 <= bytes@.len()
            &&& pe.1 == bytes@.skip(r.unwrap().1 as int)
        },
{
    let mut acc: Vec<ChainEntry> = Vec::new();
    let mut cur = pos;
    let mut i: u64 = 0;
    proof {
        assert(entries_pairs(acc@) =~= Seq::<(Seq<Seq<char>>, Seq<LinkView>)>::empty());
    }
    while i < n
        invariant
            0 <= i <= n,
            pos <= cur <= bytes@.len(),
            crate::codec::p_entries(bytes@.skip(pos as int), n as nat) is Some
                <==> crate::codec::p_entries(bytes@.skip(cur as int), (n - i) as nat) is Some,
            crate::codec::p_entries(bytes@.skip(pos as int), n as nat) is Some
                ==> crate::codec::p_entries(bytes@.skip(pos as int), n as nat).unwrap() == (
            entries_pairs(acc@) + crate::codec::p_entries(
                bytes@.skip(cur as int),
                (n - i) as nat,
            ).unwrap().0, crate::codec::p_entries(
                bytes@.skip(cur as int),
                (n - i) as nat,
            ).unwrap().1),
        decreases n - i,
    {
        let (e, cur2) = match read_entry(bytes, cur) {
            Some(v) => v,
            None => {
                return None;
            },
        };
        let ghost accv = entries_pairs(acc@);
        let ghost ev = (e.key(), e.set@);
        acc.push(e);
        proof {
            assert(entries_pairs(acc@) =~= accv.push(ev));
            let rest = crate::codec::p_entries(bytes@.skip(cur2 as int), (n - i - 1) as nat);
            if rest is Some {
                assert(accv + (seq![ev] + rest.unwrap().0) =~= entries_pairs(acc@)
                    + rest.unwrap().0);
            }
        }
        cur = cur2;
        i = i + 1;
    }
    proof {
        assert(entries_pairs(acc@) + Seq::<(Seq<Seq<char>>, Seq<LinkView>)>::empty()
            =~= entries_pairs(acc@));
    }
    Some((acc, cur))
}

/// Whether all words of `ws` are distinct.
fn check_words_distinct(ws: &Vec<String>) -> (r: bool)
    ensures
        r == (forall|i: int, j: int|
            0 <= i < j < words_view(ws@).len() ==> words_view(ws@)[i] != words_view(ws@)[j]),
{
    let n = ws.len();
    let mut i: usize = 0;
    while i < n
        invariant
            0 <= i <= n,
            n == ws@.len(),
            forall|a: int, b: int|
                0 <= a < b < n && a < i ==> words_view(ws@)[a] != words_view(ws@)[b],
        decreases n - i,
    {
        let mut j = i + 1;
        while j < n
            invariant
                i < j <= n,
                i < n,
                n == ws@.len(),
                forall|b: int| i < b < j ==> words_view(ws@)[i as int] != words_view(ws@)[b],
            decreases n - j,
        {
            if ws[i].eq(&ws[j]) {
                proof {
                    assert(words_view(ws@)[i as int] == words_view(ws@)[j as int]);
                }
                return false;
            }
            j = j + 1;
        }
        i = i + 1;
    }
    true
}

/// Whether the links hold distinct tokens with weights of at least one.
fn check_links_wf(ls: &Vec<Link>) -> (r: bool)
    ensures
        r == links_wf(links_view(ls@)),
{
    let n = ls.len();
    let mut i: usize = 0;
    while i < n
        invariant
            0 <= i <= n,
            n == ls@.len(),
            forall|a: int| 0 <= a < i ==> 1 <= (#[trigger] links_view(ls@)[a]).count,
            forall|a: int, b: int|
                0 <= a < b < n && a < i ==> (#[trigger] links_view(ls@)[a]).token != (
                #[trigger] links_view(ls@)[b]).token,
        decreases n - i,
    {
        if ls[i].count < 1 {
            proof {
                assert(links_view(ls@)[i as int].count < 1);
            }
            return false;
        }
        let mut j = i + 1;
        while j < n
            invariant
                i < j <= n,
                i < n,
                n == ls@.len(),
                forall|b: int|
                    i < b < j ==> (#[trigger] links_view(ls@)[b]).token != links_view(ls@)[
                        i as int].token,
            decreases n - j,
        {
            if ls[i].token.same(&ls[j].token) {
                proof {
                    assert(links_view(ls@)[i as int].token == links_view(ls@)[j as int].token);
                }
                return false;
            }
            j = j + 1;
        }
        i = i + 1;
    }
    proof {
        assert forall|a: int| 0 <= a < n implies 1 <= (#[trigger] links_view(ls@)[a]).count
            <= usize::MAX as nat by {
            assert(links_view(ls@)[a].count == ls@[a].count as nat);
        }
    }
    true
}

/// Whether the parsed entries are well formed for the given depth: distinct
/// contexts of one to `depth` words, each with a non-empty well-formed
/// edge-set.
fn check_entries(es: &Vec<ChainEntry>, depth: usize) -> (r: bool)
    ensures
        r == ({
            &&& entries_unique(es@)
            &&& forall|i: int| 0 <= i < es@.len() ==> 1 <= (#[trigger] es@[i]).key().len() <= depth
            &&& forall|i: int|
                0 <= i < es@.len() ==> (#[trigger] es@[i]).set@.len() >= 1 && links_wf(
                    es@[i].set@,
                )
        }),
{
    let n = es.len();
    let mut i: usize = 0;
    while i < n
        invariant
            0 <= i <= n,
            n == es@.len(),
            forall|a: int|
                0 <= a < i ==> 1 <= (#[trigger] es@[a]).key().len() <= depth,
            forall|a: int|
                0 <= a < i ==> (#[trigger] es@[a]).set@.len() >= 1 && links_wf(es@[a].set@),
            forall|a: int, b: int|
                0 <= a < b < n && a < i ==> (#[trigger] es@[a]).key() != (#[trigger] es@[b]).key(),
        decreases n - i,
    {
        let e = &es[i];
        if e.context.len() < 1 || e.context.len() > depth {
            proof {
                assert(es@[i as int].key().len() == e.context@.len());
            }
            return false;
        }
        let ls = e.set.links();
        if ls.len() < 1 {
            proof {
                assert(es@[i as int].set@.len() == 0);
            }
            return false;
        }
        if !check_links_wf(ls) {
            proof {
                assert(links_view(ls@) == es@[i as int].set@);
            }
            return false;
        }
        let mut j = i + 1;
        while j < n
            invariant
                i < j <= n,
                i < n,
                n == es@.len(),
                forall|b: int| i < b < j ==> (#[trigger] es@[b]).key() != es@[i as int].key(),
            decreases n - j,
        {
            if words_equal(&es[i].context, &es[j].context) {
                proof {
                    assert(es@[i as int].key() == es@[j as int].key());
                }
                return false;
            }
            j = j + 1;
        }
        i = i + 1;
    }
    true
}

impl Brain {
    /// Reconstructs a Brain from its compact binary form. Returns nothing
    /// exactly when the bytes do not denote a well-formed model; on success
    /// the model is exactly what the bytes denote.
    pub fn decode(bytes: &Vec<u8>) -> (r: Option<Brain>)
        ensures
            r is Some <==> crate::codec::spec_decode(bytes@) is Some,
            r is Some ==> r.unwrap()@ == crate::codec::spec_decode(bytes@).unwrap(),
            r is Some ==> r.unwrap().inv(),
    {
        proof {
            assert(bytes@.skip(0) =~= bytes@);
        }
        let (name, p1) = match read_word(bytes, 0) {
            Some(v) => v,
            None => {
                return None;
            },
        };
        let (depth64, p2) = match read_u64(bytes, p1) {
            Some(v) => v,
            None => {
                return None;
            },
        };
        proof {
            assert(bytes@.skip(p1 as int).skip(8) =~= bytes@.skip(p2 as int));
        }
        let (hn, p3) = match read_u64(bytes, p2) {
            Some(v) => v,
            None => {
                return None;
            },
        };
        proof {
            assert(bytes@.skip(p2 as int).skip(8) =~= bytes@.skip(p3 as int));
        }
        let (head, p4) = match read_words(bytes, p3, hn) {
            Some(v) => v,
            None => {
                return None;
            },
        };
        let (en, p5) = match read_u64(bytes, p4) {
            Some(v) => v,
            None => {
                return None;
            },
        };
        proof {
            assert(bytes@.skip(p4 as int).skip(8) =~= bytes@.skip(p5 as int));
        }
        let (entries, p6) = match read_entries(bytes, p5, en) {
            Some(v) => v,
            None => {
                return None;
            },
        };
        let ghost parsed = crate::codec::p_entries(
            bytes@.skip(p5 as int),
            en as nat,
        ).unwrap().0;
        if p6 != bytes.len() {
            proof {
                assert(bytes@.skip(p6 as int).len() != 0);
            }
            return None;
        }
        if depth64 < 1 || depth64 > usize_max_u64() {
            return None;
        }
        let depth = depth64 as usize;
        if !check_words_distinct(&head) {
            return None;
        }
        if !check_entries(&entries, depth) {
            proof {
                lemma_parts_wf_pairs(entries@, depth as nat);
            }
            return None;
        }
        proof {
            lemma_parts_wf_pairs(entries@, depth as nat);
            assert(crate::codec::parts_wf(depth as nat, words_view(head@), parsed));
        }
        let b = Brain { name, depth, chain: entries, head };
        proof {
            lemma_entries_wf(b.chain@, depth as nat);
            lemma_pairs_map_entries(b.chain@);
            assert(b@ == crate::codec::spec_decode(bytes@).unwrap());
        }
        Some(b)
    }
}

/// The entry-level facts say exactly what `parts_wf` asks of the pairs.
proof fn lemma_parts_wf_pairs(es: Seq<ChainEntry>, depth: nat)
    requires
        1 <= depth <= usize::MAX as nat,
    ensures
        crate::codec::parts_wf(depth, Seq::empty(), entries_pairs(es)) == ({
            &&& entries_unique(es)
            &&& forall|i: int| 0 <= i < es.len() ==> 1 <= (#[trigger] es[i]).key().len() <= depth
            &&& forall|i: int|
                0 <= i < es.len() ==> (#[trigger] es[i]).set@.len() >= 1 && links_wf(es[i].set@)
        }),
        forall|h: Seq<Seq<char>>|
            (forall|i: int, j: int| 0 <= i < j < h.len() ==> h[i] != h[j])
                ==> #[trigger] crate::codec::parts_wf(depth, h, entries_pairs(es))
                == crate::codec::parts_wf(depth, Seq::empty(), entries_pairs(es)),
{
    let ps = entries_pairs(es);
    assert forall|i: int| 0 <= i < es.len() implies (#[trigger] ps[i]) == (
        es[i].key(),
        es[i].set@,
    ) by {}
    if entries_unique(es) {
        assert forall|i: int, j: int| 0 <= i < j < ps.len() implies (#[trigger] ps[i]).0 != (
        #[trigger] ps[j]).0 by {
            assert(ps[i].0 == es[i].key());
            assert(ps[j].0 == es[j].key());
        }
    }
    if forall|i: int, j: int|
        0 <= i < j < ps.len() ==> (#[trigger] ps[i]).0 != (#[trigger] ps[j]).0 {
        assert forall|i: int, j: int| 0 <= i < j < es.len() implies (#[trigger] es[i]).key() != (
        #[trigger] es[j]).key() by {
            assert(ps[i].0 == es[i].key());
            assert(ps[j].0 == es[j].key());
        }
    }
    if forall|i: int| 0 <= i < es.len() ==> 1 <= (#[trigger] es[i]).key().len() <= depth {
        assert forall|i: int| 0 <= i < ps.len() implies 1 <= (#[trigger] ps[i]).0.len()
            <= depth by {
            assert(ps[i].0 == es[i].key());
        }
    }
    if forall|i: int| 0 <= i < ps.len() ==> 1 <= (#[trigger] ps[i]).0.len() <= depth {
        assert forall|i: int| 0 <= i < es.len() implies 1 <= (#[trigger] es[i]).key().len()
            <= depth by {
            assert(ps[i].0 == es[i].key());
        }
    }
    if forall|i: int|
        0 <= i < es.len() ==> (#[trigger] es[i]).set@.len() >= 1 && links_wf(es[i].set@) {
        assert forall|i: int| 0 <= i < ps.len() implies (#[trigger] ps[i]).1.len() >= 1 && links_wf(
            ps[i].1,
        ) by {
            assert(ps[i].1 == es[i].set@);
        }
    }
    if forall|i: int| 0 <= i < ps.len() ==> (#[trigger] ps[i]).1.len() >= 1 && links_wf(ps[i].1) {
        assert forall|i: int| 0 <= i < es.len() implies (#[trigger] es[i]).set@.len() >= 1
            && links_wf(es[i].set@) by {
            assert(ps[i].1 == es[i].set@);
        }
    }
}

/// A token that appears in no link has weight zero.
proof fn lemma_weight_none(s: Seq<LinkView>, tok: TokenView)
    requires
        forall|k: int| 0 <= k < s.len() ==> (#[trigger] s[k]).token != tok,
    ensures
        crate::set::weight_of(s, tok) == 0,
    decreases s.len(),
{
    if s.len() > 0 {
        assert(s.first() == s[0]);
        assert forall|k: int| 0 <= k < s.drop_first().len() implies (
        #[trigger] s.drop_first()[k]).token != tok by {
            assert(s.drop_first()[k] == s[k + 1]);
        }
        lemma_weight_none(s.drop_first(), tok);
    }
}

} // verus!
