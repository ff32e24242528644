//! The edge-set: the weighted candidates for one context. It is append-only
//! and order-preserving, and holds at most one link per distinct token.

use vstd::prelude::*;

use crate::link::{sat_add, Link, LinkView};
use crate::token::{Token, TokenView};

verus! {

/// Well-formedness of an edge-set's links: every weight is at least one and
/// fits a machine word, and no token appears twice.
pub open spec fn links_wf(s: Seq<LinkView>) -> bool {
    &&& forall|i: int|
        0 <= i < s.len() ==> 1 <= (#[trigger] s[i]).count <= usize::MAX as nat
    &&& forall|i: int, j: int| 0 <= i < j < s.len() ==> (#[trigger] s[i]).token != (
    #[trigger] s[j]).token
}

/// The views of a vector of links, link by link.
pub open spec fn links_view(v: Seq<Link>) -> Seq<LinkView> {
    v.map_values(|l: Link| l@)
}

/// The links after one more observation of `tok`: the matching link's weight
/// grows by one, or a fresh link of weight one is appended.
pub open spec fn bump_links(s: Seq<LinkView>, tok: TokenView) -> Seq<LinkView>
    decreases s.len(),
{
    if s.len() == 0 {
        seq![LinkView { token: tok, count: 1 }]
    } else if s.first().token == tok {
        seq![LinkView { token: tok, count: sat_add(s.first().count, 1) }] + s.drop_first()
    } else {
        seq![s.first()] + bump_links(s.drop_first(), tok)
    }
}

/// The total weight attached to `tok` in `s`.
pub open spec fn weight_of(s: Seq<LinkView>, tok: TokenView) -> nat
    decreases s.len(),
{
    if s.len() == 0 {
        0
    } else if s.first().token == tok {
        s.first().count + weight_of(s.drop_first(), tok)
    } else {
        weight_of(s.drop_first(), tok)
    }
}

/// Helper: dropping the first link keeps the rest well formed.
proof fn lemma_links_wf_drop(s: Seq<LinkView>)
    requires
        links_wf(s),
        s.len() > 0,
    ensures
        links_wf(s.drop_first()),
{
    let d = s.drop_first();
    assert forall|i: int| 0 <= i < d.len() implies (#[trigger] d[i]).count >= 1 by {
        assert(d[i] == s[i + 1]);
    }
    assert forall|i: int, j: int| 0 <= i < j < d.len() implies (#[trigger] d[i]).token != (
    #[trigger] d[j]).token by {
        assert(d[i] == s[i + 1]);
        assert(d[j] == s[j + 1]);
    }
}

/// Bumping a token raises its weight by one (up to saturation) and leaves
/// every other token's weight unchanged; it also keeps the links well formed
/// and never removes a link.
#[verifier::rlimit(50)]
pub proof fn lemma_bump_links(s: Seq<LinkView>, tok: TokenView)
    requires
        links_wf(s),
    ensures
        weight_of(bump_links(s, tok), tok) == sat_add(weight_of(s, tok), 1),
        forall|t: TokenView| t != tok ==> weight_of(bump_links(s, tok), t) == weight_of(s, t),
        links_wf(bump_links(s, tok)),
        bump_links(s, tok).len() >= 1,
        s.len() <= bump_links(s, tok).len() <= s.len() + 1,
        forall|i: int| 0 <= i < s.len() ==> (#[trigger] bump_links(s, tok)[i]).token == s[i].token
            && bump_links(s, tok)[i].count >= s[i].count,
    decreases s.len(),
{
    if s.len() == 0 {
        let b = bump_links(s, tok);
        assert(b == seq![LinkView { token: tok, count: 1 }]);
        assert(b.first() == LinkView { token: tok, count: 1 });
        assert(b.drop_first() =~= Seq::<LinkView>::empty());
        assert(weight_of(b, tok) == 1 + weight_of(b.drop_first(), tok));
        assert(weight_of(b, tok) == sat_add(weight_of(s, tok), 1));
        assert(links_wf(b));
        assert forall|t: TokenView| t != tok implies weight_of(b, t) == weight_of(s, t) by {
            assert(weight_of(b, t) == weight_of(b.drop_first(), t));
        }
    } else if s.first().token == tok {
        let b = bump_links(s, tok);
        assert(b.drop_first() =~= s.drop_first());
        assert forall|i: int| 0 <= i < s.len() implies (#[trigger] s[i]).token != tok || i == 0 by {
            if i > 0 && s[i].token == tok {
                assert(s[0].token == s[i].token);
            }
        }
        assert forall|i: int| 0 <= i < s.drop_first().len() implies (
        #[trigger] s.drop_first()[i]).token != tok by {
            assert(s.drop_first()[i] == s[i + 1]);
        }
        lemma_weight_absent(s.drop_first(), tok);
        assert(weight_of(b, tok) == sat_add(s.first().count, 1) + weight_of(s.drop_first(), tok));
        assert(weight_of(s, tok) == s.first().count + weight_of(s.drop_first(), tok));
        assert forall|t: TokenView| t != tok implies weight_of(bump_links(s, tok), t) == weight_of(
            s,
            t,
        ) by {
            assert(b.first().token == tok);
            assert(weight_of(b, t) == weight_of(b.drop_first(), t));
        }
        assert forall|i: int, j: int| 0 <= i < j < b.len() implies (#[trigger] b[i]).token != (
        #[trigger] b[j]).token by {
            assert(b[i].token == s[i].token);
            assert(b[j].token == s[j].token);
        }
        assert forall|i: int| 0 <= i < b.len() implies 1 <= (#[trigger] b[i]).count
            <= usize::MAX as nat by {
            if i > 0 {
                assert(b[i] == s[i]);
            }
        }
        assert forall|i: int| 0 <= i < s.len() implies (#[trigger] b[i]).token == s[i].token
            && b[i].count >= s[i].count by {
            if i > 0 {
                assert(b[i] == s[i]);
            } else {
                assert(b[0].count == sat_add(s[0].count, 1));
            }
        }
    } else {
        lemma_links_wf_drop(s);
        lemma_bump_links(s.drop_first(), tok);
        let b = bump_links(s, tok);
        let bd = bump_links(s.drop_first(), tok);
        assert(b.first() == s.first());
        assert(b.drop_first() =~= bd);
        assert(weight_of(b, tok) == weight_of(bd, tok));
        assert forall|t: TokenView| t != tok implies weight_of(b, t) == weight_of(s, t) by {
            if s.first().token == t {
                assert(weight_of(b, t) == s.first().count + weight_of(bd, t));
                assert(weight_of(s, t) == s.first().count + weight_of(s.drop_first(), t));
            } else {
                assert(weight_of(b, t) == weight_of(bd, t));
                assert(weight_of(s, t) == weight_of(s.drop_first(), t));
            }
        }
        assert forall|i: int| 0 <= i < s.len() implies (#[trigger] b[i]).token == s[i].token
            && b[i].count >= s[i].count by {
            if i > 0 {
                assert(b[i] == bd[i - 1]);
                assert(s.drop_first()[i - 1] == s[i]);
            }
        }
        assert forall|i: int| 0 <= i < b.len() implies 1 <= (#[trigger] b[i]).count
            <= usize::MAX as nat by {
            if i > 0 {
                assert(b[i] == bd[i - 1]);
            }
        }
        assert forall|i: int, j: int| 0 <= i < j < b.len() implies (#[trigger] b[i]).token != (
        #[trigger] b[j]).token by {
            lemma_bump_token_set(s.drop_first(), tok);
            if i == 0 {
                if j - 1 < s.drop_first().len() {
                    assert(b[j] == bd[j - 1]);
                    assert(b[j].token == s.drop_first()[j - 1].token);
                    assert(s[j].token == s.drop_first()[j - 1].token);
                } else {
                    // the appended fresh link: its token is `tok`,
                    // which is not the first link's token
                    assert(b[j] == bd[j - 1]);
                    assert(b[j].token == tok);
                }
            } else {
                assert(b[i] == bd[i - 1]);
                assert(b[j] == bd[j - 1]);
            }
        }
    }
}

/// Helper: a well-formed tail never carries weight for its head's token.
proof fn lemma_weight_absent(s: Seq<LinkView>, tok: TokenView)
    requires
        forall|i: int| 0 <= i < s.len() ==> (#[trigger] s[i]).token != tok,
    ensures
        weight_of(s, tok) == 0,
    decreases s.len(),
{
    if s.len() > 0 {
        assert(s.first() == s[0]);
        assert forall|i: int| 0 <= i < s.drop_first().len() implies (
        #[trigger] s.drop_first()[i]).token != tok by {
            assert(s.drop_first()[i] == s[i + 1]);
        }
        lemma_weight_absent(s.drop_first(), tok);
    }
}

/// Helper: bumping only ever introduces the bumped token.
proof fn lemma_bump_token_set(s: Seq<LinkView>, tok: TokenView)
    ensures
        forall|k: int| 0 <= k < bump_links(s, tok).len() ==> (#[trigger] bump_links(s, tok)[k]).token
            == tok || (k < s.len() && bump_links(s, tok)[k].token == s[k].token),
    decreases s.len(),
{
    if s.len() == 0 {
    } else if s.first().token == tok {
        let b = bump_links(s, tok);
        assert forall|k: int| 0 <= k < b.len() implies (#[trigger] b[k]).token == tok || (k
            < s.len() && b[k].token == s[k].token) by {
            if k > 0 {
                assert(b[k] == s.drop_first()[k - 1]);
            }
        }
    } else {
        lemma_bump_token_set(s.drop_first(), tok);
        let b = bump_links(s, tok);
        assert forall|k: int| 0 <= k < b.len() implies (#[trigger] b[k]).token == tok || (k
            < s.len() && b[k].token == s[k].token) by {
            if k > 0 {
                assert(b[k] == bump_links(s.drop_first(), tok)[k - 1]);
            }
        }
    }
}

/// The weighted candidates for one context.
pub struct EdgeSet {
    links: Vec<Link>,
}

impl View for EdgeSet {
    type V = Seq<LinkView>;

    closed spec fn view(&self) -> Seq<LinkView> {
        links_view(self.links@)
    }
}

impl EdgeSet {
    /// Whether the edge-set is well formed: non-empty, weights at least one,
    /// tokens distinct.
    pub open spec fn wf(&self) -> bool {
        self@.len() >= 1 && links_wf(self@)
    }

    /// A fresh edge-set holding one observation of `token`.
    pub fn new(token: Token) -> (r: EdgeSet)
        ensures
            r@ == seq![LinkView { token: token@, count: 1 }],
            r.wf(),
    {
        let links = vec![Link::new(token)];
        let r = EdgeSet { links };
        proof {
            assert(r@ =~= seq![LinkView { token: token@, count: 1 }]);
        }
        r
    }

    /// The number of distinct candidates.
    pub fn size(&self) -> (r: usize)
        ensures
            r == self@.len(),
    {
        self.links.len()
    }

    /// An edge-set over the given links, as loaded from storage.
    pub(crate) fn from_links(links: Vec<Link>) -> (r: EdgeSet)
        ensures
            r@ == links_view(links@),
    {
        EdgeSet { links }
    }

    /// A borrow of the links, for walking the candidates.
    pub fn links(&self) -> (r: &Vec<Link>)
        ensures
            links_view(r@) == self@,
    {
        &self.links
    }

    /// Records one more observation of `token`.
    pub fn insert(&mut self, token: Token)
        ensures
            final(self)@ == bump_links(old(self)@, token@),
    {
        let n = self.links.len();
        let mut i: usize = 0;
        while i < n
            invariant
                0 <= i <= n,
                n == self.links@.len(),
                self@ == old(self)@,
                forall|k: int| 0 <= k < i ==> (#[trigger] self@[k]).token != token@,
            decreases n - i,
        {
            if self.links[i].token.same(&token) {
                let c = self.links[i].count;
                self.links[i].count = c.saturating_add(1);
                proof {
                    lemma_bump_prefix(old(self)@, token@, i as int);
                    assert(final(self)@ =~= bump_links(old(self)@, token@));
                }
                return;
            }
            i = i + 1;
        }
        self.links.push(Link::new(token));
        proof {
            lemma_bump_append(old(self)@, token@);
            assert(final(self)@ =~= old(self)@.push(
                LinkView { token: token@, count: 1 },
            ));
        }
    }
}

/// Helper: when the first match sits at index `i`, bumping updates exactly
/// that link.
proof fn lemma_bump_prefix(s: Seq<LinkView>, tok: TokenView, i: int)
    requires
        0 <= i < s.len(),
        s[i].token == tok,
        forall|k: int| 0 <= k < i ==> (#[trigger] s[k]).token != tok,
    ensures
        bump_links(s, tok) == s.update(
            i,
            LinkView { token: tok, count: sat_add(s[i].count, 1) },
        ),
    decreases i,
{
    if i == 0 {
        assert(s.first().token == tok);
        assert(bump_links(s, tok) =~= s.update(
            0,
            LinkView { token: tok, count: sat_add(s[0].count, 1) },
        ));
    } else {
        assert(s.first().token != tok);
        assert forall|k: int| 0 <= k < i - 1 implies (#[trigger] s.drop_first()[k]).token
            != tok by {
            assert(s.drop_first()[k] == s[k + 1]);
        }
        assert(s.drop_first()[i - 1] == s[i]);
        lemma_bump_prefix(s.drop_first(), tok, i - 1);
        assert(bump_links(s, tok) =~= s.update(
            i,
            LinkView { token: tok, count: sat_add(s[i].count, 1) },
        ));
    }
}

/// Helper: when no link matches, bumping appends a fresh link.
proof fn lemma_bump_append(s: Seq<LinkView>, tok: TokenView)
    requires
        forall|k: int| 0 <= k < s.len() ==> (#[trigger] s[k]).token != tok,
    ensures
        bump_links(s, tok) == s.push(LinkView { token: tok, count: 1 }),
    decreases s.len(),
{
    if s.len() == 0 {
        assert(bump_links(s, tok) =~= s.push(LinkView { token: tok, count: 1 }));
    } else {
        assert(s.first() == s[0]);
        assert forall|k: int| 0 <= k < s.drop_first().len() implies (
        #[trigger] s.drop_first()[k]).token != tok by {
            assert(s.drop_first()[k] == s[k + 1]);
        }
        lemma_bump_append(s.drop_first(), tok);
        assert(bump_links(s, tok) =~= s.push(LinkView { token: tok, count: 1 }));
    }
}

/// A deep copy of one link, view preserved.
fn clone_link(l: &Link) -> (r: Link)
    ensures
        r@ == l@,
{
    Link { token: l.token.clone(), count: l.count }
}

/// A deep copy of a vector of links, view preserved.
fn clone_links(v: &Vec<Link>) -> (r: Vec<Link>)
    ensures
        links_view(r@) == links_view(v@),
{
    let mut links: Vec<Link> = Vec::new();
    let mut i: usize = 0;
    while i < v.len()
        invariant
            0 <= i <= v@.len(),
            links_view(links@) == links_view(v@).take(i as int),
        decreases v@.len() - i,
    {
        let ghost prev = links@;
        proof {
            assert(links_view(prev) == links_view(v@).take(i as int));
            assert(links_view(prev).len() == i);
        }
        let cl = clone_link(&v[i]);
        links.push(cl);
        proof {
            assert(links@ == prev.push(links@[i as int]));
            let m1 = links_view(links@);
            let m2 = links_view(v@);
            assert(m1.len() == i + 1);
            assert(m1[i as int] == links_view(v@)[i as int]);
            assert forall|k: int| 0 <= k < i + 1 implies m1[k] == m2.take(i as int + 1)[k] by {
                if k < i {
                    assert(links@[k] == prev[k]);
                    assert(links_view(prev)[k] == m2.take(i as int)[k]);
                }
            }
            assert(m1 =~= m2.take(i as int + 1));
        }
        i = i + 1;
    }
    proof {
        assert(links_view(v@).take(v@.len() as int) =~= links_view(v@));
    }
    links
}

impl Clone for EdgeSet {
    fn clone(&self) -> (r: Self)
        ensures
            r@ == self@,
    {
        EdgeSet { links: clone_links(&self.links) }
    }
}

} // verus!
