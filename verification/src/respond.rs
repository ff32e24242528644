//! What a command handler answers with: an ordered list of lines, each said
//! to the room, sent as a reply, or reported as a problem.

use vstd::prelude::*;

verus! {

/// One line of a handler's answer.
pub enum ResponseKind {
    Say(String),
    Reply(String),
    Problem(String),
}

/// The mathematical value of a line: its manner and its characters.
pub enum ResponseKindView {
    Say(Seq<char>),
    Reply(Seq<char>),
    Problem(Seq<char>),
}

impl View for ResponseKind {
    type V = ResponseKindView;

    open spec fn view(&self) -> ResponseKindView {
        match self {
            ResponseKind::Say(s) => ResponseKindView::Say(s@),
            ResponseKind::Reply(s) => ResponseKindView::Reply(s@),
            ResponseKind::Problem(s) => ResponseKindView::Problem(s@),
        }
    }
}

/// A handler's whole answer.
pub struct Response {
    pub kind: Vec<ResponseKind>,
}

/// The views of the lines, line by line.
pub open spec fn kinds_view(ks: Seq<ResponseKind>) -> Seq<ResponseKindView> {
    ks.map_values(|k: ResponseKind| k@)
}

impl View for Response {
    type V = Seq<ResponseKindView>;

    open spec fn view(&self) -> Seq<ResponseKindView> {
        kinds_view(self.kind@)
    }
}

/// A failure a handler reports instead of an answer.
#[derive(Debug)]
pub struct Failure {
    pub message: String,
}

impl Response {
    /// An answer with nothing in it.
    pub fn empty() -> (r: Response)
        ensures
            r@ =~= Seq::<ResponseKindView>::empty(),
    {
        let r = Response { kind: Vec::new() };
        proof {
            assert(r@ =~= Seq::<ResponseKindView>::empty());
        }
        r
    }

    /// Whether the answer holds no lines.
    pub fn is_empty(&self) -> (r: bool)
        ensures
            r == (self@.len() == 0),
    {
        self.kind.is_empty()
    }

    /// The successful empty answer.
    pub fn nothing() -> (r: Result<Response, Failure>)
        ensures
            r is Ok && r.unwrap()@ =~= Seq::<ResponseKindView>::empty(),
    {
        Ok(Self::empty())
    }

    /// This answer, as a success.
    pub fn ok(self) -> (r: Result<Response, Failure>)
        ensures
            r is Ok && r.unwrap() == self,
    {
        Ok(self)
    }

    /// This answer with one more line said to the room.
    pub fn say(self, data: String) -> (r: Response)
        ensures
            r@ == self@.push(ResponseKindView::Say(data@)),
    {
        self.append(ResponseKind::Say(data))
    }

    /// This answer with one more line sent as a reply.
    pub fn reply(self, data: String) -> (r: Response)
        ensures
            r@ == self@.push(ResponseKindView::Reply(data@)),
    {
        self.append(ResponseKind::Reply(data))
    }

    /// This answer with one more problem reported.
    pub fn problem(self, data: String) -> (r: Response)
        ensures
            r@ == self@.push(ResponseKindView::Problem(data@)),
    {
        self.append(ResponseKind::Problem(data))
    }

    /// Adds one more line in place.
    pub fn push(&mut self, kind: ResponseKind)
        ensures
            final(self)@ == old(self)@.push(kind@),
    {
        let ghost ks = self@;
        self.kind.push(kind);
        proof {
            assert(self@ =~= ks.push(self.kind@.last()@));
        }
    }

    /// This answer with one more line.
    pub fn append(self, kind: ResponseKind) -> (r: Response)
        ensures
            r@ == self@.push(kind@),
    {
        let mut this = self;
        this.push(kind);
        this
    }

    /// All the answers' lines folded into one answer, in order.
    pub fn fold_many(items: Vec<Response>) -> (r: Response)
        ensures
            r@ == flatten_responses(items@),
    {
        let mut r = Response::empty();
        let mut i: usize = 0;
        let n = items.len();
        proof {
            assert(items@.take(0) =~= Seq::<Response>::empty());
            assert(r@ =~= flatten_responses(items@.take(0)));
        }
        while i < n
            invariant
                0 <= i <= n,
                n == items@.len(),
                r@ == flatten_responses(items@.take(i as int)),
            decreases n - i,
        {
            let mut j: usize = 0;
            let m = items[i].kind.len();
            while j < m
                invariant
                    0 <= j <= m,
                    0 <= i < n,
                    n == items@.len(),
                    m == items@[i as int].kind@.len(),
                    r@ == flatten_responses(items@.take(i as int)) + items@[i as int]@.take(
                        j as int,
                    ),
                decreases m - j,
            {
                let k = clone_kind(&items[i].kind[j]);
                r.push(k);
                proof {
                    assert(items@[i as int]@.take(j as int).push(items@[i as int]@[j as int])
                        =~= items@[i as int]@.take(j as int + 1));
                    assert(r@ =~= flatten_responses(items@.take(i as int)) + items@[i as int]@.take(
                        j as int + 1,
                    ));
                }
                j = j + 1;
            }
            proof {
                assert(items@[i as int]@.take(m as int) =~= items@[i as int]@);
                lemma_flatten_push(items@.take(i as int), items@[i as int]);
                assert(items@.take(i as int).push(items@[i as int]) =~= items@.take(i as int + 1));
            }
            i = i + 1;
        }
        proof {
            assert(items@.take(n as int) =~= items@);
        }
        r
    }
}

/// A copy of one line.
fn clone_kind(k: &ResponseKind) -> (r: ResponseKind)
    ensures
        r@ == k@,
{
    match k {
        ResponseKind::Say(s) => ResponseKind::Say(s.clone()),
        ResponseKind::Reply(s) => ResponseKind::Reply(s.clone()),
        ResponseKind::Problem(s) => ResponseKind::Problem(s.clone()),
    }
}

/// All the lines of the answers, in order.
pub open spec fn flatten_responses(items: Seq<Response>) -> Seq<ResponseKindView>
    decreases items.len(),
{
    if items.len() == 0 {
        Seq::empty()
    } else {
        flatten_responses(items.drop_last()) + items.last()@
    }
}

proof fn lemma_flatten_push(items: Seq<Response>, x: Response)
    ensures
        flatten_responses(items.push(x)) == flatten_responses(items) + x@,
{
    assert(items.push(x).drop_last() =~= items);
    assert(items.push(x).last() == x);
}

/// What a module of the bot offers: its command names and their usage lines.
/// The calling side of a module is asynchronous and lives with the runtime;
/// this is the part the help registry reads.
pub trait Callable {
    /// The usage line of every command the module binds.
    fn command_names(&self) -> Vec<String>;

    /// Usage and description of every command the module binds.
    fn all_usage_and_help(&self) -> Vec<(String, String)>;
}

} // verus!
