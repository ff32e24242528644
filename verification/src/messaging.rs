//! The message protocol of a Brain's worker, and the one step that the
//! worker takes per message. A surrounding runtime owns the mailbox and the
//! disk: it hands each message here in arrival order, together with the
//! seconds since the last successful persist, performs the returned persist
//! effect, and sends the returned reply. Because the step takes the Brain
//! exclusively, no two messages for one Brain can ever interleave.

use vstd::prelude::*;

use crate::brain::{generated_by, output_ok, query_words_owned, spec_train, take_at_most, Brain};
use crate::codec::spec_decode;
use crate::pack::zstd_unframe;
use crate::request;
use crate::text::split_ws;

verus! {

/// A front-end's message to one Brain.
pub enum Request {
    Train { data: String },
    Generate { opts: request::Generate },
    Save,
    ForceSave,
}

/// What failed, when something failed.
#[derive(Clone, Copy, Debug, PartialEq, Eq, Structural)]
pub enum ServeError {
    /// No Brain of the requested name exists.
    NotFound,
    /// The generation bounds are malformed.
    ValidationFailure,
    /// The Brain is untrained, or the deadline passed first.
    GenerationEmpty,
    /// The runtime could not write the Brain's durable form.
    PersistenceFailure,
}

/// The worker's reply.
pub enum Response {
    Generated { data: String },
    Error { error: ServeError },
    Nothing,
}

/// What the runtime must do to the disk after a step.
pub enum Effect {
    /// Nothing to write.
    Keep,
    /// Write these bytes as the Brain's durable form.
    Persist { bytes: Vec<u8> },
}

/// Seconds that must pass between two unforced persists.
pub const SAVE_INTERVAL_SECS: u64 = 5 * 60;

/// Seconds one generation may take before it gives up.
pub const GENERATE_TIMEOUT_SECS: u64 = 5;

/// The bytes are the given model's durable form: a zstd frame whose payload
/// decodes to exactly that model.
pub open spec fn durable_form_of(bytes: Seq<u8>, b: crate::brain::BrainView) -> bool {
    &&& zstd_unframe(bytes) is Some
    &&& spec_decode(zstd_unframe(bytes).unwrap()) == Some(b)
}

/// One worker step: applies a message to the Brain it exclusively owns and
/// says what to reply and whether to persist. Training mutates the Brain
/// exactly as `spec_train` says and is acknowledged; generation never mutates
/// it and always answers with text or a typed error; a `Save` within the
/// interval is a no-op acknowledgement, while a due `Save` and every
/// `ForceSave` persist the Brain's durable form.
pub fn handle_message(brain: &mut Brain, msg: &Request, since_save_secs: u64) -> (r: (
    Response,
    Effect,
))
    requires
        old(brain).inv(),
    ensures
        final(brain).inv(),
        match msg {
            Request::Train { data } => {
                &&& final(brain)@ == spec_train(old(brain)@, split_ws(data@))
                &&& r.0 is Nothing
                &&& r.1 is Keep
            },
            Request::Generate { opts } => {
                &&& final(brain)@ == old(brain)@
                &&& r.1 is Keep
                &&& (opts.min < 1 || opts.min > opts.max) <==> r.0 == (Response::Error {
                    error: ServeError::ValidationFailure,
                })
                &&& opts.min >= 1 && opts.min <= opts.max ==> (r.0 is Generated || r.0 == (
                Response::Error { error: ServeError::GenerationEmpty }))
                &&& old(brain)@.head.len() == 0 && opts.min >= 1 && opts.min <= opts.max ==> r.0
                    == (Response::Error { error: ServeError::GenerationEmpty })
                &&& (r.0 matches Response::Generated { data } ==> exists|ws: Seq<Seq<char>>|
                    {
                        &&& generated_by(old(brain)@, query_words_owned(opts.query), ws)
                        &&& output_ok(old(brain)@, query_words_owned(opts.query), ws)
                        &&& ws.len() >= opts.min
                        &&& opts.min <= take_at_most(ws, opts.max as int).len() <= opts.max
                        &&& data@ == crate::text::join_sep(take_at_most(ws, opts.max as int), ' ')
                    })
            },
            Request::Save => {
                &&& final(brain)@ == old(brain)@
                &&& r.0 is Nothing
                &&& since_save_secs < SAVE_INTERVAL_SECS ==> r.1 is Keep
                &&& since_save_secs >= SAVE_INTERVAL_SECS ==> (r.1 matches Effect::Persist {
                    bytes,
                } && durable_form_of(bytes@, old(brain)@))
            },
            Request::ForceSave => {
                &&& final(brain)@ == old(brain)@
                &&& r.0 is Nothing
                &&& (r.1 matches Effect::Persist { bytes } && durable_form_of(
                    bytes@,
                    old(brain)@,
                ))
            },
        },
{
    match msg {
        Request::Train { data } => {
            brain.train(data.as_str());
            (Response::Nothing, Effect::Keep)
        },
        Request::Generate { opts } => {
            if opts.min < 1 || opts.min > opts.max {
                return (Response::Error { error: ServeError::ValidationFailure }, Effect::Keep);
            }
            let rng = crate::rng::rng_new();
            let timeout = crate::clock::seconds(GENERATE_TIMEOUT_SECS);
            let query: Option<&str> = match &opts.query {
                Some(q) => Some(q.as_str()),
                None => None,
            };
            proof {
                assert(crate::brain::query_words(query) == query_words_owned(opts.query));
            }
            match brain.generate(&rng, opts.min, opts.max, query, timeout) {
                Some(data) => (Response::Generated { data }, Effect::Keep),
                None => (Response::Error { error: ServeError::GenerationEmpty }, Effect::Keep),
            }
        },
        Request::Save => {
            if since_save_secs < SAVE_INTERVAL_SECS {
                return (Response::Nothing, Effect::Keep);
            }
            let bytes = brain.to_packed();
            (Response::Nothing, Effect::Persist { bytes })
        },
        Request::ForceSave => {
            let bytes = brain.to_packed();
            (Response::Nothing, Effect::Persist { bytes })
        },
    }
}

/// The name-to-handle registry callers route requests through. The runtime
/// keeps one, locked only around lookup and insert.
pub struct Registry<H> {
    entries: Vec<(String, H)>,
}

impl<H> Registry<H> {
    /// The registered handle of each name.
    pub closed spec fn view(&self) -> Map<Seq<char>, H> {
        Self::entries_view(self.entries@)
    }

    spec fn entries_view(es: Seq<(String, H)>) -> Map<Seq<char>, H>
        decreases es.len(),
    {
        if es.len() == 0 {
            Map::empty()
        } else {
            Self::entries_view(es.drop_last()).insert(es.last().0@, es.last().1)
        }
    }

    /// An empty registry.
    pub fn new() -> (r: Self)
        ensures
            r@ =~= Map::<Seq<char>, H>::empty(),
    {
        Registry { entries: Vec::new() }
    }

    /// Registers `handle` under `name`, replacing any earlier handle.
    pub fn insert(&mut self, name: String, handle: H)
        ensures
            final(self)@ == old(self)@.insert(name@, handle),
    {
        let ghost es = self.entries@;
        self.entries.push((name, handle));
        proof {
            assert(self.entries@.drop_last() =~= es);
        }
    }

    /// The handle registered under `name`, if any.
    pub fn lookup(&self, name: &str) -> (r: Option<&H>)
        ensures
            r is Some <==> self@.dom().contains(name@),
            r is Some ==> *r.unwrap() == self@[name@],
    {
        let n = self.entries.len();
        let mut i: usize = n;
        proof {
            assert(self.entries@.take(n as int) =~= self.entries@);
        }
        while i > 0
            invariant
                0 <= i <= n,
                n == self.entries@.len(),
                Self::entries_view(self.entries@.take(i as int)).dom().contains(name@)
                    <==> self@.dom().contains(name@),
                Self::entries_view(self.entries@.take(i as int)).dom().contains(name@)
                    ==> Self::entries_view(self.entries@.take(i as int))[name@] == self@[name@],
            decreases i,
        {
            i = i - 1;
            let e = &self.entries[i];
            proof {
                assert(self.entries@.take(i as int + 1).drop_last() =~= self.entries@.take(
                    i as int,
                ));
                assert(self.entries@.take(i as int + 1).last() == self.entries@[i as int]);
            }
            if crate::text::str_equal(e.0.as_str(), name) {
                return Some(&e.1);
            }
        }
        proof {
            assert(self.entries@.take(0) =~= Seq::<(String, H)>::empty());
        }
        None
    }
}

} // verus!
