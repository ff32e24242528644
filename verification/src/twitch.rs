//! The chat service's data as plain values: streams, emotes, credentials.
//! The HTTP calls that fill them live with the runtime; here are the types
//! and the emote lookup table.

use vstd::prelude::*;

use crate::args::{pair_lookup, pairs_view};
use crate::text::str_equal;

verus! {

/// One page of listed data with its URL template.
pub struct Data<T> {
    pub data: Vec<T>,
    pub template: String,
}

/// One live stream.
pub struct Stream {
    pub id: u64,
    pub user_id: u64,
    pub user_name: String,
    pub game_id: u64,
    pub title: String,
    pub viewer_count: u64,
    /// When the stream started, as seconds since the epoch.
    pub started_at: u64,
}

/// One emote.
pub struct Emote {
    pub id: String,
    pub name: String,
}

/// The emote lookup table: by name, by id, and the set of names.
pub struct EmoteMap {
    name_to_id: Vec<(String, String)>,
    id_to_name: Vec<(String, String)>,
    names: Vec<String>,
}

/// The two directions of the table, as pair lists.
pub struct EmoteMapView {
    pub name_to_id: Seq<(Seq<char>, Seq<char>)>,
    pub id_to_name: Seq<(Seq<char>, Seq<char>)>,
    pub names: Seq<Seq<char>>,
}

impl View for EmoteMap {
    type V = EmoteMapView;

    closed spec fn view(&self) -> EmoteMapView {
        EmoteMapView {
            name_to_id: pairs_view(self.name_to_id@),
            id_to_name: pairs_view(self.id_to_name@),
            names: crate::text::words_view(self.names@),
        }
    }
}

impl Default for EmoteMap {
    /// An empty table.
    fn default() -> (r: Self)
        ensures
            r@.name_to_id =~= Seq::<(Seq<char>, Seq<char>)>::empty(),
            r@.id_to_name =~= Seq::<(Seq<char>, Seq<char>)>::empty(),
            r@.names =~= Seq::<Seq<char>>::empty(),
    {
        let r = EmoteMap { name_to_id: Vec::new(), id_to_name: Vec::new(), names: Vec::new() };
        proof {
            assert(r@.name_to_id =~= Seq::<(Seq<char>, Seq<char>)>::empty());
            assert(r@.id_to_name =~= Seq::<(Seq<char>, Seq<char>)>::empty());
            assert(r@.names =~= Seq::<Seq<char>>::empty());
        }
        r
    }
}

impl EmoteMap {
    /// This table with the given id-and-name pairs added, both directions.
    pub fn with_emotes(self, emotes: &Vec<(String, String)>) -> (r: Self)
        ensures
            r@.name_to_id.len() == self@.name_to_id.len() + emotes@.len(),
            r@.id_to_name.len() == self@.id_to_name.len() + emotes@.len(),
            r@.names.len() == self@.names.len() + emotes@.len(),
            forall|k: int|
                0 <= k < emotes@.len() ==> {
                    &&& (#[trigger] r@.name_to_id[self@.name_to_id.len() + k]) == (
                        emotes@[k].1@,
                        emotes@[k].0@,
                    )
                    &&& r@.id_to_name[self@.id_to_name.len() + k] == (
                        emotes@[k].0@,
                        emotes@[k].1@,
                    )
                    &&& r@.names[self@.names.len() + k] == emotes@[k].1@
                },
            forall|k: int|
                0 <= k < self@.name_to_id.len() ==> (#[trigger] r@.name_to_id[k])
                    == self@.name_to_id[k],
            forall|k: int|
                0 <= k < self@.id_to_name.len() ==> (#[trigger] r@.id_to_name[k])
                    == self@.id_to_name[k],
            forall|k: int| 0 <= k < self@.names.len() ==> (#[trigger] r@.names[k]) == self@.names[k],
    {
        let mut this = self;
        let n = emotes.len();
        let mut i: usize = 0;
        while i < n
            invariant
                0 <= i <= n,
                n == emotes@.len(),
                this@.name_to_id.len() == self@.name_to_id.len() + i,
                this@.id_to_name.len() == self@.id_to_name.len() + i,
                this@.names.len() == self@.names.len() + i,
                forall|k: int|
                    0 <= k < i ==> {
                        &&& (#[trigger] this@.name_to_id[self@.name_to_id.len() + k]) == (
                            emotes@[k].1@,
                            emotes@[k].0@,
                        )
                        &&& this@.id_to_name[self@.id_to_name.len() + k] == (
                            emotes@[k].0@,
                            emotes@[k].1@,
                        )
                        &&& this@.names[self@.names.len() + k] == emotes@[k].1@
                    },
                forall|k: int|
                    0 <= k < self@.name_to_id.len() ==> (#[trigger] this@.name_to_id[k])
                        == self@.name_to_id[k],
                forall|k: int|
                    0 <= k < self@.id_to_name.len() ==> (#[trigger] this@.id_to_name[k])
                        == self@.id_to_name[k],
                forall|k: int|
                    0 <= k < self@.names.len() ==> (#[trigger] this@.names[k]) == self@.names[k],
            decreases n - i,
        {
            let id = emotes[i].0.clone();
            let name = emotes[i].1.clone();
            let ghost before = this@;
            this.name_to_id.push((name.clone(), id.clone()));
            this.id_to_name.push((id, name.clone()));
            this.names.push(name);
            proof {
                assert(this@.name_to_id =~= before.name_to_id.push(
                    (emotes@[i as int].1@, emotes@[i as int].0@),
                ));
                assert(this@.id_to_name =~= before.id_to_name.push(
                    (emotes@[i as int].0@, emotes@[i as int].1@),
                ));
                assert(this@.names =~= before.names.push(emotes@[i as int].1@));
            }
            i = i + 1;
        }
        this
    }

    /// The name of the emote with this id.
    pub fn get_name(&self, id: &str) -> (r: Option<&str>)
        ensures
            r is Some <==> pair_lookup(self@.id_to_name, id@) is Some,
            r is Some ==> r.unwrap()@ == pair_lookup(self@.id_to_name, id@).unwrap(),
    {
        lookup_pair(&self.id_to_name, id)
    }

    /// The id of the emote with this name.
    pub fn get_id(&self, name: &str) -> (r: Option<&str>)
        ensures
            r is Some <==> pair_lookup(self@.name_to_id, name@) is Some,
            r is Some ==> r.unwrap()@ == pair_lookup(self@.name_to_id, name@).unwrap(),
    {
        lookup_pair(&self.name_to_id, name)
    }

    /// Whether an emote of this name is known.
    pub fn has(&self, name: &str) -> (r: bool)
        ensures
            r == (pair_lookup(self@.name_to_id, name@) is Some),
    {
        match self.get_id(name) {
            Some(_) => true,
            None => false,
        }
    }

    /// Every known emote name.
    pub fn names(&self) -> (r: &Vec<String>)
        ensures
            crate::text::words_view(r@) == self@.names,
    {
        &self.names
    }
}

/// The value of the first pair with this key.
fn lookup_pair<'a>(ps: &'a Vec<(String, String)>, key: &str) -> (r: Option<&'a str>)
    ensures
        r is Some <==> pair_lookup(pairs_view(ps@), key@) is Some,
        r is Some ==> r.unwrap()@ == pair_lookup(pairs_view(ps@), key@).unwrap(),
{
    let n = ps.len();
    let mut i: usize = 0;
    proof {
        assert(pairs_view(ps@).skip(0) =~= pairs_view(ps@));
    }
    while i < n
        invariant
            0 <= i <= n,
            n == ps@.len(),
            pair_lookup(pairs_view(ps@), key@) == pair_lookup(
                pairs_view(ps@).skip(i as int),
                key@,
            ),
        decreases n - i,
    {
        proof {
            assert(pairs_view(ps@).skip(i as int).first() == pairs_view(ps@)[i as int]);
            assert(pairs_view(ps@).skip(i as int).drop_first() =~= pairs_view(ps@).skip(
                i as int + 1,
            ));
        }
        if str_equal(ps[i].0.as_str(), key) {
            return Some(ps[i].1.as_str());
        }
        i = i + 1;
    }
    proof {
        assert(pairs_view(ps@).skip(n as int) =~= Seq::<(Seq<char>, Seq<char>)>::empty());
    }
    None
}

/// The service's issued token, with the credentials it came from.
pub struct OAuth {
    access_token: String,
    refresh_token: Option<String>,
    expires_in: u64,
    token_type: String,
    client_id: String,
    bearer_token: String,
}

impl OAuth {
    /// An issued token under the client it was issued to. The runtime builds
    /// this from the token endpoint's reply.
    pub fn issued(
        access_token: String,
        refresh_token: Option<String>,
        expires_in: u64,
        token_type: String,
        client_id: String,
        bearer_token: String,
    ) -> (r: OAuth)
        ensures
            r.token()@ == access_token@,
            r.client_id()@ == client_id@,
            r.bearer()@ == bearer_token@,
    {
        OAuth { access_token, refresh_token, expires_in, token_type, client_id, bearer_token }
    }

    pub closed spec fn token(&self) -> &String {
        &self.access_token
    }

    pub closed spec fn client_id(&self) -> &String {
        &self.client_id
    }

    pub closed spec fn bearer(&self) -> &String {
        &self.bearer_token
    }

    /// The issued access token itself.
    pub fn get_access_token(&self) -> (r: &str)
        ensures
            r@ == self.token()@,
    {
        self.access_token.as_str()
    }

    /// The client the token was issued to.
    pub fn get_client_id(&self) -> (r: &str)
        ensures
            r@ == self.client_id()@,
    {
        self.client_id.as_str()
    }

    /// The ready-to-send bearer header value.
    pub fn get_bearer_token(&self) -> (r: &str)
        ensures
            r@ == self.bearer()@,
    {
        self.bearer_token.as_str()
    }
}

} // verus!
