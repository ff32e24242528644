//! The user-defined chat commands: named response bodies with optional
//! aliases. Command names are unique; an alias points its own name at an
//! existing command's name.

use vstd::prelude::*;

use crate::text::str_equal;

verus! {

/// One user-defined command.
pub struct Command {
    pub name: String,
    pub body: String,
    pub author: String,
    pub uses: usize,
}

/// The mathematical value of a command.
pub struct CommandView {
    pub name: Seq<char>,
    pub body: Seq<char>,
    pub author: Seq<char>,
    pub uses: nat,
}

impl View for Command {
    type V = CommandView;

    open spec fn view(&self) -> CommandView {
        CommandView { name: self.name@, body: self.body@, author: self.author@, uses: self.uses as nat }
    }
}

impl Command {
    /// A fresh command, never used.
    pub fn new(name: String, body: String, author: String) -> (r: Command)
        ensures
            r@ == (CommandView { name: name@, body: body@, author: author@, uses: 0 }),
    {
        Command { name, body, author, uses: 0 }
    }
}

/// The mathematical value of the whole store.
pub struct StoreView {
    pub commands: Seq<CommandView>,
    pub aliases: Seq<(Seq<char>, Seq<char>)>,
}

/// The views of a vector of commands, command by command.
pub open spec fn cmds_view(cs: Seq<Command>) -> Seq<CommandView> {
    cs.map_values(|c: Command| c@)
}

/// The views of the alias pairs.
pub open spec fn aliases_view(ps: Seq<(String, String)>) -> Seq<(Seq<char>, Seq<char>)> {
    ps.map_values(|p: (String, String)| (p.0@, p.1@))
}

/// Whether some command bears this name.
pub open spec fn has_command(cs: Seq<CommandView>, name: Seq<char>) -> bool {
    exists|i: int| 0 <= i < cs.len() && (#[trigger] cs[i]).name == name
}

/// The command bearing this name (well defined while names are unique).
pub open spec fn command_named(cs: Seq<CommandView>, name: Seq<char>) -> CommandView {
    cs[choose|i: int| 0 <= i < cs.len() && (#[trigger] cs[i]).name == name]
}

/// Whether some alias is sourced at this name.
pub open spec fn alias_sourced(ps: Seq<(Seq<char>, Seq<char>)>, name: Seq<char>) -> bool {
    exists|i: int| 0 <= i < ps.len() && (#[trigger] ps[i]).0 == name
}

/// The source of the first alias that points at `name`, if any.
pub open spec fn alias_source(ps: Seq<(Seq<char>, Seq<char>)>, name: Seq<char>) -> Option<
    Seq<char>,
>
    decreases ps.len(),
{
    if ps.len() == 0 {
        Option::None
    } else if ps.first().1 == name {
        Option::Some(ps.first().0)
    } else {
        alias_source(ps.drop_first(), name)
    }
}

/// The command name a lookup of `name` lands on: `name` itself when it is a
/// command, else the source of the first alias pointing at it.
pub open spec fn canonical(v: StoreView, name: Seq<char>) -> Option<Seq<char>> {
    if has_command(v.commands, name) {
        Option::Some(name)
    } else {
        alias_source(v.aliases, name)
    }
}

/// The command a lookup of `name` finds, if any.
pub open spec fn resolved(v: StoreView, name: Seq<char>) -> Option<CommandView> {
    match canonical(v, name) {
        Option::None => Option::None,
        Option::Some(n) => if has_command(v.commands, n) {
            Option::Some(command_named(v.commands, n))
        } else {
            Option::None
        },
    }
}

/// The store of user-defined commands and their aliases.
pub struct UserDefinedState {
    commands: Vec<Command>,
    aliases: Vec<(String, String)>,
}

impl View for UserDefinedState {
    type V = StoreView;

    closed spec fn view(&self) -> StoreView {
        StoreView { commands: cmds_view(self.commands@), aliases: aliases_view(self.aliases@) }
    }
}

impl Default for UserDefinedState {
    /// An empty store.
    fn default() -> (r: Self)
        ensures
            r.inv(),
            r@.commands =~= Seq::<CommandView>::empty(),
            r@.aliases =~= Seq::<(Seq<char>, Seq<char>)>::empty(),
    {
        let r = UserDefinedState { commands: Vec::new(), aliases: Vec::new() };
        proof {
            assert(r@.commands =~= Seq::<CommandView>::empty());
            assert(r@.aliases =~= Seq::<(Seq<char>, Seq<char>)>::empty());
        }
        r
    }
}

impl UserDefinedState {
    /// Command names never repeat.
    pub open spec fn inv(&self) -> bool {
        forall|i: int, j: int|
            0 <= i < j < self@.commands.len() ==> (#[trigger] self@.commands[i]).name != (
            #[trigger] self@.commands[j]).name
    }

    /// The index of the command named `name`, by scan.
    fn find_command(&self, name: &str) -> (r: Option<usize>)
        ensures
            r is Some <==> has_command(self@.commands, name@),
            r is Some ==> r.unwrap() < self@.commands.len() && self@.commands[
                r.unwrap() as int].name == name@,
    {
        let n = self.commands.len();
        let mut i: usize = 0;
        while i < n
            invariant
                0 <= i <= n,
                n == self@.commands.len(),
                n == self.commands@.len(),
                forall|k: int| 0 <= k < i ==> (#[trigger] self@.commands[k]).name != name@,
            decreases n - i,
        {
            if str_equal(self.commands[i].name.as_str(), name) {
                proof {
                    assert(self@.commands[i as int].name == name@);
                }
                return Some(i);
            }
            i = i + 1;
        }
        None
    }

    /// Adds a command, unless its name is already a command or sources an
    /// alias. Returns whether it was added.
    pub fn insert(&mut self, command: Command) -> (r: bool)
        requires
            old(self).inv(),
        ensures
            final(self).inv(),
            r == !(has_command(old(self)@.commands, command@.name) || alias_sourced(
                old(self)@.aliases,
                command@.name,
            )),
            r ==> final(self)@.commands == old(self)@.commands.push(command@) && final(self)@.aliases
                == old(self)@.aliases,
            !r ==> final(self)@ == old(self)@,
    {
        if let Some(_) = self.find_command(command.name.as_str()) {
            return false;
        }
        let n = self.aliases.len();
        let mut i: usize = 0;
        while i < n
            invariant
                0 <= i <= n,
                n == self.aliases@.len(),
                self == old(self),
                old(self).inv(),
                forall|k: int| 0 <= k < i ==> (#[trigger] aliases_view(self.aliases@)[k]).0
                    != command@.name,
            decreases n - i,
        {
            if str_equal(self.aliases[i].0.as_str(), command.name.as_str()) {
                proof {
                    assert(aliases_view(self.aliases@)[i as int].0 == command@.name);
                }
                return false;
            }
            i = i + 1;
        }
        let ghost cs = cmds_view(self.commands@);
        self.commands.push(command);
        proof {
            assert(cmds_view(self.commands@) =~= cs.push(self.commands@.last()@));
            assert forall|a: int, b: int| 0 <= a < b < self@.commands.len() implies (
            #[trigger] self@.commands[a]).name != (#[trigger] self@.commands[b]).name by {
                if b < cs.len() {
                    assert(self@.commands[a] == cs[a] && self@.commands[b] == cs[b]);
                } else {
                    assert(self@.commands[a] == cs[a]);
                    assert(cs[a].name != self@.commands[b].name);
                }
            }
        }
        true
    }

    /// Removes the command of this exact name and every alias that mentions
    /// the name on either side. Returns whether a command was removed.
    pub fn remove(&mut self, name: &str) -> (r: bool)
        requires
            old(self).inv(),
        ensures
            final(self).inv(),
            r == has_command(old(self)@.commands, name@),
            !has_command(final(self)@.commands, name@),
            final(self)@.aliases == drop_mentions(old(self)@.aliases, name@),
            forall|m: Seq<char>|
                m != name@ ==> (has_command(final(self)@.commands, m) == has_command(
                    old(self)@.commands,
                    m,
                ) && (has_command(old(self)@.commands, m) ==> command_named(
                    final(self)@.commands,
                    m,
                ) == command_named(old(self)@.commands, m))),
    {
        let ghost ps = aliases_view(self.aliases@);
        let mut kept: Vec<(String, String)> = Vec::new();
        let n = self.aliases.len();
        let mut i: usize = 0;
        proof {
            assert(aliases_view(kept@) =~= drop_mentions(ps.take(0), name@));
        }
        while i < n
            invariant
                0 <= i <= n,
                n == self.aliases@.len(),
                self.commands@ == old(self).commands@,
                old(self).inv(),
                ps == aliases_view(self.aliases@),
                aliases_view(kept@) == drop_mentions(ps.take(i as int), name@),
            decreases n - i,
        {
            let keep = !str_equal(self.aliases[i].0.as_str(), name) && !str_equal(
                self.aliases[i].1.as_str(),
                name,
            );
            let ghost kv = aliases_view(kept@);
            if keep {
                let pair = (self.aliases[i].0.clone(), self.aliases[i].1.clone());
                kept.push(pair);
                proof {
                    assert(aliases_view(kept@) =~= kv.push(ps[i as int]));
                }
            }
            proof {
                lemma_drop_mentions_take(ps, name@, i as int);
                assert(aliases_view(kept@) =~= drop_mentions(ps.take(i as int + 1), name@));
            }
            i = i + 1;
        }
        proof {
            assert(ps.take(n as int) =~= ps);
        }
        self.aliases = kept;
        proof {
            let cs0 = cmds_view(self.commands@);
            assert(self.commands@ == old(self).commands@);
            assert(old(self)@.commands == cmds_view(old(self).commands@));
            assert(cs0 == old(self)@.commands);
            assert forall|a: int, b: int| 0 <= a < b < cs0.len() implies (#[trigger] cs0[a]).name
                != (#[trigger] cs0[b]).name by {
                assert(cs0[a] == old(self)@.commands[a]);
                assert(cs0[b] == old(self)@.commands[b]);
            }
        }
        match self.find_command(name) {
            Some(idx) => {
                let ghost cs = cmds_view(self.commands@);
                self.commands.remove(idx);
                proof {
                    assert(cmds_view(self.commands@) =~= cs.remove(idx as int));
                    lemma_remove_named(cs, idx as int, name@);
                }
                true
            },
            None => false,
        }
    }

    /// Changes the body of the command a lookup of `name` lands on. Returns
    /// whether one was found.
    pub fn update(&mut self, name: &str, body: String) -> (r: bool)
        requires
            old(self).inv(),
        ensures
            final(self).inv(),
            r == (resolved(old(self)@, name@) is Some),
            final(self)@.aliases == old(self)@.aliases,
            !r ==> final(self)@ == old(self)@,
            r ==> exists|i: int|
                {
                    &&& 0 <= i < old(self)@.commands.len()
                    &&& (#[trigger] old(self)@.commands[i]).name == canonical(
                        old(self)@,
                        name@,
                    ).unwrap()
                    &&& final(self)@.commands == old(self)@.commands.update(
                        i,
                        CommandView { body: body@, ..old(self)@.commands[i] },
                    )
                },
    {
        let target = match self.find_name_index(name) {
            Some(t) => t,
            None => {
                return false;
            },
        };
        let ghost cs = cmds_view(self.commands@);
        let new_cmd = Command {
            name: self.commands[target].name.clone(),
            body,
            author: self.commands[target].author.clone(),
            uses: self.commands[target].uses,
        };
        self.commands[target] = new_cmd;
        proof {
            assert(cmds_view(self.commands@) =~= cs.update(
                target as int,
                CommandView { body: self.commands@[target as int].body@, ..cs[target as int] },
            ));
            assert forall|a: int, b: int| 0 <= a < b < self@.commands.len() implies (
            #[trigger] self@.commands[a]).name != (#[trigger] self@.commands[b]).name by {
                assert(self@.commands[a].name == cs[a].name);
                assert(self@.commands[b].name == cs[b].name);
            }
        }
        true
    }

    /// Counts one use of the command a lookup of `name` lands on.
    pub fn count_use(&mut self, name: &str) -> (r: bool)
        requires
            old(self).inv(),
        ensures
            final(self).inv(),
            r == (resolved(old(self)@, name@) is Some),
            final(self)@.aliases == old(self)@.aliases,
            !r ==> final(self)@ == old(self)@,
    {
        let target = match self.find_name_index(name) {
            Some(t) => t,
            None => {
                return false;
            },
        };
        let ghost cs = cmds_view(self.commands@);
        let c = self.commands[target].uses;
        let new_cmd = Command {
            name: self.commands[target].name.clone(),
            body: self.commands[target].body.clone(),
            author: self.commands[target].author.clone(),
            uses: c.saturating_add(1),
        };
        self.commands[target] = new_cmd;
        proof {
            assert forall|a: int, b: int| 0 <= a < b < self@.commands.len() implies (
            #[trigger] self@.commands[a]).name != (#[trigger] self@.commands[b]).name by {
                assert(self@.commands[a].name == cs[a].name);
                assert(self@.commands[b].name == cs[b].name);
            }
        }
        true
    }

    /// The index of the command a lookup of `name` lands on.
    fn find_name_index(&self, name: &str) -> (r: Option<usize>)
        requires
            self.inv(),
        ensures
            r is Some <==> resolved(self@, name@) is Some,
            r is Some ==> r.unwrap() < self@.commands.len() && self@.commands[r.unwrap() as int]
                == resolved(self@, name@).unwrap() && self@.commands[r.unwrap() as int].name
                == canonical(self@, name@).unwrap(),
    {
        if let Some(i) = self.find_command(name) {
            proof {
                lemma_command_named(self@.commands, i as int);
            }
            return Some(i);
        }
        // follow the first alias pointing at the name
        let n = self.aliases.len();
        let mut i: usize = 0;
        proof {
            assert(aliases_view(self.aliases@).skip(0) =~= aliases_view(self.aliases@));
        }
        while i < n
            invariant
                0 <= i <= n,
                n == self.aliases@.len(),
                self.inv(),
                !has_command(self@.commands, name@),
                alias_source(self@.aliases, name@) == alias_source(
                    aliases_view(self.aliases@).skip(i as int),
                    name@,
                ),
            decreases n - i,
        {
            proof {
                assert(aliases_view(self.aliases@).skip(i as int).first() == aliases_view(
                    self.aliases@,
                )[i as int]);
                assert(aliases_view(self.aliases@).skip(i as int).drop_first() =~= aliases_view(
                    self.aliases@,
                ).skip(i as int + 1));
            }
            if str_equal(self.aliases[i].1.as_str(), name) {
                let src = match self.find_command(self.aliases[i].0.as_str()) {
                    Some(k) => {
                        proof {
                            lemma_command_named(self@.commands, k as int);
                        }
                        Some(k)
                    },
                    None => None,
                };
                return src;
            }
            i = i + 1;
        }
        proof {
            assert(aliases_view(self.aliases@).skip(n as int) =~= Seq::<
                (Seq<char>, Seq<char>),
            >::empty());
        }
        None
    }

    /// Points the fresh name `to` at the existing command (or alias) `from`:
    /// true exactly when `from` resolves and `to` does not yet. The pair is
    /// appended, unless some stored pair already matches it on exactly one
    /// side, which counts as success without change.
    pub fn alias(&mut self, from: &str, to: &str) -> (r: bool)
        requires
            old(self).inv(),
        ensures
            final(self).inv(),
            final(self)@.commands == old(self)@.commands,
            r == (resolved(old(self)@, from@) is Some && resolved(old(self)@, to@) is None),
            !r ==> final(self)@ == old(self)@,
            r ==> final(self)@.aliases == if half_linked(old(self)@.aliases, from@, to@) {
                old(self)@.aliases
            } else {
                old(self)@.aliases.push((from@, to@))
            },
    {
        if !self.has(from) {
            return false;
        }
        if self.has(to) {
            return false;
        }
        let n = self.aliases.len();
        let mut i: usize = 0;
        while i < n
            invariant
                0 <= i <= n,
                n == self.aliases@.len(),
                self == old(self),
                old(self).inv(),
                resolved(old(self)@, from@) is Some,
                resolved(old(self)@, to@) is None,
                forall|k: int|
                    0 <= k < i ==> ((#[trigger] aliases_view(self.aliases@)[k]).0 == from@) == (
                    aliases_view(self.aliases@)[k].1 == to@),
            decreases n - i,
        {
            let k_eq = str_equal(self.aliases[i].0.as_str(), from);
            let v_eq = str_equal(self.aliases[i].1.as_str(), to);
            if (k_eq && !v_eq) || (!k_eq && v_eq) {
                proof {
                    assert((aliases_view(self.aliases@)[i as int].0 == from@) != (aliases_view(
                        self.aliases@,
                    )[i as int].1 == to@));
                    assert(half_linked(old(self)@.aliases, from@, to@));
                }
                return true;
            }
            i = i + 1;
        }
        proof {
            assert(!half_linked(old(self)@.aliases, from@, to@));
        }
        let ghost ps = aliases_view(self.aliases@);
        self.aliases.push((from.to_owned(), to.to_owned()));
        proof {
            assert(aliases_view(self.aliases@) =~= ps.push((from@, to@)));
        }
        true
    }

    /// The command a lookup of `name` lands on, if any.
    pub fn get_by_name(&self, name: &str) -> (r: Option<&Command>)
        requires
            self.inv(),
        ensures
            r is Some <==> resolved(self@, name@) is Some,
            r is Some ==> r.unwrap()@ == resolved(self@, name@).unwrap(),
    {
        match self.find_name_index(name) {
            Some(i) => Some(&self.commands[i]),
            None => None,
        }
    }

    /// The canonical name a lookup of `name` lands on, if any.
    pub fn find_name(&self, name: &str) -> (r: Option<&str>)
        requires
            self.inv(),
        ensures
            r is Some <==> canonical(self@, name@) is Some,
            r is Some ==> r.unwrap()@ == canonical(self@, name@).unwrap(),
    {
        if let Some(i) = self.find_command(name) {
            return Some(self.commands[i].name.as_str());
        }
        let n = self.aliases.len();
        let mut i: usize = 0;
        proof {
            assert(aliases_view(self.aliases@).skip(0) =~= aliases_view(self.aliases@));
        }
        while i < n
            invariant
                0 <= i <= n,
                n == self.aliases@.len(),
                self.inv(),
                !has_command(self@.commands, name@),
                alias_source(self@.aliases, name@) == alias_source(
                    aliases_view(self.aliases@).skip(i as int),
                    name@,
                ),
            decreases n - i,
        {
            proof {
                assert(aliases_view(self.aliases@).skip(i as int).first() == aliases_view(
                    self.aliases@,
                )[i as int]);
                assert(aliases_view(self.aliases@).skip(i as int).drop_first() =~= aliases_view(
                    self.aliases@,
                ).skip(i as int + 1));
            }
            if str_equal(self.aliases[i].1.as_str(), name) {
                return Some(self.aliases[i].0.as_str());
            }
            i = i + 1;
        }
        proof {
            assert(aliases_view(self.aliases@).skip(n as int) =~= Seq::<
                (Seq<char>, Seq<char>),
            >::empty());
        }
        None
    }

    /// Every stored command, in insertion order.
    pub fn get_all(&self) -> (r: &Vec<Command>)
        ensures
            cmds_view(r@) == self@.commands,
    {
        &self.commands
    }

    /// Whether a lookup of `name` would land on a command.
    pub fn has(&self, name: &str) -> (r: bool)
        requires
            self.inv(),
        ensures
            r == (resolved(self@, name@) is Some),
    {
        match self.find_name_index(name) {
            Some(_) => true,
            None => false,
        }
    }
}

/// Whether some stored pair matches the link on exactly one side.
pub open spec fn half_linked(
    ps: Seq<(Seq<char>, Seq<char>)>,
    from: Seq<char>,
    to: Seq<char>,
) -> bool {
    exists|i: int| 0 <= i < ps.len() && (((#[trigger] ps[i]).0 == from) != (ps[i].1 == to))
}

/// The alias pairs with every mention of `name` dropped.
pub open spec fn drop_mentions(ps: Seq<(Seq<char>, Seq<char>)>, name: Seq<char>) -> Seq<
    (Seq<char>, Seq<char>),
>
    decreases ps.len(),
{
    if ps.len() == 0 {
        Seq::empty()
    } else if ps.first().0 == name || ps.first().1 == name {
        drop_mentions(ps.drop_first(), name)
    } else {
        seq![ps.first()] + drop_mentions(ps.drop_first(), name)
    }
}

/// Dropping mentions from one more pair extends the kept pairs at their end.
proof fn lemma_drop_mentions_take(ps: Seq<(Seq<char>, Seq<char>)>, name: Seq<char>, i: int)
    requires
        0 <= i < ps.len(),
    ensures
        drop_mentions(ps.take(i + 1), name) == if ps[i].0 == name || ps[i].1 == name {
            drop_mentions(ps.take(i), name)
        } else {
            drop_mentions(ps.take(i), name).push(ps[i])
        },
    decreases i,
{
    if i == 0 {
        assert(ps.take(0) =~= Seq::<(Seq<char>, Seq<char>)>::empty());
        assert(ps.take(1).first() == ps[0]);
        assert(ps.take(1).drop_first() =~= Seq::<(Seq<char>, Seq<char>)>::empty());
        if !(ps[0].0 == name || ps[0].1 == name) {
            assert(drop_mentions(ps.take(1), name) =~= drop_mentions(ps.take(0), name).push(
                ps[0],
            ));
        }
    } else {
        assert(ps.take(i + 1).first() == ps[0]);
        assert(ps.take(i).first() == ps[0]);
        assert(ps.take(i + 1).drop_first() =~= ps.drop_first().take(i));
        assert(ps.take(i).drop_first() =~= ps.drop_first().take(i - 1));
        assert(ps.drop_first()[i - 1] == ps[i]);
        lemma_drop_mentions_take(ps.drop_first(), name, i - 1);
        if ps[i].0 == name || ps[i].1 == name {
        } else {
            if ps[0].0 == name || ps[0].1 == name {
            } else {
                assert(seq![ps[0]] + drop_mentions(ps.drop_first().take(i - 1), name).push(ps[i])
                    =~= (seq![ps[0]] + drop_mentions(ps.drop_first().take(i - 1), name)).push(
                    ps[i],
                ));
            }
        }
    }
}

/// With unique names, the command found by scan is the command named so.
proof fn lemma_command_named(cs: Seq<CommandView>, i: int)
    requires
        0 <= i < cs.len(),
        forall|a: int, b: int|
            0 <= a < b < cs.len() ==> (#[trigger] cs[a]).name != (#[trigger] cs[b]).name,
    ensures
        has_command(cs, cs[i].name),
        command_named(cs, cs[i].name) == cs[i],
{
    assert(has_command(cs, cs[i].name));
    let j = choose|j: int| 0 <= j < cs.len() && (#[trigger] cs[j]).name == cs[i].name;
    if j != i {
        if j < i {
            assert(cs[j].name != cs[i].name);
        } else {
            assert(cs[i].name != cs[j].name);
        }
    }
}

/// Removing the command of a name leaves every other name's command as it
/// was, and that name gone.
proof fn lemma_remove_named(cs: Seq<CommandView>, idx: int, name: Seq<char>)
    requires
        0 <= idx < cs.len(),
        cs[idx].name == name,
        forall|a: int, b: int|
            0 <= a < b < cs.len() ==> (#[trigger] cs[a]).name != (#[trigger] cs[b]).name,
    ensures
        !has_command(cs.remove(idx), name),
        forall|a: int, b: int|
            0 <= a < b < cs.remove(idx).len() ==> (#[trigger] cs.remove(idx)[a]).name != (
            #[trigger] cs.remove(idx)[b]).name,
        forall|m: Seq<char>|
            m != name ==> (has_command(cs.remove(idx), m) == has_command(cs, m) && (has_command(
                cs,
                m,
            ) ==> command_named(cs.remove(idx), m) == command_named(cs, m))),
{
    let d = cs.remove(idx);
    assert forall|k: int| 0 <= k < d.len() implies (#[trigger] d[k]).name != name by {
        if k < idx {
            assert(d[k] == cs[k]);
        } else {
            assert(d[k] == cs[k + 1]);
        }
    }
    assert forall|a: int, b: int| 0 <= a < b < d.len() implies (#[trigger] d[a]).name != (
    #[trigger] d[b]).name by {
        let a2: int = if a < idx {
            a
        } else {
            a + 1
        };
        let b2: int = if b < idx {
            b
        } else {
            b + 1
        };
        assert(d[a] == cs[a2]);
        assert(d[b] == cs[b2]);
    }
    assert forall|m: Seq<char>| m != name implies (has_command(d, m) == has_command(cs, m) && (
    has_command(cs, m) ==> command_named(d, m) == command_named(cs, m))) by {
        if has_command(cs, m) {
            let i = choose|i: int| 0 <= i < cs.len() && (#[trigger] cs[i]).name == m;
            assert(i != idx);
            let i2: int = if i < idx {
                i
            } else {
                i - 1
            };
            assert(d[i2] == cs[i]);
            assert(has_command(d, m));
            lemma_command_named(cs, i);
            lemma_command_named(d, i2);
        } else {
            if has_command(d, m) {
                let k = choose|k: int| 0 <= k < d.len() && (#[trigger] d[k]).name == m;
                let k2: int = if k < idx {
                    k
                } else {
                    k + 1
                };
                assert(d[k] == cs[k2]);
            }
        }
    }
}

} // verus!
