//! The help registry: every bound command, its usage line and description.

use vstd::prelude::*;

use crate::args::{trim_spec, trim_str};
use crate::respond::Callable;
use crate::text::str_equal;

verus! {

/// One command's help entry.
pub struct HelpCommand {
    pub cmd: String,
    pub usage: Option<String>,
    pub description: String,
}

/// The mathematical value of one entry.
pub struct HelpView {
    pub cmd: Seq<char>,
    pub usage: Option<Seq<char>>,
    pub description: Seq<char>,
}

impl View for HelpCommand {
    type V = HelpView;

    open spec fn view(&self) -> HelpView {
        HelpView {
            cmd: self.cmd@,
            usage: match self.usage {
                Option::Some(ref u) => Option::Some(u@),
                Option::None => Option::None,
            },
            description: self.description@,
        }
    }
}

/// The registry of help entries, in registration order.
pub struct HelpRegistry {
    map: Vec<HelpCommand>,
}

pub open spec fn helps_view(hs: Seq<HelpCommand>) -> Seq<HelpView> {
    hs.map_values(|h: HelpCommand| h@)
}

impl View for HelpRegistry {
    type V = Seq<HelpView>;

    closed spec fn view(&self) -> Seq<HelpView> {
        helps_view(self.map@)
    }
}

/// The first registered entry for a command that carries a usage line; an
/// entry of the same name without one is passed over.
pub open spec fn help_lookup(hs: Seq<HelpView>, cmd: Seq<char>) -> Option<HelpView>
    decreases hs.len(),
{
    if hs.len() == 0 {
        Option::None
    } else if hs.first().cmd == cmd && hs.first().usage is Some {
        Option::Some(hs.first())
    } else {
        help_lookup(hs.drop_first(), cmd)
    }
}

/// How a given usage line is stored: trimmed, and an empty or absent line
/// stored as none.
pub open spec fn stored_usage_chars(u: Seq<char>) -> Option<Seq<char>> {
    if trim_spec(u).len() == 0 {
        Option::None
    } else {
        Option::Some(trim_spec(u))
    }
}

pub open spec fn stored_usage(usage: Option<&str>) -> Option<Seq<char>> {
    match usage {
        Option::Some(u) => stored_usage_chars(u@),
        Option::None => Option::None,
    }
}

/// The registry that a module's usage-and-description pairs build: one entry
/// per pair whose usage line starts with a command name; the name is that
/// first word.
pub open spec fn helps_from(ps: Seq<(Seq<char>, Seq<char>)>) -> Seq<HelpView>
    decreases ps.len(),
{
    if ps.len() == 0 {
        Seq::empty()
    } else {
        let built = helps_from(ps.drop_last());
        let head = head_of_spec(ps.last().0);
        if head.len() == 0 {
            built
        } else {
            built.push(
                HelpView {
                    cmd: head,
                    usage: stored_usage_chars(ps.last().0),
                    description: ps.last().1,
                },
            )
        }
    }
}

impl Default for HelpRegistry {
    /// An empty registry.
    fn default() -> (r: Self)
        ensures
            r@ =~= Seq::<HelpView>::empty(),
    {
        let r = HelpRegistry { map: Vec::new() };
        proof {
            assert(r@ =~= Seq::<HelpView>::empty());
        }
        r
    }
}

impl HelpRegistry {
    /// A registry filled from everything a module binds: one entry per
    /// usage-and-description pair the module answered with, named by the
    /// usage line's first word.
    pub fn create_from(callable: &impl Callable) -> (r: HelpRegistry)
        ensures
            exists|ps: Seq<(Seq<char>, Seq<char>)>| r@ == #[trigger] helps_from(ps),
    {
        let pairs = callable.all_usage_and_help();
        let ghost ps = crate::args::pairs_view(pairs@);
        let mut help = HelpRegistry::default();
        let mut i: usize = 0;
        proof {
            assert(ps.take(0) =~= Seq::<(Seq<char>, Seq<char>)>::empty());
            assert(help@ =~= helps_from(ps.take(0)));
        }
        while i < pairs.len()
            invariant
                0 <= i <= pairs@.len(),
                ps == crate::args::pairs_view(pairs@),
                help@ == helps_from(ps.take(i as int)),
            decreases pairs@.len() - i,
        {
            let usage = &pairs[i].0;
            let desc = &pairs[i].1;
            let head = head_of(usage.as_str());
            proof {
                assert(ps[i as int] == (pairs@[i as int].0@, pairs@[i as int].1@));
                assert(ps.take(i as int + 1).drop_last() =~= ps.take(i as int));
                assert(ps.take(i as int + 1).last() == ps[i as int]);
            }
            let ghost before = help@;
            help = help.with(head.as_str(), desc.as_str(), Some(usage.as_str()));
            proof {
                if head@.len() > 0 {
                    assert(help@.last() == (HelpView {
                        cmd: head_of_spec(ps[i as int].0),
                        usage: stored_usage_chars(ps[i as int].0),
                        description: ps[i as int].1,
                    }));
                    assert(help@ =~= before.push(help@.last()));
                }
                assert(help@ =~= helps_from(ps.take(i as int + 1)));
            }
            i = i + 1;
        }
        proof {
            assert(ps.take(pairs@.len() as int) =~= ps);
            assert(help@ == helps_from(ps));
        }
        help
    }

    /// This registry with one more entry, unless the command name is empty.
    /// The entry stores the name, the description, and the usage line
    /// trimmed, an empty or absent one as none.
    pub fn with(self, cmd: &str, description: &str, usage: Option<&str>) -> (r: HelpRegistry)
        ensures
            cmd@.len() == 0 ==> r@ == self@,
            cmd@.len() > 0 ==> r@.len() == self@.len() + 1 && r@.last() == (HelpView {
                cmd: cmd@,
                usage: stored_usage(usage),
                description: description@,
            }) && (forall|k: int| 0 <= k < self@.len() ==> r@[k] == self@[k]),
    {
        if cmd.unicode_len() == 0 {
            return self;
        }
        let usage_owned: Option<String> = match usage {
            Some(u) => {
                let t = trim_str(u);
                if t.as_str().unicode_len() == 0 {
                    None
                } else {
                    Some(t)
                }
            },
            None => None,
        };
        let entry = HelpCommand {
            cmd: cmd.to_owned(),
            usage: usage_owned,
            description: description.to_owned(),
        };
        proof {
            assert(entry@ == (HelpView {
                cmd: cmd@,
                usage: stored_usage(usage),
                description: description@,
            }));
        }
        let mut this = self;
        let ghost hs = this@;
        this.map.push(entry);
        proof {
            assert(this@ =~= hs.push(this.map@.last()@));
        }
        this
    }

    /// Adds one more entry in place, stored exactly as `with` stores it.
    pub fn add(&mut self, cmd: &str, description: &str, usage: &str)
        ensures
            cmd@.len() == 0 ==> final(self)@ == old(self)@,
            cmd@.len() > 0 ==> final(self)@.len() == old(self)@.len() + 1 && final(self)@.last()
                == (HelpView {
                cmd: cmd@,
                usage: stored_usage(Option::Some(usage)),
                description: description@,
            }) && (forall|k: int| 0 <= k < old(self)@.len() ==> final(self)@[k] == old(self)@[k]),
    {
        let mut taken = HelpRegistry::default();
        std::mem::swap(self, &mut taken);
        let mut result = taken.with(cmd, description, Some(usage));
        std::mem::swap(self, &mut result);
    }

    /// The usage and description of the first entry for `cmd` that carries a
    /// usage line; entries of the name without one are passed over.
    pub fn lookup(&self, cmd: &str) -> (r: Option<(&str, &str)>)
        ensures
            match help_lookup(self@, cmd@) {
                Option::Some(h) => r is Some && h.usage == Option::Some(r.unwrap().0@)
                    && r.unwrap().1@ == h.description,
                Option::None => r is None,
            },
    {
        let n = self.map.len();
        let mut i: usize = 0;
        proof {
            assert(self@.skip(0) =~= self@);
        }
        while i < n
            invariant
                0 <= i <= n,
                n == self.map@.len(),
                help_lookup(self@, cmd@) == help_lookup(self@.skip(i as int), cmd@),
            decreases n - i,
        {
            proof {
                assert(self@.skip(i as int).first() == self@[i as int]);
                assert(self@.skip(i as int).drop_first() =~= self@.skip(i as int + 1));
            }
            if str_equal(self.map[i].cmd.as_str(), cmd) {
                match &self.map[i].usage {
                    Some(u) => {
                        return Some((u.as_str(), self.map[i].description.as_str()));
                    },
                    None => {
                        // a matching entry without a usage line is passed over
                    },
                }
            }
            i = i + 1;
        }
        proof {
            assert(self@.skip(n as int) =~= Seq::<HelpView>::empty());
        }
        None
    }

    /// Every registered command name, in order.
    pub fn get_all_commands(&self) -> (r: Vec<&str>)
        ensures
            r@.len() == self@.len(),
            forall|k: int| 0 <= k < r@.len() ==> (#[trigger] r@[k])@ == self@[k].cmd,
    {
        let n = self.map.len();
        let mut r: Vec<&str> = Vec::new();
        let mut i: usize = 0;
        while i < n
            invariant
                0 <= i <= n,
                n == self.map@.len(),
                r@.len() == i,
                forall|k: int| 0 <= k < i ==> (#[trigger] r@[k])@ == self@[k].cmd,
            decreases n - i,
        {
            r.push(self.map[i].cmd.as_str());
            i = i + 1;
        }
        r
    }
}

/// The text up to the first space.
pub fn head_of(s: &str) -> (r: String)
    ensures
        r@ == head_of_spec(s@),
{
    let n = s.unicode_len();
    let mut i: usize = 0;
    while i < n
        invariant
            0 <= i <= n,
            n == s@.len(),
            forall|k: int| 0 <= k < i ==> s@[k] != ' ',
        decreases n - i,
    {
        if s.get_char(i) == ' ' {
            proof {
                lemma_head_of(s@, i as int);
            }
            return s.substring_char(0, i).to_owned();
        }
        i = i + 1;
    }
    proof {
        lemma_head_of(s@, n as int);
        assert(s@.take(n as int) =~= s@);
    }
    s.to_owned()
}

/// The characters up to the first space.
pub open spec fn head_of_spec(s: Seq<char>) -> Seq<char>
    decreases s.len(),
{
    if s.len() == 0 {
        Seq::empty()
    } else if s.first() == ' ' {
        Seq::empty()
    } else {
        seq![s.first()] + head_of_spec(s.drop_first())
    }
}

proof fn lemma_head_of(s: Seq<char>, m: int)
    requires
        0 <= m <= s.len(),
        forall|k: int| 0 <= k < m ==> s[k] != ' ',
        m < s.len() ==> s[m] == ' ',
    ensures
        head_of_spec(s) == s.take(m),
    decreases s.len(),
{
    if s.len() == 0 {
        assert(s.take(m) =~= Seq::<char>::empty());
    } else if s.first() == ' ' {
        assert(m == 0);
        assert(s.take(0) =~= Seq::<char>::empty());
    } else {
        assert(m >= 1);
        assert forall|k: int| 0 <= k < m - 1 implies s.drop_first()[k] != ' ' by {
            assert(s.drop_first()[k] == s[k + 1]);
        }
        if m - 1 < s.drop_first().len() {
            assert(s.drop_first()[m - 1] == s[m]);
        }
        lemma_head_of(s.drop_first(), m - 1);
        assert(seq![s.first()] + s.drop_first().take(m - 1) =~= s.take(m));
    }
}

} // verus!
