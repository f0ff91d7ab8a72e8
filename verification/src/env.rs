//! A task's environment.

use vstd::prelude::*;

use crate::text::{copy, same};

#[allow(unused_imports)]
use crate::text::pairs;

verus! {

/// The variables that a list of assignments sets; a later one wins.
pub open spec fn env_of(s: Seq<(Seq<char>, Seq<char>)>) -> Map<Seq<char>, Seq<char>>
    decreases s.len(),
{
    if s.len() == 0 {
        Map::empty()
    } else {
        env_of(s.drop_last()).insert(s.last().0, s.last().1)
    }
}

/// Environment variables by name.
#[derive(Debug)]
pub struct EnvMap {
    entries: Vec<(String, String)>,
}

impl View for EnvMap {
    type V = Map<Seq<char>, Seq<char>>;

    closed spec fn view(&self) -> Map<Seq<char>, Seq<char>> {
        env_of(pairs(self.entries@))
    }
}

proof fn lemma_unset(s: Seq<(Seq<char>, Seq<char>)>, k: Seq<char>)
    requires
        forall|i: int| 0 <= i < s.len() ==> (#[trigger] s[i]).0 != k,
    ensures
        !env_of(s).contains_key(k),
    decreases s.len(),
{
    if s.len() > 0 {
        lemma_unset(s.drop_last(), k);
        assert(s[s.len() - 1].0 != k);
    }
}

proof fn lemma_last(s: Seq<(Seq<char>, Seq<char>)>, i: int)
    requires
        0 <= i < s.len(),
        forall|j: int| i < j < s.len() ==> (#[trigger] s[j]).0 != s[i].0,
    ensures
        env_of(s).contains_key(s[i].0),
        env_of(s)[s[i].0] == s[i].1,
    decreases s.len(),
{
    if i < s.len() - 1 {
        assert(s[s.len() - 1].0 != s[i].0);
        assert(s.drop_last()[i] == s[i]);
        lemma_last(s.drop_last(), i);
    }
}

impl EnvMap {
    /// No variables.
    pub fn new() -> (r: Self)
        ensures
            r@ == Map::<Seq<char>, Seq<char>>::empty(),
    {
        EnvMap { entries: Vec::new() }
    }

    /// The variables that `entries` sets; a later assignment wins.
    pub fn from_pairs(entries: Vec<(String, String)>) -> (r: Self)
        ensures
            r@ == env_of(pairs(entries@)),
    {
        EnvMap { entries }
    }

    /// The assignments, the last one of a name being the one that counts.
    pub fn into_pairs(self) -> (r: Vec<(String, String)>)
        ensures
            env_of(pairs(r@)) == self@,
    {
        self.entries
    }

    /// The value of `name`.
    pub fn get(&self, name: &str) -> (r: Option<&String>)
        ensures
            r is Some <==> self@.contains_key(name@),
            r matches Some(v) ==> v@ == self@[name@],
    {
        let ghost all = pairs(self.entries@);
        let mut i: usize = self.entries.len();
        while i > 0
            invariant
                i <= self.entries@.len(),
                all == pairs(self.entries@),
                forall|j: int| i <= j < all.len() ==> (#[trigger] all[j]).0 != name@,
            decreases i,
        {
            i = i - 1;
            assert(all[i as int].0 == self.entries@[i as int].0@);
            if same(self.entries[i].0.as_str(), name) {
                proof {
                    lemma_last(all, i as int);
                }
                return Some(&self.entries[i].1);
            }
        }
        proof {
            lemma_unset(all, name@);
        }
        None
    }

    /// Whether `name` is set.
    pub fn contains_key(&self, name: &str) -> (r: bool)
        ensures
            r == self@.contains_key(name@),
    {
        self.get(name).is_some()
    }

    /// Unsets `name`.
    pub fn remove(&mut self, name: &str)
        ensures
            final(self)@ == old(self)@.remove(name@),
    {
        let ghost all = pairs(self.entries@);
        let mut kept: Vec<(String, String)> = Vec::new();
        let mut i: usize = 0;
        assert(all.take(0) =~= Seq::empty());
        assert(env_of(pairs(kept@)) =~= env_of(all.take(0)).remove(name@));
        while i < self.entries.len()
            invariant
                i <= self.entries@.len(),
                all == pairs(self.entries@),
                env_of(pairs(kept@)) == env_of(all.take(i as int)).remove(name@),
            decreases self.entries@.len() - i,
        {
            let ghost before = pairs(kept@);
            proof {
                assert(all.take(i + 1).drop_last() =~= all.take(i as int));
                assert(all.take(i + 1).last() == all[i as int]);
            }
            if !same(self.entries[i].0.as_str(), name) {
                kept.push((self.entries[i].0.clone(), self.entries[i].1.clone()));
                assert(pairs(kept@) =~= before.push(all[i as int]));
                assert(before.push(all[i as int]).drop_last() =~= before);
            }
            assert(env_of(pairs(kept@)) =~= env_of(all.take(i + 1)).remove(name@));
            i = i + 1;
        }
        assert(all.take(all.len() as int) =~= all);
        self.entries = kept;
    }

    /// Sets `name` to `value`.
    pub fn insert(&mut self, name: String, value: String)
        ensures
            final(self)@ == old(self)@.insert(name@, value@),
    {
        let ghost was = self@;
        let ghost k = name@;
        let ghost v = value@;
        self.remove(name.as_str());
        let ghost before = pairs(self.entries@);
        self.entries.push((name, value));
        proof {
            assert(pairs(self.entries@) =~= before.push((k, v)));
            assert(before.push((k, v)).drop_last() =~= before);
            assert(was.remove(k).insert(k, v) =~= was.insert(k, v));
        }
    }

    /// The same variables again.
    pub fn duplicate(&self) -> (r: Self)
        ensures
            r@ == self@,
    {
        let mut entries: Vec<(String, String)> = Vec::new();
        let mut i: usize = 0;
        while i < self.entries.len()
            invariant
                i <= self.entries@.len(),
                entries@ == self.entries@.take(i as int),
            decreases self.entries@.len() - i,
        {
            entries.push((self.entries[i].0.clone(), self.entries[i].1.clone()));
            i = i + 1;
            assert(self.entries@.take(i as int) =~= self.entries@.take(i - 1).push(
                self.entries@[i - 1],
            ));
        }
        assert(entries@ =~= self.entries@);
        EnvMap { entries }
    }
}

/// An environment in which tools write colour, whatever they write to.
pub open spec fn coloured(base: Map<Seq<char>, Seq<char>>) -> Map<Seq<char>, Seq<char>> {
    base.remove("NO_COLOR"@).insert("CLICOLOR_FORCE"@, "1"@).insert("FORCE_COLOR"@, "1"@).insert(
        "CARGO_TERM_COLOR"@,
        "always"@,
    )
}

/// `base` with the variables that force colour, and without `NO_COLOR`.
pub fn color_envs(base: EnvMap) -> (r: EnvMap)
    ensures
        r@ == coloured(base@),
{
    let mut env = base;
    env.remove("NO_COLOR");
    env.insert(copy("CLICOLOR_FORCE"), copy("1"));
    env.insert(copy("FORCE_COLOR"), copy("1"));
    env.insert(copy("CARGO_TERM_COLOR"), copy("always"));
    env
}

/// Forcing colour unsets `NO_COLOR`, sets three variables and leaves every other
/// one as it was; doing it again changes nothing.
pub proof fn law_forcing_colour(base: Map<Seq<char>, Seq<char>>)
    ensures
        coloured(coloured(base)) == coloured(base),
        !coloured(base).contains_key("NO_COLOR"@),
        coloured(base).contains_key("FORCE_COLOR"@) && coloured(base)["FORCE_COLOR"@] == "1"@,
        coloured(base).contains_key("CLICOLOR_FORCE"@) && coloured(base)["CLICOLOR_FORCE"@]
            == "1"@,
        coloured(base).contains_key("CARGO_TERM_COLOR"@) && coloured(base)["CARGO_TERM_COLOR"@]
            == "always"@,
        forall|k: Seq<char>|
            k != "NO_COLOR"@ && k != "FORCE_COLOR"@ && k != "CLICOLOR_FORCE"@ && k
                != "CARGO_TERM_COLOR"@ ==> (#[trigger] coloured(base).contains_key(k)
                <==> base.contains_key(k)) && (base.contains_key(k) ==> coloured(base)[k]
                == base[k]),
{
    reveal_strlit("NO_COLOR");
    reveal_strlit("FORCE_COLOR");
    reveal_strlit("CLICOLOR_FORCE");
    reveal_strlit("CARGO_TERM_COLOR");
    assert("NO_COLOR"@.len() == 8);
    assert("FORCE_COLOR"@.len() == 11);
    assert("CLICOLOR_FORCE"@.len() == 14);
    assert("CARGO_TERM_COLOR"@.len() == 16);
    assert(coloured(coloured(base)) =~= coloured(base));
}

/// Of two entries for one variable the later counts, and a variable without an entry
/// is not set.
pub proof fn law_the_later_entry_counts(
    before: Seq<(Seq<char>, Seq<char>)>,
    name: Seq<char>,
    value: Seq<char>,
    after: Seq<(Seq<char>, Seq<char>)>,
)
    requires
        forall|i: int| 0 <= i < after.len() ==> (#[trigger] after[i]).0 != name,
    ensures
        ({
            let all = env_of(before + seq![(name, value)] + after);
            all.contains_key(name) && all[name] == value
        }),
        !env_of(after).contains_key(name),
    decreases after.len(),
{
    let all = before + seq![(name, value)] + after;
    if after.len() == 0 {
        assert(all.last() == (name, value));
    } else {
        let fewer = after.drop_last();
        assert forall|i: int| 0 <= i < fewer.len() implies (#[trigger] fewer[i]).0 != name by {
            assert(after[i].0 != name);
        }
        law_the_later_entry_counts(before, name, value, fewer);
        assert(all.drop_last() =~= before + seq![(name, value)] + fewer);
        assert(all.last() == after.last());
        assert(after[after.len() - 1].0 != name);
    }
}

} // verus!
