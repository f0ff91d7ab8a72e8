//! Executing a plan: the environment and the arguments that a task is started
//! with, once the fifo and the core count are known.
//!
//! Placeholders are filled only in what the classifier wrote. Variables are
//! removed first, then set, then appended to.

use vstd::prelude::*;
use vstd::string::*;

use crate::classify::Plan;

#[allow(unused_imports)]
use crate::classify::{
    auth, class_name, default_rows, flag_hit, head_of, law_a_jobserver_plan_points_at_the_pool,
    law_every_plan_names_its_class_and_cores, plan_for, row_env, row_for, user_flag, Class,
    Overrides, PlanView, RuleView,
};
use crate::env::EnvMap;
use crate::text::{chars_of, copy, decimal, starts_with};

#[allow(unused_imports)]
use crate::recognition::{law_the_first_flag_is_the_users, lemma_built_in_edits, lemma_words};
#[allow(unused_imports)]
use crate::text::{begins, decimal_of, texts};

verus! {

/// What a task is started with.
#[derive(Debug)]
pub struct Injected {
    pub env: EnvMap,
    pub argv: Vec<String>,
}

/// What the placeholders stand for.
#[verifier::ext_equal]
pub struct Fill {
    pub fifo: Seq<char>,
    pub cores: nat,
}

impl Fill {
    /// What `{cores-1}` stands for.
    pub open spec fn cores_less_one(self) -> nat {
        if self.cores <= 2 {
            1
        } else {
            (self.cores - 1) as nat
        }
    }

    /// `value` with its placeholders replaced, in one pass from left to right:
    /// what was put in is not looked at again.
    pub open spec fn fill(self, value: Seq<char>) -> Seq<char>
        decreases value.len(),
    {
        proof {
            lemma_placeholders();
        }
        if value.len() == 0 {
            value
        } else if begins(value, "{fifo}"@) {
            self.fifo + self.fill(value.skip("{fifo}"@.len() as int))
        } else if begins(value, "{cores}"@) {
            decimal_of(self.cores) + self.fill(value.skip("{cores}"@.len() as int))
        } else if begins(value, "{cores-1}"@) {
            decimal_of(self.cores_less_one()) + self.fill(value.skip("{cores-1}"@.len() as int))
        } else {
            seq![value[0]] + self.fill(value.skip(1))
        }
    }
}

/// The lengths of the placeholders, and what each begins with.
pub proof fn lemma_placeholders()
    ensures
        "{fifo}"@.len() == 6,
        "{cores}"@.len() == 7,
        "{cores-1}"@.len() == 9,
        "{fifo}"@[0] == '{',
        "{cores}"@[0] == '{',
        "{cores-1}"@[0] == '{',
{
    reveal_strlit("{fifo}");
    reveal_strlit("{cores}");
    reveal_strlit("{cores-1}");
}

/// The variables without those named.
pub open spec fn unset_all(env: Map<Seq<char>, Seq<char>>, names: Seq<Seq<char>>) -> Map<
    Seq<char>,
    Seq<char>,
>
    decreases names.len(),
{
    if names.len() == 0 {
        env
    } else {
        unset_all(env, names.drop_last()).remove(names.last())
    }
}

/// The variables with those assigned set.
pub open spec fn set_all(
    env: Map<Seq<char>, Seq<char>>,
    set: Seq<(Seq<char>, Seq<char>)>,
    f: Fill,
) -> Map<Seq<char>, Seq<char>>
    decreases set.len(),
{
    if set.len() == 0 {
        env
    } else {
        set_all(env, set.drop_last(), f).insert(set.last().0, f.fill(set.last().1))
    }
}

/// A value with `more` behind it, after a space unless it was empty.
pub open spec fn joined(
    env: Map<Seq<char>, Seq<char>>,
    name: Seq<char>,
    more: Seq<char>,
) -> Seq<char> {
    if !env.contains_key(name) {
        more
    } else if env[name].len() == 0 {
        env[name] + more
    } else {
        env[name].push(' ') + more
    }
}

/// The variables with those named appended to.
pub open spec fn append_all(
    env: Map<Seq<char>, Seq<char>>,
    append: Seq<(Seq<char>, Seq<char>)>,
    f: Fill,
) -> Map<Seq<char>, Seq<char>>
    decreases append.len(),
{
    if append.len() == 0 {
        env
    } else {
        let before = append_all(env, append.drop_last(), f);
        before.insert(
            append.last().0,
            joined(before, append.last().0, f.fill(append.last().1)),
        )
    }
}

/// The client's variables as a plan leaves them for the task.
pub open spec fn injected_env(plan: PlanView, env: Map<Seq<char>, Seq<char>>, f: Fill) -> Map<
    Seq<char>,
    Seq<char>,
> {
    append_all(
        set_all(unset_all(env, plan.env_unset), plan.env_set, f),
        plan.env_append,
        f,
    )
}

/// The arguments, those behind the first `n` filled.
pub open spec fn filled_args(argv: Seq<Seq<char>>, n: int, f: Fill) -> Seq<Seq<char>> {
    Seq::new(
        argv.len(),
        |i: int|
            if i < n {
                argv[i]
            } else {
                f.fill(argv[i])
            },
    )
}

fn fill(value: &str, fifo: &str, cores: &str, cores_1: &str, Ghost(f): Ghost<Fill>) -> (r: String)
    requires
        f.fifo == fifo@,
        decimal_of(f.cores) == cores@,
        decimal_of(f.cores_less_one()) == cores_1@,
    ensures
        r@ == f.fill(value@),
{
    let chars = chars_of(value);
    let mut out = String::new();
    let mut i: usize = 0;
    proof {
        lemma_placeholders();
        assert(value@.skip(0) =~= value@);
    }
    while i < chars.len()
        invariant
            i <= chars@.len(),
            chars@ == value@,
            f.fifo == fifo@,
            decimal_of(f.cores) == cores@,
            decimal_of(f.cores_less_one()) == cores_1@,
            "{fifo}"@.len() == 6,
            "{cores}"@.len() == 7,
            "{cores-1}"@.len() == 9,
            f.fill(value@) == out@ + f.fill(value@.skip(i as int)),
        decreases chars@.len() - i,
    {
        let rest = value.substring_char(i, chars.len());
        let ghost here = value@.skip(i as int);
        let ghost done = out@;
        assert(rest@ =~= here);
        if starts_with(rest, "{fifo}") {
            out.append(fifo);
            assert(here.skip(6) =~= value@.skip(i + 6));
            i = i + 6;
        } else if starts_with(rest, "{cores}") {
            out.append(cores);
            assert(here.skip(7) =~= value@.skip(i + 7));
            i = i + 7;
        } else if starts_with(rest, "{cores-1}") {
            out.append(cores_1);
            assert(here.skip(9) =~= value@.skip(i + 9));
            i = i + 9;
        } else {
            out.push(chars[i]);
            assert(here.skip(1) =~= value@.skip(i + 1));
            assert(out@ =~= done + seq![here[0]]);
            i = i + 1;
        }
        assert(f.fill(value@) =~= out@ + f.fill(value@.skip(i as int)));
    }
    assert(value@.skip(i as int) =~= Seq::empty());
    assert(f.fill(value@) =~= out@);
    out
}

/// Executes a plan. `user_args` is how many of its arguments the user typed,
/// `env` the client's environment and `cores` the task's share of the pool.
pub fn inject(plan: &Plan, user_args: usize, env: EnvMap, fifo: &str, cores: u32) -> (r: Injected)
    requires
        user_args <= plan.argv@.len(),
    ensures
        ({
            let f = Fill { fifo: fifo@, cores: cores as nat };
            &&& texts(r.argv@) == filled_args(plan@.argv, user_args as int, f)
            &&& r.env@ == injected_env(plan@, env@, f)
        }),
{
    let ghost f = Fill { fifo: fifo@, cores: cores as nat };
    let ghost start = env@;
    let one = decimal(if cores <= 2 {
        1
    } else {
        (cores - 1) as u64
    });
    let all = decimal(cores as u64);
    let mut env = env;
    let mut i: usize = 0;
    assert(plan@.env_unset.take(0) =~= Seq::empty());
    while i < plan.env_unset.len()
        invariant
            i <= plan.env_unset@.len(),
            env@ == unset_all(start, plan@.env_unset.take(i as int)),
        decreases plan.env_unset@.len() - i,
    {
        env.remove(plan.env_unset[i].as_str());
        i = i + 1;
        proof {
            let t = plan@.env_unset.take(i as int);
            assert(t.drop_last() =~= plan@.env_unset.take(i - 1));
            assert(t.last() == plan.env_unset@[i - 1]@);
        }
    }
    assert(plan@.env_unset.take(i as int) =~= plan@.env_unset);
    let ghost unset = env@;
    let mut j: usize = 0;
    assert(plan@.env_set.take(0) =~= Seq::empty());
    while j < plan.env_set.len()
        invariant
            j <= plan.env_set@.len(),
            f == (Fill { fifo: fifo@, cores: cores as nat }),
            decimal_of(f.cores) == all@,
            decimal_of(f.cores_less_one()) == one@,
            env@ == set_all(unset, plan@.env_set.take(j as int), f),
        decreases plan.env_set@.len() - j,
    {
        let value = fill(
            plan.env_set[j].1.as_str(),
            fifo,
            all.as_str(),
            one.as_str(),
            Ghost(f),
        );
        env.insert(plan.env_set[j].0.clone(), value);
        j = j + 1;
        proof {
            let t = plan@.env_set.take(j as int);
            assert(t.drop_last() =~= plan@.env_set.take(j - 1));
            assert(t.last() == (plan.env_set@[j - 1].0@, plan.env_set@[j - 1].1@));
        }
    }
    assert(plan@.env_set.take(j as int) =~= plan@.env_set);
    let ghost set = env@;
    let mut k: usize = 0;
    assert(plan@.env_append.take(0) =~= Seq::empty());
    while k < plan.env_append.len()
        invariant
            k <= plan.env_append@.len(),
            f == (Fill { fifo: fifo@, cores: cores as nat }),
            decimal_of(f.cores) == all@,
            decimal_of(f.cores_less_one()) == one@,
            env@ == append_all(set, plan@.env_append.take(k as int), f),
        decreases plan.env_append@.len() - k,
    {
        let ghost here = env@;
        let name = plan.env_append[k].0.as_str();
        let more = fill(
            plan.env_append[k].1.as_str(),
            fifo,
            all.as_str(),
            one.as_str(),
            Ghost(f),
        );
        let mut value = String::new();
        if let Some(existing) = env.get(name) {
            value.append(existing.as_str());
            if chars_of(existing.as_str()).len() > 0 {
                value.push(' ');
            }
        }
        value.append(more.as_str());
        assert(value@ =~= joined(here, name@, more@));
        env.insert(copy(name), value);
        k = k + 1;
        proof {
            let t = plan@.env_append.take(k as int);
            assert(t.drop_last() =~= plan@.env_append.take(k - 1));
            assert(t.last() == (plan.env_append@[k - 1].0@, plan.env_append@[k - 1].1@));
        }
    }
    assert(plan@.env_append.take(k as int) =~= plan@.env_append);
    let mut argv: Vec<String> = Vec::new();
    let mut n: usize = 0;
    while n < plan.argv.len()
        invariant
            n <= plan.argv@.len(),
            argv@.len() == n,
            f == (Fill { fifo: fifo@, cores: cores as nat }),
            decimal_of(f.cores) == all@,
            decimal_of(f.cores_less_one()) == one@,
            forall|x: int|
                0 <= x < n ==> (#[trigger] argv@[x])@ == filled_args(
                    plan@.argv,
                    user_args as int,
                    f,
                )[x],
        decreases plan.argv@.len() - n,
    {
        if n < user_args {
            argv.push(plan.argv[n].clone());
        } else {
            argv.push(
                fill(plan.argv[n].as_str(), fifo, all.as_str(), one.as_str(), Ghost(f)),
            );
        }
        n = n + 1;
    }
    assert(texts(argv@) =~= filled_args(plan@.argv, user_args as int, f));
    Injected { env, argv }
}

/// Text without a brace has nothing to fill, and what stands before a brace does
/// not change what is filled behind it.
pub proof fn law_text_without_braces_is_kept(f: Fill, plain: Seq<char>, rest: Seq<char>)
    requires
        !plain.contains('{'),
    ensures
        f.fill(plain) == plain,
        f.fill(plain + rest) == plain + f.fill(rest),
    decreases plain.len(),
{
    lemma_placeholders();
    if plain.len() > 0 {
        let tail = plain.skip(1);
        assert(plain[0] != '{');
        assert forall|i: int| 0 <= i < tail.len() implies tail[i] != '{' by {
            assert(tail[i] == plain[i + 1]);
        }
        law_text_without_braces_is_kept(f, tail, rest);
        let all = plain + rest;
        assert(all[0] == plain[0]);
        lemma_not_a_placeholder(all);
        lemma_not_a_placeholder(plain);
        assert(all.skip(1) =~= tail + rest);
        assert(seq![plain[0]] + tail =~= plain);
        assert(seq![all[0]] + (tail + f.fill(rest)) =~= plain + f.fill(rest));
    } else {
        assert(plain + rest =~= rest);
        assert(plain + f.fill(rest) =~= f.fill(rest));
    }
}

proof fn lemma_not_a_placeholder(value: Seq<char>)
    requires
        value.len() > 0,
        value[0] != '{',
    ensures
        !begins(value, "{fifo}"@),
        !begins(value, "{cores}"@),
        !begins(value, "{cores-1}"@),
{
    lemma_placeholders();
    assert(value.len() >= 6 ==> value.take(6)[0] == value[0]);
    assert(value.len() >= 7 ==> value.take(7)[0] == value[0]);
    assert(value.len() >= 9 ==> value.take(9)[0] == value[0]);
}

/// A placeholder by itself is what it stands for; a fifo whose path looks like a
/// placeholder stays as it is. One less than the cores is still a usable count.
pub proof fn law_a_placeholder_is_filled(f: Fill)
    ensures
        f.fill("{fifo}"@) == f.fifo,
        f.fill("{cores}"@) == decimal_of(f.cores),
        f.fill("{cores-1}"@) == decimal_of(f.cores_less_one()),
        f.cores_less_one() >= 1,
        f.fill(auth()) == "--jobserver-auth=fifo:"@ + f.fifo,
        f.fill("-n {cores}"@) == "-n "@ + decimal_of(f.cores),
{
    lemma_placeholders();
    let nothing = Seq::<char>::empty();
    let (a, b, c) = ("{fifo}"@, "{cores}"@, "{cores-1}"@);
    assert(a.skip(6) =~= nothing && b.skip(7) =~= nothing && c.skip(9) =~= nothing);
    assert(a.take(6) =~= a && b.take(7) =~= b && c.take(9) =~= c);
    assert(f.fill(nothing) == nothing);
    assert(begins(a, a) && begins(b, b) && begins(c, c));
    assert(f.fifo + nothing =~= f.fifo);
    assert(decimal_of(f.cores) + nothing =~= decimal_of(f.cores));
    assert(decimal_of(f.cores_less_one()) + nothing =~= decimal_of(f.cores_less_one()));
    reveal_strlit("{fifo}");
    reveal_strlit("{cores}");
    reveal_strlit("{cores-1}");
    assert(b[1] == 'c' && a[1] == 'f' && c[1] == 'c' && b[6] == '}' && c[6] == '-');
    assert(!begins(b, a)) by {
        assert(b.take(6)[1] == 'c');
    }
    assert(!begins(c, a)) by {
        assert(c.take(6)[1] == 'c');
    }
    assert(!begins(c, b)) by {
        assert(c.take(7)[6] == '-');
    }
    reveal_strlit("--jobserver-auth=fifo:{fifo}");
    reveal_strlit("--jobserver-auth=fifo:");
    reveal_strlit("-n {cores}");
    reveal_strlit("-n ");
    let head = "--jobserver-auth=fifo:"@;
    assert(auth() =~= head + a);
    assert(!head.contains('{'));
    law_text_without_braces_is_kept(f, head, a);
    assert("-n {cores}"@ =~= "-n "@ + b);
    assert(!"-n "@.contains('{'));
    law_text_without_braces_is_kept(f, "-n "@, b);
}

/// What the user typed reaches the task as they typed it, and nothing is added
/// or taken away behind it but by the plan.
pub proof fn law_the_users_arguments_are_untouched(argv: Seq<Seq<char>>, n: int, f: Fill)
    requires
        0 <= n <= argv.len(),
    ensures
        filled_args(argv, n, f).len() == argv.len(),
        filled_args(argv, n, f).take(n) == argv.take(n),
{
    assert(filled_args(argv, n, f).take(n) =~= argv.take(n));
}

/// Whether an assignment of `set` is for `name`.
pub open spec fn assigns(set: Seq<(Seq<char>, Seq<char>)>, name: Seq<char>) -> bool {
    exists|i: int| 0 <= i < set.len() && (#[trigger] set[i]).0 == name
}

proof fn lemma_unset_other(env: Map<Seq<char>, Seq<char>>, names: Seq<Seq<char>>, name: Seq<char>)
    ensures
        names.contains(name) ==> !unset_all(env, names).contains_key(name),
        !names.contains(name) ==> (unset_all(env, names).contains_key(name)
            <==> env.contains_key(name)) && (env.contains_key(name) ==> unset_all(env, names)[name]
            == env[name]),
    decreases names.len(),
{
    if names.len() > 0 {
        let before = names.drop_last();
        lemma_unset_other(env, before, name);
        if names.contains(name) && names.last() != name {
            let i = choose|i: int| 0 <= i < names.len() && names[i] == name;
            assert(before[i] == name);
        }
        if !names.contains(name) {
            assert(names[names.len() - 1] != name);
            assert forall|i: int| 0 <= i < before.len() implies before[i] != name by {
                assert(names[i] != name);
            }
        }
    }
}

proof fn lemma_set_other(
    env: Map<Seq<char>, Seq<char>>,
    set: Seq<(Seq<char>, Seq<char>)>,
    f: Fill,
    name: Seq<char>,
)
    requires
        !assigns(set, name),
    ensures
        set_all(env, set, f).contains_key(name) <==> env.contains_key(name),
        env.contains_key(name) ==> set_all(env, set, f)[name] == env[name],
    decreases set.len(),
{
    if set.len() > 0 {
        let before = set.drop_last();
        assert(set[set.len() - 1].0 != name);
        assert(!assigns(before, name)) by {
            if assigns(before, name) {
                let i = choose|i: int| 0 <= i < before.len() && (#[trigger] before[i]).0 == name;
                assert(set[i].0 == name);
            }
        }
        lemma_set_other(env, before, f, name);
    }
}

proof fn lemma_set_to(
    env: Map<Seq<char>, Seq<char>>,
    set: Seq<(Seq<char>, Seq<char>)>,
    f: Fill,
    name: Seq<char>,
    value: Seq<char>,
)
    requires
        assigns(set, name),
        forall|i: int| 0 <= i < set.len() && (#[trigger] set[i]).0 == name ==> set[i].1 == value,
    ensures
        set_all(env, set, f).contains_key(name),
        set_all(env, set, f)[name] == f.fill(value),
    decreases set.len(),
{
    let before = set.drop_last();
    assert(set[set.len() - 1] == set.last());
    if set.last().0 != name {
        let i = choose|i: int| 0 <= i < set.len() && (#[trigger] set[i]).0 == name;
        assert(before[i].0 == name);
        assert forall|j: int| 0 <= j < before.len() && (#[trigger] before[j]).0
            == name implies before[j].1 == value by {
            assert(set[j].0 == name);
        }
        lemma_set_to(env, before, f, name, value);
    }
}

proof fn lemma_append_other(
    env: Map<Seq<char>, Seq<char>>,
    append: Seq<(Seq<char>, Seq<char>)>,
    f: Fill,
    name: Seq<char>,
)
    requires
        !assigns(append, name),
    ensures
        append_all(env, append, f).contains_key(name) <==> env.contains_key(name),
        env.contains_key(name) ==> append_all(env, append, f)[name] == env[name],
    decreases append.len(),
{
    if append.len() > 0 {
        let before = append.drop_last();
        assert(append[append.len() - 1].0 != name);
        assert(!assigns(before, name)) by {
            if assigns(before, name) {
                let i = choose|i: int| 0 <= i < before.len() && (#[trigger] before[i]).0 == name;
                assert(append[i].0 == name);
            }
        }
        lemma_append_other(env, before, f, name);
    }
}

/// A variable that the plan does not name reaches the task as the client had it;
/// one that it only removes does not reach it.
pub proof fn law_other_variables_are_kept(
    env: Map<Seq<char>, Seq<char>>,
    unset: Seq<Seq<char>>,
    set: Seq<(Seq<char>, Seq<char>)>,
    append: Seq<(Seq<char>, Seq<char>)>,
    f: Fill,
    name: Seq<char>,
)
    requires
        !assigns(set, name),
        !assigns(append, name),
    ensures
        ({
            let out = append_all(set_all(unset_all(env, unset), set, f), append, f);
            &&& unset.contains(name) ==> !out.contains_key(name)
            &&& !unset.contains(name) ==> (out.contains_key(name) <==> env.contains_key(name))
            &&& !unset.contains(name) && env.contains_key(name) ==> out[name] == env[name]
        }),
{
    lemma_unset_other(env, unset, name);
    lemma_set_other(unset_all(env, unset), set, f, name);
    lemma_append_other(set_all(unset_all(env, unset), set, f), append, f, name);
}

/// Every task is told its class and its cores; a jobserver task also the fifo of
/// the pool, whatever its caller and the configuration had set.
pub proof fn law_a_task_is_told_its_share(
    argv: Seq<Seq<char>>,
    overrides: Overrides,
    rows: Seq<RuleView>,
    env: Map<Seq<char>, Seq<char>>,
    f: Fill,
)
    ensures
        ({
            let plan = plan_for(argv, overrides, rows);
            let out = injected_env(plan, env, f);
            &&& out.contains_key("BUSYBEE_CORES"@)
            &&& out["BUSYBEE_CORES"@] == decimal_of(f.cores)
            &&& out.contains_key("BUSYBEE_CLASS"@)
            &&& out["BUSYBEE_CLASS"@] == class_name(plan.class)
            &&& plan.class == Class::Jobserver ==> out.contains_key("MAKEFLAGS"@)
                && out["MAKEFLAGS"@] == "--jobserver-auth=fifo:"@ + f.fifo
        }),
{
    let plan = plan_for(argv, overrides, rows);
    law_every_plan_names_its_class_and_cores(argv, overrides, rows);
    law_a_placeholder_is_filled(f);
    let n = plan.env_set.len() as int;
    let base = unset_all(env, plan.env_unset);
    let one = plan.env_set.drop_last();
    let two = one.drop_last();
    assert(one.last() == plan.env_set[n - 2]);
    let set = set_all(base, plan.env_set, f);
    assert(set_all(base, one, f) == set_all(base, two, f).insert(
        "BUSYBEE_CLASS"@,
        f.fill(class_name(plan.class)),
    ));
    assert(set == set_all(base, two, f).insert(
        "BUSYBEE_CLASS"@,
        f.fill(class_name(plan.class)),
    ).insert("BUSYBEE_CORES"@, f.fill("{cores}"@)));
    reveal_strlit("BUSYBEE_CLASS");
    reveal_strlit("BUSYBEE_CORES");
    reveal_strlit("MAKEFLAGS");
    reveal_strlit("PYTEST_ADDOPTS");
    reveal_strlit("jobserver");
    reveal_strlit("static");
    reveal_strlit("none");
    assert("BUSYBEE_CLASS"@[9] == 'L' && "BUSYBEE_CORES"@[9] == 'O');
    assert("PYTEST_ADDOPTS"@.len() == 14 && "MAKEFLAGS"@.len() == 9);
    assert("BUSYBEE_CLASS"@.len() == 13 && "BUSYBEE_CORES"@.len() == 13);
    assert(!class_name(plan.class).contains('{'));
    law_text_without_braces_is_kept(f, class_name(plan.class), Seq::empty());
    lemma_append_other(set, plan.env_append, f, "BUSYBEE_CORES"@);
    lemma_append_other(set, plan.env_append, f, "BUSYBEE_CLASS"@);
    lemma_append_other(set, plan.env_append, f, "MAKEFLAGS"@);
    if plan.class == Class::Jobserver {
        law_a_jobserver_plan_points_at_the_pool(argv, overrides, rows);
        assert(plan.env_set[0].0 == "MAKEFLAGS"@);
        lemma_set_to(base, plan.env_set, f, "MAKEFLAGS"@, auth());
    }
}

/// One less than the cores, but never less than one.
pub proof fn law_one_core_less_is_still_one(f: Fill)
    ensures
        f.cores_less_one() >= 1,
        f.cores >= 2 ==> f.cores_less_one() + 1 == f.cores,
        f.cores < 2 ==> f.cores_less_one() == 1,
{
}

/// Placeholders are filled wherever they stand: what follows one is filled by
/// itself, and what was put in is not looked at again.
pub proof fn law_a_placeholder_is_filled_where_it_stands(f: Fill, rest: Seq<char>)
    ensures
        f.fill("{fifo}"@ + rest) == f.fifo + f.fill(rest),
        f.fill("{cores}"@ + rest) == decimal_of(f.cores) + f.fill(rest),
        f.fill("{cores-1}"@ + rest) == decimal_of(f.cores_less_one()) + f.fill(rest),
{
    lemma_placeholders();
    let (a, b, c) = ("{fifo}"@, "{cores}"@, "{cores-1}"@);
    reveal_strlit("{fifo}");
    reveal_strlit("{cores}");
    reveal_strlit("{cores-1}");
    assert(b[1] == 'c' && a[1] == 'f' && c[1] == 'c' && b[6] == '}' && c[6] == '-');
    assert((a + rest).take(6) =~= a && (a + rest).skip(6) =~= rest);
    assert((b + rest).take(7) =~= b && (b + rest).skip(7) =~= rest);
    assert((c + rest).take(9) =~= c && (c + rest).skip(9) =~= rest);
    assert(!begins(b + rest, a)) by {
        assert((b + rest).take(6)[1] == 'c');
    }
    assert(!begins(c + rest, a)) by {
        assert((c + rest).take(6)[1] == 'c');
    }
    assert(!begins(c + rest, b)) by {
        assert((c + rest).take(7)[6] == '-');
    }
}

/// A variable that is appended to keeps what it had: the new part follows it,
/// after a space, or stands alone where there was nothing.
pub proof fn law_appending_keeps_what_was_there(
    env: Map<Seq<char>, Seq<char>>,
    name: Seq<char>,
    value: Seq<char>,
    f: Fill,
)
    ensures
        ({
            let out = append_all(env, seq![(name, value)], f);
            &&& out.contains_key(name)
            &&& env.contains_key(name) && env[name].len() > 0 ==> out[name] == env[name] + seq![' ']
                + f.fill(value)
            &&& !env.contains_key(name) || env[name].len() == 0 ==> out[name] == f.fill(value)
        }),
{
    let one = seq![(name, value)];
    assert(one.drop_last() =~= Seq::empty());
    assert(append_all(env, one.drop_last(), f) == env);
    assert(one.last() == (name, value));
    if env.contains_key(name) {
        if env[name].len() > 0 {
            assert(env[name].push(' ') =~= env[name] + seq![' ']);
        } else {
            assert(env[name] + f.fill(value) =~= f.fill(value));
        }
    }
}

/// Of two assignments of one variable the later counts.
pub proof fn law_the_later_assignment_counts(
    env: Map<Seq<char>, Seq<char>>,
    before: Seq<(Seq<char>, Seq<char>)>,
    name: Seq<char>,
    value: Seq<char>,
    after: Seq<(Seq<char>, Seq<char>)>,
    f: Fill,
)
    requires
        !assigns(after, name),
    ensures
        ({
            let out = set_all(env, before + seq![(name, value)] + after, f);
            out.contains_key(name) && out[name] == f.fill(value)
        }),
    decreases after.len(),
{
    let all = before + seq![(name, value)] + after;
    if after.len() == 0 {
        assert(all.last() == (name, value));
    } else {
        let fewer = after.drop_last();
        assert(!assigns(fewer, name)) by {
            if assigns(fewer, name) {
                let i = choose|i: int| 0 <= i < fewer.len() && (#[trigger] fewer[i]).0 == name;
                assert(after[i].0 == name);
            }
        }
        law_the_later_assignment_counts(env, before, name, value, fewer, f);
        assert(all.drop_last() =~= before + seq![(name, value)] + fewer);
        assert(all.last() == after.last());
        assert(after[after.len() - 1].0 != name);
    }
}

proof fn lemma_variables()
    ensures
        "GOMAXPROCS"@.len() == 10,
        "CTEST_PARALLEL_LEVEL"@.len() == 20,
        "PYTEST_ADDOPTS"@.len() == 14,
        "RUST_TEST_THREADS"@.len() == 17,
        "CARGO_MAKEFLAGS"@.len() == 15,
        "CMAKE_BUILD_PARALLEL_LEVEL"@.len() == 26,
        "MAKEFLAGS"@.len() == 9,
        "BUSYBEE_CLASS"@.len() == 13,
        "BUSYBEE_CORES"@.len() == 13,
{
    reveal_strlit("GOMAXPROCS");
    reveal_strlit("CTEST_PARALLEL_LEVEL");
    reveal_strlit("PYTEST_ADDOPTS");
    reveal_strlit("RUST_TEST_THREADS");
    reveal_strlit("CARGO_MAKEFLAGS");
    reveal_strlit("CMAKE_BUILD_PARALLEL_LEVEL");
    reveal_strlit("MAKEFLAGS");
    reveal_strlit("BUSYBEE_CLASS");
    reveal_strlit("BUSYBEE_CORES");
}

/// A command that does not share the pool is told its share in the way its tool reads it:
/// `go` by `GOMAXPROCS`, `ctest` by `CTEST_PARALLEL_LEVEL`, `pytest` by `-n`
/// behind what `PYTEST_ADDOPTS` held, and `xcodebuild`, unless the user said so
/// themselves, by `-jobs` and one core less.
#[verifier::spinoff_prover]
pub proof fn law_a_static_tool_is_told_its_share(
    argv: Seq<Seq<char>>,
    overrides: Overrides,
    env: Map<Seq<char>, Seq<char>>,
    f: Fill,
)
    requires
        plan_for(argv, overrides, default_rows()).class != Class::Jobserver,
    ensures
        ({
            let plan = plan_for(argv, overrides, default_rows());
            let (tool, args) = head_of(argv);
            let out = injected_env(plan, env, f);
            let line = filled_args(plan.argv, argv.len() as int, f);
            let less = if f.cores >= 2 {
                (f.cores - 1) as nat
            } else {
                1
            };
            let flagged = exists|i: int|
                0 <= i < args.len() && flag_hit("-jobs"@, #[trigger] args[i]);
            &&& tool == "go"@ ==> out.contains_key("GOMAXPROCS"@) && out["GOMAXPROCS"@]
                == decimal_of(f.cores)
            &&& tool == "ctest"@ ==> out.contains_key("CTEST_PARALLEL_LEVEL"@)
                && out["CTEST_PARALLEL_LEVEL"@] == decimal_of(f.cores)
            &&& tool == "pytest"@ ==> out.contains_key("PYTEST_ADDOPTS"@)
                && out["PYTEST_ADDOPTS"@] == (if env.contains_key("PYTEST_ADDOPTS"@)
                && env["PYTEST_ADDOPTS"@].len() > 0 {
                env["PYTEST_ADDOPTS"@] + seq![' ']
            } else {
                Seq::empty()
            }) + "-n "@ + decimal_of(f.cores)
            &&& tool == "xcodebuild"@ && !flagged ==> line == argv + seq![
                "-jobs"@,
                decimal_of(less),
            ]
            &&& !(tool == "xcodebuild"@ && !flagged) ==> line == argv
        }),
{
    let plan = plan_for(argv, overrides, default_rows());
    let (tool, args) = head_of(argv);
    let base = unset_all(env, plan.env_unset);
    let set = set_all(base, plan.env_set, f);
    let line = filled_args(plan.argv, argv.len() as int, f);
    lemma_words();
    lemma_variables();
    lemma_built_in_edits(tool, args);
    law_a_placeholder_is_filled(f);
    assert(base == env);
    let rule = row_for(default_rows(), tool, args);
    if let Some(r) = rule {
        assert(row_env(plan.class, r.env_set) =~= Seq::empty());
        law_the_first_flag_is_the_users(args, r.parallel_flags);
    }
    if tool == "go"@ {
        assert(plan.env_set[0] == ("GOMAXPROCS"@, "{cores}"@));
        assert(plan.env_set.len() == 3);
        lemma_set_to(base, plan.env_set, f, "GOMAXPROCS"@, "{cores}"@);
    }
    if tool == "ctest"@ {
        assert(plan.env_set[0] == ("CTEST_PARALLEL_LEVEL"@, "{cores}"@));
        assert(plan.env_set.len() == 3);
        lemma_set_to(base, plan.env_set, f, "CTEST_PARALLEL_LEVEL"@, "{cores}"@);
    }
    if tool == "pytest"@ {
        let name = "PYTEST_ADDOPTS"@;
        assert(plan.env_set.len() == 2);
        assert(!assigns(plan.env_set, name));
        lemma_set_other(base, plan.env_set, f, name);
        assert(plan.env_append =~= seq![(name, "-n {cores}"@)]);
        law_appending_keeps_what_was_there(set, name, "-n {cores}"@, f);
        let more = "-n "@ + decimal_of(f.cores);
        let out = injected_env(plan, env, f);
        if env.contains_key(name) && env[name].len() > 0 {
            assert(out[name] =~= env[name] + seq![' '] + "-n "@ + decimal_of(f.cores));
        } else {
            assert(out[name] =~= Seq::<char>::empty() + "-n "@ + decimal_of(f.cores));
        }
    }
    let less = if f.cores >= 2 {
        (f.cores - 1) as nat
    } else {
        1
    };
    let flagged = exists|i: int| 0 <= i < args.len() && flag_hit("-jobs"@, #[trigger] args[i]);
    if tool == "xcodebuild"@ && !flagged {
        let flags = rule->0.parallel_flags;
        assert(flags[0] == "-jobs"@);
        if user_flag(args, flags) is Some {
            let (i, k) = choose|i: int, k: int|
                0 <= i < args.len() && 0 <= k < flags.len() && #[trigger] args[i] == user_flag(
                    args,
                    flags,
                )->0 && flag_hit(#[trigger] flags[k], args[i]);
            assert(flag_hit("-jobs"@, args[i]));
        }
        assert(plan.argv =~= argv + seq!["-jobs"@, "{cores-1}"@]);
        reveal_strlit("-jobs");
        assert(!"-jobs"@.contains('{'));
        law_text_without_braces_is_kept(f, "-jobs"@, Seq::empty());
        assert(line =~= argv + seq!["-jobs"@, decimal_of(less)]);
    } else {
        if tool == "xcodebuild"@ {
            let flags = rule->0.parallel_flags;
            let i = choose|i: int| 0 <= i < args.len() && flag_hit("-jobs"@, #[trigger] args[i]);
            assert(flag_hit(flags[0], args[i]));
            assert(user_flag(args, flags) is Some);
        } else {
            law_only_xcodebuild_gets_arguments(argv, overrides);
        }
        assert(plan.argv =~= argv);
        assert(line =~= argv);
    }
}

/// No tool but `xcodebuild` is given arguments.
pub proof fn law_only_xcodebuild_gets_arguments(argv: Seq<Seq<char>>, overrides: Overrides)
    ensures
        head_of(argv).0 != "xcodebuild"@ || plan_for(argv, overrides, default_rows()).class
            == Class::Jobserver ==> plan_for(argv, overrides, default_rows()).argv == argv,
{
    let (tool, args) = head_of(argv);
    lemma_built_in_edits(tool, args);
    let plan = plan_for(argv, overrides, default_rows());
    assert(argv + Seq::<Seq<char>>::empty() =~= argv);
}

/// A command that shares the pool is told so in the way its tool reads it: all
/// by `MAKEFLAGS`, `cargo` also by `CARGO_MAKEFLAGS`, with the tests it runs held
/// to its share; and `cmake` is not told a level of its own.
#[verifier::spinoff_prover]
pub proof fn law_a_jobserver_tool_is_told_the_pool(
    argv: Seq<Seq<char>>,
    overrides: Overrides,
    env: Map<Seq<char>, Seq<char>>,
    f: Fill,
)
    requires
        plan_for(argv, overrides, default_rows()).class == Class::Jobserver,
    ensures
        ({
            let plan = plan_for(argv, overrides, default_rows());
            let (tool, args) = head_of(argv);
            let out = injected_env(plan, env, f);
            let pool = "--jobserver-auth=fifo:"@ + f.fifo;
            &&& out.contains_key("MAKEFLAGS"@) && out["MAKEFLAGS"@] == pool
            &&& tool == "cargo"@ ==> {
                &&& out.contains_key("CARGO_MAKEFLAGS"@)
                &&& out["CARGO_MAKEFLAGS"@] == pool
                &&& out.contains_key("RUST_TEST_THREADS"@)
                &&& out["RUST_TEST_THREADS"@] == decimal_of(f.cores)
            }
            &&& tool == "cmake"@ && args.contains("--build"@) ==> !out.contains_key(
                "CMAKE_BUILD_PARALLEL_LEVEL"@,
            )
            &&& filled_args(plan.argv, argv.len() as int, f) == argv
        }),
{
    let plan = plan_for(argv, overrides, default_rows());
    let (tool, args) = head_of(argv);
    let base = unset_all(env, plan.env_unset);
    let set = set_all(base, plan.env_set, f);
    lemma_words();
    lemma_variables();
    lemma_built_in_edits(tool, args);
    law_a_placeholder_is_filled(f);
    law_a_task_is_told_its_share(argv, overrides, default_rows(), env, f);
    law_only_xcodebuild_gets_arguments(argv, overrides);
    assert(filled_args(plan.argv, argv.len() as int, f) =~= argv);
    let rule = row_for(default_rows(), tool, args);
    if let Some(r) = rule {
        assert(row_env(plan.class, r.env_set) =~= Seq::empty());
    }
    assert(plan.env_append.len() == 0);
    if tool == "cargo"@ {
        assert(plan.env_set.len() == 5);
        assert(plan.env_set[0] == ("MAKEFLAGS"@, auth()));
        assert(plan.env_set[1] == ("CARGO_MAKEFLAGS"@, auth()));
        assert(plan.env_set[2] == ("RUST_TEST_THREADS"@, "{cores}"@));
        lemma_set_to(base, plan.env_set, f, "CARGO_MAKEFLAGS"@, auth());
        lemma_set_to(base, plan.env_set, f, "RUST_TEST_THREADS"@, "{cores}"@);
    }
    if tool == "cmake"@ && args.contains("--build"@) {
        let name = "CMAKE_BUILD_PARALLEL_LEVEL"@;
        assert(plan.env_unset =~= seq![name]);
        assert(plan.env_unset[0] == name);
        assert(plan.env_set.len() == 3);
        lemma_unset_other(env, plan.env_unset, name);
        lemma_set_other(base, plan.env_set, f, name);
    }
}

/// A command that does not share the pool is not pointed at it: nothing that the
/// built-in table says sets `MAKEFLAGS` or `CARGO_MAKEFLAGS` for it, and what the
/// caller had there stays.
#[verifier::spinoff_prover]
pub proof fn law_only_jobserver_commands_are_pointed_at_the_pool(
    argv: Seq<Seq<char>>,
    overrides: Overrides,
    env: Map<Seq<char>, Seq<char>>,
    f: Fill,
    name: Seq<char>,
)
    requires
        plan_for(argv, overrides, default_rows()).class != Class::Jobserver,
        name == "MAKEFLAGS"@ || name == "CARGO_MAKEFLAGS"@,
    ensures
        ({
            let out = injected_env(plan_for(argv, overrides, default_rows()), env, f);
            &&& out.contains_key(name) <==> env.contains_key(name)
            &&& env.contains_key(name) ==> out[name] == env[name]
        }),
{
    let plan = plan_for(argv, overrides, default_rows());
    let (tool, args) = head_of(argv);
    lemma_variables();
    lemma_built_in_edits(tool, args);
    if let Some(r) = row_for(default_rows(), tool, args) {
        assert(row_env(plan.class, r.env_set) =~= Seq::empty());
    }
    assert(!assigns(plan.env_set, name));
    assert(!assigns(plan.env_append, name));
    assert(plan.env_unset.len() == 0);
    law_other_variables_are_kept(
        env,
        plan.env_unset,
        plan.env_set,
        plan.env_append,
        f,
        name,
    );
}

} // verus!
