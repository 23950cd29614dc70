use vstd::prelude::*;

use crate::template::{str_eq, trim_spec, trim_str};

verus! {

/// Mathematical value of a [`Runner`]: each field as the sequence of its characters.
#[verifier::ext_equal]
pub ghost struct RunnerV {
    pub name: Seq<char>,
    pub cmd: Seq<char>,
    pub quit_fast: bool,
}

/// Mathematical value of a [`RunnerConfig`].
#[verifier::ext_equal]
pub ghost struct RunnerConfigV {
    pub name: Option<Seq<char>>,
    pub cmd: Option<Seq<char>>,
    pub quit_fast: Option<bool>,
}

/// Holds all state required by a runner to execute a command.
pub struct Runner {
    /// The name to call the runner in the selection list, for searching / selecting.
    pub name: String,
    /// The command to execute at run-time.
    pub cmd: String,
    /// False if the caller should prompt for an extra ENTER press before exiting.
    pub quit_fast: bool,
}

/// One raw entry of a configuration source. Every field is optional; a missing
/// field falls back to a fixed default when the entry is materialized into a
/// [`Runner`].
pub struct RunnerConfig {
    pub name: Option<String>,
    pub cmd: Option<String>,
    pub quit_fast: Option<bool>,
}

impl View for Runner {
    type V = RunnerV;

    open spec fn view(&self) -> RunnerV {
        RunnerV { name: self.name@, cmd: self.cmd@, quit_fast: self.quit_fast }
    }
}

impl DeepView for Runner {
    type V = RunnerV;

    open spec fn deep_view(&self) -> RunnerV {
        self.view()
    }
}

impl View for RunnerConfig {
    type V = RunnerConfigV;

    open spec fn view(&self) -> RunnerConfigV {
        RunnerConfigV {
            name: match self.name {
                Some(ref n) => Some(n@),
                None => None,
            },
            cmd: match self.cmd {
                Some(ref c) => Some(c@),
                None => None,
            },
            quit_fast: self.quit_fast,
        }
    }
}

impl DeepView for RunnerConfig {
    type V = RunnerConfigV;

    open spec fn deep_view(&self) -> RunnerConfigV {
        self.view()
    }
}

impl Clone for Runner {
    fn clone(&self) -> (r: Self)
        ensures
            r@ == self@,
    {
        Runner { name: self.name.clone(), cmd: self.cmd.clone(), quit_fast: self.quit_fast }
    }
}

/// The name a config entry gets when it does not set one.
pub open spec fn default_name() -> Seq<char> {
    "Default Runner Name"@
}

/// The command a config entry gets when it does not set one.
pub open spec fn default_cmd() -> Seq<char> {
    "echo 'command not set'"@
}

/// The runner a single config entry stands for, each missing field replaced by
/// its fixed default.
pub open spec fn materialize(c: RunnerConfigV) -> RunnerV {
    RunnerV {
        name: match c.name {
            Some(n) => n,
            None => default_name(),
        },
        cmd: match c.cmd {
            Some(s) => s,
            None => default_cmd(),
        },
        quit_fast: match c.quit_fast {
            Some(b) => b,
            None => false,
        },
    }
}

impl Runner {
    /// Returns a `Runner`, filling in any blanks of the config entry with defaults.
    pub fn new_from_config(conf: &RunnerConfig) -> (r: Runner)
        ensures
            r@ == materialize(conf@),
    {
        Runner {
            name: match &conf.name {
                Some(n) => n.clone(),
                None => "Default Runner Name".to_owned(),
            },
            cmd: match &conf.cmd {
                Some(c) => c.clone(),
                None => "echo 'command not set'".to_owned(),
            },
            quit_fast: match conf.quit_fast {
                Some(b) => b,
                None => false,
            },
        }
    }
}

/// The exit behaviour an interactive answer selects: `y` (any case) asks for an
/// ENTER pause before exiting, `n` declines one, anything else keeps the
/// runner's current setting.
pub open spec fn decide_quit_fast(current: bool, trimmed: Seq<char>) -> bool {
    if trimmed == seq!['Y'] || trimmed == seq!['y'] {
        false
    } else if trimmed == seq!['N'] || trimmed == seq!['n'] {
        true
    } else {
        current
    }
}

/// The preview pane text of a runner: its fields, one per line.
pub open spec fn preview_spec(r: RunnerV) -> Seq<char> {
    "[PARAMS]\nname="@ + r.name + "\ncmd="@ + r.cmd + "\nquit_fast="@ + (if r.quit_fast {
        "true"@
    } else {
        "false"@
    }) + "\n"@
}

/// The last runner of the sequence carrying the given name, if any.
pub open spec fn find_last_by_name(rs: Seq<RunnerV>, name: Seq<char>) -> Option<RunnerV>
    decreases rs.len(),
{
    if rs.len() == 0 {
        None
    } else if rs.last().name == name {
        Some(rs.last())
    } else {
        find_last_by_name(rs.drop_last(), name)
    }
}

impl Runner {
    /// Updates `quit_fast` from an interactive answer, trimmed first; the other
    /// fields stay as they are.
    pub fn get_quit_fast(&mut self, line: &str)
        ensures
            final(self)@.name == old(self)@.name,
            final(self)@.cmd == old(self)@.cmd,
            final(self)@.quit_fast == decide_quit_fast(old(self)@.quit_fast, trim_spec(line@)),
    {
        let t = trim_str(line);
        let n = t.unicode_len();
        if n == 1 {
            let c = t.get_char(0);
            proof {
                assert(t@ =~= seq![t@[0int]]);
            }
            if c == 'Y' || c == 'y' {
                self.quit_fast = false;
            } else if c == 'N' || c == 'n' {
                self.quit_fast = true;
            }
        }
    }

    /// The text the selection list searches on: the runner's name.
    pub fn text(&self) -> (t: String)
        ensures
            t@ == self@.name,
    {
        self.name.clone()
    }

    /// The text of the preview pane for this runner.
    pub fn preview(&self) -> (p: String)
        ensures
            p@ == preview_spec(self@),
    {
        let mut out = String::new();
        out.append("[PARAMS]\nname=");
        out.append(self.name.as_str());
        out.append("\ncmd=");
        out.append(self.cmd.as_str());
        out.append("\nquit_fast=");
        if self.quit_fast {
            out.append("true");
        } else {
            out.append("false");
        }
        out.append("\n");
        proof {
            assert(out@ =~= preview_spec(self@));
        }
        out
    }
}

/// The runner a selection names: the last entry of the list carrying the
/// selected name, cloned, or nothing when no entry does.
pub fn find_runner_by_name(runners: &Vec<Runner>, name: &str) -> (r: Option<Runner>)
    ensures
        match r {
            Some(x) => find_last_by_name(runners.deep_view(), name@) == Some(x@),
            None => find_last_by_name(runners.deep_view(), name@) is None,
        },
{
    let mut chosen: Option<Runner> = None;
    let mut i: usize = 0;
    while i < runners.len()
        invariant
            i <= runners.len(),
            match chosen {
                Some(x) => find_last_by_name(runners.deep_view().take(i as int), name@) == Some(
                    x@,
                ),
                None => find_last_by_name(runners.deep_view().take(i as int), name@) is None,
            },
        decreases runners.len() - i,
    {
        if str_eq(runners[i].name.as_str(), name) {
            chosen = Some(runners[i].clone());
        }
        proof {
            assert(runners.deep_view().take(i + 1).drop_last() =~= runners.deep_view().take(
                i as int,
            ));
            assert(runners.deep_view().take(i + 1).last() == runners.deep_view()[i as int]);
        }
        i = i + 1;
    }
    proof {
        assert(runners.deep_view().take(runners@.len() as int) =~= runners.deep_view());
    }
    chosen
}

/// The runners a whole config source stands for, one per entry, in source order.
pub open spec fn materialize_all(cs: Seq<RunnerConfigV>) -> Seq<RunnerV> {
    cs.map_values(|c: RunnerConfigV| materialize(c))
}

/// Whether some runner of the sequence carries the given name.
pub open spec fn has_name(rs: Seq<RunnerV>, name: Seq<char>) -> bool {
    exists|i: int| 0 <= i < rs.len() && rs[i].name == name
}

/// The merge of the default layer into an accumulated runner list: defaults are
/// consumed from the last entry backwards, and one is appended only when no
/// runner gathered so far carries its name.
pub open spec fn merge_defaults(acc: Seq<RunnerV>, defaults: Seq<RunnerV>) -> Seq<RunnerV>
    decreases defaults.len(),
{
    if defaults.len() == 0 {
        acc
    } else {
        let d = defaults.last();
        let acc2 = if has_name(acc, d.name) {
            acc
        } else {
            acc.push(d)
        };
        merge_defaults(acc2, defaults.drop_last())
    }
}

/// The merged runner set of the two config layers: every user entry in source
/// order, then each default entry, taken in reverse source order, whose name no
/// earlier runner carries.
pub open spec fn merge_spec(defaults: Seq<RunnerConfigV>, user: Seq<RunnerConfigV>) -> Seq<
    RunnerV,
> {
    merge_defaults(materialize_all(user), materialize_all(defaults))
}

/// Materializes every entry of one config source, preserving source order.
pub fn runners_from_configs(confs: &Vec<RunnerConfig>) -> (rs: Vec<Runner>)
    ensures
        rs.deep_view() == materialize_all(confs.deep_view()),
{
    let mut rs: Vec<Runner> = Vec::new();
    let mut i: usize = 0;
    while i < confs.len()
        invariant
            i <= confs.len(),
            rs.deep_view() == materialize_all(confs.deep_view().take(i as int)),
        decreases confs.len() - i,
    {
        let r = Runner::new_from_config(&confs[i]);
        let ghost pre = rs.deep_view();
        rs.push(r);
        proof {
            assert(rs.deep_view() =~= pre.push(r@));
            assert(materialize_all(confs.deep_view().take(i + 1)) =~= pre.push(r@));
        }
        i = i + 1;
    }
    proof {
        assert(confs.deep_view().take(confs.len() as int) =~= confs.deep_view());
    }
    rs
}

/// Whether some runner of the list carries the given name.
pub fn contains_name(rs: &Vec<Runner>, name: &String) -> (b: bool)
    ensures
        b == has_name(rs.deep_view(), name@),
{
    let mut i: usize = 0;
    while i < rs.len()
        invariant
            i <= rs.len(),
            forall|k: int| 0 <= k < i ==> rs.deep_view()[k].name != name@,
        decreases rs.len() - i,
    {
        if rs[i].name == *name {
            proof {
                assert(rs.deep_view()[i as int].name == name@);
            }
            return true;
        }
        i = i + 1;
    }
    false
}

/// Combines the two config layers into the final runner set. All user entries
/// come first, in source order; then the default entries are consumed from the
/// end of their source, and each is kept only when no runner gathered so far
/// already carries its name. A default whose name collides with a user entry is
/// discarded wholesale: no field of it survives.
pub fn merge_runners(defaults: &Vec<RunnerConfig>, user: &Vec<RunnerConfig>) -> (rs: Vec<Runner>)
    ensures
        rs.deep_view() == merge_spec(defaults.deep_view(), user.deep_view()),
{
    let mut runners = runners_from_configs(user);
    let mut default_runners = runners_from_configs(defaults);
    while default_runners.len() > 0
        invariant
            merge_defaults(runners.deep_view(), default_runners.deep_view()) == merge_spec(
                defaults.deep_view(),
                user.deep_view(),
            ),
        decreases default_runners.len(),
    {
        let ghost pre = default_runners.deep_view();
        let dr = default_runners.pop().unwrap();
        proof {
            assert(default_runners.deep_view() =~= pre.drop_last());
            assert(dr.deep_view() == pre.last());
        }
        let already_exists = contains_name(&runners, &dr.name);
        if !already_exists {
            let ghost racc = runners.deep_view();
            runners.push(dr);
            proof {
                assert(runners.deep_view() =~= racc.push(pre.last()));
            }
        }
    }
    runners
}

/// Whether no two runners of the sequence share a name.
pub open spec fn distinct_names(rs: Seq<RunnerV>) -> bool {
    forall|i: int, j: int| 0 <= i < j < rs.len() ==> rs[i].name != rs[j].name
}

proof fn lemma_merge_defaults_shape(acc: Seq<RunnerV>, defaults: Seq<RunnerV>)
    ensures
        merge_defaults(acc, defaults).len() >= acc.len(),
        forall|i: int| 0 <= i < acc.len() ==> merge_defaults(acc, defaults)[i] == acc[i],
        forall|j: int|
            acc.len() <= j < merge_defaults(acc, defaults).len() ==> ((exists|k: int|
                0 <= k < defaults.len() && merge_defaults(acc, defaults)[j] == defaults[k])
                && !has_name(acc, merge_defaults(acc, defaults)[j].name)),
    decreases defaults.len(),
{
    if defaults.len() == 0 {
    } else {
        let d = defaults.last();
        let m = merge_defaults(acc, defaults);
        if has_name(acc, d.name) {
            lemma_merge_defaults_shape(acc, defaults.drop_last());
            assert forall|j: int| acc.len() <= j < m.len() implies ((exists|k: int|
                0 <= k < defaults.len() && m[j] == defaults[k]) && !has_name(acc, m[j].name)) by {
                let k = choose|k: int|
                    0 <= k < defaults.drop_last().len() && m[j] == defaults.drop_last()[k];
                assert(defaults.drop_last()[k] == defaults[k]);
            }
        } else {
            let acc2 = acc.push(d);
            lemma_merge_defaults_shape(acc2, defaults.drop_last());
            assert forall|i: int| 0 <= i < acc.len() implies m[i] == acc[i] by {
                assert(m[i] == acc2[i]);
                assert(acc2[i] == acc[i]);
            }
            assert forall|j: int| acc.len() <= j < m.len() implies ((exists|k: int|
                0 <= k < defaults.len() && m[j] == defaults[k]) && !has_name(acc, m[j].name)) by {
                if j == acc.len() {
                    assert(m[j] == acc2[j]);
                    assert(m[j] == defaults[defaults.len() - 1]);
                } else {
                    let k = choose|k: int|
                        0 <= k < defaults.drop_last().len() && m[j] == defaults.drop_last()[k];
                    assert(defaults.drop_last()[k] == defaults[k]);
                    if has_name(acc, m[j].name) {
                        let w = choose|w: int| 0 <= w < acc.len() && acc[w].name == m[j].name;
                        assert(acc2[w].name == m[j].name);
                        assert(has_name(acc2, m[j].name));
                    }
                }
            }
        }
    }
}

proof fn lemma_merge_defaults_distinct(acc: Seq<RunnerV>, defaults: Seq<RunnerV>)
    requires
        distinct_names(acc),
    ensures
        distinct_names(merge_defaults(acc, defaults)),
    decreases defaults.len(),
{
    if defaults.len() == 0 {
    } else {
        let d = defaults.last();
        if has_name(acc, d.name) {
            lemma_merge_defaults_distinct(acc, defaults.drop_last());
        } else {
            let acc2 = acc.push(d);
            assert forall|i: int, j: int| 0 <= i < j < acc2.len() implies acc2[i].name
                != acc2[j].name by {
                if j == acc.len() {
                    if acc2[i].name == d.name {
                        assert(acc[i].name == d.name);
                        assert(has_name(acc, d.name));
                    }
                }
            }
            lemma_merge_defaults_distinct(acc2, defaults.drop_last());
        }
    }
}

proof fn lemma_merge_defaults_disjoint(acc: Seq<RunnerV>, defaults: Seq<RunnerV>)
    requires
        distinct_names(defaults),
        forall|i: int, j: int|
            0 <= i < acc.len() && 0 <= j < defaults.len() ==> acc[i].name != defaults[j].name,
    ensures
        merge_defaults(acc, defaults) == acc + defaults.reverse(),
    decreases defaults.len(),
{
    if defaults.len() == 0 {
        assert(merge_defaults(acc, defaults) =~= acc + defaults.reverse());
    } else {
        let d = defaults.last();
        assert(!has_name(acc, d.name)) by {
            if has_name(acc, d.name) {
                let w = choose|w: int| 0 <= w < acc.len() && acc[w].name == d.name;
                assert(acc[w].name != defaults[defaults.len() - 1].name);
            }
        }
        let acc2 = acc.push(d);
        assert forall|i: int, j: int|
            0 <= i < acc2.len() && 0 <= j < defaults.drop_last().len() implies acc2[i].name
            != defaults.drop_last()[j].name by {
            assert(defaults.drop_last()[j] == defaults[j]);
            if i < acc.len() {
                assert(acc2[i] == acc[i]);
            } else {
                assert(acc2[i] == defaults[defaults.len() - 1]);
            }
        }
        lemma_merge_defaults_disjoint(acc2, defaults.drop_last());
        assert(acc2 + defaults.drop_last().reverse() =~= acc + defaults.reverse());
    }
}

/// Merging layers whose runner names are disjoint discards nothing: the result is
/// the user layer in source order followed by the whole default layer in reverse
/// source order, and no two entries of it share a name.
pub proof fn lemma_merge_disjoint_layers(defaults: Seq<RunnerConfigV>, user: Seq<RunnerConfigV>)
    requires
        distinct_names(materialize_all(user)),
        distinct_names(materialize_all(defaults)),
        forall|i: int, j: int|
            0 <= i < user.len() && 0 <= j < defaults.len() ==> materialize_all(user)[i].name
                != materialize_all(defaults)[j].name,
    ensures
        merge_spec(defaults, user) == materialize_all(user) + materialize_all(defaults).reverse(),
        distinct_names(merge_spec(defaults, user)),
{
    lemma_merge_defaults_disjoint(materialize_all(user), materialize_all(defaults));
    lemma_merge_defaults_distinct(materialize_all(user), materialize_all(defaults));
}

/// In the merged set the user layer wins every name collision outright: the first
/// entries are exactly the user entries in source order, and every later entry is
/// one of the default entries, kept whole, whose name no user entry carries.
pub proof fn lemma_merge_user_precedence(defaults: Seq<RunnerConfigV>, user: Seq<RunnerConfigV>)
    ensures
        merge_spec(defaults, user).len() >= user.len(),
        forall|i: int|
            0 <= i < user.len() ==> merge_spec(defaults, user)[i] == materialize(user[i]),
        forall|j: int|
            user.len() <= j < merge_spec(defaults, user).len() ==> ((exists|k: int|
                0 <= k < defaults.len() && merge_spec(defaults, user)[j] == materialize(
                    defaults[k],
                )) && !has_name(materialize_all(user), merge_spec(defaults, user)[j].name)),
{
    let m = merge_spec(defaults, user);
    lemma_merge_defaults_shape(materialize_all(user), materialize_all(defaults));
    assert forall|i: int| 0 <= i < user.len() implies m[i] == materialize(user[i]) by {
        assert(m[i] == materialize_all(user)[i]);
    }
    assert forall|j: int| #![trigger m[j]] user.len() <= j < m.len() implies (exists|k: int|
        0 <= k < defaults.len() && m[j] == materialize(defaults[k])) by {
        let k = choose|k: int|
            0 <= k < materialize_all(defaults).len() && m[j] == materialize_all(defaults)[k];
        assert(materialize_all(defaults)[k] == materialize(defaults[k]));
    }
}

/// When the user layer itself has no repeated runner names, neither has the
/// merged set.
pub proof fn lemma_merge_distinct(defaults: Seq<RunnerConfigV>, user: Seq<RunnerConfigV>)
    requires
        distinct_names(materialize_all(user)),
    ensures
        distinct_names(merge_spec(defaults, user)),
{
    lemma_merge_defaults_distinct(materialize_all(user), materialize_all(defaults));
}

} // verus!
