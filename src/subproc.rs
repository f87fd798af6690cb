//! What a child process is started with: a program, its arguments, and the
//! variables to set in its environment.
use vstd::prelude::*;

verus! {

/// The variables that a list of pairs sets: a later pair for the same name
/// replaces an earlier one.
pub open spec fn env_map(pairs: Seq<(Seq<char>, Seq<char>)>) -> Map<Seq<char>, Seq<char>>
    decreases pairs.len(),
{
    if pairs.len() == 0 {
        Map::empty()
    } else {
        env_map(pairs.drop_last()).insert(pairs.last().0, pairs.last().1)
    }
}

pub open spec fn names_unique(pairs: Seq<(Seq<char>, Seq<char>)>) -> bool {
    forall|p: int, q: int| 0 <= p < q < pairs.len() ==> pairs[p].0 != pairs[q].0
}

pub open spec fn owned_pairs(v: Seq<(String, String)>) -> Seq<(Seq<char>, Seq<char>)> {
    v.map_values(|p: (String, String)| (p.0@, p.1@))
}

pub open spec fn borrowed_pairs(v: Seq<(&str, &str)>) -> Seq<(Seq<char>, Seq<char>)> {
    v.map_values(|p: (&str, &str)| (p.0@, p.1@))
}

/// A command to run, with the variables to set for it, each name once.
#[derive(Debug)]
pub struct ChildProcess {
    pub cmd: String,
    pub args: Vec<String>,
    pub envs: Vec<(String, String)>,
}

/// With distinct names, replacing the value of one name updates the map at
/// that name.
proof fn lemma_env_map_update(s: Seq<(Seq<char>, Seq<char>)>, j: int, v: Seq<char>)
    requires
        names_unique(s),
        0 <= j < s.len(),
    ensures
        env_map(s.update(j, (s[j].0, v))) == env_map(s).insert(s[j].0, v),
    decreases s.len(),
{
    let t = s.update(j, (s[j].0, v));
    if j == s.len() - 1 {
        assert(t.drop_last() =~= s.drop_last());
        assert(env_map(t) =~= env_map(s).insert(s[j].0, v));
    } else {
        let pre = s.drop_last();
        assert(t.drop_last() =~= pre.update(j, (pre[j].0, v)));
        lemma_env_map_update(pre, j, v);
        assert(s.last().0 != s[j].0);
        assert(env_map(t) =~= env_map(s).insert(s[j].0, v));
    }
}

/// Names of a unique-name list that the map holds are exactly the names listed.
proof fn lemma_env_map_domain(s: Seq<(Seq<char>, Seq<char>)>, k: Seq<char>)
    ensures
        env_map(s).contains_key(k) <==> exists|j: int| 0 <= j < s.len() && s[j].0 == k,
    decreases s.len(),
{
    if s.len() > 0 {
        lemma_env_map_domain(s.drop_last(), k);
        if exists|j: int| 0 <= j < s.len() - 1 && s.drop_last()[j].0 == k {
            let j = choose|j: int| 0 <= j < s.len() - 1 && s.drop_last()[j].0 == k;
            assert(s[j].0 == k);
        }
        if exists|j: int| 0 <= j < s.len() && s[j].0 == k {
            let j = choose|j: int| 0 <= j < s.len() && s[j].0 == k;
            if j < s.len() - 1 {
                assert(s.drop_last()[j].0 == k);
            }
        }
    }
}

impl ChildProcess {
    /// A command with its arguments and the variables to set; where a name
    /// is given twice the later value is kept.
    pub fn new(cmd: &str, args: &[&str], envs: &[(&str, &str)]) -> (r: ChildProcess)
        ensures
            r.cmd@ == cmd@,
            r.args@.map_values(|a: String| a@) == args@.map_values(|a: &str| a@),
            names_unique(owned_pairs(r.envs@)),
            env_map(owned_pairs(r.envs@)) == env_map(borrowed_pairs(envs@)),
    {
        let mut owned_args: Vec<String> = Vec::new();
        let mut i: usize = 0;
        while i < args.len()
            invariant
                0 <= i <= args@.len(),
                owned_args@.map_values(|a: String| a@) == args@.take(i as int).map_values(|a: &str| a@),
            decreases args@.len() - i,
        {
            let ghost before = owned_args@.map_values(|a: String| a@);
            let a = args[i].to_owned();
            owned_args.push(a);
            assert(owned_args@.map_values(|a: String| a@) =~= before.push(args@[i as int]@));
            assert(args@.take(i + 1) =~= args@.take(i as int).push(args@[i as int]));
            assert(owned_args@.map_values(|a: String| a@) =~= args@.take(i + 1).map_values(|a: &str| a@));
            i = i + 1;
        }
        assert(args@.take(i as int) =~= args@);
        let ghost input = borrowed_pairs(envs@);
        let mut vars: Vec<(String, String)> = Vec::new();
        let mut i: usize = 0;
        while i < envs.len()
            invariant
                0 <= i <= envs@.len(),
                input == borrowed_pairs(envs@),
                names_unique(owned_pairs(vars@)),
                env_map(owned_pairs(vars@)) == env_map(input.take(i as int)),
            decreases envs@.len() - i,
        {
            let (name, value) = envs[i];
            proof {
                assert(input.take(i + 1).drop_last() =~= input.take(i as int));
                assert(input.take(i + 1).last() == (name@, value@));
            }
            let ghost before = owned_pairs(vars@);
            let name_s = name.to_owned();
            let mut j: usize = 0;
            while j < vars.len() && !(vars[j].0 == name_s)
                invariant
                    0 <= j <= vars@.len(),
                    before == owned_pairs(vars@),
                    name_s@ == name@,
                    forall|t: int| 0 <= t < j ==> before[t].0 != name@,
                decreases vars@.len() - j,
            {
                assert(before[j as int].0 == vars@[j as int].0@);
                j = j + 1;
            }
            if j < vars.len() {
                assert(before[j as int].0 == name@);
                vars.set(j, (name_s, value.to_owned()));
                proof {
                    assert(owned_pairs(vars@) =~= before.update(j as int, (before[j as int].0, value@)));
                    lemma_env_map_update(before, j as int, value@);
                    assert forall|p: int, q: int| 0 <= p < q < owned_pairs(vars@).len()
                        implies owned_pairs(vars@)[p].0 != owned_pairs(vars@)[q].0 by {
                        assert(owned_pairs(vars@)[p].0 == before[p].0);
                        assert(owned_pairs(vars@)[q].0 == before[q].0);
                    }
                }
            } else {
                vars.push((name_s, value.to_owned()));
                proof {
                    assert(owned_pairs(vars@) =~= before.push((name@, value@)));
                    assert(owned_pairs(vars@).drop_last() =~= before);
                }
            }
            i = i + 1;
        }
        assert(input.take(i as int) =~= input);
        ChildProcess { cmd: cmd.to_owned(), args: owned_args, envs: vars }
    }
}

} // verus!
