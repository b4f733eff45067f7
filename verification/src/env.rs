//! Environment binding: options records are populated from a list of
//! (name, value) pairs handed in by the embedder, and missing required
//! names are reported all at once.

use vstd::prelude::*;
use crate::errors::StartError;

verus! {

/// There is a pair with this exact name.
pub open spec fn env_has(env: Seq<(Seq<char>, Seq<char>)>, key: Seq<char>) -> bool {
    exists|i: int| 0 <= i < env.len() && (#[trigger] env[i]).0 == key
}

/// View of a sequence of string pairs.
pub open spec fn str_pair_views(s: Seq<(String, String)>) -> Seq<(Seq<char>, Seq<char>)> {
    s.map_values(|p: (String, String)| (p.0@, p.1@))
}

/// Value of the first pair with this name.
pub open spec fn env_first(env: Seq<(Seq<char>, Seq<char>)>, key: Seq<char>) -> Seq<char>
    decreases env.len(),
{
    if env.len() == 0 {
        Seq::empty()
    } else if env[0].0 == key {
        env[0].1
    } else {
        env_first(env.drop_first(), key)
    }
}

/// Look a name up in the environment pairs; the first match wins.
pub fn env_lookup(env: &Vec<(String, String)>, key: &String) -> (r: Option<String>)
    ensures
        r is Some <==> env_has(str_pair_views(env@), key@),
        r matches Some(v) ==> v@ == env_first(str_pair_views(env@), key@),
{
    let ghost kv = key@;
    let mut i: usize = 0;
    proof {
        assert(str_pair_views(env@).skip(0) =~= str_pair_views(env@));
    }
    while i < env.len()
        invariant
            i <= env@.len(),
            kv == key@,
            forall|j: int| 0 <= j < i ==> (#[trigger] str_pair_views(env@)[j]).0 != kv,
            env_first(str_pair_views(env@), kv) == env_first(
                str_pair_views(env@).skip(i as int),
                kv,
            ),
        decreases env@.len() - i,
    {
        let p = &env[i];
        proof {
            assert(str_pair_views(env@).skip(i as int)[0] == str_pair_views(env@)[i as int]);
            assert(str_pair_views(env@).skip(i as int).drop_first() =~= str_pair_views(
                env@,
            ).skip(i + 1));
        }
        if p.0 == *key {
            proof {
                assert(env_first(str_pair_views(env@), kv) == p.1@);
            }
            return Some(p.1.clone());
        }
        i = i + 1;
    }
    proof {
        assert(str_pair_views(env@).skip(i as int).len() == 0);
        assert(forall|j: int|
            0 <= j < str_pair_views(env@).len() ==> (#[trigger] str_pair_views(env@)[j]).0 != kv);
    }
    None
}

/// The required names that the environment lacks, in their given order.
pub open spec fn missing_of(
    required: Seq<Seq<char>>,
    env: Seq<(Seq<char>, Seq<char>)>,
) -> Seq<Seq<char>> {
    required.filter(|k: Seq<char>| !env_has(env, k))
}

/// Collect every required name that is absent from the environment.
/// Start-up fails fast on a non-empty result, reporting all names at
/// once rather than the first.
pub fn missing_vars(required: &Vec<String>, env: &Vec<(String, String)>) -> (r: Vec<String>)
    ensures
        r@.map_values(|s: String| s@) == missing_of(
            required@.map_values(|s: String| s@),
            str_pair_views(env@),
        ),
{
    let ghost reqv = required@.map_values(|s: String| s@);
    let mut out: Vec<String> = Vec::new();
    let mut i: usize = 0;
    proof {
        assert(reqv.take(0) =~= Seq::<Seq<char>>::empty());
        assert(reqv.take(0).filter(|k: Seq<char>| !env_has(str_pair_views(env@), k))
            =~= Seq::<Seq<char>>::empty());
    }
    while i < required.len()
        invariant
            i <= required@.len(),
            reqv == required@.map_values(|s: String| s@),
            out@.map_values(|s: String| s@) == missing_of(
                reqv.take(i as int),
                str_pair_views(env@),
            ),
        decreases required@.len() - i,
    {
        let name = &required[i];
        let found = env_lookup(env, name);
        let ghost prev = out@.map_values(|s: String| s@);
        proof {
            assert(reqv.take(i + 1).drop_last() =~= reqv.take(i as int));
            assert(reqv.take(i + 1).last() == name@);
        }
        if found.is_none() {
            out.push(name.clone());
            proof {
                reveal_with_fuel(Seq::<Seq<char>>::filter, 2);
                assert(!env_has(str_pair_views(env@), name@));
                assert(missing_of(reqv.take(i + 1), str_pair_views(env@)) == missing_of(
                    reqv.take(i as int),
                    str_pair_views(env@),
                ).push(name@));
                assert(out@.map_values(|s: String| s@) =~= prev.push(name@));
            }
        } else {
            proof {
                reveal_with_fuel(Seq::<Seq<char>>::filter, 2);
                assert(env_has(str_pair_views(env@), name@));
                assert(missing_of(reqv.take(i + 1), str_pair_views(env@)) == missing_of(
                    reqv.take(i as int),
                    str_pair_views(env@),
                ));
            }
        }
        i = i + 1;
    }
    proof {
        assert(reqv.take(reqv.len() as int) =~= reqv);
    }
    out
}

/// Check the environment for every required name, failing with a
/// `ConfigMissing` error that lists each absent one.
pub fn check_env(required: &Vec<String>, env: &Vec<(String, String)>) -> (r: Result<
    (),
    StartError,
>)
    ensures
        r is Ok <==> missing_of(
            required@.map_values(|s: String| s@),
            str_pair_views(env@),
        ).len() == 0,
        r matches Err(e) ==> e matches StartError::ConfigMissing(names) && names@.map_values(
            |s: String| s@,
        ) == missing_of(required@.map_values(|s: String| s@), str_pair_views(env@)),
{
    let missing = missing_vars(required, env);
    if missing.len() == 0 {
        Ok(())
    } else {
        Err(StartError::ConfigMissing(missing))
    }
}

} // verus!
