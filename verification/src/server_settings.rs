//! The environment variables of the Windrose dedicated server and the keys
//! of its `ServerDescription.json` that they set.

use vstd::prelude::*;
use crate::settings::{EnvVar, env_lookup, find_env_var};

verus! {

/// Variable name and dotted key path of every setting that the environment
/// can give to `ServerDescription.json`.
pub open spec fn server_description_table() -> Seq<(Seq<char>, Seq<char>)> {
    seq![
        ("WINDROSE_SERVER_NAME"@, "ServerDescription_Persistent.ServerName"@),
        ("WINDROSE_MAX_PLAYERS"@, "ServerDescription_Persistent.MaxPlayerCount"@),
        ("WINDROSE_REGION"@, "ServerDescription_Persistent.UserSelectedRegion"@),
        ("WINDROSE_DIRECT_CONNECTION"@, "ServerDescription_Persistent.UseDirectConnection"@),
        ("WINDROSE_DIRECT_PORT"@, "ServerDescription_Persistent.DirectConnectionServerPort"@),
        ("WINDROSE_PASSWORD"@, "ServerDescription_Persistent.Password"@),
        (
            "WINDROSE_IS_PASSWORD_PROTECTED"@,
            "ServerDescription_Persistent.IsPasswordProtected"@,
        ),
    ]
}

/// The models of a table of string pairs.
pub open spec fn pairs_model(v: Seq<(String, String)>) -> Seq<(Seq<char>, Seq<char>)> {
    Seq::new(v.len(), |i: int| (v[i].0@, v[i].1@))
}

fn push_pair(table: &mut Vec<(String, String)>, name: &str, path: &str)
    ensures
        pairs_model(final(table)@) == pairs_model(old(table)@).push((name@, path@)),
{
    table.push((String::from_str(name), String::from_str(path)));
    assert(pairs_model(table@) =~= pairs_model(old(table)@).push((name@, path@)));
}

/// The table from environment variable names to the key paths of
/// `ServerDescription.json` that they set.
pub fn server_description_mapping() -> (table: Vec<(String, String)>)
    ensures
        pairs_model(table@) == server_description_table(),
{
    let mut table: Vec<(String, String)> = Vec::new();
    proof {
        assert(pairs_model(table@) =~= Seq::empty());
    }
    push_pair(&mut table, "WINDROSE_SERVER_NAME", "ServerDescription_Persistent.ServerName");
    push_pair(&mut table, "WINDROSE_MAX_PLAYERS", "ServerDescription_Persistent.MaxPlayerCount");
    push_pair(&mut table, "WINDROSE_REGION", "ServerDescription_Persistent.UserSelectedRegion");
    push_pair(
        &mut table,
        "WINDROSE_DIRECT_CONNECTION",
        "ServerDescription_Persistent.UseDirectConnection",
    );
    push_pair(
        &mut table,
        "WINDROSE_DIRECT_PORT",
        "ServerDescription_Persistent.DirectConnectionServerPort",
    );
    push_pair(&mut table, "WINDROSE_PASSWORD", "ServerDescription_Persistent.Password");
    push_pair(
        &mut table,
        "WINDROSE_IS_PASSWORD_PROTECTED",
        "ServerDescription_Persistent.IsPasswordProtected",
    );
    proof {
        assert(pairs_model(table@) =~= server_description_table());
    }
    table
}

/// The server is password protected when `WINDROSE_PASSWORD` is set to a
/// non-empty value.
pub open spec fn password_protected(env: Seq<EnvVar>) -> bool {
    match env_lookup(env, "WINDROSE_PASSWORD"@) {
        Some(var) => var.value@.len() > 0,
        None => false,
    }
}

/// Whether `WINDROSE_PASSWORD` is set to a non-empty value.
pub fn is_password_protected(env: &Vec<EnvVar>) -> (protected: bool)
    ensures
        protected == password_protected(env@),
{
    let name = String::from_str("WINDROSE_PASSWORD");
    match find_env_var(env, &name) {
        Some(i) => !env[i].value.as_str().is_empty(),
        None => false,
    }
}

/// `env_lookup` gives the first variable with the name, and none exactly
/// when no variable has it.
pub proof fn lemma_env_lookup_first(env: Seq<EnvVar>, name: Seq<char>)
    ensures
        match env_lookup(env, name) {
            Some(var) => exists|i: int|
                0 <= i < env.len() && env[i] == var && env[i].name@ == name && forall|j: int|
                    0 <= j < i ==> (#[trigger] env[j]).name@ != name,
            None => forall|i: int| 0 <= i < env.len() ==> (#[trigger] env[i]).name@ != name,
        },
    decreases env.len(),
{
    if env.len() > 0 && env[0].name@ != name {
        let rest = env.drop_first();
        lemma_env_lookup_first(rest, name);
        match env_lookup(rest, name) {
            Some(var) => {
                let i = choose|i: int|
                    0 <= i < rest.len() && rest[i] == var && rest[i].name@ == name && forall|j: int|
                        0 <= j < i ==> (#[trigger] rest[j]).name@ != name;
                assert(env[i + 1] == rest[i]);
                assert forall|j: int| 0 <= j < i + 1 implies (#[trigger] env[j]).name@ != name by {
                    if j > 0 {
                        assert(env[j] == rest[j - 1]);
                    }
                }
            },
            None => {
                assert forall|i: int| 0 <= i < env.len() implies (#[trigger] env[i]).name@
                    != name by {
                    if i > 0 {
                        assert(env[i] == rest[i - 1]);
                    }
                }
            },
        }
    }
}

/// The server is password protected exactly when the environment sets
/// `WINDROSE_PASSWORD` to a non-empty value (where the name occurs more
/// than once, its first occurrence counts): any non-empty password turns
/// protection on, and an absent or empty one leaves it off.
pub proof fn lemma_password_protection(env: Seq<EnvVar>)
    ensures
        password_protected(env) <==> exists|i: int|
            0 <= i < env.len() && (#[trigger] env[i]).name@ == "WINDROSE_PASSWORD"@
                && env[i].value@.len() > 0 && forall|j: int|
                0 <= j < i ==> (#[trigger] env[j]).name@ != "WINDROSE_PASSWORD"@,
{
    let name = "WINDROSE_PASSWORD"@;
    lemma_env_lookup_first(env, name);
    if let Some(var) = env_lookup(env, name) {
        let i = choose|i: int|
            0 <= i < env.len() && env[i] == var && env[i].name@ == name && forall|j: int|
                0 <= j < i ==> (#[trigger] env[j]).name@ != name;
        if exists|k: int|
            0 <= k < env.len() && (#[trigger] env[k]).name@ == name && env[k].value@.len() > 0
                && forall|j: int| 0 <= j < k ==> (#[trigger] env[j]).name@ != name {
            let k = choose|k: int|
                0 <= k < env.len() && (#[trigger] env[k]).name@ == name && env[k].value@.len() > 0
                    && forall|j: int| 0 <= j < k ==> (#[trigger] env[j]).name@ != name;
            if k < i {
                assert(env[k].name@ != name);
            } else if i < k {
                assert(env[i].name@ != name);
            }
        }
    }
}

} // verus!
