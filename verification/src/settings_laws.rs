//! What holds of every application of environment settings to a document.

use vstd::prelude::*;
use crate::json::{
    Json, get_member, index_of_key, keys_distinct, lemma_index_of_key, lemma_index_of_key_same_keys,
    lemma_index_of_key_push,
};
use crate::merge::{merge, merge_members, merge_step};
use crate::merge_laws::{lemma_merge_objects_get, lemma_merge_well_formed};
use crate::equiv::{
    json_equiv, lemma_merge_equiv, lemma_equiv_objects, lemma_equiv_reflexive, lemma_equiv_transitive,
};
use crate::path::{nest, split_on, lemma_nest_well_formed};
use crate::env_value::typed_value;
use crate::settings::{EnvVar, env_lookup, apply_entry, apply_settings, setting_fragment};

verus! {

/// The value reached from `doc` by following the object keys `keys`.
pub open spec fn at_path(doc: Json, keys: Seq<Seq<char>>) -> Option<Json>
    decreases keys.len(),
{
    if keys.len() == 0 {
        Some(doc)
    } else {
        match doc {
            Json::Object(members) => match get_member(members, keys[0]) {
                Some(v) => at_path(v, keys.drop_first()),
                None => None,
            },
            _ => None,
        }
    }
}

/// Two key paths part: at some position both have a key and the keys
/// differ, so neither path is a prefix of the other.
pub open spec fn paths_diverge(p: Seq<Seq<char>>, q: Seq<Seq<char>>) -> bool
    decreases p.len(),
{
    p.len() > 0 && q.len() > 0 && (p[0] != q[0] || paths_diverge(p.drop_first(), q.drop_first()))
}

/// Parting is symmetric.
pub proof fn lemma_paths_diverge_symmetric(p: Seq<Seq<char>>, q: Seq<Seq<char>>)
    requires
        paths_diverge(p, q),
    ensures
        paths_diverge(q, p),
    decreases p.len(),
{
    if p[0] == q[0] {
        lemma_paths_diverge_symmetric(p.drop_first(), q.drop_first());
    }
}

proof fn lemma_single_member_get(k: Seq<char>, v: Json, key: Seq<char>)
    ensures
        keys_distinct(seq![(k, v)]),
        get_member(seq![(k, v)], key) == if key == k {
            Some(v)
        } else {
            None
        },
{
    lemma_index_of_key(seq![(k, v)], key);
}

proof fn lemma_at_path_nest(keys: Seq<Seq<char>>, v: Json)
    ensures
        at_path(nest(keys, v), keys) == Some(v),
    decreases keys.len(),
{
    if keys.len() > 0 {
        lemma_single_member_get(keys[0], nest(keys.drop_first(), v), keys[0]);
        lemma_at_path_nest(keys.drop_first(), v);
    }
}

/// Merging in a value placed under a key path leaves that value at the key
/// path, when the value is not an object.
pub proof fn lemma_merge_nest_at_path(doc: Json, keys: Seq<Seq<char>>, v: Json)
    requires
        !(v is Object),
    ensures
        at_path(merge(doc, nest(keys, v)), keys) == Some(v),
    decreases keys.len(),
{
    if keys.len() > 0 {
        let rest = keys.drop_first();
        let inner = nest(rest, v);
        let sm = seq![(keys[0], inner)];
        lemma_single_member_get(keys[0], inner, keys[0]);
        match doc {
            Json::Object(tm) => {
                lemma_merge_objects_get(tm, sm, keys[0]);
                match get_member(tm, keys[0]) {
                    Some(a) => {
                        lemma_merge_nest_at_path(a, rest, v);
                    },
                    None => {
                        lemma_at_path_nest(rest, v);
                    },
                }
            },
            _ => {
                lemma_at_path_nest(keys, v);
            },
        }
    }
}

/// A setting reads back: after the first `n` entries of `mapping` are
/// applied, the key path of the last of them holds the JSON value of its
/// variable, when that variable is set.
pub proof fn lemma_setting_reads_back(
    doc: Json,
    env: Seq<EnvVar>,
    mapping: Seq<(String, String)>,
    n: nat,
    var: EnvVar,
)
    requires
        0 < n <= mapping.len(),
        env_lookup(env, mapping[n - 1].0@) == Some(var),
    ensures
        at_path(apply_settings(doc, env, mapping, n), split_on(mapping[n - 1].1@, '.')) == Some(
            typed_value(var.value@, var.float_reading),
        ),
{
    let acc = apply_settings(doc, env, mapping, (n - 1) as nat);
    lemma_merge_nest_at_path(
        acc,
        split_on(mapping[n - 1].1@, '.'),
        typed_value(var.value@, var.float_reading),
    );
}

proof fn lemma_at_path_nest_diverge(p: Seq<Seq<char>>, v: Json, q: Seq<Seq<char>>)
    requires
        paths_diverge(p, q),
    ensures
        at_path(nest(p, v), q) is None,
    decreases p.len(),
{
    let inner = nest(p.drop_first(), v);
    lemma_single_member_get(p[0], inner, q[0]);
    if p[0] == q[0] {
        lemma_at_path_nest_diverge(p.drop_first(), v, q.drop_first());
    }
}

/// Merging in a value placed under a key path leaves what every path that
/// parts from it holds, at any depth.
pub proof fn lemma_merge_nest_keeps_diverging(d: Json, p: Seq<Seq<char>>, v: Json, q: Seq<Seq<char>>)
    requires
        paths_diverge(p, q),
    ensures
        at_path(merge(d, nest(p, v)), q) == at_path(d, q),
    decreases p.len(),
{
    let inner = nest(p.drop_first(), v);
    let sm = seq![(p[0], inner)];
    lemma_single_member_get(p[0], inner, q[0]);
    match d {
        Json::Object(tm) => {
            lemma_merge_objects_get(tm, sm, q[0]);
            if p[0] == q[0] {
                match get_member(tm, q[0]) {
                    Some(a) => {
                        lemma_merge_nest_keeps_diverging(a, p.drop_first(), v, q.drop_first());
                    },
                    None => {
                        lemma_at_path_nest_diverge(p.drop_first(), v, q.drop_first());
                    },
                }
            }
        },
        _ => {
            lemma_at_path_nest_diverge(p, v, q);
        },
    }
}

/// Applying settings leaves what a key path holds, at any depth, when the
/// path parts from every key path that an applied entry sets: unrelated
/// keys are kept, and only the specified fields change.
pub proof fn lemma_settings_keep_unrelated_paths(
    doc: Json,
    env: Seq<EnvVar>,
    mapping: Seq<(String, String)>,
    n: nat,
    q: Seq<Seq<char>>,
)
    requires
        n <= mapping.len(),
        forall|i: int|
            0 <= i < n && env_lookup(env, (#[trigger] mapping[i]).0@) is Some ==> paths_diverge(
                split_on(mapping[i].1@, '.'),
                q,
            ),
    ensures
        at_path(apply_settings(doc, env, mapping, n), q) == at_path(doc, q),
    decreases n,
{
    if n > 0 {
        lemma_settings_keep_unrelated_paths(doc, env, mapping, (n - 1) as nat, q);
        let acc = apply_settings(doc, env, mapping, (n - 1) as nat);
        let entry = mapping[n - 1];
        if let Some(var) = env_lookup(env, entry.0@) {
            lemma_merge_nest_keeps_diverging(
                acc,
                split_on(entry.1@, '.'),
                typed_value(var.value@, var.float_reading),
                q,
            );
        }
    }
}

/// Merging in a value that a key path already holds changes nothing, when
/// the value is not an object.
pub proof fn lemma_merge_nest_present(d: Json, p: Seq<Seq<char>>, v: Json)
    requires
        !(v is Object),
        at_path(d, p) == Some(v),
    ensures
        merge(d, nest(p, v)) == d,
    decreases p.len(),
{
    if p.len() > 0 {
        let tm = d->Object_0;
        let inner = nest(p.drop_first(), v);
        let sm = seq![(p[0], inner)];
        lemma_index_of_key(tm, p[0]);
        let i = index_of_key(tm, p[0])->0;
        lemma_merge_nest_present(tm[i].1, p.drop_first(), v);
        assert(merge_members(tm, sm, 0) == tm);
        assert(merge_members(tm, sm, 1) == merge_step(tm, sm[0]));
        assert(merge_step(tm, sm[0]) =~= tm);
    }
}

proof fn lemma_merge_single(tm: Seq<(Seq<char>, Json)>, k: Seq<char>, x: Json)
    ensures
        merge(Json::Object(tm), Json::Object(seq![(k, x)])) == Json::Object(
            merge_step(tm, (k, x)),
        ),
{
    let sm = seq![(k, x)];
    assert(merge_members(tm, sm, 0) == tm);
    assert(merge_members(tm, sm, 1) == merge_step(tm, sm[0]));
}

proof fn lemma_merge_nests_same_path(r: Seq<Seq<char>>, v: Json, w: Json)
    requires
        !(v is Object),
    ensures
        merge(nest(r, v), nest(r, w)) == nest(r, w),
    decreases r.len(),
{
    if r.len() > 0 {
        let k = r[0];
        let a = nest(r.drop_first(), v);
        let b = nest(r.drop_first(), w);
        lemma_merge_nests_same_path(r.drop_first(), v, w);
        lemma_merge_single(seq![(k, a)], k, b);
        assert(index_of_key(seq![(k, a)], k) == Some(0int));
        assert(merge_step(seq![(k, a)], (k, b)) =~= seq![(k, b)]);
    }
}

/// Merging in two values under the same key path, one after the other,
/// gives what merging in the second alone gives, when neither is an
/// object.
pub proof fn lemma_merge_nest_twice(d: Json, p: Seq<Seq<char>>, v: Json, w: Json)
    requires
        !(v is Object),
        !(w is Object),
    ensures
        merge(merge(d, nest(p, v)), nest(p, w)) == merge(d, nest(p, w)),
    decreases p.len(),
{
    if p.len() > 0 {
        let k = p[0];
        let rest = p.drop_first();
        let a = nest(rest, v);
        let b = nest(rest, w);
        match d {
            Json::Object(tm) => {
                lemma_index_of_key(tm, k);
                lemma_merge_single(tm, k, a);
                lemma_merge_single(tm, k, b);
                match index_of_key(tm, k) {
                    Some(i) => {
                        let m1 = tm.update(i, (k, merge(tm[i].1, a)));
                        lemma_merge_single(m1, k, b);
                        lemma_index_of_key_same_keys(tm, m1, k);
                        lemma_merge_nest_twice(tm[i].1, rest, v, w);
                        assert(merge_step(m1, (k, b)) =~= merge_step(tm, (k, b)));
                    },
                    None => {
                        let m1 = tm.push((k, a));
                        lemma_merge_single(m1, k, b);
                        lemma_index_of_key_push(tm, (k, a), k);
                        lemma_merge_nests_same_path(rest, v, w);
                        assert(merge_step(m1, (k, b)) =~= merge_step(tm, (k, b)));
                    },
                }
            },
            _ => {
                lemma_merge_nests_same_path(p, v, w);
            },
        }
    }
}

/// Merging in values under two parting key paths that the document already
/// has gives the same document in either order.
pub proof fn lemma_merge_nests_commute(d: Json, p: Seq<Seq<char>>, v: Json, q: Seq<Seq<char>>, w: Json)
    requires
        paths_diverge(p, q),
        at_path(d, p) is Some,
        at_path(d, q) is Some,
    ensures
        merge(merge(d, nest(p, v)), nest(q, w)) == merge(merge(d, nest(q, w)), nest(p, v)),
    decreases p.len(),
{
    let tm = d->Object_0;
    let kp = p[0];
    let kq = q[0];
    let a = nest(p.drop_first(), v);
    let b = nest(q.drop_first(), w);
    lemma_index_of_key(tm, kp);
    lemma_index_of_key(tm, kq);
    let i = index_of_key(tm, kp)->0;
    let j = index_of_key(tm, kq)->0;
    let x = (kp, merge(tm[i].1, a));
    let y = (kq, merge(tm[j].1, b));
    lemma_merge_single(tm, kp, a);
    lemma_merge_single(tm, kq, b);
    let t1 = tm.update(i, x);
    let t2 = tm.update(j, y);
    lemma_merge_single(t1, kq, b);
    lemma_merge_single(t2, kp, a);
    lemma_index_of_key_same_keys(tm, t1, kq);
    lemma_index_of_key_same_keys(tm, t2, kp);
    if kp == kq {
        lemma_merge_nests_commute(tm[i].1, p.drop_first(), v, q.drop_first(), w);
        assert(merge_step(t1, (kq, b)) =~= merge_step(t2, (kp, a)));
    } else {
        assert(merge_step(t1, (kq, b)) =~= merge_step(t2, (kp, a)));
    }
}

/// Among the entries of `mapping` before position `n` whose variables are
/// set, no key path is a proper prefix of another: any two are equal or
/// part.
pub open spec fn applied_paths_unnested(
    env: Seq<EnvVar>,
    mapping: Seq<(String, String)>,
    n: nat,
) -> bool {
    forall|i: int, j: int|
        0 <= i < j < n && env_lookup(env, (#[trigger] mapping[i]).0@) is Some && env_lookup(
            env,
            (#[trigger] mapping[j]).0@,
        ) is Some ==> split_on(mapping[i].1@, '.') == split_on(mapping[j].1@, '.')
            || paths_diverge(split_on(mapping[i].1@, '.'), split_on(mapping[j].1@, '.'))
}

/// The value that the last applied entry before position `n` with key path
/// `p` sets, if one does.
spec fn last_value(
    env: Seq<EnvVar>,
    mapping: Seq<(String, String)>,
    n: nat,
    p: Seq<Seq<char>>,
) -> Option<Json>
    decreases n,
{
    if n == 0 || n > mapping.len() {
        None
    } else {
        let earlier = last_value(env, mapping, (n - 1) as nat, p);
        match env_lookup(env, mapping[n - 1].0@) {
            Some(var) => if split_on(mapping[n - 1].1@, '.') == p {
                Some(typed_value(var.value@, var.float_reading))
            } else {
                earlier
            },
            None => earlier,
        }
    }
}

/// Every key path that an applied entry before position `n` sets is present
/// in `d`.
spec fn applied_paths_present(
    d: Json,
    env: Seq<EnvVar>,
    mapping: Seq<(String, String)>,
    n: nat,
) -> bool {
    forall|i: int|
        0 <= i < n && env_lookup(env, (#[trigger] mapping[i]).0@) is Some ==> at_path(
            d,
            split_on(mapping[i].1@, '.'),
        ) is Some
}

proof fn lemma_apply_settings_front(
    doc: Json,
    env: Seq<EnvVar>,
    mapping: Seq<(String, String)>,
    n: nat,
)
    requires
        0 < n <= mapping.len(),
    ensures
        apply_settings(doc, env, mapping, n) == apply_settings(
            apply_entry(doc, env, mapping[0]),
            env,
            mapping.drop_first(),
            (n - 1) as nat,
        ),
    decreases n,
{
    let rest = mapping.drop_first();
    let first = apply_entry(doc, env, mapping[0]);
    if n > 1 {
        lemma_apply_settings_front(doc, env, mapping, (n - 1) as nat);
        assert(rest[n - 2] == mapping[n - 1]);
        assert(apply_settings(first, env, rest, (n - 1) as nat) == apply_entry(
            apply_settings(first, env, rest, (n - 2) as nat),
            env,
            rest[n - 2],
        ));
    } else {
        assert(apply_settings(doc, env, mapping, 0) == doc);
        assert(apply_settings(first, env, rest, 0) == first);
    }
}

proof fn lemma_last_value_front(
    env: Seq<EnvVar>,
    mapping: Seq<(String, String)>,
    n: nat,
    p: Seq<Seq<char>>,
)
    requires
        0 < n <= mapping.len(),
    ensures
        last_value(env, mapping, n, p) == match last_value(
            env,
            mapping.drop_first(),
            (n - 1) as nat,
            p,
        ) {
            Some(x) => Some(x),
            None => last_value(env, mapping, 1, p),
        },
    decreases n,
{
    if n > 1 {
        lemma_last_value_front(env, mapping, (n - 1) as nat, p);
        assert(mapping.drop_first()[n - 2] == mapping[n - 1]);
    }
}

proof fn lemma_last_value_of_applied(
    env: Seq<EnvVar>,
    mapping: Seq<(String, String)>,
    n: nat,
    i: int,
)
    requires
        n <= mapping.len(),
        0 <= i < n,
        env_lookup(env, mapping[i].0@) is Some,
    ensures
        last_value(env, mapping, n, split_on(mapping[i].1@, '.')) is Some,
    decreases n,
{
    if i < n - 1 {
        lemma_last_value_of_applied(env, mapping, (n - 1) as nat, i);
    }
}

proof fn lemma_last_value_witness(
    env: Seq<EnvVar>,
    mapping: Seq<(String, String)>,
    n: nat,
    p: Seq<Seq<char>>,
) -> (k: int)
    requires
        n <= mapping.len(),
        last_value(env, mapping, n, p) is Some,
    ensures
        0 <= k < n,
        env_lookup(env, mapping[k].0@) is Some,
        split_on(mapping[k].1@, '.') == p,
    decreases n,
{
    if env_lookup(env, mapping[n - 1].0@) is Some && split_on(mapping[n - 1].1@, '.') == p {
        n - 1
    } else {
        lemma_last_value_witness(env, mapping, (n - 1) as nat, p)
    }
}

proof fn lemma_rest_unnested(env: Seq<EnvVar>, mapping: Seq<(String, String)>, n: nat)
    requires
        0 < n <= mapping.len(),
        applied_paths_unnested(env, mapping, n),
    ensures
        applied_paths_unnested(env, mapping.drop_first(), (n - 1) as nat),
{
    let rest = mapping.drop_first();
    assert forall|i: int, j: int|
        0 <= i < j < n - 1 && env_lookup(env, (#[trigger] rest[i]).0@) is Some && env_lookup(
            env,
            (#[trigger] rest[j]).0@,
        ) is Some implies split_on(rest[i].1@, '.') == split_on(rest[j].1@, '.') || paths_diverge(
        split_on(rest[i].1@, '.'),
        split_on(rest[j].1@, '.'),
    ) by {
        assert(rest[i] == mapping[i + 1]);
        assert(rest[j] == mapping[j + 1]);
    }
}

/// Setting an applied entry's key path to any value that is not an object
/// before the entries are applied makes no difference to the result, when
/// the applied key paths are present and unnested.
proof fn lemma_reset_absorbed(
    d: Json,
    env: Seq<EnvVar>,
    mapping: Seq<(String, String)>,
    n: nat,
    k: int,
    z: Json,
)
    requires
        n <= mapping.len(),
        0 <= k < n,
        env_lookup(env, mapping[k].0@) is Some,
        !(z is Object),
        applied_paths_unnested(env, mapping, n),
        applied_paths_present(d, env, mapping, n),
    ensures
        apply_settings(merge(d, nest(split_on(mapping[k].1@, '.'), z)), env, mapping, n)
            == apply_settings(d, env, mapping, n),
    decreases n,
{
    let p = split_on(mapping[k].1@, '.');
    let rest = mapping.drop_first();
    let n1 = (n - 1) as nat;
    lemma_apply_settings_front(merge(d, nest(p, z)), env, mapping, n);
    lemma_apply_settings_front(d, env, mapping, n);
    lemma_rest_unnested(env, mapping, n);
    let e = mapping[0];
    match env_lookup(env, e.0@) {
        None => {
            assert(rest[k - 1] == mapping[k]);
            assert forall|i: int|
                0 <= i < n1 && env_lookup(env, (#[trigger] rest[i]).0@) is Some implies at_path(
                d,
                split_on(rest[i].1@, '.'),
            ) is Some by {
                assert(rest[i] == mapping[i + 1]);
            }
            lemma_reset_absorbed(d, env, rest, n1, k - 1, z);
        },
        Some(var) => {
            let q = split_on(e.1@, '.');
            let y = typed_value(var.value@, var.float_reading);
            if q == p {
                lemma_merge_nest_twice(d, p, z, y);
            } else {
                assert(paths_diverge(q, p));
                lemma_paths_diverge_symmetric(q, p);
                lemma_merge_nests_commute(d, p, z, q, y);
                let d1 = merge(d, nest(q, y));
                assert forall|i: int|
                    0 <= i < n1 && env_lookup(env, (#[trigger] rest[i]).0@) is Some implies at_path(
                    d1,
                    split_on(rest[i].1@, '.'),
                ) is Some by {
                    assert(rest[i] == mapping[i + 1]);
                    let r = split_on(rest[i].1@, '.');
                    if r == q {
                        lemma_merge_nest_at_path(d, q, y);
                    } else {
                        assert(paths_diverge(q, r));
                        lemma_merge_nest_keeps_diverging(d, q, y, r);
                    }
                }
                assert(rest[k - 1] == mapping[k]);
                lemma_reset_absorbed(d1, env, rest, n1, k - 1, z);
            }
        },
    }
}

/// A document in which every applied key path holds the value of the last
/// applied entry with that path is left as it is by the entries.
proof fn lemma_settings_fixed(d: Json, env: Seq<EnvVar>, mapping: Seq<(String, String)>, n: nat)
    requires
        n <= mapping.len(),
        applied_paths_unnested(env, mapping, n),
        forall|i: int|
            0 <= i < n && env_lookup(env, (#[trigger] mapping[i]).0@) is Some ==> at_path(
                d,
                split_on(mapping[i].1@, '.'),
            ) == last_value(env, mapping, n, split_on(mapping[i].1@, '.')),
    ensures
        apply_settings(d, env, mapping, n) == d,
    decreases n,
{
    if n > 0 {
        let rest = mapping.drop_first();
        let n1 = (n - 1) as nat;
        lemma_apply_settings_front(d, env, mapping, n);
        lemma_rest_unnested(env, mapping, n);
        assert forall|i: int|
            0 <= i < n1 && env_lookup(env, (#[trigger] rest[i]).0@) is Some implies at_path(
                d,
                split_on(rest[i].1@, '.'),
            ) == last_value(env, rest, n1, split_on(rest[i].1@, '.')) by {
            assert(rest[i] == mapping[i + 1]);
            lemma_last_value_of_applied(env, rest, n1, i);
            lemma_last_value_front(env, mapping, n, split_on(rest[i].1@, '.'));
        }
        match env_lookup(env, mapping[0].0@) {
            None => {},
            Some(var) => {
                let q = split_on(mapping[0].1@, '.');
                let y = typed_value(var.value@, var.float_reading);
                lemma_last_value_front(env, mapping, n, q);
                match last_value(env, rest, n1, q) {
                    Some(_) => {
                        let k = lemma_last_value_witness(env, rest, n1, q);
                        assert forall|i: int|
                            0 <= i < n1 && env_lookup(env, (#[trigger] rest[i]).0@)
                                is Some implies at_path(d, split_on(rest[i].1@, '.')) is Some by {
                            lemma_last_value_of_applied(env, rest, n1, i);
                        }
                        lemma_reset_absorbed(d, env, rest, n1, k, y);
                    },
                    None => {
                        assert(at_path(d, q) == Some(y));
                        lemma_merge_nest_present(d, q, y);
                    },
                }
            },
        }
        lemma_settings_fixed(d, env, rest, n1);
    }
}

/// After the entries are applied, every applied key path holds the value of
/// the last applied entry with that path.
proof fn lemma_last_values_hold(doc: Json, env: Seq<EnvVar>, mapping: Seq<(String, String)>, n: nat)
    requires
        n <= mapping.len(),
        applied_paths_unnested(env, mapping, n),
    ensures
        forall|i: int|
            0 <= i < n && env_lookup(env, (#[trigger] mapping[i]).0@) is Some ==> at_path(
                apply_settings(doc, env, mapping, n),
                split_on(mapping[i].1@, '.'),
            ) == last_value(env, mapping, n, split_on(mapping[i].1@, '.')),
    decreases n,
{
    if n > 0 {
        lemma_last_values_hold(doc, env, mapping, (n - 1) as nat);
        let acc = apply_settings(doc, env, mapping, (n - 1) as nat);
        let e = mapping[n - 1];
        match env_lookup(env, e.0@) {
            None => {},
            Some(var) => {
                let p = split_on(e.1@, '.');
                let v = typed_value(var.value@, var.float_reading);
                assert forall|i: int|
                    0 <= i < n && env_lookup(env, (#[trigger] mapping[i]).0@) is Some implies at_path(
                    apply_settings(doc, env, mapping, n),
                    split_on(mapping[i].1@, '.'),
                ) == last_value(env, mapping, n, split_on(mapping[i].1@, '.')) by {
                    let r = split_on(mapping[i].1@, '.');
                    if r == p {
                        lemma_merge_nest_at_path(acc, p, v);
                    } else {
                        assert(paths_diverge(r, p));
                        lemma_paths_diverge_symmetric(r, p);
                        lemma_merge_nest_keeps_diverging(acc, p, v, r);
                    }
                }
            },
        }
    }
}

/// Applying the same settings a second time changes nothing, when no key
/// path set by an entry whose variable is set is a proper prefix of another
/// such path (equal paths are allowed: the last entry wins both times).
pub proof fn lemma_apply_settings_twice(
    doc: Json,
    env: Seq<EnvVar>,
    mapping: Seq<(String, String)>,
    n: nat,
)
    requires
        n <= mapping.len(),
        applied_paths_unnested(env, mapping, n),
    ensures
        apply_settings(apply_settings(doc, env, mapping, n), env, mapping, n) == apply_settings(
            doc,
            env,
            mapping,
            n,
        ),
{
    lemma_last_values_hold(doc, env, mapping, n);
    lemma_settings_fixed(apply_settings(doc, env, mapping, n), env, mapping, n);
}

/// Applying settings keeps a document well-formed.
pub proof fn lemma_apply_settings_well_formed(
    doc: Json,
    env: Seq<EnvVar>,
    mapping: Seq<(String, String)>,
    n: nat,
)
    requires
        doc.well_formed(),
    ensures
        apply_settings(doc, env, mapping, n).well_formed(),
    decreases n,
{
    if 0 < n <= mapping.len() {
        lemma_apply_settings_well_formed(doc, env, mapping, (n - 1) as nat);
        let entry = mapping[n - 1];
        if let Some(var) = env_lookup(env, entry.0@) {
            lemma_nest_well_formed(
                split_on(entry.1@, '.'),
                typed_value(var.value@, var.float_reading),
            );
            lemma_merge_well_formed(
                apply_settings(doc, env, mapping, (n - 1) as nat),
                setting_fragment(entry.1@, var),
            );
        }
    }
}

/// Applying the same settings to equivalent documents (the same up to the
/// order of object members) gives equivalent documents.
pub proof fn lemma_apply_settings_equiv(
    d: Json,
    d2: Json,
    env: Seq<EnvVar>,
    mapping: Seq<(String, String)>,
    n: nat,
)
    requires
        json_equiv(d, d2),
    ensures
        json_equiv(apply_settings(d, env, mapping, n), apply_settings(d2, env, mapping, n)),
    decreases n,
{
    if 0 < n <= mapping.len() {
        lemma_apply_settings_equiv(d, d2, env, mapping, (n - 1) as nat);
        let entry = mapping[n - 1];
        if let Some(var) = env_lookup(env, entry.0@) {
            lemma_nest_well_formed(
                split_on(entry.1@, '.'),
                typed_value(var.value@, var.float_reading),
            );
            lemma_merge_equiv(
                apply_settings(d, env, mapping, (n - 1) as nat),
                apply_settings(d2, env, mapping, (n - 1) as nat),
                setting_fragment(entry.1@, var),
            );
        }
    }
}

/// Among the entries of `mapping` before position `n` whose variables are
/// set, the key paths pairwise part: no path equals another or is a prefix
/// of another.
pub open spec fn applied_paths_diverge(
    env: Seq<EnvVar>,
    mapping: Seq<(String, String)>,
    n: nat,
) -> bool {
    forall|i: int, j: int|
        0 <= i < j < n && env_lookup(env, (#[trigger] mapping[i]).0@) is Some && env_lookup(
            env,
            (#[trigger] mapping[j]).0@,
        ) is Some ==> paths_diverge(split_on(mapping[i].1@, '.'), split_on(mapping[j].1@, '.'))
}

proof fn lemma_apply_settings_prefix(
    d: Json,
    env: Seq<EnvVar>,
    m1: Seq<(String, String)>,
    m2: Seq<(String, String)>,
    n: nat,
)
    requires
        n <= m1.len(),
        n <= m2.len(),
        forall|i: int| 0 <= i < n ==> m1[i] == m2[i],
    ensures
        apply_settings(d, env, m1, n) == apply_settings(d, env, m2, n),
    decreases n,
{
    if n > 0 {
        lemma_apply_settings_prefix(d, env, m1, m2, (n - 1) as nat);
        assert(m1[n - 1] == m2[n - 1]);
    }
}

proof fn lemma_apply_settings_push(
    d: Json,
    env: Seq<EnvVar>,
    m: Seq<(String, String)>,
    x: (String, String),
)
    ensures
        apply_settings(d, env, m.push(x), m.len() + 1) == apply_entry(
            apply_settings(d, env, m, m.len()),
            env,
            x,
        ),
{
    lemma_apply_settings_prefix(d, env, m, m.push(x), m.len());
    assert(m.push(x)[m.len() as int] == x);
}

proof fn lemma_commute_into_object(
    tm: Seq<(Seq<char>, Json)>,
    p: Seq<Seq<char>>,
    v: Json,
    q: Seq<Seq<char>>,
    w: Json,
)
    requires
        paths_diverge(p, q),
    ensures
        json_equiv(
            merge(merge(Json::Object(tm), nest(p, v)), nest(q, w)),
            merge(merge(Json::Object(tm), nest(q, w)), nest(p, v)),
        ),
    decreases p.len(), 0nat,
{
    let a = nest(p.drop_first(), v);
    let b = nest(q.drop_first(), w);
    let sp = seq![(p[0], a)];
    let sq = seq![(q[0], b)];
    lemma_single_member_get(p[0], a, p[0]);
    lemma_single_member_get(q[0], b, q[0]);
    lemma_merge_objects_get(tm, sp, p[0]);
    lemma_merge_objects_get(tm, sq, q[0]);
    let t1 = merge(Json::Object(tm), Json::Object(sp))->Object_0;
    let t2 = merge(Json::Object(tm), Json::Object(sq))->Object_0;
    lemma_merge_objects_get(t1, sq, q[0]);
    lemma_merge_objects_get(t2, sp, p[0]);
    let r1 = merge(Json::Object(t1), Json::Object(sq))->Object_0;
    let r2 = merge(Json::Object(t2), Json::Object(sp))->Object_0;
    lemma_equiv_objects(r1, r2);
    assert forall|k: Seq<char>|
        match (#[trigger] get_member(r1, k), get_member(r2, k)) {
            (Some(x), Some(y)) => json_equiv(x, y),
            (None, None) => true,
            _ => false,
        } by {
        lemma_single_member_get(p[0], a, k);
        lemma_single_member_get(q[0], b, k);
        lemma_merge_objects_get(tm, sp, k);
        lemma_merge_objects_get(tm, sq, k);
        lemma_merge_objects_get(t1, sq, k);
        lemma_merge_objects_get(t2, sp, k);
        if k == p[0] && k == q[0] {
            match get_member(tm, k) {
                Some(t0) => {
                    lemma_merge_nests_commute_equiv(t0, p.drop_first(), v, q.drop_first(), w);
                },
                None => {
                    lemma_merge_nests_commute_equiv(
                        Json::Null,
                        p.drop_first(),
                        v,
                        q.drop_first(),
                        w,
                    );
                },
            }
        } else {
            if let Some(y) = get_member(r1, k) {
                lemma_equiv_reflexive(y);
            }
        }
    }
}

/// Merging in values under two parting key paths gives the same value, up
/// to the order of object members, in either order.
pub proof fn lemma_merge_nests_commute_equiv(
    x: Json,
    p: Seq<Seq<char>>,
    v: Json,
    q: Seq<Seq<char>>,
    w: Json,
)
    requires
        paths_diverge(p, q),
    ensures
        json_equiv(
            merge(merge(x, nest(p, v)), nest(q, w)),
            merge(merge(x, nest(q, w)), nest(p, v)),
        ),
    decreases p.len(), 1nat,
{
    match x {
        Json::Object(tm) => {
            lemma_commute_into_object(tm, p, v, q, w);
        },
        _ => {
            let e = Seq::<(Seq<char>, Json)>::empty();
            let a = nest(p.drop_first(), v);
            let b = nest(q.drop_first(), w);
            lemma_merge_single(e, p[0], a);
            lemma_merge_single(e, q[0], b);
            assert(merge_step(e, (p[0], a)) =~= seq![(p[0], a)]);
            assert(merge_step(e, (q[0], b)) =~= seq![(q[0], b)]);
            lemma_commute_into_object(e, p, v, q, w);
        },
    }
}

proof fn lemma_entry_equiv(a: Json, b: Json, env: Seq<EnvVar>, e: (String, String))
    requires
        json_equiv(a, b),
    ensures
        json_equiv(apply_entry(a, env, e), apply_entry(b, env, e)),
{
    if let Some(var) = env_lookup(env, e.0@) {
        lemma_nest_well_formed(split_on(e.1@, '.'), typed_value(var.value@, var.float_reading));
        lemma_merge_equiv(a, b, setting_fragment(e.1@, var));
    }
}

proof fn lemma_entries_commute(x: Json, env: Seq<EnvVar>, e: (String, String), f: (String, String))
    requires
        env_lookup(env, e.0@) is Some && env_lookup(env, f.0@) is Some ==> paths_diverge(
            split_on(e.1@, '.'),
            split_on(f.1@, '.'),
        ),
    ensures
        json_equiv(
            apply_entry(apply_entry(x, env, e), env, f),
            apply_entry(apply_entry(x, env, f), env, e),
        ),
{
    match (env_lookup(env, e.0@), env_lookup(env, f.0@)) {
        (Some(ve), Some(vf)) => {
            lemma_merge_nests_commute_equiv(
                x,
                split_on(e.1@, '.'),
                typed_value(ve.value@, ve.float_reading),
                split_on(f.1@, '.'),
                typed_value(vf.value@, vf.float_reading),
            );
        },
        _ => {
            lemma_equiv_reflexive(apply_entry(apply_entry(x, env, e), env, f));
        },
    }
}

proof fn lemma_move_to_end(d: Json, env: Seq<EnvVar>, m: Seq<(String, String)>, k: int)
    requires
        0 <= k < m.len(),
        forall|j: int|
            k < j < m.len() && env_lookup(env, m[k].0@) is Some && env_lookup(
                env,
                (#[trigger] m[j]).0@,
            ) is Some ==> paths_diverge(split_on(m[k].1@, '.'), split_on(m[j].1@, '.')),
    ensures
        json_equiv(
            apply_settings(d, env, m, m.len()),
            apply_settings(d, env, m.remove(k).push(m[k]), m.len()),
        ),
    decreases m.len(),
{
    let n = m.len();
    let e = m[k];
    if k == n - 1 {
        assert(m.remove(k).push(e) =~= m);
        lemma_equiv_reflexive(apply_settings(d, env, m, n));
    } else {
        let f = m.last();
        let m1 = m.drop_last();
        lemma_move_to_end(d, env, m1, k);
        assert(m1.push(f) =~= m);
        lemma_apply_settings_push(d, env, m1, f);
        let r = m1.remove(k);
        lemma_apply_settings_push(d, env, r, e);
        lemma_apply_settings_push(d, env, r, f);
        lemma_apply_settings_push(d, env, r.push(f), e);
        assert(r.push(f) =~= m.remove(k));
        assert(m1[k] == e);
        let a1 = apply_settings(d, env, m1, m1.len());
        let a2 = apply_settings(d, env, r.push(e), m1.len());
        let base = apply_settings(d, env, r, r.len());
        lemma_entry_equiv(a1, a2, env, f);
        assert(m[n - 1] == f);
        lemma_entries_commute(base, env, e, f);
        lemma_equiv_transitive(
            apply_entry(a1, env, f),
            apply_entry(a2, env, f),
            apply_entry(apply_entry(base, env, f), env, e),
        );
    }
}

/// The order in which the entries are applied does not matter, up to the
/// order of object members, when their key paths pairwise part: applying
/// any rearrangement of `mapping` gives an equivalent document.
pub proof fn lemma_apply_settings_any_order(
    d: Json,
    env: Seq<EnvVar>,
    m1: Seq<(String, String)>,
    m2: Seq<(String, String)>,
)
    requires
        m1.to_multiset() == m2.to_multiset(),
        applied_paths_diverge(env, m1, m1.len()),
    ensures
        json_equiv(apply_settings(d, env, m1, m1.len()), apply_settings(d, env, m2, m2.len())),
    decreases m2.len(),
{
    m1.to_multiset_ensures();
    m2.to_multiset_ensures();
    if m2.len() == 0 {
        lemma_equiv_reflexive(d);
    } else {
        let e = m2.last();
        let m2r = m2.drop_last();
        assert(m2r.push(e) =~= m2);
        m2r.to_multiset_ensures();
        assert(m1.to_multiset().count(e) > 0);
        assert(m1.contains(e));
        let k = choose|k: int| 0 <= k < m1.len() && m1[k] == e;
        let m1r = m1.remove(k);
        m1r.to_multiset_ensures();
        assert(m1r.to_multiset() =~= m2r.to_multiset());
        assert forall|i: int, j: int|
            0 <= i < j < m1r.len() && env_lookup(env, (#[trigger] m1r[i]).0@) is Some
                && env_lookup(env, (#[trigger] m1r[j]).0@) is Some implies paths_diverge(
            split_on(m1r[i].1@, '.'),
            split_on(m1r[j].1@, '.'),
        ) by {
            let i0 = if i < k {
                i
            } else {
                i + 1
            };
            let j0 = if j < k {
                j
            } else {
                j + 1
            };
            assert(m1r[i] == m1[i0]);
            assert(m1r[j] == m1[j0]);
        }
        lemma_apply_settings_any_order(d, env, m1r, m2r);
        lemma_move_to_end(d, env, m1, k);
        lemma_apply_settings_push(d, env, m1r, e);
        lemma_apply_settings_push(d, env, m2r, e);
        lemma_entry_equiv(
            apply_settings(d, env, m1r, m1r.len()),
            apply_settings(d, env, m2r, m2r.len()),
            env,
            e,
        );
        lemma_equiv_transitive(
            apply_settings(d, env, m1, m1.len()),
            apply_settings(d, env, m1r.push(e), m1.len()),
            apply_settings(d, env, m2, m2.len()),
        );
    }
}

} // verus!
