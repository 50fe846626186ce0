//! What holds of every deep merge.

use vstd::prelude::*;
use crate::json::{
    Json, index_of_key, get_member, keys_distinct, lemma_index_of_key,
    lemma_index_of_key_same_keys, lemma_index_of_key_push, lemma_index_of_key_distinct,
};
use crate::merge::{merge, merge_members, merge_step, combine};

verus! {

/// Merging one member changes what its key holds, as `combine` says, and
/// what no other key holds.
pub proof fn lemma_step_get(
    acc: Seq<(Seq<char>, Json)>,
    member: (Seq<char>, Json),
    key: Seq<char>,
)
    ensures
        get_member(merge_step(acc, member), key) == if key == member.0 {
            combine(get_member(acc, key), Some(member.1))
        } else {
            get_member(acc, key)
        },
{
    lemma_index_of_key(acc, member.0);
    lemma_index_of_key(acc, key);
    match index_of_key(acc, member.0) {
        Some(i) => {
            let r = acc.update(i, (member.0, merge(acc[i].1, member.1)));
            assert forall|j: int| 0 <= j < acc.len() implies #[trigger] acc[j].0 == r[j].0 by {}
            lemma_index_of_key_same_keys(acc, r, key);
            if let Some(j) = index_of_key(acc, key) {
                if key != member.0 {
                    assert(j != i);
                }
            }
        },
        None => {
            lemma_index_of_key_push(acc, member, key);
            let r = acc.push(member);
            if let Some(j) = index_of_key(acc, key) {
                assert(r[j] == acc[j]);
            }
        },
    }
}

/// After the first `n` source members are merged, a key holds what
/// `combine` gives for what it held in the target and in those `n` members.
pub proof fn lemma_merge_members_get(
    tm: Seq<(Seq<char>, Json)>,
    sm: Seq<(Seq<char>, Json)>,
    n: nat,
    key: Seq<char>,
)
    requires
        keys_distinct(sm),
        n <= sm.len(),
    ensures
        get_member(merge_members(tm, sm, n), key) == combine(
            get_member(tm, key),
            get_member(sm.take(n as int), key),
        ),
    decreases n,
{
    if n == 0 {
        lemma_index_of_key(sm.take(0), key);
    } else {
        let prev = sm.take(n - 1);
        let member = sm[n - 1];
        lemma_merge_members_get(tm, sm, (n - 1) as nat, key);
        lemma_step_get(merge_members(tm, sm, (n - 1) as nat), member, key);
        assert(sm.take(n as int) =~= prev.push(member));
        lemma_index_of_key_push(prev, member, key);
        lemma_index_of_key(prev, member.0);
        if key == member.0 {
            assert forall|j: int| 0 <= j < prev.len() implies prev[j].0 != key by {
                assert(prev[j] == sm[j]);
            }
            assert(get_member(sm.take(n as int), key) == Some(member.1));
        } else {
            lemma_index_of_key(prev, key);
            if let Some(i) = index_of_key(prev, key) {
                assert(prev.push(member)[i] == prev[i]);
            }
            assert(get_member(sm.take(n as int), key) == get_member(prev, key));
        }
    }
}

/// Merging two objects: the source keys are merged into, or added to, the
/// target, and every other key of the target keeps its value.
pub proof fn lemma_merge_objects_get(
    tm: Seq<(Seq<char>, Json)>,
    sm: Seq<(Seq<char>, Json)>,
    key: Seq<char>,
)
    requires
        keys_distinct(sm),
    ensures
        merge(Json::Object(tm), Json::Object(sm)) is Object,
        get_member(merge(Json::Object(tm), Json::Object(sm))->Object_0, key) == combine(
            get_member(tm, key),
            get_member(sm, key),
        ),
{
    lemma_merge_members_get(tm, sm, sm.len(), key);
    assert(sm.take(sm.len() as int) =~= sm);
}

/// A source value that is not an object replaces the target: scalars and
/// arrays overwrite.
pub proof fn lemma_merge_overwrites(target: Json, source: Json)
    requires
        !(source is Object),
    ensures
        merge(target, source) == source,
{
}

/// Merging into a target that is not an object gives the source.
pub proof fn lemma_merge_into_non_object(target: Json, source: Json)
    requires
        !(target is Object),
    ensures
        merge(target, source) == source,
{
}

/// Merging an empty object into an object changes nothing.
pub proof fn lemma_merge_empty_source(tm: Seq<(Seq<char>, Json)>)
    ensures
        merge(Json::Object(tm), Json::Object(Seq::empty())) == Json::Object(tm),
{
}

/// A well-formed value merged into itself is itself.
pub proof fn lemma_merge_self(v: Json)
    requires
        v.well_formed(),
    ensures
        merge(v, v) == v,
    decreases v, 0nat,
{
    if let Json::Object(vm) = v {
        assert(keys_distinct(vm));
        assert forall|i: int| 0 <= i < vm.len() implies (#[trigger] vm[i]).1.well_formed() by {
            assert(decreases_to!(v => vm[i].1));
        }
        lemma_merge_self_members(vm, vm.len());
    }
}

proof fn lemma_merge_self_members(vm: Seq<(Seq<char>, Json)>, n: nat)
    requires
        keys_distinct(vm),
        forall|i: int| 0 <= i < vm.len() ==> (#[trigger] vm[i]).1.well_formed(),
        n <= vm.len(),
    ensures
        merge_members(vm, vm, n) == vm,
    decreases vm, n,
{
    if n > 0 {
        lemma_merge_self_members(vm, (n - 1) as nat);
        let member = vm[n - 1];
        lemma_index_of_key_distinct(vm, n - 1);
        lemma_merge_self(member.1);
        assert(merge_step(vm, member) =~= vm);
    }
}

/// Merging keeps values well-formed: a merge of well-formed values holds
/// each key at most once in every object.
pub proof fn lemma_merge_well_formed(target: Json, source: Json)
    requires
        target.well_formed(),
        source.well_formed(),
    ensures
        merge(target, source).well_formed(),
    decreases source, 0nat,
{
    if let Json::Object(sm) = source {
        if let Json::Object(tm) = target {
            lemma_merge_members_well_formed(tm, sm, sm.len());
        }
    }
}

proof fn lemma_merge_members_well_formed(
    tm: Seq<(Seq<char>, Json)>,
    sm: Seq<(Seq<char>, Json)>,
    n: nat,
)
    requires
        keys_distinct(tm),
        forall|i: int| 0 <= i < tm.len() ==> (#[trigger] tm[i]).1.well_formed(),
        forall|i: int| 0 <= i < sm.len() ==> (#[trigger] sm[i]).1.well_formed(),
        n <= sm.len(),
    ensures
        keys_distinct(merge_members(tm, sm, n)),
        forall|i: int|
            0 <= i < merge_members(tm, sm, n).len() ==> (#[trigger] merge_members(
                tm,
                sm,
                n,
            )[i]).1.well_formed(),
    decreases sm, n,
{
    if n > 0 {
        lemma_merge_members_well_formed(tm, sm, (n - 1) as nat);
        let acc = merge_members(tm, sm, (n - 1) as nat);
        let member = sm[n - 1];
        lemma_index_of_key(acc, member.0);
        match index_of_key(acc, member.0) {
            Some(i) => {
                lemma_merge_well_formed(acc[i].1, member.1);
            },
            None => {},
        }
        let r = merge_step(acc, member);
        assert(r == merge_members(tm, sm, n));
    }
}

/// Merging the same source a second time changes nothing.
pub proof fn lemma_merge_idempotent(target: Json, source: Json)
    requires
        source.well_formed(),
    ensures
        merge(merge(target, source), source) == merge(target, source),
    decreases source, 0nat,
{
    match source {
        Json::Object(sm) => match target {
            Json::Object(tm) => {
                lemma_merge_members_absorb(tm, sm, sm.len());
                lemma_merge_members_refold(merge_members(tm, sm, sm.len()), sm, sm.len());
            },
            _ => {
                lemma_merge_self(source);
            },
        },
        _ => {},
    }
}

/// `members` already holds, under `member`'s key, a value that merging
/// `member`'s value into leaves unchanged.
pub open spec fn absorbs(members: Seq<(Seq<char>, Json)>, member: (Seq<char>, Json)) -> bool {
    match get_member(members, member.0) {
        Some(x) => merge(x, member.1) == x,
        None => false,
    }
}

proof fn lemma_merge_members_absorb(
    tm: Seq<(Seq<char>, Json)>,
    sm: Seq<(Seq<char>, Json)>,
    n: nat,
)
    requires
        keys_distinct(sm),
        forall|i: int| 0 <= i < sm.len() ==> (#[trigger] sm[i]).1.well_formed(),
        n <= sm.len(),
    ensures
        forall|p: int| 0 <= p < n ==> #[trigger] absorbs(merge_members(tm, sm, n), sm[p]),
    decreases sm, n,
{
    if n > 0 {
        lemma_merge_members_absorb(tm, sm, (n - 1) as nat);
        let acc = merge_members(tm, sm, (n - 1) as nat);
        let member = sm[n - 1];
        let r = merge_members(tm, sm, n);
        assert(r == merge_step(acc, member));
        assert forall|p: int| 0 <= p < n implies #[trigger] absorbs(r, sm[p]) by {
            lemma_step_get(acc, member, sm[p].0);
            if p == n - 1 {
                match get_member(acc, member.0) {
                    Some(x) => {
                        lemma_merge_idempotent(x, member.1);
                    },
                    None => {
                        lemma_merge_self(member.1);
                    },
                }
            } else {
                assert(sm[p].0 != member.0);
                assert(absorbs(acc, sm[p]));
            }
        }
    }
}

proof fn lemma_merge_members_refold(
    r: Seq<(Seq<char>, Json)>,
    sm: Seq<(Seq<char>, Json)>,
    n: nat,
)
    requires
        forall|p: int| 0 <= p < sm.len() ==> #[trigger] absorbs(r, sm[p]),
        n <= sm.len(),
    ensures
        merge_members(r, sm, n) == r,
    decreases n,
{
    if n > 0 {
        lemma_merge_members_refold(r, sm, (n - 1) as nat);
        let member = sm[n - 1];
        assert(absorbs(r, member));
        lemma_index_of_key(r, member.0);
        assert(merge_step(r, member) =~= r);
    }
}

} // verus!
