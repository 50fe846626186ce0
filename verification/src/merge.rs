//! Deep merge of one JSON value into another.

use vstd::prelude::*;
use crate::json::{Json, JsonValue, index_of_key, lemma_index_of_key, members_model};

verus! {

/// The deep merge of `source` into `target`: where both are objects, every
/// member of `source` is merged into the member of `target` with the same
/// key, or appended when `target` has none; in every other case the result
/// is `source` itself (scalars and arrays overwrite).
pub open spec fn merge(target: Json, source: Json) -> Json
    decreases source, 0nat,
{
    match source {
        Json::Object(sm) => match target {
            Json::Object(tm) => Json::Object(merge_members(tm, sm, sm.len())),
            _ => source,
        },
        _ => source,
    }
}

/// The members of `tm` after the first `n` members of `sm` have been merged
/// into them, one after the other.
pub open spec fn merge_members(
    tm: Seq<(Seq<char>, Json)>,
    sm: Seq<(Seq<char>, Json)>,
    n: nat,
) -> Seq<(Seq<char>, Json)>
    decreases sm, n,
{
    if n == 0 || n > sm.len() {
        tm
    } else {
        merge_step(merge_members(tm, sm, (n - 1) as nat), sm[n - 1])
    }
}

/// The members of `acc` after `member` has been merged into them: the first
/// member with the same key gets its value merged with `member`'s value,
/// and `member` is appended when no member has its key.
pub open spec fn merge_step(
    acc: Seq<(Seq<char>, Json)>,
    member: (Seq<char>, Json),
) -> Seq<(Seq<char>, Json)>
    decreases member, 0nat,
{
    match index_of_key(acc, member.0) {
        Some(i) => acc.update(i, (member.0, merge(acc[i].1, member.1))),
        None => acc.push(member),
    }
}

/// What a key of a merged object holds, given what it held in the target
/// and in the source object.
pub open spec fn combine(in_target: Option<Json>, in_source: Option<Json>) -> Option<Json> {
    match in_source {
        None => in_target,
        Some(y) => match in_target {
            Some(x) => Some(merge(x, y)),
            None => Some(y),
        },
    }
}

/// The position of the first member of `members` with key `key`.
pub fn find_key(members: &Vec<(String, JsonValue)>, key: &String) -> (found: Option<usize>)
    ensures
        match found {
            Some(i) => index_of_key(members_model(members@), key@) == Some(i as int),
            None => index_of_key(members_model(members@), key@) is None,
        },
{
    let ghost ms = members_model(members@);
    proof {
        lemma_index_of_key(ms, key@);
    }
    let mut i: usize = 0;
    while i < members.len()
        invariant
            i <= members@.len(),
            ms == members_model(members@),
            forall|j: int| 0 <= j < i ==> ms[j].0 != key@,
        decreases members@.len() - i,
    {
        if members[i].0 == *key {
            proof {
                lemma_index_of_key(ms, key@);
                assert(ms[i as int].0 == key@);
            }
            return Some(i);
        }
        i = i + 1;
    }
    proof {
        lemma_index_of_key(ms, key@);
    }
    None
}

/// Merges `source` into `target` in place: objects are merged member by
/// member and recursively, every other `source` value overwrites `target`.
#[verifier::loop_isolation(false)]
pub fn deep_merge(target: &mut JsonValue, source: &JsonValue)
    ensures
        final(target)@ == merge(old(target)@, source@),
        old(target)@.well_formed() && source@.well_formed() ==> final(target)@.well_formed(),
    decreases source,
{
    proof {
        source.lemma_model_unfold();
        if old(target)@.well_formed() && source@.well_formed() {
            crate::merge_laws::lemma_merge_well_formed(old(target)@, source@);
        }
    }
    if let JsonValue::Object(sm) = source {
        let mut taken = JsonValue::Null;
        std::mem::swap(&mut taken, target);
        if let JsonValue::Object(mut tm) = taken {
            let ghost tm0 = members_model(tm@);
            let ghost smm = members_model(sm@);
            proof {
                taken.lemma_model_unfold();
            }
            let mut i: usize = 0;
            while i < sm.len()
                invariant
                    i <= sm@.len(),
                    smm == members_model(sm@),
                    *source == JsonValue::Object(*sm),
                    members_model(tm@) == merge_members(tm0, smm, i as nat),
                decreases sm@.len() - i,
            {
                let key = &sm[i].0;
                let value = &sm[i].1;
                let ghost acc = members_model(tm@);
                proof {
                    lemma_index_of_key(acc, key@);
                    assert(smm[i as int] == (key@, value@));
                    assert(merge_members(tm0, smm, (i + 1) as nat) == merge_step(
                        acc,
                        smm[i as int],
                    ));
                }
                match find_key(&tm, key) {
                    Some(j) => {
                        proof {
                            assert(decreases_to!(*source => sm@[i as int].1));
                        }
                        let mut child = JsonValue::Null;
                        std::mem::swap(&mut child, &mut tm[j].1);
                        deep_merge(&mut child, value);
                        let k = tm[j].0.clone();
                        tm.set(j, (k, child));
                    },
                    None => {
                        let copy = value.deep_copy();
                        tm.push((key.clone(), copy));
                    },
                }
                assert(members_model(tm@) =~= merge_members(tm0, smm, (i + 1) as nat));
                i = i + 1;
            }
            *target = JsonValue::Object(tm);
            proof {
                target.lemma_model_unfold();
            }
            return;
        }
        *target = taken;
    }
    *target = source.deep_copy();
}

} // verus!
