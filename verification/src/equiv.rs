//! JSON values that are the same up to the order of object members.

use vstd::prelude::*;
use crate::json::{Json, get_member, index_of_key, lemma_index_of_key};
use crate::merge::merge;
use crate::merge_laws::lemma_merge_objects_get;

verus! {

/// `a` and `b` are the same JSON value up to the order of object members:
/// arrays agree item for item, objects have the same keys with the same
/// values (each key read at its first member), and everything else is
/// equal.
pub open spec fn json_equiv(a: Json, b: Json) -> bool
    decreases a,
{
    match a {
        Json::Array(xa) => match b {
            Json::Array(xb) => xa.len() == xb.len() && forall|i: int|
                0 <= i < xa.len() ==> json_equiv(#[trigger] xa[i], xb[i]),
            _ => false,
        },
        Json::Object(ma) => match b {
            Json::Object(mb) => {
                &&& forall|k: Seq<char>|
                    #![trigger index_of_key(ma, k)]
                    #![trigger index_of_key(mb, k)]
                    (index_of_key(ma, k) is Some) == (index_of_key(mb, k) is Some)
                &&& forall|i: int|
                    0 <= i < ma.len() && index_of_key(ma, (#[trigger] ma[i]).0) == Some(i)
                        ==> match get_member(mb, ma[i].0) {
                        Some(y) => json_equiv(ma[i].1, y),
                        None => false,
                    }
            },
            _ => false,
        },
        _ => a == b,
    }
}

/// Two member lists have the same keys, and equivalent values under each.
pub open spec fn members_agree(ma: Seq<(Seq<char>, Json)>, mb: Seq<(Seq<char>, Json)>) -> bool {
    forall|k: Seq<char>|
        #![trigger get_member(ma, k)]
        #![trigger get_member(mb, k)]
        match (get_member(ma, k), get_member(mb, k)) {
            (Some(x), Some(y)) => json_equiv(x, y),
            (None, None) => true,
            _ => false,
        }
}

/// Two objects are equivalent exactly when their members agree key by key.
pub proof fn lemma_equiv_objects(ma: Seq<(Seq<char>, Json)>, mb: Seq<(Seq<char>, Json)>)
    ensures
        json_equiv(Json::Object(ma), Json::Object(mb)) == members_agree(ma, mb),
{
    if json_equiv(Json::Object(ma), Json::Object(mb)) {
        assert forall|k: Seq<char>|
            match (#[trigger] get_member(ma, k), get_member(mb, k)) {
                (Some(x), Some(y)) => json_equiv(x, y),
                (None, None) => true,
                _ => false,
            } by {
            lemma_index_of_key(ma, k);
            assert(index_of_key(ma, k) is Some == index_of_key(mb, k) is Some);
            if let Some(i) = index_of_key(ma, k) {
                assert(ma[i].0 == k);
            }
        }
    }
    if members_agree(ma, mb) {
        assert forall|k: Seq<char>|
            (#[trigger] index_of_key(ma, k) is Some) == (index_of_key(mb, k) is Some) by {
            assert(get_member(ma, k) is Some == get_member(mb, k) is Some);
        }
        assert forall|i: int|
            0 <= i < ma.len() && index_of_key(ma, (#[trigger] ma[i]).0) == Some(i) implies match get_member(
            mb,
            ma[i].0,
        ) {
            Some(y) => json_equiv(ma[i].1, y),
            None => false,
        } by {
            assert(get_member(ma, ma[i].0) == Some(ma[i].1));
        }
    }
}

/// Every value is equivalent to itself.
pub proof fn lemma_equiv_reflexive(a: Json)
    ensures
        json_equiv(a, a),
    decreases a,
{
    match a {
        Json::Array(xa) => {
            assert forall|i: int| 0 <= i < xa.len() implies json_equiv(#[trigger] xa[i], xa[i]) by {
                lemma_equiv_reflexive(xa[i]);
            }
        },
        Json::Object(ma) => {
            assert forall|i: int|
                0 <= i < ma.len() && index_of_key(ma, (#[trigger] ma[i]).0) == Some(i) implies match get_member(
                ma,
                ma[i].0,
            ) {
                Some(y) => json_equiv(ma[i].1, y),
                None => false,
            } by {
                lemma_equiv_reflexive(ma[i].1);
            }
        },
        _ => {},
    }
}

/// Equivalence is symmetric.
pub proof fn lemma_equiv_symmetric(a: Json, b: Json)
    requires
        json_equiv(a, b),
    ensures
        json_equiv(b, a),
    decreases a,
{
    match a {
        Json::Array(xa) => {
            let xb = b->Array_0;
            assert forall|i: int| 0 <= i < xb.len() implies json_equiv(#[trigger] xb[i], xa[i]) by {
                lemma_equiv_symmetric(xa[i], xb[i]);
            }
        },
        Json::Object(ma) => {
            let mb = b->Object_0;
            lemma_equiv_objects(ma, mb);
            lemma_equiv_objects(mb, ma);
            assert forall|k: Seq<char>|
                match (#[trigger] get_member(mb, k), get_member(ma, k)) {
                    (Some(x), Some(y)) => json_equiv(x, y),
                    (None, None) => true,
                    _ => false,
                } by {
                lemma_index_of_key(ma, k);
                assert(match (get_member(ma, k), get_member(mb, k)) {
                    (Some(x), Some(y)) => json_equiv(x, y),
                    (None, None) => true,
                    _ => false,
                });
                if let Some(i) = index_of_key(ma, k) {
                    if let Some(y) = get_member(mb, k) {
                        lemma_equiv_symmetric(ma[i].1, y);
                    }
                }
            }
        },
        _ => {},
    }
}

/// Equivalence is transitive.
pub proof fn lemma_equiv_transitive(a: Json, b: Json, c: Json)
    requires
        json_equiv(a, b),
        json_equiv(b, c),
    ensures
        json_equiv(a, c),
    decreases a,
{
    match a {
        Json::Array(xa) => {
            let xb = b->Array_0;
            let xc = c->Array_0;
            assert forall|i: int| 0 <= i < xa.len() implies json_equiv(#[trigger] xa[i], xc[i]) by {
                lemma_equiv_transitive(xa[i], xb[i], xc[i]);
            }
        },
        Json::Object(ma) => {
            let mb = b->Object_0;
            let mc = c->Object_0;
            lemma_equiv_objects(ma, mb);
            lemma_equiv_objects(mb, mc);
            lemma_equiv_objects(ma, mc);
            assert forall|k: Seq<char>|
                match (#[trigger] get_member(ma, k), get_member(mc, k)) {
                    (Some(x), Some(z)) => json_equiv(x, z),
                    (None, None) => true,
                    _ => false,
                } by {
                lemma_index_of_key(ma, k);
                assert(match (get_member(ma, k), get_member(mb, k)) {
                    (Some(x), Some(y)) => json_equiv(x, y),
                    (None, None) => true,
                    _ => false,
                });
                assert(match (get_member(mb, k), get_member(mc, k)) {
                    (Some(x), Some(y)) => json_equiv(x, y),
                    (None, None) => true,
                    _ => false,
                });
                if let Some(i) = index_of_key(ma, k) {
                    lemma_equiv_transitive(ma[i].1, get_member(mb, k)->0, get_member(mc, k)->0);
                }
            }
        },
        _ => {},
    }
}

/// Merging the same well-formed source into equivalent targets gives
/// equivalent results.
pub proof fn lemma_merge_equiv(x: Json, x2: Json, s: Json)
    requires
        json_equiv(x, x2),
        s.well_formed(),
    ensures
        json_equiv(merge(x, s), merge(x2, s)),
    decreases s,
{
    match s {
        Json::Object(sm) => {
            if x is Object && x2 is Object {
                let tm = x->Object_0;
                let tm2 = x2->Object_0;
                let r = merge(x, s)->Object_0;
                let r2 = merge(x2, s)->Object_0;
                lemma_equiv_objects(tm, tm2);
                lemma_equiv_objects(r, r2);
                assert forall|k: Seq<char>|
                    match (#[trigger] get_member(r, k), get_member(r2, k)) {
                        (Some(a), Some(b)) => json_equiv(a, b),
                        (None, None) => true,
                        _ => false,
                    } by {
                    lemma_merge_objects_get(tm, sm, k);
                    lemma_merge_objects_get(tm2, sm, k);
                    lemma_index_of_key(sm, k);
                    assert(match (get_member(tm, k), get_member(tm2, k)) {
                        (Some(a), Some(b)) => json_equiv(a, b),
                        (None, None) => true,
                        _ => false,
                    });
                    if let Some(j) = index_of_key(sm, k) {
                        if let Some(t) = get_member(tm, k) {
                            lemma_merge_equiv(t, get_member(tm2, k)->0, sm[j].1);
                        } else {
                            lemma_equiv_reflexive(sm[j].1);
                        }
                    }
                }
            } else {
                lemma_equiv_reflexive(s);
            }
        },
        _ => {
            lemma_equiv_reflexive(s);
        },
    }
}

} // verus!
