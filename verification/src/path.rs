//! Dotted key paths and the nested JSON fragments they describe.

use vstd::prelude::*;
use crate::json::{Json, JsonValue, members_model};

verus! {

/// The pieces of `s` between occurrences of `sep`, as `str::split` yields
/// them: a string without `sep` is one piece, and every `sep` starts a new
/// (possibly empty) piece.
pub open spec fn split_on(s: Seq<char>, sep: char) -> Seq<Seq<char>>
    decreases s.len(),
{
    if s.len() == 0 {
        seq![Seq::empty()]
    } else {
        let parts = split_on(s.drop_last(), sep);
        if s.last() == sep {
            parts.push(Seq::empty())
        } else {
            parts.update(parts.len() - 1, parts.last().push(s.last()))
        }
    }
}

/// Splitting always yields at least one piece.
pub proof fn lemma_split_on_nonempty(s: Seq<char>, sep: char)
    ensures
        split_on(s, sep).len() >= 1,
    decreases s.len(),
{
    if s.len() > 0 {
        lemma_split_on_nonempty(s.drop_last(), sep);
    }
}

/// The pieces of `parts` joined with `sep` between each two.
pub open spec fn join_with(parts: Seq<Seq<char>>, sep: char) -> Seq<char>
    decreases parts.len(),
{
    if parts.len() <= 1 {
        if parts.len() == 1 {
            parts[0]
        } else {
            Seq::empty()
        }
    } else {
        join_with(parts.drop_last(), sep) + seq![sep] + parts.last()
    }
}

/// Splitting loses nothing: joining the pieces with the separator gives
/// the string back, and no piece holds the separator.
pub proof fn lemma_split_on_join(s: Seq<char>, sep: char)
    ensures
        join_with(split_on(s, sep), sep) == s,
        forall|i: int|
            0 <= i < split_on(s, sep).len() ==> !(#[trigger] split_on(s, sep)[i]).contains(sep),
    decreases s.len(),
{
    if s.len() == 0 {
        assert(split_on(s, sep)[0] =~= Seq::<char>::empty());
        assert(s =~= Seq::<char>::empty());
    } else {
        let prev = split_on(s.drop_last(), sep);
        lemma_split_on_join(s.drop_last(), sep);
        lemma_split_on_nonempty(s.drop_last(), sep);
        let c = s.last();
        let parts = split_on(s, sep);
        if c == sep {
            assert(parts.drop_last() =~= prev);
            assert(join_with(parts, sep) =~= s);
            assert forall|i: int| 0 <= i < parts.len() implies !(#[trigger] parts[i]).contains(
                sep,
            ) by {
                if i < prev.len() {
                    assert(parts[i] == prev[i]);
                } else {
                    assert(parts[i] =~= Seq::<char>::empty());
                }
            }
        } else {
            let k = prev.len() - 1;
            let last = prev[k].push(c);
            assert(parts == prev.update(k, last));
            if prev.len() == 1 {
                assert(join_with(prev, sep) == prev[0]);
                assert(join_with(parts, sep) == last);
                assert(s =~= s.drop_last().push(c));
            } else {
                assert(parts.drop_last() =~= prev.drop_last());
                assert(join_with(parts, sep) == join_with(prev.drop_last(), sep) + seq![sep]
                    + last);
                assert(join_with(prev, sep) == join_with(prev.drop_last(), sep) + seq![sep]
                    + prev[k]);
                let j0 = join_with(prev.drop_last(), sep);
                assert((j0 + seq![sep] + prev[k]).push(c) =~= j0 + seq![sep] + last);
                assert(s =~= s.drop_last().push(c));
                assert(join_with(parts, sep) =~= s);
            }
            assert forall|i: int| 0 <= i < parts.len() implies !(#[trigger] parts[i]).contains(
                sep,
            ) by {
                if i < k {
                    assert(parts[i] == prev[i]);
                } else {
                    assert(!prev[k].contains(sep));
                    if last.contains(sep) {
                        let j = choose|j: int| 0 <= j < last.len() && last[j] == sep;
                        if j < prev[k].len() {
                            assert(prev[k][j] == sep);
                        }
                    }
                }
            }
        }
    }
}

/// The value `v` placed under the key path `keys`: one single-member
/// object per key, outermost first.
pub open spec fn nest(keys: Seq<Seq<char>>, v: Json) -> Json
    decreases keys.len(),
{
    if keys.len() == 0 {
        v
    } else {
        Json::Object(seq![(keys[0], nest(keys.drop_first(), v))])
    }
}

/// A value placed under a key path is well-formed when the value is.
pub proof fn lemma_nest_well_formed(keys: Seq<Seq<char>>, v: Json)
    requires
        v.well_formed(),
    ensures
        nest(keys, v).well_formed(),
    decreases keys.len(),
{
    if keys.len() > 0 {
        lemma_nest_well_formed(keys.drop_first(), v);
        let members = seq![(keys[0], nest(keys.drop_first(), v))];
        assert(members[0].1.well_formed());
    }
}

/// The models of a sequence of strings.
pub open spec fn strings_model(v: Seq<String>) -> Seq<Seq<char>> {
    Seq::new(v.len(), |i: int| v[i]@)
}

/// Splits `path` at every `.`.
pub fn split_path(path: &str) -> (parts: Vec<String>)
    ensures
        strings_model(parts@) == split_on(path@, '.'),
{
    let n = path.unicode_len();
    let mut parts: Vec<String> = Vec::new();
    let mut start: usize = 0;
    let mut i: usize = 0;
    proof {
        assert(path@.take(0) =~= Seq::<char>::empty());
    }
    while i < n
        invariant
            n == path@.len(),
            start <= i <= n,
            strings_model(parts@).push(path@.subrange(start as int, i as int)) == split_on(
                path@.take(i as int),
                '.',
            ),
        decreases n - i,
    {
        let c = path.get_char(i);
        let ghost prefix = path@.take((i + 1) as int);
        proof {
            assert(prefix.drop_last() =~= path@.take(i as int));
            assert(prefix.last() == c);
            lemma_split_on_nonempty(path@.take(i as int), '.');
        }
        if c == '.' {
            let piece = path.substring_char(start, i);
            let ghost before = strings_model(parts@);
            parts.push(String::from_str(piece));
            proof {
                assert(strings_model(parts@) =~= before.push(path@.subrange(start as int, i as int)));
                assert(path@.subrange((i + 1) as int, (i + 1) as int) =~= Seq::<char>::empty());
            }
            start = i + 1;
        } else {
            proof {
                assert(path@.subrange(start as int, (i + 1) as int) =~= path@.subrange(
                    start as int,
                    i as int,
                ).push(c));
            }
        }
        i = i + 1;
    }
    let last = path.substring_char(start, n);
    parts.push(String::from_str(last));
    proof {
        assert(path@.take(n as int) =~= path@);
        assert(strings_model(parts@) =~= strings_model(parts@.drop_last()).push(
            path@.subrange(start as int, n as int),
        ));
    }
    parts
}

/// Places `value` under the key path `keys`, outermost key first.
pub fn nest_value(keys: Vec<String>, value: JsonValue) -> (nested: JsonValue)
    ensures
        nested@ == nest(strings_model(keys@), value@),
{
    let ghost all = strings_model(keys@);
    let mut keys = keys;
    let mut acc = value;
    while keys.len() > 0
        invariant
            keys@.len() <= all.len(),
            strings_model(keys@) == all.take(keys@.len() as int),
            acc@ == nest(all.skip(keys@.len() as int), value@),
        decreases keys@.len(),
    {
        let ghost k = keys@.len() as int;
        let ghost old_keys = keys@;
        let key = keys.pop().unwrap();
        let mut members: Vec<(String, JsonValue)> = Vec::new();
        members.push((key, acc));
        let ghost acc_model = acc@;
        acc = JsonValue::Object(members);
        proof {
            acc.lemma_model_unfold();
            assert(all.skip(k - 1).drop_first() =~= all.skip(k));
            assert(old_keys == keys@.push(key));
            assert(all.take(k)[k - 1] == strings_model(old_keys)[k - 1]);
            assert(all[k - 1] == key@);
            assert(members_model(members@) =~= seq![(all[k - 1], acc_model)]);
            assert(strings_model(keys@) =~= all.take(k - 1)) by {
                assert(strings_model(keys@) =~= strings_model(old_keys).drop_last());
            }
        }
    }
    proof {
        assert(all.skip(0) =~= all);
    }
    acc
}

/// The fragment that sets the dotted key path `path` to `value`.
pub fn fragment_for_path(path: &str, value: JsonValue) -> (fragment: JsonValue)
    ensures
        fragment@ == nest(split_on(path@, '.'), value@),
{
    let keys = split_path(path);
    nest_value(keys, value)
}

} // verus!
