//! Environment variables applied to a JSON document through a table that
//! maps variable names to dotted key paths.

use vstd::prelude::*;
use crate::json::{Json, JsonValue};
use crate::json::{integer_numbers, nesting_within};
use crate::json_text::{
    initial_model, initial_document, text_model, pretty_text_of, json_of_text, document_text,
};
use crate::equiv::{json_equiv, lemma_equiv_symmetric};
use crate::settings_laws::{
    applied_paths_unnested, applied_paths_diverge, lemma_apply_settings_equiv,
    lemma_apply_settings_twice, lemma_apply_settings_well_formed, lemma_apply_settings_any_order,
};
use crate::merge::{merge, deep_merge};
use crate::path::{nest, split_on, fragment_for_path};
use crate::env_value::{FloatReading, typed_value, env_value_to_json};

verus! {

/// One environment variable, with what reading its value as an `f64`
/// literal gave.
pub struct EnvVar {
    pub name: String,
    pub value: String,
    pub float_reading: FloatReading,
}

/// The first variable of `env` named `name`.
pub open spec fn env_lookup(env: Seq<EnvVar>, name: Seq<char>) -> Option<EnvVar>
    decreases env.len(),
{
    if env.len() == 0 {
        None
    } else if env[0].name@ == name {
        Some(env[0])
    } else {
        env_lookup(env.drop_first(), name)
    }
}

/// The fragment that a mapping entry with key path `path` contributes for
/// the variable `var`.
pub open spec fn setting_fragment(path: Seq<char>, var: EnvVar) -> Json {
    nest(split_on(path, '.'), typed_value(var.value@, var.float_reading))
}

/// `doc` after one mapping entry (variable name, key path) is applied: the
/// entry's fragment is merged in when its variable is set in `env`.
pub open spec fn apply_entry(doc: Json, env: Seq<EnvVar>, entry: (String, String)) -> Json {
    match env_lookup(env, entry.0@) {
        Some(var) => merge(doc, setting_fragment(entry.1@, var)),
        None => doc,
    }
}

/// `doc` after the first `n` entries of `mapping` (variable name, key path)
/// have been applied in order: each entry whose variable is set in `env`
/// merges its fragment into the document.
pub open spec fn apply_settings(
    doc: Json,
    env: Seq<EnvVar>,
    mapping: Seq<(String, String)>,
    n: nat,
) -> Json
    decreases n,
{
    if n == 0 || n > mapping.len() {
        doc
    } else {
        apply_entry(apply_settings(doc, env, mapping, (n - 1) as nat), env, mapping[n - 1])
    }
}

/// The document that a configuration file's content gives after `mapping`
/// is applied to it (see `initial_model`).
pub open spec fn settings_document(
    content: Option<Seq<char>>,
    env: Seq<EnvVar>,
    mapping: Seq<(String, String)>,
) -> Json {
    apply_settings(initial_model(content), env, mapping, mapping.len())
}

/// The position in `env` of the first variable named `name`.
pub fn find_env_var(env: &Vec<EnvVar>, name: &String) -> (found: Option<usize>)
    ensures
        match found {
            Some(i) => i < env@.len() && env_lookup(env@, name@) == Some(env@[i as int]),
            None => env_lookup(env@, name@) is None,
        },
{
    let mut i: usize = 0;
    proof {
        assert(env@.skip(0) =~= env@);
    }
    while i < env.len()
        invariant
            i <= env@.len(),
            env_lookup(env@, name@) == env_lookup(env@.skip(i as int), name@),
        decreases env@.len() - i,
    {
        proof {
            assert(env@.skip(i as int).drop_first() =~= env@.skip(i + 1));
            assert(env@.skip(i as int)[0] == env@[i as int]);
        }
        if env[i].name == *name {
            return Some(i);
        }
        i = i + 1;
    }
    None
}

/// Applies `mapping` (variable name, dotted key path) to `document` in
/// order: for each entry whose variable is set in `env`, the variable's
/// JSON value is placed under the key path and that fragment is deep-merged
/// into the document.
pub fn apply_env_settings(
    document: &mut JsonValue,
    env: &Vec<EnvVar>,
    mapping: &Vec<(String, String)>,
)
    ensures
        final(document)@ == apply_settings(old(document)@, env@, mapping@, mapping@.len()),
        old(document)@.well_formed() ==> final(document)@.well_formed(),
{
    let ghost start = document@;
    let mut i: usize = 0;
    while i < mapping.len()
        invariant
            i <= mapping@.len(),
            document@ == apply_settings(start, env@, mapping@, i as nat),
            start.well_formed() ==> document@.well_formed(),
        decreases mapping@.len() - i,
    {
        let entry = &mapping[i];
        proof {
            assert(mapping@[i as int] == *entry);
        }
        if let Some(j) = find_env_var(env, &entry.0) {
            let var = &env[j];
            let value = env_value_to_json(var.value.as_str(), &var.float_reading);
            let fragment = fragment_for_path(entry.1.as_str(), value);
            proof {
                crate::path::lemma_nest_well_formed(
                    split_on(entry.1@, '.'),
                    typed_value(var.value@, var.float_reading),
                );
            }
            deep_merge(document, &fragment);
        }
        i = i + 1;
    }
}

/// The document after the environment settings are applied to a
/// configuration file's content: the JSON value the content holds, or an
/// empty object when there is no content or it is not valid JSON, with
/// `mapping` applied to it.
pub fn apply_env_to_document(
    content: Option<&str>,
    env: &Vec<EnvVar>,
    mapping: &Vec<(String, String)>,
) -> (document: JsonValue)
    ensures
        document@ == settings_document(text_model(content), env@, mapping@),
        document@.well_formed(),
        initial_model(text_model(content)).well_formed(),
{
    let mut document = initial_document(content);
    apply_env_settings(&mut document, env, mapping);
    document
}

/// The new content of a configuration file: `apply_env_to_document` of its
/// content, written as pretty-printed JSON text.
///
/// When every number of the new document is an integer and it nests at
/// most 127 deep, the text reads back as that document (up to the order of
/// object members); and when, besides, no key path that an applied entry
/// sets is a proper prefix of another, applying the same settings to the
/// written text writes that same text again. When those key paths pairwise
/// part, the text does not depend on the order of `mapping`.
pub fn apply_env_to_text(
    content: Option<&str>,
    env: &Vec<EnvVar>,
    mapping: &Vec<(String, String)>,
) -> (text: String)
    ensures
        text@ == pretty_text_of(settings_document(text_model(content), env@, mapping@)),
        integer_numbers(settings_document(text_model(content), env@, mapping@)) && nesting_within(
            settings_document(text_model(content), env@, mapping@),
            127,
        ) ==> json_of_text(text@) is Some && json_equiv(
            json_of_text(text@)->0,
            settings_document(text_model(content), env@, mapping@),
        ),
        applied_paths_unnested(env@, mapping@, mapping@.len()) && integer_numbers(
            settings_document(text_model(content), env@, mapping@),
        ) && nesting_within(settings_document(text_model(content), env@, mapping@), 127)
            ==> pretty_text_of(settings_document(Some(text@), env@, mapping@)) == text@,
        applied_paths_diverge(env@, mapping@, mapping@.len()) ==> forall|other: Seq<(String, String)>|
            other.to_multiset() == mapping@.to_multiset() ==> #[trigger] pretty_text_of(
                settings_document(text_model(content), env@, other),
            ) == text@,
{
    let document = apply_env_to_document(content, env, mapping);
    let text = document_text(&document);
    proof {
        let doc = document@;
        if applied_paths_unnested(env@, mapping@, mapping@.len()) && integer_numbers(doc)
            && nesting_within(doc, 127) {
            let w = json_of_text(text@)->0;
            let init = initial_model(text_model(content));
            let n = mapping@.len();
            assert(initial_model(Some(text@)) == w);
            lemma_apply_settings_equiv(w, doc, env@, mapping@, n);
            lemma_apply_settings_twice(init, env@, mapping@, n);
            lemma_apply_settings_well_formed(w, env@, mapping@, n);
            assert(pretty_text_of(apply_settings(w, env@, mapping@, n)) == text@);
        }
        if applied_paths_diverge(env@, mapping@, mapping@.len()) {
            let init = initial_model(text_model(content));
            assert forall|other: Seq<(String, String)>|
                other.to_multiset() == mapping@.to_multiset() implies #[trigger] pretty_text_of(
                settings_document(text_model(content), env@, other),
            ) == text@ by {
                lemma_apply_settings_any_order(init, env@, mapping@, other);
                lemma_equiv_symmetric(doc, settings_document(text_model(content), env@, other));
                lemma_apply_settings_well_formed(init, env@, other, other.len());
            }
        }
    }
    text
}

} // verus!
