//! The server metadata report drawn from `ServerDescription.json`.

use vstd::prelude::*;
use crate::json::{Json, JsonNumber, JsonValue, Num, get_member, members_model};
use crate::merge::find_key;
use crate::path::strings_model;
use crate::json_text::{json_of_text, parse_json_text, text_model};
use crate::env_value::{all_digits, digits_value, digit_value, is_digit, i64_literal, int_number};

verus! {

/// The value at `key` of an object, or null when the value is not an
/// object or has no such key (as indexing a JSON value by a key reads it).
pub open spec fn field(doc: Json, key: Seq<char>) -> Json {
    match doc {
        Json::Object(members) => match get_member(members, key) {
            Some(v) => v,
            None => Json::Null,
        },
        _ => Json::Null,
    }
}

/// The text of a string value.
pub open spec fn as_str(v: Json) -> Option<Seq<char>> {
    match v {
        Json::Str(s) => Some(s),
        _ => None,
    }
}

/// The boolean of a boolean value.
pub open spec fn as_bool(v: Json) -> Option<bool> {
    match v {
        Json::Bool(b) => Some(b),
        _ => None,
    }
}

/// The integer of a number that fits in an `i64`.
pub open spec fn as_i64(v: Json) -> Option<int> {
    match v {
        Json::Number(Num::PosInt(n)) => if n <= i64::MAX {
            Some(n as int)
        } else {
            None
        },
        Json::Number(Num::NegInt(n)) => Some(n as int),
        _ => None,
    }
}

/// The decimal digit character of `d`.
pub open spec fn digit_char(d: int) -> char {
    ('0' as int + d) as char
}

/// The decimal text of a natural number.
pub open spec fn nat_decimal(n: nat) -> Seq<char>
    decreases n,
{
    if n < 10 {
        seq![digit_char(n as int)]
    } else {
        nat_decimal(n / 10).push(digit_char((n % 10) as int))
    }
}

/// The decimal text of an integer, with a leading `-` when it is negative.
pub open spec fn decimal(n: int) -> Seq<char> {
    if n < 0 {
        seq!['-'] + nat_decimal((-n) as nat)
    } else {
        nat_decimal(n as nat)
    }
}

/// The text of a boolean.
pub open spec fn bool_text(b: bool) -> Seq<char> {
    if b {
        "true"@
    } else {
        "false"@
    }
}

/// One line, `label` followed by `text`, when there is a text.
pub open spec fn labelled(label: Seq<char>, text: Option<Seq<char>>) -> Seq<Seq<char>> {
    match text {
        Some(t) => seq![label + t],
        None => Seq::empty(),
    }
}

/// `text` when it is present and not empty.
pub open spec fn non_empty(text: Option<Seq<char>>) -> Option<Seq<char>> {
    match text {
        Some(t) => if t.len() > 0 {
            Some(t)
        } else {
            None
        },
        None => None,
    }
}

/// The value of a member that is present.
pub open spec fn member(members: Seq<(Seq<char>, Json)>, key: Seq<char>) -> Json {
    get_member(members, key)->0
}

/// The persistent description `p` has every key that the report reads of
/// it.
pub open spec fn persistent_defined(p: Seq<(Seq<char>, Json)>) -> bool {
    &&& get_member(p, "PersistentServerId"@) is Some
    &&& get_member(p, "InviteCode"@) is Some
    &&& get_member(p, "IsPasswordProtected"@) is Some
    &&& get_member(p, "ServerName"@) is Some
    &&& get_member(p, "MaxPlayerCount"@) is Some
    &&& get_member(p, "UserSelectedRegion"@) is Some
    &&& get_member(p, "UseDirectConnection"@) is Some
    &&& as_bool(member(p, "UseDirectConnection"@)) == Some(true) ==> {
        &&& get_member(p, "DirectConnectionServerAddress"@) is Some
        &&& get_member(p, "DirectConnectionServerPort"@) is Some
    }
}

/// The report can be drawn: where the document has an object
/// `ServerDescription_Persistent`, that object has every key the report
/// reads of it, and, when it enables direct connection, the address and
/// port keys as well.
pub open spec fn report_defined(doc: Json) -> bool {
    match field(doc, "ServerDescription_Persistent"@) {
        Json::Object(p) => persistent_defined(p),
        _ => true,
    }
}

/// The direct connection line of the persistent description `p`.
pub open spec fn direct_connection_lines(p: Seq<(Seq<char>, Json)>) -> Seq<Seq<char>> {
    match as_bool(member(p, "UseDirectConnection"@)) {
        Some(true) => {
            let address = match as_str(member(p, "DirectConnectionServerAddress"@)) {
                Some(a) => a,
                None => "N/A"@,
            };
            let port = match as_i64(member(p, "DirectConnectionServerPort"@)) {
                Some(n) => n,
                None => -1,
            };
            seq!["Direct Connection: Enabled ("@ + address + ":"@ + decimal(port) + ")"@]
        },
        Some(false) => seq!["Direct Connection: Disabled"@],
        None => Seq::empty(),
    }
}

/// The server id line.
pub open spec fn id_line(p: Seq<(Seq<char>, Json)>) -> Seq<Seq<char>> {
    labelled("Persistent Server ID: "@, as_str(member(p, "PersistentServerId"@)))
}

/// The join code line.
pub open spec fn join_code_line(p: Seq<(Seq<char>, Json)>) -> Seq<Seq<char>> {
    labelled("Server Join Code: "@, as_str(member(p, "InviteCode"@)))
}

/// The password protection line.
pub open spec fn password_line(p: Seq<(Seq<char>, Json)>) -> Seq<Seq<char>> {
    labelled(
        "Password Protected: "@,
        match as_bool(member(p, "IsPasswordProtected"@)) {
            Some(b) => Some(bool_text(b)),
            None => None,
        },
    )
}

/// The server name line.
pub open spec fn name_line(p: Seq<(Seq<char>, Json)>) -> Seq<Seq<char>> {
    labelled("Server Name: "@, non_empty(as_str(member(p, "ServerName"@))))
}

/// The player limit line.
pub open spec fn players_line(p: Seq<(Seq<char>, Json)>) -> Seq<Seq<char>> {
    labelled(
        "Max Players: "@,
        match as_i64(member(p, "MaxPlayerCount"@)) {
            Some(n) => Some(decimal(n)),
            None => None,
        },
    )
}

/// The region line.
pub open spec fn region_line(p: Seq<(Seq<char>, Json)>) -> Seq<Seq<char>> {
    labelled("Region: "@, non_empty(as_str(member(p, "UserSelectedRegion"@))))
}

/// The lines that identify the server: its id, join code and whether it is
/// password protected.
pub open spec fn identity_lines(p: Seq<(Seq<char>, Json)>) -> Seq<Seq<char>> {
    id_line(p) + join_code_line(p) + password_line(p)
}

/// The lines that describe the server's listing: its name, player limit
/// and region.
pub open spec fn listing_lines(p: Seq<(Seq<char>, Json)>) -> Seq<Seq<char>> {
    name_line(p) + players_line(p) + region_line(p)
}

/// `p` has a member with key `key`.
pub open spec fn has_key(p: Seq<(Seq<char>, Json)>, key: Seq<char>) -> bool {
    get_member(p, key) is Some
}

/// `p` has the keys of the identity lines.
pub open spec fn has_identity_keys(p: Seq<(Seq<char>, Json)>) -> bool {
    has_key(p, "PersistentServerId"@) && has_key(p, "InviteCode"@) && has_key(
        p,
        "IsPasswordProtected"@,
    )
}

/// The identity lines logged before a missing identity key is read.
pub open spec fn identity_before_missing(p: Seq<(Seq<char>, Json)>) -> Seq<Seq<char>> {
    if !has_key(p, "PersistentServerId"@) {
        Seq::empty()
    } else if !has_key(p, "InviteCode"@) {
        id_line(p)
    } else if !has_key(p, "IsPasswordProtected"@) {
        id_line(p) + join_code_line(p)
    } else {
        identity_lines(p)
    }
}

/// The listing lines logged before a missing listing key is read.
pub open spec fn listing_before_missing(p: Seq<(Seq<char>, Json)>) -> Seq<Seq<char>> {
    if !has_key(p, "ServerName"@) {
        Seq::empty()
    } else if !has_key(p, "MaxPlayerCount"@) {
        name_line(p)
    } else if !has_key(p, "UserSelectedRegion"@) {
        name_line(p) + players_line(p)
    } else {
        listing_lines(p)
    }
}

/// The lines of the persistent description `p` that the report logs before
/// it reads a key that `p` lacks: the lines of every key read before it.
pub open spec fn lines_before_missing(p: Seq<(Seq<char>, Json)>) -> Seq<Seq<char>> {
    if has_identity_keys(p) {
        identity_lines(p) + listing_before_missing(p)
    } else {
        identity_before_missing(p)
    }
}

/// The lines that the report logs of the document `doc` before it stops at
/// a key that the persistent description lacks.
pub open spec fn report_before_missing(doc: Json) -> Seq<Seq<char>> {
    seq!["--- Server Metadata ---"@] + labelled(
        "Deployment ID: "@,
        as_str(field(doc, "DeploymentId"@)),
    ) + match field(doc, "ServerDescription_Persistent"@) {
        Json::Object(p) => lines_before_missing(p),
        _ => Seq::empty(),
    }
}

/// The lines that describe the persistent description `p`.
pub open spec fn persistent_lines(p: Seq<(Seq<char>, Json)>) -> Seq<Seq<char>> {
    identity_lines(p) + listing_lines(p) + direct_connection_lines(p)
}

/// The server metadata report of the document `doc`, line by line.
pub open spec fn metadata_report(doc: Json) -> Seq<Seq<char>> {
    seq!["--- Server Metadata ---"@] + labelled(
        "Deployment ID: "@,
        as_str(field(doc, "DeploymentId"@)),
    ) + match field(doc, "ServerDescription_Persistent"@) {
        Json::Object(p) => persistent_lines(p),
        _ => Seq::empty(),
    } + seq!["-----------------------"@]
}

/// The one-character text of the decimal digit `d`.
fn digit_str(d: u64) -> (text: &'static str)
    requires
        d < 10,
    ensures
        text@ == seq![digit_char(d as int)],
{
    proof {
        reveal_strlit("0");
        reveal_strlit("1");
        reveal_strlit("2");
        reveal_strlit("3");
        reveal_strlit("4");
        reveal_strlit("5");
        reveal_strlit("6");
        reveal_strlit("7");
        reveal_strlit("8");
        reveal_strlit("9");
    }
    let text = if d == 0 {
        "0"
    } else if d == 1 {
        "1"
    } else if d == 2 {
        "2"
    } else if d == 3 {
        "3"
    } else if d == 4 {
        "4"
    } else if d == 5 {
        "5"
    } else if d == 6 {
        "6"
    } else if d == 7 {
        "7"
    } else if d == 8 {
        "8"
    } else {
        "9"
    };
    assert(text@ =~= seq![digit_char(d as int)]);
    text
}

/// The decimal text of `n`.
pub fn u64_decimal(n: u64) -> (text: String)
    ensures
        text@ == nat_decimal(n as nat),
    decreases n,
{
    if n < 10 {
        String::from_str(digit_str(n))
    } else {
        let mut text = u64_decimal(n / 10);
        text.append(digit_str(n % 10));
        text
    }
}

/// The decimal text of `n`, with a leading `-` when it is negative.
pub fn i64_decimal(n: i64) -> (text: String)
    ensures
        text@ == decimal(n as int),
{
    if n < 0 {
        let magnitude: u64 = if n == i64::MIN {
            0x8000_0000_0000_0000
        } else {
            (-n) as u64
        };
        let mut text = String::from_str("-");
        let digits = u64_decimal(magnitude);
        text.append(digits.as_str());
        proof {
            reveal_strlit("-");
            assert(text@ =~= decimal(n as int));
        }
        text
    } else {
        u64_decimal(n as u64)
    }
}

/// The text of a boolean.
pub fn bool_to_text(b: bool) -> (text: String)
    ensures
        text@ == bool_text(b),
{
    if b {
        String::from_str("true")
    } else {
        String::from_str("false")
    }
}

/// The value at `key` of the members `members`, if there is one.
pub fn object_member<'a>(members: &'a Vec<(String, JsonValue)>, key: &str) -> (value: Option<
    &'a JsonValue,
>)
    ensures
        match value {
            Some(v) => get_member(members_model(members@), key@) == Some(v@),
            None => get_member(members_model(members@), key@) is None,
        },
{
    let k = String::from_str(key);
    proof {
        crate::json::lemma_index_of_key(members_model(members@), key@);
    }
    match find_key(members, &k) {
        Some(i) => {
            assert(members_model(members@)[i as int].1 == members@[i as int].1@);
            Some(&members[i].1)
        },
        None => None,
    }
}

/// The value at `key` of an object, or `None` where indexing reads null.
pub fn field_of<'a>(doc: &'a JsonValue, key: &str) -> (value: Option<&'a JsonValue>)
    ensures
        match value {
            Some(v) => field(doc@, key@) == v@,
            None => field(doc@, key@) == Json::Null,
        },
{
    proof {
        doc.lemma_model_unfold();
    }
    match doc {
        JsonValue::Object(members) => object_member(members, key),
        _ => None,
    }
}

/// The text of a string value.
pub fn value_as_str(v: Option<&JsonValue>) -> (text: Option<&str>)
    ensures
        text_model(text) == match v {
            Some(v) => as_str(v@),
            None => None,
        },
{
    match v {
        Some(JsonValue::String(s)) => Some(s.as_str()),
        _ => None,
    }
}

/// The boolean of a boolean value.
pub fn value_as_bool(v: &JsonValue) -> (b: Option<bool>)
    ensures
        b == as_bool(v@),
{
    match v {
        JsonValue::Bool(b) => Some(*b),
        _ => None,
    }
}

/// The integer of a number that fits in an `i64`.
pub fn value_as_i64(v: &JsonValue) -> (n: Option<i64>)
    ensures
        match n {
            Some(n) => as_i64(v@) == Some(n as int),
            None => as_i64(v@) is None,
        },
{
    match v {
        JsonValue::Number(JsonNumber::PosInt(n)) => if *n <= 0x7fff_ffff_ffff_ffff {
            Some(*n as i64)
        } else {
            None
        },
        JsonValue::Number(JsonNumber::NegInt(n)) => Some(*n),
        _ => None,
    }
}

/// Appends `label` followed by `text`, when there is a text.
fn push_labelled(lines: &mut Vec<String>, label: &str, text: Option<&str>)
    ensures
        strings_model(final(lines)@) == strings_model(old(lines)@) + labelled(
            label@,
            text_model(text),
        ),
{
    if let Some(t) = text {
        let mut line = String::from_str(label);
        line.append(t);
        lines.push(line);
    }
    assert(strings_model(lines@) =~= strings_model(old(lines)@) + labelled(
        label@,
        text_model(text),
    ));
}

/// `text` when it is present and not empty.
fn non_empty_text(text: Option<&str>) -> (t: Option<&str>)
    ensures
        text_model(t) == non_empty(text_model(text)),
{
    match text {
        Some(s) => if s.is_empty() {
            None
        } else {
            Some(s)
        },
        None => None,
    }
}

/// The value at `key` of members that have it.
fn required_member<'a>(members: &'a Vec<(String, JsonValue)>, key: &str) -> (value: &'a JsonValue)
    requires
        get_member(members_model(members@), key@) is Some,
    ensures
        value@ == member(members_model(members@), key@),
{
    match object_member(members, key) {
        Some(v) => v,
        None => {
            assert(false);
            &members[0].1
        },
    }
}

/// Appends the direct connection line of the persistent description `p`.
fn push_direct_connection(p: &Vec<(String, JsonValue)>, lines: &mut Vec<String>)
    requires
        persistent_defined(members_model(p@)),
    ensures
        strings_model(final(lines)@) == strings_model(old(lines)@) + direct_connection_lines(
            members_model(p@),
        ),
{
    let ghost pm = members_model(p@);
    let ghost before = strings_model(lines@);
    match value_as_bool(required_member(p, "UseDirectConnection")) {
        Some(true) => {
            let address = match value_as_str(Some(required_member(p, "DirectConnectionServerAddress"))) {
                Some(a) => a,
                None => "N/A",
            };
            let port: i64 = match value_as_i64(required_member(p, "DirectConnectionServerPort")) {
                Some(n) => n,
                None => -1,
            };
            let mut line = String::from_str("Direct Connection: Enabled (");
            line.append(address);
            line.append(":");
            let port_text = i64_decimal(port);
            line.append(port_text.as_str());
            line.append(")");
            lines.push(line);
        },
        Some(false) => {
            lines.push(String::from_str("Direct Connection: Disabled"));
        },
        None => {},
    }
    assert(strings_model(lines@) =~= before + direct_connection_lines(pm));
}

/// Appends the lines that identify the server.
fn push_identity_lines(p: &Vec<(String, JsonValue)>, lines: &mut Vec<String>)
    requires
        persistent_defined(members_model(p@)),
    ensures
        strings_model(final(lines)@) == strings_model(old(lines)@) + identity_lines(
            members_model(p@),
        ),
{
    let ghost pm = members_model(p@);
    let ghost l0 = strings_model(lines@);
    push_labelled(
        lines,
        "Persistent Server ID: ",
        value_as_str(Some(required_member(p, "PersistentServerId"))),
    );
    push_labelled(lines, "Server Join Code: ", value_as_str(Some(required_member(p, "InviteCode"))));
    match value_as_bool(required_member(p, "IsPasswordProtected")) {
        Some(b) => {
            let text = bool_to_text(b);
            push_labelled(lines, "Password Protected: ", Some(text.as_str()));
        },
        None => {
            push_labelled(lines, "Password Protected: ", None);
        },
    }
    assert(strings_model(lines@) =~= l0 + identity_lines(pm));
}

/// Appends the lines that describe the server's listing.
fn push_listing_lines(p: &Vec<(String, JsonValue)>, lines: &mut Vec<String>)
    requires
        persistent_defined(members_model(p@)),
    ensures
        strings_model(final(lines)@) == strings_model(old(lines)@) + listing_lines(
            members_model(p@),
        ),
{
    let ghost pm = members_model(p@);
    let ghost l0 = strings_model(lines@);
    push_labelled(
        lines,
        "Server Name: ",
        non_empty_text(value_as_str(Some(required_member(p, "ServerName")))),
    );
    match value_as_i64(required_member(p, "MaxPlayerCount")) {
        Some(n) => {
            let text = i64_decimal(n);
            push_labelled(lines, "Max Players: ", Some(text.as_str()));
        },
        None => {
            push_labelled(lines, "Max Players: ", None);
        },
    }
    push_labelled(
        lines,
        "Region: ",
        non_empty_text(value_as_str(Some(required_member(p, "UserSelectedRegion")))),
    );
    assert(strings_model(lines@) =~= l0 + listing_lines(pm));
}

/// Appends the lines that describe the persistent description `p`.
fn push_persistent_lines(p: &Vec<(String, JsonValue)>, lines: &mut Vec<String>)
    requires
        persistent_defined(members_model(p@)),
    ensures
        strings_model(final(lines)@) == strings_model(old(lines)@) + persistent_lines(
            members_model(p@),
        ),
{
    let ghost pm = members_model(p@);
    let ghost l0 = strings_model(lines@);
    push_identity_lines(p, lines);
    push_listing_lines(p, lines);
    push_direct_connection(p, lines);
    assert(strings_model(lines@) =~= l0 + persistent_lines(pm));
}

/// Appends the identity lines of `p` that are logged before a missing
/// identity key is read, and tells whether every identity key is present.
fn push_identity_before_missing(p: &Vec<(String, JsonValue)>, lines: &mut Vec<String>) -> (complete:
    bool)
    ensures
        complete == has_identity_keys(members_model(p@)),
        strings_model(final(lines)@) == strings_model(old(lines)@) + identity_before_missing(
            members_model(p@),
        ),
{
    let ghost pm = members_model(p@);
    let ghost l0 = strings_model(lines@);
    match object_member(p, "PersistentServerId") {
        None => {
            assert(strings_model(lines@) =~= l0 + identity_before_missing(pm));
            return false;
        },
        Some(v) => push_labelled(lines, "Persistent Server ID: ", value_as_str(Some(v))),
    }
    match object_member(p, "InviteCode") {
        None => {
            assert(strings_model(lines@) =~= l0 + identity_before_missing(pm));
            return false;
        },
        Some(v) => push_labelled(lines, "Server Join Code: ", value_as_str(Some(v))),
    }
    let ghost l2 = strings_model(lines@);
    assert(l2 =~= l0 + id_line(pm) + join_code_line(pm));
    match object_member(p, "IsPasswordProtected") {
        None => {
            assert(strings_model(lines@) =~= l0 + identity_before_missing(pm));
            return false;
        },
        Some(v) => match value_as_bool(v) {
            Some(b) => {
                let text = bool_to_text(b);
                push_labelled(lines, "Password Protected: ", Some(text.as_str()));
            },
            None => push_labelled(lines, "Password Protected: ", None),
        },
    }
    assert(strings_model(lines@) =~= l0 + identity_before_missing(pm));
    true
}

/// Appends the listing lines of `p` that are logged before a missing
/// listing key is read.
fn push_listing_before_missing(p: &Vec<(String, JsonValue)>, lines: &mut Vec<String>)
    ensures
        strings_model(final(lines)@) == strings_model(old(lines)@) + listing_before_missing(
            members_model(p@),
        ),
{
    let ghost pm = members_model(p@);
    let ghost l0 = strings_model(lines@);
    match object_member(p, "ServerName") {
        None => {
            assert(strings_model(lines@) =~= l0 + listing_before_missing(pm));
            return;
        },
        Some(v) => push_labelled(lines, "Server Name: ", non_empty_text(value_as_str(Some(v)))),
    }
    match object_member(p, "MaxPlayerCount") {
        None => {
            assert(strings_model(lines@) =~= l0 + listing_before_missing(pm));
            return;
        },
        Some(v) => match value_as_i64(v) {
            Some(n) => {
                let text = i64_decimal(n);
                push_labelled(lines, "Max Players: ", Some(text.as_str()));
            },
            None => push_labelled(lines, "Max Players: ", None),
        },
    }
    let ghost l2 = strings_model(lines@);
    assert(l2 =~= l0 + name_line(pm) + players_line(pm));
    match object_member(p, "UserSelectedRegion") {
        None => {
            assert(strings_model(lines@) =~= l0 + listing_before_missing(pm));
            return;
        },
        Some(v) => push_labelled(lines, "Region: ", non_empty_text(value_as_str(Some(v)))),
    }
    assert(strings_model(lines@) =~= l0 + listing_before_missing(pm));
}

/// Appends the lines of the persistent description `p` that are logged
/// before a key it lacks is read.
fn push_lines_before_missing(p: &Vec<(String, JsonValue)>, lines: &mut Vec<String>)
    ensures
        strings_model(final(lines)@) == strings_model(old(lines)@) + lines_before_missing(
            members_model(p@),
        ),
{
    let ghost pm = members_model(p@);
    let ghost l0 = strings_model(lines@);
    if push_identity_before_missing(p, lines) {
        push_listing_before_missing(p, lines);
        assert(strings_model(lines@) =~= l0 + lines_before_missing(pm));
    }
}

/// Whether the server metadata report can be drawn from `doc`.
pub fn report_is_defined(doc: &JsonValue) -> (ok: bool)
    ensures
        ok == report_defined(doc@),
{
    let persistent = field_of(doc, "ServerDescription_Persistent");
    proof {
        if let Some(v) = persistent {
            v.lemma_model_unfold();
        }
    }
    match persistent {
        Some(JsonValue::Object(p)) => {
            let has_all = object_member(p, "PersistentServerId").is_some() && object_member(
                p,
                "InviteCode",
            ).is_some() && object_member(p, "IsPasswordProtected").is_some() && object_member(
                p,
                "ServerName",
            ).is_some() && object_member(p, "MaxPlayerCount").is_some() && object_member(
                p,
                "UserSelectedRegion",
            ).is_some();
            if !has_all {
                return false;
            }
            match object_member(p, "UseDirectConnection") {
                Some(v) => {
                    if value_as_bool(v) == Some(true) {
                        object_member(p, "DirectConnectionServerAddress").is_some()
                            && object_member(p, "DirectConnectionServerPort").is_some()
                    } else {
                        true
                    }
                },
                None => false,
            }
        },
        _ => true,
    }
}

/// The server metadata report of the server description `doc`, line by
/// line: the deployment id, then what the persistent description says of
/// the server, between two rulers.
pub fn server_metadata_lines(doc: &JsonValue) -> (lines: Vec<String>)
    requires
        report_defined(doc@),
    ensures
        strings_model(lines@) == metadata_report(doc@),
{
    let mut lines: Vec<String> = Vec::new();
    lines.push(String::from_str("--- Server Metadata ---"));
    push_labelled(&mut lines, "Deployment ID: ", value_as_str(field_of(doc, "DeploymentId")));
    let ghost l1 = strings_model(lines@);
    let persistent = field_of(doc, "ServerDescription_Persistent");
    match persistent {
        Some(JsonValue::Object(p)) => {
            proof {
                persistent.unwrap().lemma_model_unfold();
            }
            push_persistent_lines(p, &mut lines);
        },
        _ => {
            proof {
                if let Some(v) = persistent {
                    v.lemma_model_unfold();
                }
            }
        },
    }
    let ghost l2 = strings_model(lines@);
    lines.push(String::from_str("-----------------------"));
    proof {
        assert(strings_model(lines@) =~= l2.push("-----------------------"@));
        assert(strings_model(lines@) =~= metadata_report(doc@));
    }
    lines
}

/// The lines that the report logs of `doc` before it stops at a key that
/// the persistent description lacks.
pub fn lines_before_missing_key(doc: &JsonValue) -> (lines: Vec<String>)
    ensures
        strings_model(lines@) == report_before_missing(doc@),
{
    let mut lines: Vec<String> = Vec::new();
    lines.push(String::from_str("--- Server Metadata ---"));
    push_labelled(&mut lines, "Deployment ID: ", value_as_str(field_of(doc, "DeploymentId")));
    let persistent = field_of(doc, "ServerDescription_Persistent");
    proof {
        if let Some(v) = persistent {
            v.lemma_model_unfold();
        }
    }
    let ghost l1 = strings_model(lines@);
    match persistent {
        Some(JsonValue::Object(p)) => {
            push_lines_before_missing(p, &mut lines);
        },
        _ => {},
    }
    assert(strings_model(lines@) =~= report_before_missing(doc@));
    lines
}

/// Why no server metadata report was drawn from a text.
pub enum ReportError {
    /// The text is not valid JSON.
    Parse(serde_json::Error),
    /// The persistent description lacks a key that the report reads; the
    /// lines are those logged before that key is read.
    MissingKey(Vec<String>),
}

/// The server metadata report of the JSON text `content`: the lines when
/// the text holds a document the report can be drawn from, `Parse` when
/// it is not valid JSON, and `MissingKey` when the persistent description
/// lacks a key the report reads.
pub fn server_metadata_from_text(content: &str) -> (report: Result<Vec<String>, ReportError>)
    ensures
        match report {
            Ok(lines) => json_of_text(content@) matches Some(doc) && report_defined(doc)
                && strings_model(lines@) == metadata_report(doc),
            Err(ReportError::Parse(_)) => json_of_text(content@) is None,
            Err(ReportError::MissingKey(lines)) => json_of_text(content@) matches Some(doc)
                && !report_defined(doc) && strings_model(lines@) == report_before_missing(doc),
        },
{
    match parse_json_text(content) {
        Ok(doc) => {
            if report_is_defined(&doc) {
                Ok(server_metadata_lines(&doc))
            } else {
                Err(ReportError::MissingKey(lines_before_missing_key(&doc)))
            }
        },
        Err(e) => Err(ReportError::Parse(e)),
    }
}

/// The decimal text of a natural number reads back as that number: it is a
/// non-empty string of decimal digits whose value is `n`, with no leading
/// zero unless `n` is zero.
pub proof fn lemma_nat_decimal_reads_back(n: nat)
    ensures
        nat_decimal(n).len() > 0,
        all_digits(nat_decimal(n)),
        digits_value(nat_decimal(n)) == n,
        nat_decimal(n)[0] == '0' ==> n == 0,
    decreases n,
{
    let d = nat_decimal(n);
    if n < 10 {
        assert(d.drop_last() =~= Seq::<char>::empty());
        assert(digit_value(digit_char(n as int)) == n);
        assert(is_digit(d[0]));
        assert(d.last() == d[0]);
        assert(digits_value(d.drop_last()) == 0);
    } else {
        lemma_nat_decimal_reads_back(n / 10);
        let q = nat_decimal(n / 10);
        let c = digit_char((n % 10) as int);
        assert(digit_value(c) == n % 10);
        assert(is_digit(c));
        assert(d.drop_last() =~= q);
        assert(d.last() == c);
        assert(10 * (n / 10) + n % 10 == n);
        assert(d[0] == q[0]);
        assert forall|i: int| 0 <= i < d.len() implies is_digit(#[trigger] d[i]) by {
            if i < q.len() {
                assert(d[i] == q[i]);
            }
        }
    }
}

proof fn lemma_concat_contains(a: Seq<Seq<char>>, b: Seq<Seq<char>>, x: Seq<char>)
    requires
        a.contains(x) || b.contains(x),
    ensures
        (a + b).contains(x),
{
    if a.contains(x) {
        let i = choose|i: int| 0 <= i < a.len() && a[i] == x;
        assert((a + b)[i] == x);
    } else {
        let j = choose|j: int| 0 <= j < b.len() && b[j] == x;
        assert((a + b)[a.len() + j] == x);
    }
}

proof fn lemma_single_line(label: Seq<char>, t: Seq<char>)
    ensures
        labelled(label, Some(t)).contains(label + t),
{
    assert(labelled(label, Some(t))[0] == label + t);
}

proof fn lemma_persistent_line_reported(doc: Json, p: Seq<(Seq<char>, Json)>, x: Seq<char>)
    requires
        field(doc, "ServerDescription_Persistent"@) == Json::Object(p),
        persistent_lines(p).contains(x),
    ensures
        metadata_report(doc).contains(x),
{
    let head = seq!["--- Server Metadata ---"@] + labelled(
        "Deployment ID: "@,
        as_str(field(doc, "DeploymentId"@)),
    );
    lemma_concat_contains(head, persistent_lines(p), x);
    lemma_concat_contains(head + persistent_lines(p), seq!["-----------------------"@], x);
}

/// Every field of the persistent description that holds a value of the
/// kind the report shows is reported on its own line, with the value in
/// full: the server id and join code as they are, whether a password is
/// set as `true` or `false`, a non-empty server name and region as they
/// are, an integer player limit that fits in an `i64` in decimal, and the
/// direct connection state (with address and port when it is enabled).
pub proof fn lemma_report_shows_fields(doc: Json, p: Seq<(Seq<char>, Json)>)
    requires
        field(doc, "ServerDescription_Persistent"@) == Json::Object(p),
    ensures
        get_member(p, "PersistentServerId"@) matches Some(Json::Str(t)) ==> metadata_report(
            doc,
        ).contains("Persistent Server ID: "@ + t),
        get_member(p, "InviteCode"@) matches Some(Json::Str(t)) ==> metadata_report(doc).contains(
            "Server Join Code: "@ + t,
        ),
        get_member(p, "IsPasswordProtected"@) == Some(Json::Bool(true)) ==> metadata_report(
            doc,
        ).contains("Password Protected: true"@),
        get_member(p, "IsPasswordProtected"@) == Some(Json::Bool(false)) ==> metadata_report(
            doc,
        ).contains("Password Protected: false"@),
        match get_member(p, "ServerName"@) {
            Some(Json::Str(t)) => t.len() > 0 ==> metadata_report(doc).contains(
                "Server Name: "@ + t,
            ),
            _ => true,
        },
        match get_member(p, "MaxPlayerCount"@) {
            Some(Json::Number(Num::PosInt(u))) => u <= i64::MAX ==> metadata_report(doc).contains(
                "Max Players: "@ + nat_decimal(u as nat),
            ),
            Some(Json::Number(Num::NegInt(i))) => i < 0 ==> metadata_report(doc).contains(
                "Max Players: -"@ + nat_decimal((-i) as nat),
            ),
            _ => true,
        },
        match get_member(p, "UserSelectedRegion"@) {
            Some(Json::Str(t)) => t.len() > 0 ==> metadata_report(doc).contains("Region: "@ + t),
            _ => true,
        },
        get_member(p, "UseDirectConnection"@) == Some(Json::Bool(false)) ==> metadata_report(
            doc,
        ).contains("Direct Connection: Disabled"@),
        match (
            get_member(p, "UseDirectConnection"@),
            get_member(p, "DirectConnectionServerAddress"@),
            get_member(p, "DirectConnectionServerPort"@),
        ) {
            (
                Some(Json::Bool(true)),
                Some(Json::Str(a)),
                Some(Json::Number(Num::PosInt(u))),
            ) => u <= i64::MAX ==> metadata_report(doc).contains(
                "Direct Connection: Enabled ("@ + a + ":"@ + nat_decimal(u as nat) + ")"@,
            ),
            _ => true,
        },
{
    let ident = identity_lines(p);
    let listing = listing_lines(p);
    let direct = direct_connection_lines(p);
    assert(persistent_lines(p) == ident + listing + direct);
    if let Some(Json::Str(t)) = get_member(p, "PersistentServerId"@) {
        lemma_single_line("Persistent Server ID: "@, t);
        lemma_concat_contains(id_line(p), join_code_line(p), "Persistent Server ID: "@ + t);
        lemma_concat_contains(id_line(p) + join_code_line(p), password_line(p), "Persistent Server ID: "@ + t);
        lemma_concat_contains(ident, listing, "Persistent Server ID: "@ + t);
        lemma_concat_contains(ident + listing, direct, "Persistent Server ID: "@ + t);
        lemma_persistent_line_reported(doc, p, "Persistent Server ID: "@ + t);
    }
    if let Some(Json::Str(t)) = get_member(p, "InviteCode"@) {
        let x = "Server Join Code: "@ + t;
        lemma_single_line("Server Join Code: "@, t);
        lemma_concat_contains(id_line(p), join_code_line(p), x);
        lemma_concat_contains(id_line(p) + join_code_line(p), password_line(p), x);
        lemma_concat_contains(ident, listing, x);
        lemma_concat_contains(ident + listing, direct, x);
        lemma_persistent_line_reported(doc, p, x);
    }
    if let Some(Json::Bool(b)) = get_member(p, "IsPasswordProtected"@) {
        let x = "Password Protected: "@ + bool_text(b);
        lemma_single_line("Password Protected: "@, bool_text(b));
        lemma_concat_contains(id_line(p) + join_code_line(p), password_line(p), x);
        lemma_concat_contains(ident, listing, x);
        lemma_concat_contains(ident + listing, direct, x);
        lemma_persistent_line_reported(doc, p, x);
        reveal_strlit("true");
        reveal_strlit("false");
        reveal_strlit("Password Protected: ");
        reveal_strlit("Password Protected: true");
        reveal_strlit("Password Protected: false");
        assert(x =~= if b {
            "Password Protected: true"@
        } else {
            "Password Protected: false"@
        });
    }
    if let Some(Json::Str(t)) = get_member(p, "ServerName"@) {
        if t.len() > 0 {
            let x = "Server Name: "@ + t;
            lemma_single_line("Server Name: "@, t);
            lemma_concat_contains(name_line(p), players_line(p), x);
            lemma_concat_contains(name_line(p) + players_line(p), region_line(p), x);
            lemma_concat_contains(ident, listing, x);
            lemma_concat_contains(ident + listing, direct, x);
            lemma_persistent_line_reported(doc, p, x);
        }
    }
    if let Some(Json::Number(num)) = get_member(p, "MaxPlayerCount"@) {
        if let Some(n) = as_i64(Json::Number(num)) {
            let x = "Max Players: "@ + decimal(n);
            lemma_single_line("Max Players: "@, decimal(n));
            lemma_concat_contains(name_line(p), players_line(p), x);
            lemma_concat_contains(name_line(p) + players_line(p), region_line(p), x);
            lemma_concat_contains(ident, listing, x);
            lemma_concat_contains(ident + listing, direct, x);
            lemma_persistent_line_reported(doc, p, x);
            if n < 0 {
                reveal_strlit("Max Players: ");
                reveal_strlit("Max Players: -");
                assert(x =~= "Max Players: -"@ + nat_decimal((-n) as nat));
            }
        }
    }
    if let Some(Json::Str(t)) = get_member(p, "UserSelectedRegion"@) {
        if t.len() > 0 {
            let x = "Region: "@ + t;
            lemma_single_line("Region: "@, t);
            lemma_concat_contains(name_line(p) + players_line(p), region_line(p), x);
            lemma_concat_contains(ident, listing, x);
            lemma_concat_contains(ident + listing, direct, x);
            lemma_persistent_line_reported(doc, p, x);
        }
    }
    if let Some(Json::Bool(b)) = get_member(p, "UseDirectConnection"@) {
        if direct.len() > 0 {
            assert(direct.contains(direct[0]));
            lemma_concat_contains(ident + listing, direct, direct[0]);
            lemma_persistent_line_reported(doc, p, direct[0]);
        }
    }
}

/// Decimal text and integer literals agree: reading the decimal text of an
/// `i64` as an integer literal gives that integer back, and an integer
/// taken from a literal reads back as the same integer from its JSON
/// number.
pub proof fn lemma_decimal_reads_back(n: int)
    requires
        i64::MIN <= n <= i64::MAX,
    ensures
        i64_literal(decimal(n)) == Some(n),
        as_i64(Json::Number(int_number(n))) == Some(n),
{
    if n < 0 {
        let m = (-n) as nat;
        lemma_nat_decimal_reads_back(m);
        let s = decimal(n);
        assert(s[0] == '-');
        assert(s.drop_first() =~= nat_decimal(m));
    } else {
        lemma_nat_decimal_reads_back(n as nat);
        let d = nat_decimal(n as nat);
        assert(is_digit(d[0]));
    }
}

} // verus!
