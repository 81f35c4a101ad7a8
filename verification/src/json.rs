//! A JSON value as plain data, and the reads that the hook installers make
//! of the entries in an agent's settings file.
use vstd::prelude::*;
use crate::text::{has_prefix, starts_with};

verus! {

/// A JSON value. Numbers keep their textual form; an object keeps its
/// members in order.
#[derive(Debug, PartialEq, Eq)]
pub enum Json {
    Null,
    Bool(bool),
    Number(String),
    Str(String),
    Array(Vec<Json>),
    Object(Vec<(String, Json)>),
}

/// The value of the first member named `key`.
pub open spec fn member(members: Seq<(String, Json)>, key: Seq<char>) -> Option<Json>
    decreases members.len(),
{
    if members.len() == 0 {
        None
    } else if members[0].0@ == key {
        Some(members[0].1)
    } else {
        member(members.drop_first(), key)
    }
}

/// The member `key` of `v` when `v` is an object holding one (serde_json's
/// `Value::get` with a string key).
pub open spec fn get_field(v: Json, key: Seq<char>) -> Option<Json> {
    match v {
        Json::Object(ms) => member(ms@, key),
        _ => None,
    }
}

/// `get_field` through an optional value.
pub open spec fn get_field_opt(v: Option<Json>, key: Seq<char>) -> Option<Json> {
    match v {
        Some(j) => get_field(j, key),
        None => None,
    }
}

/// The text of a string value.
pub open spec fn as_text(v: Option<Json>) -> Option<Seq<char>> {
    match v {
        Some(Json::Str(s)) => Some(s@),
        _ => None,
    }
}

/// The first element of an array value.
pub open spec fn first_element(v: Option<Json>) -> Option<Json> {
    match v {
        Some(Json::Array(a)) => if a@.len() > 0 {
            Some(a@[0])
        } else {
            None
        },
        _ => None,
    }
}

impl Json {
    /// The member `key` of this value, when it is an object holding one.
    pub fn get(&self, key: &str) -> (r: Option<&Json>)
        ensures
            r matches Some(v) ==> get_field(*self, key@) == Some(*v),
            r is None <==> get_field(*self, key@) is None,
    {
        match self {
            Json::Object(ms) => {
                let k = key.to_owned();
                let mut i: usize = 0;
                assert(ms@.skip(0) =~= ms@);
                while i < ms.len()
                    invariant
                        get_field(*self, key@) == member(ms@, key@),
                        i <= ms@.len(),
                        k@ == key@,
                        member(ms@, key@) == member(ms@.skip(i as int), key@),
                    decreases ms@.len() - i,
                {
                    if ms[i].0 == k {
                        assert(ms@.skip(i as int)[0] == ms@[i as int]);
                        return Some(&ms[i].1);
                    }
                    assert(ms@.skip(i as int).drop_first() =~= ms@.skip(i + 1));
                    i += 1;
                }
                None
            },
            _ => None,
        }
    }

    /// The text of this value, when it is a string.
    pub fn as_str(&self) -> (r: Option<&str>)
        ensures
            r matches Some(s) ==> as_text(Some(*self)) == Some(s@),
            r is None <==> as_text(Some(*self)) is None,
    {
        match self {
            Json::Str(s) => Some(s.as_str()),
            _ => None,
        }
    }

    /// The first element of this value, when it is a non-empty array.
    pub fn first(&self) -> (r: Option<&Json>)
        ensures
            r matches Some(v) ==> first_element(Some(*self)) == Some(*v),
            r is None <==> first_element(Some(*self)) is None,
    {
        match self {
            Json::Array(a) => if a.len() > 0 {
                Some(&a[0])
            } else {
                None
            },
            _ => None,
        }
    }
}

/// Whether a settings entry is the one this installer writes: its
/// `matcher` is `"Read"` and the `command` of the first of its `hooks`
/// begins with `marker`.
pub open spec fn is_own_entry(v: Json, marker: Seq<char>) -> bool {
    &&& as_text(get_field(v, "matcher"@)) == Some("Read"@)
    &&& match as_text(get_field_opt(first_element(get_field(v, "hooks"@)), "command"@)) {
        Some(c) => has_prefix(c, marker),
        None => false,
    }
}

/// Whether a settings entry is the one this installer writes (see
/// `is_own_entry`).
pub fn matches_entry(v: &Json, marker: &str) -> (r: bool)
    ensures
        r == is_own_entry(*v, marker@),
{
    proof {
        reveal_strlit("Read");
    }
    let matcher_is_read = match v.get("matcher") {
        Some(m) => match m.as_str() {
            Some(t) => t.to_owned() == "Read".to_owned(),
            None => false,
        },
        None => false,
    };
    if !matcher_is_read {
        return false;
    }
    let first = match v.get("hooks") {
        Some(h) => h.first(),
        None => None,
    };
    let command = match first {
        Some(h0) => h0.get("command"),
        None => None,
    };
    match command {
        Some(c) => match c.as_str() {
            Some(text) => starts_with(text, marker),
            None => false,
        },
        None => false,
    }
}

/// Whether `v` is the entry `{"matcher": "Read", "hooks": [{"type":
/// "command", "command": <command>}]}`, members in that order.
pub open spec fn is_hook_entry(v: Json, command: Seq<char>) -> bool {
    match v {
        Json::Object(ms) => {
            &&& ms@.len() == 2
            &&& ms@[0].0@ == "matcher"@
            &&& is_text(ms@[0].1, "Read"@)
            &&& ms@[1].0@ == "hooks"@
            &&& match ms@[1].1 {
                Json::Array(hs) => {
                    &&& hs@.len() == 1
                    &&& match hs@[0] {
                        Json::Object(h) => {
                            &&& h@.len() == 2
                            &&& h@[0].0@ == "type"@
                            &&& is_text(h@[0].1, "command"@)
                            &&& h@[1].0@ == "command"@
                            &&& is_text(h@[1].1, command)
                        },
                        _ => false,
                    }
                },
                _ => false,
            }
        },
        _ => false,
    }
}

/// Whether `v` is the string `t`.
pub open spec fn is_text(v: Json, t: Seq<char>) -> bool {
    match v {
        Json::Str(s) => s@ == t,
        _ => false,
    }
}

/// The settings entry that runs `command` before every read.
pub fn hook_entry_for(command: String) -> (r: Json)
    ensures
        is_hook_entry(r, command@),
{
    let mut inner: Vec<(String, Json)> = Vec::new();
    inner.push(("type".to_owned(), Json::Str("command".to_owned())));
    inner.push(("command".to_owned(), Json::Str(command)));
    let mut hooks: Vec<Json> = Vec::new();
    hooks.push(Json::Object(inner));
    let mut outer: Vec<(String, Json)> = Vec::new();
    outer.push(("matcher".to_owned(), Json::Str("Read".to_owned())));
    outer.push(("hooks".to_owned(), Json::Array(hooks)));
    Json::Object(outer)
}

/// The entry that `hook_entry_for` builds is recognised as the installer's
/// own exactly when its command begins with the marker.
pub proof fn lemma_hook_entry_recognised(v: Json, command: Seq<char>, marker: Seq<char>)
    requires
        is_hook_entry(v, command),
    ensures
        is_own_entry(v, marker) <==> has_prefix(command, marker),
{
    reveal_strlit("matcher");
    reveal_strlit("hooks");
    reveal_strlit("command");
    reveal_strlit("type");
    reveal_strlit("Read");
    reveal_with_fuel(member, 3);
    let ms = match v {
        Json::Object(ms) => ms@,
        _ => Seq::empty(),
    };
    assert(get_field(v, "matcher"@) == Some(ms[0].1));
    assert(ms.drop_first()[0] == ms[1]);
    assert("matcher"@.len() != "hooks"@.len());
    assert(ms[0].0@ != "hooks"@);
    assert(get_field(v, "hooks"@) == Some(ms[1].1));
    let hs = match ms[1].1 {
        Json::Array(hs) => hs@,
        _ => Seq::empty(),
    };
    let h = match hs[0] {
        Json::Object(h) => h@,
        _ => Seq::empty(),
    };
    assert(h.drop_first()[0] == h[1]);
    assert("type"@.len() != "command"@.len());
    assert(h[0].0@ != "command"@);
    assert(get_field(hs[0], "command"@) == Some(h[1].1));
}

/// Whether no two members share a key.
pub open spec fn distinct_keys(ms: Seq<(String, Json)>) -> bool {
    forall|i: int, j: int| 0 <= i < j < ms.len() ==> (#[trigger] ms[i]).0@ != (#[trigger] ms[j]).0@
}

proof fn lemma_member_at(ms: Seq<(String, Json)>, key: Seq<char>, i: int)
    requires
        distinct_keys(ms),
        0 <= i < ms.len(),
        ms[i].0@ == key,
    ensures
        member(ms, key) == Some(ms[i].1),
    decreases ms.len(),
{
    if i > 0 {
        assert(ms[0].0@ != ms[i].0@);
        let t = ms.drop_first();
        assert forall|a: int, b: int| 0 <= a < b < t.len() implies (#[trigger] t[a]).0@ != (#[trigger] t[b]).0@ by {
            assert(t[a] == ms[a + 1]);
            assert(t[b] == ms[b + 1]);
        }
        assert(t[i - 1] == ms[i]);
        lemma_member_at(t, key, i - 1);
    }
}

proof fn lemma_member_absent(ms: Seq<(String, Json)>, key: Seq<char>)
    requires
        forall|i: int| 0 <= i < ms.len() ==> (#[trigger] ms[i]).0@ != key,
    ensures
        member(ms, key) is None,
    decreases ms.len(),
{
    if ms.len() > 0 {
        let t = ms.drop_first();
        assert forall|i: int| 0 <= i < t.len() implies (#[trigger] t[i]).0@ != key by {
            assert(t[i] == ms[i + 1]);
        }
        assert(ms[0].0@ != key);
        lemma_member_absent(t, key);
    }
}

/// With distinct keys, a member is found by its key wherever it stands:
/// two objects that hold the same members, in whatever order, give the
/// same value for every key.
pub proof fn lemma_member_order_free(ms1: Seq<(String, Json)>, ms2: Seq<(String, Json)>, key: Seq<char>)
    requires
        distinct_keys(ms1),
        distinct_keys(ms2),
        forall|p: (String, Json)| ms1.contains(p) <==> ms2.contains(p),
    ensures
        member(ms1, key) == member(ms2, key),
{
    if exists|i: int| 0 <= i < ms1.len() && (#[trigger] ms1[i]).0@ == key {
        let i = choose|i: int| 0 <= i < ms1.len() && (#[trigger] ms1[i]).0@ == key;
        assert(ms1.contains(ms1[i]));
        let j = choose|j: int| 0 <= j < ms2.len() && ms2[j] == ms1[i];
        lemma_member_at(ms1, key, i);
        lemma_member_at(ms2, key, j);
    } else {
        lemma_member_absent(ms1, key);
        assert forall|j: int| 0 <= j < ms2.len() implies (#[trigger] ms2[j]).0@ != key by {
            assert(ms2.contains(ms2[j]));
            if ms2[j].0@ == key {
                let i = choose|i: int| 0 <= i < ms1.len() && ms1[i] == ms2[j];
                assert(ms1[i].0@ == key);
            }
        }
        lemma_member_absent(ms2, key);
    }
}

/// Whether a settings entry is the installer's own does not depend on the
/// order of its members (settings read back through serde_json come with
/// their keys sorted): an entry with the same members in another order,
/// keys distinct, is recognised alike.
pub proof fn lemma_own_entry_order_free(ms1: Vec<(String, Json)>, ms2: Vec<(String, Json)>, marker: Seq<char>)
    requires
        distinct_keys(ms1@),
        distinct_keys(ms2@),
        forall|p: (String, Json)| ms1@.contains(p) <==> ms2@.contains(p),
    ensures
        is_own_entry(Json::Object(ms1), marker) == is_own_entry(Json::Object(ms2), marker),
{
    lemma_member_order_free(ms1@, ms2@, "matcher"@);
    lemma_member_order_free(ms1@, ms2@, "hooks"@);
}

/// An object whose `matcher` member is `"Read"` and whose `hooks` member
/// is a list whose first hook's `command` begins with the marker is the
/// installer's own entry, wherever those members stand among distinctly
/// keyed members.
pub proof fn lemma_own_entry_by_key(ms: Vec<(String, Json)>, marker: Seq<char>, i: int, j: int)
    requires
        distinct_keys(ms@),
        0 <= i < ms@.len(),
        0 <= j < ms@.len(),
        ms@[i].0@ == "matcher"@,
        is_text(ms@[i].1, "Read"@),
        ms@[j].0@ == "hooks"@,
        match as_text(get_field_opt(first_element(Some(ms@[j].1)), "command"@)) {
            Some(c) => has_prefix(c, marker),
            None => false,
        },
    ensures
        is_own_entry(Json::Object(ms), marker),
{
    lemma_member_at(ms@, "matcher"@, i);
    lemma_member_at(ms@, "hooks"@, j);
}

} // verus!
