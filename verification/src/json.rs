//! Parsed JSON documents, as far as the logic looks into them.

use vstd::prelude::*;

use crate::chars;
use crate::scalar::Scalar;

verus! {

/// A JSON value. A number comes with its integer readings, where it has them;
/// a text comes with the number that it spells out, where it spells one.
pub enum Json<S> {
    Null,
    Bool(bool),
    Number { unsigned: Option<u64>, signed: Option<i64>, value: S },
    Text { text: String, spelled: Option<S> },
    List(Vec<Json<S>>),
    Object(Vec<(String, Json<S>)>),
}

/// The value behind the first of `entries` with the name `key`.
pub open spec fn entry_of<S>(entries: Seq<(String, Json<S>)>, key: Seq<char>) -> Option<Json<S>>
    decreases entries.len(),
{
    if entries.len() == 0 {
        None
    } else if entries[0].0@ == key {
        Some(entries[0].1)
    } else {
        entry_of(entries.skip(1), key)
    }
}

impl<S: Scalar> Json<S> {
    /// The value behind the name `key` in an object.
    pub open spec fn field(self, key: Seq<char>) -> Option<Json<S>> {
        match self {
            Json::Object(entries) => entry_of(entries@, key),
            _ => None,
        }
    }

    /// The value behind `outer` and then `inner`.
    pub open spec fn field2(self, outer: Seq<char>, inner: Seq<char>) -> Option<Json<S>> {
        match self.field(outer) {
            None => None,
            Some(v) => v.field(inner),
        }
    }

    pub open spec fn str_spec(self) -> Option<Seq<char>> {
        match self {
            Json::Text { text, spelled } => Some(text@),
            _ => None,
        }
    }

    pub open spec fn real_spec(self) -> Option<S> {
        match self {
            Json::Number { unsigned, signed, value } => Some(value),
            _ => None,
        }
    }

    pub open spec fn list_spec(self) -> Option<Seq<Json<S>>> {
        match self {
            Json::List(items) => Some(items@),
            _ => None,
        }
    }

    pub fn get(&self, key: &str) -> (r: Option<&Json<S>>)
        ensures
            r is Some <==> self.field(key@) is Some,
            r matches Some(v) ==> self.field(key@) == Some(*v),
    {
        match self {
            Json::Object(entries) => {
                let mut i: usize = 0;
                assert(entries@.skip(0) =~= entries@);
                while i < entries.len()
                    invariant
                        i <= entries@.len(),
                        self.field(key@) == entry_of(entries@.skip(i as int), key@),
                    decreases entries@.len() - i,
                {
                    assert(entries@.skip(i as int)[0] == entries@[i as int]);
                    if chars::same_text(entries[i].0.as_str(), key) {
                        return Some(&entries[i].1);
                    }
                    assert(entries@.skip(i as int).skip(1) =~= entries@.skip(i as int + 1));
                    i = i + 1;
                }
                None
            },
            _ => None,
        }
    }

    pub fn as_str(&self) -> (r: Option<&str>)
        ensures
            r is Some <==> self.str_spec() is Some,
            r matches Some(t) ==> self.str_spec() == Some(t@),
    {
        match self {
            Json::Text { text, spelled } => Some(text.as_str()),
            _ => None,
        }
    }

    pub fn as_f64(&self) -> (r: Option<S>)
        ensures
            r == self.real_spec(),
    {
        match self {
            Json::Number { unsigned, signed, value } => Some(*value),
            _ => None,
        }
    }

    pub fn as_u64(&self) -> (r: Option<u64>)
        ensures
            r == (match *self {
                Json::Number { unsigned, signed, value } => unsigned,
                _ => None,
            }),
    {
        match self {
            Json::Number { unsigned, signed, value } => *unsigned,
            _ => None,
        }
    }

    pub fn as_i64(&self) -> (r: Option<i64>)
        ensures
            r == (match *self {
                Json::Number { unsigned, signed, value } => signed,
                _ => None,
            }),
    {
        match self {
            Json::Number { unsigned, signed, value } => *signed,
            _ => None,
        }
    }

    pub fn as_array(&self) -> (r: Option<&Vec<Json<S>>>)
        ensures
            r is Some <==> self.list_spec() is Some,
            r matches Some(v) ==> self.list_spec() == Some(v@),
    {
        match self {
            Json::List(items) => Some(items),
            _ => None,
        }
    }

    /// The number that a value stands for: a JSON number, or a text that spells
    /// one.
    pub open spec fn number_spec(self) -> Option<S> {
        match self {
            Json::Number { unsigned, signed, value } => Some(value),
            Json::Text { text, spelled } => spelled,
            _ => None,
        }
    }

    /// The switch that a value stands for.
    pub open spec fn switch_spec(self) -> Option<bool> {
        match self {
            Json::Bool(b) => Some(b),
            Json::Number { unsigned, signed, value } => match signed {
                Some(i) => Some(i != 0),
                None => None,
            },
            Json::Text { text, spelled } => switch_word(chars::lowercase(chars::trimmed(text@))),
            _ => None,
        }
    }

    pub open spec fn text_or_empty(v: Option<Json<S>>) -> Seq<char> {
        match v {
            None => Seq::empty(),
            Some(v) => match v.str_spec() {
                None => Seq::empty(),
                Some(t) => t,
            },
        }
    }

    pub open spec fn number_field(self, key: Seq<char>) -> Option<S> {
        match self.field(key) {
            None => None,
            Some(v) => v.number_spec(),
        }
    }

    /// The text behind `key`; empty where there is none.
    pub fn text_field(&self, key: &str) -> (r: &str)
        ensures
            r@ == Self::text_or_empty(self.field(key@)),
    {
        match self.get(key) {
            None => {
                proof {
                    reveal_strlit("");
                }
                assert(""@ =~= Seq::<char>::empty());
                ""
            },
            Some(v) => match v.as_str() {
                None => {
                    proof {
                        reveal_strlit("");
                    }
                    assert(""@ =~= Seq::<char>::empty());
                    ""
                },
                Some(t) => t,
            },
        }
    }
}

/// Whether a word is one of the five that switch something on.
pub open spec fn on_word(w: Seq<char>) -> bool {
    w == "1"@ || w == "true"@ || w == "yes"@ || w == "y"@ || w == "on"@
}

/// Whether a word is one of the five that switch something off.
pub open spec fn off_word(w: Seq<char>) -> bool {
    w == "0"@ || w == "false"@ || w == "no"@ || w == "n"@ || w == "off"@
}

/// What a lower-case word switches to, if anything.
pub open spec fn switch_word(w: Seq<char>) -> Option<bool> {
    if on_word(w) {
        Some(true)
    } else if off_word(w) {
        Some(false)
    } else {
        None
    }
}

pub fn is_on_word(w: &str) -> (r: bool)
    ensures
        r == on_word(w@),
{
    chars::same_text(w, "1") || chars::same_text(w, "true") || chars::same_text(w, "yes") || chars::same_text(w, "y")
        || chars::same_text(w, "on")
}

pub fn read_switch(w: &str) -> (r: Option<bool>)
    ensures
        r == switch_word(w@),
{
    if is_on_word(w) {
        Some(true)
    } else if chars::same_text(w, "0") || chars::same_text(w, "false") || chars::same_text(w, "no")
        || chars::same_text(w, "n") || chars::same_text(w, "off") {
        Some(false)
    } else {
        None
    }
}

pub fn safe_f64<S: Scalar>(v: &Json<S>) -> (r: Option<S>)
    ensures
        r == v.number_spec(),
{
    match v {
        Json::Number { unsigned, signed, value } => Some(*value),
        Json::Text { text, spelled } => *spelled,
        _ => None,
    }
}

pub fn safe_bool<S: Scalar>(v: &Json<S>) -> (r: Option<bool>)
    ensures
        r == v.switch_spec(),
{
    match v {
        Json::Bool(b) => Some(*b),
        Json::Number { unsigned, signed, value } => match signed {
            Some(i) => Some(*i != 0),
            None => None,
        },
        Json::Text { text, spelled } => read_switch(
            chars::to_lower(chars::trim(text.as_str()).as_str()).as_str(),
        ),
        _ => None,
    }
}

/// The number behind `key`.
pub fn number_field<S: Scalar>(v: &Json<S>, key: &str) -> (r: Option<S>)
    ensures
        r == v.number_field(key@),
{
    match v.get(key) {
        None => None,
        Some(x) => safe_f64(x),
    }
}

/// A field has the value of the first entry with its name.
pub proof fn law_first_entry_counts<S>(entries: Seq<(String, Json<S>)>, key: Seq<char>, i: int)
    requires
        0 <= i <= entries.len(),
        forall|j: int| 0 <= j < i ==> (#[trigger] entries[j]).0@ != key,
        i < entries.len() ==> entries[i].0@ == key,
    ensures
        i < entries.len() ==> entry_of(entries, key) == Some(entries[i].1),
        i == entries.len() ==> entry_of(entries, key) is None,
    decreases entries.len(),
{
    if i > 0 {
        assert(entries[0].0@ != key);
        let rest = entries.skip(1);
        assert forall|j: int| 0 <= j < i - 1 implies (#[trigger] rest[j]).0@ != key by {
            assert(rest[j] == entries[j + 1]);
        }
        law_first_entry_counts(rest, key, i - 1);
    }
}

/// The words that switch on, those that switch off, and no others.
pub proof fn law_words_switch(w: Seq<char>)
    ensures
        switch_word(w) == Some(true) <==> w == "1"@ || w == "true"@ || w == "yes"@ || w == "y"@ || w == "on"@,
        switch_word(w) == Some(false) <==> w == "0"@ || w == "false"@ || w == "no"@ || w == "n"@ || w == "off"@,
{
    reveal_strlit("1");
    reveal_strlit("true");
    reveal_strlit("yes");
    reveal_strlit("y");
    reveal_strlit("on");
    reveal_strlit("0");
    reveal_strlit("false");
    reveal_strlit("no");
    reveal_strlit("n");
    reveal_strlit("off");
    assert("0"@[0] == '0' && "false"@[0] == 'f' && "no"@[0] == 'n' && "n"@[0] == 'n' && "off"@[0] == 'o');
    assert("1"@[0] == '1' && "true"@[0] == 't' && "yes"@[0] == 'y' && "y"@[0] == 'y' && "on"@[0] == 'o');
    assert("0"@.len() == 1 && "false"@.len() == 5 && "no"@.len() == 2 && "n"@.len() == 1 && "off"@.len() == 3);
    assert("1"@.len() == 1 && "true"@.len() == 4 && "yes"@.len() == 3 && "y"@.len() == 1 && "on"@.len() == 2);
    assert(on_word(w) ==> !off_word(w));
}

/// A number, or a text that spells one, is a number; a switch may be told by a truth
/// value, by a whole number other than zero, or by a word.
pub proof fn law_values_are_read_kindly<S: Scalar>(v: Json<S>)
    ensures
        v.real_spec() is Some ==> v.number_spec() == v.real_spec(),
        v matches Json::Text { text, spelled } ==> v.number_spec() == spelled,
        v is Null || v is Bool || v is List || v is Object ==> v.number_spec() is None,
        v matches Json::Bool(b) ==> v.switch_spec() == Some(b),
        v matches Json::Number { unsigned, signed: Some(i), value } ==> v.switch_spec() == Some(i != 0),
        v is Null || v is List || v is Object ==> v.switch_spec() is None,
{
}

} // verus!
