//! Classification of field names.

use crate::event::{as_text, copy_text, name_data, name_event, name_id, name_retry};
use crate::utf8::same_text;
use std::borrow::Cow;
use vstd::prelude::*;
use vstd::std_specs::convert::FromSpecImpl;

verus! {

/// What a field name stands for, with the name kept as plain text where it
/// is not recognised.
pub enum KeywordView {
    Data,
    Event,
    Id,
    Retry,
    Comment,
    Unknown(Seq<char>),
}

/// The kind of field that a name selects: the four literal names, the empty
/// name for a comment, and anything else unknown.
pub open spec fn classify(name: Seq<char>) -> KeywordView {
    if name == name_data() {
        KeywordView::Data
    } else if name == name_event() {
        KeywordView::Event
    } else if name == name_id() {
        KeywordView::Id
    } else if name == name_retry() {
        KeywordView::Retry
    } else if name.len() == 0 {
        KeywordView::Comment
    } else {
        KeywordView::Unknown(name)
    }
}

/// A classified field name.
#[derive(Debug, PartialEq, Eq)]
pub enum Keyword<'a> {
    Data,
    Event,
    Id,
    Retry,
    Comment,
    Unknown(Cow<'a, str>),
}

impl<'a> View for Keyword<'a> {
    type V = KeywordView;

    open spec fn view(&self) -> KeywordView {
        match self {
            Keyword::Data => KeywordView::Data,
            Keyword::Event => KeywordView::Event,
            Keyword::Id => KeywordView::Id,
            Keyword::Retry => KeywordView::Retry,
            Keyword::Comment => KeywordView::Comment,
            Keyword::Unknown(name) => KeywordView::Unknown(name@),
        }
    }
}

impl<'a> Clone for Keyword<'a> {
    fn clone(&self) -> (k: Self)
        ensures
            k@ == self@,
    {
        match self {
            Keyword::Data => Keyword::Data,
            Keyword::Event => Keyword::Event,
            Keyword::Id => Keyword::Id,
            Keyword::Retry => Keyword::Retry,
            Keyword::Comment => Keyword::Comment,
            Keyword::Unknown(name) => Keyword::Unknown(copy_text(name)),
        }
    }
}

impl<'a> From<Cow<'a, str>> for Keyword<'a> {
    fn from(s: Cow<'a, str>) -> (k: Self) {
        proof {
            reveal_strlit("data");
            reveal_strlit("event");
            reveal_strlit("id");
            reveal_strlit("retry");
            reveal_strlit("");
            assert("data"@ =~= name_data());
            assert("event"@ =~= name_event());
            assert("id"@ =~= name_id());
            assert("retry"@ =~= name_retry());
            assert(s@.len() == 0 <==> s@ == ""@) by {
                if s@.len() == 0 {
                    assert(s@ =~= ""@);
                }
            }
        }
        let name = as_text(&s);
        if same_text(name, "data") {
            Keyword::Data
        } else if same_text(name, "event") {
            Keyword::Event
        } else if same_text(name, "id") {
            Keyword::Id
        } else if same_text(name, "retry") {
            Keyword::Retry
        } else if same_text(name, "") {
            Keyword::Comment
        } else {
            Keyword::Unknown(s)
        }
    }
}

impl<'a> FromSpecImpl<Cow<'a, str>> for Keyword<'a> {
    open spec fn obeys_from_spec() -> bool {
        true
    }

    open spec fn from_spec(s: Cow<'a, str>) -> Self {
        match classify(s@) {
            KeywordView::Data => Keyword::Data,
            KeywordView::Event => Keyword::Event,
            KeywordView::Id => Keyword::Id,
            KeywordView::Retry => Keyword::Retry,
            KeywordView::Comment => Keyword::Comment,
            KeywordView::Unknown(_) => Keyword::Unknown(s),
        }
    }
}

} // verus!
