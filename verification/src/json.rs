//! What the monitor reads of a JSON document: the members of its outermost object.

use vstd::prelude::*;

use crate::text::same;

verus! {

/// The value of one member, as far as the monitor looks into it.
pub enum Field {
    /// A string.
    Text(String),
    /// An array: for each item its value, where that is an unsigned 64-bit integer.
    List(Vec<Option<u64>>),
    /// Any other value.
    Other,
}

/// One member of an object.
pub struct Member {
    pub key: String,
    pub value: Field,
}

/// A JSON document.
pub enum Document {
    /// An object with its members.
    Object(Vec<Member>),
    /// Any other value.
    Other,
}

/// The mathematical form of [`Field`].
pub enum FieldView {
    Text(Seq<char>),
    List(Seq<Option<u64>>),
    Other,
}

/// The mathematical form of [`Document`].
pub enum DocumentView {
    Object(Seq<(Seq<char>, FieldView)>),
    Other,
}

impl View for Field {
    type V = FieldView;

    open spec fn view(&self) -> FieldView {
        match self {
            Field::Text(s) => FieldView::Text(s@),
            Field::List(items) => FieldView::List(items@),
            Field::Other => FieldView::Other,
        }
    }
}

impl View for Document {
    type V = DocumentView;

    open spec fn view(&self) -> DocumentView {
        match self {
            Document::Object(members) => DocumentView::Object(members_view(members@)),
            Document::Other => DocumentView::Other,
        }
    }
}

/// The mathematical form of a list of members.
pub open spec fn members_view(members: Seq<Member>) -> Seq<(Seq<char>, FieldView)> {
    members.map_values(|m: Member| (m.key@, m.value@))
}

/// The value of the first member called `key`.
pub open spec fn member_of(members: Seq<(Seq<char>, FieldView)>, key: Seq<char>) -> Option<
    FieldView,
>
    decreases members.len(),
{
    if members.len() == 0 {
        None
    } else if members.first().0 == key {
        Some(members.first().1)
    } else {
        member_of(members.drop_first(), key)
    }
}

/// The value that a document holds under `key`.
pub open spec fn field_of(document: DocumentView, key: Seq<char>) -> Option<FieldView> {
    match document {
        DocumentView::Object(members) => member_of(members, key),
        DocumentView::Other => None,
    }
}

/// The string that a document holds under `key`.
pub open spec fn text_of(document: DocumentView, key: Seq<char>) -> Option<Seq<char>> {
    match field_of(document, key) {
        Some(FieldView::Text(s)) => Some(s),
        _ => None,
    }
}

impl Document {
    /// The value under `key`.
    pub fn field(&self, key: &str) -> (found: Option<&Field>)
        ensures
            match field_of(self@, key@) {
                Some(v) => found matches Some(f) && f@ == v,
                None => found is None,
            },
    {
        match self {
            Document::Object(members) => {
                let ghost all = members_view(members@);
                let mut i: usize = 0;
                assert(all.skip(0) == all);
                while i < members.len()
                    invariant
                        i <= members.len(),
                        all == members_view(members@),
                        self@ == DocumentView::Object(all),
                        member_of(all, key@) == member_of(all.skip(i as int), key@),
                    decreases members.len() - i,
                {
                    assert(all.skip(i as int).first() == all[i as int]);
                    assert(all.skip(i as int).drop_first() =~= all.skip(i + 1));
                    if same(members[i].key.as_str(), key) {
                        return Some(&members[i].value);
                    }
                    i += 1;
                }
                None
            },
            Document::Other => None,
        }
    }

    /// The string under `key`.
    pub fn text(&self, key: &str) -> (found: Option<&String>)
        ensures
            match text_of(self@, key@) {
                Some(s) => found matches Some(f) && f@ == s,
                None => found is None,
            },
    {
        match self.field(key) {
            Some(Field::Text(s)) => Some(s),
            _ => None,
        }
    }
}

/// A member is found under its key, whatever stands before and behind it, unless an
/// earlier one has the same key.
pub proof fn member_is_found(
    before: Seq<(Seq<char>, FieldView)>,
    key: Seq<char>,
    value: FieldView,
    rest: Seq<(Seq<char>, FieldView)>,
)
    requires
        forall|i: int| 0 <= i < before.len() ==> (#[trigger] before[i]).0 != key,
    ensures
        field_of(DocumentView::Object(before.push((key, value)) + rest), key) == Some(value),
        field_of(DocumentView::Object(before), key) is None,
        field_of(DocumentView::Other, key) is None,
    decreases before.len(),
{
    let all = before.push((key, value)) + rest;
    if before.len() > 0 {
        let shorter = before.drop_first();
        assert(before[0].0 != key);
        assert(all.first() == before[0]);
        assert(all.drop_first() =~= shorter.push((key, value)) + rest);
        assert forall|i: int| 0 <= i < shorter.len() implies (#[trigger] shorter[i]).0 != key by {
            assert(before[i + 1] == shorter[i]);
        }
        member_is_found(shorter, key, value, rest);
    }
}

/// A string is read where a string stands, and nowhere else.
pub proof fn only_strings_are_texts(document: DocumentView, key: Seq<char>, s: Seq<char>)
    ensures
        field_of(document, key) == Some(FieldView::Text(s)) <==> text_of(document, key) == Some(s),
{
}

} // verus!
