//! JSON values, one level at a time.

use vstd::prelude::*;

use crate::chars::same_text;

verus! {

/// A value of JSON text.
#[verifier::external_type_specification]
#[verifier::external_body]
pub struct ExJsonValue(serde_json::Value);

/// A value, opened: its kind and what it holds.
#[derive(Debug)]
pub enum Node {
    Null,
    Bool(bool),
    /// The digits of a number.
    Number(String),
    Text(String),
    Array(Vec<serde_json::Value>),
    /// The members with their names.
    Object(Vec<(String, serde_json::Value)>),
}

/// The contents of a [`Node`].
pub enum NodeView {
    Null,
    Bool(bool),
    Number(Seq<char>),
    Text(Seq<char>),
    Array(Seq<serde_json::Value>),
    Object(Seq<(Seq<char>, serde_json::Value)>),
}

/// The members of an object by the contents of their names.
pub open spec fn named(members: Seq<(String, serde_json::Value)>) -> Seq<
    (Seq<char>, serde_json::Value),
> {
    members.map_values(|m: (String, serde_json::Value)| (m.0@, m.1))
}

impl View for Node {
    type V = NodeView;

    open spec fn view(&self) -> NodeView {
        match self {
            Node::Null => NodeView::Null,
            Node::Bool(b) => NodeView::Bool(*b),
            Node::Number(n) => NodeView::Number(n@),
            Node::Text(s) => NodeView::Text(s@),
            Node::Array(items) => NodeView::Array(items@),
            Node::Object(members) => NodeView::Object(named(members@)),
        }
    }
}

/// The value of a JSON text, if it is one.
pub uninterp spec fn json_of(text: Seq<char>) -> Option<serde_json::Value>;

/// What a value holds, one level deep.
pub uninterp spec fn node_of(value: serde_json::Value) -> NodeView;

/// `serde_json::from_str` at the type of a JSON value: whether it succeeds, and
/// the value, are functions of the text alone.
#[verifier::external_body]
pub(crate) fn parse_json(text: &str) -> (r: Result<serde_json::Value, serde_json::Error>)
    ensures
        match r {
            Ok(value) => json_of(text@) == Some(value),
            Err(_) => json_of(text@) is None,
        },
{
    serde_json::from_str(text)
}

/// The variants of `serde_json::Value`, each with what it holds: a number as it
/// is displayed, and the members of a `serde_json::Map` in the order in which it
/// iterates over them.
#[verifier::external_body]
fn open_value(value: serde_json::Value) -> (r: Node)
    ensures
        r@ == node_of(value),
{
    match value {
        serde_json::Value::Null => Node::Null,
        serde_json::Value::Bool(b) => Node::Bool(b),
        serde_json::Value::Number(n) => Node::Number(n.to_string()),
        serde_json::Value::String(s) => Node::Text(s),
        serde_json::Value::Array(items) => Node::Array(items),
        serde_json::Value::Object(members) => Node::Object(members.into_iter().collect()),
    }
}

/// The first member of a name.
pub open spec fn member(members: Seq<(Seq<char>, serde_json::Value)>, key: Seq<char>) -> Option<
    serde_json::Value,
>
    decreases members.len(),
{
    if members.len() == 0 {
        None
    } else if member(members.drop_last(), key) is Some {
        member(members.drop_last(), key)
    } else if members.last().0 == key {
        Some(members.last().1)
    } else {
        None
    }
}

/// Where the first member of a name stands.
fn find_member(members: &[(String, serde_json::Value)], key: &str) -> (r: Option<usize>)
    ensures
        match r {
            Some(i) => i < members@.len() && member(named(members@), key@) == Some(
                members@[i as int].1,
            ),
            None => member(named(members@), key@) is None,
        },
{
    let ghost all = named(members@);
    let mut i: usize = 0;
    assert(all.take(0) =~= Seq::<(Seq<char>, serde_json::Value)>::empty());
    while i < members.len()
        invariant
            i <= members@.len(),
            all == named(members@),
            member(all.take(i as int), key@) is None,
        decreases members@.len() - i,
    {
        assert(all.take(i + 1).drop_last() =~= all.take(i as int));
        assert(all.take(i + 1).last() == (members@[i as int].0@, members@[i as int].1));
        if same_text(members[i].0.as_str(), key) {
            proof {
                lemma_first_member(all, key@, i + 1);
            }
            return Some(i);
        }
        i += 1;
    }
    assert(all.take(i as int) =~= all);
    None
}

/// Later members change nothing once one of the name is there.
proof fn lemma_first_member(
    members: Seq<(Seq<char>, serde_json::Value)>,
    key: Seq<char>,
    n: int,
)
    requires
        0 <= n <= members.len(),
        member(members.take(n), key) is Some,
    ensures
        member(members, key) == member(members.take(n), key),
    decreases members.len(),
{
    if n == members.len() {
        assert(members.take(n) =~= members);
    } else {
        assert(members.drop_last().take(n) =~= members.take(n));
        lemma_first_member(members.drop_last(), key, n);
    }
}

/// The text of a value that is one.
pub open spec fn text_of(value: serde_json::Value) -> Option<Seq<char>> {
    match node_of(value) {
        NodeView::Text(s) => Some(s),
        _ => None,
    }
}

/// Of the object that stands in a value under a key, if one does: the text of
/// each member that is one.
pub open spec fn texts_under(root: serde_json::Value, key: Seq<char>) -> Option<
    Seq<Option<Seq<char>>>,
> {
    match node_of(root) {
        NodeView::Object(members) => match member(members, key) {
            Some(value) => match node_of(value) {
                NodeView::Object(inner) => Some(
                    inner.map_values(|m: (Seq<char>, serde_json::Value)| text_of(m.1)),
                ),
                _ => None,
            },
            None => None,
        },
        _ => None,
    }
}

/// The contents of a list of optional strings.
pub open spec fn optional_texts(list: Seq<Option<String>>) -> Seq<Option<Seq<char>>> {
    list.map_values(
        |v: Option<String>|
            match v {
                Some(s) => Some(s@),
                None => None,
            },
    )
}

/// Reads the texts of the object that stands in a value under a key.
pub fn read_texts_under(root: serde_json::Value, key: &str) -> (r: Option<Vec<Option<String>>>)
    ensures
        match r {
            Some(values) => texts_under(root, key@) == Some(optional_texts(values@)),
            None => texts_under(root, key@) is None,
        },
{
    let members = match open_value(root) {
        Node::Object(members) => members,
        _ => return None,
    };
    let mut members = members;
    let value = match find_member(members.as_slice(), key) {
        Some(i) => members.swap_remove(i).1,
        None => return None,
    };
    let inner = match open_value(value) {
        Node::Object(inner) => inner,
        _ => return None,
    };
    let ghost all = inner@;
    let mut values: Vec<Option<String>> = Vec::new();
    for m in it: inner
        invariant
            it.seq() == all,
            values@.len() == it.index(),
            forall|k: int|
                0 <= k < it.index() ==> #[trigger] optional_texts(values@)[k] == text_of(all[k].1),
    {
        let ghost before = values@;
        let text = match open_value(m.1) {
            Node::Text(s) => Some(s),
            _ => None,
        };
        values.push(text);
        assert(optional_texts(values@).drop_last() =~= optional_texts(before));
        assert forall|k: int| 0 <= k < values@.len() implies #[trigger] optional_texts(values@)[k]
            == text_of(all[k].1) by {
            if k < before.len() {
                assert(optional_texts(before)[k] == text_of(all[k].1));
            }
        }
    }
    assert(optional_texts(values@) =~= named(all).map_values(
        |m: (Seq<char>, serde_json::Value)| text_of(m.1),
    ));
    Some(values)
}

/// The member of a name is the first of that name.
pub proof fn law_first_member_counts(
    members: Seq<(Seq<char>, serde_json::Value)>,
    key: Seq<char>,
    i: int,
)
    requires
        0 <= i < members.len(),
        members[i].0 == key,
        forall|k: int| 0 <= k < i ==> (#[trigger] members[k]).0 != key,
    ensures
        member(members, key) == Some(members[i].1),
    decreases members.len(),
{
    let before = members.drop_last();
    if i < members.len() - 1 {
        assert(before[i] == members[i]);
        assert forall|k: int| 0 <= k < i implies (#[trigger] before[k]).0 != key by {
            assert(before[k] == members[k]);
        }
        law_first_member_counts(before, key, i);
    } else {
        assert forall|k: int| 0 <= k < before.len() implies (#[trigger] before[k]).0 != key by {
            assert(before[k] == members[k]);
        }
        law_no_member_of_a_name(before, key);
    }
}

/// Where no member has a name, none is found.
pub proof fn law_no_member_of_a_name(
    members: Seq<(Seq<char>, serde_json::Value)>,
    key: Seq<char>,
)
    requires
        forall|k: int| 0 <= k < members.len() ==> (#[trigger] members[k]).0 != key,
    ensures
        member(members, key) is None,
    decreases members.len(),
{
    if members.len() > 0 {
        let before = members.drop_last();
        assert forall|k: int| 0 <= k < before.len() implies (#[trigger] before[k]).0 != key by {
            assert(before[k] == members[k]);
        }
        law_no_member_of_a_name(before, key);
        assert(members[members.len() - 1].0 != key);
    }
}

/// Of an object under a key each member gives its text, in the members' order,
/// and a member that is no text gives none.
pub proof fn law_text_for_each_member(
    root: serde_json::Value,
    members: Seq<(Seq<char>, serde_json::Value)>,
    inner: Seq<(Seq<char>, serde_json::Value)>,
    key: Seq<char>,
    at: int,
    i: int,
)
    requires
        node_of(root) == NodeView::Object(members),
        0 <= at < members.len(),
        members[at].0 == key,
        forall|k: int| 0 <= k < at ==> (#[trigger] members[k]).0 != key,
        node_of(members[at].1) == NodeView::Object(inner),
        0 <= i < inner.len(),
    ensures
        texts_under(root, key) matches Some(values) && values.len() == inner.len() && (match node_of(
            inner[i].1,
        ) {
            NodeView::Text(s) => values[i] == Some(s),
            _ => values[i] is None,
        }),
{
    law_first_member_counts(members, key, at);
}

} // verus!
