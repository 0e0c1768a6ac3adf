//! The rooms of the university and the links to them.
use crate::json::{parse_json, Json, JsonTree};
#[allow(unused_imports)]
use crate::json::{parsed_tree, value_at};
use vstd::prelude::*;

verus! {

/// A room that has a page of its own.
#[derive(Clone, Debug)]
pub struct Space {
    /// The code that a location begins with when it names this room.
    pub space_label: String,
    /// The identifier of the room's page.
    pub id: String,
}

/// What a [`Space`] holds.
pub struct SpaceView {
    /// The code that a location begins with when it names this room.
    pub space_label: Seq<char>,
    /// The identifier of the room's page.
    pub id: Seq<char>,
}

impl View for Space {
    type V = SpaceView;

    open spec fn view(&self) -> SpaceView {
        SpaceView { space_label: self.space_label@, id: self.id@ }
    }
}

/// Why a text lists no spaces.
#[derive(Debug, PartialEq, Eq)]
pub enum SpacesError {
    /// The text is not JSON; why, as its reader says.
    NotJson(String),
    /// The document has no list of items.
    UnrecognizedFormat,
}

/// What an error says.
pub open spec fn error_message(error: SpacesError) -> Seq<char> {
    match error {
        SpacesError::NotJson(text) => text@,
        SpacesError::UnrecognizedFormat => "spaces are expressed in an unrecognized format"@,
    }
}

impl SpacesError {
    /// What the error says.
    pub fn message(&self) -> (r: String)
        ensures
            r@ == error_message(*self),
    {
        match self {
            SpacesError::NotJson(text) => text.clone(),
            SpacesError::UnrecognizedFormat => {
                "spaces are expressed in an unrecognized format".to_owned()
            },
        }
    }
}

/// What a list of spaces holds.
pub open spec fn space_views(spaces: Seq<Space>) -> Seq<SpaceView> {
    spaces.map_values(|space: Space| space@)
}

/// The space that one item of the list describes: an object with a label that is not empty and an
/// identifier, both strings.
pub open spec fn space_of(item: JsonTree) -> Option<SpaceView> {
    match (value_at(item, "spaceLabel"@), value_at(item, "id"@)) {
        (Some(JsonTree::Text(label)), Some(JsonTree::Text(id))) => if label.len() > 0 {
            Some(SpaceView { space_label: label, id })
        } else {
            None
        },
        _ => None,
    }
}

/// The spaces that a list of items describes, in order; other items are passed over.
pub open spec fn spaces_in(items: Seq<JsonTree>) -> Seq<SpaceView>
    decreases items.len(),
{
    if items.len() == 0 {
        Seq::empty()
    } else {
        match space_of(items.last()) {
            Some(space) => spaces_in(items.drop_last()).push(space),
            None => spaces_in(items.drop_last()),
        }
    }
}

/// The spaces that a document lists under `items`; `None` where there is no such array.
pub open spec fn spaces_of(document: JsonTree) -> Option<Seq<SpaceView>> {
    match value_at(document, "items"@) {
        Some(JsonTree::Array(items)) => Some(spaces_in(items)),
        _ => None,
    }
}

/// The space that one item of the list describes.
fn space_from_item(item: &Json) -> (r: Option<Space>)
    ensures
        match r {
            Some(space) => space_of(item.tree()) == Some(space@),
            None => space_of(item.tree()) is None,
        },
{
    let label = item.get("spaceLabel");
    let id = item.get("id");
    match (label, id) {
        (Some(Json::Text(label)), Some(Json::Text(id))) => {
            if label.as_str().is_empty() {
                None
            } else {
                Some(Space { space_label: label.clone(), id: id.clone() })
            }
        },
        _ => None,
    }
}

/// Reads the list of spaces out of a document.
pub fn spaces_from_json(document: &Json) -> (r: Result<Vec<Space>, SpacesError>)
    ensures
        match spaces_of(document.tree()) {
            Some(spaces) => r matches Ok(list) && space_views(list@) == spaces,
            None => r == Err::<Vec<Space>, SpacesError>(SpacesError::UnrecognizedFormat),
        },
{
    let items = match document.get("items") {
        Some(Json::Array(items)) => items,
        _ => {
            return Err(SpacesError::UnrecognizedFormat);
        },
    };
    let ghost trees = Json::Array(*items).tree()->Array_0;
    let mut spaces: Vec<Space> = Vec::new();
    for i in 0..items.len()
        invariant
            trees == Json::Array(*items).tree()->Array_0,
            trees.len() == items@.len(),
            space_views(spaces@) == spaces_in(trees.take(i as int)),
    {
        proof {
            assert(trees.take(i + 1).drop_last() =~= trees.take(i as int));
            assert(trees.take(i + 1).last() == items@[i as int].tree());
        }
        match space_from_item(&items[i]) {
            Some(space) => {
                let ghost before = spaces@;
                spaces.push(space);
                assert(space_views(spaces@) =~= space_views(before).push(space@));
            },
            None => {},
        }
    }
    assert(trees.take(items@.len() as int) =~= trees);
    Ok(spaces)
}

/// Reads the list of spaces out of the text of a JSON document.
pub fn parse_spaces(string: String) -> (r: Result<Vec<Space>, SpacesError>)
    ensures
        match parsed_tree(string@) {
            Ok(document) => match spaces_of(document) {
                Some(spaces) => r matches Ok(list) && space_views(list@) == spaces,
                None => r == Err::<Vec<Space>, SpacesError>(SpacesError::UnrecognizedFormat),
            },
            Err(message) => r matches Err(SpacesError::NotJson(text)) && text@ == message,
        },
{
    match parse_json(string.as_str()) {
        Ok(document) => spaces_from_json(&document),
        Err(message) => Err(SpacesError::NotJson(message)),
    }
}

/// Every space that a document lists has a label that is not empty.
pub proof fn law_listed_spaces_have_labels(document: JsonTree, i: int)
    requires
        spaces_of(document) is Some,
        0 <= i < spaces_of(document)->0.len(),
    ensures
        spaces_of(document)->0[i].space_label.len() > 0,
{
    lemma_spaces_in_have_labels(value_at(document, "items"@)->0->Array_0);
}

proof fn lemma_spaces_in_have_labels(items: Seq<JsonTree>)
    ensures
        forall|i: int|
            0 <= i < spaces_in(items).len() ==> (#[trigger] spaces_in(items)[i]).space_label.len() > 0,
    decreases items.len(),
{
    if items.len() > 0 {
        lemma_spaces_in_have_labels(items.drop_last());
        let before = spaces_in(items.drop_last());
        assert forall|i: int| 0 <= i < spaces_in(items).len() implies (
        #[trigger] spaces_in(items)[i]).space_label.len() > 0 by {
            if i < before.len() {
                assert(spaces_in(items)[i] == before[i]);
            }
        }
    }
}

/// The items of a list are read one by one, in order: what a longer list holds begins with what its
/// first part holds and goes on with what the rest holds.
pub proof fn law_spaces_are_read_in_order(first: Seq<JsonTree>, rest: Seq<JsonTree>)
    ensures
        spaces_in(first + rest) == spaces_in(first) + spaces_in(rest),
    decreases rest.len(),
{
    if rest.len() == 0 {
        assert(first + rest =~= first);
        assert(spaces_in(first) + spaces_in(rest) =~= spaces_in(first));
    } else {
        law_spaces_are_read_in_order(first, rest.drop_last());
        assert((first + rest).drop_last() =~= first + rest.drop_last());
        assert(spaces_in(first + rest) =~= spaces_in(first) + spaces_in(rest));
    }
}

/// An item with a label that is not empty and an identifier, both strings, is a space with that label and
/// that identifier, whatever else it holds.
pub proof fn law_item_with_label_and_id_is_a_space(item: JsonTree, label: Seq<char>, id: Seq<char>)
    requires
        value_at(item, "spaceLabel"@) == Some(JsonTree::Text(label)),
        value_at(item, "id"@) == Some(JsonTree::Text(id)),
        label.len() > 0,
    ensures
        spaces_in(seq![item]) == seq![SpaceView { space_label: label, id }],
{
    reveal_with_fuel(spaces_in, 2);
    assert(seq![item].drop_last() =~= Seq::empty());
    assert(spaces_in(seq![item]) =~= seq![SpaceView { space_label: label, id }]);
}

/// An item whose label is missing, no string or empty, or whose identifier is missing or no string, is
/// passed over.
pub proof fn law_other_items_are_no_spaces(item: JsonTree)
    requires
        ({
            ||| !(value_at(item, "spaceLabel"@) matches Some(JsonTree::Text(_)))
            ||| value_at(item, "spaceLabel"@) == Some(JsonTree::Text(Seq::empty()))
            ||| !(value_at(item, "id"@) matches Some(JsonTree::Text(_)))
        }),
    ensures
        spaces_in(seq![item]) == Seq::<SpaceView>::empty(),
{
    reveal_with_fuel(spaces_in, 2);
    assert(seq![item].drop_last() =~= Seq::empty());
}

/// Every item that describes a space gives it, wherever the item stands, and no other space stands in the
/// list.
pub proof fn law_listed_spaces_are_those_of_the_items(items: Seq<JsonTree>, space: SpaceView)
    ensures
        spaces_in(items).contains(space) <==> exists|i: int|
            0 <= i < items.len() && value_at(#[trigger] items[i], "spaceLabel"@) == Some(
                JsonTree::Text(space.space_label),
            ) && value_at(items[i], "id"@) == Some(JsonTree::Text(space.id))
                && space.space_label.len() > 0,
        spaces_in(items).len() <= items.len(),
    decreases items.len(),
{
    if items.len() > 0 {
        let shorter = items.drop_last();
        let last = items.len() - 1;
        law_listed_spaces_are_those_of_the_items(shorter, space);
        let before = spaces_in(shorter);
        let after = spaces_in(items);
        assert(forall|i: int| 0 <= i < last ==> #[trigger] shorter[i] == items[i]);
        if after.contains(space) {
            let k = choose|k: int| 0 <= k < after.len() && after[k] == space;
            if k < before.len() {
                assert(before[k] == space);
                let i = choose|i: int|
                    0 <= i < shorter.len() && value_at(#[trigger] shorter[i], "spaceLabel"@) == Some(
                        JsonTree::Text(space.space_label),
                    ) && value_at(shorter[i], "id"@) == Some(JsonTree::Text(space.id))
                        && space.space_label.len() > 0;
                assert(items[i] == shorter[i]);
            } else {
                assert(value_at(items[last], "spaceLabel"@) == Some(
                    JsonTree::Text(space.space_label),
                ));
            }
        }
        if exists|i: int|
            0 <= i < items.len() && value_at(#[trigger] items[i], "spaceLabel"@) == Some(
                JsonTree::Text(space.space_label),
            ) && value_at(items[i], "id"@) == Some(JsonTree::Text(space.id))
                && space.space_label.len() > 0 {
            let i = choose|i: int|
                0 <= i < items.len() && value_at(#[trigger] items[i], "spaceLabel"@) == Some(
                    JsonTree::Text(space.space_label),
                ) && value_at(items[i], "id"@) == Some(JsonTree::Text(space.id))
                    && space.space_label.len() > 0;
            if i < last {
                assert(shorter[i] == items[i]);
                let k = choose|k: int| 0 <= k < before.len() && before[k] == space;
                assert(after[k] == space);
            } else {
                assert(after[after.len() - 1] == space);
            }
        }
    }
}

/// A document lists the spaces of the array that it holds under `items`; without one it lists none.
pub proof fn law_document_lists_its_items(document: JsonTree)
    ensures
        match value_at(document, "items"@) {
            Some(JsonTree::Array(items)) => spaces_of(document) == Some(spaces_in(items)),
            _ => spaces_of(document) is None,
        },
{
}

/// The view of a space holds its label and its identifier.
pub proof fn law_space_view_holds_the_space(space: Space)
    ensures
        space@.space_label == space.space_label@,
        space@.id == space.id@,
{
}

/// The view of a list of spaces holds each of them, in order.
pub proof fn law_space_views_hold_the_spaces(spaces: Seq<Space>)
    ensures
        space_views(spaces).len() == spaces.len(),
        forall|i: int| 0 <= i < spaces.len() ==> #[trigger] space_views(spaces)[i] == spaces[i]@,
{
}

/// A text that is not JSON is refused in its reader's words, and a document without a list of items as one
/// in an unrecognized format.
pub proof fn law_errors_say_what_is_wrong(text: String)
    ensures
        error_message(SpacesError::NotJson(text)) == text@,
        error_message(SpacesError::UnrecognizedFormat)
            == "spaces are expressed in an unrecognized format"@,
{
}

} // verus!
