//! What is read from JSON texts.

use vstd::prelude::*;

use crate::text::{clone_option, option_view, same, views};

verus! {

broadcast use crate::text::group_views;

/// A member of a JSON object, as far as it is looked at.
#[derive(Debug, PartialEq, Eq)]
pub enum JsonMember {
    Text(String),
    Array,
    Object,
    Other,
}

pub enum MemberView {
    Text(Seq<char>),
    Array,
    Object,
    Other,
}

impl View for JsonMember {
    type V = MemberView;

    open spec fn view(&self) -> MemberView {
        match self {
            JsonMember::Text(text) => MemberView::Text(text@),
            JsonMember::Array => MemberView::Array,
            JsonMember::Object => MemberView::Object,
            JsonMember::Other => MemberView::Other,
        }
    }
}

/// A member of a JSON object, under its key.
#[derive(Debug)]
pub struct JsonEntry {
    pub key: String,
    pub member: JsonMember,
}

impl View for JsonEntry {
    type V = (Seq<char>, MemberView);

    open spec fn view(&self) -> (Seq<char>, MemberView) {
        (self.key@, self.member@)
    }
}

/// The members of the object that some bytes write in JSON; nothing if they write no
/// object.
pub uninterp spec fn object_of(bytes: Seq<u8>) -> Option<Seq<(Seq<char>, MemberView)>>;

/// The view of what `parse_object` returns.
pub open spec fn object_view(r: Option<Vec<JsonEntry>>) -> Option<Seq<(Seq<char>, MemberView)>> {
    match r {
        Some(list) => Some(views(list@)),
        None => None,
    }
}

/// `serde_json::from_slice` into a `Value`, of which the members are handed out if it
/// is an object. Claimed: the result depends on the bytes alone.
#[verifier::external_body]
fn parse_object(bytes: &Vec<u8>) -> (r: Option<Vec<JsonEntry>>)
    ensures
        object_view(r) == object_of(bytes@),
{
    let value: serde_json::Value = serde_json::from_slice(bytes).ok()?;
    let member = |value: &serde_json::Value| match value {
        serde_json::Value::String(text) => JsonMember::Text(text.clone()),
        serde_json::Value::Array(_) => JsonMember::Array,
        serde_json::Value::Object(_) => JsonMember::Object,
        serde_json::Value::Null => JsonMember::Other,
        serde_json::Value::Bool(_) => JsonMember::Other,
        serde_json::Value::Number(_) => JsonMember::Other,
    };
    let entry = |(key, value)| JsonEntry { key: String::clone(key), member: member(value) };
    Some(value.as_object()?.iter().map(entry).collect())
}

/// The member under `key`, of which an object has one at most.
pub open spec fn member_at<T>(members: Seq<(Seq<char>, T)>, key: Seq<char>) -> Option<T>
    decreases members.len(),
{
    if members.len() == 0 {
        None
    } else if members[0].0 == key {
        Some(members[0].1)
    } else {
        member_at(members.drop_first(), key)
    }
}

/// The member `key` of the object that some bytes write in JSON; nothing if they
/// write no object, or one without that member.
pub open spec fn member_of(bytes: Seq<u8>, key: Seq<char>) -> Option<MemberView> {
    match object_of(bytes) {
        Some(members) => member_at(members, key),
        None => None,
    }
}

/// The member under `key`, among the members of an object.
pub fn find_member(members: Vec<JsonEntry>, key: &str) -> (r: Option<JsonMember>)
    ensures
        option_view(r) == member_at(views(members@), key@),
{
    let ghost all = views(members@);
    let mut rest = members;
    assert(rest@.len() == views(rest@).len());
    while rest.len() > 0
        invariant
            all == views(members@),
            member_at(views(rest@), key@) == member_at(all, key@),
        decreases rest@.len(),
    {
        let ghost before = rest@;
        let first = rest.remove(0);
        proof {
            assert(views(before)[0] == first@);
            assert(views(rest@) =~= views(before).drop_first());
        }
        if same(first.key.as_str(), key) {
            return Some(first.member);
        }
    }
    assert(views(rest@).len() == 0);
    None
}

/// The member `key` of the object that some bytes write in JSON.
pub fn json_member(bytes: &Vec<u8>, key: &str) -> (r: Option<JsonMember>)
    ensures
        option_view(r) == member_of(bytes@, key@),
{
    match parse_object(bytes) {
        Some(members) => find_member(members, key),
        None => None,
    }
}

/// The members of one entry of a JSON array that were asked for, as far as they
/// are texts.
#[derive(Debug)]
pub struct JsonRecord {
    pub values: Vec<Option<String>>,
}

impl View for JsonRecord {
    type V = Seq<Option<Seq<char>>>;

    open spec fn view(&self) -> Seq<Option<Seq<char>>> {
        self.values@.map_values(|o: Option<String>| option_view(o))
    }
}

/// A member of an entry of a JSON array, under its key, as far as it is a text.
#[derive(Debug)]
pub struct JsonText {
    pub key: String,
    pub text: Option<String>,
}

impl View for JsonText {
    type V = (Seq<char>, Option<Seq<char>>);

    open spec fn view(&self) -> (Seq<char>, Option<Seq<char>>) {
        (self.key@, option_view(self.text))
    }
}

/// The members of one entry of a JSON array; none if that is no object.
#[derive(Debug)]
pub struct JsonObject {
    pub members: Vec<JsonText>,
}

impl View for JsonObject {
    type V = Seq<(Seq<char>, Option<Seq<char>>)>;

    open spec fn view(&self) -> Seq<(Seq<char>, Option<Seq<char>>)> {
        views(self.members@)
    }
}

/// What a text writes in JSON: an array, with the members of its entries as far as
/// they are texts; something else; or no JSON, and what is wrong with it.
pub uninterp spec fn array_of(text: Seq<char>) -> Result<
    Option<Seq<Seq<(Seq<char>, Option<Seq<char>>)>>>,
    Seq<char>,
>;

/// The view of a list that may be missing or fail.
pub open spec fn array_view<T: View>(r: Result<Option<Vec<T>>, String>) -> Result<
    Option<Seq<T::V>>,
    Seq<char>,
> {
    match r {
        Ok(Some(list)) => Ok(Some(views(list@))),
        Ok(None) => Ok(None),
        Err(cause) => Err(cause@),
    }
}

/// `serde_json::from_str` into a `Value`, of which the entries are handed out if it is
/// an array, with the texts of their members, and the text of its error. Claimed: the
/// result depends on the text alone.
#[verifier::external_body]
fn parse_array(text: &str) -> (r: Result<Option<Vec<JsonObject>>, String>)
    ensures
        array_view(r) == array_of(text@),
{
    let member = |(key, value): (&String, &serde_json::Value)| JsonText {
        key: key.clone(),
        text: value.as_str().map(|text| text.to_owned()),
    };
    let object = |entry: &serde_json::Value| JsonObject {
        members: entry.as_object().into_iter().flatten().map(member).collect(),
    };
    match serde_json::from_str::<serde_json::Value>(text) {
        Ok(serde_json::Value::Array(entries)) => Ok(Some(entries.iter().map(object).collect())),
        Ok(_) => Ok(None),
        Err(error) => Err(error.to_string()),
    }
}

/// The member `key` of an object, if it has one and that is a text.
pub open spec fn text_at(
    members: Seq<(Seq<char>, Option<Seq<char>>)>,
    key: Seq<char>,
) -> Option<Seq<char>> {
    match member_at(members, key) {
        Some(text) => text,
        None => None,
    }
}

fn find_text(object: &JsonObject, key: &str) -> (r: Option<String>)
    ensures
        option_view(r) == text_at(object@, key@),
{
    let ghost all = object@;
    let n: usize = object.members.len();
    let mut i: usize = 0;
    assert(all.skip(0) =~= all);
    while i < n
        invariant
            n == object.members@.len(),
            all == views(object.members@),
            i <= n,
            member_at(all, key@) == member_at(all.skip(i as int), key@),
        decreases n - i,
    {
        assert(all.skip(i as int)[0] == object.members@[i as int]@);
        assert(all.skip(i as int).drop_first() =~= all.skip(i + 1));
        if same(object.members[i].key.as_str(), key) {
            return clone_option(&object.members[i].text);
        }
        i = i + 1;
    }
    None
}

/// The members `keys` of an object, as far as they are texts.
pub open spec fn record_of(
    members: Seq<(Seq<char>, Option<Seq<char>>)>,
    keys: Seq<Seq<char>>,
) -> Seq<Option<Seq<char>>> {
    keys.map_values(|key: Seq<char>| text_at(members, key))
}

/// The members `keys` of an object, as far as they are texts.
pub fn json_record(object: &JsonObject, keys: &Vec<String>) -> (r: JsonRecord)
    ensures
        r@ == record_of(object@, views(keys@)),
        r.values@.len() == keys@.len(),
{
    let ghost all = record_of(object@, views(keys@));
    let mut values: Vec<Option<String>> = Vec::new();
    let n: usize = keys.len();
    assert(values@.map_values(|o: Option<String>| option_view(o)) =~= all.take(0));
    for i in 0..n
        invariant
            n == keys@.len(),
            all == record_of(object@, views(keys@)),
            values@.len() == i,
            values@.map_values(|o: Option<String>| option_view(o)) == all.take(i as int),
    {
        let ghost before = values@.map_values(|o: Option<String>| option_view(o));
        let value = find_text(object, keys[i].as_str());
        values.push(value);
        assert(all[i as int] == option_view(value));
        assert(values@.map_values(|o: Option<String>| option_view(o)) =~= before.push(
            option_view(value),
        ));
        assert(values@.map_values(|o: Option<String>| option_view(o)) =~= all.take(i + 1));
    }
    assert(all.take(n as int) =~= all);
    JsonRecord { values }
}

/// What a text writes in JSON: an array, of each entry of which the members
/// `keys` are given as far as they are texts; something else; or no JSON, and what
/// is wrong with it.
pub open spec fn records_of(text: Seq<char>, keys: Seq<Seq<char>>) -> Result<
    Option<Seq<Seq<Option<Seq<char>>>>>,
    Seq<char>,
> {
    match array_of(text) {
        Ok(Some(list)) => Ok(
            Some(
                list.map_values(
                    |members: Seq<(Seq<char>, Option<Seq<char>>)>| record_of(members, keys),
                ),
            ),
        ),
        Ok(None) => Ok(None),
        Err(cause) => Err(cause),
    }
}

/// What a text writes in JSON, and the members `keys` of its entries.
pub fn json_records(text: &str, keys: &Vec<String>) -> (r: Result<Option<Vec<JsonRecord>>, String>)
    ensures
        array_view(r) == records_of(text@, views(keys@)),
        r matches Ok(Some(list)) ==> forall|i: int|
            0 <= i < list@.len() ==> (#[trigger] list@[i]).values@.len() == keys@.len(),
{
    let objects = match parse_array(text) {
        Ok(Some(objects)) => objects,
        Ok(None) => {
            return Ok(None);
        },
        Err(cause) => {
            return Err(cause);
        },
    };
    let ghost all = views(objects@).map_values(
        |members: Seq<(Seq<char>, Option<Seq<char>>)>| record_of(members, views(keys@)),
    );
    let mut list: Vec<JsonRecord> = Vec::new();
    let n: usize = objects.len();
    assert(views(list@) =~= all.take(0));
    for i in 0..n
        invariant
            n == objects@.len(),
            all == views(objects@).map_values(
                |members: Seq<(Seq<char>, Option<Seq<char>>)>| record_of(members, views(keys@)),
            ),
            views(list@) == all.take(i as int),
            forall|j: int|
                0 <= j < list@.len() ==> (#[trigger] list@[j]).values@.len() == keys@.len(),
    {
        let record = json_record(&objects[i], keys);
        list.push(record);
        assert(all[i as int] == record@);
        assert(views(list@) =~= all.take(i + 1));
    }
    assert(all.take(n as int) =~= all);
    Ok(Some(list))
}

/// The member of an object is the first that has the key; a record holds, for each key,
/// the member of that key if it is a text.
pub proof fn law_members_are_found_by_key<T>(
    members: Seq<(Seq<char>, T)>,
    texts: Seq<(Seq<char>, Option<Seq<char>>)>,
    keys: Seq<Seq<char>>,
    key: Seq<char>,
    k: int,
)
    ensures
        0 <= k < members.len() && members[k].0 == key && (forall|j: int|
            0 <= j < k ==> (#[trigger] members[j]).0 != key) ==> member_at(members, key) == Some(
            members[k].1,
        ),
        (forall|j: int| 0 <= j < members.len() ==> (#[trigger] members[j]).0 != key) ==> member_at(
            members,
            key,
        ) is None,
        record_of(texts, keys).len() == keys.len(),
        0 <= k < keys.len() ==> record_of(texts, keys)[k] == match member_at(texts, keys[k]) {
            Some(text) => text,
            None => None,
        },
    decreases members.len(),
{
    if members.len() > 0 {
        let rest = members.drop_first();
        assert(forall|j: int| 0 <= j < rest.len() ==> #[trigger] rest[j] == members[j + 1]);
        law_members_are_found_by_key(rest, texts, keys, key, k - 1);
        if 0 < k < members.len() {
            assert(rest[k - 1] == members[k]);
        }
    }
}

/// What is read from JSON is looked up in what the text writes: a member of its object, or
/// one record for each entry of its array, in their order.
pub proof fn law_lookup_goes_through_the_parse(
    bytes: Seq<u8>,
    text: Seq<char>,
    keys: Seq<Seq<char>>,
    key: Seq<char>,
)
    ensures
        object_of(bytes) is None ==> member_of(bytes, key) is None,
        object_of(bytes) matches Some(members) ==> member_of(bytes, key) == member_at(members, key),
        array_of(text) matches Err(cause) ==> records_of(text, keys) == Err::<
            Option<Seq<Seq<Option<Seq<char>>>>>,
            Seq<char>,
        >(cause),
        array_of(text) matches Ok(None) ==> records_of(text, keys) == Ok::<
            Option<Seq<Seq<Option<Seq<char>>>>>,
            Seq<char>,
        >(None),
        array_of(text) matches Ok(Some(list)) ==> (records_of(text, keys) matches Ok(Some(records))
            && records.len() == list.len() && forall|i: int|
            0 <= i < list.len() ==> #[trigger] records[i] == record_of(list[i], keys)),
{
}

} // verus!
