//! JSON documents as plain values, and the reading and writing of their text.

use crate::text;
use vstd::prelude::*;

verus! {

/// A parsed JSON document as `serde_json` holds it.
#[verifier::external_type_specification]
#[verifier::external_body]
pub struct ExValue(serde_json::Value);

/// A JSON number, carried from the text that was read to the text that is written.
#[verifier::external_type_specification]
#[verifier::external_body]
pub struct ExNumber(serde_json::Number);

/// The members of a JSON object, as `serde_json` holds them.
#[verifier::external_type_specification]
#[verifier::external_body]
#[verifier::reject_recursive_types(K)]
#[verifier::reject_recursive_types(V)]
pub struct ExMap<K, V>(serde_json::Map<K, V>);

/// What a JSON document says: the order of an object's members is not part of it.
pub enum Tree {
    Null,
    Bool(bool),
    Number(serde_json::Number),
    Text(Seq<char>),
    Array(Seq<Tree>),
    Object(Map<Seq<char>, Tree>),
}

/// A JSON document. Where an object lists a name twice, the later member counts.
pub enum Json {
    Null,
    Bool(bool),
    Number(serde_json::Number),
    Text(String),
    Array(Vec<Json>),
    Object(Vec<(String, Json)>),
}

/// One level of a `serde_json` value.
enum Node {
    Null,
    Bool(bool),
    Number(serde_json::Number),
    Text(String),
    Array(Vec<serde_json::Value>),
    Object(serde_json::Map<String, serde_json::Value>),
}

impl Json {
    /// What the document says.
    pub open spec fn tree(self) -> Tree
        decreases self,
    {
        match self {
            Json::Null => Tree::Null,
            Json::Bool(b) => Tree::Bool(b),
            Json::Number(n) => Tree::Number(n),
            Json::Text(s) => Tree::Text(s@),
            Json::Array(items) => Tree::Array(trees(items@)),
            Json::Object(members) => Tree::Object(member_trees(members@)),
        }
    }
}

/// What each of a list of documents says.
pub open spec fn trees(items: Seq<Json>) -> Seq<Tree>
    decreases items,
{
    Seq::new(
        items.len(),
        |i: int|
            if 0 <= i < items.len() {
                items[i].tree()
            } else {
                Tree::Null
            },
    )
}

/// The members of an object by name.
pub open spec fn member_trees(members: Seq<(String, Json)>) -> Map<Seq<char>, Tree>
    decreases members,
{
    if members.len() == 0 {
        Map::empty()
    } else {
        let last = members.last();
        member_trees(members.drop_last()).insert(last.0@, last.1.tree())
    }
}

/// What a `serde_json` value holds.
pub uninterp spec fn value_tree(value: serde_json::Value) -> Tree;

/// The members of an object that `serde_json` holds, by name.
pub uninterp spec fn map_members(
    map: serde_json::Map<String, serde_json::Value>,
) -> Map<Seq<char>, Tree>;

/// What `serde_json::from_slice` makes of the bytes of a document: the value, or the message of
/// its error.
pub uninterp spec fn parsed_json(bytes: Seq<u8>) -> Result<Tree, Seq<char>>;

/// The compact text of a document, as `serde_json` writes it.
pub uninterp spec fn rendered_json(tree: Tree) -> Seq<char>;

/// The JSON number of an integer.
pub uninterp spec fn json_integer(n: int) -> serde_json::Number;

/// `serde_json::Number::from` on an integer: the number that stands for it.
#[verifier::external_body]
pub(crate) fn integer(n: i64) -> (r: serde_json::Number)
    ensures
        r == json_integer(n as int),
{
    serde_json::Number::from(n)
}

spec fn value_members(members: Seq<(String, serde_json::Value)>) -> Map<Seq<char>, Tree>
    decreases members.len(),
{
    if members.len() == 0 {
        Map::empty()
    } else {
        let last = members.last();
        value_members(members.drop_last()).insert(last.0@, value_tree(last.1))
    }
}

impl Node {
    spec fn tree(self) -> Tree {
        match self {
            Node::Null => Tree::Null,
            Node::Bool(b) => Tree::Bool(b),
            Node::Number(n) => Tree::Number(n),
            Node::Text(s) => Tree::Text(s@),
            Node::Array(items) => Tree::Array(items@.map_values(|v: serde_json::Value| value_tree(v))),
            Node::Object(map) => Tree::Object(map_members(map)),
        }
    }
}

/// `serde_json::from_slice`: the value that the bytes spell, or the message of the error. Nothing
/// is said here of which bytes spell which value.
#[verifier::external_body]
fn parse_value(bytes: &[u8]) -> (r: Result<serde_json::Value, String>)
    ensures
        parsed_json(bytes@) == (match r {
            Ok(v) => Ok::<Tree, Seq<char>>(value_tree(v)),
            Err(m) => Err::<Tree, Seq<char>>(m@),
        }),
{
    match serde_json::from_slice::<serde_json::Value>(bytes) {
        Ok(value) => Ok(value),
        Err(error) => Err(error.to_string()),
    }
}

/// The variants of `serde_json::Value`, told apart: the result holds what the value held.
#[verifier::external_body]
fn open_value(value: serde_json::Value) -> (r: Node)
    ensures
        r.tree() == value_tree(value),
{
    match value {
        serde_json::Value::Null => Node::Null,
        serde_json::Value::Bool(b) => Node::Bool(b),
        serde_json::Value::Number(n) => Node::Number(n),
        serde_json::Value::String(s) => Node::Text(s),
        serde_json::Value::Array(items) => Node::Array(items),
        serde_json::Value::Object(map) => Node::Object(map),
    }
}

/// The variants of `serde_json::Value`, put together: the result holds what the node held.
#[verifier::external_body]
fn close_value(node: Node) -> (r: serde_json::Value)
    ensures
        value_tree(r) == node.tree(),
{
    match node {
        Node::Null => serde_json::Value::Null,
        Node::Bool(b) => serde_json::Value::Bool(b),
        Node::Number(n) => serde_json::Value::Number(n),
        Node::Text(s) => serde_json::Value::String(s),
        Node::Array(items) => serde_json::Value::Array(items),
        Node::Object(map) => serde_json::Value::Object(map),
    }
}

/// `serde_json::Map::new`: a map without members.
#[verifier::external_body]
fn new_map() -> (r: serde_json::Map<String, serde_json::Value>)
    ensures
        (map_members(r) == Map::<Seq<char>, Tree>::empty()),
{
    serde_json::Map::new()
}

/// `serde_json::Map::insert`: the member is in the map, in place of one of the same name, and the others
/// stay.
#[verifier::external_body]
fn put_member(
    map: &mut serde_json::Map<String, serde_json::Value>,
    name: String,
    value: serde_json::Value,
)
    ensures
        map_members(*final(map)) == map_members(*old(map)).insert(name@, value_tree(value)),
{
    let _ = map.insert(name, value);
}

/// `serde_json::Map::into_iter`: the members of a map, each name once.
#[verifier::external_body]
fn list_members(
    map: serde_json::Map<String, serde_json::Value>,
) -> (r: Vec<(String, serde_json::Value)>)
    ensures
        value_members(r@) == map_members(map),
        forall|i: int, j: int| 0 <= i < j < r@.len() ==> r@[i].0@ != r@[j].0@,
{
    map.into_iter().collect()
}

/// The `Display` text of a `serde_json::Value`: it depends on what the value holds alone.
#[verifier::external_body]
fn render_value(value: &serde_json::Value) -> (r: String)
    ensures
        r@ == rendered_json(value_tree(*value)),
{
    value.to_string()
}

proof fn lemma_value_members(members: Seq<(String, serde_json::Value)>)
    ensures
        value_members(members).dom().finite(),
        forall|k: Seq<char>| #[trigger]
            value_members(members).contains_key(k) ==> exists|i: int|
                0 <= i < members.len() && #[trigger] members[i].0@ == k,
        forall|i: int|
            0 <= i < members.len() ==> value_members(members).contains_key(
                #[trigger] members[i].0@,
            ),
        (forall|i: int, j: int| 0 <= i < j < members.len() ==> members[i].0@ != members[j].0@)
            ==> forall|i: int|
            0 <= i < members.len() ==> value_members(members)[#[trigger] members[i].0@]
                == value_tree(members[i].1),
    decreases members.len(),
{
    if members.len() > 0 {
        let rest = members.drop_last();
        lemma_value_members(rest);
        assert forall|k: Seq<char>| #[trigger] value_members(members).contains_key(k) implies exists|
            i: int,
        |
            0 <= i < members.len() && #[trigger] members[i].0@ == k by {
            if k == members.last().0@ {
                assert(members[members.len() - 1].0@ == k);
            } else {
                let i = choose|i: int| 0 <= i < rest.len() && #[trigger] rest[i].0@ == k;
                assert(members[i].0@ == k);
            }
        }
        assert forall|i: int| 0 <= i < members.len() implies value_members(members).contains_key(
            #[trigger] members[i].0@,
        ) by {
            if i < rest.len() {
                assert(rest[i].0@ == members[i].0@);
            }
        }
        if forall|i: int, j: int| 0 <= i < j < members.len() ==> members[i].0@ != members[j].0@ {
            assert(forall|i: int, j: int| 0 <= i < j < rest.len() ==> rest[i].0@ != rest[j].0@);
            assert forall|i: int| 0 <= i < members.len() implies value_members(
                members,
            )[#[trigger] members[i].0@] == value_tree(members[i].1) by {
                if i < rest.len() {
                    assert(rest[i].0@ == members[i].0@);
                }
            }
        }
    }
}

/// The document that a `serde_json` value holds.
fn from_value(value: serde_json::Value) -> (r: Json)
    ensures
        r.tree() == value_tree(value),
    decreases value_tree(value),
{
    match open_value(value) {
        Node::Null => Json::Null,
        Node::Bool(b) => Json::Bool(b),
        Node::Number(n) => Json::Number(n),
        Node::Text(s) => Json::Text(s),
        Node::Array(items) => {
            let ghost all = items@;
            let ghost children = all.map_values(|v: serde_json::Value| value_tree(v));
            let mut read: Vec<Json> = Vec::new();
            for first in it: items
                invariant
                    it.seq() == all,
                    value_tree(value) == Tree::Array(children),
                    children == all.map_values(|v: serde_json::Value| value_tree(v)),
                    trees(read@) == children.take(it.index() as int),
            {
                let ghost n = it.index() as int;
                let ghost done = read@;
                proof {
                    let whole = value_tree(value);
                    assert(first == all[n]);
                    assert(decreases_to!(whole => whole->Array_0));
                    assert(decreases_to!(children => children[n]));
                }
                let item = from_value(first);
                read.push(item);
                assert(trees(read@) =~= trees(done).push(value_tree(first)));
                assert(children.take(n + 1) =~= children.take(n).push(value_tree(first)));
            }
            assert(children.take(all.len() as int) =~= children);
            Json::Array(read)
        },
        Node::Object(map) => {
            let members = list_members(map);
            let ghost all = members@;
            let ghost children = value_members(all);
            proof {
                lemma_value_members(all);
            }
            let mut read: Vec<(String, Json)> = Vec::new();
            for entry in it: members
                invariant
                    it.seq() == all,
                    value_tree(value) == Tree::Object(children),
                    children == value_members(all),
                    children.dom().finite(),
                    forall|i: int|
                        0 <= i < all.len() ==> children.contains_key(#[trigger] all[i].0@)
                            && children[all[i].0@] == value_tree(all[i].1),
                    member_trees(read@) == value_members(all.take(it.index() as int)),
            {
                let ghost n = it.index() as int;
                let ghost done = read@;
                let (name, first) = entry;
                proof {
                    let whole = value_tree(value);
                    assert((name, first) == all[n]);
                    assert(children.contains_key(all[n].0@));
                    assert(decreases_to!(whole => whole->Object_0));
                    assert(decreases_to!(children => children[all[n].0@]));
                }
                let item = from_value(first);
                read.push((name, item));
                assert(read@.drop_last() =~= done);
                assert(all.take(n + 1).drop_last() =~= all.take(n));
            }
            assert(all.take(all.len() as int) =~= all);
            Json::Object(read)
        },
    }
}

/// The `serde_json` value that holds a document.
fn into_value(json: Json) -> (r: serde_json::Value)
    ensures
        value_tree(r) == json.tree(),
    decreases json,
{
    let node = match json {
        Json::Null => Node::Null,
        Json::Bool(b) => Node::Bool(b),
        Json::Number(n) => Node::Number(n),
        Json::Text(s) => Node::Text(s),
        Json::Array(items) => {
            let ghost all = items@;
            let mut made: Vec<serde_json::Value> = Vec::new();
            for item in it: items
                invariant
                    it.seq() == all,
                    json matches Json::Array(list) && list@ == all,
                    made@.map_values(|v: serde_json::Value| value_tree(v)) == trees(all).take(
                        it.index() as int,
                    ),
            {
                let ghost n = it.index() as int;
                let ghost done = made@;
                proof {
                    assert(item == all[n]);
                    assert(decreases_to!(json => json->Array_0));
                    assert(decreases_to!(json->Array_0 => json->Array_0@));
                    assert(decreases_to!(all => all[n]));
                }
                let value = into_value(item);
                made.push(value);
                assert(made@.map_values(|v: serde_json::Value| value_tree(v)) =~= done.map_values(
                    |v: serde_json::Value| value_tree(v),
                ).push(trees(all)[n]));
                assert(trees(all).take(n + 1) =~= trees(all).take(n).push(trees(all)[n]));
            }
            assert(trees(all).take(all.len() as int) =~= trees(all));
            Node::Array(made)
        },
        Json::Object(members) => {
            let ghost all = members@;
            let mut made = new_map();
            assert(all.take(0) =~= Seq::empty());
            for entry in it: members
                invariant
                    it.seq() == all,
                    json matches Json::Object(list) && list@ == all,
                    map_members(made) == member_trees(all.take(it.index() as int)),
            {
                let ghost n = it.index() as int;
                let (name, item) = entry;
                proof {
                    assert((name, item) == all[n]);
                    assert(decreases_to!(json => json->Object_0));
                    assert(decreases_to!(json->Object_0 => json->Object_0@));
                    assert(decreases_to!(all => all[n]));
                    assert(decreases_to!(all[n] => all[n].1));
                }
                let value = into_value(item);
                put_member(&mut made, name, value);
                assert(all.take(n + 1).drop_last() =~= all.take(n));
            }
            assert(all.take(all.len() as int) =~= all);
            Node::Object(made)
        },
    };
    close_value(node)
}

impl Tree {
    /// The member of an object that has the given name. Any other document has none.
    pub open spec fn member(self, name: Seq<char>) -> Option<Tree> {
        match self {
            Tree::Object(members) => if members.contains_key(name) {
                Some(members[name])
            } else {
                None
            },
            _ => None,
        }
    }

    /// The characters of a document that is a string.
    pub open spec fn text(self) -> Option<Seq<char>> {
        match self {
            Tree::Text(s) => Some(s),
            _ => None,
        }
    }
}

/// What an optional document says.
pub open spec fn opt_tree(json: Option<&Json>) -> Option<Tree> {
    match json {
        Some(j) => Some(j.tree()),
        None => None,
    }
}

impl Json {
    /// The document that the bytes spell, or why they spell none.
    pub fn parse(bytes: &[u8]) -> (r: Result<Json, String>)
        ensures
            parsed_json(bytes@) == (match r {
                Ok(json) => Ok::<Tree, Seq<char>>(json.tree()),
                Err(message) => Err::<Tree, Seq<char>>(message@),
            }),
    {
        match parse_value(bytes) {
            Ok(value) => Ok(from_value(value)),
            Err(message) => Err(message),
        }
    }

    /// The compact text of the document.
    pub fn render(self) -> (r: String)
        ensures
            r@ == rendered_json(self.tree()),
    {
        let value = into_value(self);
        render_value(&value)
    }

    /// The member of an object that has the given name.
    pub fn get(&self, name: &str) -> (r: Option<&Json>)
        ensures
            opt_tree(r) == self.tree().member(name@),
    {
        match self {
            Json::Object(members) => {
                let mut i: usize = members.len();
                assert(members@.take(i as int) =~= members@);
                while i > 0
                    invariant
                        i <= members.len(),
                        self.tree() == Tree::Object(member_trees(members@)),
                        Tree::Object(member_trees(members@.take(i as int))).member(name@)
                            == Tree::Object(member_trees(members@)).member(name@),
                    decreases i,
                {
                    assert(members@.take(i as int).drop_last() =~= members@.take(i - 1));
                    assert(members@.take(i as int).last() == members@[i - 1]);
                    i -= 1;
                    if text::same_text(members[i].0.as_str(), name) {
                        return Some(&members[i].1);
                    }
                }
                None
            },
            _ => None,
        }
    }

    /// The characters of a document that is a string.
    pub fn as_str(&self) -> (r: Option<&str>)
        ensures
            text::opt_text(r) == self.tree().text(),
    {
        match self {
            Json::Text(s) => Some(s.as_str()),
            _ => None,
        }
    }

    /// The member of an object that has the given name, taken out of it.
    pub fn into_member(self, name: &str) -> (r: Option<Json>)
        ensures
            match r {
                Some(json) => self.tree().member(name@) == Some(json.tree()),
                None => self.tree().member(name@) is None,
            },
    {
        match self {
            Json::Object(members) => {
                let ghost all = members@;
                let mut found: Option<Json> = None;
                for entry in it: members
                    invariant
                        it.seq() == all,
                        Tree::Object(member_trees(all.take(it.index() as int))).member(name@) == (
                        match found {
                            Some(json) => Some(json.tree()),
                            None => None,
                        }),
                {
                    let ghost n = it.index() as int;
                    assert(all.take(n + 1).drop_last() =~= all.take(n));
                    assert(all.take(n + 1).last() == all[n]);
                    let (key, json) = entry;
                    if text::same_text(key.as_str(), name) {
                        found = Some(json);
                    }
                }
                assert(all.take(all.len() as int) =~= all);
                found
            },
            _ => None,
        }
    }
}

/// A document says what it holds: an array each of its items, in order, and an object each of its
/// members, the later one where a name comes twice.
pub proof fn law_documents_say_what_they_hold(json: Json)
    ensures
        json is Null ==> json.tree() == Tree::Null,
        json matches Json::Bool(b) ==> json.tree() == Tree::Bool(b),
        json matches Json::Number(n) ==> json.tree() == Tree::Number(n),
        json matches Json::Text(s) ==> json.tree() == Tree::Text(s@),
        json matches Json::Array(items) ==> json.tree() is Array && json.tree()->Array_0.len()
            == items@.len() && forall|i: int|
            0 <= i < items@.len() ==> (#[trigger] json.tree()->Array_0[i]) == items@[i].tree(),
        json matches Json::Object(members) ==> json.tree() is Object && forall|name: Seq<char>|
            #![trigger json.tree()->Object_0.contains_key(name)]
            {
                &&& json.tree()->Object_0.contains_key(name) ==> exists|i: int|
                    is_last_named(members@, name, i) && json.tree()->Object_0[name]
                        == members@[i].1.tree()
                &&& !json.tree()->Object_0.contains_key(name) ==> forall|i: int|
                    0 <= i < members@.len() ==> (#[trigger] members@[i]).0@ != name
            },
{
    if let Json::Object(members) = json {
        assert forall|name: Seq<char>|
            #![trigger json.tree()->Object_0.contains_key(name)]
            {
                &&& json.tree()->Object_0.contains_key(name) ==> exists|i: int|
                    is_last_named(members@, name, i) && json.tree()->Object_0[name]
                        == members@[i].1.tree()
                &&& !json.tree()->Object_0.contains_key(name) ==> forall|i: int|
                    0 <= i < members@.len() ==> (#[trigger] members@[i]).0@ != name
            } by {
            lemma_last_named(members@, name);
        }
    }
}

/// Whether a member is the last of its name.
pub open spec fn is_last_named(members: Seq<(String, Json)>, name: Seq<char>, i: int) -> bool {
    &&& 0 <= i < members.len()
    &&& members[i].0@ == name
    &&& forall|j: int| i < j < members.len() ==> (#[trigger] members[j]).0@ != name
}

proof fn lemma_last_named(members: Seq<(String, Json)>, name: Seq<char>)
    ensures
        member_trees(members).contains_key(name) ==> exists|i: int|
            is_last_named(members, name, i) && member_trees(members)[name] == members[i].1.tree(),
        !member_trees(members).contains_key(name) ==> forall|i: int|
            0 <= i < members.len() ==> (#[trigger] members[i]).0@ != name,
    decreases members.len(),
{
    if members.len() > 0 {
        let rest = members.drop_last();
        let n = rest.len() as int;
        lemma_last_named(rest, name);
        if members[n].0@ == name {
            assert(is_last_named(members, name, n));
        } else if member_trees(rest).contains_key(name) {
            let i = choose|i: int|
                is_last_named(rest, name, i) && member_trees(rest)[name] == rest[i].1.tree();
            assert forall|j: int| i < j < members.len() implies (#[trigger] members[j]).0@
                != name by {
                if j < n {
                    assert(rest[j].0@ != name);
                }
            }
            assert(is_last_named(members, name, i));
        } else {
            assert forall|i: int| 0 <= i < members.len() implies (#[trigger] members[i]).0@
                != name by {
                if i < n {
                    assert(rest[i].0@ != name);
                }
            }
        }
    }
}

/// An object has the members it holds, and nothing else has any. A string has its characters, and
/// nothing else has any.
pub proof fn law_only_objects_have_members(tree: Tree, name: Seq<char>)
    ensures
        tree matches Tree::Object(members) ==> (if members.contains_key(name) {
            tree.member(name) == Some(members[name])
        } else {
            tree.member(name) is None
        }),
        !(tree is Object) ==> tree.member(name) is None,
        tree matches Tree::Text(s) ==> tree.text() == Some(s),
        !(tree is Text) ==> tree.text() is None,
{
}

/// A document that there may be is seen as it is.
pub proof fn law_a_document_is_seen_as_it_is(json: Option<&Json>)
    ensures
        json is None ==> opt_tree(json) is None,
        json matches Some(j) ==> opt_tree(json) == Some(j.tree()),
{
}

} // verus!
