//! Dotted-path access into JSON configuration documents ("a.b.2.c"):
//! reading a nested value and writing one, creating what is missing on the way.

use vstd::prelude::*;
use crate::json::{
    empty_object, find_member, items_tree, items_view, json_tree, json_view, last_key_index,
    lemma_items_push, lemma_items_tree, lemma_items_tree_push, lemma_items_tree_update,
    lemma_items_update, lemma_items_view, lemma_last_key_members, lemma_members_lookup, members_tree,
    lemma_members_push, lemma_members_tree, lemma_members_tree_push, lemma_members_tree_update,
    lemma_members_update_last, Json, JsonTree, JsonView,
};
use crate::text::{chars_of, lemma_split_on_nonempty, parse_usize, parse_usize_spec, split_on, split_on_char, string_views};

verus! {

/// One step of a path: an array is indexed by a key that parses as `usize`,
/// an object is looked up by key; anything else has no children.
pub open spec fn child_at(j: JsonView, key: Seq<char>) -> Option<JsonView> {
    match j {
        JsonView::Array(items) => match parse_usize_spec(key) {
            Some(idx) => if idx < items.len() { Some(items[idx as int]) } else { None },
            None => None,
        },
        JsonView::Object(m) => if m.dom().contains(key) { Some(m[key]) } else { None },
        _ => None,
    }
}

/// The value reached from `j` by following `keys`, if every step exists.
pub open spec fn get_path(j: JsonView, keys: Seq<Seq<char>>) -> Option<JsonView>
    decreases keys.len(),
{
    if keys.len() == 0 {
        Some(j)
    } else {
        match child_at(j, keys[0]) {
            Some(c) => get_path(c, keys.drop_first()),
            None => None,
        }
    }
}

/// The keys of a dotted path.
pub open spec fn path_keys(path: Seq<char>) -> Seq<Seq<char>> {
    split_on(path, '.')
}

/// What reading `path` in `j` yields: nothing for an empty path.
pub open spec fn nested_get(j: JsonView, path: Seq<char>) -> Option<JsonView> {
    if path.len() == 0 {
        None
    } else {
        get_path(j, path_keys(path))
    }
}

/// `j` itself when it is an object, an empty object otherwise.
pub open spec fn as_object(j: JsonView) -> JsonView {
    match j {
        JsonView::Object(_) => j,
        _ => empty_object(),
    }
}

/// `items` extended with empty objects up to length `n`.
pub open spec fn pad_items(items: Seq<JsonView>, n: nat) -> Seq<JsonView> {
    if items.len() >= n {
        items
    } else {
        items + Seq::new((n - items.len()) as nat, |_i: int| empty_object())
    }
}

/// `j` with `v` written at `keys`. Every intermediate value on the way is
/// made an object (arrays are first extended with empty objects); the last
/// key is set to `v` as it is.
pub open spec fn set_path(j: JsonView, keys: Seq<Seq<char>>, v: JsonView) -> JsonView
    decreases keys.len(),
{
    if keys.len() == 0 {
        v
    } else {
        let k = keys[0];
        let rest = keys.drop_first();
        match j {
            JsonView::Array(items) => match parse_usize_spec(k) {
                Some(idx) => {
                    let p = pad_items(items, (idx + 1) as nat);
                    JsonView::Array(p.update(idx as int, set_path(as_object(p[idx as int]), rest, v)))
                },
                None => j,
            },
            JsonView::Object(m) => {
                let child = if m.dom().contains(k) { as_object(m[k]) } else { empty_object() };
                JsonView::Object(m.insert(k, set_path(child, rest, v)))
            },
            _ => j,
        }
    }
}

/// The message for an array step whose key is not an index.
pub open spec fn non_numeric_message(key: Seq<char>) -> Seq<char> {
    "Array index expected but found a non-numeric key: "@ + key
}

/// The message for a step into a value that is neither array nor object.
pub open spec fn invalid_path_message(path: Seq<char>, key: Seq<char>) -> Seq<char> {
    "Invalid path: "@ + path + ". Encountered non-object/non-array at key "@ + key
}

/// Why writing at `path` in `j` is refused, if it is. Only the first step
/// can fail: every value below it is made an object.
pub open spec fn set_error(j: JsonView, path: Seq<char>) -> Option<Seq<char>> {
    if path.len() == 0 {
        Some("Empty path"@)
    } else {
        let k = path_keys(path)[0];
        match j {
            JsonView::Array(_) => if parse_usize_spec(k) is None {
                Some(non_numeric_message(k))
            } else {
                None
            },
            JsonView::Object(_) => None,
            _ => Some(invalid_path_message(path, k)),
        }
    }
}

/// Result of writing `v` at `path` in `j`: the new document, or the message
/// of the refusal (the document is then left as it was).
pub open spec fn nested_set(j: JsonView, path: Seq<char>, v: JsonView) -> Result<JsonView, Seq<char>> {
    match set_error(j, path) {
        Some(e) => Err(e),
        None => Ok(set_path(j, path_keys(path), v)),
    }
}

/// The first step from `j` along `key` can be taken when writing.
pub open spec fn can_step(j: JsonView, key: Seq<char>) -> bool {
    match j {
        JsonView::Array(_) => parse_usize_spec(key) is Some,
        JsonView::Object(_) => true,
        _ => false,
    }
}

/// One step of a path in the exact shape: an array is indexed as in
/// `child_at`, an object gives its last member with the key.
pub open spec fn tree_child(t: JsonTree, key: Seq<char>) -> Option<JsonTree> {
    match t {
        JsonTree::Array(items) => match parse_usize_spec(key) {
            Some(idx) => if idx < items.len() { Some(items[idx as int]) } else { None },
            None => None,
        },
        JsonTree::Object(ms) => {
            let p = last_key_index(ms, key);
            if p >= 0 { Some(ms[p].1) } else { None }
        },
        _ => None,
    }
}

/// The shape reached from `t` by following `keys`, if every step exists.
pub open spec fn tree_get_path(t: JsonTree, keys: Seq<Seq<char>>) -> Option<JsonTree>
    decreases keys.len(),
{
    if keys.len() == 0 {
        Some(t)
    } else {
        match tree_child(t, keys[0]) {
            Some(c) => tree_get_path(c, keys.drop_first()),
            None => None,
        }
    }
}

/// The empty object's shape.
pub open spec fn empty_tree_object() -> JsonTree {
    JsonTree::Object(Seq::empty())
}

/// `t` itself when it is an object, an empty object otherwise.
pub open spec fn tree_as_object(t: JsonTree) -> JsonTree {
    match t {
        JsonTree::Object(_) => t,
        _ => empty_tree_object(),
    }
}

/// `items` extended with empty objects up to length `n`.
pub open spec fn tree_pad(items: Seq<JsonTree>, n: nat) -> Seq<JsonTree> {
    if items.len() >= n {
        items
    } else {
        items + Seq::new((n - items.len()) as nat, |_i: int| empty_tree_object())
    }
}

/// The exact shape after writing `v` at `keys`, as `set_path` does it: the
/// last member with the key is updated in place, and a missing key becomes
/// a new member at the end of the object.
pub open spec fn tree_set_path(t: JsonTree, keys: Seq<Seq<char>>, v: JsonTree) -> JsonTree
    decreases keys.len(),
{
    if keys.len() == 0 {
        v
    } else {
        let k = keys[0];
        let rest = keys.drop_first();
        match t {
            JsonTree::Array(items) => match parse_usize_spec(k) {
                Some(idx) => {
                    let p = tree_pad(items, (idx + 1) as nat);
                    JsonTree::Array(p.update(idx as int, tree_set_path(tree_as_object(p[idx as int]), rest, v)))
                },
                None => t,
            },
            JsonTree::Object(ms) => {
                let p = last_key_index(ms, k);
                if p >= 0 {
                    JsonTree::Object(ms.update(p, (k, tree_set_path(tree_as_object(ms[p].1), rest, v))))
                } else {
                    JsonTree::Object(ms.push((k, tree_set_path(empty_tree_object(), rest, v))))
                }
            },
            _ => t,
        }
    }
}

proof fn lemma_tree_get_path_skip(t: JsonTree, keys: Seq<Seq<char>>, i: int)
    requires
        0 <= i < keys.len(),
    ensures
        tree_get_path(t, keys.skip(i)) == match tree_child(t, keys[i]) {
            Some(c) => tree_get_path(c, keys.skip(i + 1)),
            None => None,
        },
{
    assert(keys.skip(i)[0] == keys[i]);
    assert(keys.skip(i).drop_first() =~= keys.skip(i + 1));
}

proof fn lemma_get_path_skip(j: JsonView, keys: Seq<Seq<char>>, i: int)
    requires
        0 <= i < keys.len(),
    ensures
        get_path(j, keys.skip(i)) == match child_at(j, keys[i]) {
            Some(c) => get_path(c, keys.skip(i + 1)),
            None => None,
        },
{
    assert(keys.skip(i)[0] == keys[i]);
    assert(keys.skip(i).drop_first() =~= keys.skip(i + 1));
}

/// Reads the value at a dotted path such as `"a.b.2.c"`: an array is indexed
/// by the key read as a number, an object by the key. Returns a copy of the
/// value, or `None` when the path is empty or any step is missing.
pub fn get_nested_key(obj: &Json, path: &str) -> (r: Option<Json>)
    ensures
        match r {
            Some(v) => nested_get(obj@, path@) == Some(v@),
            None => nested_get(obj@, path@) is None,
        },
        r matches Some(v) ==> tree_get_path(json_tree(*obj), path_keys(path@)) == Some(json_tree(v)),
{
    if path.is_empty() {
        return None;
    }
    let keys = split_on_char(path, '.');
    let ghost ks = string_views(keys@);
    let mut cur: &Json = obj;
    let mut i: usize = 0;
    assert(ks.skip(0) =~= ks);
    while i < keys.len()
        invariant
            i <= keys.len(),
            ks == string_views(keys@),
            ks == path_keys(path@),
            get_path(obj@, ks) == get_path(cur@, ks.skip(i as int)),
            tree_get_path(json_tree(*obj), ks) == tree_get_path(json_tree(*cur), ks.skip(i as int)),
        decreases keys.len() - i,
    {
        proof {
            lemma_get_path_skip(cur@, ks, i as int);
            lemma_tree_get_path_skip(json_tree(*cur), ks, i as int);
        }
        assert(ks[i as int] == keys@[i as int]@);
        match cur {
            Json::Array(items) => {
                let kc = chars_of(keys[i].as_str());
                match parse_usize(&kc) {
                    Some(idx) => {
                        if idx < items.len() {
                            proof {
                                lemma_items_view(items@);
                                lemma_items_tree(items@);
                            }
                            cur = &items[idx];
                        } else {
                            proof {
                                lemma_items_view(items@);
                                lemma_items_tree(items@);
                            }
                            return None;
                        }
                    },
                    None => {
                        return None;
                    },
                }
            },
            Json::Object(members) => {
                match find_member(members, &keys[i]) {
                    Some(p) => {
                        proof {
                            lemma_members_lookup(members@, keys@[i as int]@);
                            lemma_last_key_members(members@, keys@[i as int]@);
                            lemma_members_tree(members@);
                        }
                        cur = &members[p].1;
                    },
                    None => {
                        proof {
                            lemma_members_lookup(members@, keys@[i as int]@);
                            lemma_last_key_members(members@, keys@[i as int]@);
                        }
                        return None;
                    },
                }
            },
            _ => {
                return None;
            },
        }
        i = i + 1;
    }
    assert(ks.skip(keys.len() as int) =~= Seq::<Seq<char>>::empty());
    Some(cur.deep_clone())
}


/// Makes `node` an object if it is not one (the view is then `as_object`).
fn into_object(node: Json) -> (r: Json)
    ensures
        r@ == as_object(node@),
        json_tree(r) == tree_as_object(json_tree(node)),
        r is Object,
{
    match node {
        Json::Object(m) => Json::Object(m),
        _ => Json::Object(Vec::new()),
    }
}

/// Writes `value` at `keys[i..]` below `node`.
fn set_at(node: Json, keys: &Vec<String>, i: usize, value: Json) -> (r: Json)
    requires
        i <= keys.len(),
        i < keys.len() ==> can_step(node@, keys@[i as int]@),
    ensures
        r@ == set_path(node@, string_views(keys@).skip(i as int), value@),
        json_tree(r) == tree_set_path(json_tree(node), string_views(keys@).skip(i as int), json_tree(value)),
    decreases keys.len() - i,
{
    let ghost ks = string_views(keys@).skip(i as int);
    if i == keys.len() {
        assert(ks.len() == 0);
        return value;
    }
    assert(ks[0] == keys@[i as int]@);
    assert(ks.drop_first() =~= string_views(keys@).skip(i + 1));
    match node {
        Json::Array(items) => {
            let mut items = items;
            let ghost orig = items@;
            let kc = chars_of(keys[i].as_str());
            let idx = match parse_usize(&kc) {
                Some(idx) => idx,
                None => {
                    assert(false);
                    0
                },
            };
            let ghost padded = pad_items(items_view(orig), (idx + 1) as nat);
            let ghost tpadded = tree_pad(items_tree(orig), (idx + 1) as nat);
            proof {
                lemma_items_view(orig);
                lemma_items_tree(orig);
            }
            while items.len() <= idx
                invariant
                    orig.len() <= items.len(),
                    items.len() <= idx + 1 || items@ == orig,
                    items_view(items@) =~= items_view(orig) + Seq::new(
                        (items.len() - orig.len()) as nat,
                        |_i: int| empty_object(),
                    ),
                    items_tree(items@) =~= items_tree(orig) + Seq::new(
                        (items.len() - orig.len()) as nat,
                        |_i: int| empty_tree_object(),
                    ),
                decreases idx + 1 - items.len(),
            {
                let e = Json::Object(Vec::new());
                proof {
                    lemma_items_push(items@, e);
                    lemma_items_tree_push(items@, e);
                    assert(json_tree(e) == empty_tree_object()) by {
                        assert(members_tree(Seq::<(String, Json)>::empty()) =~= Seq::empty());
                    }
                }
                items.push(e);
            }
            assert(items_view(items@) =~= padded);
            assert(items_tree(items@) =~= tpadded);
            proof {
                lemma_items_view(items@);
                lemma_items_tree(items@);
            }
            let mut child = Json::Null;
            items.set_and_swap(idx, &mut child);
            assert(json_view(child) == padded[idx as int]);
            assert(json_tree(child) == tpadded[idx as int]);
            let child = into_object(child);
            let new_child = set_at(child, keys, i + 1, value);
            let ghost swapped = items@;
            items.set(idx, new_child);
            proof {
                assert(swapped.update(idx as int, new_child) =~= items@);
                lemma_items_update(swapped, idx as int, new_child);
                lemma_items_view(swapped);
                assert(items_view(swapped) =~= padded.update(idx as int, JsonView::Null));
                assert(items_view(items@) =~= padded.update(idx as int, new_child@));
                lemma_items_tree_update(swapped, idx as int, new_child);
                lemma_items_tree(swapped);
                assert(items_tree(swapped) =~= tpadded.update(idx as int, JsonTree::Null));
                assert(items_tree(items@) =~= tpadded.update(idx as int, json_tree(new_child)));
            }
            Json::Array(items)
        },
        Json::Object(members) => {
            let mut members = members;
            let ghost orig = members@;
            let key = &keys[i];
            proof {
                lemma_members_lookup(orig, key@);
                lemma_last_key_members(orig, key@);
                lemma_members_tree(orig);
            }
            match find_member(&members, key) {
                Some(p) => {
                    let mut entry = (String::new(), Json::Null);
                    members.set_and_swap(p, &mut entry);
                    let (k, child) = entry;
                    let child = into_object(child);
                    let new_child = set_at(child, keys, i + 1, value);
                    let ghost e = (k, new_child);
                    members.set(p, (k, new_child));
                    proof {
                        assert(members@ =~= orig.update(p as int, e));
                        lemma_members_update_last(orig, p as int, e);
                        lemma_members_tree_update(orig, p as int, e);
                    }
                    Json::Object(members)
                },
                None => {
                    let empty = Json::Object(Vec::new());
                    assert(json_tree(empty) == empty_tree_object()) by {
                        assert(members_tree(Seq::<(String, Json)>::empty()) =~= Seq::empty());
                    }
                    assert(json_view(empty) == empty_object());
                    let new_child = set_at(empty, keys, i + 1, value);
                    let e = (key.clone(), new_child);
                    proof {
                        lemma_members_push(members@, e);
                        lemma_members_tree_push(members@, e);
                    }
                    members.push(e);
                    Json::Object(members)
                },
            }
        },
        _ => {
            assert(false);
            node
        },
    }
}

/// Writes `value` at a dotted path such as `"a.b.2.c"`, creating what is
/// missing: an array is extended with empty objects up to the index, and
/// every intermediate value that is not an object is replaced by an empty
/// one. Fails, leaving `obj` untouched, on an empty path, on a non-numeric
/// first key into an array, and when `obj` is neither array nor object.
/// Object members keep their order: an existing key is updated in place
/// (its last member, when it occurs more than once), a new key is appended.
pub fn set_nested_key(obj: &mut Json, path: &str, value: Json) -> (r: Result<(), String>)
    ensures
        match nested_set(old(obj)@, path@, value@) {
            Ok(j) => r is Ok && final(obj)@ == j,
            Err(e) => r matches Err(msg) && msg@ == e && final(obj)@ == old(obj)@,
        },
        r is Ok ==> json_tree(*final(obj)) == tree_set_path(json_tree(*old(obj)), path_keys(path@), json_tree(value)),
        r is Err ==> *final(obj) == *old(obj),
{
    if path.is_empty() {
        return Err(String::from_str("Empty path"));
    }
    let keys = split_on_char(path, '.');
    proof {
        lemma_split_on_nonempty(path@, '.');
    }
    let ghost ks = string_views(keys@);
    assert(ks[0] == keys@[0]@);
    let first = &keys[0];
    let blocked = match &*obj {
        Json::Array(_) => {
            let kc = chars_of(first.as_str());
            match parse_usize(&kc) {
                Some(_) => None,
                None => {
                    let mut m = String::from_str("Array index expected but found a non-numeric key: ");
                    m.append(first.as_str());
                    Some(m)
                },
            }
        },
        Json::Object(_) => None,
        _ => {
            let mut m = String::from_str("Invalid path: ");
            m.append(path);
            m.append(". Encountered non-object/non-array at key ");
            m.append(first.as_str());
            Some(m)
        },
    };
    match blocked {
        Some(m) => Err(m),
        None => {
            let mut node = Json::Null;
            std::mem::swap(&mut node, obj);
            assert(ks.skip(0) =~= ks);
            let updated = set_at(node, &keys, 0, value);
            *obj = updated;
            Ok(())
        },
    }
}


proof fn lemma_pad_items(items: Seq<JsonView>, n: nat)
    ensures
        pad_items(items, n).len() >= n,
        pad_items(items, n).len() >= items.len(),
        forall|i: int| 0 <= i < items.len() ==> #[trigger] pad_items(items, n)[i] == items[i],
{
}

proof fn lemma_get_set_path(j: JsonView, keys: Seq<Seq<char>>, v: JsonView)
    requires
        keys.len() == 0 || can_step(j, keys[0]),
    ensures
        get_path(set_path(j, keys, v), keys) == Some(v),
    decreases keys.len(),
{
    if keys.len() > 0 {
        let k = keys[0];
        let rest = keys.drop_first();
        match j {
            JsonView::Array(items) => {
                let idx = parse_usize_spec(k).unwrap();
                let p = pad_items(items, (idx + 1) as nat);
                lemma_pad_items(items, (idx + 1) as nat);
                let c = as_object(p[idx as int]);
                lemma_get_set_path(c, rest, v);
            },
            JsonView::Object(m) => {
                let c = if m.dom().contains(k) { as_object(m[k]) } else { empty_object() };
                lemma_get_set_path(c, rest, v);
            },
            _ => {},
        }
    }
}

/// Reading a path right after a successful write at that path gives back the
/// value written.
pub proof fn law_get_after_set(j: JsonView, path: Seq<char>, v: JsonView)
    requires
        nested_set(j, path, v) is Ok,
    ensures
        nested_get(nested_set(j, path, v)->Ok_0, path) == Some(v),
{
    lemma_split_on_nonempty(path, '.');
    lemma_get_set_path(j, path_keys(path), v);
}

proof fn lemma_set_path_other(j: JsonView, keys: Seq<Seq<char>>, other: Seq<Seq<char>>, v: JsonView)
    requires
        j is Object,
        keys.len() > 0,
        other.len() > 0,
        other[0] != keys[0],
    ensures
        get_path(set_path(j, keys, v), other) == get_path(j, other),
{
    let m = j->Object_0;
    let k = keys[0];
    let c = if m.dom().contains(k) { as_object(m[k]) } else { empty_object() };
    let m2 = m.insert(k, set_path(c, keys.drop_first(), v));
    assert(set_path(j, keys, v) == JsonView::Object(m2));
    assert(m2.dom().contains(other[0]) == m.dom().contains(other[0]));
    if m.dom().contains(other[0]) {
        assert(m2[other[0]] == m[other[0]]);
    }
}

/// Writing into an object at a path leaves everything reached through a
/// different first key as it was.
pub proof fn law_set_keeps_other_members(j: JsonView, path: Seq<char>, other: Seq<char>, v: JsonView)
    requires
        j is Object,
        nested_set(j, path, v) is Ok,
        other.len() > 0,
        path_keys(other)[0] != path_keys(path)[0],
    ensures
        nested_get(nested_set(j, path, v)->Ok_0, other) == nested_get(j, other),
{
    lemma_split_on_nonempty(path, '.');
    lemma_split_on_nonempty(other, '.');
    lemma_set_path_other(j, path_keys(path), path_keys(other), v);
}

proof fn lemma_set_path_is_object(j: JsonView, keys: Seq<Seq<char>>, v: JsonView)
    requires
        j is Object,
        keys.len() > 0,
    ensures
        set_path(j, keys, v) is Object,
{
}

proof fn lemma_set_path_twice(j: JsonView, keys: Seq<Seq<char>>, v: JsonView)
    requires
        keys.len() == 0 || can_step(j, keys[0]),
    ensures
        set_path(set_path(j, keys, v), keys, v) == set_path(j, keys, v),
    decreases keys.len(),
{
    if keys.len() > 0 {
        let k = keys[0];
        let rest = keys.drop_first();
        match j {
            JsonView::Array(items) => {
                let idx = parse_usize_spec(k).unwrap();
                let p = pad_items(items, (idx + 1) as nat);
                lemma_pad_items(items, (idx + 1) as nat);
                let c = as_object(p[idx as int]);
                let c2 = set_path(c, rest, v);
                lemma_set_path_twice(c, rest, v);
                let q = p.update(idx as int, c2);
                lemma_pad_items(q, (idx + 1) as nat);
                assert(pad_items(q, (idx + 1) as nat) == q);
                if rest.len() > 0 {
                    lemma_set_path_is_object(c, rest, v);
                    assert(as_object(c2) == c2);
                }
                assert(q.update(idx as int, set_path(as_object(q[idx as int]), rest, v)) =~= q);
            },
            JsonView::Object(m) => {
                let c = if m.dom().contains(k) { as_object(m[k]) } else { empty_object() };
                let c2 = set_path(c, rest, v);
                lemma_set_path_twice(c, rest, v);
                let m2 = m.insert(k, c2);
                if rest.len() > 0 {
                    lemma_set_path_is_object(c, rest, v);
                    assert(as_object(c2) == c2);
                }
                assert(m2.insert(k, set_path(as_object(m2[k]), rest, v)) =~= m2);
            },
            _ => {},
        }
    }
}

/// Writing the same value at the same path twice is the same as writing it
/// once.
pub proof fn law_set_idempotent(j: JsonView, path: Seq<char>, v: JsonView)
    requires
        nested_set(j, path, v) is Ok,
    ensures
        nested_set(nested_set(j, path, v)->Ok_0, path, v) == nested_set(j, path, v),
{
    let ks = path_keys(path);
    lemma_split_on_nonempty(path, '.');
    lemma_set_path_twice(j, ks, v);
    let j2 = set_path(j, ks, v);
    let k = ks[0];
    match j {
        JsonView::Array(items) => {
            lemma_pad_items(items, (parse_usize_spec(k).unwrap() + 1) as nat);
        },
        _ => {},
    }
    assert(j2 is Array || j2 is Object);
}

/// `a` and `b` lead from `n` to two different children: different keys of an
/// object, or two different indices of an array.
pub open spec fn apart(n: JsonView, a: Seq<char>, b: Seq<char>) -> bool {
    match n {
        JsonView::Object(_) => a != b,
        JsonView::Array(_) => parse_usize_spec(a) is Some && parse_usize_spec(b) is Some && parse_usize_spec(a)
            != parse_usize_spec(b),
        _ => false,
    }
}

/// `a` and `b` lead from `n` to the same child: the same key of an object,
/// or the same index of an array.
pub open spec fn same_step(n: JsonView, a: Seq<char>, b: Seq<char>) -> bool {
    match n {
        JsonView::Object(_) => a == b,
        JsonView::Array(_) => parse_usize_spec(a) is Some && parse_usize_spec(a) == parse_usize_spec(b),
        _ => false,
    }
}

/// The paths `p` and `q` from `j` share some steps, through objects below
/// the root, and then part: neither leads through the other.
pub open spec fn paths_part(j: JsonView, p: Seq<Seq<char>>, q: Seq<Seq<char>>) -> bool
    decreases p.len(),
{
    &&& p.len() > 0
    &&& q.len() > 0
    &&& (apart(j, p[0], q[0]) || (same_step(j, p[0], q[0]) && match child_at(j, p[0]) {
        Some(c) => c is Object && paths_part(c, p.drop_first(), q.drop_first()),
        None => false,
    }))
}

proof fn lemma_set_path_parted(j: JsonView, p: Seq<Seq<char>>, q: Seq<Seq<char>>, v: JsonView)
    requires
        paths_part(j, p, q),
        get_path(j, q) is Some,
    ensures
        get_path(set_path(j, p, v), q) == get_path(j, q),
    decreases p.len(),
{
    let k = p[0];
    let rest = p.drop_first();
    let r = set_path(j, p, v);
    match j {
        JsonView::Object(m) => {
            let c = if m.dom().contains(k) { as_object(m[k]) } else { empty_object() };
            let m2 = m.insert(k, set_path(c, rest, v));
            assert(r == JsonView::Object(m2));
            if apart(j, p[0], q[0]) {
                assert(child_at(r, q[0]) == child_at(j, q[0]));
            } else {
                let ch = m[k];
                assert(ch is Object);
                assert(as_object(ch) == ch);
                lemma_set_path_parted(ch, rest, q.drop_first(), v);
                assert(child_at(r, q[0]) == Some(set_path(ch, rest, v)));
            }
        },
        JsonView::Array(items) => {
            let idx = parse_usize_spec(k).unwrap();
            let pd = pad_items(items, (idx + 1) as nat);
            lemma_pad_items(items, (idx + 1) as nat);
            let items2 = pd.update(idx as int, set_path(as_object(pd[idx as int]), rest, v));
            assert(r == JsonView::Array(items2));
            let qi = parse_usize_spec(q[0]).unwrap();
            assert(qi < items.len());
            if apart(j, p[0], q[0]) {
                assert(items2[qi as int] == items[qi as int]);
                assert(child_at(r, q[0]) == child_at(j, q[0]));
            } else {
                let ch = items[idx as int];
                assert(pd[idx as int] == ch);
                assert(as_object(ch) == ch);
                lemma_set_path_parted(ch, rest, q.drop_first(), v);
                assert(child_at(r, q[0]) == Some(set_path(ch, rest, v)));
            }
        },
        _ => {},
    }
}

/// A write changes nothing off its own path: every value reached by a path
/// that parts from the written one (through objects below the root) is
/// still there afterwards, also under the same array element or the same
/// member as the written path.
pub proof fn law_set_keeps_parted_paths(j: JsonView, p: Seq<Seq<char>>, q: Seq<Seq<char>>, v: JsonView, x: JsonView)
    requires
        paths_part(j, p, q),
        get_path(j, q) == Some(x),
    ensures
        get_path(set_path(j, p, v), q) == Some(x),
{
    lemma_set_path_parted(j, p, q, v);
}

/// The same over dotted paths: after a successful write at `path`, reading
/// another path that parts from it gives what it gave before.
pub proof fn law_set_keeps_other_paths(j: JsonView, path: Seq<char>, other: Seq<char>, v: JsonView, x: JsonView)
    requires
        nested_set(j, path, v) is Ok,
        paths_part(j, path_keys(path), path_keys(other)),
        nested_get(j, other) == Some(x),
    ensures
        nested_get(nested_set(j, path, v)->Ok_0, other) == Some(x),
{
    lemma_set_path_parted(j, path_keys(path), path_keys(other), v);
}

} // verus!
