//! A JSON document model held as plain values, with its mathematical view.
//!
//! Objects keep their members in a `Vec`; a member written later shadows an
//! earlier one with the same key, so the view of an object is the finite map
//! that inserting the members in order would build.

use vstd::prelude::*;

verus! {

/// A JSON value. Numbers are held as their JSON text.
#[derive(Debug)]
pub enum Json {
    Null,
    Bool(bool),
    Number(String),
    Str(String),
    Array(Vec<Json>),
    Object(Vec<(String, Json)>),
}

/// The mathematical value of a [`Json`].
#[verifier::ext_equal]
pub enum JsonView {
    Null,
    Bool(bool),
    Number(Seq<char>),
    Str(Seq<char>),
    Array(Seq<JsonView>),
    Object(Map<Seq<char>, JsonView>),
}

/// The view of a JSON value.
pub open spec fn json_view(j: Json) -> JsonView
    decreases j,
{
    match j {
        Json::Null => JsonView::Null,
        Json::Bool(b) => JsonView::Bool(b),
        Json::Number(n) => JsonView::Number(n@),
        Json::Str(s) => JsonView::Str(s@),
        Json::Array(items) => JsonView::Array(items_view(items@)),
        Json::Object(members) => JsonView::Object(members_view(members@)),
    }
}

/// The views of a sequence of JSON values, element by element.
pub open spec fn items_view(s: Seq<Json>) -> Seq<JsonView>
    decreases s,
{
    if s.len() == 0 {
        Seq::empty()
    } else {
        items_view(s.drop_last()).push(json_view(s.last()))
    }
}

/// The map built by inserting the members of an object in order.
pub open spec fn members_view(s: Seq<(String, Json)>) -> Map<Seq<char>, JsonView>
    decreases s,
{
    if s.len() == 0 {
        Map::empty()
    } else {
        members_view(s.drop_last()).insert(s.last().0@, json_view(s.last().1))
    }
}

impl View for Json {
    type V = JsonView;

    open spec fn view(&self) -> JsonView {
        json_view(*self)
    }
}

/// The empty JSON object.
pub open spec fn empty_object() -> JsonView {
    JsonView::Object(Map::empty())
}


/// Index `p` holds the last member of `s` whose key is `k`.
pub open spec fn is_last_key(s: Seq<(String, Json)>, p: int, k: Seq<char>) -> bool {
    &&& 0 <= p < s.len()
    &&& s[p].0@ == k
    &&& forall|q: int| p < q < s.len() ==> #[trigger] s[q].0@ != k
}

/// `items_view` is taken element by element.
pub proof fn lemma_items_view(s: Seq<Json>)
    ensures
        items_view(s).len() == s.len(),
        forall|i: int| 0 <= i < s.len() ==> #[trigger] items_view(s)[i] == json_view(s[i]),
    decreases s.len(),
{
    if s.len() > 0 {
        lemma_items_view(s.drop_last());
    }
}

/// A key is in an object's map exactly when some member has it, and then the
/// value is that of the last such member.
pub proof fn lemma_members_lookup(s: Seq<(String, Json)>, k: Seq<char>)
    ensures
        members_view(s).dom().contains(k) <==> exists|i: int| 0 <= i < s.len() && #[trigger] s[i].0@ == k,
        forall|p: int| is_last_key(s, p, k) ==> members_view(s)[k] == json_view(#[trigger] s[p].1),
    decreases s.len(),
{
    if s.len() > 0 {
        let t = s.drop_last();
        lemma_members_lookup(t, k);
        if s.last().0@ != k {
            assert forall|p: int| is_last_key(s, p, k) implies members_view(s)[k] == json_view(#[trigger] s[p].1) by {
                assert(p < s.len() - 1);
                assert(is_last_key(t, p, k));
                assert(t[p] == s[p]);
            }
            if exists|i: int| 0 <= i < s.len() && #[trigger] s[i].0@ == k {
                let i = choose|i: int| 0 <= i < s.len() && #[trigger] s[i].0@ == k;
                assert(t[i].0@ == k);
            }
            if exists|i: int| 0 <= i < t.len() && #[trigger] t[i].0@ == k {
                let i = choose|i: int| 0 <= i < t.len() && #[trigger] t[i].0@ == k;
                assert(s[i].0@ == k);
            }
        } else {
            assert(s[s.len() - 1].0@ == k);
            assert forall|p: int| is_last_key(s, p, k) implies members_view(s)[k] == json_view(#[trigger] s[p].1) by {
                if p < s.len() - 1 {
                    assert(s[s.len() - 1].0@ != k);
                }
            }
        }
    }
}

/// Overwriting the last member with a given key updates that key in the map.
pub proof fn lemma_members_update_last(s: Seq<(String, Json)>, p: int, e: (String, Json))
    requires
        is_last_key(s, p, e.0@),
    ensures
        members_view(s.update(p, e)) == members_view(s).insert(e.0@, json_view(e.1)),
    decreases s.len(),
{
    let u = s.update(p, e);
    let t = s.drop_last();
    if p == s.len() - 1 {
        assert(u.drop_last() =~= t);
        assert(members_view(u) =~= members_view(s).insert(e.0@, json_view(e.1)));
    } else {
        assert(u.drop_last() =~= t.update(p, e));
        assert(is_last_key(t, p, e.0@)) by {
            assert forall|q: int| p < q < t.len() implies #[trigger] t[q].0@ != e.0@ by {
                assert(t[q] == s[q]);
            }
        }
        lemma_members_update_last(t, p, e);
        assert(s.last().0@ != e.0@) by {
            assert(s[s.len() - 1].0@ != e.0@);
        }
        assert(members_view(u) =~= members_view(s).insert(e.0@, json_view(e.1)));
    }
}

/// Appending a member inserts its key.
pub proof fn lemma_members_push(s: Seq<(String, Json)>, e: (String, Json))
    ensures
        members_view(s.push(e)) == members_view(s).insert(e.0@, json_view(e.1)),
{
    assert(s.push(e).drop_last() =~= s);
}

/// Appending an item appends its view.
pub proof fn lemma_items_push(s: Seq<Json>, x: Json)
    ensures
        items_view(s.push(x)) == items_view(s).push(json_view(x)),
{
    assert(s.push(x).drop_last() =~= s);
}

/// Overwriting an item overwrites its view.
pub proof fn lemma_items_update(s: Seq<Json>, i: int, x: Json)
    requires
        0 <= i < s.len(),
    ensures
        items_view(s.update(i, x)) == items_view(s).update(i, json_view(x)),
{
    lemma_items_view(s);
    lemma_items_view(s.update(i, x));
    assert(items_view(s.update(i, x)) =~= items_view(s).update(i, json_view(x)));
}

/// The index of the last member of `members` whose key is `key`, if any.
pub fn find_member(members: &Vec<(String, Json)>, key: &String) -> (r: Option<usize>)
    ensures
        match r {
            Some(p) => is_last_key(members@, p as int, key@),
            None => forall|i: int| 0 <= i < members@.len() ==> #[trigger] members@[i].0@ != key@,
        },
{
    let mut i: usize = members.len();
    while i > 0
        invariant
            i <= members.len(),
            forall|q: int| i <= q < members@.len() ==> #[trigger] members@[q].0@ != key@,
        decreases i,
    {
        i = i - 1;
        if members[i].0 == *key {
            return Some(i);
        }
    }
    None
}

impl Json {
    /// A copy of this value, of the same shape.
    #[verifier::loop_isolation(false)]
    pub fn deep_clone(&self) -> (r: Json)
        ensures
            r@ == self@,
            json_tree(r) == json_tree(*self),
        decreases self,
    {
        match self {
            Json::Null => Json::Null,
            Json::Bool(b) => Json::Bool(*b),
            Json::Number(n) => Json::Number(n.clone()),
            Json::Str(s) => Json::Str(s.clone()),
            Json::Array(items) => {
                let mut out: Vec<Json> = Vec::new();
                let mut i: usize = 0;
                while i < items.len()
                    invariant
                        i <= items.len(),
                        items_view(out@) == items_view(items@.take(i as int)),
                        items_tree(out@) == items_tree(items@.take(i as int)),
                    decreases items.len() - i,
                {
                    proof {
                        assert(decreases_to!(*self => items@[i as int]));
                    }
                    let c = items[i].deep_clone();
                    proof {
                        lemma_items_push(out@, c);
                        lemma_items_push(items@.take(i as int), items@[i as int]);
                        lemma_items_tree_push(out@, c);
                        lemma_items_tree_push(items@.take(i as int), items@[i as int]);
                        assert(items@.take(i as int).push(items@[i as int]) =~= items@.take(i + 1));
                    }
                    out.push(c);
                    i = i + 1;
                }
                assert(items@.take(items.len() as int) =~= items@);
                Json::Array(out)
            },
            Json::Object(members) => {
                let mut out: Vec<(String, Json)> = Vec::new();
                let mut i: usize = 0;
                while i < members.len()
                    invariant
                        i <= members.len(),
                        members_view(out@) == members_view(members@.take(i as int)),
                        members_tree(out@) == members_tree(members@.take(i as int)),
                    decreases members.len() - i,
                {
                    proof {
                        assert(decreases_to!(*self => members@[i as int].1));
                    }
                    let c = members[i].1.deep_clone();
                    let e = (members[i].0.clone(), c);
                    proof {
                        lemma_members_push(out@, e);
                        lemma_members_push(members@.take(i as int), members@[i as int]);
                        lemma_members_tree_push(out@, e);
                        lemma_members_tree_push(members@.take(i as int), members@[i as int]);
                        assert(members@.take(i as int).push(members@[i as int]) =~= members@.take(i + 1));
                    }
                    out.push(e);
                    i = i + 1;
                }
                assert(members@.take(members.len() as int) =~= members@);
                Json::Object(out)
            },
        }
    }
}

/// The exact shape of a [`Json`]: like its view, but an object is the
/// sequence of its members in order, duplicates included.
pub enum JsonTree {
    Null,
    Bool(bool),
    Number(Seq<char>),
    Str(Seq<char>),
    Array(Seq<JsonTree>),
    Object(Seq<(Seq<char>, JsonTree)>),
}

/// The exact shape of a JSON value.
pub open spec fn json_tree(j: Json) -> JsonTree
    decreases j,
{
    match j {
        Json::Null => JsonTree::Null,
        Json::Bool(b) => JsonTree::Bool(b),
        Json::Number(n) => JsonTree::Number(n@),
        Json::Str(s) => JsonTree::Str(s@),
        Json::Array(items) => JsonTree::Array(items_tree(items@)),
        Json::Object(members) => JsonTree::Object(members_tree(members@)),
    }
}

/// The shapes of a sequence of JSON values, element by element.
pub open spec fn items_tree(s: Seq<Json>) -> Seq<JsonTree>
    decreases s,
{
    if s.len() == 0 {
        Seq::empty()
    } else {
        items_tree(s.drop_last()).push(json_tree(s.last()))
    }
}

/// The members of an object with their shapes, in order.
pub open spec fn members_tree(s: Seq<(String, Json)>) -> Seq<(Seq<char>, JsonTree)>
    decreases s,
{
    if s.len() == 0 {
        Seq::empty()
    } else {
        members_tree(s.drop_last()).push((s.last().0@, json_tree(s.last().1)))
    }
}

/// The view a shape stands for: an object's members inserted in order.
pub open spec fn tree_view(t: JsonTree) -> JsonView
    decreases t,
{
    match t {
        JsonTree::Null => JsonView::Null,
        JsonTree::Bool(b) => JsonView::Bool(b),
        JsonTree::Number(n) => JsonView::Number(n),
        JsonTree::Str(s) => JsonView::Str(s),
        JsonTree::Array(items) => JsonView::Array(trees_view(items)),
        JsonTree::Object(members) => JsonView::Object(tree_members_view(members)),
    }
}

/// The views of a sequence of shapes.
pub open spec fn trees_view(s: Seq<JsonTree>) -> Seq<JsonView>
    decreases s,
{
    if s.len() == 0 {
        Seq::empty()
    } else {
        trees_view(s.drop_last()).push(tree_view(s.last()))
    }
}

/// The map built by inserting an object's members in order.
pub open spec fn tree_members_view(s: Seq<(Seq<char>, JsonTree)>) -> Map<Seq<char>, JsonView>
    decreases s,
{
    if s.len() == 0 {
        Map::empty()
    } else {
        tree_members_view(s.drop_last()).insert(s.last().0, tree_view(s.last().1))
    }
}

/// The view of a value is the view its shape stands for.
pub proof fn lemma_view_of_tree(j: Json)
    ensures
        json_view(j) == tree_view(json_tree(j)),
    decreases j,
{
    match j {
        Json::Array(items) => {
            assert(items@.take(items@.len() as int) =~= items@);
            lemma_items_view_of_tree(j, items@);
        },
        Json::Object(members) => {
            assert(members@.take(members@.len() as int) =~= members@);
            lemma_members_view_of_tree(j, members@);
        },
        _ => {},
    }
}

proof fn lemma_items_view_of_tree(j: Json, s: Seq<Json>)
    requires
        j matches Json::Array(items) && s.len() <= items@.len() && s == items@.take(s.len() as int),
    ensures
        items_view(s) == trees_view(items_tree(s)),
    decreases j, s.len(),
{
    if s.len() > 0 {
        let items = j->Array_0;
        assert(s.drop_last() == items@.take(s.len() - 1));
        lemma_items_view_of_tree(j, s.drop_last());
        assert(s.last() == items@[s.len() - 1]);
        assert(decreases_to!(j => items@[s.len() - 1]));
        lemma_view_of_tree(s.last());
        assert(items_tree(s).drop_last() == items_tree(s.drop_last()));
    }
}

proof fn lemma_members_view_of_tree(j: Json, s: Seq<(String, Json)>)
    requires
        j matches Json::Object(members) && s.len() <= members@.len() && s == members@.take(s.len() as int),
    ensures
        members_view(s) == tree_members_view(members_tree(s)),
    decreases j, s.len(),
{
    if s.len() > 0 {
        let members = j->Object_0;
        assert(s.drop_last() == members@.take(s.len() - 1));
        lemma_members_view_of_tree(j, s.drop_last());
        assert(s.last() == members@[s.len() - 1]);
        assert(decreases_to!(j => members@[s.len() - 1].1));
        lemma_view_of_tree(s.last().1);
        assert(members_tree(s).drop_last() == members_tree(s.drop_last()));
    }
}

/// `items_tree` is taken element by element.
pub proof fn lemma_items_tree(s: Seq<Json>)
    ensures
        items_tree(s).len() == s.len(),
        forall|i: int| 0 <= i < s.len() ==> #[trigger] items_tree(s)[i] == json_tree(s[i]),
    decreases s.len(),
{
    if s.len() > 0 {
        lemma_items_tree(s.drop_last());
    }
}

/// `members_tree` is taken member by member.
pub proof fn lemma_members_tree(s: Seq<(String, Json)>)
    ensures
        members_tree(s).len() == s.len(),
        forall|i: int| 0 <= i < s.len() ==> #[trigger] members_tree(s)[i] == (s[i].0@, json_tree(s[i].1)),
    decreases s.len(),
{
    if s.len() > 0 {
        lemma_members_tree(s.drop_last());
    }
}

/// Appending an item appends its shape.
pub proof fn lemma_items_tree_push(s: Seq<Json>, x: Json)
    ensures
        items_tree(s.push(x)) == items_tree(s).push(json_tree(x)),
{
    assert(s.push(x).drop_last() =~= s);
}

/// Appending a member appends it with its shape.
pub proof fn lemma_members_tree_push(s: Seq<(String, Json)>, e: (String, Json))
    ensures
        members_tree(s.push(e)) == members_tree(s).push((e.0@, json_tree(e.1))),
{
    assert(s.push(e).drop_last() =~= s);
}

/// Overwriting an item overwrites its shape.
pub proof fn lemma_items_tree_update(s: Seq<Json>, i: int, x: Json)
    requires
        0 <= i < s.len(),
    ensures
        items_tree(s.update(i, x)) == items_tree(s).update(i, json_tree(x)),
{
    lemma_items_tree(s);
    lemma_items_tree(s.update(i, x));
    assert(items_tree(s.update(i, x)) =~= items_tree(s).update(i, json_tree(x)));
}

/// Overwriting a member overwrites it in the shapes.
pub proof fn lemma_members_tree_update(s: Seq<(String, Json)>, i: int, e: (String, Json))
    requires
        0 <= i < s.len(),
    ensures
        members_tree(s.update(i, e)) == members_tree(s).update(i, (e.0@, json_tree(e.1))),
{
    lemma_members_tree(s);
    lemma_members_tree(s.update(i, e));
    assert(members_tree(s.update(i, e)) =~= members_tree(s).update(i, (e.0@, json_tree(e.1))));
}

/// The index of the last member with key `k`, or -1 when none has it.
pub open spec fn last_key_index(s: Seq<(Seq<char>, JsonTree)>, k: Seq<char>) -> int
    decreases s.len(),
{
    if s.len() == 0 {
        -1
    } else if s.last().0 == k {
        s.len() - 1
    } else {
        last_key_index(s.drop_last(), k)
    }
}

proof fn lemma_last_key_index(t: Seq<(Seq<char>, JsonTree)>, k: Seq<char>)
    ensures
        -1 <= last_key_index(t, k) < t.len(),
        last_key_index(t, k) >= 0 ==> t[last_key_index(t, k)].0 == k,
        forall|q: int| last_key_index(t, k) < q < t.len() ==> #[trigger] t[q].0 != k,
    decreases t.len(),
{
    if t.len() > 0 && t.last().0 != k {
        lemma_last_key_index(t.drop_last(), k);
        let p = last_key_index(t, k);
        if p >= 0 {
            assert(t[p] == t.drop_last()[p]);
        }
        assert forall|q: int| p < q < t.len() implies #[trigger] t[q].0 != k by {
            if q < t.len() - 1 {
                assert(t[q] == t.drop_last()[q]);
            }
        }
    }
}

/// The last member with a key, found by `find_member`, is the one
/// `last_key_index` names.
pub proof fn lemma_last_key_members(s: Seq<(String, Json)>, k: Seq<char>)
    ensures
        forall|p: int| is_last_key(s, p, k) ==> last_key_index(members_tree(s), k) == p,
        (forall|i: int| 0 <= i < s.len() ==> #[trigger] s[i].0@ != k) ==> last_key_index(members_tree(s), k)
            == -1,
{
    lemma_members_tree(s);
    let t = members_tree(s);
    lemma_last_key_index(t, k);
    let r = last_key_index(t, k);
    assert forall|p: int| is_last_key(s, p, k) implies last_key_index(t, k) == p by {
        assert(t[p].0 == s[p].0@);
        if r > p {
            assert(t[r].0 == s[r].0@);
        }
    }
    if forall|i: int| 0 <= i < s.len() ==> #[trigger] s[i].0@ != k {
        if r >= 0 {
            assert(t[r].0 == s[r].0@);
        }
    }
}

} // verus!
