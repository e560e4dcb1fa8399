//! The storage side of the bot: the database name derived from the bot's
//! name, and how a write of one document is planned (which filter, which
//! operation, and what becomes of the `_id` field).

use vstd::prelude::*;
use crate::text::{chars_of, push_char};

verus! {

/// `bson::Bson`, carried through as an opaque value.
#[verifier::external_type_specification]
#[verifier::external_body]
pub struct ExBson(bson::Bson);

/// A copy of a BSON value (`Bson::clone`).
///
/// Trusted: `Bson` derives `Clone`, which copies the value; the contract
/// claims the copy is the same value.
#[verifier::external_body]
fn clone_bson(b: &bson::Bson) -> (r: bson::Bson)
    ensures
        r == *b,
{
    b.clone()
}

/// The lowercase form of a string, as `str::to_lowercase` computes it from
/// the Unicode tables.
pub uninterp spec fn lowercase(s: Seq<char>) -> Seq<char>;

/// `str::to_lowercase`.
///
/// Trusted: the result is named `lowercase` of the argument; as the
/// lowercase equivalent of the text it holds no ASCII capital letter, and
/// text made only of lowercase ASCII letters, digits and `_` (which have no
/// other lowercase form) comes back unchanged. Nothing more about the
/// Unicode case mapping is claimed.
#[verifier::external_body]
fn to_lowercase(s: &str) -> (r: String)
    ensures
        r@ == lowercase(s@),
        forall|i: int| 0 <= i < r@.len() ==> !('A' <= #[trigger] r@[i] <= 'Z'),
        safe_db_chars(s@) ==> r@ == s@,
{
    s.to_lowercase()
}

/// A character that may stay in a database name: ASCII letter, digit or `_`.
pub open spec fn db_name_char(c: char) -> bool {
    ('a' <= c <= 'z') || ('A' <= c <= 'Z') || ('0' <= c <= '9') || c == '_'
}

/// The characters of `s` that may stay in a database name, in order.
pub open spec fn keep_db_chars(s: Seq<char>) -> Seq<char>
    decreases s.len(),
{
    if s.len() == 0 {
        s
    } else if db_name_char(s.last()) {
        keep_db_chars(s.drop_last()).push(s.last())
    } else {
        keep_db_chars(s.drop_last())
    }
}

/// The longest database name MongoDB accepts here.
pub const MAX_DB_NAME_LEN: usize = 63;

/// A database name made from already lowercased text: the allowed
/// characters, at most 63 of them.
pub open spec fn db_name_from(lowered: Seq<char>) -> Seq<char> {
    let k = keep_db_chars(lowered);
    if k.len() > 63 { k.take(63) } else { k }
}

/// Keeps the characters of `lowered` that may stay in a database name and
/// cuts the result to 63 characters.
pub fn sanitize_database_name(lowered: &str) -> (r: String)
    ensures
        r@ == db_name_from(lowered@),
{
    let cs = chars_of(lowered);
    let mut out = String::new();
    let mut kept: usize = 0;
    let mut i: usize = 0;
    while i < cs.len()
        invariant
            i <= cs.len(),
            cs@ == lowered@,
            kept as nat == keep_db_chars(cs@.take(i as int)).len() || kept == MAX_DB_NAME_LEN,
            kept <= MAX_DB_NAME_LEN,
            out@ == db_name_from(cs@.take(i as int)),
            out@.len() == kept,
        decreases cs.len() - i,
    {
        let c = cs[i];
        let ghost prev = cs@.take(i as int);
        assert(cs@.take(i + 1).drop_last() =~= prev);
        assert(cs@.take(i + 1).last() == c);
        let keep = ('a' <= c && c <= 'z') || ('A' <= c && c <= 'Z') || ('0' <= c && c <= '9') || c == '_';
        if keep && kept < MAX_DB_NAME_LEN {
            push_char(&mut out, c);
            kept = kept + 1;
            assert(out@ =~= db_name_from(cs@.take(i + 1)));
        } else if keep {
            let ghost k = keep_db_chars(prev);
            assert(k.len() >= 63);
            assert(keep_db_chars(cs@.take(i + 1)).take(63) =~= k.take(63));
        }
        i = i + 1;
    }
    assert(cs@.take(cs.len() as int) =~= cs@);
    out
}

/// The database name for a bot: its name lowercased, without the characters
/// other than ASCII letters, digits and `_`, cut to 63 characters.
pub fn generate_database_name(bot_name: &str) -> (r: String)
    ensures
        r@ == db_name_from(lowercase(bot_name@)),
        safe_db_name(r@),
        safe_db_name(bot_name@) ==> r@ == bot_name@,
{
    let lowered = to_lowercase(bot_name);
    proof {
        lemma_db_name_safe(lowered@);
        if safe_db_name(bot_name@) {
            law_safe_name_unchanged(bot_name@);
        }
    }
    sanitize_database_name(lowered.as_str())
}


proof fn lemma_keep_db_chars(s: Seq<char>)
    ensures
        keep_db_chars(s).len() <= s.len(),
        forall|i: int| 0 <= i < keep_db_chars(s).len() ==> db_name_char(#[trigger] keep_db_chars(s)[i]),
        forall|i: int| 0 <= i < keep_db_chars(s).len() ==> exists|j: int| 0 <= j < s.len() && s[j] == #[trigger] keep_db_chars(s)[i],
    decreases s.len(),
{
    if s.len() > 0 {
        let t = s.drop_last();
        lemma_keep_db_chars(t);
        let k = keep_db_chars(s);
        assert forall|i: int| 0 <= i < k.len() implies exists|j: int| 0 <= j < s.len() && s[j] == #[trigger] k[i] by {
            if i < keep_db_chars(t).len() {
                assert(k[i] == keep_db_chars(t)[i]);
                let j = choose|j: int| 0 <= j < t.len() && t[j] == keep_db_chars(t)[i];
                assert(s[j] == t[j]);
            } else {
                assert(s[s.len() - 1] == k[i]);
            }
        }
    }
}

/// Every character of `d` is a lowercase ASCII letter, a digit or `_`.
pub open spec fn safe_db_chars(d: Seq<char>) -> bool {
    forall|i: int| 0 <= i < d.len() ==> {
        let c = #[trigger] d[i];
        ('a' <= c <= 'z') || ('0' <= c <= '9') || c == '_'
    }
}

/// A name that MongoDB accepts: at most 63 characters, each a lowercase
/// ASCII letter, a digit or `_`.
pub open spec fn safe_db_name(d: Seq<char>) -> bool {
    &&& d.len() <= 63
    &&& safe_db_chars(d)
}

proof fn lemma_keep_safe_chars(d: Seq<char>)
    requires
        safe_db_chars(d),
    ensures
        keep_db_chars(d) == d,
    decreases d.len(),
{
    if d.len() > 0 {
        let t = d.drop_last();
        assert(safe_db_chars(t)) by {
            assert forall|i: int| 0 <= i < t.len() implies {
                let c = #[trigger] t[i];
                ('a' <= c <= 'z') || ('0' <= c <= '9') || c == '_'
            } by {
                assert(t[i] == d[i]);
            }
        }
        lemma_keep_safe_chars(t);
        let c = d[d.len() - 1];
        assert(('a' <= c <= 'z') || ('0' <= c <= '9') || c == '_');
        assert(t.push(d.last()) =~= d);
    }
}

/// A name that is already safe comes out of the name rules unchanged, so
/// deriving a database name from a derived name gives it back.
pub proof fn law_safe_name_unchanged(d: Seq<char>)
    requires
        safe_db_name(d),
    ensures
        db_name_from(d) == d,
{
    lemma_keep_safe_chars(d);
}

proof fn lemma_db_name_safe(l: Seq<char>)
    requires
        forall|i: int| 0 <= i < l.len() ==> !('A' <= #[trigger] l[i] <= 'Z'),
    ensures
        safe_db_name(db_name_from(l)),
{
    lemma_keep_db_chars(l);
    let k = keep_db_chars(l);
    let d = db_name_from(l);
    assert forall|i: int| 0 <= i < d.len() implies {
        let c = #[trigger] d[i];
        ('a' <= c <= 'z') || ('0' <= c <= '9') || c == '_'
    } by {
        assert(d[i] == k[i]);
        let j = choose|j: int| 0 <= j < l.len() && l[j] == k[i];
        assert(!('A' <= l[j] <= 'Z'));
    }
}

/// How a document is written: replaced as a whole, or patched field by
/// field (`$set`).
#[derive(Debug, Clone, Copy, PartialEq, Eq, Structural)]
pub enum SetMode {
    Replace,
    Patch,
}

/// A BSON document as its fields in order.
pub type BsonDoc = Vec<(String, bson::Bson)>;

/// The view of a document: keys as character sequences, values as they are.
pub open spec fn doc_view(d: Seq<(String, bson::Bson)>) -> Seq<(Seq<char>, bson::Bson)> {
    d.map_values(|e: (String, bson::Bson)| (e.0@, e.1))
}

/// The view of an optional document.
pub open spec fn opt_doc_view(d: Option<BsonDoc>) -> Option<Seq<(Seq<char>, bson::Bson)>> {
    match d {
        Some(f) => Some(doc_view(f@)),
        None => None,
    }
}

/// The key of document ids.
pub open spec fn id_key() -> Seq<char> {
    "_id"@
}

/// The position of the first field of `d` named `k`, if any.
pub open spec fn field_pos(d: Seq<(Seq<char>, bson::Bson)>, k: Seq<char>) -> Option<int>
    decreases d.len(),
{
    if d.len() == 0 {
        None
    } else {
        match field_pos(d.drop_last(), k) {
            Some(i) => Some(i),
            None => if d.last().0 == k { Some(d.len() - 1) } else { None },
        }
    }
}

/// The value of the field named `k`, if any.
pub open spec fn field_value(d: Seq<(Seq<char>, bson::Bson)>, k: Seq<char>) -> Option<bson::Bson> {
    match field_pos(d, k) {
        Some(i) => Some(d[i].1),
        None => None,
    }
}

/// `d` without its field named `k` (the others keep their order).
pub open spec fn without_field(d: Seq<(Seq<char>, bson::Bson)>, k: Seq<char>) -> Seq<(Seq<char>, bson::Bson)> {
    match field_pos(d, k) {
        Some(i) => d.remove(i),
        None => d,
    }
}

/// The filter of a write: the one given, or else `{ _id: … }` taken from the
/// document when it has an id; none means the document is inserted.
pub open spec fn write_filter(
    id_filter: Option<Seq<(Seq<char>, bson::Bson)>>,
    payload: Seq<(Seq<char>, bson::Bson)>,
) -> Option<Seq<(Seq<char>, bson::Bson)>> {
    match id_filter {
        Some(f) => Some(f),
        None => match field_value(payload, id_key()) {
            Some(b) => Some(seq![(id_key(), b)]),
            None => None,
        },
    }
}

/// A planned write of one document.
pub enum SetPlan {
    /// `update_one(filter, { $set: fields })` with upsert.
    UpdateOne { filter: BsonDoc, fields: BsonDoc },
    /// `replace_one(filter, document)` with upsert.
    ReplaceOne { filter: BsonDoc, document: BsonDoc },
    /// `insert_one(document)`.
    InsertOne { document: BsonDoc },
}

/// The view of a planned write: the operation (0 update, 1 replace,
/// 2 insert), its filter if it has one, and the document or fields it
/// writes.
pub open spec fn plan_view(p: SetPlan) -> (int, Option<Seq<(Seq<char>, bson::Bson)>>, Seq<(Seq<char>, bson::Bson)>) {
    match p {
        SetPlan::UpdateOne { filter, fields } => (0, Some(doc_view(filter@)), doc_view(fields@)),
        SetPlan::ReplaceOne { filter, document } => (1, Some(doc_view(filter@)), doc_view(document@)),
        SetPlan::InsertOne { document } => (2, None, doc_view(document@)),
    }
}

/// What a write does. A patch drops the document's `_id` and updates the
/// filtered document with the remaining fields, or inserts them when there
/// is no filter. A replacement copies the filter's `_id` into a document
/// that has none, then replaces the filtered document, or inserts.
pub open spec fn set_plan_spec(
    mode: SetMode,
    id_filter: Option<Seq<(Seq<char>, bson::Bson)>>,
    payload: Seq<(Seq<char>, bson::Bson)>,
) -> (int, Option<Seq<(Seq<char>, bson::Bson)>>, Seq<(Seq<char>, bson::Bson)>) {
    let filter = write_filter(id_filter, payload);
    match mode {
        SetMode::Patch => {
            let fields = without_field(payload, id_key());
            match filter {
                Some(f) => (0, Some(f), fields),
                None => (2, None, fields),
            }
        },
        SetMode::Replace => {
            let doc = match filter {
                Some(f) => match field_value(f, id_key()) {
                    Some(id) => if field_value(payload, id_key()) is None {
                        payload.push((id_key(), id))
                    } else {
                        payload
                    },
                    None => payload,
                },
                None => payload,
            };
            match filter {
                Some(f) => (1, Some(f), doc),
                None => (2, None, doc),
            }
        },
    }
}

proof fn lemma_field_pos(d: Seq<(Seq<char>, bson::Bson)>, k: Seq<char>)
    ensures
        match field_pos(d, k) {
            Some(i) => 0 <= i < d.len() && d[i].0 == k && forall|j: int| 0 <= j < i ==> #[trigger] d[j].0 != k,
            None => forall|j: int| 0 <= j < d.len() ==> #[trigger] d[j].0 != k,
        },
    decreases d.len(),
{
    if d.len() > 0 {
        lemma_field_pos(d.drop_last(), k);
        match field_pos(d.drop_last(), k) {
            Some(i) => {
                assert(d[i] == d.drop_last()[i]);
                assert forall|j: int| 0 <= j < i implies #[trigger] d[j].0 != k by {
                    assert(d[j] == d.drop_last()[j]);
                }
            },
            None => {
                assert forall|j: int| 0 <= j < d.len() - 1 implies #[trigger] d[j].0 != k by {
                    assert(d[j] == d.drop_last()[j]);
                }
            },
        }
    }
}

/// The first field of `d` named `k`, if any.
fn find_field(d: &BsonDoc, k: &str) -> (r: Option<usize>)
    ensures
        r matches Some(i) ==> field_pos(doc_view(d@), k@) == Some(i as int) && i < d@.len(),
        r is None ==> field_pos(doc_view(d@), k@) is None,
{
    let ghost v = doc_view(d@);
    proof {
        lemma_field_pos(v, k@);
    }
    let key = String::from_str(k);
    let mut i: usize = 0;
    while i < d.len()
        invariant
            i <= d.len(),
            v == doc_view(d@),
            key@ == k@,
            forall|j: int| 0 <= j < i ==> #[trigger] v[j].0 != k@,
        decreases d.len() - i,
    {
        assert(v[i as int].0 == d@[i as int].0@);
        if d[i].0 == key {
            assert(v[i as int].0 == k@);
            proof {
                lemma_field_pos(v, k@);
            }
            return Some(i);
        }
        i = i + 1;
    }
    None
}

/// Plans the write of `payload`: picks the filter (the one given, or one on
/// the document's own `_id`), then the operation and the document it
/// writes, as `set_plan_spec` states.
pub fn plan_set(mode: SetMode, id_filter: Option<BsonDoc>, payload: BsonDoc) -> (r: SetPlan)
    ensures
        plan_view(r) == set_plan_spec(mode, opt_doc_view(id_filter), doc_view(payload@)),
{
    let ghost fv = opt_doc_view(id_filter);
    let ghost pv = doc_view(payload@);
    let mut payload = payload;
    let payload_id = find_field(&payload, "_id");
    let filter: Option<BsonDoc> = match id_filter {
        Some(f) => Some(f),
        None => match payload_id {
            Some(i) => {
                let b = clone_bson(&payload[i].1);
                let mut f: BsonDoc = Vec::new();
                f.push((String::from_str("_id"), b));
                assert(doc_view(f@) =~= seq![(id_key(), b)]);
                Some(f)
            },
            None => None,
        },
    };
    assert(opt_doc_view(filter) == write_filter(fv, pv));
    match mode {
        SetMode::Patch => {
            match payload_id {
                Some(i) => {
                    payload.remove(i);
                    assert(doc_view(payload@) =~= pv.remove(i as int));
                },
                None => {},
            }
            match filter {
                Some(f) => SetPlan::UpdateOne { filter: f, fields: payload },
                None => SetPlan::InsertOne { document: payload },
            }
        },
        SetMode::Replace => {
            match filter {
                Some(f) => {
                    match find_field(&f, "_id") {
                        Some(j) => {
                            if payload_id.is_none() {
                                let id = clone_bson(&f[j].1);
                                let ghost before = payload@;
                                payload.push((String::from_str("_id"), id));
                                assert(doc_view(payload@) =~= doc_view(before).push((id_key(), id)));
                            }
                        },
                        None => {},
                    }
                    SetPlan::ReplaceOne { filter: f, document: payload }
                },
                None => SetPlan::InsertOne { document: payload },
            }
        },
    }
}

/// Which document a write targets, whatever the mode: a given filter is
/// used as it is; without one, a document with an `_id` is written against
/// the filter `{ _id: that id }` (its first `_id` field), never inserted;
/// only a document with neither a filter nor an `_id` is inserted. A patch
/// is an update and a replacement a replace whenever there is a filter.
pub proof fn law_write_target(
    mode: SetMode,
    id_filter: Option<Seq<(Seq<char>, bson::Bson)>>,
    payload: Seq<(Seq<char>, bson::Bson)>,
)
    ensures
        ({
            let r = set_plan_spec(mode, id_filter, payload);
            &&& id_filter matches Some(f) ==> r.1 == Some(f)
            &&& forall|i: int|
                0 <= i < payload.len() && id_filter is None && (#[trigger] payload[i]).0 == "_id"@ && (forall|j: int|
                    0 <= j < i ==> payload[j].0 != "_id"@) ==> r.1 == Some(seq![("_id"@, payload[i].1)])
            &&& (id_filter is None && forall|i: int| 0 <= i < payload.len() ==> (#[trigger] payload[i]).0 != "_id"@)
                ==> r.0 == 2 && r.1 is None
            &&& r.1 is Some ==> r.0 == (if mode == SetMode::Patch { 0int } else { 1int })
        }),
{
    lemma_field_pos(payload, id_key());
    reveal_strlit("_id");
    let r = set_plan_spec(mode, id_filter, payload);
    assert forall|i: int|
        0 <= i < payload.len() && id_filter is None && (#[trigger] payload[i]).0 == "_id"@ && (forall|j: int|
            0 <= j < i ==> payload[j].0 != "_id"@) implies r.1 == Some(seq![("_id"@, payload[i].1)]) by {
        match field_pos(payload, id_key()) {
            Some(p) => {
                if p < i {
                    assert(payload[p].0 != "_id"@);
                }
                if p > i {
                    assert(payload[i].0 != id_key());
                }
            },
            None => {
                assert(payload[i].0 != id_key());
            },
        }
    }
}

/// What a write stores: a patch writes the document's fields without its
/// (first) `_id`; a replacement writes the document as it is, except that a
/// document without `_id` receives the filter's `_id` when the filter has
/// one.
pub proof fn law_written_document(
    mode: SetMode,
    id_filter: Option<Seq<(Seq<char>, bson::Bson)>>,
    payload: Seq<(Seq<char>, bson::Bson)>,
)
    ensures
        ({
            let r = set_plan_spec(mode, id_filter, payload);
            let no_id = forall|i: int| 0 <= i < payload.len() ==> (#[trigger] payload[i]).0 != "_id"@;
            &&& mode == SetMode::Patch && no_id ==> r.2 == payload
            &&& forall|i: int|
                0 <= i < payload.len() && mode == SetMode::Patch && (#[trigger] payload[i]).0 == "_id"@ && (forall|j: int|
                    0 <= j < i ==> payload[j].0 != "_id"@) ==> r.2 == payload.remove(i)
            &&& mode == SetMode::Replace && !no_id ==> r.2 == payload
            &&& forall|f: Seq<(Seq<char>, bson::Bson)>, k: int|
                mode == SetMode::Replace && no_id && id_filter == Some(f) && 0 <= k < f.len() && (#[trigger] f[k]).0
                    == "_id"@ && (forall|j: int| 0 <= j < k ==> f[j].0 != "_id"@) ==> r.2 == payload.push(
                    ("_id"@, f[k].1),
                )
            &&& mode == SetMode::Replace && no_id && (id_filter is None || forall|k: int|
                0 <= k < id_filter->0.len() ==> (#[trigger] id_filter->0[k]).0 != "_id"@) ==> r.2 == payload
        }),
{
    lemma_field_pos(payload, id_key());
    reveal_strlit("_id");
    match id_filter {
        Some(f) => {
            lemma_field_pos(f, id_key());
        },
        None => {},
    }
    let r = set_plan_spec(mode, id_filter, payload);
    let no_id = forall|i: int| 0 <= i < payload.len() ==> (#[trigger] payload[i]).0 != "_id"@;
    assert forall|i: int|
        0 <= i < payload.len() && mode == SetMode::Patch && (#[trigger] payload[i]).0 == "_id"@ && (forall|j: int|
            0 <= j < i ==> payload[j].0 != "_id"@) implies r.2 == payload.remove(i) by {
        match field_pos(payload, id_key()) {
            Some(p) => {
                if p < i {
                    assert(payload[p].0 != "_id"@);
                }
                if p > i {
                    assert(payload[i].0 != id_key());
                }
            },
            None => {
                assert(payload[i].0 != id_key());
            },
        }
    }
    if mode == SetMode::Replace && !no_id {
        let i = choose|i: int| 0 <= i < payload.len() && (#[trigger] payload[i]).0 == "_id"@;
        assert(field_pos(payload, id_key()) is Some);
    }
    assert forall|f: Seq<(Seq<char>, bson::Bson)>, k: int|
        mode == SetMode::Replace && no_id && id_filter == Some(f) && 0 <= k < f.len() && (#[trigger] f[k]).0
            == "_id"@ && (forall|j: int| 0 <= j < k ==> f[j].0 != "_id"@) implies r.2 == payload.push(
            ("_id"@, f[k].1),
        ) by {
        assert(field_pos(payload, id_key()) is None);
        match field_pos(f, id_key()) {
            Some(p) => {
                if p < k {
                    assert(f[p].0 != "_id"@);
                }
                if p > k {
                    assert(f[k].0 != id_key());
                }
            },
            None => {
                assert(f[k].0 != id_key());
            },
        }
    }
}

/// What a write did.
pub enum SetOutcome {
    /// A document was inserted, with this id.
    Inserted { id: bson::Bson },
    /// An existing document was updated; `modified_count` may be zero when
    /// nothing changed.
    Updated { modified_count: u64 },
}

/// The outcome of an upserting update or replacement: an insert when the
/// server reports an upserted id, an update otherwise.
pub fn upsert_outcome(upserted_id: Option<bson::Bson>, modified_count: u64) -> (r: SetOutcome)
    ensures
        match upserted_id {
            Some(id) => r == SetOutcome::Inserted { id },
            None => r == SetOutcome::Updated { modified_count },
        },
{
    match upserted_id {
        Some(id) => SetOutcome::Inserted { id },
        None => SetOutcome::Updated { modified_count },
    }
}

} // verus!
