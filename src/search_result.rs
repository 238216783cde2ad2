//! Search results of the document store: a reply lists, for each hit, its
//! fields as a flat sequence of names and values.

use vstd::prelude::*;
use crate::text::{strings_view, trim, trimmed};

verus! {

#[verifier::external_type_specification]
#[verifier::external_body]
pub struct ExRedisValue(redis::Value);

/// One search hit.
pub struct RedisearchResult {
    pub id: String,
    pub stub: Option<String>,
    pub title: String,
    pub url: String,
    pub body: String,
    pub description: Option<String>,
    pub tags: Option<Vec<String>>,
}

/// The mathematical content of a `RedisearchResult`.
pub struct RedisearchResultView {
    pub id: Seq<char>,
    pub stub: Option<Seq<char>>,
    pub title: Seq<char>,
    pub url: Seq<char>,
    pub body: Seq<char>,
    pub description: Option<Seq<char>>,
    pub tags: Option<Seq<Seq<char>>>,
}

impl View for RedisearchResult {
    type V = RedisearchResultView;

    open spec fn view(&self) -> RedisearchResultView {
        RedisearchResultView {
            id: self.id@,
            stub: match self.stub {
                Some(s) => Some(s@),
                None => None,
            },
            title: self.title@,
            url: self.url@,
            body: self.body@,
            description: match self.description {
                Some(s) => Some(s@),
                None => None,
            },
            tags: match self.tags {
                Some(t) => Some(strings_view(t@)),
                None => None,
            },
        }
    }
}

/// The value that follows the last occurrence of `key` among the first `n`
/// entries of `vs`; an occurrence in the last entry has no value.
pub open spec fn last_value_before(vs: Seq<Seq<char>>, key: Seq<char>, n: int) -> Option<Seq<char>>
    decreases n,
{
    if n <= 0 {
        None
    } else if n < vs.len() && vs[n - 1] == key {
        Some(vs[n])
    } else {
        last_value_before(vs, key, n - 1)
    }
}

/// The value of field `key` in the flat list `vs` of names and values: the
/// one after the last occurrence of the name.
pub open spec fn field_value(vs: Seq<Seq<char>>, key: Seq<char>) -> Option<Seq<char>> {
    last_value_before(vs, key, vs.len() as int)
}

/// The text of a field, empty where the field is missing.
pub open spec fn text_or_empty(v: Option<Seq<char>>) -> Seq<char> {
    match v {
        Some(s) => s,
        None => seq![],
    }
}

/// The pieces of `s` between the occurrences of `c`.
pub open spec fn split_on(s: Seq<char>, c: char) -> Seq<Seq<char>>
    decreases s.len(),
{
    if s.len() == 0 {
        seq![seq![]]
    } else if s[0] == c {
        seq![seq![]] + split_on(s.drop_first(), c)
    } else {
        let r = split_on(s.drop_first(), c);
        r.update(0, seq![s[0]] + r[0])
    }
}

/// The tags of a comma separated list, each trimmed.
pub open spec fn tags_of(s: Seq<char>) -> Seq<Seq<char>> {
    split_on(s, ',').map_values(|t: Seq<char>| trimmed(t))
}

/// The search hit that the flat list `vs` of names and values describes:
/// fields that are missing are empty, and so are the tags but for one empty
/// tag.
pub open spec fn result_of_fields(vs: Seq<Seq<char>>) -> RedisearchResultView {
    RedisearchResultView {
        id: text_or_empty(field_value(vs, "id"@)),
        stub: Some(text_or_empty(field_value(vs, "stub"@))),
        title: text_or_empty(field_value(vs, "title"@)),
        url: text_or_empty(field_value(vs, "url"@)),
        body: text_or_empty(field_value(vs, "body"@)),
        description: Some(text_or_empty(field_value(vs, "description"@))),
        tags: Some(
            match field_value(vs, "tags"@) {
                Some(t) => tags_of(t),
                None => seq![seq![]],
            },
        ),
    }
}

/// Relies on `str::split` with a `char` pattern: the pieces of `s` between
/// the occurrences of `c`.
#[verifier::external_body]
fn split_char(s: &str, c: char) -> (r: Vec<String>)
    ensures
        strings_view(r@) == split_on(s@, c),
{
    s.split(c).map(String::from).collect()
}

/// Relies on matching `redis::Value::Bulk`: the items of a bulk reply.
#[verifier::external_body]
fn bulk_items(v: &redis::Value) -> (r: Option<&Vec<redis::Value>>) {
    match v {
        redis::Value::Bulk(items) => Some(items),
        _ => None,
    }
}

/// Relies on `redis::from_redis_value` into `Vec<String>`: the strings of a
/// reply, where it converts.
#[verifier::external_body]
fn reply_strings(v: &redis::Value) -> (r: Option<Vec<String>>) {
    redis::from_redis_value(v).ok()
}

/// The value after the last occurrence of `key` in `values`.
fn last_value(values: &Vec<String>, key: &str) -> (r: Option<String>)
    ensures
        match r {
            Some(s) => field_value(strings_view(values@), key@) == Some(s@),
            None => field_value(strings_view(values@), key@) is None,
        },
{
    let ghost vs = strings_view(values@);
    let k = key.to_owned();
    let mut n: usize = values.len();
    while n > 0
        invariant
            n <= values@.len(),
            vs == strings_view(values@),
            k@ == key@,
            field_value(vs, key@) == last_value_before(vs, key@, n as int),
        decreases n,
    {
        if n < values.len() && values[n - 1] == k {
            return Some(values[n].clone());
        }
        n = n - 1;
    }
    None
}

/// The text of field `key` in `values`, empty where it is missing.
fn field_text(values: &Vec<String>, key: &str) -> (r: String)
    ensures
        r@ == text_or_empty(field_value(strings_view(values@), key@)),
{
    match last_value(values, key) {
        Some(s) => s,
        None => String::new(),
    }
}

/// The trimmed pieces of the comma separated list `s`.
fn tag_list(s: &String) -> (r: Vec<String>)
    ensures
        strings_view(r@) == tags_of(s@),
{
    let parts = split_char(s.as_str(), ',');
    let mut out: Vec<String> = Vec::new();
    let mut i: usize = 0;
    while i < parts.len()
        invariant
            0 <= i <= parts@.len(),
            strings_view(out@) == strings_view(parts@).subrange(0, i as int).map_values(
                |t: Seq<char>| trimmed(t),
            ),
        decreases parts@.len() - i,
    {
        let t = trim(parts[i].as_str());
        let ghost before = strings_view(out@);
        let ghost tv = t@;
        out.push(t);
        proof {
            assert(strings_view(out@) =~= before.push(tv));
            assert(strings_view(parts@)[i as int] == parts@[i as int]@);
            assert(strings_view(out@) =~= strings_view(parts@).subrange(0, i + 1).map_values(
                |t: Seq<char>| trimmed(t),
            ));
        }
        i = i + 1;
    }
    proof {
        assert(strings_view(parts@).subrange(0, parts@.len() as int) =~= strings_view(parts@));
    }
    out
}

impl RedisearchResult {
    /// The search hit that the flat list `values` of names and values
    /// describes. A name in the last place has no value and is passed over.
    pub fn from_field_values(values: &Vec<String>) -> (r: RedisearchResult)
        ensures
            r@ == result_of_fields(strings_view(values@)),
    {
        let tags = match last_value(values, "tags") {
            Some(t) => tag_list(&t),
            None => {
                let mut one = Vec::new();
                one.push(String::new());
                proof {
                    assert(strings_view(one@) =~= seq![Seq::<char>::empty()]);
                }
                one
            },
        };
        RedisearchResult {
            id: field_text(values, "id"),
            stub: Some(field_text(values, "stub")),
            title: field_text(values, "title"),
            url: field_text(values, "url"),
            body: field_text(values, "body"),
            description: Some(field_text(values, "description")),
            tags: Some(tags),
        }
    }
}

/// The views of the hits `r`.
pub open spec fn hits_view(r: Seq<RedisearchResult>) -> Seq<RedisearchResultView> {
    r.map_values(|h: RedisearchResult| h@)
}

/// The views of reply items: each one the list of strings of a hit, or
/// `None` for an item that is not one.
pub open spec fn items_view(v: Seq<Option<Vec<String>>>) -> Seq<Option<Seq<Seq<char>>>> {
    v.map_values(
        |o: Option<Vec<String>>|
            match o {
                Some(fields) => Some(strings_view(fields@)),
                None => None,
            },
    )
}

/// The hits of the items `items`, in order: one for each list of names and
/// values, none for the other items.
pub open spec fn hits_of(items: Seq<Option<Seq<Seq<char>>>>) -> Seq<RedisearchResultView>
    decreases items.len(),
{
    if items.len() == 0 {
        seq![]
    } else {
        let rest = hits_of(items.drop_last());
        match items.last() {
            Some(vs) => rest.push(result_of_fields(vs)),
            None => rest,
        }
    }
}

/// The hits of the items of a search reply, in order. The first item is the
/// count of hits and is passed over; an item that is not a list of names and
/// values gives no hit.
pub fn parse_reply_items(items: &Vec<Option<Vec<String>>>) -> (r: Vec<RedisearchResult>)
    ensures
        hits_view(r@) == (if items@.len() == 0 {
            Seq::<RedisearchResultView>::empty()
        } else {
            hits_of(items_view(items@).drop_first())
        }),
{
    let mut results: Vec<RedisearchResult> = Vec::new();
    if items.len() == 0 {
        proof {
            assert(hits_view(results@) =~= Seq::<RedisearchResultView>::empty());
        }
        return results;
    }
    let ghost iv = items_view(items@);
    let mut i: usize = 1;
    proof {
        assert(iv.subrange(1, 1).len() == 0);
        assert(hits_view(results@) =~= hits_of(iv.subrange(1, 1)));
    }
    while i < items.len()
        invariant
            1 <= i <= items@.len(),
            iv == items_view(items@),
            hits_view(results@) == hits_of(iv.subrange(1, i as int)),
        decreases items@.len() - i,
    {
        proof {
            assert(iv.subrange(1, i + 1).drop_last() =~= iv.subrange(1, i as int));
            assert(iv.subrange(1, i + 1).last() == iv[i as int]);
        }
        match &items[i] {
            Some(fields) => {
                let hit = RedisearchResult::from_field_values(fields);
                let ghost before = hits_view(results@);
                results.push(hit);
                proof {
                    assert(hits_view(results@) =~= before.push(result_of_fields(strings_view(fields@))));
                }
            },
            None => {},
        }
        i = i + 1;
    }
    proof {
        assert(iv.subrange(1, items@.len() as int) =~= iv.drop_first());
    }
    results
}

/// The hits of a search reply: a bulk reply whose first item is the count,
/// followed by one bulk item of names and values for each hit. Items that
/// are not such lists are passed over, and a reply that is not bulk has no
/// hits. What the items hold is the outside value's own; the hits are those
/// of `parse_reply_items` on the lists read from them.
pub fn parse_redisearch_response(response: &redis::Value) -> (r: Vec<RedisearchResult>)
    ensures
        exists|items: Seq<Option<Seq<Seq<char>>>>| hits_view(r@) == hits_of(items),
{
    let mut entries: Vec<Option<Vec<String>>> = Vec::new();
    if let Some(items) = bulk_items(response) {
        let mut i: usize = 0;
        while i < items.len()
            decreases items@.len() - i,
        {
            let entry = if bulk_items(&items[i]).is_some() {
                reply_strings(&items[i])
            } else {
                None
            };
            entries.push(entry);
            i = i + 1;
        }
    }
    let r = parse_reply_items(&entries);
    proof {
        if entries@.len() == 0 {
            assert(hits_view(r@) == hits_of(Seq::<Option<Seq<Seq<char>>>>::empty()));
        } else {
            assert(hits_view(r@) == hits_of(items_view(entries@).drop_first()));
        }
    }
    r
}

} // verus!
