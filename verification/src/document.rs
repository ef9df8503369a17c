//! TOML documents, as far as a configuration reads them.

use toml::{Table, Value};
use vstd::prelude::*;

verus! {

/// A map of `toml`, which holds the entries of a TOML table.
#[verifier::external_type_specification]
#[verifier::external_body]
#[verifier::reject_recursive_types(K)]
#[verifier::reject_recursive_types(V)]
pub struct ExTable<K, V>(toml::map::Map<K, V>);

/// A TOML value.
#[verifier::external_type_specification]
#[verifier::external_body]
pub struct ExValue(toml::Value);

/// Why a text is no TOML document.
#[verifier::external_type_specification]
#[verifier::external_body]
pub struct ExParseError(toml::de::Error);

/// What a TOML value holds. An integer, a float or a boolean is `Plain`, in the
/// notation that `toml` writes it in.
pub enum Tree {
    Text(Seq<char>),
    Plain(Seq<char>),
    Date,
    List(Seq<Tree>),
    Table(Seq<(Seq<char>, Tree)>),
}

/// What a table holds: its keys and values in their order.
pub uninterp spec fn contents(table: Table) -> Seq<(Seq<char>, Tree)>;

/// What a value holds.
pub uninterp spec fn tree(value: Value) -> Tree;

/// What the table that a text denotes holds, where it denotes one.
pub uninterp spec fn document(text: Seq<char>) -> Option<Seq<(Seq<char>, Tree)>>;

/// Where a key first stands.
pub open spec fn place(entries: Seq<(Seq<char>, Tree)>, key: Seq<char>) -> Option<int>
    decreases entries.len(),
{
    if entries.len() == 0 {
        None
    } else {
        match place(entries.drop_last(), key) {
            Some(i) => Some(i),
            None => if entries.last().0 == key {
                Some(entries.len() - 1)
            } else {
                None
            },
        }
    }
}

/// What stands at a key.
pub open spec fn lookup(entries: Seq<(Seq<char>, Tree)>, key: Seq<char>) -> Option<Tree> {
    match place(entries, key) {
        Some(i) => Some(entries[i].1),
        None => None,
    }
}

/// The entries without the one at a key; the others keep their order.
pub open spec fn without(entries: Seq<(Seq<char>, Tree)>, key: Seq<char>) -> Seq<
    (Seq<char>, Tree),
> {
    match place(entries, key) {
        Some(i) => entries.remove(i),
        None => entries,
    }
}

/// The entries with a value at a key: in the place of the key where it is
/// there already, else at the end.
pub open spec fn with(entries: Seq<(Seq<char>, Tree)>, key: Seq<char>, value: Tree) -> Seq<
    (Seq<char>, Tree),
> {
    match place(entries, key) {
        Some(i) => entries.update(i, (key, value)),
        None => entries.push((key, value)),
    }
}

/// The entries with all of another table's put in, one after the other.
pub open spec fn extended(
    entries: Seq<(Seq<char>, Tree)>,
    more: Seq<(Seq<char>, Tree)>,
) -> Seq<(Seq<char>, Tree)>
    decreases more.len(),
{
    if more.len() == 0 {
        entries
    } else {
        with(extended(entries, more.drop_last()), more.last().0, more.last().1)
    }
}

/// Whether no key stands twice.
pub open spec fn distinct(entries: Seq<(Seq<char>, Tree)>) -> bool {
    forall|i: int, j: int|
        0 <= i < j < entries.len() ==> (#[trigger] entries[i]).0 != (#[trigger] entries[j]).0
}

/// Whether no key stands twice, neither in the table itself nor in any table
/// inside it.
pub open spec fn keyed(entries: Seq<(Seq<char>, Tree)>) -> bool
    decreases entries,
{
    &&& distinct(entries)
    &&& forall|i: int| 0 <= i < entries.len() ==> keyed_inside((#[trigger] entries[i]).1)
}

/// Whether no key stands twice in any table of a value.
pub open spec fn keyed_inside(value: Tree) -> bool
    decreases value,
{
    match value {
        Tree::List(items) => forall|i: int|
            0 <= i < items.len() ==> keyed_inside(#[trigger] items[i]),
        Tree::Table(entries) => keyed(entries),
        _ => true,
    }
}

/// `str::parse` into a `toml::Table` depends on the text alone. A table is a
/// map, and so is every table inside it: none holds a key twice.
#[verifier::external_body]
pub(crate) fn parse(text: &str) -> (result: Result<Table, toml::de::Error>)
    ensures
        match result {
            Ok(table) => document(text@) == Some(contents(table)) && keyed(contents(table)),
            Err(_) => document(text@) is None,
        },
{
    text.parse::<Table>()
}

/// `toml::Table::new` makes an empty table.
#[verifier::external_body]
pub(crate) fn empty() -> (table: Table)
    ensures
        contents(table) == Seq::<(Seq<char>, Tree)>::empty(),
{
    Table::new()
}

/// `toml::Table::clone` copies the entries in their order.
#[verifier::external_body]
pub(crate) fn copy(table: &Table) -> (copy: Table)
    ensures
        contents(copy) == contents(*table),
{
    table.clone()
}

/// `toml::Table::get` finds the value at a key.
#[verifier::external_body]
pub(crate) fn get<'a>(table: &'a Table, key: &str) -> (value: Option<&'a Value>)
    ensures
        match value {
            Some(value) => lookup(contents(*table), key@) == Some(tree(*value)),
            None => lookup(contents(*table), key@) is None,
        },
{
    table.get(key)
}

/// `toml::Table::remove` takes the value at a key out, and leaves the other
/// entries in their order.
#[verifier::external_body]
pub(crate) fn remove(table: &mut Table, key: &str) -> (value: Option<Value>)
    ensures
        contents(*final(table)) == without(contents(*old(table)), key@),
        match value {
            Some(value) => lookup(contents(*old(table)), key@) == Some(tree(value)),
            None => lookup(contents(*old(table)), key@) is None,
        },
{
    table.remove(key)
}

/// `toml::Table::insert` puts a value at a key, here a table.
#[verifier::external_body]
pub(crate) fn insert(table: &mut Table, key: &str, value: Table)
    ensures
        contents(*final(table)) == with(
            contents(*old(table)),
            key@,
            Tree::Table(contents(value)),
        ),
{
    table.insert(key.to_owned(), Value::Table(value));
}

/// `toml::Table::extend` puts the entries of another table in, in their order.
#[verifier::external_body]
pub(crate) fn extend(table: &mut Table, more: Table)
    ensures
        contents(*final(table)) == extended(contents(*old(table)), contents(more)),
{
    table.extend(more);
}

/// `toml::Table::iter` goes through the entries in their order.
#[verifier::external_body]
pub(crate) fn entries<'a>(table: &'a Table) -> (entries: Vec<(&'a String, &'a Value)>)
    ensures
        entries@.len() == contents(*table).len(),
        forall|i: int|
            0 <= i < entries@.len() ==> contents(*table)[i] == (
                (#[trigger] entries@[i]).0@,
                tree(*entries@[i].1),
            ),
{
    table.iter().collect()
}

/// What a TOML value is.
pub enum Exposed<'a> {
    Text(&'a String),
    Plain(&'a Value),
    Date,
    List(&'a Vec<Value>),
    Table(&'a Table),
}

/// Tells the variants of `toml::Value` apart.
#[verifier::external_body]
pub(crate) fn expose<'a>(value: &'a Value) -> (exposed: Exposed<'a>)
    ensures
        match exposed {
            Exposed::Text(text) => tree(*value) == Tree::Text(text@),
            Exposed::Plain(same) => same == value && tree(*value) is Plain,
            Exposed::Date => tree(*value) is Date,
            Exposed::List(values) => tree(*value) == Tree::List(
                values@.map_values(|item: Value| tree(item)),
            ),
            Exposed::Table(table) => tree(*value) == Tree::Table(contents(*table)),
        },
{
    match value {
        Value::String(text) => Exposed::Text(text),
        Value::Integer(_) => Exposed::Plain(value),
        Value::Float(_) => Exposed::Plain(value),
        Value::Boolean(_) => Exposed::Plain(value),
        Value::Datetime(_) => Exposed::Date,
        Value::Array(values) => Exposed::List(values),
        Value::Table(table) => Exposed::Table(table),
    }
}

/// `toml::Value::to_string` writes an integer, a float or a boolean in TOML.
#[verifier::external_body]
pub(crate) fn notation(value: &Value) -> (text: String)
    requires
        tree(*value) is Plain,
    ensures
        tree(*value) == Tree::Plain(text@),
{
    value.to_string()
}

proof fn place_is_first(entries: Seq<(Seq<char>, Tree)>, key: Seq<char>)
    ensures
        match place(entries, key) {
            Some(i) => {
                &&& 0 <= i < entries.len()
                &&& entries[i].0 == key
                &&& forall|j: int| 0 <= j < i ==> (#[trigger] entries[j]).0 != key
            },
            None => forall|j: int| 0 <= j < entries.len() ==> (#[trigger] entries[j]).0 != key,
        },
    decreases entries.len(),
{
    if entries.len() > 0 {
        let before = entries.drop_last();
        place_is_first(before, key);
        assert forall|j: int| 0 <= j < before.len() implies entries[j] == before[j] by {}
        if place(before, key) is None {
            assert forall|j: int| 0 <= j < entries.len() - 1 implies (#[trigger] entries[j]).0
                != key by {
                assert(before[j].0 != key);
            }
        } else {
            let i = place(before, key)->0;
            assert forall|j: int| 0 <= j < i implies (#[trigger] entries[j]).0 != key by {
                assert(before[j].0 != key);
            }
        }
    }
}

/// Putting a value at a key changes what stands there, and nothing else.
pub proof fn with_changes_one_key(
    entries: Seq<(Seq<char>, Tree)>,
    key: Seq<char>,
    value: Tree,
    other: Seq<char>,
)
    ensures
        lookup(with(entries, key, value), other) == if other == key {
            Some(value)
        } else {
            lookup(entries, other)
        },
{
    let changed = with(entries, key, value);
    place_is_first(entries, key);
    place_is_first(entries, other);
    place_is_first(changed, other);
    match place(entries, key) {
        Some(i) => {
            assert forall|j: int| 0 <= j < entries.len() implies (#[trigger] changed[j]).0
                == entries[j].0 by {}
            if let Some(k) = place(entries, other) {
                assert(changed[k].0 == other);
            }
            if let Some(k) = place(changed, other) {
                assert(entries[k].0 == other);
            }
        },
        None => {
            assert(changed[entries.len() as int] == (key, value));
            if let Some(k) = place(entries, other) {
                assert(changed[k] == entries[k]);
            }
            if let Some(k) = place(changed, other) {
                if k < entries.len() {
                    assert(entries[k] == changed[k]);
                }
            }
        },
    }
}

/// Putting a value at a key leaves every key in one place.
pub proof fn with_keeps_distinct(entries: Seq<(Seq<char>, Tree)>, key: Seq<char>, value: Tree)
    requires
        distinct(entries),
    ensures
        distinct(with(entries, key, value)),
{
    let changed = with(entries, key, value);
    place_is_first(entries, key);
    assert forall|i: int, j: int| 0 <= i < j < changed.len() implies (#[trigger] changed[i]).0 != (
    #[trigger] changed[j]).0 by {
        if j < entries.len() {
            assert(changed[i].0 == entries[i].0);
            assert(changed[j].0 == entries[j].0);
        } else {
            assert(changed[i].0 == entries[i].0);
        }
    }
}

/// Where a table is put into another, every key still has one place.
pub proof fn extended_keeps_distinct(
    entries: Seq<(Seq<char>, Tree)>,
    more: Seq<(Seq<char>, Tree)>,
)
    requires
        distinct(entries),
    ensures
        distinct(extended(entries, more)),
    decreases more.len(),
{
    if more.len() > 0 {
        extended_keeps_distinct(entries, more.drop_last());
        with_keeps_distinct(extended(entries, more.drop_last()), more.last().0, more.last().1);
    }
}

/// Where a table is put into another, its own values win, and what it does not
/// set stays.
pub proof fn own_values_win(
    entries: Seq<(Seq<char>, Tree)>,
    own: Seq<(Seq<char>, Tree)>,
    key: Seq<char>,
)
    requires
        distinct(own),
    ensures
        lookup(extended(entries, own), key) == match lookup(own, key) {
            Some(value) => Some(value),
            None => lookup(entries, key),
        },
    decreases own.len(),
{
    if own.len() > 0 {
        let before = own.drop_last();
        assert forall|i: int, j: int| 0 <= i < j < before.len() implies (#[trigger] before[i]).0
            != (#[trigger] before[j]).0 by {
            assert(own[i].0 != own[j].0);
        }
        own_values_win(entries, before, key);
        with_changes_one_key(extended(entries, before), own.last().0, own.last().1, key);
        place_is_first(before, key);
        if let Some(i) = place(before, key) {
            assert(own[i] == before[i]);
            assert(own[i].0 != own[own.len() - 1].0);
        }
    }
}

/// What stands at a key of a keyed table is keyed.
pub proof fn lookup_is_keyed(entries: Seq<(Seq<char>, Tree)>, key: Seq<char>)
    requires
        keyed(entries),
    ensures
        lookup(entries, key) matches Some(value) ==> keyed_inside(value),
{
    place_is_first(entries, key);
}

/// Taking a key out leaves a table keyed.
pub proof fn without_keeps_keyed(entries: Seq<(Seq<char>, Tree)>, key: Seq<char>)
    requires
        keyed(entries),
    ensures
        keyed(without(entries, key)),
{
    place_is_first(entries, key);
    if let Some(k) = place(entries, key) {
        let rest = without(entries, key);
        let from = |i: int|
            if i < k {
                i
            } else {
                i + 1
            };
        assert forall|i: int| 0 <= i < rest.len() implies #[trigger] rest[i] == entries[from(i)] by {
        }
        assert forall|i: int, j: int| 0 <= i < j < rest.len() implies (#[trigger] rest[i]).0 != (
        #[trigger] rest[j]).0 by {
            assert(entries[from(i)].0 != entries[from(j)].0);
        }
        assert forall|i: int| 0 <= i < rest.len() implies keyed_inside((#[trigger] rest[i]).1) by {
            assert(keyed_inside(entries[from(i)].1));
        }
    }
}

/// Taking a key out changes what stands there, and nothing else.
pub proof fn without_changes_one_key(
    entries: Seq<(Seq<char>, Tree)>,
    key: Seq<char>,
    other: Seq<char>,
)
    ensures
        other != key ==> lookup(without(entries, key), other) == lookup(entries, other),
        distinct(entries) ==> lookup(without(entries, key), key) is None,
{
    place_is_first(entries, key);
    place_is_first(entries, other);
    let rest = without(entries, key);
    place_is_first(rest, other);
    place_is_first(rest, key);
    if let Some(k) = place(entries, key) {
        let from = |i: int|
            if i < k {
                i
            } else {
                i + 1
            };
        assert forall|i: int| 0 <= i < rest.len() implies #[trigger] rest[i] == entries[from(i)] by {
        }
        if other != key {
            if let Some(i) = place(entries, other) {
                let to = if i < k {
                    i
                } else {
                    i - 1
                };
                assert(rest[to] == entries[i]);
                let found = place(rest, other)->0;
                assert(entries[from(found)].0 == other);
                assert(found <= to);
                assert(from(found) >= i);
            } else if let Some(found) = place(rest, other) {
                assert(entries[from(found)].0 == other);
            }
        }
        if distinct(entries) {
            if let Some(found) = place(rest, key) {
                assert(entries[from(found)].0 == key);
                if found < k {
                    assert(entries[found].0 != entries[k].0);
                } else {
                    assert(entries[k].0 != entries[found + 1].0);
                }
            }
        }
    }
}

/// In a table that holds each key once, what stands at a key is the value of its
/// entry.
pub proof fn entries_are_looked_up(entries: Seq<(Seq<char>, Tree)>, i: int)
    requires
        distinct(entries),
        0 <= i < entries.len(),
    ensures
        lookup(entries, entries[i].0) == Some(entries[i].1),
{
    place_is_first(entries, entries[i].0);
    let found = place(entries, entries[i].0)->0;
    if found < i {
        assert(entries[found].0 != entries[i].0);
    }
}

/// What is looked up stands in an entry.
pub proof fn lookups_are_entries(entries: Seq<(Seq<char>, Tree)>, key: Seq<char>) -> (i: int)
    requires
        lookup(entries, key) is Some,
    ensures
        0 <= i < entries.len(),
        entries[i] == (key, lookup(entries, key)->0),
{
    place_is_first(entries, key);
    place(entries, key)->0
}

/// Putting another table in leaves the entries where they are, under their
/// values or under new ones; what was not there yet follows in the other
/// table's order.
pub proof fn extending_keeps_places(entries: Seq<(Seq<char>, Tree)>, more: Seq<(Seq<char>, Tree)>)
    ensures
        extended(entries, more).len() >= entries.len(),
        forall|i: int|
            0 <= i < entries.len() ==> (#[trigger] extended(entries, more)[i]).0 == entries[i].0,
        forall|i: int|
            entries.len() <= i < extended(entries, more).len() ==> lookup(
                entries,
                (#[trigger] extended(entries, more)[i]).0,
            ) is None && exists|p: int|
                0 <= p < more.len() && (#[trigger] more[p]).0 == extended(entries, more)[i].0,
        forall|i: int, j: int|
            entries.len() <= i < j < extended(entries, more).len() ==> (
            #[trigger] extended(entries, more)[i]).0 == extended(entries, more)[i].0 && (
            #[trigger] extended(entries, more)[j]).0 == extended(entries, more)[j].0 && exists|
                p: int,
                q: int,
            |
                {
                    &&& 0 <= p < q < more.len()
                    &&& (#[trigger] more[p]).0 == extended(entries, more)[i].0
                    &&& (#[trigger] more[q]).0 == extended(entries, more)[j].0
                },
    decreases more.len(),
{
    if more.len() > 0 {
        let before = more.drop_last();
        let last = more.last();
        let shorter = extended(entries, before);
        let longer = extended(entries, more);
        extending_keeps_places(entries, before);
        place_is_first(shorter, last.0);
        place_is_first(entries, last.0);
        assert(more[more.len() - 1] == last);
        assert forall|i: int| 0 <= i < shorter.len() implies (#[trigger] longer[i]).0
            == shorter[i].0 by {}
        if place(shorter, last.0) is None {
            if let Some(k) = place(entries, last.0) {
                assert(shorter[k].0 == entries[k].0);
            }
        }
        assert forall|i: int| entries.len() <= i < longer.len() implies lookup(
            entries,
            (#[trigger] longer[i]).0,
        ) is None && exists|p: int| 0 <= p < more.len() && (#[trigger] more[p]).0
            == longer[i].0 by {
            if i < shorter.len() {
                assert(shorter[i].0 == longer[i].0);
                let p = choose|p: int|
                    0 <= p < before.len() && (#[trigger] before[p]).0 == shorter[i].0;
                assert(more[p].0 == longer[i].0);
            }
        }
        assert forall|i: int, j: int| entries.len() <= i < j < longer.len() implies (
        #[trigger] longer[i]).0 == longer[i].0 && (#[trigger] longer[j]).0 == longer[j].0
            && exists|p: int, q: int|
            {
                &&& 0 <= p < q < more.len()
                &&& (#[trigger] more[p]).0 == longer[i].0
                &&& (#[trigger] more[q]).0 == longer[j].0
            } by {
            assert(shorter[i].0 == longer[i].0);
            if j < shorter.len() {
                assert(shorter[j].0 == longer[j].0);
                let (p, q) = choose|p: int, q: int|
                    {
                        &&& 0 <= p < q < before.len()
                        &&& (#[trigger] before[p]).0 == shorter[i].0
                        &&& (#[trigger] before[q]).0 == shorter[j].0
                    };
                assert(more[p].0 == longer[i].0 && more[q].0 == longer[j].0);
            } else {
                let p = choose|p: int|
                    0 <= p < before.len() && (#[trigger] before[p]).0 == shorter[i].0;
                assert(more[p].0 == longer[i].0);
                assert(more[more.len() - 1].0 == longer[j].0);
            }
        }
    }
}

/// Taking a key out leaves the others in their order.
pub proof fn without_keeps_places(
    entries: Seq<(Seq<char>, Tree)>,
    key: Seq<char>,
    i: int,
    j: int,
) -> (places: (int, int))
    requires
        0 <= i < j < without(entries, key).len(),
    ensures
        0 <= places.0 < places.1 < entries.len(),
        entries[places.0] == without(entries, key)[i],
        entries[places.1] == without(entries, key)[j],
{
    place_is_first(entries, key);
    match place(entries, key) {
        Some(k) => (
            if i < k {
                i
            } else {
                i + 1
            },
            if j < k {
                j
            } else {
                j + 1
            },
        ),
        None => (i, j),
    }
}

/// Putting a value at a key that is there leaves all keys in their places.
pub proof fn with_keeps_places(entries: Seq<(Seq<char>, Tree)>, key: Seq<char>, value: Tree, i: int)
    requires
        lookup(entries, key) is Some,
    ensures
        with(entries, key, value).len() == entries.len(),
        0 <= i < entries.len() ==> with(entries, key, value)[i].0 == entries[i].0,
{
    place_is_first(entries, key);
}

} // verus!
