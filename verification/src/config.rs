//! The configuration that says where files go, and what a lookup in it gives.
//!
//! A configuration is a tree: an object maps folder names to rules, an array
//! tries its rules in turn; a text that is an item of an array is a file
//! extension, and any other text is a regular expression for the file name.

use vstd::prelude::*;
use crate::matching::{regex_compiles, regex_is_match, str_to_uppercase};
use crate::path::{name_extension, last_dot};

verus! {

/// One node of the configuration, in the order the configuration lists it.
#[derive(Debug)]
pub enum ConfigNode {
    /// Rules tried one after the other.
    Array(Vec<ConfigNode>),
    /// Folder names with the rules for each, in order.
    Object(Vec<(String, ConfigNode)>),
    /// An extension where it is an item of an array, otherwise a regular
    /// expression for the file name.
    Text(String),
    /// Any other value (null, a boolean, a number): it routes nothing.
    Other,
}

/// The outcome of looking a file up in the configuration.
pub enum Lookup {
    /// The file goes to this path, relative to the home directory.
    Found(Seq<char>),
    /// No rule routes the file.
    Missing,
    /// A rule that was tried could not be applied: the file has no name, or
    /// the rule is not a valid regular expression.
    Fails,
}

/// `prefix/key`, or `key` alone when the prefix is empty.
pub open spec fn folder_path(prefix: Seq<char>, key: Seq<char>) -> Seq<char> {
    if prefix.len() == 0 {
        key
    } else {
        prefix + seq!['/'] + key
    }
}

/// The extension of `name` in upper case, or the upper case of the empty text.
pub open spec fn upper_extension(name: Seq<char>) -> Seq<char> {
    match name_extension(name) {
        Some(e) => str_to_uppercase(e),
        None => str_to_uppercase(Seq::empty()),
    }
}

/// Whether the text rule `rule` takes the file called `name`. A rule that is
/// an item of a list is a file extension: it takes the file when both are
/// equal in upper case. Any other rule is a regular expression: it takes the
/// file when it matches the name.
pub open spec fn text_rule_takes(rule: Seq<char>, name: Seq<char>, in_list: bool) -> bool {
    if in_list {
        str_to_uppercase(rule) == upper_extension(name)
    } else {
        regex_is_match(rule, name)
    }
}

/// A text rule: it needs the file's name, and, as a regular expression, to
/// be a valid one.
pub open spec fn lookup_text(rule: Seq<char>, name: Option<Seq<char>>, prefix: Seq<char>, in_list: bool) -> Lookup {
    match name {
        None => Lookup::Fails,
        Some(n) => if !in_list && !regex_compiles(rule) {
            Lookup::Fails
        } else if text_rule_takes(rule, n, in_list) {
            Lookup::Found(prefix + seq!['/'] + n)
        } else {
            Lookup::Missing
        },
    }
}

/// Looks the file called `name` up in the whole configuration `node`, under
/// the folder path `prefix`.
pub open spec fn lookup(node: ConfigNode, name: Option<Seq<char>>, prefix: Seq<char>) -> Lookup {
    lookup_node(node, name, prefix, false)
}

/// Looks the file called `name` up in `node`, under the folder path `prefix`;
/// `in_list` tells whether `node` is an item of a list. The first rule in
/// order that routes the file wins, and a failing rule stops the search.
pub open spec fn lookup_node(node: ConfigNode, name: Option<Seq<char>>, prefix: Seq<char>, in_list: bool) -> Lookup
    decreases node,
{
    match node {
        ConfigNode::Array(items) => lookup_items(items@, name, prefix),
        ConfigNode::Object(entries) => lookup_entries(entries@, name, prefix),
        ConfigNode::Text(rule) => lookup_text(rule@, name, prefix, in_list),
        ConfigNode::Other => Lookup::Missing,
    }
}

/// The items of a list, tried in order.
pub open spec fn lookup_items(items: Seq<ConfigNode>, name: Option<Seq<char>>, prefix: Seq<char>) -> Lookup
    decreases items,
{
    if items.len() == 0 {
        Lookup::Missing
    } else {
        match lookup_node(items[0], name, prefix, true) {
            Lookup::Missing => lookup_items(items.drop_first(), name, prefix),
            other => other,
        }
    }
}

/// The folders of an object, tried in order, each under its own folder path.
pub open spec fn lookup_entries(
    entries: Seq<(String, ConfigNode)>,
    name: Option<Seq<char>>,
    prefix: Seq<char>,
) -> Lookup
    decreases entries,
{
    if entries.len() == 0 {
        Lookup::Missing
    } else {
        match lookup_node(entries[0].1, name, folder_path(prefix, entries[0].0@), false) {
            Lookup::Missing => lookup_entries(entries.drop_first(), name, prefix),
            other => other,
        }
    }
}


/// A found route is always some folder path, a `/`, and the file's name.
pub proof fn lemma_found_route_ends_with_name(node: ConfigNode, name: Seq<char>, prefix: Seq<char>, in_list: bool)
    ensures
        lookup_node(node, Some(name), prefix, in_list) matches Lookup::Found(rel) ==> exists|q: Seq<char>|
            rel == #[trigger] (q + seq!['/'] + name),
    decreases node,
{
    match node {
        ConfigNode::Array(items) => lemma_found_items(items@, name, prefix),
        ConfigNode::Object(entries) => lemma_found_entries(entries@, name, prefix),
        ConfigNode::Text(rule) => {
            if lookup_node(node, Some(name), prefix, in_list) is Found {
                assert(prefix + seq!['/'] + name == prefix + seq!['/'] + name);
            }
        },
        ConfigNode::Other => {},
    }
}

proof fn lemma_found_items(items: Seq<ConfigNode>, name: Seq<char>, prefix: Seq<char>)
    ensures
        lookup_items(items, Some(name), prefix) matches Lookup::Found(rel) ==> exists|q: Seq<char>|
            rel == #[trigger] (q + seq!['/'] + name),
    decreases items,
{
    if items.len() > 0 {
        lemma_found_route_ends_with_name(items[0], name, prefix, true);
        lemma_found_items(items.drop_first(), name, prefix);
    }
}

proof fn lemma_found_entries(entries: Seq<(String, ConfigNode)>, name: Seq<char>, prefix: Seq<char>)
    ensures
        lookup_entries(entries, Some(name), prefix) matches Lookup::Found(rel) ==> exists|q: Seq<char>|
            rel == #[trigger] (q + seq!['/'] + name),
    decreases entries,
{
    if entries.len() > 0 {
        lemma_found_route_ends_with_name(entries[0].1, name, folder_path(prefix, entries[0].0@), false);
        lemma_found_entries(entries.drop_first(), name, prefix);
    }
}


proof fn lemma_last_dot_after(x: Seq<char>, e: Seq<char>)
    requires
        !e.contains('.'),
    ensures
        last_dot(x + seq!['.'] + e) == x.len(),
    decreases e.len(),
{
    let s = x + seq!['.'] + e;
    if e.len() == 0 {
        assert(s.last() == '.');
    } else {
        let e0 = e.drop_last();
        assert(!e0.contains('.')) by {
            assert forall|j: int| 0 <= j < e0.len() implies e0[j] != '.' by {
                assert(e0[j] == e[j]);
            }
        }
        lemma_last_dot_after(x, e0);
        assert(s.drop_last() =~= x + seq!['.'] + e0);
        assert(s.last() == e[e.len() - 1]);
    }
}

proof fn lemma_last_dot_at_most_front(s: Seq<char>)
    requires
        forall|j: int| 0 < j < s.len() ==> s[j] != '.',
    ensures
        last_dot(s) <= 0,
    decreases s.len(),
{
    if s.len() > 1 {
        let s0 = s.drop_last();
        assert forall|j: int| 0 < j < s0.len() implies s0[j] != '.' by {
            assert(s0[j] == s[j]);
        }
        lemma_last_dot_at_most_front(s0);
        assert(s.last() == s[s.len() - 1]);
    } else if s.len() == 1 {
        assert(s.drop_last() =~= Seq::<char>::empty());
        assert(last_dot(Seq::<char>::empty()) == -1);
        assert(last_dot(s.drop_last()) == -1);
    }
}

/// Law: a rule that is an item of a list takes a file exactly by its
/// extension, the text after the name's last dot: for the name `x.e`, with
/// `x` not empty and no dot in `e`, the rule routes the file when the rule
/// and `e` are equal in upper case, and otherwise does not route it.
pub proof fn law_list_item_is_an_extension(rule: String, x: Seq<char>, e: Seq<char>, prefix: Seq<char>)
    requires
        x.len() > 0,
        !e.contains('.'),
    ensures
        lookup_node(ConfigNode::Text(rule), Some(x + seq!['.'] + e), prefix, true) == if str_to_uppercase(rule@)
            == str_to_uppercase(e) {
            Lookup::Found(prefix + seq!['/'] + (x + seq!['.'] + e))
        } else {
            Lookup::Missing
        },
{
    let name = x + seq!['.'] + e;
    lemma_last_dot_after(x, e);
    assert(name.subrange(x.len() as int + 1, name.len() as int) =~= e);
    assert(name_extension(name) == Some(e));
}

/// Law: a list item takes a file whose name has no dot after its first
/// character (no extension) exactly when the rule is, in upper case, the
/// upper case of the empty text.
pub proof fn law_list_item_without_extension(rule: String, name: Seq<char>, prefix: Seq<char>)
    requires
        forall|j: int| 0 < j < name.len() ==> name[j] != '.',
    ensures
        lookup_node(ConfigNode::Text(rule), Some(name), prefix, true) == if str_to_uppercase(rule@)
            == str_to_uppercase(Seq::empty()) {
            Lookup::Found(prefix + seq!['/'] + name)
        } else {
            Lookup::Missing
        },
{
    lemma_last_dot_at_most_front(name);
    assert(name_extension(name) is None);
}

} // verus!
