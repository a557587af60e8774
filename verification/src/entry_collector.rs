//! Collecting the entries of a directory, routing each file to the folder the
//! configuration gives it, and listing the folders those routes pass through.

use vstd::prelude::*;
use vstd::string::*;
use crate::config::{lemma_found_route_ends_with_name, ConfigNode, Lookup, lookup, lookup_node, lookup_items, lookup_entries, folder_path, upper_extension};
use crate::path_tree::{PathTree, path_models, home_prefixes, home_dir_prefixes, sort_by_depth, sorted_by_depth, build_tree, is_tree_of, law_depth_order_keeps_tree};
use crate::matching::{compile_pattern, pattern_is_match, to_uppercase};
use crate::path::{EntryPath, PathModel, parse_path, path_components, path_file_name, pushed_path, push_path, extension_of, is_component_prefix, path_parent, root_component, well_formed_path, law_joined_name_is_last_component, is_named_piece, has_root};

verus! {

/// A file or folder: where it is now, and where the configuration would put it.
#[derive(Debug)]
pub struct Entry {
    pub current_path: EntryPath,
    pub new_path: Option<EntryPath>,
}

/// What an entry is, seen as components.
pub struct EntryModel {
    pub current: PathModel,
    pub new: Option<PathModel>,
}

pub open spec fn option_path_view(p: Option<EntryPath>) -> Option<PathModel> {
    match p {
        Some(q) => Some(q@),
        None => None,
    }
}

pub open spec fn option_text_view(t: Option<String>) -> Option<Seq<char>> {
    match t {
        Some(s) => Some(s@),
        None => None,
    }
}

impl View for Entry {
    type V = EntryModel;

    open spec fn view(&self) -> EntryModel {
        EntryModel { current: self.current_path@, new: option_path_view(self.new_path) }
    }
}

impl Clone for Entry {
    fn clone(&self) -> (r: Self)
        ensures
            r@ == self@,
    {
        let new_path = match &self.new_path {
            Some(p) => Some(p.clone()),
            None => None,
        };
        Entry { current_path: self.current_path.clone(), new_path }
    }
}

/// A folder that a route passes through, or a routed file.
#[derive(Debug)]
pub enum EntryType {
    Dir(Entry),
    File(Entry),
}

pub enum EntryTypeModel {
    Dir(EntryModel),
    File(EntryModel),
}

impl View for EntryType {
    type V = EntryTypeModel;

    open spec fn view(&self) -> EntryTypeModel {
        match self {
            EntryType::Dir(e) => EntryTypeModel::Dir(e@),
            EntryType::File(e) => EntryTypeModel::File(e@),
        }
    }
}

/// The path an entry stands at in the preview: a folder's own path, a file's
/// destination (none while it has not been routed).
pub open spec fn resolved(e: EntryTypeModel) -> Option<PathModel> {
    match e {
        EntryTypeModel::Dir(d) => Some(d.current),
        EntryTypeModel::File(f) => f.new,
    }
}

impl EntryType {
    /// Returns the path to use for depth and prefix comparisons; none for a
    /// file whose destination has not been resolved yet.
    pub fn resolved_path(&self) -> (r: Option<&EntryPath>)
        ensures
            match r {
                Some(p) => resolved(self@) == Some(p@),
                None => resolved(self@) is None,
            },
    {
        match self {
            EntryType::Dir(path) => Some(&path.current_path),
            EntryType::File(entry) => match &entry.new_path {
                Some(p) => Some(p),
                None => None,
            },
        }
    }

    pub fn is_dir_variant(&self) -> (r: bool)
        ensures
            r == (self@ is Dir),
    {
        match self {
            EntryType::Dir(_) => true,
            EntryType::File(_) => false,
        }
    }
}

/// Where the configuration sends a file that now stands at `current`: the
/// route found under `prefix`, pushed onto the home directory `home`.
pub open spec fn destination(config: ConfigNode, current: PathModel, prefix: Seq<char>, home: Seq<char>) -> Option<PathModel> {
    match lookup(config, path_file_name(current), prefix) {
        Lookup::Found(rel) => Some(path_components(pushed_path(home, rel))),
        _ => None,
    }
}

/// A lookup of the file at `current` can be carried out to its end.
pub open spec fn lookup_succeeds(config: ConfigNode, current: PathModel, prefix: Seq<char>) -> bool {
    !(lookup(config, path_file_name(current), prefix) is Fails)
}

/// Scans a directory against a configuration.
pub struct EntryCollector {
    pub json_config: ConfigNode,
    pub search_path: EntryPath,
    pub files: Option<Vec<EntryType>>,
    pub tree_result: Option<PathTree>,
}

/// `prefix + "/" + tail`
fn join_with_slash(prefix: &String, tail: &String) -> (r: String)
    ensures
        r@ == prefix@ + seq!['/'] + tail@,
{
    let mut s = prefix.clone();
    let slash = String::from_str("/");
    proof {
        reveal_strlit("/");
    }
    s.append(slash.as_str());
    s.append(tail.as_str());
    s
}

/// Looks the file called `name` up in `node` under the folder path `prefix`,
/// `node` being an item of a list where `in_list` says so; `Err` where the
/// search cannot go on.
#[verifier::loop_isolation(false)]
fn find_destination(node: &ConfigNode, name: &Option<String>, prefix: &String, in_list: bool) -> (r: Result<Option<String>, ()>)
    ensures
        match lookup_node(*node, option_text_view(*name), prefix@, in_list) {
            Lookup::Found(rel) => r matches Ok(Some(s)) && s@ == rel,
            Lookup::Missing => r matches Ok(None),
            Lookup::Fails => r is Err,
        },
    decreases node,
{
    match node {
        ConfigNode::Array(items) => {
            let mut i: usize = 0;
            assert(items@.skip(0) =~= items@);
            while i < items.len()
                invariant
                    i <= items@.len(),
                    lookup_items(items@, option_text_view(*name), prefix@) == lookup_items(
                        items@.skip(i as int),
                        option_text_view(*name),
                        prefix@,
                    ),
                decreases items@.len() - i,
            {
                let ghost rest = items@.skip(i as int);
                assert(rest[0] == items@[i as int]);
                assert(rest.drop_first() =~= items@.skip(i + 1));
                assert(decreases_to!(*node => items@[i as int]));
                let found = find_destination(&items[i], name, prefix, true);
                match found {
                    Ok(None) => {},
                    other => {
                        return other;
                    },
                }
                i = i + 1;
            }
            assert(items@.skip(i as int).len() == 0);
            Ok(None)
        },
        ConfigNode::Object(entries) => {
            let mut i: usize = 0;
            assert(entries@.skip(0) =~= entries@);
            while i < entries.len()
                invariant
                    i <= entries@.len(),
                    lookup_entries(entries@, option_text_view(*name), prefix@) == lookup_entries(
                        entries@.skip(i as int),
                        option_text_view(*name),
                        prefix@,
                    ),
                decreases entries@.len() - i,
            {
                let ghost rest = entries@.skip(i as int);
                assert(rest[0] == entries@[i as int]);
                assert(rest.drop_first() =~= entries@.skip(i + 1));
                let key = &entries[i].0;
                let new_prefix = if prefix.as_str().is_empty() {
                    key.clone()
                } else {
                    join_with_slash(prefix, key)
                };
                assert(new_prefix@ == folder_path(prefix@, key@));
                assert(decreases_to!(*node => entries@[i as int].1));
                let found = find_destination(&entries[i].1, name, &new_prefix, false);
                match found {
                    Ok(None) => {},
                    other => {
                        return other;
                    },
                }
                i = i + 1;
            }
            assert(entries@.skip(i as int).len() == 0);
            Ok(None)
        },
        ConfigNode::Text(rule) => {
            match name {
                None => Err(()),
                Some(file_name) => {
                    if in_list {
                        let extension = match extension_of(file_name.as_str()) {
                            Some(e) => to_uppercase(e.as_str()),
                            None => {
                                proof {
                                    reveal_strlit("");
                                }
                                to_uppercase("")
                            },
                        };
                        assert(extension@ == upper_extension(file_name@)) by {
                            reveal_strlit("");
                            assert(""@ =~= Seq::<char>::empty());
                        }
                        let upper_rule = to_uppercase(rule.as_str());
                        if upper_rule == extension {
                            Ok(Some(join_with_slash(prefix, file_name)))
                        } else {
                            Ok(None)
                        }
                    } else {
                        match compile_pattern(rule.as_str()) {
                            None => Err(()),
                            Some(pattern) => {
                                if pattern_is_match(&pattern, file_name.as_str()) {
                                    Ok(Some(join_with_slash(prefix, file_name)))
                                } else {
                                    Ok(None)
                                }
                            },
                        }
                    }
                },
            }
        },
        ConfigNode::Other => Ok(None),
    }
}

impl EntryCollector {
    pub fn new(config: ConfigNode, path: EntryPath) -> (r: EntryCollector)
        ensures
            r.json_config == config,
            r.search_path == path,
            r.files is None,
            r.tree_result is None,
    {
        EntryCollector { json_config: config, search_path: path, files: None, tree_result: None }
    }

    /// The entries of a directory listing: each listed path, made absolute
    /// against the working directory `cwd` where it is relative, not yet routed.
    pub fn get_dir_entries(&self, cwd: &str, listing: &Vec<String>) -> (r: Vec<Entry>)
        ensures
            r@.len() == listing@.len(),
            forall|i: int|
                0 <= i < r@.len() ==> (#[trigger] r@[i])@ == (EntryModel {
                    current: path_components(pushed_path(cwd@, listing@[i]@)),
                    new: None,
                }),
    {
        let mut res: Vec<Entry> = Vec::new();
        let mut i: usize = 0;
        while i < listing.len()
            invariant
                i <= listing@.len(),
                res@.len() == i,
                forall|j: int|
                    0 <= j < i ==> (#[trigger] res@[j])@ == (EntryModel {
                        current: path_components(pushed_path(cwd@, listing@[j]@)),
                        new: None,
                    }),
            decreases listing@.len() - i,
        {
            let abs_path = push_path(cwd, listing[i].as_str());
            let entry = Entry { current_path: parse_path(abs_path.as_str()), new_path: None };
            res.push(entry);
            i = i + 1;
        }
        res
    }

    /// The text of `rel_path` pushed onto the home directory `home`.
    pub fn get_absolute_path(&self, home: &str, rel_path: String) -> (r: Option<String>)
        ensures
            r matches Some(s) && s@ == pushed_path(home@, rel_path@),
    {
        Some(push_path(home, rel_path.as_str()))
    }

    /// Searches the configuration for the folder of `file`, under the folder
    /// path `path`, and gives its destination under the home directory `home`.
    pub fn get_configured_path(&self, config: &ConfigNode, file: &Entry, path: &String, home: &str) -> (r: Option<EntryPath>)
        requires
            lookup_succeeds(*config, file.current_path@, path@),
        ensures
            option_path_view(r) == destination(*config, file.current_path@, path@, home@),
    {
        let name = file.current_path.file_name();
        match find_destination(config, &name, path, false) {
            Ok(Some(rel_path)) => {
                let absolute_path = self.get_absolute_path(home, rel_path);
                match absolute_path {
                    Some(text) => Some(parse_path(text.as_str())),
                    None => None,
                }
            },
            _ => None,
        }
    }
}


/// How many folders a route of `n` components passes through: every proper,
/// non-empty prefix.
pub open spec fn folder_count(n: nat) -> nat {
    if n >= 1 {
        (n - 1) as nat
    } else {
        0
    }
}

/// What one entry adds to the preview, before duplicates are dropped: each
/// folder its destination passes through, from the outermost in, then the
/// entry itself; nothing for an entry without a destination.
pub open spec fn route_candidates(e: EntryModel) -> Seq<EntryTypeModel> {
    match e.new {
        None => Seq::empty(),
        Some(p) => Seq::new(
            folder_count(p.len()),
            |k: int| EntryTypeModel::Dir(EntryModel { current: p.take(k + 1), new: None }),
        ).push(EntryTypeModel::File(e)),
    }
}

/// The candidates of all entries, in order.
pub open spec fn route_stream(es: Seq<EntryModel>) -> Seq<EntryTypeModel>
    decreases es.len(),
{
    if es.len() == 0 {
        Seq::empty()
    } else {
        route_stream(es.drop_last()) + route_candidates(es.last())
    }
}

/// Keeps, for each resolved path, only the first item that stands there.
pub open spec fn first_of_each_path(s: Seq<EntryTypeModel>) -> Seq<EntryTypeModel>
    decreases s.len(),
{
    if s.len() == 0 {
        Seq::empty()
    } else {
        let r = first_of_each_path(s.drop_last());
        if exists|j: int| 0 <= j < r.len() && resolved(r[j]) == resolved(s.last()) {
            r
        } else {
            r.push(s.last())
        }
    }
}

/// The preview of `es`: folders and routed files, each path once.
pub open spec fn preview(es: Seq<EntryModel>) -> Seq<EntryTypeModel> {
    first_of_each_path(route_stream(es))
}

pub open spec fn entry_models(v: Seq<Entry>) -> Seq<EntryModel> {
    v.map_values(|e: Entry| e@)
}

pub open spec fn entry_type_models(v: Seq<EntryType>) -> Seq<EntryTypeModel> {
    v.map_values(|e: EntryType| e@)
}

/// The entries with the destinations the configuration gives them.
pub open spec fn configured(config: ConfigNode, es: Seq<EntryModel>, home: Seq<char>) -> Seq<EntryModel> {
    es.map_values(
        |e: EntryModel|
            EntryModel { current: e.current, new: destination(config, e.current, Seq::empty(), home) },
    )
}

/// Whether `e` stands directly inside the folder `dir`: one component deeper, under it.
pub open spec fn is_direct_content(dir: PathModel, e: EntryTypeModel) -> bool {
    match resolved(e) {
        Some(c) => c.len() == dir.len() + 1 && is_component_prefix(dir, c),
        None => false,
    }
}

pub open spec fn direct_content_of(s: Seq<EntryTypeModel>, dir: PathModel) -> Seq<EntryTypeModel>
    decreases s.len(),
{
    if s.len() == 0 {
        Seq::empty()
    } else {
        let r = direct_content_of(s.drop_last(), dir);
        if is_direct_content(dir, s.last()) {
            r.push(s.last())
        } else {
            r
        }
    }
}

/// The folders among `s`, by path.
pub open spec fn folders_of(s: Seq<EntryTypeModel>) -> Seq<PathModel>
    decreases s.len(),
{
    if s.len() == 0 {
        Seq::empty()
    } else {
        let r = folders_of(s.drop_last());
        match s.last() {
            EntryTypeModel::Dir(d) => r.push(d.current),
            EntryTypeModel::File(_) => r,
        }
    }
}

/// Whether some path of `seen` has the components `p`.
fn contains_path(seen: &Vec<EntryPath>, p: &EntryPath) -> (r: bool)
    ensures
        r == exists|j: int| 0 <= j < seen@.len() && seen@[j]@ == p@,
{
    let mut i: usize = 0;
    while i < seen.len()
        invariant
            i <= seen@.len(),
            forall|j: int| 0 <= j < i ==> seen@[j]@ != p@,
        decreases seen@.len() - i,
    {
        if seen[i].same_path(p) {
            return true;
        }
        i = i + 1;
    }
    false
}

proof fn lemma_first_of_each_step(s: Seq<EntryTypeModel>, x: EntryTypeModel)
    ensures
        first_of_each_path(s.push(x)) == if exists|j: int|
            0 <= j < first_of_each_path(s).len() && resolved(first_of_each_path(s)[j]) == resolved(
                x,
            ) {
            first_of_each_path(s)
        } else {
            first_of_each_path(s).push(x)
        },
{
    assert(s.push(x).drop_last() =~= s);
}

proof fn lemma_stream_step(es: Seq<EntryModel>, i: int)
    requires
        0 <= i < es.len(),
    ensures
        route_stream(es.take(i + 1)) == route_stream(es.take(i)) + route_candidates(es[i]),
{
    assert(es.take(i + 1).drop_last() =~= es.take(i));
}

impl EntryCollector {
    /// Gives every file the destination the configuration assigns it (none
    /// where no rule routes it).
    pub fn set_configured_new_path(&self, files: Vec<Entry>, home: &str) -> (r: Vec<Entry>)
        requires
            forall|i: int|
                0 <= i < files@.len() ==> lookup_succeeds(
                    self.json_config,
                    (#[trigger] files@[i]).current_path@,
                    Seq::empty(),
                ),
        ensures
            entry_models(r@) == configured(self.json_config, entry_models(files@), home@),
    {
        let path = String::new();
        let mut out: Vec<Entry> = Vec::new();
        let mut i: usize = 0;
        while i < files.len()
            invariant
                i <= files@.len(),
                path@ == Seq::<char>::empty(),
                forall|j: int|
                    0 <= j < files@.len() ==> lookup_succeeds(
                        self.json_config,
                        (#[trigger] files@[j]).current_path@,
                        Seq::empty(),
                    ),
                entry_models(out@) == configured(
                    self.json_config,
                    entry_models(files@),
                    home@,
                ).take(i as int),
            decreases files@.len() - i,
        {
            let file = &files[i];
            let new_path = self.get_configured_path(&self.json_config, file, &path, home);
            let updated = Entry { current_path: file.current_path.clone(), new_path };
            let ghost before = out@;
            out.push(updated);
            assert(entry_models(out@) =~= entry_models(before).push(updated@));
            assert(entry_models(out@) =~= configured(
                self.json_config,
                entry_models(files@),
                home@,
            ).take(i + 1));
            i = i + 1;
        }
        assert(configured(self.json_config, entry_models(files@), home@).take(i as int) =~= configured(
            self.json_config,
            entry_models(files@),
            home@,
        ));
        out
    }

    /// Lists, for every routed entry, the folders its destination passes
    /// through (outermost first) and then the entry, each path only once.
    pub fn add_parent_dirs(&self, entries: &Vec<Entry>) -> (r: Vec<EntryType>)
        ensures
            entry_type_models(r@) == preview(entry_models(entries@)),
    {
        let ghost es = entry_models(entries@);
        let mut result: Vec<EntryType> = Vec::new();
        let mut seen: Vec<EntryPath> = Vec::new();
        let mut i: usize = 0;
        assert(es.take(0) =~= Seq::<EntryModel>::empty());
        assert(entry_type_models(result@) =~= Seq::<EntryTypeModel>::empty());
        while i < entries.len()
            invariant
                i <= entries@.len(),
                es == entry_models(entries@),
                entry_type_models(result@) == first_of_each_path(route_stream(es.take(i as int))),
                seen@.len() == result@.len(),
                forall|j: int|
                    0 <= j < seen@.len() ==> resolved(entry_type_models(result@)[j]) == Some(
                        (#[trigger] seen@[j])@,
                    ),
            decreases entries@.len() - i,
        {
            let entry = &entries[i];
            proof {
                lemma_stream_step(es, i as int);
            }
            let ghost base = route_stream(es.take(i as int));
            let ghost cands = route_candidates(es[i as int]);
            assert(es[i as int] == entry@);
            match &entry.new_path {
                None => {
                    assert(base + cands =~= base);
                },
                Some(path) => {
                    let n: usize = path.component_count();
                    let mut k: usize = 0;
                    assert(base + cands.take(0) =~= base);
                    while k + 1 < n
                        invariant
                            n == path@.len(),
                            k <= folder_count(n as nat),
                            cands == route_candidates(entry@),
                            entry@.new == Some(path@),
                            entry_type_models(result@) == first_of_each_path(base + cands.take(k as int)),
                            seen@.len() == result@.len(),
                            forall|j: int|
                                0 <= j < seen@.len() ==> resolved(entry_type_models(result@)[j])
                                    == Some((#[trigger] seen@[j])@),
                        decreases n - k,
                    {
                        let parent = path.prefix(k + 1);
                        let ghost item = EntryTypeModel::Dir(EntryModel { current: path@.take(k + 1), new: None });
                        assert(cands[k as int] == item);
                        assert(base + cands.take(k + 1) =~= (base + cands.take(k as int)).push(item));
                        proof {
                            lemma_first_of_each_step(base + cands.take(k as int), item);
                        }
                        let ghost r0 = entry_type_models(result@);
                        let found = contains_path(&seen, &parent);
                        proof {
                            if found {
                                let j = choose|j: int| 0 <= j < seen@.len() && seen@[j]@ == parent@;
                                assert(resolved(r0[j]) == Some(seen@[j]@));
                                assert(resolved(r0[j]) == resolved(item));
                            } else {
                                assert forall|j: int| 0 <= j < r0.len() implies resolved(r0[j]) != resolved(item) by {
                                    assert(resolved(r0[j]) == Some(seen@[j]@));
                                }
                            }
                        }
                        if !found {
                            let ghost s0 = seen@;
                            seen.push(parent.clone());
                            result.push(EntryType::Dir(Entry { current_path: parent, new_path: None }));
                            assert(entry_type_models(result@) =~= r0.push(item));
                            assert forall|j: int| 0 <= j < seen@.len() implies resolved(entry_type_models(result@)[j]) == Some((#[trigger] seen@[j])@) by {
                                if j < s0.len() {
                                    assert(seen@[j] == s0[j]);
                                    assert(entry_type_models(result@)[j] == r0[j]);
                                }
                            }
                        }
                        k = k + 1;
                    }
                    let ghost item = EntryTypeModel::File(entry@);
                    assert(k == folder_count(n as nat));
                    assert(cands[k as int] == item);
                    assert(base + cands =~= (base + cands.take(k as int)).push(item));
                    proof {
                        lemma_first_of_each_step(base + cands.take(k as int), item);
                    }
                    let ghost r0 = entry_type_models(result@);
                    let found = contains_path(&seen, path);
                    proof {
                        if found {
                            let j = choose|j: int| 0 <= j < seen@.len() && seen@[j]@ == path@;
                            assert(resolved(r0[j]) == Some(seen@[j]@));
                            assert(resolved(r0[j]) == resolved(item));
                        } else {
                            assert forall|j: int| 0 <= j < r0.len() implies resolved(r0[j]) != resolved(item) by {
                                assert(resolved(r0[j]) == Some(seen@[j]@));
                            }
                        }
                    }
                    if !found {
                        let ghost s0 = seen@;
                        seen.push(path.clone());
                        result.push(EntryType::File(entry.clone()));
                        assert(entry_type_models(result@) =~= r0.push(item));
                        assert forall|j: int| 0 <= j < seen@.len() implies resolved(entry_type_models(result@)[j]) == Some((#[trigger] seen@[j])@) by {
                            if j < s0.len() {
                                assert(seen@[j] == s0[j]);
                                assert(entry_type_models(result@)[j] == r0[j]);
                            }
                        }
                    }
                },
            }
            i = i + 1;
        }
        assert(es.take(i as int) =~= es);
        result
    }
}


/// The `k`-component ancestor of the path of item `t`.
pub open spec fn ancestor_at(s: Seq<EntryTypeModel>, t: int, k: int) -> PathModel {
    resolved(s[t])->0.take(k)
}

/// Some item before position `t` stands at path `p`.
pub open spec fn listed_before(s: Seq<EntryTypeModel>, t: int, p: PathModel) -> bool {
    exists|u: int| #![trigger s[u]] 0 <= u < t && resolved(s[u]) == Some(p)
}

/// Every folder that an item's path passes through stands at an earlier item.
pub open spec fn ancestors_listed_before(s: Seq<EntryTypeModel>) -> bool {
    forall|t: int, k: int|
        #![trigger ancestor_at(s, t, k)]
        0 <= t < s.len() && resolved(s[t]) is Some && 1 <= k < resolved(s[t])->0.len()
            ==> listed_before(s, t, ancestor_at(s, t, k))
}

/// No two items stand at the same path.
pub open spec fn paths_distinct(s: Seq<EntryTypeModel>) -> bool {
    forall|i: int, j: int|
        0 <= i < j < s.len() ==> resolved(#[trigger] s[i]) != resolved(#[trigger] s[j])
}

proof fn lemma_first_of_each_keys(s: Seq<EntryTypeModel>)
    ensures
        forall|i: int|
            0 <= i < s.len() ==> exists|j: int|
                0 <= j < first_of_each_path(s).len() && resolved(first_of_each_path(s)[j])
                    == resolved(#[trigger] s[i]),
        forall|j: int|
            0 <= j < first_of_each_path(s).len() ==> exists|i: int|
                0 <= i < s.len() && s[i] == #[trigger] first_of_each_path(s)[j],
    decreases s.len(),
{
    if s.len() > 0 {
        let s0 = s.drop_last();
        lemma_first_of_each_keys(s0);
        let r0 = first_of_each_path(s0);
        let r = first_of_each_path(s);
        assert forall|i: int| 0 <= i < s.len() implies exists|j: int|
            0 <= j < r.len() && resolved(r[j]) == resolved(#[trigger] s[i]) by {
            if i < s.len() - 1 {
                assert(s[i] == s0[i]);
                let j = choose|j: int| 0 <= j < r0.len() && resolved(r0[j]) == resolved(s0[i]);
                assert(r[j] == r0[j]);
            } else {
                if !(exists|j: int| 0 <= j < r0.len() && resolved(r0[j]) == resolved(s.last())) {
                    assert(r[r0.len() as int] == s.last());
                }
            }
        }
        assert forall|j: int| 0 <= j < r.len() implies exists|i: int|
            0 <= i < s.len() && s[i] == #[trigger] r[j] by {
            if j < r0.len() {
                assert(r[j] == r0[j]);
                let i = choose|i: int| 0 <= i < s0.len() && s0[i] == r0[j];
                assert(s[i] == s0[i]);
            } else {
                assert(r[j] == s[s.len() - 1]);
            }
        }
    }
}

proof fn lemma_first_of_each_distinct(s: Seq<EntryTypeModel>)
    ensures
        paths_distinct(first_of_each_path(s)),
    decreases s.len(),
{
    if s.len() > 0 {
        let s0 = s.drop_last();
        lemma_first_of_each_distinct(s0);
        let r0 = first_of_each_path(s0);
        let r = first_of_each_path(s);
        assert forall|i: int, j: int| 0 <= i < j < r.len() implies resolved(#[trigger] r[i])
            != resolved(#[trigger] r[j]) by {
            if j < r0.len() {
                assert(r[i] == r0[i] && r[j] == r0[j]);
            } else {
                assert(r[i] == r0[i]);
                assert(r[j] == s.last());
            }
        }
    }
}

proof fn lemma_first_of_each_keeps_ancestry(s: Seq<EntryTypeModel>)
    requires
        ancestors_listed_before(s),
    ensures
        ancestors_listed_before(first_of_each_path(s)),
    decreases s.len(),
{
    if s.len() > 0 {
        let s0 = s.drop_last();
        assert forall|t: int, k: int|
            #![trigger ancestor_at(s0, t, k)]
            0 <= t < s0.len() && resolved(s0[t]) is Some && 1 <= k < resolved(s0[t])->0.len()
                implies listed_before(s0, t, ancestor_at(s0, t, k)) by {
            assert(s0[t] == s[t]);
            assert(ancestor_at(s0, t, k) == ancestor_at(s, t, k));
            assert(listed_before(s, t, ancestor_at(s, t, k)));
            let u = choose|u: int| 0 <= u < t && resolved(s[u]) == Some(ancestor_at(s, t, k));
            assert(s0[u] == s[u]);
        }
        lemma_first_of_each_keeps_ancestry(s0);
        lemma_first_of_each_keys(s0);
        let r0 = first_of_each_path(s0);
        let r = first_of_each_path(s);
        assert forall|t: int, k: int|
            #![trigger ancestor_at(r, t, k)]
            0 <= t < r.len() && resolved(r[t]) is Some && 1 <= k < resolved(r[t])->0.len()
                implies listed_before(r, t, ancestor_at(r, t, k)) by {
            if t < r0.len() {
                assert(r[t] == r0[t]);
                assert(ancestor_at(r, t, k) == ancestor_at(r0, t, k));
                assert(listed_before(r0, t, ancestor_at(r0, t, k)));
                let u = choose|u: int| 0 <= u < t && resolved(r0[u]) == Some(ancestor_at(r0, t, k));
                assert(r[u] == r0[u]);
            } else {
                let last = s.len() - 1;
                assert(r == r0.push(s.last()));
                assert(r[t] == s[last]);
                assert(ancestor_at(r, t, k) == ancestor_at(s, last, k));
                assert(listed_before(s, last, ancestor_at(s, last, k)));
                let u = choose|u: int| 0 <= u < last && resolved(s[u]) == Some(ancestor_at(s, last, k));
                assert(s0[u] == s[u]);
                let j = choose|j: int| 0 <= j < r0.len() && resolved(r0[j]) == resolved(#[trigger] s0[u]);
                assert(r[j] == r0[j]);
            }
        }
    }
}

proof fn lemma_stream_ancestry(es: Seq<EntryModel>)
    ensures
        ancestors_listed_before(route_stream(es)),
    decreases es.len(),
{
    if es.len() > 0 {
        let es0 = es.drop_last();
        lemma_stream_ancestry(es0);
        let b = route_stream(es0);
        let c = route_candidates(es.last());
        let st = route_stream(es);
        assert(st == b + c);
        assert forall|t: int, k: int|
            #![trigger ancestor_at(st, t, k)]
            0 <= t < st.len() && resolved(st[t]) is Some && 1 <= k < resolved(st[t])->0.len()
                implies listed_before(st, t, ancestor_at(st, t, k)) by {
            if t < b.len() {
                assert(st[t] == b[t]);
                assert(ancestor_at(st, t, k) == ancestor_at(b, t, k));
                assert(listed_before(b, t, ancestor_at(b, t, k)));
                let u = choose|u: int| 0 <= u < t && resolved(b[u]) == Some(ancestor_at(b, t, k));
                assert(st[u] == b[u]);
            } else {
                let m = t - b.len();
                let p = es.last().new->0;
                let fc = folder_count(p.len());
                assert(st[t] == c[m]);
                let u = b.len() + k - 1;
                if m < fc {
                    assert(resolved(c[m]) == Some(p.take(m + 1)));
                    assert(p.take(m + 1).take(k) =~= p.take(k));
                } else {
                    assert(c[m] == EntryTypeModel::File(es.last()));
                }
                assert(c[k - 1] == EntryTypeModel::Dir(EntryModel { current: p.take(k), new: None }));
                assert(st[u] == c[k - 1]);
                assert(resolved(st[u]) == Some(ancestor_at(st, t, k)));
            }
        }
    }
}

proof fn lemma_stream_has_routed_files(es: Seq<EntryModel>, i: int)
    requires
        0 <= i < es.len(),
        es[i].new is Some,
    ensures
        route_stream(es).contains(EntryTypeModel::File(es[i])),
    decreases es.len(),
{
    let es0 = es.drop_last();
    let b = route_stream(es0);
    let c = route_candidates(es.last());
    assert(route_stream(es) == b + c);
    if i < es.len() - 1 {
        assert(es0[i] == es[i]);
        lemma_stream_has_routed_files(es0, i);
        let j = choose|j: int| 0 <= j < b.len() && b[j] == EntryTypeModel::File(es[i]);
        assert((b + c)[j] == b[j]);
    } else {
        let fc = folder_count(es.last().new->0.len());
        assert((b + c)[b.len() + fc as int] == c[fc as int]);
    }
}

proof fn lemma_stream_origin(es: Seq<EntryModel>, t: int)
    requires
        0 <= t < route_stream(es).len(),
    ensures
        exists|i: int| 0 <= i < es.len() && route_candidates(es[i]).contains(route_stream(es)[t]),
    decreases es.len(),
{
    let es0 = es.drop_last();
    let b = route_stream(es0);
    let c = route_candidates(es.last());
    assert(route_stream(es) == b + c);
    if t < b.len() {
        lemma_stream_origin(es0, t);
        let i = choose|i: int| 0 <= i < es0.len() && route_candidates(es0[i]).contains(b[t]);
        assert(es[i] == es0[i]);
        assert((b + c)[t] == b[t]);
    } else {
        assert((b + c)[t] == c[t - b.len()]);
        assert(es[es.len() - 1] == es.last());
    }
}

/// Law: in the preview, no path stands twice, every folder a path passes
/// through is listed before it, and every routed entry's destination is listed.
pub proof fn law_preview_is_ordered_and_complete(es: Seq<EntryModel>)
    ensures
        paths_distinct(preview(es)),
        ancestors_listed_before(preview(es)),
        forall|i: int|
            0 <= i < es.len() && (#[trigger] es[i]).new is Some ==> exists|j: int|
                0 <= j < preview(es).len() && resolved(preview(es)[j]) == es[i].new,
{
    lemma_first_of_each_distinct(route_stream(es));
    lemma_stream_ancestry(es);
    lemma_first_of_each_keeps_ancestry(route_stream(es));
    lemma_first_of_each_keys(route_stream(es));
    assert forall|i: int| 0 <= i < es.len() && (#[trigger] es[i]).new is Some implies exists|j: int|
        0 <= j < preview(es).len() && resolved(preview(es)[j]) == es[i].new by {
        lemma_stream_has_routed_files(es, i);
        let st = route_stream(es);
        let t = choose|t: int| 0 <= t < st.len() && st[t] == EntryTypeModel::File(es[i]);
        assert(resolved(st[t]) == es[i].new);
        let j = choose|j: int| 0 <= j < preview(es).len() && resolved(preview(es)[j]) == resolved(#[trigger] st[t]);
        assert(resolved(preview(es)[j]) == es[i].new);
    }
}

/// Law: every item of the preview is a folder some destination passes through,
/// or a routed entry as it was given.
pub proof fn law_preview_items_come_from_entries(es: Seq<EntryModel>)
    ensures
        forall|j: int|
            0 <= j < preview(es).len() ==> exists|i: int|
                0 <= i < es.len() && route_candidates(es[i]).contains(#[trigger] preview(es)[j]),
{
    lemma_first_of_each_keys(route_stream(es));
    assert forall|j: int| 0 <= j < preview(es).len() implies exists|i: int|
        0 <= i < es.len() && route_candidates(es[i]).contains(#[trigger] preview(es)[j]) by {
        let st = route_stream(es);
        let t = choose|t: int| 0 <= t < st.len() && st[t] == preview(es)[j];
        lemma_stream_origin(es, t);
    }
}


/// The items of `paths` that stand directly inside the folder `dir`, in order.
pub fn direct_content<'a>(paths: &'a Vec<EntryType>, dir: &EntryPath) -> (r: Vec<&'a EntryType>)
    ensures
        r@.map_values(|e: &EntryType| e@) == direct_content_of(entry_type_models(paths@), dir@),
{
    let dir_depth: usize = dir.component_count();
    let mut r: Vec<&'a EntryType> = Vec::new();
    let mut i: usize = 0;
    let ghost s = entry_type_models(paths@);
    assert(s.take(0) =~= Seq::<EntryTypeModel>::empty());
    assert(r@.map_values(|e: &EntryType| e@) =~= Seq::<EntryTypeModel>::empty());
    while i < paths.len()
        invariant
            i <= paths@.len(),
            s == entry_type_models(paths@),
            dir_depth == dir@.len(),
            r@.map_values(|e: &EntryType| e@) == direct_content_of(s.take(i as int), dir@),
        decreases paths@.len() - i,
    {
        let item = &paths[i];
        assert(s.take(i + 1).drop_last() =~= s.take(i as int));
        assert(s.take(i + 1).last() == item@);
        let inside = match item.resolved_path() {
            Some(c) => {
                let n: usize = c.component_count();
                n > 0 && n - 1 == dir_depth && c.starts_with(dir)
            },
            None => false,
        };
        assert(inside == is_direct_content(dir@, item@));
        let ghost before = r@;
        if inside {
            r.push(item);
            assert(r@.map_values(|e: &EntryType| e@) =~= before.map_values(|e: &EntryType| e@).push(item@));
        }
        i = i + 1;
    }
    assert(s.take(i as int) =~= s);
    r
}

/// The folders among `content`, by path.
pub fn direct_subdirs<'a>(content: &Vec<&'a EntryType>) -> (r: Vec<&'a EntryPath>)
    ensures
        r@.map_values(|p: &EntryPath| p@) == folders_of(content@.map_values(|e: &EntryType| e@)),
{
    let ghost s = content@.map_values(|e: &EntryType| e@);
    let mut r: Vec<&'a EntryPath> = Vec::new();
    let mut i: usize = 0;
    assert(s.take(0) =~= Seq::<EntryTypeModel>::empty());
    assert(r@.map_values(|p: &EntryPath| p@) =~= Seq::<PathModel>::empty());
    while i < content.len()
        invariant
            i <= content@.len(),
            s == content@.map_values(|e: &EntryType| e@),
            r@.map_values(|p: &EntryPath| p@) == folders_of(s.take(i as int)),
        decreases content@.len() - i,
    {
        let item: &'a EntryType = content[i];
        assert(s.take(i + 1).drop_last() =~= s.take(i as int));
        assert(s.take(i + 1).last() == item@);
        let ghost before = r@;
        if item.is_dir_variant() {
            match item.resolved_path() {
                Some(p) => {
                    r.push(p);
                    assert(r@.map_values(|p: &EntryPath| p@) =~= before.map_values(|p: &EntryPath| p@).push(p@));
                },
                None => {},
            }
        }
        i = i + 1;
    }
    assert(s.take(i as int) =~= s);
    r
}

/// Law: an item stands directly inside a folder (one component deeper, and
/// under it) exactly when that folder is its parent, the root alone counting
/// as directly inside the empty path.
pub proof fn law_direct_content_is_parent_relation(dir: PathModel, c: PathModel)
    ensures
        (c.len() == dir.len() + 1 && is_component_prefix(dir, c)) <==> (path_parent(c) == Some(dir)
            || (dir.len() == 0 && c == seq![root_component()])),
{
    if c.len() == dir.len() + 1 && is_component_prefix(dir, c) {
        if !(c.len() == 1 && c[0] == root_component()) {
            assert(c.drop_last() =~= c.take(dir.len() as int));
        } else {
            assert(c =~= seq![root_component()]);
        }
    }
    if path_parent(c) == Some(dir) {
        assert(c.take(dir.len() as int) =~= c.drop_last());
    }
    if dir.len() == 0 && c == seq![root_component()] {
        assert(c.take(0) =~= dir);
    }
}

impl EntryCollector {
    /// For every placed item, gathers what stands directly inside its path and
    /// the folders among that; nothing further is done with them yet.
    pub fn correct_order(&self, paths: &Vec<EntryType>) {
        let mut i: usize = 0;
        while i < paths.len()
            invariant
                i <= paths@.len(),
            decreases paths@.len() - i,
        {
            match paths[i].resolved_path() {
                Some(path) => {
                    let path_content = direct_content(paths, path);
                    let _path_dirs = direct_subdirs(&path_content);
                },
                None => {},
            }
            i = i + 1;
        }
    }

    /// Routes the entries of a listing and builds their preview: each file
    /// gets its destination, then the folders of the destinations are listed
    /// before the files.
    pub fn configure_entries(&self, entries: Vec<Entry>, home: &str) -> (r: Vec<EntryType>)
        requires
            forall|i: int|
                0 <= i < entries@.len() ==> lookup_succeeds(
                    self.json_config,
                    (#[trigger] entries@[i]).current_path@,
                    Seq::empty(),
                ),
        ensures
            entry_type_models(r@) == preview(configured(self.json_config, entry_models(entries@), home@)),
    {
        let updated_entries = self.set_configured_new_path(entries, home);
        let entries_path_build_up = self.add_parent_dirs(&updated_entries);
        self.correct_order(&entries_path_build_up);
        entries_path_build_up
    }

    /// Whether looking `file` up in the configuration can be carried out.
    pub fn lookup_can_finish(&self, file: &Entry) -> (r: bool)
        ensures
            r == lookup_succeeds(self.json_config, file.current_path@, Seq::empty()),
    {
        let name = file.current_path.file_name();
        let path = String::new();
        match find_destination(&self.json_config, &name, &path, false) {
            Err(()) => false,
            Ok(_) => true,
        }
    }

    /// `configure_entries`, or nothing where some entry's lookup cannot be
    /// carried out (a rule is tried on an entry without a file name, or a rule
    /// is not a valid regular expression).
    pub fn try_configure_entries(&self, entries: Vec<Entry>, home: &str) -> (r: Option<Vec<EntryType>>)
        ensures
            r is None <==> exists|i: int|
                0 <= i < entries@.len() && !lookup_succeeds(
                    self.json_config,
                    (#[trigger] entries@[i]).current_path@,
                    Seq::empty(),
                ),
            r matches Some(v) ==> entry_type_models(v@) == preview(
                configured(self.json_config, entry_models(entries@), home@),
            ),
    {
        let mut i: usize = 0;
        while i < entries.len()
            invariant
                i <= entries@.len(),
                forall|j: int|
                    0 <= j < i ==> lookup_succeeds(
                        self.json_config,
                        (#[trigger] entries@[j]).current_path@,
                        Seq::empty(),
                    ),
            decreases entries@.len() - i,
        {
            if !self.lookup_can_finish(&entries[i]) {
                return None;
            }
            i = i + 1;
        }
        Some(self.configure_entries(entries, home))
    }
}


/// The destinations of the routed entries, in order.
pub open spec fn routed_paths(es: Seq<EntryModel>) -> Seq<PathModel>
    decreases es.len(),
{
    if es.len() == 0 {
        Seq::empty()
    } else {
        let r = routed_paths(es.drop_last());
        match es.last().new {
            Some(p) => r.push(p),
            None => r,
        }
    }
}

/// The paths a folder tree is drawn from: the destinations, then, where the
/// home directory is known, each rooted prefix of it.
pub open spec fn walker_paths(es: Seq<EntryModel>, home: Option<PathModel>) -> Seq<PathModel> {
    match home {
        Some(h) => routed_paths(es) + home_prefixes(h),
        None => routed_paths(es),
    }
}

impl EntryCollector {
    /// The folder tree of the destinations of `entries` and of the folders
    /// leading to the home directory `home`.
    pub fn create_walker_struct(&self, entries: &Vec<Entry>, home: &Option<EntryPath>) -> (r: PathTree)
        ensures
            is_tree_of(
                r.node_models(),
                sorted_by_depth(walker_paths(entry_models(entries@), option_path_view(*home))),
            ),
            is_tree_of(r.node_models(), walker_paths(entry_models(entries@), option_path_view(*home))),
    {
        let ghost es = entry_models(entries@);
        let mut new_paths: Vec<EntryPath> = Vec::new();
        let mut i: usize = 0;
        assert(es.take(0) =~= Seq::<EntryModel>::empty());
        assert(path_models(new_paths@) =~= Seq::<PathModel>::empty());
        while i < entries.len()
            invariant
                es == entry_models(entries@),
                i <= entries@.len(),
                path_models(new_paths@) == routed_paths(es.take(i as int)),
            decreases entries@.len() - i,
        {
            assert(es.take(i + 1).drop_last() =~= es.take(i as int));
            assert(es.take(i + 1).last() == entries@[i as int]@);
            match &entries[i].new_path {
                Some(p) => {
                    let ghost before = new_paths@;
                    new_paths.push(p.clone());
                    assert(path_models(new_paths@) =~= path_models(before).push(p@));
                },
                None => {},
            }
            i = i + 1;
        }
        assert(es.take(i as int) =~= es);
        match home {
            Some(home_dir) => {
                let extra = home_dir_prefixes(home_dir);
                let ghost before = new_paths@;
                let mut k: usize = 0;
                while k < extra.len()
                    invariant
                        k <= extra@.len(),
                        path_models(new_paths@) == path_models(before) + path_models(extra@).take(k as int),
                    decreases extra@.len() - k,
                {
                    let ghost b = new_paths@;
                    let c = extra[k].clone();
                    new_paths.push(c);
                    assert(path_models(new_paths@) =~= path_models(b).push(c@));
                    assert(c@ == path_models(extra@)[k as int]);
                    assert(path_models(new_paths@) =~= path_models(before) + path_models(extra@).take(k + 1));
                    k = k + 1;
                }
                assert(path_models(extra@).take(k as int) =~= path_models(extra@));
            },
            None => {},
        }
        let sorted = sort_by_depth(new_paths);
        let tree = build_tree(&sorted);
        proof {
            law_depth_order_keeps_tree(
                walker_paths(es, option_path_view(*home)),
                tree.node_models(),
            );
        }
        tree
    }
}


/// Law: a file keeps its own name where the configuration sends it: the last
/// component of its destination is its file name.
pub proof fn law_destination_keeps_file_name(config: ConfigNode, current: PathModel, prefix: Seq<char>, home: Seq<char>)
    requires
        well_formed_path(current),
    ensures
        destination(config, current, prefix, home) matches Some(p) ==> p.len() > 0
            && path_file_name(current) == Some(p.last()),
{
    match path_file_name(current) {
        None => {
            lemma_no_name_no_route(config, prefix, false);
        },
        Some(n) => {
            lemma_found_route_ends_with_name(config, n, prefix, false);
            if let Lookup::Found(rel) = lookup(config, Some(n), prefix) {
                let q = choose|q: Seq<char>| rel == #[trigger] (q + seq!['/'] + n);
                let last = current.len() - 1;
                assert(current[last] == n);
                assert(!n.contains('/')) by {
                    if n.contains('/') {
                        assert(n == root_component());
                    }
                }
                assert(n.len() > 0);
                assert(is_named_piece(n));
                let full = pushed_path(home, rel);
                let y = if has_root(rel) {
                    q
                } else if home.len() == 0 || home.last() == '/' {
                    home + q
                } else {
                    home + seq!['/'] + q
                };
                assert(full =~= y + seq!['/'] + n);
                law_joined_name_is_last_component(y, n);
            }
        },
    }
}

proof fn lemma_no_name_no_route(node: ConfigNode, prefix: Seq<char>, in_list: bool)
    ensures
        !(lookup_node(node, None, prefix, in_list) is Found),
    decreases node,
{
    match node {
        ConfigNode::Array(items) => lemma_no_name_no_route_items(items@, prefix),
        ConfigNode::Object(entries) => lemma_no_name_no_route_entries(entries@, prefix),
        _ => {},
    }
}

proof fn lemma_no_name_no_route_items(items: Seq<ConfigNode>, prefix: Seq<char>)
    ensures
        !(lookup_items(items, None, prefix) is Found),
    decreases items,
{
    if items.len() > 0 {
        lemma_no_name_no_route(items[0], prefix, true);
        lemma_no_name_no_route_items(items.drop_first(), prefix);
    }
}

proof fn lemma_no_name_no_route_entries(entries: Seq<(String, ConfigNode)>, prefix: Seq<char>)
    ensures
        !(lookup_entries(entries, None, prefix) is Found),
    decreases entries,
{
    if entries.len() > 0 {
        lemma_no_name_no_route(entries[0].1, folder_path(prefix, entries[0].0@), false);
        lemma_no_name_no_route_entries(entries.drop_first(), prefix);
    }
}


/// Law: routing is done entry by entry: an entry's destination depends on its
/// own current path alone, whatever other entries stand beside it or before
/// it, and every entry keeps its current path.
pub proof fn law_routing_is_per_entry(
    config: ConfigNode,
    es: Seq<EntryModel>,
    others: Seq<EntryModel>,
    home: Seq<char>,
    i: int,
    j: int,
)
    requires
        0 <= i < es.len(),
        0 <= j < others.len(),
        es[i].current == others[j].current,
    ensures
        configured(config, es, home).len() == es.len(),
        configured(config, es, home)[i].current == es[i].current,
        configured(config, es, home)[i].new == configured(config, others, home)[j].new,
{
}

/// Law: what `direct_content_of` keeps of a list is exactly the items whose
/// folder is `dir` (their path's parent is `dir`; the root alone counts as
/// inside the empty path), each an item of the list.
pub proof fn law_direct_content_is_children(s: Seq<EntryTypeModel>, dir: PathModel)
    ensures
        forall|x: EntryTypeModel|
            #[trigger] direct_content_of(s, dir).contains(x) ==> s.contains(x) && resolved(x) is Some
                && (path_parent(resolved(x)->0) == Some(dir) || (dir.len() == 0 && resolved(x)->0
                == seq![root_component()])),
        forall|j: int|
            0 <= j < s.len() && resolved(#[trigger] s[j]) is Some && path_parent(resolved(s[j])->0)
                == Some(dir) ==> direct_content_of(s, dir).contains(s[j]),
    decreases s.len(),
{
    if s.len() > 0 {
        let s0 = s.drop_last();
        let r0 = direct_content_of(s0, dir);
        let r = direct_content_of(s, dir);
        law_direct_content_is_children(s0, dir);
        let last = s.last();
        assert(s[s.len() - 1] == last);
        if let Some(c) = resolved(last) {
            law_direct_content_is_parent_relation(dir, c);
        }
        assert forall|x: EntryTypeModel| #[trigger] r.contains(x) implies s.contains(x) && resolved(x) is Some
            && (path_parent(resolved(x)->0) == Some(dir) || (dir.len() == 0 && resolved(x)->0
            == seq![root_component()])) by {
            let k = choose|k: int| 0 <= k < r.len() && r[k] == x;
            if k < r0.len() {
                if is_direct_content(dir, last) {
                    assert(r[k] == r0[k]);
                }
                assert(r0.contains(x));
                let m = choose|m: int| 0 <= m < s0.len() && s0[m] == x;
                assert(s[m] == s0[m]);
            } else {
                assert(x == last);
                law_direct_content_is_parent_relation(dir, resolved(x)->0);
            }
        }
        assert forall|j: int|
            0 <= j < s.len() && resolved(#[trigger] s[j]) is Some && path_parent(resolved(s[j])->0)
                == Some(dir) implies r.contains(s[j]) by {
            law_direct_content_is_parent_relation(dir, resolved(s[j])->0);
            if j < s.len() - 1 {
                assert(s0[j] == s[j]);
                assert(r0.contains(s0[j]));
                let k = choose|k: int| 0 <= k < r0.len() && r0[k] == s0[j];
                if is_direct_content(dir, last) {
                    assert(r[k] == r0[k]);
                }
            } else {
                assert(r[r.len() - 1] == last);
            }
        }
    }
}

} // verus!
