//! The folder tree of a set of paths: each folder with the paths directly in
//! it, gathered after the paths are put in order of depth.

use vstd::prelude::*;
use crate::path::{EntryPath, PathModel, path_parent, is_normal_component, root_component, is_root_text, is_cur_dir_text, is_parent_dir_text};

verus! {

/// Each folder with the paths directly in it, every folder once.
#[derive(Debug)]
pub struct PathTree {
    pub nodes: Vec<(EntryPath, Vec<EntryPath>)>,
}

pub open spec fn path_models(v: Seq<EntryPath>) -> Seq<PathModel> {
    v.map_values(|p: EntryPath| p@)
}

/// The paths of `s` whose parent is `q`, in order.
pub open spec fn children_of(s: Seq<PathModel>, q: PathModel) -> Seq<PathModel>
    decreases s.len(),
{
    if s.len() == 0 {
        Seq::empty()
    } else {
        let r = children_of(s.drop_last(), q);
        if path_parent(s.last()) == Some(q) {
            r.push(s.last())
        } else {
            r
        }
    }
}

/// The paths of `s` with `d` components, in order.
pub open spec fn with_depth(s: Seq<PathModel>, d: nat) -> Seq<PathModel>
    decreases s.len(),
{
    if s.len() == 0 {
        Seq::empty()
    } else {
        let r = with_depth(s.drop_last(), d);
        if s.last().len() == d {
            r.push(s.last())
        } else {
            r
        }
    }
}

/// The paths of `s` with `d`, `d + 1`, ..., `top` components, shallower first,
/// keeping the order of `s` among paths of one depth.
pub open spec fn layers_from(s: Seq<PathModel>, d: nat, top: nat) -> Seq<PathModel>
    decreases top + 1 - d,
{
    if d > top {
        Seq::empty()
    } else {
        with_depth(s, d) + layers_from(s, d + 1, top)
    }
}

pub open spec fn deepest(s: Seq<PathModel>) -> nat
    decreases s.len(),
{
    if s.len() == 0 {
        0
    } else {
        let m = deepest(s.drop_last());
        if s.last().len() > m {
            s.last().len()
        } else {
            m
        }
    }
}

/// `s` sorted by number of components, stably.
pub open spec fn sorted_by_depth(s: Seq<PathModel>) -> Seq<PathModel> {
    layers_from(s, 0, deepest(s))
}

/// `nodes` is the folder tree of `s`: every folder once, each with the paths
/// of `s` directly in it, and every parent of a path of `s` present.
pub open spec fn is_tree_of(nodes: Seq<(PathModel, Seq<PathModel>)>, s: Seq<PathModel>) -> bool {
    &&& forall|i: int, j: int| 0 <= i < j < nodes.len() ==> (#[trigger] nodes[i]).0 != (#[trigger] nodes[j]).0
    &&& forall|i: int| 0 <= i < nodes.len() ==> (#[trigger] nodes[i]).1 == children_of(s, nodes[i].0)
    &&& forall|i: int| 0 <= i < nodes.len() ==> (#[trigger] nodes[i]).1.len() > 0
    &&& forall|k: int|
        0 <= k < s.len() && (#[trigger] path_parent(s[k])) is Some ==> exists|i: int|
            0 <= i < nodes.len() && Some(nodes[i].0) == path_parent(s[k])
}

impl PathTree {
    pub open spec fn node_models(&self) -> Seq<(PathModel, Seq<PathModel>)> {
        self.nodes@.map_values(|n: (EntryPath, Vec<EntryPath>)| (n.0@, path_models(n.1@)))
    }
}

/// The normal components of `home`, in order.
pub open spec fn normal_components(home: PathModel) -> Seq<Seq<char>>
    decreases home.len(),
{
    if home.len() == 0 {
        Seq::empty()
    } else {
        let r = normal_components(home.drop_last());
        if is_normal_component(home.last()) {
            r.push(home.last())
        } else {
            r
        }
    }
}

/// The rooted paths `/a`, `/a/b`, ... built from the normal components of `home`.
pub open spec fn home_prefixes(home: PathModel) -> Seq<PathModel> {
    let parts = normal_components(home);
    Seq::new(parts.len(), |k: int| seq![root_component()] + parts.take(k + 1))
}

fn copy_paths(v: &Vec<EntryPath>) -> (r: Vec<EntryPath>)
    ensures
        path_models(r@) == path_models(v@),
{
    let mut r: Vec<EntryPath> = Vec::new();
    let mut i: usize = 0;
    while i < v.len()
        invariant
            i <= v@.len(),
            path_models(r@) == path_models(v@).take(i as int),
        decreases v@.len() - i,
    {
        let ghost before = r@;
        let c = v[i].clone();
        r.push(c);
        assert(path_models(r@) =~= path_models(before).push(c@));
        assert(path_models(r@) =~= path_models(v@).take(i + 1));
        i = i + 1;
    }
    assert(path_models(v@).take(i as int) =~= path_models(v@));
    r
}

/// The rooted paths `/a`, `/a/b`, ... of the home directory's normal components.
pub fn home_dir_prefixes(home: &EntryPath) -> (r: Vec<EntryPath>)
    ensures
        path_models(r@) == home_prefixes(home@),
{
    let mut r: Vec<EntryPath> = Vec::new();
    let mut parts: Vec<String> = Vec::new();
    let root = String::from_str("/");
    proof {
        reveal_strlit("/");
    }
    assert(root@ =~= root_component());
    parts.push(root);
    let mut i: usize = 0;
    let ghost h = home@;
    assert(h.take(0) =~= Seq::<Seq<char>>::empty());
    assert(path_models(r@) =~= Seq::<PathModel>::empty());
    while i < home.components.len()
        invariant
            h == home@,
            i <= h.len(),
            h.len() == home.components@.len(),
            parts@.map_values(|c: String| c@) == seq![root_component()] + normal_components(h.take(i as int)),
            path_models(r@) == Seq::new(
                normal_components(h.take(i as int)).len(),
                |k: int| seq![root_component()] + normal_components(h.take(i as int)).take(k + 1),
            ),
        decreases h.len() - i,
    {
        let c = &home.components[i];
        let ghost t = h.take(i + 1);
        assert(t.drop_last() =~= h.take(i as int));
        assert(t.last() == c@);
        let ghost old_parts = normal_components(h.take(i as int));
        let normal = !is_root_text(c) && !is_cur_dir_text(c.as_str()) && !is_parent_dir_text(c.as_str());
        assert(normal == is_normal_component(c@));
        if normal {
            let ghost pv = parts@;
            parts.push(c.clone());
            assert(parts@.map_values(|c: String| c@) =~= pv.map_values(|c: String| c@).push(c@));
            assert(normal_components(t) == old_parts.push(c@));
            let next = EntryPath { components: copy_strings(&parts) };
            let ghost rv = r@;
            assert(next@ == seq![root_component()] + normal_components(t));
            r.push(next);
            assert(path_models(r@) =~= path_models(rv).push(next@));
            assert(path_models(r@) =~= Seq::new(
                normal_components(t).len(),
                |k: int| seq![root_component()] + normal_components(t).take(k + 1),
            )) by {
                assert forall|k: int| 0 <= k < normal_components(t).len() implies path_models(r@)[k]
                    == seq![root_component()] + normal_components(t).take(k + 1) by {
                    if k < old_parts.len() {
                        assert(path_models(r@)[k] == path_models(rv)[k]);
                        assert(normal_components(t).take(k + 1) =~= old_parts.take(k + 1));
                    } else {
                        assert(normal_components(t).take(k + 1) =~= normal_components(t));
                    }
                }
            }
        } else {
            assert(normal_components(t) == old_parts);
        }
        i = i + 1;
    }
    assert(h.take(i as int) =~= h);
    r
}

fn copy_strings(v: &Vec<String>) -> (r: Vec<String>)
    ensures
        r@.map_values(|c: String| c@) == v@.map_values(|c: String| c@),
{
    let mut r: Vec<String> = Vec::new();
    let mut i: usize = 0;
    while i < v.len()
        invariant
            i <= v@.len(),
            r@.map_values(|c: String| c@) == v@.map_values(|c: String| c@).take(i as int),
        decreases v@.len() - i,
    {
        let ghost before = r@;
        let c = v[i].clone();
        r.push(c);
        assert(r@.map_values(|c: String| c@) =~= before.map_values(|c: String| c@).push(c@));
        assert(r@.map_values(|c: String| c@) =~= v@.map_values(|c: String| c@).take(i + 1));
        i = i + 1;
    }
    assert(v@.map_values(|c: String| c@).take(i as int) =~= v@.map_values(|c: String| c@));
    r
}

proof fn lemma_deepest_bounds(s: Seq<PathModel>)
    ensures
        forall|k: int| 0 <= k < s.len() ==> (#[trigger] s[k]).len() <= deepest(s),
    decreases s.len(),
{
    if s.len() > 0 {
        lemma_deepest_bounds(s.drop_last());
        assert forall|k: int| 0 <= k < s.len() implies (#[trigger] s[k]).len() <= deepest(s) by {
            if k < s.len() - 1 {
                assert(s[k] == s.drop_last()[k]);
            }
        }
    }
}

/// The paths of `s`, sorted by number of components; paths of one depth keep their order.
pub fn sort_by_depth(s: Vec<EntryPath>) -> (r: Vec<EntryPath>)
    ensures
        path_models(r@) == sorted_by_depth(path_models(s@)),
{
    let ghost m = path_models(s@);
    let mut top: usize = 0;
    let mut i: usize = 0;
    assert(m.take(0) =~= Seq::<PathModel>::empty());
    while i < s.len()
        invariant
            m == path_models(s@),
            i <= s@.len(),
            top == deepest(m.take(i as int)),
        decreases s@.len() - i,
    {
        assert(m.take(i + 1).drop_last() =~= m.take(i as int));
        let n: usize = s[i].component_count();
        if n > top {
            top = n;
        }
        i = i + 1;
    }
    assert(m.take(i as int) =~= m);
    let mut r: Vec<EntryPath> = Vec::new();
    let mut d: usize = 0;
    assert(path_models(r@) =~= Seq::<PathModel>::empty());
    loop
        invariant
            m == path_models(s@),
            top == deepest(m),
            d <= top,
            path_models(r@) + layers_from(m, d as nat, top as nat) == sorted_by_depth(m),
        decreases top - d,
    {
        let ghost layer_start = path_models(r@);
        let mut j: usize = 0;
        assert(m.take(0) =~= Seq::<PathModel>::empty());
        assert(layer_start + with_depth(m.take(0), d as nat) =~= layer_start);
        while j < s.len()
            invariant
                m == path_models(s@),
                j <= s@.len(),
                path_models(r@) == layer_start + with_depth(m.take(j as int), d as nat),
            decreases s@.len() - j,
        {
            assert(m.take(j + 1).drop_last() =~= m.take(j as int));
            assert(m.take(j + 1).last() == s@[j as int]@);
            if s[j].component_count() == d {
                let ghost before = r@;
                r.push(s[j].clone());
                assert(path_models(r@) =~= path_models(before).push(s@[j as int]@));
            }
            j = j + 1;
        }
        assert(m.take(j as int) =~= m);
        assert(layers_from(m, d as nat, top as nat) == with_depth(m, d as nat) + layers_from(m, (d + 1) as nat, top as nat));
        if d == top {
            assert(layers_from(m, (d + 1) as nat, top as nat) == Seq::<PathModel>::empty());
            assert(path_models(r@) =~= sorted_by_depth(m));
            return r;
        }
        assert(path_models(r@) + layers_from(m, (d + 1) as nat, top as nat) =~= sorted_by_depth(m));
        d = d + 1;
    }
}


proof fn lemma_children_of_none(s: Seq<PathModel>, q: PathModel)
    requires
        forall|k: int| 0 <= k < s.len() ==> path_parent(#[trigger] s[k]) != Some(q),
    ensures
        children_of(s, q) == Seq::<PathModel>::empty(),
    decreases s.len(),
{
    if s.len() > 0 {
        assert forall|k: int| 0 <= k < s.drop_last().len() implies path_parent(
            #[trigger] s.drop_last()[k],
        ) != Some(q) by {
            assert(s.drop_last()[k] == s[k]);
        }
        lemma_children_of_none(s.drop_last(), q);
        assert(path_parent(s[s.len() - 1]) != Some(q));
    }
}

proof fn lemma_children_step(s: Seq<PathModel>, i: int, q: PathModel)
    requires
        0 <= i < s.len(),
    ensures
        children_of(s.take(i + 1), q) == if path_parent(s[i]) == Some(q) {
            children_of(s.take(i), q).push(s[i])
        } else {
            children_of(s.take(i), q)
        },
{
    assert(s.take(i + 1).drop_last() =~= s.take(i));
}

/// Builds the folder tree of `paths`, in the order the paths come.
pub fn build_tree(paths: &Vec<EntryPath>) -> (r: PathTree)
    ensures
        is_tree_of(r.node_models(), path_models(paths@)),
{
    let ghost m = path_models(paths@);
    let mut nodes: Vec<(EntryPath, Vec<EntryPath>)> = Vec::new();
    let mut i: usize = 0;
    assert(m.take(0) =~= Seq::<PathModel>::empty());
    while i < paths.len()
        invariant
            m == path_models(paths@),
            i <= paths@.len(),
            is_tree_of(
                nodes@.map_values(|n: (EntryPath, Vec<EntryPath>)| (n.0@, path_models(n.1@))),
                m.take(i as int),
            ),
        decreases paths@.len() - i,
    {
        let ghost nm = nodes@.map_values(|n: (EntryPath, Vec<EntryPath>)| (n.0@, path_models(n.1@)));
        let ghost t = m.take(i as int);
        let ghost t1 = m.take(i + 1);
        let path = &paths[i];
        assert(t1[i as int] == path@);
        assert forall|k: int| 0 <= k < i implies t1[k] == t[k] by {}
        match path.parent() {
            None => {
                assert forall|j: int| 0 <= j < nm.len() implies (#[trigger] nm[j]).1 == children_of(t1, nm[j].0) by {
                    lemma_children_step(m, i as int, nm[j].0);
                }
                assert forall|k: int|
                    0 <= k < t1.len() && (#[trigger] path_parent(t1[k])) is Some implies exists|j: int|
                        0 <= j < nm.len() && Some(nm[j].0) == path_parent(t1[k]) by {
                    assert(t1[k] == t[k]);
                }
            },
            Some(parent) => {
                let mut j: usize = 0;
                let mut found = false;
                while j < nodes.len() && !found
                    invariant
                        j <= nodes@.len(),
                        nm == nodes@.map_values(|n: (EntryPath, Vec<EntryPath>)| (n.0@, path_models(n.1@))),
                        found ==> j < nodes@.len() && nm[j as int].0 == parent@,
                        !found ==> forall|l: int| 0 <= l < j ==> nm[l].0 != parent@,
                    decreases nodes@.len() - j + (if found { 0int } else { 1int }),
                {
                    if nodes[j].0.same_path(&parent) {
                        found = true;
                    } else {
                        j = j + 1;
                    }
                }
                if found {
                    let kid = path.clone();
                    let mut pair = nodes.remove(j);
                    pair.1.push(kid);
                    nodes.insert(j, pair);
                    let ghost nm2 = nodes@.map_values(|n: (EntryPath, Vec<EntryPath>)| (n.0@, path_models(n.1@)));
                    assert forall|l: int| 0 <= l < nm.len() implies #[trigger] nm2[l] == if l == j {
                        (nm[l].0, nm[l].1.push(path@))
                    } else {
                        nm[l]
                    } by {
                        if l == j {
                            assert(path_models(pair.1@) =~= nm[l].1.push(path@));
                        }
                    }
                    assert(nm2.len() == nm.len());
                    assert forall|l: int| 0 <= l < nm2.len() implies (#[trigger] nm2[l]).1 == children_of(t1, nm2[l].0) by {
                        lemma_children_step(m, i as int, nm[l].0);
                    }
                    assert forall|k: int|
                        0 <= k < t1.len() && (#[trigger] path_parent(t1[k])) is Some implies exists|l: int|
                            0 <= l < nm2.len() && Some(nm2[l].0) == path_parent(t1[k]) by {
                        if k < i {
                            assert(t1[k] == t[k]);
                            let l = choose|l: int| 0 <= l < nm.len() && Some(nm[l].0) == path_parent(t[k]);
                            assert(nm2[l].0 == nm[l].0);
                        } else {
                            assert(nm2[j as int].0 == parent@);
                        }
                    }
                    assert forall|a: int, b: int| 0 <= a < b < nm2.len() implies (#[trigger] nm2[a]).0 != (#[trigger] nm2[b]).0 by {
                        assert(nm2[a].0 == nm[a].0 && nm2[b].0 == nm[b].0);
                    }
                    assert forall|l: int| 0 <= l < nm2.len() implies (#[trigger] nm2[l]).1.len() > 0 by {
                        assert(nm[l].1.len() > 0);
                    }
                } else {
                    let mut kids: Vec<EntryPath> = Vec::new();
                    kids.push(path.clone());
                    let ghost kv = path_models(kids@);
                    assert(kv =~= seq![path@]);
                    proof {
                        assert forall|k: int| 0 <= k < t.len() implies path_parent(#[trigger] t[k]) != Some(parent@) by {
                            if path_parent(t[k]) == Some(parent@) {
                                let l = choose|l: int| 0 <= l < nm.len() && Some(nm[l].0) == path_parent(t[k]);
                            }
                        }
                        lemma_children_of_none(t, parent@);
                        lemma_children_step(m, i as int, parent@);
                    }
                    nodes.push((parent, kids));
                    let ghost nm2 = nodes@.map_values(|n: (EntryPath, Vec<EntryPath>)| (n.0@, path_models(n.1@)));
                    assert(nm2 =~= nm.push((parent@, kv)));
                    assert forall|l: int| 0 <= l < nm2.len() implies (#[trigger] nm2[l]).1 == children_of(t1, nm2[l].0) by {
                        if l < nm.len() {
                            assert(nm2[l] == nm[l]);
                            lemma_children_step(m, i as int, nm[l].0);
                        } else {
                            assert(children_of(t1, parent@) =~= seq![path@]);
                        }
                    }
                    assert forall|k: int|
                        0 <= k < t1.len() && (#[trigger] path_parent(t1[k])) is Some implies exists|l: int|
                            0 <= l < nm2.len() && Some(nm2[l].0) == path_parent(t1[k]) by {
                        if k < i {
                            assert(t1[k] == t[k]);
                            let l = choose|l: int| 0 <= l < nm.len() && Some(nm[l].0) == path_parent(t[k]);
                            assert(nm2[l] == nm[l]);
                        } else {
                            assert(nm2[nm.len() as int].0 == parent@);
                        }
                    }
                    assert forall|l: int| 0 <= l < nm2.len() implies (#[trigger] nm2[l]).1.len() > 0 by {
                        if l < nm.len() {
                            assert(nm2[l] == nm[l]);
                        }
                    }
                    assert forall|a: int, b: int| 0 <= a < b < nm2.len() implies (#[trigger] nm2[a]).0 != (#[trigger] nm2[b]).0 by {
                        assert(nm2[a] == nm[a]);
                        if b < nm.len() {
                            assert(nm2[b] == nm[b]);
                        }
                    }
                }
            },
        }
        i = i + 1;
    }
    assert(m.take(i as int) =~= m);
    PathTree { nodes }
}

proof fn lemma_children_concat(a: Seq<PathModel>, b: Seq<PathModel>, q: PathModel)
    ensures
        children_of(a + b, q) == children_of(a, q) + children_of(b, q),
    decreases b.len(),
{
    if b.len() == 0 {
        assert(a + b =~= a);
        assert(children_of(a, q) + children_of(b, q) =~= children_of(a, q));
    } else {
        lemma_children_concat(a, b.drop_last(), q);
        assert((a + b).drop_last() =~= a + b.drop_last());
        assert((a + b).last() == b.last());
        if path_parent(b.last()) == Some(q) {
            assert(children_of(a, q) + children_of(b, q) =~= (children_of(a, q) + children_of(
                b.drop_last(),
                q,
            )).push(b.last()));
        }
    }
}

proof fn lemma_children_of_layer(s: Seq<PathModel>, d: nat, q: PathModel)
    ensures
        children_of(with_depth(s, d), q) == if d == q.len() + 1 {
            children_of(s, q)
        } else {
            Seq::<PathModel>::empty()
        },
    decreases s.len(),
{
    if s.len() > 0 {
        lemma_children_of_layer(s.drop_last(), d, q);
        let r = with_depth(s.drop_last(), d);
        if s.last().len() == d {
            assert(r.push(s.last()).drop_last() =~= r);
        }
    }
}

proof fn lemma_children_of_layers(s: Seq<PathModel>, d: nat, top: nat, q: PathModel)
    requires
        forall|k: int| 0 <= k < s.len() ==> (#[trigger] s[k]).len() <= top,
    ensures
        children_of(layers_from(s, d, top), q) == if d <= q.len() + 1 {
            children_of(s, q)
        } else {
            Seq::<PathModel>::empty()
        },
    decreases top + 1 - d,
{
    if d > top {
        if d <= q.len() + 1 {
            assert forall|k: int| 0 <= k < s.len() implies path_parent(#[trigger] s[k]) != Some(q) by {
                if path_parent(s[k]) == Some(q) {
                    assert(s[k].len() == q.len() + 1);
                }
            }
            lemma_children_of_none(s, q);
        }
    } else {
        lemma_children_of_layers(s, d + 1, top, q);
        lemma_children_of_layer(s, d, q);
        lemma_children_concat(with_depth(s, d), layers_from(s, d + 1, top), q);
        if d == q.len() + 1 {
            assert(children_of(s, q) + Seq::<PathModel>::empty() =~= children_of(s, q));
        } else if d < q.len() + 1 {
            assert(Seq::<PathModel>::empty() + children_of(s, q) =~= children_of(s, q));
        } else {
            assert(Seq::<PathModel>::empty() + Seq::<PathModel>::empty() =~= Seq::<PathModel>::empty());
        }
    }
}

proof fn lemma_with_depth_contains(s: Seq<PathModel>, k: int)
    requires
        0 <= k < s.len(),
    ensures
        with_depth(s, s[k].len()).contains(s[k]),
    decreases s.len(),
{
    let r = with_depth(s.drop_last(), s[k].len());
    if k < s.len() - 1 {
        assert(s.drop_last()[k] == s[k]);
        lemma_with_depth_contains(s.drop_last(), k);
        let j = choose|j: int| 0 <= j < r.len() && r[j] == s[k];
        if s.last().len() == s[k].len() {
            assert(r.push(s.last())[j] == r[j]);
        }
    } else {
        assert(r.push(s.last())[r.len() as int] == s[k]);
    }
}

proof fn lemma_layers_contain(s: Seq<PathModel>, d: nat, top: nat, e: nat, x: PathModel)
    requires
        d <= e <= top,
        with_depth(s, e).contains(x),
    ensures
        layers_from(s, d, top).contains(x),
    decreases top + 1 - d,
{
    let w = with_depth(s, d);
    let rest = layers_from(s, d + 1, top);
    assert(layers_from(s, d, top) == w + rest);
    if d == e {
        let j = choose|j: int| 0 <= j < w.len() && w[j] == x;
        assert((w + rest)[j] == w[j]);
    } else {
        lemma_layers_contain(s, d + 1, top, e, x);
        let j = choose|j: int| 0 <= j < rest.len() && rest[j] == x;
        assert((w + rest)[w.len() + j] == rest[j]);
    }
}

/// Law: putting the paths in order of depth leaves, for every folder, the list
/// of paths directly in it unchanged (they all have one depth and keep their
/// order), so the tree of the sorted paths is a tree of the paths as given.
pub proof fn law_depth_order_keeps_tree(s: Seq<PathModel>, nodes: Seq<(PathModel, Seq<PathModel>)>)
    ensures
        forall|q: PathModel| #[trigger] children_of(sorted_by_depth(s), q) == children_of(s, q),
        is_tree_of(nodes, sorted_by_depth(s)) ==> is_tree_of(nodes, s),
{
    lemma_deepest_bounds(s);
    assert forall|q: PathModel| #[trigger] children_of(sorted_by_depth(s), q) == children_of(s, q) by {
        lemma_children_of_layers(s, 0, deepest(s), q);
    }
    if is_tree_of(nodes, sorted_by_depth(s)) {
        let sorted = sorted_by_depth(s);
        assert forall|i: int| 0 <= i < nodes.len() implies (#[trigger] nodes[i]).1 == children_of(s, nodes[i].0) by {
            assert(children_of(sorted, nodes[i].0) == children_of(s, nodes[i].0));
        }
        assert forall|k: int|
            0 <= k < s.len() && (#[trigger] path_parent(s[k])) is Some implies exists|i: int|
                0 <= i < nodes.len() && Some(nodes[i].0) == path_parent(s[k]) by {
            lemma_with_depth_contains(s, k);
            lemma_layers_contain(s, 0, deepest(s), s[k].len(), s[k]);
            let k2 = choose|k2: int| 0 <= k2 < sorted.len() && sorted[k2] == s[k];
            assert(path_parent(sorted[k2]) is Some);
        }
    }
}


proof fn lemma_normal_components_of_rooted(h: PathModel)
    requires
        h.len() >= 1,
        h[0] == root_component(),
        forall|i: int| 1 <= i < h.len() ==> is_normal_component(#[trigger] h[i]),
    ensures
        normal_components(h) == h.drop_first(),
    decreases h.len(),
{
    if h.len() == 1 {
        assert(h.drop_last() =~= Seq::<Seq<char>>::empty());
        assert(normal_components(Seq::<Seq<char>>::empty()) == Seq::<Seq<char>>::empty());
        assert(normal_components(h.drop_last()) == Seq::<Seq<char>>::empty());
        assert(h.last() == h[0]);
        assert(!is_normal_component(h.last()));
        assert(h.drop_first() =~= Seq::<Seq<char>>::empty());
    } else {
        let h0 = h.drop_last();
        assert forall|i: int| 1 <= i < h0.len() implies is_normal_component(#[trigger] h0[i]) by {
            assert(h0[i] == h[i]);
        }
        lemma_normal_components_of_rooted(h0);
        assert(h.last() == h[h.len() - 1]);
        assert(is_normal_component(h.last()));
        assert(normal_components(h) == normal_components(h0).push(h.last()));
        assert(h.drop_first() =~= h0.drop_first().push(h.last()));
    }
}

/// Law: the folders added for the home directory form a chain from the root
/// down: each is a rooted path one component longer than the one before, and
/// the parent of each is the one before it. For a rooted home directory whose
/// other components all name folders, there is one per such component and
/// the last is the home directory itself.
pub proof fn law_home_prefixes_lead_to_home(h: PathModel)
    ensures
        forall|k: int|
            0 <= k < home_prefixes(h).len() ==> (#[trigger] home_prefixes(h)[k]).len() == k + 2
                && home_prefixes(h)[k][0] == root_component(),
        forall|k: int|
            0 < k < home_prefixes(h).len() ==> path_parent(#[trigger] home_prefixes(h)[k]) == Some(
                home_prefixes(h)[k - 1],
            ),
        (h.len() >= 1 && h[0] == root_component() && forall|i: int|
            1 <= i < h.len() ==> is_normal_component(#[trigger] h[i])) ==> home_prefixes(h).len() == h.len()
            - 1 && (h.len() > 1 ==> home_prefixes(h).last() == h),
{
    let parts = normal_components(h);
    let hp = home_prefixes(h);
    assert forall|k: int| 0 <= k < hp.len() implies (#[trigger] hp[k]).len() == k + 2 && hp[k][0]
        == root_component() by {
        assert(hp[k] == seq![root_component()] + parts.take(k + 1));
    }
    assert forall|k: int| 0 < k < hp.len() implies path_parent(#[trigger] hp[k]) == Some(hp[k - 1]) by {
        assert(hp[k] == seq![root_component()] + parts.take(k + 1));
        assert(hp[k - 1] == seq![root_component()] + parts.take(k));
        assert(hp[k].drop_last() =~= hp[k - 1]);
    }
    if h.len() >= 1 && h[0] == root_component() && forall|i: int|
        1 <= i < h.len() ==> is_normal_component(#[trigger] h[i]) {
        lemma_normal_components_of_rooted(h);
        if h.len() > 1 {
            assert(hp.last() == seq![root_component()] + parts.take(parts.len() as int));
            assert(parts.take(parts.len() as int) =~= parts);
            assert(seq![root_component()] + h.drop_first() =~= h);
        }
    }
}

} // verus!
