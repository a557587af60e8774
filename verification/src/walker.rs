//! Walking a list of paths as a tree: each path is drawn as a branch, folders
//! are descended into up to a depth limit, and totals are kept.
//!
//! The walk decides; what the file system says of each path is handed in
//! (`ItemInfo`), and what would be written is handed back as steps.

use vstd::prelude::*;
use crate::item::ItemCollector;
use crate::path::{EntryPath, parse_path, path_components, path_file_name, is_named_piece, parent_dir_component, law_joined_name_is_last_component};

verus! {

/// The deepest level the walk descends to.
pub const DEPTH_LIMIT: usize = 2;

/// Counts of what a walk has met.
#[derive(Debug)]
pub struct Totals {
    pub directories: usize,
    pub files: usize,
    pub size: u64,
}

/// The kind of a path, as its metadata gives it.
#[derive(Debug, Clone, Copy, PartialEq, Eq, Structural)]
pub enum FileKind {
    Dir,
    File,
    Other,
}

/// What the file system says of one path: its kind and length, where its
/// metadata could be read.
#[derive(Debug, Clone, Copy)]
pub struct ItemInfo {
    pub file_type: Option<FileKind>,
    pub size: Option<u64>,
}

/// One thing the walk writes out.
#[derive(Debug)]
pub enum WalkStep {
    /// The tree branch for item `index` of `len` items.
    Branch { index: usize, len: usize },
    /// `name ──> path` for a folder.
    DirLine { name: String, path: String },
    /// `name ──> path` for a file.
    FileLine { name: String, path: String },
    /// The branch of the item is closed again.
    Pop,
}

pub enum StepModel {
    Branch(nat, nat),
    DirLine(Seq<char>, Seq<char>),
    FileLine(Seq<char>, Seq<char>),
    Pop,
}

impl View for WalkStep {
    type V = StepModel;

    open spec fn view(&self) -> StepModel {
        match self {
            WalkStep::Branch { index, len } => StepModel::Branch(*index as nat, *len as nat),
            WalkStep::DirLine { name, path } => StepModel::DirLine(name@, path@),
            WalkStep::FileLine { name, path } => StepModel::FileLine(name@, path@),
            WalkStep::Pop => StepModel::Pop,
        }
    }
}

/// The walker: the tree's current depth, the totals so far, the paths to
/// walk with what the file system says of each, and what has been written.
pub struct WalkDir {
    pub depth: usize,
    pub path: EntryPath,
    pub output: Vec<WalkStep>,
    pub total: Totals,
    pub result_tree: Vec<String>,
    pub items: Vec<ItemInfo>,
}

pub open spec fn is_dir_info(info: ItemInfo) -> bool {
    info.file_type == Some(FileKind::Dir)
}

pub open spec fn info_size(info: ItemInfo) -> nat {
    match info.size {
        Some(n) => n as nat,
        None => 0,
    }
}

/// The name shown for the path written as `entry`.
pub open spec fn item_name(entry: Seq<char>) -> Seq<char> {
    path_file_name(path_components(entry))->0
}

pub open spec fn has_item_name(entry: Seq<char>) -> bool {
    path_file_name(path_components(entry)) is Some
}

/// What walking `entries` from item `i` on, at depth `depth`, writes out.
pub open spec fn walk_steps(entries: Seq<Seq<char>>, infos: Seq<ItemInfo>, depth: nat, i: nat) -> Seq<StepModel>
    decreases 3 - depth, entries.len() - i,
{
    if depth > DEPTH_LIMIT || i >= entries.len() {
        Seq::empty()
    } else {
        let e = entries[i as int];
        let body = if is_dir_info(infos[i as int]) {
            seq![StepModel::DirLine(item_name(e), e)] + walk_steps(entries, infos, depth + 1, 0)
        } else {
            seq![StepModel::FileLine(item_name(e), e)]
        };
        seq![StepModel::Branch(i, entries.len())] + body + seq![StepModel::Pop] + walk_steps(
            entries,
            infos,
            depth,
            i + 1,
        )
    }
}

/// How many folders, files and bytes such a walk counts.
pub struct Tally {
    pub dirs: nat,
    pub files: nat,
    pub bytes: nat,
}

pub open spec fn tally_add(a: Tally, b: Tally) -> Tally {
    Tally { dirs: a.dirs + b.dirs, files: a.files + b.files, bytes: a.bytes + b.bytes }
}

pub open spec fn walk_tally(entries: Seq<Seq<char>>, infos: Seq<ItemInfo>, depth: nat, i: nat) -> Tally
    decreases 3 - depth, entries.len() - i,
{
    if depth > DEPTH_LIMIT || i >= entries.len() {
        Tally { dirs: 0, files: 0, bytes: 0 }
    } else {
        let info = infos[i as int];
        let body = if is_dir_info(info) {
            tally_add(Tally { dirs: 1, files: 0, bytes: 0 }, walk_tally(entries, infos, depth + 1, 0))
        } else {
            Tally { dirs: 0, files: 1, bytes: 0 }
        };
        tally_add(
            tally_add(body, Tally { dirs: 0, files: 0, bytes: info_size(info) }),
            walk_tally(entries, infos, depth, i + 1),
        )
    }
}

pub open spec fn totals_tally(t: Totals) -> Tally {
    Tally { dirs: t.directories as nat, files: t.files as nat, bytes: t.size as nat }
}

/// The totals can take `extra` more without overflow.
pub open spec fn fits(t: Totals, extra: Tally) -> bool {
    &&& t.directories + extra.dirs <= usize::MAX
    &&& t.files + extra.files <= usize::MAX
    &&& t.size + extra.bytes <= u64::MAX
}

pub open spec fn step_models(v: Seq<WalkStep>) -> Seq<StepModel> {
    v.map_values(|s: WalkStep| s@)
}

/// What a walk at depth `d` needs from the walker's state: where it visits
/// the paths at all (`d` within the limit), one answer per path and a name for
/// every path.
pub open spec fn ready_at(w: WalkDir, d: int) -> bool {
    d <= DEPTH_LIMIT ==> {
        &&& w.items@.len() == w.result_tree@.len()
        &&& forall|k: int|
            0 <= k < w.result_tree@.len() ==> has_item_name(#[trigger] w.result_tree@[k]@)
    }
}

/// What a walk at the walker's own depth needs.
pub open spec fn walk_ready(w: WalkDir) -> bool {
    ready_at(w, w.depth as int)
}

/// How many more levels a walk at depth `d` may still descend.
pub open spec fn levels_left(d: int) -> int {
    if d <= DEPTH_LIMIT {
        DEPTH_LIMIT + 1 - d
    } else {
        0
    }
}

pub open spec fn entry_texts(v: Seq<String>) -> Seq<Seq<char>> {
    v.map_values(|s: String| s@)
}

/// Whether a file name marks a hidden entry: it starts with a dot.
pub fn check_hidden_file(check_hidden: &str) -> (r: bool)
    ensures
        r == (check_hidden@.len() > 0 && check_hidden@[0] == '.'),
{
    check_hidden.unicode_len() > 0 && check_hidden.get_char(0) == '.'
}

proof fn lemma_walk_unfold(entries: Seq<Seq<char>>, infos: Seq<ItemInfo>, d: nat, i: nat)
    requires
        d <= DEPTH_LIMIT,
        i < entries.len(),
    ensures
        walk_steps(entries, infos, d, i) == seq![StepModel::Branch(i, entries.len())] + (if is_dir_info(infos[i as int]) {
            seq![StepModel::DirLine(item_name(entries[i as int]), entries[i as int])] + walk_steps(entries, infos, d + 1, 0)
        } else {
            seq![StepModel::FileLine(item_name(entries[i as int]), entries[i as int])]
        }) + seq![StepModel::Pop] + walk_steps(entries, infos, d, i + 1),
        walk_tally(entries, infos, d, i) == tally_add(
            tally_add(
                if is_dir_info(infos[i as int]) {
                    tally_add(Tally { dirs: 1, files: 0, bytes: 0 }, walk_tally(entries, infos, d + 1, 0))
                } else {
                    Tally { dirs: 0, files: 1, bytes: 0 }
                },
                Tally { dirs: 0, files: 0, bytes: info_size(infos[i as int]) },
            ),
            walk_tally(entries, infos, d, i + 1),
        ),
{
}

impl WalkDir {
    pub fn new(
        depth: usize,
        path: EntryPath,
        output: Vec<WalkStep>,
        total: Totals,
        result_tree: Vec<String>,
        items: Vec<ItemInfo>,
    ) -> (r: WalkDir)
        ensures
            r.depth == depth,
            r.path == path,
            r.output == output,
            r.total == total,
            r.result_tree == result_tree,
            r.items == items,
    {
        WalkDir { depth, path, output, total, result_tree, items }
    }

    /// Walks every path at the current depth: draws its branch, prints it and,
    /// for a folder, walks the list again one level deeper; adds the counts.
    pub fn walk(&mut self)
        requires
            walk_ready(*old(self)),
            fits(
                old(self).total,
                walk_tally(
                    entry_texts(old(self).result_tree@),
                    old(self).items@,
                    old(self).depth as nat,
                    0,
                ),
            ),
        ensures
            final(self).depth == old(self).depth,
            final(self).path == old(self).path,
            final(self).result_tree == old(self).result_tree,
            final(self).items == old(self).items,
            step_models(final(self).output@) == step_models(old(self).output@) + walk_steps(
                entry_texts(old(self).result_tree@),
                old(self).items@,
                old(self).depth as nat,
                0,
            ),
            totals_tally(final(self).total) == tally_add(
                totals_tally(old(self).total),
                walk_tally(
                    entry_texts(old(self).result_tree@),
                    old(self).items@,
                    old(self).depth as nat,
                    0,
                ),
            ),
        decreases levels_left(old(self).depth as int), if old(self).depth <= DEPTH_LIMIT {
            2int
        } else {
            0int
        }, 0int,
    {
        let depth_limit: usize = DEPTH_LIMIT;
        let ghost entries = entry_texts(self.result_tree@);
        let ghost infos = self.items@;
        let ghost d = self.depth as nat;
        let ghost out0 = step_models(self.output@);
        let ghost tot0 = totals_tally(self.total);
        let n: usize = self.result_tree.len();
        let mut i: usize = 0;
        while i < n
            invariant
                n == self.result_tree@.len(),
                depth_limit == DEPTH_LIMIT,
                entries == entry_texts(self.result_tree@),
                infos == self.items@,
                d == self.depth as nat,
                walk_ready(*self),
                self.depth == old(self).depth,
                self.path == old(self).path,
                self.result_tree == old(self).result_tree,
                self.items == old(self).items,
                i <= n,
                out0 + walk_steps(entries, infos, d, 0) == step_models(self.output@) + walk_steps(
                    entries,
                    infos,
                    d,
                    i as nat,
                ),
                tally_add(tot0, walk_tally(entries, infos, d, 0)) == tally_add(
                    totals_tally(self.total),
                    walk_tally(entries, infos, d, i as nat),
                ),
                fits(old(self).total, walk_tally(entries, infos, d, 0)),
                tot0 == totals_tally(old(self).total),
            decreases n - i,
        {
            if self.depth <= depth_limit {
                let ghost info = infos[i as int];
                let ghost rest_steps = walk_steps(entries, infos, d, (i + 1) as nat);
                let ghost rest_tally = walk_tally(entries, infos, d, (i + 1) as nat);
                let ghost before = step_models(self.output@);
                self.output.push(WalkStep::Branch { index: i, len: n });
                assert(step_models(self.output@) =~= before.push(StepModel::Branch(i as nat, n as nat)));
                assert(entries[i as int] == self.result_tree@[i as int]@);
                let entry = &self.result_tree[i];
                assert(has_item_name(self.result_tree@[i as int]@));
                let item = ItemCollector::new(entry, &self.depth, self.items[i].file_type, self.items[i].size);
                let ghost size_t = Tally { dirs: 0, files: 0, bytes: item.size_tally() };
                proof {
                    lemma_walk_unfold(entries, infos, d, i as nat);
                }
                assert(item.is_dir() == is_dir_info(info));
                assert(item.size_tally() == info_size(info));
                assert(entry_texts(self.result_tree@) == entries);
                assert(walk_tally(entries, infos, d, i as nat) == tally_add(
                    tally_add(item.body_tally(*self), size_t),
                    rest_tally,
                ));
                assert(walk_steps(entries, infos, d, i as nat) == seq![StepModel::Branch(i as nat, n as nat)]
                    + item.body_steps(*self) + seq![StepModel::Pop] + rest_steps);
                item.get_item(self);
                let ghost after = step_models(self.output@);
                self.output.push(WalkStep::Pop);
                assert(step_models(self.output@) =~= after.push(StepModel::Pop));
                assert(step_models(self.output@) + rest_steps =~= before + walk_steps(entries, infos, d, i as nat));
            }
            i = i + 1;
        }
        assert(walk_steps(entries, infos, d, i as nat) =~= Seq::<StepModel>::empty());
        assert(step_models(self.output@) =~= out0 + walk_steps(entries, infos, d, 0));
    }
}


/// How many of each kind of step a sequence holds.
pub struct StepCounts {
    pub branches: nat,
    pub pops: nat,
    pub dir_lines: nat,
    pub file_lines: nat,
}

pub open spec fn step_counts(s: Seq<StepModel>) -> StepCounts
    decreases s.len(),
{
    if s.len() == 0 {
        StepCounts { branches: 0, pops: 0, dir_lines: 0, file_lines: 0 }
    } else {
        let c = step_counts(s.drop_last());
        match s.last() {
            StepModel::Branch(_, _) => StepCounts { branches: c.branches + 1, ..c },
            StepModel::Pop => StepCounts { pops: c.pops + 1, ..c },
            StepModel::DirLine(_, _) => StepCounts { dir_lines: c.dir_lines + 1, ..c },
            StepModel::FileLine(_, _) => StepCounts { file_lines: c.file_lines + 1, ..c },
        }
    }
}

proof fn lemma_step_counts_concat(a: Seq<StepModel>, b: Seq<StepModel>)
    ensures
        step_counts(a + b) == (StepCounts {
            branches: step_counts(a).branches + step_counts(b).branches,
            pops: step_counts(a).pops + step_counts(b).pops,
            dir_lines: step_counts(a).dir_lines + step_counts(b).dir_lines,
            file_lines: step_counts(a).file_lines + step_counts(b).file_lines,
        }),
    decreases b.len(),
{
    if b.len() == 0 {
        assert(a + b =~= a);
    } else {
        lemma_step_counts_concat(a, b.drop_last());
        assert((a + b).drop_last() =~= a + b.drop_last());
        assert((a + b).last() == b.last());
    }
}

/// Law: a walk closes every branch it draws, and it counts exactly the
/// folders and files it prints.
pub proof fn law_walk_balanced_and_counted(entries: Seq<Seq<char>>, infos: Seq<ItemInfo>, depth: nat, i: nat)
    ensures
        step_counts(walk_steps(entries, infos, depth, i)).branches == step_counts(
            walk_steps(entries, infos, depth, i),
        ).pops,
        step_counts(walk_steps(entries, infos, depth, i)).dir_lines == walk_tally(
            entries,
            infos,
            depth,
            i,
        ).dirs,
        step_counts(walk_steps(entries, infos, depth, i)).file_lines == walk_tally(
            entries,
            infos,
            depth,
            i,
        ).files,
    decreases 3 - depth, entries.len() - i,
{
    if depth > DEPTH_LIMIT || i >= entries.len() {
    } else {
        lemma_walk_unfold(entries, infos, depth, i);
        law_walk_balanced_and_counted(entries, infos, depth, i + 1);
        let e = entries[i as int];
        let branch = seq![StepModel::Branch(i, entries.len())];
        let pop = seq![StepModel::Pop];
        let rest = walk_steps(entries, infos, depth, i + 1);
        assert(step_counts(branch) == StepCounts { branches: 1, pops: 0, dir_lines: 0, file_lines: 0 }) by {
            assert(branch.drop_last() =~= Seq::<StepModel>::empty());
            assert(step_counts(branch.drop_last()) == StepCounts { branches: 0, pops: 0, dir_lines: 0, file_lines: 0 });
        }
        assert(step_counts(pop) == StepCounts { branches: 0, pops: 1, dir_lines: 0, file_lines: 0 }) by {
            assert(pop.drop_last() =~= Seq::<StepModel>::empty());
            assert(step_counts(pop.drop_last()) == StepCounts { branches: 0, pops: 0, dir_lines: 0, file_lines: 0 });
        }
        let body = if is_dir_info(infos[i as int]) {
            seq![StepModel::DirLine(item_name(e), e)] + walk_steps(entries, infos, depth + 1, 0)
        } else {
            seq![StepModel::FileLine(item_name(e), e)]
        };
        if is_dir_info(infos[i as int]) {
            let line = seq![StepModel::DirLine(item_name(e), e)];
            assert(line.drop_last() =~= Seq::<StepModel>::empty());
            assert(step_counts(line.drop_last()) == StepCounts { branches: 0, pops: 0, dir_lines: 0, file_lines: 0 });
            law_walk_balanced_and_counted(entries, infos, depth + 1, 0);
            lemma_step_counts_concat(line, walk_steps(entries, infos, depth + 1, 0));
        } else {
            let line = seq![StepModel::FileLine(item_name(e), e)];
            assert(line.drop_last() =~= Seq::<StepModel>::empty());
            assert(step_counts(line.drop_last()) == StepCounts { branches: 0, pops: 0, dir_lines: 0, file_lines: 0 });
        }
        lemma_step_counts_concat(branch, body);
        lemma_step_counts_concat(branch + body, pop);
        lemma_step_counts_concat(branch + body + pop, rest);
    }
}


/// `a + b`, or none where the sum leaves the range of the type.
fn add_tallies(a: (usize, usize, u64), b: (usize, usize, u64)) -> (r: Option<(usize, usize, u64)>)
    ensures
        match r {
            Some(t) => t.0 == a.0 + b.0 && t.1 == a.1 + b.1 && t.2 == a.2 + b.2,
            None => a.0 + b.0 > usize::MAX || a.1 + b.1 > usize::MAX || a.2 + b.2 > u64::MAX,
        },
{
    if a.0 > usize::MAX - b.0 || a.1 > usize::MAX - b.1 || a.2 > u64::MAX - b.2 {
        None
    } else {
        Some((a.0 + b.0, a.1 + b.1, a.2 + b.2))
    }
}

pub open spec fn tally_of(t: (usize, usize, u64)) -> Tally {
    Tally { dirs: t.0 as nat, files: t.1 as nat, bytes: t.2 as nat }
}

pub open spec fn tally_in_range(t: Tally) -> bool {
    t.dirs <= usize::MAX && t.files <= usize::MAX && t.bytes <= u64::MAX
}

/// What walking a list of `n` paths from `depth` counts, or none where a
/// count leaves the range of its type.
fn level_tally(n: usize, items: &Vec<ItemInfo>, depth: usize, Ghost(entries): Ghost<Seq<Seq<char>>>) -> (r: Option<(usize, usize, u64)>)
    requires
        items@.len() == n,
        entries.len() == n,
    ensures
        match r {
            Some(t) => tally_of(t) == walk_tally(entries, items@, depth as nat, 0),
            None => !tally_in_range(walk_tally(entries, items@, depth as nat, 0)),
        },
    decreases 3 - depth,
{
    if depth > DEPTH_LIMIT {
        return Some((0, 0, 0));
    }
    let deeper = level_tally(n, items, depth + 1, Ghost(entries));
    let mut acc: (usize, usize, u64) = (0, 0, 0);
    let mut i: usize = 0;
    let ghost d = depth as nat;
    let ghost whole = walk_tally(entries, items@, d, 0);
    assert(whole == tally_add(tally_of(acc), walk_tally(entries, items@, d, 0)));
    while i < n
        invariant
            items@.len() == n,
            entries.len() == n,
            d == depth as nat,
            d <= DEPTH_LIMIT,
            i <= n,
            whole == walk_tally(entries, items@, d, 0),
            match deeper {
                Some(t) => tally_of(t) == walk_tally(entries, items@, d + 1, 0),
                None => !tally_in_range(walk_tally(entries, items@, d + 1, 0)),
            },
            whole == tally_add(tally_of(acc), walk_tally(entries, items@, d, i as nat)),
        decreases n - i,
    {
        proof {
            lemma_walk_unfold(entries, items@, d, i as nat);
        }
        let info = items[i];
        let body = match info.file_type {
            Some(FileKind::Dir) => match deeper {
                None => {
                    return None;
                },
                Some(t) => match add_tallies((1, 0, 0), t) {
                    Some(b) => b,
                    None => {
                        return None;
                    },
                },
            },
            _ => (0, 1, 0),
        };
        let sized = match info.size {
            Some(sz) => match add_tallies(body, (0, 0, sz)) {
                Some(t) => t,
                None => {
                    return None;
                },
            },
            None => body,
        };
        acc = match add_tallies(acc, sized) {
            Some(t) => t,
            None => {
                return None;
            },
        };
        i = i + 1;
    }
    assert(walk_tally(entries, items@, d, i as nat) == Tally { dirs: 0, files: 0, bytes: 0 });
    Some(acc)
}

impl WalkDir {
    /// Walks as `walk` does where the walk can be carried out: one answer per
    /// path, a name for every path it visits, and counts that stay in range.
    /// Otherwise leaves everything as it is and answers false.
    pub fn try_walk(&mut self) -> (r: bool)
        ensures
            r == (walk_ready(*old(self)) && fits(
                old(self).total,
                walk_tally(entry_texts(old(self).result_tree@), old(self).items@, old(self).depth as nat, 0),
            )),
            r ==> step_models(final(self).output@) == step_models(old(self).output@) + walk_steps(
                entry_texts(old(self).result_tree@),
                old(self).items@,
                old(self).depth as nat,
                0,
            ) && totals_tally(final(self).total) == tally_add(
                totals_tally(old(self).total),
                walk_tally(entry_texts(old(self).result_tree@), old(self).items@, old(self).depth as nat, 0),
            ),
            r ==> final(self).depth == old(self).depth && final(self).result_tree == old(self).result_tree
                && final(self).items == old(self).items,
            !r ==> *final(self) == *old(self),
    {
        let n: usize = self.result_tree.len();
        let tally = if self.depth <= DEPTH_LIMIT {
            if self.items.len() != n {
                return false;
            }
            let mut i: usize = 0;
            while i < n
                invariant
                    n == self.result_tree@.len(),
                    self.depth <= DEPTH_LIMIT,
                    i <= n,
                    forall|k: int| 0 <= k < i ==> has_item_name(#[trigger] self.result_tree@[k]@),
                decreases n - i,
            {
                let p = parse_path(self.result_tree[i].as_str());
                match p.file_name() {
                    Some(_) => {},
                    None => {
                        assert(!has_item_name(self.result_tree@[i as int]@));
                        assert(!walk_ready(*self));
                        return false;
                    },
                }
                i = i + 1;
            }
            match level_tally(n, &self.items, self.depth, Ghost(entry_texts(self.result_tree@))) {
                Some(t) => t,
                None => {
                    return false;
                },
            }
        } else {
            assert(walk_tally(entry_texts(self.result_tree@), self.items@, self.depth as nat, 0) == Tally {
                dirs: 0,
                files: 0,
                bytes: 0,
            });
            (0, 0, 0)
        };
        assert(walk_ready(*self));
        let current = (self.total.directories, self.total.files, self.total.size);
        match add_tallies(current, tally) {
            Some(_) => {},
            None => {
                return false;
            },
        }
        self.walk();
        true
    }
}


/// Law: a walk never reads the walker's path. Two walkers that differ at most
/// in their path (and in how their texts are held) can walk alike, and a walk
/// writes the same steps and adds the same counts on both.
pub proof fn law_walk_ignores_path(w1: WalkDir, w2: WalkDir)
    requires
        w1.depth == w2.depth,
        totals_tally(w1.total) == totals_tally(w2.total),
        entry_texts(w1.result_tree@) == entry_texts(w2.result_tree@),
        w1.items@ == w2.items@,
    ensures
        walk_ready(w1) == walk_ready(w2),
        walk_steps(entry_texts(w1.result_tree@), w1.items@, w1.depth as nat, 0) == walk_steps(
            entry_texts(w2.result_tree@),
            w2.items@,
            w2.depth as nat,
            0,
        ),
        walk_tally(entry_texts(w1.result_tree@), w1.items@, w1.depth as nat, 0) == walk_tally(
            entry_texts(w2.result_tree@),
            w2.items@,
            w2.depth as nat,
            0,
        ),
        forall|extra: Tally| fits(w1.total, extra) == fits(w2.total, extra),
{
    let t1 = entry_texts(w1.result_tree@);
    let t2 = entry_texts(w2.result_tree@);
    assert(w1.result_tree@.len() == t1.len());
    assert(w2.result_tree@.len() == t2.len());
    assert forall|k: int| 0 <= k < w1.result_tree@.len() implies w1.result_tree@[k]@ == w2.result_tree@[k]@ by {
        assert(t1[k] == w1.result_tree@[k]@);
        assert(t2[k] == w2.result_tree@[k]@);
    }
}


/// Law: every path written `y/n`, for a name `n` that is neither empty, `.`
/// nor `..` and holds no `/`, can be walked and is shown under the name `n`,
/// whatever its first character (a hidden `.git` too).
pub proof fn law_named_paths_can_be_walked(y: Seq<char>, n: Seq<char>)
    requires
        is_named_piece(n),
        !n.contains('/'),
        n != parent_dir_component(),
    ensures
        has_item_name(y + seq!['/'] + n),
        item_name(y + seq!['/'] + n) == n,
{
    law_joined_name_is_last_component(y, n);
    if n == seq!['/'] {
        assert(n[0] == '/');
        assert(n.contains('/'));
    }
}

} // verus!
