//! One listed path as the walk meets it: shown as a folder, walked into, or
//! shown as a file, and counted.

use vstd::prelude::*;
use crate::path::parse_path;
use crate::walker::{FileKind, WalkDir, WalkStep, StepModel, Tally, ready_at, levels_left, walk_steps, walk_tally, tally_add, totals_tally, fits, step_models, entry_texts, item_name, has_item_name};

verus! {

/// A listed path with its name, the depth it was met at, and what its
/// metadata says.
pub struct ItemCollector {
    pub name: String,
    pub path: String,
    pub depth: usize,
    pub file_type: Option<FileKind>,
    pub size: Option<u64>,
}

impl ItemCollector {
    /// The item for the path written as `entry`, met at `depth`, with the
    /// kind and length its metadata gave (none where it could not be read).
    pub fn new(entry: &String, depth: &usize, file_type: Option<FileKind>, size: Option<u64>) -> (r: ItemCollector)
        requires
            has_item_name(entry@),
        ensures
            r.name@ == item_name(entry@),
            r.path@ == entry@,
            r.depth == *depth,
            r.file_type == file_type,
            r.size == size,
    {
        let path = parse_path(entry.as_str());
        let name = match path.file_name() {
            Some(n) => n,
            None => entry.clone(),
        };
        ItemCollector { name, path: entry.clone(), depth: *depth, file_type, size }
    }

    /// Shows the item (walking into it if it is a folder) and adds its size.
    pub fn get_item(&self, walk: &mut WalkDir)
        requires
            self.is_dir() ==> old(walk).depth < usize::MAX && ready_at(*old(walk), old(walk).depth + 1),
            fits(old(walk).total, tally_add(self.body_tally(*old(walk)), Tally { dirs: 0, files: 0, bytes: self.size_tally() })),
        ensures
            final(walk).depth == old(walk).depth,
            final(walk).path == old(walk).path,
            final(walk).result_tree == old(walk).result_tree,
            final(walk).items == old(walk).items,
            step_models(final(walk).output@) == step_models(old(walk).output@) + self.body_steps(*old(walk)),
            totals_tally(final(walk).total) == tally_add(
                totals_tally(old(walk).total),
                tally_add(self.body_tally(*old(walk)), Tally { dirs: 0, files: 0, bytes: self.size_tally() }),
            ),
        decreases levels_left(old(walk).depth as int), 1int, 0int,
    {
        if self.file_type_is_dir() {
            self.process_dir(walk);
        } else {
            self.process_file(walk);
        }
        match self.size {
            Some(size) => {
                walk.total.size = walk.total.size + size;
            },
            None => {},
        }
    }

    pub open spec fn is_dir(&self) -> bool {
        self.file_type == Some(FileKind::Dir)
    }

    pub open spec fn size_tally(&self) -> nat {
        match self.size {
            Some(n) => n as nat,
            None => 0,
        }
    }

    /// What showing this item writes, the walk into it included.
    pub open spec fn body_steps(&self, w: WalkDir) -> Seq<StepModel> {
        if self.is_dir() {
            seq![StepModel::DirLine(self.name@, self.path@)] + walk_steps(
                entry_texts(w.result_tree@),
                w.items@,
                (w.depth + 1) as nat,
                0,
            )
        } else {
            seq![StepModel::FileLine(self.name@, self.path@)]
        }
    }

    /// What showing this item counts, the walk into it included.
    pub open spec fn body_tally(&self, w: WalkDir) -> Tally {
        if self.is_dir() {
            tally_add(
                Tally { dirs: 1, files: 0, bytes: 0 },
                walk_tally(entry_texts(w.result_tree@), w.items@, (w.depth + 1) as nat, 0),
            )
        } else {
            Tally { dirs: 0, files: 1, bytes: 0 }
        }
    }

    fn file_type_is_dir(&self) -> (r: bool)
        ensures
            r == self.is_dir(),
    {
        match self.file_type {
            Some(FileKind::Dir) => true,
            _ => false,
        }
    }

    /// Shows the folder, counts it, and walks the list one level deeper.
    fn process_dir(&self, walk: &mut WalkDir)
        requires
            self.is_dir(),
            old(walk).depth < usize::MAX,
            ready_at(*old(walk), old(walk).depth + 1),
            fits(old(walk).total, self.body_tally(*old(walk))),
        ensures
            final(walk).depth == old(walk).depth,
            final(walk).path == old(walk).path,
            final(walk).result_tree == old(walk).result_tree,
            final(walk).items == old(walk).items,
            step_models(final(walk).output@) == step_models(old(walk).output@) + self.body_steps(*old(walk)),
            totals_tally(final(walk).total) == tally_add(totals_tally(old(walk).total), self.body_tally(*old(walk))),
        decreases levels_left(old(walk).depth as int), 0int, 1int,
    {
        let ghost before = step_models(walk.output@);
        walk.output.push(WalkStep::DirLine { name: self.name.clone(), path: self.path.clone() });
        assert(step_models(walk.output@) =~= before.push(StepModel::DirLine(self.name@, self.path@)));
        walk.total.directories = walk.total.directories + 1;
        walk.depth = walk.depth + 1;
        walk.walk();
        walk.depth = walk.depth - 1;
        assert(step_models(walk.output@) =~= before + self.body_steps(*old(walk)));
    }

    /// Shows the file and counts it.
    fn process_file(&self, walk: &mut WalkDir)
        requires
            !self.is_dir(),
            fits(old(walk).total, self.body_tally(*old(walk))),
        ensures
            final(walk).depth == old(walk).depth,
            final(walk).path == old(walk).path,
            final(walk).result_tree == old(walk).result_tree,
            final(walk).items == old(walk).items,
            step_models(final(walk).output@) == step_models(old(walk).output@) + self.body_steps(*old(walk)),
            totals_tally(final(walk).total) == tally_add(totals_tally(old(walk).total), self.body_tally(*old(walk))),
    {
        let ghost before = step_models(walk.output@);
        walk.output.push(WalkStep::FileLine { name: self.name.clone(), path: self.path.clone() });
        assert(step_models(walk.output@) =~= before + self.body_steps(*old(walk)));
        walk.total.files = walk.total.files + 1;
    }
}

} // verus!
