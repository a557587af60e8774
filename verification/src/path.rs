//! Paths as sequences of components, following the rules that Unix paths obey:
//! a leading `/` is the root, repeated separators and `.` pieces are dropped,
//! except a `.` at the very start of a relative path.

use vstd::prelude::*;
use vstd::string::*;

verus! {

/// The components of a path; the root is written as the one-character component `/`.
pub type PathModel = Seq<Seq<char>>;

pub open spec fn root_component() -> Seq<char> {
    seq!['/']
}

pub open spec fn cur_dir_component() -> Seq<char> {
    seq!['.']
}

pub open spec fn parent_dir_component() -> Seq<char> {
    seq!['.', '.']
}

/// The pieces of `s` between `/` separators (always at least one piece).
pub open spec fn split_at_slashes(s: Seq<char>) -> Seq<Seq<char>>
    decreases s.len(),
{
    if s.len() == 0 {
        seq![Seq::empty()]
    } else {
        let r = split_at_slashes(s.drop_last());
        if s.last() == '/' {
            r.push(Seq::empty())
        } else {
            r.update(r.len() - 1, r.last().push(s.last()))
        }
    }
}

/// A piece that names a component: neither empty nor `.`.
pub open spec fn is_named_piece(piece: Seq<char>) -> bool {
    piece.len() > 0 && piece != cur_dir_component()
}

pub open spec fn named_pieces(pieces: Seq<Seq<char>>) -> Seq<Seq<char>>
    decreases pieces.len(),
{
    if pieces.len() == 0 {
        Seq::empty()
    } else {
        let r = named_pieces(pieces.drop_last());
        if is_named_piece(pieces.last()) {
            r.push(pieces.last())
        } else {
            r
        }
    }
}

pub open spec fn has_root(s: Seq<char>) -> bool {
    s.len() > 0 && s[0] == '/'
}

/// A relative path that starts with the piece `.` keeps it as its first component.
pub open spec fn leading_cur_dir(s: Seq<char>) -> bool {
    s.len() > 0 && s[0] == '.' && (s.len() == 1 || s[1] == '/')
}

/// The components of the path written as `s`.
pub open spec fn path_components(s: Seq<char>) -> PathModel {
    let head: PathModel = if has_root(s) {
        seq![root_component()]
    } else if leading_cur_dir(s) {
        seq![cur_dir_component()]
    } else {
        Seq::empty()
    };
    head + named_pieces(split_at_slashes(s))
}

/// What every path built by `parse_path` satisfies.
pub open spec fn well_formed_path(p: PathModel) -> bool {
    forall|i: int|
        0 <= i < p.len() ==> {
            &&& (#[trigger] p[i]).len() > 0
            &&& (p[i] == root_component() || !p[i].contains('/')) 
            &&& (p[i] == root_component() ==> i == 0)
            &&& (p[i] == cur_dir_component() ==> i == 0)
        }
}

/// The parent of a path: everything but its last component, and none for the
/// root alone or for the empty path.
pub open spec fn path_parent(p: PathModel) -> Option<PathModel> {
    if p.len() == 0 || (p.len() == 1 && p[0] == root_component()) {
        None
    } else {
        Some(p.drop_last())
    }
}

/// A component that names an entry: neither the root, `.` nor `..`.
pub open spec fn is_normal_component(c: Seq<char>) -> bool {
    c != root_component() && c != cur_dir_component() && c != parent_dir_component()
}

/// The last component, when it names an entry.
pub open spec fn path_file_name(p: PathModel) -> Option<Seq<char>> {
    if p.len() > 0 && is_normal_component(p.last()) {
        Some(p.last())
    } else {
        None
    }
}

/// Index of the last `.` in `s`, or -1.
pub open spec fn last_dot(s: Seq<char>) -> int
    decreases s.len(),
{
    if s.len() == 0 {
        -1
    } else if s.last() == '.' {
        s.len() - 1
    } else {
        last_dot(s.drop_last())
    }
}

/// The extension of a file name: what follows its last `.`, when that dot is
/// not the first character.
pub open spec fn name_extension(name: Seq<char>) -> Option<Seq<char>> {
    let k = last_dot(name);
    if k <= 0 {
        None
    } else {
        Some(name.subrange(k + 1, name.len() as int))
    }
}

/// `base` is a prefix of `p`, component by component.
pub open spec fn is_component_prefix(base: PathModel, p: PathModel) -> bool {
    base.len() <= p.len() && p.take(base.len() as int) == base
}

/// The text of `base` with `rel` pushed onto it: a rooted `rel` replaces
/// `base`, otherwise a separator is put between them where `base` lacks one.
pub open spec fn pushed_path(base: Seq<char>, rel: Seq<char>) -> Seq<char> {
    if has_root(rel) {
        rel
    } else if base.len() == 0 || base.last() == '/' {
        base + rel
    } else {
        base + seq!['/'] + rel
    }
}

pub proof fn lemma_split_nonempty(s: Seq<char>)
    ensures
        split_at_slashes(s).len() >= 1,
    decreases s.len(),
{
    if s.len() > 0 {
        lemma_split_nonempty(s.drop_last());
    }
}

/// A path, held as its components.
#[derive(Debug)]
pub struct EntryPath {
    pub components: Vec<String>,
}

impl View for EntryPath {
    type V = PathModel;

    open spec fn view(&self) -> PathModel {
        self.components@.map_values(|c: String| c@)
    }
}

/// Reads the path written as `raw` into its components.
pub fn parse_path(raw: &str) -> (p: EntryPath)
    ensures
        p@ == path_components(raw@),
{
    let n: usize = raw.unicode_len();
    let mut comps: Vec<String> = Vec::new();
    let ghost head: PathModel = if has_root(raw@) {
        seq![root_component()]
    } else if leading_cur_dir(raw@) {
        seq![cur_dir_component()]
    } else {
        Seq::empty()
    };
    if n > 0 && raw.get_char(0) == '/' {
        let root = String::from_str(raw.substring_char(0, 1));
        assert(root@ =~= root_component());
        comps.push(root);
    } else if n > 0 && raw.get_char(0) == '.' && (n == 1 || raw.get_char(1) == '/') {
        let cur = String::from_str(raw.substring_char(0, 1));
        assert(cur@ =~= cur_dir_component());
        comps.push(cur);
    }
    assert(comps@.map_values(|c: String| c@) =~= head);
    let mut start: usize = 0;
    let mut i: usize = 0;
    let ghost mut done: Seq<Seq<char>> = Seq::empty();
    assert(raw@.subrange(0, 0) =~= Seq::<char>::empty());
    assert(split_at_slashes(raw@.subrange(0, 0)) =~= done.push(raw@.subrange(0, 0)));
    while i < n
        invariant
            n == raw@.len(),
            start <= i <= n,
            split_at_slashes(raw@.subrange(0, i as int)) == done.push(
                raw@.subrange(start as int, i as int),
            ),
            comps@.map_values(|c: String| c@) == head + named_pieces(done),
            forall|j: int| start <= j < i ==> raw@[j] != '/',
        decreases n - i,
    {
        let c = raw.get_char(i);
        let ghost prev = raw@.subrange(0, i as int);
        let ghost next = raw@.subrange(0, i + 1);
        assert(next.drop_last() =~= prev);
        assert(next.last() == c);
        if c == '/' {
            let ghost piece = raw@.subrange(start as int, i as int);
            let keep = i > start && !(i == start + 1 && raw.get_char(start) == '.');
            let ghost before = comps@;
            if keep {
                let s = String::from_str(raw.substring_char(start, i));
                comps.push(s);
                assert(comps@.map_values(|c: String| c@) =~= before.map_values(|c: String| c@).push(piece));
                proof {
                    if piece =~= cur_dir_component() {
                        assert(piece[0] == raw@[start as int]);
                    }
                    assert(piece.len() > 0);
                    assert(is_named_piece(piece));
                }
            } else {
                proof {
                    if i == start + 1 {
                        assert(piece =~= cur_dir_component());
                    } else {
                        assert(piece.len() == 0);
                    }
                    assert(!is_named_piece(piece));
                }
            }
            proof {
                assert(is_named_piece(piece) == keep);
                let old_done = done;
                let new_done = done.push(piece);
                assert(new_done.drop_last() =~= old_done);
                assert(new_done.last() == piece);
                assert(named_pieces(new_done) == if keep {
                    named_pieces(old_done).push(piece)
                } else {
                    named_pieces(old_done)
                });
                assert(split_at_slashes(next) == split_at_slashes(prev).push(Seq::empty()));
                assert(raw@.subrange(i + 1, i + 1) =~= Seq::<char>::empty());
                assert(split_at_slashes(next) =~= new_done.push(raw@.subrange(i + 1, i + 1)));
                done = new_done;
            }
            assert(comps@.map_values(|c: String| c@) =~= head + named_pieces(done));
            start = i + 1;
        } else {
            proof {
                let r = split_at_slashes(prev);
                assert(raw@.subrange(start as int, i + 1) =~= raw@.subrange(
                    start as int,
                    i as int,
                ).push(c));
                assert(split_at_slashes(next) =~= done.push(raw@.subrange(start as int, i + 1)));
            }
        }
        i = i + 1;
    }
    let ghost piece = raw@.subrange(start as int, n as int);
    let keep = n > start && !(n == start + 1 && raw.get_char(start) == '.');
    let ghost before = comps@;
    if keep {
        let s = String::from_str(raw.substring_char(start, n));
        comps.push(s);
        assert(comps@.map_values(|c: String| c@) =~= before.map_values(|c: String| c@).push(piece));
        proof {
            if piece =~= cur_dir_component() {
                assert(piece[0] == raw@[start as int]);
            }
        }
    } else {
        proof {
            if n == start + 1 {
                assert(piece =~= cur_dir_component());
            }
        }
    }
    proof {
        assert(is_named_piece(piece) == keep);
        assert(raw@.subrange(0, n as int) =~= raw@);
        let all = done.push(piece);
        assert(all.drop_last() =~= done);
        assert(all.last() == piece);
        assert(split_at_slashes(raw@) == all);
        assert(named_pieces(all) == if keep {
            named_pieces(done).push(piece)
        } else {
            named_pieces(done)
        });
    }
    let p = EntryPath { components: comps };
    assert(p@ =~= path_components(raw@));
    p
}


/// Every piece of a split is free of separators.
pub proof fn lemma_split_pieces_have_no_slash(s: Seq<char>)
    ensures
        forall|i: int|
            0 <= i < split_at_slashes(s).len() ==> !(#[trigger] split_at_slashes(s)[i]).contains(
                '/',
            ),
    decreases s.len(),
{
    lemma_split_nonempty(s);
    if s.len() > 0 {
        let r = split_at_slashes(s.drop_last());
        lemma_split_nonempty(s.drop_last());
        lemma_split_pieces_have_no_slash(s.drop_last());
        if s.last() != '/' {
            let last = r.last().push(s.last());
            assert forall|j: int| 0 <= j < last.len() implies last[j] != '/' by {
                if j < r.last().len() {
                    assert(last[j] == r.last()[j]);
                    assert(r[r.len() - 1] == r.last());
                }
            }
        }
        assert forall|i: int|
            0 <= i < split_at_slashes(s).len() implies !(#[trigger] split_at_slashes(
                s,
            )[i]).contains('/') by {
            if i < r.len() - 1 {
                assert(split_at_slashes(s)[i] == r[i]);
            } else if i == r.len() - 1 {
                if s.last() == '/' {
                    assert(split_at_slashes(s)[i] == r[i]);
                }
            } else {
                assert(split_at_slashes(s)[i] =~= Seq::<char>::empty());
            }
        }
    }
}

/// Each kept piece is a named piece of the input.
pub proof fn lemma_named_pieces_come_from(pieces: Seq<Seq<char>>)
    ensures
        forall|i: int|
            0 <= i < named_pieces(pieces).len() ==> is_named_piece(
                #[trigger] named_pieces(pieces)[i],
            ) && pieces.contains(named_pieces(pieces)[i]),
    decreases pieces.len(),
{
    if pieces.len() > 0 {
        let rest = pieces.drop_last();
        lemma_named_pieces_come_from(rest);
        assert forall|i: int|
            0 <= i < named_pieces(pieces).len() implies is_named_piece(
                #[trigger] named_pieces(pieces)[i],
            ) && pieces.contains(named_pieces(pieces)[i]) by {
            if i < named_pieces(rest).len() {
                assert(named_pieces(pieces)[i] == named_pieces(rest)[i]);
                let k = choose|k: int| 0 <= k < rest.len() && rest[k] == named_pieces(rest)[i];
                assert(pieces[k] == rest[k]);
            } else {
                assert(pieces[pieces.len() - 1] == pieces.last());
            }
        }
    }
}

/// Law: whatever text is read, the components it yields are well formed: none
/// is empty, only the first may be the root or `.`, and no other holds a `/`.
pub proof fn lemma_parsed_path_well_formed(s: Seq<char>)
    ensures
        well_formed_path(path_components(s)),
{
    let pieces = split_at_slashes(s);
    lemma_split_pieces_have_no_slash(s);
    lemma_named_pieces_come_from(pieces);
    let head: PathModel = if has_root(s) {
        seq![root_component()]
    } else if leading_cur_dir(s) {
        seq![cur_dir_component()]
    } else {
        Seq::empty()
    };
    let body = named_pieces(pieces);
    let p = path_components(s);
    assert(p == head + body);
    assert forall|i: int| 0 <= i < p.len() implies {
        &&& (#[trigger] p[i]).len() > 0
        &&& (p[i] == root_component() || !p[i].contains('/'))
        &&& (p[i] == root_component() ==> i == 0)
        &&& (p[i] == cur_dir_component() ==> i == 0)
    } by {
        if i >= head.len() {
            let c = body[i - head.len()];
            assert(p[i] == c);
            assert(is_named_piece(c));
            let k = choose|k: int| 0 <= k < pieces.len() && pieces[k] == c;
            assert(!pieces[k].contains('/'));
            if c == root_component() {
                assert(c[0] == '/');
                assert(c.contains('/'));
            }
        } else {
            if has_root(s) {
                assert(p[i] == root_component());
                assert(root_component() != cur_dir_component()) by {
                    assert(root_component()[0] != cur_dir_component()[0]);
                }
            } else {
                assert(p[i] == cur_dir_component());
                assert(!cur_dir_component().contains('/')) by {
                    assert forall|j: int| 0 <= j < 1 implies cur_dir_component()[j] != '/' by {}
                }
                assert(root_component() != cur_dir_component()) by {
                    assert(root_component()[0] != cur_dir_component()[0]);
                }
            }
        }
    }
}

/// Whether `c` is the root component `/`.
pub fn is_root_text(c: &String) -> (r: bool)
    ensures
        r == (c@ == root_component()),
{
    let s = c.as_str();
    let r = s.unicode_len() == 1 && s.get_char(0) == '/';
    proof {
        if c@ == root_component() {
            assert(c@[0] == '/');
        }
        if r {
            assert(c@ =~= root_component());
        }
    }
    r
}

/// Whether `c` is the component `.`.
pub fn is_cur_dir_text(c: &str) -> (r: bool)
    ensures
        r == (c@ == cur_dir_component()),
{
    let r = c.unicode_len() == 1 && c.get_char(0) == '.';
    proof {
        if c@ == cur_dir_component() {
            assert(c@[0] == '.');
        }
        if r {
            assert(c@ =~= cur_dir_component());
        }
    }
    r
}

/// Whether `c` is the component `..`.
pub fn is_parent_dir_text(c: &str) -> (r: bool)
    ensures
        r == (c@ == parent_dir_component()),
{
    let r = c.unicode_len() == 2 && c.get_char(0) == '.' && c.get_char(1) == '.';
    proof {
        if c@ == parent_dir_component() {
            assert(c@[0] == '.' && c@[1] == '.');
        }
        if r {
            assert(c@ =~= parent_dir_component());
        }
    }
    r
}

/// The text of `base` with `rel` pushed onto it.
pub fn push_path(base: &str, rel: &str) -> (r: String)
    ensures
        r@ == pushed_path(base@, rel@),
{
    let rel_len: usize = rel.unicode_len();
    if rel_len > 0 && rel.get_char(0) == '/' {
        return String::from_str(rel);
    }
    let base_len: usize = base.unicode_len();
    let mut out = String::from_str(base);
    if base_len > 0 && base.get_char(base_len - 1) != '/' {
        let slash = String::from_str("/");
        proof {
            reveal_strlit("/");
        }
        out.append(slash.as_str());
        proof {
            assert(base@.last() == base@[base_len - 1]);
        }
    }
    out.append(rel);
    proof {
        if base_len > 0 {
            assert(base@.last() == base@[base_len - 1]);
        }
    }
    out
}

/// The extension of the file name `name`, see `name_extension`.
pub fn extension_of(name: &str) -> (r: Option<String>)
    ensures
        match r {
            Some(e) => name_extension(name@) == Some(e@),
            None => name_extension(name@) is None,
        },
{
    let n: usize = name.unicode_len();
    let mut i: usize = n;
    assert(name@.subrange(0, n as int) =~= name@);
    while i > 0 && name.get_char(i - 1) != '.'
        invariant
            n == name@.len(),
            i <= n,
            last_dot(name@) == last_dot(name@.subrange(0, i as int)),
        decreases i,
    {
        proof {
            let t = name@.subrange(0, i as int);
            assert(t.drop_last() =~= name@.subrange(0, i - 1));
            assert(t.last() == name@[i - 1]);
        }
        i = i - 1;
    }
    proof {
        let t = name@.subrange(0, i as int);
        if i > 0 {
            assert(t.last() == name@[i - 1]);
        } else {
            assert(t.len() == 0);
        }
    }
    if i <= 1 {
        None
    } else {
        Some(String::from_str(name.substring_char(i, n)))
    }
}

impl EntryPath {
    /// The number of components.
    pub fn component_count(&self) -> (n: usize)
        ensures
            n == self@.len(),
    {
        self.components.len()
    }

    /// Whether the path has no components at all.
    pub fn is_empty(&self) -> (r: bool)
        ensures
            r == (self@.len() == 0),
    {
        self.components.len() == 0
    }

    /// The path made of the first `k` components.
    pub fn prefix(&self, k: usize) -> (r: EntryPath)
        requires
            k <= self@.len(),
        ensures
            r@ == self@.take(k as int),
    {
        let mut comps: Vec<String> = Vec::new();
        let mut i: usize = 0;
        assert(comps@.map_values(|c: String| c@) =~= self@.take(0));
        while i < k
            invariant
                i <= k <= self@.len(),
                self@.len() == self.components@.len(),
                comps@.map_values(|c: String| c@) == self@.take(i as int),
            decreases k - i,
        {
            let c = self.components[i].clone();
            let ghost before = comps@;
            comps.push(c);
            assert(self@[i as int] == self.components@[i as int]@);
            assert(comps@.map_values(|c: String| c@) =~= before.map_values(|c: String| c@).push(
                c@,
            ));
            assert(comps@.map_values(|c: String| c@) =~= self@.take(i + 1));
            i = i + 1;
        }
        EntryPath { components: comps }
    }

    /// The parent path, as `path_parent` gives it.
    pub fn parent(&self) -> (r: Option<EntryPath>)
        ensures
            match r {
                Some(p) => path_parent(self@) == Some(p@),
                None => path_parent(self@) is None,
            },
    {
        let n: usize = self.components.len();
        if n == 0 {
            return None;
        }
        if n == 1 && is_root_text(&self.components[0]) {
            return None;
        }
        let p = self.prefix(n - 1);
        assert(p@ =~= self@.drop_last());
        Some(p)
    }

    /// Whether `base` is a component-wise prefix of this path.
    pub fn starts_with(&self, base: &EntryPath) -> (r: bool)
        ensures
            r == is_component_prefix(base@, self@),
    {
        let n: usize = base.components.len();
        if n > self.components.len() {
            return false;
        }
        let mut i: usize = 0;
        while i < n
            invariant
                n == base@.len(),
                n <= self@.len(),
                self@.len() == self.components@.len(),
                i <= n,
                forall|j: int| 0 <= j < i ==> self@[j] == base@[j],
            decreases n - i,
        {
            if self.components[i] != base.components[i] {
                assert(self@.take(n as int)[i as int] == self@[i as int]);
                return false;
            }
            i = i + 1;
        }
        assert(self@.take(n as int) =~= base@);
        true
    }

    /// Whether both paths have the same components.
    pub fn same_path(&self, other: &EntryPath) -> (r: bool)
        ensures
            r == (self@ == other@),
    {
        if self.components.len() != other.components.len() {
            return false;
        }
        let r = self.starts_with(other);
        proof {
            assert(self@.len() == other@.len());
            assert(self@.take(other@.len() as int) =~= self@);
        }
        r
    }

    /// The last component, when it names an entry.
    pub fn file_name(&self) -> (r: Option<String>)
        ensures
            match r {
                Some(name) => path_file_name(self@) == Some(name@),
                None => path_file_name(self@) is None,
            },
    {
        let n: usize = self.components.len();
        if n == 0 {
            return None;
        }
        let last = &self.components[n - 1];
        assert(last@ == self@.last());
        if is_root_text(last) || is_cur_dir_text(last.as_str()) || is_parent_dir_text(
            last.as_str(),
        ) {
            None
        } else {
            Some(last.clone())
        }
    }
}

impl Clone for EntryPath {
    fn clone(&self) -> (r: Self)
        ensures
            r@ == self@,
    {
        let r = self.prefix(self.components.len());
        assert(self@.take(self@.len() as int) =~= self@);
        r
    }
}


/// Splitting `x/n`, where `n` holds no `/`, gives the pieces of `x` and then `n`.
pub proof fn lemma_split_then_piece(x: Seq<char>, n: Seq<char>)
    requires
        !n.contains('/'),
    ensures
        split_at_slashes(x + seq!['/'] + n) == split_at_slashes(x).push(n),
    decreases n.len(),
{
    let s = x + seq!['/'] + n;
    if n.len() == 0 {
        assert(s.drop_last() =~= x);
        assert(s.last() == '/');
        assert(n =~= Seq::<char>::empty());
        assert(split_at_slashes(s) == split_at_slashes(x).push(Seq::empty()));
    } else {
        let n0 = n.drop_last();
        assert(!n0.contains('/')) by {
            assert forall|j: int| 0 <= j < n0.len() implies n0[j] != '/' by {
                assert(n0[j] == n[j]);
            }
        }
        lemma_split_then_piece(x, n0);
        assert(s.drop_last() =~= x + seq!['/'] + n0);
        assert(s.last() == n.last());
        assert(n.last() == n[n.len() - 1]);
        assert(n.last() != '/');
        assert(n0.push(n.last()) =~= n);
        let r = split_at_slashes(x).push(n0);
        assert(r.last() == n0);
        assert(r.update(r.len() - 1, r.last().push(s.last())) =~= split_at_slashes(x).push(n));
        assert(split_at_slashes(s) == r.update(r.len() - 1, r.last().push(s.last())));
    }
}

/// Law: the components of `y/n` end with `n`, for a name `n` that is not
/// empty, not `.`, and holds no `/`.
pub proof fn law_joined_name_is_last_component(y: Seq<char>, n: Seq<char>)
    requires
        is_named_piece(n),
        !n.contains('/'),
    ensures
        path_components(y + seq!['/'] + n).len() > 0,
        path_components(y + seq!['/'] + n).last() == n,
{
    lemma_split_then_piece(y, n);
    let pieces = split_at_slashes(y + seq!['/'] + n);
    assert(pieces.drop_last() =~= split_at_slashes(y));
    assert(pieces.last() == n);
    assert(named_pieces(pieces) == named_pieces(split_at_slashes(y)).push(n));
}

} // verus!
