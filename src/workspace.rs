//! The target directory as the actions see it, and the only primitives that read or
//! write it.
use vstd::prelude::*;

use crate::context::ActionContext;
use crate::error::ActionError;
use vstd::string::StringExecFns;

verus! {

/// One file of the target directory: its path relative to the target, its content, and
/// whether a run has written it.
#[derive(Debug)]
pub struct WorkspaceFile {
    pub path: String,
    pub content: String,
    pub written: bool,
}

/// The files of a target directory that a run may read or write.
///
/// A path is looked up in order and the first entry with that path counts. A run edits
/// the entries as it would edit the disk; a real run also marks each entry it writes, and
/// only marked entries are written back. A dry run marks nothing.
#[derive(Debug)]
pub struct Workspace {
    pub files: Vec<WorkspaceFile>,
}

/// The content of the first entry of `fs` with path `p`.
pub open spec fn content_at(fs: Seq<WorkspaceFile>, p: Seq<char>) -> Option<Seq<char>>
    decreases fs.len(),
{
    if fs.len() == 0 {
        None
    } else if fs[0].path@ == p {
        Some(fs[0].content@)
    } else {
        content_at(fs.drop_first(), p)
    }
}

impl Workspace {
    /// The paths of the entries marked written: what a run is to write back.
    pub open spec fn written_paths(&self) -> Set<Seq<char>> {
        Set::new(
            |p: Seq<char>|
                exists|i: int|
                    0 <= i < self.files@.len() && (#[trigger] self.files@[i]).written
                        && self.files@[i].path@ == p,
        )
    }
}

/// Every change from `before` to `after` is at a written path: no file goes away, paths
/// written before stay written, and each path whose content is new is written.
pub open spec fn recorded(before: Workspace, after: Workspace) -> bool {
    &&& before.written_paths().subset_of(after.written_paths())
    &&& forall|p: Seq<char>| before@.contains_key(p) ==> #[trigger] after@.contains_key(p)
    &&& forall|p: Seq<char>|
        #[trigger] after@.contains_key(p) && !(before@.contains_key(p) && before@[p] == after@[p])
            ==> after.written_paths().contains(p)
}

impl View for Workspace {
    type V = Map<Seq<char>, Seq<char>>;

    open spec fn view(&self) -> Map<Seq<char>, Seq<char>> {
        Map::new(
            |p: Seq<char>| content_at(self.files@, p) is Some,
            |p: Seq<char>| content_at(self.files@, p)->Some_0,
        )
    }
}

proof fn lemma_content_at_suffix(fs: Seq<WorkspaceFile>, i: int, p: Seq<char>)
    requires
        0 <= i <= fs.len(),
        forall|j: int| 0 <= j < i ==> (#[trigger] fs[j]).path@ != p,
    ensures
        content_at(fs, p) == content_at(fs.subrange(i, fs.len() as int), p),
    decreases i,
{
    if i > 0 {
        assert(fs.drop_first().subrange(i - 1, fs.len() - 1) =~= fs.subrange(i, fs.len() as int));
        assert forall|j: int| 0 <= j < i - 1 implies (#[trigger] fs.drop_first()[j]).path@ != p by {
            assert(fs.drop_first()[j] == fs[j + 1]);
        }
        assert(fs[0].path@ != p);
        lemma_content_at_suffix(fs.drop_first(), i - 1, p);
    } else {
        assert(fs.subrange(0, fs.len() as int) =~= fs);
    }
}

proof fn lemma_content_at_update(fs: Seq<WorkspaceFile>, i: int, x: WorkspaceFile, q: Seq<char>)
    requires
        0 <= i < fs.len(),
        forall|j: int| 0 <= j < i ==> (#[trigger] fs[j]).path@ != x.path@,
        fs[i].path@ == x.path@,
    ensures
        content_at(fs.update(i, x), q) == if q == x.path@ {
            Some(x.content@)
        } else {
            content_at(fs, q)
        },
    decreases i,
{
    if i > 0 {
        assert(fs.update(i, x).drop_first() =~= fs.drop_first().update(i - 1, x));
        assert forall|j: int| 0 <= j < i - 1 implies (#[trigger] fs.drop_first()[j]).path@
            != x.path@ by {
            assert(fs.drop_first()[j] == fs[j + 1]);
        }
        assert(fs[0].path@ != x.path@);
        assert(fs.update(i, x)[0] == fs[0]);
        lemma_content_at_update(fs.drop_first(), i - 1, x, q);
    } else {
        assert(fs.update(0, x).drop_first() =~= fs.drop_first());
        assert(fs.update(0, x)[0] == x);
    }
}

proof fn lemma_content_at_push(fs: Seq<WorkspaceFile>, x: WorkspaceFile, q: Seq<char>)
    requires
        content_at(fs, x.path@) is None,
    ensures
        content_at(fs.push(x), q) == if q == x.path@ {
            Some(x.content@)
        } else {
            content_at(fs, q)
        },
    decreases fs.len(),
{
    if fs.len() > 0 {
        assert(fs.push(x).drop_first() =~= fs.drop_first().push(x));
        assert(fs.push(x)[0] == fs[0]);
        assert(fs[0].path@ != x.path@);
        assert(content_at(fs.drop_first(), x.path@) is None);
        lemma_content_at_push(fs.drop_first(), x, q);
        if fs[0].path@ == q {
            assert(content_at(fs.push(x), q) == Some(fs[0].content@));
        } else {
            assert(content_at(fs.push(x), q) == content_at(fs.drop_first().push(x), q));
        }
    } else {
        assert(fs.push(x).drop_first() =~= Seq::<WorkspaceFile>::empty());
        assert(fs.push(x)[0] == x);
        assert(content_at(fs.push(x).drop_first(), q) is None);
        assert(content_at(fs, q) is None);
    }
}

impl Workspace {
    /// A workspace holding the given files.
    pub fn new(files: Vec<WorkspaceFile>) -> (r: Self)
        ensures
            forall|p: Seq<char>| #[trigger] r@.contains_key(p) <==> content_at(files@, p) is Some,
            forall|p: Seq<char>|
                #[trigger] r@.contains_key(p) ==> r@[p] == content_at(files@, p)->Some_0,
    {
        Workspace { files }
    }

    /// The entries, in order, to be written back where `written` is set.
    pub fn files(&self) -> (r: &Vec<WorkspaceFile>)
        ensures
            r@ == self.files@,
    {
        &self.files
    }

    /// Index of the first entry with path `path`.
    fn position(&self, path: &String) -> (r: Option<usize>)
        ensures
            r is None <==> content_at(self.files@, path@) is None,
            r matches Some(i) ==> i < self.files@.len() && self.files@[i as int].path@ == path@
                && content_at(self.files@, path@) == Some(self.files@[i as int].content@)
                && forall|j: int| 0 <= j < i ==> (#[trigger] self.files@[j]).path@ != path@,
    {
        let mut i: usize = 0;
        while i < self.files.len()
            invariant
                i <= self.files@.len(),
                forall|j: int| 0 <= j < i ==> (#[trigger] self.files@[j]).path@ != path@,
            decreases self.files@.len() - i,
        {
            if self.files[i].path == *path {
                proof {
                    lemma_content_at_suffix(self.files@, i as int, path@);
                }
                return Some(i);
            }
            i = i + 1;
        }
        proof {
            lemma_content_at_suffix(self.files@, i as int, path@);
        }
        None
    }

    /// Whether a file stands at `path`.
    pub fn has_file(&self, path: &String) -> (r: bool)
        ensures
            r == self@.contains_key(path@),
    {
        self.position(path).is_some()
    }

    /// Sets the content at `path`, creating the file if there is none; the entry is
    /// marked written when `mark` is set, and otherwise keeps its mark.
    fn put(&mut self, path: &String, content: String, mark: bool)
        ensures
            final(self)@ == old(self)@.insert(path@, content@),
            mark ==> final(self).written_paths() == old(self).written_paths().insert(path@),
            !mark ==> final(self).written_paths() == old(self).written_paths(),
    {
        let ghost old_files = self.files@;
        let ghost old_ws = *self;
        match self.position(path) {
            Some(i) => {
                let was = self.files[i].written;
                let x = WorkspaceFile { path: path.clone(), content, written: mark || was };
                self.files.set(i, x);
                proof {
                    assert forall|q: Seq<char>| true implies content_at(self.files@, q) == if q
                        == path@ {
                        Some(x.content@)
                    } else {
                        content_at(old_files, q)
                    } by {
                        lemma_content_at_update(old_files, i as int, x, q);
                    }
                    let want = if mark {
                        old_ws.written_paths().insert(path@)
                    } else {
                        old_ws.written_paths()
                    };
                    assert forall|q: Seq<char>| #[trigger] self.written_paths().contains(q) <==> want.contains(q) by {
                        if self.written_paths().contains(q) {
                            let j = choose|j: int|
                                0 <= j < self.files@.len() && (#[trigger] self.files@[j]).written
                                    && self.files@[j].path@ == q;
                            if j != i {
                                assert(old_files[j] == self.files@[j]);
                            } else if !mark {
                                assert(old_files[j].written && old_files[j].path@ == q);
                            }
                        }
                        if want.contains(q) {
                            if old_ws.written_paths().contains(q) {
                                let j = choose|j: int|
                                    0 <= j < old_files.len() && (#[trigger] old_files[j]).written
                                        && old_files[j].path@ == q;
                                if j != i {
                                    assert(self.files@[j] == old_files[j]);
                                } else {
                                    assert(self.files@[j].written && self.files@[j].path@ == q);
                                }
                            } else {
                                assert(self.files@[i as int].written && self.files@[i as int].path@ == q);
                            }
                        }
                    }
                    assert(self.written_paths() =~= want);
                }
            },
            None => {
                let x = WorkspaceFile { path: path.clone(), content, written: mark };
                self.files.push(x);
                proof {
                    assert forall|q: Seq<char>| true implies content_at(self.files@, q) == if q
                        == path@ {
                        Some(x.content@)
                    } else {
                        content_at(old_files, q)
                    } by {
                        lemma_content_at_push(old_files, x, q);
                    }
                    let want = if mark {
                        old_ws.written_paths().insert(path@)
                    } else {
                        old_ws.written_paths()
                    };
                    let n = old_files.len() as int;
                    assert forall|q: Seq<char>| #[trigger] self.written_paths().contains(q) <==> want.contains(q) by {
                        if self.written_paths().contains(q) {
                            let j = choose|j: int|
                                0 <= j < self.files@.len() && (#[trigger] self.files@[j]).written
                                    && self.files@[j].path@ == q;
                            if j < n {
                                assert(old_files[j] == self.files@[j]);
                            }
                        }
                        if want.contains(q) {
                            if old_ws.written_paths().contains(q) {
                                let j = choose|j: int|
                                    0 <= j < old_files.len() && (#[trigger] old_files[j]).written
                                        && old_files[j].path@ == q;
                                assert(self.files@[j] == old_files[j]);
                            } else {
                                assert(self.files@[n].written && self.files@[n].path@ == q);
                            }
                        }
                    }
                    assert(self.written_paths() =~= want);
                }
            },
        }
        assert(self@ =~= old(self)@.insert(path@, content@));
    }
}

/// Writing `c` at `p` and marking `p` written keeps every change at a written path.
pub proof fn lemma_recorded_write(before: Workspace, after: Workspace, p: Seq<char>, c: Seq<char>)
    requires
        after@ == before@.insert(p, c),
        after.written_paths() == before.written_paths().insert(p),
    ensures
        recorded(before, after),
{
}

/// Changes kept at written paths over two steps are kept at written paths over both.
pub proof fn lemma_recorded_trans(a: Workspace, b: Workspace, c: Workspace)
    requires
        recorded(a, b),
        recorded(b, c),
    ensures
        recorded(a, c),
{
    assert forall|p: Seq<char>|
        #[trigger] c@.contains_key(p) && !(a@.contains_key(p) && a@[p] == c@[p]) implies c.written_paths().contains(p) by {
        if b@.contains_key(p) && !(a@.contains_key(p) && a@[p] == b@[p]) {
            assert(b.written_paths().contains(p));
        }
    }
}

/// Creates the file at `path` with `content` (empty when absent); fails if a file already
/// stands there. A dry run always succeeds and marks nothing written.
pub fn file_create_new(
    ctx: &ActionContext,
    ws: &mut Workspace,
    path: &String,
    content: Option<String>,
) -> (r: Result<(), ActionError>)
    ensures
        ({
            let c = match content {
                Some(c) => c@,
                None => Seq::<char>::empty(),
            };
            &&& ctx.dry_run ==> r is Ok && final(ws).written_paths() == old(ws).written_paths()
                && final(ws)@ == if old(ws)@.contains_key(path@) {
                old(ws)@
            } else {
                old(ws)@.insert(path@, c)
            }
            &&& !ctx.dry_run && old(ws)@.contains_key(path@) ==> r == Err::<(), ActionError>(
                ActionError::FileAlreadyExists,
            ) && *final(ws) == *old(ws)
            &&& !ctx.dry_run && !old(ws)@.contains_key(path@) ==> r is Ok && final(ws)@ == old(
                ws,
            )@.insert(path@, c) && final(ws).written_paths() == old(ws).written_paths().insert(
                path@,
            )
        }),
{
    if ws.has_file(path) {
        if ctx.dry_run {
            return Ok(());
        }
        return Err(ActionError::FileAlreadyExists);
    }
    let c = match content {
        Some(c) => c,
        None => String::new(),
    };
    ws.put(path, c, !ctx.dry_run);
    Ok(())
}

/// The content of the file at `path`. In a dry run a missing file reads as empty,
/// since an earlier step may have been meant to create it; otherwise it is an error.
pub fn file_read_content(ctx: &ActionContext, ws: &Workspace, path: &String) -> (r: Result<
    String,
    ActionError,
>)
    ensures
        ws@.contains_key(path@) ==> r is Ok && r->Ok_0@ == ws@[path@],
        !ws@.contains_key(path@) && ctx.dry_run ==> r is Ok && r->Ok_0@ == Seq::<char>::empty(),
        !ws@.contains_key(path@) && !ctx.dry_run ==> r == Err::<String, ActionError>(
            ActionError::NotFound,
        ),
{
    match ws.position(path) {
        Some(i) => Ok(ws.files[i].content.clone()),
        None => {
            if ctx.dry_run {
                Ok(String::new())
            } else {
                Err(ActionError::NotFound)
            }
        },
    }
}

/// Replaces the whole content of the file at `path`, creating it if needed; marks it
/// written unless this is a dry run.
pub fn file_replace_content(ctx: &ActionContext, ws: &mut Workspace, path: &String, content: &String)
    ensures
        final(ws)@ == old(ws)@.insert(path@, content@),
        ctx.dry_run ==> final(ws).written_paths() == old(ws).written_paths(),
        !ctx.dry_run ==> final(ws).written_paths() == old(ws).written_paths().insert(path@),
{
    ws.put(path, content.clone(), !ctx.dry_run);
}

/// Adds `content` at the end of the file at `path`, creating it if needed; marks it
/// written unless this is a dry run.
pub fn file_append_content(ctx: &ActionContext, ws: &mut Workspace, path: &String, content: &String)
    ensures
        old(ws)@.contains_key(path@) ==> final(ws)@ == old(ws)@.insert(
            path@,
            old(ws)@[path@] + content@,
        ),
        !old(ws)@.contains_key(path@) ==> final(ws)@ == old(ws)@.insert(path@, content@),
        ctx.dry_run ==> final(ws).written_paths() == old(ws).written_paths(),
        !ctx.dry_run ==> final(ws).written_paths() == old(ws).written_paths().insert(path@),
{
    let next = match ws.position(path) {
        Some(i) => {
            let mut c = ws.files[i].content.clone();
            c.append(content.as_str());
            c
        },
        None => content.clone(),
    };
    ws.put(path, next, !ctx.dry_run);
}

} // verus!
