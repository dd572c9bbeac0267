//! The actions a brick runs against a target directory.
use vstd::prelude::*;
use vstd::string::StringExecFns;

use crate::brick::BrickFile;
use crate::context::ActionContext;
use crate::error::ActionError;
use crate::text::{match_offsets, modify_text, surgery, ModifyType};
use crate::workspace::{
    file_append_content,
    file_create_new,
    file_read_content,
    file_replace_content,
    Workspace,
    lemma_recorded_trans,
    lemma_recorded_write,
    recorded,
};

verus! {

broadcast use vstd::string::group_string_axioms;

/// The files of the target directory, by path.
pub type Files = Map<Seq<char>, Seq<char>>;

/// Settings every action carries.
#[derive(Clone, Debug, Default)]
pub struct Common {
    /// Directory, relative to the target, in which the action works.
    pub working_dir: Option<String>,
    /// Names of the files the action is limited to; empty means every brick file.
    pub sources: Vec<String>,
}

/// The path of `name` inside the working directory `wd`.
pub open spec fn target_path(wd: Option<String>, name: Seq<char>) -> Seq<char> {
    match wd {
        Some(w) => w@ + seq!['/'] + name,
        None => name,
    }
}

/// Whether `name` is one of `sources`, or `sources` is empty.
pub open spec fn allowed(sources: Seq<String>, name: Seq<char>) -> bool {
    sources.len() == 0 || exists|i: int| 0 <= i < sources.len() && (#[trigger] sources[i])@ == name
}

impl Common {
    /// The path of `name` in the working directory of the action.
    pub fn target_path(&self, name: &str) -> (r: String)
        ensures
            r@ == target_path(self.working_dir, name@),
    {
        match &self.working_dir {
            Some(w) => {
                let mut p = w.clone();
                p.append("/");
                proof {
                    reveal_strlit("/");
                }
                p.append(name);
                p
            },
            None => name.to_owned(),
        }
    }

    /// Whether the action applies to the brick file `name`.
    pub fn allows(&self, name: &str) -> (r: bool)
        ensures
            r == allowed(self.sources@, name@),
    {
        if self.sources.len() == 0 {
            return true;
        }
        let owned = name.to_owned();
        let mut i: usize = 0;
        while i < self.sources.len()
            invariant
                owned@ == name@,
                i <= self.sources@.len(),
                forall|j: int| 0 <= j < i ==> (#[trigger] self.sources@[j])@ != name@,
            decreases self.sources@.len() - i,
        {
            if self.sources[i] == owned {
                return true;
            }
            i = i + 1;
        }
        false
    }
}

/// What an insertion does when the target file already exists.
#[derive(Clone, Copy, Debug, Default, PartialEq, Eq, Structural)]
pub enum FileExistsAction {
    /// Adds the template content at the end of the file.
    #[default]
    Append,
    /// Overwrites the file with the template content.
    Replace,
    /// Leaves the file as it is.
    Pass,
}

/// Copies the brick's files into the target directory.
#[derive(Clone, Debug, Default)]
pub struct InsertFileAction {
    pub common: Common,
    pub if_file_exists: FileExistsAction,
}

/// Rewrites target files around every occurrence of a selector.
#[derive(Clone, Debug, Default)]
pub struct ModifyFileAction {
    pub common: Common,
    pub modify_type: ModifyType,
    pub content: Option<String>,
    /// The literal text searched for.
    pub selector: String,
}

/// Runs a shell command in the target directory.
#[derive(Clone, Debug, Default)]
pub struct RunCommandAction {
    pub common: Common,
    pub command: String,
}

/// One step of a brick.
#[derive(Clone, Debug)]
pub enum Action {
    InsertFile(InsertFileAction),
    ModifyFile(ModifyFileAction),
    RunCommand(RunCommandAction),
}

/// How an action that did not fail ended.
#[derive(Clone, Copy, Debug, PartialEq, Eq, Structural)]
pub enum ActionProgress {
    /// Nothing is left to do for this action.
    Done,
    /// The action's shell command is to be run now, in the target directory.
    NeedsCommand,
}

/// An action that can run against a target directory.
pub trait ExecuteAction {
    /// The result and the files afterwards, when the action runs with the brick's
    /// `files` on the target `ws`.
    spec fn outcome(&self, dry: bool, files: Seq<BrickFile>, ws: Files) -> (
        Result<ActionProgress, ActionError>,
        Files,
    );

    fn execute(&self, context: &ActionContext, files: &Vec<BrickFile>, ws: &mut Workspace) -> (r:
        Result<ActionProgress, ActionError>)
        ensures
            (r, final(ws)@) == self.outcome(context.dry_run, files@, old(ws)@),
            context.dry_run ==> final(ws).written_paths() == old(ws).written_paths(),
            !context.dry_run ==> recorded(*old(ws), *final(ws)),
    ;
}

/// The files after inserting the brick file `f`.
pub open spec fn insert_step(a: InsertFileAction, f: BrickFile, ws: Files) -> Files {
    let p = target_path(a.common.working_dir, f@.0);
    if !allowed(a.common.sources@, f@.0) {
        ws
    } else if !ws.contains_key(p) {
        ws.insert(p, f@.1)
    } else {
        match a.if_file_exists {
            FileExistsAction::Append => ws.insert(p, ws[p] + f@.1),
            FileExistsAction::Replace => ws.insert(p, f@.1),
            FileExistsAction::Pass => ws,
        }
    }
}

/// The files after inserting the first `k` brick files.
pub open spec fn insert_fold(
    a: InsertFileAction,
    files: Seq<BrickFile>,
    ws: Files,
    k: nat,
) -> Files
    decreases k,
{
    if k == 0 || k > files.len() {
        ws
    } else {
        insert_step(a, files[k - 1], insert_fold(a, files, ws, (k - 1) as nat))
    }
}

impl ExecuteAction for InsertFileAction {
    open spec fn outcome(&self, dry: bool, files: Seq<BrickFile>, ws: Files) -> (
        Result<ActionProgress, ActionError>,
        Files,
    ) {
        (Ok(ActionProgress::Done), insert_fold(*self, files, ws, files.len()))
    }

    fn execute(&self, context: &ActionContext, files: &Vec<BrickFile>, ws: &mut Workspace) -> (r:
        Result<ActionProgress, ActionError>) {
        let ghost start = ws@;
        let ghost w0 = *ws;
        let mut i: usize = 0;
        while i < files.len()
            invariant
                i <= files@.len(),
                ws@ == insert_fold(*self, files@, start, i as nat),
                w0 == *old(ws),
                context.dry_run ==> ws.written_paths() == w0.written_paths(),
                !context.dry_run ==> recorded(w0, *ws),
            decreases files@.len() - i,
        {
            let file = &files[i];
            let ghost before = ws@;
            let ghost wb = *ws;
            if self.common.allows(file.name()) {
                let target = self.common.target_path(file.name());
                let content = file.content().to_owned();
                if !ws.has_file(&target) {
                    let created = file_create_new(context, ws, &target, Some(content));
                } else {
                    match self.if_file_exists {
                        FileExistsAction::Append => file_append_content(
                            context,
                            ws,
                            &target,
                            &content,
                        ),
                        FileExistsAction::Replace => file_replace_content(
                            context,
                            ws,
                            &target,
                            &content,
                        ),
                        FileExistsAction::Pass => {},
                    }
                }
            }
            assert(ws@ == insert_step(*self, files@[i as int], before));
            proof {
                if !context.dry_run && *ws != wb {
                    let p = crate::actions::target_path(self.common.working_dir, files@[i as int]@.0);
                    lemma_recorded_write(wb, *ws, p, ws@[p]);
                    lemma_recorded_trans(w0, wb, *ws);
                }
            }
            i = i + 1;
        }
        Ok(ActionProgress::Done)
    }
}

/// The text a modification inserts: its content, or nothing.
pub open spec fn content_text(a: ModifyFileAction) -> Seq<char> {
    match a.content {
        Some(c) => c@,
        None => Seq::<char>::empty(),
    }
}

/// The files a modification rewrites, in order: every brick file, then every source.
pub open spec fn modify_targets(a: ModifyFileAction, files: Seq<BrickFile>) -> Seq<Seq<char>> {
    files.map_values(|f: BrickFile| f@.0) + a.common.sources@.map_values(|s: String| s@)
}

/// The failure, if any, and the files after rewriting the file `name`.
pub open spec fn modify_step(a: ModifyFileAction, name: Seq<char>, ws: Files) -> (
    Option<ActionError>,
    Files,
) {
    let p = target_path(a.common.working_dir, name);
    if !ws.contains_key(p) {
        (Some(ActionError::TargetFileMissing), ws)
    } else if match_offsets(ws[p], a.selector@).len() == 0 {
        (Some(ActionError::NoSelectorMatch), ws)
    } else {
        (None, ws.insert(p, surgery(ws[p], a.selector@, content_text(a), a.modify_type)))
    }
}

/// The first failure, if any, and the files after rewriting the first `k` targets; the
/// targets after a failure are left alone.
pub open spec fn modify_fold(
    a: ModifyFileAction,
    names: Seq<Seq<char>>,
    ws: Files,
    k: nat,
) -> (Option<ActionError>, Files)
    decreases k,
{
    if k == 0 || k > names.len() {
        (None, ws)
    } else {
        let prev = modify_fold(a, names, ws, (k - 1) as nat);
        if prev.0 is Some {
            prev
        } else {
            modify_step(a, names[k - 1], prev.1)
        }
    }
}

/// Once a target fails, the later targets change nothing.
pub proof fn lemma_modify_fold_stops(
    a: ModifyFileAction,
    names: Seq<Seq<char>>,
    ws: Files,
    k: nat,
    k2: nat,
)
    requires
        k <= k2 <= names.len(),
        modify_fold(a, names, ws, k).0 is Some,
    ensures
        modify_fold(a, names, ws, k2) == modify_fold(a, names, ws, k),
    decreases k2 - k,
{
    if k2 > k {
        lemma_modify_fold_stops(a, names, ws, k, (k2 - 1) as nat);
    }
}

impl ModifyFileAction {
    /// The text inserted at each match: the configured content, or nothing.
    pub fn content(&self) -> (r: String)
        ensures
            r@ == content_text(*self),
    {
        match &self.content {
            Some(c) => c.clone(),
            None => String::new(),
        }
    }

    /// `source_text` edited at every occurrence of the selector; fails when there is none.
    pub fn modify_content(&self, source_text: String) -> (r: Result<String, ActionError>)
        ensures
            r is Err <==> match_offsets(source_text@, self.selector@).len() == 0,
            r is Err ==> r == Err::<String, ActionError>(ActionError::NoSelectorMatch),
            r is Ok ==> r->Ok_0@ == surgery(
                source_text@,
                self.selector@,
                content_text(*self),
                self.modify_type,
            ),
    {
        let content = self.content();
        modify_text(source_text.as_str(), self.selector.as_str(), self.modify_type, content.as_str())
    }

    /// The names of the files to rewrite: every brick file, then every source.
    fn targets(&self, files: &Vec<BrickFile>) -> (r: Vec<String>)
        ensures
            r@.len() == modify_targets(*self, files@).len(),
            forall|j: int| 0 <= j < r@.len() ==> (#[trigger] r@[j])@ == modify_targets(
                *self,
                files@,
            )[j],
    {
        let ghost want = modify_targets(*self, files@);
        let mut out: Vec<String> = Vec::new();
        let mut i: usize = 0;
        while i < files.len()
            invariant
                i <= files@.len(),
                out@.len() == i,
                want == modify_targets(*self, files@),
                forall|j: int| 0 <= j < i ==> (#[trigger] out@[j])@ == want[j],
            decreases files@.len() - i,
        {
            out.push(files[i].name().to_owned());
            i = i + 1;
        }
        let mut k: usize = 0;
        while k < self.common.sources.len()
            invariant
                k <= self.common.sources@.len(),
                out@.len() == files@.len() + k,
                want == modify_targets(*self, files@),
                forall|j: int| 0 <= j < out@.len() ==> (#[trigger] out@[j])@ == want[j],
            decreases self.common.sources@.len() - k,
        {
            out.push(self.common.sources[k].clone());
            k = k + 1;
        }
        out
    }
}

impl ExecuteAction for ModifyFileAction {
    open spec fn outcome(&self, dry: bool, files: Seq<BrickFile>, ws: Files) -> (
        Result<ActionProgress, ActionError>,
        Files,
    ) {
        let names = modify_targets(*self, files);
        let r = modify_fold(*self, names, ws, names.len());
        (
            match r.0 {
                Some(e) => Err(e),
                None => Ok(ActionProgress::Done),
            },
            r.1,
        )
    }

    fn execute(&self, context: &ActionContext, files: &Vec<BrickFile>, ws: &mut Workspace) -> (r:
        Result<ActionProgress, ActionError>) {
        let ghost start = ws@;
        let ghost names = modify_targets(*self, files@);
        let ghost w0 = *ws;
        let targets = self.targets(files);
        let mut i: usize = 0;
        while i < targets.len()
            invariant
                i <= targets@.len(),
                targets@.len() == names.len(),
                forall|j: int| 0 <= j < targets@.len() ==> (#[trigger] targets@[j])@ == names[j],
                names == modify_targets(*self, files@),
                start == old(ws)@,
                w0 == *old(ws),
                context.dry_run ==> ws.written_paths() == w0.written_paths(),
                !context.dry_run ==> recorded(w0, *ws),
                modify_fold(*self, names, start, i as nat) == (
                    None::<ActionError>,
                    ws@,
                ),
            decreases targets@.len() - i,
        {
            let target = self.common.target_path(targets[i].as_str());
            let ghost before = ws@;
            if !ws.has_file(&target) {
                proof {
                    assert(modify_fold(*self, names, start, (i + 1) as nat) == (
                        Some(ActionError::TargetFileMissing),
                        before,
                    ));
                    lemma_modify_fold_stops(*self, names,
                        start,
                        (i + 1) as nat,
                        names.len(),
                    );
                }
                return Err(ActionError::TargetFileMissing);
            }
            let text = match file_read_content(context, ws, &target) {
                Ok(t) => t,
                Err(e) => {
                    return Err(e);
                },
            };
            let edited = match self.modify_content(text) {
                Ok(t) => t,
                Err(e) => {
                    proof {
                        assert(modify_fold(*self, names, start, (i + 1) as nat) == (
                            Some(ActionError::NoSelectorMatch),
                            before,
                        ));
                        lemma_modify_fold_stops(*self, names,
                            start,
                            (i + 1) as nat,
                            names.len(),
                        );
                    }
                    return Err(e);
                },
            };
            let ghost wb = *ws;
            file_replace_content(context, ws, &target, &edited);
            proof {
                if !context.dry_run {
                    lemma_recorded_write(wb, *ws, target@, edited@);
                    lemma_recorded_trans(w0, wb, *ws);
                }
            }
            i = i + 1;
        }
        Ok(ActionProgress::Done)
    }
}

impl RunCommandAction {
    /// The result of running the command, from whether its shell could be started. The
    /// exit status of the command is not consulted: a command that ran counts as done.
    pub fn spawn_result(started: bool) -> (r: Result<(), ActionError>)
        ensures
            started ==> r is Ok,
            !started ==> r == Err::<(), ActionError>(ActionError::ProcessSpawnFailure),
    {
        if started {
            Ok(())
        } else {
            Err(ActionError::ProcessSpawnFailure)
        }
    }
}

impl ExecuteAction for RunCommandAction {
    open spec fn outcome(&self, dry: bool, files: Seq<BrickFile>, ws: Files) -> (
        Result<ActionProgress, ActionError>,
        Files,
    ) {
        (
            if dry {
                Ok(ActionProgress::Done)
            } else {
                Ok(ActionProgress::NeedsCommand)
            },
            ws,
        )
    }

    /// A dry run skips the command. Otherwise the caller is to run it; only a failure to
    /// start the shell fails the action, whatever the command's exit status.
    fn execute(&self, context: &ActionContext, files: &Vec<BrickFile>, ws: &mut Workspace) -> (r:
        Result<ActionProgress, ActionError>) {
        if context.dry_run {
            Ok(ActionProgress::Done)
        } else {
            Ok(ActionProgress::NeedsCommand)
        }
    }
}

impl ExecuteAction for Action {
    open spec fn outcome(&self, dry: bool, files: Seq<BrickFile>, ws: Files) -> (
        Result<ActionProgress, ActionError>,
        Files,
    ) {
        match self {
            Action::InsertFile(a) => a.outcome(dry, files, ws),
            Action::ModifyFile(a) => a.outcome(dry, files, ws),
            Action::RunCommand(a) => a.outcome(dry, files, ws),
        }
    }

    fn execute(&self, context: &ActionContext, files: &Vec<BrickFile>, ws: &mut Workspace) -> (r:
        Result<ActionProgress, ActionError>) {
        match self {
            Action::InsertFile(a) => a.execute(context, files, ws),
            Action::ModifyFile(a) => a.execute(context, files, ws),
            Action::RunCommand(a) => a.execute(context, files, ws),
        }
    }
}

} // verus!
