//! Bricks: named template directories with an ordered list of actions.
use vstd::prelude::*;

use crate::actions::{
    Action,
    ActionProgress,
    Common,
    ExecuteAction,
    FileExistsAction,
    Files,
    InsertFileAction,
};
use crate::context::ActionContext;
use crate::error::ActionError;
use crate::workspace::{lemma_recorded_trans, recorded, Workspace};

verus! {

/// The name of the file, inside a brick directory, that configures the brick.
pub const BRICK_CONFIG_FILE: &'static str = "brick.toml";

/// A brick's name and its actions, in the order they run.
#[derive(Clone, Debug, Default)]
pub struct BrickConfig {
    name: String,
    actions: Vec<Action>,
}

impl BrickConfig {
    pub fn new(name: String, actions: Vec<Action>) -> (r: Self)
        ensures
            r.spec_name() == name@,
            r.spec_actions() == actions@,
    {
        Self { name, actions }
    }

    pub closed spec fn spec_name(&self) -> Seq<char> {
        self.name@
    }

    pub closed spec fn spec_actions(&self) -> Seq<Action> {
        self.actions@
    }

    pub fn name(&self) -> (r: &str)
        ensures
            r@ == self.spec_name(),
    {
        self.name.as_str()
    }

    pub fn actions(&self) -> (r: &[Action])
        ensures
            r@ == self.spec_actions(),
    {
        self.actions.as_slice()
    }
}

/// A template file of a brick: its name and its text.
#[derive(Clone, Debug)]
pub struct BrickFile {
    name: String,
    content: String,
}

impl View for BrickFile {
    type V = (Seq<char>, Seq<char>);

    closed spec fn view(&self) -> (Seq<char>, Seq<char>) {
        (self.name@, self.content@)
    }
}

impl BrickFile {
    pub fn new(name: String, content: String) -> (r: Self)
        ensures
            r@ == (name@, content@),
    {
        Self { name, content }
    }

    pub fn name(&self) -> (r: &str)
        ensures
            r@ == self@.0,
    {
        self.name.as_str()
    }

    pub fn content(&self) -> (r: &str)
        ensures
            r@ == self@.1,
    {
        self.content.as_str()
    }
}

/// How a run of a brick's actions stopped without failing.
#[derive(Clone, Copy, Debug, PartialEq, Eq, Structural)]
pub enum BrickProgress {
    /// Every action ran.
    Finished,
    /// The command of the action at this index is to be run; the run goes on after it.
    RunCommand(usize),
}

/// The result and the files afterwards, when the actions from index `i` on run in order;
/// the first failure or command stops the run.
pub open spec fn run_from(acts: Seq<Action>, dry: bool, files: Seq<BrickFile>, ws: Files, i: int) -> (
    Result<BrickProgress, ActionError>,
    Files,
)
    decreases acts.len() - i,
{
    if i < 0 || i >= acts.len() {
        (Ok(BrickProgress::Finished), ws)
    } else {
        let step = acts[i].outcome(dry, files, ws);
        match step.0 {
            Err(e) => (Err(e), step.1),
            Ok(ActionProgress::NeedsCommand) => (Ok(BrickProgress::RunCommand(i as usize)), step.1),
            Ok(ActionProgress::Done) => run_from(acts, dry, files, step.1, i + 1),
        }
    }
}

/// The configuration of a brick without a config file: its name, and one insertion of
/// all its files that appends to files that exist.
pub open spec fn is_default_config(c: BrickConfig, name: Seq<char>) -> bool {
    &&& c.spec_name() == name
    &&& c.spec_actions().len() == 1
    &&& c.spec_actions()[0] matches Action::InsertFile(a)
    &&& c.spec_actions()[0]->InsertFile_0.common.sources@.len() == 0
    &&& c.spec_actions()[0]->InsertFile_0.common.working_dir is None
    &&& c.spec_actions()[0]->InsertFile_0.if_file_exists == FileExistsAction::Append
}

/// A brick found in a brick directory.
#[derive(Clone, Debug)]
pub struct Brick {
    config: BrickConfig,
    source_path: String,
}

impl Brick {
    /// A brick without a config file: it inserts all its files, appending to files that
    /// exist.
    pub fn new(name: String, source_path: String) -> (r: Self)
        ensures
            is_default_config(r.spec_config(), name@),
            r.spec_path() == source_path@,
    {
        let default_action = Action::InsertFile(
            InsertFileAction {
                common: Common { working_dir: None, sources: Vec::new() },
                if_file_exists: FileExistsAction::Append,
            },
        );
        let r = Brick { config: BrickConfig { name, actions: vec![default_action] }, source_path };
        r
    }

    pub fn new_with_config(config: BrickConfig, source_path: String) -> (r: Self)
        ensures
            r.spec_config() == config,
            r.spec_path() == source_path@,
    {
        Brick { config, source_path }
    }

    pub closed spec fn spec_config(&self) -> BrickConfig {
        self.config
    }

    pub closed spec fn spec_path(&self) -> Seq<char> {
        self.source_path@
    }

    pub fn name(&self) -> (r: &str)
        ensures
            r@ == self.spec_config().spec_name(),
    {
        self.config.name()
    }

    pub fn path(&self) -> (r: &String)
        ensures
            r@ == self.spec_path(),
    {
        &self.source_path
    }

    pub fn config(&self) -> (r: &BrickConfig)
        ensures
            r == self.spec_config(),
    {
        &self.config
    }

    /// Runs the actions from index `from` on, in order, with the brick's `files`, against
    /// the target `ws`. Stops at the first failure, keeping what earlier actions wrote, or
    /// at the first command to run outside.
    pub fn execute(
        &self,
        context: &ActionContext,
        files: &Vec<BrickFile>,
        ws: &mut Workspace,
        from: usize,
    ) -> (r: Result<BrickProgress, ActionError>)
        ensures
            (r, final(ws)@) == run_from(
                self.spec_config().spec_actions(),
                context.dry_run,
                files@,
                old(ws)@,
                from as int,
            ),
            context.dry_run ==> final(ws).written_paths() == old(ws).written_paths(),
            !context.dry_run ==> recorded(*old(ws), *final(ws)),
    {
        let actions = self.config.actions();
        let ghost w0 = *ws;
        let ghost acts = actions@;
        let ghost want = run_from(acts, context.dry_run, files@, ws@, from as int);
        let mut i: usize = from;
        while i < actions.len()
            invariant
                acts == actions@,
                acts == self.spec_config().spec_actions(),
                want == run_from(acts, context.dry_run, files@, old(ws)@, from as int),
                want == run_from(acts, context.dry_run, files@, ws@, i as int),
                w0 == *old(ws),
                context.dry_run ==> ws.written_paths() == w0.written_paths(),
                !context.dry_run ==> recorded(w0, *ws),
            decreases acts.len() - i,
        {
            let ghost before = ws@;
            let ghost wb = *ws;
            let step = actions[i].execute(context, files, ws);
            proof {
                if !context.dry_run {
                    lemma_recorded_trans(w0, wb, *ws);
                }
            }
            assert(acts[i as int].outcome(context.dry_run, files@, before) == (step, ws@));
            match step {
                Err(e) => {
                    assert(run_from(acts, context.dry_run, files@, before, i as int) == (
                        Err::<BrickProgress, ActionError>(e),
                        ws@,
                    ));
                    return Err(e);
                },
                Ok(ActionProgress::NeedsCommand) => {
                    assert(run_from(acts, context.dry_run, files@, before, i as int) == (
                        Ok::<BrickProgress, ActionError>(BrickProgress::RunCommand(i)),
                        ws@,
                    ));
                    return Ok(BrickProgress::RunCommand(i));
                },
                Ok(ActionProgress::Done) => {},
            }
            i = i + 1;
        }
        Ok(BrickProgress::Finished)
    }
}

} // verus!

verus! {

/// A dry run ends as a real run would, with the same result and the same files in the
/// workspace, as long as no command is left to run: the actions decide on the workspace
/// alone, and a dry run changes only which entries are marked written.
pub proof fn lemma_dry_run_same_outcome(acts: Seq<Action>, files: Seq<BrickFile>, ws: Files, i: int)
    requires
        forall|j: int| i <= j < acts.len() ==> !((#[trigger] acts[j]) is RunCommand),
    ensures
        run_from(acts, true, files, ws, i) == run_from(acts, false, files, ws, i),
    decreases acts.len() - i,
{
    if 0 <= i < acts.len() {
        let step = acts[i].outcome(false, files, ws);
        assert(acts[i].outcome(true, files, ws) == step);
        lemma_dry_run_same_outcome(acts, files, step.1, i + 1);
    }
}

/// A dry run never asks for a command to be run.
pub proof fn lemma_dry_run_runs_no_command(acts: Seq<Action>, files: Seq<BrickFile>, ws: Files, i: int)
    ensures
        !(run_from(acts, true, files, ws, i).0 is Ok && run_from(acts, true, files, ws, i).0->Ok_0
            is RunCommand),
    decreases acts.len() - i,
{
    if 0 <= i < acts.len() {
        let step = acts[i].outcome(true, files, ws);
        lemma_dry_run_runs_no_command(acts, files, step.1, i + 1);
    }
}

/// Inserting a brick file the action applies to: where no file stands at its target,
/// the target gets exactly the template content; where one stands and the policy is to
/// pass, its content stays as it was.
pub proof fn lemma_insert_new_or_pass(a: InsertFileAction, f: BrickFile, ws: Files, dry: bool)
    requires
        crate::actions::allowed(a.common.sources@, f@.0),
    ensures
        ({
            let p = crate::actions::target_path(a.common.working_dir, f@.0);
            let after = Action::InsertFile(a).outcome(dry, seq![f], ws);
            &&& after.0 == Ok::<ActionProgress, ActionError>(ActionProgress::Done)
            &&& !ws.contains_key(p) ==> after.1.contains_key(p) && after.1[p] == f@.1
            &&& ws.contains_key(p) && a.if_file_exists == FileExistsAction::Pass ==> after.1 == ws
        }),
{
    let files = seq![f];
    assert(files[0] == f);
    assert(crate::actions::insert_fold(a, files, ws, 0) == ws);
}

proof fn lemma_target_path_injective(wd: Option<String>, a: Seq<char>, b: Seq<char>)
    requires
        crate::actions::target_path(wd, a) == crate::actions::target_path(wd, b),
    ensures
        a == b,
{
    if let Some(w) = wd {
        let n: int = w@.len() as int + 1;
        let pa = crate::actions::target_path(wd, a);
        let pb = crate::actions::target_path(wd, b);
        assert(pa.len() == n + a.len() && pb.len() == n + b.len());
        assert(a.len() == b.len());
        assert(crate::actions::target_path(wd, a).subrange(n, n + a.len() as int) =~= a);
        assert(crate::actions::target_path(wd, b).subrange(n, n + b.len() as int) =~= b);
        assert(a =~= b);
    }
}

proof fn lemma_insert_fold_at(a: InsertFileAction, files: Seq<BrickFile>, ws: Files, i: int, k: nat)
    requires
        0 <= i < files.len(),
        k <= files.len(),
        forall|x: int, y: int|
            0 <= x < y < files.len() ==> (#[trigger] files[x])@.0 != (#[trigger] files[y])@.0,
        crate::actions::allowed(a.common.sources@, files[i]@.0),
        !ws.contains_key(crate::actions::target_path(a.common.working_dir, files[i]@.0)),
    ensures
        ({
            let p = crate::actions::target_path(a.common.working_dir, files[i]@.0);
            let after = crate::actions::insert_fold(a, files, ws, k);
            &&& k <= i ==> !after.contains_key(p)
            &&& k > i ==> after.contains_key(p) && after[p] == files[i]@.1
        }),
    decreases k,
{
    if k > 0 {
        let km = (k - 1) as nat;
        lemma_insert_fold_at(a, files, ws, i, km);
        let p = crate::actions::target_path(a.common.working_dir, files[i]@.0);
        let g = files[km as int];
        let q = crate::actions::target_path(a.common.working_dir, g@.0);
        if km as int != i {
            if q == p {
                lemma_target_path_injective(a.common.working_dir, g@.0, files[i]@.0);
                if (km as int) < i {
                    assert(files[km as int]@.0 != files[i]@.0);
                } else {
                    assert(files[i]@.0 != files[km as int]@.0);
                }
            }
        }
    }
}

/// Inserting brick files with distinct names: each file the action applies to whose
/// target does not exist ends with exactly its template content, whatever the policy for
/// existing files, in a dry run or not.
pub proof fn lemma_insert_creates_missing(a: InsertFileAction, files: Seq<BrickFile>, ws: Files, i: int, dry: bool)
    requires
        0 <= i < files.len(),
        forall|x: int, y: int|
            0 <= x < y < files.len() ==> (#[trigger] files[x])@.0 != (#[trigger] files[y])@.0,
        crate::actions::allowed(a.common.sources@, files[i]@.0),
        !ws.contains_key(crate::actions::target_path(a.common.working_dir, files[i]@.0)),
    ensures
        ({
            let p = crate::actions::target_path(a.common.working_dir, files[i]@.0);
            let after = Action::InsertFile(a).outcome(dry, files, ws);
            after.0 is Ok && after.1.contains_key(p) && after.1[p] == files[i]@.1
        }),
{
    lemma_insert_fold_at(a, files, ws, i, files.len());
}

/// A modification stops at the first target that fails: the result is that failure, the
/// files are as the earlier targets left them, and neither the failing target nor any
/// later one is written. A target without a match of the selector fails so.
pub proof fn lemma_modify_stops_at_failure(
    a: crate::actions::ModifyFileAction,
    dry: bool,
    files: Seq<BrickFile>,
    ws: Files,
    k: nat,
)
    requires
        ({
            let names = crate::actions::modify_targets(a, files);
            let before = crate::actions::modify_fold(a, names, ws, k);
            &&& k < names.len()
            &&& before.0 is None
            &&& crate::actions::modify_step(a, names[k as int], before.1).0 is Some
        }),
    ensures
        ({
            let names = crate::actions::modify_targets(a, files);
            let before = crate::actions::modify_fold(a, names, ws, k);
            let failed = crate::actions::modify_step(a, names[k as int], before.1);
            &&& failed.1 == before.1
            &&& Action::ModifyFile(a).outcome(dry, files, ws) == (
                Err::<ActionProgress, ActionError>(failed.0->Some_0),
                before.1,
            )
        }),
{
    let names = crate::actions::modify_targets(a, files);
    crate::actions::lemma_modify_fold_stops(a, names, ws, k + 1, names.len());
}

/// A modification of one target whose text holds no match of the selector fails with
/// `NoSelectorMatch` and leaves every file as it was, in a dry run or not.
pub proof fn lemma_no_match_changes_nothing(
    a: crate::actions::ModifyFileAction,
    dry: bool,
    ws: Files,
)
    requires
        a.common.sources@.len() == 1,
        ({
            let p = crate::actions::target_path(a.common.working_dir, a.common.sources@[0]@);
            ws.contains_key(p) && crate::text::match_offsets(ws[p], a.selector@).len() == 0
        }),
    ensures
        Action::ModifyFile(a).outcome(dry, Seq::<BrickFile>::empty(), ws) == (
            Err::<ActionProgress, ActionError>(ActionError::NoSelectorMatch),
            ws,
        ),
{
    let names = crate::actions::modify_targets(a, Seq::<BrickFile>::empty());
    assert(names.len() == 1);
    assert(names[0] == a.common.sources@[0]@);
    assert(crate::actions::modify_fold(a, names, ws, 0) == (None::<ActionError>, ws));
}

/// What a brick directory holds in place of a config file.
#[derive(Debug)]
pub enum ConfigFile {
    /// There is no config file.
    Absent,
    /// The config file was read and parsed.
    Parsed(BrickConfig),
    /// The config file could not be read or parsed.
    Invalid,
}

/// A subdirectory of a brick directory.
#[derive(Debug)]
pub struct FoundDir {
    /// The last component of its path, where it has one.
    pub name: Option<String>,
    pub path: String,
    pub config: ConfigFile,
}

/// Whether a subdirectory makes a brick: it has a parsed config, or no config and a name.
pub open spec fn makes_brick(d: FoundDir) -> bool {
    match d.config {
        ConfigFile::Absent => d.name is Some,
        ConfigFile::Parsed(_) => true,
        ConfigFile::Invalid => false,
    }
}

/// The name of the brick a subdirectory makes: the configured name, else its own name.
pub open spec fn dir_brick_name(d: FoundDir) -> Seq<char> {
    match d.config {
        ConfigFile::Parsed(c) => c.spec_name(),
        _ => d.name->Some_0@,
    }
}

/// Whether subdirectory `i` of `found` makes a brick whose name no later subdirectory's
/// brick has: of several bricks of one name, the last one wins.
pub open spec fn last_of_name(found: Seq<FoundDir>, i: int) -> bool {
    &&& makes_brick(found[i])
    &&& forall|j: int|
        i < j < found.len() && makes_brick(#[trigger] found[j]) ==> dir_brick_name(found[j])
            != dir_brick_name(found[i])
}

/// The subdirectories among the first `k` whose bricks are kept, in order.
pub open spec fn brick_dirs(found: Seq<FoundDir>, k: nat) -> Seq<FoundDir>
    decreases k,
{
    if k == 0 || k > found.len() {
        seq![]
    } else if last_of_name(found, k - 1) {
        brick_dirs(found, (k - 1) as nat).push(found[k - 1])
    } else {
        brick_dirs(found, (k - 1) as nat)
    }
}

/// Whether `b` is the brick that the subdirectory `d` makes.
pub open spec fn brick_from(b: Brick, d: FoundDir) -> bool {
    &&& b.spec_path() == d.path@
    &&& match d.config {
        ConfigFile::Parsed(c) => b.spec_config() == c,
        _ => is_default_config(b.spec_config(), d.name->Some_0@),
    }
}

/// The name of the brick `d` makes, if it makes one.
fn found_name(d: &FoundDir) -> (r: Option<String>)
    ensures
        makes_brick(*d) ==> (r matches Some(n) && n@ == dir_brick_name(*d)),
        !makes_brick(*d) ==> r is None,
{
    match &d.config {
        ConfigFile::Parsed(c) => Some(c.name().to_owned()),
        ConfigFile::Absent => match &d.name {
            Some(n) => Some(n.clone()),
            None => None,
        },
        ConfigFile::Invalid => None,
    }
}

/// Whether one of `rest` makes a brick named `name`.
fn named_in(rest: &Vec<FoundDir>, name: &String) -> (r: bool)
    ensures
        r == exists|j: int|
            0 <= j < rest@.len() && makes_brick(#[trigger] rest@[j]) && dir_brick_name(rest@[j])
                == name@,
{
    let mut j: usize = 0;
    while j < rest.len()
        invariant
            j <= rest@.len(),
            forall|q: int|
                0 <= q < j && makes_brick(#[trigger] rest@[q]) ==> dir_brick_name(rest@[q]) != name@,
        decreases rest@.len() - j,
    {
        match found_name(&rest[j]) {
            Some(n) => {
                if n == *name {
                    return true;
                }
            },
            None => {},
        }
        j = j + 1;
    }
    false
}

/// The bricks of a brick directory, from its subdirectories in order: one with a parsed
/// config file, or with no config file (a default brick named after it). A subdirectory
/// whose config cannot be read is skipped, and the scan goes on. Of several bricks with
/// one name, only the last one is kept.
pub fn bricks(found: Vec<FoundDir>) -> (r: Vec<Brick>)
    ensures
        r@.len() == brick_dirs(found@, found@.len()).len(),
        forall|j: int|
            0 <= j < r@.len() ==> brick_from(#[trigger] r@[j], brick_dirs(found@, found@.len())[j]),
{
    let ghost all = found@;
    let n = found.len();
    let mut rest = found;
    let mut out: Vec<Brick> = Vec::new();
    let mut i: usize = 0;
    while rest.len() > 0
        invariant
            n == all.len(),
            i + rest@.len() == all.len(),
            rest@ == all.subrange(i as int, all.len() as int),
            out@.len() == brick_dirs(all, i as nat).len(),
            forall|j: int| 0 <= j < out@.len() ==> brick_from(#[trigger] out@[j], brick_dirs(all, i as nat)[j]),
        decreases rest@.len(),
    {
        let d = rest.remove(0);
        assert(d == all[i as int]);
        assert(rest@ =~= all.subrange(i + 1, all.len() as int));
        let ghost prev = brick_dirs(all, i as nat);
        let keep = match found_name(&d) {
            Some(name) => !named_in(&rest, &name),
            None => false,
        };
        proof {
            if keep {
                assert forall|j: int|
                    i < j < all.len() && makes_brick(#[trigger] all[j]) implies dir_brick_name(all[j])
                    != dir_brick_name(all[i as int]) by {
                    assert(all[j] == rest@[j - i - 1]);
                }
            } else if makes_brick(d) {
                let j = choose|j: int|
                    0 <= j < rest@.len() && makes_brick(#[trigger] rest@[j]) && dir_brick_name(
                        rest@[j],
                    ) == dir_brick_name(d);
                assert(all[i + 1 + j] == rest@[j]);
            }
            assert(keep == last_of_name(all, i as int));
        }
        if keep {
            match d.config {
                ConfigFile::Parsed(c) => {
                    out.push(Brick::new_with_config(c, d.path));
                },
                ConfigFile::Absent => {
                    match d.name {
                        Some(n) => {
                            out.push(Brick::new(n, d.path));
                        },
                        None => {},
                    }
                },
                ConfigFile::Invalid => {},
            }
        }
        assert(forall|j: int| 0 <= j < prev.len() ==> #[trigger] brick_dirs(all, (i + 1) as nat)[j] == prev[j]);
        i = i + 1;
    }
    out
}

/// Whether `d` is one of the first `k` subdirectories and the last of its name.
pub open spec fn in_last(found: Seq<FoundDir>, d: FoundDir, k: int) -> bool {
    exists|i: int| 0 <= i < k && d == found[i] && last_of_name(found, i)
}

/// Every kept subdirectory among the first `k` is the last of its name, and their names
/// differ.
proof fn lemma_brick_dirs_last(found: Seq<FoundDir>, k: nat)
    requires
        k <= found.len(),
    ensures
        forall|a: int|
            0 <= a < brick_dirs(found, k).len() ==> #[trigger] in_last(found, brick_dirs(found, k)[a], k as int),
        forall|a: int, b: int|
            0 <= a < b < brick_dirs(found, k).len() ==> dir_brick_name(
                #[trigger] brick_dirs(found, k)[a],
            ) != dir_brick_name(#[trigger] brick_dirs(found, k)[b]),
    decreases k,
{
    if k > 0 {
        let km = (k - 1) as nat;
        lemma_brick_dirs_last(found, km);
        let prev = brick_dirs(found, km);
        let cur = brick_dirs(found, k);
        if last_of_name(found, k - 1) {
            assert(cur == prev.push(found[k - 1]));
            assert forall|a: int| 0 <= a < cur.len() implies #[trigger] in_last(found, cur[a], k as int) by {
                if a < prev.len() {
                    assert(cur[a] == prev[a]);
                    assert(in_last(found, prev[a], km as int));
                    let i = choose|i: int| 0 <= i < km && prev[a] == found[i] && last_of_name(found, i);
                    assert(0 <= i < k && cur[a] == found[i] && last_of_name(found, i));
                } else {
                    assert(cur[a] == found[k - 1]);
                    assert(0 <= k - 1 < k && cur[a] == found[k - 1] && last_of_name(found, k - 1));
                }
            }
            assert forall|a: int, b: int| 0 <= a < b < cur.len() implies dir_brick_name(
                #[trigger] cur[a],
            ) != dir_brick_name(#[trigger] cur[b]) by {
                assert(cur[a] == prev[a]);
                assert(in_last(found, prev[a], km as int));
                let i = choose|i: int| 0 <= i < km && prev[a] == found[i] && last_of_name(found, i);
                if b < prev.len() {
                    assert(cur[b] == prev[b]);
                } else {
                    assert(cur[b] == found[k - 1]);
                    assert(makes_brick(found[k - 1]));
                }
            }
        } else {
            assert(cur == prev);
            assert forall|a: int| 0 <= a < cur.len() implies #[trigger] in_last(found, cur[a], k as int) by {
                assert(in_last(found, prev[a], km as int));
                let i = choose|i: int| 0 <= i < km && prev[a] == found[i] && last_of_name(found, i);
                assert(0 <= i < k && cur[a] == found[i] && last_of_name(found, i));
            }
        }
    }
}

/// A subdirectory that is the last of its name is kept.
proof fn lemma_brick_dirs_keeps(found: Seq<FoundDir>, k: nat, i: int)
    requires
        k <= found.len(),
        0 <= i < k,
        last_of_name(found, i),
    ensures
        exists|a: int| 0 <= a < brick_dirs(found, k).len() && #[trigger] brick_dirs(found, k)[a] == found[i],
    decreases k,
{
    let km = (k - 1) as nat;
    let cur = brick_dirs(found, k);
    if i == k - 1 {
        assert(cur[cur.len() - 1] == found[i]);
    } else {
        lemma_brick_dirs_keeps(found, km, i);
        let prev = brick_dirs(found, km);
        let a = choose|a: int| 0 <= a < prev.len() && #[trigger] prev[a] == found[i];
        if last_of_name(found, k - 1) {
            assert(cur[a] == prev[a]);
        }
    }
}

/// Every brick-making subdirectory has a last one of its name at or after it.
proof fn lemma_last_of_name_exists(found: Seq<FoundDir>, i: int)
    requires
        0 <= i < found.len(),
        makes_brick(found[i]),
    ensures
        exists|j: int|
            i <= j < found.len() && last_of_name(found, j) && dir_brick_name(#[trigger] found[j])
                == dir_brick_name(found[i]),
    decreases found.len() - i,
{
    if !last_of_name(found, i) {
        let j = choose|j: int|
            i < j < found.len() && makes_brick(#[trigger] found[j]) && dir_brick_name(found[j])
                != dir_brick_name(found[i]) == false;
        lemma_last_of_name_exists(found, j);
    }
}

/// Of the bricks a listing gives, the kept ones have pairwise different names; each comes
/// from the last subdirectory that gives its name; and every name some subdirectory gives
/// is kept.
pub proof fn lemma_bricks_last_wins(found: Seq<FoundDir>)
    ensures
        ({
            let kept = brick_dirs(found, found.len());
            &&& forall|a: int, b: int|
                0 <= a < b < kept.len() ==> dir_brick_name(#[trigger] kept[a]) != dir_brick_name(
                    #[trigger] kept[b],
                )
            &&& forall|a: int|
                0 <= a < kept.len() ==> #[trigger] in_last(found, kept[a], found.len() as int)
            &&& forall|i: int|
                0 <= i < found.len() && makes_brick(#[trigger] found[i]) ==> exists|a: int|
                    0 <= a < kept.len() && dir_brick_name(#[trigger] kept[a]) == dir_brick_name(
                        found[i],
                    )
        }),
{
    let kept = brick_dirs(found, found.len());
    lemma_brick_dirs_last(found, found.len());
    assert forall|i: int| 0 <= i < found.len() && makes_brick(#[trigger] found[i]) implies exists|a: int|
        0 <= a < kept.len() && dir_brick_name(#[trigger] kept[a]) == dir_brick_name(found[i]) by {
        lemma_last_of_name_exists(found, i);
        let j = choose|j: int|
            i <= j < found.len() && last_of_name(found, j) && dir_brick_name(#[trigger] found[j])
                == dir_brick_name(found[i]);
        lemma_brick_dirs_keeps(found, found.len(), j);
        let a = choose|a: int| 0 <= a < kept.len() && #[trigger] kept[a] == found[j];
        assert(dir_brick_name(kept[a]) == dir_brick_name(found[i]));
    }
}

/// The brick made from a subdirectory carries the subdirectory's brick name.
pub proof fn lemma_brick_from_name(b: Brick, d: FoundDir)
    requires
        brick_from(b, d),
    ensures
        b.spec_config().spec_name() == dir_brick_name(d),
{
}

/// A file directly inside a brick directory.
#[derive(Debug)]
pub struct ListedFile {
    pub name: String,
    /// Whether it is a regular file.
    pub is_file: bool,
    /// Its text; empty when it cannot be read as text.
    pub content: String,
}

/// Whether a listed file is a template: a regular file other than the config file.
pub open spec fn is_template(f: ListedFile) -> bool {
    f.is_file && f.name@ != BRICK_CONFIG_FILE@
}

/// The templates among the first `k` listed files, as (name, content), in order.
pub open spec fn templates(listed: Seq<ListedFile>, k: nat) -> Seq<(Seq<char>, Seq<char>)>
    decreases k,
{
    if k == 0 || k > listed.len() {
        seq![]
    } else if is_template(listed[k - 1]) {
        templates(listed, (k - 1) as nat).push((listed[k - 1].name@, listed[k - 1].content@))
    } else {
        templates(listed, (k - 1) as nat)
    }
}

/// The template files of a brick, from the listing of its directory in order: regular
/// files, without the brick's config file.
pub fn brick_files(listed: Vec<ListedFile>) -> (r: Vec<BrickFile>)
    ensures
        r@.len() == templates(listed@, listed@.len()).len(),
        forall|j: int|
            0 <= j < r@.len() ==> (#[trigger] r@[j])@ == templates(listed@, listed@.len())[j],
{
    let ghost all = listed@;
    let n = listed.len();
    let config_name = BRICK_CONFIG_FILE.to_owned();
    let mut rest = listed;
    let mut out: Vec<BrickFile> = Vec::new();
    let mut i: usize = 0;
    while rest.len() > 0
        invariant
            n == all.len(),
            i + rest@.len() == all.len(),
            rest@ == all.subrange(i as int, all.len() as int),
            config_name@ == BRICK_CONFIG_FILE@,
            out@.len() == templates(all, i as nat).len(),
            forall|j: int| 0 <= j < out@.len() ==> (#[trigger] out@[j])@ == templates(all, i as nat)[j],
        decreases rest@.len(),
    {
        let f = rest.remove(0);
        assert(f == all[i as int]);
        let ghost prev = templates(all, i as nat);
        if f.is_file && f.name != config_name {
            out.push(BrickFile::new(f.name, f.content));
        }
        assert(forall|j: int| 0 <= j < prev.len() ==> #[trigger] templates(all, (i + 1) as nat)[j] == prev[j]);
        assert(rest@ =~= all.subrange(i + 1, all.len() as int));
        i = i + 1;
    }
    out
}

} // verus!
