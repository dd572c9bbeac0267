//! The commands of the program, as plain values, and what the add command decides.
use vstd::prelude::*;

use crate::brick::Brick;
use crate::config::{Alias, CraneConfig};
use crate::resolve::{brick_index, copy_texts, expansion, find_brick, resolve_query, texts};

verus! {

/// Something the program can be asked to do.
pub trait Run {
    fn run(&self);
}

/// Add bricks to a directory.
#[derive(Debug)]
pub struct Add {
    /// Brick names or alias names.
    pub bricks: Vec<String>,
    /// Directories to look for bricks in, in place of the configured ones.
    pub brick_dirs: Vec<String>,
    /// Where the bricks go; the current directory when absent.
    pub target_dir: Option<String>,
    /// Decide everything but write nothing.
    pub dry_run: bool,
}

/// List the bricks found.
#[derive(Debug)]
pub struct List {
    /// A directory to look for bricks in, in place of the configured ones.
    pub brick_dirs: Option<String>,
}

/// The commands of the program.
#[derive(Debug)]
pub enum CraneCommand {
    Add(Add),
    List(List),
}

/// The brick names that the first `k` queries stand for, in order.
pub open spec fn expand_all(queries: Seq<String>, aliases: Seq<Alias>, k: nat) -> Seq<Seq<char>>
    decreases k,
{
    if k == 0 || k > queries.len() {
        seq![]
    } else {
        expand_all(queries, aliases, (k - 1) as nat) + expansion(queries[k - 1]@, aliases)
    }
}

impl Add {
    /// The directories to search: those given with the command, else the configured ones.
    pub fn search_dirs(&self, config: &CraneConfig) -> (r: Vec<String>)
        ensures
            self.brick_dirs@.len() > 0 ==> texts(r@) == texts(self.brick_dirs@),
            self.brick_dirs@.len() == 0 ==> texts(r@) == config.spec_brick_dirs(),
    {
        if self.brick_dirs.len() > 0 {
            copy_texts(self.brick_dirs.as_slice())
        } else {
            copy_texts(config.brick_dirs())
        }
    }

    /// Each brick name the queries stand for, in order, with the index of the brick of
    /// that name (compared without case), if one was found.
    pub fn plan(&self, aliases: &[Alias], bricks: &[Brick]) -> (r: Vec<(String, Option<usize>)>)
        ensures
            r@.len() == expand_all(self.bricks@, aliases@, self.bricks@.len()).len(),
            forall|j: int|
                0 <= j < r@.len() ==> (#[trigger] r@[j]).0@ == expand_all(
                    self.bricks@,
                    aliases@,
                    self.bricks@.len(),
                )[j] && r@[j].1 == brick_index(bricks@, r@[j].0@),
    {
        let mut out: Vec<(String, Option<usize>)> = Vec::new();
        let mut i: usize = 0;
        while i < self.bricks.len()
            invariant
                i <= self.bricks@.len(),
                out@.len() == expand_all(self.bricks@, aliases@, i as nat).len(),
                forall|j: int|
                    0 <= j < out@.len() ==> (#[trigger] out@[j]).0@ == expand_all(
                        self.bricks@,
                        aliases@,
                        i as nat,
                    )[j] && out@[j].1 == brick_index(bricks@, out@[j].0@),
            decreases self.bricks@.len() - i,
        {
            let names = resolve_query(self.bricks[i].as_str(), aliases);
            let ghost before = expand_all(self.bricks@, aliases@, i as nat);
            let ghost added = expansion(self.bricks@[i as int]@, aliases@);
            assert(expand_all(self.bricks@, aliases@, (i + 1) as nat) == before + added);
            let ghost start = out@.len();
            let mut k: usize = 0;
            while k < names.len()
                invariant
                    k <= names@.len(),
                    texts(names@) == added,
                    start == before.len(),
                    out@.len() == start + k,
                    forall|j: int|
                        0 <= j < out@.len() ==> (#[trigger] out@[j]).0@ == (before + added)[j]
                            && out@[j].1 == brick_index(bricks@, out@[j].0@),
                decreases names@.len() - k,
            {
                assert(names@[k as int]@ == added[k as int]);
                let found = find_brick(bricks, names[k].as_str());
                out.push((names[k].clone(), found));
                k = k + 1;
            }
            i = i + 1;
        }
        out
    }
}

} // verus!
