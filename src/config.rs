//! The process configuration: where bricks live, and the aliases.
use vstd::prelude::*;
use vstd::string::StrSliceExecFns;
use vstd::string::StringExecFns;

verus! {

broadcast use vstd::string::group_string_axioms;

/// The configuration directory used when none is given.
pub const DEFAULT_CONFIG_DIR: &'static str = "~/.config/crane";

/// The brick directory used when the configuration names none, relative to the
/// configuration directory.
pub const DEFAULT_BRICK_DIR: &'static str = "./bricks";

/// The configuration directory: the one given, if any, else the default.
pub fn config_dir(given: Option<String>) -> (r: String)
    ensures
        given matches Some(g) ==> r@ == g@,
        given is None ==> r@ == DEFAULT_CONFIG_DIR@,
{
    match given {
        Some(g) => g,
        None => DEFAULT_CONFIG_DIR.to_owned(),
    }
}

/// A name standing for several bricks.
#[derive(Clone, Debug)]
pub struct Alias {
    name: String,
    bricks: Vec<String>,
}

impl Alias {
    pub fn new(name: String, bricks: Vec<String>) -> (r: Self)
        ensures
            r.spec_name() == name@,
            r.spec_bricks() == bricks@.map_values(|b: String| b@),
    {
        Self { name, bricks }
    }

    pub closed spec fn spec_name(&self) -> Seq<char> {
        self.name@
    }

    pub closed spec fn spec_bricks(&self) -> Seq<Seq<char>> {
        self.bricks@.map_values(|b: String| b@)
    }

    pub fn name(&self) -> (r: &str)
        ensures
            r@ == self.spec_name(),
    {
        self.name.as_str()
    }

    pub fn bricks(&self) -> (r: &[String])
        ensures
            r@.map_values(|b: String| b@) == self.spec_bricks(),
    {
        self.bricks.as_slice()
    }
}

/// Where bricks are looked for, and the aliases.
#[derive(Clone, Debug, Default)]
pub struct CraneConfig {
    brick_dirs: Vec<String>,
    alias: Vec<Alias>,
}

/// Whether `p` is an absolute path.
pub open spec fn is_absolute(p: Seq<char>) -> bool {
    p.len() > 0 && p[0] == '/'
}

/// `dir` resolved against the configuration directory `base`.
pub open spec fn resolved_dir(base: Seq<char>, dir: Seq<char>) -> Seq<char> {
    if is_absolute(dir) {
        dir
    } else {
        base + seq!['/'] + dir
    }
}

impl CraneConfig {
    /// The configuration as read from its file, with relative brick directories resolved
    /// against `config_dir`; with no brick directory, `./bricks` beside the file.
    pub fn new(brick_dirs: Vec<String>, alias: Vec<Alias>, config_dir: &str) -> (r: Self)
        ensures
            brick_dirs@.len() > 0 ==> r.spec_brick_dirs().len() == brick_dirs@.len() && forall|
                j: int,
            |
                0 <= j < brick_dirs@.len() ==> #[trigger] r.spec_brick_dirs()[j] == resolved_dir(
                    config_dir@,
                    brick_dirs@[j]@,
                ),
            brick_dirs@.len() == 0 ==> r.spec_brick_dirs() == seq![
                resolved_dir(config_dir@, DEFAULT_BRICK_DIR@),
            ],
            r.spec_alias() == alias@,
    {
        let mut dirs: Vec<String> = Vec::new();
        if brick_dirs.len() == 0 {
            dirs.push(resolve_dir(config_dir, DEFAULT_BRICK_DIR));
            assert(dirs@.map_values(|d: String| d@) =~= seq![
                resolved_dir(config_dir@, DEFAULT_BRICK_DIR@),
            ]);
        } else {
            let mut i: usize = 0;
            while i < brick_dirs.len()
                invariant
                    i <= brick_dirs@.len(),
                    dirs@.len() == i,
                    forall|j: int|
                        0 <= j < i ==> (#[trigger] dirs@[j])@ == resolved_dir(
                            config_dir@,
                            brick_dirs@[j]@,
                        ),
                decreases brick_dirs@.len() - i,
            {
                dirs.push(resolve_dir(config_dir, brick_dirs[i].as_str()));
                i = i + 1;
            }
        }
        CraneConfig { brick_dirs: dirs, alias }
    }

    pub closed spec fn spec_brick_dirs(&self) -> Seq<Seq<char>> {
        self.brick_dirs@.map_values(|d: String| d@)
    }

    pub closed spec fn spec_alias(&self) -> Seq<Alias> {
        self.alias@
    }

    pub fn brick_dirs(&self) -> (r: &[String])
        ensures
            r@.map_values(|d: String| d@) == self.spec_brick_dirs(),
    {
        self.brick_dirs.as_slice()
    }

    pub fn alias(&self) -> (r: &[Alias])
        ensures
            r@ == self.spec_alias(),
    {
        self.alias.as_slice()
    }
}

/// `dir` resolved against `base`: kept when absolute, else joined to `base`.
fn resolve_dir(base: &str, dir: &str) -> (r: String)
    ensures
        r@ == resolved_dir(base@, dir@),
{
    if dir.unicode_len() > 0 && dir.get_char(0) == '/' {
        dir.to_owned()
    } else {
        let mut p = base.to_owned();
        p.append("/");
        proof {
            reveal_strlit("/");
        }
        p.append(dir);
        p
    }
}

} // verus!

verus! {

/// The entries of a brick-to-aliases list, as views.
pub open spec fn entries_view(m: Seq<(String, Vec<String>)>) -> Seq<(Seq<char>, Seq<Seq<char>>)> {
    m.map_values(|e: (String, Vec<String>)| (e.0@, crate::resolve::texts(e.1@)))
}

/// `m` with alias `a` recorded for brick `b`: added to the entry of `b`, or as a new last
/// entry.
pub open spec fn add_pair(m: Seq<(Seq<char>, Seq<Seq<char>>)>, b: Seq<char>, a: Seq<char>) -> Seq<
    (Seq<char>, Seq<Seq<char>>),
> {
    match crate::resolve::first_match(m.map_values(|e: (Seq<char>, Seq<Seq<char>>)| e.0), b) {
        Some(i) => m.update(i, (b, m[i].1.push(a))),
        None => m.push((b, seq![a])),
    }
}

/// `m` with the first `j` bricks of `alias` recorded.
pub open spec fn add_alias(m: Seq<(Seq<char>, Seq<Seq<char>>)>, alias: Alias, j: nat) -> Seq<
    (Seq<char>, Seq<Seq<char>>),
>
    decreases j,
{
    if j == 0 || j > alias.spec_bricks().len() {
        m
    } else {
        add_pair(add_alias(m, alias, (j - 1) as nat), alias.spec_bricks()[j - 1], alias.spec_name())
    }
}

/// For the first `i` aliases: each brick they name, in order of first mention, with the
/// names of the aliases that list it, in order.
pub open spec fn alias_map(aliases: Seq<Alias>, i: nat) -> Seq<(Seq<char>, Seq<Seq<char>>)>
    decreases i,
{
    if i == 0 || i > aliases.len() {
        seq![]
    } else {
        let a = aliases[i - 1];
        add_alias(alias_map(aliases, (i - 1) as nat), a, a.spec_bricks().len())
    }
}

/// Index of the entry for brick `b`.
fn entry_of(m: &Vec<(String, Vec<String>)>, b: &String) -> (r: Option<usize>)
    ensures
        r matches Some(i) ==> (i < m@.len() && crate::resolve::first_match(
            entries_view(m@).map_values(|e: (Seq<char>, Seq<Seq<char>>)| e.0),
            b@,
        ) == Some(i as int)),
        r is None ==> crate::resolve::first_match(
            entries_view(m@).map_values(|e: (Seq<char>, Seq<Seq<char>>)| e.0),
            b@,
        ) is None,
{
    let ghost keys = entries_view(m@).map_values(|e: (Seq<char>, Seq<Seq<char>>)| e.0);
    let mut i: usize = 0;
    while i < m.len()
        invariant
            i <= m@.len(),
            keys == entries_view(m@).map_values(|e: (Seq<char>, Seq<Seq<char>>)| e.0),
            crate::resolve::first_match(keys, b@) == crate::resolve::first_match_from(
                keys,
                b@,
                i as int,
            ),
        decreases m@.len() - i,
    {
        assert(keys[i as int] == m@[i as int].0@);
        if m[i].0 == *b {
            return Some(i);
        }
        i = i + 1;
    }
    None
}

/// For each brick that an alias names, in order of first mention: the names of the
/// aliases that list it, in order.
pub fn map_aliases(aliases: &[Alias]) -> (r: Vec<(String, Vec<String>)>)
    ensures
        entries_view(r@) == alias_map(aliases@, aliases@.len()),
{
    let mut m: Vec<(String, Vec<String>)> = Vec::new();
    let mut i: usize = 0;
    assert(entries_view(m@) =~= alias_map(aliases@, 0));
    while i < aliases.len()
        invariant
            i <= aliases@.len(),
            entries_view(m@) == alias_map(aliases@, i as nat),
        decreases aliases@.len() - i,
    {
        let alias = &aliases[i];
        let bricks = alias.bricks();
        let ghost base = entries_view(m@);
        let mut j: usize = 0;
        while j < bricks.len()
            invariant
                j <= bricks@.len(),
                alias == aliases@[i as int],
                bricks@.map_values(|b: String| b@) == alias.spec_bricks(),
                entries_view(m@) == add_alias(base, *alias, j as nat),
            decreases bricks@.len() - j,
        {
            let b = &bricks[j];
            assert(alias.spec_bricks()[j as int] == b@);
            let ghost before = entries_view(m@);
            let name = alias.name().to_owned();
            match entry_of(&m, b) {
                Some(k) => {
                    proof {
                        crate::resolve::lemma_first_match_found(
                            before.map_values(|e: (Seq<char>, Seq<Seq<char>>)| e.0),
                            b@,
                            0,
                        );
                    }
                    let mut names = crate::resolve::copy_texts(m[k].1.as_slice());
                    let ghost copied = names@;
                    names.push(name);
                    assert(crate::resolve::texts(names@) =~= crate::resolve::texts(copied).push(
                        alias.spec_name(),
                    ));
                    let key = b.clone();
                    let entry = (key, names);
                    assert(entries_view(seq![entry])[0] == (b@, before[k as int].1.push(
                        alias.spec_name(),
                    )));
                    m.set(k, entry);
                    assert(entries_view(m@) =~= before.update(
                        k as int,
                        (b@, before[k as int].1.push(alias.spec_name())),
                    ));
                },
                None => {
                    let names = vec![name];
                    assert(crate::resolve::texts(names@) =~= seq![alias.spec_name()]);
                    m.push((b.clone(), names));
                    assert(entries_view(m@) =~= before.push((b@, seq![alias.spec_name()])));
                },
            }
            j = j + 1;
        }
        i = i + 1;
    }
    m
}

} // verus!
