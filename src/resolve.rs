//! Turning the names a user asks for into bricks: aliases, exact names, fuzzy matches.
use vstd::prelude::*;

use fuzzy_matcher::skim::SkimMatcherV2;
use fuzzy_matcher::FuzzyMatcher;

use crate::brick::Brick;
use crate::config::Alias;

verus! {

/// The lowercase form of `s`, as `str::to_lowercase` gives it.
pub uninterp spec fn lower_of(s: Seq<char>) -> Seq<char>;

/// Relies on `str::to_lowercase`: the result depends on the characters of `s` alone.
#[verifier::external_body]
fn lowercase(s: &str) -> (r: String)
    ensures
        r@ == lower_of(s@),
{
    s.to_lowercase()
}

/// The score that `SkimMatcherV2` with its default settings gives `choice` for
/// `pattern`; `None` when the characters of `pattern` do not occur in order in `choice`
/// (compared without ASCII case unless `pattern` holds an uppercase letter).
pub uninterp spec fn skim_score(choice: Seq<char>, pattern: Seq<char>) -> Option<i64>;

/// Relies on `fuzzy_matcher::skim::SkimMatcherV2::fuzzy_match` with default settings: the
/// score depends on the two strings alone, and an empty pattern scores 0.
#[verifier::external_body]
fn skim_match(choice: &str, pattern: &str) -> (r: Option<i64>)
    ensures
        r == skim_score(choice@, pattern@),
        pattern@.len() == 0 ==> r == Some(0i64),
{
    SkimMatcherV2::default().fuzzy_match(choice, pattern)
}

/// The first index at or after `i` where `names` holds `q`.
pub open spec fn first_match_from(names: Seq<Seq<char>>, q: Seq<char>, i: int) -> Option<int>
    decreases names.len() - i,
{
    if i < 0 || i >= names.len() {
        None
    } else if names[i] == q {
        Some(i)
    } else {
        first_match_from(names, q, i + 1)
    }
}

/// The first index where `names` holds `q`.
pub open spec fn first_match(names: Seq<Seq<char>>, q: Seq<char>) -> Option<int> {
    first_match_from(names, q, 0)
}

/// The views of a list of strings.
pub open spec fn texts(v: Seq<String>) -> Seq<Seq<char>> {
    v.map_values(|s: String| s@)
}

/// The first index of `folded` that holds `q`; each entry of `folded` is a name already
/// brought to lowercase, as is `q`.
pub fn first_folded_match(folded: &Vec<String>, q: &String) -> (r: Option<usize>)
    ensures
        r matches Some(i) ==> (i < folded@.len() && first_match(texts(folded@), q@) == Some(i as int)),
        r is None ==> first_match(texts(folded@), q@) is None,
{
    let ghost names = texts(folded@);
    let mut i: usize = 0;
    while i < folded.len()
        invariant
            i <= folded@.len(),
            names == texts(folded@),
            first_match(names, q@) == first_match_from(names, q@, i as int),
        decreases folded@.len() - i,
    {
        if folded[i] == *q {
            return Some(i);
        }
        i = i + 1;
    }
    None
}

/// The lowercase forms of the alias names, in order.
fn folded_alias_names(aliases: &[Alias]) -> (r: Vec<String>)
    ensures
        r@.len() == aliases@.len(),
        forall|j: int| 0 <= j < r@.len() ==> (#[trigger] r@[j])@ == lower_of(aliases@[j].spec_name()),
{
    let mut out: Vec<String> = Vec::new();
    let mut i: usize = 0;
    while i < aliases.len()
        invariant
            i <= aliases@.len(),
            out@.len() == i,
            forall|j: int| 0 <= j < i ==> (#[trigger] out@[j])@ == lower_of(aliases@[j].spec_name()),
        decreases aliases@.len() - i,
    {
        out.push(lowercase(aliases[i].name()));
        i = i + 1;
    }
    out
}

/// A copy of the strings of `v`.
pub(crate) fn copy_texts(v: &[String]) -> (r: Vec<String>)
    ensures
        texts(r@) == v@.map_values(|s: String| s@),
{
    let mut out: Vec<String> = Vec::new();
    let mut i: usize = 0;
    while i < v.len()
        invariant
            i <= v@.len(),
            out@.len() == i,
            forall|j: int| 0 <= j < i ==> (#[trigger] out@[j])@ == v@[j]@,
        decreases v@.len() - i,
    {
        out.push(v[i].clone());
        i = i + 1;
    }
    assert(texts(out@) =~= v@.map_values(|s: String| s@));
    out
}

/// The lowercase forms of the alias names.
pub open spec fn alias_keys(aliases: Seq<Alias>) -> Seq<Seq<char>> {
    aliases.map_values(|a: Alias| lower_of(a.spec_name()))
}

/// What a query names: the bricks of the first alias whose lowercase name is the
/// lowercase query, else the query itself as a brick name.
pub open spec fn expansion(query: Seq<char>, aliases: Seq<Alias>) -> Seq<Seq<char>> {
    match first_match(alias_keys(aliases), lower_of(query)) {
        Some(i) => aliases[i].spec_bricks(),
        None => seq![query],
    }
}

/// The brick names a query stands for: the bricks of the alias it names, compared
/// without case, or else the query itself. An alias is expanded one level only.
pub fn resolve_query(query: &str, aliases: &[Alias]) -> (r: Vec<String>)
    ensures
        texts(r@) == expansion(query@, aliases@),
{
    let keys = folded_alias_names(aliases);
    assert(texts(keys@) =~= alias_keys(aliases@));
    let q = lowercase(query);
    match first_folded_match(&keys, &q) {
        Some(i) => {
            let r = copy_texts(aliases[i].bricks());
            assert(texts(r@) =~= aliases@[i as int].spec_bricks());
            r
        },
        None => {
            let r = vec![query.to_owned()];
            assert(texts(r@) =~= seq![query@]);
            r
        },
    }
}

/// The lowercase names of the bricks.
pub open spec fn brick_keys(bricks: Seq<Brick>) -> Seq<Seq<char>> {
    bricks.map_values(|b: Brick| lower_of(b.spec_config().spec_name()))
}

/// The index of the first brick whose name is `name`, compared without case.
pub open spec fn brick_index(bricks: Seq<Brick>, name: Seq<char>) -> Option<usize> {
    match first_match(brick_keys(bricks), lower_of(name)) {
        Some(i) => Some(i as usize),
        None => None,
    }
}

/// The index of the first brick whose name, compared without case, is `name`.
pub fn find_brick(bricks: &[Brick], name: &str) -> (r: Option<usize>)
    ensures
        r == brick_index(bricks@, name@),
        r matches Some(i) ==> i < bricks@.len(),
{
    let mut keys: Vec<String> = Vec::new();
    let mut i: usize = 0;
    while i < bricks.len()
        invariant
            i <= bricks@.len(),
            keys@.len() == i,
            forall|j: int|
                0 <= j < i ==> (#[trigger] keys@[j])@ == lower_of(bricks@[j].spec_config().spec_name()),
        decreases bricks@.len() - i,
    {
        keys.push(lowercase(bricks[i].name()));
        i = i + 1;
    }
    assert(texts(keys@) =~= brick_keys(bricks@));
    let q = lowercase(name);
    first_folded_match(&keys, &q)
}

/// The fuzzy candidates among the first `k` scores and the highest score kept so far: a
/// candidate is kept when its score is at least the highest one kept before it (starting
/// from 0), so earlier, lower-scoring candidates stay.
pub open spec fn rising(scores: Seq<Option<i64>>, k: nat) -> (Seq<(usize, i64)>, i64)
    decreases k,
{
    if k == 0 || k > scores.len() {
        (seq![], 0)
    } else {
        let prev = rising(scores, (k - 1) as nat);
        match scores[k - 1] {
            Some(s) => if s >= prev.1 {
                (prev.0.push(((k - 1) as usize, s)), s)
            } else {
                prev
            },
            None => prev,
        }
    }
}

/// The candidates kept from `scores`, as (index, score), in order.
pub fn retain_rising(scores: &Vec<Option<i64>>) -> (r: Vec<(usize, i64)>)
    ensures
        r@ == rising(scores@, scores@.len()).0,
{
    let mut out: Vec<(usize, i64)> = Vec::new();
    let mut highest: i64 = 0;
    let mut i: usize = 0;
    while i < scores.len()
        invariant
            i <= scores@.len(),
            (out@, highest) == rising(scores@, i as nat),
        decreases scores@.len() - i,
    {
        match scores[i] {
            Some(s) => {
                if s >= highest {
                    out.push((i, s));
                    highest = s;
                }
            },
            None => {},
        }
        i = i + 1;
    }
    out
}

/// The skim scores of `names` for `query`.
pub open spec fn scores_of(names: Seq<Seq<char>>, query: Seq<char>) -> Seq<Option<i64>> {
    names.map_values(|n: Seq<char>| skim_score(n, query))
}

/// The brick names that fuzzy-match `query`, as (index, score): each name whose score is
/// at least the highest kept before it.
pub fn fuzzy_candidates(names: &Vec<String>, query: &str) -> (r: Vec<(usize, i64)>)
    ensures
        r@ == rising(scores_of(texts(names@), query@), names@.len()).0,
{
    let mut scores: Vec<Option<i64>> = Vec::new();
    let mut i: usize = 0;
    while i < names.len()
        invariant
            i <= names@.len(),
            scores@.len() == i,
            forall|j: int|
                0 <= j < i ==> #[trigger] scores@[j] == skim_score(names@[j]@, query@),
        decreases names@.len() - i,
    {
        scores.push(skim_match(names[i].as_str(), query));
        i = i + 1;
    }
    assert(scores@ =~= scores_of(texts(names@), query@));
    retain_rising(&scores)
}

/// What the fuzzy search settled on.
#[derive(Clone, Debug, PartialEq, Eq)]
pub enum FuzzyOutcome {
    /// No brick name matches.
    NoMatch,
    /// Exactly one candidate: the brick at this index.
    Single(usize),
    /// Several candidates, as (index, score), none picked.
    Ambiguous(Vec<(usize, i64)>),
}

/// Settles the fuzzy candidates: none, exactly one, or several left for the user.
pub fn classify(candidates: Vec<(usize, i64)>) -> (r: FuzzyOutcome)
    ensures
        candidates@.len() == 0 ==> r == FuzzyOutcome::NoMatch,
        candidates@.len() == 1 ==> r == FuzzyOutcome::Single(candidates@[0].0),
        candidates@.len() > 1 ==> (r matches FuzzyOutcome::Ambiguous(v) && v@ == candidates@),
{
    if candidates.len() == 0 {
        FuzzyOutcome::NoMatch
    } else if candidates.len() == 1 {
        FuzzyOutcome::Single(candidates[0].0)
    } else {
        FuzzyOutcome::Ambiguous(candidates)
    }
}

} // verus!

verus! {

proof fn lemma_first_match_from(names: Seq<Seq<char>>, q: Seq<char>, i: int, k: int)
    requires
        0 <= k <= i < names.len(),
        names[i] == q,
        forall|j: int| k <= j < i ==> names[j] != q,
    ensures
        first_match_from(names, q, k) == Some(i),
    decreases i - k,
{
    if k < i {
        lemma_first_match_from(names, q, i, k + 1);
    }
}

/// A match found from `k` on is in range and holds `q`.
pub proof fn lemma_first_match_found(names: Seq<Seq<char>>, q: Seq<char>, k: int)
    requires
        first_match_from(names, q, k) is Some,
    ensures
        ({
            let i = first_match_from(names, q, k)->Some_0;
            k <= i < names.len() && names[i] == q
        }),
    decreases names.len() - k,
{
    if 0 <= k < names.len() && names[k] != q {
        lemma_first_match_found(names, q, k + 1);
    }
}

/// Resolving the name of an alias, in any case, gives exactly that alias's bricks, when no
/// earlier alias has the same name up to case.
pub proof fn lemma_alias_expands(query: Seq<char>, aliases: Seq<Alias>, i: int)
    requires
        0 <= i < aliases.len(),
        lower_of(aliases[i].spec_name()) == lower_of(query),
        forall|j: int| 0 <= j < i ==> lower_of((#[trigger] aliases[j]).spec_name()) != lower_of(query),
    ensures
        expansion(query, aliases) == aliases[i].spec_bricks(),
{
    let keys = alias_keys(aliases);
    assert forall|j: int| 0 <= j < i implies keys[j] != lower_of(query) by {
        assert(keys[j] == lower_of(aliases[j].spec_name()));
    }
    lemma_first_match_from(keys, lower_of(query), i, 0);
}

} // verus!

verus! {

/// The names of the bricks.
pub open spec fn brick_names(bricks: Seq<Brick>) -> Seq<Seq<char>> {
    bricks.map_values(|b: Brick| b.spec_config().spec_name())
}

/// The fuzzy search for `query` over the brick names: no match, the one candidate, or
/// every candidate kept, with its score.
pub fn fuzzy_pick(bricks: &[Brick], query: &str) -> (r: FuzzyOutcome)
    ensures
        ({
            let kept = rising(scores_of(brick_names(bricks@), query@), bricks@.len()).0;
            &&& kept.len() == 0 ==> r == FuzzyOutcome::NoMatch
            &&& kept.len() == 1 ==> r == FuzzyOutcome::Single(kept[0].0)
            &&& kept.len() > 1 ==> (r matches FuzzyOutcome::Ambiguous(v) && v@ == kept)
        }),
{
    let mut names: Vec<String> = Vec::new();
    let mut i: usize = 0;
    while i < bricks.len()
        invariant
            i <= bricks@.len(),
            names@.len() == i,
            forall|j: int| 0 <= j < i ==> (#[trigger] names@[j])@ == bricks@[j].spec_config().spec_name(),
        decreases bricks@.len() - i,
    {
        names.push(bricks[i].name().to_owned());
        i = i + 1;
    }
    assert(texts(names@) =~= brick_names(bricks@));
    classify(fuzzy_candidates(&names, query))
}

} // verus!
