//! Literal, offset-correct text edits around every occurrence of a selector.
use vstd::prelude::*;
use vstd::std_specs::iter::IteratorSpec;
use vstd::string::StrSliceExecFns;
use vstd::string::StringExecFns;

use crate::error::ActionError;

verus! {

broadcast use vstd::string::group_string_axioms;

/// Where the inserted or replacing content goes relative to each match.
#[derive(Clone, Copy, Debug, Default, PartialEq, Eq, Structural)]
pub enum ModifyType {
    /// Content goes right after the match.
    #[default]
    Append,
    /// Content goes right before the match.
    Prepend,
    /// Content takes the place of the match.
    Replace,
}

/// How far the scan moves past a match: an empty selector still advances.
pub open spec fn match_step(s: Seq<char>) -> int {
    if s.len() == 0 {
        1
    } else {
        s.len() as int
    }
}

/// Start offsets of the non-overlapping occurrences of `s` in `t` at or after `i`,
/// scanning left to right.
pub open spec fn matches_from(t: Seq<char>, s: Seq<char>, i: int) -> Seq<int>
    decreases t.len() + 1 - i,
{
    if i < 0 || i + s.len() > t.len() {
        seq![]
    } else if t.subrange(i, i + s.len()) == s {
        seq![i] + matches_from(t, s, i + match_step(s))
    } else {
        matches_from(t, s, i + 1)
    }
}

/// Start offsets of the non-overlapping occurrences of `s` in `t`, left to right.
pub open spec fn match_offsets(t: Seq<char>, s: Seq<char>) -> Seq<int> {
    matches_from(t, s, 0)
}

/// What stands in the result where a match stood in the unedited text.
pub open spec fn piece(op: ModifyType, s: Seq<char>, c: Seq<char>) -> Seq<char> {
    match op {
        ModifyType::Append => s + c,
        ModifyType::Prepend => c + s,
        ModifyType::Replace => c,
    }
}

/// End offset of the `k` first matches (0 when `k` is 0).
pub open spec fn end_of(ms: Seq<int>, s: Seq<char>, k: int) -> int {
    if k <= 0 {
        0
    } else {
        ms[k - 1] + s.len()
    }
}

/// The edited text up to the end of the `k`-th match.
pub open spec fn edited_prefix(
    t: Seq<char>,
    s: Seq<char>,
    c: Seq<char>,
    op: ModifyType,
    ms: Seq<int>,
    k: nat,
) -> Seq<char>
    decreases k,
{
    if k == 0 {
        seq![]
    } else {
        edited_prefix(t, s, c, op, ms, (k - 1) as nat) + t.subrange(end_of(ms, s, k - 1), ms[k - 1])
            + piece(op, s, c)
    }
}

/// The edited text after `k` matches, followed by the untouched rest of `t`.
pub open spec fn edited_after(
    t: Seq<char>,
    s: Seq<char>,
    c: Seq<char>,
    op: ModifyType,
    ms: Seq<int>,
    k: nat,
) -> Seq<char> {
    edited_prefix(t, s, c, op, ms, k) + t.subrange(end_of(ms, s, k as int), t.len() as int)
}

/// `t` with every match of `s` (as found in the unedited `t`) edited by `op` with `c`.
pub open spec fn surgery(t: Seq<char>, s: Seq<char>, c: Seq<char>, op: ModifyType) -> Seq<char> {
    let ms = match_offsets(t, s);
    edited_after(t, s, c, op, ms, ms.len())
}

/// The offsets are increasing, apart by at least one match, inside `t`, and each
/// marks an occurrence of `s`.
pub open spec fn well_placed(t: Seq<char>, s: Seq<char>, ms: Seq<int>, lo: int) -> bool {
    &&& forall|j: int| 0 <= j < ms.len() ==> lo <= #[trigger] ms[j] && ms[j] + s.len() <= t.len()
    &&& forall|j: int|
        0 <= j < ms.len() ==> #[trigger] t.subrange(ms[j], ms[j] + s.len()) == s
    &&& forall|j: int| 0 < j < ms.len() ==> ms[j - 1] + match_step(s) <= #[trigger] ms[j]
}

pub proof fn lemma_matches_from_well_placed(t: Seq<char>, s: Seq<char>, i: int)
    requires
        0 <= i,
    ensures
        well_placed(t, s, matches_from(t, s, i), i),
    decreases t.len() + 1 - i,
{
    if i + s.len() > t.len() {
    } else if t.subrange(i, i + s.len()) == s {
        lemma_matches_from_well_placed(t, s, i + match_step(s));
        let rest = matches_from(t, s, i + match_step(s));
        let ms = seq![i] + rest;
        assert(ms == matches_from(t, s, i));
        assert forall|j: int| 0 < j < ms.len() implies ms[j - 1] + match_step(s) <= #[trigger] ms[j] by {
            if j > 1 {
                assert(ms[j - 1] == rest[j - 2]);
                assert(ms[j] == rest[j - 1]);
            } else {
                assert(ms[j] == rest[0]);
            }
        }
        assert forall|j: int|
            0 <= j < ms.len() implies #[trigger] t.subrange(ms[j], ms[j] + s.len()) == s by {
            if j > 0 {
                assert(ms[j] == rest[j - 1]);
            }
        }
        assert forall|j: int| 0 <= j < ms.len() implies i <= #[trigger] ms[j] && ms[j] + s.len() <= t.len() by {
            if j > 0 {
                assert(ms[j] == rest[j - 1]);
            }
        }
    } else {
        lemma_matches_from_well_placed(t, s, i + 1);
    }
}

pub proof fn lemma_match_offsets_well_placed(t: Seq<char>, s: Seq<char>)
    ensures
        well_placed(t, s, match_offsets(t, s), 0),
{
    lemma_matches_from_well_placed(t, s, 0);
}

/// The edited prefix grows by the size difference of a piece and a match, per match.
pub proof fn lemma_edited_prefix_len(
    t: Seq<char>,
    s: Seq<char>,
    c: Seq<char>,
    op: ModifyType,
    ms: Seq<int>,
    k: nat,
)
    requires
        well_placed(t, s, ms, 0),
        k <= ms.len(),
    ensures
        edited_prefix(t, s, c, op, ms, k).len() == end_of(ms, s, k as int) + k * (piece(
            op,
            s,
            c,
        ).len() - s.len()),
    decreases k,
{
    if k > 0 {
        lemma_edited_prefix_len(t, s, c, op, ms, (k - 1) as nat);
        let d = piece(op, s, c).len() - s.len();
        assert(0 <= ms[k - 1] && ms[k - 1] + s.len() <= t.len());
        assert(0 <= end_of(ms, s, k - 1) <= ms[k - 1]) by {
            if k > 1 {
                assert(ms[k - 2] + match_step(s) <= ms[k - 1]);
            }
        }
        let km: nat = (k - 1) as nat;
        assert(km * d + d == k * d) by (nonlinear_arith)
            requires
                km == k - 1,
        ;
        let gap = t.subrange(end_of(ms, s, k - 1), ms[k - 1]);
        assert(gap.len() == ms[k - 1] - end_of(ms, s, k - 1));
        let prev = edited_prefix(t, s, c, op, ms, km);
        assert(edited_prefix(t, s, c, op, ms, k) == prev + gap + piece(op, s, c));
        assert(prev.len() == end_of(ms, s, km as int) + km * d);
        assert(end_of(ms, s, k as int) == ms[k - 1] + s.len());
    } else {
        let d = piece(op, s, c).len() - s.len();
        assert(k * d == 0) by (nonlinear_arith)
            requires
                k == 0,
        ;
    }
}

/// One edit step: splicing the content at the shifted offset of match `k` turns the text
/// edited through `k` matches into the text edited through `k + 1`.
pub proof fn lemma_edit_step(
    t: Seq<char>,
    s: Seq<char>,
    c: Seq<char>,
    op: ModifyType,
    ms: Seq<int>,
    k: nat,
)
    requires
        well_placed(t, s, ms, 0),
        k < ms.len(),
    ensures
        ({
            let out = edited_after(t, s, c, op, ms, k);
            let at = out.len() - (t.len() - ms[k as int]);
            let after = at + s.len();
            &&& 0 <= at <= after <= out.len()
            &&& ms[k as int] + s.len() <= t.len()
            &&& op == ModifyType::Append ==> out.subrange(0, after) + c + out.subrange(
                after,
                out.len() as int,
            ) == edited_after(t, s, c, op, ms, k + 1)
            &&& op == ModifyType::Prepend ==> out.subrange(0, at) + c + out.subrange(
                at,
                out.len() as int,
            ) == edited_after(t, s, c, op, ms, k + 1)
            &&& op == ModifyType::Replace ==> out.subrange(0, at) + c + out.subrange(
                after,
                out.len() as int,
            ) == edited_after(t, s, c, op, ms, k + 1)
        }),
{
    lemma_edited_prefix_len(t, s, c, op, ms, k);
    let m = ms[k as int];
    let e = end_of(ms, s, k as int);
    let prefix = edited_prefix(t, s, c, op, ms, k);
    let out = edited_after(t, s, c, op, ms, k);
    if k > 0 {
        assert(ms[k - 1] + match_step(s) <= ms[k as int]);
    }
    assert(0 <= m && m + s.len() <= t.len());
    assert(t.subrange(m, m + s.len()) == s);
    let at = out.len() - (t.len() - m);
    let after = at + s.len();
    assert(at == prefix.len() + (m - e));
    assert(out.subrange(0, at) =~= prefix + t.subrange(e, m));
    assert(out.subrange(at, after) =~= s);
    assert(out.subrange(after, out.len() as int) =~= t.subrange(m + s.len(), t.len() as int));
    assert(out.subrange(at, out.len() as int) =~= s + t.subrange(m + s.len(), t.len() as int));
    assert(out.subrange(0, after) =~= prefix + t.subrange(e, m) + s);
    assert(end_of(ms, s, (k + 1) as int) == m + s.len());
    let next = edited_prefix(t, s, c, op, ms, k + 1);
    assert(next == prefix + t.subrange(e, m) + piece(op, s, c));
    let rest = t.subrange(m + s.len(), t.len() as int);
    assert(edited_after(t, s, c, op, ms, k + 1) == next + rest);
    match op {
        ModifyType::Append => {
            assert(out.subrange(0, after) + c + out.subrange(after, out.len() as int) =~= next
                + rest);
        },
        ModifyType::Prepend => {
            assert(out.subrange(0, at) + c + out.subrange(at, out.len() as int) =~= next + rest);
        },
        ModifyType::Replace => {
            assert(out.subrange(0, at) + c + out.subrange(after, out.len() as int) =~= next
                + rest);
        },
    }
}

/// The characters of `s`, in order.
pub fn chars_of(s: &str) -> (r: Vec<char>)
    ensures
        r@ == s@,
{
    let mut out: Vec<char> = Vec::new();
    let mut it = s.chars();
    loop
        invariant
            out@ + it.remaining() == s@,
            it.obeys_prophetic_iter_laws(),
            it.decrease() is Some,
        ensures
            out@ == s@,
        decreases it.decrease()->0,
    {
        match it.next() {
            Some(c) => {
                out.push(c);
            },
            None => {
                break;
            },
        }
    }
    out
}

/// Whether `s` occurs in `t` at offset `i`.
fn occurs_at(t: &Vec<char>, s: &Vec<char>, i: usize) -> (r: bool)
    requires
        i + s@.len() <= t@.len(),
    ensures
        r == (t@.subrange(i as int, i + s@.len()) == s@),
{
    let tl = t.len();
    let mut j: usize = 0;
    while j < s.len()
        invariant
            tl == t@.len(),
            i + s@.len() <= t@.len(),
            j <= s@.len(),
            forall|q: int| 0 <= q < j ==> t@[i + q] == s@[q],
        decreases s@.len() - j,
    {
        if t[i + j] != s[j] {
            assert(t@.subrange(i as int, i + s@.len())[j as int] != s@[j as int]);
            return false;
        }
        j = j + 1;
    }
    assert(t@.subrange(i as int, i + s@.len()) =~= s@);
    true
}

/// Start offsets of the non-overlapping occurrences of `s` in `t`, left to right.
pub fn find_matches(t: &Vec<char>, s: &Vec<char>) -> (r: Vec<usize>)
    ensures
        r@.len() == match_offsets(t@, s@).len(),
        forall|j: int| 0 <= j < r@.len() ==> r@[j] as int == #[trigger] match_offsets(t@, s@)[j],
{
    let ghost all = match_offsets(t@, s@);
    let tl = t.len();
    let mut found: Vec<usize> = Vec::new();
    let mut i: usize = 0;
    loop
        invariant_except_break
            found@.len() + matches_from(t@, s@, i as int).len() == all.len(),
            forall|j: int| 0 <= j < found@.len() ==> found@[j] as int == #[trigger] all[j],
            forall|j: int|
                0 <= j < matches_from(t@, s@, i as int).len() ==> #[trigger] matches_from(
                    t@,
                    s@,
                    i as int,
                )[j] == all[found@.len() + j],
        invariant
            i <= tl,
            tl == t@.len(),
            all == match_offsets(t@, s@),
        ensures
            found@.len() == all.len(),
            forall|j: int| 0 <= j < found@.len() ==> found@[j] as int == #[trigger] all[j],
        decreases tl - i,
    {
        if s.len() > tl - i {
            assert(matches_from(t@, s@, i as int).len() == 0);
            break;
        }
        let ghost before = matches_from(t@, s@, i as int);
        if occurs_at(t, s, i) {
            let ghost rest = matches_from(t@, s@, i + match_step(s@));
            assert(before == seq![i as int] + rest);
            assert(before[0] == i as int);
            found.push(i);
            assert forall|j: int| 0 <= j < rest.len() implies #[trigger] rest[j] == all[found@.len()
                + j] by {
                assert(rest[j] == before[j + 1]);
            }
            if s.len() == 0 {
                if i == tl {
                    assert(rest.len() == 0);
                    break;
                }
                i = i + 1;
            } else {
                i = i + s.len();
            }
        } else {
            assert(s@.len() > 0) by {
                if s@.len() == 0 {
                    assert(t@.subrange(i as int, i as int) =~= s@);
                }
            }
            i = i + 1;
        }
    }
    found
}

/// `base` with the characters in `from..to` replaced by `ins`.
fn splice(base: &String, base_len: usize, from: usize, to: usize, ins: &str) -> (r: String)
    requires
        base_len == base@.len(),
        from <= to <= base_len,
    ensures
        r@ == base@.subrange(0, from as int) + ins@ + base@.subrange(to as int, base_len as int),
{
    let mut out = base.as_str().substring_char(0, from).to_owned();
    out.append(ins);
    out.append(base.as_str().substring_char(to, base_len));
    out
}

/// Edits `text` at every non-overlapping occurrence of `selector`, as found in the
/// unedited text: the content goes after each match, before it, or in its place.
///
/// Each offset is recorded against the unedited text and shifted by the length change
/// of the edits already made. The shift is signed, so an in-place replacement always
/// lands inside the edited text, whether the content is longer or shorter than the
/// selector.
pub fn modify_text(text: &str, selector: &str, op: ModifyType, content: &str) -> (r: Result<
    String,
    ActionError,
>)
    ensures
        r is Err <==> match_offsets(text@, selector@).len() == 0,
        r is Err ==> r == Err::<String, ActionError>(ActionError::NoSelectorMatch),
        r is Ok ==> r->Ok_0@ == surgery(text@, selector@, content@, op),
{
    let t = chars_of(text);
    let s = chars_of(selector);
    let ms = find_matches(&t, &s);
    if ms.len() == 0 {
        return Err(ActionError::NoSelectorMatch);
    }
    let ghost offs = match_offsets(t@, s@);
    proof {
        lemma_match_offsets_well_placed(t@, s@);
    }
    let n = t.len();
    let sl = s.len();
    let mut out = text.to_owned();
    let mut out_len = n;
    let mut k: usize = 0;
    while k < ms.len()
        invariant
            k <= ms@.len(),
            ms@.len() == offs.len(),
            forall|j: int| 0 <= j < ms@.len() ==> ms@[j] as int == #[trigger] offs[j],
            well_placed(t@, s@, offs, 0),
            n == t@.len(),
            sl == s@.len(),
            t@ == text@,
            s@ == selector@,
            offs == match_offsets(text@, selector@),
            out_len == out@.len(),
            out@ == edited_after(t@, s@, content@, op, offs, k as nat),
        decreases ms@.len() - k,
    {
        let m = ms[k];
        proof {
            lemma_edit_step(t@, s@, content@, op, offs, k as nat);
        }
        // The matched span in the edited text: its unedited offset shifted by the
        // change in length so far.
        let at = out_len - (n - m);
        let after = at + sl;
        let next = match op {
            ModifyType::Append => splice(&out, out_len, after, after, content),
            ModifyType::Prepend => splice(&out, out_len, at, at, content),
            ModifyType::Replace => splice(&out, out_len, at, after, content),
        };
        out = next;
        out_len = out.as_str().unicode_len();
        k = k + 1;
    }
    Ok(out)
}

} // verus!

verus! {

/// `r` with the spans of width `w` that start at each of `qs` cut out, the last one first.
pub open spec fn strip_spans(r: Seq<char>, qs: Seq<int>, w: nat) -> Seq<char>
    decreases qs.len(),
{
    if qs.len() == 0 {
        r
    } else {
        let q = qs.last();
        strip_spans(r.subrange(0, q) + r.subrange(q + w, r.len() as int), qs.drop_last(), w)
    }
}

/// Where the `j`-th inserted content starts in the result of an insertion (`Append` or
/// `Prepend`): after the earlier insertions, and after the match itself for `Append`.
pub open spec fn insert_positions(ms: Seq<int>, s: Seq<char>, c: Seq<char>, op: ModifyType) -> Seq<
    int,
> {
    Seq::new(
        ms.len(),
        |j: int|
            ms[j] + (if op == ModifyType::Append {
                s.len() as int
            } else {
                0
            }) + j * c.len(),
    )
}

#[verifier::rlimit(50)]
proof fn lemma_insert_step(t: Seq<char>, s: Seq<char>, c: Seq<char>, op: ModifyType, k: nat)
    requires
        op != ModifyType::Replace,
        0 < k <= match_offsets(t, s).len(),
    ensures
        ({
            let ms = match_offsets(t, s);
            let out = edited_after(t, s, c, op, ms, k);
            let prev = edited_after(t, s, c, op, ms, (k - 1) as nat);
            let pprev = edited_prefix(t, s, c, op, ms, (k - 1) as nat);
            let q = insert_positions(ms, s, c, op)[k - 1];
            &&& pprev.len() <= q
            &&& q + c.len() <= edited_prefix(t, s, c, op, ms, k).len()
            &&& out.subrange(q, q + c.len()) == c
            &&& out.subrange(0, q) + out.subrange(q + c.len(), out.len() as int) == prev
            &&& out.len() == prev.len() + c.len()
            &&& out.subrange(0, pprev.len() as int) == pprev
            &&& prev.subrange(0, pprev.len() as int) == pprev
        }),
{
    let ms = match_offsets(t, s);
    let qs = insert_positions(ms, s, c, op);
    let w = c.len();
    let km: nat = (k - 1) as nat;
    lemma_match_offsets_well_placed(t, s);
    lemma_edited_prefix_len(t, s, c, op, ms, km);
    assert(piece(op, s, c).len() - s.len() == w);
    let prev = edited_after(t, s, c, op, ms, km);
    let pprev = edited_prefix(t, s, c, op, ms, km);
    let out = edited_after(t, s, c, op, ms, k);
    let pk = edited_prefix(t, s, c, op, ms, k);
    let m = ms[km as int];
    let e = end_of(ms, s, km as int);
    if km > 0 {
        assert(ms[km - 1] + match_step(s) <= ms[km as int]);
    }
    assert(0 <= m && m + s.len() <= t.len());
    assert(t.subrange(m, m + s.len()) == s);
    assert(end_of(ms, s, k as int) == m + s.len());
    let gap = t.subrange(e, m);
    let rest = t.subrange(m + s.len(), t.len() as int);
    assert(pk == pprev + gap + piece(op, s, c));
    assert(out == pk + rest);
    let q = qs[km as int];
    let shift: int = if op == ModifyType::Append {
        s.len() as int
    } else {
        0
    };
    assert(q == m + shift + km * w);
    assert(q == pprev.len() + gap.len() + shift);
    assert(out.subrange(q, q + w) =~= c);
    assert(prev == pprev + t.subrange(e, t.len() as int));
    assert(t.subrange(e, t.len() as int) =~= gap + s + rest);
    assert(out.subrange(0, q) + out.subrange(q + w, out.len() as int) =~= prev);
    assert(out.subrange(0, pprev.len() as int) =~= pprev);
    assert(prev.subrange(0, pprev.len() as int) =~= pprev);
}

/// Where the piece of match `j` starts in the edited text: its offset, shifted by the
/// size change of the pieces before it.
pub open spec fn piece_start(ms: Seq<int>, s: Seq<char>, c: Seq<char>, op: ModifyType, j: int) -> int {
    ms[j] + j * (piece(op, s, c).len() - s.len())
}

#[verifier::rlimit(50)]
proof fn lemma_pieces(t: Seq<char>, s: Seq<char>, c: Seq<char>, op: ModifyType, k: nat)
    requires
        k <= match_offsets(t, s).len(),
    ensures
        ({
            let ms = match_offsets(t, s);
            let out = edited_after(t, s, c, op, ms, k);
            let n = piece(op, s, c).len();
            &&& forall|j: int|
                0 <= j < k ==> 0 <= #[trigger] piece_start(ms, s, c, op, j) && piece_start(ms, s, c, op, j) + n
                    <= edited_prefix(t, s, c, op, ms, k).len()
            &&& forall|j: int|
                0 <= j < k ==> out.subrange(
                    #[trigger] piece_start(ms, s, c, op, j),
                    piece_start(ms, s, c, op, j) + n,
                ) == piece(op, s, c)
        }),
    decreases k,
{
    if k > 0 {
        let ms = match_offsets(t, s);
        let km: nat = (k - 1) as nat;
        let d = piece(op, s, c).len() - s.len();
        let n = piece(op, s, c).len();
        lemma_pieces(t, s, c, op, km);
        lemma_match_offsets_well_placed(t, s);
        lemma_edited_prefix_len(t, s, c, op, ms, km);
        let pprev = edited_prefix(t, s, c, op, ms, km);
        let pk = edited_prefix(t, s, c, op, ms, k);
        let prev = edited_after(t, s, c, op, ms, km);
        let out = edited_after(t, s, c, op, ms, k);
        let m = ms[km as int];
        let e = end_of(ms, s, km as int);
        if km > 0 {
            assert(ms[km - 1] + match_step(s) <= ms[km as int]);
        }
        assert(0 <= m && m + s.len() <= t.len());
        assert(0 <= e <= m);
        let gap = t.subrange(e, m);
        assert(pk == pprev + gap + piece(op, s, c));
        assert(out == pk + t.subrange(m + s.len(), t.len() as int));
        assert(piece_start(ms, s, c, op, km as int) == pprev.len() + gap.len());
        let at: int = pprev.len() + gap.len() as int;
        assert(out.subrange(at, at + n as int) =~= piece(op, s, c));
        assert forall|j: int| 0 <= j < k implies 0 <= #[trigger] piece_start(ms, s, c, op, j)
            && piece_start(ms, s, c, op, j) + n <= pk.len() && out.subrange(
            piece_start(ms, s, c, op, j),
            piece_start(ms, s, c, op, j) + n,
        ) == piece(op, s, c) by {
            if j < km {
                let ps = piece_start(ms, s, c, op, j);
                assert(prev.subrange(ps, ps + n) == piece(op, s, c));
                assert(out.subrange(ps, ps + n) =~= pprev.subrange(ps, ps + n));
                assert(prev.subrange(ps, ps + n) =~= pprev.subrange(ps, ps + n));
            }
        }
    }
}

#[verifier::rlimit(50)]
proof fn lemma_insert_prefix(t: Seq<char>, s: Seq<char>, c: Seq<char>, op: ModifyType, k: nat)
    requires
        op != ModifyType::Replace,
        k <= match_offsets(t, s).len(),
    ensures
        ({
            let ms = match_offsets(t, s);
            let out = edited_after(t, s, c, op, ms, k);
            let qs = insert_positions(ms, s, c, op);
            &&& out.len() == t.len() + k * c.len()
            &&& forall|j: int|
                0 <= j < k ==> #[trigger] qs[j] + c.len() <= edited_prefix(t, s, c, op, ms, k).len()
            &&& forall|j: int| 0 <= j < k ==> #[trigger] out.subrange(qs[j], qs[j] + c.len()) == c
            &&& strip_spans(out, qs.take(k as int), c.len()) == t
        }),
    decreases k,
{
    let ms = match_offsets(t, s);
    let qs = insert_positions(ms, s, c, op);
    let w = c.len();
    if k == 0 {
        assert(edited_after(t, s, c, op, ms, 0) =~= t);
        assert(qs.take(0) =~= Seq::<int>::empty());
        assert(k * w == 0) by (nonlinear_arith)
            requires
                k == 0,
        ;
        assert(strip_spans(t, qs.take(0), w) == t);
        assert(edited_after(t, s, c, op, ms, 0).len() == t.len() + k * w);
    } else {
        let km: nat = (k - 1) as nat;
        lemma_match_offsets_well_placed(t, s);
        lemma_insert_prefix(t, s, c, op, km);
        lemma_insert_step(t, s, c, op, k);
        let prev = edited_after(t, s, c, op, ms, km);
        let pprev = edited_prefix(t, s, c, op, ms, km);
        let out = edited_after(t, s, c, op, ms, k);
        let pk = edited_prefix(t, s, c, op, ms, k);
        let q = qs[km as int];
        assert(km * w + w == k * w) by (nonlinear_arith)
            requires
                km == k - 1,
        ;
        assert(qs.take(k as int).last() == q);
        assert(qs.take(k as int).drop_last() =~= qs.take(km as int));
        assert forall|j: int| 0 <= j < k implies #[trigger] qs[j] + c.len() <= pk.len() && out.subrange(
            qs[j],
            qs[j] + c.len(),
        ) == c by {
            assert(j * w >= 0) by (nonlinear_arith)
                requires
                    j >= 0,
            ;
            assert(0 <= ms[j]);
            assert(0 <= qs[j]);
            if j < km {
                assert(prev.subrange(qs[j], qs[j] + c.len()) == c);
                assert(qs[j] + c.len() <= pprev.len());
                assert(out.subrange(qs[j], qs[j] + c.len()) =~= pprev.subrange(qs[j], qs[j] + c.len()));
                assert(prev.subrange(qs[j], qs[j] + c.len()) =~= pprev.subrange(qs[j], qs[j] + c.len()));
            }
        }
        assert(out.len() == t.len() + k * w);
        assert(strip_spans(out, qs.take(k as int), w) == strip_spans(
            out.subrange(0, q) + out.subrange(q + w, out.len() as int),
            qs.take(km as int),
            w,
        ));
        assert(strip_spans(out, qs.take(k as int), w) == t);
    }
}

/// Prepending and appending: the result is as long as the text plus one copy of the
/// content per match; each copy stands at its match's offset shifted by the copies before
/// it, with the selector right after it (prepend) or right before it (append); and
/// cutting those copies out gives back the unedited text.
pub proof fn lemma_insert_law(t: Seq<char>, s: Seq<char>, c: Seq<char>, op: ModifyType)
    requires
        op != ModifyType::Replace,
    ensures
        ({
            let ms = match_offsets(t, s);
            let r = surgery(t, s, c, op);
            let qs = insert_positions(ms, s, c, op);
            &&& r.len() == t.len() + ms.len() * c.len()
            &&& forall|j: int| 0 <= j < ms.len() ==> #[trigger] r.subrange(qs[j], qs[j] + c.len()) == c
            &&& op == ModifyType::Prepend ==> forall|j: int|
                0 <= j < ms.len() ==> #[trigger] r.subrange(qs[j] + c.len(), qs[j] + c.len() + s.len())
                    == s
            &&& op == ModifyType::Append ==> forall|j: int|
                0 <= j < ms.len() ==> #[trigger] r.subrange(qs[j] - s.len(), qs[j]) == s
            &&& strip_spans(r, qs, c.len()) == t
        }),
{
    let ms = match_offsets(t, s);
    let qs = insert_positions(ms, s, c, op);
    let r = surgery(t, s, c, op);
    lemma_insert_prefix(t, s, c, op, ms.len());
    lemma_pieces(t, s, c, op, ms.len());
    let n = piece(op, s, c).len();
    assert(c.len() + s.len() == n);
    if op == ModifyType::Prepend {
        assert forall|j: int| 0 <= j < ms.len() implies #[trigger] r.subrange(
            qs[j] + c.len(),
            qs[j] + c.len() + s.len(),
        ) == s by {
            let ps = piece_start(ms, s, c, op, j);
            assert(r.subrange(ps, ps + n) == piece(op, s, c));
            assert(qs[j] == ps);
            assert(r.subrange(qs[j] + c.len(), qs[j] + c.len() + s.len()) =~= r.subrange(
                ps,
                ps + n,
            ).subrange(c.len() as int, n as int));
        }
    } else {
        assert forall|j: int| 0 <= j < ms.len() implies #[trigger] r.subrange(qs[j] - s.len(), qs[j]) == s by {
            let ps = piece_start(ms, s, c, op, j);
            assert(r.subrange(ps, ps + n) == piece(op, s, c));
            assert(qs[j] == ps + s.len());
            assert(r.subrange(qs[j] - s.len(), qs[j]) =~= r.subrange(ps, ps + n).subrange(
                0,
                s.len() as int,
            ));
        }
    }
    assert(insert_positions(ms, s, c, op).take(ms.len() as int) =~= insert_positions(ms, s, c, op));
}

/// Replacing a selector that occurs exactly once: the text before the match, then the
/// content, then the text after the match.
pub proof fn lemma_replace_single(t: Seq<char>, s: Seq<char>, c: Seq<char>)
    requires
        match_offsets(t, s).len() == 1,
    ensures
        ({
            let off = match_offsets(t, s)[0];
            surgery(t, s, c, ModifyType::Replace) == t.subrange(0, off) + c + t.subrange(
                off + s.len(),
                t.len() as int,
            )
        }),
{
    let ms = match_offsets(t, s);
    lemma_match_offsets_well_placed(t, s);
    assert(edited_prefix(t, s, c, ModifyType::Replace, ms, 0) =~= Seq::<char>::empty());
    assert(edited_prefix(t, s, c, ModifyType::Replace, ms, 1) =~= t.subrange(0, ms[0]) + c);
}

} // verus!
