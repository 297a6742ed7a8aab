//! The consensus engine: merges the normalised outputs of all hosts into a
//! line-by-line view that collapses agreement into single lines and records
//! every divergence with the hosts that produced it.

use vstd::prelude::*;

use crate::text::{line_split, split_lines};

verus! {

// ---------------------------------------------------------------------------
// Model of grouping
// ---------------------------------------------------------------------------

/// Add one host's line to the groups: an existing group with the same
/// content gains the host at the end of its list, otherwise a new group is
/// appended.
pub open spec fn group_add(
    gs: Seq<(Seq<char>, Seq<Seq<char>>)>,
    c: Seq<char>,
    h: Seq<char>,
) -> Seq<(Seq<char>, Seq<Seq<char>>)>
    decreases gs.len(),
{
    if gs.len() == 0 {
        seq![(c, seq![h])]
    } else if gs[0].0 == c {
        seq![(gs[0].0, gs[0].1.push(h))] + gs.skip(1)
    } else {
        seq![gs[0]] + group_add(gs.skip(1), c, h)
    }
}

/// The groups after the first `n` hosts contributed their line at
/// position `p`.
pub open spec fn groups_upto(
    names: Seq<Seq<char>>,
    texts: Seq<Seq<char>>,
    p: int,
    n: int,
) -> Seq<(Seq<char>, Seq<Seq<char>>)>
    decreases n,
{
    if n <= 0 {
        Seq::empty()
    } else {
        let prev = groups_upto(names, texts, p, n - 1);
        let ls = line_split(texts[n - 1]);
        if 0 <= p < ls.len() {
            group_add(prev, ls[p], names[n - 1])
        } else {
            prev
        }
    }
}

pub open spec fn groups_at(names: Seq<Seq<char>>, texts: Seq<Seq<char>>, p: int) -> Seq<
    (Seq<char>, Seq<Seq<char>>),
> {
    groups_upto(names, texts, p, names.len() as int)
}

/// The hosts whose output is shorter than `p + 1` lines, considering the
/// first `n` hosts, in host order.
pub open spec fn missing_upto(
    names: Seq<Seq<char>>,
    texts: Seq<Seq<char>>,
    p: int,
    n: int,
) -> Seq<Seq<char>>
    decreases n,
{
    if n <= 0 {
        Seq::empty()
    } else {
        let prev = missing_upto(names, texts, p, n - 1);
        if p >= line_split(texts[n - 1]).len() {
            prev.push(names[n - 1])
        } else {
            prev
        }
    }
}

pub open spec fn missing_at(names: Seq<Seq<char>>, texts: Seq<Seq<char>>, p: int) -> Seq<
    Seq<char>,
> {
    missing_upto(names, texts, p, names.len() as int)
}

/// The largest line count over all hosts.
pub open spec fn max_lines(texts: Seq<Seq<char>>) -> int
    decreases texts.len(),
{
    if texts.len() == 0 {
        0
    } else {
        let rest = max_lines(texts.drop_last());
        let cur = line_split(texts.last()).len() as int;
        if cur > rest {
            cur
        } else {
            rest
        }
    }
}

// ---------------------------------------------------------------------------
// Model of variant ordering
// ---------------------------------------------------------------------------

/// Insert a group into a list sorted by descending host count, after every
/// group of at least its size: a stable descending order.
pub open spec fn insert_desc(
    gs: Seq<(Seq<char>, Seq<Seq<char>>)>,
    x: (Seq<char>, Seq<Seq<char>>),
) -> Seq<(Seq<char>, Seq<Seq<char>>)>
    decreases gs.len(),
{
    if gs.len() == 0 {
        seq![x]
    } else if gs[0].1.len() >= x.1.len() {
        seq![gs[0]] + insert_desc(gs.skip(1), x)
    } else {
        seq![x] + gs
    }
}

/// Groups stably sorted by descending host count.
pub open spec fn sort_desc(gs: Seq<(Seq<char>, Seq<Seq<char>>)>) -> Seq<
    (Seq<char>, Seq<Seq<char>>),
>
    decreases gs.len(),
{
    if gs.len() == 0 {
        Seq::empty()
    } else {
        insert_desc(sort_desc(gs.drop_last()), gs.last())
    }
}

pub proof fn lemma_insert_desc_len(gs: Seq<(Seq<char>, Seq<Seq<char>>)>, x: (Seq<char>, Seq<Seq<char>>))
    ensures
        insert_desc(gs, x).len() == gs.len() + 1,
    decreases gs.len(),
{
    if gs.len() != 0 && gs[0].1.len() >= x.1.len() {
        lemma_insert_desc_len(gs.skip(1), x);
    }
}

pub proof fn lemma_sort_desc_len(gs: Seq<(Seq<char>, Seq<Seq<char>>)>)
    ensures
        sort_desc(gs).len() == gs.len(),
    decreases gs.len(),
{
    if gs.len() != 0 {
        lemma_sort_desc_len(gs.drop_last());
        lemma_insert_desc_len(sort_desc(gs.drop_last()), gs.last());
    }
}

proof fn lemma_insert_desc_at(
    gs: Seq<(Seq<char>, Seq<Seq<char>>)>,
    x: (Seq<char>, Seq<Seq<char>>),
    j: int,
)
    requires
        0 <= j <= gs.len(),
        forall|k: int| 0 <= k < j ==> (#[trigger] gs[k]).1.len() >= x.1.len(),
        j < gs.len() ==> gs[j].1.len() < x.1.len(),
    ensures
        insert_desc(gs, x) == gs.subrange(0, j) + seq![x] + gs.subrange(j, gs.len() as int),
    decreases gs.len(),
{
    if gs.len() == 0 {
        assert(insert_desc(gs, x) =~= gs.subrange(0, j) + seq![x] + gs.subrange(
            j,
            gs.len() as int,
        ));
    } else if j == 0 {
        assert(gs[0].1.len() < x.1.len());
        assert(insert_desc(gs, x) == seq![x] + gs);
        assert(seq![x] + gs =~= gs.subrange(0, 0) + seq![x] + gs.subrange(0, gs.len() as int));
    } else {
        assert(gs[0].1.len() >= x.1.len());
        let tail = gs.skip(1);
        assert forall|k: int| 0 <= k < j - 1 implies (#[trigger] tail[k]).1.len() >= x.1.len() by {
            assert(tail[k] == gs[k + 1]);
        }
        if j - 1 < tail.len() {
            assert(tail[j - 1] == gs[j]);
        }
        lemma_insert_desc_at(tail, x, j - 1);
        assert(seq![gs[0]] + (tail.subrange(0, j - 1) + seq![x] + tail.subrange(
            j - 1,
            tail.len() as int,
        )) =~= gs.subrange(0, j) + seq![x] + gs.subrange(j, gs.len() as int));
    }
}

/// Groups stand in non-increasing order of host count.
pub open spec fn desc_ordered(gs: Seq<(Seq<char>, Seq<Seq<char>>)>) -> bool {
    forall|i: int, j: int|
        0 <= i < j < gs.len() ==> (#[trigger] gs[i]).1.len() >= (#[trigger] gs[j]).1.len()
}

/// The first index whose group is strictly smaller than `x`'s.
spec fn first_smaller(gs: Seq<(Seq<char>, Seq<Seq<char>>)>, x: (Seq<char>, Seq<Seq<char>>)) -> int
    decreases gs.len(),
{
    if gs.len() == 0 {
        0
    } else if gs[0].1.len() >= x.1.len() {
        1 + first_smaller(gs.skip(1), x)
    } else {
        0
    }
}

proof fn lemma_first_smaller(gs: Seq<(Seq<char>, Seq<Seq<char>>)>, x: (Seq<char>, Seq<Seq<char>>))
    ensures
        0 <= first_smaller(gs, x) <= gs.len(),
        forall|k: int|
            0 <= k < first_smaller(gs, x) ==> (#[trigger] gs[k]).1.len() >= x.1.len(),
        first_smaller(gs, x) < gs.len() ==> gs[first_smaller(gs, x)].1.len() < x.1.len(),
    decreases gs.len(),
{
    if gs.len() != 0 && gs[0].1.len() >= x.1.len() {
        lemma_first_smaller(gs.skip(1), x);
        assert forall|k: int| 0 <= k < first_smaller(gs, x) implies (#[trigger] gs[k]).1.len()
            >= x.1.len() by {
            if k > 0 {
                assert(gs.skip(1)[k - 1] == gs[k]);
            }
        }
        if first_smaller(gs, x) < gs.len() {
            assert(gs.skip(1)[first_smaller(gs, x) - 1] == gs[first_smaller(gs, x)]);
        }
    }
}

proof fn lemma_insert_desc_ordered(gs: Seq<(Seq<char>, Seq<Seq<char>>)>, x: (Seq<char>, Seq<Seq<char>>))
    requires
        desc_ordered(gs),
    ensures
        desc_ordered(insert_desc(gs, x)),
{
    let j = first_smaller(gs, x);
    lemma_first_smaller(gs, x);
    lemma_insert_desc_at(gs, x, j);
    let r = insert_desc(gs, x);
    assert forall|a: int, b: int|
        0 <= a < b < r.len() implies (#[trigger] r[a]).1.len() >= (#[trigger] r[b]).1.len() by {
        let ga = if a < j {
            gs[a]
        } else if a == j {
            x
        } else {
            gs[a - 1]
        };
        let gb = if b < j {
            gs[b]
        } else if b == j {
            x
        } else {
            gs[b - 1]
        };
        assert(r[a] == ga);
        assert(r[b] == gb);
    }
}

/// Law: the variants of a `Differs` line come largest group first, in
/// non-increasing order of host count; in particular the first group,
/// whose content is the consensus, is a largest one.
pub proof fn lemma_sort_desc_ordered(gs: Seq<(Seq<char>, Seq<Seq<char>>)>)
    ensures
        desc_ordered(sort_desc(gs)),
    decreases gs.len(),
{
    if gs.len() != 0 {
        lemma_sort_desc_ordered(gs.drop_last());
        lemma_insert_desc_ordered(sort_desc(gs.drop_last()), gs.last());
    }
}

/// The groups of exactly this host count, in order.
pub open spec fn size_filter(gs: Seq<(Seq<char>, Seq<Seq<char>>)>, s: int) -> Seq<
    (Seq<char>, Seq<Seq<char>>),
>
    decreases gs.len(),
{
    if gs.len() == 0 {
        Seq::empty()
    } else {
        let rest = size_filter(gs.drop_last(), s);
        if gs.last().1.len() == s {
            rest.push(gs.last())
        } else {
            rest
        }
    }
}

proof fn lemma_size_filter_concat(a: Seq<(Seq<char>, Seq<Seq<char>>)>, b: Seq<(Seq<char>, Seq<Seq<char>>)>, s: int)
    ensures
        size_filter(a + b, s) == size_filter(a, s) + size_filter(b, s),
    decreases b.len(),
{
    if b.len() == 0 {
        assert(a + b =~= a);
        assert(size_filter(a, s) + size_filter(b, s) =~= size_filter(a, s));
    } else {
        assert((a + b).drop_last() =~= a + b.drop_last());
        assert((a + b).last() == b.last());
        lemma_size_filter_concat(a, b.drop_last(), s);
        if b.last().1.len() == s {
            assert((size_filter(a, s) + size_filter(b.drop_last(), s)).push(b.last())
                =~= size_filter(a, s) + size_filter(b.drop_last(), s).push(b.last()));
        }
    }
}

proof fn lemma_size_filter_none(gs: Seq<(Seq<char>, Seq<Seq<char>>)>, s: int)
    requires
        forall|k: int| 0 <= k < gs.len() ==> (#[trigger] gs[k]).1.len() != s,
    ensures
        size_filter(gs, s).len() == 0,
    decreases gs.len(),
{
    if gs.len() != 0 {
        lemma_size_filter_none(gs.drop_last(), s);
    }
}

proof fn lemma_insert_desc_filter(
    gs: Seq<(Seq<char>, Seq<Seq<char>>)>,
    x: (Seq<char>, Seq<Seq<char>>),
    s: int,
)
    requires
        desc_ordered(gs),
    ensures
        x.1.len() == s ==> size_filter(insert_desc(gs, x), s) == size_filter(gs, s).push(x),
        x.1.len() != s ==> size_filter(insert_desc(gs, x), s) == size_filter(gs, s),
{
    let j = first_smaller(gs, x);
    lemma_first_smaller(gs, x);
    lemma_insert_desc_at(gs, x, j);
    let a = gs.subrange(0, j);
    let b = gs.subrange(j, gs.len() as int);
    assert(gs =~= a + b);
    lemma_size_filter_concat(a, b, s);
    lemma_size_filter_concat(a, seq![x] + b, s);
    lemma_size_filter_concat(seq![x], b, s);
    assert(insert_desc(gs, x) == a + (seq![x] + b));
    assert(size_filter(seq![x], s) == if x.1.len() == s {
        Seq::<(Seq<char>, Seq<Seq<char>>)>::empty().push(x)
    } else {
        Seq::<(Seq<char>, Seq<Seq<char>>)>::empty()
    }) by {
        let e = Seq::<(Seq<char>, Seq<Seq<char>>)>::empty();
        assert(seq![x].drop_last() =~= e);
        assert(size_filter(e, s) == e);
        assert(seq![x].last() == x);
    }
    if x.1.len() == s {
        assert forall|k: int| 0 <= k < b.len() implies (#[trigger] b[k]).1.len() != s by {
            assert(b[k] == gs[j + k]);
            assert(gs[j].1.len() < x.1.len());
            if k > 0 {
                assert(gs[j].1.len() >= gs[j + k].1.len());
            }
        }
        lemma_size_filter_none(b, s);
        assert(size_filter(insert_desc(gs, x), s) =~= size_filter(a, s).push(x));
        assert(size_filter(gs, s) =~= size_filter(a, s));
    } else {
        assert(size_filter(insert_desc(gs, x), s) =~= size_filter(a, s) + size_filter(b, s));
    }
}

/// Law: the size ordering is stable.  Among groups sharing a host count,
/// discovery order is preserved: the groups of any one size form the same
/// subsequence before and after sorting.
pub proof fn lemma_sort_desc_stable(gs: Seq<(Seq<char>, Seq<Seq<char>>)>, s: int)
    ensures
        size_filter(sort_desc(gs), s) == size_filter(gs, s),
    decreases gs.len(),
{
    if gs.len() != 0 {
        lemma_sort_desc_stable(gs.drop_last(), s);
        lemma_sort_desc_ordered(gs.drop_last());
        lemma_insert_desc_filter(sort_desc(gs.drop_last()), gs.last(), s);
    }
}

proof fn lemma_sort_desc_push(gs: Seq<(Seq<char>, Seq<Seq<char>>)>, x: (Seq<char>, Seq<Seq<char>>))
    ensures
        sort_desc(gs.push(x)) == insert_desc(sort_desc(gs), x),
{
    assert(gs.push(x).drop_last() =~= gs);
    assert(gs.push(x).last() == x);
}

// ---------------------------------------------------------------------------
// The consensus line
// ---------------------------------------------------------------------------

/// One position of the merged view: either every host agrees, or the
/// variants are listed with their hosts, most common first, along with the
/// hosts whose output is too short.  `expanded` and `expanded_hosts` are
/// transient view state used by the interactive selection machine.
#[derive(Debug, Clone)]
pub enum ConsensusLine {
    Identical(String),
    Differs {
        consensus: String,
        variants: Vec<(String, Vec<String>)>,
        missing: Vec<String>,
        expanded: bool,
        expanded_hosts: Vec<String>,
    },
}

/// What a computed line must be for position `p`, with a given expansion
/// flag: identical content when one group covers everybody, otherwise the
/// stably size-sorted variants with the first group's content as the
/// consensus and no host list expanded.
pub open spec fn line_matches_with(
    line: ConsensusLine,
    names: Seq<Seq<char>>,
    texts: Seq<Seq<char>>,
    p: int,
    exp: bool,
) -> bool {
    let gs = groups_at(names, texts, p);
    let miss = missing_at(names, texts, p);
    if gs.len() == 1 && miss.len() == 0 {
        line matches ConsensusLine::Identical(c) && c@ == gs[0].0
    } else {
        &&& line matches ConsensusLine::Differs {
            consensus,
            variants,
            missing,
            expanded,
            expanded_hosts,
        }
        &&& variants.deep_view() == sort_desc(gs)
        &&& consensus@ == if gs.len() > 0 {
            sort_desc(gs)[0].0
        } else {
            Seq::<char>::empty()
        }
        &&& missing.deep_view() == miss
        &&& expanded == exp
        &&& expanded_hosts@.len() == 0
    }
}

/// A freshly computed line: as above, with everything collapsed.
pub open spec fn line_matches(
    line: ConsensusLine,
    names: Seq<Seq<char>>,
    texts: Seq<Seq<char>>,
    p: int,
) -> bool {
    line_matches_with(line, names, texts, p, false)
}

// ---------------------------------------------------------------------------
// Size bounds
// ---------------------------------------------------------------------------

pub proof fn lemma_group_add_len(gs: Seq<(Seq<char>, Seq<Seq<char>>)>, c: Seq<char>, h: Seq<char>)
    ensures
        group_add(gs, c, h).len() <= gs.len() + 1,
    decreases gs.len(),
{
    if gs.len() != 0 && gs[0].0 != c {
        lemma_group_add_len(gs.skip(1), c, h);
    }
}

/// There are never more groups than hosts that contributed.
pub proof fn lemma_groups_upto_len(names: Seq<Seq<char>>, texts: Seq<Seq<char>>, p: int, n: int)
    requires
        n >= 0,
    ensures
        groups_upto(names, texts, p, n).len() <= n,
        missing_upto(names, texts, p, n).len() <= n,
    decreases n,
{
    if n > 0 {
        lemma_groups_upto_len(names, texts, p, n - 1);
        let prev = groups_upto(names, texts, p, n - 1);
        let ls = line_split(texts[n - 1]);
        if 0 <= p < ls.len() {
            lemma_group_add_len(prev, ls[p], names[n - 1]);
        }
    }
}

// ---------------------------------------------------------------------------
// Laws of the consensus computation
// ---------------------------------------------------------------------------

proof fn lemma_max_lines_identical(texts: Seq<Seq<char>>)
    requires
        texts.len() > 0,
        forall|i: int| 0 <= i < texts.len() ==> #[trigger] texts[i] == texts[0],
    ensures
        max_lines(texts) == line_split(texts[0]).len(),
    decreases texts.len(),
{
    if texts.len() == 1 {
        assert(texts.drop_last().len() == 0);
        assert(max_lines(texts.drop_last()) == 0);
        assert(texts.last() == texts[0]);
        assert(max_lines(texts) == line_split(texts[0]).len() as int);
    } else {
        let pre = texts.drop_last();
        assert forall|i: int| 0 <= i < pre.len() implies #[trigger] pre[i] == pre[0] by {
            assert(pre[i] == texts[i]);
            assert(pre[0] == texts[0]);
        }
        lemma_max_lines_identical(pre);
        assert(pre[0] == texts[0]);
        assert(texts[texts.len() - 1] == texts[0]);
        assert(texts.last() == texts[texts.len() - 1]);
    }
}

proof fn lemma_identical_groups(names: Seq<Seq<char>>, texts: Seq<Seq<char>>, p: int, n: int)
    requires
        names.len() == texts.len(),
        0 <= n <= names.len(),
        forall|i: int| 0 <= i < texts.len() ==> #[trigger] texts[i] == texts[0],
        0 <= p < line_split(texts[0]).len(),
    ensures
        n == 0 ==> groups_upto(names, texts, p, n) == Seq::<(Seq<char>, Seq<Seq<char>>)>::empty(),
        n > 0 ==> groups_upto(names, texts, p, n) == seq![
            (line_split(texts[0])[p], names.subrange(0, n)),
        ],
        missing_upto(names, texts, p, n) == Seq::<Seq<char>>::empty(),
    decreases n,
{
    if n > 0 {
        lemma_identical_groups(names, texts, p, n - 1);
        assert(texts[n - 1] == texts[0]);
        let c = line_split(texts[0])[p];
        if n == 1 {
            assert(group_add(Seq::empty(), c, names[0]) == seq![(c, seq![names[0]])]);
            assert(seq![names[0]] =~= names.subrange(0, 1));
        } else {
            let prev = seq![(c, names.subrange(0, n - 1))];
            assert(prev[0].0 == c);
            assert(group_add(prev, c, names[n - 1]) == seq![
                (c, names.subrange(0, n - 1).push(names[n - 1])),
            ] + prev.skip(1));
            assert(names.subrange(0, n - 1).push(names[n - 1]) =~= names.subrange(0, n));
            assert(seq![(c, names.subrange(0, n))] + prev.skip(1) =~= seq![
                (c, names.subrange(0, n)),
            ]);
        }
    }
}

/// Law: when every host produced identical text, the consensus holds one
/// `Identical` line per line of the common text, carrying that content.
pub proof fn lemma_identical_outputs(
    names: Seq<Seq<char>>,
    texts: Seq<Seq<char>>,
    lines: Seq<ConsensusLine>,
)
    requires
        names.len() == texts.len(),
        names.len() > 0,
        forall|i: int| 0 <= i < texts.len() ==> #[trigger] texts[i] == texts[0],
        lines.len() == max_lines(texts),
        forall|p: int| 0 <= p < lines.len() ==> line_matches(#[trigger] lines[p], names, texts, p),
    ensures
        lines.len() == line_split(texts[0]).len(),
        forall|p: int|
            0 <= p < lines.len() ==> ((#[trigger] lines[p]) matches ConsensusLine::Identical(c)
                && c@ == line_split(texts[0])[p]),
{
    lemma_max_lines_identical(texts);
    assert forall|p: int| 0 <= p < lines.len() implies (#[trigger] lines[p]) matches
        ConsensusLine::Identical(c) && c@ == line_split(texts[0])[p] by {
        lemma_identical_groups(names, texts, p, names.len() as int);
        assert(groups_at(names, texts, p).len() == 1);
        assert(missing_at(names, texts, p).len() == 0);
        assert(groups_at(names, texts, p)[0].0 == line_split(texts[0])[p]);
    }
}

proof fn lemma_missing_contains(
    names: Seq<Seq<char>>,
    texts: Seq<Seq<char>>,
    p: int,
    h: int,
    n: int,
)
    requires
        0 <= h < n,
        p >= line_split(texts[h]).len(),
    ensures
        missing_upto(names, texts, p, n).contains(names[h]),
    decreases n,
{
    let cur = missing_upto(names, texts, p, n);
    if h == n - 1 {
        let prev = missing_upto(names, texts, p, n - 1);
        assert(cur == prev.push(names[n - 1]));
        assert(cur[prev.len() as int] == names[h]);
    } else {
        lemma_missing_contains(names, texts, p, h, n - 1);
        let prev = missing_upto(names, texts, p, n - 1);
        let i = choose|i: int| 0 <= i < prev.len() && prev[i] == names[h];
        if p >= line_split(texts[n - 1]).len() {
            assert(cur[i] == names[h]);
        } else {
            assert(cur[i] == names[h]);
        }
    }
}

/// Law: a host whose output has at most `p` lines stands among the missing
/// hosts of the consensus line at any position `p` it does not reach.  The
/// companion fact, that the sequence is exactly as long as the longest
/// output, is `compute_consensus`' own contract.
pub proof fn lemma_short_host_missing(
    names: Seq<Seq<char>>,
    texts: Seq<Seq<char>>,
    lines: Seq<ConsensusLine>,
    p: int,
    h: int,
)
    requires
        names.len() == texts.len(),
        forall|q: int| 0 <= q < lines.len() ==> line_matches(#[trigger] lines[q], names, texts, q),
        0 <= p < lines.len(),
        0 <= h < names.len(),
        line_split(texts[h]).len() <= p,
    ensures
        lines[p] matches ConsensusLine::Differs { missing, .. } && missing.deep_view().contains(
            names[h],
        ),
{
    lemma_missing_contains(names, texts, p, h, names.len() as int);
    assert(missing_at(names, texts, p).len() > 0) by {
        let miss = missing_at(names, texts, p);
        let i = choose|i: int| 0 <= i < miss.len() && miss[i] == names[h];
    }
    assert(line_matches(lines[p], names, texts, p));
}

// ---------------------------------------------------------------------------
// Grouping through indexmap
// ---------------------------------------------------------------------------

/// Groups hosts by shared line content in first-encounter order.  The
/// ordered map inside is indexmap's; verified code sees it only through
/// `group_model` and the wrappers below.
#[verifier::external_body]
pub struct VariantMap {
    map: indexmap::IndexMap<String, Vec<String>>,
}

/// What a `VariantMap` holds: for each distinct content, in first-insertion
/// order, the content and the hosts that share it, in insertion order.
pub uninterp spec fn group_model(m: VariantMap) -> Seq<(Seq<char>, Seq<Seq<char>>)>;

/// Relies on indexmap's IndexMap::new: the fresh map is empty.
#[verifier::external_body]
fn variant_map_new() -> (m: VariantMap)
    ensures
        group_model(m) == Seq::<(Seq<char>, Seq<Seq<char>>)>::empty(),
{
    VariantMap { map: indexmap::IndexMap::new() }
}

/// Relies on indexmap's IndexMap::entry and Entry::or_insert_with: an
/// existing key keeps its position and its value is extended in place; a
/// missing key is appended at the end; no other entry moves.
#[verifier::external_body]
fn variant_map_add(m: &mut VariantMap, content: &str, host: &String)
    ensures
        group_model(*final(m)) == group_add(group_model(*old(m)), content@, host@),
{
    m.map.entry(content.to_owned()).or_insert_with(Vec::new).push(host.clone());
}

/// Relies on indexmap's IntoIterator for IndexMap: pairs come out in
/// insertion order.
#[verifier::external_body]
fn variant_map_into_pairs(m: VariantMap) -> (r: Vec<(String, Vec<String>)>)
    ensures
        r.deep_view() == group_model(m),
{
    m.map.into_iter().collect()
}

// ---------------------------------------------------------------------------
// Building a Differs line
// ---------------------------------------------------------------------------

/// Order the variant groups by descending host count, stably, and take the
/// first group's content as the consensus.
pub fn make_differs(variants: Vec<(String, Vec<String>)>, missing: Vec<String>) -> (r:
    ConsensusLine)
    ensures
        r matches ConsensusLine::Differs {
            consensus,
            variants: sorted,
            missing: rmissing,
            expanded,
            expanded_hosts,
        } && {
            &&& sorted.deep_view() == sort_desc(variants.deep_view())
            &&& consensus@ == if variants@.len() > 0 {
                sort_desc(variants.deep_view())[0].0
            } else {
                Seq::<char>::empty()
            }
            &&& rmissing.deep_view() == missing.deep_view()
            &&& expanded == false
            &&& expanded_hosts@.len() == 0
        },
{
    let mut rest = variants;
    let mut sorted: Vec<(String, Vec<String>)> = Vec::new();
    let ghost all = rest.deep_view();
    let mut taken: usize = 0;
    proof {
        assert(all.subrange(0, 0) =~= Seq::<(Seq<char>, Seq<Seq<char>>)>::empty());
        assert(sorted.deep_view() =~= sort_desc(all.subrange(0, 0)));
    }
    let total: usize = rest.len();
    proof {
        assert(all.len() == total);
    }
    while rest.len() > 0
        invariant
            all.len() <= usize::MAX,
            taken + rest.len() == all.len(),
            rest.deep_view() =~= all.subrange(taken as int, all.len() as int),
            sorted.deep_view() =~= sort_desc(all.subrange(0, taken as int)),
        decreases rest.len(),
    {
        let ghost pre_vec = rest@;
        let ghost pre_deep = rest.deep_view();
        let x = rest.remove(0);
        proof {
            assert(rest@ =~= pre_vec.subrange(1, pre_vec.len() as int));
            assert forall|k: int| 0 <= k < rest.deep_view().len() implies #[trigger] rest.deep_view()[k]
                == all[taken + 1 + k] by {
                assert(rest@[k] == pre_vec[k + 1]);
                assert(rest.deep_view()[k] == rest@[k].deep_view());
                assert(pre_deep[k + 1] == pre_vec[k + 1].deep_view());
            }
            assert(rest.deep_view() =~= all.subrange(taken + 1, all.len() as int));
            assert(x == pre_vec[0]);
            assert(pre_deep[0] == pre_vec[0].deep_view());
            assert(x.deep_view() == all[taken as int]);
        }
        let mut j: usize = 0;
        while j < sorted.len() && sorted[j].1.len() >= x.1.len()
            invariant
                0 <= j <= sorted.len(),
                sorted.deep_view().len() == sorted.len(),
                forall|k: int|
                    0 <= k < j ==> (#[trigger] sorted.deep_view()[k]).1.len() >= x.1@.len(),
            decreases sorted.len() - j,
        {
            proof {
                assert(sorted.deep_view()[j as int] == sorted@[j as int].deep_view());
            }
            j = j + 1;
        }
        proof {
            assert(j < sorted.len() ==> sorted.deep_view()[j as int].1.len() < x.1@.len()) by {
                if j < sorted.len() {
                    assert(sorted.deep_view()[j as int] == sorted@[j as int].deep_view());
                }
            }
            lemma_insert_desc_at(sorted.deep_view(), x.deep_view(), j as int);
        }
        let ghost pre_sorted = sorted.deep_view();
        sorted.insert(j, x);
        proof {
            assert(sorted.deep_view() =~= pre_sorted.subrange(0, j as int) + seq![
                all[taken as int],
            ] + pre_sorted.subrange(j as int, pre_sorted.len() as int));
            lemma_sort_desc_push(all.subrange(0, taken as int), all[taken as int]);
            assert(all.subrange(0, taken as int).push(all[taken as int]) =~= all.subrange(
                0,
                taken + 1,
            ));
        }
        taken = taken + 1;
    }
    proof {
        assert(all.subrange(0, all.len() as int) =~= all);
    }
    let consensus: String = if sorted.len() > 0 {
        proof {
            assert(sorted.deep_view()[0] == sorted@[0].deep_view());
            lemma_sort_desc_len(all);
        }
        sorted[0].0.clone()
    } else {
        proof {
            lemma_sort_desc_len(all);
        }
        String::new()
    };
    ConsensusLine::Differs {
        consensus,
        variants: sorted,
        missing,
        expanded: false,
        expanded_hosts: Vec::new(),
    }
}

// ---------------------------------------------------------------------------
// The consensus computation
// ---------------------------------------------------------------------------

/// Merge the hosts' normalised outputs position by position.  `outputs[i]`
/// is the cleaned output of `hosts[i]`; hosts are expected in sorted order
/// and the result has one line per position up to the longest output.
pub fn compute_consensus(hosts: &Vec<String>, outputs: &Vec<String>) -> (r: Vec<ConsensusLine>)
    requires
        hosts@.len() == outputs@.len(),
    ensures
        hosts@.len() == 0 ==> r@.len() == 0,
        hosts@.len() > 0 ==> r@.len() == max_lines(outputs.deep_view()),
        forall|p: int|
            0 <= p < r@.len() ==> line_matches(
                #[trigger] r@[p],
                hosts.deep_view(),
                outputs.deep_view(),
                p,
            ),
{
    let ghost names = hosts.deep_view();
    let ghost texts = outputs.deep_view();
    let mut r: Vec<ConsensusLine> = Vec::new();
    if hosts.len() == 0 {
        return r;
    }
    let mut lineses: Vec<Vec<String>> = Vec::new();
    let mut i: usize = 0;
    while i < outputs.len()
        invariant
            0 <= i <= outputs.len(),
            texts == outputs.deep_view(),
            texts.len() == outputs.len(),
            lineses.deep_view().len() == i,
            forall|k: int|
                0 <= k < i ==> #[trigger] lineses.deep_view()[k] == line_split(texts[k]),
        decreases outputs.len() - i,
    {
        let ghost pre = lineses.deep_view();
        let ls = split_lines(outputs[i].as_str());
        lineses.push(ls);
        proof {
            assert(lineses.deep_view() =~= pre.push(ls.deep_view()));
            assert(texts[i as int] == outputs@[i as int]@);
        }
        i = i + 1;
    }
    let mut maxl: usize = 0;
    let mut i: usize = 0;
    proof {
        assert(texts.subrange(0, 0) =~= Seq::<Seq<char>>::empty());
    }
    while i < lineses.len()
        invariant
            0 <= i <= lineses.len(),
            texts == outputs.deep_view(),
            lineses.deep_view().len() == lineses.len(),
            lineses.len() == texts.len(),
            forall|k: int|
                0 <= k < lineses.len() ==> #[trigger] lineses.deep_view()[k] == line_split(
                    texts[k],
                ),
            forall|k: int| 0 <= k < lineses.len() ==> lineses@[k].len() == lineses.deep_view()[k].len(),
            maxl == max_lines(texts.subrange(0, i as int)),
        decreases lineses.len() - i,
    {
        let cur = lineses[i].len();
        proof {
            let prefix = texts.subrange(0, i + 1);
            assert(prefix.drop_last() =~= texts.subrange(0, i as int));
            assert(prefix.last() == texts[i as int]);
            assert(lineses.deep_view()[i as int] == lineses@[i as int].deep_view());
        }
        if cur > maxl {
            maxl = cur;
        }
        i = i + 1;
    }
    proof {
        assert(texts.subrange(0, texts.len() as int) =~= texts);
    }
    let mut p: usize = 0;
    while p < maxl
        invariant
            0 <= p <= maxl,
            hosts@.len() == outputs@.len(),
            hosts@.len() > 0,
            names == hosts.deep_view(),
            texts == outputs.deep_view(),
            names.len() == texts.len(),
            maxl == max_lines(texts),
            lineses.deep_view().len() == lineses.len(),
            lineses.len() == texts.len(),
            forall|k: int|
                0 <= k < lineses.len() ==> #[trigger] lineses.deep_view()[k] == line_split(
                    texts[k],
                ),
            forall|k: int| 0 <= k < lineses.len() ==> lineses@[k].len() == lineses.deep_view()[k].len(),
            r@.len() == p,
            forall|q: int| 0 <= q < p ==> line_matches(#[trigger] r@[q], names, texts, q),
        decreases maxl - p,
    {
        let mut vm = variant_map_new();
        let mut missing: Vec<String> = Vec::new();
        let mut h: usize = 0;
        proof {
            assert(missing.deep_view() =~= missing_upto(names, texts, p as int, 0));
        }
        while h < hosts.len()
            invariant
                0 <= h <= hosts.len(),
                hosts@.len() == outputs@.len(),
                names == hosts.deep_view(),
                texts == outputs.deep_view(),
                names.len() == texts.len(),
                lineses.deep_view().len() == lineses.len(),
                lineses.len() == texts.len(),
                forall|k: int|
                    0 <= k < lineses.len() ==> #[trigger] lineses.deep_view()[k] == line_split(
                        texts[k],
                    ),
                forall|k: int|
                    0 <= k < lineses.len() ==> lineses@[k].len() == lineses.deep_view()[k].len(),
                group_model(vm) == groups_upto(names, texts, p as int, h as int),
                missing.deep_view() == missing_upto(names, texts, p as int, h as int),
            decreases hosts.len() - h,
        {
            proof {
                assert(lineses.deep_view()[h as int] == lineses@[h as int].deep_view());
                assert(names[h as int] == hosts@[h as int]@);
            }
            if p < lineses[h].len() {
                proof {
                    assert(lineses@[h as int].deep_view()[p as int] == lineses@[h as int]@[
                        p as int]@);
                }
                variant_map_add(&mut vm, lineses[h][p].as_str(), &hosts[h]);
            } else {
                let ghost premiss = missing.deep_view();
                missing.push(hosts[h].clone());
                proof {
                    assert(missing.deep_view() =~= premiss.push(names[h as int]));
                }
            }
            h = h + 1;
        }
        let pairs = variant_map_into_pairs(vm);
        let ghost gs = groups_at(names, texts, p as int);
        let ghost miss = missing_at(names, texts, p as int);
        let ghost prer = r@;
        if pairs.len() == 1 && missing.len() == 0 {
            proof {
                assert(pairs.deep_view().len() == 1);
                assert(miss.len() == 0);
                assert(pairs.deep_view()[0] == pairs@[0].deep_view());
            }
            let mut pairs = pairs;
            let pair = pairs.remove(0);
            r.push(ConsensusLine::Identical(pair.0));
        } else {
            proof {
                assert(pairs.deep_view().len() == gs.len());
                assert(missing.deep_view().len() == miss.len());
            }
            let line = make_differs(pairs, missing);
            r.push(line);
        }
        proof {
            assert(r@.len() == p + 1);
            assert(line_matches(r@[p as int], names, texts, p as int));
            assert forall|q: int| 0 <= q < p + 1 implies line_matches(
                #[trigger] r@[q],
                names,
                texts,
                q,
            ) by {
                if q < p {
                    assert(r@[q] == prer[q]);
                }
            }
        }
        p = p + 1;
    }
    r
}

} // verus!
