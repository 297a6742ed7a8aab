//! The interactive selection machine: a two-level cursor over the consensus
//! sequence (line, and optionally variant within an expanded line), with
//! expansion flags, kept well-formed by every operation.

use vstd::prelude::*;

use crate::consensus::ConsensusLine;

verus! {

/// The cursor: a consensus line, and optionally one of its variant rows.
/// `variant_index == Some(k)` addresses the k-th variant of an expanded
/// `Differs` line; the index one past the variants addresses the
/// missing-hosts pseudo-variant when there are missing hosts.
#[derive(Clone, Copy, Debug, PartialEq, Eq, Structural, Default)]
pub struct Selection {
    pub line_index: usize,
    pub variant_index: Option<usize>,
}

impl Selection {
    /// Is the main line focused, rather than one of its variants?
    pub fn is_on_main_line(&self) -> (r: bool)
        ensures
            r == (self.variant_index is None),
    {
        self.variant_index.is_none()
    }
}

/// Virtual rows contributed by the sub-entries of a line: one per variant
/// and one more for the missing-hosts row, when the line is an expanded
/// `Differs`.
pub open spec fn variant_count(line: ConsensusLine) -> int {
    match line {
        ConsensusLine::Identical(_) => 0,
        ConsensusLine::Differs { variants, missing, .. } => variants@.len() as int + if missing@.len()
            > 0 {
            1int
        } else {
            0int
        },
    }
}

pub open spec fn is_expanded_differs(line: ConsensusLine) -> bool {
    line matches ConsensusLine::Differs { expanded, .. } && expanded
}

/// The navigable state: the consensus lines, the cursor over them, and
/// whether any host directory was seen at all.
pub struct ConsensusView {
    pub consensus: Vec<ConsensusLine>,
    pub selection: Selection,
    pub has_hosts: bool,
}

/// Every line's variant-row count stays clear of the machine limit, so
/// that row arithmetic cannot overflow.
pub open spec fn lines_sized(lines: Seq<ConsensusLine>) -> bool {
    forall|i: int| 0 <= i < lines.len() ==> #[trigger] variant_count(lines[i]) < usize::MAX
}

/// Well-formedness: the cursor stays inside the sequence, and a variant is
/// selected only while the selected line is an expanded `Differs` with that
/// many virtual rows.
pub open spec fn view_wf(v: ConsensusView) -> bool {
    &&& (v.consensus@.len() == 0 ==> v.selection.line_index == 0)
    &&& (v.consensus@.len() > 0 ==> v.selection.line_index < v.consensus@.len())
    &&& (v.selection.variant_index matches Some(k) ==> {
        &&& v.selection.line_index < v.consensus@.len()
        &&& is_expanded_differs(v.consensus@[v.selection.line_index as int])
        &&& k < variant_count(v.consensus@[v.selection.line_index as int])
    })
    &&& lines_sized(v.consensus@)
}

fn is_differs(l: &ConsensusLine) -> (r: bool)
    ensures
        r == (*l is Differs),
{
    matches!(l, ConsensusLine::Differs { .. })
}

// ---------------------------------------------------------------------------
// Scrolling
// ---------------------------------------------------------------------------

/// Where one step up lands: out of a variant to the one above or to the
/// main line, else to the previous line, entering its last variant row when
/// that line is an expanded `Differs`.
pub open spec fn scroll_up_sel(v: ConsensusView) -> Selection {
    if v.selection.variant_index is Some {
        let k = v.selection.variant_index->0;
        if k > 0 {
            Selection { line_index: v.selection.line_index, variant_index: Some((k - 1) as usize) }
        } else {
            Selection { line_index: v.selection.line_index, variant_index: None }
        }
    } else if v.selection.line_index > 0 {
        let ni = (v.selection.line_index - 1) as usize;
        let line = v.consensus@[ni as int];
        if is_expanded_differs(line) && variant_count(line) > 0 {
            Selection { line_index: ni, variant_index: Some((variant_count(line) - 1) as usize) }
        } else {
            Selection { line_index: ni, variant_index: None }
        }
    } else {
        v.selection
    }
}

/// Where one step down lands: into variant rows of the expanded line under
/// the cursor, out of the last variant to the next line, else simply to the
/// next line; no wraparound at the end.
pub open spec fn scroll_down_sel(v: ConsensusView) -> Selection {
    let len = v.consensus@.len() as int;
    let li = v.selection.line_index as int;
    let advanced = Selection {
        line_index: if li < len - 1 {
            (li + 1) as usize
        } else {
            v.selection.line_index
        },
        variant_index: None,
    };
    if li < len && is_expanded_differs(v.consensus@[li]) {
        let vc = variant_count(v.consensus@[li]);
        match v.selection.variant_index {
            Some(k) => {
                if k + 1 < vc {
                    Selection {
                        line_index: v.selection.line_index,
                        variant_index: Some((k + 1) as usize),
                    }
                } else {
                    advanced
                }
            },
            None => {
                if vc > 0 {
                    Selection { line_index: v.selection.line_index, variant_index: Some(0) }
                } else {
                    advanced
                }
            },
        }
    } else {
        advanced
    }
}

impl ConsensusView {
    pub fn new() -> (r: ConsensusView)
        ensures
            r.consensus@.len() == 0,
            r.selection == (Selection { line_index: 0usize, variant_index: None::<usize> }),
            r.has_hosts == false,
            view_wf(r),
    {
        ConsensusView {
            consensus: Vec::new(),
            selection: Selection { line_index: 0, variant_index: None },
            has_hosts: false,
        }
    }

    /// Move the cursor one virtual row up.
    pub fn scroll_up(&mut self)
        requires
            view_wf(*old(self)),
        ensures
            view_wf(*final(self)),
            final(self).consensus == old(self).consensus,
            final(self).has_hosts == old(self).has_hosts,
            final(self).selection == scroll_up_sel(*old(self)),
    {
        match self.selection.variant_index {
            Some(k) => {
                if k > 0 {
                    self.selection.variant_index = Some(k - 1);
                } else {
                    self.selection.variant_index = None;
                }
            },
            None => {
                if self.selection.line_index > 0 {
                    let ni = self.selection.line_index - 1;
                    self.selection.line_index = ni;
                    self.selection.variant_index = None;
                    let line = &self.consensus[ni];
                    if let ConsensusLine::Differs { expanded: true, variants, missing, .. } = line {
                        let vc = if missing.len() > 0 {
                            variants.len() + 1
                        } else {
                            variants.len()
                        };
                        if vc > 0 {
                            self.selection.variant_index = Some(vc - 1);
                        }
                    }
                }
            },
        }
    }

    /// Move the cursor one virtual row down.
    pub fn scroll_down(&mut self)
        requires
            view_wf(*old(self)),
        ensures
            view_wf(*final(self)),
            final(self).consensus == old(self).consensus,
            final(self).has_hosts == old(self).has_hosts,
            final(self).selection == scroll_down_sel(*old(self)),
    {
        let len = self.consensus.len();
        if self.selection.line_index < len {
            let line = &self.consensus[self.selection.line_index];
            if let ConsensusLine::Differs { expanded: true, variants, missing, .. } = line {
                let vc = if missing.len() > 0 {
                    variants.len() + 1
                } else {
                    variants.len()
                };
                match self.selection.variant_index {
                    Some(k) => {
                        if k + 1 < vc {
                            self.selection.variant_index = Some(k + 1);
                            return;
                        }
                    },
                    None => {
                        if vc > 0 {
                            self.selection.variant_index = Some(0);
                            return;
                        }
                    },
                }
            }
        }
        self.selection.variant_index = None;
        if len > 0 && self.selection.line_index < len - 1 {
            self.selection.line_index = self.selection.line_index + 1;
        }
    }

    /// Jump to the last line; when it is an expanded `Differs`, land on its
    /// last virtual row.
    pub fn scroll_to_end(&mut self)
        requires
            view_wf(*old(self)),
        ensures
            view_wf(*final(self)),
            final(self).consensus == old(self).consensus,
            final(self).has_hosts == old(self).has_hosts,
            old(self).consensus@.len() == 0 ==> final(self).selection == old(self).selection,
            old(self).consensus@.len() > 0 ==> {
                let last = old(self).consensus@[old(self).consensus@.len() - 1];
                &&& final(self).selection.line_index == old(self).consensus@.len() - 1
                &&& final(self).selection.variant_index == (if is_expanded_differs(last)
                    && variant_count(last) > 0 {
                    Some((variant_count(last) - 1) as usize)
                } else {
                    None
                })
            },
    {
        let len = self.consensus.len();
        if len > 0 {
            self.selection.line_index = len - 1;
            self.selection.variant_index = None;
            let line = &self.consensus[len - 1];
            proof {
                assert(variant_count(self.consensus@[len - 1]) < usize::MAX);
            }
            if let ConsensusLine::Differs { expanded: true, variants, missing, .. } = line {
                let vc = if missing.len() > 0 {
                    variants.len() + 1
                } else {
                    variants.len()
                };
                if vc > 0 {
                    self.selection.variant_index = Some(vc - 1);
                }
            }
        }
    }
}

// ---------------------------------------------------------------------------
// Jump to the next difference
// ---------------------------------------------------------------------------

/// The first `Differs` line at an index in `[from, to)`.
pub open spec fn first_diff_in(lines: Seq<ConsensusLine>, from: int, to: int) -> Option<int>
    decreases to - from,
{
    if from >= to || from < 0 || to > lines.len() {
        None
    } else if lines[from] is Differs {
        Some(from)
    } else {
        first_diff_in(lines, from + 1, to)
    }
}

/// Where `jump_to_next_diff` goes from line `cur`: the first `Differs`
/// strictly after `cur`, else wrapping around from the start; `None` when
/// the sequence has no `Differs` line at all.
pub open spec fn jump_target(lines: Seq<ConsensusLine>, cur: int) -> Option<int> {
    let len = lines.len() as int;
    let bound = if cur + 1 < len {
        cur + 1
    } else {
        len
    };
    match first_diff_in(lines, cur + 1, len) {
        Some(i) => Some(i),
        None => first_diff_in(lines, 0, bound),
    }
}

impl ConsensusView {
    /// Move the cursor to the next `Differs` line, wrapping around to the
    /// start; the cursor leaves any variant row it was on.  No-op when no
    /// line differs.
    pub fn jump_to_next_diff(&mut self)
        requires
            view_wf(*old(self)),
        ensures
            view_wf(*final(self)),
            final(self).consensus == old(self).consensus,
            final(self).has_hosts == old(self).has_hosts,
            match jump_target(old(self).consensus@, old(self).selection.line_index as int) {
                Some(t) => final(self).selection == (Selection {
                    line_index: t as usize,
                    variant_index: None::<usize>,
                }),
                None => final(self).selection == old(self).selection,
            },
    {
        let len = self.consensus.len();
        let start = self.selection.line_index;
        proof {
            assert(start < usize::MAX) by {
                if self.consensus@.len() > 0 {
                    assert(start < self.consensus@.len());
                    assert(self.consensus@.len() == len);
                }
            }
        }
        let mut i: usize = start + 1;
        while i < len
            invariant
                view_wf(*old(self)),
                self.consensus == old(self).consensus,
                self.has_hosts == old(self).has_hosts,
                self.selection == old(self).selection,
                start == old(self).selection.line_index,
                start + 1 <= i,
                i <= len || i == start + 1,
                len == self.consensus@.len(),
                first_diff_in(self.consensus@, start + 1, i as int) is None,
            decreases len - i,
        {
            if is_differs(&self.consensus[i]) {
                proof {
                    lemma_first_diff_extend(self.consensus@, start + 1, i as int, len as int);
                }
                self.selection.line_index = i;
                self.selection.variant_index = None;
                return;
            }
            proof {
                lemma_first_diff_step(self.consensus@, start + 1, i as int);
            }
            i = i + 1;
        }
        proof {
            if i as int != len as int {
                assert(i == start + 1);
                assert(start + 1 >= len);
            }
            assert(first_diff_in(self.consensus@, start + 1, len as int) is None);
        }
        let bound = if start + 1 < len {
            start + 1
        } else {
            len
        };
        let mut j: usize = 0;
        while j < bound
            invariant
                view_wf(*old(self)),
                self.consensus == old(self).consensus,
                self.has_hosts == old(self).has_hosts,
                self.selection == old(self).selection,
                start == old(self).selection.line_index,
                0 <= j <= bound,
                bound <= len,
                bound == if start + 1 < len {
                    start + 1
                } else {
                    len as int
                },
                len == self.consensus@.len(),
                first_diff_in(self.consensus@, 0, j as int) is None,
                first_diff_in(self.consensus@, start + 1, len as int) is None,
            decreases bound - j,
        {
            if is_differs(&self.consensus[j]) {
                proof {
                    lemma_first_diff_extend(self.consensus@, 0, j as int, bound as int);
                }
                self.selection.line_index = j;
                self.selection.variant_index = None;
                return;
            }
            proof {
                lemma_first_diff_step(self.consensus@, 0, j as int);
            }
            j = j + 1;
        }
    }
}

/// Extending an unsuccessful search by a `Differs` hit pins the result.
proof fn lemma_first_diff_extend(lines: Seq<ConsensusLine>, from: int, at: int, to: int)
    requires
        0 <= from <= at < to <= lines.len(),
        first_diff_in(lines, from, at) is None,
        lines[at] is Differs,
    ensures
        first_diff_in(lines, from, to) == Some(at),
    decreases at - from,
{
    if from < at {
        assert(!(lines[from] is Differs));
        lemma_first_diff_extend(lines, from + 1, at, to);
    }
}

/// A miss at the end of the scanned range extends the unsuccessful prefix.
proof fn lemma_first_diff_step(lines: Seq<ConsensusLine>, from: int, at: int)
    requires
        0 <= from <= at < lines.len(),
        first_diff_in(lines, from, at) is None,
        !(lines[at] is Differs),
    ensures
        first_diff_in(lines, from, at + 1) is None,
    decreases at - from,
{
    if from < at {
        lemma_first_diff_step(lines, from + 1, at);
    } else {
        assert(first_diff_in(lines, from + 1, at + 1) is None);
    }
}

// ---------------------------------------------------------------------------
// Replacing the consensus
// ---------------------------------------------------------------------------

/// Where the cursor lands after the sequence is replaced: the line index is
/// clamped into the new sequence, and a selected variant survives only if
/// the line at that index is still an expanded `Differs` with that many
/// virtual rows.
pub open spec fn clamp_sel(sel: Selection, lines: Seq<ConsensusLine>) -> Selection {
    let len = lines.len() as int;
    let li = if len == 0 {
        0usize
    } else if sel.line_index >= len {
        (len - 1) as usize
    } else {
        sel.line_index
    };
    let vi = if sel.variant_index matches Some(k) && li < len && is_expanded_differs(lines[li as int])
        && k < variant_count(lines[li as int]) {
        sel.variant_index
    } else {
        None
    };
    Selection { line_index: li, variant_index: vi }
}

impl ConsensusView {
    /// Replace the consensus sequence, clamping the cursor into it.
    pub fn update_consensus(&mut self, new_consensus: Vec<ConsensusLine>, has_hosts: bool)
        requires
            lines_sized(new_consensus@),
        ensures
            view_wf(*final(self)),
            final(self).consensus == new_consensus,
            final(self).has_hosts == has_hosts,
            final(self).selection == clamp_sel(old(self).selection, new_consensus@),
    {
        self.consensus = new_consensus;
        self.has_hosts = has_hosts;
        self.clamp_selection();
    }

    /// Clamp the cursor into the current sequence.
    fn clamp_selection(&mut self)
        requires
            lines_sized(old(self).consensus@),
        ensures
            view_wf(*final(self)),
            final(self).consensus == old(self).consensus,
            final(self).has_hosts == old(self).has_hosts,
            final(self).selection == clamp_sel(old(self).selection, old(self).consensus@),
    {
        let len = self.consensus.len();
        if len == 0 {
            self.selection.line_index = 0;
        } else if self.selection.line_index >= len {
            self.selection.line_index = len - 1;
        }
        let keep: bool = match self.selection.variant_index {
            Some(k) => {
                if self.selection.line_index < len {
                    let line = &self.consensus[self.selection.line_index];
                    proof {
                        assert(variant_count(self.consensus@[self.selection.line_index as int])
                            < usize::MAX);
                    }
                    match line {
                        ConsensusLine::Differs { expanded: true, variants, missing, .. } => {
                            let vc = if missing.len() > 0 {
                                variants.len() + 1
                            } else {
                                variants.len()
                            };
                            k < vc
                        },
                        _ => false,
                    }
                } else {
                    false
                }
            },
            None => true,
        };
        if !keep {
            self.selection.variant_index = None;
        }
    }
}

// ---------------------------------------------------------------------------
// Expansion and collapse
// ---------------------------------------------------------------------------

/// The key under which the missing-hosts pseudo-variant's host list is
/// recorded as expanded.
pub open spec fn missing_marker() -> Seq<char> {
    "<missing>"@
}

/// `b` is `a` with the expansion flag flipped; content untouched.
pub open spec fn toggled_line(a: ConsensusLine, b: ConsensusLine) -> bool {
    match a {
        ConsensusLine::Identical(_) => b == a,
        ConsensusLine::Differs { consensus, variants, missing, expanded, expanded_hosts } => b
            == (ConsensusLine::Differs {
            consensus,
            variants,
            missing,
            expanded: !expanded,
            expanded_hosts,
        }),
    }
}

/// `b` is `a` with the expansion flag forced to `val`; host-list expansion
/// keys untouched.
pub open spec fn forced_line(a: ConsensusLine, b: ConsensusLine, val: bool) -> bool {
    match a {
        ConsensusLine::Identical(_) => b == a,
        ConsensusLine::Differs { consensus, variants, missing, expanded, expanded_hosts } => b
            == (ConsensusLine::Differs {
            consensus,
            variants,
            missing,
            expanded: val,
            expanded_hosts,
        }),
    }
}

/// `a` and `b` are `Differs` lines with the same content, variants and
/// missing hosts.
pub open spec fn same_differs_content(a: ConsensusLine, b: ConsensusLine) -> bool {
    &&& a is Differs
    &&& b is Differs
    &&& b->consensus == a->consensus
    &&& b->variants == a->variants
    &&& b->missing == a->missing
}

/// `s` with the first occurrence of `key` removed, if any.
pub open spec fn remove_first(s: Seq<Seq<char>>, key: Seq<char>) -> Seq<Seq<char>>
    decreases s.len(),
{
    if s.len() == 0 {
        s
    } else if s[0] == key {
        s.skip(1)
    } else {
        seq![s[0]] + remove_first(s.skip(1), key)
    }
}

/// What the expand gesture does to the selected line: a collapsed
/// `Differs` expands; on a variant row of an expanded line, a host group
/// of more than one member has its host list revealed; anything else is
/// untouched.
pub open spec fn expand_line_rel(a: ConsensusLine, b: ConsensusLine, vi: Option<usize>) -> bool {
    match a {
        ConsensusLine::Identical(_) => b == a,
        ConsensusLine::Differs { consensus, variants, missing, expanded, expanded_hosts } => {
            if !expanded {
                b == (ConsensusLine::Differs {
                    consensus,
                    variants,
                    missing,
                    expanded: true,
                    expanded_hosts,
                })
            } else {
                match vi {
                    None => b == a,
                    Some(k) => {
                        if k < variants@.len() {
                            if variants@[k as int].1@.len() > 1 {
                                hosts_inserted(a, b, variants@[k as int].0@)
                            } else {
                                b == a
                            }
                        } else if missing@.len() > 0 {
                            if missing@.len() > 1 {
                                hosts_inserted(a, b, missing_marker())
                            } else {
                                b == a
                            }
                        } else {
                            b == a
                        }
                    },
                }
            }
        },
    }
}

/// `b` is `a` with `key` present in the expanded host-list set: appended if
/// it was absent, untouched if already there.
pub open spec fn hosts_inserted(a: ConsensusLine, b: ConsensusLine, key: Seq<char>) -> bool {
    &&& same_differs_content(a, b)
    &&& b->expanded == a->expanded
    &&& if a->expanded_hosts.deep_view().contains(key) {
        b->expanded_hosts == a->expanded_hosts
    } else {
        b->expanded_hosts.deep_view() == a->expanded_hosts.deep_view().push(key)
    }
}

/// What the collapse gesture does to the selected line and the cursor: an
/// expanded host list folds back first; else the cursor retreats to the
/// previous variant or the main line; else an expanded line collapses and
/// forgets its host-list expansions.
pub open spec fn collapse_step(
    a: ConsensusLine,
    b: ConsensusLine,
    osel: Selection,
    nsel: Selection,
) -> bool {
    match a {
        ConsensusLine::Identical(_) => b == a && nsel == osel,
        ConsensusLine::Differs { consensus, variants, missing, expanded, expanded_hosts } => {
            match osel.variant_index {
                Some(k) => {
                    let key = if k < variants@.len() {
                        variants@[k as int].0@
                    } else {
                        missing_marker()
                    };
                    if expanded_hosts.deep_view().contains(key) {
                        &&& same_differs_content(a, b)
                        &&& b->expanded == expanded
                        &&& b->expanded_hosts.deep_view() == remove_first(
                            expanded_hosts.deep_view(),
                            key,
                        )
                        &&& nsel == osel
                    } else {
                        &&& b == a
                        &&& nsel == (Selection {
                            line_index: osel.line_index,
                            variant_index: if k > 0 {
                                Some((k - 1) as usize)
                            } else {
                                None
                            },
                        })
                    }
                },
                None => {
                    if expanded {
                        &&& same_differs_content(a, b)
                        &&& b->expanded == false
                        &&& b->expanded_hosts@.len() == 0
                        &&& nsel == osel
                    } else {
                        b == a && nsel == osel
                    }
                },
            }
        },
    }
}

/// Remove the first occurrence of `s`, if present.
fn remove_string(v: &mut Vec<String>, s: &str)
    ensures
        final(v).deep_view() == remove_first(old(v).deep_view(), s@),
{
    let mut i: usize = 0;
    while i < v.len()
        invariant
            0 <= i <= v@.len(),
            v == old(v),
            forall|j: int| 0 <= j < i ==> #[trigger] v.deep_view()[j] != s@,
        decreases v@.len() - i,
    {
        if crate::text::str_eq(v[i].as_str(), s) {
            let ghost pre = v.deep_view();
            let ghost prev = v@;
            let _ = v.remove(i);
            proof {
                assert forall|j: int| 0 <= j < v.deep_view().len() implies #[trigger] v.deep_view()[j]
                    == pre.remove(i as int)[j] by {
                    assert(v@ == prev.remove(i as int));
                    if j < i {
                        assert(v@[j] == prev[j]);
                    } else {
                        assert(v@[j] == prev[j + 1]);
                    }
                }
                assert(v.deep_view() =~= pre.remove(i as int));
                lemma_remove_first_at(pre, s@, i as int);
            }
            return;
        }
        proof {
            assert(v.deep_view()[i as int] == v@[i as int]@);
        }
        i = i + 1;
    }
    proof {
        lemma_remove_first_absent(v.deep_view(), s@);
    }
}

proof fn lemma_remove_first_at(s: Seq<Seq<char>>, key: Seq<char>, i: int)
    requires
        0 <= i < s.len(),
        s[i] == key,
        forall|j: int| 0 <= j < i ==> s[j] != key,
    ensures
        remove_first(s, key) == s.remove(i),
    decreases s.len(),
{
    if s[0] == key {
        assert(i == 0);
        assert(s.skip(1) =~= s.remove(0));
    } else {
        assert(i >= 1);
        let tail = s.skip(1);
        assert(tail[i - 1] == s[i]);
        assert forall|j: int| 0 <= j < i - 1 implies tail[j] != key by {
            assert(tail[j] == s[j + 1]);
        }
        lemma_remove_first_at(tail, key, i - 1);
        assert(seq![s[0]] + tail.remove(i - 1) =~= s.remove(i));
    }
}

proof fn lemma_remove_first_absent(s: Seq<Seq<char>>, key: Seq<char>)
    requires
        forall|j: int| 0 <= j < s.len() ==> s[j] != key,
    ensures
        remove_first(s, key) == s,
    decreases s.len(),
{
    if s.len() != 0 {
        let tail = s.skip(1);
        assert forall|j: int| 0 <= j < tail.len() implies tail[j] != key by {
            assert(tail[j] == s[j + 1]);
        }
        lemma_remove_first_absent(tail, key);
        assert(seq![s[0]] + tail =~= s);
    }
}

impl ConsensusView {
    /// Flip the expansion of the selected line; the cursor leaves any
    /// variant row when the line collapses.
    pub fn toggle_expand(&mut self)
        requires
            view_wf(*old(self)),
        ensures
            view_wf(*final(self)),
            final(self).has_hosts == old(self).has_hosts,
            final(self).consensus@.len() == old(self).consensus@.len(),
            final(self).selection.line_index == old(self).selection.line_index,
            forall|i: int|
                0 <= i < old(self).consensus@.len() && i != old(self).selection.line_index
                    ==> final(self).consensus@[i] == old(self).consensus@[i],
            old(self).selection.line_index < old(self).consensus@.len() ==> toggled_line(
                old(self).consensus@[old(self).selection.line_index as int],
                final(self).consensus@[old(self).selection.line_index as int],
            ),
            final(self).selection.variant_index == (if old(self).selection.line_index < old(
                self,
            ).consensus@.len() && is_expanded_differs(
                old(self).consensus@[old(self).selection.line_index as int],
            ) {
                None::<usize>
            } else {
                old(self).selection.variant_index
            }),
    {
        let len = self.consensus.len();
        let li = self.selection.line_index;
        if li >= len {
            return;
        }
        let ghost prev = self.consensus@;
        let line = self.consensus.remove(li);
        let new_line = match line {
            ConsensusLine::Identical(c) => ConsensusLine::Identical(c),
            ConsensusLine::Differs { consensus, variants, missing, expanded, expanded_hosts } => {
                if expanded {
                    self.selection.variant_index = None;
                }
                ConsensusLine::Differs {
                    consensus,
                    variants,
                    missing,
                    expanded: !expanded,
                    expanded_hosts,
                }
            },
        };
        self.consensus.insert(li, new_line);
        proof {
            assert(self.consensus@ =~= prev.update(li as int, new_line));
        }
    }

    /// Expand the selected line, or the selected variant's host list.
    pub fn expand_selected(&mut self)
        requires
            view_wf(*old(self)),
        ensures
            view_wf(*final(self)),
            final(self).has_hosts == old(self).has_hosts,
            final(self).selection == old(self).selection,
            final(self).consensus@.len() == old(self).consensus@.len(),
            forall|i: int|
                0 <= i < old(self).consensus@.len() && i != old(self).selection.line_index
                    ==> final(self).consensus@[i] == old(self).consensus@[i],
            old(self).selection.line_index < old(self).consensus@.len() ==> expand_line_rel(
                old(self).consensus@[old(self).selection.line_index as int],
                final(self).consensus@[old(self).selection.line_index as int],
                old(self).selection.variant_index,
            ),
    {
        let len = self.consensus.len();
        let li = self.selection.line_index;
        if li >= len {
            return;
        }
        let ghost prev = self.consensus@;
        let vi = self.selection.variant_index;
        let line = self.consensus.remove(li);
        let new_line = match line {
            ConsensusLine::Identical(c) => ConsensusLine::Identical(c),
            ConsensusLine::Differs {
                consensus,
                variants,
                missing,
                expanded,
                mut expanded_hosts,
            } => {
                if !expanded {
                    ConsensusLine::Differs {
                        consensus,
                        variants,
                        missing,
                        expanded: true,
                        expanded_hosts,
                    }
                } else {
                    match vi {
                        Some(k) => {
                            if k < variants.len() {
                                if variants[k].1.len() > 1 {
                                    if !crate::text::vec_contains_str(&expanded_hosts, variants[k].0.as_str()) {
                                        let ghost preh = expanded_hosts.deep_view();
                                        expanded_hosts.push(variants[k].0.clone());
                                        proof {
                                            assert(expanded_hosts.deep_view() =~= preh.push(
                                                variants@[k as int].0@,
                                            ));
                                        }
                                    }
                                }
                            } else if missing.len() > 1 {
                                if !crate::text::vec_contains_str(&expanded_hosts, "<missing>") {
                                    let marker = missing_label();
                                    let ghost preh = expanded_hosts.deep_view();
                                    expanded_hosts.push(marker);
                                    proof {
                                        assert(expanded_hosts.deep_view() =~= preh.push(
                                            missing_marker(),
                                        ));
                                    }
                                }
                            }
                            ConsensusLine::Differs {
                                consensus,
                                variants,
                                missing,
                                expanded,
                                expanded_hosts,
                            }
                        },
                        None => ConsensusLine::Differs {
                            consensus,
                            variants,
                            missing,
                            expanded,
                            expanded_hosts,
                        },
                    }
                }
            },
        };
        self.consensus.insert(li, new_line);
        proof {
            assert(self.consensus@ =~= prev.update(li as int, new_line));
        }
    }

    /// Collapse the selected variant's host list, or retreat the cursor,
    /// or collapse the selected line.
    pub fn collapse_selected(&mut self)
        requires
            view_wf(*old(self)),
        ensures
            view_wf(*final(self)),
            final(self).has_hosts == old(self).has_hosts,
            final(self).selection.line_index == old(self).selection.line_index,
            final(self).consensus@.len() == old(self).consensus@.len(),
            forall|i: int|
                0 <= i < old(self).consensus@.len() && i != old(self).selection.line_index
                    ==> final(self).consensus@[i] == old(self).consensus@[i],
            old(self).selection.line_index < old(self).consensus@.len() ==> collapse_step(
                old(self).consensus@[old(self).selection.line_index as int],
                final(self).consensus@[old(self).selection.line_index as int],
                old(self).selection,
                final(self).selection,
            ),
            old(self).selection.line_index >= old(self).consensus@.len() ==> final(self).selection
                == old(self).selection,
    {
        let len = self.consensus.len();
        let li = self.selection.line_index;
        if li >= len {
            return;
        }
        let ghost prev = self.consensus@;
        let vi = self.selection.variant_index;
        let line = self.consensus.remove(li);
        let new_line = match line {
            ConsensusLine::Identical(c) => ConsensusLine::Identical(c),
            ConsensusLine::Differs {
                consensus,
                variants,
                missing,
                expanded,
                mut expanded_hosts,
            } => {
                match vi {
                    Some(k) => {
                        let had: bool = if k < variants.len() {
                            let hit = crate::text::vec_contains_str(&expanded_hosts, variants[k].0.as_str());
                            if hit {
                                remove_string(&mut expanded_hosts, variants[k].0.as_str());
                            }
                            hit
                        } else {
                            let hit = crate::text::vec_contains_str(&expanded_hosts, "<missing>");
                            if hit {
                                remove_string(&mut expanded_hosts, "<missing>");
                            }
                            hit
                        };
                        if !had {
                            if k > 0 {
                                self.selection.variant_index = Some(k - 1);
                            } else {
                                self.selection.variant_index = None;
                            }
                        }
                        ConsensusLine::Differs {
                            consensus,
                            variants,
                            missing,
                            expanded,
                            expanded_hosts,
                        }
                    },
                    None => {
                        if expanded {
                            expanded_hosts.clear();
                            ConsensusLine::Differs {
                                consensus,
                                variants,
                                missing,
                                expanded: false,
                                expanded_hosts,
                            }
                        } else {
                            ConsensusLine::Differs {
                                consensus,
                                variants,
                                missing,
                                expanded,
                                expanded_hosts,
                            }
                        }
                    },
                }
            },
        };
        self.consensus.insert(li, new_line);
        proof {
            assert(self.consensus@ =~= prev.update(li as int, new_line));
        }
    }

    /// Expand every `Differs` line.
    pub fn expand_all(&mut self)
        requires
            view_wf(*old(self)),
        ensures
            view_wf(*final(self)),
            final(self).has_hosts == old(self).has_hosts,
            final(self).selection == old(self).selection,
            final(self).consensus@.len() == old(self).consensus@.len(),
            forall|i: int|
                0 <= i < old(self).consensus@.len() ==> forced_line(
                    old(self).consensus@[i],
                    #[trigger] final(self).consensus@[i],
                    true,
                ),
    {
        self.force_all(true);
    }

    /// Collapse every `Differs` line; the cursor leaves any variant row.
    pub fn collapse_all(&mut self)
        requires
            view_wf(*old(self)),
        ensures
            view_wf(*final(self)),
            final(self).has_hosts == old(self).has_hosts,
            final(self).selection.line_index == old(self).selection.line_index,
            final(self).selection.variant_index is None,
            final(self).consensus@.len() == old(self).consensus@.len(),
            forall|i: int|
                0 <= i < old(self).consensus@.len() ==> forced_line(
                    old(self).consensus@[i],
                    #[trigger] final(self).consensus@[i],
                    false,
                ),
    {
        self.selection.variant_index = None;
        self.force_all(false);
    }

    fn force_all(&mut self, val: bool)
        requires
            old(self).selection.variant_index matches Some(k) ==> {
                &&& val
                &&& old(self).selection.line_index < old(self).consensus@.len()
                &&& is_expanded_differs(old(self).consensus@[old(self).selection.line_index as int])
                &&& k < variant_count(old(self).consensus@[old(self).selection.line_index as int])
            },
            (old(self).consensus@.len() == 0 ==> old(self).selection.line_index == 0),
            (old(self).consensus@.len() > 0 ==> old(self).selection.line_index < old(
                self,
            ).consensus@.len()),
            lines_sized(old(self).consensus@),
        ensures
            view_wf(*final(self)),
            final(self).has_hosts == old(self).has_hosts,
            final(self).selection == old(self).selection,
            final(self).consensus@.len() == old(self).consensus@.len(),
            forall|i: int|
                0 <= i < old(self).consensus@.len() ==> forced_line(
                    old(self).consensus@[i],
                    #[trigger] final(self).consensus@[i],
                    val,
                ),
    {
        let mut i: usize = 0;
        let len = self.consensus.len();
        while i < len
            invariant
                0 <= i <= len,
                len == self.consensus@.len(),
                len == old(self).consensus@.len(),
                self.has_hosts == old(self).has_hosts,
                self.selection == old(self).selection,
                old(self).selection.variant_index matches Some(k) ==> {
                    &&& val
                    &&& old(self).selection.line_index < old(self).consensus@.len()
                    &&& is_expanded_differs(
                        old(self).consensus@[old(self).selection.line_index as int],
                    )
                    &&& k < variant_count(
                        old(self).consensus@[old(self).selection.line_index as int],
                    )
                },
                (old(self).consensus@.len() == 0 ==> old(self).selection.line_index == 0),
                (old(self).consensus@.len() > 0 ==> old(self).selection.line_index < old(
                    self,
                ).consensus@.len()),
                lines_sized(old(self).consensus@),
                forall|j: int|
                    0 <= j < i ==> forced_line(
                        old(self).consensus@[j],
                        #[trigger] self.consensus@[j],
                        val,
                    ),
                forall|j: int|
                    i <= j < len ==> #[trigger] self.consensus@[j] == old(self).consensus@[j],
            decreases len - i,
        {
            let ghost prev = self.consensus@;
            let line = self.consensus.remove(i);
            let new_line = match line {
                ConsensusLine::Identical(c) => ConsensusLine::Identical(c),
                ConsensusLine::Differs {
                    consensus,
                    variants,
                    missing,
                    expanded,
                    expanded_hosts,
                } => ConsensusLine::Differs {
                    consensus,
                    variants,
                    missing,
                    expanded: val,
                    expanded_hosts,
                },
            };
            self.consensus.insert(i, new_line);
            proof {
                assert(self.consensus@ =~= prev.update(i as int, new_line));
            }
            i = i + 1;
        }
        proof {
            assert forall|j: int| 0 <= j < self.consensus@.len() implies #[trigger] variant_count(
                self.consensus@[j],
            ) < usize::MAX by {
                assert(forced_line(old(self).consensus@[j], self.consensus@[j], val));
                assert(variant_count(self.consensus@[j]) == variant_count(
                    old(self).consensus@[j],
                ));
            }
            if old(self).selection.variant_index is Some {
                let li = old(self).selection.line_index as int;
                assert(forced_line(old(self).consensus@[li], self.consensus@[li], val));
            }
        }
    }
}

/// The `<missing>` gutter label.
pub fn missing_label() -> (r: String)
    ensures
        r@ == missing_marker(),
{
    let r: &str = "<missing>";
    r.to_owned()
}

} // verus!
