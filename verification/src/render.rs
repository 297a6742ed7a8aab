//! Rendering models: the gutter texts, character-safe truncation, and the
//! abstract display rows that the interactive view and the text fallback
//! print.  Everything here is pure; painting cells is left to the binary.

use vstd::prelude::*;

use crate::colors::{ansi_wrapped, ColorScheme};
use crate::consensus::ConsensusLine;
use crate::selection::{
    is_expanded_differs, missing_marker, variant_count, ConsensusView, Selection,
};
use crate::text::{dec_str, usize_to_string, vec_contains_str};
use crate::Status;

verus! {

// ---------------------------------------------------------------------------
// Truncation
// ---------------------------------------------------------------------------

/// `s` cut to at most `max` characters, the last three replaced by dots
/// when it does not fit.
pub open spec fn truncate_spec(s: Seq<char>, max: int) -> Seq<char> {
    if s.len() <= max {
        s
    } else {
        s.subrange(
            0,
            if max >= 3 {
                max - 3
            } else {
                0
            },
        ) + "..."@
    }
}

/// Truncate to a number of characters, not bytes, with an ellipsis.
pub fn truncate(s: &str, max_chars: usize) -> (r: String)
    ensures
        r@ == truncate_spec(s@, max_chars as int),
{
    let n: usize = s.unicode_len();
    if n <= max_chars {
        s.to_owned()
    } else {
        let keep: usize = if max_chars >= 3 {
            max_chars - 3
        } else {
            0
        };
        let mut r = s.substring_char(0, keep).to_owned();
        r.append("...");
        r
    }
}

// ---------------------------------------------------------------------------
// Gutters
// ---------------------------------------------------------------------------

/// The host names joined with commas.
pub open spec fn comma_join(hs: Seq<Seq<char>>) -> Seq<char>
    decreases hs.len(),
{
    if hs.len() == 0 {
        Seq::empty()
    } else if hs.len() == 1 {
        hs[0]
    } else {
        comma_join(hs.drop_last()) + seq![','] + hs.last()
    }
}

/// The gutter text for a host group: a single host's name, the comma list
/// when the group is expanded, else `[N]`.
pub open spec fn gutter_spec(hs: Seq<Seq<char>>, expanded: bool) -> Seq<char> {
    if hs.len() == 1 {
        hs[0]
    } else if expanded {
        comma_join(hs)
    } else {
        "["@ + dec_str(hs.len() as int) + "]"@
    }
}

/// Format a host group's gutter.
pub fn format_gutter(hosts: &Vec<String>, expanded: bool) -> (r: String)
    ensures
        r@ == gutter_spec(hosts.deep_view(), expanded),
{
    if hosts.len() == 1 {
        proof {
            assert(hosts.deep_view()[0] == hosts@[0]@);
        }
        hosts[0].clone()
    } else if expanded {
        let mut r = String::new();
        let mut i: usize = 0;
        while i < hosts.len()
            invariant
                0 <= i <= hosts@.len(),
                hosts.deep_view().len() == hosts@.len(),
                r@ == comma_join(hosts.deep_view().subrange(0, i as int)),
            decreases hosts@.len() - i,
        {
            proof {
                let cur = hosts.deep_view().subrange(0, i + 1);
                assert(cur.drop_last() =~= hosts.deep_view().subrange(0, i as int));
                assert(cur.last() == hosts.deep_view()[i as int]);
                assert(hosts.deep_view()[i as int] == hosts@[i as int]@);
            }
            if i > 0 {
                r.push(',');
            }
            let mut r2 = r;
            r2.append(hosts[i].as_str());
            r = r2;
            proof {
                if i > 0 {
                    let pre = hosts.deep_view().subrange(0, i as int);
                    assert(comma_join(pre) + seq![','] + hosts.deep_view()[i as int] =~= r@);
                }
            }
            i = i + 1;
        }
        proof {
            assert(hosts.deep_view().subrange(0, hosts.deep_view().len() as int)
                =~= hosts.deep_view());
        }
        r
    } else {
        let open: &str = "[";
        let mut r = open.to_owned();
        let count = usize_to_string(hosts.len());
        let mut r2 = r;
        r2.append(count.as_str());
        r2.append("]");
        r2
    }
}

/// The display width of a gutter entry, in characters.
pub fn gutter_width(hosts: &Vec<String>, expanded: bool) -> (r: usize)
    ensures
        r == gutter_spec(hosts.deep_view(), expanded).len(),
{
    format_gutter(hosts, expanded).as_str().unicode_len()
}

/// The widest gutter among the first `n` variants.
pub open spec fn max_var_gutter(
    variants: Seq<(Seq<char>, Seq<Seq<char>>)>,
    exp: Seq<Seq<char>>,
    n: int,
) -> int
    decreases n,
{
    if n <= 0 {
        0
    } else {
        let w = gutter_spec(variants[n - 1].1, exp.contains(variants[n - 1].0)).len() as int;
        let rest = max_var_gutter(variants, exp, n - 1);
        if w > rest {
            w
        } else {
            rest
        }
    }
}

/// The shared gutter column width of an expanded line: the widest gutter
/// over all variants and the missing row, at least 4.
pub open spec fn max_gutter_spec(
    variants: Seq<(Seq<char>, Seq<Seq<char>>)>,
    missing: Seq<Seq<char>>,
    exp: Seq<Seq<char>>,
) -> int {
    let base = max_var_gutter(variants, exp, variants.len() as int);
    let withm = if missing.len() > 0 {
        let w = gutter_spec(missing, exp.contains(missing_marker())).len() as int;
        if w > base {
            w
        } else {
            base
        }
    } else {
        base
    };
    if withm > 4 {
        withm
    } else {
        4
    }
}

/// Compute the shared gutter column width for one expanded line.
pub fn max_gutter_width(
    variants: &Vec<(String, Vec<String>)>,
    missing: &Vec<String>,
    expanded_hosts: Option<&Vec<String>>,
) -> (r: usize)
    ensures
        r == max_gutter_spec(
            variants.deep_view(),
            missing.deep_view(),
            match expanded_hosts {
                Some(e) => e.deep_view(),
                None => Seq::<Seq<char>>::empty(),
            },
        ),
{
    let ghost exp: Seq<Seq<char>> = match expanded_hosts {
        Some(e) => e.deep_view(),
        None => Seq::<Seq<char>>::empty(),
    };
    let mut best: usize = 0;
    let mut i: usize = 0;
    while i < variants.len()
        invariant
            0 <= i <= variants@.len(),
            variants.deep_view().len() == variants@.len(),
            exp == (match expanded_hosts {
                Some(e) => e.deep_view(),
                None => Seq::<Seq<char>>::empty(),
            }),
            best == max_var_gutter(variants.deep_view(), exp, i as int),
        decreases variants@.len() - i,
    {
        proof {
            assert(variants.deep_view()[i as int] == variants@[i as int].deep_view());
        }
        let is_exp: bool = match expanded_hosts {
            Some(e) => vec_contains_str(e, variants[i].0.as_str()),
            None => false,
        };
        let w = gutter_width(&variants[i].1, is_exp);
        if w > best {
            best = w;
        }
        i = i + 1;
    }
    if missing.len() > 0 {
        let is_exp: bool = match expanded_hosts {
            Some(e) => vec_contains_str(e, "<missing>"),
            None => false,
        };
        let w = gutter_width(missing, is_exp);
        if w > best {
            best = w;
        }
    }
    if best < 4 {
        best = 4;
    }
    best
}

// ---------------------------------------------------------------------------
// Padding
// ---------------------------------------------------------------------------

pub open spec fn spaces(n: int) -> Seq<char> {
    Seq::new(
        if n >= 0 {
            n as nat
        } else {
            0nat
        },
        |i: int| ' ',
    )
}

/// `s` right-aligned in a field of `w` characters.
pub open spec fn pad_left_spec(s: Seq<char>, w: int) -> Seq<char> {
    if s.len() >= w {
        s
    } else {
        spaces(w - s.len()) + s
    }
}

/// Right-align `s` in a field of `w` characters.
pub fn pad_left(s: &str, w: usize) -> (r: String)
    ensures
        r@ == pad_left_spec(s@, w as int),
{
    let n: usize = s.unicode_len();
    if n >= w {
        s.to_owned()
    } else {
        let mut r = String::new();
        let mut i: usize = 0;
        while i < w - n
            invariant
                0 <= i <= w - n,
                n == s@.len(),
                n < w,
                r@ =~= spaces(i as int),
            decreases w - n - i,
        {
            r.push(' ');
            proof {
                assert(r@ =~= spaces(i + 1));
            }
            i = i + 1;
        }
        let mut r2 = r;
        r2.append(s);
        proof {
            assert(r2@ =~= pad_left_spec(s@, w as int));
        }
        r2
    }
}

// ---------------------------------------------------------------------------
// Display rows
// ---------------------------------------------------------------------------

/// What a display row is, semantically; colouring is the painter's
/// business.
#[derive(Clone, Copy, Debug, PartialEq, Eq, Structural)]
pub enum RowKind {
    /// An identical line's content.
    Text,
    /// The main row of a `Differs` line: marker, variant count, consensus.
    DiffSummary,
    /// One variant row of an expanded `Differs` line.
    VariantEntry,
    /// The missing-hosts row of an expanded `Differs` line.
    MissingEntry,
    /// Placeholder shown when no host directory exists yet.
    NoHostsNotice,
    /// Placeholder shown when hosts exist but nothing was output yet.
    EmptyNotice,
}

/// One renderable row: its text, what it stands for, and whether the
/// cursor is on it.
#[derive(Debug)]
pub struct DisplayRow {
    pub text: String,
    pub kind: RowKind,
    pub selected: bool,
}

/// The main row text of a `Differs` line: `v[N] content` when expanded,
/// `>[N] content` when collapsed.
pub open spec fn diff_main_text(variants_len: int, consensus: Seq<char>, expanded: bool) -> Seq<
    char,
> {
    (if expanded {
        "v"@
    } else {
        ">"@
    }) + "["@ + dec_str(variants_len) + "] "@ + consensus
}

/// One variant row: indented aligned gutter, a bar, the truncated content.
pub open spec fn variant_row_text(gutter: Seq<char>, width: int, content: Seq<char>) -> Seq<char> {
    "  "@ + pad_left_spec(gutter, width) + " "@ + "\u{2502} "@ + truncate_spec(content, 60)
}

/// The missing-hosts row.
pub open spec fn missing_row_text(gutter: Seq<char>, width: int) -> Seq<char> {
    "  "@ + pad_left_spec(gutter, width) + " "@ + "\u{2502} "@ + "<missing>"@
}

/// The rows of the first `n` variants of an expanded line.
pub open spec fn variant_rows(
    variants: Seq<(Seq<char>, Seq<Seq<char>>)>,
    exp: Seq<Seq<char>>,
    width: int,
    is_sel: bool,
    vi: Option<usize>,
    n: int,
) -> Seq<(Seq<char>, RowKind, bool)>
    decreases n,
{
    if n <= 0 {
        Seq::empty()
    } else {
        variant_rows(variants, exp, width, is_sel, vi, n - 1).push(
            (
                variant_row_text(
                    gutter_spec(variants[n - 1].1, exp.contains(variants[n - 1].0)),
                    width,
                    variants[n - 1].0,
                ),
                RowKind::VariantEntry,
                is_sel && vi == Some((n - 1) as usize),
            ),
        )
    }
}

pub proof fn lemma_variant_rows_len(
    variants: Seq<(Seq<char>, Seq<Seq<char>>)>,
    exp: Seq<Seq<char>>,
    width: int,
    is_sel: bool,
    vi: Option<usize>,
    n: int,
)
    requires
        n >= 0,
    ensures
        variant_rows(variants, exp, width, is_sel, vi, n).len() == n,
    decreases n,
{
    if n > 0 {
        lemma_variant_rows_len(variants, exp, width, is_sel, vi, n - 1);
    }
}

/// All rows one consensus line contributes.
pub open spec fn line_rows(line: ConsensusLine, is_sel: bool, vi: Option<usize>) -> Seq<
    (Seq<char>, RowKind, bool),
> {
    match line {
        ConsensusLine::Identical(c) => seq![(c@, RowKind::Text, is_sel)],
        ConsensusLine::Differs { consensus, variants, missing, expanded, expanded_hosts } => {
            let main = seq![
                (
                    diff_main_text(variants@.len() as int, consensus@, expanded),
                    RowKind::DiffSummary,
                    is_sel && vi is None,
                ),
            ];
            if expanded {
                let exp = expanded_hosts.deep_view();
                let width = max_gutter_spec(variants.deep_view(), missing.deep_view(), exp);
                let vrows = variant_rows(
                    variants.deep_view(),
                    exp,
                    width,
                    is_sel,
                    vi,
                    variants@.len() as int,
                );
                if missing@.len() > 0 {
                    main + vrows + seq![
                        (
                            missing_row_text(
                                gutter_spec(missing.deep_view(), exp.contains(missing_marker())),
                                width,
                            ),
                            RowKind::MissingEntry,
                            is_sel && vi == Some(variants@.len() as usize),
                        ),
                    ]
                } else {
                    main + vrows
                }
            } else {
                main
            }
        },
    }
}

/// All rows of the first `n` consensus lines.
pub open spec fn rows_upto(lines: Seq<ConsensusLine>, sel: Selection, n: int) -> Seq<
    (Seq<char>, RowKind, bool),
>
    decreases n,
{
    if n <= 0 {
        Seq::empty()
    } else {
        rows_upto(lines, sel, n - 1) + line_rows(
            lines[n - 1],
            sel.line_index == n - 1,
            sel.variant_index,
        )
    }
}

/// How many virtual rows one line occupies.
pub open spec fn line_row_count(line: ConsensusLine) -> int {
    1 + if is_expanded_differs(line) {
        variant_count(line)
    } else {
        0
    }
}

/// Virtual rows occupied by the first `n` lines.
pub open spec fn rows_before(lines: Seq<ConsensusLine>, n: int) -> int
    decreases n,
{
    if n <= 0 {
        0
    } else {
        rows_before(lines, n - 1) + line_row_count(lines[n - 1])
    }
}

/// The virtual row the cursor sits on.
pub open spec fn selected_row_spec(lines: Seq<ConsensusLine>, sel: Selection) -> int {
    rows_before(lines, sel.line_index as int) + (match sel.variant_index {
        Some(k) => 1 + k as int,
        None => 0int,
    })
}

pub proof fn lemma_rows_before_mono(lines: Seq<ConsensusLine>, i: int, j: int)
    requires
        0 <= i <= j,
    ensures
        0 <= rows_before(lines, i) <= rows_before(lines, j),
    decreases i + j,
{
    if i > 0 {
        lemma_rows_before_mono(lines, i - 1, i - 1);
    }
    if j > 0 && i < j {
        lemma_rows_before_mono(lines, i, j - 1);
    }
}

/// The cursor's virtual row lies within the total row count.
pub proof fn lemma_selected_row_bound(lines: Seq<ConsensusLine>, sel: Selection)
    requires
        lines.len() == 0 ==> sel.line_index == 0,
        lines.len() > 0 ==> sel.line_index < lines.len(),
        sel.variant_index matches Some(k) ==> sel.line_index < lines.len() && is_expanded_differs(
            lines[sel.line_index as int],
        ) && k < variant_count(lines[sel.line_index as int]),
    ensures
        0 <= selected_row_spec(lines, sel) <= rows_before(lines, lines.len() as int),
{
    let li = sel.line_index as int;
    lemma_rows_before_mono(lines, 0, li);
    if lines.len() > 0 {
        lemma_rows_before_mono(lines, li + 1, lines.len() as int);
        assert(rows_before(lines, li + 1) == rows_before(lines, li) + line_row_count(lines[li]));
    }
}

impl ConsensusView {
    /// The virtual row of the cursor, counting every visible row of every
    /// preceding line.
    pub fn selected_display_row(&self) -> (r: usize)
        requires
            crate::selection::view_wf(*self),
            rows_before(self.consensus@, self.consensus@.len() as int) <= usize::MAX,
        ensures
            r == selected_row_spec(self.consensus@, self.selection),
    {
        let mut row: usize = 0;
        let mut i: usize = 0;
        let li = self.selection.line_index;
        proof {
            lemma_rows_before_mono(self.consensus@, 0, self.consensus@.len() as int);
        }
        while i < li && i < self.consensus.len()
            invariant
                crate::selection::view_wf(*self),
                rows_before(self.consensus@, self.consensus@.len() as int) <= usize::MAX,
                li == self.selection.line_index,
                0 <= i <= self.consensus@.len(),
                i <= li,
                row == rows_before(self.consensus@, i as int),
            decreases li - i,
        {
            proof {
                lemma_rows_before_mono(self.consensus@, i + 1, self.consensus@.len() as int);
                lemma_rows_before_mono(self.consensus@, 0, i + 1);
                assert(variant_count(self.consensus@[i as int]) < usize::MAX);
            }
            let line = &self.consensus[i];
            let add: usize = match line {
                ConsensusLine::Identical(_) => 1,
                ConsensusLine::Differs { variants, missing, expanded, .. } => {
                    if *expanded {
                        let vc = if missing.len() > 0 {
                            variants.len() + 1
                        } else {
                            variants.len()
                        };
                        1 + vc
                    } else {
                        1
                    }
                },
            };
            proof {
                assert(add == line_row_count(self.consensus@[i as int]));
            }
            row = row + add;
            i = i + 1;
        }
        proof {
            if i < li {
                assert(i == self.consensus@.len());
                assert(li == 0 || li < self.consensus@.len());
            }
        }
        match self.selection.variant_index {
            Some(k) => {
                proof {
                    lemma_rows_before_mono(self.consensus@, li as int, self.consensus@.len() as int);
                    assert(rows_before(self.consensus@, li + 1) == rows_before(
                        self.consensus@,
                        li as int,
                    ) + line_row_count(self.consensus@[li as int]));
                    lemma_rows_before_mono(self.consensus@, li + 1, self.consensus@.len() as int);
                }
                row + 1 + k
            },
            None => row,
        }
    }

    /// The scroll offset that keeps the cursor inside a viewport of the
    /// given height: zero while it fits, else just enough to show it at
    /// the bottom.
    pub fn calculate_scroll_offset(&self, viewport_height: usize) -> (r: usize)
        requires
            crate::selection::view_wf(*self),
            rows_before(self.consensus@, self.consensus@.len() as int) + 1 <= usize::MAX,
        ensures
            r == (if selected_row_spec(self.consensus@, self.selection) >= viewport_height {
                selected_row_spec(self.consensus@, self.selection) - viewport_height + 1
            } else {
                0int
            }),
    {
        let row = self.selected_display_row();
        proof {
            lemma_selected_row_bound(self.consensus@, self.selection);
        }
        if row >= viewport_height {
            row - viewport_height + 1
        } else {
            0
        }
    }
}

impl ConsensusView {
    /// Build the rows of the viewport: every virtual row of every line, in
    /// order, windowed to `[scroll_offset, scroll_offset + viewport_height)`;
    /// a placeholder row when that window is empty.
    pub fn build_display_rows(&self, scroll_offset: usize, viewport_height: usize) -> (r: Vec<
        DisplayRow,
    >)
        requires
            crate::selection::view_wf(*self),
        ensures
            ({
                let all = rows_upto(self.consensus@, self.selection, self.consensus@.len() as int);
                let start = if scroll_offset as int <= all.len() as int {
                    scroll_offset as int
                } else {
                    all.len() as int
                };
                let end = if scroll_offset + viewport_height <= all.len() as int {
                    scroll_offset + viewport_height
                } else {
                    all.len() as int
                };
                let window = all.subrange(start, end);
                if window.len() > 0 {
                    r@.len() == window.len() && forall|t: int|
                        0 <= t < r@.len() ==> ((#[trigger] r@[t]).text@, r@[t].kind, r@[t].selected)
                            == window[t]
                } else if !self.has_hosts {
                    r@.len() == 1 && r@[0].text@ == "No host directories found..."@ && r@[0].kind
                        == RowKind::NoHostsNotice && !r@[0].selected
                } else {
                    r@.len() == 1 && r@[0].text@ == "(no output yet)"@ && r@[0].kind
                        == RowKind::EmptyNotice && !r@[0].selected
                }
            }),
    {
        let ghost lines = self.consensus@;
        let ghost sel = self.selection;
        let mut rows: Vec<DisplayRow> = Vec::new();
        let mut i: usize = 0;
        let len = self.consensus.len();
        while i < len
            invariant
                crate::selection::view_wf(*self),
                lines == self.consensus@,
                sel == self.selection,
                0 <= i <= len,
                len == lines.len(),
                rows@.len() == rows_upto(lines, sel, i as int).len(),
                forall|t: int|
                    0 <= t < rows@.len() ==> ((#[trigger] rows@[t]).text@, rows@[t].kind,
                    rows@[t].selected) == rows_upto(lines, sel, i as int)[t],
            decreases len - i,
        {
            let ghost upto_pre = rows_upto(lines, sel, i as int);
            let ghost lrows = line_rows(lines[i as int], sel.line_index == i as int, sel.variant_index);
            let is_sel = i == self.selection.line_index;
            let line = &self.consensus[i];
            match line {
                ConsensusLine::Identical(c) => {
                    rows.push(DisplayRow { text: c.clone(), kind: RowKind::Text, selected: is_sel });
                },
                ConsensusLine::Differs { consensus, variants, missing, expanded, expanded_hosts } => {
                    let marker: &str = if *expanded {
                        "v"
                    } else {
                        ">"
                    };
                    let mut text = marker.to_owned();
                    text.append("[");
                    let cnt = usize_to_string(variants.len());
                    text.append(cnt.as_str());
                    text.append("] ");
                    text.append(consensus.as_str());
                    let main_selected = is_sel && self.selection.variant_index.is_none();
                    proof {
                        assert(text@ =~= diff_main_text(
                            variants@.len() as int,
                            consensus@,
                            *expanded,
                        ));
                    }
                    rows.push(
                        DisplayRow { text, kind: RowKind::DiffSummary, selected: main_selected },
                    );
                    if *expanded {
                        let ghost exp = expanded_hosts.deep_view();
                        let ghost vmodel = variants.deep_view();
                        let width = max_gutter_width(variants, missing, Some(expanded_hosts));
                        let mut k: usize = 0;
                        while k < variants.len()
                            invariant
                                0 <= k <= variants@.len(),
                                vmodel == variants.deep_view(),
                                vmodel.len() == variants@.len(),
                                exp == expanded_hosts.deep_view(),
                                width == max_gutter_spec(
                                    variants.deep_view(),
                                    missing.deep_view(),
                                    exp,
                                ),
                                is_sel == (sel.line_index == i as int),
                                sel == self.selection,
                                rows@.len() == upto_pre.len() + 1 + k,
                                forall|t: int|
                                    0 <= t < upto_pre.len() + 1 ==> ((#[trigger] rows@[t]).text@,
                                    rows@[t].kind, rows@[t].selected) == (upto_pre + lrows.subrange(
                                        0,
                                        1,
                                    ))[t],
                                forall|t: int|
                                    upto_pre.len() + 1 <= t < upto_pre.len() + 1 + k ==> ((
                                    #[trigger] rows@[t]).text@, rows@[t].kind, rows@[t].selected)
                                        == variant_rows(
                                        vmodel,
                                        exp,
                                        width as int,
                                        is_sel,
                                        sel.variant_index,
                                        k as int,
                                    )[t - upto_pre.len() - 1],
                            decreases variants@.len() - k,
                        {
                            proof {
                                assert(vmodel[k as int] == variants@[k as int].deep_view());
                            }
                            let is_exp = vec_contains_str(expanded_hosts, variants[k].0.as_str());
                            let g = format_gutter(&variants[k].1, is_exp);
                            let padded = pad_left(g.as_str(), width);
                            let mut t = String::new();
                            t.append("  ");
                            t.append(padded.as_str());
                            t.append(" ");
                            t.append("\u{2502} ");
                            let trunced = truncate(variants[k].0.as_str(), 60);
                            t.append(trunced.as_str());
                            let row_selected: bool = is_sel && (match self.selection.variant_index {
                                Some(kk) => kk == k,
                                None => false,
                            });
                            proof {
                                lemma_variant_rows_len(
                                    vmodel,
                                    exp,
                                    width as int,
                                    is_sel,
                                    sel.variant_index,
                                    k as int,
                                );
                                lemma_variant_rows_len(
                                    vmodel,
                                    exp,
                                    width as int,
                                    is_sel,
                                    sel.variant_index,
                                    k + 1,
                                );
                                assert(t@ =~= variant_row_text(
                                    gutter_spec(vmodel[k as int].1, exp.contains(vmodel[k as int].0)),
                                    width as int,
                                    vmodel[k as int].0,
                                ));
                                assert((is_sel && sel.variant_index == Some(k)) == row_selected);
                                assert(variant_rows(
                                    vmodel,
                                    exp,
                                    width as int,
                                    is_sel,
                                    sel.variant_index,
                                    k + 1,
                                ) == variant_rows(
                                    vmodel,
                                    exp,
                                    width as int,
                                    is_sel,
                                    sel.variant_index,
                                    k as int,
                                ).push(
                                    (
                                        variant_row_text(
                                            gutter_spec(vmodel[k as int].1, exp.contains(vmodel[k as int].0)),
                                            width as int,
                                            vmodel[k as int].0,
                                        ),
                                        RowKind::VariantEntry,
                                        is_sel && sel.variant_index == Some(k),
                                    ),
                                ));
                            }
                            rows.push(
                                DisplayRow { text: t, kind: RowKind::VariantEntry, selected: row_selected },
                            );
                            k = k + 1;
                        }
                        if missing.len() > 0 {
                            let is_exp = vec_contains_str(expanded_hosts, "<missing>");
                            let g = format_gutter(missing, is_exp);
                            let padded = pad_left(g.as_str(), width);
                            let mut t = String::new();
                            t.append("  ");
                            t.append(padded.as_str());
                            t.append(" ");
                            t.append("\u{2502} ");
                            t.append("<missing>");
                            let row_selected: bool = is_sel && (match self.selection.variant_index {
                                Some(kk) => kk == variants.len(),
                                None => false,
                            });
                            proof {
                                assert(t@ =~= missing_row_text(
                                    gutter_spec(missing.deep_view(), exp.contains(missing_marker())),
                                    width as int,
                                ));
                                assert((is_sel && sel.variant_index == Some(variants.len() as usize))
                                    == row_selected);
                            }
                            rows.push(
                                DisplayRow { text: t, kind: RowKind::MissingEntry, selected: row_selected },
                            );
                        }
                        proof {
                            lemma_variant_rows_len(
                                vmodel,
                                exp,
                                width as int,
                                is_sel,
                                sel.variant_index,
                                variants@.len() as int,
                            );
                        }
                    }
                },
            }
            proof {
                assert(rows_upto(lines, sel, i + 1) == upto_pre + lrows);
                assert(rows@.len() == rows_upto(lines, sel, i + 1).len());
                assert forall|t: int|
                    0 <= t < rows@.len() implies ((#[trigger] rows@[t]).text@, rows@[t].kind,
                rows@[t].selected) == rows_upto(lines, sel, i + 1)[t] by {
                    if t < upto_pre.len() {
                        assert(rows_upto(lines, sel, i + 1)[t] == upto_pre[t]);
                    } else {
                        assert(rows_upto(lines, sel, i + 1)[t] == lrows[t - upto_pre.len()]);
                    }
                }
            }
            i = i + 1;
        }
        proof {
            assert(rows_upto(lines, sel, len as int) == rows_upto(
                lines,
                sel,
                self.consensus@.len() as int,
            ));
        }
        let ghost all = rows_upto(lines, sel, lines.len() as int);
        let total = rows.len();
        let end: usize = if scroll_offset >= total {
            total
        } else if viewport_height >= total - scroll_offset {
            total
        } else {
            scroll_offset + viewport_height
        };
        rows.truncate(end);
        let ghost kept = rows@;
        let start: usize = if scroll_offset <= end {
            scroll_offset
        } else {
            end
        };
        let mut cut: usize = 0;
        while cut < start
            invariant
                0 <= cut <= start,
                start <= end,
                end == kept.len(),
                rows@ =~= kept.subrange(cut as int, end as int),
            decreases start - cut,
        {
            let _ = rows.remove(0);
            proof {
                assert(rows@ =~= kept.subrange(cut + 1, end as int));
            }
            cut = cut + 1;
        }
        if rows.len() == 0 {
            if !self.has_hosts {
                let msg: &str = "No host directories found...";
                rows.push(
                    DisplayRow {
                        text: msg.to_owned(),
                        kind: RowKind::NoHostsNotice,
                        selected: false,
                    },
                );
            } else {
                let msg: &str = "(no output yet)";
                rows.push(
                    DisplayRow { text: msg.to_owned(), kind: RowKind::EmptyNotice, selected: false },
                );
            }
        }
        rows
    }
}

// ---------------------------------------------------------------------------
// Text-mode rendering
// ---------------------------------------------------------------------------

pub open spec fn status_label(st: Status) -> Seq<char> {
    match st {
        Status::Running => "running"@,
        Status::Success => "success"@,
        Status::Failed => "failed"@,
        Status::Pending => "pending"@,
    }
}

/// Text wrapped in an ANSI code when colours are on.
pub open spec fn maybe_wrapped(c: ColorScheme, code: Seq<char>, text: Seq<char>) -> Seq<char> {
    if c.enabled {
        ansi_wrapped(text, code)
    } else {
        text
    }
}

/// A status word coloured by its meaning; pending stays plain.
pub open spec fn format_status_spec(st: Status, c: ColorScheme) -> Seq<char> {
    match st {
        Status::Running => maybe_wrapped(c, "33"@, status_label(st)),
        Status::Success => maybe_wrapped(c, "32"@, status_label(st)),
        Status::Failed => maybe_wrapped(c, "31"@, status_label(st)),
        Status::Pending => status_label(st),
    }
}

/// Format a host status for the text-mode summary.
pub fn format_status(status: Status, colors: &ColorScheme) -> (r: String)
    ensures
        r@ == format_status_spec(status, *colors),
{
    let s = status.as_str();
    match status {
        Status::Running => colors.ansi_yellow(s),
        Status::Success => colors.ansi_green(s),
        Status::Failed => colors.ansi_red(s),
        Status::Pending => s.to_owned(),
    }
}

/// The `host:status  host:status` summary over the first `n` hosts.
pub open spec fn summary_upto(
    names: Seq<Seq<char>>,
    sts: Seq<Status>,
    c: ColorScheme,
    n: int,
) -> Seq<char>
    decreases n,
{
    if n <= 0 {
        Seq::empty()
    } else {
        let entry = names[n - 1] + ":"@ + format_status_spec(sts[n - 1], c);
        if n == 1 {
            entry
        } else {
            summary_upto(names, sts, c, n - 1) + "  "@ + entry
        }
    }
}

/// The text-mode header.
pub open spec fn header_line(names: Seq<Seq<char>>) -> Seq<char> {
    "=== Consensus View ("@ + dec_str(names.len() as int) + " hosts) ==="@
}

/// The variant lines of one `Differs` block, hosts never expanded.
pub open spec fn text_variant_lines(
    variants: Seq<(Seq<char>, Seq<Seq<char>>)>,
    width: int,
    c: ColorScheme,
    n: int,
) -> Seq<Seq<char>>
    decreases n,
{
    if n <= 0 {
        Seq::empty()
    } else {
        text_variant_lines(variants, width, c, n - 1).push(
            "  "@ + maybe_wrapped(c, "36"@, pad_left_spec(gutter_spec(variants[n - 1].1, false), width))
                + " \u{2502} "@ + variants[n - 1].0,
        )
    }
}

pub proof fn lemma_text_variant_lines_len(
    variants: Seq<(Seq<char>, Seq<Seq<char>>)>,
    width: int,
    c: ColorScheme,
    n: int,
)
    requires
        n >= 0,
    ensures
        text_variant_lines(variants, width, c, n).len() == n,
    decreases n,
{
    if n > 0 {
        lemma_text_variant_lines_len(variants, width, c, n - 1);
    }
}

/// The text lines of one consensus line.
pub open spec fn line_block(line: ConsensusLine, c: ColorScheme) -> Seq<Seq<char>> {
    match line {
        ConsensusLine::Identical(ct) => seq![ct@],
        ConsensusLine::Differs { consensus, variants, missing, .. } => {
            let width = max_gutter_spec(
                variants.deep_view(),
                missing.deep_view(),
                Seq::<Seq<char>>::empty(),
            );
            let main = seq![
                maybe_wrapped(c, "33"@, "["@ + dec_str(variants@.len() as int) + "]"@) + " "@
                    + consensus@,
            ];
            let vlines = text_variant_lines(variants.deep_view(), width, c, variants@.len() as int);
            if missing@.len() > 0 {
                main + vlines + seq![
                    "  "@ + maybe_wrapped(
                        c,
                        "36"@,
                        pad_left_spec(gutter_spec(missing.deep_view(), false), width),
                    ) + " \u{2502} "@ + maybe_wrapped(c, "90"@, "<missing>"@),
                ]
            } else {
                main + vlines
            }
        },
    }
}

pub open spec fn blocks_upto(lines: Seq<ConsensusLine>, c: ColorScheme, n: int) -> Seq<Seq<char>>
    decreases n,
{
    if n <= 0 {
        Seq::empty()
    } else {
        blocks_upto(lines, c, n - 1) + line_block(lines[n - 1], c)
    }
}

/// What the text fallback prints: header, status summary, a blank line,
/// then every consensus line's block.
pub open spec fn text_render_model(
    names: Seq<Seq<char>>,
    sts: Seq<Status>,
    lines: Seq<ConsensusLine>,
    c: ColorScheme,
) -> Seq<Seq<char>> {
    seq![header_line(names), summary_upto(names, sts, c, names.len() as int), Seq::<char>::empty()]
        + blocks_upto(lines, c, lines.len() as int)
}

/// Render the consensus as plain text lines for the non-interactive
/// fallback: a header with the host count, the host status summary, and
/// the consensus with variant gutters; host lists stay collapsed.
#[verifier::rlimit(60)]
pub fn render_text_lines(
    hosts: &Vec<String>,
    statuses: &Vec<Status>,
    consensus: &Vec<ConsensusLine>,
    colors: &ColorScheme,
) -> (r: Vec<String>)
    requires
        hosts@.len() == statuses@.len(),
    ensures
        hosts@.len() == 0 ==> r.deep_view() == seq!["No hosts found."@],
        hosts@.len() > 0 ==> r.deep_view() == text_render_model(
            hosts.deep_view(),
            statuses@,
            consensus@,
            *colors,
        ),
{
    let mut r: Vec<String> = Vec::new();
    if hosts.len() == 0 {
        let msg: &str = "No hosts found.";
        r.push(msg.to_owned());
        proof {
            assert(r.deep_view() =~= seq!["No hosts found."@]);
        }
        return r;
    }
    let ghost names = hosts.deep_view();
    let open: &str = "=== Consensus View (";
    let mut header = open.to_owned();
    let count = usize_to_string(hosts.len());
    header.append(count.as_str());
    header.append(" hosts) ===");
    proof {
        assert(header@ =~= header_line(names));
    }
    r.push(header);
    let mut summary = String::new();
    let mut i: usize = 0;
    while i < hosts.len()
        invariant
            0 <= i <= hosts@.len(),
            names == hosts.deep_view(),
            names.len() == hosts@.len(),
            hosts@.len() == statuses@.len(),
            summary@ == summary_upto(names, statuses@, *colors, i as int),
        decreases hosts@.len() - i,
    {
        proof {
            assert(names[i as int] == hosts@[i as int]@);
        }
        if i > 0 {
            let mut s2 = summary;
            s2.append("  ");
            summary = s2;
        }
        let mut s2 = summary;
        s2.append(hosts[i].as_str());
        s2.append(":");
        let st = format_status(statuses[i], colors);
        s2.append(st.as_str());
        summary = s2;
        proof {
            assert(summary@ =~= summary_upto(names, statuses@, *colors, i + 1));
        }
        i = i + 1;
    }
    r.push(summary);
    r.push(String::new());
    proof {
        assert(r.deep_view() =~= seq![
            header_line(names),
            summary_upto(names, statuses@, *colors, names.len() as int),
            Seq::<char>::empty(),
        ]);
    }
    let ghost head3 = r.deep_view();
    let mut li: usize = 0;
    while li < consensus.len()
        invariant
            0 <= li <= consensus@.len(),
            head3.len() == 3,
            r.deep_view() =~= head3 + blocks_upto(consensus@, *colors, li as int),
        decreases consensus@.len() - li,
    {
        let line = &consensus[li];
        let ghost block = line_block(consensus@[li as int], *colors);
        match line {
            ConsensusLine::Identical(ct) => {
                let ghost pre = r.deep_view();
                r.push(ct.clone());
                proof {
                    assert(r.deep_view() =~= pre.push(ct@));
                    assert(pre.push(ct@) =~= pre + block);
                }
            },
            ConsensusLine::Differs { consensus: cons, variants, missing, .. } => {
                let width = max_gutter_width(variants, missing, None);
                let bracket: &str = "[";
                let mut marker = bracket.to_owned();
                let vcount = usize_to_string(variants.len());
                marker.append(vcount.as_str());
                marker.append("]");
                let wrapped = colors.ansi_yellow(marker.as_str());
                let mut main = wrapped;
                main.append(" ");
                main.append(cons.as_str());
                proof {
                    assert(marker@ =~= "["@ + dec_str(variants@.len() as int) + "]"@);
                    assert(main@ =~= maybe_wrapped(
                        *colors,
                        "33"@,
                        "["@ + dec_str(variants@.len() as int) + "]"@,
                    ) + " "@ + cons@);
                }
                let ghost pre = r.deep_view();
                r.push(main);
                proof {
                    assert(r.deep_view() =~= pre.push(block[0]));
                }
                let mut k: usize = 0;
                let ghost vmodel = variants.deep_view();
                while k < variants.len()
                    invariant
                        0 <= k <= variants@.len(),
                        vmodel == variants.deep_view(),
                        vmodel.len() == variants@.len(),
                        width == max_gutter_spec(
                            variants.deep_view(),
                            missing.deep_view(),
                            Seq::<Seq<char>>::empty(),
                        ),
                        r.deep_view() =~= pre.push(
                            maybe_wrapped(
                                *colors,
                                "33"@,
                                "["@ + dec_str(variants@.len() as int) + "]"@,
                            ) + " "@ + cons@,
                        ) + text_variant_lines(vmodel, width as int, *colors, k as int),
                    decreases variants@.len() - k,
                {
                    proof {
                        assert(vmodel[k as int] == variants@[k as int].deep_view());
                    }
                    let g = format_gutter(&variants[k].1, false);
                    let padded = pad_left(g.as_str(), width);
                    let cg = colors.ansi_cyan(padded.as_str());
                    let indent: &str = "  ";
                    let mut vline = indent.to_owned();
                    vline.append(cg.as_str());
                    vline.append(" \u{2502} ");
                    vline.append(variants[k].0.as_str());
                    proof {
                        assert(vline@ =~= "  "@ + maybe_wrapped(
                            *colors,
                            "36"@,
                            pad_left_spec(gutter_spec(vmodel[k as int].1, false), width as int),
                        ) + " \u{2502} "@ + vmodel[k as int].0);
                    }
                    let ghost vlineview = vline@;
                    let ghost prev = r.deep_view();
                    r.push(vline);
                    proof {
                        lemma_text_variant_lines_len(vmodel, width as int, *colors, k as int);
                        lemma_text_variant_lines_len(vmodel, width as int, *colors, k + 1);
                        assert(r.deep_view() =~= prev.push(vlineview));
                        assert(text_variant_lines(vmodel, width as int, *colors, k + 1)
                            == text_variant_lines(vmodel, width as int, *colors, k as int).push(
                            vlineview,
                        ));
                        assert(r.deep_view() =~= pre.push(
                            maybe_wrapped(
                                *colors,
                                "33"@,
                                "["@ + dec_str(variants@.len() as int) + "]"@,
                            ) + " "@ + cons@,
                        ) + text_variant_lines(vmodel, width as int, *colors, k + 1));
                    }
                    k = k + 1;
                }
                if missing.len() > 0 {
                    let g = format_gutter(missing, false);
                    let padded = pad_left(g.as_str(), width);
                    let cg = colors.ansi_cyan(padded.as_str());
                    let gm = colors.ansi_gray("<missing>");
                    let indent: &str = "  ";
                    let mut mline = indent.to_owned();
                    mline.append(cg.as_str());
                    mline.append(" \u{2502} ");
                    mline.append(gm.as_str());
                    proof {
                        assert(mline@ =~= "  "@ + maybe_wrapped(
                            *colors,
                            "36"@,
                            pad_left_spec(gutter_spec(missing.deep_view(), false), width as int),
                        ) + " \u{2502} "@ + maybe_wrapped(*colors, "90"@, "<missing>"@));
                    }
                    let ghost prev = r.deep_view();
                    r.push(mline);
                    proof {
                        assert(r.deep_view() =~= prev.push(mline@));
                    }
                }
                proof {
                    lemma_text_variant_lines_len(
                        vmodel,
                        width as int,
                        *colors,
                        variants@.len() as int,
                    );
                    assert(r.deep_view() =~= pre + block);
                }
            },
        }
        proof {
            assert(blocks_upto(consensus@, *colors, li + 1) == blocks_upto(
                consensus@,
                *colors,
                li as int,
            ) + block);
        }
        li = li + 1;
    }
    proof {
        assert(head3 + blocks_upto(consensus@, *colors, consensus@.len() as int)
            =~= text_render_model(names, statuses@, consensus@, *colors));
    }
    r
}

} // verus!

