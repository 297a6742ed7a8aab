//! The watch session: the state carried across refresh cycles, the refresh
//! step itself (host filtering and ordering, status parsing, input-prompt
//! detection, normalisation, change detection and consensus recomputation
//! with expansion carry-over), and the status-bar model.  All file reading
//! and the event loop live with the binary, which hands refresh one record
//! per host directory.

use vstd::prelude::*;

use crate::consensus::{
    compute_consensus, groups_at, lemma_groups_upto_len, lemma_sort_desc_len, line_matches,
    line_matches_with, max_lines, ConsensusLine,
};
use crate::normalize::{clean_terminal_output, normalize_spec};
use crate::selection::{
    clamp_sel, forced_line, is_expanded_differs, lines_sized, variant_count, ConsensusView,
    view_wf,
};
use crate::text::{
    contains_sub, is_substring, lemma_lex_total, lemma_lex_trans, lex_le, str_lex_le,
};
use crate::Status;

verus! {

// ---------------------------------------------------------------------------
// Spinner
// ---------------------------------------------------------------------------

/// The braille spinner glyph for an animation frame.
pub open spec fn spinner_glyph(frame: int) -> char {
    let k = frame % 10;
    if k == 0 {
        '\u{280b}'
    } else if k == 1 {
        '\u{2819}'
    } else if k == 2 {
        '\u{2839}'
    } else if k == 3 {
        '\u{2838}'
    } else if k == 4 {
        '\u{283c}'
    } else if k == 5 {
        '\u{2834}'
    } else if k == 6 {
        '\u{2826}'
    } else if k == 7 {
        '\u{2827}'
    } else if k == 8 {
        '\u{2807}'
    } else {
        '\u{280f}'
    }
}

// ---------------------------------------------------------------------------
// Input-prompt detection
// ---------------------------------------------------------------------------

/// The fixed prompt heuristics, matched case-insensitively against the
/// tail of a host's raw output.
pub open spec fn prompt_patterns() -> Seq<Seq<char>> {
    seq![
        "password:"@,
        "passphrase"@,
        "[y/n]"@,
        "[Y/n]"@,
        "[n/Y]"@,
        "[yes/no]"@,
        "(yes/no)"@,
        "continue?"@,
        "proceed?"@,
        "confirm"@,
        "enter to continue"@,
        "press enter"@,
        "press any key"@,
        ": $"@,
        "? $"@,
        "> "@,
        "read>"@,
    ]
}

fn input_prompt_patterns() -> (v: Vec<&'static str>)
    ensures
        v.deep_view() == prompt_patterns(),
{
    let mut v: Vec<&'static str> = Vec::new();
    v.push("password:");
    v.push("passphrase");
    v.push("[y/n]");
    v.push("[Y/n]");
    v.push("[n/Y]");
    v.push("[yes/no]");
    v.push("(yes/no)");
    v.push("continue?");
    v.push("proceed?");
    v.push("confirm");
    v.push("enter to continue");
    v.push("press enter");
    v.push("press any key");
    v.push(": $");
    v.push("? $");
    v.push("> ");
    v.push("read>");
    proof {
        assert(v.deep_view() =~= prompt_patterns());
    }
    v
}

/// What an outside lowercasing returns for given characters; the result
/// depends on the characters alone.
pub uninterp spec fn lower_of(s: Seq<char>) -> Seq<char>;

/// Relies on str::to_lowercase: the result is a pure function of the
/// characters, and lowercasing the empty string yields the empty string.
#[verifier::external_body]
fn to_lowercase(s: &str) -> (r: String)
    ensures
        r@ == lower_of(s@),
        s@.len() == 0 ==> r@.len() == 0,
{
    s.to_lowercase()
}

/// The final stretch of the raw output examined by the prompt heuristic.
pub open spec fn tail_of(s: Seq<char>, n: int) -> Seq<char> {
    if s.len() <= n {
        s
    } else {
        s.subrange(s.len() - n, s.len() as int)
    }
}

/// Whether a host's raw output looks as if the remote command waits for
/// input: some fixed pattern occurs, case-insensitively, in the last 500
/// characters.
pub open spec fn waiting_spec(raw: Seq<char>) -> bool {
    exists|k: int|
        0 <= k < prompt_patterns().len() && is_substring(
            lower_of(tail_of(raw, 500)),
            lower_of(#[trigger] prompt_patterns()[k]),
        )
}

/// Scan the tail of a host's raw output for prompt-like text.  Purely
/// advisory: it annotates the display and never affects execution.
pub fn detect_input_prompt(output: &str) -> (r: bool)
    ensures
        r == waiting_spec(output@),
{
    let n: usize = output.unicode_len();
    let start: usize = if n > 500 {
        n - 500
    } else {
        0
    };
    let tail = output.substring_char(start, n);
    proof {
        assert(tail@ == tail_of(output@, 500));
    }
    let tail_lower = to_lowercase(tail);
    let patterns = input_prompt_patterns();
    let mut k: usize = 0;
    while k < patterns.len()
        invariant
            0 <= k <= patterns@.len(),
            patterns.deep_view() == prompt_patterns(),
            patterns.deep_view().len() == patterns@.len(),
            tail_lower@ == lower_of(tail_of(output@, 500)),
            forall|j: int|
                0 <= j < k ==> !is_substring(
                    lower_of(tail_of(output@, 500)),
                    lower_of(#[trigger] prompt_patterns()[j]),
                ),
        decreases patterns@.len() - k,
    {
        proof {
            assert(patterns.deep_view()[k as int] == patterns@[k as int]@);
        }
        let p_lower = to_lowercase(patterns[k]);
        if contains_sub(tail_lower.as_str(), p_lower.as_str()) {
            return true;
        }
        k = k + 1;
    }
    false
}

// ---------------------------------------------------------------------------
// Host entries
// ---------------------------------------------------------------------------

/// What the binary reads from one directory entry of the output directory:
/// its name, the status marker's content if readable, and the raw log.
pub struct HostEntry {
    pub name: String,
    pub status_file: Option<String>,
    pub raw_output: String,
}

/// A directory entry that counts as a host: not hidden, not the
/// control-socket artifact.
pub open spec fn keep_entry(e: HostEntry) -> bool {
    e.name@.len() > 0 && e.name@[0] != '.' && e.name@ != "tmux.sock"@
}

/// The entries that count as hosts, in input order.
pub open spec fn kept_entries(es: Seq<HostEntry>) -> Seq<HostEntry>
    decreases es.len(),
{
    if es.len() == 0 {
        Seq::empty()
    } else {
        let rest = kept_entries(es.drop_last());
        if keep_entry(es.last()) {
            rest.push(es.last())
        } else {
            rest
        }
    }
}

/// Insert an entry after every entry whose name is at or before its own:
/// a stable insertion into name order.
pub open spec fn insert_by_name(es: Seq<HostEntry>, x: HostEntry) -> Seq<HostEntry>
    decreases es.len(),
{
    if es.len() == 0 {
        seq![x]
    } else if lex_le(es[0].name@, x.name@) {
        seq![es[0]] + insert_by_name(es.skip(1), x)
    } else {
        seq![x] + es
    }
}

/// The entries stably sorted by name.
pub open spec fn sort_entries_spec(es: Seq<HostEntry>) -> Seq<HostEntry>
    decreases es.len(),
{
    if es.len() == 0 {
        Seq::empty()
    } else {
        insert_by_name(sort_entries_spec(es.drop_last()), es.last())
    }
}

/// The host list a refresh works on.
pub open spec fn prepared_entries(es: Seq<HostEntry>) -> Seq<HostEntry> {
    sort_entries_spec(kept_entries(es))
}

pub proof fn lemma_insert_by_name_len(es: Seq<HostEntry>, x: HostEntry)
    ensures
        insert_by_name(es, x).len() == es.len() + 1,
    decreases es.len(),
{
    if es.len() != 0 && lex_le(es[0].name@, x.name@) {
        lemma_insert_by_name_len(es.skip(1), x);
    }
}

pub proof fn lemma_sort_entries_len(es: Seq<HostEntry>)
    ensures
        sort_entries_spec(es).len() == es.len(),
    decreases es.len(),
{
    if es.len() != 0 {
        lemma_sort_entries_len(es.drop_last());
        lemma_insert_by_name_len(sort_entries_spec(es.drop_last()), es.last());
    }
}

proof fn lemma_insert_by_name_at(es: Seq<HostEntry>, x: HostEntry, j: int)
    requires
        0 <= j <= es.len(),
        forall|k: int| 0 <= k < j ==> lex_le((#[trigger] es[k]).name@, x.name@),
        j < es.len() ==> !lex_le(es[j].name@, x.name@),
    ensures
        insert_by_name(es, x) == es.subrange(0, j) + seq![x] + es.subrange(j, es.len() as int),
    decreases es.len(),
{
    if es.len() == 0 {
        assert(insert_by_name(es, x) =~= es.subrange(0, j) + seq![x] + es.subrange(
            j,
            es.len() as int,
        ));
    } else if j == 0 {
        assert(!lex_le(es[0].name@, x.name@));
        assert(seq![x] + es =~= es.subrange(0, 0) + seq![x] + es.subrange(0, es.len() as int));
    } else {
        assert(lex_le(es[0].name@, x.name@));
        let tail = es.skip(1);
        assert forall|k: int| 0 <= k < j - 1 implies lex_le(
            (#[trigger] tail[k]).name@,
            x.name@,
        ) by {
            assert(tail[k] == es[k + 1]);
        }
        if j - 1 < tail.len() {
            assert(tail[j - 1] == es[j]);
        }
        lemma_insert_by_name_at(tail, x, j - 1);
        assert(seq![es[0]] + (tail.subrange(0, j - 1) + seq![x] + tail.subrange(
            j - 1,
            tail.len() as int,
        )) =~= es.subrange(0, j) + seq![x] + es.subrange(j, es.len() as int));
    }
}

/// The first index whose entry's name orders strictly after `x`'s.
pub open spec fn first_after(es: Seq<HostEntry>, x: HostEntry) -> int
    decreases es.len(),
{
    if es.len() == 0 {
        0
    } else if lex_le(es[0].name@, x.name@) {
        1 + first_after(es.skip(1), x)
    } else {
        0
    }
}

proof fn lemma_first_after(es: Seq<HostEntry>, x: HostEntry)
    ensures
        0 <= first_after(es, x) <= es.len(),
        forall|k: int|
            0 <= k < first_after(es, x) ==> lex_le((#[trigger] es[k]).name@, x.name@),
        first_after(es, x) < es.len() ==> !lex_le(es[first_after(es, x)].name@, x.name@),
    decreases es.len(),
{
    if es.len() != 0 && lex_le(es[0].name@, x.name@) {
        lemma_first_after(es.skip(1), x);
        assert forall|k: int| 0 <= k < first_after(es, x) implies lex_le(
            (#[trigger] es[k]).name@,
            x.name@,
        ) by {
            if k > 0 {
                assert(es.skip(1)[k - 1] == es[k]);
            }
        }
        if first_after(es, x) < es.len() {
            assert(es.skip(1)[first_after(es, x) - 1] == es[first_after(es, x)]);
        }
    }
}

pub open spec fn entries_sorted(es: Seq<HostEntry>) -> bool {
    forall|i: int, j: int|
        0 <= i < j < es.len() ==> lex_le((#[trigger] es[i]).name@, (#[trigger] es[j]).name@)
}

proof fn lemma_insert_by_name_sorted(es: Seq<HostEntry>, x: HostEntry)
    requires
        entries_sorted(es),
    ensures
        entries_sorted(insert_by_name(es, x)),
{
    let j = first_after(es, x);
    lemma_first_after(es, x);
    lemma_insert_by_name_at(es, x, j);
    let r = insert_by_name(es, x);
    if j < es.len() {
        lemma_lex_total(es[j].name@, x.name@);
    }
    assert forall|a: int, b: int|
        0 <= a < b < r.len() implies lex_le((#[trigger] r[a]).name@, (#[trigger] r[b]).name@) by {
        let ea = if a < j {
            es[a]
        } else if a == j {
            x
        } else {
            es[a - 1]
        };
        let eb = if b < j {
            es[b]
        } else if b == j {
            x
        } else {
            es[b - 1]
        };
        assert(r[a] == ea);
        assert(r[b] == eb);
        if a < j && b == j {
        } else if a == j && b > j {
            assert(!lex_le(es[j].name@, x.name@));
            assert(lex_le(x.name@, es[j].name@));
            if b - 1 > j {
                lemma_lex_trans(x.name@, es[j].name@, es[b - 1].name@);
            }
        } else if a < j && b > j {
            assert(lex_le(es[a].name@, es[b - 1].name@));
        }
    }
}

/// Law: the prepared host list is in lexicographic name order.
pub proof fn lemma_prepared_sorted(es: Seq<HostEntry>)
    ensures
        entries_sorted(prepared_entries(es)),
    decreases es.len(),
{
    lemma_sort_entries_sorted(kept_entries(es));
}

proof fn lemma_sort_entries_sorted(es: Seq<HostEntry>)
    ensures
        entries_sorted(sort_entries_spec(es)),
    decreases es.len(),
{
    if es.len() != 0 {
        lemma_sort_entries_sorted(es.drop_last());
        lemma_insert_by_name_sorted(sort_entries_spec(es.drop_last()), es.last());
    }
}

/// Filter the directory entries down to hosts and sort them by name.
pub fn prepare_entries(entries: Vec<HostEntry>) -> (r: Vec<HostEntry>)
    ensures
        r@ == prepared_entries(entries@),
{
    let mut rest = entries;
    let ghost all = rest@;
    let mut kept: Vec<HostEntry> = Vec::new();
    let mut taken: usize = 0;
    let total: usize = rest.len();
    while rest.len() > 0
        invariant
            all.len() == total,
            taken + rest.len() == all.len(),
            rest@ =~= all.subrange(taken as int, all.len() as int),
            kept@ =~= kept_entries(all.subrange(0, taken as int)),
        decreases rest.len(),
    {
        let ghost pre_vec = rest@;
        let x = rest.remove(0);
        proof {
            assert(rest@ =~= all.subrange(taken + 1, all.len() as int));
            assert(x == all[taken as int]);
            assert(all.subrange(0, taken + 1).drop_last() =~= all.subrange(0, taken as int));
            assert(all.subrange(0, taken + 1).last() == all[taken as int]);
        }
        let nlen: usize = x.name.as_str().unicode_len();
        let is_host: bool = if nlen == 0 {
            false
        } else if x.name.as_str().get_char(0) == '.' {
            false
        } else {
            !crate::text::str_eq(x.name.as_str(), "tmux.sock")
        };
        proof {
            assert(is_host == keep_entry(all[taken as int]));
        }
        if is_host {
            let ghost pre = kept@;
            kept.push(x);
            proof {
                assert(kept@ =~= pre.push(all[taken as int]));
            }
        }
        taken = taken + 1;
    }
    proof {
        assert(all.subrange(0, all.len() as int) =~= all);
    }
    let mut rest = kept;
    let ghost ks = rest@;
    let mut sorted: Vec<HostEntry> = Vec::new();
    let mut taken: usize = 0;
    let total: usize = rest.len();
    proof {
        assert(ks.subrange(0, 0) =~= Seq::<HostEntry>::empty());
        assert(sorted@ =~= sort_entries_spec(ks.subrange(0, 0)));
    }
    while rest.len() > 0
        invariant
            ks.len() == total,
            taken + rest.len() == ks.len(),
            rest@ =~= ks.subrange(taken as int, ks.len() as int),
            sorted@ =~= sort_entries_spec(ks.subrange(0, taken as int)),
        decreases rest.len(),
    {
        let x = rest.remove(0);
        proof {
            assert(rest@ =~= ks.subrange(taken + 1, ks.len() as int));
            assert(x == ks[taken as int]);
        }
        let mut j: usize = 0;
        while j < sorted.len() && str_lex_le(sorted[j].name.as_str(), x.name.as_str())
            invariant
                0 <= j <= sorted@.len(),
                forall|k: int| 0 <= k < j ==> lex_le((#[trigger] sorted@[k]).name@, x.name@),
            decreases sorted@.len() - j,
        {
            j = j + 1;
        }
        proof {
            lemma_insert_by_name_at(sorted@, x, j as int);
        }
        let ghost pre = sorted@;
        sorted.insert(j, x);
        proof {
            assert(sorted@ =~= pre.subrange(0, j as int) + seq![ks[taken as int]] + pre.subrange(
                j as int,
                pre.len() as int,
            ));
            assert(ks.subrange(0, taken as int).push(ks[taken as int]) =~= ks.subrange(
                0,
                taken + 1,
            ));
            assert(ks.subrange(0, taken + 1).drop_last() =~= ks.subrange(0, taken as int));
            assert(ks.subrange(0, taken + 1).last() == ks[taken as int]);
        }
        taken = taken + 1;
    }
    proof {
        assert(ks.subrange(0, ks.len() as int) =~= ks);
    }
    sorted
}

// ---------------------------------------------------------------------------
// The session
// ---------------------------------------------------------------------------

/// The status a host entry's marker file denotes; an absent or unreadable
/// file counts as pending.
pub open spec fn entry_status(e: HostEntry) -> Status {
    match e.status_file {
        Some(s) => crate::status_of_str(s@),
        None => Status::Pending,
    }
}

/// The host names of the prepared entries.
pub open spec fn entry_names(es: Seq<HostEntry>) -> Seq<Seq<char>> {
    Seq::new(es.len(), |i: int| es[i].name@)
}

/// The normalised outputs of the prepared entries.
pub open spec fn entry_texts(es: Seq<HostEntry>) -> Seq<Seq<char>> {
    Seq::new(es.len(), |i: int| normalize_spec(es[i].raw_output@))
}

/// Whether an old line passes its expansion on to the new line at the same
/// index: the best-effort carry-over across recomputation.
pub open spec fn restore_flag(old_lines: Seq<ConsensusLine>, p: int) -> bool {
    0 <= p < old_lines.len() && is_expanded_differs(old_lines[p])
}

/// The session state of watch mode, owned by one interactive loop.
pub struct WatchApp {
    pub consensus_view: ConsensusView,
    pub hosts: Vec<String>,
    pub statuses: Vec<Status>,
    pub waiting_for_input: Vec<bool>,
    pub last_outputs: Vec<String>,
    pub keep_output: bool,
    pub spinner_frame: usize,
    pub tail_mode: bool,
}

/// The parallel per-host vectors agree in length with the host list.
pub open spec fn app_wf(a: WatchApp) -> bool {
    &&& view_wf(a.consensus_view)
    &&& a.statuses@.len() == a.hosts@.len()
    &&& a.waiting_for_input@.len() == a.hosts@.len()
    &&& a.last_outputs@.len() == a.hosts@.len()
    &&& a.spinner_frame < 10
}

impl WatchApp {
    /// A fresh session; `keep_output` reflects whether the keep marker
    /// already exists on disk.
    pub fn new(keep_output: bool) -> (r: WatchApp)
        ensures
            app_wf(r),
            r.hosts@.len() == 0,
            r.keep_output == keep_output,
            r.spinner_frame == 0,
            r.tail_mode == true,
            r.consensus_view.consensus@.len() == 0,
            r.consensus_view.has_hosts == false,
    {
        WatchApp {
            consensus_view: ConsensusView::new(),
            hosts: Vec::new(),
            statuses: Vec::new(),
            waiting_for_input: Vec::new(),
            last_outputs: Vec::new(),
            keep_output,
            spinner_frame: 0,
            tail_mode: true,
        }
    }

    /// Flip tail mode; entering it jumps to the end.
    pub fn toggle_tail(&mut self)
        requires
            app_wf(*old(self)),
        ensures
            app_wf(*final(self)),
            final(self).tail_mode == !old(self).tail_mode,
            final(self).keep_output == old(self).keep_output,
            final(self).consensus_view.consensus == old(self).consensus_view.consensus,
    {
        self.tail_mode = !self.tail_mode;
        if self.tail_mode {
            self.consensus_view.scroll_to_end();
        }
    }

    /// Flip the keep-output preference; the caller mirrors it on disk.
    pub fn toggle_keep(&mut self)
        requires
            app_wf(*old(self)),
        ensures
            app_wf(*final(self)),
            final(self).keep_output == !old(self).keep_output,
            final(self).consensus_view == old(self).consensus_view,
    {
        self.keep_output = !self.keep_output;
    }

    /// Advance the spinner one frame.
    pub fn spinner_tick(&mut self)
        requires
            app_wf(*old(self)),
        ensures
            app_wf(*final(self)),
            final(self).spinner_frame == (old(self).spinner_frame + 1) % 10,
            final(self).consensus_view == old(self).consensus_view,
    {
        self.spinner_frame = (self.spinner_frame + 1) % 10;
    }

    /// The spinner glyph of the current frame.
    pub fn spinner_char(&self) -> (r: char)
        ensures
            r == spinner_glyph(self.spinner_frame as int),
    {
        match self.spinner_frame % 10 {
            0 => '\u{280b}',
            1 => '\u{2819}',
            2 => '\u{2839}',
            3 => '\u{2838}',
            4 => '\u{283c}',
            5 => '\u{2834}',
            6 => '\u{2826}',
            7 => '\u{2827}',
            8 => '\u{2807}',
            _ => '\u{280f}',
        }
    }
}

/// Are these string vectors equal, character for character?
fn vec_string_eq(a: &Vec<String>, b: &Vec<String>) -> (r: bool)
    ensures
        r == (a.deep_view() == b.deep_view()),
{
    if a.len() != b.len() {
        proof {
            assert(a.deep_view().len() != b.deep_view().len());
        }
        return false;
    }
    let mut i: usize = 0;
    while i < a.len()
        invariant
            0 <= i <= a@.len(),
            a@.len() == b@.len(),
            forall|j: int| 0 <= j < i ==> #[trigger] a.deep_view()[j] == b.deep_view()[j],
        decreases a@.len() - i,
    {
        if !crate::text::str_eq(a[i].as_str(), b[i].as_str()) {
            proof {
                assert(a.deep_view()[i as int] == a@[i as int]@);
                assert(b.deep_view()[i as int] == b@[i as int]@);
            }
            return false;
        }
        proof {
            assert(a.deep_view()[i as int] == a@[i as int]@);
            assert(b.deep_view()[i as int] == b@[i as int]@);
        }
        i = i + 1;
    }
    proof {
        assert(a.deep_view() =~= b.deep_view());
    }
    true
}

/// Re-apply the expansion of old lines to the freshly computed lines at
/// the same indices: correct while positions are stable, approximate when
/// earlier lines appear or vanish.
fn restore_expanded(lines: Vec<ConsensusLine>, old_lines: &Vec<ConsensusLine>) -> (r: Vec<
    ConsensusLine,
>)
    ensures
        r@.len() == lines@.len(),
        forall|p: int|
            0 <= p < r@.len() ==> (if restore_flag(old_lines@, p) {
                forced_line(lines@[p], #[trigger] r@[p], true)
            } else {
                r@[p] == lines@[p]
            }),
{
    let ghost orig = lines@;
    let mut lines = lines;
    let mut p: usize = 0;
    while p < lines.len()
        invariant
            0 <= p <= lines@.len(),
            lines@.len() == orig.len(),
            forall|q: int|
                0 <= q < p ==> (if restore_flag(old_lines@, q) {
                    forced_line(orig[q], #[trigger] lines@[q], true)
                } else {
                    lines@[q] == orig[q]
                }),
            forall|q: int| p <= q < lines@.len() ==> #[trigger] lines@[q] == orig[q],
        decreases lines@.len() - p,
    {
        let was_expanded: bool = if p < old_lines.len() {
            match &old_lines[p] {
                ConsensusLine::Differs { expanded, .. } => *expanded,
                _ => false,
            }
        } else {
            false
        };
        proof {
            assert(was_expanded == restore_flag(old_lines@, p as int));
        }
        if was_expanded {
            let ghost prev = lines@;
            let line = lines.remove(p);
            let new_line = match line {
                ConsensusLine::Identical(c) => ConsensusLine::Identical(c),
                ConsensusLine::Differs { consensus, variants, missing, expanded, expanded_hosts } => {
                    ConsensusLine::Differs {
                        consensus,
                        variants,
                        missing,
                        expanded: true,
                        expanded_hosts,
                    }
                },
            };
            lines.insert(p, new_line);
            proof {
                assert(lines@ =~= prev.update(p as int, new_line));
            }
        }
        p = p + 1;
    }
    lines
}

pub proof fn lemma_kept_entries_len(es: Seq<HostEntry>)
    ensures
        kept_entries(es).len() <= es.len(),
    decreases es.len(),
{
    if es.len() != 0 {
        lemma_kept_entries_len(es.drop_last());
    }
}

/// Did the previous cycle already see exactly these hosts and outputs?
pub open spec fn inputs_unchanged(a: WatchApp, es: Seq<HostEntry>) -> bool {
    a.hosts.deep_view() == entry_names(es) && a.last_outputs.deep_view() == entry_texts(es)
}

impl WatchApp {
    /// One refresh cycle over the records read from the output directory:
    /// filter and sort the host entries, parse their statuses, flag hosts
    /// that look input-bound, normalise outputs, and, only when any
    /// normalised output or the host list changed, recompute the consensus,
    /// carrying each line's expansion over by index and clamping the
    /// cursor.
    #[verifier::rlimit(60)]
    pub fn refresh(&mut self, entries: Vec<HostEntry>)
        requires
            app_wf(*old(self)),
            entries@.len() + 1 < usize::MAX,
        ensures
            app_wf(*final(self)),
            final(self).keep_output == old(self).keep_output,
            final(self).tail_mode == old(self).tail_mode,
            final(self).spinner_frame == old(self).spinner_frame,
            ({
                let es = prepared_entries(entries@);
                &&& final(self).hosts@.len() == es.len()
                &&& forall|i: int|
                    0 <= i < es.len() ==> (#[trigger] final(self).hosts@[i])@ == es[i].name@
                &&& forall|i: int|
                    0 <= i < es.len() ==> final(self).statuses@[i] == entry_status(
                        #[trigger] es[i],
                    )
                &&& forall|i: int|
                    0 <= i < es.len() ==> final(self).waiting_for_input@[i] == (entry_status(
                        #[trigger] es[i],
                    ) is Running && waiting_spec(es[i].raw_output@))
                &&& forall|i: int|
                    0 <= i < es.len() ==> (#[trigger] final(self).last_outputs@[i])@
                        == normalize_spec(es[i].raw_output@)
                &&& (es.len() == 0 ==> final(self).consensus_view.consensus@.len() == 0
                    && !(final(self).consensus_view.has_hosts))
                &&& (es.len() > 0 && inputs_unchanged(*old(self), es)
                    ==> final(self).consensus_view == old(self).consensus_view)
                &&& (es.len() > 0 && !inputs_unchanged(*old(self), es) ==> {
                    &&& final(self).consensus_view.has_hosts
                    &&& final(self).consensus_view.consensus@.len() == max_lines(entry_texts(es))
                    &&& forall|p: int|
                        0 <= p < final(self).consensus_view.consensus@.len()
                            ==> line_matches_with(
                            #[trigger] final(self).consensus_view.consensus@[p],
                            entry_names(es),
                            entry_texts(es),
                            p,
                            restore_flag(old(self).consensus_view.consensus@, p),
                        )
                    &&& final(self).consensus_view.selection == clamp_sel(
                        old(self).consensus_view.selection,
                        final(self).consensus_view.consensus@,
                    )
                })
            }),
    {
        let ghost es = prepared_entries(entries@);
        let prepared = prepare_entries(entries);
        let mut hosts: Vec<String> = Vec::new();
        let mut statuses: Vec<Status> = Vec::new();
        let mut waiting: Vec<bool> = Vec::new();
        let mut cleaned: Vec<String> = Vec::new();
        let mut i: usize = 0;
        while i < prepared.len()
            invariant
                0 <= i <= prepared@.len(),
                prepared@ == es,
                hosts@.len() == i,
                statuses@.len() == i,
                waiting@.len() == i,
                cleaned@.len() == i,
                forall|j: int| 0 <= j < i ==> (#[trigger] hosts@[j])@ == es[j].name@,
                forall|j: int| 0 <= j < i ==> #[trigger] statuses@[j] == entry_status(es[j]),
                forall|j: int|
                    0 <= j < i ==> #[trigger] waiting@[j] == (entry_status(es[j]) is Running
                        && waiting_spec(es[j].raw_output@)),
                forall|j: int|
                    0 <= j < i ==> (#[trigger] cleaned@[j])@ == normalize_spec(es[j].raw_output@),
            decreases prepared@.len() - i,
        {
            let e = &prepared[i];
            hosts.push(e.name.clone());
            let st: Status = match &e.status_file {
                Some(s) => Status::from_str(s.as_str()),
                None => Status::Pending,
            };
            statuses.push(st);
            let w: bool = match st {
                Status::Running => detect_input_prompt(e.raw_output.as_str()),
                _ => false,
            };
            waiting.push(w);
            cleaned.push(clean_terminal_output(e.raw_output.as_str()));
            i = i + 1;
        }
        if hosts.len() == 0 {
            let empty: Vec<ConsensusLine> = Vec::new();
            self.consensus_view.update_consensus(empty, false);
        } else {
            let same = vec_string_eq(&hosts, &self.hosts) && vec_string_eq(
                &cleaned,
                &self.last_outputs,
            );
            proof {
                assert(hosts.deep_view() =~= entry_names(es));
                assert(cleaned.deep_view() =~= entry_texts(es));
                assert(same == inputs_unchanged(*self, es));
            }
            if !same {
                let computed = compute_consensus(&hosts, &cleaned);
                let restored = restore_expanded(computed, &self.consensus_view.consensus);
                proof {
                    lemma_kept_entries_len(entries@);
                    lemma_sort_entries_len(kept_entries(entries@));
                    assert forall|p: int|
                        0 <= p < restored@.len() implies #[trigger] variant_count(restored@[p])
                        < usize::MAX by {
                        let names = hosts.deep_view();
                        let texts = cleaned.deep_view();
                        lemma_groups_upto_len(names, texts, p, names.len() as int);
                        lemma_sort_desc_len(groups_at(names, texts, p));
                        assert(variant_count(restored@[p]) == variant_count(computed@[p]));
                    }
                    assert(lines_sized(restored@));
                }
                let ghost restored_view = restored@;
                self.consensus_view.update_consensus(restored, true);
                proof {
                    assert forall|p: int|
                        0 <= p < self.consensus_view.consensus@.len() implies line_matches_with(
                        #[trigger] self.consensus_view.consensus@[p],
                        entry_names(es),
                        entry_texts(es),
                        p,
                        restore_flag(old(self).consensus_view.consensus@, p),
                    ) by {
                        assert(line_matches(computed@[p], hosts.deep_view(), cleaned.deep_view(), p));
                    }
                }
            }
        }
        self.hosts = hosts;
        self.statuses = statuses;
        self.waiting_for_input = waiting;
        self.last_outputs = cleaned;
    }
}

// ---------------------------------------------------------------------------
// Navigation forwarded to the view
// ---------------------------------------------------------------------------

impl WatchApp {
    /// Scroll up one virtual row; manual scrolling leaves tail mode.
    pub fn scroll_up(&mut self)
        requires
            app_wf(*old(self)),
        ensures
            app_wf(*final(self)),
            final(self).tail_mode == false,
            final(self).consensus_view.consensus == old(self).consensus_view.consensus,
            final(self).consensus_view.selection == crate::selection::scroll_up_sel(
                old(self).consensus_view,
            ),
    {
        self.tail_mode = false;
        self.consensus_view.scroll_up();
    }

    /// Scroll down one virtual row; manual scrolling leaves tail mode.
    pub fn scroll_down(&mut self)
        requires
            app_wf(*old(self)),
        ensures
            app_wf(*final(self)),
            final(self).tail_mode == false,
            final(self).consensus_view.consensus == old(self).consensus_view.consensus,
            final(self).consensus_view.selection == crate::selection::scroll_down_sel(
                old(self).consensus_view,
            ),
    {
        self.tail_mode = false;
        self.consensus_view.scroll_down();
    }

    /// Flip the selected line's expansion.
    pub fn toggle_expand(&mut self)
        requires
            app_wf(*old(self)),
        ensures
            app_wf(*final(self)),
    {
        self.consensus_view.toggle_expand();
    }

    /// Expand the selected line or variant host list.
    pub fn expand_selected(&mut self)
        requires
            app_wf(*old(self)),
        ensures
            app_wf(*final(self)),
    {
        self.consensus_view.expand_selected();
    }

    /// Collapse the selected host list, variant or line.
    pub fn collapse_selected(&mut self)
        requires
            app_wf(*old(self)),
        ensures
            app_wf(*final(self)),
    {
        self.consensus_view.collapse_selected();
    }

    /// Expand every differing line.
    pub fn expand_all(&mut self)
        requires
            app_wf(*old(self)),
        ensures
            app_wf(*final(self)),
    {
        self.consensus_view.expand_all();
    }

    /// Collapse every differing line.
    pub fn collapse_all(&mut self)
        requires
            app_wf(*old(self)),
        ensures
            app_wf(*final(self)),
    {
        self.consensus_view.collapse_all();
    }

    /// Jump to the next differing line, wrapping around.
    pub fn jump_to_next_diff(&mut self)
        requires
            app_wf(*old(self)),
        ensures
            app_wf(*final(self)),
            final(self).consensus_view.consensus == old(self).consensus_view.consensus,
    {
        self.consensus_view.jump_to_next_diff();
    }
}

// ---------------------------------------------------------------------------
// Status bar
// ---------------------------------------------------------------------------

/// What one host's cell in the status bar shows: a pulsing input-waiting
/// indicator with the tmux window number, or a status glyph.
#[derive(Clone, Debug, PartialEq)]
pub enum StatusCell {
    Waiting { window_num: usize, bright: bool },
    Glyph { symbol: char, status: Status },
}

/// The glyph shown for a status: the current spinner frame while running.
pub open spec fn status_symbol(st: Status, spinner: char) -> char {
    match st {
        Status::Running => spinner,
        Status::Success => '\u{2713}',
        Status::Failed => '\u{2717}',
        Status::Pending => '?',
    }
}

/// The status-bar model: the hosts with their cells, and the title flags.
pub struct StatusBar {
    pub cells: Vec<(String, StatusCell)>,
    pub host_count: usize,
    pub tail_mode: bool,
    pub keep_output: bool,
}

impl StatusBar {
    /// Assemble the status-bar model from the session: one cell per host,
    /// input-waiting hosts pulsing with the slow phase of the spinner.
    pub fn new(app: &WatchApp) -> (r: StatusBar)
        requires
            app_wf(*app),
        ensures
            r.host_count == app.hosts@.len(),
            r.tail_mode == app.tail_mode,
            r.keep_output == app.keep_output,
            r.cells@.len() == app.hosts@.len(),
            forall|i: int|
                0 <= i < r.cells@.len() ==> ((#[trigger] r.cells@[i]).0)@ == app.hosts@[i]@,
            forall|i: int|
                0 <= i < r.cells@.len() ==> (#[trigger] r.cells@[i]).1 == (
                if app.waiting_for_input@[i] {
                    StatusCell::Waiting {
                        window_num: (i + 1) as usize,
                        bright: ((app.spinner_frame as int / 5) % 2 == 0),
                    }
                } else {
                    StatusCell::Glyph {
                        symbol: status_symbol(
                            app.statuses@[i],
                            spinner_glyph(app.spinner_frame as int),
                        ),
                        status: app.statuses@[i],
                    }
                }),
    {
        let spinner = app.spinner_char();
        let bright = (app.spinner_frame / 5) % 2 == 0;
        let mut cells: Vec<(String, StatusCell)> = Vec::new();
        let mut i: usize = 0;
        while i < app.hosts.len()
            invariant
                app_wf(*app),
                0 <= i <= app.hosts@.len(),
                spinner == spinner_glyph(app.spinner_frame as int),
                bright == ((app.spinner_frame as int / 5) % 2 == 0),
                cells@.len() == i,
                forall|j: int|
                    0 <= j < i ==> ((#[trigger] cells@[j]).0)@ == app.hosts@[j]@,
                forall|j: int|
                    0 <= j < i ==> (#[trigger] cells@[j]).1 == (if app.waiting_for_input@[j] {
                        StatusCell::Waiting {
                            window_num: (j + 1) as usize,
                            bright: ((app.spinner_frame as int / 5) % 2 == 0),
                        }
                    } else {
                        StatusCell::Glyph {
                            symbol: status_symbol(
                                app.statuses@[j],
                                spinner_glyph(app.spinner_frame as int),
                            ),
                            status: app.statuses@[j],
                        }
                    }),
            decreases app.hosts@.len() - i,
        {
            let cell: StatusCell = if app.waiting_for_input[i] {
                StatusCell::Waiting { window_num: i + 1, bright }
            } else {
                let st = app.statuses[i];
                let symbol: char = match st {
                    Status::Running => spinner,
                    Status::Success => '\u{2713}',
                    Status::Failed => '\u{2717}',
                    Status::Pending => '?',
                };
                StatusCell::Glyph { symbol, status: st }
            };
            cells.push((app.hosts[i].clone(), cell));
            i = i + 1;
        }
        StatusBar {
            cells,
            host_count: app.hosts.len(),
            tail_mode: app.tail_mode,
            keep_output: app.keep_output,
        }
    }

    /// The window title: host count plus the tail and keep flags.
    pub fn title(&self) -> (r: String)
        ensures
            r@ == "Consensus View ("@ + crate::text::dec_str(self.host_count as int)
                + " hosts)"@ + (if self.tail_mode {
                " [TAIL]"@
            } else {
                Seq::<char>::empty()
            }) + (if self.keep_output {
                " [KEEP]"@
            } else {
                Seq::<char>::empty()
            }),
    {
        let open: &str = "Consensus View (";
        let mut r = open.to_owned();
        let count = crate::text::usize_to_string(self.host_count);
        r.append(count.as_str());
        r.append(" hosts)");
        if self.tail_mode {
            r.append(" [TAIL]");
        }
        if self.keep_output {
            r.append(" [KEEP]");
        }
        proof {
            if !self.tail_mode {
                assert(r@ + Seq::<char>::empty() =~= r@);
            }
            if !self.keep_output {
                assert(r@ + Seq::<char>::empty() =~= r@);
            }
        }
        r
    }
}

} // verus!
