//! Output normalisation: strips ANSI/control sequences from one host's raw
//! captured output and emulates carriage-return overwriting within each line,
//! so that outputs can be compared host against host.

use vstd::prelude::*;

use crate::text::{
    alpha_char, ctrl_char, digit_char, find_idx, is_alpha_char, is_ctrl_char, is_digit_char,
    join_lines, join_with_newlines, lemma_find_idx, lemma_find_idx_at, lemma_split_on_clean,
    lemma_split_on_len, line_split, split_char, split_lines, split_on,
};

verus! {

// ---------------------------------------------------------------------------
// Escape-sequence scanning
// ---------------------------------------------------------------------------

/// Characters consumed by a CSI sequence body: everything up to and
/// including the first ASCII letter.
pub open spec fn scan_alpha(t: Seq<char>) -> int
    decreases t.len(),
{
    if t.len() == 0 {
        0
    } else if is_alpha_char(t[0]) {
        1
    } else {
        1 + scan_alpha(t.skip(1))
    }
}

/// Characters consumed by an OSC sequence body: up to and including BEL or
/// an 8-bit string terminator, or an ESC (with a following backslash, if
/// present); everything if no terminator occurs.
pub open spec fn osc_scan(t: Seq<char>) -> int
    decreases t.len(),
{
    if t.len() == 0 {
        0
    } else if t[0] == '\u{7}' || t[0] == '\u{9c}' {
        1
    } else if t[0] == '\u{1b}' {
        if t.len() >= 2 && t[1] == '\\' {
            2
        } else {
            1
        }
    } else {
        1 + osc_scan(t.skip(1))
    }
}

/// Characters consumed by a DCS sequence body: as OSC, but BEL does not
/// terminate.
pub open spec fn dcs_scan(t: Seq<char>) -> int
    decreases t.len(),
{
    if t.len() == 0 {
        0
    } else if t[0] == '\u{9c}' {
        1
    } else if t[0] == '\u{1b}' {
        if t.len() >= 2 && t[1] == '\\' {
            2
        } else {
            1
        }
    } else {
        1 + dcs_scan(t.skip(1))
    }
}

/// Characters consumed after a bare `]` followed by a digit: up to and
/// including BEL or a string terminator or an ESC pair, but stopping just
/// before a space or newline.
pub open spec fn bare_scan(t: Seq<char>) -> int
    decreases t.len(),
{
    if t.len() == 0 {
        0
    } else if t[0] == '\u{7}' || t[0] == '\u{9c}' {
        1
    } else if t[0] == ' ' || t[0] == '\n' {
        0
    } else if t[0] == '\u{1b}' {
        if t.len() >= 2 && t[1] == '\\' {
            2
        } else {
            1
        }
    } else {
        1 + bare_scan(t.skip(1))
    }
}

pub proof fn lemma_scan_bounds(t: Seq<char>)
    ensures
        0 <= scan_alpha(t) <= t.len(),
        0 <= osc_scan(t) <= t.len(),
        0 <= dcs_scan(t) <= t.len(),
        0 <= bare_scan(t) <= t.len(),
    decreases t.len(),
{
    if t.len() != 0 {
        lemma_scan_bounds(t.skip(1));
    }
}

// ---------------------------------------------------------------------------
// Stripping
// ---------------------------------------------------------------------------

/// One line with its ANSI escape sequences and control characters removed.
/// Tabs and carriage returns survive; carriage returns are handled by the
/// overwrite emulation that runs afterwards.
pub open spec fn strip_rest(s: Seq<char>) -> Seq<char>
    decreases s.len(),
    via strip_rest_decreases
{
    if s.len() == 0 {
        Seq::empty()
    } else {
        let c = s[0];
        if c == '\u{1b}' {
            if s.len() == 1 {
                Seq::empty()
            } else if s[1] == '[' {
                strip_rest(s.skip(2 + scan_alpha(s.skip(2))))
            } else if s[1] == ']' {
                strip_rest(s.skip(2 + osc_scan(s.skip(2))))
            } else if s[1] == 'P' {
                strip_rest(s.skip(2 + dcs_scan(s.skip(2))))
            } else {
                strip_rest(s.skip(2))
            }
        } else if c == '\u{9d}' {
            strip_rest(s.skip(1 + osc_scan(s.skip(1))))
        } else if c == ']' && s.len() >= 2 && is_digit_char(s[1]) {
            strip_rest(s.skip(1 + bare_scan(s.skip(1))))
        } else if is_ctrl_char(c) && c != '\t' && c != '\r' {
            strip_rest(s.skip(1))
        } else {
            seq![c] + strip_rest(s.skip(1))
        }
    }
}

#[via_fn]
proof fn strip_rest_decreases(s: Seq<char>) {
    if s.len() >= 2 {
        lemma_scan_bounds(s.skip(2));
    }
    if s.len() >= 1 {
        lemma_scan_bounds(s.skip(1));
    }
}

// ---------------------------------------------------------------------------
// Carriage-return overwrite
// ---------------------------------------------------------------------------

/// One overwrite step: a non-empty segment replaces the accumulated text
/// from column zero, keeping whatever tail it does not cover.
pub open spec fn cr_merge(acc: Seq<char>, seg: Seq<char>) -> Seq<char> {
    if seg.len() == 0 {
        acc
    } else if seg.len() >= acc.len() {
        seg
    } else {
        seg + acc.skip(seg.len() as int)
    }
}

/// Overwrite steps folded over all segments, left to right.
pub open spec fn cr_fold(segs: Seq<Seq<char>>) -> Seq<char>
    decreases segs.len(),
{
    if segs.len() == 0 {
        Seq::empty()
    } else {
        cr_merge(cr_fold(segs.drop_last()), segs.last())
    }
}

/// Carriage-return emulation over one line: split on `'\r'` and fold.
pub open spec fn cr_line(s: Seq<char>) -> Seq<char> {
    cr_fold(split_on(s, '\r'))
}

/// A fully normalised line.
pub open spec fn norm_line(s: Seq<char>) -> Seq<char> {
    cr_line(strip_rest(s))
}

pub open spec fn norm_lines(ls: Seq<Seq<char>>) -> Seq<Seq<char>> {
    ls.map_values(|l: Seq<char>| norm_line(l))
}

/// The whole normalised text: each line cleaned, lines re-joined with
/// newlines.
pub open spec fn normalize_spec(s: Seq<char>) -> Seq<char> {
    join_lines(norm_lines(line_split(s)))
}

// ---------------------------------------------------------------------------
// Exec scanning helpers
// ---------------------------------------------------------------------------

fn scan_alpha_exec(s: &str, from: usize) -> (j: usize)
    requires
        from <= s@.len(),
    ensures
        from <= j <= s@.len(),
        j == from + scan_alpha(s@.skip(from as int)),
{
    let n: usize = s.unicode_len();
    let mut j: usize = from;
    while j < n
        invariant
            from <= j <= n,
            n == s@.len(),
            scan_alpha(s@.skip(from as int)) == (j - from) + scan_alpha(s@.skip(j as int)),
        decreases n - j,
    {
        let c = s.get_char(j);
        proof {
            assert(s@.skip(j as int)[0] == s@[j as int]);
            assert(s@.skip(j as int).skip(1) =~= s@.skip(j + 1));
        }
        if alpha_char(c) {
            return j + 1;
        }
        j = j + 1;
    }
    proof {
        assert(s@.skip(n as int) =~= Seq::<char>::empty());
    }
    j
}

fn osc_scan_exec(s: &str, from: usize) -> (j: usize)
    requires
        from <= s@.len(),
    ensures
        from <= j <= s@.len(),
        j == from + osc_scan(s@.skip(from as int)),
{
    let n: usize = s.unicode_len();
    let mut j: usize = from;
    while j < n
        invariant
            from <= j <= n,
            n == s@.len(),
            osc_scan(s@.skip(from as int)) == (j - from) + osc_scan(s@.skip(j as int)),
        decreases n - j,
    {
        let c = s.get_char(j);
        proof {
            assert(s@.skip(j as int)[0] == s@[j as int]);
            assert(s@.skip(j as int).skip(1) =~= s@.skip(j + 1));
            if j + 1 < n {
                assert(s@.skip(j as int)[1] == s@[j + 1]);
            }
        }
        if c == '\u{7}' || c == '\u{9c}' {
            return j + 1;
        }
        if c == '\u{1b}' {
            if j + 1 < n && s.get_char(j + 1) == '\\' {
                return j + 2;
            }
            proof {
                if !(j + 1 < n) {
                    assert(s@.skip(j as int).len() == 1);
                }
            }
            return j + 1;
        }
        j = j + 1;
    }
    proof {
        assert(s@.skip(n as int) =~= Seq::<char>::empty());
    }
    j
}

fn dcs_scan_exec(s: &str, from: usize) -> (j: usize)
    requires
        from <= s@.len(),
    ensures
        from <= j <= s@.len(),
        j == from + dcs_scan(s@.skip(from as int)),
{
    let n: usize = s.unicode_len();
    let mut j: usize = from;
    while j < n
        invariant
            from <= j <= n,
            n == s@.len(),
            dcs_scan(s@.skip(from as int)) == (j - from) + dcs_scan(s@.skip(j as int)),
        decreases n - j,
    {
        let c = s.get_char(j);
        proof {
            assert(s@.skip(j as int)[0] == s@[j as int]);
            assert(s@.skip(j as int).skip(1) =~= s@.skip(j + 1));
            if j + 1 < n {
                assert(s@.skip(j as int)[1] == s@[j + 1]);
            }
        }
        if c == '\u{9c}' {
            return j + 1;
        }
        if c == '\u{1b}' {
            if j + 1 < n && s.get_char(j + 1) == '\\' {
                return j + 2;
            }
            proof {
                if !(j + 1 < n) {
                    assert(s@.skip(j as int).len() == 1);
                }
            }
            return j + 1;
        }
        j = j + 1;
    }
    proof {
        assert(s@.skip(n as int) =~= Seq::<char>::empty());
    }
    j
}

fn bare_scan_exec(s: &str, from: usize) -> (j: usize)
    requires
        from <= s@.len(),
    ensures
        from <= j <= s@.len(),
        j == from + bare_scan(s@.skip(from as int)),
{
    let n: usize = s.unicode_len();
    let mut j: usize = from;
    while j < n
        invariant
            from <= j <= n,
            n == s@.len(),
            bare_scan(s@.skip(from as int)) == (j - from) + bare_scan(s@.skip(j as int)),
        decreases n - j,
    {
        let c = s.get_char(j);
        proof {
            assert(s@.skip(j as int)[0] == s@[j as int]);
            assert(s@.skip(j as int).skip(1) =~= s@.skip(j + 1));
            if j + 1 < n {
                assert(s@.skip(j as int)[1] == s@[j + 1]);
            }
        }
        if c == '\u{7}' || c == '\u{9c}' {
            return j + 1;
        }
        if c == ' ' || c == '\n' {
            return j;
        }
        if c == '\u{1b}' {
            if j + 1 < n && s.get_char(j + 1) == '\\' {
                return j + 2;
            }
            proof {
                if !(j + 1 < n) {
                    assert(s@.skip(j as int).len() == 1);
                }
            }
            return j + 1;
        }
        j = j + 1;
    }
    proof {
        assert(s@.skip(n as int) =~= Seq::<char>::empty());
    }
    j
}

// ---------------------------------------------------------------------------
// Exec stripping
// ---------------------------------------------------------------------------

/// Strip ANSI escape sequences and control characters from one line,
/// keeping tabs and carriage returns.  A sequence truncated at the end of
/// the input is consumed to the end without failing.
pub fn strip_ansi_and_control(s: &str) -> (r: String)
    ensures
        r@ == strip_rest(s@),
{
    let n: usize = s.unicode_len();
    let mut out = String::new();
    let mut i: usize = 0;
    proof {
        assert(s@.skip(0) =~= s@);
        assert(out@ + strip_rest(s@) =~= strip_rest(s@));
    }
    while i < n
        invariant
            0 <= i <= n,
            n == s@.len(),
            strip_rest(s@) == out@ + strip_rest(s@.skip(i as int)),
        decreases n - i,
    {
        let ghost tail = s@.skip(i as int);
        proof {
            assert(tail[0] == s@[i as int]);
            if i + 1 < n {
                assert(tail[1] == s@[i + 1]);
            }
        }
        let c = s.get_char(i);
        if c == '\u{1b}' {
            if i + 1 >= n {
                proof {
                    assert(tail.len() == 1);
                    assert(strip_rest(tail) =~= Seq::<char>::empty());
                    assert(s@.skip(n as int) =~= Seq::<char>::empty());
                    assert(out@ + Seq::<char>::empty() =~= out@);
                }
                i = n;
            } else {
                let c2 = s.get_char(i + 1);
                let next: usize = if c2 == '[' {
                    scan_alpha_exec(s, i + 2)
                } else if c2 == ']' {
                    osc_scan_exec(s, i + 2)
                } else if c2 == 'P' {
                    dcs_scan_exec(s, i + 2)
                } else {
                    i + 2
                };
                proof {
                    lemma_scan_bounds(s@.skip(i + 2));
                    assert(tail.skip(2) =~= s@.skip(i + 2));
                    assert(tail.skip(2 + scan_alpha(s@.skip(i + 2))) =~= s@.skip(
                        i + 2 + scan_alpha(s@.skip(i + 2)),
                    ));
                    assert(tail.skip(2 + osc_scan(s@.skip(i + 2))) =~= s@.skip(
                        i + 2 + osc_scan(s@.skip(i + 2)),
                    ));
                    assert(tail.skip(2 + dcs_scan(s@.skip(i + 2))) =~= s@.skip(
                        i + 2 + dcs_scan(s@.skip(i + 2)),
                    ));
                }
                i = next;
            }
        } else if c == '\u{9d}' {
            let next = osc_scan_exec(s, i + 1);
            proof {
                assert(tail.skip(1) =~= s@.skip(i + 1));
                assert(tail.skip(1 + osc_scan(s@.skip(i + 1))) =~= s@.skip(
                    i + 1 + osc_scan(s@.skip(i + 1)),
                ));
            }
            i = next;
        } else if c == ']' && i + 1 < n && digit_char(s.get_char(i + 1)) {
            let next = bare_scan_exec(s, i + 1);
            proof {
                assert(tail.skip(1) =~= s@.skip(i + 1));
                assert(tail.skip(1 + bare_scan(s@.skip(i + 1))) =~= s@.skip(
                    i + 1 + bare_scan(s@.skip(i + 1)),
                ));
            }
            i = next;
        } else if ctrl_char(c) && c != '\t' && c != '\r' {
            proof {
                assert(tail.skip(1) =~= s@.skip(i + 1));
            }
            i = i + 1;
        } else {
            proof {
                assert(tail.skip(1) =~= s@.skip(i + 1));
                assert(!(c == ']' && tail.len() >= 2 && is_digit_char(tail[1])));
            }
            let ghost preout = out@;
            out.push(c);
            proof {
                assert(preout + (seq![c] + strip_rest(s@.skip(i + 1))) =~= out@ + strip_rest(
                    s@.skip(i + 1),
                ));
            }
            i = i + 1;
        }
    }
    proof {
        assert(s@.skip(n as int) =~= Seq::<char>::empty());
        assert(out@ + Seq::<char>::empty() =~= out@);
    }
    out
}

// ---------------------------------------------------------------------------
// Exec carriage-return emulation
// ---------------------------------------------------------------------------

fn cr_merge_exec(acc: String, seg: &str) -> (r: String)
    ensures
        r@ == cr_merge(acc@, seg@),
{
    let la: usize = acc.as_str().unicode_len();
    let ls: usize = seg.unicode_len();
    if ls == 0 {
        acc
    } else if ls >= la {
        seg.to_owned()
    } else {
        let mut r = seg.to_owned();
        let remainder = acc.as_str().substring_char(ls, la);
        r.append(remainder);
        r
    }
}

/// Carriage-return emulation for one escape-stripped line.
pub fn cr_process(s: &str) -> (r: String)
    ensures
        r@ == cr_line(s@),
{
    let segs = split_char(s, '\r');
    let mut acc = String::new();
    let mut i: usize = 0;
    proof {
        assert(segs.deep_view().subrange(0, 0) =~= Seq::<Seq<char>>::empty());
    }
    while i < segs.len()
        invariant
            0 <= i <= segs.len(),
            segs.deep_view().len() == segs.len(),
            segs.deep_view() == split_on(s@, '\r'),
            acc@ == cr_fold(segs.deep_view().subrange(0, i as int)),
        decreases segs.len() - i,
    {
        acc = cr_merge_exec(acc, segs[i].as_str());
        proof {
            let cur = segs.deep_view().subrange(0, i + 1);
            assert(cur.drop_last() =~= segs.deep_view().subrange(0, i as int));
            assert(cur.last() == segs.deep_view()[i as int]);
        }
        i = i + 1;
    }
    proof {
        assert(segs.deep_view().subrange(0, segs.len() as int) =~= segs.deep_view());
    }
    acc
}

// ---------------------------------------------------------------------------
// Whole-text normalisation
// ---------------------------------------------------------------------------

/// Clean one host's raw captured output: line by line, strip escape and
/// control sequences, then apply carriage-return overwrite emulation.
pub fn clean_terminal_output(raw: &str) -> (r: String)
    ensures
        r@ == normalize_spec(raw@),
{
    let lines = split_lines(raw);
    let mut cleaned: Vec<String> = Vec::new();
    let mut i: usize = 0;
    while i < lines.len()
        invariant
            0 <= i <= lines.len(),
            lines.deep_view().len() == lines.len(),
            lines.deep_view() == line_split(raw@),
            cleaned.deep_view() =~= norm_lines(lines.deep_view()).subrange(0, i as int),
        decreases lines.len() - i,
    {
        let stripped = strip_ansi_and_control(lines[i].as_str());
        let merged = cr_process(stripped.as_str());
        let ghost pre = cleaned.deep_view();
        cleaned.push(merged);
        proof {
            assert(cleaned.deep_view() =~= pre.push(merged@));
            assert(cleaned.deep_view() =~= norm_lines(lines.deep_view()).subrange(0, i + 1));
        }
        i = i + 1;
    }
    proof {
        assert(norm_lines(lines.deep_view()).subrange(0, lines.len() as int) =~= norm_lines(
            lines.deep_view(),
        ));
    }
    join_with_newlines(&cleaned)
}

// ---------------------------------------------------------------------------
// Idempotence of normalisation
// ---------------------------------------------------------------------------

/// Every character of `s` satisfies `p`.
pub open spec fn holds_on_all(s: Seq<char>, p: spec_fn(char) -> bool) -> bool {
    forall|i: int| 0 <= i < s.len() ==> p(#[trigger] s[i])
}

/// Every adjacent pair of characters of `s` satisfies `pp`.
pub open spec fn pairs_ok(s: Seq<char>, pp: spec_fn(char, char) -> bool) -> bool {
    forall|i: int| 0 <= i < s.len() - 1 ==> pp(#[trigger] s[i], s[i + 1])
}

/// Characters that survive stripping: printable, tab, or carriage return.
pub open spec fn keepable_char(c: char) -> bool {
    !is_ctrl_char(c) || c == '\t' || c == '\r'
}

/// All characters of `s` are keepable.
pub open spec fn all_keepable(s: Seq<char>) -> bool {
    forall|i: int| 0 <= i < s.len() ==> keepable_char(#[trigger] s[i])
}

/// No `]` immediately followed by a digit, the one sequence the stripper
/// would re-interpret on a second pass.
pub open spec fn no_bare_hazard(s: Seq<char>) -> bool {
    forall|i: int|
        0 <= i < s.len() - 1 ==> !((#[trigger] s[i]) == ']' && is_digit_char(s[i + 1]))
}

proof fn lemma_split_on_all(s: Seq<char>, sep: char, p: spec_fn(char) -> bool)
    requires
        holds_on_all(s, p),
    ensures
        forall|k: int|
            0 <= k < split_on(s, sep).len() ==> holds_on_all(#[trigger] split_on(s, sep)[k], p),
    decreases s.len(),
{
    lemma_find_idx(s, sep);
    let i = find_idx(s, sep);
    if i < s.len() {
        let tail = s.subrange(i + 1, s.len() as int);
        assert(holds_on_all(tail, p)) by {
            assert forall|j: int| 0 <= j < tail.len() implies p(#[trigger] tail[j]) by {
                assert(tail[j] == s[i + 1 + j]);
            }
        }
        lemma_split_on_all(tail, sep, p);
        let head = s.subrange(0, i);
        assert(holds_on_all(head, p)) by {
            assert forall|j: int| 0 <= j < head.len() implies p(#[trigger] head[j]) by {
                assert(head[j] == s[j]);
            }
        }
        assert forall|k: int|
            0 <= k < split_on(s, sep).len() implies holds_on_all(
            #[trigger] split_on(s, sep)[k],
            p,
        ) by {
            if k > 0 {
                assert(split_on(s, sep)[k] == split_on(tail, sep)[k - 1]);
            }
        }
    }
}

proof fn lemma_split_on_pairs(s: Seq<char>, sep: char, pp: spec_fn(char, char) -> bool)
    requires
        pairs_ok(s, pp),
    ensures
        forall|k: int|
            0 <= k < split_on(s, sep).len() ==> pairs_ok(#[trigger] split_on(s, sep)[k], pp),
    decreases s.len(),
{
    lemma_find_idx(s, sep);
    let i = find_idx(s, sep);
    if i < s.len() {
        let tail = s.subrange(i + 1, s.len() as int);
        assert(pairs_ok(tail, pp)) by {
            assert forall|j: int| 0 <= j < tail.len() - 1 implies pp(
                #[trigger] tail[j],
                tail[j + 1],
            ) by {
                assert(tail[j] == s[i + 1 + j]);
                assert(tail[j + 1] == s[i + 1 + j + 1]);
            }
        }
        lemma_split_on_pairs(tail, sep, pp);
        let head = s.subrange(0, i);
        assert(pairs_ok(head, pp)) by {
            assert forall|j: int| 0 <= j < head.len() - 1 implies pp(
                #[trigger] head[j],
                head[j + 1],
            ) by {
                assert(head[j] == s[j]);
                assert(head[j + 1] == s[j + 1]);
            }
        }
        assert forall|k: int| 0 <= k < split_on(s, sep).len() implies pairs_ok(
            #[trigger] split_on(s, sep)[k],
            pp,
        ) by {
            if k > 0 {
                assert(split_on(s, sep)[k] == split_on(tail, sep)[k - 1]);
            }
        }
    }
}

/// Whatever stripping emits was present in the input, and is keepable.
proof fn lemma_strip_chars(s: Seq<char>, p: spec_fn(char) -> bool)
    requires
        holds_on_all(s, p),
    ensures
        holds_on_all(strip_rest(s), p),
    decreases s.len(),
{
    if s.len() != 0 {
        lemma_scan_bounds(s.skip(1));
        if s.len() >= 2 {
            lemma_scan_bounds(s.skip(2));
        }
        let c = s[0];
        let k: int = if c == '\u{1b}' {
            if s.len() == 1 {
                s.len() as int
            } else if s[1] == '[' {
                2 + scan_alpha(s.skip(2))
            } else if s[1] == ']' {
                2 + osc_scan(s.skip(2))
            } else if s[1] == 'P' {
                2 + dcs_scan(s.skip(2))
            } else {
                2
            }
        } else if c == '\u{9d}' {
            1 + osc_scan(s.skip(1))
        } else if c == ']' && s.len() >= 2 && is_digit_char(s[1]) {
            1 + bare_scan(s.skip(1))
        } else {
            1
        };
        assert(1 <= k <= s.len());
        let tail = s.skip(k);
        assert(holds_on_all(tail, p)) by {
            assert forall|j: int| 0 <= j < tail.len() implies p(#[trigger] tail[j]) by {
                assert(tail[j] == s[k + j]);
            }
        }
        lemma_strip_chars(tail, p);
        if !(c == '\u{1b}') && !(c == '\u{9d}') && !(c == ']' && s.len() >= 2 && is_digit_char(
            s[1],
        )) && !(is_ctrl_char(c) && c != '\t' && c != '\r') {
            assert(strip_rest(s) == seq![c] + strip_rest(s.skip(1)));
            assert forall|j: int| 0 <= j < strip_rest(s).len() implies p(
                #[trigger] strip_rest(s)[j],
            ) by {
                if j > 0 {
                    assert(strip_rest(s)[j] == strip_rest(s.skip(1))[j - 1]);
                }
            }
        }
    }
}

/// Stripping emits only keepable characters.
proof fn lemma_strip_keepable(s: Seq<char>)
    ensures
        all_keepable(strip_rest(s)),
    decreases s.len(),
{
    if s.len() != 0 {
        lemma_scan_bounds(s.skip(1));
        if s.len() >= 2 {
            lemma_scan_bounds(s.skip(2));
        }
        let c = s[0];
        if c == '\u{1b}' {
            if s.len() == 1 {
            } else if s[1] == '[' {
                lemma_strip_keepable(s.skip(2 + scan_alpha(s.skip(2))));
            } else if s[1] == ']' {
                lemma_strip_keepable(s.skip(2 + osc_scan(s.skip(2))));
            } else if s[1] == 'P' {
                lemma_strip_keepable(s.skip(2 + dcs_scan(s.skip(2))));
            } else {
                lemma_strip_keepable(s.skip(2));
            }
        } else if c == '\u{9d}' {
            lemma_strip_keepable(s.skip(1 + osc_scan(s.skip(1))));
        } else if c == ']' && s.len() >= 2 && is_digit_char(s[1]) {
            lemma_strip_keepable(s.skip(1 + bare_scan(s.skip(1))));
        } else if is_ctrl_char(c) && c != '\t' && c != '\r' {
            lemma_strip_keepable(s.skip(1));
        } else {
            lemma_strip_keepable(s.skip(1));
            assert forall|j: int| 0 <= j < strip_rest(s).len() implies keepable_char(
                #[trigger] strip_rest(s)[j],
            ) by {
                if j > 0 {
                    assert(strip_rest(s)[j] == strip_rest(s.skip(1))[j - 1]);
                }
            }
        }
    }
}

proof fn lemma_cr_merge_all(acc: Seq<char>, seg: Seq<char>, p: spec_fn(char) -> bool)
    requires
        holds_on_all(acc, p),
        holds_on_all(seg, p),
    ensures
        holds_on_all(cr_merge(acc, seg), p),
{
    if seg.len() != 0 && seg.len() < acc.len() {
        let r = seg + acc.skip(seg.len() as int);
        assert forall|j: int| 0 <= j < r.len() implies p(#[trigger] r[j]) by {
            if j >= seg.len() {
                assert(r[j] == acc[j]);
            }
        }
    }
}

proof fn lemma_cr_fold_all(segs: Seq<Seq<char>>, p: spec_fn(char) -> bool)
    requires
        forall|k: int| 0 <= k < segs.len() ==> holds_on_all(#[trigger] segs[k], p),
    ensures
        holds_on_all(cr_fold(segs), p),
    decreases segs.len(),
{
    if segs.len() != 0 {
        lemma_cr_fold_all(segs.drop_last(), p);
        lemma_cr_merge_all(cr_fold(segs.drop_last()), segs.last(), p);
    }
}

/// Characters of a carriage-return-processed line all satisfy `p` if the
/// characters of the input did; and none of them is a carriage return.
proof fn lemma_cr_line_chars(s: Seq<char>, p: spec_fn(char) -> bool)
    requires
        holds_on_all(s, p),
    ensures
        holds_on_all(cr_line(s), p),
        holds_on_all(cr_line(s), |c: char| c != '\r'),
{
    lemma_split_on_all(s, '\r', p);
    lemma_cr_fold_all(split_on(s, '\r'), p);
    let pnc = |c: char| c != '\r';
    lemma_split_on_clean(s, '\r');
    assert forall|k: int| 0 <= k < split_on(s, '\r').len() implies holds_on_all(
        #[trigger] split_on(s, '\r')[k],
        pnc,
    ) by {
        assert forall|j: int| 0 <= j < split_on(s, '\r')[k].len() implies pnc(
            #[trigger] split_on(s, '\r')[k][j],
        ) by {
            assert(split_on(s, '\r')[k][j] != '\r');
        }
    }
    lemma_cr_fold_all(split_on(s, '\r'), pnc);
}

/// Stripping leaves a clean, hazard-free line unchanged.
proof fn lemma_strip_identity(s: Seq<char>)
    requires
        forall|i: int| 0 <= i < s.len() ==> (!is_ctrl_char(#[trigger] s[i]) || s[i] == '\t'),
        no_bare_hazard(s),
    ensures
        strip_rest(s) == s,
    decreases s.len(),
{
    if s.len() != 0 {
        let c = s[0];
        assert(!is_ctrl_char(c) || c == '\t');
        assert(!(c == '\u{1b}'));
        assert(!(c == '\u{9d}'));
        if c == ']' && s.len() >= 2 {
            assert(!is_digit_char(s[1]));
        }
        let tail = s.skip(1);
        assert forall|i: int| 0 <= i < tail.len() implies (!is_ctrl_char(#[trigger] tail[i])
            || tail[i] == '\t') by {
            assert(tail[i] == s[i + 1]);
        }
        assert forall|i: int| 0 <= i < tail.len() - 1 implies !((#[trigger] tail[i]) == ']'
            && is_digit_char(tail[i + 1])) by {
            assert(tail[i] == s[i + 1]);
            assert(tail[i + 1] == s[i + 2]);
        }
        lemma_strip_identity(tail);
        assert(seq![c] + tail =~= s);
    } else {
        assert(strip_rest(s) =~= s);
    }
}

/// Carriage-return emulation leaves a line without carriage returns
/// unchanged.
proof fn lemma_cr_identity(s: Seq<char>)
    requires
        forall|i: int| 0 <= i < s.len() ==> (#[trigger] s[i]) != '\r',
    ensures
        cr_line(s) == s,
{
    lemma_find_idx_at(s, '\r', s.len() as int);
    assert(split_on(s, '\r') == seq![s]);
    assert(seq![s].drop_last() =~= Seq::<Seq<char>>::empty());
    assert(cr_fold(seq![s]) == cr_merge(cr_fold(Seq::<Seq<char>>::empty()), s));
    if s.len() == 0 {
        assert(cr_merge(Seq::<char>::empty(), s) == s);
    }
}

/// `join_lines` over a cons.
proof fn lemma_join_cons(a: Seq<char>, ls: Seq<Seq<char>>)
    ensures
        ls.len() == 0 ==> join_lines(seq![a] + ls) == a,
        ls.len() > 0 ==> join_lines(seq![a] + ls) == a + seq!['\n'] + join_lines(ls),
    decreases ls.len(),
{
    let whole = seq![a] + ls;
    if ls.len() == 0 {
        assert(whole =~= seq![a]);
    } else {
        assert(whole.len() >= 2);
        assert(whole.drop_last() =~= seq![a] + ls.drop_last());
        assert(whole.last() == ls.last());
        lemma_join_cons(a, ls.drop_last());
        if ls.len() == 1 {
            assert(ls.drop_last().len() == 0);
            assert(join_lines(whole) == a + seq!['\n'] + ls.last());
            assert(join_lines(ls) == ls[0]);
            assert(ls.last() == ls[0]);
        } else {
            assert(join_lines(whole) == (a + seq!['\n'] + join_lines(ls.drop_last())) + seq!['\n']
                + ls.last());
            assert(join_lines(ls) == join_lines(ls.drop_last()) + seq!['\n'] + ls.last());
            assert((a + seq!['\n'] + join_lines(ls.drop_last())) + seq!['\n'] + ls.last() =~= a
                + seq!['\n'] + (join_lines(ls.drop_last()) + seq!['\n'] + ls.last()));
        }
    }
}

/// Joining the newline-split segments restores the text.
proof fn lemma_join_split(s: Seq<char>)
    ensures
        join_lines(split_on(s, '\n')) == s,
    decreases s.len(),
{
    lemma_find_idx(s, '\n');
    let i = find_idx(s, '\n');
    if i == s.len() {
        assert(split_on(s, '\n') == seq![s]);
        assert(join_lines(seq![s]) == s);
    } else {
        let head = s.subrange(0, i);
        let tail = s.subrange(i + 1, s.len() as int);
        lemma_join_split(tail);
        lemma_split_on_len(tail, '\n');
        lemma_join_cons(head, split_on(tail, '\n'));
        assert(join_lines(split_on(s, '\n')) == head + seq!['\n'] + tail);
        assert(head + seq!['\n'] + tail =~= s);
    }
}

/// Splitting into lines and joining again restores any text that does not
/// end in a newline.
proof fn lemma_line_roundtrip(t: Seq<char>)
    requires
        t.len() == 0 || t.last() != '\n',
    ensures
        join_lines(line_split(t)) == t,
{
    if t.len() != 0 {
        lemma_join_split(t);
    }
}

/// Text that is already clean is a fixed point of normalisation: only
/// printable characters, tabs and newlines, no `]`-digit pair, and no
/// trailing newline.
pub proof fn lemma_normalize_fixpoint(t: Seq<char>)
    requires
        forall|i: int|
            0 <= i < t.len() ==> (!is_ctrl_char(#[trigger] t[i]) || t[i] == '\t' || t[i] == '\n'),
        no_bare_hazard(t),
        t.len() == 0 || t.last() != '\n',
    ensures
        normalize_spec(t) == t,
{
    let ls = line_split(t);
    if t.len() == 0 {
        assert(ls =~= Seq::<Seq<char>>::empty());
        assert(norm_lines(ls) =~= Seq::<Seq<char>>::empty());
    } else {
        let p = |c: char| !is_ctrl_char(c) || c == '\t' || c == '\n';
        assert(holds_on_all(t, p));
        lemma_split_on_all(t, '\n', p);
        lemma_split_on_clean(t, '\n');
        let pp = |a: char, b: char| !(a == ']' && is_digit_char(b));
        assert(pairs_ok(t, pp));
        lemma_split_on_pairs(t, '\n', pp);
        assert(ls == split_on(t, '\n'));
        assert forall|k: int| 0 <= k < ls.len() implies #[trigger] norm_lines(ls)[k] == ls[k] by {
            let l = ls[k];
            assert(holds_on_all(l, p));
            assert(pairs_ok(l, pp));
            assert forall|i: int| 0 <= i < l.len() implies (!is_ctrl_char(#[trigger] l[i])
                || l[i] == '\t') by {
                assert(p(l[i]));
                assert(l[i] != '\n');
            }
            assert forall|i: int| 0 <= i < l.len() - 1 implies !((#[trigger] l[i]) == ']'
                && is_digit_char(l[i + 1])) by {
                assert(pp(l[i], l[i + 1]));
            }
            lemma_strip_identity(l);
            assert forall|i: int| 0 <= i < l.len() implies (#[trigger] l[i]) != '\r' by {
                assert(p(l[i]));
            }
            lemma_cr_identity(l);
        }
        assert(norm_lines(ls) =~= ls);
    }
    lemma_line_roundtrip(t);
}

/// Normalised output holds only printable characters, tabs and newlines.
pub proof fn lemma_normalize_clean(s: Seq<char>)
    ensures
        forall|i: int|
            0 <= i < normalize_spec(s).len() ==> (!is_ctrl_char(#[trigger] normalize_spec(s)[i])
                || normalize_spec(s)[i] == '\t' || normalize_spec(s)[i] == '\n'),
{
    let p = |c: char| !is_ctrl_char(c) || c == '\t' || c == '\n';
    let ls = line_split(s);
    let ns = norm_lines(ls);
    assert forall|k: int| 0 <= k < ns.len() implies holds_on_all(#[trigger] ns[k], p) by {
        let l = ls[k];
        lemma_strip_keepable(l);
        let pk = |c: char| keepable_char(c);
        assert(holds_on_all(strip_rest(l), pk)) by {
            assert forall|j: int| 0 <= j < strip_rest(l).len() implies pk(
                #[trigger] strip_rest(l)[j],
            ) by {
                assert(keepable_char(strip_rest(l)[j]));
            }
        }
        lemma_cr_line_chars(strip_rest(l), pk);
        let pnc = |c: char| c != '\r';
        assert(holds_on_all(cr_line(strip_rest(l)), pnc));
        assert forall|j: int| 0 <= j < ns[k].len() implies p(#[trigger] ns[k][j]) by {
            assert(ns[k] == cr_line(strip_rest(l)));
            assert(pk(ns[k][j]));
            assert(pnc(ns[k][j]));
        }
    }
    lemma_join_all(ns, p);
}

/// Characters of a join are characters of the lines, or newlines.
proof fn lemma_join_all(ls: Seq<Seq<char>>, p: spec_fn(char) -> bool)
    requires
        forall|k: int| 0 <= k < ls.len() ==> holds_on_all(#[trigger] ls[k], p),
        p('\n'),
    ensures
        holds_on_all(join_lines(ls), p),
    decreases ls.len(),
{
    if ls.len() == 0 {
    } else if ls.len() == 1 {
        assert(holds_on_all(ls[0], p));
    } else {
        lemma_join_all(ls.drop_last(), p);
        let j = join_lines(ls.drop_last()) + seq!['\n'] + ls.last();
        assert forall|i: int| 0 <= i < j.len() implies p(#[trigger] j[i]) by {
            let a = join_lines(ls.drop_last());
            if i < a.len() {
                assert(j[i] == a[i]);
            } else if i == a.len() {
                assert(j[i] == '\n');
            } else {
                assert(j[i] == ls.last()[i - a.len() - 1]);
            }
        }
    }
}

/// Normalising already-normalised text is a no-op, provided the normalised
/// text does not end in a newline and holds no `]`-digit pair for the
/// stripper to re-interpret.
pub proof fn lemma_normalize_idempotent(s: Seq<char>)
    requires
        no_bare_hazard(normalize_spec(s)),
        normalize_spec(s).len() == 0 || normalize_spec(s).last() != '\n',
    ensures
        normalize_spec(normalize_spec(s)) == normalize_spec(s),
{
    lemma_normalize_clean(s);
    lemma_normalize_fixpoint(normalize_spec(s));
}

} // verus!
