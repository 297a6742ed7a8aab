//! Host-list parsing: inline comma-separated hosts, the tagged hosts-file
//! format (`hostname :tag1 :tag2`, with comment lines), and tag filters
//! combining AND-groups with OR.

use vstd::prelude::*;

use crate::text::{split_char, split_on, split_whitespace_words, trim, trim_spec, ws_split};

verus! {

/// A host together with its tags, in first-appearance order and without
/// duplicates.
#[derive(Debug, Clone)]
pub struct TaggedHost {
    pub hostname: String,
    pub tags: Vec<String>,
}

impl TaggedHost {
    /// Does this host carry the tag?
    pub fn has_tag(&self, tag: &str) -> (r: bool)
        ensures
            r == self.tags.deep_view().contains(tag@),
    {
        crate::text::vec_contains_str(&self.tags, tag)
    }
}

/// A tag filter: OR over AND-groups.
#[derive(Debug, Clone, PartialEq)]
pub enum TagFilter {
    /// Match all hosts.
    All,
    /// OR of AND-groups: a host matches when it carries every tag of some
    /// group.
    Groups(Vec<Vec<String>>),
}

// ---------------------------------------------------------------------------
// Inline host lists
// ---------------------------------------------------------------------------

/// Trim each segment and keep the non-empty ones.
pub open spec fn trimmed_nonempty(segs: Seq<Seq<char>>) -> Seq<Seq<char>>
    decreases segs.len(),
{
    if segs.len() == 0 {
        Seq::empty()
    } else {
        let rest = trimmed_nonempty(segs.drop_last());
        let t = trim_spec(segs.last());
        if t.len() != 0 {
            rest.push(t)
        } else {
            rest
        }
    }
}

/// Comma-separated entries, trimmed, empties dropped.
pub open spec fn inline_spec(s: Seq<char>) -> Seq<Seq<char>> {
    trimmed_nonempty(split_on(s, ','))
}

/// Parse an inline comma-separated host list; no tags are involved.
pub fn parse_inline(spec_text: &str) -> (r: Vec<String>)
    ensures
        r.deep_view() == inline_spec(spec_text@),
{
    let pieces = split_char(spec_text, ',');
    let mut r: Vec<String> = Vec::new();
    let mut i: usize = 0;
    let ghost segs = split_on(spec_text@, ',');
    proof {
        assert(segs.subrange(0, 0) =~= Seq::<Seq<char>>::empty());
    }
    while i < pieces.len()
        invariant
            0 <= i <= pieces.len(),
            pieces.deep_view() == segs,
            segs.len() == pieces.len(),
            r.deep_view() == trimmed_nonempty(segs.subrange(0, i as int)),
        decreases pieces.len() - i,
    {
        proof {
            assert(segs.subrange(0, i + 1).drop_last() =~= segs.subrange(0, i as int));
            assert(segs.subrange(0, i + 1).last() == segs[i as int]);
            assert(pieces.deep_view()[i as int] == pieces@[i as int]@);
        }
        let t = trim(pieces[i].as_str());
        if t.as_str().unicode_len() > 0 {
            let ghost pre = r.deep_view();
            r.push(t);
            proof {
                assert(r.deep_view() =~= pre.push(trim_spec(segs[i as int])));
            }
        }
        i = i + 1;
    }
    proof {
        assert(segs.subrange(0, segs.len() as int) =~= segs);
    }
    r
}

// ---------------------------------------------------------------------------
// Tagged host files
// ---------------------------------------------------------------------------

/// A line that carries no host: blank, or a `#`, `//` or `;` comment.
pub open spec fn is_comment_or_blank(l: Seq<char>) -> bool {
    let t = trim_spec(l);
    ||| t.len() == 0
    ||| t[0] == '#'
    ||| t[0] == ';'
    ||| (t.len() >= 2 && t[0] == '/' && t[1] == '/')
}

/// The lines among the first `n` that name a host, in order.
pub open spec fn kept_upto(lines: Seq<Seq<char>>, n: int) -> Seq<Seq<char>>
    decreases n,
{
    if n <= 0 {
        Seq::empty()
    } else {
        let rest = kept_upto(lines, n - 1);
        if is_comment_or_blank(lines[n - 1]) {
            rest
        } else {
            rest.push(lines[n - 1])
        }
    }
}

/// The lines of the file that name a host, in order.
pub open spec fn kept_lines(content: Seq<char>) -> Seq<Seq<char>> {
    kept_upto(crate::text::line_split(content), crate::text::line_split(content).len() as int)
}

/// The tag words of a line: those after the first word that start with
/// `:`, stripped of it, first occurrence only.
pub open spec fn line_tags(ws: Seq<Seq<char>>) -> Seq<Seq<char>>
    decreases ws.len(),
{
    if ws.len() == 0 {
        Seq::empty()
    } else {
        let rest = line_tags(ws.drop_last());
        let w = ws.last();
        if w.len() >= 1 && w[0] == ':' && !rest.contains(w.skip(1)) {
            rest.push(w.skip(1))
        } else {
            rest
        }
    }
}

/// What one kept line contributes: its first word as the hostname, its
/// `:`-words as tags.
pub open spec fn host_line_ok(line: Seq<char>, h: TaggedHost) -> bool {
    let words = ws_split(trim_spec(line));
    &&& words.len() > 0
    &&& h.hostname@ == words[0]
    &&& h.tags.deep_view() == line_tags(words.skip(1))
}

/// A trimmed non-blank line starts with a word.
proof fn lemma_trimmed_line_has_word(l: Seq<char>)
    requires
        !is_comment_or_blank(l),
    ensures
        ws_split(trim_spec(l)).len() > 0,
        !crate::text::is_ws_char(trim_spec(l)[0]),
{
    let t = trim_spec(l);
    crate::text::lemma_ws_prefix(l);
    crate::text::lemma_ws_suffix(l);
    assert(t.len() > 0);
    assert(!crate::text::is_ws_char(t[0])) by {
        if crate::text::ws_prefix_len(l) < l.len() {
            assert(t[0] == l[crate::text::ws_prefix_len(l)]);
        }
    }
    crate::text::lemma_ws_find(t);
    assert(ws_split(t)[0] == t.subrange(0, crate::text::ws_find(t)));
}

/// Parse the tagged-lines hosts format: one host per line, `:`-prefixed
/// words are its tags; blank lines and comments are skipped.
pub fn parse_tagged_lines(content: &str) -> (r: Vec<TaggedHost>)
    ensures
        r@.len() == kept_lines(content@).len(),
        forall|i: int|
            0 <= i < r@.len() ==> host_line_ok(kept_lines(content@)[i], #[trigger] r@[i]),
{
    let lines = crate::text::split_lines(content);
    let mut r: Vec<TaggedHost> = Vec::new();
    let mut i: usize = 0;
    let ghost all = lines.deep_view();
    while i < lines.len()
        invariant
            0 <= i <= lines.len(),
            lines.deep_view() == all,
            all.len() == lines.len(),
            all == crate::text::line_split(content@),
            r@.len() == kept_upto(all, i as int).len(),
            forall|j: int|
                0 <= j < r@.len() ==> host_line_ok(kept_upto(all, i as int)[j], #[trigger] r@[j]),
        decreases lines.len() - i,
    {
        proof {
            assert(lines.deep_view()[i as int] == lines@[i as int]@);
        }
        let t = trim(lines[i].as_str());
        let tn = t.as_str().unicode_len();
        let is_kept: bool = if tn == 0 {
            false
        } else {
            let c0 = t.as_str().get_char(0);
            if c0 == '#' || c0 == ';' {
                false
            } else if tn >= 2 && c0 == '/' && t.as_str().get_char(1) == '/' {
                false
            } else {
                true
            }
        };
        proof {
            assert(is_kept == !is_comment_or_blank(all[i as int]));
        }
        if is_kept {
            let words = split_whitespace_words(t.as_str());
            proof {
                lemma_trimmed_line_has_word(all[i as int]);
            }
            let hostname = words[0].clone();
            let mut tags: Vec<String> = Vec::new();
            let mut w: usize = 1;
            let ghost wordseq = words.deep_view();
            proof {
                assert(wordseq == ws_split(trim_spec(all[i as int])));
                assert(wordseq.skip(1).subrange(0, 0) =~= Seq::<Seq<char>>::empty());
            }
            while w < words.len()
                invariant
                    1 <= w <= words.len(),
                    words.deep_view() == wordseq,
                    wordseq.len() == words.len(),
                    tags.deep_view() == line_tags(wordseq.skip(1).subrange(0, w - 1)),
                decreases words.len() - w,
            {
                proof {
                    let pre = wordseq.skip(1).subrange(0, w - 1);
                    let cur = wordseq.skip(1).subrange(0, w as int);
                    assert(cur.drop_last() =~= pre);
                    assert(cur.last() == wordseq[w as int]);
                    assert(wordseq[w as int] == words@[w as int]@);
                }
                let word = &words[w];
                let wn = word.as_str().unicode_len();
                if wn >= 1 && word.as_str().get_char(0) == ':' {
                    let tag = word.as_str().substring_char(1, wn);
                    proof {
                        assert(tag@ =~= wordseq[w as int].skip(1));
                    }
                    if !crate::text::vec_contains_str(&tags, tag) {
                        let ghost pret = tags.deep_view();
                        tags.push(tag.to_owned());
                        proof {
                            assert(tags.deep_view() =~= pret.push(wordseq[w as int].skip(1)));
                        }
                    }
                }
                w = w + 1;
            }
            proof {
                assert(wordseq.skip(1).subrange(0, wordseq.len() - 1) =~= wordseq.skip(1));
            }
            let ghost prer = r@;
            r.push(TaggedHost { hostname, tags });
            proof {
                let kp = kept_upto(all, i + 1);
                assert(kp == kept_upto(all, i as int).push(all[i as int]));
                assert forall|j: int| 0 <= j < r@.len() implies host_line_ok(
                    kp[j],
                    #[trigger] r@[j],
                ) by {
                    if j < prer.len() {
                        assert(r@[j] == prer[j]);
                        assert(kp[j] == kept_upto(all, i as int)[j]);
                    } else {
                        assert(kp[j] == all[i as int]);
                    }
                }
            }
        }
        i = i + 1;
    }
    r
}

// ---------------------------------------------------------------------------
// Tag filters
// ---------------------------------------------------------------------------

/// The non-empty segments, in order.
pub open spec fn nonempty_segs(segs: Seq<Seq<char>>) -> Seq<Seq<char>>
    decreases segs.len(),
{
    if segs.len() == 0 {
        Seq::empty()
    } else {
        let rest = nonempty_segs(segs.drop_last());
        if segs.last().len() != 0 {
            rest.push(segs.last())
        } else {
            rest
        }
    }
}

/// The tags of one AND-group text: its non-empty `:`-separated pieces.
pub open spec fn group_tags(g: Seq<char>) -> Seq<Seq<char>> {
    nonempty_segs(split_on(g, ':'))
}

/// The non-empty groups among the first `n` comma segments.
pub open spec fn groups_upto(segs: Seq<Seq<char>>, n: int) -> Seq<Seq<Seq<char>>>
    decreases n,
{
    if n <= 0 {
        Seq::empty()
    } else {
        let rest = groups_upto(segs, n - 1);
        let g = group_tags(segs[n - 1]);
        if g.len() != 0 {
            rest.push(g)
        } else {
            rest
        }
    }
}

/// The AND-groups of a filter string: strip one leading `:`, split on `,`,
/// split each group on `:` dropping empty tags, drop empty groups.
pub open spec fn filter_groups(s: Seq<char>) -> Seq<Seq<Seq<char>>> {
    let body = if s.len() > 0 && s[0] == ':' {
        s.skip(1)
    } else {
        s
    };
    groups_upto(split_on(body, ','), split_on(body, ',').len() as int)
}

/// Parse a tag filter such as `:web`, `:web:prod` (AND) or `:web,:db`
/// (OR).  A filter without any tag means every host matches.
pub fn parse_tag_filter(spec_text: &str) -> (r: Result<TagFilter, String>)
    ensures
        r matches Ok(f) && (if filter_groups(spec_text@).len() == 0 {
            f is All
        } else {
            f matches TagFilter::Groups(gs) && gs.deep_view() == filter_groups(spec_text@)
        }),
{
    let n = spec_text.unicode_len();
    let body: &str = if n > 0 && spec_text.get_char(0) == ':' {
        spec_text.substring_char(1, n)
    } else {
        spec_text
    };
    proof {
        if n > 0 && spec_text@[0] == ':' {
            assert(spec_text@.subrange(1, n as int) =~= spec_text@.skip(1));
        }
    }
    let raw_groups = split_char(body, ',');
    let mut groups: Vec<Vec<String>> = Vec::new();
    let mut i: usize = 0;
    let ghost segs = split_on(body@, ',');
    while i < raw_groups.len()
        invariant
            0 <= i <= raw_groups.len(),
            raw_groups.deep_view() == segs,
            segs.len() == raw_groups.len(),
            groups.deep_view() == groups_upto(segs, i as int),
        decreases raw_groups.len() - i,
    {
        proof {
            assert(raw_groups.deep_view()[i as int] == raw_groups@[i as int]@);
        }
        let raw_tags = split_char(raw_groups[i].as_str(), ':');
        let mut tags: Vec<String> = Vec::new();
        let mut j: usize = 0;
        let ghost tsegs = split_on(segs[i as int], ':');
        while j < raw_tags.len()
            invariant
                0 <= j <= raw_tags.len(),
                raw_tags.deep_view() == tsegs,
                tsegs.len() == raw_tags.len(),
                tags.deep_view() == nonempty_segs(tsegs.subrange(0, j as int)),
            decreases raw_tags.len() - j,
        {
            proof {
                assert(tsegs.subrange(0, j + 1).drop_last() =~= tsegs.subrange(0, j as int));
                assert(tsegs.subrange(0, j + 1).last() == tsegs[j as int]);
                assert(raw_tags.deep_view()[j as int] == raw_tags@[j as int]@);
            }
            if raw_tags[j].as_str().unicode_len() > 0 {
                let ghost pret = tags.deep_view();
                tags.push(raw_tags[j].clone());
                proof {
                    assert(tags.deep_view() =~= pret.push(tsegs[j as int]));
                }
            }
            j = j + 1;
        }
        proof {
            assert(tsegs.subrange(0, tsegs.len() as int) =~= tsegs);
            assert(tags.deep_view() == group_tags(segs[i as int]));
        }
        if tags.len() > 0 {
            let ghost preg = groups.deep_view();
            groups.push(tags);
            proof {
                assert(groups.deep_view() =~= preg.push(group_tags(segs[i as int])));
            }
        }
        i = i + 1;
    }
    if groups.len() == 0 {
        Ok(TagFilter::All)
    } else {
        Ok(TagFilter::Groups(groups))
    }
}

/// Does the host carry every tag of the group?
pub open spec fn group_matches(tags: Seq<Seq<char>>, g: Seq<Seq<char>>) -> bool {
    forall|j: int| 0 <= j < g.len() ==> tags.contains(#[trigger] g[j])
}

/// Does the host match the filter: every host for `All`, else some group
/// all of whose tags it carries?
pub open spec fn filter_matches(tags: Seq<Seq<char>>, f: TagFilter) -> bool {
    match f {
        TagFilter::All => true,
        TagFilter::Groups(gs) => exists|i: int|
            0 <= i < gs.deep_view().len() && group_matches(tags, #[trigger] gs.deep_view()[i]),
    }
}

/// The hosts that match the filter, keeping their order.
pub open spec fn matching_hosts(hs: Seq<TaggedHost>, f: TagFilter) -> Seq<TaggedHost>
    decreases hs.len(),
{
    if hs.len() == 0 {
        Seq::empty()
    } else {
        let rest = matching_hosts(hs.drop_last(), f);
        if filter_matches(hs.last().tags.deep_view(), f) {
            rest.push(hs.last())
        } else {
            rest
        }
    }
}

/// Keep the hosts that match the filter, preserving their order.
pub fn filter_hosts(hosts: Vec<TaggedHost>, filter: &TagFilter) -> (r: Vec<TaggedHost>)
    ensures
        r@ == matching_hosts(hosts@, *filter),
{
    let mut rest = hosts;
    let ghost all = rest@;
    let mut kept: Vec<TaggedHost> = Vec::new();
    let mut taken: usize = 0;
    let total: usize = rest.len();
    while rest.len() > 0
        invariant
            all.len() == total,
            taken + rest.len() == all.len(),
            rest@ =~= all.subrange(taken as int, all.len() as int),
            kept@ =~= matching_hosts(all.subrange(0, taken as int), *filter),
        decreases rest.len(),
    {
        let x = rest.remove(0);
        proof {
            assert(rest@ =~= all.subrange(taken + 1, all.len() as int));
            assert(x == all[taken as int]);
            assert(all.subrange(0, taken + 1).drop_last() =~= all.subrange(0, taken as int));
            assert(all.subrange(0, taken + 1).last() == all[taken as int]);
        }
        if matches_filter(&x, filter) {
            let ghost pre = kept@;
            kept.push(x);
            proof {
                assert(kept@ =~= pre.push(all[taken as int]));
            }
        }
        taken = taken + 1;
    }
    proof {
        assert(all.subrange(0, all.len() as int) =~= all);
    }
    kept
}

/// Check a host against a tag filter: OR across groups, AND within each.
pub fn matches_filter(host: &TaggedHost, filter: &TagFilter) -> (r: bool)
    ensures
        r == filter_matches(host.tags.deep_view(), *filter),
{
    match filter {
        TagFilter::All => true,
        TagFilter::Groups(gs) => {
            proof {
                assert(*filter == TagFilter::Groups(*gs));
            }
            let mut i: usize = 0;
            while i < gs.len()
                invariant
                    *filter == TagFilter::Groups(*gs),
                    0 <= i <= gs@.len(),
                    gs.deep_view().len() == gs@.len(),
                    forall|k: int|
                        0 <= k < i ==> !group_matches(
                            host.tags.deep_view(),
                            #[trigger] gs.deep_view()[k],
                        ),
                decreases gs@.len() - i,
            {
                let g = &gs[i];
                let mut j: usize = 0;
                let mut all_there = true;
                while j < g.len()
                    invariant
                        0 <= j <= g@.len(),
                        i < gs@.len(),
                        g.deep_view() == gs.deep_view()[i as int],
                        g.deep_view().len() == g@.len(),
                        all_there == forall|t: int|
                            0 <= t < j ==> host.tags.deep_view().contains(
                                #[trigger] g.deep_view()[t],
                            ),
                    decreases g@.len() - j,
                {
                    proof {
                        assert(g.deep_view()[j as int] == g@[j as int]@);
                    }
                    if !crate::text::vec_contains_str(&host.tags, g[j].as_str()) {
                        all_there = false;
                    }
                    j = j + 1;
                }
                if all_there {
                    proof {
                        assert(group_matches(host.tags.deep_view(), gs.deep_view()[i as int]));
                        assert(((*filter)->Groups_0).deep_view() == gs.deep_view());
                        assert(group_matches(
                            host.tags.deep_view(),
                            ((*filter)->Groups_0).deep_view()[i as int],
                        ));
                        assert(filter_matches(host.tags.deep_view(), *filter));
                    }
                    return true;
                }
                i = i + 1;
            }
            proof {
                assert(!filter_matches(host.tags.deep_view(), *filter));
            }
            false
        },
    }
}

} // verus!
