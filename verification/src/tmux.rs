//! Parsing of tmux control-mode notifications.  Only the line protocol
//! lives here; spawning and driving the tmux process is I/O and stays with
//! the binary.

use vstd::prelude::*;

use crate::text::{find_idx, lemma_find_idx, str_eq};

verus! {

/// A window created in the controlled tmux session.
#[derive(Debug, Clone)]
pub struct Window {
    pub name: String,
    pub id: String,
}

/// Relies on std::io::Error as an opaque error value carried inside
/// `TmuxError`; nothing is assumed about it.
#[verifier::external_type_specification]
#[verifier::external_body]
pub struct ExIoError(std::io::Error);

/// What can go wrong while talking to the controlling tmux process.
#[derive(Debug)]
pub enum TmuxError {
    /// Communication with the child process failed.
    IoError(std::io::Error),
    /// The child process misbehaved.
    ChildError { msg: String, source: std::io::Error },
    /// A control-mode line could not be parsed.
    NotifParseError(String),
}

/// One control-mode notification line.
#[derive(Debug, PartialEq)]
pub enum Notification {
    SessionChanged(String, String),
    Other(String, Option<String>),
    Begin,
    Output(String),
    End,
}

/// `s` without its trailing newlines.
pub open spec fn strip_trailing_nl(s: Seq<char>) -> Seq<char>
    decreases s.len(),
{
    if s.len() > 0 && s.last() == '\n' {
        strip_trailing_nl(s.drop_last())
    } else {
        s
    }
}

/// What parsing a `%session-changed` payload must yield: the session
/// number and name split at the first space, or an error when the name is
/// missing.
pub open spec fn session_changed_spec(
    payload: Option<Seq<char>>,
    r: Result<Notification, TmuxError>,
) -> bool {
    match payload {
        None => r matches Err(TmuxError::NotifParseError(m)) && m@
            == "%session-changed notification missing data"@,
        Some(d) => {
            let fs = find_idx(d, ' ');
            if fs < d.len() {
                r matches Ok(Notification::SessionChanged(a, b)) && a@ == d.subrange(0, fs) && b@
                    == d.subrange(fs + 1, d.len() as int)
            } else {
                r matches Err(TmuxError::NotifParseError(m)) && m@
                    == "missing session name in %session-changed"@
            }
        },
    }
}

/// What parsing one notification line must yield.
pub open spec fn notif_spec(input: Seq<char>, r: Result<Notification, TmuxError>) -> bool {
    if input.len() == 0 || !(input[0] == '%' || input[0] == '@') {
        r matches Err(TmuxError::NotifParseError(m)) && m@ == "parse error: '"@ + input + "'"@
    } else {
        let d = strip_trailing_nl(input);
        let fs = find_idx(d, ' ');
        let has_data = fs < d.len();
        let ntype = if has_data {
            d.subrange(0, fs)
        } else {
            d
        };
        let payload: Option<Seq<char>> = if has_data {
            Some(d.subrange(fs + 1, d.len() as int))
        } else {
            None
        };
        if ntype == "%session-changed"@ {
            session_changed_spec(payload, r)
        } else if ntype == "%begin"@ {
            r matches Ok(Notification::Begin)
        } else if ntype == "%end"@ {
            r matches Ok(Notification::End)
        } else if ntype == "@"@ {
            r matches Ok(Notification::Output(o)) && o@ == (match payload {
                Some(p) => p,
                None => Seq::<char>::empty(),
            })
        } else {
            r matches Ok(Notification::Other(t, p)) && t@ == ntype && (match payload {
                Some(pl) => p matches Some(ps) && ps@ == pl,
                None => p is None,
            })
        }
    }
}

/// Split at the first space: the parts before and after it, or nothing
/// when there is no space.
fn split_once_space(s: &str) -> (r: Option<(String, String)>)
    ensures
        ({
            let fs = find_idx(s@, ' ');
            match r {
                Some(p) => fs < s@.len() && p.0@ == s@.subrange(0, fs) && p.1@ == s@.subrange(
                    fs + 1,
                    s@.len() as int,
                ),
                None => fs == s@.len(),
            }
        }),
{
    let n: usize = s.unicode_len();
    let mut i: usize = 0;
    while i < n
        invariant
            0 <= i <= n,
            n == s@.len(),
            forall|j: int| 0 <= j < i ==> s@[j] != ' ',
        decreases n - i,
    {
        if s.get_char(i) == ' ' {
            proof {
                crate::text::lemma_find_idx_at(s@, ' ', i as int);
            }
            let a = s.substring_char(0, i);
            let b = s.substring_char(i + 1, n);
            return Some((a.to_owned(), b.to_owned()));
        }
        i = i + 1;
    }
    proof {
        crate::text::lemma_find_idx_at(s@, ' ', n as int);
    }
    None
}

/// Drop every trailing newline.
fn trim_trailing_newlines(s: &str) -> (r: String)
    ensures
        r@ == strip_trailing_nl(s@),
{
    let n: usize = s.unicode_len();
    let mut b: usize = n;
    proof {
        assert(s@.subrange(0, n as int) =~= s@);
    }
    while b > 0 && s.get_char(b - 1) == '\n'
        invariant
            0 <= b <= n,
            n == s@.len(),
            strip_trailing_nl(s@) == strip_trailing_nl(s@.subrange(0, b as int)),
        decreases b,
    {
        proof {
            let cur = s@.subrange(0, b as int);
            assert(cur.last() == s@[b - 1]);
            assert(cur.drop_last() =~= s@.subrange(0, b - 1));
        }
        b = b - 1;
    }
    proof {
        let cur = s@.subrange(0, b as int);
        if b > 0 {
            assert(cur.last() == s@[b - 1]);
        }
        assert(strip_trailing_nl(cur) == cur);
    }
    let piece = s.substring_char(0, b);
    piece.to_owned()
}

impl Notification {
    /// Build a `SessionChanged` notification from the payload after
    /// `%session-changed`.
    pub fn session_changed(data: Option<String>) -> (r: Result<Notification, TmuxError>)
        ensures
            session_changed_spec(
                match data {
                    Some(d) => Some(d@),
                    None => None,
                },
                r,
            ),
    {
        match data {
            None => {
                let m: &str = "%session-changed notification missing data";
                Err(TmuxError::NotifParseError(m.to_owned()))
            },
            Some(d) => {
                match split_once_space(d.as_str()) {
                    Some(parts) => {
                        let (number, name) = parts;
                        Ok(Notification::SessionChanged(number, name))
                    },
                    None => {
                        let m: &str = "missing session name in %session-changed";
                        Err(TmuxError::NotifParseError(m.to_owned()))
                    },
                }
            },
        }
    }

    /// Parse one control-mode line, such as `%session-changed 1 name`.
    pub fn from_str(data: &str) -> (r: Result<Notification, TmuxError>)
        ensures
            notif_spec(data@, r),
    {
        let n: usize = data.unicode_len();
        let starts_ok: bool = if n == 0 {
            false
        } else {
            let c0 = data.get_char(0);
            c0 == '%' || c0 == '@'
        };
        if !starts_ok {
            let m: &str = "parse error: '";
            let mut msg = m.to_owned();
            msg.append(data);
            msg.append("'");
            return Err(TmuxError::NotifParseError(msg));
        }
        let trimmed = trim_trailing_newlines(data);
        let (ntype, payload): (String, Option<String>) = match split_once_space(trimmed.as_str()) {
            Some(parts) => {
                let (a, b) = parts;
                (a, Some(b))
            },
            None => (trimmed, None),
        };
        if str_eq(ntype.as_str(), "%session-changed") {
            Notification::session_changed(payload)
        } else if str_eq(ntype.as_str(), "%begin") {
            Ok(Notification::Begin)
        } else if str_eq(ntype.as_str(), "%end") {
            Ok(Notification::End)
        } else if str_eq(ntype.as_str(), "@") {
            match payload {
                Some(p) => Ok(Notification::Output(p)),
                None => Ok(Notification::Output(String::new())),
            }
        } else {
            Ok(Notification::Other(ntype, payload))
        }
    }
}

} // verus!
