//! A strict parser for the JSON subset that inscription payloads use: one
//! object whose keys and values are strings.
//!
//! The parser keeps every key/value pair in textual order, duplicates
//! included; the decoding layer above resolves a key to its **last**
//! occurrence (standard last-write-wins semantics).

use vstd::prelude::*;
use crate::num_text::chars_to_string;

verus! {

/// JSON insignificant whitespace.
pub open spec fn is_ws(c: char) -> bool {
    c == ' ' || c == '\t' || c == '\n' || c == '\r'
}

/// The character an escape letter stands for, if it is a supported escape.
pub open spec fn esc_char(c: char) -> Option<char> {
    if c == '"' {
        Some('"')
    } else if c == '\\' {
        Some('\\')
    } else if c == '/' {
        Some('/')
    } else if c == 'n' {
        Some('\n')
    } else if c == 't' {
        Some('\t')
    } else if c == 'r' {
        Some('\r')
    } else {
        None
    }
}

/// The first index at or after `i` holding something other than whitespace.
pub open spec fn skip_ws(s: Seq<char>, i: int) -> int
    decreases s.len() - i,
{
    if i < 0 || i >= s.len() {
        s.len() as int
    } else if is_ws(s[i]) {
        skip_ws(s, i + 1)
    } else {
        i
    }
}

/// Parses the body of a string literal starting just after its opening
/// quote: the decoded characters and the index just past the closing quote.
pub open spec fn sp_str_body(s: Seq<char>, i: int) -> Option<(Seq<char>, int)>
    decreases s.len() - i,
{
    if i < 0 || i >= s.len() {
        None
    } else if s[i] == '"' {
        Some((Seq::empty(), i + 1))
    } else if s[i] == '\\' {
        if i + 1 < s.len() && esc_char(s[i + 1]) is Some {
            match sp_str_body(s, i + 2) {
                Some((t, j)) => Some((seq![esc_char(s[i + 1]).unwrap()] + t, j)),
                None => None,
            }
        } else {
            None
        }
    } else if s[i] as int >= 32 {
        match sp_str_body(s, i + 1) {
            Some((t, j)) => Some((seq![s[i]] + t, j)),
            None => None,
        }
    } else {
        None
    }
}

/// Parses a string literal at `i`: its decoded characters and the index
/// just past the closing quote.
pub open spec fn sp_string(s: Seq<char>, i: int) -> Option<(Seq<char>, int)> {
    if 0 <= i < s.len() && s[i] == '"' {
        sp_str_body(s, i + 1)
    } else {
        None
    }
}

/// Parses one or more `"key" : "value"` members starting at `i` (whitespace
/// already skipped), each followed by `,` or the closing `}`: the pairs in
/// textual order and the index just past the `}`.
pub open spec fn sp_members(s: Seq<char>, i: int, fuel: nat) -> Option<
    (Seq<(Seq<char>, Seq<char>)>, int),
>
    decreases fuel,
{
    if fuel == 0 {
        None
    } else {
        match sp_string(s, i) {
            None => None,
            Some((k, j1)) => {
                let j2 = skip_ws(s, j1);
                if j2 < s.len() && s[j2] == ':' {
                    let j3 = skip_ws(s, j2 + 1);
                    match sp_string(s, j3) {
                        None => None,
                        Some((v, j4)) => {
                            let j5 = skip_ws(s, j4);
                            if j5 < s.len() && s[j5] == '}' {
                                Some((seq![(k, v)], j5 + 1))
                            } else if j5 < s.len() && s[j5] == ',' {
                                let j6 = skip_ws(s, j5 + 1);
                                match sp_members(s, j6, (fuel - 1) as nat) {
                                    Some((rest, j7)) => Some((seq![(k, v)] + rest, j7)),
                                    None => None,
                                }
                            } else {
                                None
                            }
                        },
                    }
                } else {
                    None
                }
            },
        }
    }
}

/// Parses a whole input as one object of string-valued members, surrounding
/// whitespace allowed: the key/value pairs in textual order, duplicates
/// kept.
pub open spec fn sp_object(s: Seq<char>) -> Option<Seq<(Seq<char>, Seq<char>)>> {
    let i1 = skip_ws(s, 0);
    if i1 < s.len() && s[i1] == '{' {
        let i2 = skip_ws(s, i1 + 1);
        if i2 < s.len() && s[i2] == '}' {
            if skip_ws(s, i2 + 1) == s.len() {
                Some(Seq::empty())
            } else {
                None
            }
        } else {
            match sp_members(s, i2, s.len()) {
                Some((ps, j)) => {
                    if skip_ws(s, j) == s.len() {
                        Some(ps)
                    } else {
                        None
                    }
                },
                None => None,
            }
        }
    } else {
        None
    }
}

/// The value of the **last** pair whose key is `key` — duplicate keys
/// resolve to their final occurrence.
pub open spec fn last_val(ps: Seq<(Seq<char>, Seq<char>)>, key: Seq<char>) -> Option<Seq<char>>
    decreases ps.len(),
{
    if ps.len() == 0 {
        None
    } else if ps.last().0 == key {
        Some(ps.last().1)
    } else {
        last_val(ps.drop_last(), key)
    }
}

/// The views of a list of owned pairs.
pub open spec fn pairs_view(ps: Seq<(String, String)>) -> Seq<(Seq<char>, Seq<char>)> {
    ps.map_values(|p: (String, String)| (p.0@, p.1@))
}

/// Executable whitespace skipping, equal to its specification.
fn skip_ws_exec(s: &str, i: usize) -> (r: usize)
    requires
        i <= s@.len(),
    ensures
        r == skip_ws(s@, i as int),
        i <= r <= s@.len(),
    decreases s@.len() - i,
{
    if i == s.unicode_len() {
        return i;
    }
    let c = s.get_char(i);
    if c == ' ' || c == '\t' || c == '\n' || c == '\r' {
        skip_ws_exec(s, i + 1)
    } else {
        i
    }
}

/// Executable string-body parsing, equal to its specification.
fn parse_str_body(s: &str, i: usize) -> (r: Option<(Vec<char>, usize)>)
    requires
        i <= s@.len(),
    ensures
        match r {
            Some(p) => sp_str_body(s@, i as int) == Some((p.0@, p.1 as int)) && i < p.1 <= s@.len(),
            None => sp_str_body(s@, i as int) is None,
        },
    decreases s@.len() - i,
{
    if i == s.unicode_len() {
        return None;
    }
    let c = s.get_char(i);
    if c == '"' {
        let t: Vec<char> = Vec::new();
        proof {
            assert(t@ =~= Seq::<char>::empty());
        }
        return Some((t, i + 1));
    }
    if c == '\\' {
        if i + 1 == s.unicode_len() {
            return None;
        }
        let e = s.get_char(i + 1);
        let decoded: char = if e == '"' {
            '"'
        } else if e == '\\' {
            '\\'
        } else if e == '/' {
            '/'
        } else if e == 'n' {
            '\n'
        } else if e == 't' {
            '\t'
        } else if e == 'r' {
            '\r'
        } else {
            return None;
        };
        proof {
            assert(esc_char(s@[i + 1]) == Some(decoded));
        }
        match parse_str_body(s, i + 2) {
            Some((mut t, j)) => {
                let ghost gt = t@;
                t.insert(0, decoded);
                proof {
                    assert(t@ =~= seq![decoded] + gt);
                }
                Some((t, j))
            },
            None => None,
        }
    } else if (c as u32) >= 32 {
        match parse_str_body(s, i + 1) {
            Some((mut t, j)) => {
                let ghost gt = t@;
                t.insert(0, c);
                proof {
                    assert(t@ =~= seq![c] + gt);
                }
                Some((t, j))
            },
            None => None,
        }
    } else {
        None
    }
}

/// Executable string-literal parsing, equal to its specification; the
/// decoded characters come back as an owned string.
fn parse_string(s: &str, i: usize) -> (r: Option<(String, usize)>)
    requires
        i <= s@.len(),
    ensures
        match r {
            Some(p) => sp_string(s@, i as int) == Some((p.0@, p.1 as int)) && i < p.1 <= s@.len(),
            None => sp_string(s@, i as int) is None,
        },
{
    if i == s.unicode_len() {
        return None;
    }
    if s.get_char(i) != '"' {
        return None;
    }
    match parse_str_body(s, i + 1) {
        Some((t, j)) => Some((chars_to_string(&t), j)),
        None => None,
    }
}

/// Executable member-list parsing, equal to its specification.
fn parse_members(s: &str, i: usize, fuel: usize) -> (r: Option<(Vec<(String, String)>, usize)>)
    requires
        i <= s@.len(),
    ensures
        match r {
            Some(p) => sp_members(s@, i as int, fuel as nat) == Some((pairs_view(p.0@), p.1 as int))
                && p.1 <= s@.len(),
            None => sp_members(s@, i as int, fuel as nat) is None,
        },
    decreases fuel,
{
    if fuel == 0 {
        return None;
    }
    let (k, j1) = match parse_string(s, i) {
        Some(p) => p,
        None => {
            return None;
        },
    };
    let j2 = skip_ws_exec(s, j1);
    if j2 == s.unicode_len() || s.get_char(j2) != ':' {
        return None;
    }
    let j3 = skip_ws_exec(s, j2 + 1);
    let (v, j4) = match parse_string(s, j3) {
        Some(p) => p,
        None => {
            return None;
        },
    };
    let j5 = skip_ws_exec(s, j4);
    if j5 == s.unicode_len() {
        return None;
    }
    let c5 = s.get_char(j5);
    if c5 == '}' {
        let mut out: Vec<(String, String)> = Vec::new();
        out.push((k, v));
        proof {
            assert(pairs_view(out@) =~= seq![(k@, v@)]);
        }
        Some((out, j5 + 1))
    } else if c5 == ',' {
        let j6 = skip_ws_exec(s, j5 + 1);
        match parse_members(s, j6, fuel - 1) {
            Some((mut rest, j7)) => {
                let ghost grest = rest@;
                rest.insert(0, (k, v));
                proof {
                    assert(pairs_view(rest@) =~= seq![(k@, v@)] + pairs_view(grest));
                }
                Some((rest, j7))
            },
            None => None,
        }
    } else {
        None
    }
}

/// Parses a whole payload as one string-valued JSON object, equal to the
/// specification `sp_object`: the key/value pairs in textual order,
/// duplicates kept.
pub fn parse_object_pairs(s: &str) -> (r: Option<Vec<(String, String)>>)
    ensures
        match r {
            Some(ps) => sp_object(s@) == Some(pairs_view(ps@)),
            None => sp_object(s@) is None,
        },
{
    let i1 = skip_ws_exec(s, 0);
    if i1 == s.unicode_len() || s.get_char(i1) != '{' {
        return None;
    }
    let i2 = skip_ws_exec(s, i1 + 1);
    if i2 < s.unicode_len() && s.get_char(i2) == '}' {
        if skip_ws_exec(s, i2 + 1) == s.unicode_len() {
            let out: Vec<(String, String)> = Vec::new();
            proof {
                assert(pairs_view(out@) =~= Seq::<(Seq<char>, Seq<char>)>::empty());
            }
            return Some(out);
        } else {
            return None;
        }
    }
    match parse_members(s, i2, s.unicode_len()) {
        Some((ps, j)) => {
            if skip_ws_exec(s, j) == s.unicode_len() {
                Some(ps)
            } else {
                None
            }
        },
        None => None,
    }
}

/// Looks a key up among the parsed pairs, the **last** occurrence winning,
/// exactly as `last_val` specifies.
pub fn lookup_last(ps: &Vec<(String, String)>, key: &String) -> (r: Option<String>)
    ensures
        match r {
            Some(v) => last_val(pairs_view(ps@), key@) == Some(v@),
            None => last_val(pairs_view(ps@), key@) is None,
        },
{
    let mut i = ps.len();
    proof {
        assert(pairs_view(ps@).subrange(0, ps@.len() as int) =~= pairs_view(ps@));
    }
    while i > 0
        invariant
            i <= ps@.len(),
            last_val(pairs_view(ps@), key@) == last_val(
                pairs_view(ps@).subrange(0, i as int),
                key@,
            ),
        decreases i,
    {
        i = i - 1;
        let hit = ps[i].0.eq(key);
        proof {
            let pv = pairs_view(ps@);
            let cur = pv.subrange(0, (i + 1) as int);
            assert(cur.last() == pv[i as int]);
            assert(cur.drop_last() =~= pv.subrange(0, i as int));
        }
        if hit {
            let out = ps[i].1.clone();
            proof {
                assert(out@ == pairs_view(ps@)[i as int].1);
            }
            return Some(out);
        }
    }
    proof {
        assert(pairs_view(ps@).subrange(0, 0) =~= Seq::<(Seq<char>, Seq<char>)>::empty());
    }
    None
}

} // verus!
