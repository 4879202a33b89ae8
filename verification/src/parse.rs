//! The parser: raw hosts-file text to an ordered sequence of entries.
//!
//! Line classification, after trimming leading whitespace:
//!   - empty (or all-whitespace) line: skipped;
//!   - line starting with '#': a disabled mapping if what follows the '#'
//!     (up to any further '#') is an IPv4-shaped token and a hostname token,
//!     else a plain comment, skipped;
//!   - otherwise: an active mapping if the line (up to any '#') is an
//!     IPv4-shaped token followed by one or more hostname tokens, one entry
//!     per hostname; else skipped.
//! Parsing never fails: malformed lines produce no entries.

use vstd::prelude::*;
use crate::entry::{EntryV, HostEntry};
use crate::text::{
    cut_comment, is_ipv4_shaped, is_ipv4_token, is_ws_char, split_ws, tokenize, trim_front,
    ws_char, lemma_trim_front_at, lemma_cut_comment_at,
};

verus! {

/// Entries contributed by the mapping part of a line: `r` is the text after
/// the leading '#' (disabled) or the whole trimmed line (enabled).
pub open spec fn mapping_entries(r: Seq<char>, enabled: bool) -> Seq<EntryV> {
    let toks = split_ws(cut_comment(r));
    if toks.len() >= 2 && is_ipv4_shaped(toks[0]) {
        if enabled {
            Seq::new((toks.len() - 1) as nat, |i: int| EntryV { ip: toks[0], hostname: toks[i + 1], enabled: true })
        } else {
            seq![EntryV { ip: toks[0], hostname: toks[1], enabled: false }]
        }
    } else {
        Seq::empty()
    }
}

/// Entries contributed by one line.
pub open spec fn spec_line_entries(line: Seq<char>) -> Seq<EntryV> {
    let t = trim_front(line);
    if t.len() == 0 {
        Seq::empty()
    } else if t[0] == '#' {
        mapping_entries(t.drop_first(), false)
    } else {
        mapping_entries(t, true)
    }
}

/// Scans the text one character at a time; `cur` is the current line so far.
pub open spec fn parse_rec(t: Seq<char>, cur: Seq<char>) -> Seq<EntryV>
    decreases t.len(),
{
    if t.len() == 0 {
        spec_line_entries(cur)
    } else if t[0] == '\n' {
        spec_line_entries(cur) + parse_rec(t.drop_first(), Seq::empty())
    } else {
        parse_rec(t.drop_first(), cur.push(t[0]))
    }
}

/// What parsing a whole text yields.
pub open spec fn spec_parse(t: Seq<char>) -> Seq<EntryV> {
    parse_rec(t, Seq::empty())
}

/// Parses the mapping part of a line: `line[start..]` holds the text after
/// the leading '#' for a disabled candidate, or the trimmed line itself for
/// an active candidate.
fn parse_mapping(line: &str, start: usize, enabled: bool) -> (entries: Vec<HostEntry>)
    requires
        start <= line@.len(),
    ensures
        entries.deep_view() == mapping_entries(line@.skip(start as int), enabled),
{
    let n = line.unicode_len();
    let mut h = start;
    while h < n && line.get_char(h) != '#'
        invariant
            start <= h <= n == line@.len(),
            forall|j: int| start <= j < h ==> line@[j] != '#',
        decreases n - h,
    {
        h = h + 1;
    }
    proof {
        let r = line@.skip(start as int);
        assert(forall|j: int| 0 <= j < h - start ==> #[trigger] r[j] == line@[start + j]);
        lemma_cut_comment_at(r, h - start as int);
        assert(r.take(h - start as int) =~= line@.subrange(start as int, h as int));
    }
    let toks = tokenize(line, start, h);
    let ghost stoks = split_ws(cut_comment(line@.skip(start as int)));
    proof {
        assert(toks.deep_view() == stoks);
        assert(toks@.len() == toks.deep_view().len());
    }
    let mut entries: Vec<HostEntry> = Vec::new();
    if toks.len() < 2 {
        proof {
            assert(entries.deep_view() =~= mapping_entries(line@.skip(start as int), enabled));
        }
        return entries;
    }
    proof {
        assert(toks.deep_view()[0] == toks@[0]@);
    }
    if !is_ipv4_token(toks[0].as_str()) {
        proof {
            assert(entries.deep_view() =~= mapping_entries(line@.skip(start as int), enabled));
        }
        return entries;
    }
    if enabled {
        let mut j: usize = 1;
        while j < toks.len()
            invariant
                1 <= j <= toks@.len(),
                toks.deep_view() == stoks,
                stoks.len() >= 2 && is_ipv4_shaped(stoks[0]),
                entries.deep_view() =~= Seq::new(
                    (j - 1) as nat,
                    |i: int| EntryV { ip: stoks[0], hostname: stoks[i + 1], enabled: true },
                ),
            decreases toks@.len() - j,
        {
            let ghost old_entries = entries.deep_view();
            proof {
                assert(toks.deep_view()[j as int] == toks@[j as int]@);
            }
            let e = HostEntry {
                ip: toks[0].clone(),
                hostname: toks[j].clone(),
                enabled: true,
            };
            entries.push(e);
            proof {
                assert(entries.deep_view() =~= old_entries.push(
                    EntryV { ip: stoks[0], hostname: stoks[j as int], enabled: true },
                ));
            }
            j = j + 1;
        }
        proof {
            assert(entries.deep_view() =~= mapping_entries(line@.skip(start as int), enabled));
        }
        entries
    } else {
        proof {
            assert(toks.deep_view()[1] == toks@[1]@);
        }
        let e = HostEntry {
            ip: toks[0].clone(),
            hostname: toks[1].clone(),
            enabled: false,
        };
        entries.push(e);
        proof {
            assert(entries.deep_view() =~= mapping_entries(line@.skip(start as int), enabled));
        }
        entries
    }
}

/// Parses one line (no newline inside) into its entries.
pub fn parse_line(line: &str) -> (entries: Vec<HostEntry>)
    ensures
        entries.deep_view() == spec_line_entries(line@),
{
    let n = line.unicode_len();
    let mut i: usize = 0;
    while i < n && ws_char(line.get_char(i))
        invariant
            i <= n == line@.len(),
            forall|j: int| 0 <= j < i ==> is_ws_char(#[trigger] line@[j]),
        decreases n - i,
    {
        i = i + 1;
    }
    proof {
        lemma_trim_front_at(line@, i as int);
    }
    if i == n {
        let entries: Vec<HostEntry> = Vec::new();
        proof {
            assert(trim_front(line@) =~= Seq::<char>::empty());
            assert(entries.deep_view() =~= spec_line_entries(line@));
        }
        return entries;
    }
    let ghost t = trim_front(line@);
    proof {
        assert(t == line@.skip(i as int));
        assert(t[0] == line@[i as int]);
    }
    let c = line.get_char(i);
    if c == '#' {
        proof {
            assert(t.drop_first() =~= line@.skip(i as int + 1));
        }
        parse_mapping(line, i + 1, false)
    } else {
        parse_mapping(line, i, true)
    }
}

/// Parses raw hosts-file text; malformed lines are skipped, never an error.
pub fn parse(text: &str) -> (entries: Vec<HostEntry>)
    ensures
        entries.deep_view() == spec_parse(text@),
{
    let n = text.unicode_len();
    let mut entries: Vec<HostEntry> = Vec::new();
    let mut i: usize = 0;
    let mut ls: usize = 0;
    proof {
        assert(entries.deep_view() =~= Seq::<EntryV>::empty());
        assert(text@.subrange(0, n as int) =~= text@);
        assert(text@.subrange(0, 0) =~= Seq::<char>::empty());
        assert(Seq::<EntryV>::empty() + parse_rec(text@, Seq::empty()) =~= parse_rec(
            text@,
            Seq::empty(),
        ));
    }
    while i < n
        invariant
            ls <= i <= n == text@.len(),
            spec_parse(text@) == entries.deep_view() + parse_rec(
                text@.subrange(i as int, n as int),
                text@.subrange(ls as int, i as int),
            ),
        decreases n - i,
    {
        let ghost rem = text@.subrange(i as int, n as int);
        let ghost cur = text@.subrange(ls as int, i as int);
        proof {
            assert(rem[0] == text@[i as int]);
            assert(rem.drop_first() =~= text@.subrange(i as int + 1, n as int));
        }
        let c = text.get_char(i);
        if c == '\n' {
            let line = text.substring_char(ls, i);
            let mut line_entries = parse_line(line);
            let ghost old_entries = entries.deep_view();
            entries.append(&mut line_entries);
            proof {
                assert(entries.deep_view() =~= old_entries + spec_line_entries(cur));
                assert(parse_rec(rem, cur) == spec_line_entries(cur) + parse_rec(
                    rem.drop_first(),
                    Seq::empty(),
                ));
                assert((old_entries + spec_line_entries(cur)) + parse_rec(
                    rem.drop_first(),
                    Seq::empty(),
                ) =~= old_entries + (spec_line_entries(cur) + parse_rec(
                    rem.drop_first(),
                    Seq::empty(),
                )));
                assert(text@.subrange(i as int + 1, i as int + 1) =~= Seq::<char>::empty());
            }
            ls = i + 1;
        } else {
            proof {
                assert(cur.push(text@[i as int]) =~= text@.subrange(ls as int, i as int + 1));
            }
        }
        i = i + 1;
    }
    let line = text.substring_char(ls, n);
    let mut line_entries = parse_line(line);
    let ghost old_entries = entries.deep_view();
    let ghost cur = text@.subrange(ls as int, n as int);
    entries.append(&mut line_entries);
    proof {
        assert(text@.subrange(n as int, n as int) =~= Seq::<char>::empty());
        assert(parse_rec(Seq::<char>::empty(), cur) == spec_line_entries(cur));
        assert(entries.deep_view() =~= old_entries + spec_line_entries(cur));
    }
    entries
}

} // verus!
