//! The laws relating the parser and the serializer: serialized text parses
//! back to the entries it came from, an accepted add is found as a duplicate
//! on the next load, and an empty save loads as an empty table.

use vstd::prelude::*;
use crate::entry::{EntryV, has_mapping, valid_hostname, wf_entry};
use crate::emit::{
    GroupV, entries_of_group, entries_of_groups, group_line, group_lines, groups_of, join_rest,
    line_body, line_of, lines_of, spec_banner, spec_incremental, spec_serialize, upd_groups,
    wf_group,
};
use crate::ops::{append_line, dec_digits, lemma_dec_digits_shape, spec_backup_name};
use crate::parse::{mapping_entries, parse_rec, spec_line_entries, spec_parse};
use crate::text::{
    cut_comment, is_digit_char, is_ipv4_shaped, is_ws_char, split_ws, split_ws_rec, trim_front,
    lemma_cut_comment_at, lemma_first_token_char, lemma_ipv4_chars, lemma_ipv4_first_digit,
    lemma_split_ws_pair, lemma_split_ws_rec_skipws, lemma_split_ws_rec_tok, lemma_trim_front_at,
};

verus! {

/// An empty line yields no entries.
pub proof fn lemma_line_entries_empty()
    ensures
        spec_line_entries(Seq::<char>::empty()) == Seq::<EntryV>::empty(),
{
}

/// Characters before the first newline belong to the current line.
proof fn lemma_parse_rec_skip_line(l: Seq<char>, rest: Seq<char>, cur: Seq<char>)
    requires
        forall|i: int| 0 <= i < l.len() ==> l[i] != '\n',
    ensures
        parse_rec(l + rest, cur) == parse_rec(rest, cur + l),
    decreases l.len(),
{
    if l.len() == 0 {
        assert(l + rest =~= rest);
        assert(cur + l =~= cur);
    } else {
        assert((l + rest)[0] == l[0]);
        assert((l + rest).drop_first() =~= l.drop_first() + rest);
        lemma_parse_rec_skip_line(l.drop_first(), rest, cur.push(l[0]));
        assert(cur.push(l[0]) + l.drop_first() =~= cur + l);
    }
}

proof fn lemma_parse_rec_append(a: Seq<char>, b: Seq<char>, cur: Seq<char>)
    requires
        a.len() > 0,
        a.last() == '\n',
    ensures
        parse_rec(a + b, cur) == parse_rec(a, cur) + parse_rec(b, Seq::empty()),
    decreases a.len(),
{
    if a.len() == 1 {
        assert(a[0] == '\n');
        assert((a + b)[0] == '\n');
        assert((a + b).drop_first() =~= b);
        assert(parse_rec(a + b, cur) == spec_line_entries(cur) + parse_rec(b, Seq::empty()));
        assert(a.drop_first() =~= Seq::<char>::empty());
        assert(parse_rec(a, cur) == spec_line_entries(cur) + parse_rec(
            Seq::<char>::empty(),
            Seq::empty(),
        ));
        lemma_line_entries_empty();
        assert(parse_rec(Seq::<char>::empty(), Seq::empty()) == Seq::<EntryV>::empty());
        assert((spec_line_entries(cur) + Seq::<EntryV>::empty()) + parse_rec(b, Seq::empty())
            =~= spec_line_entries(cur) + parse_rec(b, Seq::empty()));
    } else {
        assert((a + b)[0] == a[0]);
        assert((a + b).drop_first() =~= a.drop_first() + b);
        assert(a.drop_first().last() == a.last());
        if a[0] == '\n' {
            lemma_parse_rec_append(a.drop_first(), b, Seq::empty());
            assert((spec_line_entries(cur) + parse_rec(a.drop_first(), Seq::empty())) + parse_rec(
                b,
                Seq::empty(),
            ) =~= spec_line_entries(cur) + (parse_rec(a.drop_first(), Seq::empty()) + parse_rec(
                b,
                Seq::empty(),
            )));
        } else {
            lemma_parse_rec_append(a.drop_first(), b, cur.push(a[0]));
        }
    }
}

/// Parsing distributes over concatenation at a line boundary.
pub proof fn lemma_parse_append(a: Seq<char>, b: Seq<char>)
    requires
        a.len() == 0 || a.last() == '\n',
    ensures
        spec_parse(a + b) == spec_parse(a) + spec_parse(b),
{
    if a.len() == 0 {
        assert(a + b =~= b);
        lemma_line_entries_empty();
        assert(spec_parse(a) == Seq::<EntryV>::empty());
        assert(Seq::<EntryV>::empty() + spec_parse(b) =~= spec_parse(b));
    } else {
        lemma_parse_rec_append(a, b, Seq::empty());
    }
}

/// The mapping part `<ws> ip ' ' hostname <ws>` yields exactly one entry.
proof fn lemma_mapping_entries_exact(
    lead: Seq<char>,
    ip: Seq<char>,
    h: Seq<char>,
    trail: Seq<char>,
    enabled: bool,
)
    requires
        is_ipv4_shaped(ip),
        valid_hostname(h),
        forall|i: int| 0 <= i < lead.len() ==> is_ws_char(#[trigger] lead[i]),
        forall|i: int| 0 <= i < trail.len() ==> is_ws_char(#[trigger] trail[i]),
    ensures
        mapping_entries(lead + ip + seq![' '] + h + trail, enabled) == seq![
            EntryV { ip: ip, hostname: h, enabled },
        ],
{
    let r = lead + ip + seq![' '] + h + trail;
    lemma_ipv4_chars(ip);
    lemma_ipv4_first_digit(ip);
    let p1 = lead + ip;
    let p2 = p1 + seq![' '];
    let p3 = p2 + h;
    assert(r == p3 + trail);
    assert forall|i: int| 0 <= i < r.len() implies r[i] != '#' by {
        if i < lead.len() {
            assert(r[i] == lead[i]);
        } else if i < p1.len() {
            assert(r[i] == ip[i - lead.len()]);
        } else if i < p2.len() {
            assert(r[i] == ' ');
        } else if i < p3.len() {
            assert(r[i] == h[i - p2.len()]);
        } else {
            assert(r[i] == trail[i - p3.len()]);
        }
    }
    lemma_cut_comment_at(r, r.len() as int);
    assert(cut_comment(r) =~= r);
    assert forall|i: int| 0 <= i < ip.len() implies !is_ws_char(#[trigger] ip[i]) by {
        assert(is_digit_char(ip[i]) || ip[i] == '.');
    }
    assert(r =~= lead + (ip + seq![' '] + h + trail));
    lemma_split_ws_rec_skipws(lead, ip + seq![' '] + h + trail);
    lemma_split_ws_pair(ip, h, trail);
    assert(split_ws(cut_comment(r)) == seq![ip, h]);
    let toks = seq![ip, h];
    assert(toks[0] == ip);
    assert(toks[1] == h);
    assert(toks.len() == 2);
    let e = EntryV { ip: ip, hostname: h, enabled };
    if enabled {
        let made = Seq::new(1, |i: int| EntryV { ip: toks[0], hostname: toks[i + 1], enabled: true });
        assert(made[0] == e);
        assert(made =~= seq![e]);
    }
}

/// A serialized line body yields exactly its entry.
proof fn lemma_line_body_entries(e: EntryV)
    requires
        wf_entry(e),
    ensures
        spec_line_entries(line_body(e)) == seq![e],
{
    let body = line_body(e);
    lemma_ipv4_first_digit(e.ip);
    if e.enabled {
        assert(body =~= Seq::<char>::empty() + e.ip + seq![' '] + e.hostname + seq![' ']);
        assert(body[0] == e.ip[0]);
        assert(!is_ws_char(body[0]));
        lemma_trim_front_at(body, 0);
        assert(body.skip(0) =~= body);
        assert(body[0] != '#');
        lemma_mapping_entries_exact(
            Seq::<char>::empty(),
            e.ip,
            e.hostname,
            seq![' '],
            true,
        );
        assert(mapping_entries(
            Seq::<char>::empty() + e.ip + seq![' '] + e.hostname + seq![' '],
            true,
        ) == seq![EntryV { ip: e.ip, hostname: e.hostname, enabled: true }]);
        assert(e == (EntryV { ip: e.ip, hostname: e.hostname, enabled: true }));
    } else {
        assert(body =~= seq!['#', ' '] + e.ip + seq![' '] + e.hostname + seq![' ']);
        assert(body[0] == '#');
        assert(!is_ws_char(body[0]));
        lemma_trim_front_at(body, 0);
        assert(body.skip(0) =~= body);
        assert(body.drop_first() =~= seq![' '] + e.ip + seq![' '] + e.hostname + seq![' ']);
        lemma_mapping_entries_exact(seq![' '], e.ip, e.hostname, seq![' '], false);
        assert(e == (EntryV { ip: e.ip, hostname: e.hostname, enabled: false }));
    }
}

/// One serialized line parses back to exactly its entry.
proof fn lemma_parse_line_of(e: EntryV)
    requires
        wf_entry(e),
    ensures
        spec_parse(line_of(e)) == seq![e],
{
    let body = line_body(e);
    lemma_ipv4_chars(e.ip);
    let head: Seq<char> = if e.enabled {
        Seq::<char>::empty()
    } else {
        seq!['#', ' ']
    };
    let p1 = head + e.ip;
    let p2 = p1 + seq![' '];
    let p3 = p2 + e.hostname;
    assert(body == p3 + seq![' ']);
    assert forall|i: int| 0 <= i < body.len() implies body[i] != '\n' by {
        if i < head.len() {
            assert(body[i] == head[i]);
        } else if i < p1.len() {
            assert(body[i] == e.ip[i - head.len()]);
            assert(is_digit_char(body[i]) || body[i] == '.');
        } else if i < p2.len() {
            assert(body[i] == ' ');
        } else if i < p3.len() {
            assert(body[i] == e.hostname[i - p2.len()]);
            assert(!is_ws_char(body[i]));
        } else {
            assert(body[i] == ' ');
        }
    }
    lemma_parse_rec_skip_line(body, seq!['\n'], Seq::empty());
    assert(Seq::<char>::empty() + body =~= body);
    assert(line_of(e) == body + seq!['\n']);
    assert(seq!['\n'][0] == '\n');
    assert(seq!['\n'].drop_first() =~= Seq::<char>::empty());
    lemma_line_entries_empty();
    assert(parse_rec(seq!['\n'], body) == spec_line_entries(body) + parse_rec(
        Seq::<char>::empty(),
        Seq::empty(),
    ));
    lemma_line_body_entries(e);
    assert(seq![e] + Seq::<EntryV>::empty() =~= seq![e]);
}

/// The serialized lines of well-formed entries parse back to exactly those
/// entries, in order.
pub proof fn lemma_parse_lines_of(es: Seq<EntryV>)
    requires
        forall|k: int| 0 <= k < es.len() ==> wf_entry(#[trigger] es[k]),
    ensures
        spec_parse(lines_of(es)) == es,
    decreases es.len(),
{
    if es.len() == 0 {
        lemma_line_entries_empty();
        assert(spec_parse(lines_of(es)) =~= es);
    } else {
        assert(lines_of(es) == line_of(es[0]) + lines_of(es.drop_first()));
        assert(line_of(es[0]).last() == '\n');
        lemma_parse_append(line_of(es[0]), lines_of(es.drop_first()));
        lemma_parse_line_of(es[0]);
        lemma_parse_lines_of(es.drop_first());
        assert(seq![es[0]] + es.drop_first() =~= es);
    }
}

/// The banner contributes no entries.
pub proof fn lemma_parse_banner()
    ensures
        spec_parse(spec_banner()) == Seq::<EntryV>::empty(),
{
    reveal_strlit("# Hosts file managed by edHost\n");
    reveal_strlit("# Generated automatically\n");
    reveal_strlit("\n");
    let l1 = ("# Hosts file managed by edHost\n")@;
    let l2 = ("# Generated automatically\n")@;
    let l3 = ("\n")@;
    assert(l1.len() == 31);
    assert(l2.len() == 26);
    assert(l3.len() == 1);
    assert(l1[30] == '\n');
    assert(l2[25] == '\n');
    assert(l3[0] == '\n');
    assert(spec_banner() =~= l1 + (l2 + l3));
    lemma_parse_append(l1, l2 + l3);
    lemma_parse_append(l2, l3);
    lemma_line_entries_empty();
    // the bare newline line
    assert(l3.drop_first() =~= Seq::<char>::empty());
    assert(parse_rec(l3, Seq::empty()) == spec_line_entries(Seq::empty()) + parse_rec(
        Seq::<char>::empty(),
        Seq::empty(),
    ));
    assert(spec_parse(l3) =~= Seq::<EntryV>::empty());
    lemma_parse_comment_line(l1, 'H');
    lemma_parse_comment_line(l2, 'G');
    assert(spec_parse(l1) + (spec_parse(l2) + spec_parse(l3)) =~= Seq::<EntryV>::empty());
}

/// A banner line `"# <Word> ..."` whose first word starts with a capital
/// letter (no digit) parses to nothing.
proof fn lemma_parse_comment_line(l: Seq<char>, c0: char)
    requires
        l.len() >= 4,
        l[0] == '#',
        l[1] == ' ',
        l[2] == c0,
        !is_ws_char(c0),
        !is_digit_char(c0),
        l.last() == '\n',
        forall|i: int| 0 <= i < l.len() - 1 ==> l[i] != '\n',
        forall|i: int| 1 <= i < l.len() ==> l[i] != '#',
    ensures
        spec_parse(l) == Seq::<EntryV>::empty(),
{
    let n = l.len() as int;
    let body = l.take(n - 1);
    assert forall|i: int| 0 <= i < body.len() implies body[i] != '\n' by {
        assert(body[i] == l[i]);
    }
    assert(l =~= body + seq!['\n']);
    lemma_parse_rec_skip_line(body, seq!['\n'], Seq::empty());
    assert(Seq::<char>::empty() + body =~= body);
    assert(seq!['\n'][0] == '\n');
    assert(seq!['\n'].drop_first() =~= Seq::<char>::empty());
    lemma_line_entries_empty();
    assert(parse_rec(seq!['\n'], body) == spec_line_entries(body) + parse_rec(
        Seq::<char>::empty(),
        Seq::empty(),
    ));
    // the line body is a comment that is not a disabled mapping
    assert(body[0] == '#');
    assert(!is_ws_char('#'));
    lemma_trim_front_at(body, 0);
    assert(body.skip(0) =~= body);
    let r = body.drop_first();
    assert forall|i: int| 0 <= i < r.len() implies r[i] != '#' by {
        assert(r[i] == l[i + 1]);
    }
    lemma_cut_comment_at(r, r.len() as int);
    assert(cut_comment(r) =~= r);
    assert(r[0] == ' ');
    assert(r[1] == c0);
    lemma_first_token_char(r, 1);
    let toks = split_ws(cut_comment(r));
    if toks.len() >= 2 && is_ipv4_shaped(toks[0]) {
        lemma_ipv4_first_digit(toks[0]);
        assert(toks[0][0] == c0);
        assert(false);
    }
    assert(mapping_entries(r, false) == Seq::<EntryV>::empty());
    assert(spec_line_entries(body) == Seq::<EntryV>::empty());
    assert(Seq::<EntryV>::empty() + Seq::<EntryV>::empty() =~= Seq::<EntryV>::empty());
}

/// A token followed by space-joined tokens splits back into those tokens.
proof fn lemma_split_ws_join(t: Seq<char>, hs: Seq<Seq<char>>)
    requires
        t.len() > 0,
        forall|i: int| 0 <= i < t.len() ==> !is_ws_char(#[trigger] t[i]),
        forall|k: int| 0 <= k < hs.len() ==> (#[trigger] hs[k]).len() > 0,
        forall|k: int, i: int|
            0 <= k < hs.len() && 0 <= i < hs[k].len() ==> !is_ws_char(#[trigger] hs[k][i]),
    ensures
        split_ws(t + join_rest(hs)) == seq![t] + hs,
    decreases hs.len(),
{
    if hs.len() == 0 {
        assert(t + join_rest(hs) =~= t);
        lemma_split_ws_rec_tok(t, Seq::<char>::empty(), Seq::<char>::empty());
        assert(t + Seq::<char>::empty() =~= t);
        assert(Seq::<char>::empty() + t =~= t);
        assert(split_ws_rec(Seq::<char>::empty(), t) == seq![t]);
        assert(seq![t] + hs =~= seq![t]);
    } else {
        let mid = join_rest(hs);
        assert(mid == seq![' '] + hs[0] + join_rest(hs.drop_first()));
        lemma_split_ws_rec_tok(t, mid, Seq::<char>::empty());
        assert(Seq::<char>::empty() + t =~= t);
        assert(mid[0] == ' ');
        assert(mid.drop_first() =~= hs[0] + join_rest(hs.drop_first()));
        assert(split_ws_rec(mid, t) == seq![t] + split_ws_rec(mid.drop_first(), Seq::empty()));
        assert forall|k: int|
            0 <= k < hs.drop_first().len() implies (#[trigger] hs.drop_first()[k]).len() > 0 by {
            assert(hs.drop_first()[k] == hs[k + 1]);
        }
        assert forall|k: int, i: int|
            0 <= k < hs.drop_first().len() && 0 <= i < hs.drop_first()[k].len() implies !is_ws_char(
            #[trigger] hs.drop_first()[k][i],
        ) by {
            assert(hs.drop_first()[k] == hs[k + 1]);
        }
        lemma_split_ws_join(hs[0], hs.drop_first());
        assert(seq![t] + (seq![hs[0]] + hs.drop_first()) =~= seq![t] + hs);
    }
}

/// Joined hostnames hold only spaces and hostname characters.
proof fn lemma_join_rest_chars(hs: Seq<Seq<char>>)
    requires
        forall|k: int| 0 <= k < hs.len() ==> valid_hostname(#[trigger] hs[k]),
    ensures
        forall|i: int|
            0 <= i < join_rest(hs).len() ==> (#[trigger] join_rest(hs)[i] == ' ' || (!is_ws_char(
                join_rest(hs)[i],
            ) && join_rest(hs)[i] != '#')),
    decreases hs.len(),
{
    if hs.len() == 0 {
    } else {
        assert forall|k: int|
            0 <= k < hs.drop_first().len() implies valid_hostname(
            #[trigger] hs.drop_first()[k],
        ) by {
            assert(hs.drop_first()[k] == hs[k + 1]);
        }
        lemma_join_rest_chars(hs.drop_first());
        let jr = join_rest(hs);
        let p1 = seq![' '] + hs[0];
        assert(jr == p1 + join_rest(hs.drop_first()));
        assert forall|i: int|
            0 <= i < jr.len() implies (#[trigger] jr[i] == ' ' || (!is_ws_char(jr[i]) && jr[i]
                != '#')) by {
            if i == 0 {
                assert(jr[i] == ' ');
            } else if i < p1.len() {
                assert(jr[i] == hs[0][i - 1]);
            } else {
                assert(jr[i] == join_rest(hs.drop_first())[i - p1.len()]);
            }
        }
    }
}

/// One grouped line parses back to its ip paired with each hostname,
/// enabled, in order.
proof fn lemma_parse_group_line(g: GroupV)
    requires
        wf_group(g),
    ensures
        spec_parse(group_line(g)) == entries_of_group(g),
{
    let body = g.ip + join_rest(g.hostnames);
    assert(group_line(g) == body + seq!['\n']);
    lemma_ipv4_chars(g.ip);
    lemma_ipv4_first_digit(g.ip);
    lemma_join_rest_chars(g.hostnames);
    assert forall|i: int| 0 <= i < body.len() implies body[i] != '\n' && body[i] != '#' by {
        if i < g.ip.len() {
            assert(body[i] == g.ip[i]);
            assert(is_digit_char(body[i]) || body[i] == '.');
        } else {
            assert(body[i] == join_rest(g.hostnames)[i - g.ip.len()]);
        }
    }
    lemma_parse_rec_skip_line(body, seq!['\n'], Seq::empty());
    assert(Seq::<char>::empty() + body =~= body);
    assert(seq!['\n'][0] == '\n');
    assert(seq!['\n'].drop_first() =~= Seq::<char>::empty());
    lemma_line_entries_empty();
    assert(parse_rec(seq!['\n'], body) == spec_line_entries(body) + parse_rec(
        Seq::<char>::empty(),
        Seq::empty(),
    ));
    // the body is one active mapping line
    assert(body[0] == g.ip[0]);
    assert(!is_ws_char(body[0]));
    lemma_trim_front_at(body, 0);
    assert(body.skip(0) =~= body);
    assert(body[0] != '#');
    lemma_cut_comment_at(body, body.len() as int);
    assert(cut_comment(body) =~= body);
    assert forall|i: int| 0 <= i < g.ip.len() implies !is_ws_char(#[trigger] g.ip[i]) by {
        assert(is_digit_char(g.ip[i]) || g.ip[i] == '.');
    }
    assert forall|k: int|
        0 <= k < g.hostnames.len() implies (#[trigger] g.hostnames[k]).len() > 0 by {
        assert(valid_hostname(g.hostnames[k]));
    }
    assert forall|k: int, i: int|
        0 <= k < g.hostnames.len() && 0 <= i < g.hostnames[k].len() implies !is_ws_char(
        #[trigger] g.hostnames[k][i],
    ) by {
        assert(valid_hostname(g.hostnames[k]));
    }
    lemma_split_ws_join(g.ip, g.hostnames);
    let toks = seq![g.ip] + g.hostnames;
    assert(split_ws(cut_comment(body)) == toks);
    assert(toks[0] == g.ip);
    assert(toks.len() == 1 + g.hostnames.len());
    let made = Seq::new(
        (toks.len() - 1) as nat,
        |i: int| EntryV { ip: toks[0], hostname: toks[i + 1], enabled: true },
    );
    assert(mapping_entries(body, true) == made);
    assert forall|i: int| 0 <= i < made.len() implies made[i] == entries_of_group(g)[i] by {
        assert(toks[i + 1] == g.hostnames[i]);
    }
    assert(made =~= entries_of_group(g));
    assert(entries_of_group(g) + Seq::<EntryV>::empty() =~= entries_of_group(g));
}

/// Grouped lines parse back to the groups' entries, in order.
pub proof fn lemma_parse_group_lines(gs: Seq<GroupV>)
    requires
        forall|k: int| 0 <= k < gs.len() ==> wf_group(#[trigger] gs[k]),
    ensures
        spec_parse(group_lines(gs)) == entries_of_groups(gs),
    decreases gs.len(),
{
    if gs.len() == 0 {
        lemma_line_entries_empty();
        assert(spec_parse(group_lines(gs)) =~= entries_of_groups(gs));
    } else {
        assert(group_lines(gs) == group_line(gs[0]) + group_lines(gs.drop_first()));
        assert(group_line(gs[0]).last() == '\n');
        lemma_parse_append(group_line(gs[0]), group_lines(gs.drop_first()));
        lemma_parse_group_line(gs[0]);
        assert forall|k: int|
            0 <= k < gs.drop_first().len() implies wf_group(#[trigger] gs.drop_first()[k]) by {
            assert(gs.drop_first()[k] == gs[k + 1]);
        }
        lemma_parse_group_lines(gs.drop_first());
    }
}

/// Filing one more hostname keeps every group well formed.
proof fn lemma_upd_groups_wf(gs: Seq<GroupV>, ip: Seq<char>, h: Seq<char>)
    requires
        forall|k: int| 0 <= k < gs.len() ==> wf_group(#[trigger] gs[k]),
        is_ipv4_shaped(ip),
        valid_hostname(h),
    ensures
        forall|k: int|
            0 <= k < upd_groups(gs, ip, h).len() ==> wf_group(#[trigger] upd_groups(gs, ip, h)[k]),
    decreases gs.len(),
{
    let r = upd_groups(gs, ip, h);
    if gs.len() == 0 {
        let g = GroupV { ip: ip, hostnames: seq![h] };
        assert(seq![h][0] == h);
        assert(wf_group(g));
        assert forall|k: int| 0 <= k < r.len() implies wf_group(#[trigger] r[k]) by {
            assert(r[k] == g);
        }
    } else if gs[0].ip == ip {
        let g = GroupV { ip: gs[0].ip, hostnames: gs[0].hostnames.push(h) };
        assert(wf_group(gs[0]));
        assert forall|i: int|
            0 <= i < g.hostnames.len() implies valid_hostname(#[trigger] g.hostnames[i]) by {
            if i < gs[0].hostnames.len() {
                assert(g.hostnames[i] == gs[0].hostnames[i]);
            } else {
                assert(g.hostnames[i] == h);
            }
        }
        assert(wf_group(g));
        assert forall|k: int| 0 <= k < r.len() implies wf_group(#[trigger] r[k]) by {
            if k == 0 {
                assert(r[k] == g);
            } else {
                assert(r[k] == gs.drop_first()[k - 1]);
                assert(gs.drop_first()[k - 1] == gs[k]);
            }
        }
    } else {
        assert forall|k: int|
            0 <= k < gs.drop_first().len() implies wf_group(#[trigger] gs.drop_first()[k]) by {
            assert(gs.drop_first()[k] == gs[k + 1]);
        }
        lemma_upd_groups_wf(gs.drop_first(), ip, h);
        let rr = upd_groups(gs.drop_first(), ip, h);
        assert forall|k: int| 0 <= k < r.len() implies wf_group(#[trigger] r[k]) by {
            if k == 0 {
                assert(r[k] == gs[0]);
            } else {
                assert(r[k] == rr[k - 1]);
            }
        }
    }
}

/// Grouping well-formed entries yields well-formed groups.
pub proof fn lemma_groups_of_wf(es: Seq<EntryV>)
    requires
        forall|k: int| 0 <= k < es.len() ==> wf_entry(#[trigger] es[k]),
    ensures
        forall|k: int| 0 <= k < groups_of(es).len() ==> wf_group(#[trigger] groups_of(es)[k]),
    decreases es.len(),
{
    if es.len() == 0 {
    } else {
        assert forall|k: int|
            0 <= k < es.drop_last().len() implies wf_entry(#[trigger] es.drop_last()[k]) by {
            assert(es.drop_last()[k] == es[k]);
        }
        lemma_groups_of_wf(es.drop_last());
        if es.last().enabled {
            assert(wf_entry(es.last()));
            lemma_upd_groups_wf(groups_of(es.drop_last()), es.last().ip, es.last().hostname);
        }
    }
}

/// Incremental round trip: the grouped text written for well-formed entries
/// parses back to exactly the groups' entries — each ip paired with each of
/// its hostnames, enabled, in first-seen group order.
pub proof fn lemma_incremental_round_trip(es: Seq<EntryV>)
    requires
        forall|k: int| 0 <= k < es.len() ==> wf_entry(#[trigger] es[k]),
    ensures
        spec_parse(spec_incremental(es)) == entries_of_groups(groups_of(es)),
{
    lemma_groups_of_wf(es);
    lemma_parse_group_lines(groups_of(es));
}

/// A malformed line yields no entry and no error: if the mapping part of
/// the line — after the leading '#' for a comment line — has fewer than two
/// whitespace-separated tokens before any further '#', or its first token is
/// not IPv4-shaped, the line contributes nothing. Parsing is total, and by
/// `lemma_parse_append` each line contributes independently, so such a line
/// never disturbs the lines after it.
pub proof fn lemma_malformed_line_yields_nothing(line: Seq<char>)
    requires
        ({
            let t = trim_front(line);
            t.len() == 0 || {
                let r = if t[0] == '#' {
                    t.drop_first()
                } else {
                    t
                };
                let toks = split_ws(cut_comment(r));
                toks.len() < 2 || !is_ipv4_shaped(toks[0])
            }
        }),
    ensures
        spec_line_entries(line) == Seq::<EntryV>::empty(),
{
}

/// The enabled entries of a table, in order.
pub open spec fn enabled_of(es: Seq<EntryV>) -> Seq<EntryV>
    decreases es.len(),
{
    if es.len() == 0 {
        Seq::empty()
    } else {
        enabled_of(es.drop_last()) + (if es.last().enabled {
            seq![es.last()]
        } else {
            Seq::empty()
        })
    }
}

/// Filing one hostname adds exactly that one enabled mapping to the
/// entries the groups stand for.
proof fn lemma_upd_groups_multiset(gs: Seq<GroupV>, ip: Seq<char>, h: Seq<char>)
    ensures
        entries_of_groups(upd_groups(gs, ip, h)).to_multiset() == entries_of_groups(
            gs,
        ).to_multiset().insert(EntryV { ip: ip, hostname: h, enabled: true }),
    decreases gs.len(),
{
    broadcast use vstd::seq_lib::group_to_multiset_ensures;
    broadcast use vstd::multiset::group_multiset_axioms;
    broadcast use vstd::seq_lib::lemma_multiset_commutative;

    let e = EntryV { ip: ip, hostname: h, enabled: true };
    let r = upd_groups(gs, ip, h);
    if gs.len() == 0 {
        let g = GroupV { ip: ip, hostnames: seq![h] };
        assert(r == seq![g]);
        assert(r[0] == g);
        assert(r.drop_first() =~= Seq::<GroupV>::empty());
        assert(entries_of_groups(r) == entries_of_group(g) + entries_of_groups(
            Seq::<GroupV>::empty(),
        ));
        assert(seq![h][0] == h);
        assert(entries_of_group(g) + Seq::<EntryV>::empty() =~= Seq::<EntryV>::empty().push(e));
        assert(Seq::<EntryV>::empty().push(e).to_multiset() =~= Seq::<
            EntryV,
        >::empty().to_multiset().insert(e));
    } else if gs[0].ip == ip {
        let g = GroupV { ip: gs[0].ip, hostnames: gs[0].hostnames.push(h) };
        assert(r == seq![g] + gs.drop_first());
        assert(r[0] == g);
        assert(r.drop_first() =~= gs.drop_first());
        assert(entries_of_groups(r) == entries_of_group(g) + entries_of_groups(gs.drop_first()));
        assert(entries_of_group(g) =~= entries_of_group(gs[0]).push(e));
        assert(entries_of_groups(gs) == entries_of_group(gs[0]) + entries_of_groups(
            gs.drop_first(),
        ));
        let a = entries_of_group(gs[0]);
        let b = entries_of_groups(gs.drop_first());
        assert((a.push(e) + b).to_multiset() =~= a.push(e).to_multiset().add(b.to_multiset()));
        assert(a.push(e).to_multiset() =~= a.to_multiset().insert(e));
        assert((a + b).to_multiset() =~= a.to_multiset().add(b.to_multiset()));
        assert(a.to_multiset().insert(e).add(b.to_multiset()) =~= a.to_multiset().add(
            b.to_multiset(),
        ).insert(e));
    } else {
        lemma_upd_groups_multiset(gs.drop_first(), ip, h);
        assert(r == seq![gs[0]] + upd_groups(gs.drop_first(), ip, h));
        assert(r[0] == gs[0]);
        assert(r.drop_first() =~= upd_groups(gs.drop_first(), ip, h));
        assert(entries_of_groups(r) == entries_of_group(gs[0]) + entries_of_groups(
            upd_groups(gs.drop_first(), ip, h),
        ));
        assert(entries_of_groups(gs) == entries_of_group(gs[0]) + entries_of_groups(
            gs.drop_first(),
        ));
        let a = entries_of_group(gs[0]);
        let b = entries_of_groups(gs.drop_first());
        let bb = entries_of_groups(upd_groups(gs.drop_first(), ip, h));
        assert((a + bb).to_multiset() =~= a.to_multiset().add(bb.to_multiset()));
        assert((a + b).to_multiset() =~= a.to_multiset().add(b.to_multiset()));
        assert(a.to_multiset().add(b.to_multiset().insert(e)) =~= a.to_multiset().add(
            b.to_multiset(),
        ).insert(e));
    }
}

/// Grouping keeps exactly the enabled mappings, counted with multiplicity.
pub proof fn lemma_groups_of_multiset(es: Seq<EntryV>)
    ensures
        entries_of_groups(groups_of(es)).to_multiset() == enabled_of(es).to_multiset(),
    decreases es.len(),
{
    broadcast use vstd::seq_lib::group_to_multiset_ensures;
    broadcast use vstd::multiset::group_multiset_axioms;

    if es.len() == 0 {
    } else {
        lemma_groups_of_multiset(es.drop_last());
        let last = es.last();
        if last.enabled {
            let e = EntryV { ip: last.ip, hostname: last.hostname, enabled: true };
            assert(e =~= last);
            lemma_upd_groups_multiset(groups_of(es.drop_last()), last.ip, last.hostname);
            assert(enabled_of(es) =~= enabled_of(es.drop_last()).push(last));
            assert(enabled_of(es.drop_last()).push(last).to_multiset() =~= enabled_of(
                es.drop_last(),
            ).to_multiset().insert(last));
        } else {
            assert(enabled_of(es) =~= enabled_of(es.drop_last()));
        }
    }
}

/// The text an incremental save writes for well-formed entries parses back
/// to exactly the enabled mappings among them, counted with multiplicity:
/// grouping loses no mapping and invents none.
pub proof fn lemma_incremental_preserves_mappings(es: Seq<EntryV>)
    requires
        forall|k: int| 0 <= k < es.len() ==> wf_entry(#[trigger] es[k]),
    ensures
        spec_parse(spec_incremental(es)).to_multiset() == enabled_of(es).to_multiset(),
{
    lemma_incremental_round_trip(es);
    lemma_groups_of_multiset(es);
}

/// Round trip: serializing any sequence of well-formed entries and parsing
/// the result yields the same entries again, in the same order — in
/// particular the same set of mappings.
pub proof fn lemma_round_trip(es: Seq<EntryV>)
    requires
        forall|k: int| 0 <= k < es.len() ==> wf_entry(#[trigger] es[k]),
    ensures
        spec_parse(spec_serialize(es)) == es,
        spec_parse(spec_serialize(es)).to_set() == es.to_set(),
{
    reveal_strlit("\n");
    assert(spec_banner().last() == '\n');
    lemma_parse_append(spec_banner(), lines_of(es));
    lemma_parse_banner();
    lemma_parse_lines_of(es);
    assert(Seq::<EntryV>::empty() + es =~= es);
}

/// Saving an empty table and loading it back yields an empty table: the
/// banner contains no parsable mapping.
pub proof fn lemma_save_empty_loads_empty()
    ensures
        spec_parse(spec_serialize(Seq::<EntryV>::empty())) == Seq::<EntryV>::empty(),
{
    lemma_round_trip(Seq::<EntryV>::empty());
}

/// A backup file name is the fixed prefix followed by one or more decimal
/// digits: the seconds of the timestamp it was taken at.
pub proof fn lemma_backup_name_shape(secs: nat)
    ensures
        spec_backup_name(secs) == ("hosts.bak.")@ + dec_digits(secs),
        dec_digits(secs).len() >= 1,
        forall|i: int|
            0 <= i < dec_digits(secs).len() ==> is_digit_char(#[trigger] dec_digits(secs)[i]),
{
    lemma_dec_digits_shape(secs);
}

/// After an accepted add, the appended line parses back as the added
/// mapping: a second add of the same pair, without an intervening external
/// edit, finds the duplicate and is rejected.
pub proof fn lemma_add_then_duplicate(text: Seq<char>, ip: Seq<char>, hostname: Seq<char>)
    requires
        is_ipv4_shaped(ip),
        valid_hostname(hostname),
        text.len() == 0 || text.last() == '\n',
    ensures
        has_mapping(spec_parse(text + append_line(ip, hostname)), ip, hostname),
{
    let al = append_line(ip, hostname);
    lemma_parse_append(text, al);
    lemma_ipv4_chars(ip);
    lemma_ipv4_first_digit(ip);
    let body = ip + seq![' '] + hostname;
    assert(al == body + seq!['\n']);
    let p2 = ip + seq![' '];
    assert forall|i: int| 0 <= i < body.len() implies body[i] != '\n' by {
        if i < ip.len() {
            assert(body[i] == ip[i]);
            assert(is_digit_char(body[i]) || body[i] == '.');
        } else if i < p2.len() {
            assert(body[i] == ' ');
        } else {
            assert(body[i] == hostname[i - p2.len()]);
            assert(!is_ws_char(body[i]));
        }
    }
    lemma_parse_rec_skip_line(body, seq!['\n'], Seq::empty());
    assert(Seq::<char>::empty() + body =~= body);
    assert(seq!['\n'][0] == '\n');
    assert(seq!['\n'].drop_first() =~= Seq::<char>::empty());
    lemma_line_entries_empty();
    assert(parse_rec(seq!['\n'], body) == spec_line_entries(body) + parse_rec(
        Seq::<char>::empty(),
        Seq::empty(),
    ));
    // the body is exactly one enabled mapping
    assert(body[0] == ip[0]);
    assert(!is_ws_char(body[0]));
    lemma_trim_front_at(body, 0);
    assert(body.skip(0) =~= body);
    assert(body[0] != '#');
    lemma_mapping_entries_exact(Seq::<char>::empty(), ip, hostname, Seq::<char>::empty(), true);
    assert(Seq::<char>::empty() + ip + seq![' '] + hostname + Seq::<char>::empty() =~= body);
    let e = EntryV { ip: ip, hostname: hostname, enabled: true };
    assert(spec_line_entries(body) == seq![e]);
    assert(spec_parse(al) =~= seq![e]);
    let all = spec_parse(text + al);
    assert(all == spec_parse(text) + seq![e]);
    assert(all[all.len() - 1] == e);
}

} // verus!
