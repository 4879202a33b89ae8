//! The serializer: entries back to hosts-file text.
//!
//! Full-rewrite mode emits a two-line banner, a blank line, then one line per
//! entry in caller order: `"<ip> <hostname> "` for an enabled entry, the same
//! prefixed with `"# "` for a disabled one. Incremental mode renders only the
//! enabled entries, grouped by ip in first-seen order, one line per group,
//! hostnames joined by single spaces; it carries no banner, so a caller can
//! append its output to an existing file.

use vstd::prelude::*;
use crate::entry::{EntryV, HostEntry};

verus! {

/// The banner identifying a file rewritten by this tool.
pub open spec fn spec_banner() -> Seq<char> {
    ("# Hosts file managed by edHost\n")@ + ("# Generated automatically\n")@ + ("\n")@
}

/// One serialized line, without its newline.
pub open spec fn line_body(e: EntryV) -> Seq<char> {
    (if e.enabled {
        Seq::<char>::empty()
    } else {
        seq!['#', ' ']
    }) + e.ip + seq![' '] + e.hostname + seq![' ']
}

/// One serialized line.
pub open spec fn line_of(e: EntryV) -> Seq<char> {
    line_body(e) + seq!['\n']
}

/// The lines for a sequence of entries, in order.
pub open spec fn lines_of(es: Seq<EntryV>) -> Seq<char>
    decreases es.len(),
{
    if es.len() == 0 {
        Seq::empty()
    } else {
        line_of(es[0]) + lines_of(es.drop_first())
    }
}

/// Full-rewrite serialization: banner, then one line per entry.
pub open spec fn spec_serialize(es: Seq<EntryV>) -> Seq<char> {
    spec_banner() + lines_of(es)
}

pub proof fn lemma_lines_of_push(es: Seq<EntryV>, e: EntryV)
    ensures
        lines_of(es.push(e)) == lines_of(es) + line_of(e),
    decreases es.len(),
{
    if es.len() == 0 {
        assert(es.push(e)[0] == e);
        assert(es.push(e).drop_first() =~= Seq::<EntryV>::empty());
        assert(lines_of(es.push(e)) == line_of(e) + lines_of(Seq::<EntryV>::empty()));
        assert(line_of(e) + Seq::<char>::empty() =~= line_of(e));
        assert(Seq::<char>::empty() + line_of(e) =~= line_of(e));
    } else {
        assert(es.push(e)[0] == es[0]);
        assert(es.push(e).drop_first() =~= es.drop_first().push(e));
        lemma_lines_of_push(es.drop_first(), e);
        assert(line_of(es[0]) + (lines_of(es.drop_first()) + line_of(e)) =~= (line_of(es[0])
            + lines_of(es.drop_first())) + line_of(e));
    }
}

/// The banner as text.
pub fn banner_text() -> (out: String)
    ensures
        out@ == spec_banner(),
{
    let mut out = String::from_str("# Hosts file managed by edHost\n");
    out.append("# Generated automatically\n");
    out.append("\n");
    out
}

/// One entry as its line of text.
pub fn line_text(e: &HostEntry) -> (s: String)
    ensures
        s@ == line_of(e@),
{
    let mut s = String::new();
    if !e.enabled {
        s.append("# ");
    }
    s.append(e.ip.as_str());
    s.append(" ");
    s.append(e.hostname.as_str());
    s.append(" \n");
    proof {
        reveal_strlit("# ");
        reveal_strlit(" ");
        reveal_strlit(" \n");
        assert(("# ")@ =~= seq!['#', ' ']);
        assert((" ")@ =~= seq![' ']);
        assert((" \n")@ =~= seq![' ', '\n']);
        assert(s@ =~= line_of(e@));
    }
    s
}

/// Full rewrite: banner plus one line per entry, in the order supplied.
pub fn serialize(entries: &Vec<HostEntry>) -> (out: String)
    ensures
        out@ == spec_serialize(entries.deep_view()),
{
    let mut out = banner_text();
    let mut k: usize = 0;
    proof {
        assert(entries.deep_view().take(0) =~= Seq::<EntryV>::empty());
        assert(spec_banner() + Seq::<char>::empty() =~= spec_banner());
    }
    while k < entries.len()
        invariant
            k <= entries@.len(),
            out@ == spec_banner() + lines_of(entries.deep_view().take(k as int)),
        decreases entries@.len() - k,
    {
        let lt = line_text(&entries[k]);
        out.append(lt.as_str());
        proof {
            let es = entries.deep_view();
            assert(es[k as int] == entries@[k as int]@);
            assert(es.take(k as int + 1) =~= es.take(k as int).push(es[k as int]));
            lemma_lines_of_push(es.take(k as int), es[k as int]);
            assert((spec_banner() + lines_of(es.take(k as int))) + line_of(es[k as int])
                =~= spec_banner() + (lines_of(es.take(k as int)) + line_of(es[k as int])));
        }
        k = k + 1;
    }
    proof {
        assert(entries.deep_view().take(entries@.len() as int) =~= entries.deep_view());
    }
    out
}

/// Specification-level view of one ip group: the ip and its hostnames in
/// first-seen order.
#[verifier::ext_equal]
pub struct GroupV {
    pub ip: Seq<char>,
    pub hostnames: Seq<Seq<char>>,
}

/// One ip with the hostnames collected for it.
pub struct Group {
    pub ip: String,
    pub hostnames: Vec<String>,
}

impl View for Group {
    type V = GroupV;

    open spec fn view(&self) -> GroupV {
        GroupV { ip: self.ip@, hostnames: self.hostnames.deep_view() }
    }
}

impl DeepView for Group {
    type V = GroupV;

    open spec fn deep_view(&self) -> GroupV {
        self.view()
    }
}

/// Adds one hostname under `ip`: appended to the first group carrying `ip`,
/// or opens a new group at the end.
pub open spec fn upd_groups(gs: Seq<GroupV>, ip: Seq<char>, h: Seq<char>) -> Seq<GroupV>
    decreases gs.len(),
{
    if gs.len() == 0 {
        seq![GroupV { ip: ip, hostnames: seq![h] }]
    } else if gs[0].ip == ip {
        seq![GroupV { ip: gs[0].ip, hostnames: gs[0].hostnames.push(h) }] + gs.drop_first()
    } else {
        seq![gs[0]] + upd_groups(gs.drop_first(), ip, h)
    }
}

/// The groups formed by the enabled entries, in first-seen ip order.
pub open spec fn groups_of(es: Seq<EntryV>) -> Seq<GroupV>
    decreases es.len(),
{
    if es.len() == 0 {
        Seq::empty()
    } else {
        let gs = groups_of(es.drop_last());
        if es.last().enabled {
            upd_groups(gs, es.last().ip, es.last().hostname)
        } else {
            gs
        }
    }
}

/// Hostnames joined onto a line: one leading space before each.
pub open spec fn join_rest(hs: Seq<Seq<char>>) -> Seq<char>
    decreases hs.len(),
{
    if hs.len() == 0 {
        Seq::empty()
    } else {
        seq![' '] + hs[0] + join_rest(hs.drop_first())
    }
}

/// One group as its line of text.
pub open spec fn group_line(g: GroupV) -> Seq<char> {
    g.ip + join_rest(g.hostnames) + seq!['\n']
}

/// The lines for a sequence of groups, in order.
pub open spec fn group_lines(gs: Seq<GroupV>) -> Seq<char>
    decreases gs.len(),
{
    if gs.len() == 0 {
        Seq::empty()
    } else {
        group_line(gs[0]) + group_lines(gs.drop_first())
    }
}

/// Incremental serialization: the enabled entries grouped by ip.
pub open spec fn spec_incremental(es: Seq<EntryV>) -> Seq<char> {
    group_lines(groups_of(es))
}

/// A group whose line survives a trip through the parser: an IPv4-shaped ip
/// and at least one well-formed hostname.
pub open spec fn wf_group(g: GroupV) -> bool {
    crate::text::is_ipv4_shaped(g.ip) && g.hostnames.len() >= 1 && (forall|i: int|
        0 <= i < g.hostnames.len() ==> crate::entry::valid_hostname(#[trigger] g.hostnames[i]))
}

/// The entries one group stands for: its ip with each hostname, enabled.
pub open spec fn entries_of_group(g: GroupV) -> Seq<EntryV> {
    Seq::new(g.hostnames.len(), |i: int| EntryV { ip: g.ip, hostname: g.hostnames[i], enabled: true })
}

/// The entries a group list stands for, in group order.
pub open spec fn entries_of_groups(gs: Seq<GroupV>) -> Seq<EntryV>
    decreases gs.len(),
{
    if gs.len() == 0 {
        Seq::empty()
    } else {
        entries_of_group(gs[0]) + entries_of_groups(gs.drop_first())
    }
}

pub proof fn lemma_join_rest_push(hs: Seq<Seq<char>>, h: Seq<char>)
    ensures
        join_rest(hs.push(h)) == join_rest(hs) + (seq![' '] + h),
    decreases hs.len(),
{
    if hs.len() == 0 {
        assert(hs.push(h)[0] == h);
        assert(hs.push(h).drop_first() =~= Seq::<Seq<char>>::empty());
        assert(join_rest(hs.push(h)) == seq![' '] + h + join_rest(Seq::<Seq<char>>::empty()));
        assert(seq![' '] + h + Seq::<char>::empty() =~= seq![' '] + h);
        assert(Seq::<char>::empty() + (seq![' '] + h) =~= seq![' '] + h);
    } else {
        assert(hs.push(h)[0] == hs[0]);
        assert(hs.push(h).drop_first() =~= hs.drop_first().push(h));
        lemma_join_rest_push(hs.drop_first(), h);
        assert(seq![' '] + hs[0] + (join_rest(hs.drop_first()) + (seq![' '] + h)) =~= (seq![' ']
            + hs[0] + join_rest(hs.drop_first())) + (seq![' '] + h));
    }
}

pub proof fn lemma_group_lines_push(gs: Seq<GroupV>, g: GroupV)
    ensures
        group_lines(gs.push(g)) == group_lines(gs) + group_line(g),
    decreases gs.len(),
{
    if gs.len() == 0 {
        assert(gs.push(g)[0] == g);
        assert(gs.push(g).drop_first() =~= Seq::<GroupV>::empty());
        assert(group_lines(gs.push(g)) == group_line(g) + group_lines(Seq::<GroupV>::empty()));
        assert(group_line(g) + Seq::<char>::empty() =~= group_line(g));
        assert(Seq::<char>::empty() + group_line(g) =~= group_line(g));
    } else {
        assert(gs.push(g)[0] == gs[0]);
        assert(gs.push(g).drop_first() =~= gs.drop_first().push(g));
        lemma_group_lines_push(gs.drop_first(), g);
        assert(group_line(gs[0]) + (group_lines(gs.drop_first()) + group_line(g))
            =~= (group_line(gs[0]) + group_lines(gs.drop_first())) + group_line(g));
    }
}

/// `upd_groups` rewrites the first matching group in place.
proof fn lemma_upd_groups_at(gs: Seq<GroupV>, ip: Seq<char>, h: Seq<char>, k: int)
    requires
        0 <= k < gs.len(),
        gs[k].ip == ip,
        forall|j: int| 0 <= j < k ==> (#[trigger] gs[j]).ip != ip,
    ensures
        upd_groups(gs, ip, h) == gs.update(
            k,
            GroupV { ip: gs[k].ip, hostnames: gs[k].hostnames.push(h) },
        ),
    decreases k,
{
    if k == 0 {
        assert(seq![GroupV { ip: gs[0].ip, hostnames: gs[0].hostnames.push(h) }] + gs.drop_first()
            =~= gs.update(0, GroupV { ip: gs[0].ip, hostnames: gs[0].hostnames.push(h) }));
    } else {
        assert(gs[0].ip != ip);
        lemma_upd_groups_at(gs.drop_first(), ip, h, k - 1);
        assert(gs.drop_first()[k - 1] == gs[k]);
        assert(seq![gs[0]] + gs.drop_first().update(
            k - 1,
            GroupV { ip: gs[k].ip, hostnames: gs[k].hostnames.push(h) },
        ) =~= gs.update(k, GroupV { ip: gs[k].ip, hostnames: gs[k].hostnames.push(h) }));
    }
}

/// With no matching group, `upd_groups` opens a new one at the end.
proof fn lemma_upd_groups_none(gs: Seq<GroupV>, ip: Seq<char>, h: Seq<char>)
    requires
        forall|j: int| 0 <= j < gs.len() ==> (#[trigger] gs[j]).ip != ip,
    ensures
        upd_groups(gs, ip, h) == gs.push(GroupV { ip: ip, hostnames: seq![h] }),
    decreases gs.len(),
{
    if gs.len() == 0 {
        assert(seq![GroupV { ip: ip, hostnames: seq![h] }] =~= gs.push(
            GroupV { ip: ip, hostnames: seq![h] },
        ));
    } else {
        lemma_upd_groups_none(gs.drop_first(), ip, h);
        assert(seq![gs[0]] + gs.drop_first().push(GroupV { ip: ip, hostnames: seq![h] })
            =~= gs.push(GroupV { ip: ip, hostnames: seq![h] }));
    }
}

/// Files `hostname` under `ip` in the running group list.
fn add_to_groups(groups: &mut Vec<Group>, ip: &String, hostname: &String)
    ensures
        final(groups).deep_view() == upd_groups(old(groups).deep_view(), ip@, hostname@),
{
    let mut k: usize = 0;
    while k < groups.len()
        invariant
            k <= groups@.len(),
            *groups == *old(groups),
            forall|j: int| 0 <= j < k ==> (#[trigger] groups.deep_view()[j]).ip != ip@,
        decreases groups@.len() - k,
    {
        proof {
            assert(groups.deep_view()[k as int] == groups@[k as int]@);
        }
        if groups[k].ip.eq(ip) {
            let mut g = groups.remove(k);
            g.hostnames.push(hostname.clone());
            let ghost gv = g.deep_view();
            groups.insert(k, g);
            proof {
                let gs = old(groups).deep_view();
                assert(gv == (GroupV {
                    ip: gs[k as int].ip,
                    hostnames: gs[k as int].hostnames.push(hostname@),
                })) by {
                    assert(g.hostnames.deep_view() =~= gs[k as int].hostnames.push(hostname@));
                };
                lemma_upd_groups_at(gs, ip@, hostname@, k as int);
                assert(groups.deep_view() =~= gs.update(k as int, gv));
            }
            return ;
        }
        k = k + 1;
    }
    let g = Group { ip: ip.clone(), hostnames: vec![hostname.clone()] };
    let ghost gv = g.deep_view();
    let ghost gs = groups.deep_view();
    groups.push(g);
    proof {
        assert(gv == (GroupV { ip: ip@, hostnames: seq![hostname@] })) by {
            assert(gv.hostnames =~= seq![hostname@]);
        };
        lemma_upd_groups_none(gs, ip@, hostname@);
        assert(groups.deep_view() =~= gs.push(gv));
    }
}

/// Incremental serialization: enabled entries grouped by ip in first-seen
/// order, one line per group. No banner: the result is appended to an
/// existing file.
pub fn serialize_incremental(entries: &Vec<HostEntry>) -> (out: String)
    ensures
        out@ == spec_incremental(entries.deep_view()),
{
    let mut groups: Vec<Group> = Vec::new();
    let mut k: usize = 0;
    proof {
        assert(entries.deep_view().take(0) =~= Seq::<EntryV>::empty());
        assert(groups.deep_view() =~= Seq::<GroupV>::empty());
    }
    while k < entries.len()
        invariant
            k <= entries@.len(),
            groups.deep_view() == groups_of(entries.deep_view().take(k as int)),
        decreases entries@.len() - k,
    {
        let ghost es = entries.deep_view();
        proof {
            assert(es[k as int] == entries@[k as int]@);
            assert(es.take(k as int + 1).drop_last() =~= es.take(k as int));
            assert(es.take(k as int + 1).last() == es[k as int]);
        }
        let e = &entries[k];
        if e.enabled {
            add_to_groups(&mut groups, &e.ip, &e.hostname);
        }
        k = k + 1;
    }
    proof {
        assert(entries.deep_view().take(entries@.len() as int) =~= entries.deep_view());
    }
    let mut out = String::new();
    let mut g: usize = 0;
    proof {
        assert(groups.deep_view().take(0) =~= Seq::<GroupV>::empty());
    }
    while g < groups.len()
        invariant
            g <= groups@.len(),
            groups.deep_view() == groups_of(entries.deep_view()),
            out@ == group_lines(groups.deep_view().take(g as int)),
        decreases groups@.len() - g,
    {
        let ghost gv = groups.deep_view()[g as int];
        proof {
            assert(gv == groups@[g as int]@);
        }
        out.append(groups[g].ip.as_str());
        let mut j: usize = 0;
        proof {
            assert(gv.hostnames.take(0) =~= Seq::<Seq<char>>::empty());
            assert(out@ =~= group_lines(groups.deep_view().take(g as int)) + gv.ip + join_rest(
                gv.hostnames.take(0),
            ));
        }
        while j < groups[g].hostnames.len()
            invariant
                g < groups@.len(),
                j <= groups@[g as int].hostnames@.len(),
                gv == groups.deep_view()[g as int],
                gv == groups@[g as int]@,
                out@ == group_lines(groups.deep_view().take(g as int)) + gv.ip + join_rest(
                    gv.hostnames.take(j as int),
                ),
            decreases groups@[g as int].hostnames@.len() - j,
        {
            out.append(" ");
            out.append(groups[g].hostnames[j].as_str());
            proof {
                reveal_strlit(" ");
                assert((" ")@ =~= seq![' ']);
                let hs = gv.hostnames;
                assert(hs[j as int] == groups@[g as int].hostnames@[j as int]@);
                assert(hs.take(j as int + 1) =~= hs.take(j as int).push(hs[j as int]));
                lemma_join_rest_push(hs.take(j as int), hs[j as int]);
                assert(out@ =~= group_lines(groups.deep_view().take(g as int)) + gv.ip + join_rest(
                    hs.take(j as int + 1),
                ));
            }
            j = j + 1;
        }
        out.append("\n");
        proof {
            reveal_strlit("\n");
            assert(("\n")@ =~= seq!['\n']);
            let gs = groups.deep_view();
            assert(gv.hostnames.take(gv.hostnames.len() as int) =~= gv.hostnames);
            assert(gs.take(g as int + 1) =~= gs.take(g as int).push(gv));
            lemma_group_lines_push(gs.take(g as int), gv);
            assert(out@ =~= group_lines(gs.take(g as int + 1)));
        }
        g = g + 1;
    }
    proof {
        assert(groups.deep_view().take(groups@.len() as int) =~= groups.deep_view());
    }
    out
}

} // verus!
