//! Operation planning: the pure decisions behind loading, adding, saving and
//! backing up. File access itself stays with the caller; these functions take
//! the current table and plain values, and hand back exact text or an error.

use vstd::prelude::*;
use crate::entry::{EntryV, HostEntry, HostForm, HostsError, has_mapping, contains_mapping};
use crate::emit::{
    GroupV, group_line, group_lines, groups_of, join_rest, serialize_incremental,
    spec_incremental, upd_groups,
};
use crate::text::is_digit_char;

verus! {

/// The one line an accepted add appends to the file.
pub open spec fn append_line(ip: Seq<char>, hostname: Seq<char>) -> Seq<char> {
    ip + seq![' '] + hostname + seq!['\n']
}

/// A single enabled entry serializes incrementally to its own line.
pub proof fn lemma_incremental_single(e: EntryV)
    requires
        e.enabled,
    ensures
        spec_incremental(seq![e]) == append_line(e.ip, e.hostname),
{
    let s = seq![e];
    assert(s.drop_last() =~= Seq::<EntryV>::empty());
    assert(s.last() == e);
    let g = GroupV { ip: e.ip, hostnames: seq![e.hostname] };
    assert(groups_of(Seq::<EntryV>::empty()) == Seq::<GroupV>::empty());
    assert(groups_of(s.drop_last()) == Seq::<GroupV>::empty());
    assert(groups_of(s) == upd_groups(groups_of(s.drop_last()), e.ip, e.hostname));
    assert(upd_groups(Seq::<GroupV>::empty(), e.ip, e.hostname) == seq![g]);
    assert(seq![g][0] == g);
    assert(seq![g].drop_first() =~= Seq::<GroupV>::empty());
    assert(group_lines(Seq::<GroupV>::empty()) == Seq::<char>::empty());
    assert(group_lines(seq![g].drop_first()) == Seq::<char>::empty());
    assert(group_lines(seq![g]) == group_line(g) + group_lines(seq![g].drop_first()));
    assert(seq![e.hostname][0] == e.hostname);
    assert(seq![e.hostname].drop_first() =~= Seq::<Seq<char>>::empty());
    assert(join_rest(Seq::<Seq<char>>::empty()) == Seq::<char>::empty());
    assert(join_rest(seq![e.hostname].drop_first()) == Seq::<char>::empty());
    assert(join_rest(seq![e.hostname]) == seq![' '] + e.hostname + join_rest(
        seq![e.hostname].drop_first(),
    ));
    assert(group_line(g) + Seq::<char>::empty() =~= append_line(e.ip, e.hostname));
}

/// Decides an add: a duplicate `(ip, hostname)` pair, enabled or disabled,
/// is rejected; otherwise the exact text to append to the file is returned.
pub fn plan_add(current: &Vec<HostEntry>, form: &HostForm) -> (r: Result<String, HostsError>)
    ensures
        r is Err <==> has_mapping(current.deep_view(), form.ip@, form.hostname@),
        (r matches Err(e) ==> e matches HostsError::DuplicateMapping { ip, hostname } && ip@
            == form.ip@ && hostname@ == form.hostname@),
        (r matches Ok(txt) ==> txt@ == append_line(form.ip@, form.hostname@)),
{
    if contains_mapping(current, &form.ip, &form.hostname) {
        Err(
            HostsError::DuplicateMapping {
                ip: form.ip.clone(),
                hostname: form.hostname.clone(),
            },
        )
    } else {
        let one = vec![
            HostEntry { ip: form.ip.clone(), hostname: form.hostname.clone(), enabled: true },
        ];
        let txt = serialize_incremental(&one);
        proof {
            let ev = EntryV { ip: form.ip@, hostname: form.hostname@, enabled: true };
            assert(one.deep_view() =~= seq![ev]);
            lemma_incremental_single(ev);
        }
        Ok(txt)
    }
}

/// The OS-specific hosts file path, as a pure function of the platform and
/// the `SystemRoot` variable the caller read.
pub fn resolve_hosts_path(windows: bool, system_root: Option<String>) -> (p: String)
    ensures
        windows ==> (match system_root {
            Some(root) => p@ == root@ + ("\\System32\\drivers\\etc\\hosts")@,
            None => p@ == ("C:\\Windows")@ + ("\\System32\\drivers\\etc\\hosts")@,
        }),
        !windows ==> p@ == ("/etc/hosts")@,
{
    if windows {
        let mut p = match system_root {
            Some(root) => root,
            None => String::from_str("C:\\Windows"),
        };
        p.append("\\System32\\drivers\\etc\\hosts");
        p
    } else {
        String::from_str("/etc/hosts")
    }
}

/// The decimal digit characters.
pub open spec fn digit_of(d: nat) -> char {
    if d == 0 {
        '0'
    } else if d == 1 {
        '1'
    } else if d == 2 {
        '2'
    } else if d == 3 {
        '3'
    } else if d == 4 {
        '4'
    } else if d == 5 {
        '5'
    } else if d == 6 {
        '6'
    } else if d == 7 {
        '7'
    } else if d == 8 {
        '8'
    } else {
        '9'
    }
}

/// The decimal rendering of `n`, most significant digit first.
pub open spec fn dec_digits(n: nat) -> Seq<char>
    decreases n,
{
    if n < 10 {
        seq![digit_of(n)]
    } else {
        dec_digits(n / 10).push(digit_of(n % 10))
    }
}

/// The rendering is nonempty and all digits.
pub proof fn lemma_dec_digits_shape(n: nat)
    ensures
        dec_digits(n).len() >= 1,
        forall|i: int| 0 <= i < dec_digits(n).len() ==> is_digit_char(#[trigger] dec_digits(n)[i]),
    decreases n,
{
    if n < 10 {
    } else {
        lemma_dec_digits_shape(n / 10);
        assert(forall|i: int|
            0 <= i < dec_digits(n / 10).len() ==> dec_digits(n)[i] == dec_digits(n / 10)[i]);
        assert(dec_digits(n).last() == digit_of(n % 10));
    }
}

fn digit_str(d: u64) -> (s: &'static str)
    requires
        d < 10,
    ensures
        s@ == seq![digit_of(d as nat)],
{
    if d == 0 {
        proof {
            reveal_strlit("0");
            assert(("0")@ =~= seq!['0']);
        }
        "0"
    } else if d == 1 {
        proof {
            reveal_strlit("1");
            assert(("1")@ =~= seq!['1']);
        }
        "1"
    } else if d == 2 {
        proof {
            reveal_strlit("2");
            assert(("2")@ =~= seq!['2']);
        }
        "2"
    } else if d == 3 {
        proof {
            reveal_strlit("3");
            assert(("3")@ =~= seq!['3']);
        }
        "3"
    } else if d == 4 {
        proof {
            reveal_strlit("4");
            assert(("4")@ =~= seq!['4']);
        }
        "4"
    } else if d == 5 {
        proof {
            reveal_strlit("5");
            assert(("5")@ =~= seq!['5']);
        }
        "5"
    } else if d == 6 {
        proof {
            reveal_strlit("6");
            assert(("6")@ =~= seq!['6']);
        }
        "6"
    } else if d == 7 {
        proof {
            reveal_strlit("7");
            assert(("7")@ =~= seq!['7']);
        }
        "7"
    } else if d == 8 {
        proof {
            reveal_strlit("8");
            assert(("8")@ =~= seq!['8']);
        }
        "8"
    } else {
        proof {
            reveal_strlit("9");
            assert(("9")@ =~= seq!['9']);
        }
        "9"
    }
}

/// Appends the decimal rendering of `n`.
fn push_dec(out: &mut String, n: u64)
    ensures
        final(out)@ == old(out)@ + dec_digits(n as nat),
    decreases n,
{
    if n < 10 {
        out.append(digit_str(n));
        proof {
            assert(old(out)@ + seq![digit_of(n as nat)] =~= old(out)@ + dec_digits(n as nat));
        }
    } else {
        push_dec(out, n / 10);
        out.append(digit_str(n % 10));
        proof {
            assert((old(out)@ + dec_digits((n / 10) as nat)) + seq![digit_of((n % 10) as nat)]
                =~= old(out)@ + dec_digits(n as nat));
        }
    }
}

/// The timestamped backup file name.
pub open spec fn spec_backup_name(secs: nat) -> Seq<char> {
    ("hosts.bak.")@ + dec_digits(secs)
}

/// `hosts.bak.<unix_epoch_seconds>`: the destination name for a backup copy
/// taken at `secs`.
pub fn backup_file_name(secs: u64) -> (name: String)
    ensures
        name@ == spec_backup_name(secs as nat),
{
    let mut name = String::from_str("hosts.bak.");
    push_dec(&mut name, secs);
    name
}

} // verus!
