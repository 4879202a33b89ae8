//! The data model: one name-resolution mapping, the form a caller submits,
//! the operation errors, and the specification-level view of an entry.

use vstd::prelude::*;
use crate::text::{is_ws_char, is_ipv4_shaped};

verus! {

/// Specification-level view of a mapping: the two tokens and the flag.
#[verifier::ext_equal]
pub struct EntryV {
    pub ip: Seq<char>,
    pub hostname: Seq<char>,
    pub enabled: bool,
}

/// One mapping as loaded from or written to the hosts file. `enabled`
/// distinguishes an active line from the same mapping kept as a comment.
#[derive(Debug)]
pub struct HostEntry {
    pub ip: String,
    pub hostname: String,
    pub enabled: bool,
}

impl View for HostEntry {
    type V = EntryV;

    open spec fn view(&self) -> EntryV {
        EntryV { ip: self.ip@, hostname: self.hostname@, enabled: self.enabled }
    }
}

impl DeepView for HostEntry {
    type V = EntryV;

    open spec fn deep_view(&self) -> EntryV {
        self.view()
    }
}

impl HostEntry {
    pub fn new(ip: String, hostname: String, enabled: bool) -> (e: HostEntry)
        ensures
            e@ == (EntryV { ip: ip@, hostname: hostname@, enabled }),
    {
        HostEntry { ip, hostname, enabled }
    }

    pub fn dup(&self) -> (e: HostEntry)
        ensures
            e@ == self@,
    {
        HostEntry { ip: self.ip.clone(), hostname: self.hostname.clone(), enabled: self.enabled }
    }
}

/// The pair a caller submits when adding a mapping.
#[derive(Debug)]
pub struct HostForm {
    pub ip: String,
    pub hostname: String,
}

/// A hostname token: nonempty, no whitespace, no '#'. Such a token survives a
/// trip through the serializer and the parser unchanged.
pub open spec fn valid_hostname(h: Seq<char>) -> bool {
    h.len() > 0 && (forall|i: int| 0 <= i < h.len() ==> !is_ws_char(#[trigger] h[i]) && h[i] != '#')
}

/// An entry the serializer can represent faithfully.
pub open spec fn wf_entry(e: EntryV) -> bool {
    is_ipv4_shaped(e.ip) && valid_hostname(e.hostname)
}

/// Some entry, enabled or disabled, carries exactly this `(ip, hostname)`
/// pair.
pub open spec fn has_mapping(es: Seq<EntryV>, ip: Seq<char>, hostname: Seq<char>) -> bool {
    exists|k: int| 0 <= k < es.len() && (#[trigger] es[k]).ip == ip && es[k].hostname == hostname
}

/// Exact-string duplicate check over a loaded table.
pub fn contains_mapping(entries: &Vec<HostEntry>, ip: &String, hostname: &String) -> (r: bool)
    ensures
        r == has_mapping(entries.deep_view(), ip@, hostname@),
{
    let mut k: usize = 0;
    while k < entries.len()
        invariant
            k <= entries@.len(),
            forall|j: int|
                0 <= j < k ==> !((#[trigger] entries.deep_view()[j]).ip == ip@
                    && entries.deep_view()[j].hostname == hostname@),
        decreases entries@.len() - k,
    {
        let e = &entries[k];
        if e.ip.eq(ip) && e.hostname.eq(hostname) {
            proof {
                assert(entries.deep_view()[k as int].ip == ip@);
                assert(entries.deep_view()[k as int].hostname == hostname@);
            }
            return true;
        }
        proof {
            assert(entries.deep_view()[k as int] == entries@[k as int]@);
        }
        k = k + 1;
    }
    false
}

/// What an operation can report: an attempted duplicate add, a missing
/// desktop directory for backups, or an underlying file failure described by
/// the caller.
#[derive(Debug)]
pub enum HostsError {
    DuplicateMapping { ip: String, hostname: String },
    NoDesktopDir,
    Io { detail: String },
}

/// The message shown for an error.
pub open spec fn spec_message(e: HostsError) -> Seq<char> {
    match e {
        HostsError::DuplicateMapping { ip, hostname } => ("mapping already exists: ")@ + ip@ + (
        " -> ")@ + hostname@,
        HostsError::NoDesktopDir => ("could not resolve the desktop directory")@,
        HostsError::Io { detail } => ("file operation failed: ")@ + detail@,
    }
}

impl HostsError {
    /// Renders the error for display.
    pub fn message(&self) -> (m: String)
        ensures
            m@ == spec_message(*self),
    {
        match self {
            HostsError::DuplicateMapping { ip, hostname } => {
                let mut m = String::from_str("mapping already exists: ");
                m.append(ip.as_str());
                m.append(" -> ");
                m.append(hostname.as_str());
                m
            },
            HostsError::NoDesktopDir => String::from_str("could not resolve the desktop directory"),
            HostsError::Io { detail } => {
                let mut m = String::from_str("file operation failed: ");
                m.append(detail.as_str());
                m
            },
        }
    }
}

} // verus!
