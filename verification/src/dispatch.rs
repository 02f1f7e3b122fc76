//! The event dispatcher: turns an external change notification into a
//! broadcast plan covering every registered agent, and an operator's
//! request into a unicast to the first agent with a given hostname.
//!
//! Both take the registry read-only: a failed delivery never removes an
//! entry here — only the heartbeat cycle evicts.
use crate::commands::Command;
use crate::commands::CommandView;
use crate::commands::fits_on_wire;
use crate::commands::serialize_command;
use crate::commands::spec_serialize;
use crate::registry::EntryView;
use crate::registry::Registry;
use vstd::prelude::*;

verus! {

/// The connection identities of a table's entries, in table order.
pub open spec fn ids_of(s: Seq<EntryView>) -> Seq<Seq<char>> {
    s.map(|i: int, e: EntryView| e.id)
}

/// Whether some entry announced the given hostname.
pub open spec fn contains_hostname(s: Seq<EntryView>, name: Seq<char>) -> bool {
    exists|i: int| 0 <= i < s.len() && s[i].hostname == Some(name)
}

/// Whether entry `i` is the first in table order that announced `name`.
pub open spec fn first_hostname_match(s: Seq<EntryView>, name: Seq<char>, i: int) -> bool {
    &&& 0 <= i < s.len()
    &&& s[i].hostname == Some(name)
    &&& forall|j: int| 0 <= j < i ==> s[j].hostname != Some(name)
}

/// The broadcast plan for one change notification: the encoded `Update`
/// — built once — and the identity of every registered agent, each of
/// which is to receive exactly that message. The registry itself is
/// untouched; agents whose delivery fails are left to the heartbeat
/// cycle.
pub fn broadcast_update(reg: &Registry) -> (r: (Vec<u8>, Vec<String>))
    ensures
        r.0@ == spec_serialize(CommandView::Update),
        r.1@.map(|i: int, s: String| s@) =~= ids_of(reg@),
{
    let msg = match serialize_command(&Command::Update) {
        Ok(m) => m,
        Err(_) => {
            // A payload-free command always fits on the wire.
            proof {
                assert(false);
            }
            Vec::new()
        },
    };
    let n = reg.len();
    let mut targets: Vec<String> = Vec::new();
    let mut i: usize = 0;
    while i < n
        invariant
            i <= n,
            n == reg@.len(),
            targets@.len() == i,
            forall|j: int| 0 <= j < i ==> targets@[j]@ == reg@[j].id,
        decreases n - i,
    {
        targets.push(reg.entry_at(i).id.clone());
        i = i + 1;
    }
    proof {
        assert(targets@.map(|i: int, s: String| s@) =~= ids_of(reg@));
    }
    (msg, targets)
}

/// The unicast plan for an operator's `send`: the identity of the first
/// entry that announced the requested hostname, with the payload encoded
/// as a `Custom`; nothing when no agent announced that hostname (a
/// user-facing miss, not a fault) or — for no payload an operator can
/// type — when the payload cannot be encoded.
pub fn unicast_by_name(reg: &Registry, hostname: &String, data: &String) -> (r: Option<
    (String, Vec<u8>),
>)
    ensures
        r is Some <==> contains_hostname(reg@, hostname@) && fits_on_wire(
            CommandView::Custom { data: data@ },
        ),
        r matches Some(p) ==> p.1@ == spec_serialize(CommandView::Custom { data: data@ })
            && exists|i: int|
            #![auto]
            first_hostname_match(reg@, hostname@, i) && p.0@ == reg@[i].id,
{
    match reg.find_by_hostname(hostname) {
        Some(i) => {
            let cmd = Command::Custom { data: data.clone() };
            match serialize_command(&cmd) {
                Ok(m) => {
                    let id = reg.entry_at(i).id.clone();
                    proof {
                        let iv = i as int;
                        assert(first_hostname_match(reg@, hostname@, iv) && id@ == reg@[iv].id);
                    }
                    Some((id, m))
                },
                Err(_) => None,
            }
        },
        None => None,
    }
}

/// One line of the operator's `list` view for each entry, in table
/// order: the connection identity and the announced hostname, or a
/// placeholder for an agent that has not identified itself.
pub fn list_lines(reg: &Registry) -> (r: Vec<String>)
    ensures
        r@.len() == reg@.len(),
        forall|i: int| 0 <= i < reg@.len() ==> r@[i]@ == list_line(reg@[i]),
{
    let n = reg.len();
    let mut lines: Vec<String> = Vec::new();
    let mut i: usize = 0;
    while i < n
        invariant
            i <= n,
            n == reg@.len(),
            lines@.len() == i,
            forall|j: int| 0 <= j < i ==> lines@[j]@ == list_line(reg@[j]),
        decreases n - i,
    {
        let e = reg.entry_at(i);
        let mut line = String::from_str(" - ");
        line.append(e.id.as_str());
        line.append(" (hostname: ");
        match &e.record.hostname {
            Some(h) => line.append(h.as_str()),
            None => line.append("<no-hostname>"),
        }
        line.append(")");
        lines.push(line);
        i = i + 1;
    }
    lines
}

/// What the operator's `list` shows for one entry.
pub open spec fn list_line(e: EntryView) -> Seq<char> {
    " - "@ + e.id + " (hostname: "@ + (match e.hostname {
        Some(h) => h,
        None => "<no-hostname>"@,
    }) + ")"@
}

} // verus!
