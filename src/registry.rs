//! Add and remove across both stores, their reports, and the laws that relate the operations.

use vstd::prelude::*;
use crate::listing::{is_listing, row_domains, shown_reason};
use crate::reason_log::{
    at_most_one, has_domain, lemma_first_index, lemma_removed, lemma_upserted, reason_for, removed, upserted,
    ReasonLog,
};
use crate::zone::{
    count_domain, declaration_line, domains_of, lemma_count_domain, lemma_domains_append_declaration,
    lemma_lines_without, lemma_lines_without_absent, lines_without, plain_domain, ZoneFile,
};

verus! {

/// What an add did.
pub enum AddOutcome {
    /// The domain was new: it got a record and a declaration.
    Added,
    /// The domain had a record already: only its reason changed.
    ReasonUpdated,
}

/// What a remove did, store by store.
pub struct RemoveOutcome {
    /// A record was taken out of the reason log.
    pub from_log: bool,
    /// Declaration lines were taken out of the zone file.
    pub from_zone: bool,
}

/// The zone lines after an add of `d` to a log that was `log`.
pub open spec fn zone_after_add(
    log: Seq<(Seq<char>, Seq<char>)>,
    zone: Seq<Seq<char>>,
    d: Seq<char>,
) -> Seq<Seq<char>> {
    if has_domain(log, d) {
        zone
    } else {
        zone + seq![declaration_line(d), Seq::<char>::empty()]
    }
}

/// Blacklists `domain` for `reason`. A domain that the log knows gets the new
/// reason in place and no second declaration; a new one gets a record at the
/// end of the log and a declaration at the end of the zone file.
pub fn add_domain(log: &mut ReasonLog, zone: &mut ZoneFile, domain: &str, reason: &str) -> (r:
    AddOutcome)
    ensures
        final(log)@ == upserted(old(log)@, domain@, reason@),
        final(zone)@ == zone_after_add(old(log)@, old(zone)@, domain@),
        r == (if has_domain(old(log)@, domain@) {
            AddOutcome::ReasonUpdated
        } else {
            AddOutcome::Added
        }),
{
    let existed = log.upsert(domain, reason);
    if existed {
        AddOutcome::ReasonUpdated
    } else {
        zone.append_declaration(domain);
        AddOutcome::Added
    }
}

/// Takes `domain` out of both stores: its record from the log and every line
/// that declares it from the zone file. Each store is changed independently.
pub fn remove_domain(log: &mut ReasonLog, zone: &mut ZoneFile, domain: &str) -> (r: RemoveOutcome)
    ensures
        final(log)@ == removed(old(log)@, domain@),
        final(zone)@ == lines_without(old(zone)@, domain@),
        r.from_log == has_domain(old(log)@, domain@),
        r.from_zone == (count_domain(old(zone)@, domain@) > 0),
{
    let from_log = log.remove(domain);
    let from_zone = zone.remove_declaration(domain);
    RemoveOutcome { from_log, from_zone }
}

impl RemoveOutcome {
    /// Neither store held the domain.
    pub fn not_found(&self) -> (r: bool)
        ensures
            r == (!self.from_log && !self.from_zone),
    {
        !self.from_log && !self.from_zone
    }
}

/// The message that reports an add of `d`.
pub open spec fn add_message(outcome: AddOutcome, d: Seq<char>) -> Seq<char> {
    match outcome {
        AddOutcome::Added => "Domain "@ + d + " added to blacklist."@,
        AddOutcome::ReasonUpdated => "Record already exists, updated reason for domain "@ + d
            + "."@,
    }
}

/// The message that reports a remove of `d`.
pub open spec fn remove_message(outcome: RemoveOutcome, d: Seq<char>) -> Seq<char> {
    if outcome.from_zone {
        "Domain "@ + d + " removed from blacklist."@
    } else if outcome.from_log {
        "Domain "@ + d + " removed from the reason log."@
    } else {
        "Domain not found."@
    }
}

/// Reports an add of `domain`.
pub fn add_report(outcome: &AddOutcome, domain: &str) -> (r: String)
    ensures
        r@ == add_message(*outcome, domain@),
{
    match outcome {
        AddOutcome::Added => {
            let mut s = String::from_str("Domain ");
            s.append(domain);
            s.append(" added to blacklist.");
            s
        },
        AddOutcome::ReasonUpdated => {
            let mut s = String::from_str("Record already exists, updated reason for domain ");
            s.append(domain);
            s.append(".");
            s
        },
    }
}

/// Reports a remove of `domain`.
pub fn remove_report(outcome: &RemoveOutcome, domain: &str) -> (r: String)
    ensures
        r@ == remove_message(*outcome, domain@),
{
    if outcome.from_zone {
        let mut s = String::from_str("Domain ");
        s.append(domain);
        s.append(" removed from blacklist.");
        s
    } else if outcome.from_log {
        let mut s = String::from_str("Domain ");
        s.append(domain);
        s.append(" removed from the reason log.");
        s
    } else {
        String::from_str("Domain not found.")
    }
}

/// Reports the outcome of a resolver reload, which succeeded exactly when the
/// reload command exited with status zero.
pub fn reload_report(success: bool) -> (r: &'static str)
    ensures
        r@ == (if success {
            "BIND reloaded successfully."@
        } else {
            "Failed to reload BIND."@
        }),
{
    if success {
        "BIND reloaded successfully."
    } else {
        "Failed to reload BIND."
    }
}

/// Adding a domain that the log does not know and then listing shows that
/// domain with the reason given.
pub proof fn law_add_then_list(
    log: Seq<(Seq<char>, Seq<char>)>,
    zone: Seq<Seq<char>>,
    d: Seq<char>,
    reason: Seq<char>,
    rows: Seq<(Seq<char>, Seq<char>)>,
)
    requires
        !has_domain(log, d),
        plain_domain(d),
        is_listing(upserted(log, d, reason), zone_after_add(log, zone, d), rows),
    ensures
        exists|i: int| 0 <= i < rows.len() && rows[i] == (d, reason),
{
    let log1 = upserted(log, d, reason);
    lemma_upserted(log, d, reason);
    assert(shown_reason(log1, d) == reason);
    lemma_domains_append_declaration(zone, d);
    let ds = domains_of(zone_after_add(log, zone, d));
    domains_of(zone).to_multiset_ensures();
    assert(ds.to_multiset().count(d) > 0);
    row_domains(rows).to_multiset_ensures();
    assert(row_domains(rows).contains(d));
    let i = choose|i: int| 0 <= i < row_domains(rows).len() && row_domains(rows)[i] == d;
    assert(rows[i].0 == d);
    assert(rows[i].1 == shown_reason(log1, rows[i].0));
    assert(rows[i] == (d, reason));
}

/// Adding a new domain twice leaves exactly one record for it, with the
/// second reason, and exactly one declaration.
pub proof fn law_add_twice(
    log: Seq<(Seq<char>, Seq<char>)>,
    zone: Seq<Seq<char>>,
    d: Seq<char>,
    r1: Seq<char>,
    r2: Seq<char>,
)
    requires
        !has_domain(log, d),
        count_domain(zone, d) == 0,
        plain_domain(d),
    ensures
        ({
            let log1 = upserted(log, d, r1);
            let zone1 = zone_after_add(log, zone, d);
            let log2 = upserted(log1, d, r2);
            let zone2 = zone_after_add(log1, zone1, d);
            &&& has_domain(log2, d)
            &&& at_most_one(log2, d)
            &&& reason_for(log2, d) == Some(r2)
            &&& log2.len() == log.len() + 1
            &&& count_domain(zone2, d) == 1
        }),
{
    let log1 = upserted(log, d, r1);
    assert(at_most_one(log, d));
    lemma_first_index(log, d);
    lemma_upserted(log, d, r1);
    lemma_first_index(log1, d);
    lemma_upserted(log1, d, r2);
    lemma_domains_append_declaration(zone, d);
}

/// Removing a domain after adding it leaves it in neither store, and a listing
/// then does not show it, where the log held at most one record of it.
pub proof fn law_add_then_remove(
    log: Seq<(Seq<char>, Seq<char>)>,
    zone: Seq<Seq<char>>,
    d: Seq<char>,
    reason: Seq<char>,
    rows: Seq<(Seq<char>, Seq<char>)>,
)
    requires
        at_most_one(log, d),
        is_listing(
            removed(upserted(log, d, reason), d),
            lines_without(zone_after_add(log, zone, d), d),
            rows,
        ),
    ensures
        !has_domain(removed(upserted(log, d, reason), d), d),
        count_domain(lines_without(zone_after_add(log, zone, d), d), d) == 0,
        forall|i: int| 0 <= i < rows.len() ==> rows[i].0 != d,
{
    lemma_upserted(log, d, reason);
    lemma_removed(upserted(log, d, reason), d);
    let z = lines_without(zone_after_add(log, zone, d), d);
    lemma_lines_without(zone_after_add(log, zone, d), d);
    lemma_count_domain(z, d);
    domains_of(z).to_multiset_ensures();
    row_domains(rows).to_multiset_ensures();
    assert forall|i: int| 0 <= i < rows.len() implies rows[i].0 != d by {
        if rows[i].0 == d {
            assert(row_domains(rows)[i] == d);
            assert(row_domains(rows).contains(d));
        }
    }
}

/// Removing a domain that neither store holds changes neither.
pub proof fn law_remove_absent(log: Seq<(Seq<char>, Seq<char>)>, zone: Seq<Seq<char>>, d: Seq<char>)
    requires
        !has_domain(log, d),
        count_domain(zone, d) == 0,
    ensures
        removed(log, d) == log,
        lines_without(zone, d) == zone,
{
    lemma_first_index(log, d);
    lemma_lines_without_absent(zone, d);
}

} // verus!
