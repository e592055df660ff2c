//! The reason log: the records of blacklisted domains, in the order stored.

use vstd::prelude::*;

verus! {

/// One record of the reason log: a blacklisted domain and why.
pub struct DomainEntry {
    pub domain: String,
    pub reason: String,
}

impl View for DomainEntry {
    type V = (Seq<char>, Seq<char>);

    open spec fn view(&self) -> (Seq<char>, Seq<char>) {
        (self.domain@, self.reason@)
    }
}

impl DomainEntry {
    /// A record for `domain` with `reason`.
    pub fn new(domain: &str, reason: &str) -> (r: DomainEntry)
        ensures
            r@ == (domain@, reason@),
    {
        DomainEntry { domain: String::from_str(domain), reason: String::from_str(reason) }
    }
}

/// The views of a sequence of records.
pub open spec fn entries_view(v: Seq<DomainEntry>) -> Seq<(Seq<char>, Seq<char>)> {
    v.map_values(|e: DomainEntry| e@)
}

/// Some record names `d`.
pub open spec fn has_domain(s: Seq<(Seq<char>, Seq<char>)>, d: Seq<char>) -> bool {
    exists|i: int| 0 <= i < s.len() && s[i].0 == d
}

/// At most one record names `d`.
pub open spec fn at_most_one(s: Seq<(Seq<char>, Seq<char>)>, d: Seq<char>) -> bool {
    forall|i: int, j: int| 0 <= i < s.len() && 0 <= j < s.len() && s[i].0 == d && s[j].0 == d ==> i == j
}

/// The position of the first record at or after `i` that names `d` (the
/// length where there is none).
pub open spec fn index_from(s: Seq<(Seq<char>, Seq<char>)>, d: Seq<char>, i: int) -> int
    decreases s.len() - i,
{
    if i < 0 || i >= s.len() {
        if i < 0 { 0 } else { s.len() as int }
    } else if s[i].0 == d {
        i
    } else {
        index_from(s, d, i + 1)
    }
}

/// The position of the first record that names `d` (the length where none does).
pub open spec fn first_index(s: Seq<(Seq<char>, Seq<char>)>, d: Seq<char>) -> int {
    index_from(s, d, 0)
}

proof fn lemma_index_from(s: Seq<(Seq<char>, Seq<char>)>, d: Seq<char>, i: int)
    requires
        0 <= i <= s.len(),
    ensures
        i <= index_from(s, d, i) <= s.len(),
        index_from(s, d, i) < s.len() ==> s[index_from(s, d, i)].0 == d,
        forall|k: int| i <= k < index_from(s, d, i) ==> s[k].0 != d,
    decreases s.len() - i,
{
    if i < s.len() && s[i].0 != d {
        lemma_index_from(s, d, i + 1);
    }
}

/// The first record that names `d` is where its name says, and only a log
/// without a record of `d` has it at the end.
pub proof fn lemma_first_index(s: Seq<(Seq<char>, Seq<char>)>, d: Seq<char>)
    ensures
        0 <= first_index(s, d) <= s.len(),
        has_domain(s, d) <==> first_index(s, d) < s.len(),
        first_index(s, d) < s.len() ==> s[first_index(s, d)].0 == d,
        forall|k: int| 0 <= k < first_index(s, d) ==> s[k].0 != d,
{
    lemma_index_from(s, d, 0);
    if has_domain(s, d) {
        let w = choose|w: int| 0 <= w < s.len() && s[w].0 == d;
        assert(w >= first_index(s, d));
    }
}

/// The reason of the first record that names `d`, if any does.
pub open spec fn reason_for(s: Seq<(Seq<char>, Seq<char>)>, d: Seq<char>) -> Option<Seq<char>> {
    if first_index(s, d) < s.len() {
        Some(s[first_index(s, d)].1)
    } else {
        None
    }
}

/// The log after recording reason `r` for `d`: the first record of `d` gets
/// the new reason in place, or a new record goes at the end.
pub open spec fn upserted(s: Seq<(Seq<char>, Seq<char>)>, d: Seq<char>, r: Seq<char>) -> Seq<
    (Seq<char>, Seq<char>),
> {
    if first_index(s, d) < s.len() {
        s.update(first_index(s, d), (d, r))
    } else {
        s.push((d, r))
    }
}

/// The log without the first record of `d`.
pub open spec fn removed(s: Seq<(Seq<char>, Seq<char>)>, d: Seq<char>) -> Seq<
    (Seq<char>, Seq<char>),
> {
    if first_index(s, d) < s.len() {
        s.remove(first_index(s, d))
    } else {
        s
    }
}

/// After recording a reason for `d` the log shows that reason for it; where
/// no record named `d` before, exactly one does after.
pub proof fn lemma_upserted(s: Seq<(Seq<char>, Seq<char>)>, d: Seq<char>, r: Seq<char>)
    ensures
        has_domain(upserted(s, d, r), d),
        reason_for(upserted(s, d, r), d) == Some(r),
        at_most_one(s, d) ==> at_most_one(upserted(s, d, r), d),
{
    let u = upserted(s, d, r);
    lemma_first_index(s, d);
    lemma_first_index(u, d);
    let k = if first_index(s, d) < s.len() { first_index(s, d) } else { s.len() as int };
    assert(u[k].0 == d);
    assert(first_index(u, d) == k) by {
        if first_index(u, d) < k {
            assert(u[first_index(u, d)] == s[first_index(u, d)]);
        }
    }
    if at_most_one(s, d) {
        assert forall|i: int, j: int|
            0 <= i < u.len() && 0 <= j < u.len() && u[i].0 == d && u[j].0 == d implies i == j by {
            if i != k {
                assert(s[i].0 == d);
            }
            if j != k {
                assert(s[j].0 == d);
            }
        }
    }
}

/// Where at most one record names `d`, taking out its first record leaves none.
pub proof fn lemma_removed(s: Seq<(Seq<char>, Seq<char>)>, d: Seq<char>)
    requires
        at_most_one(s, d),
    ensures
        !has_domain(removed(s, d), d),
{
    lemma_first_index(s, d);
    if first_index(s, d) < s.len() {
        let k = first_index(s, d);
        let u = removed(s, d);
        assert forall|i: int| 0 <= i < u.len() implies u[i].0 != d by {
            let si = if i < k { i } else { i + 1 };
            assert(u[i] == s[si]);
        }
    }
}

/// The reason log: its records in the order they were stored. Operations on
/// a domain act on the first record that names it.
pub struct ReasonLog {
    entries: Vec<DomainEntry>,
}

impl View for ReasonLog {
    type V = Seq<(Seq<char>, Seq<char>)>;

    closed spec fn view(&self) -> Seq<(Seq<char>, Seq<char>)> {
        entries_view(self.entries@)
    }
}

impl ReasonLog {
    /// An empty log.
    pub fn new() -> (r: ReasonLog)
        ensures
            r@ == Seq::<(Seq<char>, Seq<char>)>::empty(),
    {
        let r = ReasonLog { entries: Vec::new() };
        assert(r@ =~= Seq::<(Seq<char>, Seq<char>)>::empty());
        r
    }

    /// The log made of the given records, as they are.
    pub fn from_entries(entries: Vec<DomainEntry>) -> (r: ReasonLog)
        ensures
            r@ == entries_view(entries@),
    {
        ReasonLog { entries }
    }

    /// The records, in order.
    pub fn entries(&self) -> (r: &Vec<DomainEntry>)
        ensures
            entries_view(r@) == self@,
    {
        &self.entries
    }

    /// The number of records.
    pub fn len(&self) -> (r: usize)
        ensures
            r == self@.len(),
    {
        self.entries.len()
    }

    /// The position of the first record for `domain`, if there is one.
    pub fn find(&self, domain: &str) -> (r: Option<usize>)
        ensures
            match r {
                Some(i) => i == first_index(self@, domain@) && i < self@.len(),
                None => first_index(self@, domain@) == self@.len(),
            },
            r is None <==> !has_domain(self@, domain@),
    {
        proof {
            lemma_first_index(self@, domain@);
        }
        let target = String::from_str(domain);
        let n = self.entries.len();
        let mut i: usize = 0;
        while i < n
            invariant
                n == self@.len(),
                i <= n,
                target@ == domain@,
                index_from(self@, domain@, 0) == index_from(self@, domain@, i as int),
            decreases n - i,
        {
            if self.entries[i].domain == target {
                return Some(i);
            }
            i = i + 1;
        }
        None
    }

    /// The reason of the first record for `domain`, if there is one.
    pub fn reason_of(&self, domain: &str) -> (r: Option<String>)
        ensures
            match r {
                Some(s) => reason_for(self@, domain@) == Some(s@),
                None => reason_for(self@, domain@) is None,
            },
    {
        match self.find(domain) {
            Some(i) => Some(self.entries[i].reason.clone()),
            None => None,
        }
    }

    /// Records `reason` for `domain`: in place in its first record where the
    /// domain has one, else as a new record at the end. Tells whether it had one.
    pub fn upsert(&mut self, domain: &str, reason: &str) -> (existed: bool)
        ensures
            existed == has_domain(old(self)@, domain@),
            final(self)@ == upserted(old(self)@, domain@, reason@),
    {
        match self.find(domain) {
            Some(i) => {
                self.entries.set(i, DomainEntry::new(domain, reason));
                proof {
                    assert(self@ =~= upserted(old(self)@, domain@, reason@));
                }
                true
            },
            None => {
                self.entries.push(DomainEntry::new(domain, reason));
                proof {
                    assert(self@ =~= upserted(old(self)@, domain@, reason@));
                }
                false
            },
        }
    }

    /// Takes out the first record for `domain`, if there is one, and tells
    /// whether there was.
    pub fn remove(&mut self, domain: &str) -> (was_there: bool)
        ensures
            was_there == has_domain(old(self)@, domain@),
            final(self)@ == removed(old(self)@, domain@),
    {
        match self.find(domain) {
            Some(i) => {
                self.entries.remove(i);
                proof {
                    assert(self@ =~= removed(old(self)@, domain@));
                }
                true
            },
            None => false,
        }
    }
}

/// The log as loaded from its store: the records read, as stored, or an empty
/// log where the store was missing or could not be parsed.
pub fn load_reason_log(parsed: Option<Vec<DomainEntry>>) -> (r: ReasonLog)
    ensures
        r@ == match parsed {
            Some(v) => entries_view(v@),
            None => Seq::empty(),
        },
{
    match parsed {
        Some(v) => ReasonLog::from_entries(v),
        None => ReasonLog::new(),
    }
}

/// The records to store for a log, in order.
pub fn save_reason_log(log: &ReasonLog) -> (r: Vec<DomainEntry>)
    ensures
        entries_view(r@) == log@,
{
    let src = log.entries();
    let mut out: Vec<DomainEntry> = Vec::new();
    let n = src.len();
    let mut i: usize = 0;
    while i < n
        invariant
            n == src@.len(),
            i <= n,
            out@.len() == i,
            entries_view(out@) == entries_view(src@).subrange(0, i as int),
        decreases n - i,
    {
        let e = DomainEntry::new(src[i].domain.as_str(), src[i].reason.as_str());
        assert(e@ == entries_view(src@)[i as int]);
        let ghost before = out@;
        out.push(e);
        assert forall|k: int| 0 <= k <= i implies entries_view(out@)[k] == entries_view(src@)[k] by {
            if k < i {
                assert(out@[k] == before[k]);
                assert(entries_view(before)[k] == entries_view(src@).subrange(0, i as int)[k]);
            }
        }
        assert(entries_view(out@) =~= entries_view(src@).subrange(0, i + 1));
        i = i + 1;
    }
    assert(entries_view(src@).subrange(0, n as int) =~= entries_view(src@));
    out
}

} // verus!
