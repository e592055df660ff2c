//! Listing the declared domains in lexicographic order with their reasons.

use vstd::prelude::*;
use crate::reason_log::{reason_for, ReasonLog};
use crate::zone::{domains_of, lines_view, ZoneFile};

verus! {

/// Lexicographic order on character sequences, by code point.
pub open spec fn lex_le(a: Seq<char>, b: Seq<char>) -> bool
    decreases a.len(),
{
    if a.len() == 0 {
        true
    } else if b.len() == 0 {
        false
    } else if a[0] < b[0] {
        true
    } else if a[0] > b[0] {
        false
    } else {
        lex_le(a.drop_first(), b.drop_first())
    }
}

/// Any two sequences are ordered one way or the other.
pub proof fn lemma_lex_total(a: Seq<char>, b: Seq<char>)
    ensures
        lex_le(a, b) || lex_le(b, a),
    decreases a.len(),
{
    if a.len() > 0 && b.len() > 0 && a[0] == b[0] {
        lemma_lex_total(a.drop_first(), b.drop_first());
    }
}

/// The order is transitive.
pub proof fn lemma_lex_trans(a: Seq<char>, b: Seq<char>, c: Seq<char>)
    requires
        lex_le(a, b),
        lex_le(b, c),
    ensures
        lex_le(a, c),
    decreases a.len(),
{
    if a.len() > 0 && b.len() > 0 && c.len() > 0 && a[0] == b[0] && b[0] == c[0] {
        lemma_lex_trans(a.drop_first(), b.drop_first(), c.drop_first());
    }
}

/// The sequence is in lexicographic order.
pub open spec fn sorted(s: Seq<Seq<char>>) -> bool {
    forall|i: int, j: int| 0 <= i < j < s.len() ==> lex_le(s[i], s[j])
}

/// Inserting an element adds it to the multiset of elements.
pub proof fn lemma_insert_multiset<A>(s: Seq<A>, p: int, x: A)
    requires
        0 <= p <= s.len(),
    ensures
        s.insert(p, x).to_multiset() =~= s.to_multiset().insert(x),
{
    let t = s.insert(p, x);
    assert(t.remove(p) =~= s);
    t.to_multiset_ensures();
    assert(t.contains(x)) by {
        assert(t[p] == x);
    }
}

/// Whether `a` comes no later than `b` in lexicographic order.
pub fn str_le(a: &str, b: &str) -> (r: bool)
    ensures
        r == lex_le(a@, b@),
{
    let la = a.unicode_len();
    let lb = b.unicode_len();
    let mut i: usize = 0;
    assert(a@.subrange(0, la as int) =~= a@ && b@.subrange(0, lb as int) =~= b@);
    while i < la && i < lb
        invariant
            la == a@.len(),
            lb == b@.len(),
            i <= la,
            i <= lb,
            lex_le(a@, b@) == lex_le(a@.subrange(i as int, la as int), b@.subrange(i as int, lb as int)),
        decreases la - i,
    {
        let ca = a.get_char(i);
        let cb = b.get_char(i);
        let ghost sa = a@.subrange(i as int, la as int);
        let ghost sb = b@.subrange(i as int, lb as int);
        assert(sa[0] == a@[i as int] && sb[0] == b@[i as int]);
        if ca < cb {
            return true;
        }
        if ca > cb {
            return false;
        }
        assert(sa.drop_first() =~= a@.subrange(i + 1, la as int));
        assert(sb.drop_first() =~= b@.subrange(i + 1, lb as int));
        i = i + 1;
    }
    i == la
}

/// The domains in lexicographic order: the same elements, as many times each.
pub fn sort_domains(v: Vec<String>) -> (r: Vec<String>)
    ensures
        sorted(lines_view(r@)),
        lines_view(r@).to_multiset() == lines_view(v@).to_multiset(),
{
    let mut out: Vec<String> = Vec::new();
    let n = v.len();
    let mut i: usize = 0;
    proof {
        assert(lines_view(out@) =~= Seq::<Seq<char>>::empty());
        assert(lines_view(v@).subrange(0, 0) =~= Seq::<Seq<char>>::empty());
    }
    while i < n
        invariant
            n == v@.len(),
            i <= n,
            out@.len() == i,
            sorted(lines_view(out@)),
            lines_view(out@).to_multiset() == lines_view(v@).subrange(0, i as int).to_multiset(),
        decreases n - i,
    {
        let d = v[i].clone();
        let m = out.len();
        let mut p: usize = 0;
        while p < m && str_le(out[p].as_str(), d.as_str())
            invariant
                m == out@.len(),
                p <= m,
                forall|k: int| 0 <= k < p ==> lex_le(#[trigger] lines_view(out@)[k], d@),
            decreases m - p,
        {
            p = p + 1;
        }
        let ghost before = lines_view(out@);
        proof {
            assert forall|k: int| p <= k < m implies lex_le(d@, #[trigger] before[k]) by {
                lemma_lex_total(before[p as int], d@);
                if k > p {
                    lemma_lex_trans(d@, before[p as int], before[k]);
                }
            }
            lemma_insert_multiset(before, p as int, d@);
            let pre = lines_view(v@).subrange(0, i as int);
            assert(lines_view(v@).subrange(0, i + 1) =~= pre.push(d@));
            pre.to_multiset_ensures();
        }
        out.insert(p, d);
        proof {
            let after = lines_view(out@);
            assert(after =~= before.insert(p as int, d@));
            assert forall|a: int, b: int| 0 <= a < b < after.len() implies lex_le(
                after[a],
                after[b],
            ) by {
                if b < p {
                } else if b == p {
                } else if a < p {
                    lemma_lex_trans(before[a], d@, before[b - 1]);
                } else if a == p {
                } else {
                }
            }
        }
        i = i + 1;
    }
    assert(lines_view(v@).subrange(0, n as int) =~= lines_view(v@));
    out
}

/// The placeholder shown for a domain that has no recorded reason.
pub open spec fn default_reason() -> Seq<char> {
    "No reason provided."@
}

/// The reason that a listing shows for `d`: the recorded one, or the placeholder.
pub open spec fn shown_reason(log: Seq<(Seq<char>, Seq<char>)>, d: Seq<char>) -> Seq<char> {
    match reason_for(log, d) {
        Some(r) => r,
        None => default_reason(),
    }
}

/// One row of a listing: a declared domain and the reason shown for it.
pub struct ListedDomain {
    pub domain: String,
    pub reason: String,
}

impl View for ListedDomain {
    type V = (Seq<char>, Seq<char>);

    open spec fn view(&self) -> (Seq<char>, Seq<char>) {
        (self.domain@, self.reason@)
    }
}

/// The views of a sequence of rows.
pub open spec fn listed_view(v: Seq<ListedDomain>) -> Seq<(Seq<char>, Seq<char>)> {
    v.map_values(|e: ListedDomain| e@)
}

/// The domains of a sequence of rows.
pub open spec fn row_domains(rows: Seq<(Seq<char>, Seq<char>)>) -> Seq<Seq<char>> {
    rows.map_values(|p: (Seq<char>, Seq<char>)| p.0)
}

/// `rows` lists the zone lines against the log: every declared domain once for
/// each declaration, in lexicographic order, each with the reason shown for it.
pub open spec fn is_listing(
    log: Seq<(Seq<char>, Seq<char>)>,
    zone: Seq<Seq<char>>,
    rows: Seq<(Seq<char>, Seq<char>)>,
) -> bool {
    &&& sorted(row_domains(rows))
    &&& row_domains(rows).to_multiset() == domains_of(zone).to_multiset()
    &&& forall|i: int| 0 <= i < rows.len() ==> #[trigger] rows[i].1 == shown_reason(log, rows[i].0)
}

/// The rows of a listing of the zone file against the reason log.
pub fn list_domains(log: &ReasonLog, zone: &ZoneFile) -> (r: Vec<ListedDomain>)
    ensures
        is_listing(log@, zone@, listed_view(r@)),
{
    let sorted_domains = sort_domains(zone.domains());
    let mut rows: Vec<ListedDomain> = Vec::new();
    let n = sorted_domains.len();
    let mut i: usize = 0;
    while i < n
        invariant
            n == sorted_domains@.len(),
            i <= n,
            rows@.len() == i,
            row_domains(listed_view(rows@)) == lines_view(sorted_domains@).subrange(0, i as int),
            forall|k: int|
                0 <= k < i ==> #[trigger] listed_view(rows@)[k].1 == shown_reason(
                    log@,
                    listed_view(rows@)[k].0,
                ),
        decreases n - i,
    {
        let d = sorted_domains[i].clone();
        let reason = match log.reason_of(d.as_str()) {
            Some(r) => r,
            None => String::from_str("No reason provided."),
        };
        let row = ListedDomain { domain: d, reason };
        let ghost before = rows@;
        rows.push(row);
        proof {
            assert forall|k: int| 0 <= k < i implies rows@[k] == before[k] by {}
            assert(row_domains(listed_view(rows@)) =~= lines_view(sorted_domains@).subrange(
                0,
                i + 1,
            ));
            assert forall|k: int| 0 <= k <= i implies #[trigger] listed_view(rows@)[k].1
                == shown_reason(log@, listed_view(rows@)[k].0) by {
                if k < i {
                    assert(listed_view(rows@)[k] == listed_view(before)[k]);
                }
            }
        }
        i = i + 1;
    }
    assert(lines_view(sorted_domains@).subrange(0, n as int) =~= lines_view(sorted_domains@));
    rows
}

/// The largest length among the sequences (0 for none).
pub open spec fn max_len(s: Seq<Seq<char>>) -> nat
    decreases s.len(),
{
    if s.len() == 0 {
        0
    } else {
        let m = max_len(s.drop_last());
        if s.last().len() > m {
            s.last().len()
        } else {
            m
        }
    }
}

/// The width of the domain column: the length of the longest domain.
pub fn listing_width(rows: &Vec<ListedDomain>) -> (w: usize)
    ensures
        w == max_len(row_domains(listed_view(rows@))),
{
    let n = rows.len();
    let mut w: usize = 0;
    let mut i: usize = 0;
    while i < n
        invariant
            n == rows@.len(),
            i <= n,
            w == max_len(row_domains(listed_view(rows@)).subrange(0, i as int)),
        decreases n - i,
    {
        let l = rows[i].domain.as_str().unicode_len();
        proof {
            let s = row_domains(listed_view(rows@));
            assert(s.subrange(0, i + 1).drop_last() =~= s.subrange(0, i as int));
        }
        if l > w {
            w = l;
        }
        i = i + 1;
    }
    assert(row_domains(listed_view(rows@)).subrange(0, n as int) =~= row_domains(
        listed_view(rows@),
    ));
    w
}

/// `s` followed by spaces up to `width` characters (unchanged when it is as
/// long already).
pub open spec fn padded(s: Seq<char>, width: nat) -> Seq<char> {
    if s.len() >= width {
        s
    } else {
        s + Seq::new((width - s.len()) as nat, |i: int| ' ')
    }
}

/// The display line of one row, its domain padded to `width`.
pub open spec fn row_line(row: (Seq<char>, Seq<char>), width: nat) -> Seq<char> {
    " - "@ + padded(row.0, width) + " \u{bb} "@ + row.1
}

/// Renders one row of a listing, its domain padded to `width` characters.
pub fn render_row(row: &ListedDomain, width: usize) -> (r: String)
    ensures
        r@ == row_line(row@, width as nat),
{
    let mut out = String::from_str(" - ");
    out.append(row.domain.as_str());
    let l = row.domain.as_str().unicode_len();
    let ghost base = out@;
    let mut k: usize = l;
    proof {
        assert(out@ =~= base + Seq::new((k - l) as nat, |i: int| ' '));
    }
    while k < width
        invariant
            l == row.domain@.len(),
            l <= k,
            l < width ==> k <= width,
            l >= width ==> k == l,
            out@ == base + Seq::new((k - l) as nat, |i: int| ' '),
            base == " - "@ + row.domain@,
        decreases width - k,
    {
        out.append(" ");
        proof {
            reveal_strlit(" ");
            assert(out@ =~= base + Seq::new((k + 1 - l) as nat, |i: int| ' '));
        }
        k = k + 1;
    }
    proof {
        if l >= width {
            assert(out@ =~= " - "@ + row.domain@);
        } else {
            assert(out@ =~= " - "@ + padded(row.domain@, width as nat));
        }
    }
    out.append(" \u{bb} ");
    out.append(row.reason.as_str());
    out
}

/// The noun of the listing's heading for `n` domains.
pub fn domain_noun(n: usize) -> (r: &'static str)
    ensures
        r@ == (if n == 1 {
            "domain"@
        } else {
            "domains"@
        }),
{
    if n == 1 {
        "domain"
    } else {
        "domains"
    }
}


/// Two sequences ordered each before the other are equal.
pub proof fn lemma_lex_antisym(a: Seq<char>, b: Seq<char>)
    requires
        lex_le(a, b),
        lex_le(b, a),
    ensures
        a == b,
    decreases a.len(),
{
    if a.len() > 0 {
        lemma_lex_antisym(a.drop_first(), b.drop_first());
        assert(a =~= b) by {
            assert forall|i: int| 0 <= i < a.len() implies a[i] == b[i] by {
                if i > 0 {
                    assert(a[i] == a.drop_first()[i - 1]);
                    assert(b[i] == b.drop_first()[i - 1]);
                }
            }
        }
    }
}

/// Sorted sequences with the same elements, as many times each, are equal.
pub proof fn lemma_sorted_unique(s: Seq<Seq<char>>, t: Seq<Seq<char>>)
    requires
        sorted(s),
        sorted(t),
        s.to_multiset() == t.to_multiset(),
    ensures
        s == t,
    decreases s.len(),
{
    s.to_multiset_ensures();
    t.to_multiset_ensures();
    if s.len() > 0 {
        assert(t.len() == s.len());
        assert(s.contains(s[0]));
        assert(s.to_multiset().count(s[0]) > 0);
        assert(t.to_multiset().count(s[0]) > 0);
        assert(t.contains(s[0]));
        let j = choose|j: int| 0 <= j < t.len() && t[j] == s[0];
        assert(t.contains(t[0]));
        assert(t.to_multiset().count(t[0]) > 0);
        assert(s.to_multiset().count(t[0]) > 0);
        assert(s.contains(t[0]));
        let k = choose|k: int| 0 <= k < s.len() && s[k] == t[0];
        if j > 0 {
            assert(lex_le(t[0], t[j]));
        }
        if k > 0 {
            assert(lex_le(s[0], s[k]));
        }
        // Totality on a pair of equal sequences gives reflexivity.
        lemma_lex_total(s[0], s[0]);
        lemma_lex_antisym(s[0], t[0]);
        let s1 = s.remove(0);
        let t1 = t.remove(0);
        assert(s1 =~= s.drop_first());
        assert(t1 =~= t.drop_first());
        assert(sorted(s1)) by {
            assert forall|a: int, b: int| 0 <= a < b < s1.len() implies lex_le(s1[a], s1[b]) by {
                assert(s1[a] == s[a + 1] && s1[b] == s[b + 1]);
            }
        }
        assert(sorted(t1)) by {
            assert forall|a: int, b: int| 0 <= a < b < t1.len() implies lex_le(t1[a], t1[b]) by {
                assert(t1[a] == t[a + 1] && t1[b] == t[b + 1]);
            }
        }
        lemma_sorted_unique(s1, t1);
        assert(s =~= t) by {
            assert forall|i: int| 0 <= i < s.len() implies s[i] == t[i] by {
                if i > 0 {
                    assert(s[i] == s1[i - 1] && t[i] == t1[i - 1]);
                }
            }
        }
    } else {
        assert(t.len() == 0);
        assert(s =~= t);
    }
}

/// A listing depends only on the log and on which domains are declared how
/// often, not on the order of the declarations: two zone files that declare
/// the same domains list the same rows.
pub proof fn law_listing_order_independent(
    log: Seq<(Seq<char>, Seq<char>)>,
    zone1: Seq<Seq<char>>,
    zone2: Seq<Seq<char>>,
    rows1: Seq<(Seq<char>, Seq<char>)>,
    rows2: Seq<(Seq<char>, Seq<char>)>,
)
    requires
        domains_of(zone1).to_multiset() == domains_of(zone2).to_multiset(),
        is_listing(log, zone1, rows1),
        is_listing(log, zone2, rows2),
    ensures
        rows1 == rows2,
{
    lemma_sorted_unique(row_domains(rows1), row_domains(rows2));
    assert(rows1.len() == row_domains(rows1).len());
    assert forall|i: int| 0 <= i < rows1.len() implies rows1[i] == rows2[i] by {
        assert(row_domains(rows1)[i] == row_domains(rows2)[i]);
        assert(rows1[i].1 == shown_reason(log, rows1[i].0));
        assert(rows2[i].1 == shown_reason(log, rows2[i].0));
    }
    assert(rows1 =~= rows2);
}

} // verus!
