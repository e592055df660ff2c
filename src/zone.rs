//! The zone-declaration file: parsing its lines, appending and removing declarations.

use vstd::prelude::*;

verus! {

/// Whitespace as `char::is_whitespace` defines it (the Unicode `White_Space` property).
pub open spec fn is_ws(c: char) -> bool {
    let u = c as u32;
    (0x09 <= u && u <= 0x0D) || u == 0x20 || u == 0x85 || u == 0xA0 || u == 0x1680 || (0x2000 <= u
        && u <= 0x200A) || u == 0x2028 || u == 0x2029 || u == 0x202F || u == 0x205F || u == 0x3000
}

/// First index at or after `i` that does not hold whitespace (or the length).
pub open spec fn skip_ws(s: Seq<char>, i: int) -> int
    decreases s.len() - i,
{
    if i < 0 || i >= s.len() {
        if i < 0 { 0 } else { s.len() as int }
    } else if is_ws(s[i]) {
        skip_ws(s, i + 1)
    } else {
        i
    }
}

/// First index at or after `i` that holds whitespace (or the length).
pub open spec fn token_end(s: Seq<char>, i: int) -> int
    decreases s.len() - i,
{
    if i < 0 || i >= s.len() {
        if i < 0 { 0 } else { s.len() as int }
    } else if is_ws(s[i]) {
        i
    } else {
        token_end(s, i + 1)
    }
}

/// The second whitespace-delimited token of a line, if it has one.
pub open spec fn second_token(s: Seq<char>) -> Option<Seq<char>> {
    let a0 = skip_ws(s, 0);
    let b0 = token_end(s, a0);
    let a1 = skip_ws(s, b0);
    let b1 = token_end(s, a1);
    if a1 < s.len() {
        Some(s.subrange(a1, b1))
    } else {
        None
    }
}

/// First index at or after `i` that does not hold a double quote (or the length).
pub open spec fn skip_quotes(t: Seq<char>, i: int) -> int
    decreases t.len() - i,
{
    if i < 0 || i >= t.len() {
        if i < 0 { 0 } else { t.len() as int }
    } else if t[i] == '"' {
        skip_quotes(t, i + 1)
    } else {
        i
    }
}

/// Index just past the last non-quote character at or before `j` (or 0).
pub open spec fn back_quotes(t: Seq<char>, j: int) -> int
    decreases j,
{
    if j <= 0 || j > t.len() {
        if j <= 0 { 0 } else { t.len() as int }
    } else if t[j - 1] == '"' {
        back_quotes(t, j - 1)
    } else {
        j
    }
}

/// `t` with every leading and every trailing double quote taken off.
pub open spec fn trim_quotes(t: Seq<char>) -> Seq<char> {
    let a = skip_quotes(t, 0);
    if a >= t.len() {
        Seq::empty()
    } else {
        t.subrange(a, back_quotes(t, t.len() as int))
    }
}

/// The domain that a zone-declaration line names: its second token, when that
/// token begins and ends with a double quote, without the quotes.
pub open spec fn line_domain(s: Seq<char>) -> Option<Seq<char>> {
    match second_token(s) {
        Some(t) => if t.len() > 0 && t[0] == '"' && t[t.len() - 1] == '"' {
            Some(trim_quotes(t))
        } else {
            None
        },
        None => None,
    }
}

fn is_whitespace_char(c: char) -> (r: bool)
    ensures
        r == is_ws(c),
{
    let u = c as u32;
    (0x09 <= u && u <= 0x0D) || u == 0x20 || u == 0x85 || u == 0xA0 || u == 0x1680 || (0x2000 <= u
        && u <= 0x200A) || u == 0x2028 || u == 0x2029 || u == 0x202F || u == 0x205F || u == 0x3000
}

fn skip_whitespace(s: &str, n: usize, i: usize) -> (j: usize)
    requires
        n == s@.len(),
        i <= n,
    ensures
        j == skip_ws(s@, i as int),
        i <= j <= n,
        j < n ==> !is_ws(s@[j as int]),
{
    let mut j = i;
    while j < n && is_whitespace_char(s.get_char(j))
        invariant
            n == s@.len(),
            i <= j <= n,
            skip_ws(s@, i as int) == skip_ws(s@, j as int),
        decreases n - j,
    {
        j = j + 1;
    }
    j
}

fn find_token_end(s: &str, n: usize, i: usize) -> (j: usize)
    requires
        n == s@.len(),
        i <= n,
    ensures
        j == token_end(s@, i as int),
        i <= j <= n,
        j < n ==> is_ws(s@[j as int]),
        forall|k: int| i <= k < j ==> !is_ws(#[trigger] s@[k]),
{
    let mut j = i;
    while j < n && !is_whitespace_char(s.get_char(j))
        invariant
            n == s@.len(),
            i <= j <= n,
            forall|k: int| i <= k < j ==> !is_ws(#[trigger] s@[k]),
            token_end(s@, i as int) == token_end(s@, j as int),
        decreases n - j,
    {
        j = j + 1;
    }
    j
}

/// Extracts the domain from one line of the zone-declaration file: the second
/// whitespace-delimited token, when it is wrapped in double quotes, with all
/// leading and trailing quotes removed. Any other line gives `None`.
pub fn parse_domain_from_line(line: &str) -> (r: Option<String>)
    ensures
        match r {
            Some(d) => line_domain(line@) == Some(d@),
            None => line_domain(line@) is None,
        },
{
    let n = line.unicode_len();
    let a0 = skip_whitespace(line, n, 0);
    let b0 = find_token_end(line, n, a0);
    let a1 = skip_whitespace(line, n, b0);
    if a1 >= n {
        return None;
    }
    let b1 = find_token_end(line, n, a1);
    proof {
        assert(b1 > a1);
    }
    if line.get_char(a1) != '"' || line.get_char(b1 - 1) != '"' {
        return None;
    }
    let mut a = a1;
    while a < b1 && line.get_char(a) == '"'
        invariant
            n == line@.len(),
            a1 <= a <= b1 <= n,
            skip_quotes(line@.subrange(a1 as int, b1 as int), 0) == skip_quotes(
                line@.subrange(a1 as int, b1 as int),
                a - a1,
            ),
        decreases b1 - a,
    {
        a = a + 1;
    }
    if a >= b1 {
        return Some(String::new());
    }
    let mut b = b1;
    while b > a1 && line.get_char(b - 1) == '"'
        invariant
            n == line@.len(),
            a1 <= a < b <= b1 <= n,
            line@[a as int] != '"',
            back_quotes(line@.subrange(a1 as int, b1 as int), b1 - a1) == back_quotes(
                line@.subrange(a1 as int, b1 as int),
                b - a1,
            ),
        decreases b,
    {
        b = b - 1;
    }
    let ghost t = line@.subrange(a1 as int, b1 as int);
    proof {
        assert(t.subrange(a - a1, b - a1) =~= line@.subrange(a as int, b as int));
    }
    Some(String::from_str(line.substring_char(a, b)))
}

/// The declaration line that blacklists `d`, pointing its zone at the shared
/// sinkhole database.
pub open spec fn declaration_line(d: Seq<char>) -> Seq<char> {
    "zone \""@ + d + "\" {type master; file \"/etc/bind/zones/master/blockeddomains.db\";};"@
}

/// The views of a sequence of lines.
pub open spec fn lines_view(v: Seq<String>) -> Seq<Seq<char>> {
    v.map_values(|l: String| l@)
}

/// The domains that the lines declare, in file order.
pub open spec fn domains_of(lines: Seq<Seq<char>>) -> Seq<Seq<char>>
    decreases lines.len(),
{
    if lines.len() == 0 {
        Seq::empty()
    } else {
        let rest = domains_of(lines.drop_last());
        match line_domain(lines.last()) {
            Some(d) => rest.push(d),
            None => rest,
        }
    }
}

/// How many lines declare `d`.
pub open spec fn count_domain(lines: Seq<Seq<char>>, d: Seq<char>) -> nat
    decreases lines.len(),
{
    if lines.len() == 0 {
        0
    } else {
        count_domain(lines.drop_last(), d) + if line_domain(lines.last()) == Some(d) {
            1nat
        } else {
            0nat
        }
    }
}

/// The lines, in order, without those that declare `d`.
pub open spec fn lines_without(lines: Seq<Seq<char>>, d: Seq<char>) -> Seq<Seq<char>>
    decreases lines.len(),
{
    if lines.len() == 0 {
        Seq::empty()
    } else {
        let rest = lines_without(lines.drop_last(), d);
        if line_domain(lines.last()) == Some(d) {
            rest
        } else {
            rest.push(lines.last())
        }
    }
}

/// Removing the declarations of `d` shortens the lines by exactly the number
/// of lines that declare it, and leaves none.
pub proof fn lemma_lines_without(lines: Seq<Seq<char>>, d: Seq<char>)
    ensures
        lines_without(lines, d).len() + count_domain(lines, d) == lines.len(),
        count_domain(lines_without(lines, d), d) == 0,
    decreases lines.len(),
{
    if lines.len() > 0 {
        lemma_lines_without(lines.drop_last(), d);
        let rest = lines_without(lines.drop_last(), d);
        if line_domain(lines.last()) != Some(d) {
            assert(rest.push(lines.last()).drop_last() =~= rest);
        }
    }
}

/// The text of one blacklist declaration for `domain`.
pub fn zone_declaration(domain: &str) -> (r: String)
    ensures
        r@ == declaration_line(domain@),
{
    let mut s = String::from_str("zone \"");
    s.append(domain);
    s.append("\" {type master; file \"/etc/bind/zones/master/blockeddomains.db\";};");
    s
}

/// The zone-declaration file, as its sequence of lines.
pub struct ZoneFile {
    pub lines: Vec<String>,
}

impl View for ZoneFile {
    type V = Seq<Seq<char>>;

    open spec fn view(&self) -> Seq<Seq<char>> {
        lines_view(self.lines@)
    }
}

impl ZoneFile {
    /// An empty file.
    pub fn new() -> (r: ZoneFile)
        ensures
            r@ == Seq::<Seq<char>>::empty(),
    {
        let r = ZoneFile { lines: Vec::new() };
        assert(r@ =~= Seq::<Seq<char>>::empty());
        r
    }

    /// The file made of the given lines.
    pub fn from_lines(lines: Vec<String>) -> (r: ZoneFile)
        ensures
            r@ == lines_view(lines@),
    {
        ZoneFile { lines }
    }

    /// The domains that the file declares, in file order; lines of any other
    /// shape are skipped.
    pub fn domains(&self) -> (r: Vec<String>)
        ensures
            lines_view(r@) == domains_of(self@),
    {
        let mut out: Vec<String> = Vec::new();
        let n = self.lines.len();
        let mut i: usize = 0;
        while i < n
            invariant
                n == self.lines@.len(),
                i <= n,
                lines_view(out@) == domains_of(self@.subrange(0, i as int)),
            decreases n - i,
        {
            let parsed = parse_domain_from_line(self.lines[i].as_str());
            proof {
                assert(self@.subrange(0, i + 1).drop_last() =~= self@.subrange(0, i as int));
            }
            match parsed {
                Some(d) => {
                    out.push(d);
                    assert(lines_view(out@) =~= domains_of(self@.subrange(0, i + 1)));
                },
                None => {},
            }
            i = i + 1;
        }
        assert(self@.subrange(0, n as int) =~= self@);
        out
    }

    /// Appends the declaration of `domain`, followed by a blank line; the
    /// existing lines stay as they are.
    pub fn append_declaration(&mut self, domain: &str)
        ensures
            final(self)@ == old(self)@ + seq![declaration_line(domain@), Seq::<char>::empty()],
    {
        let decl = zone_declaration(domain);
        self.lines.push(decl);
        self.lines.push(String::new());
        assert(self@ =~= old(self)@ + seq![declaration_line(domain@), Seq::<char>::empty()]);
    }

    /// Drops every line that declares exactly `domain`, and tells whether any
    /// line was dropped.
    pub fn remove_declaration(&mut self, domain: &str) -> (removed: bool)
        ensures
            final(self)@ == lines_without(old(self)@, domain@),
            removed == (count_domain(old(self)@, domain@) > 0),
    {
        let target = String::from_str(domain);
        let mut kept: Vec<String> = Vec::new();
        let n = self.lines.len();
        let mut i: usize = 0;
        while i < n
            invariant
                n == self.lines@.len(),
                i <= n,
                target@ == domain@,
                lines_view(kept@) == lines_without(self@.subrange(0, i as int), domain@),
            decreases n - i,
        {
            let parsed = parse_domain_from_line(self.lines[i].as_str());
            let drop = match parsed {
                Some(d) => d == target,
                None => false,
            };
            proof {
                assert(self@.subrange(0, i + 1).drop_last() =~= self@.subrange(0, i as int));
            }
            if !drop {
                kept.push(self.lines[i].clone());
                assert(lines_view(kept@) =~= lines_without(self@.subrange(0, i + 1), domain@));
            }
            i = i + 1;
        }
        assert(self@.subrange(0, n as int) =~= self@);
        proof {
            lemma_lines_without(self@, domain@);
        }
        let removed = kept.len() < n;
        self.lines = kept;
        removed
    }
}

/// A domain that its declaration line gives back as written: no whitespace,
/// and no double quote at either end.
pub open spec fn plain_domain(d: Seq<char>) -> bool {
    &&& forall|i: int| 0 <= i < d.len() ==> !is_ws(#[trigger] d[i])
    &&& d.len() > 0 ==> d[0] != '"' && d[d.len() - 1] != '"'
}

proof fn lemma_token_end_at(s: Seq<char>, i: int, j: int)
    requires
        0 <= i <= j <= s.len(),
        forall|k: int| i <= k < j ==> !is_ws(#[trigger] s[k]),
        j == s.len() || is_ws(s[j]),
    ensures
        token_end(s, i) == j,
    decreases j - i,
{
    if i < j {
        lemma_token_end_at(s, i + 1, j);
    }
}

/// The declaration line of a plain domain names that domain.
pub proof fn lemma_declaration_domain(d: Seq<char>)
    requires
        plain_domain(d),
    ensures
        line_domain(declaration_line(d)) == Some(d),
{
    reveal_strlit("zone \"");
    reveal_strlit("\" {type master; file \"/etc/bind/zones/master/blockeddomains.db\";};");
    let s = declaration_line(d);
    let n = d.len() as int;
    let head = "zone \""@;
    let tail = "\" {type master; file \"/etc/bind/zones/master/blockeddomains.db\";};"@;
    assert(s =~= head + d + tail);
    assert(s[0] == 'z' && s[1] == 'o' && s[2] == 'n' && s[3] == 'e' && s[4] == ' ' && s[5] == '"');
    assert(s[6 + n] == '"' && s[7 + n] == ' ');
    assert forall|k: int| 6 <= k < 6 + n implies s[k] == d[k - 6] by {}
    assert(skip_ws(s, 0) == 0);
    lemma_token_end_at(s, 0, 4);
    assert(skip_ws(s, 5) == 5);
    assert(skip_ws(s, 4) == 5);
    assert forall|k: int| 5 <= k < 7 + n implies !is_ws(#[trigger] s[k]) by {
        if 6 <= k < 6 + n {
            assert(s[k] == d[k - 6]);
        }
    }
    lemma_token_end_at(s, 5, 7 + n);
    let t = s.subrange(5, 7 + n);
    assert(second_token(s) == Some(t));
    assert(t[0] == '"' && t[t.len() - 1] == '"');
    if n == 0 {
        assert(t.len() == 2 && t[1] == '"');
        assert(skip_quotes(t, 2) == 2);
        assert(skip_quotes(t, 1) == 2);
        assert(skip_quotes(t, 0) == 2);
        assert(trim_quotes(t) =~= d);
    } else {
        assert(t[1] == d[0]);
        assert(t[n] == d[n - 1]);
        assert(skip_quotes(t, 1) == 1);
        assert(back_quotes(t, n + 1) == n + 1);
        assert(back_quotes(t, n + 2) == n + 1);
        assert(trim_quotes(t) =~= d);
    }
}

/// A blank line declares nothing.
pub proof fn lemma_blank_line_domain()
    ensures
        line_domain(Seq::<char>::empty()) is None,
{
}

/// The number of declarations of `d` is how often it occurs among the
/// declared domains.
pub proof fn lemma_count_domain(lines: Seq<Seq<char>>, d: Seq<char>)
    ensures
        count_domain(lines, d) == domains_of(lines).to_multiset().count(d),
    decreases lines.len(),
{
    if lines.len() == 0 {
        domains_of(lines).to_multiset_ensures();
    } else {
        lemma_count_domain(lines.drop_last(), d);
        domains_of(lines.drop_last()).to_multiset_ensures();
    }
}

/// Where no line declares `d`, removing its declarations changes nothing.
pub proof fn lemma_lines_without_absent(lines: Seq<Seq<char>>, d: Seq<char>)
    requires
        count_domain(lines, d) == 0,
    ensures
        lines_without(lines, d) == lines,
    decreases lines.len(),
{
    if lines.len() > 0 {
        lemma_lines_without_absent(lines.drop_last(), d);
        assert(lines.drop_last().push(lines.last()) =~= lines);
    }
}

/// Appending lines adds their declarations after those already there.
pub proof fn lemma_domains_append_declaration(lines: Seq<Seq<char>>, d: Seq<char>)
    requires
        plain_domain(d),
    ensures
        domains_of(lines + seq![declaration_line(d), Seq::<char>::empty()]) == domains_of(
            lines,
        ).push(d),
        count_domain(lines + seq![declaration_line(d), Seq::<char>::empty()], d) == count_domain(
            lines,
            d,
        ) + 1,
{
    lemma_declaration_domain(d);
    let l1 = lines.push(declaration_line(d));
    let l2 = l1.push(Seq::<char>::empty());
    assert(lines + seq![declaration_line(d), Seq::<char>::empty()] =~= l2);
    assert(l2.drop_last() =~= l1);
    assert(l1.drop_last() =~= lines);
    assert(l2.last() == Seq::<char>::empty());
    assert(l1.last() == declaration_line(d));
    lemma_blank_line_domain();
    assert(domains_of(l2) == domains_of(l1));
    assert(domains_of(l1) == domains_of(lines).push(d));
    assert(count_domain(l2, d) == count_domain(l1, d));
}

} // verus!
