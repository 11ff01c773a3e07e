//! Proxy routing rules: the gfwlist and custom domain-rule syntaxes, the set
//! of domains they yield, and the decision whether a host goes through the
//! proxy.

use base64::Engine;
use std::path::PathBuf;
use vstd::prelude::*;

use crate::domain_set::DomainSet;
use crate::paths::{displayed_path, path_display};
use crate::text::{
    CharClass, Stop, chars_of, find_stop, first_line, lemma_stop_index, lines,
    lower_all, lowered_string, next_line, push_decimal, decimal, stop_index, trim, trim_window,
    window_string,
};

verus! {

/// Where the gfwlist is downloaded from.
pub const GFWLIST_URL: &'static str = "https://gitlab.com/gfwlist/gfwlist/raw/master/gfwlist.txt";

/// The text of an optional string.
pub open spec fn text_of(o: Option<String>) -> Option<Seq<char>> {
    match o {
        Some(s) => Some(s@),
        None => None,
    }
}

// ---------------------------------------------------------------------------
// Host normalization and domain-likeness

/// A host as rules compare it: surrounding whitespace and dots removed, ASCII
/// letters lower-cased.
pub open spec fn normalized(host: Seq<char>) -> Seq<char> {
    lower_all(trim(trim(host, CharClass::Whitespace), CharClass::Dot))
}

pub open spec fn is_domain_char(c: char) -> bool {
    ||| ('a' <= c && c <= 'z')
    ||| ('A' <= c && c <= 'Z')
    ||| ('0' <= c && c <= '9')
    ||| c == '-'
    ||| c == '.'
}

pub open spec fn is_digit(c: char) -> bool {
    '0' <= c && c <= '9'
}

/// The value of a text of decimal digits.
pub open spec fn digits_value(s: Seq<char>) -> nat
    decreases s.len(),
{
    if s.len() == 0 {
        0
    } else {
        digits_value(s.drop_last()) * 10 + ((s.last() as nat) - ('0' as nat)) as nat
    }
}

/// One octet of a dotted-decimal IPv4 address: one to three digits, no
/// leading zero unless the octet is `0`, and a value of at most 255.
pub open spec fn is_ipv4_octet(s: Seq<char>) -> bool {
    &&& 1 <= s.len() <= 3
    &&& forall|i: int| 0 <= i < s.len() ==> is_digit(#[trigger] s[i])
    &&& (s.len() > 1 ==> s[0] != '0')
    &&& digits_value(s) <= 255
}

/// The pieces of `s` between its dots.
pub open spec fn dot_parts(s: Seq<char>) -> Seq<Seq<char>>
    decreases s.len(),
{
    proof {
        lemma_stop_index(s, Stop::Dot);
    }
    if stop_index(s, Stop::Dot) < s.len() {
        seq![s.take(stop_index(s, Stop::Dot) as int)] + dot_parts(
            s.skip(stop_index(s, Stop::Dot) as int + 1),
        )
    } else {
        seq![s]
    }
}

/// A dotted-decimal IPv4 address, the only form of `IpAddr` that `FromStr`
/// accepts without a `':'`.
pub open spec fn is_ipv4_text(s: Seq<char>) -> bool {
    &&& dot_parts(s).len() == 4
    &&& forall|i: int| 0 <= i < 4 ==> is_ipv4_octet(#[trigger] dot_parts(s)[i])
}

/// A text accepted as a domain rule: not empty, no `':'`, not an IP address,
/// and made of ASCII letters, digits, `'-'` and `'.'` only.
pub open spec fn domain_like(d: Seq<char>) -> bool {
    &&& d.len() > 0
    &&& !d.contains(':')
    &&& !is_ipv4_text(d)
    &&& forall|i: int| 0 <= i < d.len() ==> is_domain_char(#[trigger] d[i])
}

pub open spec fn accepted(d: Seq<char>) -> Option<Seq<char>> {
    if domain_like(d) {
        Some(d)
    } else {
        None
    }
}

/// Whether the window `[lo, hi)` of `v` is one octet of an IPv4 address.
fn is_octet_window(v: &Vec<char>, lo: usize, hi: usize) -> (r: bool)
    requires
        lo <= hi <= v.len(),
    ensures
        r == is_ipv4_octet(v@.subrange(lo as int, hi as int)),
{
    let ghost w = v@.subrange(lo as int, hi as int);
    if hi - lo < 1 || hi - lo > 3 {
        return false;
    }
    let mut value: u32 = 0;
    let mut i = lo;
    while i < hi
        invariant
            lo <= i <= hi <= v.len(),
            hi - lo <= 3,
            w == v@.subrange(lo as int, hi as int),
            forall|j: int| lo <= j < i ==> is_digit(#[trigger] v@[j]),
            value == digits_value(v@.subrange(lo as int, i as int)),
            value < 1000,
            i - lo <= 1 ==> value < 10,
            i - lo <= 2 ==> value < 100,
        decreases hi - i,
    {
        let c = v[i];
        if !('0' <= c && c <= '9') {
            assert(!is_digit(w[i - lo]));
            return false;
        }
        assert(v@.subrange(lo as int, i + 1).drop_last() =~= v@.subrange(lo as int, i as int));
        value = value * 10 + ((c as u32) - ('0' as u32));
        i = i + 1;
    }
    assert(w =~= v@.subrange(lo as int, hi as int));
    assert forall|j: int| 0 <= j < w.len() implies is_digit(#[trigger] w[j]) by {
        assert(w[j] == v@[lo + j]);
    }
    if hi - lo > 1 && v[lo] == '0' {
        return false;
    }
    value <= 255
}

/// Whether `v` is a dotted-decimal IPv4 address.
fn is_ipv4_chars(v: &Vec<char>) -> (r: bool)
    ensures
        r == is_ipv4_text(v@),
{
    let n = v.len();
    let mut pos: usize = 0;
    let mut count: usize = 0;
    let ghost parts = dot_parts(v@);
    assert(v@.skip(0) =~= v@);
    loop
        invariant
            pos <= n == v.len(),
            count <= 4,
            parts == dot_parts(v@),
            parts.len() == count + dot_parts(v@.skip(pos as int)).len(),
            parts.skip(count as int) == dot_parts(v@.skip(pos as int)),
            forall|j: int| 0 <= j < count ==> is_ipv4_octet(#[trigger] parts[j]),
        decreases n - pos,
    {
        let ghost rest = v@.skip(pos as int);
        let e = find_stop(v, pos, n, Stop::Dot);
        proof {
            assert(rest =~= v@.subrange(pos as int, n as int));
            lemma_stop_index(rest, Stop::Dot);
            assert(rest.take(e - pos) =~= v@.subrange(pos as int, e as int));
            assert(dot_parts(rest)[0] == v@.subrange(pos as int, e as int));
            assert(parts[count as int] == parts.skip(count as int)[0]);
        }
        if count == 4 || !is_octet_window(v, pos, e) {
            return false;
        }
        count = count + 1;
        if e == n {
            proof {
                assert(parts.len() == count);
            }
            return count == 4;
        }
        proof {
            assert(rest.skip(e - pos + 1) =~= v@.skip(e + 1));
            assert(parts.skip(count as int) =~= parts.skip(count - 1).skip(1));
        }
        pos = e + 1;
    }
}

/// Whether `domain` is accepted as a domain rule (see `domain_like`).
pub fn is_domain_like(domain: &str) -> (r: bool)
    ensures
        r == domain_like(domain@),
{
    let v = chars_of(domain);
    let n = v.len();
    if n == 0 {
        return false;
    }
    let mut i: usize = 0;
    while i < n
        invariant
            i <= n == v.len(),
            v@ == domain@,
            forall|j: int| 0 <= j < i ==> v@[j] != ':' && is_domain_char(#[trigger] v@[j]),
        decreases n - i,
    {
        let c = v[i];
        if c == ':' {
            assert(domain@.contains(':'));
            return false;
        }
        if !(('a' <= c && c <= 'z') || ('A' <= c && c <= 'Z') || ('0' <= c && c <= '9') || c
            == '-' || c == '.') {
            return false;
        }
        i = i + 1;
    }
    !is_ipv4_chars(&v)
}

/// The window `[lo, hi)` of `v`, normalized (see `normalized`).
fn normalized_window(v: &Vec<char>, lo: usize, hi: usize) -> (s: String)
    requires
        lo <= hi <= v.len(),
    ensures
        s@ == normalized(v@.subrange(lo as int, hi as int)),
{
    let (a, b) = trim_window(v, lo, hi, CharClass::Whitespace);
    let (c, d) = trim_window(v, a, b, CharClass::Dot);
    lowered_string(v, c, d)
}

/// `host` as rules compare it: trimmed of whitespace, then of dots, and
/// ASCII lower-cased.
pub fn normalize_host_for_match(host: &str) -> (r: String)
    ensures
        r@ == normalized(host@),
{
    let v = chars_of(host);
    assert(v@.subrange(0, v@.len() as int) =~= host@);
    normalized_window(&v, 0, v.len())
}


// ---------------------------------------------------------------------------
// One line of rules

/// The two rule syntaxes: gfwlist lines and custom `dstdomain` lines.
#[derive(Clone, Copy, Debug, PartialEq, Eq)]
pub enum RuleSyntax {
    Gfwlist,
    Custom,
}

/// The part of a gfwlist line after its `"||"` or `"."` prefix; other lines
/// are not proxy rules.
pub open spec fn proxy_rule_body(line: Seq<char>) -> Option<Seq<char>> {
    if line.len() >= 2 && line[0] == '|' && line[1] == '|' {
        Some(line.skip(2))
    } else if line.len() >= 1 && line[0] == '.' {
        Some(line.skip(1))
    } else {
        None
    }
}

/// The domain of a gfwlist line: a `"||"` or `"."` rule without `'*'`, cut
/// at its first `'/'`, `'^'` or `'$'`, trimmed of dots and normalized, when
/// that is domain-like.
pub open spec fn proxy_rule_domain(line: Seq<char>) -> Option<Seq<char>> {
    match proxy_rule_body(line) {
        None => None,
        Some(rule) => if rule.contains('*') {
            None
        } else {
            accepted(
                normalized(trim(rule.take(stop_index(rule, Stop::RuleEnd) as int), CharClass::Dot)),
            )
        },
    }
}

/// The domain of a custom rules line: the text before its first `'#'`,
/// trimmed and normalized, when that is domain-like.
pub open spec fn custom_rule_domain(line: Seq<char>) -> Option<Seq<char>> {
    accepted(
        normalized(trim(line.take(stop_index(line, Stop::Comment) as int), CharClass::Whitespace)),
    )
}

pub open spec fn rule_domain(syntax: RuleSyntax, line: Seq<char>) -> Option<Seq<char>> {
    match syntax {
        RuleSyntax::Gfwlist => proxy_rule_domain(line),
        RuleSyntax::Custom => custom_rule_domain(line),
    }
}

/// The domain, if any, that a text accepted as a candidate yields.
fn accept(d: String) -> (r: Option<String>)
    ensures
        text_of(r) == accepted(d@),
{
    if is_domain_like(d.as_str()) {
        Some(d)
    } else {
        None
    }
}

/// The gfwlist domain of the line in the window `[lo, hi)` of `v`.
fn proxy_rule_domain_window(v: &Vec<char>, lo: usize, hi: usize) -> (r: Option<String>)
    requires
        lo <= hi <= v.len(),
    ensures
        text_of(r) == proxy_rule_domain(v@.subrange(lo as int, hi as int)),
{
    let ghost line = v@.subrange(lo as int, hi as int);
    let start = if hi - lo >= 2 && v[lo] == '|' && v[lo + 1] == '|' {
        lo + 2
    } else if hi - lo >= 1 && v[lo] == '.' {
        lo + 1
    } else {
        return None;
    };
    let ghost rule = v@.subrange(start as int, hi as int);
    assert(proxy_rule_body(line) == Some(rule)) by {
        assert(line.skip(start - lo) =~= rule);
    }
    let mut i = start;
    while i < hi
        invariant
            lo <= start <= i <= hi <= v.len(),
            line == v@.subrange(lo as int, hi as int),
            rule == v@.subrange(start as int, hi as int),
            proxy_rule_body(line) == Some(rule),
            forall|j: int| start <= j < i ==> v@[j] != '*',
        decreases hi - i,
    {
        if v[i] == '*' {
            assert(rule[i - start] == '*');
            return None;
        }
        i = i + 1;
    }
    assert(!rule.contains('*')) by {
        assert forall|j: int| 0 <= j < rule.len() implies rule[j] != '*' by {
            assert(rule[j] == v@[start + j]);
        }
    }
    let e = find_stop(v, start, hi, Stop::RuleEnd);
    assert(rule.take(e - start) =~= v@.subrange(start as int, e as int));
    let (a, b) = trim_window(v, start, e, CharClass::Dot);
    accept(normalized_window(v, a, b))
}

/// The custom rule domain of the line in the window `[lo, hi)` of `v`.
fn custom_rule_domain_window(v: &Vec<char>, lo: usize, hi: usize) -> (r: Option<String>)
    requires
        lo <= hi <= v.len(),
    ensures
        text_of(r) == custom_rule_domain(v@.subrange(lo as int, hi as int)),
{
    let ghost line = v@.subrange(lo as int, hi as int);
    let e = find_stop(v, lo, hi, Stop::Comment);
    assert(line.take(e - lo) =~= v@.subrange(lo as int, e as int));
    let (a, b) = trim_window(v, lo, e, CharClass::Whitespace);
    accept(normalized_window(v, a, b))
}

fn rule_domain_window(v: &Vec<char>, lo: usize, hi: usize, syntax: RuleSyntax) -> (r: Option<
    String,
>)
    requires
        lo <= hi <= v.len(),
    ensures
        text_of(r) == rule_domain(syntax, v@.subrange(lo as int, hi as int)),
{
    match syntax {
        RuleSyntax::Gfwlist => proxy_rule_domain_window(v, lo, hi),
        RuleSyntax::Custom => custom_rule_domain_window(v, lo, hi),
    }
}

/// The domain that one gfwlist line proxies, if any.
pub fn parse_proxy_rule_domain(line: &str) -> (r: Option<String>)
    ensures
        text_of(r) == proxy_rule_domain(line@),
{
    let v = chars_of(line);
    assert(v@.subrange(0, v@.len() as int) =~= line@);
    proxy_rule_domain_window(&v, 0, v.len())
}

/// The domain that one custom rules line proxies, if any.
pub fn parse_custom_domain_rule_domain(line: &str) -> (r: Option<String>)
    ensures
        text_of(r) == custom_rule_domain(line@),
{
    let v = chars_of(line);
    assert(v@.subrange(0, v@.len() as int) =~= line@);
    custom_rule_domain_window(&v, 0, v.len())
}

// ---------------------------------------------------------------------------
// Whole rule texts

/// The domains that the lines `ls` yield in the given syntax.
pub open spec fn rule_domains(ls: Seq<Seq<char>>, syntax: RuleSyntax) -> Set<Seq<char>> {
    Set::new(
        |d: Seq<char>|
            exists|i: int| 0 <= i < ls.len() && rule_domain(syntax, #[trigger] ls[i]) == Some(d),
    )
}

/// The domains of a whole rules text in the given syntax.
pub open spec fn text_domains(text: Seq<char>, syntax: RuleSyntax) -> Set<Seq<char>> {
    rule_domains(lines(text), syntax)
}

pub proof fn lemma_rule_domains_cons(l: Seq<char>, rest: Seq<Seq<char>>, syntax: RuleSyntax)
    ensures
        rule_domains(seq![l] + rest, syntax) == match rule_domain(syntax, l) {
            Some(d) => rule_domains(rest, syntax).insert(d),
            None => rule_domains(rest, syntax),
        },
{
    let ls = seq![l] + rest;
    let rhs = match rule_domain(syntax, l) {
        Some(d) => rule_domains(rest, syntax).insert(d),
        None => rule_domains(rest, syntax),
    };
    assert forall|d: Seq<char>| rule_domains(ls, syntax).contains(d) implies rhs.contains(d) by {
        let i = choose|i: int| 0 <= i < ls.len() && rule_domain(syntax, #[trigger] ls[i]) == Some(d);
        if i > 0 {
            assert(ls[i] == rest[i - 1]);
        }
    }
    assert forall|d: Seq<char>| rhs.contains(d) implies rule_domains(ls, syntax).contains(d) by {
        if rule_domain(syntax, l) == Some(d) {
            assert(ls[0] == l);
        } else {
            let i = choose|i: int|
                0 <= i < rest.len() && rule_domain(syntax, #[trigger] rest[i]) == Some(d);
            assert(ls[i + 1] == rest[i]);
        }
    }
    assert(rule_domains(ls, syntax) =~= rhs);
}

/// The domains of every line of `v`, in the given syntax.
fn collect_rule_domains(v: &Vec<char>, syntax: RuleSyntax) -> (r: DomainSet)
    ensures
        r@ == text_domains(v@, syntax),
{
    let n = v.len();
    let mut r = DomainSet::new();
    let mut pos: usize = 0;
    assert(v@.skip(0) =~= v@);
    while pos < n
        invariant
            pos <= n == v.len(),
            text_domains(v@, syntax) == r@.union(text_domains(v@.skip(pos as int), syntax)),
        decreases n - pos,
    {
        let (lo, hi, next) = next_line(v, pos);
        let ghost rest = v@.skip(pos as int);
        let found = rule_domain_window(v, lo, hi, syntax);
        proof {
            lemma_rule_domains_cons(first_line(rest), lines(v@.skip(next as int)), syntax);
        }
        match found {
            Some(d) => {
                let ghost before = r@;
                r.insert(d);
                assert(before.insert(d@).union(text_domains(v@.skip(next as int), syntax))
                    =~= before.union(text_domains(v@.skip(next as int), syntax).insert(d@)));
            },
            None => {},
        }
        pos = next;
    }
    assert(v@.skip(n as int) =~= Seq::<char>::empty());
    assert(lines(Seq::<char>::empty()) =~= Seq::<Seq<char>>::empty());
    assert(text_domains(Seq::<char>::empty(), syntax) =~= Set::<Seq<char>>::empty());
    assert(r@.union(Set::<Seq<char>>::empty()) =~= r@);
    r
}

/// The domains of a custom rules file: one Squid `dstdomain` entry per line,
/// `#` comments and lines that are not domain-like ignored.
pub fn parse_custom_domain_rules_text(text: &str) -> (r: DomainSet)
    ensures
        r@ == text_domains(text@, RuleSyntax::Custom),
{
    let v = chars_of(text);
    collect_rule_domains(&v, RuleSyntax::Custom)
}


// ---------------------------------------------------------------------------
// The rule set

/// Why a gfwlist could not be turned into rules.
#[derive(Clone, Copy, Debug, PartialEq, Eq, Structural)]
pub enum GfwlistError {
    /// The text is not standard base64.
    Decode,
    /// The decoded bytes are not UTF-8.
    NotUtf8,
    /// No line yields a usable domain.
    NoUsableDomains,
}

impl GfwlistError {
    pub fn message(&self) -> (r: &'static str)
        ensures
            r@ == match self {
                GfwlistError::Decode => "failed to decode gfwlist"@,
                GfwlistError::NotUtf8 => "decoded gfwlist is not valid UTF-8"@,
                GfwlistError::NoUsableDomains => "gfwlist did not contain any usable domain rules"@,
            },
    {
        match self {
            GfwlistError::Decode => "failed to decode gfwlist",
            GfwlistError::NotUtf8 => "decoded gfwlist is not valid UTF-8",
            GfwlistError::NoUsableDomains => "gfwlist did not contain any usable domain rules",
        }
    }
}

/// Whether the rules `domains` send `host` through the proxy: the
/// normalized host is not empty and either is a rule domain or has a rule
/// domain as the part after one of its dots.
pub open spec fn domains_match(domains: Set<Seq<char>>, host: Seq<char>) -> bool {
    let h = normalized(host);
    &&& h.len() > 0
    &&& {
        ||| domains.contains(h)
        ||| exists|i: int| 0 <= i < h.len() && h[i] == '.' && domains.contains(h.skip(i + 1))
    }
}

/// A non-empty set of domains whose hosts, and the subdomains of which, go
/// through the proxy.
#[derive(Debug)]
pub struct DomainRules {
    domains: DomainSet,
}

impl DomainRules {
    #[verifier::type_invariant]
    spec fn not_empty(&self) -> bool {
        self.domains@ != Set::<Seq<char>>::empty()
    }
}

impl View for DomainRules {
    type V = Set<Seq<char>>;

    closed spec fn view(&self) -> Set<Seq<char>> {
        self.domains@
    }
}

/// The rule set, or the error, that a result carries.
pub open spec fn outcome_of(r: Result<DomainRules, GfwlistError>) -> Result<
    Set<Seq<char>>,
    GfwlistError,
> {
    match r {
        Ok(rules) => Ok(rules@),
        Err(e) => Err(e),
    }
}

/// Rules from a set of domains: refused when the set is empty.
pub open spec fn rules_outcome(domains: Set<Seq<char>>) -> Result<Set<Seq<char>>, GfwlistError> {
    if domains == Set::<Seq<char>>::empty() {
        Err(GfwlistError::NoUsableDomains)
    } else {
        Ok(domains)
    }
}

impl DomainRules {
    /// Rules that proxy `domains`; an empty set is refused.
    pub fn new(domains: DomainSet) -> (r: Result<Self, GfwlistError>)
        ensures
            outcome_of(r) == rules_outcome(domains@),
    {
        if domains.is_empty() {
            Err(GfwlistError::NoUsableDomains)
        } else {
            Ok(DomainRules { domains })
        }
    }

    /// The number of rule domains, never 0.
    pub fn len(&self) -> (n: usize)
        ensures
            self@.finite(),
            n == self@.len(),
            n > 0,
    {
        proof {
            use_type_invariant(self);
        }
        let n = self.domains.len();
        proof {
            if n == 0 {
                assert(self@ =~= Set::<Seq<char>>::empty());
            }
        }
        n
    }

    /// Adds the domains of `domains` to the rules.
    pub fn extend(&mut self, domains: DomainSet)
        ensures
            final(self)@ == old(self)@.union(domains@),
    {
        proof {
            use_type_invariant(&*self);
        }
        let ghost before = self@;
        proof {
            assert(!(before =~= Set::<Seq<char>>::empty()));
            let d = choose|d: Seq<char>| before.contains(d);
            assert(before.union(domains@).contains(d));
        }
        let mut merged = self.domains.copied();
        merged.extend(domains);
        self.domains = merged;
    }

    /// Whether `host` goes through the proxy (see `domains_match`).
    pub fn matches(&self, host: &str) -> (r: bool)
        ensures
            r == domains_match(self@, host@),
    {
        let h = normalize_host_for_match(host);
        let v = chars_of(h.as_str());
        let n = v.len();
        if n == 0 {
            return false;
        }
        if self.domains.contains(&h) {
            return true;
        }
        let mut i: usize = 0;
        while i < n
            invariant
                i <= n == v.len(),
                v@ == normalized(host@),
                forall|j: int|
                    0 <= j < i && v@[j] == '.' ==> !self@.contains(#[trigger] v@.skip(j + 1)),
            decreases n - i,
        {
            if v[i] == '.' {
                let suffix = window_string(&v, i + 1, n);
                assert(suffix@ =~= v@.skip(i + 1));
                if self.domains.contains(&suffix) {
                    return true;
                }
            }
            i = i + 1;
        }
        false
    }
}

/// A rule set, or the error, as the rules text `text` of gfwlist syntax
/// gives it.
pub open spec fn gfwlist_text_outcome(text: Seq<char>) -> Result<Set<Seq<char>>, GfwlistError> {
    rules_outcome(text_domains(text, RuleSyntax::Gfwlist))
}

/// The rules of a decoded gfwlist text.
pub fn parse_gfwlist_text(text: &str) -> (r: Result<DomainRules, GfwlistError>)
    ensures
        outcome_of(r) == gfwlist_text_outcome(text@),
{
    let v = chars_of(text);
    DomainRules::new(collect_rule_domains(&v, RuleSyntax::Gfwlist))
}

/// Whether `b` is a byte that `u8::is_ascii_whitespace` accepts.
pub open spec fn is_ascii_whitespace_byte(b: u8) -> bool {
    b == 0x20 || b == 0x09 || b == 0x0a || b == 0x0c || b == 0x0d
}

/// `bytes` without its ASCII whitespace bytes.
pub open spec fn without_ascii_whitespace(bytes: Seq<u8>) -> Seq<u8>
    decreases bytes.len(),
{
    if bytes.len() == 0 {
        Seq::empty()
    } else if is_ascii_whitespace_byte(bytes.last()) {
        without_ascii_whitespace(bytes.drop_last())
    } else {
        without_ascii_whitespace(bytes.drop_last()).push(bytes.last())
    }
}

/// `bytes` without its ASCII whitespace bytes, the line breaks of a
/// base64 file among them.
pub fn strip_ascii_whitespace(bytes: &[u8]) -> (r: Vec<u8>)
    ensures
        r@ == without_ascii_whitespace(bytes@),
{
    let mut r: Vec<u8> = Vec::new();
    let mut i: usize = 0;
    while i < bytes.len()
        invariant
            i <= bytes@.len(),
            r@ == without_ascii_whitespace(bytes@.take(i as int)),
        decreases bytes@.len() - i,
    {
        let b = bytes[i];
        assert(bytes@.take(i + 1).drop_last() =~= bytes@.take(i as int));
        if !(b == 0x20 || b == 0x09 || b == 0x0a || b == 0x0c || b == 0x0d) {
            r.push(b);
        }
        i = i + 1;
    }
    assert(bytes@.take(bytes@.len() as int) =~= bytes@);
    r
}

/// The rules, or the error, that decoded gfwlist bytes give: the bytes must
/// be UTF-8, and the text must yield a domain.
pub open spec fn decoded_gfwlist_outcome(bytes: Seq<u8>) -> Result<Set<Seq<char>>, GfwlistError> {
    if vstd::utf8::valid_utf8(bytes) {
        gfwlist_text_outcome(vstd::utf8::decode_utf8(bytes))
    } else {
        Err(GfwlistError::NotUtf8)
    }
}

/// Wraps `String::from_utf8`, keeping only whether it succeeded: the bytes
/// give a string exactly when they are valid UTF-8, and the string holds the
/// characters they encode.
#[verifier::external_body]
fn string_from_utf8(bytes: Vec<u8>) -> (r: Option<String>)
    ensures
        r is Some <==> vstd::utf8::valid_utf8(bytes@),
        r matches Some(s) ==> s@ == vstd::utf8::decode_utf8(bytes@),
{
    match String::from_utf8(bytes) {
        Ok(s) => Some(s),
        Err(_) => None,
    }
}

/// The rules of a gfwlist that has been base64-decoded already.
pub fn parse_decoded_gfwlist(decoded: Vec<u8>) -> (r: Result<DomainRules, GfwlistError>)
    ensures
        outcome_of(r) == decoded_gfwlist_outcome(decoded@),
{
    match string_from_utf8(decoded) {
        Some(text) => parse_gfwlist_text(text.as_str()),
        None => Err(GfwlistError::NotUtf8),
    }
}

/// Declares `base64::DecodeError` to Verus as an opaque type; the library
/// maps it to `GfwlistError::Decode`.
#[verifier::external_type_specification]
#[verifier::external_body]
pub struct ExDecodeError(base64::DecodeError);

/// The bytes that the standard base64 engine (`STANDARD`: the RFC 4648
/// alphabet, canonical padding required) decodes from `input`, or `None`
/// when it refuses the input.
pub uninterp spec fn base64_standard_decoded(input: Seq<u8>) -> Option<Seq<u8>>;

/// Wraps `base64::Engine::decode` on `base64::engine::general_purpose::STANDARD`.
/// Its result is the one that `base64_standard_decoded` names: the decoded
/// bytes, or an error exactly when that is `None`.
#[verifier::external_body]
fn decode_base64_standard(input: &[u8]) -> (r: Result<Vec<u8>, base64::DecodeError>)
    ensures
        r is Ok <==> base64_standard_decoded(input@) is Some,
        r matches Ok(bytes) ==> base64_standard_decoded(input@) == Some(bytes@),
{
    base64::engine::general_purpose::STANDARD.decode(input)
}

/// The rules, or the error, that a downloaded gfwlist gives: the body,
/// without ASCII whitespace, must be standard base64 of a UTF-8 text that
/// yields a domain.
pub open spec fn gfwlist_outcome(encoded: Seq<u8>) -> Result<Set<Seq<char>>, GfwlistError> {
    match base64_standard_decoded(without_ascii_whitespace(encoded)) {
        None => Err(GfwlistError::Decode),
        Some(bytes) => decoded_gfwlist_outcome(bytes),
    }
}

/// The rules of a downloaded gfwlist body.
pub fn parse_gfwlist(encoded: &[u8]) -> (r: Result<DomainRules, GfwlistError>)
    ensures
        outcome_of(r) == gfwlist_outcome(encoded@),
{
    let compact = strip_ascii_whitespace(encoded);
    match decode_base64_standard(compact.as_slice()) {
        Ok(decoded) => parse_decoded_gfwlist(decoded),
        Err(_) => Err(GfwlistError::Decode),
    }
}

/// The rules of a gfwlist body merged with the domains of an optional
/// custom rules text.
pub open spec fn rule_sources_outcome(encoded: Seq<u8>, custom: Option<Seq<char>>) -> Result<
    Set<Seq<char>>,
    GfwlistError,
> {
    match gfwlist_outcome(encoded) {
        Err(e) => Err(e),
        Ok(domains) => Ok(
            match custom {
                Some(text) => domains.union(text_domains(text, RuleSyntax::Custom)),
                None => domains,
            },
        ),
    }
}

/// The rules of a downloaded gfwlist body, with the domains of the custom
/// rules file text added when there is one.
pub fn parse_rule_sources(gfwlist_body: &[u8], custom_rules_text: Option<&str>) -> (r: Result<
    DomainRules,
    GfwlistError,
>)
    ensures
        outcome_of(r) == rule_sources_outcome(
            gfwlist_body@,
            match custom_rules_text {
                Some(t) => Some(t@),
                None => None,
            },
        ),
{
    let mut rules = match parse_gfwlist(gfwlist_body) {
        Ok(rules) => rules,
        Err(e) => return Err(e),
    };
    match custom_rules_text {
        Some(text) => {
            let custom = parse_custom_domain_rules_text(text);
            rules.extend(custom);
        },
        None => {},
    }
    Ok(rules)
}

// ---------------------------------------------------------------------------
// Laws of the rule syntaxes and of matching

/// A text whose first and last characters are not of class `k` is its own
/// trim.
proof fn lemma_trim_unchanged(s: Seq<char>, k: CharClass)
    requires
        s.len() > 0 ==> !crate::text::in_class(k, s[0]) && !crate::text::in_class(k, s.last()),
    ensures
        trim(s, k) == s,
{
}

/// Trimming `k` leaves no character of class `k` at either end, and keeps
/// a window of the text.
proof fn lemma_trim_ends(s: Seq<char>, k: CharClass)
    ensures
        trim(s, k).len() > 0 ==> !crate::text::in_class(k, trim(s, k)[0])
            && !crate::text::in_class(k, trim(s, k).last()),
        exists|a: int, b: int| 0 <= a <= b <= s.len() && trim(s, k) == s.subrange(a, b),
{
    lemma_trim_start_window(s, k);
    let u = crate::text::trim_start(s, k);
    lemma_trim_end_window(u, k);
    let a = choose|a: int| 0 <= a <= s.len() && u == s.subrange(a, s.len() as int);
    let b = crate::text::trim_end(u, k).len() as int;
    assert(crate::text::trim_end(u, k) == s.subrange(a, a + b)) by {
        assert(u.subrange(0, b) =~= s.subrange(a, a + b));
    }
}

proof fn lemma_trim_start_window(s: Seq<char>, k: CharClass)
    ensures
        crate::text::trim_start(s, k).len() > 0 ==> !crate::text::in_class(
            k,
            crate::text::trim_start(s, k)[0],
        ),
        exists|a: int| 0 <= a <= s.len() && crate::text::trim_start(s, k) == s.subrange(a, s.len() as int),
    decreases s.len(),
{
    if s.len() > 0 && crate::text::in_class(k, s[0]) {
        lemma_trim_start_window(s.drop_first(), k);
        let a = choose|a: int|
            0 <= a <= s.drop_first().len() && crate::text::trim_start(s.drop_first(), k)
                == s.drop_first().subrange(a, s.drop_first().len() as int);
        assert(s.drop_first().subrange(a, s.drop_first().len() as int) =~= s.subrange(
            a + 1,
            s.len() as int,
        ));
    } else {
        assert(s.subrange(0, s.len() as int) =~= s);
    }
}

proof fn lemma_trim_end_window(s: Seq<char>, k: CharClass)
    ensures
        crate::text::trim_end(s, k).len() > 0 ==> !crate::text::in_class(
            k,
            crate::text::trim_end(s, k).last(),
        ),
        crate::text::trim_end(s, k) == s.subrange(0, crate::text::trim_end(s, k).len() as int),
        crate::text::trim_end(s, k).len() <= s.len(),
        crate::text::trim_end(s, k).len() > 0 && s.len() > 0 ==> crate::text::trim_end(s, k)[0]
            == s[0],
    decreases s.len(),
{
    if s.len() > 0 && crate::text::in_class(k, s.last()) {
        lemma_trim_end_window(s.drop_last(), k);
        let t = crate::text::trim_end(s.drop_last(), k);
        assert(s.drop_last().subrange(0, t.len() as int) =~= s.subrange(0, t.len() as int));
    } else {
        assert(s.subrange(0, s.len() as int) =~= s);
    }
}

proof fn lemma_lower_all_idempotent(s: Seq<char>)
    ensures
        lower_all(lower_all(s)) == s.map_values(|c: char| crate::text::ascii_lower(c)),
{
    assert(lower_all(lower_all(s)) =~= lower_all(s));
}

/// A domain that a rule line yields is its own normal form.
proof fn lemma_accepted_is_normal(x: Seq<char>)
    requires
        domain_like(normalized(x)),
    ensures
        normalized(normalized(x)) == normalized(x),
{
    let w = trim(x, CharClass::Whitespace);
    let t = trim(w, CharClass::Dot);
    let d = normalized(x);
    lemma_trim_ends(w, CharClass::Dot);
    assert(d.len() == t.len());
    if d.len() > 0 {
        assert(d[0] == crate::text::ascii_lower(t[0]));
        assert(d.last() == crate::text::ascii_lower(t.last()));
        assert(is_domain_char(d[0]) && is_domain_char(d.last()));
    }
    lemma_trim_unchanged(d, CharClass::Whitespace);
    lemma_trim_unchanged(d, CharClass::Dot);
    lemma_lower_all_idempotent(t);
}

/// Every domain that a rules text yields, in either syntax, is domain-like
/// and in normal form.
pub proof fn lemma_text_domains_are_normal_domains(text: Seq<char>, syntax: RuleSyntax, d: Seq<char>)
    requires
        text_domains(text, syntax).contains(d),
    ensures
        domain_like(d),
        normalized(d) == d,
{
    let ls = lines(text);
    let i = choose|i: int| 0 <= i < ls.len() && rule_domain(syntax, #[trigger] ls[i]) == Some(d);
    let line = ls[i];
    match syntax {
        RuleSyntax::Gfwlist => {
            let rule = proxy_rule_body(line)->0;
            let x = trim(rule.take(stop_index(rule, Stop::RuleEnd) as int), CharClass::Dot);
            lemma_accepted_is_normal(x);
        },
        RuleSyntax::Custom => {
            let x = trim(line.take(stop_index(line, Stop::Comment) as int), CharClass::Whitespace);
            lemma_accepted_is_normal(x);
        },
    }
}

/// Rules send each of their own domains through the proxy, when that domain
/// is in normal form, as every domain that a rules text yields is.
pub proof fn lemma_rule_domain_matches(domains: Set<Seq<char>>, d: Seq<char>)
    requires
        domains.contains(d),
        domain_like(d),
        normalized(d) == d,
    ensures
        domains_match(domains, d),
{
}

/// Matching ignores ASCII case: a host and its lower-cased form are routed
/// alike.
pub proof fn lemma_match_ignores_case(domains: Set<Seq<char>>, host: Seq<char>)
    ensures
        normalized(lower_all(host)) == normalized(host),
        domains_match(domains, lower_all(host)) == domains_match(domains, host),
{
    lemma_trim_start_lower(host, CharClass::Whitespace);
    let a = crate::text::trim_start(host, CharClass::Whitespace);
    lemma_trim_end_lower(a, CharClass::Whitespace);
    let w = trim(host, CharClass::Whitespace);
    lemma_trim_start_lower(w, CharClass::Dot);
    let b = crate::text::trim_start(w, CharClass::Dot);
    lemma_trim_end_lower(b, CharClass::Dot);
    lemma_lower_all_idempotent(trim(w, CharClass::Dot));
    assert(normalized(lower_all(host)) == normalized(host));
}

proof fn lemma_trim_start_lower(s: Seq<char>, k: CharClass)
    ensures
        crate::text::trim_start(lower_all(s), k) == lower_all(crate::text::trim_start(s, k)),
    decreases s.len(),
{
    if s.len() > 0 {
        assert(lower_all(s)[0] == crate::text::ascii_lower(s[0]));
        assert(lower_all(s).drop_first() =~= lower_all(s.drop_first()));
        if crate::text::in_class(k, s[0]) {
            lemma_trim_start_lower(s.drop_first(), k);
        }
    }
}

proof fn lemma_trim_end_lower(s: Seq<char>, k: CharClass)
    ensures
        crate::text::trim_end(lower_all(s), k) == lower_all(crate::text::trim_end(s, k)),
    decreases s.len(),
{
    if s.len() > 0 {
        assert(lower_all(s).last() == crate::text::ascii_lower(s.last()));
        assert(lower_all(s).drop_last() =~= lower_all(s.drop_last()));
        if crate::text::in_class(k, s.last()) {
            lemma_trim_end_lower(s.drop_last(), k);
        }
    }
}

/// A lower-case label of letters, digits and hyphens.
pub open spec fn is_label(l: Seq<char>) -> bool {
    &&& l.len() > 0
    &&& forall|i: int|
        0 <= i < l.len() ==> is_domain_char(#[trigger] l[i]) && l[i] != '.' && l[i]
            == crate::text::ascii_lower(l[i])
}

proof fn lemma_trim_start_len(s: Seq<char>, k: CharClass)
    ensures
        crate::text::trim_start(s, k).len() <= s.len(),
        s.len() > 0 && crate::text::in_class(k, s[0]) ==> crate::text::trim_start(s, k).len()
            < s.len(),
    decreases s.len(),
{
    if s.len() > 0 && crate::text::in_class(k, s[0]) {
        lemma_trim_start_len(s.drop_first(), k);
    }
}

/// Trimming never lengthens a text, and shortens it when a character of
/// the class stands at either end.
proof fn lemma_trim_len(s: Seq<char>, k: CharClass)
    ensures
        trim(s, k).len() <= s.len(),
        s.len() > 0 && (crate::text::in_class(k, s[0]) || crate::text::in_class(k, s.last()))
            ==> trim(s, k).len() < s.len(),
{
    lemma_trim_start_len(s, k);
    lemma_trim_start_window(s, k);
    let u = crate::text::trim_start(s, k);
    lemma_trim_end_window(u, k);
    if s.len() > 0 && crate::text::in_class(k, s.last()) && u.len() > 0 {
        let a = choose|a: int| 0 <= a <= s.len() && u == s.subrange(a, s.len() as int);
        assert(u.last() == s.last());
        assert(crate::text::trim_end(u, k) == crate::text::trim_end(u.drop_last(), k));
        lemma_trim_end_window(u.drop_last(), k);
    }
}

/// A non-empty host in normal form has no whitespace and no dot at either
/// end, and no upper-case letter.
proof fn lemma_normal_host_ends(h: Seq<char>)
    requires
        h.len() > 0,
        normalized(h) == h,
    ensures
        !crate::text::is_unicode_whitespace(h[0]),
        !crate::text::is_unicode_whitespace(h.last()),
        h[0] != '.',
        h.last() != '.',
        lower_all(h) == h,
        trim(h, CharClass::Whitespace) == h,
        trim(h, CharClass::Dot) == h,
{
    let w = trim(h, CharClass::Whitespace);
    let t = trim(w, CharClass::Dot);
    lemma_trim_len(h, CharClass::Whitespace);
    lemma_trim_len(w, CharClass::Dot);
    assert(t.len() == h.len());
    lemma_trim_ends(h, CharClass::Whitespace);
    let (a, b) = choose|a: int, b: int| 0 <= a <= b <= h.len() && w == h.subrange(a, b);
    assert(w =~= h);
    lemma_trim_ends(w, CharClass::Dot);
    let (c, d) = choose|c: int, d: int| 0 <= c <= d <= w.len() && t == w.subrange(c, d);
    assert(t =~= h);
}

/// When rules send a host through the proxy, they send each of its
/// subdomains too: `label.host` matches whenever `host`, in normal form,
/// does.
pub proof fn lemma_subdomain_matches(domains: Set<Seq<char>>, label: Seq<char>, host: Seq<char>)
    requires
        is_label(label),
        host.len() > 0,
        normalized(host) == host,
        domains_match(domains, host),
    ensures
        domains_match(domains, label + seq!['.'] + host),
{
    let x = label + seq!['.'] + host;
    let n = label.len() as int;
    lemma_normal_host_ends(host);
    assert(x[0] == label[0]);
    assert(x.last() == host.last());
    assert(is_domain_char(label[0]));
    lemma_trim_unchanged(x, CharClass::Whitespace);
    lemma_trim_unchanged(x, CharClass::Dot);
    assert(lower_all(x) =~= x) by {
        assert forall|i: int| 0 <= i < x.len() implies #[trigger] lower_all(x)[i] == x[i] by {
            if i < n {
                assert(x[i] == label[i]);
            } else if i > n {
                assert(x[i] == host[i - n - 1]);
                assert(lower_all(host)[i - n - 1] == host[i - n - 1]);
            }
        }
    }
    assert(normalized(x) == x);
    assert(x[n] == '.');
    assert(x.skip(n + 1) =~= host);
    if !domains.contains(host) {
        let i = choose|i: int|
            0 <= i < host.len() && host[i] == '.' && domains.contains(host.skip(i + 1));
        assert(x[n + 1 + i] == host[i]);
        assert(x.skip(n + 1 + i + 1) =~= host.skip(i + 1));
    }
}

proof fn lemma_trim_start_upper(s: Seq<char>, k: CharClass)
    ensures
        crate::text::trim_start(crate::text::upper_all(s), k) == crate::text::upper_all(
            crate::text::trim_start(s, k),
        ),
    decreases s.len(),
{
    if s.len() > 0 {
        crate::text::lemma_ascii_upper(s[0]);
        assert(crate::text::upper_all(s)[0] == crate::text::ascii_upper(s[0]));
        assert(crate::text::upper_all(s).drop_first() =~= crate::text::upper_all(s.drop_first()));
        if crate::text::in_class(k, s[0]) {
            lemma_trim_start_upper(s.drop_first(), k);
        }
    }
}

proof fn lemma_trim_end_upper(s: Seq<char>, k: CharClass)
    ensures
        crate::text::trim_end(crate::text::upper_all(s), k) == crate::text::upper_all(
            crate::text::trim_end(s, k),
        ),
    decreases s.len(),
{
    if s.len() > 0 {
        crate::text::lemma_ascii_upper(s.last());
        assert(crate::text::upper_all(s).last() == crate::text::ascii_upper(s.last()));
        assert(crate::text::upper_all(s).drop_last() =~= crate::text::upper_all(s.drop_last()));
        if crate::text::in_class(k, s.last()) {
            lemma_trim_end_upper(s.drop_last(), k);
        }
    }
}

proof fn lemma_trim_upper(s: Seq<char>, k: CharClass)
    ensures
        trim(crate::text::upper_all(s), k) == crate::text::upper_all(trim(s, k)),
{
    lemma_trim_start_upper(s, k);
    lemma_trim_end_upper(crate::text::trim_start(s, k), k);
}

proof fn lemma_lower_of_upper(s: Seq<char>)
    ensures
        lower_all(crate::text::upper_all(s)) == lower_all(s),
{
    assert forall|i: int| 0 <= i < s.len() implies #[trigger] lower_all(crate::text::upper_all(s))[i]
        == lower_all(s)[i] by {
        crate::text::lemma_ascii_upper(s[i]);
    }
    assert(lower_all(crate::text::upper_all(s)) =~= lower_all(s));
}

/// Upper-casing a text before normalizing it changes nothing.
proof fn lemma_normalized_upper(s: Seq<char>)
    ensures
        normalized(crate::text::upper_all(s)) == normalized(s),
{
    lemma_trim_upper(s, CharClass::Whitespace);
    lemma_trim_upper(trim(s, CharClass::Whitespace), CharClass::Dot);
    lemma_lower_of_upper(trim(trim(s, CharClass::Whitespace), CharClass::Dot));
}

/// A normalized host has no dot at either end and no upper-case letter, and
/// normalizing ignores ASCII case.
pub proof fn lemma_normalized_shape(host: Seq<char>)
    ensures
        normalized(host).len() > 0 ==> normalized(host)[0] != '.' && normalized(host).last()
            != '.',
        forall|i: int|
            0 <= i < normalized(host).len() ==> !('A' <= #[trigger] normalized(host)[i]
                && normalized(host)[i] <= 'Z'),
        normalized(crate::text::upper_all(host)) == normalized(host),
        normalized(lower_all(host)) == normalized(host),
{
    let t = trim(trim(host, CharClass::Whitespace), CharClass::Dot);
    lemma_trim_ends(trim(host, CharClass::Whitespace), CharClass::Dot);
    if t.len() > 0 {
        crate::text::lemma_ascii_lower(t[0]);
        crate::text::lemma_ascii_lower(t.last());
    }
    assert forall|i: int| 0 <= i < normalized(host).len() implies !('A'
        <= #[trigger] normalized(host)[i] && normalized(host)[i] <= 'Z') by {
        crate::text::lemma_ascii_lower(t[i]);
    }
    lemma_normalized_upper(host);
    lemma_match_ignores_case(Set::empty(), host);
}

/// Matching ignores upper-casing too: a host and its upper-cased form are
/// routed alike.
pub proof fn lemma_match_ignores_upper_case(domains: Set<Seq<char>>, host: Seq<char>)
    ensures
        domains_match(domains, crate::text::upper_all(host)) == domains_match(domains, host),
{
    lemma_normalized_upper(host);
}

/// A gfwlist rule gives the same domain whether it starts with `"||"` or
/// with `'.'`, and whatever the ASCII case of the line.
pub proof fn lemma_gfwlist_rule_prefix_and_case(rest: Seq<char>, line: Seq<char>)
    ensures
        proxy_rule_domain(seq!['|', '|'] + rest) == proxy_rule_domain(seq!['.'] + rest),
        proxy_rule_domain(crate::text::upper_all(line)) == proxy_rule_domain(line),
{
    let a = seq!['|', '|'] + rest;
    let b = seq!['.'] + rest;
    assert(a[0] == '|' && a[1] == '|');
    assert(a.skip(2) =~= rest);
    assert(b[0] == '.');
    assert(b.skip(1) =~= rest);
    let u = crate::text::upper_all(line);
    if line.len() > 0 {
        crate::text::lemma_ascii_upper(line[0]);
    }
    if line.len() > 1 {
        crate::text::lemma_ascii_upper(line[1]);
    }
    match proxy_rule_body(line) {
        None => {},
        Some(rule) => {
            let urule = proxy_rule_body(u)->0;
            assert(urule =~= crate::text::upper_all(rule));
            assert(urule.contains('*') == rule.contains('*')) by {
                if rule.contains('*') {
                    let i = choose|i: int| 0 <= i < rule.len() && rule[i] == '*';
                    crate::text::lemma_ascii_upper(rule[i]);
                    assert(urule[i] == '*');
                }
                if urule.contains('*') {
                    let i = choose|i: int| 0 <= i < urule.len() && urule[i] == '*';
                    crate::text::lemma_ascii_upper(rule[i]);
                }
            }
            lemma_stop_index_upper(rule, Stop::RuleEnd);
            let e = stop_index(rule, Stop::RuleEnd) as int;
            lemma_stop_index(rule, Stop::RuleEnd);
            assert(urule.take(e) =~= crate::text::upper_all(rule.take(e)));
            lemma_trim_upper(rule.take(e), CharClass::Dot);
            lemma_normalized_upper(trim(rule.take(e), CharClass::Dot));
        },
    }
}

proof fn lemma_stop_index_upper(s: Seq<char>, k: Stop)
    ensures
        stop_index(crate::text::upper_all(s), k) == stop_index(s, k),
    decreases s.len(),
{
    if s.len() > 0 {
        crate::text::lemma_ascii_upper(s[0]);
        assert(crate::text::upper_all(s)[0] == crate::text::ascii_upper(s[0]));
        assert(crate::text::upper_all(s).drop_first() =~= crate::text::upper_all(s.drop_first()));
        lemma_stop_index_upper(s.drop_first(), k);
    }
}

/// In a custom rules line, what follows a `'#'` changes nothing, and a
/// yielded domain is domain-like and in normal form.
pub proof fn lemma_custom_line(line: Seq<char>, comment: Seq<char>)
    ensures
        !line.contains('#') ==> custom_rule_domain(line + seq!['#'] + comment)
            == custom_rule_domain(line),
        custom_rule_domain(line) matches Some(d) ==> domain_like(d) && normalized(d) == d,
{
    if !line.contains('#') {
        let x = line + seq!['#'] + comment;
        let n = line.len() as int;
        assert forall|j: int| 0 <= j < n implies !crate::text::is_stop(Stop::Comment, #[trigger] x[j]) by {
            assert(x[j] == line[j]);
        }
        crate::text::lemma_stop_index_at(x, Stop::Comment, n);
        assert forall|j: int| 0 <= j < n implies !crate::text::is_stop(Stop::Comment, #[trigger] line[j]) by {
        }
        crate::text::lemma_stop_index_at(line, Stop::Comment, n);
        assert(x.take(n) =~= line.take(n));
    }
    if custom_rule_domain(line) is Some {
        let x = trim(line.take(stop_index(line, Stop::Comment) as int), CharClass::Whitespace);
        lemma_accepted_is_normal(x);
    }
}

/// `without_ascii_whitespace` of a concatenation is the concatenation of
/// its parts' values.
proof fn lemma_without_whitespace_concat(a: Seq<u8>, b: Seq<u8>)
    ensures
        without_ascii_whitespace(a + b) == without_ascii_whitespace(a) + without_ascii_whitespace(
            b,
        ),
    decreases b.len(),
{
    if b.len() == 0 {
        assert(a + b =~= a);
        assert(without_ascii_whitespace(a) + without_ascii_whitespace(b) =~= without_ascii_whitespace(a));
    } else {
        assert((a + b).drop_last() =~= a + b.drop_last());
        assert((a + b).last() == b.last());
        lemma_without_whitespace_concat(a, b.drop_last());
        if !is_ascii_whitespace_byte(b.last()) {
            assert((without_ascii_whitespace(a) + without_ascii_whitespace(b.drop_last())).push(
                b.last(),
            ) =~= without_ascii_whitespace(a) + without_ascii_whitespace(b.drop_last()).push(
                b.last(),
            ));
        }
    }
}

proof fn lemma_without_whitespace_of_whitespace(w: Seq<u8>)
    requires
        forall|i: int| 0 <= i < w.len() ==> is_ascii_whitespace_byte(#[trigger] w[i]),
    ensures
        without_ascii_whitespace(w) == Seq::<u8>::empty(),
    decreases w.len(),
{
    if w.len() > 0 {
        assert(w.last() == w[w.len() - 1]);
        lemma_without_whitespace_of_whitespace(w.drop_last());
    }
}

/// ASCII whitespace inserted anywhere in a gfwlist body, such as the line
/// breaks of a wrapped base64 file, changes nothing of what it gives.
pub proof fn lemma_gfwlist_ignores_whitespace(a: Seq<u8>, w: Seq<u8>, b: Seq<u8>)
    requires
        forall|i: int| 0 <= i < w.len() ==> is_ascii_whitespace_byte(#[trigger] w[i]),
    ensures
        gfwlist_outcome(a + w + b) == gfwlist_outcome(a + b),
{
    lemma_without_whitespace_concat(a + w, b);
    lemma_without_whitespace_concat(a, w);
    lemma_without_whitespace_concat(a, b);
    lemma_without_whitespace_of_whitespace(w);
    assert(without_ascii_whitespace(a) + Seq::<u8>::empty() =~= without_ascii_whitespace(a));
}

/// Lines of a custom rules file that are blank, or that start with `'#'`,
/// yield no domain.
pub proof fn lemma_custom_comments_ignored(rest: Seq<char>)
    ensures
        custom_rule_domain(Seq::<char>::empty()) is None,
        custom_rule_domain(seq!['#'] + rest) is None,
{
    let line = seq!['#'] + rest;
    assert(crate::text::is_stop(Stop::Comment, line[0]));
    assert(stop_index(line, Stop::Comment) == 0);
    assert(line.take(0) =~= Seq::<char>::empty());
    assert(lower_all(Seq::<char>::empty()) =~= Seq::<char>::empty());
}

/// Only gfwlist lines that start with `"||"` or `'.'` and hold no `'*'`
/// yield a domain.
pub proof fn lemma_gfwlist_rule_shape(line: Seq<char>)
    ensures
        proxy_rule_body(line) is None ==> proxy_rule_domain(line) is None,
        line.contains('*') ==> proxy_rule_domain(line) is None,
{
    if line.contains('*') && proxy_rule_body(line) is Some {
        let rule = proxy_rule_body(line)->0;
        let i = choose|i: int| 0 <= i < line.len() && line[i] == '*';
        if line.len() >= 2 && line[0] == '|' && line[1] == '|' {
            assert(rule[i - 2] == '*');
        } else {
            assert(rule[i - 1] == '*');
        }
        assert(rule.contains('*'));
    }
}

/// Before base64 decoding, exactly the five ASCII whitespace bytes (space,
/// tab, line feed, form feed, carriage return) are dropped from a gfwlist
/// body; every other byte, `'+'`, `'/'` and `'='` among them, is kept in
/// its place.
pub proof fn lemma_only_ascii_whitespace_dropped(a: Seq<u8>, b: u8, c: Seq<u8>)
    ensures
        (b == 0x20 || b == 0x09 || b == 0x0a || b == 0x0c || b == 0x0d) ==> without_ascii_whitespace(
            a + seq![b] + c,
        ) == without_ascii_whitespace(a + c),
        !(b == 0x20 || b == 0x09 || b == 0x0a || b == 0x0c || b == 0x0d) ==> without_ascii_whitespace(
            a + seq![b] + c,
        ) == without_ascii_whitespace(a) + seq![b] + without_ascii_whitespace(c),
{
    lemma_without_whitespace_concat(a + seq![b], c);
    lemma_without_whitespace_concat(a, seq![b]);
    lemma_without_whitespace_concat(a, c);
    let e = Seq::<u8>::empty();
    assert(seq![b].drop_last() =~= e);
    assert(without_ascii_whitespace(e) == e);
    if b == 0x20 || b == 0x09 || b == 0x0a || b == 0x0c || b == 0x0d {
        assert(without_ascii_whitespace(seq![b]) == e);
        assert(without_ascii_whitespace(a) + e =~= without_ascii_whitespace(a));
    } else {
        assert(without_ascii_whitespace(seq![b]) =~= seq![b]);
    }
}

/// A gfwlist body without ASCII whitespace is base64-decoded as it stands:
/// no byte of it is dropped or changed.
pub proof fn lemma_body_without_whitespace_decoded_whole(body: Seq<u8>)
    requires
        forall|i: int|
            0 <= i < body.len() ==> !(#[trigger] body[i] == 0x20 || body[i] == 0x09 || body[i]
                == 0x0a || body[i] == 0x0c || body[i] == 0x0d),
    ensures
        without_ascii_whitespace(body) == body,
        gfwlist_outcome(body) == match base64_standard_decoded(body) {
            None => Err(GfwlistError::Decode),
            Some(bytes) => decoded_gfwlist_outcome(bytes),
        },
    decreases body.len(),
{
    if body.len() > 0 {
        let init = body.drop_last();
        assert forall|i: int| 0 <= i < init.len() implies !(#[trigger] init[i] == 0x20 || init[i]
            == 0x09 || init[i] == 0x0a || init[i] == 0x0c || init[i] == 0x0d) by {
            assert(init[i] == body[i]);
        }
        lemma_body_without_whitespace_decoded_whole(init);
        assert(body.last() == body[body.len() - 1]);
        assert(init.push(body.last()) =~= body);
    }
}

/// A gfwlist text yields only domains of its lines that start with `"||"`
/// or `'.'`, each the domain that its line gives; and a text none of whose
/// lines starts so is refused for want of usable domains.
pub proof fn lemma_gfwlist_domains_come_from_rule_lines(text: Seq<char>)
    ensures
        gfwlist_text_outcome(text) matches Ok(domains) ==> forall|d: Seq<char>|
            #[trigger] domains.contains(d) ==> exists|i: int|
                0 <= i < lines(text).len() && ((lines(text)[i].len() >= 2 && lines(text)[i][0]
                    == '|' && lines(text)[i][1] == '|') || (lines(text)[i].len() >= 1
                    && lines(text)[i][0] == '.')) && proxy_rule_domain(#[trigger] lines(text)[i])
                    == Some(d),
        gfwlist_text_outcome(text) matches Ok(domains) ==> forall|i: int|
            0 <= i < lines(text).len() && proxy_rule_domain(#[trigger] lines(text)[i]) is Some
                ==> domains.contains(proxy_rule_domain(lines(text)[i])->0),
        (forall|i: int|
            0 <= i < lines(text).len() ==> !((#[trigger] lines(text)[i]).len() >= 2
                && lines(text)[i][0] == '|' && lines(text)[i][1] == '|') && !(lines(text)[i].len()
                >= 1 && lines(text)[i][0] == '.')) ==> gfwlist_text_outcome(text) == Err::<
            Set<Seq<char>>,
            GfwlistError,
        >(GfwlistError::NoUsableDomains),
{
    let ls = lines(text);
    let ds = text_domains(text, RuleSyntax::Gfwlist);
    assert forall|i: int| 0 <= i < ls.len() && proxy_rule_domain(#[trigger] ls[i]) is Some implies ds.contains(
        proxy_rule_domain(ls[i])->0,
    ) by {
        assert(rule_domain(RuleSyntax::Gfwlist, ls[i]) == Some(proxy_rule_domain(ls[i])->0));
    }
    if (forall|i: int|
        0 <= i < ls.len() ==> !((#[trigger] ls[i]).len() >= 2 && ls[i][0] == '|' && ls[i][1]
            == '|') && !(ls[i].len() >= 1 && ls[i][0] == '.')) {
        assert(ds =~= Set::<Seq<char>>::empty()) by {
            assert forall|d: Seq<char>| !ds.contains(d) by {
                if ds.contains(d) {
                    let i = choose|i: int|
                        0 <= i < ls.len() && rule_domain(RuleSyntax::Gfwlist, #[trigger] ls[i])
                            == Some(d);
                    assert(proxy_rule_body(ls[i]) is None);
                }
            }
        }
    }
}

/// The merged rules hold the gfwlist domains and, read in custom
/// (`dstdomain`) syntax, the domain of every custom rules line that yields
/// one, and nothing else; they load exactly when the gfwlist loads.
pub proof fn lemma_rule_sources_merge(encoded: Seq<u8>, custom: Seq<char>)
    ensures
        rule_sources_outcome(encoded, Some(custom)) is Ok <==> gfwlist_outcome(encoded) is Ok,
        rule_sources_outcome(encoded, Some(custom)) matches Ok(domains) ==> forall|i: int|
            0 <= i < lines(custom).len() && custom_rule_domain(#[trigger] lines(custom)[i]) is Some
                ==> domains.contains(custom_rule_domain(lines(custom)[i])->0),
        rule_sources_outcome(encoded, Some(custom)) matches Ok(domains) ==> (
        gfwlist_outcome(encoded) matches Ok(g) && g.subset_of(domains)),
        rule_sources_outcome(encoded, Some(custom)) matches Ok(domains) ==> forall|d: Seq<char>|
            #[trigger] domains.contains(d) ==> (gfwlist_outcome(encoded) matches Ok(g)
                && g.contains(d)) || exists|i: int|
                0 <= i < lines(custom).len() && custom_rule_domain(#[trigger] lines(custom)[i])
                    == Some(d),
{
    let ls = lines(custom);
    assert forall|i: int| 0 <= i < ls.len() && custom_rule_domain(#[trigger] ls[i]) is Some implies text_domains(
        custom,
        RuleSyntax::Custom,
    ).contains(custom_rule_domain(ls[i])->0) by {
        assert(rule_domain(RuleSyntax::Custom, ls[i]) == Some(custom_rule_domain(ls[i])->0));
    }
}

/// A domain written out on its own, as lower-case letters, digits, `'-'`
/// and inner dots and not an IPv4 address, is yielded as it stands: by a
/// custom rules line holding just it, and by a gfwlist line of `"||"` or
/// `'.'` followed by it. A leading digit is no obstacle (`9gag.com`).
pub proof fn lemma_plain_domain_is_yielded(d: Seq<char>)
    requires
        d.len() > 0,
        d[0] != '.',
        d.last() != '.',
        forall|i: int|
            0 <= i < d.len() ==> ('a' <= #[trigger] d[i] && d[i] <= 'z') || ('0' <= d[i] && d[i]
                <= '9') || d[i] == '-' || d[i] == '.',
        !is_ipv4_text(d),
    ensures
        custom_rule_domain(d) == Some(d),
        proxy_rule_domain(seq!['|', '|'] + d) == Some(d),
        proxy_rule_domain(seq!['.'] + d) == Some(d),
{
    let n = d.len() as int;
    assert(!crate::text::is_unicode_whitespace(d[0]));
    assert(!crate::text::is_unicode_whitespace(d.last()));
    assert(d.last() == d[n - 1]);
    lemma_trim_unchanged(d, CharClass::Whitespace);
    lemma_trim_unchanged(d, CharClass::Dot);
    assert(lower_all(d) =~= d);
    assert(normalized(d) == d);
    assert(!d.contains(':'));
    assert(domain_like(d));
    assert forall|j: int| 0 <= j < n implies !crate::text::is_stop(Stop::Comment, #[trigger] d[j]) by {
    }
    crate::text::lemma_stop_index_at(d, Stop::Comment, n);
    assert forall|j: int| 0 <= j < n implies !crate::text::is_stop(Stop::RuleEnd, #[trigger] d[j]) by {
    }
    crate::text::lemma_stop_index_at(d, Stop::RuleEnd, n);
    assert(d.take(n) =~= d);
    assert(!d.contains('*'));
    let a = seq!['|', '|'] + d;
    let b = seq!['.'] + d;
    assert(a[0] == '|' && a[1] == '|');
    assert(a.skip(2) =~= d);
    assert(b[0] == '.');
    assert(b.skip(1) =~= d);
}

// ---------------------------------------------------------------------------
// Routing

/// How hosts are routed: through the proxy when the loaded domain rules
/// match them, or all directly when no rules could be loaded.
#[derive(Debug)]
pub enum RoutingRules {
    Domains { rules: DomainRules, custom_domain_rules: Option<PathBuf> },
    Direct,
}

impl RoutingRules {
    /// Routing after a load: by the rules when they were loaded, else every
    /// host directly.
    pub fn loaded(rules: Option<DomainRules>, custom_domain_rules: Option<PathBuf>) -> (r: Self)
        ensures
            match rules {
                Some(rules) => r == (RoutingRules::Domains { rules, custom_domain_rules }),
                None => r is Direct,
            },
    {
        match rules {
            Some(rules) => RoutingRules::Domains { rules, custom_domain_rules },
            None => RoutingRules::Direct,
        }
    }

    /// Whether `host` goes through the proxy.
    pub fn should_proxy_host(&self, host: &str) -> (r: bool)
        ensures
            r == match self {
                RoutingRules::Domains { rules, .. } => domains_match(rules@, host@),
                RoutingRules::Direct => false,
            },
    {
        match self {
            RoutingRules::Domains { rules, .. } => rules.matches(host),
            RoutingRules::Direct => false,
        }
    }

    /// The name of the routing mode.
    pub fn mode(&self) -> (r: &'static str)
        ensures
            r@ == match self {
                RoutingRules::Domains { .. } => "gfwlist"@,
                RoutingRules::Direct => "direct"@,
            },
    {
        match self {
            RoutingRules::Domains { .. } => "gfwlist",
            RoutingRules::Direct => "direct",
        }
    }

    /// A sentence that says where the rules came from; a custom rules path is
    /// shown as `Path::display` shows it.
    pub fn describe(&self) -> (r: String)
        ensures
            match self {
                RoutingRules::Domains { rules, custom_domain_rules: None } => r@ == decimal(
                    rules@.len(),
                ) + " domains from "@ + GFWLIST_URL@,
                RoutingRules::Domains { rules, custom_domain_rules: Some(path) } => r@ == decimal(
                    rules@.len(),
                ) + " domains from "@ + GFWLIST_URL@ + " plus custom rules from "@
                    + displayed_path(*path),
                RoutingRules::Direct => r@ == "no domains via proxy; failed to load "@
                    + GFWLIST_URL@,
            },
    {
        let mut s = String::new();
        match self {
            RoutingRules::Domains { rules, custom_domain_rules } => {
                push_decimal(&mut s, rules.len());
                s.append(" domains from ");
                s.append(GFWLIST_URL);
                match custom_domain_rules {
                    Some(path) => {
                        let shown = path_display(path);
                        let ghost before = s@;
                        s.append(" plus custom rules from ");
                        s.append(shown.as_str());
                        assert(s@ == before + " plus custom rules from "@ + shown@);
                    },
                    None => {},
                }
            },
            RoutingRules::Direct => {
                s.append("no domains via proxy; failed to load ");
                s.append(GFWLIST_URL);
            },
        }
        s
    }
}

// ---------------------------------------------------------------------------
// Authorities

/// Why no host could be taken from an authority.
#[derive(Clone, Copy, Debug, PartialEq, Eq, Structural)]
pub enum AuthorityError {
    /// A `'['` authority without `"]:"`.
    Ipv6WithoutPort,
    /// An authority without `':'`.
    MissingPort,
}

impl AuthorityError {
    pub fn message(&self) -> (r: &'static str)
        ensures
            r@ == match self {
                AuthorityError::Ipv6WithoutPort => "IPv6 authority must be [host]:port"@,
                AuthorityError::MissingPort => "authority must include :port"@,
            },
    {
        match self {
            AuthorityError::Ipv6WithoutPort => "IPv6 authority must be [host]:port",
            AuthorityError::MissingPort => "authority must include :port",
        }
    }
}

/// Index of the first `"]:"` in `s`, or `s.len()` when there is none.
pub open spec fn bracket_port_index(s: Seq<char>) -> nat
    decreases s.len(),
{
    if s.len() < 2 {
        s.len()
    } else if s[0] == ']' && s[1] == ':' {
        0
    } else {
        1 + bracket_port_index(s.drop_first())
    }
}

/// Index of the last `':'` in `s`, or `-1` when there is none.
pub open spec fn last_colon(s: Seq<char>) -> int
    decreases s.len(),
{
    if s.len() == 0 {
        -1
    } else if s.last() == ':' {
        s.len() - 1
    } else {
        last_colon(s.drop_last())
    }
}

/// The host of an authority: for `"[host]:port"` the text between `'['` and
/// the first `"]:"`, otherwise the text before the last `':'`.
pub open spec fn authority_host(a: Seq<char>) -> Result<Seq<char>, AuthorityError> {
    if a.len() > 0 && a[0] == '[' {
        let rest = a.drop_first();
        if bracket_port_index(rest) < rest.len() {
            Ok(rest.take(bracket_port_index(rest) as int))
        } else {
            Err(AuthorityError::Ipv6WithoutPort)
        }
    } else if last_colon(a) >= 0 {
        Ok(a.take(last_colon(a)))
    } else {
        Err(AuthorityError::MissingPort)
    }
}

/// Whether `"]:"` starts at index `m` of `s`.
pub open spec fn port_separator_at(s: Seq<char>, m: int) -> bool {
    s[m] == ']' && s[m + 1] == ':'
}

proof fn lemma_bracket_port_index_at(s: Seq<char>, k: int)
    requires
        0 <= k <= s.len(),
        forall|m: int| 0 <= m < k && m + 1 < s.len() ==> !#[trigger] port_separator_at(s, m),
        k < s.len() ==> k + 1 < s.len() && port_separator_at(s, k),
    ensures
        bracket_port_index(s) == k,
    decreases s.len(),
{
    if s.len() < 2 {
    } else if port_separator_at(s, 0) {
    } else {
        let t = s.drop_first();
        if k - 1 < t.len() {
            assert(port_separator_at(s, k));
            assert(t[k - 1] == s[k] && t[k] == s[k + 1]);
        }
        assert forall|m: int| 0 <= m < k - 1 && m + 1 < t.len() implies !#[trigger] port_separator_at(t, m) by {
            assert(t[m] == s[m + 1] && t[m + 1] == s[m + 2]);
            assert(!port_separator_at(s, m + 1));
        }
        lemma_bracket_port_index_at(t, k - 1);
    }
}

proof fn lemma_last_colon_at(s: Seq<char>, k: int)
    requires
        -1 <= k < s.len(),
        forall|m: int| k < m < s.len() ==> s[m] != ':',
        k >= 0 ==> s[k] == ':',
    ensures
        last_colon(s) == k,
    decreases s.len(),
{
    if s.len() > 0 && s.last() != ':' {
        lemma_last_colon_at(s.drop_last(), k);
    }
}

/// A host and a port joined as an authority give the host back: after the
/// last `':'` for a host that does not start with `'['`, and between the
/// brackets of `"[host]:port"` for a host without `']'`.
pub proof fn lemma_authority_host_roundtrip(host: Seq<char>, port: Seq<char>)
    requires
        !port.contains(':'),
    ensures
        !(host.len() > 0 && host[0] == '[') ==> authority_host(host + seq![':'] + port) == Ok::<
            Seq<char>,
            AuthorityError,
        >(host),
        !host.contains(']') ==> authority_host(seq!['['] + host + seq![']', ':'] + port) == Ok::<
            Seq<char>,
            AuthorityError,
        >(host),
{
    let a = host + seq![':'] + port;
    let k = host.len() as int;
    assert forall|m: int| k < m < a.len() implies a[m] != ':' by {
        assert(a[m] == port[m - k - 1]);
    }
    lemma_last_colon_at(a, k);
    if !(host.len() > 0 && host[0] == '[') {
        if a.len() > 0 && a[0] == '[' {
            if host.len() == 0 {
                assert(a[0] == ':');
            } else {
                assert(a[0] == host[0]);
            }
        }
        assert(a.take(k) =~= host);
    }
    if !host.contains(']') {
        let b = seq!['['] + host + seq![']', ':'] + port;
        let rest = b.drop_first();
        assert forall|m: int| 0 <= m < k && m + 1 < rest.len() implies !#[trigger] port_separator_at(
            rest,
            m,
        ) by {
            assert(rest[m] == host[m]);
        }
        assert(rest[k] == ']' && rest[k + 1] == ':');
        lemma_bracket_port_index_at(rest, k);
        assert(rest.take(k) =~= host);
    }
}

/// The host of a request authority (see `authority_host`).
pub fn host_from_authority(authority: &str) -> (r: Result<&str, AuthorityError>)
    ensures
        match r {
            Ok(host) => authority_host(authority@) == Ok::<Seq<char>, AuthorityError>(host@),
            Err(e) => authority_host(authority@) == Err::<Seq<char>, AuthorityError>(e),
        },
{
    let v = chars_of(authority);
    let n = v.len();
    if n > 0 && v[0] == '[' {
        let ghost rest = v@.drop_first();
        let mut j: usize = 1;
        while j < n - 1 && !(v[j] == ']' && v[j + 1] == ':')
            invariant
                1 <= j <= n == v.len(),
                rest == v@.drop_first(),
                forall|m: int| 1 <= m < j && m + 1 < n ==> !#[trigger] port_separator_at(v@, m),
            decreases n - j,
        {
            j = j + 1;
        }
        if j < n - 1 {
            proof {
                assert forall|m: int| 0 <= m < j - 1 && m + 1 < rest.len() implies !#[trigger] port_separator_at(rest, m) by {
                    assert(rest[m] == v@[m + 1] && rest[m + 1] == v@[m + 2]);
                    assert(!port_separator_at(v@, m + 1));
                }
                lemma_bracket_port_index_at(rest, j - 1);
                assert(rest.take(j - 1) =~= authority@.subrange(1, j as int));
            }
            Ok(authority.substring_char(1, j))
        } else {
            proof {
                assert forall|m: int| 0 <= m < rest.len() && m + 1 < rest.len() implies !#[trigger] port_separator_at(rest, m) by {
                    assert(rest[m] == v@[m + 1] && rest[m + 1] == v@[m + 2]);
                    assert(!port_separator_at(v@, m + 1));
                }
                lemma_bracket_port_index_at(rest, rest.len() as int);
            }
            Err(AuthorityError::Ipv6WithoutPort)
        }
    } else {
        let mut j: usize = n;
        while j > 0 && v[j - 1] != ':'
            invariant
                j <= n == v.len(),
                forall|m: int| j <= m < n ==> v@[m] != ':',
            decreases j,
        {
            j = j - 1;
        }
        proof {
            lemma_last_colon_at(v@, j - 1);
        }
        if j > 0 {
            assert(authority@.take(j - 1) =~= authority@.subrange(0, j - 1));
            Ok(authority.substring_char(0, j - 1))
        } else {
            Err(AuthorityError::MissingPort)
        }
    }
}

} // verus!
