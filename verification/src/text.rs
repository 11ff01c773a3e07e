//! Character-level text model: whitespace, trimming, ASCII case folding and
//! line splitting, each stated as a spec function over `Seq<char>` and
//! implemented over `Vec<char>`.

use vstd::prelude::*;

verus! {

/// The characters with the Unicode `White_Space` property, which is what
/// `char::is_whitespace` and therefore `str::trim` remove.
pub open spec fn is_unicode_whitespace(c: char) -> bool {
    ||| ('\u{9}' <= c && c <= '\u{d}')
    ||| c == ' '
    ||| c == '\u{85}'
    ||| c == '\u{a0}'
    ||| c == '\u{1680}'
    ||| ('\u{2000}' <= c && c <= '\u{200a}')
    ||| c == '\u{2028}'
    ||| c == '\u{2029}'
    ||| c == '\u{202f}'
    ||| c == '\u{205f}'
    ||| c == '\u{3000}'
}

pub fn is_whitespace(c: char) -> (r: bool)
    ensures
        r == is_unicode_whitespace(c),
{
    ('\u{9}' <= c && c <= '\u{d}') || c == ' ' || c == '\u{85}' || c == '\u{a0}' || c
        == '\u{1680}' || ('\u{2000}' <= c && c <= '\u{200a}') || c == '\u{2028}' || c
        == '\u{2029}' || c == '\u{202f}' || c == '\u{205f}' || c == '\u{3000}'
}

/// ASCII lower-casing of one character: `'A'..='Z'` map to `'a'..='z'`,
/// every other character is kept.
pub open spec fn ascii_lower(c: char) -> char {
    if 'A' <= c && c <= 'Z' {
        ((c as u32) + 32) as char
    } else {
        c
    }
}

/// ASCII upper-casing of one character: `'a'..='z'` map to `'A'..='Z'`,
/// every other character is kept.
pub open spec fn ascii_upper(c: char) -> char {
    if 'a' <= c && c <= 'z' {
        ((c as u32) - 32) as char
    } else {
        c
    }
}

/// Upper-casing changes only ASCII letters, which are neither whitespace
/// nor stop characters, and lower-casing undoes it.
pub proof fn lemma_ascii_upper(c: char)
    ensures
        ascii_lower(ascii_upper(c)) == ascii_lower(c),
        is_unicode_whitespace(ascii_upper(c)) == is_unicode_whitespace(c),
        ascii_upper(c) == '.' <==> c == '.',
        ascii_upper(c) == '|' <==> c == '|',
        ascii_upper(c) == '*' <==> c == '*',
        forall|k: Stop| #[trigger] is_stop(k, ascii_upper(c)) == is_stop(k, c),
        forall|k: CharClass| #[trigger] in_class(k, ascii_upper(c)) == in_class(k, c),
{
    if 'a' <= c && c <= 'z' {
        assert((((c as u32) - 32) as char) as u32 == (c as u32) - 32);
    }
}

/// Lower-casing changes only ASCII letters, which are neither whitespace
/// nor stop characters, and leaves no upper-case letter.
pub proof fn lemma_ascii_lower(c: char)
    ensures
        ascii_lower(ascii_lower(c)) == ascii_lower(c),
        !('A' <= ascii_lower(c) && ascii_lower(c) <= 'Z'),
        ascii_lower(c) == '.' <==> c == '.',
        forall|k: CharClass| #[trigger] in_class(k, ascii_lower(c)) == in_class(k, c),
{
    if 'A' <= c && c <= 'Z' {
        assert((((c as u32) + 32) as char) as u32 == (c as u32) + 32);
    }
}

/// `str::to_ascii_uppercase`.
pub open spec fn upper_all(s: Seq<char>) -> Seq<char> {
    s.map_values(|c: char| ascii_upper(c))
}

pub fn to_ascii_lower(c: char) -> (r: char)
    ensures
        r == ascii_lower(c),
{
    if 'A' <= c && c <= 'Z' {
        ((c as u8) + 32) as char
    } else {
        c
    }
}


/// The characters of `s`, in order.
pub fn chars_of(s: &str) -> (v: Vec<char>)
    ensures
        v@ == s@,
{
    broadcast use vstd::string::group_string_axioms;

    let mut v: Vec<char> = Vec::new();
    let mut it = s.chars();
    loop
        invariant
            v@ + vstd::std_specs::iter::IteratorSpec::remaining(&it) == s@,
            vstd::std_specs::iter::IteratorSpec::obeys_prophetic_iter_laws(&it),
            vstd::std_specs::iter::IteratorSpec::decrease(&it) is Some,
        decreases vstd::std_specs::iter::IteratorSpec::decrease(&it)->0,
    {
        match it.next() {
            Some(c) => {
                assert(v@.push(c) + vstd::std_specs::iter::IteratorSpec::remaining(&it) =~= s@);
                v.push(c);
            },
            None => {
                assert(v@ =~= s@);
                return v;
            },
        }
    }
}


/// Wraps `String::push`, which appends one character to the string.
#[verifier::external_body]
pub(crate) fn push_char(s: &mut String, c: char)
    ensures
        final(s)@ == old(s)@.push(c),
{
    s.push(c);
}

/// The two kinds of characters that are trimmed from the ends of a text.
#[derive(Clone, Copy, Debug, PartialEq, Eq)]
pub enum CharClass {
    Whitespace,
    Dot,
}

pub open spec fn in_class(k: CharClass, c: char) -> bool {
    match k {
        CharClass::Whitespace => is_unicode_whitespace(c),
        CharClass::Dot => c == '.',
    }
}

fn is_in_class(k: CharClass, c: char) -> (r: bool)
    ensures
        r == in_class(k, c),
{
    match k {
        CharClass::Whitespace => is_whitespace(c),
        CharClass::Dot => c == '.',
    }
}

/// `s` without its leading characters of class `k`.
pub open spec fn trim_start(s: Seq<char>, k: CharClass) -> Seq<char>
    decreases s.len(),
{
    if s.len() > 0 && in_class(k, s[0]) {
        trim_start(s.drop_first(), k)
    } else {
        s
    }
}

/// `s` without its trailing characters of class `k`.
pub open spec fn trim_end(s: Seq<char>, k: CharClass) -> Seq<char>
    decreases s.len(),
{
    if s.len() > 0 && in_class(k, s.last()) {
        trim_end(s.drop_last(), k)
    } else {
        s
    }
}

/// `s` without leading and trailing characters of class `k`: `str::trim` for
/// whitespace, `str::trim_matches('.')` for dots.
pub open spec fn trim(s: Seq<char>, k: CharClass) -> Seq<char> {
    trim_end(trim_start(s, k), k)
}

/// `str::to_ascii_lowercase`.
pub open spec fn lower_all(s: Seq<char>) -> Seq<char> {
    s.map_values(|c: char| ascii_lower(c))
}

/// The window `[r.0, r.1)` of `v` that holds `trim` of the window `[lo, hi)`.
pub fn trim_window(v: &Vec<char>, lo: usize, hi: usize, k: CharClass) -> (r: (usize, usize))
    requires
        lo <= hi <= v.len(),
    ensures
        lo <= r.0 <= r.1 <= hi,
        v@.subrange(r.0 as int, r.1 as int) == trim(v@.subrange(lo as int, hi as int), k),
{
    let mut a = lo;
    while a < hi && is_in_class(k, v[a])
        invariant
            lo <= a <= hi <= v.len(),
            trim_start(v@.subrange(lo as int, hi as int), k) == trim_start(
                v@.subrange(a as int, hi as int),
                k,
            ),
        decreases hi - a,
    {
        assert(v@.subrange(a as int, hi as int).drop_first() =~= v@.subrange(
            a + 1,
            hi as int,
        ));
        a = a + 1;
    }
    let mut b = hi;
    while b > a && is_in_class(k, v[b - 1])
        invariant
            lo <= a <= b <= hi <= v.len(),
            trim_start(v@.subrange(lo as int, hi as int), k) == v@.subrange(a as int, hi as int),
            trim_end(v@.subrange(a as int, hi as int), k) == trim_end(
                v@.subrange(a as int, b as int),
                k,
            ),
            a < b ==> !in_class(k, v@[a as int]),
        decreases b - a,
    {
        assert(v@.subrange(a as int, b as int).drop_last() =~= v@.subrange(
            a as int,
            b - 1,
        ));
        b = b - 1;
    }
    (a, b)
}

/// A new string holding the window `[lo, hi)` of `v`, ASCII lower-cased.
pub fn lowered_string(v: &Vec<char>, lo: usize, hi: usize) -> (s: String)
    requires
        lo <= hi <= v.len(),
    ensures
        s@ == lower_all(v@.subrange(lo as int, hi as int)),
{
    let mut s = String::new();
    let mut i = lo;
    while i < hi
        invariant
            lo <= i <= hi <= v.len(),
            s@ == lower_all(v@.subrange(lo as int, i as int)),
        decreases hi - i,
    {
        let c = to_ascii_lower(v[i]);
        push_char(&mut s, c);
        assert(lower_all(v@.subrange(lo as int, i + 1)) =~= lower_all(
            v@.subrange(lo as int, i as int),
        ).push(c));
        i = i + 1;
    }
    s
}

/// The characters at which a scan for the end of a piece of text stops.
#[derive(Clone, Copy, Debug, PartialEq, Eq)]
pub enum Stop {
    /// `'\n'`, the end of a line.
    Newline,
    /// `'/'`, `'^'` or `'$'`, the end of the host part of a gfwlist rule.
    RuleEnd,
    /// `'#'`, the start of a comment in a custom rules file.
    Comment,
    /// `'.'`, the end of a label or of an address octet.
    Dot,
}

pub open spec fn is_stop(k: Stop, c: char) -> bool {
    match k {
        Stop::Newline => c == '\n',
        Stop::RuleEnd => c == '/' || c == '^' || c == '$',
        Stop::Comment => c == '#',
        Stop::Dot => c == '.',
    }
}

fn is_stop_char(k: Stop, c: char) -> (r: bool)
    ensures
        r == is_stop(k, c),
{
    match k {
        Stop::Newline => c == '\n',
        Stop::RuleEnd => c == '/' || c == '^' || c == '$',
        Stop::Comment => c == '#',
        Stop::Dot => c == '.',
    }
}

/// Index of the first stop character of kind `k` in `s`, or `s.len()` when
/// there is none.
pub open spec fn stop_index(s: Seq<char>, k: Stop) -> nat
    decreases s.len(),
{
    if s.len() == 0 {
        0
    } else if is_stop(k, s[0]) {
        0
    } else {
        1 + stop_index(s.drop_first(), k)
    }
}

pub proof fn lemma_stop_index(s: Seq<char>, k: Stop)
    ensures
        stop_index(s, k) <= s.len(),
        stop_index(s, k) < s.len() ==> is_stop(k, s[stop_index(s, k) as int]),
        forall|j: int| 0 <= j < stop_index(s, k) ==> !is_stop(k, #[trigger] s[j]),
    decreases s.len(),
{
    if s.len() > 0 && !is_stop(k, s[0]) {
        lemma_stop_index(s.drop_first(), k);
        assert forall|j: int| 0 <= j < stop_index(s, k) implies !is_stop(k, #[trigger] s[j]) by {
            if j > 0 {
                assert(s[j] == s.drop_first()[j - 1]);
            }
        }
    }
}

/// The one index that meets the three facts of `lemma_stop_index` is
/// `stop_index`.
pub proof fn lemma_stop_index_at(s: Seq<char>, k: Stop, i: int)
    requires
        0 <= i <= s.len(),
        i < s.len() ==> is_stop(k, s[i]),
        forall|j: int| 0 <= j < i ==> !is_stop(k, #[trigger] s[j]),
    ensures
        stop_index(s, k) == i,
    decreases s.len(),
{
    if s.len() > 0 && !is_stop(k, s[0]) {
        assert forall|j: int| 0 <= j < i - 1 implies !is_stop(k, #[trigger] s.drop_first()[j]) by {
            assert(s.drop_first()[j] == s[j + 1]);
        }
        lemma_stop_index_at(s.drop_first(), k, i - 1);
    }
}

/// The position of the first stop character of kind `k` in the window
/// `[lo, hi)` of `v`, or `hi` when there is none.
pub fn find_stop(v: &Vec<char>, lo: usize, hi: usize, k: Stop) -> (e: usize)
    requires
        lo <= hi <= v.len(),
    ensures
        lo <= e <= hi,
        e - lo == stop_index(v@.subrange(lo as int, hi as int), k),
{
    let mut e = lo;
    while e < hi && !is_stop_char(k, v[e])
        invariant
            lo <= e <= hi <= v.len(),
            forall|j: int| lo <= j < e ==> !is_stop(k, #[trigger] v@[j]),
        decreases hi - e,
    {
        e = e + 1;
    }
    proof {
        let w = v@.subrange(lo as int, hi as int);
        assert forall|j: int| 0 <= j < e - lo implies !is_stop(k, #[trigger] w[j]) by {
            assert(w[j] == v@[lo + j]);
        }
        lemma_stop_index_at(w, k, e - lo);
    }
    e
}

/// A new string holding the window `[lo, hi)` of `v`.
pub fn window_string(v: &Vec<char>, lo: usize, hi: usize) -> (s: String)
    requires
        lo <= hi <= v.len(),
    ensures
        s@ == v@.subrange(lo as int, hi as int),
{
    let mut s = String::new();
    let mut i = lo;
    while i < hi
        invariant
            lo <= i <= hi <= v.len(),
            s@ == v@.subrange(lo as int, i as int),
        decreases hi - i,
    {
        push_char(&mut s, v[i]);
        assert(v@.subrange(lo as int, i + 1) =~= v@.subrange(lo as int, i as int).push(v@[i as int]));
        i = i + 1;
    }
    s
}

/// The decimal digit character of `d`, for `d < 10`.
pub open spec fn digit_char(d: nat) -> char {
    (('0' as nat) + d) as char
}

/// The decimal text of `n`, without leading zeros.
pub open spec fn decimal(n: nat) -> Seq<char>
    decreases n,
{
    if n < 10 {
        seq![digit_char(n)]
    } else {
        decimal(n / 10).push(digit_char(n % 10))
    }
}

/// Appends the decimal text of `n` to `s`.
pub fn push_decimal(s: &mut String, n: usize)
    ensures
        final(s)@ == old(s)@ + decimal(n as nat),
    decreases n,
{
    if n >= 10 {
        push_decimal(s, n / 10);
    }
    let d = (n % 10) as u8;
    let c = (48u8 + d) as char;
    assert(c == digit_char((n % 10) as nat));
    push_char(s, c);
    assert(s@ =~= old(s)@ + decimal(n as nat));
}

/// Lexicographic order of texts by character code: a proper prefix comes
/// first.
pub open spec fn text_less(a: Seq<char>, b: Seq<char>) -> bool
    decreases a.len(),
{
    if a.len() == 0 {
        b.len() > 0
    } else if b.len() == 0 {
        false
    } else if a[0] != b[0] {
        a[0] < b[0]
    } else {
        text_less(a.drop_first(), b.drop_first())
    }
}

pub proof fn lemma_text_less_irreflexive(a: Seq<char>)
    ensures
        !text_less(a, a),
    decreases a.len(),
{
    if a.len() > 0 {
        lemma_text_less_irreflexive(a.drop_first());
    }
}

/// Of two different texts, exactly one comes first.
pub proof fn lemma_text_less_total(a: Seq<char>, b: Seq<char>)
    ensures
        a != b ==> (text_less(a, b) || text_less(b, a)),
        !(text_less(a, b) && text_less(b, a)),
    decreases a.len(),
{
    if a.len() > 0 && b.len() > 0 && a[0] == b[0] {
        lemma_text_less_total(a.drop_first(), b.drop_first());
        if a != b {
            assert(a =~= seq![a[0]] + a.drop_first());
            assert(b =~= seq![b[0]] + b.drop_first());
        }
    } else if a.len() == 0 && b.len() == 0 {
        assert(a =~= b);
    }
}

pub proof fn lemma_text_less_transitive(a: Seq<char>, b: Seq<char>, c: Seq<char>)
    requires
        text_less(a, b),
        text_less(b, c),
    ensures
        text_less(a, c),
    decreases a.len(),
{
    if a.len() > 0 && b.len() > 0 && c.len() > 0 && a[0] == b[0] && b[0] == c[0] {
        lemma_text_less_transitive(a.drop_first(), b.drop_first(), c.drop_first());
    }
}

/// How one text is ordered against another.
#[derive(Clone, Copy, Debug, PartialEq, Eq)]
pub enum TextOrder {
    Before,
    Same,
    After,
}

proof fn lemma_text_less_common_prefix(a: Seq<char>, b: Seq<char>, i: int)
    requires
        0 <= i <= a.len(),
        i <= b.len(),
        a.take(i) == b.take(i),
    ensures
        text_less(a, b) == text_less(a.skip(i), b.skip(i)),
    decreases i,
{
    if i > 0 {
        assert(a[0] == a.take(i)[0] && b[0] == b.take(i)[0]);
        assert(a.drop_first().take(i - 1) =~= a.take(i).drop_first());
        assert(b.drop_first().take(i - 1) =~= b.take(i).drop_first());
        lemma_text_less_common_prefix(a.drop_first(), b.drop_first(), i - 1);
        assert(a.drop_first().skip(i - 1) =~= a.skip(i));
        assert(b.drop_first().skip(i - 1) =~= b.skip(i));
    } else {
        assert(a.skip(0) =~= a);
        assert(b.skip(0) =~= b);
    }
}

/// Orders `a` against `b` (see `text_less`).
pub fn order_texts(a: &Vec<char>, b: &Vec<char>) -> (r: TextOrder)
    ensures
        r == TextOrder::Before <==> text_less(a@, b@),
        r == TextOrder::After <==> text_less(b@, a@),
        r == TextOrder::Same <==> a@ == b@,
{
    let mut i: usize = 0;
    while i < a.len() && i < b.len() && a[i] == b[i]
        invariant
            i <= a.len(),
            i <= b.len(),
            a@.take(i as int) == b@.take(i as int),
        decreases a.len() - i,
    {
        assert(a@.take(i + 1) =~= a@.take(i as int).push(a@[i as int]));
        assert(b@.take(i + 1) =~= b@.take(i as int).push(b@[i as int]));
        i = i + 1;
    }
    proof {
        lemma_text_less_common_prefix(a@, b@, i as int);
        lemma_text_less_common_prefix(b@, a@, i as int);
        lemma_text_less_total(a@, b@);
        lemma_text_less_irreflexive(a@);
    }
    let r = if i == a.len() && i == b.len() {
        assert(a@ =~= a@.take(i as int));
        assert(b@ =~= b@.take(i as int));
        TextOrder::Same
    } else if i == a.len() {
        TextOrder::Before
    } else if i == b.len() {
        TextOrder::After
    } else if a[i] < b[i] {
        assert(a@.skip(i as int)[0] == a@[i as int]);
        assert(b@.skip(i as int)[0] == b@[i as int]);
        TextOrder::Before
    } else {
        assert(a@.skip(i as int)[0] == a@[i as int]);
        assert(b@.skip(i as int)[0] == b@[i as int]);
        TextOrder::After
    };
    proof {
        if r != TextOrder::Same && a@ == b@ {
            lemma_text_less_irreflexive(a@);
        }
    }
    r
}

/// Index of the first `'\n'` in `s`, or `s.len()` when there is none.
pub open spec fn line_end(s: Seq<char>) -> nat {
    stop_index(s, Stop::Newline)
}

/// A line without the `'\r'` of a `"\r\n"` ending.
pub open spec fn strip_cr(l: Seq<char>) -> Seq<char> {
    if l.len() > 0 && l.last() == '\r' {
        l.drop_last()
    } else {
        l
    }
}

/// The first line of a non-empty text, as `str::lines` yields it.
pub open spec fn first_line(s: Seq<char>) -> Seq<char> {
    if line_end(s) < s.len() {
        strip_cr(s.take(line_end(s) as int))
    } else {
        s
    }
}

/// What follows the first line and its `'\n'`.
pub open spec fn after_first_line(s: Seq<char>) -> Seq<char> {
    if line_end(s) < s.len() {
        s.skip(line_end(s) as int + 1)
    } else {
        Seq::empty()
    }
}

/// `str::lines`: the text split at `'\n'`, each line without a trailing
/// `'\r'` before its `'\n'`, and no empty last line after a final `'\n'`.
pub open spec fn lines(s: Seq<char>) -> Seq<Seq<char>>
    decreases s.len(),
{
    if s.len() == 0 {
        Seq::empty()
    } else {
        proof {
            lemma_stop_index(s, Stop::Newline);
        }
        seq![first_line(s)] + lines(after_first_line(s))
    }
}

/// Finds the first line of `v@.skip(pos)`: its window `[r.0, r.1)` and the
/// position `r.2` where the rest of the text starts.
pub fn next_line(v: &Vec<char>, pos: usize) -> (r: (usize, usize, usize))
    requires
        pos < v.len(),
    ensures
        pos <= r.0 <= r.1 <= v.len(),
        pos < r.2 <= v.len(),
        v@.subrange(r.0 as int, r.1 as int) == first_line(v@.skip(pos as int)),
        v@.skip(r.2 as int) == after_first_line(v@.skip(pos as int)),
        lines(v@.skip(pos as int)) == seq![first_line(v@.skip(pos as int))] + lines(
            v@.skip(r.2 as int),
        ),
{
    let ghost s = v@.skip(pos as int);
    let n = v.len();
    let e = find_stop(v, pos, n, Stop::Newline);
    proof {
        assert(s =~= v@.subrange(pos as int, n as int));
        lemma_stop_index(s, Stop::Newline);
    }
    if e < n {
        let hi = if e > pos && v[e - 1] == '\r' {
            e - 1
        } else {
            e
        };
        assert(v@.subrange(pos as int, hi as int) =~= first_line(s));
        assert(v@.skip(e + 1) =~= after_first_line(s));
        (pos, hi, e + 1)
    } else {
        assert(v@.subrange(pos as int, n as int) =~= first_line(s));
        assert(v@.skip(n as int) =~= after_first_line(s));
        (pos, n, n)
    }
}

} // verus!
