//! Character-level building blocks shared by the header parsers: the
//! whitespace and ASCII case rules, trimming, splitting, and decimal numbers.

use vstd::prelude::*;

verus! {

/// Lower-cases an ASCII letter and leaves every other character alone.
pub open spec fn ascii_lower(c: char) -> char {
    if 'A' <= c && c <= 'Z' {
        ((c as u32) + 32) as char
    } else {
        c
    }
}

/// A string with its ASCII letters lower-cased.
pub open spec fn lower(s: Seq<char>) -> Seq<char> {
    s.map_values(|c: char| ascii_lower(c))
}

/// Two strings that are equal once ASCII letters are lower-cased.
pub open spec fn eq_ignore_ascii_case(a: Seq<char>, b: Seq<char>) -> bool {
    lower(a) == lower(b)
}

/// The Unicode `White_Space` property: tab through carriage return, space,
/// next line, no-break space, ogham space mark, the spaces from en quad to
/// hair space, line and paragraph separators, narrow no-break space, medium
/// mathematical space and ideographic space.
pub open spec fn is_whitespace(c: char) -> bool {
    ||| '\t' <= c && c <= '\r'
    ||| c == ' '
    ||| c == '\u{85}'
    ||| c == '\u{a0}'
    ||| c == '\u{1680}'
    ||| '\u{2000}' <= c && c <= '\u{200a}'
    ||| c == '\u{2028}'
    ||| c == '\u{2029}'
    ||| c == '\u{202f}'
    ||| c == '\u{205f}'
    ||| c == '\u{3000}'
}

/// Which characters a trim removes from the ends of a string.
#[derive(Clone, Copy, PartialEq, Eq, Debug)]
pub enum TrimClass {
    /// Unicode whitespace.
    Whitespace,
    /// The double quote.
    Quote,
    /// Carriage return and line feed.
    LineEnd,
}

pub open spec fn in_class(c: char, k: TrimClass) -> bool {
    match k {
        TrimClass::Whitespace => is_whitespace(c),
        TrimClass::Quote => c == '"',
        TrimClass::LineEnd => c == '\r' || c == '\n',
    }
}

/// `s` with every leading character of class `k` removed.
pub open spec fn trim_start_class(s: Seq<char>, k: TrimClass) -> Seq<char>
    decreases s.len(),
{
    if s.len() > 0 && in_class(s[0], k) {
        trim_start_class(s.drop_first(), k)
    } else {
        s
    }
}

/// `s` with every trailing character of class `k` removed.
pub open spec fn trim_end_class(s: Seq<char>, k: TrimClass) -> Seq<char>
    decreases s.len(),
{
    if s.len() > 0 && in_class(s.last(), k) {
        trim_end_class(s.drop_last(), k)
    } else {
        s
    }
}

/// `s` with every leading and trailing character of class `k` removed.
pub open spec fn trim_class(s: Seq<char>, k: TrimClass) -> Seq<char> {
    trim_end_class(trim_start_class(s, k), k)
}

/// `s` without leading and trailing whitespace.
pub open spec fn trim(s: Seq<char>) -> Seq<char> {
    trim_class(s, TrimClass::Whitespace)
}

/// The position of the first `c` in `s`, where there is one.
pub open spec fn is_first_index(s: Seq<char>, c: char, i: int) -> bool {
    &&& 0 <= i < s.len()
    &&& s[i] == c
    &&& forall|j: int| 0 <= j < i ==> s[j] != c
}

/// `s` cut at its first `c`, into what stands before and what stands after;
/// `None` where `s` holds no `c`.
pub open spec fn split_once(s: Seq<char>, c: char) -> Option<(Seq<char>, Seq<char>)> {
    if s.contains(c) {
        let i = choose|i: int| is_first_index(s, c, i);
        Some((s.take(i), s.skip(i + 1)))
    } else {
        None
    }
}

/// The pieces of `s` between the occurrences of `sep`, in order: one more
/// piece than `s` has separators, empty pieces included.
pub open spec fn split_on(s: Seq<char>, sep: char) -> Seq<Seq<char>>
    decreases s.len(),
{
    if s.len() == 0 {
        seq![Seq::empty()]
    } else {
        let pieces = split_on(s.drop_last(), sep);
        if s.last() == sep {
            pieces.push(Seq::empty())
        } else {
            pieces.update(pieces.len() - 1, pieces.last().push(s.last()))
        }
    }
}

/// Joins `pieces` with `sep` between each two of them.
pub open spec fn join_with(pieces: Seq<Seq<char>>, sep: char) -> Seq<char>
    decreases pieces.len(),
{
    if pieces.len() == 0 {
        Seq::empty()
    } else if pieces.len() == 1 {
        pieces[0]
    } else {
        join_with(pieces.drop_last(), sep).push(sep) + pieces.last()
    }
}

/// Where `i` is the first `c` in `s`, `split_once` cuts there.
pub proof fn lemma_split_once_at(s: Seq<char>, c: char, i: int)
    requires
        is_first_index(s, c, i),
    ensures
        split_once(s, c) == Some((s.take(i), s.skip(i + 1))),
{
    assert(s.contains(c));
    let k = choose|k: int| is_first_index(s, c, k);
    assert(k == i) by {
        if k < i {
            assert(s[k] == c);
        } else if k > i {
            assert(s[i] == c);
        }
    }
}

/// The first position in `chars[from..to]` that holds `c`, or `to` where
/// none does.
pub fn find_char(chars: &Vec<char>, from: usize, to: usize, c: char) -> (k: usize)
    requires
        from <= to <= chars@.len(),
    ensures
        from <= k <= to,
        k < to ==> is_first_index(chars@.subrange(from as int, to as int), c, k - from),
        k == to ==> !chars@.subrange(from as int, to as int).contains(c),
{
    let mut k = from;
    while k < to && chars[k] != c
        invariant
            from <= k <= to <= chars@.len(),
            forall|j: int| from <= j < k ==> chars@[j] != c,
        decreases to - k,
    {
        k = k + 1;
    }
    proof {
        let part = chars@.subrange(from as int, to as int);
        if k == to {
            if part.contains(c) {
                let j = choose|j: int| 0 <= j < part.len() && part[j] == c;
                assert(chars@[from + j] == c);
            }
        } else {
            assert forall|j: int| 0 <= j < k - from implies part[j] != c by {
                assert(part[j] == chars@[from + j]);
            }
        }
    }
    k
}

/// Lower-casing twice is lower-casing once.
pub proof fn lemma_lower_idempotent(s: Seq<char>)
    ensures
        lower(lower(s)) == lower(s),
{
    assert(lower(lower(s)) =~= lower(s));
}

/// Trimming leaves no character of the trimmed class at either end.
pub proof fn lemma_trim_class_ends(s: Seq<char>, k: TrimClass)
    ensures
        trim_class(s, k).len() > 0 ==> !in_class(trim_class(s, k)[0], k) && !in_class(
            trim_class(s, k).last(),
            k,
        ),
{
    let t = trim_start_class(s, k);
    lemma_trim_start_first(s, k);
    lemma_trim_end_prefix(t, k);
}

proof fn lemma_trim_start_first(s: Seq<char>, k: TrimClass)
    ensures
        trim_start_class(s, k).len() > 0 ==> !in_class(trim_start_class(s, k)[0], k),
    decreases s.len(),
{
    if s.len() > 0 && in_class(s[0], k) {
        lemma_trim_start_first(s.drop_first(), k);
    }
}

proof fn lemma_trim_end_prefix(s: Seq<char>, k: TrimClass)
    ensures
        trim_end_class(s, k).len() <= s.len(),
        trim_end_class(s, k) == s.take(trim_end_class(s, k).len() as int),
        trim_end_class(s, k).len() > 0 ==> !in_class(trim_end_class(s, k).last(), k),
    decreases s.len(),
{
    if s.len() > 0 && in_class(s.last(), k) {
        lemma_trim_end_prefix(s.drop_last(), k);
        let t = trim_end_class(s.drop_last(), k);
        assert(s.drop_last().take(t.len() as int) =~= s.take(t.len() as int));
    } else {
        assert(s.take(s.len() as int) =~= s);
    }
}

/// The number the library writes in decimal reads back as the same number.
pub proof fn lemma_parse_decimal_roundtrip(n: u64)
    ensures
        parse_u64_spec(decimal(n as nat)) == Some(n),
{
    lemma_decimal_digits(n as nat);
    let ds = decimal(n as nat);
    assert(unsigned_digits(ds) == ds) by {
        assert(is_digit(ds[0]));
    }
}

proof fn lemma_decimal_digits(n: nat)
    ensures
        decimal(n).len() > 0,
        forall|i: int| 0 <= i < decimal(n).len() ==> is_digit(#[trigger] decimal(n)[i]),
        digits_value(decimal(n)) == n,
    decreases n,
{
    if n < 10 {
        let ds = decimal(n);
        assert(ds.drop_last() =~= Seq::<char>::empty());
        assert(digits_value(ds.drop_last()) == 0);
    } else {
        lemma_decimal_digits(n / 10);
        let ds = decimal(n);
        assert(ds.drop_last() =~= decimal(n / 10));
        assert forall|i: int| 0 <= i < ds.len() implies is_digit(#[trigger] ds[i]) by {
            if i < ds.len() - 1 {
                assert(ds[i] == decimal(n / 10)[i]);
            }
        }
        assert(n == (n / 10) * 10 + n % 10);
    }
}

/// A string without the separator is one piece.
pub proof fn lemma_split_on_without_sep(s: Seq<char>, sep: char)
    requires
        !s.contains(sep),
    ensures
        split_on(s, sep) == seq![s],
    decreases s.len(),
{
    if s.len() > 0 {
        assert(!s.drop_last().contains(sep)) by {
            if s.drop_last().contains(sep) {
                let j = choose|j: int| 0 <= j < s.drop_last().len() && s.drop_last()[j] == sep;
                assert(s[j] == sep);
            }
        }
        lemma_split_on_without_sep(s.drop_last(), sep);
        assert(s.last() != sep) by {
            assert(s[s.len() - 1] == s.last());
        }
        assert(s.drop_last().push(s.last()) =~= s);
        assert(split_on(s, sep) =~= seq![s]);
    } else {
        assert(s =~= Seq::<char>::empty());
    }
}

/// Characters of class `k` in front of a string that does not start with
/// one are all that trimming the start removes.
pub proof fn lemma_trim_start_prefix(w: Seq<char>, v: Seq<char>, k: TrimClass)
    requires
        forall|i: int| 0 <= i < w.len() ==> in_class(#[trigger] w[i], k),
        v.len() > 0 ==> !in_class(v[0], k),
    ensures
        trim_start_class(w + v, k) == v,
    decreases w.len(),
{
    if w.len() == 0 {
        assert(w + v =~= v);
    } else {
        assert((w + v)[0] == w[0]);
        assert((w + v).drop_first() =~= w.drop_first() + v);
        assert forall|i: int| 0 <= i < w.drop_first().len() implies in_class(#[trigger] w.drop_first()[i], k) by {
            assert(w.drop_first()[i] == w[i + 1]);
        }
        lemma_trim_start_prefix(w.drop_first(), v, k);
    }
}

/// Characters of class `k` after a string that does not end with one are
/// all that trimming the end removes.
pub proof fn lemma_trim_end_suffix(v: Seq<char>, w: Seq<char>, k: TrimClass)
    requires
        forall|i: int| 0 <= i < w.len() ==> in_class(#[trigger] w[i], k),
        v.len() > 0 ==> !in_class(v.last(), k),
    ensures
        trim_end_class(v + w, k) == v,
    decreases w.len(),
{
    if w.len() == 0 {
        assert(v + w =~= v);
    } else {
        assert((v + w).last() == w[w.len() - 1]);
        assert((v + w).drop_last() =~= v + w.drop_last());
        assert forall|i: int| 0 <= i < w.drop_last().len() implies in_class(#[trigger] w.drop_last()[i], k) by {
            assert(w.drop_last()[i] == w[i]);
        }
        lemma_trim_end_suffix(v, w.drop_last(), k);
    }
}

/// Splitting text joined at a separator splits each side and puts the
/// pieces together.
pub proof fn lemma_split_on_concat(a: Seq<char>, b: Seq<char>, sep: char)
    ensures
        split_on(a + seq![sep] + b, sep) == split_on(a, sep) + split_on(b, sep),
    decreases b.len(),
{
    lemma_split_on_nonempty(a, sep);
    lemma_split_on_nonempty(b, sep);
    if b.len() == 0 {
        let s = a + seq![sep] + b;
        assert(s.drop_last() =~= a);
        assert(s.last() == sep);
        assert(split_on(a, sep).push(Seq::empty()) =~= split_on(a, sep) + split_on(b, sep));
    } else {
        let b2 = b.drop_last();
        let s = a + seq![sep] + b;
        assert(s.drop_last() =~= a + seq![sep] + b2);
        assert(s.last() == b.last());
        lemma_split_on_concat(a, b2, sep);
        lemma_split_on_nonempty(b2, sep);
        let pa = split_on(a, sep);
        let pb = split_on(b2, sep);
        if b.last() == sep {
            assert(split_on(s, sep) =~= pa + split_on(b, sep));
        } else {
            let joined = pa + pb;
            assert(joined.last() == pb.last());
            assert(joined.update(joined.len() - 1, joined.last().push(b.last())) =~= pa + pb.update(
                pb.len() - 1,
                pb.last().push(b.last()),
            ));
        }
    }
}

/// A string whose first and last characters are not of class `k` is left
/// alone by trimming that class.
pub proof fn lemma_trim_class_fixed(s: Seq<char>, k: TrimClass)
    requires
        s.len() > 0 ==> !in_class(s[0], k) && !in_class(s.last(), k),
    ensures
        trim_class(s, k) == s,
{
}

pub proof fn lemma_split_on_nonempty(s: Seq<char>, sep: char)
    ensures
        split_on(s, sep).len() >= 1,
    decreases s.len(),
{
    if s.len() > 0 {
        lemma_split_on_nonempty(s.drop_last(), sep);
    }
}

/// Splitting on a separator loses nothing: joining the pieces with the same
/// separator gives the string back, and no piece holds the separator.
pub proof fn lemma_split_on_join(s: Seq<char>, sep: char)
    ensures
        join_with(split_on(s, sep), sep) == s,
        forall|i: int| 0 <= i < split_on(s, sep).len() ==> !(#[trigger] split_on(s, sep)[i]).contains(sep),
    decreases s.len(),
{
    if s.len() > 0 {
        let p = split_on(s.drop_last(), sep);
        lemma_split_on_join(s.drop_last(), sep);
        lemma_split_on_nonempty(s.drop_last(), sep);
        if s.last() == sep {
            assert(split_on(s, sep).drop_last() =~= p);
            assert(join_with(p, sep).push(sep) + Seq::<char>::empty() =~= s);
            assert forall|i: int| 0 <= i < split_on(s, sep).len() implies !(#[trigger] split_on(s, sep)[i]).contains(sep) by {
                if i < p.len() {
                    assert(split_on(s, sep)[i] == p[i]);
                } else {
                    assert(split_on(s, sep)[i] =~= Seq::<char>::empty());
                }
            }
        } else {
            let q = split_on(s, sep);
            assert(q.len() == p.len());
            if p.len() == 1 {
                assert(q[0] =~= p[0].push(s.last()));
                assert(join_with(q, sep) == q[0]);
                assert(join_with(p, sep) == p[0]);
                assert(s.drop_last().push(s.last()) =~= s);
            } else {
                assert(q.drop_last() =~= p.drop_last());
                let head = join_with(p.drop_last(), sep).push(sep);
                assert(join_with(q, sep) == head + p.last().push(s.last()));
                assert(join_with(p, sep) == head + p.last());
                assert(head + p.last().push(s.last()) =~= (head + p.last()).push(s.last()));
                assert(s.drop_last().push(s.last()) =~= s);
            }
            assert forall|i: int| 0 <= i < q.len() implies !(#[trigger] q[i]).contains(sep) by {
                if i < p.len() - 1 {
                    assert(q[i] == p[i]);
                } else {
                    let last = p.last().push(s.last());
                    assert(q[i] == last);
                    assert(!p[p.len() - 1].contains(sep));
                    if last.contains(sep) {
                        let j = choose|j: int| 0 <= j < last.len() && last[j] == sep;
                        if j < p.last().len() {
                            assert(p.last()[j] == sep);
                        }
                    }
                }
            }
        }
    }
}

pub fn to_ascii_lower(c: char) -> (r: char)
    ensures
        r == ascii_lower(c),
{
    if 'A' <= c && c <= 'Z' {
        ((c as u8) + 32) as char
    } else {
        c
    }
}

pub fn char_is_whitespace(c: char) -> (r: bool)
    ensures
        r == is_whitespace(c),
{
    ('\t' <= c && c <= '\r') || c == ' ' || c == '\u{85}' || c == '\u{a0}' || c == '\u{1680}'
        || ('\u{2000}' <= c && c <= '\u{200a}') || c == '\u{2028}' || c == '\u{2029}'
        || c == '\u{202f}' || c == '\u{205f}' || c == '\u{3000}'
}

pub fn char_in_class(c: char, k: TrimClass) -> (r: bool)
    ensures
        r == in_class(c, k),
{
    match k {
        TrimClass::Whitespace => char_is_whitespace(c),
        TrimClass::Quote => c == '"',
        TrimClass::LineEnd => c == '\r' || c == '\n',
    }
}

/// Appends `c` to `s` through std's `String::push`, which adds the one
/// character at the end and changes nothing else.
#[verifier::external_body]
pub(crate) fn push_char(s: &mut String, c: char)
    ensures
        final(s)@ == old(s)@.push(c),
{
    s.push(c);
}

/// A new string made of `chars[from..to]`, with its ASCII letters
/// lower-cased where `lowercase` is set.
pub fn collect_chars(chars: &Vec<char>, from: usize, to: usize, lowercase: bool) -> (r: String)
    requires
        from <= to <= chars@.len(),
    ensures
        r@ == if lowercase {
            lower(chars@.subrange(from as int, to as int))
        } else {
            chars@.subrange(from as int, to as int)
        },
{
    let mut r = String::new();
    let mut i = from;
    while i < to
        invariant
            from <= i <= to <= chars@.len(),
            r@ == if lowercase {
                lower(chars@.subrange(from as int, i as int))
            } else {
                chars@.subrange(from as int, i as int)
            },
        decreases to - i,
    {
        let c = chars[i];
        if lowercase {
            push_char(&mut r, to_ascii_lower(c));
        } else {
            push_char(&mut r, c);
        }
        i = i + 1;
        assert(chars@.subrange(from as int, i as int) =~= chars@.subrange(from as int, i - 1).push(c));
        assert(lower(chars@.subrange(from as int, i as int)) =~= lower(chars@.subrange(from as int, i - 1)).push(
            ascii_lower(c),
        ));
    }
    r
}

/// The characters of `s`, in order.
pub fn chars_of(s: &str) -> (v: Vec<char>)
    ensures
        v@ == s@,
{
    let mut v: Vec<char> = Vec::new();
    for c in it: s.chars()
        invariant
            v@ == it.seq().take(it.index() as int),
            it.seq() == s@,
    {
        v.push(c);
    }
    v
}

/// Where the characters of `chars[from..to]` start once the leading ones of
/// class `k` are skipped.
pub fn skip_leading(chars: &Vec<char>, from: usize, to: usize, k: TrimClass) -> (a: usize)
    requires
        from <= to <= chars@.len(),
    ensures
        from <= a <= to,
        chars@.subrange(a as int, to as int) == trim_start_class(chars@.subrange(from as int, to as int), k),
{
    let mut a = from;
    while a < to && char_in_class(chars[a], k)
        invariant
            from <= a <= to <= chars@.len(),
            trim_start_class(chars@.subrange(from as int, to as int), k) == trim_start_class(
                chars@.subrange(a as int, to as int),
                k,
            ),
        decreases to - a,
    {
        assert(chars@.subrange(a as int, to as int).drop_first() =~= chars@.subrange(a + 1, to as int));
        a = a + 1;
    }
    a
}

/// Where the characters of `chars[from..to]` end once the trailing ones of
/// class `k` are dropped.
pub fn skip_trailing(chars: &Vec<char>, from: usize, to: usize, k: TrimClass) -> (b: usize)
    requires
        from <= to <= chars@.len(),
    ensures
        from <= b <= to,
        chars@.subrange(from as int, b as int) == trim_end_class(chars@.subrange(from as int, to as int), k),
{
    let mut b = to;
    while b > from && char_in_class(chars[b - 1], k)
        invariant
            from <= b <= to <= chars@.len(),
            trim_end_class(chars@.subrange(from as int, to as int), k) == trim_end_class(
                chars@.subrange(from as int, b as int),
                k,
            ),
        decreases b - from,
    {
        assert(chars@.subrange(from as int, b as int).drop_last() =~= chars@.subrange(from as int, b - 1));
        b = b - 1;
    }
    b
}

/// The bounds of `chars[from..to]` with the characters of class `k` trimmed
/// from both ends.
pub fn trim_bounds(chars: &Vec<char>, from: usize, to: usize, k: TrimClass) -> (r: (usize, usize))
    requires
        from <= to <= chars@.len(),
    ensures
        from <= r.0 <= r.1 <= to,
        chars@.subrange(r.0 as int, r.1 as int) == trim_class(chars@.subrange(from as int, to as int), k),
{
    let a = skip_leading(chars, from, to, k);
    let b = skip_trailing(chars, a, to, k);
    (a, b)
}

/// Whether `s` begins with `prefix`.
pub open spec fn starts_with(s: Seq<char>, prefix: Seq<char>) -> bool {
    prefix.len() <= s.len() && s.take(prefix.len() as int) == prefix
}

/// Whether `chars[..to]` begins with the characters of `prefix`.
pub fn has_prefix(chars: &Vec<char>, to: usize, prefix: &str) -> (r: bool)
    requires
        to <= chars@.len(),
    ensures
        r == starts_with(chars@.subrange(0, to as int), prefix@),
{
    let p = chars_of(prefix);
    let n = p.len();
    if n > to {
        return false;
    }
    let mut i: usize = 0;
    while i < n
        invariant
            n == p@.len() <= to <= chars@.len(),
            p@ == prefix@,
            i <= n,
            forall|j: int| 0 <= j < i ==> chars@[j] == p@[j],
        decreases n - i,
    {
        if chars[i] != p[i] {
            assert(chars@.subrange(0, to as int).take(n as int)[i as int] != p@[i as int]);
            return false;
        }
        i = i + 1;
    }
    assert(chars@.subrange(0, to as int).take(n as int) =~= p@);
    true
}

/// Whether two strings hold the same characters.
pub fn str_eq(a: &str, b: &str) -> (r: bool)
    ensures
        r == (a@ == b@),
{
    let ca = chars_of(a);
    let cb = chars_of(b);
    if ca.len() != cb.len() {
        return false;
    }
    let n = ca.len();
    let mut i: usize = 0;
    while i < n
        invariant
            n == ca@.len() == cb@.len(),
            ca@ == a@,
            cb@ == b@,
            i <= n,
            forall|j: int| 0 <= j < i ==> ca@[j] == cb@[j],
        decreases n - i,
    {
        if ca[i] != cb[i] {
            return false;
        }
        i = i + 1;
    }
    assert(ca@ =~= cb@);
    true
}

/// The decimal digit for `d`, which is below ten.
pub open spec fn digit_char(d: nat) -> char {
    ((d + '0' as int) as u32) as char
}

/// `n` written in decimal, without leading zeros.
pub open spec fn decimal(n: nat) -> Seq<char>
    decreases n,
{
    if n < 10 {
        seq![digit_char(n)]
    } else {
        decimal(n / 10).push(digit_char(n % 10))
    }
}

/// Appends `n`, written in decimal, to `s`.
pub fn push_decimal(s: &mut String, n: usize)
    ensures
        final(s)@ == old(s)@ + decimal(n as nat),
    decreases n,
{
    if n >= 10 {
        push_decimal(s, n / 10);
    }
    let d: u8 = (n % 10) as u8;
    push_char(s, (48u8 + d) as char);
    assert(decimal(n as nat) =~= if n < 10 {
        Seq::<char>::empty().push(digit_char((n % 10) as nat))
    } else {
        decimal((n / 10) as nat).push(digit_char((n % 10) as nat))
    });
}

pub open spec fn is_digit(c: char) -> bool {
    '0' <= c && c <= '9'
}

/// The number that a string of decimal digits writes.
pub open spec fn digits_value(ds: Seq<char>) -> nat
    decreases ds.len(),
{
    if ds.len() == 0 {
        0
    } else {
        digits_value(ds.drop_last()) * 10 + ((ds.last() as int - '0' as int) as nat)
    }
}

/// `s` without the one `+` sign that may lead it.
pub open spec fn unsigned_digits(s: Seq<char>) -> Seq<char> {
    if s.len() > 0 && s[0] == '+' {
        s.drop_first()
    } else {
        s
    }
}

/// What std's `u64` parsing gives for `s`: an optional `+`, then one or
/// more decimal digits whose value fits in a `u64`; `None` for anything else.
pub open spec fn parse_u64_spec(s: Seq<char>) -> Option<u64> {
    let ds = unsigned_digits(s);
    if ds.len() > 0 && (forall|i: int| 0 <= i < ds.len() ==> is_digit(#[trigger] ds[i])) && digits_value(ds)
        <= u64::MAX {
        Some(digits_value(ds) as u64)
    } else {
        None
    }
}

/// A string of digits is worth at least as much as any of its prefixes.
pub proof fn lemma_digits_value_prefix(ds: Seq<char>, j: int)
    requires
        0 <= j <= ds.len(),
        forall|i: int| 0 <= i < ds.len() ==> is_digit(#[trigger] ds[i]),
    ensures
        digits_value(ds.take(j)) <= digits_value(ds),
    decreases ds.len(),
{
    if j < ds.len() {
        assert(ds.drop_last().take(j) =~= ds.take(j));
        assert forall|i: int| 0 <= i < ds.drop_last().len() implies is_digit(#[trigger] ds.drop_last()[i]) by {
            assert(ds.drop_last()[i] == ds[i]);
        }
        lemma_digits_value_prefix(ds.drop_last(), j);
        assert(is_digit(ds[ds.len() - 1]));
    } else {
        assert(ds.take(j) =~= ds);
    }
}

/// Parses `s` as std's `str::parse::<u64>` does.
pub fn parse_u64(s: &str) -> (r: Option<u64>)
    ensures
        r == parse_u64_spec(s@),
{
    let chars = chars_of(s);
    let n = chars.len();
    let start: usize = if n > 0 && chars[0] == '+' {
        1
    } else {
        0
    };
    let ghost ds = chars@.subrange(start as int, n as int);
    assert(ds =~= unsigned_digits(s@));
    if start == n {
        return None;
    }
    let mut value: u64 = 0;
    let mut i = start;
    while i < n
        invariant
            start <= i <= n == chars@.len(),
            ds == chars@.subrange(start as int, n as int),
            ds == unsigned_digits(s@),
            ds.len() > 0,
            forall|j: int| 0 <= j < i - start ==> is_digit(#[trigger] ds[j]),
            value == digits_value(ds.take(i - start)),
        decreases n - i,
    {
        let c = chars[i];
        if !('0' <= c && c <= '9') {
            assert(!is_digit(ds[i - start]));
            assert(!(forall|j: int| 0 <= j < ds.len() ==> is_digit(#[trigger] ds[j])));
            return None;
        }
        let d: u64 = ((c as u32) - ('0' as u32)) as u64;
        let ghost k: int = i - start;
        assert(ds.take(k + 1).drop_last() =~= ds.take(k));
        assert(ds.take(k + 1).last() == c);
        match value.checked_mul(10) {
            Some(v10) => match v10.checked_add(d) {
                Some(next) => {
                    value = next;
                },
                None => {
                    proof {
                        if forall|j: int| 0 <= j < ds.len() ==> is_digit(#[trigger] ds[j]) {
                            lemma_digits_value_prefix(ds, k + 1);
                            assert(digits_value(ds.take(k + 1)) == value * 10 + d);
                            assert(digits_value(ds) > u64::MAX);
                        }
                    }
                    return None;
                },
            },
            None => {
                proof {
                    if forall|j: int| 0 <= j < ds.len() ==> is_digit(#[trigger] ds[j]) {
                        lemma_digits_value_prefix(ds, k + 1);
                    }
                }
                return None;
            },
        }
        i = i + 1;
    }
    assert(ds.take(n - start) =~= ds);
    Some(value)
}

} // verus!
