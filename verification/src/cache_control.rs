//! Parsing for the value of a `Cache-Control` header.
//!
//! The grammar is a comma-separated list of directives, each either a bare
//! token (`no-store`) or a token with a value (`max-age=3600`). Real-world
//! headers are inconsistent about spacing and quoting, so parsing is
//! deliberately forgiving rather than strict.

use vstd::prelude::*;

use crate::text::{
    chars_of, collect_chars, find_char, lemma_lower_idempotent, lemma_split_on_nonempty,
    lemma_split_once_at, lemma_trim_class_ends, lower, parse_u64, parse_u64_spec, split_on,
    split_once, trim, trim_bounds, trim_class, is_first_index, is_whitespace,
    lemma_split_on_without_sep, lemma_trim_class_fixed, lemma_split_on_concat,
    lemma_trim_start_prefix, lemma_trim_end_suffix, trim_start_class, trim_end_class, TrimClass,
};

verus! {

/// A directive as the contracts see it: its name, and its value if it has one.
pub type DirectiveView = (Seq<char>, Option<Seq<char>>);

#[derive(Debug)]
pub struct Directive {
    pub name: String,
    pub value: Option<String>,
}

impl Clone for Directive {
    fn clone(&self) -> (r: Self)
        ensures
            r@ == self@,
    {
        Directive {
            name: self.name.clone(),
            value: match &self.value {
                Some(v) => Some(v.clone()),
                None => None,
            },
        }
    }
}

impl View for Directive {
    type V = DirectiveView;

    open spec fn view(&self) -> DirectiveView {
        (self.name@, opt_view(self.value))
    }
}

/// The characters of an optional string.
pub open spec fn opt_view(v: Option<String>) -> Option<Seq<char>> {
    match v {
        Some(s) => Some(s@),
        None => None,
    }
}

#[derive(Debug)]
pub struct CacheControl {
    directives: Vec<Directive>,
}

impl View for CacheControl {
    type V = Seq<DirectiveView>;

    /// The directives, in the order they appeared.
    closed spec fn view(&self) -> Seq<DirectiveView> {
        self.directives@.map_values(|d: Directive| d@)
    }
}

/// What one comma-separated piece of a header contributes: nothing when it
/// is blank; otherwise a directive whose name is the trimmed text before the
/// first `=` (or the whole piece), lower-cased, and whose value is the
/// trimmed text after that `=` with its surrounding double quotes removed.
pub open spec fn parse_piece(piece: Seq<char>) -> Option<DirectiveView> {
    let part = trim(piece);
    if part.len() == 0 {
        None
    } else {
        match split_once(part, '=') {
            Some((name, value)) => Some(
                (lower(trim(name)), Some(trim_class(trim(value), TrimClass::Quote))),
            ),
            None => Some((lower(part), None)),
        }
    }
}

/// The directives of a `Cache-Control` value, in the order they appear.
pub open spec fn parse_directives(raw: Seq<char>) -> Seq<DirectiveView> {
    split_on(raw, ',').filter_map(|piece: Seq<char>| parse_piece(piece))
}

/// Whether a directive named `name` appears.
pub open spec fn has_directive(dirs: Seq<DirectiveView>, name: Seq<char>) -> bool {
    exists|i: int| 0 <= i < dirs.len() && (#[trigger] dirs[i]).0 == name
}

/// The value of the first directive named `name`; `None` where there is no
/// such directive, or where the first one has no value.
pub open spec fn value_of_spec(dirs: Seq<DirectiveView>, name: Seq<char>) -> Option<Seq<char>>
    decreases dirs.len(),
{
    if dirs.len() == 0 {
        None
    } else if dirs[0].0 == name {
        dirs[0].1
    } else {
        value_of_spec(dirs.drop_first(), name)
    }
}

/// The value of the first directive named `name`, read as a `u64`.
pub open spec fn number_of(dirs: Seq<DirectiveView>, name: Seq<char>) -> Option<u64> {
    match value_of_spec(dirs, name) {
        Some(v) => parse_u64_spec(v),
        None => None,
    }
}

/// Directive names come out lower-case, so looking one up with a
/// lower-case name finds it however the header spelled it.
pub proof fn lemma_names_lowercase(raw: Seq<char>)
    ensures
        forall|i: int|
            0 <= i < parse_directives(raw).len() ==> lower((#[trigger] parse_directives(raw)[i]).0)
                == parse_directives(raw)[i].0,
{
    let f = |piece: Seq<char>| parse_piece(piece);
    let ds = split_on(raw, ',').filter_map(f);
    assert forall|i: int| 0 <= i < ds.len() implies lower((#[trigger] ds[i]).0) == ds[i].0 by {
        assert(ds.contains(ds[i]));
        split_on(raw, ',').lemma_filter_map_contains(f, ds[i]);
        let t = choose|t: Seq<char>| #[trigger] split_on(raw, ',').contains(t) && f(t) == Some(ds[i]);
        let part = trim(t);
        match split_once(part, '=') {
            Some((name, value)) => lemma_lower_idempotent(trim(name)),
            None => lemma_lower_idempotent(part),
        }
    }
}

/// A directive's value never starts or ends with a double quote: the
/// quotes around a quoted value are removed.
pub proof fn lemma_values_unquoted(raw: Seq<char>)
    ensures
        forall|i: int|
            0 <= i < parse_directives(raw).len() ==> match (#[trigger] parse_directives(raw)[i]).1 {
                Some(v) => v.len() > 0 ==> v[0] != '"' && v.last() != '"',
                None => true,
            },
{
    let f = |piece: Seq<char>| parse_piece(piece);
    let ds = split_on(raw, ',').filter_map(f);
    assert forall|i: int| 0 <= i < ds.len() implies match (#[trigger] ds[i]).1 {
        Some(v) => v.len() > 0 ==> v[0] != '"' && v.last() != '"',
        None => true,
    } by {
        assert(ds.contains(ds[i]));
        split_on(raw, ',').lemma_filter_map_contains(f, ds[i]);
        let t = choose|t: Seq<char>| #[trigger] split_on(raw, ',').contains(t) && f(t) == Some(ds[i]);
        let part = trim(t);
        match split_once(part, '=') {
            Some((name, value)) => lemma_trim_class_ends(trim(value), TrimClass::Quote),
            None => {},
        }
    }
}

/// A name fit to stand as a directive name: not empty, lower-case, no
/// whitespace at either end, and no `,` or `=` in it.
pub open spec fn is_plain_name(n: Seq<char>) -> bool {
    &&& n.len() > 0
    &&& lower(n) == n
    &&& !is_whitespace(n[0]) && !is_whitespace(n.last())
    &&& !n.contains(',') && !n.contains('=')
}

/// A value fit to stand unquoted after `=`: no `,` in it, and no
/// whitespace or double quote at either end.
pub open spec fn is_plain_value(v: Seq<char>) -> bool {
    &&& !v.contains(',')
    &&& v.len() > 0 ==> !is_whitespace(v[0]) && !is_whitespace(v.last()) && v[0] != '"' && v.last() != '"'
}

/// A directive written as `name=value` parses back to that name and value,
/// and a bare `name` to that name without a value.
pub proof fn lemma_parse_written_directive(n: Seq<char>, v: Seq<char>)
    requires
        is_plain_name(n),
        is_plain_value(v),
    ensures
        parse_directives(n + seq!['='] + v) == seq![(n, Some(v))],
        parse_directives(n) == seq![(n, None::<Seq<char>>)],
{
    let s = n + seq!['='] + v;
    assert(!s.contains(',')) by {
        if s.contains(',') {
            let j = choose|j: int| 0 <= j < s.len() && s[j] == ',';
            if j < n.len() {
                assert(n[j] == ',');
            } else if j > n.len() {
                assert(v[j - n.len() - 1] == ',');
            }
        }
    }
    lemma_split_on_without_sep(s, ',');
    lemma_split_on_without_sep(n, ',');
    Seq::lemma_filter_map_singleton(s, |piece: Seq<char>| parse_piece(piece));
    Seq::lemma_filter_map_singleton(n, |piece: Seq<char>| parse_piece(piece));
    assert(s[0] == n[0]);
    if v.len() > 0 {
        assert(s.last() == v.last());
    } else {
        assert(s.last() == '=');
    }
    lemma_trim_class_fixed(s, TrimClass::Whitespace);
    lemma_trim_class_fixed(n, TrimClass::Whitespace);
    lemma_trim_class_fixed(v, TrimClass::Whitespace);
    lemma_trim_class_fixed(v, TrimClass::Quote);
    assert(is_first_index(s, '=', n.len() as int)) by {
        assert forall|j: int| 0 <= j < n.len() implies s[j] != '=' by {
            assert(s[j] == n[j]);
        }
    }
    lemma_split_once_at(s, '=', n.len() as int);
    assert(s.take(n.len() as int) =~= n);
    assert(s.skip(n.len() as int + 1) =~= v);
    assert(!n.contains('='));
}

proof fn lemma_filter_map_concat(x: Seq<Seq<char>>, y: Seq<Seq<char>>)
    ensures
        (x + y).filter_map(|piece: Seq<char>| parse_piece(piece)) == x.filter_map(
            |piece: Seq<char>| parse_piece(piece),
        ) + y.filter_map(|piece: Seq<char>| parse_piece(piece)),
    decreases y.len(),
{
    let f = |piece: Seq<char>| parse_piece(piece);
    if y.len() == 0 {
        assert(x + y =~= x);
        assert(x.filter_map(f) + y.filter_map(f) =~= x.filter_map(f));
    } else {
        assert((x + y).drop_last() =~= x + y.drop_last());
        assert((x + y).last() == y.last());
        lemma_filter_map_concat(x, y.drop_last());
        match f(y.last()) {
            Some(d) => {
                assert(x.filter_map(f) + y.drop_last().filter_map(f) + seq![d] =~= x.filter_map(f) + (
                y.drop_last().filter_map(f) + seq![d]));
            },
            None => {},
        }
    }
}

/// Directives joined by a comma parse as the directives of each side, in
/// order: a header's directives are those of its comma-separated pieces.
pub proof fn lemma_parse_concat(a: Seq<char>, b: Seq<char>)
    ensures
        parse_directives(a + seq![','] + b) == parse_directives(a) + parse_directives(b),
{
    lemma_split_on_concat(a, b, ',');
    lemma_filter_map_concat(split_on(a, ','), split_on(b, ','));
}

/// The value that `value_of` names is the value of the first directive with
/// that name, exactly as parsed; nothing when no directive has the name.
pub proof fn lemma_value_of_first_match(dirs: Seq<DirectiveView>, name: Seq<char>)
    ensures
        forall|i: int|
            0 <= i < dirs.len() && (#[trigger] dirs[i]).0 == name && (forall|j: int| 0 <= j < i ==> (#[trigger] dirs[j]).0 != name)
                ==> value_of_spec(dirs, name) == dirs[i].1,
        (forall|j: int| 0 <= j < dirs.len() ==> (#[trigger] dirs[j]).0 != name) ==> value_of_spec(dirs, name) is None,
    decreases dirs.len(),
{
    if dirs.len() > 0 {
        let rest = dirs.drop_first();
        lemma_value_of_first_match(rest, name);
        assert forall|i: int|
            0 <= i < dirs.len() && (#[trigger] dirs[i]).0 == name && (forall|j: int| 0 <= j < i ==> (#[trigger] dirs[j]).0 != name)
                implies value_of_spec(dirs, name) == dirs[i].1 by {
            if i > 0 {
                assert(dirs[0].0 != name);
                assert(rest[i - 1] == dirs[i]);
                assert forall|j: int| 0 <= j < i - 1 implies (#[trigger] rest[j]).0 != name by {
                    assert(rest[j] == dirs[j + 1]);
                }
            }
        }
        if forall|j: int| 0 <= j < dirs.len() ==> (#[trigger] dirs[j]).0 != name {
            assert(dirs[0].0 != name);
            assert forall|j: int| 0 <= j < rest.len() implies (#[trigger] rest[j]).0 != name by {
                assert(rest[j] == dirs[j + 1]);
            }
        }
    }
}

pub open spec fn all_whitespace(w: Seq<char>) -> bool {
    forall|i: int| 0 <= i < w.len() ==> is_whitespace(#[trigger] w[i])
}

/// However a directive is spaced and however its name is cased, and whether
/// or not its value is quoted, it parses as its lower-cased name and its
/// value: `w1 name w2 = w3 value w4`, each `w` a run of whitespace, reads as
/// `(lower(name), value)`, and so does the same with the value in double
/// quotes.
pub proof fn lemma_parse_spaced_directive(
    w1: Seq<char>,
    n: Seq<char>,
    w2: Seq<char>,
    w3: Seq<char>,
    v: Seq<char>,
    w4: Seq<char>,
    quoted: bool,
)
    requires
        all_whitespace(w1) && all_whitespace(w2) && all_whitespace(w3) && all_whitespace(w4),
        n.len() > 0,
        !is_whitespace(n[0]) && !is_whitespace(n.last()),
        !n.contains(',') && !n.contains('='),
        !v.contains(','),
        v.len() > 0 ==> v[0] != '"' && v.last() != '"',
        !quoted ==> v.len() > 0 && !is_whitespace(v[0]) && !is_whitespace(v.last()),
    ensures
        parse_directives(
            w1 + n + w2 + seq!['='] + w3 + (if quoted {
                seq!['"'] + v + seq!['"']
            } else {
                v
            }) + w4,
        ) == seq![(lower(n), Some(v))],
{
    let q = if quoted {
        seq!['"'] + v + seq!['"']
    } else {
        v
    };
    let core = n + w2 + seq!['='] + w3 + q;
    let s = w1 + n + w2 + seq!['='] + w3 + q + w4;
    assert(s =~= w1 + (core + w4));
    assert(q.len() > 0);
    assert(!is_whitespace(q[0]) && !is_whitespace(q.last())) by {
        if quoted {
            assert(q[0] == '"');
            assert(q.last() == '"');
        }
    }
    assert(!q.contains(',')) by {
        if q.contains(',') {
            let j = choose|j: int| 0 <= j < q.len() && q[j] == ',';
            if quoted {
                assert(v[j - 1] == ',');
            } else {
                assert(v[j] == ',');
            }
        }
    }
    // No comma anywhere: one piece.
    assert(!s.contains(',')) by {
        if s.contains(',') {
            let j = choose|j: int| 0 <= j < s.len() && s[j] == ',';
            let o1 = w1.len() as int;
            let o2 = o1 + n.len();
            let o3 = o2 + w2.len();
            let o4 = o3 + 1;
            let o5 = o4 + w3.len();
            let o6 = o5 + q.len();
            if j < o1 {
                assert(is_whitespace(w1[j]));
            } else if j < o2 {
                assert(n[j - o1] == ',');
            } else if j < o3 {
                assert(is_whitespace(w2[j - o2]));
            } else if j < o4 {
                assert(s[j] == '=');
            } else if j < o5 {
                assert(is_whitespace(w3[j - o4]));
            } else if j < o6 {
                assert(q[j - o5] == ',');
            } else {
                assert(is_whitespace(w4[j - o6]));
            }
        }
    }
    lemma_split_on_without_sep(s, ',');
    Seq::lemma_filter_map_singleton(s, |piece: Seq<char>| parse_piece(piece));
    // Trimming the piece leaves `core`.
    assert(core[0] == n[0]);
    assert(core.last() == q.last());
    lemma_trim_start_prefix(w1, core + w4, TrimClass::Whitespace);
    assert((core + w4)[0] == core[0]);
    lemma_trim_end_suffix(core, w4, TrimClass::Whitespace);
    assert(trim(s) == core);
    // The first `=` stands right after `n w2`.
    let k = (n.len() + w2.len()) as int;
    assert(is_first_index(core, '=', k)) by {
        assert forall|j: int| 0 <= j < k implies core[j] != '=' by {
            if j < n.len() {
                assert(core[j] == n[j]);
            } else {
                assert(core[j] == w2[j - n.len()]);
                assert(is_whitespace(w2[j - n.len()]));
            }
        }
        assert(core[k] == '=');
    }
    lemma_split_once_at(core, '=', k);
    assert(core.take(k) =~= n + w2);
    assert(core.skip(k + 1) =~= w3 + q);
    lemma_trim_end_suffix(n, w2, TrimClass::Whitespace);
    lemma_trim_class_fixed(n, TrimClass::Whitespace);
    assert(trim_start_class(n + w2, TrimClass::Whitespace) == n + w2) by {
        assert((n + w2)[0] == n[0]);
    }
    assert(trim(n + w2) == n);
    lemma_trim_start_prefix(w3, q, TrimClass::Whitespace);
    lemma_trim_class_fixed(q, TrimClass::Whitespace);
    assert(trim(w3 + q) == q);
    if quoted {
        let one = seq!['"'];
        if v.len() > 0 {
            assert(q =~= one + (v + one));
            assert((v + one)[0] == v[0]);
            lemma_trim_start_prefix(one, v + one, TrimClass::Quote);
            assert((v + one).last() == '"');
            lemma_trim_end_suffix(v, one, TrimClass::Quote);
            assert(trim_class(q, TrimClass::Quote) == v);
        } else {
            let e = Seq::<char>::empty();
            assert(q =~= seq!['"', '"']);
            assert(q.drop_first() =~= one);
            assert(one.drop_first() =~= e);
            assert(trim_start_class(e, TrimClass::Quote) == e);
            assert(trim_start_class(one, TrimClass::Quote) == e);
            assert(trim_start_class(q, TrimClass::Quote) == e);
            assert(trim_end_class(e, TrimClass::Quote) == e);
            assert(trim_class(q, TrimClass::Quote) =~= v);
        }
    } else {
        lemma_trim_class_fixed(v, TrimClass::Quote);
    }
}

/// A name that has a value is a name that appears.
pub proof fn lemma_value_implies_has(dirs: Seq<DirectiveView>, name: Seq<char>)
    ensures
        value_of_spec(dirs, name) is Some ==> has_directive(dirs, name),
        number_of(dirs, name) is Some ==> has_directive(dirs, name),
    decreases dirs.len(),
{
    if dirs.len() > 0 && dirs[0].0 != name {
        lemma_value_implies_has(dirs.drop_first(), name);
        if value_of_spec(dirs, name) is Some {
            let i = choose|i: int| 0 <= i < dirs.drop_first().len() && (#[trigger] dirs.drop_first()[i]).0 == name;
            assert(dirs[i + 1] == dirs.drop_first()[i]);
        }
    } else if dirs.len() > 0 {
        assert(dirs[0].0 == name);
    }
}

/// The directive that `chars[from..to]` holds, if it is not blank.
fn parse_piece_at(chars: &Vec<char>, from: usize, to: usize) -> (r: Option<Directive>)
    requires
        from <= to <= chars@.len(),
    ensures
        match r {
            Some(d) => parse_piece(chars@.subrange(from as int, to as int)) == Some(d@),
            None => parse_piece(chars@.subrange(from as int, to as int)) is None,
        },
{
    let ghost piece = chars@.subrange(from as int, to as int);
    let (a, b) = trim_bounds(chars, from, to, TrimClass::Whitespace);
    let ghost part = chars@.subrange(a as int, b as int);
    assert(part == trim(piece));
    if a == b {
        return None;
    }
    let k = find_char(chars, a, b, '=');
    if k == b {
        let name = collect_chars(chars, a, b, true);
        return Some(Directive { name, value: None });
    }
    proof {
        lemma_split_once_at(part, '=', k - a);
        assert(part.take(k - a) =~= chars@.subrange(a as int, k as int));
        assert(part.skip(k - a + 1) =~= chars@.subrange(k + 1, b as int));
    }
    let (na, nb) = trim_bounds(chars, a, k, TrimClass::Whitespace);
    let name = collect_chars(chars, na, nb, true);
    let (va, vb) = trim_bounds(chars, k + 1, b, TrimClass::Whitespace);
    let (qa, qb) = trim_bounds(chars, va, vb, TrimClass::Quote);
    let value = collect_chars(chars, qa, qb, false);
    Some(Directive { name, value: Some(value) })
}

impl CacheControl {
    /// Parses the value of a `Cache-Control` header. Never fails: blank
    /// pieces are skipped and anything else becomes a directive.
    pub fn parse(raw: &str) -> (r: Self)
        ensures
            r@ == parse_directives(raw@),
    {
        let chars = chars_of(raw);
        let n = chars.len();
        let mut directives: Vec<Directive> = Vec::new();
        let mut start: usize = 0;
        let mut i: usize = 0;
        let ghost f = |piece: Seq<char>| parse_piece(piece);
        let ghost mut done: Seq<Seq<char>> = Seq::empty();
        assert(chars@.take(0) =~= Seq::<char>::empty());
        assert(chars@.subrange(0, 0) =~= Seq::<char>::empty());
        while i < n
            invariant
                n == chars@.len(),
                chars@ == raw@,
                0 <= start <= i <= n,
                split_on(chars@.take(i as int), ',') == done.push(chars@.subrange(start as int, i as int)),
                directives@.map_values(|d: Directive| d@) == done.filter_map(f),
                f == (|piece: Seq<char>| parse_piece(piece)),
            decreases n - i,
        {
            let ghost before = chars@.take(i as int);
            assert(chars@.take(i + 1).drop_last() =~= before);
            assert(chars@.take(i + 1).last() == chars@[i as int]);
            proof {
                lemma_split_on_nonempty(before, ',');
            }
            if chars[i] == ',' {
                let ghost piece = chars@.subrange(start as int, i as int);
                let d = parse_piece_at(&chars, start, i);
                let ghost old_dirs = directives@;
                match d {
                    Some(d) => {
                        directives.push(d);
                    },
                    None => {},
                }
                proof {
                    assert(done.push(piece).drop_last() =~= done);
                    assert(directives@.map_values(|d: Directive| d@) =~= done.push(piece).filter_map(f));
                    done = done.push(piece);
                    assert(chars@.subrange(i + 1, i + 1) =~= Seq::<char>::empty());
                }
                start = i + 1;
            } else {
                proof {
                    assert(chars@.subrange(start as int, i + 1) =~= chars@.subrange(start as int, i as int).push(
                        chars@[i as int],
                    ));
                    assert(split_on(chars@.take(i + 1), ',') =~= done.push(
                        chars@.subrange(start as int, i + 1),
                    ));
                }
            }
            i = i + 1;
        }
        let ghost piece = chars@.subrange(start as int, n as int);
        let d = parse_piece_at(&chars, start, n);
        match d {
            Some(d) => {
                directives.push(d);
            },
            None => {},
        }
        proof {
            assert(chars@.take(n as int) =~= chars@);
            assert(done.push(piece).drop_last() =~= done);
            assert(directives@.map_values(|d: Directive| d@) =~= done.push(piece).filter_map(f));
        }
        CacheControl { directives }
    }

    /// Whether a directive with exactly this (already lower-case) name appears.
    pub fn has(&self, name: &str) -> (r: bool)
        ensures
            r == has_directive(self@, name@),
    {
        let key = String::from_str(name);
        let n = self.directives.len();
        let mut i: usize = 0;
        while i < n
            invariant
                n == self.directives@.len(),
                key@ == name@,
                i <= n,
                forall|j: int| 0 <= j < i ==> (#[trigger] self@[j]).0 != name@,
            decreases n - i,
        {
            if self.directives[i].name == key {
                assert(self@[i as int].0 == name@);
                return true;
            }
            i = i + 1;
        }
        false
    }

    /// The value of the first directive with this name, if that directive
    /// carries one.
    pub fn value_of(&self, name: &str) -> (r: Option<&str>)
        ensures
            match r {
                Some(v) => value_of_spec(self@, name@) == Some(v@),
                None => value_of_spec(self@, name@) is None,
            },
    {
        let key = String::from_str(name);
        let n = self.directives.len();
        let mut i: usize = 0;
        assert(self@.skip(0) =~= self@);
        while i < n
            invariant
                n == self.directives@.len(),
                n == self@.len(),
                key@ == name@,
                i <= n,
                value_of_spec(self@, name@) == value_of_spec(self@.skip(i as int), name@),
            decreases n - i,
        {
            let d = &self.directives[i];
            assert(self@.skip(i as int)[0] == d@);
            if d.name == key {
                return match &d.value {
                    Some(v) => Some(v.as_str()),
                    None => None,
                };
            }
            assert(self@.skip(i as int).drop_first() =~= self@.skip(i + 1));
            i = i + 1;
        }
        None
    }

    /// The `max-age` directive's value as a number of seconds, where it
    /// reads as one.
    pub fn max_age(&self) -> (r: Option<u64>)
        ensures
            r == number_of(self@, "max-age"@),
    {
        match self.value_of("max-age") {
            Some(v) => parse_u64(v),
            None => None,
        }
    }

    /// The `stale-while-revalidate` directive's value as a number of
    /// seconds, where it reads as one.
    pub fn stale_while_revalidate(&self) -> (r: Option<u64>)
        ensures
            r == number_of(self@, "stale-while-revalidate"@),
    {
        match self.value_of("stale-while-revalidate") {
            Some(v) => parse_u64(v),
            None => None,
        }
    }

    /// All directives, in the order they appeared.
    pub fn directives(&self) -> (r: &[Directive])
        ensures
            r@.map_values(|d: Directive| d@) == self@,
    {
        self.directives.as_slice()
    }
}

impl Clone for CacheControl {
    fn clone(&self) -> (r: Self)
        ensures
            r@ == self@,
    {
        let mut directives: Vec<Directive> = Vec::new();
        let n = self.directives.len();
        let mut i: usize = 0;
        while i < n
            invariant
                n == self.directives@.len(),
                i <= n,
                directives@.map_values(|d: Directive| d@) == self@.take(i as int),
            decreases n - i,
        {
            let d = self.directives[i].clone();
            let ghost before = directives@;
            directives.push(d);
            assert(directives@ == before.push(d));
            assert(self@[i as int] == d@);
            assert(self@.take(i + 1) =~= self@.take(i as int).push(d@));
            assert(directives@.map_values(|d: Directive| d@) =~= self@.take(i + 1));
            i = i + 1;
        }
        assert(self@.take(n as int) =~= self@);
        CacheControl { directives }
    }
}

impl Default for CacheControl {
    fn default() -> (r: Self)
        ensures
            r@ == Seq::<DirectiveView>::empty(),
    {
        let r = CacheControl { directives: Vec::new() };
        assert(r@ =~= Seq::<DirectiveView>::empty());
        r
    }
}

} // verus!
