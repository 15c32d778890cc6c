//! The command line's own logic: reading its arguments, escaping text for
//! JSON, raising notes to warnings, and rendering what it prints for each
//! record. Reading files and writing to the terminal stay with the program.

use vstd::prelude::*;

use crate::lint::{lint, lint_spec, severity_name, Finding, FindingView, Severity};
use crate::record::HeaderRecord;
use crate::text::{
    chars_of, collect_chars, decimal, has_prefix, push_char, push_decimal, starts_with, str_eq,
};

verus! {

#[derive(Debug, Clone, Copy, PartialEq, Eq, Structural)]
pub enum Format {
    Text,
    Json,
}

/// The arguments as the contracts see them: the paths in order, the output
/// format, and whether `--strict` was given.
pub type ArgsView = (Seq<Seq<char>>, Format, bool);

#[derive(Debug)]
pub struct Args {
    pub paths: Vec<String>,
    pub format: Format,
    pub strict: bool,
}

impl View for Args {
    type V = ArgsView;

    open spec fn view(&self) -> ArgsView {
        (self.paths@.map_values(|p: String| p@), self.format, self.strict)
    }
}

pub const MISSING_FORMAT: &'static str = "--format requires a value (text or json)";

/// The format that `--format` names, or the message for one it does not know.
pub open spec fn format_spec(value: Seq<char>) -> Result<Format, Seq<char>> {
    if value == "text"@ {
        Ok(Format::Text)
    } else if value == "json"@ {
        Ok(Format::Json)
    } else {
        Err("unknown format: "@ + value + " (expected text or json)"@)
    }
}

/// Reads the arguments in `rest` on top of what `acc` already holds:
/// `--format=F` and `--format F` set the format, `--strict` sets strict
/// mode, and anything else is a path. The first bad format, or a `--format`
/// with nothing after it, is an error.
pub open spec fn args_from(rest: Seq<Seq<char>>, acc: ArgsView) -> Result<ArgsView, Seq<char>>
    decreases rest.len(),
{
    if rest.len() == 0 {
        Ok(acc)
    } else {
        let arg = rest[0];
        if starts_with(arg, "--format="@) {
            match format_spec(arg.skip("--format="@.len() as int)) {
                Ok(f) => args_from(rest.drop_first(), (acc.0, f, acc.2)),
                Err(e) => Err(e),
            }
        } else if arg == "--format"@ {
            if rest.len() < 2 {
                Err(MISSING_FORMAT@)
            } else {
                match format_spec(rest[1]) {
                    Ok(f) => args_from(rest.skip(2), (acc.0, f, acc.2)),
                    Err(e) => Err(e),
                }
            }
        } else if arg == "--strict"@ {
            args_from(rest.drop_first(), (acc.0, acc.1, true))
        } else {
            args_from(rest.drop_first(), (acc.0.push(arg), acc.1, acc.2))
        }
    }
}

/// The arguments before any are read: no paths, text output, not strict.
pub open spec fn default_args() -> ArgsView {
    (Seq::empty(), Format::Text, false)
}

/// What the command line makes of its arguments.
pub open spec fn parse_args_spec(argv: Seq<Seq<char>>) -> Result<ArgsView, Seq<char>> {
    args_from(argv, default_args())
}

/// The outcome of reading arguments with strict mode turned on.
pub open spec fn with_strict(r: Result<ArgsView, Seq<char>>) -> Result<ArgsView, Seq<char>> {
    match r {
        Ok(a) => Ok((a.0, a.1, true)),
        Err(e) => Err(e),
    }
}

proof fn lemma_strict_literals()
    ensures
        !starts_with("--strict"@, "--format="@),
        "--strict"@ != "--format"@,
{
    reveal_strlit("--strict");
    reveal_strlit("--format=");
    reveal_strlit("--format");
    assert("--strict"@.len() == 8 && "--format="@.len() == 9);
    assert("--strict"@[2] != "--format"@[2]);
}

/// Reading arguments with strict mode already on is reading them with it
/// off, then turning it on.
proof fn lemma_args_from_strict_on(rest: Seq<Seq<char>>, acc: ArgsView)
    ensures
        args_from(rest, (acc.0, acc.1, true)) == with_strict(args_from(rest, acc)),
    decreases rest.len(),
{
    if rest.len() > 0 {
        let arg = rest[0];
        if starts_with(arg, "--format="@) {
            match format_spec(arg.skip("--format="@.len() as int)) {
                Ok(f) => lemma_args_from_strict_on(rest.drop_first(), (acc.0, f, acc.2)),
                Err(e) => {},
            }
        } else if arg == "--format"@ {
            if rest.len() >= 2 {
                match format_spec(rest[1]) {
                    Ok(f) => lemma_args_from_strict_on(rest.skip(2), (acc.0, f, acc.2)),
                    Err(e) => {},
                }
            }
        } else if arg == "--strict"@ {
            lemma_args_from_strict_on(rest.drop_first(), (acc.0, acc.1, true));
        } else {
            lemma_args_from_strict_on(rest.drop_first(), (acc.0.push(arg), acc.1, acc.2));
        }
    }
}

proof fn lemma_strict_inserted(a: Seq<Seq<char>>, b: Seq<Seq<char>>, acc: ArgsView)
    requires
        a.len() == 0 || a.last() != "--format"@,
    ensures
        args_from(a + seq!["--strict"@] + b, acc) == with_strict(args_from(a + b, acc)),
    decreases a.len(),
{
    let s = seq!["--strict"@];
    lemma_strict_literals();
    if a.len() == 0 {
        assert(a + s + b =~= s + b);
        assert(a + b =~= b);
        assert((s + b)[0] == "--strict"@);
        assert((s + b).drop_first() =~= b);
        lemma_args_from_strict_on(b, acc);
    } else {
        let x = a[0];
        let whole = a + s + b;
        let plain = a + b;
        assert(whole[0] == x && plain[0] == x);
        assert(whole.drop_first() =~= a.drop_first() + s + b);
        assert(plain.drop_first() =~= a.drop_first() + b);
        if a.len() > 1 {
            assert(a.drop_first().last() == a.last());
        }
        if starts_with(x, "--format="@) {
            match format_spec(x.skip("--format="@.len() as int)) {
                Ok(f) => lemma_strict_inserted(a.drop_first(), b, (acc.0, f, acc.2)),
                Err(e) => {},
            }
        } else if x == "--format"@ {
            assert(a.len() >= 2);
            assert(whole[1] == a[1] && plain[1] == a[1]);
            assert(whole.skip(2) =~= a.skip(2) + s + b);
            assert(plain.skip(2) =~= a.skip(2) + b);
            if a.len() > 2 {
                assert(a.skip(2).last() == a.last());
            }
            match format_spec(a[1]) {
                Ok(f) => lemma_strict_inserted(a.skip(2), b, (acc.0, f, acc.2)),
                Err(e) => {},
            }
        } else if x == "--strict"@ {
            lemma_strict_inserted(a.drop_first(), b, (acc.0, acc.1, true));
        } else {
            lemma_strict_inserted(a.drop_first(), b, (acc.0.push(x), acc.1, acc.2));
        }
    }
}

/// Where `--strict` stands does not matter: put anywhere into arguments `a`
/// then `b` (but not right after a `--format` that wants a value), it turns
/// strict mode on and changes nothing else, neither the paths nor the
/// format nor whether the arguments are accepted, nor the error.
pub proof fn lemma_strict_anywhere(a: Seq<Seq<char>>, b: Seq<Seq<char>>)
    requires
        a.len() == 0 || a.last() != "--format"@,
    ensures
        parse_args_spec(a + seq!["--strict"@] + b) == with_strict(parse_args_spec(a + b)),
{
    lemma_strict_inserted(a, b, default_args());
}

proof fn lemma_args_from_no_strict_path(rest: Seq<Seq<char>>, acc: ArgsView)
    requires
        !acc.0.contains("--strict"@),
    ensures
        args_from(rest, acc) matches Ok(r) ==> !r.0.contains("--strict"@),
    decreases rest.len(),
{
    if rest.len() > 0 {
        let arg = rest[0];
        if starts_with(arg, "--format="@) {
            match format_spec(arg.skip("--format="@.len() as int)) {
                Ok(f) => lemma_args_from_no_strict_path(rest.drop_first(), (acc.0, f, acc.2)),
                Err(e) => {},
            }
        } else if arg == "--format"@ {
            if rest.len() >= 2 {
                match format_spec(rest[1]) {
                    Ok(f) => lemma_args_from_no_strict_path(rest.skip(2), (acc.0, f, acc.2)),
                    Err(e) => {},
                }
            }
        } else if arg == "--strict"@ {
            lemma_args_from_no_strict_path(rest.drop_first(), (acc.0, acc.1, true));
        } else {
            assert(!acc.0.push(arg).contains("--strict"@)) by {
                if acc.0.push(arg).contains("--strict"@) {
                    let j = choose|j: int| 0 <= j < acc.0.push(arg).len() && acc.0.push(arg)[j] == "--strict"@;
                    if j < acc.0.len() {
                        assert(acc.0[j] == "--strict"@);
                    }
                }
            }
            lemma_args_from_no_strict_path(rest.drop_first(), (acc.0.push(arg), acc.1, acc.2));
        }
    }
}

/// `--strict` is a flag and never a path, and strict mode is on whenever it
/// was given.
pub proof fn lemma_strict_is_never_a_path(argv: Seq<Seq<char>>)
    ensures
        parse_args_spec(argv) matches Ok(r) ==> !r.0.contains("--strict"@),
{
    assert(!Seq::<Seq<char>>::empty().contains("--strict"@));
    lemma_args_from_no_strict_path(argv, default_args());
}

/// Whether an argument is neither a flag nor a `--format=` form.
pub open spec fn is_plain_arg(arg: Seq<char>) -> bool {
    !starts_with(arg, "--format="@) && arg != "--format"@ && arg != "--strict"@
}

proof fn lemma_args_from_plain(rest: Seq<Seq<char>>, acc: ArgsView)
    requires
        forall|i: int| 0 <= i < rest.len() ==> is_plain_arg(#[trigger] rest[i]),
    ensures
        args_from(rest, acc) == Ok::<ArgsView, Seq<char>>((acc.0 + rest, acc.1, acc.2)),
    decreases rest.len(),
{
    if rest.len() == 0 {
        assert(acc.0 + rest =~= acc.0);
    } else {
        assert(is_plain_arg(rest[0]));
        assert forall|i: int| 0 <= i < rest.drop_first().len() implies is_plain_arg(#[trigger] rest.drop_first()[i]) by {
            assert(rest.drop_first()[i] == rest[i + 1]);
        }
        lemma_args_from_plain(rest.drop_first(), (acc.0.push(rest[0]), acc.1, acc.2));
        assert(acc.0.push(rest[0]) + rest.drop_first() =~= acc.0 + rest);
    }
}

/// Arguments that are no flags are all paths, kept in order, with the
/// default text format and strict mode off.
pub proof fn lemma_plain_args_are_paths(argv: Seq<Seq<char>>)
    requires
        forall|i: int| 0 <= i < argv.len() ==> is_plain_arg(#[trigger] argv[i]),
    ensures
        parse_args_spec(argv) == Ok::<ArgsView, Seq<char>>((argv, Format::Text, false)),
{
    lemma_args_from_plain(argv, default_args());
    assert(Seq::<Seq<char>>::empty() + argv =~= argv);
}

proof fn lemma_format_forms_front(x: Seq<char>, b: Seq<Seq<char>>, acc: ArgsView)
    ensures
        args_from(seq!["--format="@ + x] + b, acc) == args_from(seq!["--format"@, x] + b, acc),
{
    reveal_strlit("--format=");
    reveal_strlit("--format");
    let eq = "--format="@ + x;
    let one = seq![eq] + b;
    let two = seq!["--format"@, x] + b;
    assert("--format="@.len() == 9 && "--format"@.len() == 8);
    assert(one[0] == eq);
    assert(eq.take(9) =~= "--format="@);
    assert(eq.skip(9) =~= x);
    assert(one.drop_first() =~= b);
    assert(two[0] == "--format"@);
    assert(two[1] == x);
    assert(two.skip(2) =~= b);
}

proof fn lemma_prefix_keeps_equal(a: Seq<Seq<char>>, p: Seq<Seq<char>>, q: Seq<Seq<char>>, acc: ArgsView)
    requires
        a.len() == 0 || a.last() != "--format"@,
        forall|acc2: ArgsView| #[trigger] args_from(p, acc2) == args_from(q, acc2),
    ensures
        args_from(a + p, acc) == args_from(a + q, acc),
    decreases a.len(),
{
    if a.len() == 0 {
        assert(a + p =~= p);
        assert(a + q =~= q);
        assert(args_from(p, acc) == args_from(q, acc));
    } else {
        let x = a[0];
        let wp = a + p;
        let wq = a + q;
        assert(wp[0] == x && wq[0] == x);
        assert(wp.drop_first() =~= a.drop_first() + p);
        assert(wq.drop_first() =~= a.drop_first() + q);
        if a.len() > 1 {
            assert(a.drop_first().last() == a.last());
        }
        if starts_with(x, "--format="@) {
            match format_spec(x.skip("--format="@.len() as int)) {
                Ok(f) => lemma_prefix_keeps_equal(a.drop_first(), p, q, (acc.0, f, acc.2)),
                Err(e) => {},
            }
        } else if x == "--format"@ {
            assert(a.len() >= 2);
            assert(wp[1] == a[1] && wq[1] == a[1]);
            assert(wp.skip(2) =~= a.skip(2) + p);
            assert(wq.skip(2) =~= a.skip(2) + q);
            if a.len() > 2 {
                assert(a.skip(2).last() == a.last());
            }
            match format_spec(a[1]) {
                Ok(f) => lemma_prefix_keeps_equal(a.skip(2), p, q, (acc.0, f, acc.2)),
                Err(e) => {},
            }
        } else if x == "--strict"@ {
            lemma_prefix_keeps_equal(a.drop_first(), p, q, (acc.0, acc.1, true));
        } else {
            lemma_prefix_keeps_equal(a.drop_first(), p, q, (acc.0.push(x), acc.1, acc.2));
        }
    }
}

/// `--format=F` and `--format F` mean the same wherever they stand (but not
/// right after a `--format` that wants a value): the same paths, format and
/// strict mode, or the same error.
pub proof fn lemma_format_forms_agree(a: Seq<Seq<char>>, x: Seq<char>, b: Seq<Seq<char>>)
    requires
        a.len() == 0 || a.last() != "--format"@,
    ensures
        parse_args_spec(a + seq!["--format="@ + x] + b) == parse_args_spec(a + seq!["--format"@, x] + b),
{
    let p = seq!["--format="@ + x] + b;
    let q = seq!["--format"@, x] + b;
    assert forall|acc2: ArgsView| #[trigger] args_from(p, acc2) == args_from(q, acc2) by {
        lemma_format_forms_front(x, b, acc2);
    }
    lemma_prefix_keeps_equal(a, p, q, default_args());
    assert(a + seq!["--format="@ + x] + b =~= a + p);
    assert(a + seq!["--format"@, x] + b =~= a + q);
}

/// Only `text` and `json` name a format: `--format F` is accepted exactly
/// for those two, and sets that format.
pub proof fn lemma_format_words(x: Seq<char>)
    ensures
        parse_args_spec(seq!["--format"@, x]) == if x == "text"@ {
            Ok::<ArgsView, Seq<char>>((Seq::empty(), Format::Text, false))
        } else if x == "json"@ {
            Ok::<ArgsView, Seq<char>>((Seq::empty(), Format::Json, false))
        } else {
            Err::<ArgsView, Seq<char>>("unknown format: "@ + x + " (expected text or json)"@)
        },
{
    reveal_strlit("--format=");
    reveal_strlit("--format");
    let r = seq!["--format"@, x];
    assert("--format="@.len() == 9 && "--format"@.len() == 8);
    assert(r[0] == "--format"@ && r[1] == x);
    assert(!starts_with(r[0], "--format="@));
    assert(r.skip(2) =~= Seq::<Seq<char>>::empty());
    let e = Seq::<Seq<char>>::empty();
    assert(args_from(e, (e, Format::Text, false)) == Ok::<ArgsView, Seq<char>>((e, Format::Text, false)));
    assert(args_from(e, (e, Format::Json, false)) == Ok::<ArgsView, Seq<char>>((e, Format::Json, false)));
}

pub fn parse_format(value: &str) -> (r: Result<Format, String>)
    ensures
        match r {
            Ok(f) => format_spec(value@) == Ok::<Format, Seq<char>>(f),
            Err(e) => format_spec(value@) == Err::<Format, Seq<char>>(e@),
        },
{
    if str_eq(value, "text") {
        Ok(Format::Text)
    } else if str_eq(value, "json") {
        Ok(Format::Json)
    } else {
        let mut msg = String::from_str("unknown format: ");
        msg.append(value);
        msg.append(" (expected text or json)");
        Err(msg)
    }
}

/// Reads the command line's arguments (the program name already removed).
pub fn parse_args(argv: Vec<String>) -> (r: Result<Args, String>)
    ensures
        match r {
            Ok(a) => parse_args_spec(argv@.map_values(|s: String| s@)) == Ok::<ArgsView, Seq<char>>(a@),
            Err(e) => parse_args_spec(argv@.map_values(|s: String| s@)) == Err::<ArgsView, Seq<char>>(e@),
        },
{
    let ghost all = argv@.map_values(|s: String| s@);
    let n = argv.len();
    let mut paths: Vec<String> = Vec::new();
    let mut format = Format::Text;
    let mut strict = false;
    let mut i: usize = 0;
    proof {
        reveal_strlit("--format=");
        assert(all.skip(0) =~= all);
        assert(paths@.map_values(|p: String| p@) =~= Seq::<Seq<char>>::empty());
    }
    while i < n
        invariant
            n == argv@.len() == all.len(),
            all == argv@.map_values(|s: String| s@),
            i <= n,
            "--format="@.len() == 9,
            parse_args_spec(all) == args_from(all.skip(i as int), (paths@.map_values(|p: String| p@), format, strict)),
        decreases n - i,
    {
        let ghost rest = all.skip(i as int);
        let ghost acc = (paths@.map_values(|p: String| p@), format, strict);
        let arg = &argv[i];
        assert(rest[0] == arg@);
        assert(rest.drop_first() =~= all.skip(i + 1));
        let chars = chars_of(arg.as_str());
        let len = chars.len();
        if has_prefix(&chars, len, "--format=") {
            assert(chars@.subrange(0, len as int) =~= arg@);
            let value = collect_chars(&chars, 9, len, false);
            assert(value@ =~= arg@.skip(9));
            match parse_format(value.as_str()) {
                Ok(f) => {
                    format = f;
                },
                Err(e) => {
                    return Err(e);
                },
            }
            i = i + 1;
        } else {
            assert(chars@.subrange(0, len as int) =~= arg@);
            if str_eq(arg.as_str(), "--format") {
                if i + 1 >= n {
                    return Err(String::from_str(MISSING_FORMAT));
                }
                assert(rest[1] == argv@[i + 1]@);
                assert(rest.skip(2) =~= all.skip(i + 2));
                match parse_format(argv[i + 1].as_str()) {
                    Ok(f) => {
                        format = f;
                    },
                    Err(e) => {
                        return Err(e);
                    },
                }
                i = i + 2;
            } else if str_eq(arg.as_str(), "--strict") {
                strict = true;
                i = i + 1;
            } else {
                let copy = arg.clone();
                paths.push(copy);
                assert(paths@.map_values(|p: String| p@) =~= acc.0.push(arg@));
                i = i + 1;
            }
        }
    }
    assert(all.skip(n as int) =~= Seq::<Seq<char>>::empty());
    Ok(Args { paths, format, strict })
}

/// The severity that `--strict` reports in place of `s`: notes become
/// warnings, and nothing else changes.
pub open spec fn strict_severity(s: Severity) -> Severity {
    if s == Severity::Info {
        Severity::Warning
    } else {
        s
    }
}

pub open spec fn strict_finding(f: FindingView) -> FindingView {
    (strict_severity(f.0), f.1)
}

/// The findings with every note raised to a warning.
pub open spec fn strict_findings(fs: Seq<FindingView>) -> Seq<FindingView> {
    fs.map_values(|f: FindingView| strict_finding(f))
}

/// Bumps `Info` findings up to `Warning` in place. Used for `--strict`,
/// for callers that want cache-control nitpicks to read as actionable
/// rather than background color, without changing which checks run.
pub fn apply_strict(findings: &mut [Finding])
    ensures
        final(findings)@.len() == old(findings)@.len(),
        forall|i: int|
            0 <= i < old(findings)@.len() ==> (#[trigger] final(findings)@[i])@ == strict_finding(
                old(findings)@[i]@,
            ),
        forall|i: int| 0 <= i < final(findings)@.len() ==> (#[trigger] final(findings)@[i]).severity != Severity::Info,
{
    let n = findings.len();
    let mut i: usize = 0;
    while i < n
        invariant
            n == findings@.len() == old(findings)@.len(),
            i <= n,
            forall|j: int| 0 <= j < i ==> (#[trigger] findings@[j])@ == strict_finding(old(findings)@[j]@),
            forall|j: int| i <= j < n ==> (#[trigger] findings@[j]) == old(findings)@[j],
        decreases n - i,
    {
        if findings[i].severity == Severity::Info {
            findings[i].severity = Severity::Warning;
        }
        i = i + 1;
    }
}

/// Raising notes to warnings twice is raising them once.
pub proof fn lemma_strict_idempotent(f: FindingView)
    ensures
        strict_finding(strict_finding(f)) == strict_finding(f),
        strict_finding(f).0 != Severity::Info,
        strict_finding(f).1 == f.1,
{
}

/// The hexadecimal digit for `d`, which is below sixteen, in lower case.
pub open spec fn hex_digit(d: int) -> char {
    if d < 10 {
        ((d + '0' as int) as u32) as char
    } else {
        ((d - 10 + 'a' as int) as u32) as char
    }
}

/// How one character is written inside a JSON string: quotes and
/// backslashes behind a backslash, line feed, carriage return and tab as
/// `\n`, `\r`, `\t`, other control characters as `\u` and four hexadecimal
/// digits, and everything else as itself.
pub open spec fn escape_char(c: char) -> Seq<char> {
    if c == '"' {
        seq!['\\', '"']
    } else if c == '\\' {
        seq!['\\', '\\']
    } else if c == '\n' {
        seq!['\\', 'n']
    } else if c == '\r' {
        seq!['\\', 'r']
    } else if c == '\t' {
        seq!['\\', 't']
    } else if (c as u32) < 0x20 {
        let n = (c as u32) as int;
        seq!['\\', 'u', hex_digit((n / 4096) % 16), hex_digit((n / 256) % 16), hex_digit((n / 16) % 16), hex_digit(n % 16)]
    } else {
        seq![c]
    }
}

/// `s` as a double-quoted JSON string literal.
pub open spec fn json_spec(s: Seq<char>) -> Seq<char> {
    seq!['"'] + escaped(s) + seq!['"']
}

/// The characters of `s`, each written as inside a JSON string.
pub open spec fn escaped(s: Seq<char>) -> Seq<char> {
    s.flat_map(|c: char| escape_char(c))
}

fn hex_char(d: u32) -> (r: char)
    requires
        d < 16,
    ensures
        r == hex_digit(d as int),
{
    if d < 10 {
        (48u8 + (d as u8)) as char
    } else {
        (87u8 + (d as u8)) as char
    }
}

/// Appends `s`, rendered as a JSON string literal, to `out`.
fn push_json_string(out: &mut String, s: &str)
    ensures
        final(out)@ == old(out)@ + json_spec(s@),
{
    let chars = chars_of(s);
    let n = chars.len();
    let ghost start = out@;
    let ghost f = |c: char| escape_char(c);
    push_char(out, '"');
    let mut i: usize = 0;
    assert(chars@.take(0).flat_map(f) =~= Seq::<char>::empty());
    while i < n
        invariant
            n == chars@.len(),
            chars@ == s@,
            i <= n,
            f == (|c: char| escape_char(c)),
            out@ == start + seq!['"'] + chars@.take(i as int).flat_map(f),
        decreases n - i,
    {
        let c = chars[i];
        let ghost before = out@;
        if c == '"' {
            push_char(out, '\\');
            push_char(out, '"');
        } else if c == '\\' {
            push_char(out, '\\');
            push_char(out, '\\');
        } else if c == '\n' {
            push_char(out, '\\');
            push_char(out, 'n');
        } else if c == '\r' {
            push_char(out, '\\');
            push_char(out, 'r');
        } else if c == '\t' {
            push_char(out, '\\');
            push_char(out, 't');
        } else if (c as u32) < 0x20 {
            let v = c as u32;
            assert((v as int / 4096) % 16 == 0 && (v as int / 256) % 16 == 0);
            push_char(out, '\\');
            push_char(out, 'u');
            push_char(out, '0');
            push_char(out, '0');
            push_char(out, hex_char(v / 16));
            push_char(out, hex_char(v % 16));
            assert(hex_digit(0) == '0');
            assert(escape_char(c) =~= seq!['\\', 'u', '0', '0', hex_digit((v / 16) as int), hex_digit((v % 16) as int)]);
        } else {
            push_char(out, c);
        }
        assert(out@ =~= before + escape_char(c));
        proof {
            chars@.lemma_flat_map_take_append(f, i as int);
        }
        i = i + 1;
    }
    push_char(out, '"');
    assert(chars@.take(n as int) =~= s@);
}

/// A rendered JSON string starts and ends with a double quote and holds no
/// raw control character: every one of them is escaped.
pub proof fn lemma_json_string_clean(s: Seq<char>)
    ensures
        json_spec(s).len() >= 2,
        json_spec(s)[0] == '"',
        json_spec(s).last() == '"',
        forall|i: int| 0 <= i < json_spec(s).len() ==> (#[trigger] json_spec(s)[i] as u32) >= 0x20,
{
    let f = |c: char| escape_char(c);
    lemma_escaped_clean(s);
    let body = escaped(s);
    let out = json_spec(s);
    assert forall|i: int| 0 <= i < out.len() implies (#[trigger] out[i] as u32) >= 0x20 by {
        if i > 0 && i < out.len() - 1 {
            assert(out[i] == body[i - 1]);
        }
    }
}

proof fn lemma_escaped_clean(s: Seq<char>)
    ensures
        forall|i: int| 0 <= i < escaped(s).len() ==> (#[trigger] escaped(s)[i] as u32) >= 0x20,
    decreases s.len(),
{
    let f = |c: char| escape_char(c);
    if s.len() > 0 {
        lemma_escaped_clean(s.drop_last());
        s.drop_last().lemma_flat_map_push(f, s.last());
        assert(s.drop_last().push(s.last()) =~= s);
        let head = s.drop_last().flat_map(f);
        let tail = escape_char(s.last());
        assert forall|j: int| 0 <= j < tail.len() implies (#[trigger] tail[j] as u32) >= 0x20 by {
            let c = s.last();
            if (c as u32) < 0x20 && c != '\n' && c != '\r' && c != '\t' && c != '"' && c != '\\' {
                let n = (c as u32) as int;
                assert(0 <= (n / 4096) % 16 < 16);
                assert(0 <= (n / 256) % 16 < 16);
                assert(0 <= (n / 16) % 16 < 16);
                assert(0 <= n % 16 < 16);
            }
        }
        assert forall|i: int| 0 <= i < escaped(s).len() implies (#[trigger] escaped(s)[i] as u32) >= 0x20 by {
            if i < head.len() {
                assert(escaped(s)[i] == head[i]);
                assert(head[i] == escaped(s.drop_last())[i]);
            } else {
                assert(escaped(s)[i] == tail[i - head.len()]);
            }
        }
    }
}

/// The value of a hexadecimal digit, either case.
pub open spec fn hex_value(c: char) -> Option<int> {
    if '0' <= c && c <= '9' {
        Some(c as int - '0' as int)
    } else if 'a' <= c && c <= 'f' {
        Some(c as int - 'a' as int + 10)
    } else if 'A' <= c && c <= 'F' {
        Some(c as int - 'A' as int + 10)
    } else {
        None
    }
}

/// The number four hexadecimal digits write.
pub open spec fn hex4_value(t: Seq<char>) -> Option<int> {
    match (hex_value(t[0]), hex_value(t[1]), hex_value(t[2]), hex_value(t[3])) {
        (Some(a), Some(b), Some(c), Some(d)) => Some(a * 4096 + b * 256 + c * 16 + d),
        _ => None,
    }
}

pub open spec fn is_high_surrogate(u: int) -> bool {
    0xD800 <= u && u <= 0xDBFF
}

pub open spec fn is_low_surrogate(u: int) -> bool {
    0xDC00 <= u && u <= 0xDFFF
}

/// `c` put in front of a decoded rest, where the rest decodes.
pub open spec fn decoded_then(c: char, rest: Option<Seq<char>>) -> Option<Seq<char>> {
    match rest {
        Some(r) => Some(seq![c] + r),
        None => None,
    }
}

/// Decodes what follows the opening quote of a JSON string (RFC 8259): the
/// characters up to the closing quote, which must end the text. An escape
/// is a backslash and one of `"` `\` `/` `b` `f` `n` `r` `t`, or `u` and
/// four hexadecimal digits (a surrogate pair as two such escapes); a raw
/// control character, or anything else after a backslash, is an error.
pub open spec fn json_decode_body(t: Seq<char>) -> Option<Seq<char>>
    decreases t.len(),
{
    if t.len() == 0 {
        None
    } else if t[0] == '"' {
        if t.len() == 1 {
            Some(Seq::empty())
        } else {
            None
        }
    } else if t[0] == '\\' {
        if t.len() < 2 {
            None
        } else {
            let e = t[1];
            if e == '"' {
                decoded_then('"', json_decode_body(t.skip(2)))
            } else if e == '\\' {
                decoded_then('\\', json_decode_body(t.skip(2)))
            } else if e == '/' {
                decoded_then('/', json_decode_body(t.skip(2)))
            } else if e == 'b' {
                decoded_then('\u{8}', json_decode_body(t.skip(2)))
            } else if e == 'f' {
                decoded_then('\u{c}', json_decode_body(t.skip(2)))
            } else if e == 'n' {
                decoded_then('\n', json_decode_body(t.skip(2)))
            } else if e == 'r' {
                decoded_then('\r', json_decode_body(t.skip(2)))
            } else if e == 't' {
                decoded_then('\t', json_decode_body(t.skip(2)))
            } else if e == 'u' && t.len() >= 6 {
                match hex4_value(t.subrange(2, 6)) {
                    Some(u) => if is_low_surrogate(u) {
                        None
                    } else if is_high_surrogate(u) {
                        if t.len() >= 12 && t[6] == '\\' && t[7] == 'u' {
                            match hex4_value(t.subrange(8, 12)) {
                                Some(l) => if is_low_surrogate(l) {
                                    decoded_then(
                                        ((0x10000 + (u - 0xD800) * 0x400 + (l - 0xDC00)) as u32) as char,
                                        json_decode_body(t.skip(12)),
                                    )
                                } else {
                                    None
                                },
                                None => None,
                            }
                        } else {
                            None
                        }
                    } else {
                        decoded_then((u as u32) as char, json_decode_body(t.skip(6)))
                    },
                    None => None,
                }
            } else {
                None
            }
        }
    } else if (t[0] as u32) < 0x20 {
        None
    } else {
        decoded_then(t[0], json_decode_body(t.drop_first()))
    }
}

/// Decodes a JSON string token; `None` where the text is not exactly one.
pub open spec fn json_decode(t: Seq<char>) -> Option<Seq<char>> {
    if t.len() > 0 && t[0] == '"' {
        json_decode_body(t.drop_first())
    } else {
        None
    }
}

/// What `json_string` writes is one well-formed JSON string token, and
/// decoding it gives back exactly the text it was made from.
pub proof fn lemma_json_string_decodes(s: Seq<char>)
    ensures
        json_decode(json_spec(s)) == Some(s),
{
    assert(json_spec(s).drop_first() =~= escaped(s) + seq!['"']);
    lemma_decode_escaped(s);
}

proof fn lemma_escaped_front(s: Seq<char>)
    requires
        s.len() > 0,
    ensures
        escaped(s) == escape_char(s[0]) + escaped(s.drop_first()),
{
    let f = |c: char| escape_char(c);
    let m = s.map_values(f);
    assert(m.drop_first() =~= s.drop_first().map_values(f));
    assert(m.first() == escape_char(s[0]));
}

#[verifier::spinoff_prover]
#[verifier::rlimit(40)]
proof fn lemma_decode_escaped(s: Seq<char>)
    ensures
        json_decode_body(escaped(s) + seq!['"']) == Some(s),
    decreases s.len(),
{
    if s.len() == 0 {
        assert(escaped(s) =~= Seq::<char>::empty());
        assert(escaped(s) + seq!['"'] =~= seq!['"']);
        assert(s =~= Seq::<char>::empty());
    } else {
        let c = s[0];
        let rest = escaped(s.drop_first()) + seq!['"'];
        lemma_escaped_front(s);
        lemma_decode_escaped(s.drop_first());
        let e = escape_char(c);
        let t = e + rest;
        assert(escaped(s) + seq!['"'] =~= t);
        assert(seq![c] + s.drop_first() =~= s);
        if c == '"' || c == '\\' || c == '\n' || c == '\r' || c == '\t' {
            assert(t[0] == '\\');
            assert(t.skip(2) =~= rest);
        } else if (c as u32) < 0x20 {
            let n = (c as u32) as int;
            assert(t[0] == '\\' && t[1] == 'u');
            assert(t.skip(6) =~= rest);
            let h = t.subrange(2, 6);
            assert(h =~= e.subrange(2, 6));
            assert(hex_value(hex_digit(0)) == Some(0int));
            let d1 = (n / 16) % 16;
            let d0 = n % 16;
            assert(0 <= d1 < 16 && 0 <= d0 < 16);
            assert(hex_value(hex_digit(d1)) == Some(d1));
            assert(hex_value(hex_digit(d0)) == Some(d0));
            assert((n / 4096) % 16 == 0 && (n / 256) % 16 == 0);
            assert(hex4_value(h) == Some(d1 * 16 + d0));
            assert(d1 * 16 + d0 == n);
            vstd::utf8::char_u32_cast(c, c as u32);
            assert(((n as u32) as char) == c);
        } else {
            assert(t[0] == c);
            assert(t.drop_first() =~= rest);
        }
    }
}

/// Renders `s` as a double-quoted JSON string literal.
pub fn json_string(s: &str) -> (r: String)
    ensures
        r@ == json_spec(s@),
{
    let mut out = String::new();
    push_json_string(&mut out, s);
    out
}

/// The characters of an optional string.
pub open spec fn opt_str_view(s: Option<&str>) -> Option<Seq<char>> {
    match s {
        Some(p) => Some(p@),
        None => None,
    }
}

/// The leading `"file":"...",` field of a JSON line, or nothing when there
/// is no source to name.
pub open spec fn file_field_spec(source: Option<Seq<char>>) -> Seq<char> {
    match source {
        Some(path) => "\"file\":"@ + json_spec(path) + ","@,
        None => Seq::empty(),
    }
}

/// Renders a leading `"file":"...",` object field for JSON output, or
/// nothing when there's no source to disambiguate.
pub fn file_field(source: Option<&str>) -> (r: String)
    ensures
        r@ == file_field_spec(opt_str_view(source)),
{
    let mut out = String::new();
    push_file_field(&mut out, source);
    out
}

fn push_file_field(out: &mut String, source: Option<&str>)
    ensures
        final(out)@ == old(out)@ + file_field_spec(opt_str_view(source)),
{
    match source {
        Some(path) => {
            out.append("\"file\":");
            push_json_string(out, path);
            out.append(",");
        },
        None => {},
    }
}

/// The `path: ` that starts a text line when a source is named.
pub open spec fn text_source(source: Option<Seq<char>>) -> Seq<char> {
    match source {
        Some(path) => path + ": "@,
        None => Seq::empty(),
    }
}

fn push_text_source(out: &mut String, source: Option<&str>)
    ensures
        final(out)@ == old(out)@ + text_source(opt_str_view(source)),
{
    match source {
        Some(path) => {
            out.append(path);
            out.append(": ");
        },
        None => {},
    }
}

/// What stands in place of a status line that a record lacks.
pub const NO_STATUS_LINE: &'static str = "(no status line)";

/// The text report of a record that has findings: a line naming the
/// record, then one indented line per finding.
pub open spec fn text_report(source: Option<Seq<char>>, index: nat, status: Seq<char>, findings: Seq<FindingView>) -> Seq<char> {
    text_source(source) + "record "@ + decimal(index) + " ["@ + status + "]\n"@ + findings.flat_map(
        |f: FindingView| "  "@ + severity_name(f.0) + ": "@ + f.1 + "\n"@,
    )
}

/// One finding as a JSON object.
pub open spec fn json_finding(f: FindingView) -> Seq<char> {
    "{\"severity\":"@ + json_spec(severity_name(f.0)) + ",\"message\":"@ + json_spec(f.1) + "}"@
}

/// The findings as JSON objects separated by commas.
pub open spec fn json_findings(findings: Seq<FindingView>) -> Seq<char>
    decreases findings.len(),
{
    if findings.len() == 0 {
        Seq::empty()
    } else if findings.len() == 1 {
        json_finding(findings[0])
    } else {
        json_findings(findings.drop_last()) + ","@ + json_finding(findings.last())
    }
}

/// One finding as it follows another in the findings array: a comma, then
/// the object.
pub open spec fn comma_then_finding(f: FindingView) -> Seq<char> {
    ","@ + json_finding(f)
}

/// The findings array holds one object per finding, in order, with a comma
/// between each two and nowhere else: the first object, then each later one
/// after a comma.
pub proof fn lemma_json_findings_joined(fs: Seq<FindingView>)
    ensures
        json_findings(fs) == if fs.len() == 0 {
            Seq::<char>::empty()
        } else {
            json_finding(fs[0]) + fs.drop_first().flat_map(|f: FindingView| comma_then_finding(f))
        },
    decreases fs.len(),
{
    let g = |f: FindingView| comma_then_finding(f);
    if fs.len() == 1 {
        assert(fs.drop_first().map_values(g) =~= Seq::<Seq<char>>::empty());
        assert(fs.drop_first().flat_map(g) =~= Seq::<char>::empty());
        assert(json_finding(fs[0]) + Seq::<char>::empty() =~= json_finding(fs[0]));
    } else if fs.len() > 1 {
        let init = fs.drop_last();
        lemma_json_findings_joined(init);
        assert(init[0] == fs[0]);
        assert(init.drop_first().push(fs.last()) =~= fs.drop_first());
        init.drop_first().lemma_flat_map_push(g, fs.last());
        assert(json_findings(fs) == json_findings(init) + ","@ + json_finding(fs.last()));
        assert(json_findings(fs) =~= json_finding(fs[0]) + fs.drop_first().flat_map(g));
    }
}

/// The JSON report of a record that has findings: one object on one line.
pub open spec fn json_report(source: Option<Seq<char>>, index: nat, status: Seq<char>, findings: Seq<FindingView>) -> Seq<char> {
    "{"@ + file_field_spec(source) + "\"record\":"@ + decimal(index) + ",\"status_line\":"@ + json_spec(status)
        + ",\"findings\":["@ + json_findings(findings) + "]}\n"@
}

/// What the command line prints for one record: nothing when `lint` finds
/// nothing; otherwise its findings, raised to warnings when `strict` is
/// set, in the chosen format.
pub open spec fn report_spec(
    rec: crate::record::RecordView,
    index: nat,
    format: Format,
    source: Option<Seq<char>>,
    strict: bool,
) -> Option<Seq<char>> {
    let found = lint_spec(rec);
    if found.len() == 0 {
        None
    } else {
        let findings = if strict {
            strict_findings(found)
        } else {
            found
        };
        Some(render_report(format, source, index, status_of(rec), findings))
    }
}

/// The status line a report shows for a record.
pub open spec fn status_of(rec: crate::record::RecordView) -> Seq<char> {
    match rec.0 {
        Some(s) => s,
        None => NO_STATUS_LINE@,
    }
}

/// A record's report in the chosen format.
pub open spec fn render_report(
    format: Format,
    source: Option<Seq<char>>,
    index: nat,
    status: Seq<char>,
    findings: Seq<FindingView>,
) -> Seq<char> {
    match format {
        Format::Text => text_report(source, index, status, findings),
        Format::Json => json_report(source, index, status, findings),
    }
}

/// `--strict` changes only severities: a record is reported with it exactly
/// when it is reported without it, and the two reports render the same
/// findings, in the same order and with the same messages, except that
/// every `info` finding shows as `warning`.
pub proof fn lemma_strict_changes_only_severities(
    rec: crate::record::RecordView,
    index: nat,
    format: Format,
    source: Option<Seq<char>>,
)
    ensures
        (report_spec(rec, index, format, source, true) is Some) == (report_spec(
            rec,
            index,
            format,
            source,
            false,
        ) is Some),
        report_spec(rec, index, format, source, false) is Some ==> {
            &&& report_spec(rec, index, format, source, false) == Some(
                render_report(format, source, index, status_of(rec), lint_spec(rec)),
            )
            &&& report_spec(rec, index, format, source, true) == Some(
                render_report(
                    format,
                    source,
                    index,
                    status_of(rec),
                    strict_findings(lint_spec(rec)),
                ),
            )
        },
        strict_findings(lint_spec(rec)).len() == lint_spec(rec).len(),
        forall|k: int|
            0 <= k < lint_spec(rec).len() ==> #[trigger] strict_findings(lint_spec(rec))[k] == (strict_severity(lint_spec(rec)[k].0), lint_spec(rec)[k].1),
        severity_name(strict_severity(Severity::Info)) == "warning"@,
        severity_name(strict_severity(Severity::Warning)) == "warning"@,
        severity_name(strict_severity(Severity::Error)) == "error"@,
{
}

/// The program's exit status once every input is read: 2 when reading any
/// input failed (an I/O error), otherwise 1 when anything was flagged, and 0
/// when the inputs were clean.
pub open spec fn exit_status_spec(read_failed: bool, flagged: bool) -> u8 {
    if read_failed {
        2
    } else if flagged {
        1
    } else {
        0
    }
}

pub fn exit_status(read_failed: bool, flagged: bool) -> (r: u8)
    ensures
        r == exit_status_spec(read_failed, flagged),
{
    if read_failed {
        2
    } else if flagged {
        1
    } else {
        0
    }
}

/// The bookkeeping of reading one input: how many records were read, whether
/// any record was reported, whether reading has stopped, and whether it
/// stopped on a read error. A read error is an I/O failure, kept apart from
/// findings: after one, nothing more is read from that input.
#[derive(Debug)]
pub struct RunState {
    index: usize,
    saw_finding: bool,
    stopped: bool,
    read_failed: bool,
}

/// The bookkeeping as the contracts see it: records read, whether any record
/// was reported, whether reading has stopped, whether a read failed.
pub type RunView = (nat, bool, bool, bool);

impl View for RunState {
    type V = RunView;

    closed spec fn view(&self) -> RunView {
        (self.index as nat, self.saw_finding, self.stopped, self.read_failed)
    }
}

impl RunState {
    /// Nothing read, nothing reported.
    pub fn new() -> (r: Self)
        ensures
            r@ == (0nat, false, false, false),
    {
        RunState { index: 0, saw_finding: false, stopped: false, read_failed: false }
    }

    /// Takes the next record read: counts it and returns what to print for
    /// it, if anything.
    pub fn record(&mut self, record: &HeaderRecord, format: Format, source: Option<&str>, strict: bool) -> (r:
        Option<String>)
        requires
            !old(self)@.2,
            old(self)@.0 < usize::MAX,
        ensures
            final(self)@ == (old(self)@.0 + 1, old(self)@.1 || r is Some, false, old(self)@.3),
            match r {
                Some(out) => report_spec(record@, old(self)@.0 + 1, format, opt_str_view(source), strict) == Some(
                    out@,
                ),
                None => report_spec(record@, old(self)@.0 + 1, format, opt_str_view(source), strict) is None,
            },
    {
        self.index = self.index + 1;
        let r = report_record(record, self.index, format, source, strict);
        if r.is_some() {
            self.saw_finding = true;
        }
        r
    }

    /// Takes a failure to read the next record: returns the line to print,
    /// records the failure, and stops reading. It is not a finding.
    pub fn read_error(&mut self, format: Format, source: Option<&str>, error: &str) -> (r: String)
        requires
            !old(self)@.2,
        ensures
            final(self)@ == (old(self)@.0, old(self)@.1, true, true),
            r@ == read_error_spec(old(self)@.0, format, opt_str_view(source), error@),
    {
        self.read_failed = true;
        self.stopped = true;
        report_read_error(self.index, format, source, error)
    }

    /// How many records were read.
    pub fn index(&self) -> (r: usize)
        ensures
            r == self@.0,
    {
        self.index
    }

    /// Whether any record was reported.
    pub fn saw_finding(&self) -> (r: bool)
        ensures
            r == self@.1,
    {
        self.saw_finding
    }

    /// Whether reading stopped on a read error.
    pub fn read_failed(&self) -> (r: bool)
        ensures
            r == self@.3,
    {
        self.read_failed
    }

    /// Whether reading has stopped.
    pub fn is_stopped(&self) -> (r: bool)
        ensures
            r == self@.2,
    {
        self.stopped
    }
}

fn push_text_findings(out: &mut String, findings: &Vec<Finding>)
    ensures
        final(out)@ == old(out)@ + findings@.map_values(|f: Finding| f@).flat_map(
            |f: FindingView| "  "@ + severity_name(f.0) + ": "@ + f.1 + "\n"@,
        ),
{
    let ghost fs = findings@.map_values(|f: Finding| f@);
    let ghost line = |f: FindingView| "  "@ + severity_name(f.0) + ": "@ + f.1 + "\n"@;
    let ghost start = out@;
    let n = findings.len();
    let mut i: usize = 0;
    assert(fs.take(0).flat_map(line) =~= Seq::<char>::empty());
    while i < n
        invariant
            n == findings@.len() == fs.len(),
            fs == findings@.map_values(|f: Finding| f@),
            line == (|f: FindingView| "  "@ + severity_name(f.0) + ": "@ + f.1 + "\n"@),
            i <= n,
            out@ == start + fs.take(i as int).flat_map(line),
        decreases n - i,
    {
        let f = &findings[i];
        let ghost before = out@;
        out.append("  ");
        out.append(f.severity.as_str());
        out.append(": ");
        out.append(f.message.as_str());
        out.append("\n");
        assert(fs[i as int] == f@);
        assert(out@ =~= before + line(f@));
        proof {
            fs.lemma_flat_map_take_append(line, i as int);
        }
        i = i + 1;
    }
    assert(fs.take(n as int) =~= fs);
}

fn push_json_findings(out: &mut String, findings: &Vec<Finding>)
    ensures
        final(out)@ == old(out)@ + json_findings(findings@.map_values(|f: Finding| f@)),
{
    let ghost fs = findings@.map_values(|f: Finding| f@);
    let ghost start = out@;
    let n = findings.len();
    let mut i: usize = 0;
    assert(json_findings(fs.take(0)) =~= Seq::<char>::empty());
    while i < n
        invariant
            n == findings@.len() == fs.len(),
            fs == findings@.map_values(|f: Finding| f@),
            i <= n,
            out@ == start + json_findings(fs.take(i as int)),
        decreases n - i,
    {
        let f = &findings[i];
        let ghost before = out@;
        if i > 0 {
            out.append(",");
        }
        out.append("{\"severity\":");
        push_json_string(out, f.severity.as_str());
        out.append(",\"message\":");
        push_json_string(out, f.message.as_str());
        out.append("}");
        assert(fs[i as int] == f@);
        assert(fs.take(i + 1).drop_last() =~= fs.take(i as int));
        assert(fs.take(i + 1).last() == f@);
        if i > 0 {
            assert(out@ =~= before + ","@ + json_finding(f@));
        } else {
            assert(out@ =~= before + json_finding(f@));
            assert(fs.take(1)[0] == f@);
        }
        i = i + 1;
    }
    assert(fs.take(n as int) =~= fs);
}

/// Renders what the command line prints for one record, or `None` when
/// `lint` has nothing to say about it. `index` counts the records read so
/// far, this one included; `source` names the file when several are read.
pub fn report_record(
    record: &HeaderRecord,
    index: usize,
    format: Format,
    source: Option<&str>,
    strict: bool,
) -> (r: Option<String>)
    ensures
        match r {
            Some(out) => report_spec(record@, index as nat, format, opt_str_view(source), strict) == Some(out@),
            None => report_spec(record@, index as nat, format, opt_str_view(source), strict) is None,
        },
{
    let mut findings = lint(record);
    if findings.len() == 0 {
        assert(lint_spec(record@).len() == 0);
        return None;
    }
    let ghost found = findings@.map_values(|f: Finding| f@);
    if strict {
        apply_strict(findings.as_mut_slice());
    }
    assert(findings@.map_values(|f: Finding| f@) =~= if strict {
        strict_findings(found)
    } else {
        found
    });
    let status: &str = match &record.status_line {
        Some(s) => s.as_str(),
        None => NO_STATUS_LINE,
    };
    let mut out = String::new();
    match format {
        Format::Text => {
            push_text_source(&mut out, source);
            out.append("record ");
            push_decimal(&mut out, index);
            out.append(" [");
            out.append(status);
            out.append("]\n");
            push_text_findings(&mut out, &findings);
        },
        Format::Json => {
            out.append("{");
            push_file_field(&mut out, source);
            out.append("\"record\":");
            push_decimal(&mut out, index);
            out.append(",\"status_line\":");
            push_json_string(&mut out, status);
            out.append(",\"findings\":[");
            push_json_findings(&mut out, &findings);
            out.append("]}\n");
        },
    }
    Some(out)
}

/// What the command line prints when reading a record fails, before it
/// stops reading that input. `index` counts the records read before it.
pub open spec fn read_error_spec(index: nat, format: Format, source: Option<Seq<char>>, error: Seq<char>) -> Seq<char> {
    match format {
        Format::Text => text_source(source) + "record "@ + decimal(index) + ": read error: "@ + error + "\n"@,
        Format::Json => "{"@ + file_field_spec(source) + "\"record\":"@ + decimal(index) + ",\"error\":"@ + json_spec(
            error,
        ) + "}\n"@,
    }
}

/// Renders the line printed for a read error.
pub fn report_read_error(index: usize, format: Format, source: Option<&str>, error: &str) -> (r: String)
    ensures
        r@ == read_error_spec(index as nat, format, opt_str_view(source), error@),
{
    let mut out = String::new();
    match format {
        Format::Text => {
            push_text_source(&mut out, source);
            out.append("record ");
            push_decimal(&mut out, index);
            out.append(": read error: ");
            out.append(error);
            out.append("\n");
        },
        Format::Json => {
            out.append("{");
            push_file_field(&mut out, source);
            out.append("\"record\":");
            push_decimal(&mut out, index);
            out.append(",\"error\":");
            push_json_string(&mut out, error);
            out.append("}\n");
        },
    }
    out
}

} // verus!
