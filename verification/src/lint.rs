//! The checks that `lint` runs against one record.

use vstd::prelude::*;

use crate::cache_control::{has_directive, parse_directives, CacheControl, DirectiveView};
use crate::record::{lookup_header, HeaderRecord, RecordView};

verus! {

#[derive(Debug, Clone, Copy, PartialEq, Eq, Structural)]
pub enum Severity {
    Info,
    Warning,
    Error,
}

/// The lower-case word for a severity.
pub open spec fn severity_name(s: Severity) -> Seq<char> {
    match s {
        Severity::Info => "info"@,
        Severity::Warning => "warning"@,
        Severity::Error => "error"@,
    }
}

impl Severity {
    pub fn as_str(&self) -> (r: &'static str)
        ensures
            r@ == severity_name(*self),
    {
        match self {
            Severity::Info => "info",
            Severity::Warning => "warning",
            Severity::Error => "error",
        }
    }
}

/// A finding as the contracts see it: its severity and its message.
pub type FindingView = (Severity, Seq<char>);

#[derive(Debug)]
pub struct Finding {
    pub severity: Severity,
    pub message: String,
}

impl View for Finding {
    type V = FindingView;

    open spec fn view(&self) -> FindingView {
        (self.severity, self.message@)
    }
}

impl Clone for Finding {
    fn clone(&self) -> (r: Self)
        ensures
            r@ == self@,
    {
        Finding { severity: self.severity, message: self.message.clone() }
    }
}

impl Finding {
    fn new(severity: Severity, message: &str) -> (r: Self)
        ensures
            r@ == (severity, message@),
    {
        Finding { severity, message: String::from_str(message) }
    }
}

pub const NO_CACHE_CONTROL: &'static str = "no Cache-Control header; caching is left to the client's heuristics";

pub const NO_STORE_WITH_FRESHNESS: &'static str = "no-store combined with a freshness directive; no-store wins, so the other directive is likely a mistake";

pub const NO_CACHE_WITH_IMMUTABLE: &'static str = "no-cache combined with immutable; these contradict each other";

pub const MAX_AGE_WITH_EXPIRES: &'static str = "both max-age and Expires are set; max-age takes precedence, so Expires is dead weight";

pub const NOT_REVALIDATABLE: &'static str = "no ETag or Last-Modified; a conditional request has nothing to send once the response goes stale";

/// `f` when `cond` holds, nothing otherwise.
pub open spec fn finding_if(cond: bool, f: FindingView) -> Seq<FindingView> {
    if cond {
        seq![f]
    } else {
        Seq::empty()
    }
}

/// The directives of the record's `Cache-Control` header, where it has one.
pub open spec fn cache_control_of(rec: RecordView) -> Option<Seq<DirectiveView>> {
    match lookup_header(rec.1, "cache-control"@) {
        Some(v) => Some(parse_directives(v)),
        None => None,
    }
}

/// What the `Cache-Control` header itself gives rise to: a note that it is
/// missing; or a warning for `no-store` beside `max-age` or `immutable`, a
/// warning for `no-cache` beside `immutable`, and a note for `max-age`
/// beside an `Expires` header, in that order.
pub open spec fn cache_control_findings(rec: RecordView) -> Seq<FindingView> {
    match cache_control_of(rec) {
        None => seq![(Severity::Info, NO_CACHE_CONTROL@)],
        Some(cc) => finding_if(
            has_directive(cc, "no-store"@) && (has_directive(cc, "max-age"@) || has_directive(cc, "immutable"@)),
            (Severity::Warning, NO_STORE_WITH_FRESHNESS@),
        ) + finding_if(
            has_directive(cc, "no-cache"@) && has_directive(cc, "immutable"@),
            (Severity::Warning, NO_CACHE_WITH_IMMUTABLE@),
        ) + finding_if(
            has_directive(cc, "max-age"@) && lookup_header(rec.1, "expires"@) is Some,
            (Severity::Info, MAX_AGE_WITH_EXPIRES@),
        ),
    }
}

/// Whether a stale copy can be revalidated: the record has an `ETag` or a
/// `Last-Modified` header.
pub open spec fn revalidatable(rec: RecordView) -> bool {
    lookup_header(rec.1, "etag"@) is Some || lookup_header(rec.1, "last-modified"@) is Some
}

/// Whether a cache may store the response: no `no-store` directive.
pub open spec fn stores(rec: RecordView) -> bool {
    match cache_control_of(rec) {
        Some(cc) => !has_directive(cc, "no-store"@),
        None => true,
    }
}

/// Everything `lint` reports for a record, in order: the findings on the
/// `Cache-Control` header, then a note when a stored response cannot be
/// revalidated.
pub open spec fn lint_spec(rec: RecordView) -> Seq<FindingView> {
    cache_control_findings(rec) + finding_if(
        !revalidatable(rec) && stores(rec),
        (Severity::Info, NOT_REVALIDATABLE@),
    )
}

/// `lint` reports notes and warnings only, never an error; and a record
/// without a `Cache-Control` header always gets the note that says so,
/// first.
pub proof fn lemma_lint_severities(rec: RecordView)
    ensures
        forall|i: int| 0 <= i < lint_spec(rec).len() ==> (#[trigger] lint_spec(rec)[i]).0 != Severity::Error,
        cache_control_of(rec) is None ==> lint_spec(rec).len() >= 1 && lint_spec(rec)[0] == (
            Severity::Info,
            NO_CACHE_CONTROL@,
        ),
{
    let a = cache_control_findings(rec);
    let b = finding_if(!revalidatable(rec) && stores(rec), (Severity::Info, NOT_REVALIDATABLE@));
    assert forall|i: int| 0 <= i < a.len() implies (#[trigger] a[i]).0 != Severity::Error by {
        match cache_control_of(rec) {
            None => {},
            Some(cc) => {
                let x = finding_if(
                    has_directive(cc, "no-store"@) && (has_directive(cc, "max-age"@) || has_directive(cc, "immutable"@)),
                    (Severity::Warning, NO_STORE_WITH_FRESHNESS@),
                );
                let y = finding_if(
                    has_directive(cc, "no-cache"@) && has_directive(cc, "immutable"@),
                    (Severity::Warning, NO_CACHE_WITH_IMMUTABLE@),
                );
                let z = finding_if(
                    has_directive(cc, "max-age"@) && lookup_header(rec.1, "expires"@) is Some,
                    (Severity::Info, MAX_AGE_WITH_EXPIRES@),
                );
                if i < x.len() {
                    assert(a[i] == x[i]);
                } else if i < x.len() + y.len() {
                    assert(a[i] == y[i - x.len()]);
                } else {
                    assert(a[i] == z[i - x.len() - y.len()]);
                }
            },
        }
    }
    assert forall|i: int| 0 <= i < lint_spec(rec).len() implies (#[trigger] lint_spec(rec)[i]).0 != Severity::Error by {
        if i < a.len() {
            assert(lint_spec(rec)[i] == a[i]);
        } else {
            assert(lint_spec(rec)[i] == b[i - a.len()]);
        }
    }
    if cache_control_of(rec) is None {
        assert(lint_spec(rec)[0] == a[0]);
    }
}

/// Whether the record's first `Cache-Control` header has a directive named
/// `name`; false when it has no such header.
pub open spec fn cache_control_names(rec: RecordView, name: Seq<char>) -> bool {
    match lookup_header(rec.1, "cache-control"@) {
        Some(v) => exists|i: int| 0 <= i < parse_directives(v).len() && (#[trigger] parse_directives(v)[i]).0 == name,
        None => false,
    }
}

/// Everything `lint` reports, rule by rule, in this order, each rule
/// reported once when its condition holds and not otherwise:
/// a note when there is no `Cache-Control` header;
/// a warning when `no-store` stands beside `max-age` or `immutable`;
/// a warning when `no-cache` stands beside `immutable`;
/// a note when `max-age` stands beside an `Expires` header;
/// a note when there is neither `ETag` nor `Last-Modified` and no `no-store`.
pub proof fn lemma_lint_rules(rec: RecordView)
    ensures
        lint_spec(rec) == finding_if(
            lookup_header(rec.1, "cache-control"@) is None,
            (Severity::Info, NO_CACHE_CONTROL@),
        ) + finding_if(
            cache_control_names(rec, "no-store"@) && (cache_control_names(rec, "max-age"@)
                || cache_control_names(rec, "immutable"@)),
            (Severity::Warning, NO_STORE_WITH_FRESHNESS@),
        ) + finding_if(
            cache_control_names(rec, "no-cache"@) && cache_control_names(rec, "immutable"@),
            (Severity::Warning, NO_CACHE_WITH_IMMUTABLE@),
        ) + finding_if(
            cache_control_names(rec, "max-age"@) && lookup_header(rec.1, "expires"@) is Some,
            (Severity::Info, MAX_AGE_WITH_EXPIRES@),
        ) + finding_if(
            lookup_header(rec.1, "etag"@) is None && lookup_header(rec.1, "last-modified"@) is None
                && !cache_control_names(rec, "no-store"@),
            (Severity::Info, NOT_REVALIDATABLE@),
        ),
{
    let e = Seq::<FindingView>::empty();
    match lookup_header(rec.1, "cache-control"@) {
        None => {
            assert(!cache_control_names(rec, "no-store"@));
            assert(!cache_control_names(rec, "no-cache"@));
            assert(!cache_control_names(rec, "max-age"@));
            assert(!cache_control_names(rec, "immutable"@));
            assert(cache_control_findings(rec) =~= seq![(Severity::Info, NO_CACHE_CONTROL@)] + e + e + e);
        },
        Some(v) => {
            let cc = parse_directives(v);
            assert(cache_control_of(rec) == Some(cc));
            assert(has_directive(cc, "no-store"@) == cache_control_names(rec, "no-store"@));
            assert(has_directive(cc, "no-cache"@) == cache_control_names(rec, "no-cache"@));
            assert(has_directive(cc, "max-age"@) == cache_control_names(rec, "max-age"@));
            assert(has_directive(cc, "immutable"@) == cache_control_names(rec, "immutable"@));
            assert(stores(rec) == !cache_control_names(rec, "no-store"@));
            assert(cache_control_findings(rec) =~= e + finding_if(
                has_directive(cc, "no-store"@) && (has_directive(cc, "max-age"@) || has_directive(cc, "immutable"@)),
                (Severity::Warning, NO_STORE_WITH_FRESHNESS@),
            ) + finding_if(
                has_directive(cc, "no-cache"@) && has_directive(cc, "immutable"@),
                (Severity::Warning, NO_CACHE_WITH_IMMUTABLE@),
            ) + finding_if(
                has_directive(cc, "max-age"@) && lookup_header(rec.1, "expires"@) is Some,
                (Severity::Info, MAX_AGE_WITH_EXPIRES@),
            ));
        },
    }
}

/// The note about revalidation closes the findings exactly when the
/// record has neither an `ETag` nor a `Last-Modified` header and a cache may
/// store it: its first `Cache-Control` header, if it has one, holds no
/// `no-store` directive. Otherwise the note is not among the findings.
pub proof fn lemma_revalidation_note(rec: RecordView)
    ensures
        ({
            let may_store = match lookup_header(rec.1, "cache-control"@) {
                None => true,
                Some(v) => forall|i: int|
                    0 <= i < parse_directives(v).len() ==> (#[trigger] parse_directives(v)[i]).0 != "no-store"@,
            };
            let cannot_revalidate = lookup_header(rec.1, "etag"@) is None && lookup_header(rec.1, "last-modified"@) is None;
            if cannot_revalidate && may_store {
                lint_spec(rec).len() > 0 && lint_spec(rec).last() == (Severity::Info, NOT_REVALIDATABLE@)
            } else {
                !lint_spec(rec).contains((Severity::Info, NOT_REVALIDATABLE@))
            }
        }),
{
    reveal_strlit("no ETag or Last-Modified; a conditional request has nothing to send once the response goes stale");
    reveal_strlit("no Cache-Control header; caching is left to the client's heuristics");
    reveal_strlit("no-store combined with a freshness directive; no-store wins, so the other directive is likely a mistake");
    reveal_strlit("no-cache combined with immutable; these contradict each other");
    reveal_strlit("both max-age and Expires are set; max-age takes precedence, so Expires is dead weight");
    let note = (Severity::Info, NOT_REVALIDATABLE@);
    assert(NOT_REVALIDATABLE@[3] == 'E' && NOT_REVALIDATABLE@[2] == ' ' && NOT_REVALIDATABLE@[0] == 'n');
    assert(NO_CACHE_CONTROL@[3] == 'C');
    assert(NO_STORE_WITH_FRESHNESS@[2] == '-');
    assert(NO_CACHE_WITH_IMMUTABLE@[2] == '-');
    assert(MAX_AGE_WITH_EXPIRES@[0] == 'b');
    let a = cache_control_findings(rec);
    assert(!a.contains(note)) by {
        if a.contains(note) {
            let k = choose|k: int| 0 <= k < a.len() && a[k] == note;
            match cache_control_of(rec) {
                None => {
                    assert(a[k] == (Severity::Info, NO_CACHE_CONTROL@));
                },
                Some(cc) => {
                    let x = finding_if(
                        has_directive(cc, "no-store"@) && (has_directive(cc, "max-age"@) || has_directive(
                            cc,
                            "immutable"@,
                        )),
                        (Severity::Warning, NO_STORE_WITH_FRESHNESS@),
                    );
                    let y = finding_if(
                        has_directive(cc, "no-cache"@) && has_directive(cc, "immutable"@),
                        (Severity::Warning, NO_CACHE_WITH_IMMUTABLE@),
                    );
                    let z = finding_if(
                        has_directive(cc, "max-age"@) && lookup_header(rec.1, "expires"@) is Some,
                        (Severity::Info, MAX_AGE_WITH_EXPIRES@),
                    );
                    if k < x.len() {
                        assert(a[k] == x[k]);
                    } else if k < x.len() + y.len() {
                        assert(a[k] == y[k - x.len()]);
                    } else {
                        assert(a[k] == z[k - x.len() - y.len()]);
                    }
                },
            }
        }
    }
    let may_store = match lookup_header(rec.1, "cache-control"@) {
        None => true,
        Some(v) => forall|i: int|
            0 <= i < parse_directives(v).len() ==> (#[trigger] parse_directives(v)[i]).0 != "no-store"@,
    };
    assert(may_store == stores(rec)) by {
        match lookup_header(rec.1, "cache-control"@) {
            None => {},
            Some(v) => {
                if !may_store {
                    let i = choose|i: int| 0 <= i < parse_directives(v).len() && (#[trigger] parse_directives(v)[i]).0 == "no-store"@;
                    assert(has_directive(parse_directives(v), "no-store"@));
                }
            },
        }
    }
    let b = finding_if(!revalidatable(rec) && stores(rec), note);
    assert(lint_spec(rec) == a + b);
    if !revalidatable(rec) && stores(rec) {
        assert(lint_spec(rec).last() == note);
    } else {
        assert(b =~= Seq::<FindingView>::empty());
        assert(lint_spec(rec) =~= a);
    }
}

/// Runs the built-in checks against one response's headers.
pub fn lint(record: &HeaderRecord) -> (r: Vec<Finding>)
    ensures
        r@.map_values(|f: Finding| f@) == lint_spec(record@),
{
    let mut findings: Vec<Finding> = Vec::new();
    let cache_control = match record.get("cache-control") {
        Some(v) => Some(CacheControl::parse(v)),
        None => None,
    };
    assert(match cache_control_of(record@) {
        Some(v) => cache_control matches Some(cc) && cc@ == v,
        None => cache_control is None,
    });
    match &cache_control {
        None => {
            findings.push(Finding::new(Severity::Info, NO_CACHE_CONTROL));
        },
        Some(cc) => {
            if cc.has("no-store") && (cc.has("max-age") || cc.has("immutable")) {
                findings.push(Finding::new(Severity::Warning, NO_STORE_WITH_FRESHNESS));
            }
            if cc.has("no-cache") && cc.has("immutable") {
                findings.push(Finding::new(Severity::Warning, NO_CACHE_WITH_IMMUTABLE));
            }
            if cc.has("max-age") && record.get("expires").is_some() {
                findings.push(Finding::new(Severity::Info, MAX_AGE_WITH_EXPIRES));
            }
        },
    }
    assert(findings@.map_values(|f: Finding| f@) =~= cache_control_findings(record@));
    let revalidatable = record.get("etag").is_some() || record.get("last-modified").is_some();
    let stores = match &cache_control {
        Some(cc) => !cc.has("no-store"),
        None => true,
    };
    let ghost before = findings@;
    if !revalidatable && stores {
        findings.push(Finding::new(Severity::Info, NOT_REVALIDATABLE));
    }
    assert(findings@.map_values(|f: Finding| f@) =~= lint_spec(record@));
    findings
}

} // verus!
