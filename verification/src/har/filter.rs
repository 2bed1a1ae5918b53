//! Entry filtering and predicate logic.
use vstd::prelude::*;

use crate::har::stats::{entry_domain, extract_domain};
use crate::har::types::Entry;
use crate::text::{eq_ignore_ascii_case, lower_seq, str_eq_ignore_ascii_case, to_ascii_lowercase};
use crate::wrappers::{ascii_upper_char, is_ascii_char, regex_compiles, regex_finds, regex_is_match, regex_new, to_uppercase, unicode_upper};

verus! {

/// The filters a predicate holds; `None` is an unset filter.
pub struct PredicateModel {
    /// A regex the request URL must match somewhere.
    pub url_pattern: Option<Seq<char>>,
    /// The exact response status.
    pub status: Option<u16>,
    /// The request method, compared ignoring ASCII case.
    pub method: Option<Seq<char>>,
    /// The response MIME type, compared ignoring ASCII case.
    pub mime_type: Option<Seq<char>>,
    /// The domain of the request URL, compared ignoring ASCII case.
    pub domain: Option<Seq<char>>,
}

/// The model with no filter set.
pub open spec fn no_filters() -> PredicateModel {
    PredicateModel { url_pattern: None, status: None, method: None, mime_type: None, domain: None }
}

/// `e` passes every filter that `p` sets; unset filters pass everything.
pub open spec fn predicate_holds(p: PredicateModel, e: Entry) -> bool {
    &&& (p.url_pattern matches Some(pat) ==> regex_finds(pat, e.request.url@))
    &&& (p.status matches Some(s) ==> e.response.status == s)
    &&& (p.method matches Some(m) ==> eq_ignore_ascii_case(e.request.method@, m))
    &&& (p.mime_type matches Some(m) ==> eq_ignore_ascii_case(e.response.content.mime_type@, m))
    &&& (p.domain matches Some(d) ==> eq_ignore_ascii_case(entry_domain(e), d))
}

/// A set of optional filters applied to HAR entries.
///
/// All set filters must match for an entry to pass (AND logic).
/// Unset filters (None) match everything.
#[derive(Debug)]
pub struct EntryPredicate {
    url_pattern: Option<String>,
    status: Option<u16>,
    method: Option<String>,
    mime_type: Option<String>,
    domain: Option<String>,
}

impl View for EntryPredicate {
    type V = PredicateModel;

    closed spec fn view(&self) -> PredicateModel {
        PredicateModel {
            url_pattern: self.url_pattern.deep_view(),
            status: self.status,
            method: self.method.deep_view(),
            mime_type: self.mime_type.deep_view(),
            domain: self.domain.deep_view(),
        }
    }
}

impl EntryPredicate {
    /// A URL pattern is only ever held once it is known to compile.
    #[verifier::type_invariant]
    closed spec fn patterns_compile(self) -> bool {
        self.url_pattern matches Some(p) ==> regex_compiles(p@)
    }

    /// Create a new predicate with no filters (matches everything).
    pub fn new() -> (p: Self)
        ensures
            p@ == no_filters(),
    {
        EntryPredicate { url_pattern: None, status: None, method: None, mime_type: None, domain: None }
    }

    /// Filter entries whose URL matches a regex pattern.
    ///
    /// # Errors
    ///
    /// Returns an error if the regex pattern is invalid.
    pub fn with_url_pattern(self, pattern: &str) -> (r: Result<Self, regex::Error>)
        ensures
            r is Ok <==> regex_compiles(pattern@),
            r matches Ok(p) ==> p@ == (PredicateModel { url_pattern: Some(pattern@), ..self@ }),
    {
        match regex_new(pattern) {
            Ok(()) => Ok(EntryPredicate {
                url_pattern: Some(String::from_str(pattern)),
                status: self.status,
                method: self.method,
                mime_type: self.mime_type,
                domain: self.domain,
            }),
            Err(e) => Err(e),
        }
    }

    /// Filter by exact HTTP status code.
    pub fn with_status(self, status: u16) -> (p: Self)
        ensures
            p@ == (PredicateModel { status: Some(status), ..self@ }),
    {
        proof {
            use_type_invariant(&self);
        }
        EntryPredicate {
            url_pattern: self.url_pattern,
            status: Some(status),
            method: self.method,
            mime_type: self.mime_type,
            domain: self.domain,
        }
    }

    /// Filter by HTTP method (e.g. "GET", "POST"); the method is stored
    /// upper-cased and compared ignoring ASCII case.
    pub fn with_method(self, method: &str) -> (p: Self)
        ensures
            p@ == (PredicateModel { method: Some(unicode_upper(method@)), ..self@ }),
            (forall|i: int| 0 <= i < method@.len() ==> is_ascii_char(#[trigger] method@[i])) ==> unicode_upper(
                method@,
            ) == method@.map_values(|c: char| ascii_upper_char(c)),
    {
        proof {
            use_type_invariant(&self);
        }
        EntryPredicate {
            url_pattern: self.url_pattern,
            status: self.status,
            method: Some(to_uppercase(method)),
            mime_type: self.mime_type,
            domain: self.domain,
        }
    }

    /// Filter by response MIME type (e.g. "application/json"); compared
    /// ignoring ASCII case, whole string.
    pub fn with_mime_type(self, mime_type: &str) -> (p: Self)
        ensures
            p@ == (PredicateModel { mime_type: Some(lower_seq(mime_type@)), ..self@ }),
    {
        proof {
            use_type_invariant(&self);
        }
        EntryPredicate {
            url_pattern: self.url_pattern,
            status: self.status,
            method: self.method,
            mime_type: Some(to_ascii_lowercase(mime_type)),
            domain: self.domain,
        }
    }

    /// Filter by domain (exact match, ignoring ASCII case, on the host
    /// portion of the URL).
    pub fn with_domain(self, domain: &str) -> (p: Self)
        ensures
            p@ == (PredicateModel { domain: Some(lower_seq(domain@)), ..self@ }),
    {
        proof {
            use_type_invariant(&self);
        }
        EntryPredicate {
            url_pattern: self.url_pattern,
            status: self.status,
            method: self.method,
            mime_type: self.mime_type,
            domain: Some(to_ascii_lowercase(domain)),
        }
    }

    /// Check whether an entry matches all set filters.
    pub fn matches(&self, entry: &Entry) -> (b: bool)
        ensures
            b == predicate_holds(self@, *entry),
    {
        proof {
            use_type_invariant(self);
        }
        if let Some(pattern) = &self.url_pattern {
            if !regex_is_match(pattern.as_str(), entry.request.url.as_str()) {
                return false;
            }
        }
        if let Some(status) = self.status {
            if entry.response.status != status {
                return false;
            }
        }
        if let Some(method) = &self.method {
            if !str_eq_ignore_ascii_case(entry.request.method.as_str(), method.as_str()) {
                return false;
            }
        }
        if let Some(mime_type) = &self.mime_type {
            if !str_eq_ignore_ascii_case(
                entry.response.content.mime_type.as_str(),
                mime_type.as_str(),
            ) {
                return false;
            }
        }
        if let Some(domain) = &self.domain {
            let entry_domain = extract_domain(entry);
            if !str_eq_ignore_ascii_case(entry_domain.as_str(), domain.as_str()) {
                return false;
            }
        }
        true
    }
}

impl Default for EntryPredicate {
    fn default() -> (p: Self)
        ensures
            p@ == no_filters(),
    {
        Self::new()
    }
}

/// The entries of `entries` that satisfy `p`, in log order.
pub open spec fn matching_entries(entries: Seq<Entry>, p: PredicateModel) -> Seq<Entry>
    decreases entries.len(),
{
    if entries.len() == 0 {
        Seq::empty()
    } else if predicate_holds(p, entries.last()) {
        matching_entries(entries.drop_last(), p).push(entries.last())
    } else {
        matching_entries(entries.drop_last(), p)
    }
}

/// The entries a sequence of references points at.
pub open spec fn pointed(refs: Seq<&Entry>) -> Seq<Entry> {
    refs.map_values(|e: &Entry| *e)
}

/// Filter entries using the given predicate, returning references to
/// matching entries in the same order they appear in the log.
pub fn filter_entries<'a>(entries: &'a [Entry], predicate: &EntryPredicate) -> (r: Vec<&'a Entry>)
    ensures
        pointed(r@) == matching_entries(entries@, predicate@),
{
    let mut r: Vec<&'a Entry> = Vec::new();
    let mut i: usize = 0;
    while i < entries.len()
        invariant
            i <= entries@.len(),
            pointed(r@) == matching_entries(entries@.take(i as int), predicate@),
        decreases entries@.len() - i,
    {
        let ghost before = r@;
        assert(entries@.take(i + 1).drop_last() =~= entries@.take(i as int));
        assert(entries@.take(i + 1).last() == entries@[i as int]);
        if predicate.matches(&entries[i]) {
            r.push(&entries[i]);
            assert(pointed(r@) =~= pointed(before).push(entries@[i as int]));
        }
        i += 1;
    }
    assert(entries@.take(entries@.len() as int) =~= entries@);
    r
}

} // verus!
