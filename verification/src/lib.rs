//! HTTP content negotiation: choose the response representation a client prefers, from the
//! `Accept`, `Accept-Charset`, `Accept-Encoding` and `Accept-Language` request headers.
//!
//! Each negotiation answers two questions: given the server's available options, which does
//! the client accept, and in what order of preference; or, with no list provided, what does
//! the client accept, sorted by preference. A header of `None` means "absent" (accept
//! everything, except for `Accept-Encoding`, where only `identity` is implicit), while
//! `Some("")` is an explicit empty header.
//!
//! Every function here is specified exactly against the spec functions of its module
//! (`charsets_wanted`, `encodings_wanted`, `languages_wanted`, `media_types_wanted`), and
//! `laws` proves properties of the negotiation as a whole.
//!
//! Quality values are read as JavaScript's `parseFloat` reads them: the leading decimal
//! literal, rounded to the nearest double (see `quality`), so `q=1e-400` is 0 and
//! `q=0.10000000000000000001` ties with `q=0.1`.
use vstd::prelude::*;

pub mod text;
pub mod bignum;
pub mod quality;
pub mod rank;
pub mod common;
pub mod charset;
pub mod encoding;
pub mod language;
pub mod media_type;
pub mod laws;

use crate::charset::charsets_wanted;
use crate::encoding::encodings_wanted;
use crate::language::languages_wanted;
use crate::media_type::media_types_wanted;
use crate::text::{opt_str_view, opt_strs_view, strings_view};

verus! {

/// The acceptable media types from an `Accept` header, most preferred first.
///
/// With `provided = Some(list)`, the subset of `list` the client accepts, ordered by
/// preference; with `provided = None`, every media type named in the header, sorted.
/// `accept = None` is treated as `*/*`.
pub fn preferred_media_types(accept: Option<&str>, provided: Option<&[&str]>) -> (r: Vec<String>)
    ensures
        strings_view(r@) == media_types_wanted(opt_str_view(accept), opt_strs_view(provided)),
{
    media_type::preferred_media_types(accept, provided)
}

/// The acceptable charsets from an `Accept-Charset` header, most preferred first.
/// `accept = None` is treated as `*`.
pub fn preferred_charsets(accept: Option<&str>, provided: Option<&[&str]>) -> (r: Vec<String>)
    ensures
        strings_view(r@) == charsets_wanted(opt_str_view(accept), opt_strs_view(provided)),
{
    charset::preferred_charsets(accept, provided)
}

/// The acceptable encodings from an `Accept-Encoding` header, most preferred first.
///
/// An implicit `identity` encoding is always considered (at the lowest advertised quality)
/// unless the header lists it or `*`. `preferred` biases ties toward a server-preferred
/// order. A missing or empty header leaves only `identity`.
pub fn preferred_encodings(
    accept: Option<&str>,
    provided: Option<&[&str]>,
    preferred: Option<&[&str]>,
) -> (r: Vec<String>)
    ensures
        strings_view(r@) == encodings_wanted(
            opt_str_view(accept),
            opt_strs_view(provided),
            opt_strs_view(preferred),
        ),
{
    encoding::preferred_encodings(accept, provided, preferred)
}

/// The acceptable languages from an `Accept-Language` header, most preferred first.
/// `accept = None` is treated as `*`.
pub fn preferred_languages(accept: Option<&str>, provided: Option<&[&str]>) -> (r: Vec<String>)
    ensures
        strings_view(r@) == languages_wanted(opt_str_view(accept), opt_strs_view(provided)),
{
    language::preferred_languages(accept, provided)
}

/// The first of a list of names, as an `Option`.
pub open spec fn first_of(l: Seq<Seq<char>>) -> Option<Seq<char>> {
    if l.len() > 0 {
        Some(l[0])
    } else {
        None
    }
}

pub open spec fn opt_string_view(s: Option<String>) -> Option<Seq<char>> {
    match s {
        Some(x) => Some(x@),
        None => None,
    }
}

/// The first element of `v`, if any.
fn first(v: Vec<String>) -> (r: Option<String>)
    ensures
        opt_string_view(r) == first_of(strings_view(v@)),
{
    let mut v = v;
    if v.len() > 0 {
        Some(v.remove(0))
    } else {
        None
    }
}

/// A content negotiator over a request's `Accept*` headers.
///
/// Construct one with [`Negotiator::new`] and the chainable setters, then call the
/// negotiation methods. Each method takes `available = Some(list)` to pick from the server's
/// options, or `None` to list everything the client accepts.
#[derive(Debug, Clone, Copy, PartialEq, Eq)]
pub struct Negotiator<'a> {
    /// The `Accept` header value.
    pub accept: Option<&'a str>,
    /// The `Accept-Charset` header value.
    pub accept_charset: Option<&'a str>,
    /// The `Accept-Encoding` header value.
    pub accept_encoding: Option<&'a str>,
    /// The `Accept-Language` header value.
    pub accept_language: Option<&'a str>,
}

impl<'a> Default for Negotiator<'a> {
    fn default() -> (r: Self)
        ensures
            r.accept is None,
            r.accept_charset is None,
            r.accept_encoding is None,
            r.accept_language is None,
    {
        Negotiator { accept: None, accept_charset: None, accept_encoding: None, accept_language: None }
    }
}

impl<'a> Negotiator<'a> {
    /// A negotiator with all headers absent.
    pub fn new() -> (r: Self)
        ensures
            r.accept is None,
            r.accept_charset is None,
            r.accept_encoding is None,
            r.accept_language is None,
    {
        Negotiator { accept: None, accept_charset: None, accept_encoding: None, accept_language: None }
    }

    /// Set the `Accept` header.
    pub fn accept(self, value: &'a str) -> (r: Self)
        ensures
            r == (Negotiator { accept: Some(value), ..self }),
    {
        let mut n = self;
        n.accept = Some(value);
        n
    }

    /// Set the `Accept-Charset` header.
    pub fn accept_charset(self, value: &'a str) -> (r: Self)
        ensures
            r == (Negotiator { accept_charset: Some(value), ..self }),
    {
        let mut n = self;
        n.accept_charset = Some(value);
        n
    }

    /// Set the `Accept-Encoding` header.
    pub fn accept_encoding(self, value: &'a str) -> (r: Self)
        ensures
            r == (Negotiator { accept_encoding: Some(value), ..self }),
    {
        let mut n = self;
        n.accept_encoding = Some(value);
        n
    }

    /// Set the `Accept-Language` header.
    pub fn accept_language(self, value: &'a str) -> (r: Self)
        ensures
            r == (Negotiator { accept_language: Some(value), ..self }),
    {
        let mut n = self;
        n.accept_language = Some(value);
        n
    }

    /// All acceptable media types, or the preferred subset of `available`.
    pub fn media_types(&self, available: Option<&[&str]>) -> (r: Vec<String>)
        ensures
            strings_view(r@) == media_types_wanted(
                opt_str_view(self.accept),
                opt_strs_view(available),
            ),
    {
        media_type::preferred_media_types(self.accept, available)
    }

    /// The single most preferred media type from `available`.
    pub fn media_type(&self, available: Option<&[&str]>) -> (r: Option<String>)
        ensures
            opt_string_view(r) == first_of(
                media_types_wanted(opt_str_view(self.accept), opt_strs_view(available)),
            ),
    {
        first(self.media_types(available))
    }

    /// All acceptable charsets, or the preferred subset of `available`.
    pub fn charsets(&self, available: Option<&[&str]>) -> (r: Vec<String>)
        ensures
            strings_view(r@) == charsets_wanted(
                opt_str_view(self.accept_charset),
                opt_strs_view(available),
            ),
    {
        charset::preferred_charsets(self.accept_charset, available)
    }

    /// The single most preferred charset from `available`.
    pub fn charset(&self, available: Option<&[&str]>) -> (r: Option<String>)
        ensures
            opt_string_view(r) == first_of(
                charsets_wanted(opt_str_view(self.accept_charset), opt_strs_view(available)),
            ),
    {
        first(self.charsets(available))
    }

    /// All acceptable encodings, or the preferred subset of `available`; `preferred` biases
    /// quality ties toward a server-preferred order.
    pub fn encodings(&self, available: Option<&[&str]>, preferred: Option<&[&str]>) -> (r: Vec<
        String,
    >)
        ensures
            strings_view(r@) == encodings_wanted(
                opt_str_view(self.accept_encoding),
                opt_strs_view(available),
                opt_strs_view(preferred),
            ),
    {
        encoding::preferred_encodings(self.accept_encoding, available, preferred)
    }

    /// The single most preferred encoding from `available`.
    pub fn encoding(&self, available: Option<&[&str]>, preferred: Option<&[&str]>) -> (r: Option<
        String,
    >)
        ensures
            opt_string_view(r) == first_of(
                encodings_wanted(
                    opt_str_view(self.accept_encoding),
                    opt_strs_view(available),
                    opt_strs_view(preferred),
                ),
            ),
    {
        first(self.encodings(available, preferred))
    }

    /// All acceptable languages, or the preferred subset of `available`.
    pub fn languages(&self, available: Option<&[&str]>) -> (r: Vec<String>)
        ensures
            strings_view(r@) == languages_wanted(
                opt_str_view(self.accept_language),
                opt_strs_view(available),
            ),
    {
        language::preferred_languages(self.accept_language, available)
    }

    /// The single most preferred language from `available`.
    pub fn language(&self, available: Option<&[&str]>) -> (r: Option<String>)
        ensures
            opt_string_view(r) == first_of(
                languages_wanted(opt_str_view(self.accept_language), opt_strs_view(available)),
            ),
    {
        first(self.languages(available))
    }
}

} // verus!
