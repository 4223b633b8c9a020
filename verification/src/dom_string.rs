//! Owned strings: `DOMString`, the string type of the DOM, and
//! `LowercaseString`, a string that is known to be in lower case.

use std::ops::Deref;
use vstd::prelude::*;
use vstd::std_specs::convert::FromSpecImpl;
use vstd::utf8::encode_utf8;

verus! {

/// A string of the DOM. Its view is the sequence of its characters.
#[derive(Debug, PartialEq, Eq, PartialOrd, Ord, Hash)]
pub struct DOMString(String);

impl View for DOMString {
    type V = Seq<char>;

    closed spec fn view(&self) -> Seq<char> {
        self.0@
    }
}

impl DOMString {
    /// The empty string.
    pub fn new() -> (r: DOMString)
        ensures
            r@ == Seq::<char>::empty(),
    {
        DOMString(String::new())
    }

    /// The string that holds the text of `s`.
    pub fn from_string(s: String) -> (r: DOMString)
        ensures
            r@ == s@,
    {
        DOMString(s)
    }

    /// Appends `string`.
    pub fn push_str(&mut self, string: &str)
        ensures
            final(self)@ == old(self)@ + string@,
    {
        self.0.append(string);
    }

    /// Empties the string.
    pub fn clear(&mut self)
        ensures
            final(self)@ == Seq::<char>::empty(),
    {
        self.0 = String::new();
    }

    /// The bytes of the string's UTF-8 form.
    pub fn bytes(&self) -> (r: Vec<u8>)
        ensures
            r@ == encode_utf8(self@),
    {
        self.0.as_str().as_bytes_vec()
    }

    /// The text as a string slice.
    pub fn as_str(&self) -> (r: &str)
        ensures
            r@ == self@,
    {
        self.0.as_str()
    }
}

impl Clone for DOMString {
    fn clone(&self) -> (r: Self)
        ensures
            r@ == self@,
    {
        DOMString(self.0.clone())
    }
}

impl Deref for DOMString {
    type Target = str;

    fn deref(&self) -> (r: &str)
        ensures
            r@ == self@,
    {
        self.0.as_str()
    }
}

impl Default for DOMString {
    fn default() -> (r: Self)
        ensures
            r@ == Seq::<char>::empty(),
    {
        DOMString(String::new())
    }
}

impl From<String> for DOMString {
    fn from(contents: String) -> (r: DOMString)
        ensures
            r@ == contents@,
    {
        DOMString(contents)
    }
}

impl FromSpecImpl<String> for DOMString {
    open spec fn obeys_from_spec() -> bool {
        true
    }

    closed spec fn from_spec(contents: String) -> DOMString {
        DOMString(contents)
    }
}

impl<'a> From<&'a str> for DOMString {
    fn from(contents: &'a str) -> (r: DOMString)
        ensures
            r@ == contents@,
    {
        DOMString(contents.to_owned())
    }
}

impl<'a> FromSpecImpl<&'a str> for DOMString {
    /// Equal texts do not make equal strings in ghost code, so the result
    /// is stated by its view, in the `ensures` of `from`.
    open spec fn obeys_from_spec() -> bool {
        false
    }

    open spec fn from_spec(contents: &'a str) -> DOMString {
        choose|r: DOMString| r@ == contents@
    }
}

impl From<DOMString> for String {
    fn from(contents: DOMString) -> (r: String)
        ensures
            r@ == contents@,
    {
        contents.0
    }
}

impl FromSpecImpl<DOMString> for String {
    open spec fn obeys_from_spec() -> bool {
        true
    }

    closed spec fn from_spec(contents: DOMString) -> String {
        contents.0
    }
}

/// What `str::to_lowercase` makes of `s`: its lower-case form by Unicode's
/// rules, which may differ from `s` in length.
pub uninterp spec fn lowercase(s: Seq<char>) -> Seq<char>;

/// `str::to_lowercase`. Trusted: the result is a function of the
/// characters of `s` alone, named `lowercase`.
#[verifier::external_body]
fn to_lowercase(s: &str) -> (r: String)
    ensures
        r@ == lowercase(s@),
{
    s.to_lowercase()
}

/// A string in lower case.
#[derive(Debug, PartialEq, Eq, Hash)]
pub struct LowercaseString {
    inner: String,
}

impl View for LowercaseString {
    type V = Seq<char>;

    closed spec fn view(&self) -> Seq<char> {
        self.inner@
    }
}

impl Clone for LowercaseString {
    fn clone(&self) -> (r: Self)
        ensures
            r@ == self@,
    {
        LowercaseString { inner: self.inner.clone() }
    }
}

impl Deref for LowercaseString {
    type Target = str;

    fn deref(&self) -> (r: &str)
        ensures
            r@ == self@,
    {
        self.inner.as_str()
    }
}

impl LowercaseString {
    /// The lower-case form of `s`.
    pub fn new(s: &str) -> (r: LowercaseString)
        ensures
            r@ == lowercase(s@),
    {
        LowercaseString { inner: to_lowercase(s) }
    }

    /// The text as a string slice.
    pub fn as_str(&self) -> (r: &str)
        ensures
            r@ == self@,
    {
        self.inner.as_str()
    }
}

} // verus!
