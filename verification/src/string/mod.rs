//! `SmartString`: the runtime's string type. Strings of at most `INLINE_CAP` bytes count as
//! inline (small) strings.

use vstd::prelude::*;
use vstd::string::{StringExecFns, StringSliceAdditionalSpecFns};
use vstd::utf8::encode_utf8;
use crate::bytes::bytes_eq;
use crate::text::lemma_str_bytes_eq;

pub mod ops;

verus! {

/// Largest byte length of a string that counts as inline.
pub const INLINE_CAP: usize = 23;

/// A UTF-8 string.
#[derive(Debug)]
pub struct SmartString {
    text: String,
}

impl SmartString {
    /// The characters of the string.
    pub closed spec fn view(&self) -> Seq<char> {
        self.text@
    }

    /// The UTF-8 bytes of the string.
    pub open spec fn spec_bytes(&self) -> Seq<u8> {
        encode_utf8(self.view())
    }

    /// An empty string.
    pub fn new() -> (r: Self)
        ensures
            r.view() == Seq::<char>::empty(),
    {
        SmartString { text: String::new() }
    }

    /// A copy of a string slice.
    pub fn from_str(s: &str) -> (r: Self)
        ensures
            r.view() == s@,
    {
        SmartString { text: s.to_owned() }
    }

    /// Whether the string is short enough to count as inline.
    pub fn is_inline(&self) -> (r: bool)
        ensures
            r == (self.spec_bytes().len() <= INLINE_CAP),
    {
        self.text.as_str().as_bytes().len() <= INLINE_CAP
    }

    /// Length in bytes.
    pub fn len(&self) -> (r: usize)
        ensures
            r == self.spec_bytes().len(),
    {
        self.text.as_str().as_bytes().len()
    }

    /// Whether the string is empty.
    pub fn is_empty(&self) -> (r: bool)
        ensures
            r == (self.view().len() == 0),
    {
        self.text.as_str().is_empty()
    }

    /// The UTF-8 bytes.
    pub fn as_bytes(&self) -> (r: &[u8])
        ensures
            r@ == self.spec_bytes(),
    {
        self.text.as_str().as_bytes()
    }

    /// The string as a slice.
    pub fn as_str(&self) -> (r: &str)
        ensures
            r@ == self.view(),
    {
        self.text.as_str()
    }

    /// Append a string slice.
    pub fn push_str(&mut self, s: &str)
        ensures
            final(self).view() == old(self).view() + s@,
    {
        self.text.append(s);
    }

    /// A new string: this one followed by `other`.
    pub fn concat(&self, other: &Self) -> (r: Self)
        ensures
            r.view() == self.view() + other.view(),
    {
        let mut text = self.text.clone();
        text.append(other.text.as_str());
        SmartString { text }
    }

    /// Make the string empty.
    pub fn clear(&mut self)
        ensures
            final(self).view() == Seq::<char>::empty(),
    {
        self.text = String::new();
    }

    /// Whether both strings have the same bytes.
    pub fn equals(&self, other: &Self) -> (r: bool)
        ensures
            r == (self.view() == other.view()),
    {
        let a = self.text.as_str();
        let b = other.text.as_str();
        proof {
            lemma_str_bytes_eq(a, b);
        }
        bytes_eq(a.as_bytes(), b.as_bytes())
    }
}

impl Clone for SmartString {
    fn clone(&self) -> (r: Self)
        ensures
            r.view() == self.view(),
    {
        SmartString { text: self.text.clone() }
    }
}

impl Default for SmartString {
    fn default() -> (r: Self)
        ensures
            r.view() == Seq::<char>::empty(),
    {
        SmartString::new()
    }
}

impl PartialEq for SmartString {
    fn eq(&self, other: &Self) -> (r: bool) {
        self.equals(other)
    }
}

impl vstd::std_specs::cmp::PartialEqSpecImpl for SmartString {
    open spec fn obeys_eq_spec() -> bool {
        true
    }

    open spec fn eq_spec(&self, other: &Self) -> bool {
        self.view() == other.view()
    }
}

impl Eq for SmartString {
}

impl<'b> PartialEq<&'b str> for SmartString {
    fn eq(&self, other: &&'b str) -> (r: bool) {
        let a = self.text.as_str();
        let b: &str = *other;
        proof {
            lemma_str_bytes_eq(a, b);
        }
        bytes_eq(a.as_bytes(), b.as_bytes())
    }
}

impl<'b> vstd::std_specs::cmp::PartialEqSpecImpl<&'b str> for SmartString {
    open spec fn obeys_eq_spec() -> bool {
        true
    }

    open spec fn eq_spec(&self, other: &&'b str) -> bool {
        self.view() == other@
    }
}

} // verus!
