//! Byte offsets into source text.

use vstd::prelude::*;
use vstd::string::StringSliceAdditionalSpecFns;
use crate::text::{at_boundary, str_get};

verus! {

/// A half-open byte range into the source text.
#[derive(Debug, Clone, PartialEq, Eq, Hash, PartialOrd, Ord)]
pub struct ByteSpan {
    pub start: usize,
    pub end: usize,
}

impl ByteSpan {
    pub fn new(start: usize, end: usize) -> (span: Self)
        ensures
            span.start == start,
            span.end == end,
    {
        ByteSpan { start, end }
    }

    /// The span's length; zero when it is empty or reversed.
    pub fn len(&self) -> (n: usize)
        ensures
            n == if self.end >= self.start { self.end - self.start } else { 0 },
    {
        self.end.saturating_sub(self.start)
    }

    pub fn is_empty(&self) -> (b: bool)
        ensures
            b == (self.end <= self.start),
    {
        self.end <= self.start
    }

    pub fn contains(&self, offset: usize) -> (b: bool)
        ensures
            b == (self.start <= offset && offset < self.end),
    {
        self.start <= offset && offset < self.end
    }

    /// The source text this span covers, or `None` if the span is out of
    /// bounds, reversed, or does not fall on character boundaries.
    pub fn slice<'a>(&self, source: &'a str) -> (r: Option<&'a str>)
        ensures
            r is Some <==> (self.start <= self.end <= source.spec_bytes().len()
                && at_boundary(source.spec_bytes(), self.start as int)
                && at_boundary(source.spec_bytes(), self.end as int)),
            r matches Some(t) ==> t.spec_bytes() == source.spec_bytes().subrange(self.start as int, self.end as int),
    {
        str_get(source, self.start, self.end)
    }
}

} // verus!
