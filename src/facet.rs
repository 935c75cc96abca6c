//! Facets: hierarchical tags such as `/category/shoes`, encoded as their path
//! segments separated by a reserved `\0` byte.
use vstd::prelude::*;
use crate::text::{push_char, push_str};

verus! {

/// The character that separates the segments of an encoded facet.
pub const FACET_SEP_CHAR: char = '\u{0}';

/// The path rendering of an encoded facet: `/` before each segment, with `/`
/// and `\` inside a segment escaped by a `\`.
pub open spec fn facet_path(encoded: Seq<char>) -> Seq<char>
    decreases encoded.len(),
{
    if encoded.len() == 0 {
        seq!['/']
    } else {
        let prev = facet_path(encoded.drop_last());
        let c = encoded.last();
        if c == FACET_SEP_CHAR {
            prev.push('/')
        } else if c == '/' || c == '\\' {
            prev.push('\\').push(c)
        } else {
            prev.push(c)
        }
    }
}

/// A hierarchical tag.
#[derive(Clone, Debug, PartialEq, Eq, PartialOrd, Ord, Hash)]
pub struct Facet {
    encoded: String,
}

impl View for Facet {
    type V = Seq<char>;

    closed spec fn view(&self) -> Seq<char> {
        self.encoded@
    }
}

impl Facet {
    /// The facet with the given encoded form.
    pub fn from_encoded_string(facet_string: String) -> (r: Facet)
        ensures
            r@ == facet_string@,
    {
        Facet { encoded: facet_string }
    }

    /// The encoded form: the segments separated by `\0`.
    pub fn encoded_str(&self) -> (r: &str)
        ensures
            r@ == self@,
    {
        self.encoded.as_str()
    }

    /// The path of the facet, such as `/category/shoes`.
    pub fn to_path_string(&self) -> (r: String)
        ensures
            r@ == facet_path(self@),
    {
        let mut out = String::new();
        push_char(&mut out, '/');
        let s = self.encoded.as_str();
        let n = s.unicode_len();
        let mut i: usize = 0;
        while i < n
            invariant
                n == s@.len(),
                s@ == self@,
                i <= n,
                out@ == facet_path(s@.take(i as int)),
            decreases n - i,
        {
            let c = s.get_char(i);
            if c == FACET_SEP_CHAR {
                push_char(&mut out, '/');
            } else if c == '/' || c == '\\' {
                push_char(&mut out, '\\');
                push_char(&mut out, c);
            } else {
                push_char(&mut out, c);
            }
            assert(s@.take(i + 1).drop_last() =~= s@.take(i as int));
            i = i + 1;
        }
        assert(s@.take(n as int) =~= s@);
        out
    }
}

} // verus!
