//! Small string helpers shared by the decomposer: byte-directed searching
//! and cutting at a separator.

use crate::strutil::{cut_char, find_char, find_in, join_with, lemma_find_char,
    lemma_join_with_push, lemma_rfind_char, rcut_char, rfind_char, rfind_in};
use vstd::prelude::*;
use vstd::string::*;

verus! {

/// Joining a collection of string-like values with a separator.
pub trait JoinableIterator: DeepView<V = Seq<Seq<char>>> {
    /// The elements joined, with the separator between consecutive
    /// elements.
    fn join(&self, separator: &str) -> (r: String)
        ensures
            r@ == join_with(self.deep_view(), separator@),
    ;
}

impl JoinableIterator for Vec<String> {
    fn join(&self, separator: &str) -> (r: String)
    {
        let n = self.len();
        let mut out = String::new();
        let mut i: usize = 0;
        proof {
            assert(self.deep_view().take(0) =~= Seq::<Seq<char>>::empty());
        }
        while i < n
            invariant
                n == self@.len(),
                0 <= i <= n,
                self.deep_view().len() == n,
                out@ == join_with(self.deep_view().take(i as int), separator@),
            decreases n - i,
        {
            if i > 0 {
                out.append(separator);
            }
            out.append(self[i].as_str());
            proof {
                let dv = self.deep_view();
                assert(dv[i as int] == self@[i as int]@);
                assert(dv.take(i + 1) =~= dv.take(i as int).push(dv[i as int]));
                lemma_join_with_push(dv.take(i as int), dv[i as int], separator@);
            }
            i += 1;
        }
        proof {
            assert(self.deep_view().take(n as int) =~= self.deep_view());
        }
        out
    }
}

impl<'s> JoinableIterator for Vec<&'s str> {
    fn join(&self, separator: &str) -> (r: String)
    {
        let n = self.len();
        let mut out = String::new();
        let mut i: usize = 0;
        proof {
            assert(self.deep_view().take(0) =~= Seq::<Seq<char>>::empty());
        }
        while i < n
            invariant
                n == self@.len(),
                0 <= i <= n,
                self.deep_view().len() == n,
                out@ == join_with(self.deep_view().take(i as int), separator@),
            decreases n - i,
        {
            if i > 0 {
                out.append(separator);
            }
            out.append(self[i]);
            proof {
                let dv = self.deep_view();
                assert(dv[i as int] == self@[i as int]@);
                assert(dv.take(i + 1) =~= dv.take(i as int).push(dv[i as int]));
                lemma_join_with_push(dv.take(i as int), dv[i as int], separator@);
            }
            i += 1;
        }
        proof {
            assert(self.deep_view().take(n as int) =~= self.deep_view());
        }
        out
    }
}

/// Finding the first or last occurrence of an ASCII separator, as a
/// character index.
pub trait QuickFind: View<V = Seq<char>> {
    /// Index of the first occurrence of `needle`, if any.
    fn quickfind(&self, needle: u8) -> (r: Option<usize>)
        ensures
            match r {
                Some(i) => find_char(self@, needle as char) == Some(i as int),
                None => find_char(self@, needle as char) is None,
            },
    ;

    /// Index of the last occurrence of `needle`, if any.
    fn quickrfind(&self, needle: u8) -> (r: Option<usize>)
        ensures
            match r {
                Some(i) => rfind_char(self@, needle as char) == Some(i as int),
                None => rfind_char(self@, needle as char) is None,
            },
    ;
}

impl QuickFind for str {
    fn quickfind(&self, needle: u8) -> (r: Option<usize>) {
        find_in(self, needle as char)
    }

    fn quickrfind(&self, needle: u8) -> (r: Option<usize>) {
        rfind_in(self, needle as char)
    }
}

/// Split at the first occurrence of `sep`: `(before, after)`, the whole
/// input and an empty remainder when `sep` does not occur.
pub fn cut<'a>(input: &'a str, sep: u8) -> (r: (&'a str, &'a str))
    ensures
        r.0@ == cut_char(input@, sep as char).0,
        r.1@ == cut_char(input@, sep as char).1,
{
    let n = input.unicode_len();
    match find_in(input, sep as char) {
        Some(i) => {
            proof {
                lemma_find_char(input@, sep as char);
            }
            (input.substring_char(0, i), input.substring_char(i + 1, n))
        },
        None => {
            let empty_rest = input.substring_char(n, n);
            proof {
                assert(empty_rest@ =~= Seq::<char>::empty());
            }
            (input, empty_rest)
        },
    }
}

/// Split at the last occurrence of `sep`: `(before, after)`, an empty
/// prefix and the whole input when `sep` does not occur.
pub fn rcut<'a>(input: &'a str, sep: u8) -> (r: (&'a str, &'a str))
    ensures
        r.0@ == rcut_char(input@, sep as char).0,
        r.1@ == rcut_char(input@, sep as char).1,
{
    let n = input.unicode_len();
    match rfind_in(input, sep as char) {
        Some(i) => {
            proof {
                lemma_rfind_char(input@, sep as char);
            }
            (input.substring_char(0, i), input.substring_char(i + 1, n))
        },
        None => {
            let empty_prefix = input.substring_char(0, 0);
            proof {
                assert(empty_prefix@ =~= Seq::<char>::empty());
            }
            (empty_prefix, input)
        },
    }
}

} // verus!
