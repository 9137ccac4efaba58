//! The mutable note text, held as a sequence of Unicode scalar values.

use vstd::prelude::*;
use vstd::string::StrSliceExecFns;

verus! {

/// The characters of a string, as a vector with the same view.
pub fn string_chars(s: &String) -> (r: Vec<char>)
    ensures
        r@ == s@,
{
    let st: &str = s.as_str();
    let n = st.unicode_len();
    let mut r: Vec<char> = Vec::new();
    let mut i: usize = 0;
    while i < n
        invariant
            i <= n,
            n == st@.len(),
            st@ == s@,
            r@ == s@.subrange(0, i as int),
        decreases n - i,
    {
        r.push(st.get_char(i));
        proof {
            assert(r@ =~= s@.subrange(0, i + 1 as int));
        }
        i = i + 1;
    }
    proof {
        assert(s@.subrange(0, s@.len() as int) =~= s@);
    }
    r
}

/// Error for a character range that does not fit the buffer:
/// `start > end`, or `end` past the end of the text.
#[derive(Debug, PartialEq, Eq)]
pub struct RangeError;

/// The note text.  Every offset used anywhere in this crate is an index
/// into this sequence of Unicode scalar values, never a byte offset, so
/// no operation can ever cut a code point in half.
pub struct TextBuffer {
    content: Vec<char>,
}

impl View for TextBuffer {
    type V = Seq<char>;

    closed spec fn view(&self) -> Seq<char> {
        self.content@
    }
}

/// Holds when `[start, end)` is a valid character range of a text of
/// length `len`.
pub open spec fn range_ok(start: int, end: int, len: int) -> bool {
    0 <= start <= end <= len
}

impl TextBuffer {
    /// An empty buffer.
    pub fn new() -> (r: TextBuffer)
        ensures
            r@ == Seq::<char>::empty(),
    {
        TextBuffer { content: Vec::new() }
    }

    /// A buffer holding the given characters.
    pub fn from_chars(content: Vec<char>) -> (r: TextBuffer)
        ensures
            r@ == content@,
    {
        TextBuffer { content }
    }

    /// Exact character count; stays exact across every `splice`.
    pub fn length(&self) -> (n: usize)
        ensures
            n == self@.len(),
    {
        self.content.len()
    }

    /// The character at offset `i`.
    pub fn char_at(&self, i: usize) -> (c: char)
        requires
            i < self@.len(),
        ensures
            c == self@[i as int],
    {
        self.content[i]
    }

    /// The characters of the half-open range `[start, end)`, or
    /// `RangeError` when the range does not fit the buffer.
    pub fn slice(&self, start: usize, end: usize) -> (r: Result<Vec<char>, RangeError>)
        ensures
            range_ok(start as int, end as int, self@.len() as int) ==> (r matches Ok(v)
                && v@ == self@.subrange(start as int, end as int)),
            !range_ok(start as int, end as int, self@.len() as int) ==> r matches Err(RangeError),
    {
        if start > end || end > self.content.len() {
            return Err(RangeError);
        }
        let mut out: Vec<char> = Vec::new();
        let mut i: usize = start;
        while i < end
            invariant
                start <= i <= end <= self.content@.len(),
                out@ == self.content@.subrange(start as int, i as int),
            decreases end - i,
        {
            out.push(self.content[i]);
            proof {
                assert(out@ =~= self.content@.subrange(start as int, i + 1 as int));
            }
            i = i + 1;
        }
        Ok(out)
    }

    /// Replaces the range `[start, end)` with `replacement`.  Either the
    /// whole splice succeeds, or the buffer is left exactly as it was and
    /// `RangeError` comes back.
    pub fn splice(&mut self, start: usize, end: usize, replacement: &Vec<char>) -> (r: Result<
        (),
        RangeError,
    >)
        ensures
            range_ok(start as int, end as int, old(self)@.len() as int) ==> (r matches Ok(())
                && final(self)@ == old(self)@.subrange(0, start as int) + replacement@ + old(
                self,
            )@.subrange(end as int, old(self)@.len() as int)),
            !range_ok(start as int, end as int, old(self)@.len() as int) ==> (r matches Err(
                RangeError,
            ) && final(self)@ == old(self)@),
    {
        let n = self.content.len();
        if start > end || end > n {
            return Err(RangeError);
        }
        let mut rebuilt: Vec<char> = Vec::new();
        let mut i: usize = 0;
        while i < start
            invariant
                i <= start <= self.content@.len(),
                self.content@ == old(self)@,
                rebuilt@ == self.content@.subrange(0, i as int),
            decreases start - i,
        {
            rebuilt.push(self.content[i]);
            proof {
                assert(rebuilt@ =~= self.content@.subrange(0, i + 1 as int));
            }
            i = i + 1;
        }
        let mut j: usize = 0;
        while j < replacement.len()
            invariant
                j <= replacement@.len(),
                self.content@ == old(self)@,
                start <= self.content@.len(),
                rebuilt@ == self.content@.subrange(0, start as int) + replacement@.subrange(
                    0,
                    j as int,
                ),
            decreases replacement@.len() - j,
        {
            rebuilt.push(replacement[j]);
            proof {
                assert(rebuilt@ =~= self.content@.subrange(0, start as int)
                    + replacement@.subrange(0, j + 1 as int));
            }
            j = j + 1;
        }
        let mut k: usize = end;
        while k < self.content.len()
            invariant
                end <= k <= self.content@.len(),
                self.content@ == old(self)@,
                rebuilt@ == self.content@.subrange(0, start as int) + replacement@.subrange(
                    0,
                    replacement@.len() as int,
                ) + self.content@.subrange(end as int, k as int),
            decreases self.content@.len() - k,
        {
            rebuilt.push(self.content[k]);
            proof {
                assert(rebuilt@ =~= self.content@.subrange(0, start as int)
                    + replacement@.subrange(0, replacement@.len() as int) + self.content@.subrange(
                    end as int,
                    k + 1 as int,
                ));
            }
            k = k + 1;
        }
        proof {
            assert(replacement@.subrange(0, replacement@.len() as int) =~= replacement@);
        }
        self.content = rebuilt;
        Ok(())
    }
}

} // verus!
