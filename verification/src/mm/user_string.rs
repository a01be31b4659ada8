//! Strings that a user hands over: bytes up to a zero.

use vstd::prelude::*;

use super::address::PAGE_SIZE;

verus! {

/// The most bytes of a string, where the caller sets no other limit.
pub const MAX_USER_CSTRING_LEN: u64 = 131072;

/// Why a string could not be taken over.
#[derive(Clone, Copy, Debug, PartialEq, Eq, Structural)]
pub enum UserCStringError {
    /// The address cannot be read.
    Invalid,
    /// There is no zero within the limit.
    TooLong,
}

/// The place of the first zero, else the length.
pub open spec fn first_zero(bytes: Seq<u8>) -> nat
    decreases bytes.len(),
{
    if bytes.len() == 0 || bytes[0] == 0 {
        0
    } else {
        1 + first_zero(bytes.skip(1))
    }
}

/// No byte before the first zero is zero, and the byte there is.
pub proof fn lemma_first_zero(bytes: Seq<u8>)
    ensures
        first_zero(bytes) <= bytes.len(),
        forall|i: int| 0 <= i < first_zero(bytes) ==> #[trigger] bytes[i] != 0,
        first_zero(bytes) < bytes.len() ==> bytes[first_zero(bytes) as int] == 0,
    decreases bytes.len(),
{
    if bytes.len() > 0 && bytes[0] != 0 {
        let rest = bytes.skip(1);
        lemma_first_zero(rest);
        assert forall|i: int| 0 <= i < first_zero(bytes) implies #[trigger] bytes[i] != 0 by {
            if i > 0 {
                assert(rest[i - 1] == bytes[i]);
            }
        }
    }
}

/// `String::push` puts a character behind the others.
pub assume_specification[ String::push ](text: &mut String, c: char)
    ensures
        final(text)@ == old(text)@.push(c),
;

/// What is known of a string after some of its bytes were read.
pub enum CStringStep {
    /// The string is complete.
    Complete,
    /// More bytes are to be read.
    More,
    /// The string cannot be taken over.
    Failed(UserCStringError),
}

/// A string that is read page by page.
///
/// Bytes behind the zero need not be readable, so no request crosses a page.
pub struct UserCString {
    bytes: Vec<u8>,
    va: u64,
    max_len: u64,
}

impl UserCString {
    /// The bytes read so far, without the zero.
    pub closed spec fn bytes(&self) -> Seq<u8> {
        self.bytes@
    }

    /// The address of the next byte.
    pub closed spec fn at(&self) -> u64 {
        self.va
    }

    /// The most bytes that the string may have.
    pub closed spec fn limit(&self) -> u64 {
        self.max_len
    }

    /// How many bytes are read next: those up to the end of the page, but no more than one
    /// behind the limit.
    pub open spec fn asked(&self) -> int {
        let in_page = 4096 - self.at() % 4096;
        let left = self.limit() + 1 - self.bytes().len();
        if in_page <= left {
            in_page as int
        } else {
            left as int
        }
    }

    /// No more bytes were read than the string may have.
    pub open spec fn wf(&self) -> bool {
        self.bytes().len() <= self.limit() < u64::MAX
    }

    /// Starts to read the string at an address.
    pub fn start(ptr: u64, max_len: u64) -> (string: Result<Self, UserCStringError>)
        ensures
            match string {
                Err(UserCStringError::Invalid) => ptr == 0 || ptr >= 0x8000_0000_0000_0000,
                Err(UserCStringError::TooLong) => 0 < ptr < 0x8000_0000_0000_0000 && max_len
                    == u64::MAX,
                Ok(s) => {
                    &&& 0 < ptr < 0x8000_0000_0000_0000
                    &&& max_len < u64::MAX
                    &&& s.wf()
                    &&& s.bytes() == Seq::<u8>::empty()
                    &&& s.at() == ptr
                    &&& s.limit() == max_len
                },
            },
    {
        if ptr == 0 || ptr >= 0x8000_0000_0000_0000 {
            return Err(UserCStringError::Invalid);
        }
        if max_len == u64::MAX {
            return Err(UserCStringError::TooLong);
        }
        let string = UserCString { bytes: Vec::new(), va: ptr, max_len };
        assert(string.bytes() =~= Seq::<u8>::empty());
        Ok(string)
    }

    /// Returns the address and the number of the bytes to read next.
    ///
    /// One byte more than the limit is asked for, so that the zero behind a
    /// string of that length is seen.
    pub fn request(&self) -> (range: (u64, u64))
        requires
            self.wf(),
        ensures
            range.0 == self.at(),
            range.1 == self.asked(),
            range.1 > 0,
    {
        let in_page: u64 = PAGE_SIZE - self.va % PAGE_SIZE;
        let left: u64 = self.max_len + 1 - self.bytes.len() as u64;
        if in_page <= left {
            (self.va, in_page)
        } else {
            (self.va, left)
        }
    }

    /// Takes bytes over that were read at the address of the request.
    pub fn supply(&mut self, chunk: &Vec<u8>) -> (step: CStringStep)
        requires
            old(self).wf(),
            0 < chunk@.len() <= old(self).limit() + 1 - old(self).bytes().len(),
        ensures
            final(self).limit() == old(self).limit(),
            ({
                let n = first_zero(chunk@);
                let so_far = old(self).bytes().len() + n;
                match step {
                    CStringStep::Complete => {
                        &&& n < chunk@.len()
                        &&& so_far <= old(self).limit()
                        &&& final(self).bytes() == old(self).bytes() + chunk@.take(n as int)
                    },
                    CStringStep::More => {
                        &&& n == chunk@.len()
                        &&& so_far <= old(self).limit()
                        &&& old(self).at() + n <= u64::MAX
                        &&& final(self).wf()
                        &&& final(self).bytes() == old(self).bytes() + chunk@
                        &&& final(self).at() == old(self).at() + n
                    },
                    CStringStep::Failed(UserCStringError::TooLong) => so_far > old(self).limit(),
                    CStringStep::Failed(UserCStringError::Invalid) => so_far <= old(self).limit()
                        && n == chunk@.len() && old(self).at() + n > u64::MAX,
                }
            }),
    {
        let ghost had = self.bytes();
        let room: u64 = self.max_len - self.bytes.len() as u64;
        let mut n: usize = 0;
        proof {
            lemma_first_zero(chunk@);
            assert(chunk@.skip(0) =~= chunk@);
        }
        while n < chunk.len() && chunk[n] != 0
            invariant
                n <= chunk@.len(),
                first_zero(chunk@) == n + first_zero(chunk@.skip(n as int)),
            decreases chunk@.len() - n,
        {
            assert(chunk@.skip(n as int).skip(1) =~= chunk@.skip(n + 1));
            n = n + 1;
        }
        assert(first_zero(chunk@) == n);
        if n as u64 > room {
            return CStringStep::Failed(UserCStringError::TooLong);
        }
        let mut i: usize = 0;
        assert(had + chunk@.take(0) =~= had);
        while i < n
            invariant
                i <= n <= chunk@.len(),
                self.bytes() == had + chunk@.take(i as int),
                self.limit() == old(self).limit(),
                self.at() == old(self).at(),
            decreases n - i,
        {
            self.bytes.push(chunk[i]);
            assert(had + chunk@.take(i + 1) =~= (had + chunk@.take(i as int)).push(
                chunk@[i as int],
            ));
            i = i + 1;
        }
        if n < chunk.len() {
            return CStringStep::Complete;
        }
        assert(chunk@.take(n as int) =~= chunk@);
        if n as u64 > u64::MAX - self.va {
            return CStringStep::Failed(UserCStringError::Invalid);
        }
        self.va = self.va + n as u64;
        CStringStep::More
    }

    /// Returns the string; every byte is the character of that number.
    pub fn finish(self) -> (text: String)
        ensures
            text@ == self.bytes().map_values(|b: u8| b as char),
    {
        let mut text = String::new();
        let mut i: usize = 0;
        assert(text@ =~= self.bytes@.take(0).map_values(|b: u8| b as char));
        while i < self.bytes.len()
            invariant
                i <= self.bytes@.len(),
                text@ == self.bytes@.take(i as int).map_values(|b: u8| b as char),
            decreases self.bytes@.len() - i,
        {
            text.push(self.bytes[i] as char);
            i = i + 1;
            assert(text@ =~= self.bytes@.take(i as int).map_values(|b: u8| b as char));
        }
        assert(self.bytes@.take(i as int) =~= self.bytes@);
        text
    }
}

/// In whatever pieces a string comes, it ends at its first zero: the pieces
/// without a zero, and the part of the last before its zero, are all of it.
pub proof fn law_string_ends_at_zero(read: Seq<u8>, chunk: Seq<u8>)
    requires
        first_zero(read) == read.len(),
    ensures
        first_zero(read + chunk) == read.len() + first_zero(chunk),
    decreases read.len(),
{
    if read.len() == 0 {
        assert(read + chunk =~= chunk);
    } else {
        assert((read + chunk).skip(1) =~= read.skip(1) + chunk);
        law_string_ends_at_zero(read.skip(1), chunk);
    }
}

} // verus!
