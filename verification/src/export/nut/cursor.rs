//! A cursor over one packet's bytes.
use super::fault::Fault;
use super::number::{read_number, s_at, v_at};
use crate::text::characters;
use vstd::prelude::*;
use vstd::slice::slice_subrange;

verus! {

/// The text that `String::from_utf8_lossy` makes of `bytes`: their UTF-8, with
/// every part that is none replaced.
pub uninterp spec fn lossy_text(bytes: Seq<u8>) -> Seq<char>;

/// The text of `bytes`, by `String::from_utf8_lossy`. It is a function of the
/// bytes, and their exact UTF-8 text where they are valid UTF-8; how it replaces
/// bytes that are not is not stated.
#[verifier::external_body]
fn utf8_lossy(bytes: &[u8]) -> (text: String)
    ensures
        text@ == lossy_text(bytes@),
        vstd::utf8::valid_utf8(bytes@) ==> text@ == vstd::utf8::decode_utf8(bytes@),
{
    String::from_utf8_lossy(bytes).into_owned()
}

/// The text of `bytes`: their UTF-8, and what is made of them where they are
/// none.
pub open spec fn text_of(bytes: Seq<u8>) -> Seq<char> {
    if vstd::utf8::valid_utf8(bytes) {
        vstd::utf8::decode_utf8(bytes)
    } else {
        lossy_text(bytes)
    }
}

/// `text` without the null characters at its end.
pub open spec fn without_nulls(text: Seq<char>) -> Seq<char>
    decreases text.len(),
{
    if text.len() > 0 && text.last() == '\0' {
        without_nulls(text.drop_last())
    } else {
        text
    }
}

/// `text` without the null characters at its end.
pub fn trim_nulls(text: &str) -> (trimmed: String)
    ensures
        trimmed@ == without_nulls(text@),
{
    let chars: Vec<char> = characters(text);
    let mut end: usize = chars.len();
    assert(text@.take(end as int) =~= text@);
    while end > 0 && chars[end - 1] == '\0'
        invariant
            end <= chars.len(),
            chars@ == text@,
            without_nulls(text@) == without_nulls(text@.take(end as int)),
        decreases end,
    {
        assert(text@.take(end as int).drop_last() =~= text@.take(end - 1));
        end = end - 1;
    }
    let kept: &str = text.substring_char(0, end);
    assert(kept@ =~= text@.take(end as int));
    kept.to_owned()
}

/// The `count` bytes at `at`, and where they end.
pub open spec fn take_at(s: Seq<u8>, at: int, count: u64) -> Result<(Seq<u8>, int), Fault> {
    if count > usize::MAX {
        Err(Fault::LengthOutOfRange)
    } else if at + count > s.len() {
        Err(Fault::FieldPastHeader)
    } else {
        Ok((s.subrange(at, at + count), at + count))
    }
}

/// A number of a header, and where it ends.
pub open spec fn field_at(s: Seq<u8>, at: int) -> Result<(u64, int), Fault> {
    v_at(s, at, Fault::HeaderEndsEarly)
}

/// A signed number of a header, and where it ends.
pub open spec fn signed_field_at(s: Seq<u8>, at: int) -> Result<(i64, int), Fault> {
    s_at(s, at, Fault::HeaderEndsEarly)
}

/// A text of a header, and where it ends: a length and as many bytes of UTF-8,
/// without null characters at the end.
pub open spec fn text_at(s: Seq<u8>, at: int) -> Result<(Seq<char>, int), Fault> {
    match field_at(s, at) {
        Ok((length, next)) => match take_at(s, next, length) {
            Ok((bytes, end)) => Ok((without_nulls(text_of(bytes)), end)),
            Err(fault) => Err(fault),
        },
        Err(fault) => Err(fault),
    }
}

/// A cursor over one packet's bytes.
#[derive(Debug)]
pub struct Bytes<'a> {
    pub data: &'a [u8],
    pub at: usize,
}

impl<'a> Bytes<'a> {
    /// The cursor is not past the end.
    pub open spec fn wf(&self) -> bool {
        self.at <= self.data@.len()
    }

    pub fn new(data: &'a [u8]) -> (bytes: Bytes<'a>)
        ensures
            bytes.wf(),
            bytes.data@ == data@,
            bytes.at == 0,
    {
        Bytes { data, at: 0 }
    }

    /// The next `count` bytes.
    pub fn take(&mut self, count: u64) -> (slice: Result<&'a [u8], Fault>)
        requires
            old(self).wf(),
        ensures
            final(self).wf(),
            final(self).data == old(self).data,
            match (slice, take_at(old(self).data@, old(self).at as int, count)) {
                (Ok(slice), Ok((bytes, end))) => slice@ == bytes && final(self).at == end,
                (Err(a), Err(b)) => a == b,
                _ => false,
            },
    {
        if count > usize::MAX as u64 {
            return Err(Fault::LengthOutOfRange);
        }
        let count: usize = count as usize;
        if count > self.data.len() - self.at {
            return Err(Fault::FieldPastHeader);
        }
        let end: usize = self.at + count;
        let slice: &'a [u8] = slice_subrange(self.data, self.at, end);
        self.at = end;
        Ok(slice)
    }

    /// The next number.
    pub fn v(&mut self) -> (value: Result<u64, Fault>)
        requires
            old(self).wf(),
        ensures
            final(self).wf(),
            final(self).data == old(self).data,
            match (value, field_at(old(self).data@, old(self).at as int)) {
                (Ok(value), Ok((there, end))) => value == there && final(self).at == end && end
                    > old(self).at,
                (Err(a), Err(b)) => a == b,
                _ => false,
            },
    {
        let (value, next) = read_number(self.data, self.at, Fault::HeaderEndsEarly)?;
        self.at = next;
        Ok(value)
    }

    /// The next signed number.
    pub fn s(&mut self) -> (value: Result<i64, Fault>)
        requires
            old(self).wf(),
        ensures
            final(self).wf(),
            final(self).data == old(self).data,
            match (value, signed_field_at(old(self).data@, old(self).at as int)) {
                (Ok(value), Ok((there, end))) => value == there && final(self).at == end,
                (Err(a), Err(b)) => a == b,
                _ => false,
            },
    {
        let v: u64 = self.v()?;
        let w: u64 = if v == u64::MAX {
            0
        } else {
            v + 1
        };
        assert(w == (v + 1) % super::number::two64()) by {
            if v < u64::MAX {
                vstd::arithmetic::div_mod::lemma_small_mod(
                    (v + 1) as nat,
                    super::number::two64() as nat,
                );
            }
        }
        let magnitude: i64 = (w / 2) as i64;
        if w % 2 == 1 {
            Ok(-magnitude)
        } else {
            Ok(magnitude)
        }
    }

    /// The next text.
    pub fn string(&mut self) -> (text: Result<String, Fault>)
        requires
            old(self).wf(),
        ensures
            final(self).wf(),
            final(self).data == old(self).data,
            match (text, text_at(old(self).data@, old(self).at as int)) {
                (Ok(text), Ok((there, end))) => text@ == there && final(self).at == end,
                (Err(a), Err(b)) => a == b,
                _ => false,
            },
    {
        let length: u64 = self.v()?;
        let bytes: &'a [u8] = self.take(length)?;
        let text: String = utf8_lossy(bytes);
        Ok(trim_nulls(text.as_str()))
    }

    /// How many bytes are left.
    pub fn remaining(&self) -> (count: usize)
        requires
            self.wf(),
        ensures
            count == self.data@.len() - self.at,
    {
        self.data.len() - self.at
    }
}

} // verus!
