//! Output destinations.
//!
//! [`FmtWrite`] is the capability every writer-based entry point demands of
//! its destination: one operation that appends text and reports failure as
//! a value. Two in-memory destinations implement it: [`StrBuf`], a growable
//! buffer whose writes always succeed, and [`BoundedBuf`], a buffer with a
//! fixed byte budget whose writes past the budget fail. [`WithMut`] is a
//! small convenience for handing such a destination over by `&mut`
//! whatever binding the caller holds it under.

use vstd::prelude::*;
use vstd::string::StrSliceExecFns;
use vstd::string::StringExecFns;

verus! {

/// The one error kind of the crate: the destination rejected a write. It is
/// surfaced unchanged by the writer-based entry points; whatever was
/// already written stays written.
#[derive(Clone, Copy, PartialEq, Eq, Debug)]
pub struct WriteError;

/// An append-only destination for formatted text.
///
/// `contents` is the text the destination holds so far. A write either
/// appends the whole argument and succeeds, or appends some prefix of it
/// and fails: the destination never reorders, drops or invents text.
pub trait FmtWrite {
    spec fn contents(&self) -> Seq<char>;

    fn write_str(&mut self, s: &str) -> (r: Result<(), WriteError>)
        ensures
            r is Ok ==> final(self).contents() == old(self).contents() + s@,
            r is Err ==> exists|k: int|
                0 <= k <= s@.len() && final(self).contents() == old(self).contents()
                    + s@.subrange(0, k),
    ;
}

/// A growable in-memory text buffer. Writes to it always succeed.
pub struct StrBuf {
    buf: String,
}

impl StrBuf {
    /// An empty buffer.
    pub fn new() -> (r: StrBuf)
        ensures
            r.contents() == Seq::<char>::empty(),
    {
        StrBuf { buf: String::new() }
    }

    /// The text written so far.
    pub fn as_str(&self) -> (r: &str)
        ensures
            r@ == self.contents(),
    {
        self.buf.as_str()
    }

    /// Hands the accumulated text out as an owned string.
    pub fn into_string(self) -> (r: String)
        ensures
            r@ == self.contents(),
    {
        self.buf
    }
}

impl FmtWrite for StrBuf {
    closed spec fn contents(&self) -> Seq<char> {
        self.buf@
    }

    fn write_str(&mut self, s: &str) -> (r: Result<(), WriteError>)
        ensures
            r is Ok,
    {
        self.buf.append(s);
        Ok(())
    }
}

/// An in-memory text buffer that rejects any write that would grow it past
/// a fixed budget of characters, taking nothing from the rejected write: a
/// write either fits whole or fails.
pub struct BoundedBuf {
    buf: String,
    cap: usize,
}

impl BoundedBuf {
    /// The character budget the buffer was created with.
    pub closed spec fn budget(&self) -> usize {
        self.cap
    }

    /// An empty buffer that accepts at most `cap` characters.
    pub fn new(cap: usize) -> (r: BoundedBuf)
        ensures
            r.contents() == Seq::<char>::empty(),
            r.budget() == cap,
    {
        BoundedBuf { buf: String::new(), cap }
    }

    /// The text written so far.
    pub fn as_str(&self) -> (r: &str)
        ensures
            r@ == self.contents(),
    {
        self.buf.as_str()
    }

    /// Hands the accumulated text out as an owned string.
    pub fn into_string(self) -> (r: String)
        ensures
            r@ == self.contents(),
    {
        self.buf
    }
}

impl FmtWrite for BoundedBuf {
    closed spec fn contents(&self) -> Seq<char> {
        self.buf@
    }

    fn write_str(&mut self, s: &str) -> (r: Result<(), WriteError>)
        ensures
            final(self).budget() == old(self).budget(),
            r is Ok <==> old(self).contents().len() + s@.len() <= old(self).budget(),
            r is Err ==> final(self).contents() == old(self).contents(),
    {
        let s_chars = s.unicode_len();
        if s_chars > self.cap || self.buf.as_str().unicode_len() > self.cap - s_chars {
            proof {
                assert(self.buf@ =~= self.buf@ + s@.subrange(0, 0));
            }
            Err(WriteError)
        } else {
            self.buf.append(s);
            Ok(())
        }
    }
}

/// Applies a closure to a value through a fresh `&mut` reborrow, whatever
/// the binding mode the caller holds the value under. Blanket-implemented
/// for every type: `r` is what the closure returned, and the value after
/// the call is the value the closure left behind.
pub trait WithMut: Sized {
    fn with_mut<R, F: FnOnce(&mut Self) -> R>(&mut self, f: F) -> (r: R)
        requires
            forall|m: &mut Self| *m == *old(self) ==> call_requires(f, (m,)),
        ensures
            exists|m: &mut Self|
                *m == *old(self) && *final(m) == *final(self) && call_ensures(f, (m,), r),
    ;
}

impl<T> WithMut for T {
    fn with_mut<R, F: FnOnce(&mut T) -> R>(&mut self, f: F) -> (r: R) {
        f(self)
    }
}

} // verus!
