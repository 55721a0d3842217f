//! Readers and writers over bytes held in memory.

use vstd::prelude::*;
use vstd::slice::slice_subrange;

verus! {

/// Bytes that `copy` moves at a time.
pub const DEFAULT_BUF_SIZE: usize = 65536;

/// Why an operation on a reader or writer failed.
#[derive(Debug, Clone, Copy, PartialEq, Eq, Structural)]
pub enum ErrorKind {
    /// The operation was interrupted and can be tried again.
    Interrupted,
    /// The reader ended before the buffer was full.
    UnexpectedEof,
    /// The writer took none of the bytes that were left.
    WriteZero,
    /// Another reason.
    Other,
}

/// A failed operation on a reader or writer.
#[derive(Debug, Clone, Copy, PartialEq, Eq)]
pub struct IoError {
    pub kind: ErrorKind,
    pub message: &'static str,
}

impl IoError {
    /// An error of the given kind.
    pub fn new(kind: ErrorKind, message: &'static str) -> (r: IoError)
        ensures
            r.kind == kind,
            r.message == message,
    {
        IoError { kind, message }
    }

    /// The error's kind.
    pub fn kind(&self) -> (r: ErrorKind)
        ensures
            r == self.kind,
    {
        self.kind
    }
}

/// The smaller of a length and what a source has left or a sink has room
/// for; an endless one never limits the length.
pub open spec fn limited(len: int, bound: Option<nat>) -> int {
    match bound {
        Some(b) => if b < len {
            b as int
        } else {
            len
        },
        None => len,
    }
}

/// What is left of a bound when `n` of it are used up.
pub open spec fn less(bound: Option<nat>, n: int) -> Option<nat> {
    match bound {
        Some(b) => Some((b - n) as nat),
        None => None,
    }
}

/// A source of bytes held in memory. Reading from it never fails.
pub trait Read: Sized {
    /// Number of bytes that are still to come; none where the source has no
    /// end.
    spec fn left(&self) -> Option<nat>;

    /// The `i`-th of the bytes that are still to come.
    spec fn upcoming(&self, i: int) -> u8;

    /// Fills the front of `buf` with the next bytes, as many as the source
    /// has and the buffer holds, and says how many they are.
    fn read(&mut self, buf: &mut [u8]) -> (r: Result<usize, IoError>)
        ensures
            r matches Ok(n) && {
                &&& n == limited(old(buf)@.len() as int, (*old(self)).left())
                &&& final(buf)@.len() == old(buf)@.len()
                &&& forall|i: int| 0 <= i < n ==> final(buf)@[i] == (*old(self)).upcoming(i)
                &&& forall|i: int| n <= i < old(buf)@.len() ==> final(buf)@[i] == old(buf)@[i]
                &&& (*final(self)).left() == less((*old(self)).left(), n as int)
                &&& forall|i: int| 0 <= i ==> (*final(self)).upcoming(i) == (*old(self)).upcoming(i + n)
            },
    ;

    /// Fills all of `buf` with the next bytes; where the source has fewer
    /// left, the result is an error of the kind `UnexpectedEof`.
    fn read_exact(&mut self, buf: &mut [u8]) -> (r: Result<(), IoError>)
        ensures
            final(buf)@.len() == old(buf)@.len(),
            match r {
                Ok(()) => {
                    &&& limited(old(buf)@.len() as int, (*old(self)).left()) == old(buf)@.len()
                    &&& forall|i: int|
                        0 <= i < old(buf)@.len() ==> final(buf)@[i] == (*old(self)).upcoming(i)
                    &&& (*final(self)).left() == less((*old(self)).left(), old(buf)@.len() as int)
                    &&& forall|i: int|
                        0 <= i ==> (*final(self)).upcoming(i) == (*old(self)).upcoming(
                            i + old(buf)@.len(),
                        )
                },
                Err(e) => e.kind == ErrorKind::UnexpectedEof && limited(
                    old(buf)@.len() as int,
                    (*old(self)).left(),
                ) < old(buf)@.len(),
            },
    ;
}

/// A sink for bytes held in memory.
pub trait Write: Sized {
    /// Number of bytes that the sink still takes; none where it takes any
    /// number.
    spec fn room(&self) -> Option<nat>;

    /// The sink is what `before` becomes when it takes `data`.
    spec fn holds(&self, before: &Self, data: Seq<u8>) -> bool;

    /// A sink is what it becomes when it takes nothing.
    proof fn lemma_holds_nothing(&self)
        ensures
            self.holds(self, Seq::empty()),
    ;

    /// A sink that has taken some bytes and then more has taken both.
    proof fn lemma_holds_more(&self, first: &Self, then: &Self, a: Seq<u8>, b: Seq<u8>)
        requires
            then.holds(first, a),
            self.holds(then, b),
        ensures
            self.holds(first, a + b),
    ;

    /// Hands the front of `buf` to the sink, as many bytes as it takes, and
    /// says how many they are.
    fn write(&mut self, buf: &[u8]) -> (r: Result<usize, IoError>)
        ensures
            r matches Ok(n) && {
                &&& n == limited(buf@.len() as int, (*old(self)).room())
                &&& (*final(self)).holds(old(self), buf@.take(n as int))
                &&& (*final(self)).room() == less((*old(self)).room(), n as int)
            },
    ;

    /// Hands all of `buf` to the sink; where the sink has not room for all of
    /// it, it takes what it has room for and the result is an error of the
    /// kind `WriteZero`.
    fn write_all(&mut self, buf: &[u8]) -> (r: Result<(), IoError>)
        ensures
            (*final(self)).holds(
                &*old(self),
                buf@.take(limited(buf@.len() as int, (*old(self)).room())),
            ),
            (*final(self)).room() == less(
                (*old(self)).room(),
                limited(buf@.len() as int, (*old(self)).room()),
            ),
            match r {
                Ok(()) => limited(buf@.len() as int, (*old(self)).room()) == buf@.len(),
                Err(e) => e.kind == ErrorKind::WriteZero && limited(
                    buf@.len() as int,
                    (*old(self)).room(),
                ) < buf@.len(),
            },
    ;

    /// Does nothing: a sink in memory holds back no bytes.
    fn flush(&mut self) -> (r: Result<(), IoError>)
        ensures
            r is Ok,
            (*final(self)).holds(&*old(self), Seq::empty()),
            (*final(self)).room() == (*old(self)).room(),
    ;
}

/// A reader which is always at its end.
pub struct Empty {
    _priv: (),
}

/// A reader which yields one byte over and over.
pub struct Repeat {
    byte: u8,
}

/// A writer which takes every byte and keeps none.
pub struct Sink {
    _priv: (),
}

/// A reader from which every read yields no byte.
pub fn empty() -> (r: Empty)
    ensures
        r.left() == Some(0nat),
{
    Empty { _priv: () }
}

/// A reader that repeats `byte` without end.
pub fn repeat(byte: u8) -> (r: Repeat)
    ensures
        r.left() is None,
        forall|i: int| r.upcoming(i) == byte,
{
    Repeat { byte }
}

/// A writer that takes every byte.
pub fn sink() -> (r: Sink)
    ensures
        r.room() is None,
{
    Sink { _priv: () }
}

impl Read for Empty {
    open spec fn left(&self) -> Option<nat> {
        Some(0nat)
    }

    open spec fn upcoming(&self, i: int) -> u8 {
        0
    }

    fn read(&mut self, buf: &mut [u8]) -> (r: Result<usize, IoError>) {
        Ok(0)
    }

    fn read_exact(&mut self, buf: &mut [u8]) -> (r: Result<(), IoError>) {
        if buf.len() == 0 {
            Ok(())
        } else {
            Err(IoError::new(ErrorKind::UnexpectedEof, "failed to fill whole buffer"))
        }
    }
}

impl Read for Repeat {
    open spec fn left(&self) -> Option<nat> {
        None
    }

    closed spec fn upcoming(&self, i: int) -> u8 {
        self.byte
    }

    fn read(&mut self, buf: &mut [u8]) -> (r: Result<usize, IoError>) {
        let n = buf.len();
        let mut i: usize = 0;
        while i < n
            invariant
                i <= n,
                buf@.len() == n,
                *self == *old(self),
                forall|j: int| 0 <= j < i ==> buf@[j] == self.byte,
            decreases n - i,
        {
            buf[i] = self.byte;
            i += 1;
        }
        Ok(n)
    }

    fn read_exact(&mut self, buf: &mut [u8]) -> (r: Result<(), IoError>) {
        let _filled = self.read(buf).unwrap();
        Ok(())
    }
}

impl Write for Sink {
    open spec fn room(&self) -> Option<nat> {
        None
    }

    open spec fn holds(&self, before: &Self, data: Seq<u8>) -> bool {
        true
    }

    proof fn lemma_holds_nothing(&self) {
    }

    proof fn lemma_holds_more(&self, first: &Self, then: &Self, a: Seq<u8>, b: Seq<u8>) {
    }

    fn write(&mut self, buf: &[u8]) -> (r: Result<usize, IoError>) {
        Ok(buf.len())
    }

    fn write_all(&mut self, buf: &[u8]) -> (r: Result<(), IoError>) {
        Ok(())
    }

    fn flush(&mut self) -> (r: Result<(), IoError>) {
        Ok(())
    }
}

impl<'a> Read for &'a [u8] {
    open spec fn left(&self) -> Option<nat> {
        Some(self@.len())
    }

    open spec fn upcoming(&self, i: int) -> u8 {
        if 0 <= i < self@.len() {
            self@[i]
        } else {
            0
        }
    }

    fn read(&mut self, buf: &mut [u8]) -> (r: Result<usize, IoError>) {
        let have = self.len();
        let amt = if buf.len() < have {
            buf.len()
        } else {
            have
        };
        let mut i: usize = 0;
        while i < amt
            invariant
                i <= amt,
                amt <= buf@.len(),
                amt <= self@.len(),
                *self == *old(self),
                buf@.len() == old(buf)@.len(),
                forall|j: int| 0 <= j < i ==> buf@[j] == self@[j],
                forall|j: int| i <= j < buf@.len() ==> buf@[j] == old(buf)@[j],
            decreases amt - i,
        {
            buf[i] = self[i];
            i += 1;
        }
        *self = slice_subrange(*self, amt, have);
        Ok(amt)
    }

    fn read_exact(&mut self, buf: &mut [u8]) -> (r: Result<(), IoError>)
        ensures
            r is Err ==> *final(self) == *old(self) && final(buf)@ == old(buf)@,
    {
        if buf.len() > self.len() {
            return Err(IoError::new(ErrorKind::UnexpectedEof, "failed to fill whole buffer"));
        }
        let _filled = self.read(buf).unwrap();
        Ok(())
    }
}

/// Puts the bytes of `buf` behind those that `out` holds.
pub fn append_bytes(out: &mut Vec<u8>, buf: &[u8])
    ensures
        final(out)@ == old(out)@ + buf@,
{
    let ghost before = out@;
    out.extend_from_slice(buf);
    proof {
        assert forall|i: int| before.len() <= i < out@.len() implies out@[i] == buf@[i
            - before.len()] by {
            assert(vstd::pervasive::cloned::<u8>(buf@[i - before.len()], out@[i]));
        }
        assert(out@ =~= before + buf@);
    }
}

impl Write for Vec<u8> {
    open spec fn room(&self) -> Option<nat> {
        None
    }

    open spec fn holds(&self, before: &Self, data: Seq<u8>) -> bool {
        self@ == before@ + data
    }

    proof fn lemma_holds_nothing(&self) {
        assert(self@ =~= self@ + Seq::<u8>::empty());
    }

    proof fn lemma_holds_more(&self, first: &Self, then: &Self, a: Seq<u8>, b: Seq<u8>) {
        assert(self@ =~= first@ + (a + b));
    }

    fn write(&mut self, buf: &[u8]) -> (r: Result<usize, IoError>) {
        append_bytes(self, buf);
        proof {
            assert(buf@.take(buf@.len() as int) =~= buf@);
        }
        Ok(buf.len())
    }

    fn write_all(&mut self, buf: &[u8]) -> (r: Result<(), IoError>) {
        append_bytes(self, buf);
        proof {
            assert(buf@.take(buf@.len() as int) =~= buf@);
        }
        Ok(())
    }

    fn flush(&mut self) -> (r: Result<(), IoError>) {
        proof {
            assert(self@ =~= self@ + Seq::<u8>::empty());
        }
        Ok(())
    }
}

impl<'a> Write for &'a mut [u8] {
    open spec fn room(&self) -> Option<nat> {
        Some(self@.len())
    }

    open spec fn holds(&self, before: &Self, data: Seq<u8>) -> bool {
        data.len() <= before@.len() && self@ == before@.skip(data.len() as int)
    }

    proof fn lemma_holds_nothing(&self) {
        assert(self@ =~= self@.skip(0));
    }

    proof fn lemma_holds_more(&self, first: &Self, then: &Self, a: Seq<u8>, b: Seq<u8>) {
        assert(self@ =~= first@.skip((a + b).len() as int));
    }

    fn write(&mut self, data: &[u8]) -> (r: Result<usize, IoError>)
        ensures
            r matches Ok(n) && final(*old(self))@ == data@.take(n as int) + final(*final(self))@,
    {
        let amt = if data.len() < self.len() {
            data.len()
        } else {
            self.len()
        };
        let mut whole: &mut [u8] = &mut [];
        core::mem::swap(self, &mut whole);
        let (a, b) = whole.split_at_mut(amt);
        let mut i: usize = 0;
        while i < amt
            invariant
                i <= amt,
                amt <= data@.len(),
                a@.len() == amt,
                forall|j: int| 0 <= j < i ==> a@[j] == data@[j],
            decreases amt - i,
        {
            a[i] = data[i];
            i += 1;
        }
        *self = b;
        Ok(amt)
    }

    fn write_all(&mut self, data: &[u8]) -> (r: Result<(), IoError>) {
        let n = self.write(data).unwrap();
        if n == data.len() {
            proof {
                assert(data@.take(n as int) =~= data@);
            }
            Ok(())
        } else {
            Err(IoError::new(ErrorKind::WriteZero, "failed to write whole buffer"))
        }
    }

    fn flush(&mut self) -> (r: Result<(), IoError>) {
        proof {
            assert(self@ =~= self@.skip(0));
        }
        Ok(())
    }
}

/// A reader that yields at most a given number of the bytes of another.
pub struct Take<R> {
    inner: R,
    limit: u64,
}

impl<R: Read> Take<R> {
    /// A reader of the first `limit` bytes of `inner`.
    pub fn new(inner: R, limit: u64) -> (r: Self)
        ensures
            r.get_ref() == inner,
            r.limit() == limit,
    {
        Take { inner, limit }
    }

    /// The reader that the bytes come from.
    pub closed spec fn get_ref(&self) -> R {
        self.inner
    }

    /// Number of bytes that may still be read.
    pub closed spec fn limit(&self) -> u64 {
        self.limit
    }

    /// The reader that the bytes came from.
    pub fn into_inner(self) -> (r: R)
        ensures
            r == self.get_ref(),
    {
        self.inner
    }
}

impl<R: Read> Read for Take<R> {
    open spec fn left(&self) -> Option<nat> {
        Some(limited(self.limit() as int, self.get_ref().left()) as nat)
    }

    open spec fn upcoming(&self, i: int) -> u8 {
        self.get_ref().upcoming(i)
    }

    fn read(&mut self, buf: &mut [u8]) -> (r: Result<usize, IoError>)
        ensures
            r matches Ok(n) && final(self).limit() == old(self).limit() - n,
    {
        if self.limit == 0 {
            return Ok(0);
        }
        let max: usize = if (buf.len() as u64) < self.limit {
            buf.len()
        } else {
            self.limit as usize
        };
        let (head, tail) = buf.split_at_mut(max);
        let n = self.inner.read(head).unwrap();
        self.limit = self.limit - n as u64;
        Ok(n)
    }

    fn read_exact(&mut self, buf: &mut [u8]) -> (r: Result<(), IoError>) {
        if (buf.len() as u64) > self.limit {
            return Err(IoError::new(ErrorKind::UnexpectedEof, "failed to fill whole buffer"));
        }
        match self.inner.read_exact(buf) {
            Ok(()) => {
                self.limit = self.limit - buf.len() as u64;
                Ok(())
            },
            Err(e) => Err(e),
        }
    }
}

/// The next `n` bytes of a reader.
pub open spec fn coming<R: Read>(reader: R, n: nat) -> Seq<u8> {
    Seq::new(n, |i: int| reader.upcoming(i))
}

/// Moves all bytes of a reader into a writer and says how many they were.
///
/// Where the writer has not room for all of them, the result is an error of
/// the kind `WriteZero`.
pub fn copy<R: Read, W: Write>(reader: &mut R, writer: &mut W) -> (r: Result<u64, IoError>)
    requires
        (*old(reader)).left() matches Some(n) && n <= u64::MAX,
    ensures
        match r {
            Ok(n) => {
                &&& (*old(reader)).left() == Some(n as nat)
                &&& limited(n as int, (*old(writer)).room()) == n
                &&& (*final(reader)).left() == Some(0nat)
                &&& (*final(writer)).holds(&*old(writer), coming(*old(reader), n as nat))
                &&& (*final(writer)).room() == less((*old(writer)).room(), n as int)
            },
            Err(e) => {
                &&& e.kind == ErrorKind::WriteZero
                &&& (*old(writer)).room() matches Some(room) && room < (*old(reader)).left().unwrap()
                    && (*final(writer)).room() == Some(0nat) && (*final(writer)).holds(
                    &*old(writer),
                    coming(*old(reader), room),
                )
            },
        },
{
    let mut buf: Vec<u8> = vec![0u8; DEFAULT_BUF_SIZE];
    let mut written: u64 = 0;
    let ghost total = (*reader).left().unwrap();
    proof {
        (*writer).lemma_holds_nothing();
        assert(coming(*reader, 0) =~= Seq::<u8>::empty());
    }
    loop
        invariant
            buf@.len() == DEFAULT_BUF_SIZE,
            (*old(reader)).left() == Some(total),
            total <= u64::MAX,
            written <= total,
            (*reader).left() == Some((total - written) as nat),
            forall|i: int| 0 <= i ==> (*reader).upcoming(i) == (*old(reader)).upcoming(i + written),
            limited(written as int, (*old(writer)).room()) == written,
            (*writer).room() == less((*old(writer)).room(), written as int),
            (*writer).holds(&*old(writer), coming(*old(reader), written as nat)),
        decreases total - written,
    {
        let ghost before = *writer;
        let len = reader.read(buf.as_mut_slice()).unwrap();
        if len == 0 {
            return Ok(written);
        }
        let chunk = slice_subrange(buf.as_slice(), 0, len);
        match writer.write_all(chunk) {
            Ok(()) => {},
            Err(e) => {
                proof {
                    let room = (*old(writer)).room().unwrap();
                    let fit = (room - written) as int;
                    assert(coming(*old(reader), room) =~= coming(*old(reader), written as nat)
                        + chunk@.take(fit));
                    (*writer).lemma_holds_more(
                        &*old(writer),
                        &before,
                        coming(*old(reader), written as nat),
                        chunk@.take(fit),
                    );
                }
                return Err(e);
            },
        }
        proof {
            assert(chunk@.take(len as int) =~= chunk@);
            assert(coming(*old(reader), (written + len) as nat) =~= coming(
                *old(reader),
                written as nat,
            ) + chunk@);
            (*writer).lemma_holds_more(&*old(writer), &before, coming(*old(reader), written as nat), chunk@);
        }
        written += len as u64;
    }
}

impl<'a, R: Read> Read for &'a mut R {
    open spec fn left(&self) -> Option<nat> {
        (**self).left()
    }

    open spec fn upcoming(&self, i: int) -> u8 {
        (**self).upcoming(i)
    }

    fn read(&mut self, buf: &mut [u8]) -> (r: Result<usize, IoError>) {
        (**self).read(buf)
    }

    fn read_exact(&mut self, buf: &mut [u8]) -> (r: Result<(), IoError>) {
        (**self).read_exact(buf)
    }
}

impl<R: Read> Read for Box<R> {
    open spec fn left(&self) -> Option<nat> {
        (**self).left()
    }

    open spec fn upcoming(&self, i: int) -> u8 {
        (**self).upcoming(i)
    }

    fn read(&mut self, buf: &mut [u8]) -> (r: Result<usize, IoError>) {
        (**self).read(buf)
    }

    fn read_exact(&mut self, buf: &mut [u8]) -> (r: Result<(), IoError>) {
        (**self).read_exact(buf)
    }
}

impl<'a, W: Write> Write for &'a mut W {
    open spec fn room(&self) -> Option<nat> {
        (**self).room()
    }

    open spec fn holds(&self, before: &Self, data: Seq<u8>) -> bool {
        (**self).holds(&**before, data)
    }

    proof fn lemma_holds_nothing(&self) {
        (**self).lemma_holds_nothing();
    }

    proof fn lemma_holds_more(&self, first: &Self, then: &Self, a: Seq<u8>, b: Seq<u8>) {
        (**self).lemma_holds_more(&**first, &**then, a, b);
    }

    fn write(&mut self, buf: &[u8]) -> (r: Result<usize, IoError>) {
        (**self).write(buf)
    }

    fn write_all(&mut self, buf: &[u8]) -> (r: Result<(), IoError>) {
        (**self).write_all(buf)
    }

    fn flush(&mut self) -> (r: Result<(), IoError>) {
        (**self).flush()
    }
}

impl<W: Write> Write for Box<W> {
    open spec fn room(&self) -> Option<nat> {
        (**self).room()
    }

    open spec fn holds(&self, before: &Self, data: Seq<u8>) -> bool {
        (**self).holds(&**before, data)
    }

    proof fn lemma_holds_nothing(&self) {
        (**self).lemma_holds_nothing();
    }

    proof fn lemma_holds_more(&self, first: &Self, then: &Self, a: Seq<u8>, b: Seq<u8>) {
        (**self).lemma_holds_more(&**first, &**then, a, b);
    }

    fn write(&mut self, buf: &[u8]) -> (r: Result<usize, IoError>) {
        (**self).write(buf)
    }

    fn write_all(&mut self, buf: &[u8]) -> (r: Result<(), IoError>) {
        (**self).write_all(buf)
    }

    fn flush(&mut self) -> (r: Result<(), IoError>) {
        (**self).flush()
    }
}

/// A source of bytes that can show the bytes to come before they are taken.
pub trait BufRead: Read {
    /// Shows bytes that are still to come, without taking them: none only
    /// where the source is at its end.
    fn fill_buf(&mut self) -> (r: Result<&[u8], IoError>)
        ensures
            r matches Ok(shown) && {
                &&& limited(shown@.len() as int, (*old(self)).left()) == shown@.len()
                &&& shown@.len() == 0 ==> (*old(self)).left() == Some(0nat)
                &&& forall|i: int| 0 <= i < shown@.len() ==> shown@[i] == (*old(self)).upcoming(i)
                &&& (*final(self)).left() == (*old(self)).left()
                &&& forall|i: int| 0 <= i ==> (*final(self)).upcoming(i) == (*old(self)).upcoming(i)
            },
    ;

    /// Takes the next `amt` bytes without handing them out.
    fn consume(&mut self, amt: usize)
        requires
            limited(amt as int, (*old(self)).left()) == amt,
        ensures
            (*final(self)).left() == less((*old(self)).left(), amt as int),
            forall|i: int| 0 <= i ==> (*final(self)).upcoming(i) == (*old(self)).upcoming(i + amt),
    ;
}

impl BufRead for Empty {
    fn fill_buf(&mut self) -> (r: Result<&[u8], IoError>) {
        Ok(&[])
    }

    fn consume(&mut self, amt: usize) {
    }
}

impl<'a> BufRead for &'a [u8] {
    fn fill_buf(&mut self) -> (r: Result<&[u8], IoError>) {
        Ok(*self)
    }

    fn consume(&mut self, amt: usize) {
        *self = slice_subrange(*self, amt, self.len());
    }
}

impl<'a, B: BufRead> BufRead for &'a mut B {
    fn fill_buf(&mut self) -> (r: Result<&[u8], IoError>) {
        (**self).fill_buf()
    }

    fn consume(&mut self, amt: usize) {
        (**self).consume(amt)
    }
}

impl<B: BufRead> BufRead for Box<B> {
    fn fill_buf(&mut self) -> (r: Result<&[u8], IoError>) {
        (**self).fill_buf()
    }

    fn consume(&mut self, amt: usize) {
        (**self).consume(amt)
    }
}

/// A reader that yields the bytes of one reader and then those of another.
pub struct Chain<A, B> {
    first: A,
    second: B,
}

impl<A: Read, B: Read> Chain<A, B> {
    /// A reader of the bytes of `first` followed by those of `second`.
    pub fn new(first: A, second: B) -> (r: Self)
        ensures
            r.first() == first,
            r.second() == second,
    {
        Chain { first, second }
    }

    /// The reader whose bytes come first.
    pub closed spec fn first(&self) -> A {
        self.first
    }

    /// The reader whose bytes come second.
    pub closed spec fn second(&self) -> B {
        self.second
    }

    /// The two readers.
    pub fn into_inner(self) -> (r: (A, B))
        ensures
            r.0 == self.first(),
            r.1 == self.second(),
    {
        (self.first, self.second)
    }
}

impl<A: Read, B: Read> Read for Chain<A, B> {
    open spec fn left(&self) -> Option<nat> {
        match (self.first().left(), self.second().left()) {
            (Some(a), Some(b)) => Some(a + b),
            _ => None,
        }
    }

    open spec fn upcoming(&self, i: int) -> u8 {
        match self.first().left() {
            Some(a) => if i < a {
                self.first().upcoming(i)
            } else {
                self.second().upcoming(i - a)
            },
            None => self.first().upcoming(i),
        }
    }

    fn read(&mut self, buf: &mut [u8]) -> (r: Result<usize, IoError>) {
        let len = buf.len();
        let n = self.first.read(buf).unwrap();
        if n == len {
            return Ok(n);
        }
        let (head, tail) = buf.split_at_mut(n);
        let m = self.second.read(tail).unwrap();
        Ok(n + m)
    }

    fn read_exact(&mut self, buf: &mut [u8]) -> (r: Result<(), IoError>) {
        let len = buf.len();
        let n = self.read(buf).unwrap();
        if n == len {
            Ok(())
        } else {
            Err(IoError::new(ErrorKind::UnexpectedEof, "failed to fill whole buffer"))
        }
    }
}

} // verus!
