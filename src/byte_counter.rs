//! A writer wrapper that counts the bytes written through it.
use vstd::prelude::*;

verus! {

/// Counts the bytes written to `inner`, and says when another `print_size`
/// bytes have gone through since it last did.
pub struct ByteCounter<W> {
    inner: W,
    count: usize,
    bytes_seen: usize,
    print_size: usize,
}

impl<W> ByteCounter<W> {
    /// The wrapped writer.
    pub closed spec fn inner(&self) -> W {
        self.inner
    }

    /// The bytes written so far.
    pub closed spec fn count(&self) -> nat {
        self.count as nat
    }

    /// The bytes written since the last report.
    pub closed spec fn bytes_seen(&self) -> nat {
        self.bytes_seen as nat
    }

    /// How many bytes may pass between two reports.
    pub closed spec fn print_size(&self) -> nat {
        self.print_size as nat
    }

    /// A counter around `inner` that has counted nothing yet.
    pub fn new(inner: W, print_size: usize) -> (r: Self)
        ensures
            r.inner() == inner,
            r.count() == 0,
            r.bytes_seen() == 0,
            r.print_size() == print_size,
    {
        ByteCounter { inner, count: 0, bytes_seen: 0, print_size }
    }

    /// The wrapped writer.
    pub fn into_inner(self) -> (r: W)
        ensures
            r == self.inner(),
    {
        self.inner
    }

    /// The bytes written so far.
    pub fn bytes_written(&self) -> (r: usize)
        ensures
            r == self.count(),
    {
        self.count
    }

    /// Counts `size` more bytes written; `true` where more than `print_size`
    /// bytes have now gone through since the last report, which starts the
    /// next one.
    pub fn record_write(&mut self, size: usize) -> (r: bool)
        requires
            old(self).count() + size <= usize::MAX,
            old(self).bytes_seen() + size <= usize::MAX,
        ensures
            final(self).inner() == old(self).inner(),
            final(self).print_size() == old(self).print_size(),
            final(self).count() == old(self).count() + size,
            r == (old(self).bytes_seen() + size > old(self).print_size()),
            final(self).bytes_seen() == if r {
                0
            } else {
                old(self).bytes_seen() + size
            },
    {
        self.bytes_seen = self.bytes_seen + size;
        let due = self.bytes_seen > self.print_size;
        if due {
            self.bytes_seen = 0;
        }
        self.count = self.count + size;
        due
    }
}

} // verus!
