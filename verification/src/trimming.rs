//! A read and the part of it that is still kept.
//!
//! Trimming never copies: a [`Trimming`] borrows the name, the sequence and
//! the qualities of a read and moves two offsets.

use vstd::prelude::*;
use vstd::slice::slice_subrange;

verus! {

/// What a [`Trimming`] stands for: the read, and the window `start..start +
/// len` of it that is kept.
pub struct Window {
    pub name: Seq<u8>,
    pub seq: Seq<u8>,
    pub qual: Option<Seq<u8>>,
    pub start: nat,
    pub len: nat,
}

impl Window {
    /// Whether the window lies within the sequence.
    pub open spec fn wf(self) -> bool {
        self.start + self.len <= self.seq.len()
    }

    /// Whether the window lies within the qualities, where there are any.
    pub open spec fn qual_covers(self) -> bool {
        self.qual matches Some(qual) ==> self.start + self.len <= qual.len()
    }

    /// The first position after the window.
    pub open spec fn end(self) -> nat {
        self.start + self.len
    }

    /// The kept part of the sequence.
    pub open spec fn seq_curr(self) -> Seq<u8> {
        self.seq.subrange(self.start as int, self.end() as int)
    }

    /// The kept part of the qualities.
    pub open spec fn qual_curr(self) -> Option<Seq<u8>> {
        match self.qual {
            Some(qual) => Some(qual.subrange(self.start as int, self.end() as int)),
            None => None,
        }
    }

    /// The number of positions that a request to trim `len` removes: no more
    /// than are left.
    pub open spec fn taken(self, len: nat) -> nat {
        if len <= self.len {
            len
        } else {
            self.len
        }
    }

    /// The window with up to `len` positions removed at its start.
    pub open spec fn trimmed_from_start(self, len: nat) -> Window {
        Window {
            start: self.start + self.taken(len),
            len: (self.len - self.taken(len)) as nat,
            ..self
        }
    }

    /// The window with up to `len` positions removed at its end.
    pub open spec fn trimmed_from_end(self, len: nat) -> Window {
        Window { len: (self.len - self.taken(len)) as nat, ..self }
    }
}

/// A read that is being trimmed.
#[derive(Debug)]
pub struct Trimming<'a> {
    name: &'a [u8],
    seq: &'a [u8],
    qual: Option<&'a [u8]>,
    trim_start: usize,
    trim_len: usize,
}

impl<'a> View for Trimming<'a> {
    type V = Window;

    closed spec fn view(&self) -> Window {
        Window {
            name: self.name@,
            seq: self.seq@,
            qual: match self.qual {
                Some(qual) => Some(qual@),
                None => None,
            },
            start: self.trim_start as nat,
            len: self.trim_len as nat,
        }
    }
}

impl<'a> Clone for Trimming<'a> {
    fn clone(&self) -> (copy: Self)
        ensures
            copy@ == self@,
    {
        proof {
            use_type_invariant(self);
        }
        Trimming {
            name: self.name,
            seq: self.seq,
            qual: self.qual,
            trim_start: self.trim_start,
            trim_len: self.trim_len,
        }
    }
}

impl<'a> Trimming<'a> {
    #[verifier::type_invariant]
    spec fn within_read(&self) -> bool {
        self.trim_start + self.trim_len <= self.seq@.len()
    }

    /// A read of which nothing is trimmed yet.
    pub fn new(name: &'a [u8], seq: &'a [u8], qual: Option<&'a [u8]>) -> (read: Self)
        ensures
            read@.wf(),
            read@ == (Window {
                name: name@,
                seq: seq@,
                qual: match qual {
                    Some(q) => Some(q@),
                    None => None,
                },
                start: 0,
                len: seq@.len(),
            }),
    {
        Trimming { name, seq, qual, trim_start: 0, trim_len: seq.len() }
    }

    /// The first position after what is kept.
    fn trim_end(&self) -> (end: usize)
        ensures
            end == self@.end(),
            self@.wf(),
    {
        proof {
            use_type_invariant(self);
        }
        let total = self.seq.len();
        assert(self.trim_start + self.trim_len <= total);
        self.trim_start + self.trim_len
    }

    /// The part of the sequence that is kept.
    pub fn seq_curr(&self) -> (kept: &'a [u8])
        ensures
            self@.wf(),
            kept@ == self@.seq_curr(),
    {
        let end = self.trim_end();
        slice_subrange(self.seq, self.trim_start, end)
    }

    /// The part of the qualities that is kept, where the read has
    /// qualities.
    pub fn qual_curr(&self) -> (kept: Option<&'a [u8]>)
        requires
            self@.qual_covers(),
        ensures
            self@.wf(),
            match kept {
                Some(qual) => self@.qual_curr() == Some(qual@),
                None => self@.qual_curr() is None,
            },
    {
        let end = self.trim_end();
        match self.qual {
            Some(qual) => Some(slice_subrange(qual, self.trim_start, end)),
            None => None,
        }
    }

    /// The number of positions that are kept.
    pub fn len_curr(&self) -> (len: usize)
        ensures
            self@.wf(),
            len == self@.len,
    {
        proof {
            use_type_invariant(self);
        }
        self.trim_len
    }

    /// The whole sequence.
    pub fn seq_raw(&self) -> (seq: &'a [u8])
        ensures
            seq@ == self@.seq,
    {
        self.seq
    }

    /// All qualities.
    pub fn qual_raw(&self) -> (qual: Option<&'a [u8]>)
        ensures
            match qual {
                Some(q) => self@.qual == Some(q@),
                None => self@.qual is None,
            },
    {
        self.qual
    }

    /// The name of the read.
    pub fn name_raw(&self) -> (name: &'a [u8])
        ensures
            name@ == self@.name,
    {
        self.name
    }

    /// Removes `len` positions from the start of what is kept, or all that
    /// is kept where that is less, and returns how many were removed.
    pub fn trim_from_start(&mut self, len: usize) -> (removed: usize)
        ensures
            removed == old(self)@.taken(len as nat),
            final(self)@ == old(self)@.trimmed_from_start(len as nat),
            final(self)@.wf(),
    {
        proof {
            use_type_invariant(&*self);
        }
        let reallen = if len <= self.trim_len {
            len
        } else {
            self.trim_len
        };
        let total = self.seq.len();
        assert(self.trim_start + self.trim_len <= total);
        self.trim_len -= reallen;
        self.trim_start += reallen;
        reallen
    }

    /// Removes `len` positions from the end of what is kept, or all that is
    /// kept where that is less, and returns how many were removed.
    pub fn trim_from_end(&mut self, len: usize) -> (removed: usize)
        ensures
            removed == old(self)@.taken(len as nat),
            final(self)@ == old(self)@.trimmed_from_end(len as nat),
            final(self)@.wf(),
    {
        proof {
            use_type_invariant(&*self);
        }
        let reallen = if len <= self.trim_len {
            len
        } else {
            self.trim_len
        };
        self.trim_len -= reallen;
        reallen
    }
}

} // verus!
