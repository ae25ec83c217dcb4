//! The duplex message stream: the state a bidirectional framed codec keeps
//! between partial reads and partial writes of the transport.
//!
//! Outbound messages are framed into a write buffer; a front end repeatedly
//! takes the unwritten tail, writes some of it to the transport, and reports
//! how much was delivered. Inbound bytes are fed in as they arrive and come
//! back out as complete decoded frames.

use vstd::prelude::*;
use crate::error::Result;
use crate::frame::{
    FrameReader, encode_frame, frame_ok, complete_frame_len, push_byte_range, COMPRESSION_LIMIT,
};

verus! {

/// The buffered state of one framed duplex connection.
pub struct DuplexStream {
    wbuf: Vec<u8>,
    written: usize,
    reader: FrameReader,
}

impl DuplexStream {
    /// The bytes queued for the transport.
    pub closed spec fn outbuf(&self) -> Seq<u8> {
        self.wbuf@
    }

    /// How many of the queued bytes were already delivered.
    pub closed spec fn cursor(&self) -> int {
        self.written as int
    }

    /// The bytes received from the transport and not yet decoded.
    pub closed spec fn inbuf(&self) -> Seq<u8> {
        self.reader@
    }

    /// The write cursor never passes the write buffer.
    pub closed spec fn wf(&self) -> bool {
        self.written <= self.wbuf@.len()
    }

    /// A fresh stream with empty buffers.
    pub fn new() -> (r: DuplexStream)
        ensures
            r.wf(),
            r.outbuf() == Seq::<u8>::empty(),
            r.cursor() == 0,
            r.inbuf() == Seq::<u8>::empty(),
    {
        let r = DuplexStream { wbuf: Vec::new(), written: 0, reader: FrameReader::new() };
        proof {
            assert(r.outbuf() =~= Seq::<u8>::empty());
        }
        r
    }

    /// Accepts one outbound message: its frame is appended to the write
    /// buffer. Messages below the compression limit are always accepted.
    pub fn start_send(&mut self, payload: &Vec<u8>) -> (r: Result<()>)
        requires
            old(self).wf(),
        ensures
            final(self).wf(),
            final(self).inbuf() == old(self).inbuf(),
            final(self).cursor() == old(self).cursor(),
            match r {
                Ok(()) => {
                    &&& final(self).outbuf().len() > old(self).outbuf().len()
                    &&& final(self).outbuf().take(old(self).outbuf().len() as int) == old(
                        self,
                    ).outbuf()
                    &&& frame_ok(
                        final(self).outbuf().skip(old(self).outbuf().len() as int),
                        payload@,
                    )
                },
                Err(_) => final(self).outbuf() == old(self).outbuf()
                    && payload@.len() >= COMPRESSION_LIMIT as int,
            },
    {
        let f = match encode_frame(payload) {
            Ok(f) => f,
            Err(e) => {
                return Err(e);
            },
        };
        let ghost w0 = self.wbuf@;
        let n = f.len();
        push_byte_range(&mut self.wbuf, &f, 0, n);
        proof {
            assert(f@.subrange(0, n as int) =~= f@);
            assert(self.wbuf@.take(w0.len() as int) =~= w0);
            assert(self.wbuf@.skip(w0.len() as int) =~= f@);
        }
        Ok(())
    }

    /// How many queued bytes still await delivery.
    pub fn pending(&self) -> (r: usize)
        requires
            self.wf(),
        ensures
            r as int == self.outbuf().len() - self.cursor(),
    {
        self.wbuf.len() - self.written
    }

    /// A copy of the bytes that still await delivery, for the next transport
    /// write.
    pub fn unwritten(&self) -> (r: Vec<u8>)
        requires
            self.wf(),
        ensures
            r@ == self.outbuf().skip(self.cursor()),
    {
        let mut r: Vec<u8> = Vec::new();
        push_byte_range(&mut r, &self.wbuf, self.written, self.wbuf.len());
        proof {
            assert(r@ =~= self.outbuf().skip(self.cursor()));
        }
        r
    }

    /// Records that the transport accepted `n` more bytes.
    pub fn advance(&mut self, n: usize)
        requires
            old(self).wf(),
            old(self).cursor() + n <= old(self).outbuf().len(),
        ensures
            final(self).wf(),
            final(self).outbuf() == old(self).outbuf(),
            final(self).cursor() == old(self).cursor() + n,
            final(self).inbuf() == old(self).inbuf(),
    {
        proof {
            assert(self.wbuf.len() == self.wbuf@.len());
        }
        self.written = self.written + n;
    }

    /// Clears the write buffer once every byte was delivered, as a completed
    /// flush does.
    pub fn flush_done(&mut self)
        requires
            old(self).wf(),
            old(self).cursor() == old(self).outbuf().len(),
        ensures
            final(self).wf(),
            final(self).outbuf() == Seq::<u8>::empty(),
            final(self).cursor() == 0,
            final(self).inbuf() == old(self).inbuf(),
    {
        self.wbuf.clear();
        self.written = 0;
        proof {
            assert(self.outbuf() =~= Seq::<u8>::empty());
        }
    }

    /// Accepts the next bytes read from the transport.
    pub fn feed(&mut self, chunk: &Vec<u8>)
        requires
            old(self).wf(),
        ensures
            final(self).wf(),
            final(self).inbuf() == old(self).inbuf() + chunk@,
            final(self).outbuf() == old(self).outbuf(),
            final(self).cursor() == old(self).cursor(),
    {
        self.reader.feed(chunk);
    }

    /// Yields the next complete inbound message, if the bytes fed so far
    /// hold one. What comes out depends only on the concatenation of the
    /// bytes fed, never on how the transport split them.
    pub fn poll_message(&mut self) -> (r: Result<Option<Vec<u8>>>)
        requires
            old(self).wf(),
        ensures
            final(self).wf(),
            final(self).outbuf() == old(self).outbuf(),
            final(self).cursor() == old(self).cursor(),
            match complete_frame_len(old(self).inbuf()) {
                Some(n) => {
                    &&& final(self).inbuf() == old(self).inbuf().skip(n)
                    &&& match r {
                        Ok(Some(v)) => forall|p: Seq<u8>|
                            frame_ok(old(self).inbuf().take(n), p) ==> v@ == p,
                        Ok(None) => false,
                        Err(_) => forall|p: Seq<u8>| !frame_ok(old(self).inbuf().take(n), p),
                    }
                },
                None => r matches Ok(None) && final(self).inbuf() == old(self).inbuf(),
            },
    {
        self.reader.try_decode()
    }
}

} // verus!
