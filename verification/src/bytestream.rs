use vstd::prelude::*;

use crate::error::CryptoError;

verus! {

/// A byte sink: anything that accepts bytes in order.
///
/// A sink may accept a write only partially, by its own contract; it must
/// accept at least one byte of a non-empty write or fail. A failing sink
/// reports `IOError` and has accepted nothing from that call.
pub trait Sink {
    /// All bytes this sink has accepted so far, oldest first.
    spec fn sunk(&self) -> Seq<u8>;

    /// Write a prefix of `data`; report how many bytes were accepted.
    fn write_some(&mut self, data: &[u8]) -> (r: Result<usize, CryptoError>)
        ensures
            match r {
                Ok(n) => {
                    &&& n <= data@.len()
                    &&& data@.len() > 0 ==> n > 0
                    &&& final(self).sunk() == old(self).sunk() + data@.take(n as int)
                },
                Err(e) => {
                    &&& e == CryptoError::IOError
                    &&& final(self).sunk() == old(self).sunk()
                },
            },
    ;

    /// Make the accepted bytes durable; the accepted sequence is unchanged.
    fn flush(&mut self) -> (r: Result<(), CryptoError>)
        ensures
            final(self).sunk() == old(self).sunk(),
            r matches Err(e) ==> e == CryptoError::IOError,
    ;
}

/// A byte source: anything that hands out bytes in order.
///
/// Reading zero bytes signals, unambiguously and consistently, that no more
/// data will ever be available; a source with data left must hand out at
/// least one byte per read, though it may hand out fewer than asked for.
pub trait Source {
    /// The bytes this source has not yet handed out, next first.
    spec fn avail(&self) -> Seq<u8>;

    /// Read up to `max` bytes from the source.
    fn read_some(&mut self, max: usize) -> (r: Result<Vec<u8>, CryptoError>)
        ensures
            match r {
                Ok(v) => {
                    &&& v@.len() <= max
                    &&& v@.len() <= old(self).avail().len()
                    &&& v@ == old(self).avail().take(v@.len() as int)
                    &&& final(self).avail() == old(self).avail().skip(v@.len() as int)
                    &&& (v@.len() == 0 <==> (max == 0 || old(self).avail().len() == 0))
                },
                Err(e) => {
                    &&& e == CryptoError::IOError
                    &&& final(self).avail() == old(self).avail()
                },
            },
    ;
}

} // verus!
