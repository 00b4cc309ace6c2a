//! The byte streams that the clocked bridges read and write.

use std::cell::RefCell;
use std::cell::RefMut;
use std::io::BufRead;
use std::io::Read;
use std::io::Write;
use std::rc::Rc;
use vstd::prelude::*;

verus! {

/// A byte source that several bridges may share: a trait object of
/// `std::io::BufRead` behind `Rc<RefCell<..>>`. Nothing is known of what is
/// inside a value of this type: proofs carry it through as it is.
#[verifier::external_body]
pub struct RcBufRead(pub Rc<RefCell<dyn BufRead>>);

/// A byte sink that several bridges may share: a trait object of
/// `std::io::Write` behind `Rc<RefCell<..>>`. Nothing is known of what is
/// inside a value of this type: proofs carry it through as it is.
#[verifier::external_body]
pub struct RcWrite(pub Rc<RefCell<dyn Write>>);

/// The shared source while one bridge reads from it: the guard that
/// `RefCell::try_borrow_mut` hands out. Nothing is known of what is inside.
#[verifier::external_body]
pub struct BorrowedSource<'a>(RefMut<'a, dyn BufRead>);

/// The shared sink while one bridge writes to it: the guard that
/// `RefCell::try_borrow_mut` hands out. Nothing is known of what is inside.
#[verifier::external_body]
pub struct BorrowedSink<'a>(RefMut<'a, dyn Write>);

/// The handle on the process's standard input.
#[verifier::external_type_specification]
#[verifier::external_body]
pub struct ExStdin(std::io::Stdin);

/// The handle on the process's standard output.
#[verifier::external_type_specification]
#[verifier::external_body]
pub struct ExStdout(std::io::Stdout);

impl Clone for RcBufRead {
    /// Another handle on the same source, made with `Rc::clone`.
    #[verifier::external_body]
    fn clone(&self) -> (r: Self)
        ensures
            r == *self,
    {
        RcBufRead(self.0.clone())
    }
}

impl Clone for RcWrite {
    /// Another handle on the same sink, made with `Rc::clone`.
    #[verifier::external_body]
    fn clone(&self) -> (r: Self)
        ensures
            r == *self,
    {
        RcWrite(self.0.clone())
    }
}

/// What an attempt to read one byte from a source gave.
#[derive(Debug, Copy, Clone, PartialEq, Eq, Structural)]
pub enum ReadOutcome {
    /// The next byte of the source.
    Byte(u8),
    /// The source has no more bytes, or failed.
    End,
    /// The source is in use elsewhere and was not read.
    Busy,
}

/// Borrows the shared source with `RefCell::try_borrow_mut`. Nothing is
/// claimed of the outcome: there is no guard when the source is borrowed
/// already.
#[verifier::external_body]
fn borrow_source<'a>(source: &'a RcBufRead) -> (r: Option<BorrowedSource<'a>>) {
    match source.0.try_borrow_mut() {
        Ok(guard) => Some(BorrowedSource(guard)),
        Err(_) => None,
    }
}

/// Reads one byte from the borrowed source with `Read::read_exact`. Nothing
/// is claimed of the outcome: it depends on what the source holds.
#[verifier::external_body]
fn read_borrowed_byte(source: &mut BorrowedSource) -> (r: ReadOutcome) {
    let mut buf = [0u8; 1];
    match source.0.read_exact(&mut buf) {
        Ok(_) => ReadOutcome::Byte(buf[0]),
        Err(_) => ReadOutcome::End,
    }
}

/// The handle on the process's standard input, from `std::io::stdin`.
#[verifier::external_body]
fn stdin_handle() -> (r: std::io::Stdin) {
    std::io::stdin()
}

/// Reads one byte from the standard input with `Read::read_exact`. Nothing
/// is claimed of the outcome: it depends on what the input holds.
#[verifier::external_body]
fn read_handle_byte(handle: &mut std::io::Stdin) -> (r: ReadOutcome) {
    let mut buf = [0u8; 1];
    match handle.read_exact(&mut buf) {
        Ok(_) => ReadOutcome::Byte(buf[0]),
        Err(_) => ReadOutcome::End,
    }
}

/// Borrows the shared sink with `RefCell::try_borrow_mut`. Nothing is
/// claimed of the outcome: there is no guard when the sink is borrowed
/// already.
#[verifier::external_body]
fn borrow_sink<'a>(sink: &'a RcWrite) -> (r: Option<BorrowedSink<'a>>) {
    match sink.0.try_borrow_mut() {
        Ok(guard) => Some(BorrowedSink(guard)),
        Err(_) => None,
    }
}

/// Writes one byte to the borrowed sink with `Write::write_all`. A failure
/// to write is dropped.
#[verifier::external_body]
fn write_borrowed_byte(sink: &mut BorrowedSink, byte: u8) {
    let _ = sink.0.write_all(&[byte]);
}

/// Flushes the borrowed sink with `Write::flush`. A failure to flush is
/// dropped.
#[verifier::external_body]
fn flush_borrowed(sink: &mut BorrowedSink) {
    let _ = sink.0.flush();
}

/// The handle on the process's standard output, from `std::io::stdout`.
#[verifier::external_body]
fn stdout_handle() -> (r: std::io::Stdout) {
    std::io::stdout()
}

/// Writes one byte to the standard output with `Write::write_all`. A
/// failure to write is dropped.
#[verifier::external_body]
fn write_handle_byte(handle: &mut std::io::Stdout, byte: u8) {
    let _ = handle.write_all(&[byte]);
}

/// Flushes the standard output with `Write::flush`. A failure to flush is
/// dropped.
#[verifier::external_body]
fn flush_handle(handle: &mut std::io::Stdout) {
    let _ = handle.flush();
}

/// Reads one byte from the shared source: `Busy`, and nothing read, when
/// the source is in use elsewhere.
pub(crate) fn read_shared_byte(source: &RcBufRead) -> (r: ReadOutcome) {
    match borrow_source(source) {
        Some(guard) => {
            let mut guard = guard;
            read_borrowed_byte(&mut guard)
        },
        None => ReadOutcome::Busy,
    }
}

/// Reads one byte from the process's standard input.
pub(crate) fn read_stdin_byte() -> (r: ReadOutcome) {
    let mut handle = stdin_handle();
    read_handle_byte(&mut handle)
}

/// Writes one byte to the shared sink and flushes it. Nothing is written
/// when the sink is in use elsewhere.
pub(crate) fn send_shared_byte(sink: &RcWrite, byte: u8) {
    match borrow_sink(sink) {
        Some(guard) => {
            let mut guard = guard;
            write_borrowed_byte(&mut guard, byte);
            flush_borrowed(&mut guard);
        },
        None => {},
    }
}

/// Writes one byte to the process's standard output and flushes it.
pub(crate) fn send_stdout_byte(byte: u8) {
    let mut handle = stdout_handle();
    write_handle_byte(&mut handle, byte);
    flush_handle(&mut handle);
}

} // verus!
