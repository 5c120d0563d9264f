//! Keeping files on the volume where it can be written.
use crate::fat16::{can_write, remove_file, write_file, Fs};
use crate::volume::{removed, saved, writable, Image, Place, Volume};
use vstd::prelude::*;

verus! {

/// The answer where a volume's layout leaves no way to write a file.
pub const NOT_WRITABLE: &'static str = "this volume cannot be written";

/// The disk with `data` kept under `path`, and the answer.
pub open spec fn kept(v: Volume, at: Place, path: Seq<u8>, data: Seq<u8>) -> (Image, Result<(), &'static str>) {
    if writable(v, at, path, data) {
        saved(v, at, path, data)
    } else {
        (v.image, Err(NOT_WRITABLE))
    }
}

/// The disk without the file at `path`, and the answer.
pub open spec fn dropped(v: Volume, at: Place, path: Seq<u8>) -> (Image, Result<(), &'static str>) {
    if writable(v, at, path, Seq::empty()) {
        removed(v, at, path)
    } else {
        (v.image, Err(NOT_WRITABLE))
    }
}

/// Writes a file.
pub fn keep_file(fs: &mut Fs, path: &[u8], data: &[u8]) -> (r: Result<(), &'static str>)
    requires
        old(fs).wf(),
    ensures
        final(fs).wf(),
        final(fs).only_disk(*old(fs)),
        (final(fs).disk@, r) == kept(old(fs).volume(), old(fs).place(), path@, data@),
{
    if can_write(fs, path, data) {
        write_file(fs, path, data)
    } else {
        Err(NOT_WRITABLE)
    }
}

/// Removes a file.
pub fn drop_file(fs: &mut Fs, path: &[u8]) -> (r: Result<(), &'static str>)
    requires
        old(fs).wf(),
    ensures
        final(fs).wf(),
        final(fs).only_disk(*old(fs)),
        (final(fs).disk@, r) == dropped(old(fs).volume(), old(fs).place(), path@),
{
    let none: Vec<u8> = Vec::new();
    assert(none@ =~= Seq::empty());
    if can_write(fs, path, none.as_slice()) {
        remove_file(fs, path)
    } else {
        Err(NOT_WRITABLE)
    }
}

} // verus!
