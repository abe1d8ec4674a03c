//! The archive reader: a byte source, its configuration, and safe bulk
//! extraction planning.

#![verifier::loop_isolation(false)]

use crate::entry::entry_views;
use crate::entry::spec_entries;
use crate::entry::Entry;
use crate::extract::action_matches;
use crate::extract::plan_unpack;
use crate::extract::UnpackAction;
use crate::source::open_source;
use crate::source::spec_source_data;
use crate::TarError;
use vstd::prelude::*;

verus! {

/// The model of an archive: its decompressed tar bytes and its extraction
/// configuration.
pub struct ArchiveModel {
    pub data: Seq<u8>,
    pub mask: u32,
    pub unpack_xattrs: bool,
    pub preserve_permissions: bool,
    pub preserve_ownerships: bool,
    pub overwrite: bool,
    pub preserve_mtime: bool,
    pub ignore_zeros: bool,
}

/// An archive reader over one exclusively owned byte source, already
/// decompressed to a raw tar stream.
pub struct Archive {
    data: Vec<u8>,
    mask: u32,
    unpack_xattrs: bool,
    preserve_permissions: bool,
    preserve_ownerships: bool,
    overwrite: bool,
    preserve_mtime: bool,
    ignore_zeros: bool,
}

impl View for Archive {
    type V = ArchiveModel;

    closed spec fn view(&self) -> ArchiveModel {
        ArchiveModel {
            data: self.data@,
            mask: self.mask,
            unpack_xattrs: self.unpack_xattrs,
            preserve_permissions: self.preserve_permissions,
            preserve_ownerships: self.preserve_ownerships,
            overwrite: self.overwrite,
            preserve_mtime: self.preserve_mtime,
            ignore_zeros: self.ignore_zeros,
        }
    }
}

impl Archive {
    /// Create a new archive over the given bytes, sniffing and undoing a
    /// gzip, bzip2 or xz envelope first. An unrecognized magic is
    /// `UnsupportedFormat`; an undecodable compressed stream is `Io`.
    ///
    /// The configuration defaults are: mask 0, extended attributes off,
    /// permission preservation off, ownership preservation off, overwrite
    /// on, mtime preservation on, zero-block skipping off.
    pub fn new(input: Vec<u8>) -> (r: Result<Archive, TarError>)
        ensures
            match spec_source_data(input@) {
                Some(d) => match r {
                    Ok(a) => a@ == (ArchiveModel {
                        data: d,
                        mask: 0,
                        unpack_xattrs: false,
                        preserve_permissions: false,
                        preserve_ownerships: false,
                        overwrite: true,
                        preserve_mtime: true,
                        ignore_zeros: false,
                    }),
                    Err(e) => e == TarError::Io,
                },
                None => r == Err::<Archive, TarError>(TarError::UnsupportedFormat),
            },
    {
        let data = match open_source(input) {
            Ok(d) => d,
            Err(e) => {
                return Err(e);
            },
        };
        Ok(
            Archive {
                data,
                mask: 0,
                unpack_xattrs: false,
                preserve_permissions: false,
                preserve_ownerships: false,
                overwrite: true,
                preserve_mtime: true,
                ignore_zeros: false,
            },
        )
    }

    /// Parse the archive into its logical entries.
    pub fn entries(&self) -> (r: Result<Vec<Entry>, TarError>)
        ensures
            match r {
                Ok(es) => spec_entries(self@.data, self@.ignore_zeros) == Some(entry_views(es@))
                    && forall|i: int| 0 <= i < es@.len() ==> (#[trigger] es@[i]@).wf(),
                Err(e) => spec_entries(self@.data, self@.ignore_zeros) is None && e
                    == TarError::CorruptHeader,
            },
    {
        crate::entry::parse_archive(&self.data, self.ignore_zeros)
    }

    /// Plan the extraction of the whole archive: one action per entry, with
    /// destination-relative paths proven safe. Entries whose stored path
    /// would traverse outside the destination are skipped, not written.
    ///
    /// The caller joins each action's path onto the destination root and
    /// performs the filesystem writes, honoring the `overwrite` and
    /// `unpack_xattrs` settings it read from this archive.
    pub fn unpack(&self) -> (r: Result<Vec<UnpackAction>, TarError>)
        ensures
            match r {
                Ok(acts) => spec_entries(self@.data, self@.ignore_zeros) matches Some(ms)
                    && acts@.len() == ms.len() && forall|i: int|
                    0 <= i < acts@.len() ==> action_matches(
                        #[trigger] acts@[i],
                        ms[i],
                        self@.mask,
                        self@.preserve_permissions,
                        self@.preserve_ownerships,
                        self@.preserve_mtime,
                    ),
                Err(e) => spec_entries(self@.data, self@.ignore_zeros) is None && e
                    == TarError::CorruptHeader,
            },
    {
        let entries = match self.entries() {
            Ok(es) => es,
            Err(e) => {
                return Err(e);
            },
        };
        Ok(
            plan_unpack(
                &entries,
                self.mask,
                self.preserve_permissions,
                self.preserve_ownerships,
                self.preserve_mtime,
            ),
        )
    }

    /// Set the mask of the permission bits applied when unpacking, inverted
    /// against each mode as `umask` is.
    pub fn set_mask(&mut self, mask: u32)
        ensures
            final(self)@ == (ArchiveModel { mask, ..old(self)@ }),
    {
        self.mask = mask;
    }

    /// Indicate whether extended file attributes are preserved when
    /// unpacking this archive.
    pub fn set_unpack_xattrs(&mut self, unpack_xattrs: bool)
        ensures
            final(self)@ == (ArchiveModel { unpack_xattrs, ..old(self)@ }),
    {
        self.unpack_xattrs = unpack_xattrs;
    }

    /// Indicate whether extended permissions (like suid) are preserved when
    /// unpacking; off, only the low nine mode bits apply.
    pub fn set_preserve_permissions(&mut self, preserve_permissions: bool)
        ensures
            final(self)@ == (ArchiveModel { preserve_permissions, ..old(self)@ }),
    {
        self.preserve_permissions = preserve_permissions;
    }

    /// Indicate whether numeric ownership ids are preserved when unpacking.
    pub fn set_preserve_ownerships(&mut self, preserve_ownerships: bool)
        ensures
            final(self)@ == (ArchiveModel { preserve_ownerships, ..old(self)@ }),
    {
        self.preserve_ownerships = preserve_ownerships;
    }

    /// Indicate whether files and symlinks should be overwritten on
    /// extraction.
    pub fn set_overwrite(&mut self, overwrite: bool)
        ensures
            final(self)@ == (ArchiveModel { overwrite, ..old(self)@ }),
    {
        self.overwrite = overwrite;
    }

    /// Indicate whether modification times are preserved when unpacking.
    pub fn set_preserve_mtime(&mut self, preserve_mtime: bool)
        ensures
            final(self)@ == (ArchiveModel { preserve_mtime, ..old(self)@ }),
    {
        self.preserve_mtime = preserve_mtime;
    }

    /// Ignore zeroed blocks, which would otherwise signal the end of the
    /// archive; this lets concatenated archives read as one.
    pub fn set_ignore_zeros(&mut self, ignore_zeros: bool)
        ensures
            final(self)@ == (ArchiveModel { ignore_zeros, ..old(self)@ }),
    {
        self.ignore_zeros = ignore_zeros;
    }

    pub fn mask(&self) -> (r: u32)
        ensures
            r == self@.mask,
    {
        self.mask
    }

    pub fn unpack_xattrs(&self) -> (r: bool)
        ensures
            r == self@.unpack_xattrs,
    {
        self.unpack_xattrs
    }

    pub fn preserve_permissions(&self) -> (r: bool)
        ensures
            r == self@.preserve_permissions,
    {
        self.preserve_permissions
    }

    pub fn preserve_ownerships(&self) -> (r: bool)
        ensures
            r == self@.preserve_ownerships,
    {
        self.preserve_ownerships
    }

    pub fn overwrite(&self) -> (r: bool)
        ensures
            r == self@.overwrite,
    {
        self.overwrite
    }

    pub fn preserve_mtime(&self) -> (r: bool)
        ensures
            r == self@.preserve_mtime,
    {
        self.preserve_mtime
    }

    pub fn ignore_zeros(&self) -> (r: bool)
        ensures
            r == self@.ignore_zeros,
    {
        self.ignore_zeros
    }
}

/// Compression is transparent: a wrapped archive and a plain archive whose
/// decompressed bytes agree yield identical entry sequences.
pub proof fn lemma_compression_transparent(wrapped: Seq<u8>, plain: Seq<u8>, iz: bool)
    requires
        spec_source_data(wrapped) matches Some(d) && spec_source_data(plain) == Some(d),
    ensures
        ({
            let d1 = spec_source_data(wrapped)->0;
            let d2 = spec_source_data(plain)->0;
            spec_entries(d1, iz) == spec_entries(d2, iz)
        }),
{
}

} // verus!
