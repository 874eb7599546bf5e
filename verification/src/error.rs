//! The failure modes a search can end in, and the text each is reported with.
use vstd::prelude::*;
use vstd::string::StringExecFns;
use vstd::string::to_string_from_display_ensures;

verus! {

/// std's I/O error, carried inside the errors that wrap one.
#[verifier::external_type_specification]
#[verifier::external_body]
pub struct ExIoError(std::io::Error);

/// All recoverable failure modes of a search.
#[derive(Debug)]
pub enum Error {
    /// The regex or literal pattern is not valid.
    InvalidPattern(Box<str>),
    /// The filesystem was identified, but searching it is not supported yet.
    UnsupportedFilesystem { device: Box<str>, fs: Box<str> },
    /// The requested path could not be canonicalized.
    PathNotFound { path: Box<str>, source: std::io::Error },
    /// Auto-detection of the block device for a path failed.
    DeviceDetectionFailed(std::io::Error),
    /// The device path does not exist.
    DeviceNotFound(Box<str>),
    /// The process may not open the raw device.
    PermissionDenied(Box<str>),
    /// No known filesystem signature was found on the device.
    UnknownFilesystem(Box<str>),
    /// The superblock or boot sector is present but structurally invalid.
    InvalidFilesystem { fs: Box<str>, source: std::io::Error, hint: Option<Box<str>> },
    /// The search root could not be located inside the filesystem.
    RootNotFound { path: Box<str>, device: Box<str>, source: std::io::Error },
    /// The matcher failed to initialise.
    MatcherInit(std::io::Error),
    /// Any other I/O error.
    Io(std::io::Error),
}

impl Error {
    /// The I/O error this one wraps, if any.
    pub open spec fn io_source(&self) -> Option<std::io::Error> {
        match self {
            Error::PathNotFound { source, .. } => Some(*source),
            Error::DeviceDetectionFailed(e) => Some(*e),
            Error::InvalidFilesystem { source, .. } => Some(*source),
            Error::RootNotFound { source, .. } => Some(*source),
            Error::MatcherInit(e) => Some(*e),
            Error::Io(e) => Some(*e),
            _ => None,
        }
    }

    /// The report text, given the text of the wrapped I/O error (if any).
    pub open spec fn message_spec(&self, io_text: Seq<char>) -> Seq<char> {
        match self {
            Error::InvalidPattern(msg) => msg@,
            Error::PathNotFound { path, .. } => "Couldn't canonicalize '"@ + path@ + "': "@ + io_text,
            Error::DeviceDetectionFailed(_) => "Couldn't auto-detect partition: "@ + io_text,
            Error::DeviceNotFound(dev) => "Device or partition not found: '"@ + dev@ + "'"@,
            Error::PermissionDenied(dev) => "Permission denied opening '"@ + dev@ + PERMISSION_HELP@,
            Error::UnsupportedFilesystem { device, fs } => "'"@ + device@ + "' has a "@ + fs@
                + UNSUPPORTED_TAIL@,
            Error::UnknownFilesystem(dev) => "Couldn't identify a filesystem on '"@ + dev@ + "'"@
                + UNKNOWN_HINT@,
            Error::InvalidFilesystem { fs, hint, .. } => "Invalid "@ + fs@ + " filesystem: "@ + io_text
                + match hint {
                Some(h) => "\n"@ + h@,
                None => Seq::empty(),
            },
            Error::RootNotFound { path, device, .. } => "Couldn't find '"@ + path@ + "' in '"@ + device@
                + "': "@ + io_text,
            Error::MatcherInit(_) => "Failed to build matcher: "@ + io_text,
            Error::Io(_) => io_text,
        }
    }

    /// `text` is how the error is reported: the text of `message_spec`, with, where an
    /// I/O error is wrapped, some display text of that error in its place.
    pub open spec fn is_message(&self, text: Seq<char>) -> bool {
        match self.io_source() {
            Some(e) => exists|t: String|
                #[trigger] to_string_from_display_ensures::<std::io::Error>(&e, t) && text
                    == self.message_spec(t@),
            None => text == self.message_spec(Seq::empty()),
        }
    }

    /// The text the error is reported with. Where an I/O error is wrapped, its own
    /// display text stands in the message; what that text is, std does not state.
    pub fn message(&self) -> (r: String)
        ensures
            self.is_message(r@),
    {
        match self {
            Error::InvalidPattern(msg) => String::from_str(&**msg),
            Error::PathNotFound { path, source } => {
                let t = source.to_string();
                let mut s = String::from_str("Couldn't canonicalize '");
                s.append(&**path);
                s.append("': ");
                s.append(t.as_str());
                proof {
                    lemma_io_message(self, source, t, s@);
                }
                s
            },
            Error::DeviceDetectionFailed(e) => {
                let t = e.to_string();
                let mut s = String::from_str("Couldn't auto-detect partition: ");
                s.append(t.as_str());
                proof {
                    lemma_io_message(self, e, t, s@);
                }
                s
            },
            Error::DeviceNotFound(dev) => {
                let mut s = String::from_str("Device or partition not found: '");
                s.append(&**dev);
                s.append("'");
                s
            },
            Error::PermissionDenied(dev) => {
                let mut s = String::from_str("Permission denied opening '");
                s.append(&**dev);
                s.append(PERMISSION_HELP);
                s
            },
            Error::UnsupportedFilesystem { device, fs } => {
                let mut s = String::from_str("'");
                s.append(&**device);
                s.append("' has a ");
                s.append(&**fs);
                s.append(UNSUPPORTED_TAIL);
                s
            },
            Error::UnknownFilesystem(dev) => {
                let mut s = String::from_str("Couldn't identify a filesystem on '");
                s.append(&**dev);
                s.append("'");
                s.append(UNKNOWN_HINT);
                s
            },
            Error::InvalidFilesystem { fs, source, hint } => {
                let t = source.to_string();
                let mut s = String::from_str("Invalid ");
                s.append(&**fs);
                s.append(" filesystem: ");
                s.append(t.as_str());
                let ghost before = s@;
                match hint {
                    Some(h) => {
                        s.append("\n");
                        s.append(&**h);
                        assert(s@ =~= before + ("\n"@ + h@));
                    },
                    None => {
                        assert(s@ =~= before + Seq::<char>::empty());
                    },
                }
                proof {
                    lemma_io_message(self, source, t, s@);
                }
                s
            },
            Error::RootNotFound { path, device, source } => {
                let t = source.to_string();
                let mut s = String::from_str("Couldn't find '");
                s.append(&**path);
                s.append("' in '");
                s.append(&**device);
                s.append("': ");
                s.append(t.as_str());
                proof {
                    lemma_io_message(self, source, t, s@);
                }
                s
            },
            Error::MatcherInit(e) => {
                let t = e.to_string();
                let mut s = String::from_str("Failed to build matcher: ");
                s.append(t.as_str());
                proof {
                    lemma_io_message(self, e, t, s@);
                }
                s
            },
            Error::Io(e) => {
                let t = e.to_string();
                proof {
                    lemma_io_message(self, e, t, t@);
                }
                t
            },
        }
    }

    /// The wrapped I/O error, the cause of this one, if any.
    pub fn source(&self) -> (r: Option<&std::io::Error>)
        ensures
            match r {
                Some(e) => self.io_source() == Some(*e),
                None => self.io_source() is None,
            },
    {
        match self {
            Error::PathNotFound { source, .. } => Some(source),
            Error::DeviceDetectionFailed(e) => Some(e),
            Error::InvalidFilesystem { source, .. } => Some(source),
            Error::RootNotFound { source, .. } => Some(source),
            Error::MatcherInit(e) => Some(e),
            Error::Io(e) => Some(e),
            _ => None,
        }
    }
}

proof fn lemma_io_message(err: &Error, e: &std::io::Error, t: String, text: Seq<char>)
    requires
        err.io_source() == Some(*e),
        to_string_from_display_ensures::<std::io::Error>(e, t),
        text == err.message_spec(t@),
    ensures
        err.is_message(text),
{
    let e0 = err.io_source().unwrap();
    assert(e0 == *e);
    assert(to_string_from_display_ensures::<std::io::Error>(&e0, t));
}

/// The advice that follows a refused device.
pub const PERMISSION_HELP: &'static str = "'\nhelp: try running with sudo/root, or grant the binary CAP_DAC_READ_SEARCH:\n  sudo setcap cap_dac_read_search=eip <path-to-binary>";

/// What follows the name of an unsupported filesystem.
pub const UNSUPPORTED_TAIL: &'static str = " filesystem, which rawgrep doesn't support yet\nsupported filesystems: ext4, NTFS, APFS";

/// The hint that follows an unidentified filesystem.
pub const UNKNOWN_HINT: &'static str = "\nhint: Double-check this is the right partition (try `lsblk` or `sudo fdisk -l`) -- an unpartitioned disk, the wrong partition, or a filesystem rawgrep has no signature for will all land here";

impl From<std::io::Error> for Error {
    fn from(e: std::io::Error) -> (r: Self) {
        Error::Io(e)
    }
}

impl vstd::std_specs::convert::FromSpecImpl<std::io::Error> for Error {
    open spec fn obeys_from_spec() -> bool {
        true
    }

    open spec fn from_spec(e: std::io::Error) -> Self {
        Error::Io(e)
    }
}

} // verus!
