//! Decisions of the corosync configuration synchronization: whether the stored
//! configuration is to be written to the system file.

use vstd::prelude::*;
use vstd::utf8::*;
use crate::memdb::database::{MemDb, entry_option, lookup};
use crate::memdb::types::{TreeEntry, TreeEntryView, DT_REG};
use crate::text::string_from_utf8;

verus! {

/// What synchronizing the stored corosync configuration to the system file comes to.
#[derive(Debug, Clone)]
pub enum CorosyncSync {
    /// No configuration is stored: nothing to do
    NotStored,
    /// The configuration path names a directory
    NotAFile,
    /// The system file already holds the stored configuration
    Unchanged,
    /// The stored configuration is not UTF-8 text
    InvalidUtf8,
    /// The system file is to be written with `data`; the flags tell which of the
    /// expected sections are missing from it
    Write { data: Vec<u8>, missing_totem: bool, missing_nodelist: bool },
}

/// Mathematical view of [`CorosyncSync`].
pub enum CorosyncSyncView {
    NotStored,
    NotAFile,
    Unchanged,
    InvalidUtf8,
    Write { data: Seq<u8>, missing_totem: bool, missing_nodelist: bool },
}

impl View for CorosyncSync {
    type V = CorosyncSyncView;

    open spec fn view(&self) -> CorosyncSyncView {
        match self {
            CorosyncSync::NotStored => CorosyncSyncView::NotStored,
            CorosyncSync::NotAFile => CorosyncSyncView::NotAFile,
            CorosyncSync::Unchanged => CorosyncSyncView::Unchanged,
            CorosyncSync::InvalidUtf8 => CorosyncSyncView::InvalidUtf8,
            CorosyncSync::Write { data, missing_totem, missing_nodelist } => CorosyncSyncView::Write {
                data: data@,
                missing_totem: *missing_totem,
                missing_nodelist: *missing_nodelist,
            },
        }
    }
}

/// `pat` occurs in `s` as a contiguous run of bytes.
pub open spec fn contains_seq(s: Seq<u8>, pat: Seq<u8>) -> bool {
    exists|i: int| 0 <= i && i + pat.len() <= s.len() && #[trigger] s.subrange(i, i + pat.len()) == pat
}

/// The bytes of `totem`.
pub open spec fn totem_bytes() -> Seq<u8> {
    seq![0x74u8, 0x6f, 0x74, 0x65, 0x6d]
}

/// The bytes of `nodelist`.
pub open spec fn nodelist_bytes() -> Seq<u8> {
    seq![0x6eu8, 0x6f, 0x64, 0x65, 0x6c, 0x69, 0x73, 0x74]
}

/// The outcome for the entry stored at the configuration path (if any) and the current
/// content of the system file (if it could be read); `force` writes even an unchanged file.
pub open spec fn corosync_sync_outcome(stored: Option<TreeEntryView>, system: Option<Seq<u8>>, force: bool) -> CorosyncSyncView {
    match stored {
        None => CorosyncSyncView::NotStored,
        Some(e) => if e.entry_type != DT_REG {
            CorosyncSyncView::NotAFile
        } else if !force && system == Some(e.data) {
            CorosyncSyncView::Unchanged
        } else if !valid_utf8(e.data) {
            CorosyncSyncView::InvalidUtf8
        } else {
            CorosyncSyncView::Write {
                data: e.data,
                missing_totem: !contains_seq(e.data, totem_bytes()),
                missing_nodelist: !contains_seq(e.data, nodelist_bytes()),
            }
        },
    }
}

/// Whether `pat` occurs in `s`.
pub fn contains_bytes(s: &[u8], pat: &[u8]) -> (r: bool)
    ensures
        r == contains_seq(s@, pat@),
{
    let n = pat.len();
    if n > s.len() {
        proof {
            assert forall|i: int| 0 <= i && i + pat@.len() <= s@.len() implies #[trigger] s@.subrange(i, i + pat@.len()) != pat@ by {
            }
        }
        return false;
    }
    if n == 0 {
        assert(s@.subrange(0int, 0int + pat@.len()) =~= pat@);
        return true;
    }
    let last = s.len() - n;
    let mut i: usize = 0;
    while i <= last
        invariant
            n == pat@.len(),
            0 < n <= s@.len(),
            s@.len() <= usize::MAX,
            last == s@.len() - n,
            i <= last + 1,
            forall|k: int| 0 <= k < i ==> #[trigger] s@.subrange(k, k + n) != pat@,
        decreases last + 1 - i,
    {
        let mut j: usize = 0;
        let mut same = true;
        while j < n
            invariant
                n == pat@.len(),
                n <= s@.len(),
                s@.len() <= usize::MAX,
                i <= s@.len() - n,
                j <= n,
                same == (forall|m: int| 0 <= m < j ==> s@[i + m] == pat@[m]),
            decreases n - j,
        {
            if s[i + j] != pat[j] {
                same = false;
            }
            j += 1;
        }
        if same {
            assert(s@.subrange(i as int, i + n) =~= pat@);
            return true;
        }
        proof {
            let m = choose|m: int| 0 <= m < n && s@[i + m] != pat@[m];
            assert(s@.subrange(i as int, i + n)[m] != pat@[m]);
        }
        i += 1;
    }
    false
}

impl MemDb {
    /// Decides the synchronization of the stored corosync configuration (at
    /// `/corosync.conf`) to the system file, whose current content, when it could be
    /// read, is `system_data`; `force` writes even an unchanged file.
    pub fn corosync_sync_action(&self, system_data: Option<&[u8]>, force: bool) -> (r: CorosyncSync)
        requires
            self.wf(),
        ensures
            r@ == corosync_sync_outcome(
                lookup(self@, encode_utf8("/corosync.conf"@)),
                match system_data {
                    Some(d) => Some(d@),
                    None => None,
                },
                force,
            ),
    {
        let stored = self.lookup_path("/corosync.conf");
        let ghost sv = match system_data {
            Some(d) => Some(d@),
            None => None::<Seq<u8>>,
        };
        match stored {
            None => CorosyncSync::NotStored,
            Some(e) => {
                if !e.is_file() {
                    return CorosyncSync::NotAFile;
                }
                let unchanged = match system_data {
                    Some(d) => crate::memdb::path::bytes_eq(d, e.data.as_slice()),
                    None => false,
                };
                if !force && unchanged {
                    return CorosyncSync::Unchanged;
                }
                assert(!force ==> sv != Some(e@.data));
                match string_from_utf8(e.data.as_slice()) {
                    None => CorosyncSync::InvalidUtf8,
                    Some(_) => {
                        let totem: Vec<u8> = vec![0x74u8, 0x6f, 0x74, 0x65, 0x6d];
                        let nodelist: Vec<u8> = vec![0x6eu8, 0x6f, 0x64, 0x65, 0x6c, 0x69, 0x73, 0x74];
                        assert(totem@ == totem_bytes());
                        assert(nodelist@ == nodelist_bytes());
                        let missing_totem = !contains_bytes(e.data.as_slice(), totem.as_slice());
                        let missing_nodelist = !contains_bytes(e.data.as_slice(), nodelist.as_slice());
                        CorosyncSync::Write { data: e.data, missing_totem, missing_nodelist }
                    },
                }
            },
        }
    }
}

} // verus!
