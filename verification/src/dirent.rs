//! Directory streams of `dirent.h`.
//!
//! The substrate asks the virtual file system whether a path is a
//! directory and what it holds; the answers arrive here as plain byte
//! strings.  This module owns the table of open directory streams and the
//! cursor logic of the read loop.

use vstd::prelude::*;

verus! {

pub const MAXPATHLEN: usize = 1024;

/// One open directory stream: the names still to hand out and the cursor.
pub struct OpenDir {
    pub idx: usize,
    pub entries: Vec<Vec<u8>>,
}

/// A directory entry as handed to the guest: the name is padded with
/// zeroes to the fixed guest buffer length.
pub struct DirEntry {
    pub d_ino: u64,
    pub d_seekoff: u64,
    pub d_reclen: u16,
    pub d_namlen: u16,
    pub d_type: u8,
    pub d_name: Vec<u8>,
}

/// Table from guest stream handles to open directory streams.
#[derive(Default)]
pub struct State {
    pub open_dirs: Vec<(u32, OpenDir)>,
}

impl State {
    /// The directory state inside the framework state, for reading.
    pub fn get(framework_state: &crate::FrameworkState) -> (r: &State)
        ensures
            *r == framework_state.dirent,
    {
        &framework_state.dirent
    }

    /// The directory state inside the framework state, for writing.
    pub fn get_mut(framework_state: &mut crate::FrameworkState) -> (r: &mut State)
        ensures
            *r == old(framework_state).dirent,
            final(framework_state).dirent == *final(r),
            final(framework_state).audio_file == old(framework_state).audio_file,
            final(framework_state).ns_bundle == old(framework_state).ns_bundle,
            final(framework_state).ns_locale == old(framework_state).ns_locale,
    {
        &mut framework_state.dirent
    }

    /// Fresh state: no streams open.
    pub fn new() -> (r: State)
        ensures
            r.open_dirs@.len() == 0,
    {
        State { open_dirs: Vec::new() }
    }

    /// Index of a handle in the table, or `-1` when it is not open.
    pub open spec fn spec_find(self, handle: u32) -> int {
        Self::spec_find_from(self.open_dirs@, handle, 0)
    }

    pub open spec fn spec_find_from(dirs: Seq<(u32, OpenDir)>, handle: u32, i: int) -> int
        decreases dirs.len() - i,
    {
        if i < 0 || i >= dirs.len() {
            -1
        } else if dirs[i].0 == handle {
            i
        } else {
            Self::spec_find_from(dirs, handle, i + 1)
        }
    }

    /// The handle names an open stream.
    pub open spec fn open_dir(self, handle: u32) -> bool {
        self.spec_find(handle) != -1
    }

    /// The stream behind an open handle.
    pub open spec fn dir(self, handle: u32) -> OpenDir {
        self.open_dirs@[self.spec_find(handle)].1
    }

    /// What `spec_find` finds.
    proof fn lemma_find_from(dirs: Seq<(u32, OpenDir)>, handle: u32, i: int)
        requires
            0 <= i,
        ensures
            Self::spec_find_from(dirs, handle, i) != -1 ==> i <= Self::spec_find_from(
                dirs,
                handle,
                i,
            ) < dirs.len() && dirs[Self::spec_find_from(dirs, handle, i)].0 == handle,
        decreases dirs.len() - i,
    {
        if i < dirs.len() && dirs[i].0 != handle {
            Self::lemma_find_from(dirs, handle, i + 1);
        }
    }

    /// Index of a handle, or the table's length when it is not open.
    fn find(&self, handle: u32) -> (r: usize)
        ensures
            r <= self.open_dirs@.len(),
            r == self.open_dirs@.len() ==> self.spec_find(handle) == -1,
            r < self.open_dirs@.len() ==> self.spec_find(handle) == r as int,
    {
        let n = self.open_dirs.len();
        let mut i: usize = 0;
        while i < n
            invariant
                0 <= i <= n,
                n == self.open_dirs@.len(),
                self.spec_find(handle) == Self::spec_find_from(self.open_dirs@, handle, i as int),
            decreases n - i,
        {
            if self.open_dirs[i].0 == handle {
                return i;
            }
            i = i + 1;
        }
        n
    }
}

/// Open a directory stream: the substrate resolved the path and answers
/// whether it is a directory and, if so, what names it holds.  A fresh
/// guest handle is recorded with the cursor at the start; anything that is
/// not a directory opens nothing.
pub fn opendir(state: &mut State, handle: u32, is_dir: bool, entries: Vec<Vec<u8>>) -> (r: u32)
    requires
        handle != 0,
        !old(state).open_dir(handle),
        forall|k: int| 0 <= k < entries@.len() ==> (#[trigger] entries@[k])@.len() <= MAXPATHLEN,
    ensures
        !is_dir ==> r == 0 && *final(state) == *old(state),
        is_dir ==> r == handle && final(state).open_dirs@ == old(state).open_dirs@.push(
            (handle, OpenDir { idx: 0, entries }),
        ),
{
    if is_dir {
        state.open_dirs.push((handle, OpenDir { idx: 0, entries }));
        handle
    } else {
        0
    }
}

/// Hand out the next entry of an open stream, or nothing when it is
/// exhausted: the name arrives zero-padded to the guest's fixed buffer,
/// with its length beside it, and the cursor advances.
pub fn readdir(state: &mut State, dirp: u32) -> (r: Option<DirEntry>)
    requires
        old(state).open_dir(dirp),
        old(state).dir(dirp).idx <= old(state).dir(dirp).entries@.len(),
        forall|k: int|
            0 <= k < old(state).dir(dirp).entries@.len() ==> (#[trigger] old(state).dir(
                dirp,
            ).entries@[k])@.len() <= MAXPATHLEN,
    ensures
        old(state).dir(dirp).idx == old(state).dir(dirp).entries@.len() ==> r.is_none()
            && *final(state) == *old(state),
        old(state).dir(dirp).idx < old(state).dir(dirp).entries@.len() ==> r.is_some() && ({
            let name = old(state).dir(dirp).entries@[old(state).dir(dirp).idx as int]@;
            let e = r.unwrap();
            &&& e.d_ino == 0
            &&& e.d_seekoff == 0
            &&& e.d_reclen == 0
            &&& e.d_type == 0
            &&& e.d_namlen == name.len()
            &&& e.d_name@.len() == MAXPATHLEN
            &&& e.d_name@.subrange(0, name.len() as int) == name
            &&& forall|k: int| name.len() <= k < MAXPATHLEN ==> e.d_name@[k] == 0
        }) && final(state).open_dirs@ == old(state).open_dirs@.update(
            old(state).spec_find(dirp),
            (
                dirp,
                (OpenDir {
                    idx: (old(state).dir(dirp).idx + 1) as usize,
                    entries: old(state).dir(dirp).entries,
                }),
            ),
        ),
{
    let i = state.find(dirp);
    let cursor = state.open_dirs[i].1.idx;
    let total = state.open_dirs[i].1.entries.len();
    if cursor >= total {
        return None;
    }
    let name_len = state.open_dirs[i].1.entries[cursor].len();
    proof {
        assert(state.dir(dirp).entries@[cursor as int]@.len() <= MAXPATHLEN);
    }
    let ghost st0 = *state;
    let mut d_name: Vec<u8> = Vec::new();
    let mut k: usize = 0;
    while k < name_len
        invariant
            0 <= k <= name_len,
            *state == st0,
            state.open_dir(dirp),
            state.spec_find(dirp) == i as int,
            i < state.open_dirs@.len(),
            cursor < state.dir(dirp).entries@.len(),
            name_len == state.dir(dirp).entries@[cursor as int]@.len(),
            d_name@ =~= state.dir(dirp).entries@[cursor as int]@.take(k as int),
        decreases name_len - k,
    {
        let b = state.open_dirs[i].1.entries[cursor][k];
        d_name.push(b);
        proof {
            assert(state.dir(dirp).entries@[cursor as int]@.take(k as int + 1) =~= state.dir(
                dirp,
            ).entries@[cursor as int]@.take(k as int).push(
                state.dir(dirp).entries@[cursor as int]@[k as int],
            ));
        }
        k = k + 1;
    }
    while k < MAXPATHLEN
        invariant
            name_len <= k <= MAXPATHLEN,
            *state == st0,
            state.open_dir(dirp),
            state.spec_find(dirp) == i as int,
            i < state.open_dirs@.len(),
            cursor < state.dir(dirp).entries@.len(),
            name_len == state.dir(dirp).entries@[cursor as int]@.len(),
            d_name@.len() == k,
            d_name@.subrange(0, name_len as int) == state.dir(dirp).entries@[cursor as int]@,
            forall|t: int| name_len <= t < k ==> d_name@[t] == 0,
        decreases MAXPATHLEN - k,
    {
        d_name.push(0);
        proof {
            assert(d_name@.subrange(0, name_len as int) =~= state.dir(
                dirp,
            ).entries@[cursor as int]@);
        }
        k = k + 1;
    }
    let entry = DirEntry {
        d_ino: 0,
        d_seekoff: 0,
        d_reclen: 0,
        d_namlen: name_len as u16,
        d_type: 0,
        d_name,
    };
    proof {
        State::lemma_find_from(state.open_dirs@, dirp, 0);
        assert(state.open_dirs@[i as int].0 == dirp);
        assert(entry.d_name@.subrange(0, name_len as int) =~= state.dir(
            dirp,
        ).entries@[cursor as int]@);
    }
    let slot = &mut state.open_dirs[i];
    let new_idx = slot.1.idx + 1;
    slot.1.idx = new_idx;
    proof {
        assert(state.open_dirs@ =~= old(state).open_dirs@.update(
            old(state).spec_find(dirp),
            (
                dirp,
                (OpenDir {
                    idx: (old(state).dir(dirp).idx + 1) as usize,
                    entries: old(state).dir(dirp).entries,
                }),
            ),
        ));
    }
    Some(entry)
}

/// Close a stream: its state leaves the table, whether or not it was open,
/// and the substrate frees the guest handle.
pub fn closedir(state: &mut State, dirp: u32) -> (r: i32)
    ensures
        r == 0,
        old(state).open_dir(dirp) ==> final(state).open_dirs@ == old(state).open_dirs@.remove(
            old(state).spec_find(dirp),
        ),
        !old(state).open_dir(dirp) ==> *final(state) == *old(state),
{
    let i = state.find(dirp);
    if i < state.open_dirs.len() {
        state.open_dirs.remove(i);
    }
    0
}

} // verus!
