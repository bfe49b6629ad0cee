//! A model of the snapshot file protocol: the snapshot is first written to
//! a sibling temporary file, and only an atomic rename makes it the target.
//! The model shows why the order is crash-safe: until the rename, the
//! target's contents are untouched, so an interrupted save can never leave
//! the target partial or corrupt.

use vstd::prelude::*;

verus! {

use vstd::string::StrSliceExecFns;

/// The two file slots the save protocol touches: the durable target and the
/// temporary sibling. `None` stands for an absent file.
pub struct SnapshotStore {
    pub target: Option<Vec<u8>>,
    pub temp: Option<Vec<u8>>,
}

impl SnapshotStore {
    /// A location with no files yet.
    pub fn new() -> (r: SnapshotStore)
        ensures
            r.target is None,
            r.temp is None,
    {
        SnapshotStore { target: None, temp: None }
    }

    /// Writing the temporary file: the target is never touched, so a crash
    /// anywhere before the rename leaves the prior snapshot fully intact
    /// and loadable.
    pub fn write_temp(&mut self, data: Vec<u8>)
        ensures
            final(self).target == old(self).target,
            final(self).temp == Some(data),
    {
        self.temp = Some(data);
    }

    /// The atomic rename: the temporary contents become the target in one
    /// step; this is the only operation that changes what a reader of the
    /// target sees.
    pub fn rename_temp(&mut self)
        requires
            old(self).temp is Some,
        ensures
            final(self).target == old(self).temp,
            final(self).temp is None,
    {
        self.target = self.temp.take();
    }

    /// One whole save: temporary write, then rename. Afterwards the target
    /// holds exactly `data`.
    pub fn save(&mut self, data: Vec<u8>)
        ensures
            final(self).target == Some(data),
            final(self).temp is None,
    {
        self.write_temp(data);
        self.rename_temp();
    }
}

/// Where the temporary file goes: the index cutting off the target path's
/// extension, scanning the final path component from the end; `None` when
/// that component has no extension to replace.
pub open spec fn ext_cut(s: Seq<char>) -> Option<int>
    decreases s.len(),
{
    if s.len() == 0 {
        None
    } else if s.last() == '/' {
        None
    } else if s.last() == '.' {
        if s.len() >= 2 && s[s.len() - 2] != '/' {
            Some(s.len() - 1)
        } else {
            None
        }
    } else {
        ext_cut(s.drop_last())
    }
}

/// The temporary sibling path: the target path with its extension replaced
/// by `tmp`, or with `.tmp` appended when it has none.
pub open spec fn temp_path_of(s: Seq<char>) -> Seq<char> {
    match ext_cut(s) {
        Some(d) => s.take(d) + ".tmp"@,
        None => s + ".tmp"@,
    }
}

/// Computes the temporary sibling path for a target path.
pub fn temp_path_for(path: &str) -> (r: String)
    ensures
        r@ == temp_path_of(path@),
{
    let n = path.unicode_len();
    let mut i: usize = n;
    proof {
        assert(path@.take(n as int) =~= path@);
    }
    while i > 0
        invariant
            i <= n,
            n == path@.len(),
            ext_cut(path@) == ext_cut(path@.take(i as int)),
        decreases i,
    {
        let c = path.get_char(i - 1);
        proof {
            assert(path@.take(i as int).last() == path@[i as int - 1]);
            assert(path@.take(i as int).drop_last() =~= path@.take(i as int - 1));
        }
        if c == '/' {
            proof {
                assert(ext_cut(path@) is None);
            }
            let mut out = path.to_owned();
            out.append(".tmp");
            return out;
        }
        if c == '.' {
            if i >= 2 && path.get_char(i - 2) != '/' {
                proof {
                    assert(path@.take(i as int)[i as int - 2] == path@[i as int - 2]);
                    assert(ext_cut(path@) == Some(i as int - 1));
                }
                let mut out = path.substring_char(0, i - 1).to_owned();
                out.append(".tmp");
                proof {
                    assert(path@.subrange(0, i as int - 1) =~= path@.take(i as int - 1));
                }
                return out;
            } else {
                proof {
                    assert(ext_cut(path@) is None);
                }
                let mut out = path.to_owned();
                out.append(".tmp");
                return out;
            }
        }
        i -= 1;
    }
    proof {
        assert(path@.take(0) =~= Seq::<char>::empty());
        assert(ext_cut(path@) is None);
    }
    let mut out = path.to_owned();
    out.append(".tmp");
    out
}

} // verus!
