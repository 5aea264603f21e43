use vstd::prelude::*;

use crate::mapper::{root_frame, Mapper, MapperView};
use crate::paths::{join_path, joined};

verus! {

/// Where and as whom to connect, and what to copy where.
pub struct Credentials {
    pub url: String,
    pub user: String,
    pub password: String,
    /// The local directory under which each run creates its own root.
    pub out: String,
    /// The remote directory to copy.
    pub remote: String,
    /// How many sessions download at once.
    pub threads: u8,
}

impl Credentials {
    pub fn new(
        url: String,
        user: String,
        password: String,
        out: String,
        remote: String,
        threads: u8,
    ) -> (r: Credentials)
        ensures
            r.url@ == url@,
            r.user@ == user@,
            r.password@ == password@,
            r.out@ == out@,
            r.remote@ == remote@,
            r.threads == threads,
    {
        Credentials { url, user, password, out, remote, threads }
    }

    /// How many sessions the worker pool opens besides the mapping session,
    /// which is reused as a worker: one less than `threads`, and none when
    /// `threads` is zero.
    pub fn extra_sessions(&self) -> (r: u8)
        ensures
            r as int == if self.threads == 0 {
                0
            } else {
                self.threads - 1
            },
    {
        if self.threads == 0 {
            0
        } else {
            self.threads - 1
        }
    }
}

/// The local root of one backup run: `out/osb-<stamp>`.
pub open spec fn run_root(out: Seq<char>, stamp: Seq<char>) -> Seq<char> {
    joined(out, seq!['o', 's', 'b', '-'] + stamp)
}

/// The local destination of one run; every relative path is rooted at `path`.
pub struct Storage {
    pub path: String,
}

/// Relies on chrono's `Local::now` and `format`: the local time of day as
/// text, which names the run's root directory. Nothing about the text is
/// assumed.
#[verifier::external_body]
fn local_stamp() -> (r: String) {
    chrono::offset::Local::now().format("%Y-%m-%d_%H-%M").to_string()
}

impl Storage {
    /// The storage of a run stamped `stamp` under `out`.
    pub fn at(out: &str, stamp: &str) -> (r: Storage)
        ensures
            r.path@ == run_root(out@, stamp@),
    {
        let mut dir = String::from_str("osb-");
        dir.append(stamp);
        proof {
            reveal_strlit("osb-");
            assert(dir@ =~= seq!['o', 's', 'b', '-'] + stamp@);
        }
        Storage { path: join_path(out, dir.as_str()) }
    }

    /// The storage of a run under `out`, stamped with the local time now.
    /// The directory itself is created by the owner of the storage.
    pub fn new(out: &String) -> (r: Storage)
        ensures
            exists|stamp: Seq<char>| r.path@ == run_root(out@, stamp),
    {
        let stamp = local_stamp();
        Storage::at(out.as_str(), stamp.as_str())
    }

    /// The local path of `relative` under the run's root.
    pub fn file_path(&self, relative: &str) -> (r: String)
        ensures
            r@ == joined(self.path@, relative@),
    {
        join_path(self.path.as_str(), relative)
    }

    pub fn clone(&self) -> (r: Storage)
        ensures
            r.path@ == self.path@,
    {
        Storage { path: self.path.clone() }
    }
}

/// Index of the last `/` among the first `n` characters of `s`, or -1.
pub open spec fn last_sep_before(s: Seq<char>, n: int) -> int
    decreases n,
{
    if n <= 0 {
        -1
    } else if s[n - 1] == '/' {
        n - 1
    } else {
        last_sep_before(s, n - 1)
    }
}

pub open spec fn last_sep(s: Seq<char>) -> int {
    last_sep_before(s, s.len() as int)
}

/// What a configured remote directory splits into.
pub struct RemoteTarget {
    /// The absolute path of the directory, downloads are taken from under it.
    pub root: String,
    /// The absolute path of its parent, where mapping starts.
    pub wd: String,
    /// Its name inside `wd`.
    pub name: String,
}

/// Splits the configured remote directory at its last `/`: the part before
/// it, made absolute, is where the session goes; the part after it is the
/// directory to list; the whole, made absolute, is the root of downloads.
pub fn split_remote(remote: &str) -> (r: RemoteTarget)
    ensures
        r.root@ == seq!['/'] + remote@,
        r.wd@ == seq!['/'] + remote@.subrange(0, if last_sep(remote@) < 0 { 0 } else { last_sep(remote@) }),
        r.name@ == remote@.subrange(last_sep(remote@) + 1, remote@.len() as int),
{
    let n = remote.unicode_len();
    let mut i: usize = n;
    while i > 0 && remote.get_char(i - 1) != '/'
        invariant
            n == remote@.len(),
            i <= n,
            last_sep_before(remote@, i as int) == last_sep(remote@),
        decreases i,
    {
        i = i - 1;
    }
    proof {
        reveal_strlit("/");
        assert(last_sep(remote@) == i - 1);
    }
    let name = String::from_str(remote.substring_char(i, n));
    let before = if i == 0 {
        remote.substring_char(0, 0)
    } else {
        remote.substring_char(0, i - 1)
    };
    let mut wd = String::from_str("/");
    wd.append(before);
    let mut root = String::from_str("/");
    root.append(remote);
    RemoteTarget { root, wd, name }
}

/// One backup run: the connection details and the run's local root.
pub struct Backup {
    pub credentials: Credentials,
    pub storage: Storage,
}

impl Backup {
    pub fn new(credentials: Credentials) -> (r: Backup)
        ensures
            r.credentials == credentials,
            exists|stamp: Seq<char>| r.storage.path@ == run_root(credentials.out@, stamp),
    {
        let storage = Storage::new(&credentials.out);
        Backup { credentials, storage }
    }

    /// A mapper of entry `name` of remote directory `wd`, to be driven over
    /// one session.
    pub fn map(&self, wd: &str, name: &str) -> (r: Mapper)
        ensures
            r.wf(),
            r@ == (MapperView {
                frames: seq![root_frame(wd@, name@)],
                manifest: seq![],
                made: Set::empty(),
            }),
    {
        Mapper::new(wd, name)
    }
}

} // verus!
