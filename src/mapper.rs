use vstd::prelude::*;

use crate::listing::{classify, kind_of_line, is_backup_artifact, is_backup_name, ItemType, ListingError, RemoteEntry};
use crate::paths::{join_path, joined, sep};

verus! {

/// Where a directory being mapped stands.
#[derive(PartialEq, Eq, Structural, Clone, Copy, Debug)]
pub enum Stage {
    /// The session must first change to the directory's parent.
    Navigate,
    /// The directory must be listed next.
    List,
    /// A listing was asked for and has not come back yet.
    AwaitListing,
    /// The listing is known; its entries are being walked.
    Walk,
}

/// What the session or the local storage has to do next.
pub enum MapAction {
    /// Create this local subdirectory (relative to the backup root).
    MakeDir(String),
    /// Change the session's current directory to this path.
    Navigate(String),
    /// List this entry of the current directory, then hand both listings to
    /// `Mapper::listed`.
    List(String),
    /// The tree is mapped.
    Done,
}

/// The model of an action.
pub enum ActionView {
    MakeDir(Seq<char>),
    Navigate(Seq<char>),
    List(Seq<char>),
    Done,
}

impl View for MapAction {
    type V = ActionView;

    open spec fn view(&self) -> ActionView {
        match self {
            MapAction::MakeDir(s) => ActionView::MakeDir(s@),
            MapAction::Navigate(s) => ActionView::Navigate(s@),
            MapAction::List(s) => ActionView::List(s@),
            MapAction::Done => ActionView::Done,
        }
    }
}

/// The model of one directory on the traversal stack.
pub struct FrameView {
    /// The path the session navigates to before listing this directory.
    pub wd: Seq<char>,
    /// The directory's name inside `wd`.
    pub name: Seq<char>,
    /// The local folder of this directory; `None` for the traversal root.
    pub folder: Option<Seq<char>>,
    /// Its entries, once listed: names and kinds.
    pub entries: Seq<(Seq<char>, ItemType)>,
    /// The next entry to walk.
    pub next: int,
    pub stage: Stage,
}

/// The model of a mapper.
pub struct MapperView {
    /// The directories being mapped, the traversal root first.
    pub frames: Seq<FrameView>,
    /// The relative paths of the files found so far, in traversal order.
    pub manifest: Seq<Seq<char>>,
    /// The local folders whose creation was asked for so far.
    pub made: Set<Seq<char>>,
}

/// The manifest path of entry `name` of the directory whose folder is `folder`.
pub open spec fn entry_path(folder: Option<Seq<char>>, name: Seq<char>) -> Seq<char> {
    match folder {
        Some(f) => joined(f, name),
        None => name,
    }
}

/// A file entry that belongs in the manifest.
pub open spec fn is_kept_file(e: (Seq<char>, ItemType)) -> bool {
    e.1 == ItemType::File && !is_backup_name(e.0)
}

/// The manifest paths of the kept files among `entries[lo..hi]`, in order.
pub open spec fn kept_paths(
    folder: Option<Seq<char>>,
    entries: Seq<(Seq<char>, ItemType)>,
    lo: int,
    hi: int,
) -> Seq<Seq<char>>
    decreases hi - lo,
{
    if hi <= lo {
        seq![]
    } else {
        let prev = kept_paths(folder, entries, lo, hi - 1);
        if is_kept_file(entries[hi - 1]) {
            prev.push(entry_path(folder, entries[hi - 1].0))
        } else {
            prev
        }
    }
}

/// The index of the first directory among `entries` from `i` on, or the
/// length where there is none.
pub open spec fn next_dir(entries: Seq<(Seq<char>, ItemType)>, i: int) -> int
    decreases entries.len() - i,
{
    if i >= entries.len() {
        entries.len() as int
    } else if entries[i].1 == ItemType::Dir {
        i
    } else {
        next_dir(entries, i + 1)
    }
}

/// The frame that the traversal starts from.
pub open spec fn root_frame(wd: Seq<char>, name: Seq<char>) -> FrameView {
    FrameView {
        wd,
        name,
        folder: None,
        entries: seq![],
        next: 0,
        stage: Stage::Navigate,
    }
}

/// The frame of subdirectory `j` of frame `top`.
pub open spec fn child_frame(top: FrameView, j: int) -> FrameView {
    FrameView {
        wd: joined(top.wd, top.name),
        name: top.entries[j].0,
        folder: Some(entry_path(top.folder, top.entries[j].0)),
        entries: seq![],
        next: 0,
        stage: Stage::Navigate,
    }
}

/// The action that a mapper in state `v` asks for next.
pub open spec fn action_of(v: MapperView) -> ActionView {
    if v.frames.len() == 0 {
        ActionView::Done
    } else {
        let top = v.frames.last();
        match top.stage {
            Stage::Navigate => ActionView::Navigate(top.wd),
            Stage::List => ActionView::List(top.name),
            Stage::AwaitListing => ActionView::Done,
            Stage::Walk => {
                let j = next_dir(top.entries, top.next);
                if j < top.entries.len() {
                    ActionView::MakeDir(entry_path(top.folder, top.entries[j].0))
                } else if v.frames.len() == 1 {
                    ActionView::Done
                } else {
                    let parent = v.frames[v.frames.len() - 2];
                    ActionView::Navigate(joined(parent.wd, parent.name))
                }
            },
        }
    }
}

/// The state of a mapper in state `v` once it has asked for its next action.
pub open spec fn after_action(v: MapperView) -> MapperView {
    if v.frames.len() == 0 {
        v
    } else {
        let top = v.frames.last();
        let rest = v.frames.drop_last();
        match top.stage {
            Stage::Navigate => MapperView {
                frames: rest.push(FrameView { stage: Stage::List, ..top }),
                ..v
            },
            Stage::List => MapperView {
                frames: rest.push(FrameView { stage: Stage::AwaitListing, ..top }),
                ..v
            },
            Stage::AwaitListing => v,
            Stage::Walk => {
                let j = next_dir(top.entries, top.next);
                let manifest = v.manifest + kept_paths(top.folder, top.entries, top.next, j);
                if j < top.entries.len() {
                    let child = child_frame(top, j);
                    MapperView {
                        frames: rest.push(FrameView { next: j + 1, ..top }).push(child),
                        manifest,
                        made: v.made.insert(child.folder.unwrap()),
                    }
                } else {
                    MapperView { frames: rest, manifest, made: v.made }
                }
            },
        }
    }
}

/// The state of a mapper in state `v` once the listing `entries` came back.
pub open spec fn after_listing(v: MapperView, entries: Seq<(Seq<char>, ItemType)>) -> MapperView {
    let top = v.frames.last();
    MapperView {
        frames: v.frames.drop_last().push(
            FrameView { entries, next: 0, stage: Stage::Walk, ..top },
        ),
        ..v
    }
}

/// The entries that a plain and a detailed listing of equal length describe.
pub open spec fn listing_entries(names: Seq<String>, detailed: Seq<String>) -> Seq<(Seq<char>, ItemType)> {
    Seq::new(names.len(), |i: int| (names[i]@, kind_of_line(detailed[i]@)))
}

/// The mapper is consistent: entries are walked within bounds, only the top
/// directory may be unwalked, only the root has no local folder, and the
/// folder of every directory on the stack was asked to be created.
pub open spec fn mapper_wf(v: MapperView) -> bool {
    forall|i: int|
        0 <= i < v.frames.len() ==> {
            let f = #[trigger] v.frames[i];
            &&& 0 <= f.next <= f.entries.len()
            &&& (i < v.frames.len() - 1 ==> f.stage == Stage::Walk)
            &&& (f.folder is None <==> i == 0)
            &&& (f.folder matches Some(d) ==> v.made.contains(d))
        }
}

/// A mapper that waits for a listing.
pub open spec fn awaits_listing(v: MapperView) -> bool {
    v.frames.len() > 0 && v.frames.last().stage == Stage::AwaitListing
}

proof fn lemma_kept_paths_under(d: Seq<char>, e: Seq<(Seq<char>, ItemType)>, lo: int, hi: int)
    ensures
        forall|k: int|
            0 <= k < kept_paths(Some(d), e, lo, hi).len() ==> (d + sep()).is_prefix_of(
                #[trigger] kept_paths(Some(d), e, lo, hi)[k],
            ),
    decreases hi - lo,
{
    if hi > lo {
        lemma_kept_paths_under(d, e, lo, hi - 1);
        let prev = kept_paths(Some(d), e, lo, hi - 1);
        let cur = kept_paths(Some(d), e, lo, hi);
        let p = entry_path(Some(d), e[hi - 1].0);
        assert((d + sep()).is_prefix_of(p)) by {
            assert(p =~= (d + sep()) + e[hi - 1].0);
            assert(p.subrange(0, (d + sep()).len() as int) =~= d + sep());
        }
        assert forall|k: int| 0 <= k < cur.len() implies (d + sep()).is_prefix_of(
            #[trigger] cur[k],
        ) by {
            if k < prev.len() {
                assert(cur[k] == prev[k]);
            } else {
                assert(cur[k] == p);
            }
        }
    }
}

/// Directories are created before the files beneath them are listed: each
/// path that a walk step adds to the manifest lies in the local folder of the
/// directory being walked, and the creation of that folder was asked for in
/// an earlier action. Files of the traversal root lie in no folder.
pub proof fn lemma_folder_made_before_files(v: MapperView)
    requires
        mapper_wf(v),
        v.frames.len() > 0,
        v.frames.last().stage == Stage::Walk,
    ensures
        forall|k: int|
            v.manifest.len() <= k < after_action(v).manifest.len() ==> match v.frames.last().folder {
                Some(d) => v.made.contains(d) && (d + sep()).is_prefix_of(
                    #[trigger] after_action(v).manifest[k],
                ),
                None => true,
            },
{
    let top = v.frames.last();
    assert(v.frames[v.frames.len() - 1] == top);
    let j = next_dir(top.entries, top.next);
    let added = kept_paths(top.folder, top.entries, top.next, j);
    if let Some(d) = top.folder {
        lemma_kept_paths_under(d, top.entries, top.next, j);
        assert forall|k: int| v.manifest.len() <= k < after_action(v).manifest.len() implies (d
            + sep()).is_prefix_of(#[trigger] after_action(v).manifest[k]) by {
            assert(after_action(v).manifest[k] == added[k - v.manifest.len()]);
        }
    }
}

/// One directory on the traversal stack.
struct Frame {
    wd: String,
    name: String,
    folder: Option<String>,
    entries: Vec<RemoteEntry>,
    next: usize,
    stage: Stage,
}

pub open spec fn opt_view(o: Option<String>) -> Option<Seq<char>> {
    match o {
        Some(f) => Some(f@),
        None => None,
    }
}

pub open spec fn entries_view(entries: Seq<RemoteEntry>) -> Seq<(Seq<char>, ItemType)> {
    entries.map_values(|e: RemoteEntry| (e.name@, e.kind))
}

impl View for Frame {
    type V = FrameView;

    closed spec fn view(&self) -> FrameView {
        FrameView {
            wd: self.wd@,
            name: self.name@,
            folder: opt_view(self.folder),
            entries: entries_view(self.entries@),
            next: self.next as int,
            stage: self.stage,
        }
    }
}

/// A depth-first traversal of a remote tree over one stateful session.
///
/// The mapper decides; its owner performs each action that `next_action`
/// asks for and hands every listing back through `listed`.
pub struct Mapper {
    frames: Vec<Frame>,
    manifest: Vec<String>,
    made: Ghost<Set<Seq<char>>>,
}

impl View for Mapper {
    type V = MapperView;

    closed spec fn view(&self) -> MapperView {
        MapperView {
            frames: self.frames@.map_values(|f: Frame| f@),
            manifest: self.manifest@.map_values(|s: String| s@),
            made: self.made@,
        }
    }
}

/// The manifest path of entry `name` of the directory whose folder is `folder`.
fn entry_path_of(folder: &Option<String>, name: &String) -> (r: String)
    ensures
        r@ == entry_path(opt_view(*folder), name@),
{
    match folder {
        Some(f) => join_path(f.as_str(), name.as_str()),
        None => name.clone(),
    }
}

impl Mapper {
    pub open spec fn wf(&self) -> bool {
        mapper_wf(self@)
    }

    /// A mapper of entry `name` of remote directory `wd`.
    pub fn new(wd: &str, name: &str) -> (r: Mapper)
        ensures
            r.wf(),
            r@ == (MapperView {
                frames: seq![root_frame(wd@, name@)],
                manifest: seq![],
                made: Set::empty(),
            }),
    {
        let root = Frame {
            wd: String::from_str(wd),
            name: String::from_str(name),
            folder: None,
            entries: Vec::new(),
            next: 0,
            stage: Stage::Navigate,
        };
        proof {
            assert(entries_view(root.entries@) =~= seq![]);
            assert(root@ == root_frame(wd@, name@));
        }
        let mut frames: Vec<Frame> = Vec::new();
        frames.push(root);
        let r = Mapper { frames, manifest: Vec::new(), made: Ghost(Set::empty()) };
        proof {
            assert(r@.frames =~= seq![root_frame(wd@, name@)]);
            assert(r@.manifest =~= Seq::<Seq<char>>::empty());
        }
        r
    }

    /// Whether the whole tree is mapped.
    pub fn is_done(&self) -> (r: bool)
        ensures
            r == (self@.frames.len() == 0),
    {
        self.frames.len() == 0
    }

    /// Whether the mapper waits for the listing it asked for.
    pub fn awaiting_listing(&self) -> (r: bool)
        ensures
            r == awaits_listing(self@),
    {
        let n = self.frames.len();
        n > 0 && self.frames[n - 1].stage == Stage::AwaitListing
    }

    /// Asks for the next action and records that it is under way. Files met
    /// on the way to the next subdirectory join the manifest, unless they are
    /// backup artifacts.
    pub fn next_action(&mut self) -> (a: MapAction)
        requires
            old(self).wf(),
            !awaits_listing(old(self)@),
        ensures
            final(self).wf(),
            a@ == action_of(old(self)@),
            final(self)@ == after_action(old(self)@),
    {
        let ghost v0 = self@;
        let top_opt = self.frames.pop();
        let mut top = match top_opt {
            Some(t) => t,
            None => {
                return MapAction::Done;
            },
        };
        proof {
            assert(self.frames@ == old(self).frames@.drop_last());
            assert(self@.frames =~= v0.frames.drop_last());
            assert(top@ == v0.frames.last());
            assert(v0.frames[v0.frames.len() - 1] == top@);
        }
        match top.stage {
            Stage::Navigate => {
                let a = MapAction::Navigate(top.wd.clone());
                top.stage = Stage::List;
                self.frames.push(top);
                proof {
                    assert(self@.frames =~= after_action(v0).frames);
                }
                a
            },
            Stage::List => {
                let a = MapAction::List(top.name.clone());
                top.stage = Stage::AwaitListing;
                self.frames.push(top);
                proof {
                    assert(self@.frames =~= after_action(v0).frames);
                }
                a
            },
            Stage::AwaitListing => {
                self.frames.push(top);
                proof {
                    assert(self@.frames =~= v0.frames);
                }
                MapAction::Done
            },
            Stage::Walk => {
                let ghost t = top@;
                let mut i: usize = top.next;
                while i < top.entries.len() && top.entries[i].kind == ItemType::File
                    invariant
                        top@ == t,
                        t.next <= i <= t.entries.len(),
                        next_dir(t.entries, t.next) == next_dir(t.entries, i as int),
                        self@.frames == v0.frames.drop_last(),
                        self@.made == v0.made,
                        self@.manifest == v0.manifest + kept_paths(
                            t.folder,
                            t.entries,
                            t.next,
                            i as int,
                        ),
                    decreases top.entries@.len() - i,
                {
                    proof {
                        assert(t.entries[i as int] == (top.entries@[i as int].name@, top.entries@[i as int].kind));
                        assert(opt_view(top.folder) == t.folder);
                    }
                    let ghost prev = self@.manifest;
                    if !is_backup_artifact(top.entries[i].name.as_str()) {
                        let p = entry_path_of(&top.folder, &top.entries[i].name);
                        self.manifest.push(p);
                        proof {
                            assert(is_kept_file(t.entries[i as int]));
                            assert(self@.manifest =~= prev.push(p@));
                        }
                    } else {
                        proof {
                            assert(!is_kept_file(t.entries[i as int]));
                        }
                    }
                    proof {
                        assert(self@.manifest =~= v0.manifest + kept_paths(
                            t.folder,
                            t.entries,
                            t.next,
                            i + 1,
                        ));
                    }
                    i = i + 1;
                }
                proof {
                    assert(next_dir(t.entries, i as int) == i);
                }
                if i < top.entries.len() {
                    proof {
                        assert(t.entries[i as int] == (top.entries@[i as int].name@, top.entries@[i as int].kind));
                    }
                    let child_folder = entry_path_of(&top.folder, &top.entries[i].name);
                    let child = Frame {
                        wd: join_path(top.wd.as_str(), top.name.as_str()),
                        name: top.entries[i].name.clone(),
                        folder: Some(child_folder.clone()),
                        entries: Vec::new(),
                        next: 0,
                        stage: Stage::Navigate,
                    };
                    top.next = i + 1;
                    self.frames.push(top);
                    self.frames.push(child);
                    self.made = Ghost(self.made@.insert(child_folder@));
                    proof {
                        assert(entries_view(child.entries@) =~= seq![]);
                        assert(child@ == child_frame(t, i as int));
                        assert(self@.frames =~= after_action(v0).frames);
                        assert(self@.manifest == after_action(v0).manifest);
                        assert forall|k: int| 0 <= k < self@.frames.len() implies {
                            let f = #[trigger] self@.frames[k];
                            &&& 0 <= f.next <= f.entries.len()
                            &&& (k < self@.frames.len() - 1 ==> f.stage == Stage::Walk)
                            &&& (f.folder is None <==> k == 0)
                            &&& (f.folder matches Some(d) ==> self@.made.contains(d))
                        } by {
                            if k < v0.frames.len() - 1 {
                                assert(self@.frames[k] == v0.frames[k]);
                            }
                        }
                    }
                    MapAction::MakeDir(child_folder)
                } else {
                    let n = self.frames.len();
                    proof {
                        assert(self@.frames =~= after_action(v0).frames);
                        assert forall|k: int| 0 <= k < self@.frames.len() implies {
                            let f = #[trigger] self@.frames[k];
                            &&& 0 <= f.next <= f.entries.len()
                            &&& (k < self@.frames.len() - 1 ==> f.stage == Stage::Walk)
                            &&& (f.folder is None <==> k == 0)
                            &&& (f.folder matches Some(d) ==> self@.made.contains(d))
                        } by {
                            assert(self@.frames[k] == v0.frames[k]);
                        }
                    }
                    if n == 0 {
                        MapAction::Done
                    } else {
                        proof {
                            assert(self@.frames[n - 1] == self.frames@[n - 1]@);
                            assert(self.frames@[n - 1]@ == v0.frames[v0.frames.len() - 2]);
                        }
                        MapAction::Navigate(
                            join_path(self.frames[n - 1].wd.as_str(), self.frames[n - 1].name.as_str()),
                        )
                    }
                }
            },
        }
    }

    /// Takes the plain and the detailed listing that the last `List` action
    /// produced. On a length mismatch nothing changes and the error is
    /// returned.
    pub fn listed(&mut self, names: &Vec<String>, detailed: &Vec<String>) -> (r: Result<
        (),
        ListingError,
    >)
        requires
            old(self).wf(),
            awaits_listing(old(self)@),
        ensures
            final(self).wf(),
            r is Err <==> names@.len() != detailed@.len(),
            r is Err ==> r == Err::<(), ListingError>(ListingError::CountMismatch) && final(self)@
                == old(self)@,
            r is Ok ==> final(self)@ == after_listing(old(self)@, listing_entries(names@, detailed@)),
    {
        let entries = match classify(names, detailed) {
            Ok(e) => e,
            Err(e) => {
                return Err(e);
            },
        };
        let ghost v0 = self@;
        let mut top = self.frames.pop().unwrap();
        proof {
            assert(self@.frames =~= v0.frames.drop_last());
            assert(v0.frames[v0.frames.len() - 1] == top@);
            assert(entries_view(entries@) =~= listing_entries(names@, detailed@));
        }
        top.entries = entries;
        top.next = 0;
        top.stage = Stage::Walk;
        self.frames.push(top);
        proof {
            assert(self@.frames =~= after_listing(v0, listing_entries(names@, detailed@)).frames);
            assert forall|k: int| 0 <= k < self@.frames.len() implies {
                let f = #[trigger] self@.frames[k];
                &&& 0 <= f.next <= f.entries.len()
                &&& (k < self@.frames.len() - 1 ==> f.stage == Stage::Walk)
                &&& (f.folder is None <==> k == 0)
                &&& (f.folder matches Some(d) ==> self@.made.contains(d))
            } by {
                assert(v0.frames[k] == v0.frames[k]);
            }
        }
        Ok(())
    }

    /// The paths found, once the tree is mapped.
    pub fn into_manifest(self) -> (r: Vec<String>)
        ensures
            r@.map_values(|s: String| s@) == self@.manifest,
    {
        self.manifest
    }
}

} // verus!
