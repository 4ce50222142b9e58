//! Which files are watched for which URIs, and which URIs a batch of change
//! notifications makes stale.

use vstd::prelude::*;

use crate::event::{is_reload_trigger, touched, WatchMessage};
use crate::path::{law_parent_and_name_make_the_path, parent_of, FilePath, PartModel};
use crate::table::Table;

verus! {

/// What is being watched: the URI that each registered file feeds, by canonical
/// path, and the directories under watch.
pub struct WatchState {
    pub files: Map<Seq<PartModel>, Seq<char>>,
    pub dirs: Set<Seq<PartModel>>,
}

impl WatchState {
    /// Nothing is watched.
    pub open spec fn empty() -> WatchState {
        WatchState { files: Map::empty(), dirs: Set::empty() }
    }

    /// The directories under watch are those that hold a registered file, and no
    /// others.
    pub open spec fn consistent(self) -> bool {
        &&& forall|file: Seq<PartModel>| #[trigger]
            self.files.contains_key(file) ==> parent_of(file) is Some && self.dirs.contains(
                parent_of(file)->0,
            )
        &&& forall|dir: Seq<PartModel>| #[trigger]
            self.dirs.contains(dir) ==> exists|file: Seq<PartModel>| #[trigger]
                self.files.contains_key(file) && parent_of(file) == Some(dir)
    }

    /// Whether `file` is the first file of its directory, so that a watch on the
    /// directory has to be started for it.
    pub open spec fn needs_dir_watch(self, file: Seq<PartModel>) -> bool {
        parent_of(file) matches Some(dir) && !self.dirs.contains(dir)
    }

    /// `file` feeds `uri`, and its directory `dir` is under watch.
    pub open spec fn recorded(
        self,
        file: Seq<PartModel>,
        dir: Seq<PartModel>,
        uri: Seq<char>,
    ) -> WatchState {
        WatchState { files: self.files.insert(file, uri), dirs: self.dirs.insert(dir) }
    }

    /// What a whole request to watch a file for `uri` comes to, given what
    /// resolving the path gave and whether a watch on the directory, where one
    /// was needed, could be started.
    pub open spec fn watched(
        self,
        resolved: Option<Seq<PartModel>>,
        uri: Seq<char>,
        started: bool,
    ) -> WatchState {
        match resolved {
            Some(file) => match parent_of(file) {
                Some(dir) => if self.needs_dir_watch(file) && !started {
                    self
                } else {
                    self.recorded(file, dir, uri)
                },
                None => self,
            },
            None => self,
        }
    }
}

/// The path that resolving gave, if it gave one.
pub open spec fn path_view(resolved: Option<FilePath>) -> Option<Seq<PartModel>> {
    match resolved {
        Some(file) => Some(file@),
        None => None,
    }
}

/// A request to watch a file that waits for a watch on the file's directory.
pub struct PendingWatch {
    uri: String,
    file: FilePath,
    dir: FilePath,
}

impl PendingWatch {
    #[verifier::type_invariant]
    spec fn dir_holds_file(self) -> bool {
        parent_of(self.file@) == Some(self.dir@)
    }

    /// The URI that the file is to feed.
    pub closed spec fn uri_view(self) -> Seq<char> {
        self.uri@
    }

    /// The file to register.
    pub closed spec fn file_view(self) -> Seq<PartModel> {
        self.file@
    }

    /// The directory to watch.
    pub fn dir(&self) -> (dir: &FilePath)
        ensures
            parent_of(self.file_view()) == Some(dir@),
            self.file_view().len() == dir@.len() + 1,
            self.file_view() == dir@.push(self.file_view().last()),
    {
        proof {
            use_type_invariant(self);
            law_parent_and_name_make_the_path(self.file@, self.file@);
        }
        &self.dir
    }
}

/// How far a request to watch a file has come.
pub enum WatchStep {
    /// The path could not be resolved on disk; nothing is watched.
    Unresolved,
    /// The path lies in no directory; nothing is watched.
    NoParent,
    /// The file is the first of its directory. Start a watch on the directory,
    /// then go on with [`NoesisHotReload::finish_watch`], before the next request is
    /// made: until then another file of the directory would be the first, too.
    StartDirWatch(PendingWatch),
    /// The file is registered.
    Recorded,
}

/// The files registered for hot-reload and the directories watched for them.
///
/// Directories are watched rather than files, so that a save that replaces a
/// file still gets noticed; each directory is watched once, however many of its
/// files are registered.
pub struct NoesisHotReload {
    files: Table<FilePath, String>,
    dirs: Table<FilePath, ()>,
}

impl View for NoesisHotReload {
    type V = WatchState;

    closed spec fn view(&self) -> WatchState {
        WatchState { files: self.files@, dirs: self.dirs@.dom() }
    }
}

impl NoesisHotReload {
    #[verifier::type_invariant]
    spec fn is_consistent(self) -> bool {
        self@.consistent()
    }

    /// Nothing registered, nothing watched.
    pub fn new() -> (hot: Self)
        ensures
            hot@ == WatchState::empty(),
            hot@.files == Map::<Seq<PartModel>, Seq<char>>::empty(),
            hot@.dirs == Set::<Seq<PartModel>>::empty(),
    {
        let files = Table::new();
        let dirs = Table::new();
        assert(dirs@.dom() =~= Set::<Seq<PartModel>>::empty());
        NoesisHotReload { files, dirs }
    }

    /// The URI that each registered file feeds, by canonical path.
    pub fn files(&self) -> (files: &Table<FilePath, String>)
        ensures
            files@ == self@.files,
    {
        &self.files
    }

    /// The directories under watch.
    pub fn dirs(&self) -> (dirs: &Table<FilePath, ()>)
        ensures
            dirs@.dom() == self@.dirs,
    {
        &self.dirs
    }

    /// Registers `file`, which lies in `dir`, for `uri`.
    fn record(&mut self, uri: String, file: FilePath, dir: FilePath)
        requires
            parent_of(file@) == Some(dir@),
        ensures
            final(self)@ == old(self)@.recorded(file@, dir@, uri@),
            final(self)@.consistent(),
    {
        proof {
            use_type_invariant(&*self);
        }
        let ghost target = self@.recorded(file@, dir@, uri@);
        proof {
            lemma_recorded_is_consistent(self@, file@, dir@, uri@);
        }
        let mut current = NoesisHotReload::new();
        std::mem::swap(&mut current, self);
        let NoesisHotReload { mut files, mut dirs } = current;
        dirs.insert(dir, ());
        files.insert(file, uri);
        assert(dirs@.dom() =~= target.dirs);
        *self = NoesisHotReload { files, dirs };
    }

    /// Watch a file and have it feed `uri`.
    ///
    /// `resolved` is the file's canonical path, or `None` where the path does not
    /// exist or cannot be resolved: such a request is skipped. Registering the
    /// same file twice is harmless; under another URI, the later one counts.
    pub fn watch(&mut self, uri: String, resolved: Option<FilePath>) -> (step: WatchStep)
        ensures
            match resolved {
                None => step is Unresolved && final(self)@ == old(self)@,
                Some(file) => match parent_of(file@) {
                    None => step is NoParent && final(self)@ == old(self)@,
                    Some(dir) => if old(self)@.dirs.contains(dir) {
                        step is Recorded && final(self)@ == old(self)@.recorded(file@, dir, uri@)
                    } else {
                        &&& step matches WatchStep::StartDirWatch(pending)
                        &&& pending.file_view() == file@
                        &&& pending.uri_view() == uri@
                        &&& final(self)@ == old(self)@
                    },
                },
            },
            match resolved {
                None => true,
                Some(file) => if file@.len() == 0 || file@.last() is RootDir || file@.last() is Prefix {
                    step is NoParent
                } else if old(self)@.dirs.contains(file@.drop_last()) {
                    &&& step is Recorded
                    &&& final(self)@.files == old(self)@.files.insert(file@, uri@)
                    &&& final(self)@.dirs == old(self)@.dirs
                } else {
                    step is StartDirWatch
                },
            },
            !(step is StartDirWatch) ==> forall|started: bool|
                final(self)@ == #[trigger] old(self)@.watched(path_view(resolved), uri@, started),
            final(self)@.consistent(),
    {
        proof {
            use_type_invariant(&*self);
        }
        let file = match resolved {
            Some(file) => file,
            None => return WatchStep::Unresolved,
        };
        let dir = match file.parent() {
            Some(dir) => dir,
            None => return WatchStep::NoParent,
        };
        if self.dirs.lookup(&dir).is_some() {
            self.record(uri, file, dir);
            WatchStep::Recorded
        } else {
            WatchStep::StartDirWatch(PendingWatch { uri, file, dir })
        }
    }

    /// Go on with a request once its directory watch has been tried: where the
    /// watch `started`, the file is registered and its directory counts as
    /// watched; where it did not, everything stays as it was.
    pub fn finish_watch(&mut self, pending: PendingWatch, started: bool) -> (recorded: bool)
        ensures
            recorded == started,
            started ==> parent_of(pending.file_view()) is Some && final(self)@
                == old(self)@.recorded(
                pending.file_view(),
                parent_of(pending.file_view())->0,
                pending.uri_view(),
            ),
            !started ==> final(self)@ == old(self)@,
            started ==> final(self)@.files == old(self)@.files.insert(
                pending.file_view(),
                pending.uri_view(),
            ) && final(self)@.dirs == old(self)@.dirs.insert(pending.file_view().drop_last()),
            started || old(self)@.needs_dir_watch(pending.file_view()) ==> final(self)@
                == old(self)@.watched(Some(pending.file_view()), pending.uri_view(), started),
            final(self)@.consistent(),
    {
        proof {
            use_type_invariant(&*self);
            use_type_invariant(&pending);
        }
        if started {
            let PendingWatch { uri, file, dir } = pending;
            self.record(uri, file, dir);
        }
        started
    }
}

/// The stale URIs, each with the file to re-read for it, after the files under
/// `keys` have changed in that order: a registered file makes the URI it feeds
/// stale, and the file that changed last is the one to re-read.
pub open spec fn stale_after(
    files: Map<Seq<PartModel>, Seq<char>>,
    stale: Map<Seq<char>, Seq<PartModel>>,
    keys: Seq<Seq<PartModel>>,
) -> Map<Seq<char>, Seq<PartModel>>
    decreases keys.len(),
{
    if keys.len() == 0 {
        stale
    } else {
        let before = stale_after(files, stale, keys.drop_last());
        if files.contains_key(keys.last()) {
            before.insert(files[keys.last()], keys.last())
        } else {
            before
        }
    }
}

/// The URIs that `messages` make stale, each with the file to re-read for it.
pub open spec fn stale_uris(state: WatchState, messages: Seq<WatchMessage>) -> Map<
    Seq<char>,
    Seq<PartModel>,
> {
    stale_after(state.files, Map::empty(), touched(messages))
}

/// Adds to `stale` what one message makes stale.
fn note_message(
    hot: &NoesisHotReload,
    stale: &mut Table<String, FilePath>,
    message: &WatchMessage,
)
    ensures
        final(stale)@ == stale_after(hot@.files, old(stale)@, message.keys()),
{
    let event = match message {
        WatchMessage::Event(event) => event,
        WatchMessage::Error => return,
    };
    if !is_reload_trigger(&event.kind) {
        return;
    }
    let ghost keys = message.keys();
    for i in 0..event.paths.len()
        invariant
            keys.len() == event.paths@.len(),
            forall|j: int| 0 <= j < keys.len() ==> #[trigger] keys[j] == event.paths@[j].key_view(),
            stale@ == stale_after(hot@.files, old(stale)@, keys.take(i as int)),
    {
        let key = event.paths[i].key();
        assert(keys.take(i + 1).drop_last() =~= keys.take(i as int));
        assert(keys.take(i + 1).last() == key@);
        if let Some(uri) = hot.files().lookup(key) {
            stale.insert(uri.clone(), key.clone());
        }
    }
    assert(keys.take(keys.len() as int) =~= keys);
}

/// The first half of a poll: which URIs are stale after the pending `messages`,
/// each with the path of the file to re-read for it. Without a watcher none are.
///
/// One save can bring several messages; however many there are, each URI comes
/// out once. Errors and events that leave no new data behind are passed over.
/// The second half, once the files are read, is
/// [`refresh_registry`](crate::xaml::refresh_registry).
pub fn poll_hot_reload(
    hot: Option<&NoesisHotReload>,
    messages: &Vec<WatchMessage>,
) -> (stale: Table<String, FilePath>)
    ensures
        match hot {
            Some(hot) => stale@ == stale_uris(hot@, messages@),
            None => stale@ == Map::<Seq<char>, Seq<PartModel>>::empty(),
        },
{
    let mut stale: Table<String, FilePath> = Table::new();
    let hot = match hot {
        Some(hot) => hot,
        None => return stale,
    };
    for i in 0..messages.len()
        invariant
            stale@ == stale_uris(hot@, messages@.take(i as int)),
    {
        note_message(hot, &mut stale, &messages[i]);
        proof {
            assert(messages@.take(i + 1).drop_last() =~= messages@.take(i as int));
            lemma_stale_in_two_goes(
                hot@.files,
                Map::empty(),
                touched(messages@.take(i as int)),
                messages@[i as int].keys(),
            );
        }
    }
    assert(messages@.take(messages@.len() as int) =~= messages@);
    stale
}

/// Registering a file along with its directory keeps the two in step.
pub proof fn lemma_recorded_is_consistent(
    state: WatchState,
    file: Seq<PartModel>,
    dir: Seq<PartModel>,
    uri: Seq<char>,
)
    requires
        state.consistent(),
        parent_of(file) == Some(dir),
    ensures
        state.recorded(file, dir, uri).consistent(),
{
    let after = state.recorded(file, dir, uri);
    assert forall|d: Seq<PartModel>| #[trigger] after.dirs.contains(d) implies exists|
        f: Seq<PartModel>,
    | #[trigger] after.files.contains_key(f) && parent_of(f) == Some(d) by {
        if d == dir {
            assert(after.files.contains_key(file));
        } else {
            assert(state.dirs.contains(d));
            let f = choose|f: Seq<PartModel>| #[trigger]
                state.files.contains_key(f) && parent_of(f) == Some(d);
            assert(after.files.contains_key(f));
        }
    }
}

/// Changes noted in two goes are the changes noted in one.
pub proof fn lemma_stale_in_two_goes(
    files: Map<Seq<PartModel>, Seq<char>>,
    stale: Map<Seq<char>, Seq<PartModel>>,
    first: Seq<Seq<PartModel>>,
    second: Seq<Seq<PartModel>>,
)
    ensures
        stale_after(files, stale, first + second) == stale_after(
            files,
            stale_after(files, stale, first),
            second,
        ),
    decreases second.len(),
{
    if second.len() == 0 {
        assert(first + second =~= first);
    } else {
        lemma_stale_in_two_goes(files, stale, first, second.drop_last());
        assert((first + second).drop_last() =~= first + second.drop_last());
        assert((first + second).last() == second.last());
    }
}

} // verus!
