//! What holds of hot-reload as a whole, across requests, polls and re-reads.

use vstd::prelude::*;

use crate::event::{
    law_batches_join, law_changes_that_a_message_reports, law_touched_by_triggering_events, touched,
    WatchMessage,
};
use crate::hot_reload::{lemma_recorded_is_consistent, stale_after, stale_uris, WatchState};
use crate::path::{law_parent_of_what_is_put_into_a_directory, parent_of, PartModel};
use crate::xaml::{refreshed, successes, FileRead};

verus! {

/// Whatever comes of a request, the directories under watch stay those that hold
/// a registered file.
pub proof fn law_requests_keep_consistency(
    state: WatchState,
    resolved: Option<Seq<PartModel>>,
    uri: Seq<char>,
    started: bool,
)
    requires
        state.consistent(),
    ensures
        state.watched(resolved, uri, started).consistent(),
{
    if resolved is Some && parent_of(resolved->0) is Some {
        let file = resolved->0;
        lemma_recorded_is_consistent(state, file, parent_of(file)->0, uri);
    }
}

/// Registering the same file twice is harmless: once a request has registered a
/// file, repeating it changes nothing and asks for no directory watch.
pub proof fn law_repeated_request_is_harmless(
    state: WatchState,
    file: Seq<PartModel>,
    uri: Seq<char>,
    started: bool,
    started_again: bool,
)
    requires
        parent_of(file) is Some,
        started || !state.needs_dir_watch(file),
    ensures
        ({
            let once = state.watched(Some(file), uri, started);
            &&& once.files.contains_key(file)
            &&& once.files[file] == uri
            &&& !once.needs_dir_watch(file)
            &&& once.watched(Some(file), uri, started_again) == once
        }),
{
    let once = state.watched(Some(file), uri, started);
    let twice = once.watched(Some(file), uri, started_again);
    assert(twice.files =~= once.files);
    assert(twice.dirs =~= once.dirs);
}

/// A directory is watched once, however many of its files are registered: after
/// one file of a directory is registered, no other needs a directory watch, and
/// registering it leaves the watched directories as they are.
pub proof fn law_one_watch_per_directory(
    state: WatchState,
    first: Seq<PartModel>,
    first_uri: Seq<char>,
    second: Seq<PartModel>,
    second_uri: Seq<char>,
    started: bool,
)
    requires
        parent_of(first) is Some,
        parent_of(second) == parent_of(first),
    ensures
        ({
            let one = state.watched(Some(first), first_uri, true);
            let two = one.watched(Some(second), second_uri, started);
            &&& one.dirs == state.dirs.insert(parent_of(first)->0)
            &&& !one.needs_dir_watch(second)
            &&& two.dirs == one.dirs
            &&& two.files == one.files.insert(second, second_uri)
        }),
{
    let one = state.watched(Some(first), first_uri, true);
    let two = one.watched(Some(second), second_uri, started);
    assert(two.dirs =~= one.dirs);
}

/// A request that cannot be met leaves no trace: the path does not resolve, or
/// lies in no directory, or the watch on its directory cannot be started.
pub proof fn law_failed_request_leaves_no_trace(
    state: WatchState,
    resolved: Option<Seq<PartModel>>,
    uri: Seq<char>,
)
    requires
        resolved matches Some(file) ==> parent_of(file) is None || state.needs_dir_watch(file),
    ensures
        state.watched(resolved, uri, false) == state,
{
}

/// A request changes what its own file feeds and nothing else; registering a
/// file again under another URI makes the later URI count.
pub proof fn law_request_touches_its_file_only(
    state: WatchState,
    file: Seq<PartModel>,
    uri: Seq<char>,
    started: bool,
    other: Seq<PartModel>,
)
    ensures
        ({
            let after = state.watched(Some(file), uri, started);
            &&& other != file ==> (after.files.contains_key(other)
                <==> state.files.contains_key(other))
            &&& other != file && state.files.contains_key(other) ==> after.files[other]
                == state.files[other]
            &&& parent_of(file) is Some && (started || !state.needs_dir_watch(file))
                ==> after.files.contains_key(file) && after.files[file] == uri
        }),
{
}

/// `key` is a registered file that feeds `uri`.
pub open spec fn feeds(
    files: Map<Seq<PartModel>, Seq<char>>,
    key: Seq<PartModel>,
    uri: Seq<char>,
) -> bool {
    files.contains_key(key) && files[key] == uri
}

/// Of the changes `keys`, the one at `i` is the last to a file that feeds `uri`.
pub open spec fn is_last_change(
    files: Map<Seq<PartModel>, Seq<char>>,
    keys: Seq<Seq<PartModel>>,
    uri: Seq<char>,
    i: int,
) -> bool {
    &&& 0 <= i < keys.len()
    &&& feeds(files, keys[i], uri)
    &&& forall|j: int| i < j < keys.len() ==> !feeds(files, #[trigger] keys[j], uri)
}

/// A URI is stale exactly when a registered file that feeds it has changed, and
/// the file to re-read for it is the one of those that changed last.
pub proof fn law_stale_is_last_change(
    files: Map<Seq<PartModel>, Seq<char>>,
    keys: Seq<Seq<PartModel>>,
    uri: Seq<char>,
)
    ensures
        ({
            let stale = stale_after(files, Map::empty(), keys);
            &&& stale.contains_key(uri) <==> exists|i: int|
                0 <= i < keys.len() && feeds(files, #[trigger] keys[i], uri)
            &&& stale.contains_key(uri) ==> exists|i: int| #[trigger]
                is_last_change(files, keys, uri, i) && stale[uri] == keys[i]
        }),
    decreases keys.len(),
{
    if keys.len() > 0 {
        let front = keys.drop_last();
        let stale = stale_after(files, Map::empty(), keys);
        let before = stale_after(files, Map::empty(), front);
        let n = keys.len() - 1;
        law_stale_is_last_change(files, front, uri);
        if feeds(files, keys.last(), uri) {
            assert(keys[n] == keys.last());
            assert(is_last_change(files, keys, uri, n));
        } else {
            if before.contains_key(uri) {
                let i = choose|i: int| #[trigger]
                    is_last_change(files, front, uri, i) && before[uri] == front[i];
                assert(keys[i] == front[i]);
                assert forall|j: int| i < j < keys.len() implies !feeds(
                    files,
                    #[trigger] keys[j],
                    uri,
                ) by {
                    if j < n {
                        assert(keys[j] == front[j]);
                    }
                }
                assert(is_last_change(files, keys, uri, i));
            }
            if exists|i: int| 0 <= i < keys.len() && feeds(files, #[trigger] keys[i], uri) {
                let i = choose|i: int| 0 <= i < keys.len() && feeds(files, #[trigger] keys[i], uri);
                assert(front[i] == keys[i]);
            }
        }
    }
}

/// A burst of messages collapses: hearing the same messages twice makes the same
/// URIs stale, with the same files to re-read, as hearing them once.
pub proof fn law_repeated_messages_collapse(state: WatchState, messages: Seq<WatchMessage>)
    ensures
        stale_uris(state, messages + messages) == stale_uris(state, messages),
{
    law_batches_join(messages, messages);
    let keys = touched(messages);
    let once = stale_uris(state, messages);
    let twice = stale_uris(state, messages + messages);
    let n = keys.len() as int;
    assert forall|uri: Seq<char>|
        once.contains_key(uri) == #[trigger] twice.contains_key(uri) && (once.contains_key(uri)
            ==> once[uri] == twice[uri]) by {
        law_stale_is_last_change(state.files, keys, uri);
        law_stale_is_last_change(state.files, keys + keys, uri);
        if once.contains_key(uri) {
            let i = choose|i: int| #[trigger]
                is_last_change(state.files, keys, uri, i) && once[uri] == keys[i];
            assert((keys + keys)[i] == keys[i]);
            let k = choose|k: int| #[trigger]
                is_last_change(state.files, keys + keys, uri, k) && twice[uri] == (keys + keys)[k];
            assert((keys + keys)[n + i] == keys[i]);
            assert(k >= n + i);
            assert((keys + keys)[k] == keys[k - n]);
        }
        if twice.contains_key(uri) {
            let k = choose|k: int|
                0 <= k < (keys + keys).len() && feeds(state.files, #[trigger] (keys + keys)[k], uri);
            if k < n {
                assert(feeds(state.files, keys[k], uri));
            } else {
                assert(feeds(state.files, keys[k - n], uri));
            }
        }
    }
    assert(once =~= twice);
}

/// Where no two files feed the same URI, it matters only which registered files
/// have changed: not in what order, how often, or in how many messages.
pub proof fn law_only_the_changed_files_matter(
    state: WatchState,
    first: Seq<WatchMessage>,
    second: Seq<WatchMessage>,
)
    requires
        forall|a: Seq<PartModel>, b: Seq<PartModel>| #[trigger]
            state.files.contains_key(a) && #[trigger] state.files.contains_key(b) && state.files[a]
                == state.files[b] ==> a == b,
        forall|file: Seq<PartModel>| #[trigger]
            state.files.contains_key(file) ==> (touched(first).contains(file)
                <==> touched(second).contains(file)),
    ensures
        stale_uris(state, first) == stale_uris(state, second),
{
    let a = stale_uris(state, first);
    let b = stale_uris(state, second);
    assert forall|uri: Seq<char>|
        a.contains_key(uri) == #[trigger] b.contains_key(uri) && (a.contains_key(uri) ==> a[uri]
            == b[uri]) by {
        lemma_stale_file_is_touched(state, first, uri);
        lemma_stale_file_is_touched(state, second, uri);
    }
    assert(a =~= b);
}

/// A stale URI comes with a changed file that feeds it; a changed file that feeds
/// a URI makes it stale.
proof fn lemma_stale_file_is_touched(
    state: WatchState,
    messages: Seq<WatchMessage>,
    uri: Seq<char>,
)
    ensures
        ({
            let stale = stale_uris(state, messages);
            &&& stale.contains_key(uri) ==> feeds(state.files, stale[uri], uri) && touched(
                messages,
            ).contains(stale[uri])
            &&& forall|file: Seq<PartModel>| #[trigger]
                touched(messages).contains(file) && feeds(state.files, file, uri)
                    ==> stale.contains_key(uri)
        }),
{
    let keys = touched(messages);
    let stale = stale_uris(state, messages);
    law_stale_is_last_change(state.files, keys, uri);
    if stale.contains_key(uri) {
        let i = choose|i: int| #[trigger]
            is_last_change(state.files, keys, uri, i) && stale[uri] == keys[i];
        assert(keys.contains(keys[i]));
    }
    assert forall|file: Seq<PartModel>| #[trigger]
        keys.contains(file) && feeds(state.files, file, uri) implies stale.contains_key(uri) by {
        let i = choose|i: int| 0 <= i < keys.len() && keys[i] == file;
        assert(feeds(state.files, keys[i], uri));
    }
}

/// The bytes of a read, or nothing where it failed.
pub open spec fn bytes_of(read: FileRead) -> Option<Seq<u8>> {
    match read.bytes {
        Some(bytes) => Some(bytes@),
        None => None,
    }
}

/// `reads` is what re-reading the stale files gives when `disk` says what reading
/// a path gives: one read for each stale URI, in whatever order.
pub open spec fn answers(
    reads: Seq<FileRead>,
    stale: Map<Seq<char>, Seq<PartModel>>,
    disk: spec_fn(Seq<PartModel>) -> Option<Seq<u8>>,
) -> bool {
    &&& forall|i: int, j: int|
        0 <= i < j < reads.len() ==> (#[trigger] reads[i]).uri@ != (#[trigger] reads[j]).uri@
    &&& forall|i: int|
        0 <= i < reads.len() ==> stale.contains_key((#[trigger] reads[i]).uri@) && bytes_of(reads[i])
            == disk(stale[reads[i].uri@])
    &&& forall|uri: Seq<char>| #[trigger]
        stale.contains_key(uri) ==> exists|i: int|
            0 <= i < reads.len() && (#[trigger] reads[i]).uri@ == uri
}

/// What a refresh does to one URI: a successful read of it, where there is one
/// and only one, replaces its bytes; otherwise they stay.
proof fn lemma_refreshed(
    registry: Map<Seq<char>, Seq<u8>>,
    reads: Seq<FileRead>,
    uri: Seq<char>,
)
    requires
        forall|i: int, j: int|
            0 <= i < j < reads.len() ==> (#[trigger] reads[i]).uri@ != (#[trigger] reads[j]).uri@,
    ensures
        forall|i: int|
            0 <= i < reads.len() && (#[trigger] reads[i]).uri@ == uri && reads[i].bytes is Some
                ==> refreshed(registry, reads).contains_key(uri) && refreshed(registry, reads)[uri]
                == reads[i].bytes->0@,
        (forall|i: int|
            0 <= i < reads.len() && (#[trigger] reads[i]).uri@ == uri ==> reads[i].bytes is None)
            ==> (refreshed(registry, reads).contains_key(uri) <==> registry.contains_key(uri)) && (
        registry.contains_key(uri) ==> refreshed(registry, reads)[uri] == registry[uri]),
    decreases reads.len(),
{
    if reads.len() > 0 {
        let front = reads.drop_last();
        let n = reads.len() - 1;
        assert(reads[n] == reads.last());
        assert forall|i: int, j: int| 0 <= i < j < front.len() implies (#[trigger] front[i]).uri@
            != (#[trigger] front[j]).uri@ by {
            assert(reads[i] == front[i]);
            assert(reads[j] == front[j]);
        }
        lemma_refreshed(registry, front, uri);
        assert forall|i: int|
            0 <= i < reads.len() && (#[trigger] reads[i]).uri@ == uri
                && reads[i].bytes is Some implies refreshed(registry, reads).contains_key(uri)
            && refreshed(registry, reads)[uri] == reads[i].bytes->0@ by {
            if i < n {
                assert(front[i] == reads[i]);
                assert(reads[n].uri@ != uri);
            }
        }
        if forall|i: int|
            0 <= i < reads.len() && (#[trigger] reads[i]).uri@ == uri ==> reads[i].bytes is None {
            assert forall|i: int|
                0 <= i < front.len() && (#[trigger] front[i]).uri@
                    == uri implies front[i].bytes is None by {
                assert(reads[i] == front[i]);
            }
        }
    }
}

/// What a poll comes to, for every URI: a stale one whose file could be read has
/// the bytes that are on disk; every other one, stale or not, has what it had.
pub proof fn law_poll_refreshes_stale_uris(
    registry: Map<Seq<char>, Seq<u8>>,
    stale: Map<Seq<char>, Seq<PartModel>>,
    disk: spec_fn(Seq<PartModel>) -> Option<Seq<u8>>,
    reads: Seq<FileRead>,
    uri: Seq<char>,
)
    requires
        answers(reads, stale, disk),
    ensures
        ({
            let after = refreshed(registry, reads);
            if stale.contains_key(uri) && disk(stale[uri]) is Some {
                after.contains_key(uri) && after[uri] == disk(stale[uri])->0
            } else {
                &&& after.contains_key(uri) <==> registry.contains_key(uri)
                &&& registry.contains_key(uri) ==> after[uri] == registry[uri]
            }
        }),
{
    lemma_refreshed(registry, reads, uri);
    if stale.contains_key(uri) {
        let i = choose|i: int| 0 <= i < reads.len() && (#[trigger] reads[i]).uri@ == uri;
        assert(bytes_of(reads[i]) == disk(stale[uri]));
        if disk(stale[uri]) is None {
            assert forall|j: int|
                0 <= j < reads.len() && (#[trigger] reads[j]).uri@
                    == uri implies reads[j].bytes is None by {
                assert(bytes_of(reads[j]) == disk(stale[uri]));
            }
        }
    }
}

/// What the successful reads are, where no URI is read twice: each of them once,
/// and nothing else.
proof fn lemma_successes(reads: Seq<FileRead>)
    requires
        forall|i: int, j: int|
            0 <= i < j < reads.len() ==> (#[trigger] reads[i]).uri@ != (#[trigger] reads[j]).uri@,
    ensures
        successes(reads).len() <= reads.len(),
        forall|a: int, b: int|
            0 <= a < b < successes(reads).len() ==> (#[trigger] successes(reads)[a]).0 != (
            #[trigger] successes(reads)[b]).0,
        forall|a: int|
            0 <= a < successes(reads).len() ==> exists|i: int|
                0 <= i < reads.len() && (#[trigger] reads[i]).uri@ == (
                #[trigger] successes(reads)[a]).0 && bytes_of(reads[i]) == Some(
                    successes(reads)[a].1,
                ),
        forall|i: int|
            0 <= i < reads.len() && (#[trigger] reads[i]).bytes is Some
                ==> successes(reads).contains((reads[i].uri@, reads[i].bytes->0@)),
    decreases reads.len(),
{
    if reads.len() > 0 {
        let front = reads.drop_last();
        let n = reads.len() - 1;
        let before = successes(front);
        let after = successes(reads);
        assert(reads[n] == reads.last());
        assert forall|i: int, j: int| 0 <= i < j < front.len() implies (#[trigger] front[i]).uri@
            != (#[trigger] front[j]).uri@ by {
            assert(reads[i] == front[i]);
            assert(reads[j] == front[j]);
        }
        lemma_successes(front);
        assert forall|a: int| 0 <= a < before.len() implies after[a] == before[a] && exists|i: int|
            0 <= i < n && (#[trigger] reads[i]).uri@ == (#[trigger] before[a]).0 && bytes_of(
                reads[i],
            ) == Some(before[a].1) by {
            let i = choose|i: int|
                0 <= i < front.len() && (#[trigger] front[i]).uri@ == before[a].0 && bytes_of(
                    front[i],
                ) == Some(before[a].1);
            assert(reads[i] == front[i]);
        }
        assert forall|a: int| 0 <= a < after.len() implies exists|i: int|
            0 <= i < reads.len() && (#[trigger] reads[i]).uri@ == (#[trigger] after[a]).0
                && bytes_of(reads[i]) == Some(after[a].1) by {
            if a < before.len() {
                assert(after[a] == before[a]);
            } else {
                assert(reads[n].uri@ == after[a].0);
            }
        }
        assert forall|a: int, b: int| 0 <= a < b < after.len() implies (#[trigger] after[a]).0 != (
        #[trigger] after[b]).0 by {
            assert(after[a] == before[a]);
            if b < before.len() {
                assert(after[b] == before[b]);
            }
        }
        assert forall|i: int|
            0 <= i < reads.len() && (#[trigger] reads[i]).bytes is Some implies after.contains(
            (reads[i].uri@, reads[i].bytes->0@),
        ) by {
            if i < n {
                assert(front[i] == reads[i]);
                let a = choose|a: int|
                    0 <= a < before.len() && before[a] == (reads[i].uri@, reads[i].bytes->0@);
                assert(after[a] == before[a]);
            } else {
                assert(after[before.len() as int] == (reads[i].uri@, reads[i].bytes->0@));
            }
        }
    }
}

/// A poll makes one insert for each stale URI whose file could be read, with the
/// bytes that are on disk, and no other insert.
pub proof fn law_one_insert_per_stale_uri(
    stale: Map<Seq<char>, Seq<PartModel>>,
    disk: spec_fn(Seq<PartModel>) -> Option<Seq<u8>>,
    reads: Seq<FileRead>,
)
    requires
        answers(reads, stale, disk),
    ensures
        forall|a: int, b: int|
            0 <= a < b < successes(reads).len() ==> (#[trigger] successes(reads)[a]).0 != (
            #[trigger] successes(reads)[b]).0,
        forall|uri: Seq<char>, bytes: Seq<u8>| #[trigger]
            successes(reads).contains((uri, bytes)) <==> stale.contains_key(uri) && disk(stale[uri])
                == Some(bytes),
{
    lemma_successes(reads);
    let made = successes(reads);
    assert forall|uri: Seq<char>, bytes: Seq<u8>| #[trigger]
        made.contains((uri, bytes)) <==> stale.contains_key(uri) && disk(stale[uri]) == Some(
            bytes,
        ) by {
        if made.contains((uri, bytes)) {
            let a = choose|a: int| 0 <= a < made.len() && made[a] == (uri, bytes);
            let i = choose|i: int|
                0 <= i < reads.len() && (#[trigger] reads[i]).uri@ == made[a].0 && bytes_of(
                    reads[i],
                ) == Some(made[a].1);
            assert(stale.contains_key(reads[i].uri@));
        }
        if stale.contains_key(uri) && disk(stale[uri]) == Some(bytes) {
            let i = choose|i: int| 0 <= i < reads.len() && (#[trigger] reads[i]).uri@ == uri;
            assert(bytes_of(reads[i]) == Some(bytes));
            assert(made.contains((reads[i].uri@, reads[i].bytes->0@)));
        }
    }
}

/// A burst about one file comes to one re-read and one insert: however many
/// changes the messages report, where they are all to one registered file, beside
/// files that are not registered, that file is read once and inserted once, with
/// its bytes, under the URI it feeds.
pub proof fn law_burst_makes_one_insert(
    state: WatchState,
    file: Seq<PartModel>,
    messages: Seq<WatchMessage>,
    disk: spec_fn(Seq<PartModel>) -> Option<Seq<u8>>,
    reads: Seq<FileRead>,
)
    requires
        state.files.contains_key(file),
        touched(messages).contains(file),
        forall|i: int|
            0 <= i < touched(messages).len() && state.files.contains_key(
                #[trigger] touched(messages)[i],
            ) ==> touched(messages)[i] == file,
        disk(file) is Some,
        answers(reads, stale_uris(state, messages), disk),
    ensures
        stale_uris(state, messages) == map![state.files[file] => file],
        reads.len() == 1,
        successes(reads) == seq![(state.files[file], disk(file)->0)],
{
    let uri = state.files[file];
    let keys = touched(messages);
    let stale = stale_uris(state, messages);
    let only = map![uri => file];
    assert forall|u: Seq<char>| #[trigger] stale.contains_key(u) == only.contains_key(u) && (
    stale.contains_key(u) ==> stale[u] == only[u]) by {
        law_stale_is_last_change(state.files, keys, u);
        if stale.contains_key(u) {
            let i = choose|i: int| #[trigger]
                is_last_change(state.files, keys, u, i) && stale[u] == keys[i];
            assert(keys[i] == file);
        }
        if u == uri {
            let k = choose|k: int| 0 <= k < keys.len() && keys[k] == file;
            assert(feeds(state.files, keys[k], uri));
        }
    }
    assert(stale =~= only);
    assert(stale.contains_key(uri));
    let r = choose|r: int| 0 <= r < reads.len() && (#[trigger] reads[r]).uri@ == uri;
    if reads.len() > 1 {
        assert(reads[0].uri@ == uri && reads[1].uri@ == uri);
    }
    assert(reads.drop_last() =~= Seq::empty());
    assert(bytes_of(reads[0]) == disk(file));
    assert(successes(reads.drop_last()) =~= Seq::empty());
    assert(successes(reads) =~= seq![(uri, disk(file)->0)]);
}

/// The order in which stale files are re-read does not matter.
pub proof fn law_read_order_is_irrelevant(
    registry: Map<Seq<char>, Seq<u8>>,
    stale: Map<Seq<char>, Seq<PartModel>>,
    disk: spec_fn(Seq<PartModel>) -> Option<Seq<u8>>,
    reads: Seq<FileRead>,
    others: Seq<FileRead>,
)
    requires
        answers(reads, stale, disk),
        answers(others, stale, disk),
    ensures
        refreshed(registry, reads) == refreshed(registry, others),
{
    let a = refreshed(registry, reads);
    let b = refreshed(registry, others);
    assert forall|uri: Seq<char>|
        a.contains_key(uri) == #[trigger] b.contains_key(uri) && (a.contains_key(uri) ==> a[uri]
            == b[uri]) by {
        law_poll_refreshes_stale_uris(registry, stale, disk, reads, uri);
        law_poll_refreshes_stale_uris(registry, stale, disk, others, uri);
    }
    assert(a =~= b);
}

/// An edit on disk reaches the registry: once a request has registered a file for
/// a URI, a poll that hears of a change to the file puts the file's bytes, where
/// they can be read, into the registry under that URI. Where several files feed
/// the one URI, this is the file that changed last.
pub proof fn law_edit_reaches_the_registry(
    state: WatchState,
    file: Seq<PartModel>,
    uri: Seq<char>,
    started: bool,
    messages: Seq<WatchMessage>,
    k: int,
    registry: Map<Seq<char>, Seq<u8>>,
    disk: spec_fn(Seq<PartModel>) -> Option<Seq<u8>>,
    reads: Seq<FileRead>,
)
    requires
        parent_of(file) is Some,
        started || !state.needs_dir_watch(file),
        0 <= k < touched(messages).len(),
        touched(messages)[k] == file,
        forall|j: int|
            k < j < touched(messages).len() && #[trigger] touched(messages)[j] != file ==> !feeds(
                state.files,
                touched(messages)[j],
                uri,
            ),
        disk(file) is Some,
        answers(reads, stale_uris(state.watched(Some(file), uri, started), messages), disk),
    ensures
        refreshed(registry, reads).contains_key(uri),
        refreshed(registry, reads)[uri] == disk(file)->0,
{
    let after = state.watched(Some(file), uri, started);
    let keys = touched(messages);
    let stale = stale_uris(after, messages);
    law_stale_is_last_change(after.files, keys, uri);
    assert(feeds(after.files, keys[k], uri));
    let i = choose|i: int| #[trigger]
        is_last_change(after.files, keys, uri, i) && stale[uri] == keys[i];
    assert(i >= k);
    assert(keys[i] == file) by {
        if keys[i] != file {
            assert(feeds(state.files, keys[i], uri));
        }
    }
    law_poll_refreshes_stale_uris(registry, stale, disk, reads, uri);
}

/// Of the files that feed the URI of `file`, `file` is the one that the messages
/// report last.
pub open spec fn changed_last(
    state: WatchState,
    messages: Seq<WatchMessage>,
    file: Seq<PartModel>,
) -> bool {
    exists|k: int| #[trigger]
        is_last_change(state.files, touched(messages), state.files[file], k) && touched(
            messages,
        )[k] == file
}

/// A read that fails mid-save is made good by the event that trails it: the failed
/// read leaves the bytes that were there, and the poll that hears of the file again
/// and can read it ends with the file's bytes.
pub proof fn law_trailing_event_makes_good(
    state: WatchState,
    file: Seq<PartModel>,
    registry: Map<Seq<char>, Seq<u8>>,
    first: Seq<WatchMessage>,
    first_disk: spec_fn(Seq<PartModel>) -> Option<Seq<u8>>,
    first_reads: Seq<FileRead>,
    second: Seq<WatchMessage>,
    second_disk: spec_fn(Seq<PartModel>) -> Option<Seq<u8>>,
    second_reads: Seq<FileRead>,
)
    requires
        state.files.contains_key(file),
        changed_last(state, first, file),
        first_disk(file) is None,
        answers(first_reads, stale_uris(state, first), first_disk),
        changed_last(state, second, file),
        second_disk(file) is Some,
        answers(second_reads, stale_uris(state, second), second_disk),
    ensures
        ({
            let uri = state.files[file];
            let between = refreshed(registry, first_reads);
            let after = refreshed(between, second_reads);
            &&& between.contains_key(uri) <==> registry.contains_key(uri)
            &&& registry.contains_key(uri) ==> between[uri] == registry[uri]
            &&& after.contains_key(uri) && after[uri] == second_disk(file)->0
        }),
{
    let uri = state.files[file];
    lemma_last_change_is_stale(state, first, file);
    lemma_last_change_is_stale(state, second, file);
    law_poll_refreshes_stale_uris(
        registry,
        stale_uris(state, first),
        first_disk,
        first_reads,
        uri,
    );
    law_poll_refreshes_stale_uris(
        refreshed(registry, first_reads),
        stale_uris(state, second),
        second_disk,
        second_reads,
        uri,
    );
}

/// The file that changed last is the one to re-read for its URI.
proof fn lemma_last_change_is_stale(
    state: WatchState,
    messages: Seq<WatchMessage>,
    file: Seq<PartModel>,
)
    requires
        changed_last(state, messages, file),
    ensures
        stale_uris(state, messages).contains_key(state.files[file]),
        stale_uris(state, messages)[state.files[file]] == file,
{
    let uri = state.files[file];
    let keys = touched(messages);
    let stale = stale_uris(state, messages);
    law_stale_is_last_change(state.files, keys, uri);
    let k = choose|k: int| #[trigger]
        is_last_change(state.files, keys, uri, k) && keys[k] == file;
    assert(feeds(state.files, keys[k], uri));
    let i = choose|i: int| #[trigger]
        is_last_change(state.files, keys, uri, i) && stale[uri] == keys[i];
    assert(i == k);
}

/// What a request comes to, whatever the directory and the name: where the directory
/// is under watch already or a watch on it started, the file feeds the URI and the
/// directory is under watch, and all else is as it was; where neither, nothing
/// changes.
pub proof fn law_request_outcome(
    state: WatchState,
    dir: Seq<PartModel>,
    name: Seq<u8>,
    uri: Seq<char>,
    started: bool,
)
    ensures
        ({
            let file = dir.push(PartModel::Normal(name));
            let after = state.watched(Some(file), uri, started);
            if state.dirs.contains(dir) || started {
                &&& after.files.contains_key(file) && after.files[file] == uri
                &&& forall|other: Seq<PartModel>|
                    other != file ==> (#[trigger] after.files.contains_key(other)
                        <==> state.files.contains_key(other))
                &&& forall|other: Seq<PartModel>|
                    other != file && #[trigger] state.files.contains_key(other)
                        ==> after.files[other] == state.files[other]
                &&& forall|d: Seq<PartModel>| #[trigger]
                    after.dirs.contains(d) <==> state.dirs.contains(d) || d == dir
            } else {
                after == state
            }
        }),
{
    law_parent_of_what_is_put_into_a_directory(dir, name);
}

/// A request for a path that does not resolve, for a root, for a prefix or for the
/// empty path changes nothing, whatever comes of any directory watch.
pub proof fn law_unwatchable_paths_change_nothing(
    state: WatchState,
    dir: Seq<PartModel>,
    prefix: Seq<u8>,
    uri: Seq<char>,
    started: bool,
)
    ensures
        state.watched(None, uri, started) == state,
        state.watched(Some(Seq::empty()), uri, started) == state,
        state.watched(Some(dir.push(PartModel::RootDir)), uri, started) == state,
        state.watched(Some(dir.push(PartModel::Prefix(prefix))), uri, started) == state,
{
    law_parent_of_what_is_put_into_a_directory(dir, prefix);
}

/// What consistency means: every registered file lies directly in a watched
/// directory, and directly in every watched directory lies a registered file.
pub proof fn law_consistency(state: WatchState)
    requires
        state.consistent(),
    ensures
        forall|file: Seq<PartModel>| #[trigger]
            state.files.contains_key(file) ==> file.len() > 0 && state.dirs.contains(
                file.drop_last(),
            ),
        forall|dir: Seq<PartModel>| #[trigger]
            state.dirs.contains(dir) ==> exists|file: Seq<PartModel>| #[trigger]
                state.files.contains_key(file) && file.len() == dir.len() + 1 && file.drop_last()
                    == dir,
{
    assert forall|dir: Seq<PartModel>| #[trigger] state.dirs.contains(dir) implies exists|
        file: Seq<PartModel>,
    | #[trigger] state.files.contains_key(file) && file.len() == dir.len() + 1 && file.drop_last()
        == dir by {
        let file = choose|file: Seq<PartModel>| #[trigger]
            state.files.contains_key(file) && parent_of(file) == Some(dir);
        assert(file.drop_last() == dir);
    }
}

/// The file to re-read for a URI is the one that changed last: where after a change
/// to a registered file no other change is to a file that feeds the same URI, that
/// URI is stale with that file.
pub proof fn law_last_change_is_reread(state: WatchState, messages: Seq<WatchMessage>, i: int)
    requires
        0 <= i < touched(messages).len(),
        state.files.contains_key(touched(messages)[i]),
        forall|j: int|
            i < j < touched(messages).len() && state.files.contains_key(
                #[trigger] touched(messages)[j],
            ) ==> state.files[touched(messages)[j]] != state.files[touched(messages)[i]],
    ensures
        stale_uris(state, messages).contains_key(state.files[touched(messages)[i]]),
        stale_uris(state, messages)[state.files[touched(messages)[i]]] == touched(messages)[i],
{
    let keys = touched(messages);
    assert(is_last_change(state.files, keys, state.files[keys[i]], i));
    lemma_last_change_is_stale(state, messages, keys[i]);
}

/// Every path counts: where an event of kind create, modify or any names a
/// registered file, at whatever place in the batch and among whatever other paths,
/// by its canonical path or, where that is not known, by the path as reported, the
/// URI that the file feeds is stale.
pub proof fn law_named_files_become_stale(
    state: WatchState,
    messages: Seq<WatchMessage>,
    m: int,
    p: int,
)
    requires
        0 <= m < messages.len(),
        messages[m] is Event,
        messages[m]->Event_0.kind is Create || messages[m]->Event_0.kind is Modify
            || messages[m]->Event_0.kind is Any,
        0 <= p < messages[m]->Event_0.paths@.len(),
    ensures
        ({
            let path = messages[m]->Event_0.paths@[p];
            let file = match path.canonical {
                Some(canonical) => canonical@,
                None => path.raw@,
            };
            state.files.contains_key(file) ==> stale_uris(state, messages).contains_key(
                state.files[file],
            )
        }),
{
    let path = messages[m]->Event_0.paths@[p];
    let file = match path.canonical {
        Some(canonical) => canonical@,
        None => path.raw@,
    };
    law_changes_that_a_message_reports(messages[m]);
    assert(messages[m].keys()[p] == file);
    assert(messages[m].keys().contains(file));
    law_touched_by_triggering_events(messages, file);
    if state.files.contains_key(file) {
        lemma_stale_file_is_touched(state, messages, state.files[file]);
        assert(feeds(state.files, file, state.files[file]));
    }
}

/// Nothing else is stale: the file to re-read for a stale URI is registered for that
/// URI, and some event of kind create, modify or any names it.
pub proof fn law_stale_files_were_named(
    state: WatchState,
    messages: Seq<WatchMessage>,
    uri: Seq<char>,
)
    requires
        stale_uris(state, messages).contains_key(uri),
    ensures
        ({
            let file = stale_uris(state, messages)[uri];
            &&& state.files.contains_key(file) && state.files[file] == uri
            &&& exists|m: int, p: int|
                #![trigger messages[m]->Event_0.paths@[p]]
                {
                    &&& 0 <= m < messages.len()
                    &&& messages[m] is Event
                    &&& messages[m]->Event_0.kind is Create || messages[m]->Event_0.kind is Modify
                        || messages[m]->Event_0.kind is Any
                    &&& 0 <= p < messages[m]->Event_0.paths@.len()
                    &&& file == (match messages[m]->Event_0.paths@[p].canonical {
                        Some(canonical) => canonical@,
                        None => messages[m]->Event_0.paths@[p].raw@,
                    })
                }
        }),
{
    let file = stale_uris(state, messages)[uri];
    lemma_stale_file_is_touched(state, messages, uri);
    law_touched_by_triggering_events(messages, file);
    let m = choose|m: int|
        0 <= m < messages.len() && (#[trigger] messages[m]).keys().contains(file);
    law_changes_that_a_message_reports(messages[m]);
    let keys = messages[m].keys();
    let p = choose|p: int| 0 <= p < keys.len() && keys[p] == file;
    assert(messages[m] is Event);
    let path = messages[m]->Event_0.paths@[p];
    assert(file == (match path.canonical {
        Some(canonical) => canonical@,
        None => path.raw@,
    }));
}

} // verus!
