//! The registry of markup bytes by URI, and how re-read files refresh it.

use std::sync::Arc;
use vstd::prelude::*;

use crate::table::{viewed, Table};

verus! {

/// Markup bytes by URI. Inserting under a URI replaces the bytes it had.
///
/// Every insert counts, also one of the very bytes that are there already: those
/// who draw from the registry rebuild on each.
pub struct XamlRegistry {
    files: Table<String, Arc<Vec<u8>>>,
    log: Ghost<Seq<(Seq<char>, Seq<u8>)>>,
}

impl View for XamlRegistry {
    type V = Map<Seq<char>, Seq<u8>>;

    open spec fn view(&self) -> Map<Seq<char>, Seq<u8>> {
        viewed(self.arcs())
    }
}

/// What a registry holds after `inserts`, made in order into an empty one.
pub open spec fn registered(inserts: Seq<(Seq<char>, Seq<u8>)>) -> Map<Seq<char>, Seq<u8>>
    decreases inserts.len(),
{
    if inserts.len() == 0 {
        Map::empty()
    } else {
        registered(inserts.drop_last()).insert(inserts.last().0, inserts.last().1)
    }
}

impl XamlRegistry {
    /// Every insert made so far, in order: the URI and the bytes.
    pub closed spec fn inserts(self) -> Seq<(Seq<char>, Seq<u8>)> {
        self.log@
    }

    /// The shared bytes under each URI, as they were handed in.
    pub closed spec fn arcs(self) -> Map<Seq<char>, Arc<Vec<u8>>> {
        self.files.values()
    }

    #[verifier::type_invariant]
    spec fn holds_what_was_inserted(self) -> bool {
        self.files@ == registered(self.log@)
    }

    /// An empty registry.
    pub fn new() -> (registry: Self)
        ensures
            registry@ == Map::<Seq<char>, Seq<u8>>::empty(),
            registry.arcs() == Map::<Seq<char>, Arc<Vec<u8>>>::empty(),
            registry.inserts() == Seq::<(Seq<char>, Seq<u8>)>::empty(),
    {
        XamlRegistry { files: Table::new(), log: Ghost(Seq::empty()) }
    }

    /// Registers `bytes` under `uri`.
    pub fn insert(&mut self, uri: String, bytes: Arc<Vec<u8>>)
        ensures
            final(self)@ == old(self)@.insert(uri@, bytes@),
            final(self).arcs() == old(self).arcs().insert(uri@, bytes),
            final(self).inserts() == old(self).inserts().push((uri@, bytes@)),
            final(self)@ == registered(final(self).inserts()),
    {
        proof {
            use_type_invariant(&*self);
        }
        let mut current = XamlRegistry::new();
        std::mem::swap(&mut current, self);
        let XamlRegistry { mut files, log } = current;
        let ghost made = log@.push((uri@, bytes@));
        assert(made.drop_last() =~= log@);
        files.insert(uri, bytes);
        *self = XamlRegistry { files, log: Ghost(made) };
    }

    /// The bytes registered under `uri`, if there are any.
    pub fn get(&self, uri: &str) -> (bytes: Option<&Arc<Vec<u8>>>)
        ensures
            match bytes {
                Some(bytes) => {
                    &&& self@.contains_key(uri@) && bytes@ == self@[uri@]
                    &&& self.arcs().contains_key(uri@) && *bytes == self.arcs()[uri@]
                },
                None => !self@.contains_key(uri@) && !self.arcs().contains_key(uri@),
            },
    {
        self.files.get(uri)
    }
}

impl Default for XamlRegistry {
    fn default() -> (registry: Self)
        ensures
            registry@ == Map::<Seq<char>, Seq<u8>>::empty(),
            registry.arcs() == Map::<Seq<char>, Arc<Vec<u8>>>::empty(),
            registry.inserts() == Seq::<(Seq<char>, Seq<u8>)>::empty(),
    {
        Self::new()
    }
}

/// What became of re-reading the file behind `uri`: its bytes, or nothing when
/// the read failed.
pub struct FileRead {
    pub uri: String,
    pub bytes: Option<Vec<u8>>,
}

/// The registry after `reads`, taken in order: a successful read replaces the
/// bytes of its URI, a failed one changes nothing.
pub open spec fn refreshed(registry: Map<Seq<char>, Seq<u8>>, reads: Seq<FileRead>) -> Map<
    Seq<char>,
    Seq<u8>,
>
    decreases reads.len(),
{
    if reads.len() == 0 {
        registry
    } else {
        let before = refreshed(registry, reads.drop_last());
        match reads.last().bytes {
            Some(bytes) => before.insert(reads.last().uri@, bytes@),
            None => before,
        }
    }
}

/// The successful ones of `reads`, in order: the URI and the bytes.
pub open spec fn successes(reads: Seq<FileRead>) -> Seq<(Seq<char>, Seq<u8>)>
    decreases reads.len(),
{
    if reads.len() == 0 {
        Seq::empty()
    } else {
        let before = successes(reads.drop_last());
        match reads.last().bytes {
            Some(bytes) => before.push((reads.last().uri@, bytes@)),
            None => before,
        }
    }
}

/// The last successful read of a URI counts, whatever it brought and whatever was
/// there before.
pub proof fn law_last_successful_read_counts(
    registry: Map<Seq<char>, Seq<u8>>,
    reads: Seq<FileRead>,
    i: int,
)
    requires
        0 <= i < reads.len(),
        reads[i].bytes is Some,
        forall|j: int|
            i < j < reads.len() && (#[trigger] reads[j]).uri@ == reads[i].uri@
                ==> reads[j].bytes is None,
    ensures
        refreshed(registry, reads).contains_key(reads[i].uri@),
        refreshed(registry, reads)[reads[i].uri@] == reads[i].bytes->0@,
    decreases reads.len(),
{
    let front = reads.drop_last();
    let n = reads.len() - 1;
    assert(reads[n] == reads.last());
    if i < n {
        assert(front[i] == reads[i]);
        assert forall|j: int|
            i < j < front.len() && (#[trigger] front[j]).uri@
                == front[i].uri@ implies front[j].bytes is None by {
            assert(front[j] == reads[j]);
        }
        law_last_successful_read_counts(registry, front, i);
    }
}

/// A URI of which no read succeeded keeps what it had.
pub proof fn law_unread_uri_keeps_its_bytes(
    registry: Map<Seq<char>, Seq<u8>>,
    reads: Seq<FileRead>,
    uri: Seq<char>,
)
    requires
        forall|i: int|
            0 <= i < reads.len() && (#[trigger] reads[i]).uri@ == uri ==> reads[i].bytes is None,
    ensures
        refreshed(registry, reads).contains_key(uri) <==> registry.contains_key(uri),
        registry.contains_key(uri) ==> refreshed(registry, reads)[uri] == registry[uri],
    decreases reads.len(),
{
    if reads.len() > 0 {
        let front = reads.drop_last();
        assert(reads[reads.len() - 1] == reads.last());
        assert forall|i: int|
            0 <= i < front.len() && (#[trigger] front[i]).uri@
                == uri implies front[i].bytes is None by {
            assert(front[i] == reads[i]);
        }
        law_unread_uri_keeps_its_bytes(registry, front, uri);
    }
}

/// Reads in two batches come to the same as in one: the registry after both is that
/// after the second on top of the first, and the inserts of both are those of the
/// first and then those of the second.
pub proof fn law_batches_of_reads_join(
    registry: Map<Seq<char>, Seq<u8>>,
    first: Seq<FileRead>,
    second: Seq<FileRead>,
)
    ensures
        refreshed(registry, first + second) == refreshed(refreshed(registry, first), second),
        successes(first + second) == successes(first) + successes(second),
    decreases second.len(),
{
    if second.len() == 0 {
        assert(first + second =~= first);
        assert(successes(first) + successes(second) =~= successes(first));
    } else {
        law_batches_of_reads_join(registry, first, second.drop_last());
        assert((first + second).drop_last() =~= first + second.drop_last());
        assert((first + second).last() == second.last());
        assert(successes(first + second) =~= successes(first) + successes(second));
    }
}

/// One read that succeeded makes one insert, of its bytes under its URI; one that
/// failed, and no read at all, make none.
pub proof fn law_one_read_makes_one_insert(read: FileRead)
    ensures
        match read.bytes {
            Some(bytes) => successes(seq![read]) == seq![(read.uri@, bytes@)],
            None => successes(seq![read]) == Seq::<(Seq<char>, Seq<u8>)>::empty(),
        },
        successes(Seq::<FileRead>::empty()) == Seq::<(Seq<char>, Seq<u8>)>::empty(),
{
    assert(seq![read].drop_last() =~= Seq::<FileRead>::empty());
    assert(seq![read].last() == read);
    assert(successes(Seq::<FileRead>::empty()) =~= Seq::<(Seq<char>, Seq<u8>)>::empty());
    match read.bytes {
        Some(bytes) => {
            assert(successes(seq![read]) =~= seq![(read.uri@, bytes@)]);
        },
        None => {},
    }
}

/// Whether one of `reads` brought bytes for `uri`.
pub open spec fn reread(reads: Seq<FileRead>, uri: Seq<char>) -> bool {
    exists|i: int|
        0 <= i < reads.len() && (#[trigger] reads[i]).uri@ == uri && reads[i].bytes is Some
}

/// Reads that all failed change nothing.
pub proof fn law_failed_reads_change_nothing(
    registry: Map<Seq<char>, Seq<u8>>,
    reads: Seq<FileRead>,
)
    requires
        forall|i: int| 0 <= i < reads.len() ==> (#[trigger] reads[i]).bytes is None,
    ensures
        refreshed(registry, reads) == registry,
        successes(reads) == Seq::<(Seq<char>, Seq<u8>)>::empty(),
    decreases reads.len(),
{
    if reads.len() > 0 {
        assert(reads[reads.len() - 1] == reads.last());
        assert forall|i: int| 0 <= i < reads.drop_last().len() implies (
        #[trigger] reads.drop_last()[i]).bytes is None by {
            assert(reads[i] == reads.drop_last()[i]);
        }
        law_failed_reads_change_nothing(registry, reads.drop_last());
    }
}

/// Whether any of `reads` brought bytes, so that a refresh has something to do.
pub fn any_read_succeeded(reads: &Vec<FileRead>) -> (any: bool)
    ensures
        any == exists|i: int| 0 <= i < reads@.len() && (#[trigger] reads@[i]).bytes is Some,
{
    for i in 0..reads.len()
        invariant
            forall|j: int| 0 <= j < i ==> !((#[trigger] reads@[j]).bytes is Some),
    {
        if reads[i].bytes.is_some() {
            return true;
        }
    }
    false
}

/// A URI not reread in the first `n + 1` reads is not reread in the first `n`, nor
/// by the read at `n`.
proof fn lemma_reread_grows(reads: Seq<FileRead>, n: int)
    requires
        0 <= n < reads.len(),
    ensures
        forall|uri: Seq<char>| #[trigger]
            reread(reads.take(n + 1), uri) <==> reread(reads.take(n), uri) || (reads[n].uri@ == uri
                && reads[n].bytes is Some),
{
    let before = reads.take(n);
    let after = reads.take(n + 1);
    assert forall|uri: Seq<char>| #[trigger]
        reread(after, uri) <==> reread(before, uri) || (reads[n].uri@ == uri
            && reads[n].bytes is Some) by {
        if reread(after, uri) {
            let i = choose|i: int|
                0 <= i < after.len() && (#[trigger] after[i]).uri@ == uri && after[i].bytes is Some;
            if i < n {
                assert(before[i] == after[i]);
            }
        }
        if reread(before, uri) {
            let i = choose|i: int|
                0 <= i < before.len() && (#[trigger] before[i]).uri@ == uri
                    && before[i].bytes is Some;
            assert(after[i] == before[i]);
        }
        assert(after[n] == reads[n]);
    }
}

/// Puts the bytes of every successful read into `registry` under its URI: one
/// insert for each, whether or not the bytes differ from those there before. What
/// is under other URIs stays the very thing it was.
pub fn refresh_registry(registry: &mut XamlRegistry, reads: Vec<FileRead>)
    ensures
        final(registry)@ == refreshed(old(registry)@, reads@),
        final(registry).inserts() == old(registry).inserts() + successes(reads@),
        forall|uri: Seq<char>|
            !reread(reads@, uri) ==> (#[trigger] final(registry).arcs().contains_key(uri)
                <==> old(registry).arcs().contains_key(uri)),
        forall|uri: Seq<char>|
            !reread(reads@, uri) && old(registry).arcs().contains_key(uri)
                ==> #[trigger] final(registry).arcs()[uri] == old(registry).arcs()[uri],
        forall|uri: Seq<char>|
            (forall|i: int|
                0 <= i < reads@.len() && (#[trigger] reads@[i]).uri@ == uri
                    ==> reads@[i].bytes is None) && #[trigger] old(registry).arcs().contains_key(uri)
                ==> final(registry).arcs().contains_key(uri) && final(registry).arcs()[uri]
                == old(registry).arcs()[uri],
{
    let ghost all = reads@;
    for read in it: reads
        invariant
            it.seq() == all,
            registry@ == refreshed(old(registry)@, all.take(it.index())),
            registry.inserts() == old(registry).inserts() + successes(all.take(it.index())),
            forall|uri: Seq<char>|
                !reread(all.take(it.index()), uri) ==> (#[trigger] registry.arcs().contains_key(uri)
                    <==> old(registry).arcs().contains_key(uri)),
            forall|uri: Seq<char>|
                !reread(all.take(it.index()), uri) && old(registry).arcs().contains_key(uri)
                    ==> #[trigger] registry.arcs()[uri] == old(registry).arcs()[uri],
    {
        proof {
            lemma_reread_grows(all, it.index());
            assert(all.take(it.index() + 1).drop_last() =~= all.take(it.index()));
        }
        if let Some(bytes) = read.bytes {
            registry.insert(read.uri, Arc::new(bytes));
        }
    }
    assert(all.take(all.len() as int) =~= all);
}

} // verus!
