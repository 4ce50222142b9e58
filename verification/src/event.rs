//! Change notifications from the filesystem, as the reload logic reads them.

use vstd::prelude::*;

use crate::path::{FilePath, PartModel};

verus! {

/// What a change notification is about.
#[derive(Clone, Copy, PartialEq, Eq, Structural, Debug)]
pub enum EventKind {
    /// Unknown or unclassified.
    Any,
    /// A file was opened, read or closed.
    Access,
    /// A file was created. Atomic saves land as one of these.
    Create,
    /// A file's data, name or metadata changed.
    Modify,
    /// A file was removed.
    Remove,
    /// Something else, such as an event about the watch itself.
    Other,
}

/// Whether an event of this kind may have left new data behind: it created or
/// modified something, or nobody knows what it did.
pub open spec fn triggers_reload(kind: EventKind) -> bool {
    kind == EventKind::Create || kind == EventKind::Modify || kind == EventKind::Any
}

/// Which kinds of event trigger a re-read. Creation and modification count, and
/// so does an unclassified event; access and removal do not.
pub fn is_reload_trigger(kind: &EventKind) -> (triggers: bool)
    ensures
        triggers == triggers_reload(*kind),
        triggers <==> kind is Create || kind is Modify || kind is Any,
{
    matches!(kind, EventKind::Create | EventKind::Modify | EventKind::Any)
}

/// A path that an event names, with what resolving it on disk gave. Resolving
/// fails when the file is momentarily gone.
pub struct EventPath {
    pub raw: FilePath,
    pub canonical: Option<FilePath>,
}

impl EventPath {
    /// The path to look the file up by: the canonical one, or the raw one where
    /// there is no canonical one.
    pub open spec fn key_view(self) -> Seq<PartModel> {
        match self.canonical {
            Some(canonical) => canonical@,
            None => self.raw@,
        }
    }

    /// The path to look the file up by.
    pub fn key(&self) -> (key: &FilePath)
        ensures
            key@ == self.key_view(),
            match self.canonical {
                Some(canonical) => *key == canonical,
                None => *key == self.raw,
            },
    {
        match &self.canonical {
            Some(canonical) => canonical,
            None => &self.raw,
        }
    }
}

/// A change notification: its kind and the paths it is about.
pub struct WatchEvent {
    pub kind: EventKind,
    pub paths: Vec<EventPath>,
}

/// What the watcher delivers: a change notification or an error of its own.
pub enum WatchMessage {
    Event(WatchEvent),
    Error,
}

impl WatchMessage {
    /// Whether the message is an event that triggers a re-read.
    pub open spec fn is_trigger(self) -> bool {
        self matches WatchMessage::Event(event) && triggers_reload(event.kind)
    }

    /// The keys of the files that the message says have changed: those of a
    /// triggering event's paths, in order, and none for any other message.
    pub open spec fn keys(self) -> Seq<Seq<PartModel>> {
        match self {
            WatchMessage::Event(event) => if triggers_reload(event.kind) {
                event.paths@.map_values(|path: EventPath| path.key_view())
            } else {
                Seq::empty()
            },
            WatchMessage::Error => Seq::empty(),
        }
    }
}

/// The keys of the files that `messages` say have changed, in order.
pub open spec fn touched(messages: Seq<WatchMessage>) -> Seq<Seq<PartModel>>
    decreases messages.len(),
{
    if messages.len() == 0 {
        Seq::empty()
    } else {
        touched(messages.drop_last()) + messages.last().keys()
    }
}

/// Creation, modification and unclassified events trigger a re-read; access,
/// removal and everything else does not.
pub proof fn law_trigger_kinds(kind: EventKind)
    ensures
        match kind {
            EventKind::Create | EventKind::Modify | EventKind::Any => triggers_reload(kind),
            EventKind::Access | EventKind::Remove | EventKind::Other => !triggers_reload(kind),
        },
{
}

/// A path that resolved is looked up by what it resolved to, whatever was reported:
/// two reports that resolve to the same path are looked up alike. A path that did
/// not resolve is looked up as it was reported.
pub proof fn law_lookup_path(a: EventPath, b: EventPath)
    ensures
        a.canonical matches Some(canonical) ==> a.key_view() == canonical@,
        a.canonical is None ==> a.key_view() == a.raw@,
        a.canonical is Some && b.canonical is Some && a.canonical->0@ == b.canonical->0@
            ==> a.key_view() == b.key_view(),
        a.canonical is None && b.canonical is None && a.raw@ == b.raw@ ==> a.key_view()
            == b.key_view(),
{
}

/// What an event reports: one of kind create, modify or any reports a change for
/// each of its paths, however many there are and whatever they look like, in order
/// and by the path's canonical form, or as reported where there is none. Any other
/// event, and an error, reports no change.
pub proof fn law_changes_that_a_message_reports(message: WatchMessage)
    ensures
        match message {
            WatchMessage::Event(event) => match event.kind {
                EventKind::Create | EventKind::Modify | EventKind::Any => {
                    &&& message.keys().len() == event.paths@.len()
                    &&& forall|i: int|
                        0 <= i < event.paths@.len() ==> #[trigger] message.keys()[i] == (
                        match event.paths@[i].canonical {
                            Some(canonical) => canonical@,
                            None => event.paths@[i].raw@,
                        })
                },
                EventKind::Access | EventKind::Remove | EventKind::Other => message.keys().len()
                    == 0,
            },
            WatchMessage::Error => message.keys().len() == 0,
        },
{
}

/// A batch of one message says what the message says, and an empty one says
/// nothing.
pub proof fn law_batch_of_one(message: WatchMessage)
    ensures
        touched(seq![message]) == message.keys(),
        touched(Seq::<WatchMessage>::empty()) == Seq::<Seq<PartModel>>::empty(),
{
    assert(seq![message].drop_last() =~= Seq::<WatchMessage>::empty());
    assert(seq![message].last() == message);
    assert(touched(seq![message].drop_last()) =~= Seq::<Seq<PartModel>>::empty());
    assert(touched(seq![message]) =~= message.keys());
}

/// A file counts as changed exactly when some triggering event names it.
pub proof fn law_touched_by_triggering_events(messages: Seq<WatchMessage>, key: Seq<PartModel>)
    ensures
        touched(messages).contains(key) <==> exists|m: int|
            0 <= m < messages.len() && (#[trigger] messages[m]).keys().contains(key),
    decreases messages.len(),
{
    if messages.len() > 0 {
        let front = messages.drop_last();
        let n = messages.len() - 1;
        law_touched_by_triggering_events(front, key);
        lemma_in_either_part(touched(front), messages.last().keys(), key);
        assert(messages[n] == messages.last());
        if touched(front).contains(key) {
            let m = choose|m: int|
                0 <= m < front.len() && (#[trigger] front[m]).keys().contains(key);
            assert(messages[m] == front[m]);
        }
        assert forall|m: int|
            0 <= m < n && (#[trigger] messages[m]).keys().contains(key) implies touched(
            front,
        ).contains(key) by {
            assert(front[m] == messages[m]);
        }
    }
}

/// What occurs in two sequences one after the other occurs in one of them.
proof fn lemma_in_either_part(
    first: Seq<Seq<PartModel>>,
    second: Seq<Seq<PartModel>>,
    key: Seq<PartModel>,
)
    ensures
        (first + second).contains(key) <==> first.contains(key) || second.contains(key),
{
    let both = first + second;
    if both.contains(key) {
        let i = choose|i: int| 0 <= i < both.len() && both[i] == key;
        if i < first.len() {
            assert(first[i] == key);
        } else {
            assert(second[i - first.len()] == key);
        }
    }
    if first.contains(key) {
        let i = choose|i: int| 0 <= i < first.len() && first[i] == key;
        assert(both[i] == key);
    }
    if second.contains(key) {
        let i = choose|i: int| 0 <= i < second.len() && second[i] == key;
        assert(both[first.len() + i] == key);
    }
}

/// Messages that are not triggering events say nothing: leaving them out changes
/// nothing of which files count as changed, nor of the order.
pub proof fn law_other_messages_are_ignored(messages: Seq<WatchMessage>)
    ensures
        touched(messages.filter(|message: WatchMessage| message.is_trigger())) == touched(messages),
    decreases messages.len(),
{
    reveal(Seq::filter);
    let trigger = |message: WatchMessage| message.is_trigger();
    if messages.len() > 0 {
        law_other_messages_are_ignored(messages.drop_last());
        let front = messages.drop_last().filter(trigger);
        if messages.last().is_trigger() {
            assert(front.push(messages.last()).drop_last() =~= front);
        } else {
            assert(messages.last().keys() =~= Seq::empty());
            assert(touched(messages) =~= touched(messages.drop_last()));
        }
    }
}

/// What two batches of messages say together is what the first says and then
/// what the second says.
pub proof fn law_batches_join(first: Seq<WatchMessage>, second: Seq<WatchMessage>)
    ensures
        touched(first + second) == touched(first) + touched(second),
    decreases second.len(),
{
    if second.len() == 0 {
        assert(first + second =~= first);
        assert(touched(first) + touched(second) =~= touched(first));
    } else {
        law_batches_join(first, second.drop_last());
        assert((first + second).drop_last() =~= first + second.drop_last());
        assert((first + second).last() == second.last());
        assert(touched(first + second) =~= touched(first) + touched(second));
    }
}

} // verus!
