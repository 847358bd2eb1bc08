use vstd::prelude::*;

use std::sync::mpsc::{SendError, Sender};

use crate::utils::{digest_call, DigestAlgorithm, HashDigester, IoError, ReadOpener};

verus! {

/// The model of a record: its path, its primary digest, and its secondary digest once one
/// has been computed.
pub struct EntryView {
    pub path: Seq<char>,
    pub primary_hash: Seq<char>,
    pub secondary_hash: Option<Seq<char>>,
}

/// A single file with the digests computed for it.
#[derive(Clone, Debug, PartialEq, Eq)]
pub struct Entry {
    pub path: String,
    pub primary_hash: String,
    pub secondary_hash: Option<String>,
}

/// The model of an optional digest.
pub open spec fn opt_view(s: Option<String>) -> Option<Seq<char>> {
    match s {
        Some(h) => Some(h@),
        None => None,
    }
}

impl View for Entry {
    type V = EntryView;

    open spec fn view(&self) -> EntryView {
        EntryView {
            path: self.path@,
            primary_hash: self.primary_hash@,
            secondary_hash: opt_view(self.secondary_hash),
        }
    }
}

impl Entry {
    /// Creates an `Entry` with the given path and primary digest, and no secondary digest.
    pub fn new(path: &str, primary_hash: &str) -> (r: Entry)
        ensures
            r@ == (EntryView { path: path@, primary_hash: primary_hash@, secondary_hash: None }),
    {
        Entry { path: path.to_owned(), primary_hash: primary_hash.to_owned(), secondary_hash: None }
    }
}

/// The text of a record: its digests, then its path.
pub open spec fn entry_text(e: EntryView) -> Seq<char> {
    let secondary = match e.secondary_hash {
        Some(h) => h,
        None => Seq::empty(),
    };
    "primary-hash:"@ + e.primary_hash + " second-hash: "@ + secondary + " "@ + e.path
}

impl Entry {
    /// Renders the record as one line: its digests, then its path.
    pub fn to_string(&self) -> (r: String)
        ensures
            r@ == entry_text(self@),
    {
        let mut r = "primary-hash:".to_owned();
        r.append(self.primary_hash.as_str());
        r.append(" second-hash: ");
        match &self.secondary_hash {
            Some(h) => r.append(h.as_str()),
            None => {},
        }
        r.append(" ");
        r.append(self.path.as_str());
        proof {
            reveal_strlit("primary-hash:");
            reveal_strlit(" second-hash: ");
            reveal_strlit(" ");
            assert(r@ =~= entry_text(self@));
        }
        r
    }
}

/// The items of a batch that could not be handed over: for each, the path of its record,
/// or the error that was produced in place of the record.
#[derive(Debug)]
pub struct EntrySendError {
    pub failed: Vec<Result<String, IoError>>,
}

/// The failure record of an item that was not handed over: the path of a record, or the
/// error produced in its place.
pub open spec fn failure_of(item: Result<Entry, IoError>) -> Result<String, IoError> {
    match item {
        Ok(e) => Ok(e.path),
        Err(x) => Err(x),
    }
}

/// The failure record of an item that was not handed over: the path of a record, or the
/// error produced in its place.
pub fn failure_record(item: Result<Entry, IoError>) -> (r: Result<String, IoError>)
    ensures
        r == failure_of(item),
{
    match item {
        Ok(e) => Ok(e.path),
        Err(x) => Err(x),
    }
}

/// What creating the record of `path` does, taking the digester from `before` to `after` and
/// returning `r`: the record of `path` with the digest the digester returned, and no secondary
/// digest; or the digester's error, as it was returned.
pub open spec fn created<D: DigestAlgorithm, R: ReadOpener>(
    before: HashDigester<D, R>,
    path: String,
    r: Result<Entry, IoError>,
    after: HashDigester<D, R>,
) -> bool {
    match r {
        Ok(e) => e.path == path && e.secondary_hash is None && digest_call::<D, R>(
            before,
            path@,
            Ok(e.primary_hash),
            after,
        ),
        Err(x) => digest_call::<D, R>(before, path@, Err(x), after),
    }
}

/// What the item created for `path` can be, with the stream source `src`: the record with the
/// digest of the whole content served for `path`, or an error; an error where no stream can be
/// opened and where the content is longer than the algorithm takes; and, from a source whose
/// streams cannot fail, the record wherever the algorithm takes the content.
pub open spec fn outcome_of<D: DigestAlgorithm, R: ReadOpener>(
    src: R,
    path: String,
    item: Result<Entry, IoError>,
) -> bool {
    &&& item matches Ok(e) ==> e.path == path && e.secondary_hash is None
    &&& item matches Ok(e) ==> (src.content(path@) matches Some(m) && m.len() <= D::limit()
        && e.primary_hash@ == D::digest_of(m))
    &&& src.content(path@) is None ==> item is Err
    &&& (src.content(path@) matches Some(m) && m.len() > D::limit()) ==> item is Err
    &&& (src.reliable() && (src.content(path@) matches Some(m) && m.len() <= D::limit())) ==> item is Ok
}

proof fn lemma_created_outcome<D: DigestAlgorithm, R: ReadOpener>(
    src: R,
    before: HashDigester<D, R>,
    path: String,
    r: Result<Entry, IoError>,
    after: HashDigester<D, R>,
)
    requires
        created::<D, R>(before, path, r, after),
        forall|p: Seq<char>| #[trigger] before.source().content(p) == src.content(p),
        before.source().reliable() == src.reliable(),
    ensures
        outcome_of::<D, R>(src, path, r),
{
    assert(before.source().content(path@) == src.content(path@));
}

/// What `send_many` does with the stream source `src`, the channel going from `before` to
/// `after` and result `r`: `items` holds what was created for each path, in order; the first
/// `k` were handed over, in order; from the first the channel refused, every later one was
/// refused too, and the error lists the failure record of each, in path order. A channel
/// already refusing takes nothing.
pub open spec fn batch_sent<D: DigestAlgorithm, R: ReadOpener>(
    src: R,
    paths: Seq<String>,
    before: ChannelSender<Result<Entry, IoError>>,
    after: ChannelSender<Result<Entry, IoError>>,
    k: int,
    items: Seq<Result<Entry, IoError>>,
    r: Result<(), EntrySendError>,
) -> bool {
    &&& items.len() == paths.len()
    &&& forall|i: int| 0 <= i < items.len() ==> outcome_of::<D, R>(src, paths[i], #[trigger] items[i])
    &&& 0 <= k <= paths.len()
    &&& after.sent() == before.sent() + items.take(k)
    &&& before.closed() ==> k == 0
    &&& match r {
        Ok(()) => k == paths.len(),
        Err(e) => k < paths.len() && e.failed@ == items.skip(k).map_values(
            |x: Result<Entry, IoError>| failure_of(x),
        ),
    }
}

/// `src` cannot fail on its streams and serves for each path a content the algorithm takes.
pub open spec fn all_served<D: DigestAlgorithm, R: ReadOpener>(src: R, paths: Seq<String>) -> bool {
    &&& src.reliable()
    &&& forall|i: int|
        0 <= i < paths.len() ==> (#[trigger] src.content(paths[i]@) matches Some(m) && m.len()
            <= D::limit())
}

/// When the channel refuses from the start, as when the receiving end is gone before the
/// first send, a batch of paths fails with one failure record per path, in the order of the
/// paths: the path of each record created, or the error produced in its place. From a source
/// whose streams cannot fail and whose contents the algorithm takes, every record is its path.
pub proof fn lemma_nothing_delivered<D: DigestAlgorithm, R: ReadOpener>(
    src: R,
    paths: Seq<String>,
    before: ChannelSender<Result<Entry, IoError>>,
    after: ChannelSender<Result<Entry, IoError>>,
    k: int,
    items: Seq<Result<Entry, IoError>>,
    r: Result<(), EntrySendError>,
)
    requires
        batch_sent::<D, R>(src, paths, before, after, k, items, r),
        before.closed(),
        paths.len() > 0,
    ensures
        after.sent() == before.sent(),
        r matches Err(e) && e.failed@.len() == paths.len(),
        r matches Err(e) ==> forall|i: int|
            0 <= i < paths.len() ==> #[trigger] e.failed@[i] == failure_of(items[i]),
        r matches Err(e) ==> (all_served::<D, R>(src, paths) ==> forall|i: int|
            0 <= i < paths.len() ==> #[trigger] e.failed@[i] == Ok::<String, IoError>(paths[i])),
{
    assert(items.take(0) =~= Seq::<Result<Entry, IoError>>::empty());
    assert(after.sent() =~= before.sent());
    assert(items.skip(0) =~= items);
    if let Err(e) = r {
        if all_served::<D, R>(src, paths) {
            assert forall|i: int| 0 <= i < paths.len() implies #[trigger] e.failed@[i] == Ok::<String, IoError>(
                paths[i],
            ) by {
                assert(outcome_of::<D, R>(src, paths[i], items[i]));
            }
        }
    }
}

#[verifier::external_type_specification]
#[verifier::external_body]
#[verifier::reject_recursive_types(T)]
pub struct ExSender<T>(Sender<T>);

/// The sending end of a channel, with a record of what it handed over and whether the
/// receiving end was found gone.
#[verifier::reject_recursive_types(T)]
pub struct ChannelSender<T> {
    inner: Sender<T>,
    sent: Ghost<Seq<T>>,
    closed: Ghost<bool>,
}

impl<T> ChannelSender<T> {
    /// The items handed over so far, oldest first.
    pub closed spec fn sent(&self) -> Seq<T> {
        self.sent@
    }

    /// A send was refused: the receiving end is gone, for good.
    pub closed spec fn closed(&self) -> bool {
        self.closed@
    }

    /// Wraps `inner`, with nothing handed over yet.
    pub fn new(inner: Sender<T>) -> (r: ChannelSender<T>)
        ensures
            r.sent() == Seq::<T>::empty(),
            !r.closed(),
    {
        ChannelSender { inner, sent: Ghost(Seq::empty()), closed: Ghost(false) }
    }
}

/// Relies on `Sender::send`: the item goes into the channel or, when the receiving end is
/// gone, comes back inside the `SendError`. A receiving end once gone never comes back, so
/// after one refusal every later send is refused.
#[verifier::external_body]
fn send_or_return<T>(sender: &mut ChannelSender<T>, item: T) -> (r: Option<T>)
    ensures
        r is None ==> final(sender).sent() == old(sender).sent().push(item) && final(sender).closed()
            == old(sender).closed(),
        r matches Some(back) ==> back == item && final(sender).closed() && final(sender).sent()
            == old(sender).sent(),
        old(sender).closed() ==> r is Some,
{
    match sender.inner.send(item) {
        Ok(()) => None,
        Err(SendError(back)) => Some(back),
    }
}

/// Creates records for paths, each with its primary digest.
pub struct EntryFactory<D: DigestAlgorithm, R: ReadOpener> {
    primary_digester: HashDigester<D, R>,
}

impl<D: DigestAlgorithm, R: ReadOpener> EntryFactory<D, R> {
    /// The digester that computes primary digests.
    pub closed spec fn digester(&self) -> HashDigester<D, R> {
        self.primary_digester
    }

    /// The source of the byte streams that primary digests are computed over.
    pub open spec fn source(&self) -> R {
        self.digester().source()
    }

    /// A factory that computes primary digests with `digester`.
    pub fn new(digester: HashDigester<D, R>) -> (r: EntryFactory<D, R>)
        ensures
            r.digester() == digester,
    {
        EntryFactory { primary_digester: digester }
    }

    /// Creates the record of `path`: its primary digest is the one the digester returns, and it
    /// has no secondary digest. The digester's error is passed on as it is.
    pub fn create(&mut self, path: String) -> (r: Result<Entry, IoError>)
        ensures
            created::<D, R>(old(self).digester(), path, r, final(self).digester()),
    {
        let result = self.primary_digester.get_digest(path.as_str());
        match result {
            Ok(primary_hash) => Ok(Entry { path, primary_hash, secondary_hash: None }),
            Err(e) => Err(e),
        }
    }

    /// Creates the record of each path, in order, and hands it, or the error produced in its
    /// place, to `sender`. Items that cannot be handed over because the receiving end is gone
    /// are all collected, in order, into the error returned.
    pub fn send_many(
        &mut self,
        paths: Vec<String>,
        sender: &mut ChannelSender<Result<Entry, IoError>>,
    ) -> (r: Result<(), EntrySendError>)
        ensures
            exists|k: int, items: Seq<Result<Entry, IoError>>|
                #[trigger] batch_sent::<D, R>(
                    old(self).source(),
                    paths@,
                    *old(sender),
                    *final(sender),
                    k,
                    items,
                    r,
                ),
            forall|p: Seq<char>| #[trigger] final(self).source().content(p) == old(self).source().content(p),
            final(self).source().reliable() == old(self).source().reliable(),
    {
        let ghost src = self.source();
        let ghost s0 = *sender;
        let ghost mut k: int = 0;
        let ghost mut items: Seq<Result<Entry, IoError>> = Seq::empty();
        let mut unsendable: Vec<Result<String, IoError>> = Vec::new();
        for path in it: paths.into_iter()
            invariant
                it.seq() == paths@,
                src == old(self).source(),
                s0 == *old(sender),
                forall|p: Seq<char>| #[trigger] self.source().content(p) == src.content(p),
                self.source().reliable() == src.reliable(),
                items.len() == it.index(),
                0 <= k <= items.len(),
                forall|i: int| 0 <= i < items.len() ==> outcome_of::<D, R>(src, paths@[i], #[trigger] items[i]),
                sender.sent() == s0.sent() + items.take(k),
                unsendable@ == items.skip(k).map_values(|x: Result<Entry, IoError>| failure_of(x)),
                unsendable@.len() > 0 ==> sender.closed(),
                s0.closed() ==> k == 0 && sender.closed(),
        {
            let ghost idx = it.index() as int;
            assert(path == paths@[idx]);
            let ghost d0 = self.digester();
            let ghost pv = path;
            let item = self.create(path);
            proof {
                lemma_created_outcome::<D, R>(src, d0, pv, item, self.digester());
            }
            let ghost items0 = items;
            let ghost before = *sender;
            let ghost iv = item;
            proof {
                items = items.push(iv);
                assert forall|i: int| 0 <= i < items.len() implies outcome_of::<D, R>(
                    src,
                    paths@[i],
                    #[trigger] items[i],
                ) by {
                    if i < items0.len() {
                        assert(items[i] == items0[i]);
                    }
                }
            }
            match send_or_return(sender, item) {
                None => {
                    proof {
                        assert(unsendable@.len() == 0);
                        assert(items0.skip(k).len() == 0);
                        assert(k == items0.len());
                        assert(items.take(k + 1) =~= items0.take(k).push(iv));
                        assert(sender.sent() =~= s0.sent() + items.take(k + 1));
                        k = k + 1;
                        assert(items.skip(k).map_values(|x: Result<Entry, IoError>| failure_of(x))
                            =~= Seq::<Result<String, IoError>>::empty());
                    }
                },
                Some(back) => {
                    let rec = failure_record(back);
                    unsendable.push(rec);
                    proof {
                        assert(items.take(k) =~= items0.take(k));
                        assert(items.skip(k).map_values(|x: Result<Entry, IoError>| failure_of(x))
                            =~= items0.skip(k).map_values(|x: Result<Entry, IoError>| failure_of(x)).push(
                            failure_of(iv),
                        ));
                    }
                },
            }
        }
        let r = if unsendable.len() > 0 {
            Err(EntrySendError { failed: unsendable })
        } else {
            Ok(())
        };
        proof {
            if r is Ok {
                assert(items.skip(k).len() == 0);
            }
            assert(batch_sent::<D, R>(src, paths@, s0, *sender, k, items, r));
        }
        r
    }
}

} // verus!
