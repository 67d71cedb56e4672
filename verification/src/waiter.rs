//! Waiting for one event on a feed of blobs.
//!
//! The feed delivers one blob per block, as text. The waiter takes the blobs
//! in their order, decodes each, and looks for the first event of a given
//! module and name. A blob that cannot be read, or that does not hold the
//! event, is passed over; the wait ends with the event, or with the end of
//! the feed.

use crate::error::{DecodeError, DecodeErrorView, WaitError};
use crate::events::{decode_events, parse_events, records_view, Phase, RawEvent, RawEventView};
use crate::metadata::MetadataIndex;
use crate::payload::{decode_arguments, EventArgs};
use crate::registry::{SizeRule, TypeSizeRegistry};
use crate::text::same_text;
use crate::transport::{blob_bytes, hexstr_to_vec};
use vstd::prelude::*;
use vstd::utf8::encode_utf8;

verus! {

/// Why a blob was passed over.
#[derive(Debug, PartialEq, Eq)]
pub enum Skip {
    /// Its text is not the hexadecimal text of a byte string.
    Malformed,
    /// Its bytes are not a list of event records that the schema and the
    /// registered sizes can decode.
    Undecodable(DecodeError),
    /// It holds no event of the awaited module and name.
    Absent,
}

/// A `Skip` as contracts see it.
pub enum SkipView {
    Malformed,
    Undecodable(DecodeErrorView),
    Absent,
}

impl View for Skip {
    type V = SkipView;

    open spec fn view(&self) -> SkipView {
        match self {
            Skip::Malformed => SkipView::Malformed,
            Skip::Undecodable(e) => SkipView::Undecodable(e@),
            Skip::Absent => SkipView::Absent,
        }
    }
}

/// What the feed brings next.
#[derive(Debug, Clone, Copy)]
pub enum FeedEvent<'a> {
    /// The text of one blob.
    Blob(&'a str),
    /// The feed is closed for good.
    Closed,
}

/// What the waiter does next.
#[derive(Debug, PartialEq, Eq)]
pub enum Step {
    /// Receive the next blob; the last one was passed over for this reason.
    Receive(Skip),
    /// End the wait with this result.
    Return(Result<RawEvent, WaitError>),
}

/// Whether an event is the one of this module and name. Names are compared
/// character for character.
pub open spec fn is_from(event: RawEventView, module: Seq<char>, variant: Seq<char>) -> bool {
    event.module == module && event.variant == variant
}

/// The first of `records` that is from this module and has this name.
pub open spec fn first_match(
    records: Seq<(Phase, RawEventView)>,
    module: Seq<char>,
    variant: Seq<char>,
) -> Option<RawEventView>
    decreases records.len(),
{
    if records.len() == 0 {
        None
    } else if is_from(records[0].1, module, variant) {
        Some(records[0].1)
    } else {
        first_match(records.drop_first(), module, variant)
    }
}

/// What one blob yields: the awaited event, or the reason for which the
/// blob is passed over.
#[verifier::opaque]
pub open spec fn scan(
    schema: MetadataIndex,
    registered: Map<Seq<char>, SizeRule>,
    module: Seq<char>,
    variant: Seq<char>,
    text: Seq<char>,
) -> Result<RawEventView, SkipView> {
    match blob_bytes(encode_utf8(text)) {
        None => Err(SkipView::Malformed),
        Some(bytes) => match parse_events(schema, registered, bytes) {
            Err(e) => Err(SkipView::Undecodable(e)),
            Ok(records) => match first_match(records, module, variant) {
                Some(event) => Ok(event),
                None => Err(SkipView::Absent),
            },
        },
    }
}

/// How a wait on a feed that delivers `pending` and then closes ends: with
/// the event that the first yielding blob yields, or with `SourceClosed`
/// when no blob yields one; and the blobs that are then still to come.
pub open spec fn wait_outcome(
    schema: MetadataIndex,
    registered: Map<Seq<char>, SizeRule>,
    module: Seq<char>,
    variant: Seq<char>,
    pending: Seq<Seq<char>>,
) -> (Result<RawEventView, WaitError>, Seq<Seq<char>>)
    decreases pending.len(),
{
    if pending.len() == 0 {
        (Err(WaitError::SourceClosed), pending)
    } else {
        match scan(schema, registered, module, variant, pending[0]) {
            Ok(event) => (Ok(event), pending.drop_first()),
            Err(_) => wait_outcome(schema, registered, module, variant, pending.drop_first()),
        }
    }
}

/// The first match is one of the records, it is from the awaited module
/// and has the awaited name, and no record before it is.
pub proof fn lemma_first_match_is_first(
    records: Seq<(Phase, RawEventView)>,
    module: Seq<char>,
    variant: Seq<char>,
)
    ensures
        match first_match(records, module, variant) {
            Some(event) => exists|at: int|
                {
                    &&& 0 <= at < records.len()
                    &&& #[trigger] records[at].1 == event
                    &&& is_from(event, module, variant)
                    &&& forall|before: int|
                        0 <= before < at ==> !is_from(
                            (#[trigger] records[before]).1,
                            module,
                            variant,
                        )
                },
            None => forall|at: int|
                0 <= at < records.len() ==> !is_from((#[trigger] records[at]).1, module, variant),
        },
    decreases records.len(),
{
    if records.len() == 0 {
    } else if is_from(records[0].1, module, variant) {
        assert(records[0].1 == records[0].1);
    } else {
        let others = records.drop_first();
        lemma_first_match_is_first(others, module, variant);
        match first_match(others, module, variant) {
            Some(event) => {
                let at = choose|at: int|
                    {
                        &&& 0 <= at < others.len()
                        &&& #[trigger] others[at].1 == event
                        &&& is_from(event, module, variant)
                        &&& forall|before: int|
                            0 <= before < at ==> !is_from(
                                (#[trigger] others[before]).1,
                                module,
                                variant,
                            )
                    };
                assert(records[at + 1].1 == event);
                assert forall|before: int| 0 <= before < at + 1 implies !is_from(
                    (#[trigger] records[before]).1,
                    module,
                    variant,
                ) by {
                    if before > 0 {
                        assert(records[before] == others[before - 1]);
                    }
                }
            },
            None => {
                assert forall|at: int| 0 <= at < records.len() implies !is_from(
                    (#[trigger] records[at]).1,
                    module,
                    variant,
                ) by {
                    if at > 0 {
                        assert(records[at] == others[at - 1]);
                    }
                }
            },
        }
    }
}

/// A blob that decodes, and in which exactly one record is from the
/// awaited module and has the awaited name, yields that record, with the
/// argument bytes that the decoder cut out of the blob; and a wait on a feed
/// that starts with this blob ends with it, the later blobs left in the feed.
pub proof fn lemma_single_occurrence_is_returned(
    schema: MetadataIndex,
    registered: Map<Seq<char>, SizeRule>,
    module: Seq<char>,
    variant: Seq<char>,
    text: Seq<char>,
    later: Seq<Seq<char>>,
    records: Seq<(Phase, RawEventView)>,
    at: int,
)
    requires
        blob_bytes(encode_utf8(text)) matches Some(bytes) && parse_events(
            schema,
            registered,
            bytes,
        ) == Ok::<_, DecodeErrorView>(records),
        0 <= at < records.len(),
        is_from(records[at].1, module, variant),
        forall|other: int|
            0 <= other < records.len() && other != at ==> !is_from(
                (#[trigger] records[other]).1,
                module,
                variant,
            ),
    ensures
        scan(schema, registered, module, variant, text) == Ok::<_, SkipView>(records[at].1),
        wait_outcome(schema, registered, module, variant, seq![text] + later) == (
            Ok::<_, WaitError>(records[at].1),
            later,
        ),
{
    reveal(scan);
    lemma_first_match_is_first(records, module, variant);
    assert((seq![text] + later).drop_first() =~= later);
}

/// A blob that is passed over, for whatever reason, changes nothing: the
/// wait goes on with the next blob as if this one had not come.
pub proof fn lemma_skipped_blob_changes_nothing(
    schema: MetadataIndex,
    registered: Map<Seq<char>, SizeRule>,
    module: Seq<char>,
    variant: Seq<char>,
    text: Seq<char>,
    later: Seq<Seq<char>>,
)
    requires
        scan(schema, registered, module, variant, text) is Err,
    ensures
        wait_outcome(schema, registered, module, variant, seq![text] + later) == wait_outcome(
            schema,
            registered,
            module,
            variant,
            later,
        ),
{
    assert((seq![text] + later).drop_first() =~= later);
}

/// Wherever in the feed a blob is passed over, the wait ends as if it had
/// not come: what one blob is does not touch what is found in another.
pub proof fn lemma_skipped_blob_changes_no_result(
    schema: MetadataIndex,
    registered: Map<Seq<char>, SizeRule>,
    module: Seq<char>,
    variant: Seq<char>,
    earlier: Seq<Seq<char>>,
    text: Seq<char>,
    later: Seq<Seq<char>>,
)
    requires
        scan(schema, registered, module, variant, text) is Err,
    ensures
        wait_outcome(schema, registered, module, variant, earlier + seq![text] + later).0
            == wait_outcome(schema, registered, module, variant, earlier + later).0,
    decreases earlier.len(),
{
    if earlier.len() == 0 {
        assert(earlier + seq![text] + later =~= seq![text] + later);
        assert(earlier + later =~= later);
        lemma_skipped_blob_changes_nothing(schema, registered, module, variant, text, later);
    } else {
        let with = earlier + seq![text] + later;
        let without = earlier + later;
        assert(with[0] == earlier[0]);
        assert(without[0] == earlier[0]);
        assert(with.drop_first() =~= earlier.drop_first() + seq![text] + later);
        assert(without.drop_first() =~= earlier.drop_first() + later);
        lemma_skipped_blob_changes_no_result(
            schema,
            registered,
            module,
            variant,
            earlier.drop_first(),
            text,
            later,
        );
    }
}

/// A blob that decodes and holds no record of the awaited module and name
/// is passed over as `Absent`, and the wait goes on with the next blob.
pub proof fn lemma_blob_without_the_event_is_passed_over(
    schema: MetadataIndex,
    registered: Map<Seq<char>, SizeRule>,
    module: Seq<char>,
    variant: Seq<char>,
    text: Seq<char>,
    later: Seq<Seq<char>>,
    records: Seq<(Phase, RawEventView)>,
)
    requires
        blob_bytes(encode_utf8(text)) matches Some(bytes) && parse_events(
            schema,
            registered,
            bytes,
        ) == Ok::<_, DecodeErrorView>(records),
        forall|at: int|
            0 <= at < records.len() ==> !is_from((#[trigger] records[at]).1, module, variant),
    ensures
        scan(schema, registered, module, variant, text) == Err::<RawEventView, _>(
            SkipView::Absent,
        ),
        wait_outcome(schema, registered, module, variant, seq![text] + later) == wait_outcome(
            schema,
            registered,
            module,
            variant,
            later,
        ),
{
    reveal(scan);
    lemma_first_match_is_first(records, module, variant);
    lemma_skipped_blob_changes_nothing(schema, registered, module, variant, text, later);
}

/// A blob whose text is no hexadecimal text is passed over as `Malformed`,
/// and an event in a later blob is found as if the malformed one had not
/// come.
pub proof fn lemma_malformed_blob_is_passed_over(
    schema: MetadataIndex,
    registered: Map<Seq<char>, SizeRule>,
    module: Seq<char>,
    variant: Seq<char>,
    text: Seq<char>,
    later: Seq<Seq<char>>,
)
    requires
        blob_bytes(encode_utf8(text)) is None,
    ensures
        scan(schema, registered, module, variant, text) == Err::<RawEventView, _>(
            SkipView::Malformed,
        ),
        wait_outcome(schema, registered, module, variant, seq![text] + later) == wait_outcome(
            schema,
            registered,
            module,
            variant,
            later,
        ),
{
    reveal(scan);
    lemma_skipped_blob_changes_nothing(schema, registered, module, variant, text, later);
}

/// What a blob yields is an event of the awaited module and name.
pub proof fn lemma_scan_yields_the_event(
    schema: MetadataIndex,
    registered: Map<Seq<char>, SizeRule>,
    module: Seq<char>,
    variant: Seq<char>,
    text: Seq<char>,
)
    ensures
        scan(schema, registered, module, variant, text) matches Ok(event) ==> is_from(
            event,
            module,
            variant,
        ),
{
    reveal(scan);
    match blob_bytes(encode_utf8(text)) {
        Some(bytes) => match parse_events(schema, registered, bytes) {
            Ok(records) => {
                lemma_first_match_is_first(records, module, variant);
            },
            Err(_) => {},
        },
        None => {},
    }
}

/// Whether `pending[at]` is the first blob of `pending` that yields the
/// event.
pub open spec fn is_first_yield(
    schema: MetadataIndex,
    registered: Map<Seq<char>, SizeRule>,
    module: Seq<char>,
    variant: Seq<char>,
    pending: Seq<Seq<char>>,
    at: int,
) -> bool {
    &&& 0 <= at < pending.len()
    &&& scan(schema, registered, module, variant, pending[at]) is Ok
    &&& forall|before: int|
        0 <= before < at ==> (#[trigger] scan(
            schema,
            registered,
            module,
            variant,
            pending[before],
        )) is Err
}

/// A wait ends in one of two ways. Either some blob yields the event: then
/// the result is what the first such blob yields, an event of the awaited
/// module and name, and the blobs after it are left. Or no blob yields it:
/// then the result is `SourceClosed` and nothing is left.
pub proof fn lemma_wait_ends_with_first_yield_or_closed(
    schema: MetadataIndex,
    registered: Map<Seq<char>, SizeRule>,
    module: Seq<char>,
    variant: Seq<char>,
    pending: Seq<Seq<char>>,
)
    ensures
        ({
            let (outcome, left) = wait_outcome(schema, registered, module, variant, pending);
            match outcome {
                Ok(event) => exists|at: int|
                    {
                        &&& #[trigger] is_first_yield(
                            schema,
                            registered,
                            module,
                            variant,
                            pending,
                            at,
                        )
                        &&& scan(schema, registered, module, variant, pending[at]) == Ok::<
                            _,
                            SkipView,
                        >(event)
                        &&& is_from(event, module, variant)
                        &&& left == pending.skip(at + 1)
                    },
                Err(e) => {
                    &&& e == WaitError::SourceClosed
                    &&& left.len() == 0
                    &&& forall|at: int|
                        0 <= at < pending.len() ==> (#[trigger] scan(
                            schema,
                            registered,
                            module,
                            variant,
                            pending[at],
                        )) is Err
                },
            }
        }),
    decreases pending.len(),
{
    if pending.len() == 0 {
    } else {
        let others = pending.drop_first();
        match scan(schema, registered, module, variant, pending[0]) {
            Ok(event) => {
                lemma_scan_yields_the_event(schema, registered, module, variant, pending[0]);
                assert(others =~= pending.skip(1));
                assert(is_first_yield(schema, registered, module, variant, pending, 0));
            },
            Err(_) => {
                lemma_wait_ends_with_first_yield_or_closed(
                    schema,
                    registered,
                    module,
                    variant,
                    others,
                );
                let (outcome, left) = wait_outcome(schema, registered, module, variant, others);
                match outcome {
                    Ok(event) => {
                        let at = choose|at: int|
                            {
                                &&& #[trigger] is_first_yield(
                                    schema,
                                    registered,
                                    module,
                                    variant,
                                    others,
                                    at,
                                )
                                &&& scan(schema, registered, module, variant, others[at]) == Ok::<
                                    _,
                                    SkipView,
                                >(event)
                                &&& is_from(event, module, variant)
                                &&& left == others.skip(at + 1)
                            };
                        assert(others[at] == pending[at + 1]);
                        assert(others.skip(at + 1) =~= pending.skip(at + 2));
                        assert forall|before: int| 0 <= before < at + 1 implies (#[trigger] scan(
                            schema,
                            registered,
                            module,
                            variant,
                            pending[before],
                        )) is Err by {
                            if before > 0 {
                                assert(pending[before] == others[before - 1]);
                            }
                        }
                        assert(is_first_yield(
                            schema,
                            registered,
                            module,
                            variant,
                            pending,
                            at + 1,
                        ));
                    },
                    Err(_) => {
                        assert forall|at: int| 0 <= at < pending.len() implies (#[trigger] scan(
                            schema,
                            registered,
                            module,
                            variant,
                            pending[at],
                        )) is Err by {
                            if at > 0 {
                                assert(pending[at] == others[at - 1]);
                            }
                        }
                    },
                }
            },
        }
    }
}

/// A feed that closes before any blob has yielded the event ends the wait
/// with `SourceClosed`: the wait neither hangs nor makes up a match.
pub proof fn lemma_closed_feed_without_the_event(
    schema: MetadataIndex,
    registered: Map<Seq<char>, SizeRule>,
    module: Seq<char>,
    variant: Seq<char>,
    pending: Seq<Seq<char>>,
)
    requires
        forall|at: int|
            0 <= at < pending.len() ==> (#[trigger] scan(
                schema,
                registered,
                module,
                variant,
                pending[at],
            )) is Err,
    ensures
        wait_outcome(schema, registered, module, variant, pending).0 == Err::<RawEventView, _>(
            WaitError::SourceClosed,
        ),
        wait_outcome(schema, registered, module, variant, pending).1.len() == 0,
{
    lemma_wait_ends_with_first_yield_or_closed(schema, registered, module, variant, pending);
}

/// Takes the first of `records` that is from this module and has this name.
pub fn find_event(records: Vec<(Phase, RawEvent)>, module: &str, variant: &str) -> (found: Option<
    RawEvent,
>)
    ensures
        match found {
            Some(event) => first_match(records_view(records@), module@, variant@) == Some(
                event@,
            ),
            None => first_match(records_view(records@), module@, variant@) is None,
        },
{
    let mut left = records;
    let ghost all = records_view(records@);
    let mut i: usize = 0;
    assert(all.skip(0) =~= all);
    while i < left.len()
        invariant
            i <= left@.len(),
            left@ == records@,
            all == records_view(records@),
            first_match(all, module@, variant@) == first_match(
                all.skip(i as int),
                module@,
                variant@,
            ),
        decreases left@.len() - i,
    {
        assert(all.skip(i as int).drop_first() =~= all.skip(i + 1));
        assert(all.skip(i as int)[0] == all[i as int]);
        assert(all[i as int].1 == left@[i as int].1@);
        if same_text(left[i].1.module.as_str(), module) && same_text(
            left[i].1.variant.as_str(),
            variant,
        ) {
            let record = left.remove(i);
            return Some(record.1);
        }
        i = i + 1;
    }
    None
}

/// The texts of `blobs`, each as its characters.
pub open spec fn texts(blobs: Seq<String>) -> Seq<Seq<char>> {
    Seq::new(blobs.len(), |i: int| blobs[i]@)
}

/// A feed that has been closed: the blobs that were sent before, to be
/// received one by one.
#[derive(Debug)]
pub struct Inbound {
    blobs: Vec<String>,
    next: usize,
}

impl Inbound {
    #[verifier::type_invariant]
    spec fn within_blobs(self) -> bool {
        self.next <= self.blobs@.len()
    }

    /// The texts that are still to be received, in their order.
    pub closed spec fn pending(&self) -> Seq<Seq<char>> {
        texts(self.blobs@.skip(self.next as int))
    }

    /// A closed feed that delivers `blobs`.
    pub fn new(blobs: Vec<String>) -> (inbound: Self)
        ensures
            inbound.pending() == texts(blobs@),
    {
        let inbound = Inbound { blobs, next: 0 };
        assert(inbound.blobs@.skip(0) =~= blobs@);
        inbound
    }

    /// Receives the next blob, or `None` when the feed has delivered all.
    pub fn recv(&mut self) -> (text: Option<String>)
        ensures
            match text {
                Some(text) => {
                    &&& old(self).pending().len() > 0
                    &&& text@ == old(self).pending()[0]
                    &&& final(self).pending() == old(self).pending().drop_first()
                },
                None => old(self).pending().len() == 0 && final(self).pending() == old(
                    self,
                ).pending(),
            },
    {
        proof {
            use_type_invariant(&*self);
        }
        if self.next < self.blobs.len() {
            let text = self.blobs[self.next].clone();
            self.next = self.next + 1;
            assert(self.pending() =~= old(self).pending().drop_first());
            Some(text)
        } else {
            None
        }
    }
}

/// Waits for events with one schema and one set of registered sizes.
#[derive(Debug)]
pub struct EventWaiter {
    /// The schema of the chain whose events are awaited.
    pub schema: MetadataIndex,
    /// The sizes that the caller has registered for this wait.
    pub registry: TypeSizeRegistry,
}

impl EventWaiter {
    /// Looks in one blob for the first event of this module and name.
    pub fn scan_blob(&self, module: &str, variant: &str, text: &str) -> (r: Result<RawEvent, Skip>)
        ensures
            match r {
                Ok(event) => scan(self.schema, self.registry@, module@, variant@, text@) == Ok::<
                    _,
                    SkipView,
                >(event@),
                Err(skip) => scan(self.schema, self.registry@, module@, variant@, text@) == Err::<
                    RawEventView,
                    _,
                >(skip@),
            },
    {
        proof {
            reveal(scan);
        }
        let bytes = match hexstr_to_vec(text) {
            Ok(bytes) => bytes,
            Err(_) => {
                return Err(Skip::Malformed);
            },
        };
        let records = match decode_events(bytes.as_slice(), &self.schema, &self.registry) {
            Ok(records) => records,
            Err(e) => {
                return Err(Skip::Undecodable(e));
            },
        };
        match find_event(records, module, variant) {
            Some(event) => Ok(event),
            None => Err(Skip::Absent),
        }
    }

    /// Decides what to do with what the feed has brought: end the wait when
    /// the feed is closed or the blob yields the event, else go on to the
    /// next blob. Whoever drives the feed receives, calls this, and does
    /// what it says.
    pub fn step(&self, module: &str, variant: &str, event: FeedEvent) -> (step: Step)
        ensures
            match event {
                FeedEvent::Closed => step matches Step::Return(Err(e)) && e
                    == WaitError::SourceClosed,
                FeedEvent::Blob(text) => match scan(
                    self.schema,
                    self.registry@,
                    module@,
                    variant@,
                    text@,
                ) {
                    Ok(found) => step matches Step::Return(Ok(raw)) && raw@ == found,
                    Err(reason) => step matches Step::Receive(skip) && skip@ == reason,
                },
            },
    {
        match event {
            FeedEvent::Closed => Step::Return(Err(WaitError::SourceClosed)),
            FeedEvent::Blob(text) => match self.scan_blob(module, variant, text) {
                Ok(raw) => Step::Return(Ok(raw)),
                Err(skip) => Step::Receive(skip),
            },
        }
    }

    /// Waits on a closed feed for the first event of this module and name,
    /// and hands back its argument bytes as they came.
    ///
    /// The blobs up to the one that holds the event are received; those
    /// after it stay in the feed.
    pub fn wait_for_raw_custom_event(
        &self,
        module: &str,
        variant: &str,
        receiver: &mut Inbound,
    ) -> (r: Result<RawEvent, WaitError>)
        ensures
            ({
                let (outcome, left) = wait_outcome(
                    self.schema,
                    self.registry@,
                    module@,
                    variant@,
                    old(receiver).pending(),
                );
                &&& final(receiver).pending() == left
                &&& match r {
                    Ok(raw) => outcome == Ok::<_, WaitError>(raw@),
                    Err(e) => outcome == Err::<RawEventView, _>(e),
                }
            }),
    {
        loop
            invariant
                wait_outcome(
                    self.schema,
                    self.registry@,
                    module@,
                    variant@,
                    old(receiver).pending(),
                ) == wait_outcome(
                    self.schema,
                    self.registry@,
                    module@,
                    variant@,
                    receiver.pending(),
                ),
            decreases receiver.pending().len(),
        {
            let text = receiver.recv();
            let step = match &text {
                Some(text) => self.step(module, variant, FeedEvent::Blob(text.as_str())),
                None => self.step(module, variant, FeedEvent::Closed),
            };
            match step {
                Step::Return(r) => {
                    return r;
                },
                Step::Receive(_) => {},
            }
        }
    }

    /// Waits on a closed feed for the first event of this module and name,
    /// and gives its arguments the shape `E`.
    ///
    /// Once the event is found the wait is over: arguments that do not fill
    /// `E` exactly end it with `PayloadMismatch`.
    pub fn wait_for_custom_event<E: EventArgs>(
        &self,
        module: &str,
        variant: &str,
        receiver: &mut Inbound,
    ) -> (r: Result<E, WaitError>)
        ensures
            ({
                let (outcome, left) = wait_outcome(
                    self.schema,
                    self.registry@,
                    module@,
                    variant@,
                    old(receiver).pending(),
                );
                &&& final(receiver).pending() == left
                &&& match outcome {
                    Ok(raw) => {
                        &&& r is Ok <==> E::accepts(raw.data)
                        &&& r matches Ok(value) ==> E::decodes(raw.data, value)
                        &&& r matches Err(e) ==> e == WaitError::PayloadMismatch
                        &&& raw.data.len() != E::width() ==> r is Err
                    },
                    Err(e) => r == Err::<E, _>(e),
                }
            }),
    {
        match self.wait_for_raw_custom_event(module, variant, receiver) {
            Ok(raw) => decode_arguments::<E>(&raw),
            Err(e) => Err(e),
        }
    }
}

} // verus!
