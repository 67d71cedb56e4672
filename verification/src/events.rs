//! Decoding one block's event records.
//!
//! A blob starts with a compact-encoded count of records. Each record is a
//! phase, a module discriminator, an event discriminator, the event's
//! arguments one after the other, and a list of topics. The decoder keeps the
//! argument bytes as they are: what they mean is for the caller to say, who
//! knows the one event that it waits for.

use crate::codec::{compact_u32, le_u32, lemma_compact_u32_width};
use crate::error::{DecodeError, DecodeErrorView};
use crate::metadata::MetadataIndex;
use crate::reader::BinaryReader;
use crate::registry::{resolved, SizeRule, TypeSizeRegistry};
use vstd::prelude::*;

verus! {

/// When in the execution of a block an event was emitted.
#[derive(Debug, Clone, Copy, PartialEq, Eq, Structural)]
pub enum Phase {
    /// While the extrinsic with this index was applied.
    ApplyExtrinsic(u32),
    /// While the block was finalized.
    Finalization,
    /// While the block was initialized.
    Initialization,
}

/// One event as it came off the wire: where it is from, and the bytes of its
/// arguments, not interpreted.
#[derive(Debug, PartialEq, Eq)]
pub struct RawEvent {
    /// The name of the module that emitted the event.
    pub module: String,
    /// The name of the event.
    pub variant: String,
    /// The bytes of the event's arguments.
    pub data: Vec<u8>,
}

/// A `RawEvent` as contracts see it.
pub struct RawEventView {
    pub module: Seq<char>,
    pub variant: Seq<char>,
    pub data: Seq<u8>,
}

impl View for RawEvent {
    type V = RawEventView;

    open spec fn view(&self) -> RawEventView {
        RawEventView { module: self.module@, variant: self.variant@, data: self.data@ }
    }
}

/// A list of decoded records as contracts see it.
pub open spec fn records_view(records: Seq<(Phase, RawEvent)>) -> Seq<(Phase, RawEventView)> {
    Seq::new(records.len(), |i: int| (records[i].0, records[i].1@))
}

/// The width of one topic, a hash.
pub const TOPIC_WIDTH: usize = 32;

/// The phase at the head of `s` and the number of bytes that it takes.
pub open spec fn parse_phase(s: Seq<u8>) -> Result<(Phase, nat), DecodeErrorView> {
    if s.len() < 1 {
        Err(DecodeErrorView::Truncated)
    } else if s[0] == 0 {
        if s.len() < 5 {
            Err(DecodeErrorView::Truncated)
        } else {
            Ok((Phase::ApplyExtrinsic(le_u32(s.skip(1))), 5))
        }
    } else if s[0] == 1 {
        Ok((Phase::Finalization, 1))
    } else if s[0] == 2 {
        Ok((Phase::Initialization, 1))
    } else {
        Err(DecodeErrorView::UnknownVariant)
    }
}

/// The number of bytes that values of the types `types` take at the head
/// of `s`, one after the other.
///
/// The first type that resolves to no rule ends the count with its name;
/// a value that `s` does not hold in full ends it as truncated.
pub open spec fn arguments_span(
    registered: Map<Seq<char>, SizeRule>,
    types: Seq<String>,
    s: Seq<u8>,
) -> Result<nat, DecodeErrorView>
    decreases types.len(),
{
    if types.len() == 0 {
        Ok(0)
    } else {
        match resolved(registered, types[0]@) {
            None => Err(DecodeErrorView::UnknownType(types[0]@)),
            Some(rule) => match rule.span(s) {
                None => Err(DecodeErrorView::Truncated),
                Some(first) => match arguments_span(
                    registered,
                    types.drop_first(),
                    s.skip(first as int),
                ) {
                    Ok(others) => Ok(first + others),
                    Err(e) => Err(e),
                },
            },
        }
    }
}

/// The number of bytes that the list of topics at the head of `s` takes: a
/// compact-encoded count and that many hashes.
pub open spec fn topics_span(s: Seq<u8>) -> Option<nat> {
    SizeRule::Sequence(TOPIC_WIDTH).span(s)
}

/// The record at the head of `s` and the number of bytes that it takes.
///
/// The argument bytes of the record are the bytes of `s` between the event
/// discriminator and the topics, unchanged.
pub open spec fn parse_record(
    schema: MetadataIndex,
    registered: Map<Seq<char>, SizeRule>,
    s: Seq<u8>,
) -> Result<((Phase, RawEventView), nat), DecodeErrorView> {
    match parse_phase(s) {
        Err(e) => Err(e),
        Ok((phase, head)) => {
            let from = head as int + 2;
            if s.len() < head + 1 {
                Err(DecodeErrorView::Truncated)
            } else {
                match schema.module_spec(s[head as int]) {
                    None => Err(DecodeErrorView::UnknownVariant),
                    Some(module) => if s.len() < from {
                        Err(DecodeErrorView::Truncated)
                    } else {
                        match module.event_spec(s[from - 1]) {
                            None => Err(DecodeErrorView::UnknownVariant),
                            Some(event) => match arguments_span(
                                registered,
                                event.arguments@,
                                s.skip(from),
                            ) {
                                Err(e) => Err(e),
                                Ok(arguments) => match topics_span(s.skip(from + arguments)) {
                                    None => Err(DecodeErrorView::Truncated),
                                    Some(topics) => Ok(
                                        (
                                            (
                                                phase,
                                                RawEventView {
                                                    module: module.name@,
                                                    variant: event.name@,
                                                    data: s.subrange(from, from + arguments),
                                                },
                                            ),
                                            (from + arguments + topics) as nat,
                                        ),
                                    ),
                                },
                            },
                        }
                    },
                }
            }
        },
    }
}

/// The `count` records at the head of `s`, in their order.
pub open spec fn parse_records(
    schema: MetadataIndex,
    registered: Map<Seq<char>, SizeRule>,
    s: Seq<u8>,
    count: nat,
) -> Result<Seq<(Phase, RawEventView)>, DecodeErrorView>
    decreases count,
{
    if count == 0 {
        Ok(Seq::empty())
    } else {
        match parse_record(schema, registered, s) {
            Err(e) => Err(e),
            Ok((record, width)) => match parse_records(
                schema,
                registered,
                s.skip(width as int),
                (count - 1) as nat,
            ) {
                Err(e) => Err(e),
                Ok(others) => Ok(seq![record] + others),
            },
        }
    }
}

/// The records that `blob` holds: as many as its leading count says. Bytes
/// after the last record are not looked at. The first record that cannot be
/// decoded fails the blob as a whole.
pub open spec fn parse_events(
    schema: MetadataIndex,
    registered: Map<Seq<char>, SizeRule>,
    blob: Seq<u8>,
) -> Result<Seq<(Phase, RawEventView)>, DecodeErrorView> {
    match compact_u32(blob) {
        None => Err(DecodeErrorView::Truncated),
        Some((count, width)) => parse_records(
            schema,
            registered,
            blob.skip(width as int),
            count as nat,
        ),
    }
}

/// A compact count that `s` holds in full reads the same with anything
/// appended to `s`.
pub proof fn lemma_compact_reads_the_same_when_extended(s: Seq<u8>, more: Seq<u8>)
    requires
        compact_u32(s) is Some,
    ensures
        compact_u32(s + more) == compact_u32(s),
{
    reveal(compact_u32);
    let t = s + more;
    assert(t[0] == s[0]);
    if s.len() >= 2 {
        assert(t[1] == s[1]);
    }
    if s.len() >= 4 {
        assert(t[2] == s[2]);
        assert(t[3] == s[3]);
    }
    if s.len() >= 5 {
        assert(t.skip(1)[0] == s.skip(1)[0]);
        assert(t.skip(1)[1] == s.skip(1)[1]);
        assert(t.skip(1)[2] == s.skip(1)[2]);
        assert(t.skip(1)[3] == s.skip(1)[3]);
    }
}

/// A value that `s` holds in full takes the same bytes with anything
/// appended to `s`.
pub proof fn lemma_span_is_the_same_when_extended(rule: SizeRule, s: Seq<u8>, more: Seq<u8>)
    requires
        rule.span(s) is Some,
    ensures
        (rule.span(s + more)) == rule.span(s),
        rule.span(s)->Some_0 <= s.len(),
{
    match rule {
        SizeRule::Fixed(_) => {},
        SizeRule::Sequence(_) => {
            lemma_compact_u32_width(s);
            lemma_compact_reads_the_same_when_extended(s, more);
        },
    }
}

/// Arguments that `s` holds in full take the same bytes with anything
/// appended to `s`, and they lie within `s`.
pub proof fn lemma_arguments_are_the_same_when_extended(
    registered: Map<Seq<char>, SizeRule>,
    types: Seq<String>,
    s: Seq<u8>,
    more: Seq<u8>,
)
    requires
        arguments_span(registered, types, s) is Ok,
    ensures
        arguments_span(registered, types, s + more) == arguments_span(registered, types, s),
        arguments_span(registered, types, s)->Ok_0 <= s.len(),
    decreases types.len(),
{
    if types.len() > 0 {
        let rule = resolved(registered, types[0]@)->Some_0;
        let first = rule.span(s)->Some_0 as int;
        lemma_span_is_the_same_when_extended(rule, s, more);
        assert((s + more).skip(first) =~= s.skip(first) + more);
        lemma_arguments_are_the_same_when_extended(
            registered,
            types.drop_first(),
            s.skip(first),
            more,
        );
    }
}

/// What is written is read back, byte for byte.
///
/// Take the bytes of a phase, the discriminators of a module and of one of
/// its events, argument bytes that hold values of the event's argument
/// types and nothing else, and the bytes of a list of topics. Put one after
/// the other, followed by anything, they decode to one record: that phase,
/// that module and event by name, and the argument bytes unchanged.
pub proof fn lemma_record_is_read_back(
    schema: MetadataIndex,
    registered: Map<Seq<char>, SizeRule>,
    phase: Seq<u8>,
    module_index: u8,
    event_index: u8,
    arguments: Seq<u8>,
    topics: Seq<u8>,
    more: Seq<u8>,
)
    requires
        parse_phase(phase) matches Ok((_, width)) && width == phase.len(),
        schema.module_spec(module_index) matches Some(module) && module.event_spec(event_index)
            matches Some(event) && arguments_span(registered, event.arguments@, arguments) == Ok::<
            nat,
            DecodeErrorView,
        >(arguments.len()),
        topics_span(topics) == Some(topics.len()),
    ensures
        ({
            let module = schema.module_spec(module_index)->Some_0;
            let event = module.event_spec(event_index)->Some_0;
            parse_record(
                schema,
                registered,
                phase + seq![module_index, event_index] + arguments + topics + more,
            ) == Ok::<_, DecodeErrorView>(
                (
                    (
                        parse_phase(phase)->Ok_0.0,
                        RawEventView {
                            module: module.name@,
                            variant: event.name@,
                            data: arguments,
                        },
                    ),
                    (phase.len() + 2 + arguments.len() + topics.len()) as nat,
                ),
            )
        }),
{
    let module = schema.module_spec(module_index)->Some_0;
    let event = module.event_spec(event_index)->Some_0;
    let s = phase + seq![module_index, event_index] + arguments + topics + more;
    let head = phase.len() as int;
    let from = head + 2;
    assert(s[0] == phase[0]);
    if phase[0] == 0 {
        assert(s.skip(1)[0] == phase.skip(1)[0]);
        assert(s.skip(1)[1] == phase.skip(1)[1]);
        assert(s.skip(1)[2] == phase.skip(1)[2]);
        assert(s.skip(1)[3] == phase.skip(1)[3]);
    }
    assert(parse_phase(s) == parse_phase(phase));
    assert(s[head] == module_index);
    assert(s[from - 1] == event_index);
    assert(s.skip(from) =~= arguments + (topics + more));
    lemma_arguments_are_the_same_when_extended(
        registered,
        event.arguments@,
        arguments,
        topics + more,
    );
    assert(s.skip(from + arguments.len()) =~= topics + more);
    lemma_span_is_the_same_when_extended(SizeRule::Sequence(TOPIC_WIDTH), topics, more);
    assert(s.subrange(from, from + arguments.len()) =~= arguments);
}

/// A record that `s` holds in full decodes the same with anything appended
/// to `s`, and it lies within `s`.
pub proof fn lemma_record_is_the_same_when_extended(
    schema: MetadataIndex,
    registered: Map<Seq<char>, SizeRule>,
    s: Seq<u8>,
    more: Seq<u8>,
)
    requires
        parse_record(schema, registered, s) is Ok,
    ensures
        parse_record(schema, registered, s + more) == parse_record(schema, registered, s),
        parse_record(schema, registered, s)->Ok_0.1 <= s.len(),
{
    let t = s + more;
    let head = parse_phase(s)->Ok_0.1 as int;
    let from = head + 2;
    assert(t[0] == s[0]);
    if s[0] == 0 {
        assert(t.skip(1)[0] == s.skip(1)[0]);
        assert(t.skip(1)[1] == s.skip(1)[1]);
        assert(t.skip(1)[2] == s.skip(1)[2]);
        assert(t.skip(1)[3] == s.skip(1)[3]);
    }
    assert(parse_phase(t) == parse_phase(s));
    assert(t[head] == s[head]);
    assert(t[from - 1] == s[from - 1]);
    let module = schema.module_spec(s[head])->Some_0;
    let event = module.event_spec(s[from - 1])->Some_0;
    assert(t.skip(from) =~= s.skip(from) + more);
    lemma_arguments_are_the_same_when_extended(
        registered,
        event.arguments@,
        s.skip(from),
        more,
    );
    let arguments = arguments_span(registered, event.arguments@, s.skip(from))->Ok_0 as int;
    assert(t.skip(from + arguments) =~= s.skip(from + arguments) + more);
    lemma_span_is_the_same_when_extended(
        SizeRule::Sequence(TOPIC_WIDTH),
        s.skip(from + arguments),
        more,
    );
    assert(t.subrange(from, from + arguments) =~= s.subrange(from, from + arguments));
}

/// The byte strings `parts`, one after the other.
pub open spec fn joined(parts: Seq<Seq<u8>>) -> Seq<u8>
    decreases parts.len(),
{
    if parts.len() == 0 {
        Seq::empty()
    } else {
        parts[0] + joined(parts.drop_first())
    }
}

/// Byte strings that each hold one record and nothing else decode, put one
/// after the other and followed by anything, to those records in their
/// order.
pub proof fn lemma_records_are_read_back(
    schema: MetadataIndex,
    registered: Map<Seq<char>, SizeRule>,
    parts: Seq<Seq<u8>>,
    records: Seq<(Phase, RawEventView)>,
    more: Seq<u8>,
)
    requires
        records.len() == parts.len(),
        forall|i: int|
            0 <= i < parts.len() ==> parse_record(schema, registered, #[trigger] parts[i]) == Ok::<
                _,
                DecodeErrorView,
            >((records[i], parts[i].len())),
    ensures
        parse_records(schema, registered, joined(parts) + more, parts.len()) == Ok::<
            _,
            DecodeErrorView,
        >(records),
    decreases parts.len(),
{
    if parts.len() == 0 {
        assert(records =~= Seq::empty());
    } else {
        let first = parts[0];
        let others = parts.drop_first();
        let s = joined(parts) + more;
        assert(s =~= first + (joined(others) + more));
        lemma_record_is_the_same_when_extended(schema, registered, first, joined(others) + more);
        assert(s.skip(first.len() as int) =~= joined(others) + more);
        assert forall|i: int| 0 <= i < others.len() implies parse_record(
            schema,
            registered,
            #[trigger] others[i],
        ) == Ok::<_, DecodeErrorView>((records.drop_first()[i], others[i].len())) by {
            assert(others[i] == parts[i + 1]);
        }
        lemma_records_are_read_back(schema, registered, others, records.drop_first(), more);
        assert(seq![records[0]] + records.drop_first() =~= records);
    }
}

/// A blob that is made of a count and as many records, each written so
/// that it reads back, decodes to those records in their order: nothing of
/// what was written is lost or changed on the way through the decoder.
pub proof fn lemma_blob_is_read_back(
    schema: MetadataIndex,
    registered: Map<Seq<char>, SizeRule>,
    count: Seq<u8>,
    parts: Seq<Seq<u8>>,
    records: Seq<(Phase, RawEventView)>,
    more: Seq<u8>,
)
    requires
        compact_u32(count) matches Some((n, width)) && n == parts.len() && width == count.len(),
        records.len() == parts.len(),
        forall|i: int|
            0 <= i < parts.len() ==> parse_record(schema, registered, #[trigger] parts[i]) == Ok::<
                _,
                DecodeErrorView,
            >((records[i], parts[i].len())),
    ensures
        parse_events(schema, registered, count + joined(parts) + more) == Ok::<
            _,
            DecodeErrorView,
        >(records),
{
    let blob = count + joined(parts) + more;
    assert(blob =~= count + (joined(parts) + more));
    lemma_compact_reads_the_same_when_extended(count, joined(parts) + more);
    assert(blob.skip(count.len() as int) =~= joined(parts) + more);
    lemma_records_are_read_back(schema, registered, parts, records, more);
}

/// Reads a phase. A failed read leaves the reader where it was.
pub fn read_phase(reader: &mut BinaryReader) -> (r: Result<Phase, DecodeError>)
    ensures
        match r {
            Ok(phase) => {
                &&& parse_phase(old(reader).rest()) matches Ok((parsed, width))
                &&& phase == parsed
                &&& final(reader).rest() == old(reader).rest().skip(width as int)
            },
            Err(e) => {
                &&& parse_phase(old(reader).rest()) == Err::<(Phase, nat), _>(e@)
                &&& final(reader).rest() == old(reader).rest()
            },
        },
{
    let start = *reader;
    let tag = match reader.read_byte() {
        Ok(tag) => tag,
        Err(e) => {
            return Err(e);
        },
    };
    if tag == 0 {
        match reader.read_u32() {
            Ok(index) => {
                assert(reader.rest() =~= old(reader).rest().skip(5));
                Ok(Phase::ApplyExtrinsic(index))
            },
            Err(e) => {
                *reader = start;
                Err(e)
            },
        }
    } else if tag == 1 {
        Ok(Phase::Finalization)
    } else if tag == 2 {
        Ok(Phase::Initialization)
    } else {
        *reader = start;
        Err(DecodeError::UnknownVariant)
    }
}

/// Reads the arguments of an event whose argument types are `types`, and
/// hands their bytes back as they stand in the input. A failed read leaves
/// the reader where it was.
pub fn read_arguments(
    reader: &mut BinaryReader,
    registry: &TypeSizeRegistry,
    types: &Vec<String>,
) -> (r: Result<Vec<u8>, DecodeError>)
    ensures
        match r {
            Ok(data) => {
                &&& arguments_span(registry@, types@, old(reader).rest()) matches Ok(width)
                &&& width <= old(reader).rest().len()
                &&& data@ == old(reader).rest().take(width as int)
                &&& final(reader).rest() == old(reader).rest().skip(width as int)
            },
            Err(e) => {
                &&& arguments_span(registry@, types@, old(reader).rest()) == Err::<nat, _>(e@)
                &&& final(reader).rest() == old(reader).rest()
            },
        },
{
    let origin = *reader;
    let ghost start = reader.rest();
    let mut data: Vec<u8> = Vec::new();
    let mut i: usize = 0;
    assert(types@.skip(0) =~= types@);
    assert(start.skip(0) =~= start);
    assert(data@ =~= start.take(0));
    while i < types.len()
        invariant
            i <= types@.len(),
            start == old(reader).rest(),
            origin.rest() == start,
            data@.len() <= start.len(),
            data@ == start.take(data@.len() as int),
            reader.rest() == start.skip(data@.len() as int),
            arguments_span(registry@, types@, start) == match arguments_span(
                registry@,
                types@.skip(i as int),
                reader.rest(),
            ) {
                Ok(others) => Ok::<nat, DecodeErrorView>(data@.len() + others),
                Err(e) => Err(e),
            },
        decreases types@.len() - i,
    {
        let ghost before = reader.rest();
        let ghost taken = data@.len() as int;
        assert(types@.skip(i as int)[0] == types@[i as int]);
        assert(types@.skip(i as int).drop_first() =~= types@.skip(i + 1));
        let rule = match registry.resolve(types[i].as_str()) {
            Some(rule) => rule,
            None => {
                *reader = origin;
                return Err(DecodeError::UnknownType(types[i].clone()));
            },
        };
        let bytes = match reader.take_value(rule) {
            Ok(bytes) => bytes,
            Err(e) => {
                *reader = origin;
                return Err(e);
            },
        };
        let ghost earlier = data@;
        data.extend_from_slice(bytes);
        proof {
            let width = rule.span(before)->Some_0 as int;
            assert(data@ =~= earlier + bytes@);
            assert(data@ =~= start.take(taken + width));
            assert(reader.rest() =~= start.skip(taken + width));
        }
        i = i + 1;
    }
    Ok(data)
}

/// Reads one record: phase, module and event, arguments, topics. A failed
/// read leaves the reader where it was.
pub fn read_record(
    reader: &mut BinaryReader,
    schema: &MetadataIndex,
    registry: &TypeSizeRegistry,
) -> (r: Result<(Phase, RawEvent), DecodeError>)
    ensures
        match r {
            Ok(record) => {
                &&& parse_record(*schema, registry@, old(reader).rest()) matches Ok(
                    (parsed, width),
                )
                &&& (record.0, record.1@) == parsed
                &&& final(reader).rest() == old(reader).rest().skip(width as int)
            },
            Err(e) => {
                &&& parse_record(*schema, registry@, old(reader).rest()) == Err::<
                    ((Phase, RawEventView), nat),
                    _,
                >(e@)
                &&& final(reader).rest() == old(reader).rest()
            },
        },
{
    let origin = *reader;
    let ghost start = reader.rest();
    let phase = match read_phase(reader) {
        Ok(phase) => phase,
        Err(e) => {
            return Err(e);
        },
    };
    let ghost head = parse_phase(start)->Ok_0.1 as int;
    let module_index = match reader.read_byte() {
        Ok(index) => index,
        Err(e) => {
            *reader = origin;
            return Err(e);
        },
    };
    let module = match schema.module(module_index) {
        Some(module) => module,
        None => {
            *reader = origin;
            return Err(DecodeError::UnknownVariant);
        },
    };
    let event_index = match reader.read_byte() {
        Ok(index) => index,
        Err(e) => {
            *reader = origin;
            return Err(e);
        },
    };
    let event = match module.event(event_index) {
        Some(event) => event,
        None => {
            *reader = origin;
            return Err(DecodeError::UnknownVariant);
        },
    };
    assert(reader.rest() =~= start.skip(head + 2));
    let data = match read_arguments(reader, registry, &event.arguments) {
        Ok(data) => data,
        Err(e) => {
            *reader = origin;
            return Err(e);
        },
    };
    let ghost arguments = data@.len() as int;
    assert(reader.rest() =~= start.skip(head + 2 + arguments));
    assert(data@ =~= start.subrange(head + 2, head + 2 + arguments));
    match reader.take_value(SizeRule::Sequence(TOPIC_WIDTH)) {
        Ok(_) => {},
        Err(e) => {
            *reader = origin;
            return Err(e);
        },
    }
    proof {
        let topics = topics_span(start.skip(head + 2 + arguments))->Some_0 as int;
        assert(reader.rest() =~= start.skip(head + 2 + arguments + topics));
    }
    Ok((phase, RawEvent { module: module.name.clone(), variant: event.name.clone(), data }))
}

/// Decodes the event records of one block.
///
/// The result is what `parse_events` says of the blob, the schema and the
/// registrations: the records in their order, or the error of the first
/// record that cannot be decoded.
pub fn decode_events(blob: &[u8], schema: &MetadataIndex, registry: &TypeSizeRegistry) -> (r:
    Result<Vec<(Phase, RawEvent)>, DecodeError>)
    ensures
        match r {
            Ok(records) => parse_events(*schema, registry@, blob@) == Ok::<_, DecodeErrorView>(
                records_view(records@),
            ),
            Err(e) => parse_events(*schema, registry@, blob@) == Err::<
                Seq<(Phase, RawEventView)>,
                _,
            >(e@),
        },
{
    let mut reader = BinaryReader::new(blob);
    let count = match reader.read_compact() {
        Ok(count) => count,
        Err(e) => {
            return Err(e);
        },
    };
    let mut records: Vec<(Phase, RawEvent)> = Vec::new();
    let mut done: u32 = 0;
    assert(records_view(records@) + parse_records(
        *schema,
        registry@,
        reader.rest(),
        count as nat,
    )->Ok_0 =~= parse_records(*schema, registry@, reader.rest(), count as nat)->Ok_0);
    while done < count
        invariant
            done <= count,
            parse_events(*schema, registry@, blob@) == match parse_records(
                *schema,
                registry@,
                reader.rest(),
                (count - done) as nat,
            ) {
                Ok(others) => Ok::<_, DecodeErrorView>(records_view(records@) + others),
                Err(e) => Err(e),
            },
        decreases count - done,
    {
        let ghost before = records_view(records@);
        let ghost input = reader.rest();
        let record = match read_record(&mut reader, schema, registry) {
            Ok(record) => record,
            Err(e) => {
                return Err(e);
            },
        };
        let ghost parsed = (record.0, record.1@);
        records.push(record);
        done = done + 1;
        proof {
            assert(records_view(records@) =~= before + seq![parsed]);
            let width = parse_record(*schema, registry@, input)->Ok_0.1 as int;
            match parse_records(*schema, registry@, input.skip(width), (count - done) as nat) {
                Ok(others) => {
                    assert(before + (seq![parsed] + others) =~= records_view(records@) + others);
                },
                Err(_) => {},
            }
        }
    }
    assert(records_view(records@) + Seq::<(Phase, RawEventView)>::empty() =~= records_view(
        records@,
    ));
    Ok(records)
}

} // verus!
