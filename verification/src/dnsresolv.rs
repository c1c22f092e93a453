//! The PTR query, the answers of a response, and the receive loop's decisions.

use crate::error::{DnsError, Malformation};
use crate::name::{labels_at, lemma_name_round_trip, join_dots, push_name, valid_name, wire_name};
use crate::wire::{push_u16, u16_at, u16_bytes, u32_bytes, ByteCursor};
use vstd::prelude::*;
use vstd::string::StringSliceAdditionalSpecFns;

verus! {

/// Record type of an IPv4 address.
pub const TYPE_A: u16 = 1;

/// Record type of a domain-name pointer.
pub const TYPE_PTR: u16 = 12;

/// Record type of text strings.
pub const TYPE_TXT: u16 = 16;

/// Record type of a service location.
pub const TYPE_SRV: u16 = 33;

/// The first byte of a compressed owner name.
pub const NAME_POINTER: u8 = 0xc0;

/// The class of the Internet.
pub const CLASS_IN: u16 = 1;

/// The header flags of a query: recursion desired.
pub const RECURSION_DESIRED: u16 = 0x0100;

/// The length of a message header.
pub const HEADER_LEN: usize = 12;

/// The multicast group to which queries are sent.
pub const GROUP: [u8; 4] = [224, 0, 0, 251];

/// The UDP port to which queries are sent.
pub const GROUP_PORT: u16 = 5353;

/// The largest datagram that is read.
pub const DATAGRAM_MAX: usize = 512;

/// How long the receive loop waits for the next datagram, in milliseconds.
pub const TIMEOUT_MS: u64 = 100;

/// The bytes of an answer record before its data: name pointer (2), type
/// (2), class (2), time to live (4), data length (2).
pub const RECORD_HEAD: usize = 12;

/// One answer of a response: the record's kind and its raw data.
#[derive(Debug, PartialEq)]
pub enum DnsAnswer {
    /// A record of any other type.
    UNKNOWN(Vec<u8>),
    /// A domain-name pointer: length-prefixed labels.
    PTR(Vec<u8>),
    /// Text: length-prefixed strings.
    TXT(Vec<u8>),
    /// An IPv4 address: four bytes.
    A(Vec<u8>),
    /// A service location: priority, weight, port, target name.
    SRV(Vec<u8>),
}

/// An answer as contracts see it: the kind, and the data as a sequence.
pub enum Record {
    UNKNOWN(Seq<u8>),
    PTR(Seq<u8>),
    TXT(Seq<u8>),
    A(Seq<u8>),
    SRV(Seq<u8>),
}

impl Record {
    /// The record of type `rtype` with the data `rdata`.
    pub open spec fn of(rtype: u16, rdata: Seq<u8>) -> Record {
        if rtype == TYPE_A {
            Record::A(rdata)
        } else if rtype == TYPE_PTR {
            Record::PTR(rdata)
        } else if rtype == TYPE_TXT {
            Record::TXT(rdata)
        } else if rtype == TYPE_SRV {
            Record::SRV(rdata)
        } else {
            Record::UNKNOWN(rdata)
        }
    }

    /// The record's raw data.
    pub open spec fn rdata(self) -> Seq<u8> {
        match self {
            Record::UNKNOWN(data) => data,
            Record::PTR(data) => data,
            Record::TXT(data) => data,
            Record::A(data) => data,
            Record::SRV(data) => data,
        }
    }
}

impl View for DnsAnswer {
    type V = Record;

    open spec fn view(&self) -> Record {
        match self {
            DnsAnswer::UNKNOWN(data) => Record::UNKNOWN(data@),
            DnsAnswer::PTR(data) => Record::PTR(data@),
            DnsAnswer::TXT(data) => Record::TXT(data@),
            DnsAnswer::A(data) => Record::A(data@),
            DnsAnswer::SRV(data) => Record::SRV(data@),
        }
    }
}

/// The records that a list of answers stands for.
pub open spec fn records(answers: Seq<DnsAnswer>) -> Seq<Record> {
    answers.map_values(|answer: DnsAnswer| answer@)
}

impl DnsAnswer {
    /// The answer of record type `idns_type` that carries `data` unchanged.
    pub fn new(idns_type: u16, data: Vec<u8>) -> (answer: DnsAnswer)
        ensures
            answer@ == Record::of(idns_type, data@),
    {
        if idns_type == TYPE_A {
            DnsAnswer::A(data)
        } else if idns_type == TYPE_PTR {
            DnsAnswer::PTR(data)
        } else if idns_type == TYPE_TXT {
            DnsAnswer::TXT(data)
        } else if idns_type == TYPE_SRV {
            DnsAnswer::SRV(data)
        } else {
            DnsAnswer::UNKNOWN(data)
        }
    }
}

/// The answer record that starts at `at`, and where the next one starts.
/// The owner name must be a two-byte pointer, of which only the first byte
/// is looked at; the type stands behind it, the data length at the end of
/// the head, and the data is as long as that length says.
pub open spec fn answer_at(data: Seq<u8>, at: int) -> Result<(Record, int), DnsError> {
    if data.len() < at + 1 {
        Err(DnsError::Malformed(Malformation::Truncated))
    } else if data[at] != NAME_POINTER {
        Err(DnsError::Malformed(Malformation::NamePointerRequired))
    } else if data.len() < at + RECORD_HEAD {
        Err(DnsError::Malformed(Malformation::Truncated))
    } else if data.len() < at + RECORD_HEAD + u16_at(data, at + 10) {
        Err(DnsError::Malformed(Malformation::Truncated))
    } else {
        let end = at + RECORD_HEAD + u16_at(data, at + 10);
        Ok((Record::of(u16_at(data, at + 2), data.subrange(at + RECORD_HEAD, end)), end))
    }
}

/// The fields of an answer record.
pub struct AnswerFields {
    /// The second byte of the name pointer.
    pub pointer: u8,
    pub rtype: u16,
    pub class: u16,
    pub ttl: u32,
    pub rdata: Seq<u8>,
}

/// The fields of a response.
pub struct ResponseFields {
    pub id: u16,
    pub flags: u16,
    pub qdcount: u16,
    pub nscount: u16,
    pub arcount: u16,
    /// The dotted name of the echoed question.
    pub qname: Seq<u8>,
    pub qtype: u16,
    pub qclass: u16,
    pub answers: Seq<AnswerFields>,
}

/// An answer record on the wire: the name pointer, the type, the class, the
/// time to live, the length of the data, the data.
pub open spec fn wire_answer(answer: AnswerFields) -> Seq<u8> {
    seq![NAME_POINTER, answer.pointer] + u16_bytes(answer.rtype) + u16_bytes(answer.class)
        + u32_bytes(answer.ttl) + u16_bytes(answer.rdata.len() as u16) + answer.rdata
}

/// Answer records on the wire, one behind the other.
pub open spec fn wire_answers(answers: Seq<AnswerFields>) -> Seq<u8>
    decreases answers.len(),
{
    if answers.len() == 0 {
        Seq::empty()
    } else {
        wire_answer(answers[0]) + wire_answers(answers.drop_first())
    }
}

/// A response on the wire: the header, which counts the answers, the echoed
/// question, the answers.
pub open spec fn wire_response(response: ResponseFields) -> Seq<u8> {
    u16_bytes(response.id) + u16_bytes(response.flags) + u16_bytes(response.qdcount) + u16_bytes(
        response.answers.len() as u16,
    ) + u16_bytes(response.nscount) + u16_bytes(response.arcount) + wire_name(response.qname)
        + u16_bytes(response.qtype) + u16_bytes(response.qclass) + wire_answers(
        response.answers,
    )
}

/// The records that answer fields stand for.
pub open spec fn records_of(answers: Seq<AnswerFields>) -> Seq<Record> {
    answers.map_values(|answer: AnswerFields| Record::of(answer.rtype, answer.rdata))
}

/// Whether the data of each answer fits the 16 bits of its length.
pub open spec fn data_fits(answers: Seq<AnswerFields>) -> bool {
    forall|i: int| 0 <= i < answers.len() ==> (#[trigger] answers[i]).rdata.len() <= u16::MAX
}

/// Reads one answer record. A record that cannot be read leaves the cursor
/// where it was.
pub fn create_dnsanswer(cursor: &mut ByteCursor) -> (r: Result<DnsAnswer, DnsError>)
    ensures
        final(cursor).bytes() == old(cursor).bytes(),
        match r {
            Ok(answer) => answer_at(old(cursor).bytes(), old(cursor).offset() as int) == Ok::<
                (Record, int),
                DnsError,
            >((answer@, final(cursor).offset() as int)),
            Err(e) => answer_at(old(cursor).bytes(), old(cursor).offset() as int) == Err::<
                (Record, int),
                DnsError,
            >(e) && final(cursor).offset() == old(cursor).offset(),
        },
{
    let mut probe = *cursor;
    let name = probe.read_u8()?;
    if name != NAME_POINTER {
        return Err(DnsError::Malformed(Malformation::NamePointerRequired));
    }
    probe.read_u8()?;
    let dnstype = probe.read_u16()?;
    probe.read_u16()?;
    probe.read_u32()?;
    let rdlength = probe.read_u16()?;
    let dnsdata = probe.read_bytes(rdlength as usize)?;
    *cursor = probe;
    Ok(DnsAnswer::new(dnstype, dnsdata))
}

/// The answers of a response to the query `id`: the header with the id and
/// the number of answers, the echoed question, then the answer records.
pub open spec fn message_answers(data: Seq<u8>, id: u16) -> Result<Seq<Record>, DnsError> {
    if data.len() < 2 {
        Err(DnsError::Malformed(Malformation::Truncated))
    } else if u16_at(data, 0) != id {
        Err(DnsError::IdMismatch)
    } else if data.len() < HEADER_LEN {
        Err(DnsError::Malformed(Malformation::Truncated))
    } else {
        match labels_at(data.skip(HEADER_LEN as int)) {
            None => Err(DnsError::Malformed(Malformation::Truncated)),
            Some((_, taken)) => if data.len() < HEADER_LEN + taken + 4 {
                Err(DnsError::Malformed(Malformation::Truncated))
            } else {
                answers_at(data, HEADER_LEN + taken + 4, u16_at(data, 6) as nat)
            },
        }
    }
}

/// `count` answer records laid end to end from `at` on; the first one that
/// cannot be read decides the failure.
pub open spec fn answers_at(data: Seq<u8>, at: int, count: nat) -> Result<Seq<Record>, DnsError>
    decreases count,
{
    if count == 0 {
        Ok(Seq::empty())
    } else {
        match answer_at(data, at) {
            Err(e) => Err(e),
            Ok((first, next)) => before(seq![first], answers_at(data, next, (count - 1) as nat)),
        }
    }
}

/// `found` put before the records of `later`.
pub open spec fn before(found: Seq<Record>, later: Result<Seq<Record>, DnsError>) -> Result<
    Seq<Record>,
    DnsError,
> {
    match later {
        Err(e) => Err(e),
        Ok(more) => Ok(found + more),
    }
}

/// The PTR query for the dotted name `name`: the header, with recursion
/// desired and one question, then the name, the type and the class.
pub open spec fn query_bytes(id: u16, name: Seq<u8>) -> Seq<u8> {
    u16_bytes(id) + u16_bytes(RECURSION_DESIRED) + u16_bytes(1) + u16_bytes(0) + u16_bytes(0)
        + u16_bytes(0) + wire_name(name) + u16_bytes(TYPE_PTR) + u16_bytes(CLASS_IN)
}

/// What the socket reports to the receive loop.
#[derive(Debug)]
pub enum Event {
    /// A datagram arrived.
    Datagram(Vec<u8>),
    /// The wait ran out with nothing to read.
    Timeout,
}

/// What the receive loop does next.
#[derive(Debug, Clone, Copy, PartialEq, Eq)]
pub enum Step {
    /// Wait for the next event.
    Listen,
    /// Return what was collected.
    Finish,
}

/// The collected records and the next step after an event: the answers of a
/// datagram that parses are appended, any other datagram is dropped, and a
/// timeout ends the loop.
pub open spec fn after_event(id: u16, collected: Seq<Record>, event: Event) -> (Seq<Record>, Step) {
    match event {
        Event::Timeout => (collected, Step::Finish),
        Event::Datagram(datagram) => match message_answers(datagram@, id) {
            Ok(found) => (collected + found, Step::Listen),
            Err(_) => (collected, Step::Listen),
        },
    }
}

/// `rand::random`, asked for a `u16`. Nothing is claimed of the value.
#[verifier::external_body]
fn random_id() -> u16 {
    rand::random()
}

/// A resolver: it sends PTR queries under one id and reads the responses.
pub struct DnsResolv {
    id: u16,
}

impl View for DnsResolv {
    type V = u16;

    /// The id of the resolver's queries.
    closed spec fn view(&self) -> u16 {
        self.id
    }
}

impl DnsResolv {
    /// A resolver with an id drawn at random.
    pub fn new() -> DnsResolv {
        DnsResolv { id: random_id() }
    }

    /// A resolver with the given id.
    pub fn with_id(id: u16) -> (resolver: DnsResolv)
        ensures
            resolver@ == id,
    {
        DnsResolv { id }
    }

    /// The id of the resolver's queries.
    pub fn id(&self) -> (id: u16)
        ensures
            id == self@,
    {
        self.id
    }

    /// The datagram that asks for the pointer records of `host`.
    pub fn create_query_buffer(&self, host: &str) -> (buffer: Vec<u8>)
        ensures
            buffer@ == query_bytes(self@, host.spec_bytes()),
    {
        let mut buffer: Vec<u8> = Vec::new();
        push_u16(&mut buffer, self.id);
        push_u16(&mut buffer, RECURSION_DESIRED);
        push_u16(&mut buffer, 1);
        push_u16(&mut buffer, 0);
        push_u16(&mut buffer, 0);
        push_u16(&mut buffer, 0);
        push_name(&mut buffer, host.as_bytes());
        push_u16(&mut buffer, TYPE_PTR);
        push_u16(&mut buffer, CLASS_IN);
        assert(buffer@ =~= query_bytes(self@, host.spec_bytes()));
        buffer
    }

    /// Reads the answers of one response. A response to another query is
    /// told apart by its id before anything else is looked at.
    pub fn parse_answers(&self, answer_buffer: &[u8]) -> (r: Result<Vec<DnsAnswer>, DnsError>)
        ensures
            match r {
                Ok(answers) => message_answers(answer_buffer@, self@) == Ok::<
                    Seq<Record>,
                    DnsError,
                >(records(answers@)),
                Err(e) => message_answers(answer_buffer@, self@) == Err::<Seq<Record>, DnsError>(e),
            },
    {
        let mut cursor = ByteCursor::new(answer_buffer);
        let id = cursor.read_u16()?;
        if id != self.id {
            return Err(DnsError::IdMismatch);
        }
        cursor.read_u16()?;
        cursor.read_u16()?;
        let ancount = cursor.read_u16()?;
        cursor.read_u16()?;
        cursor.read_u16()?;
        assert(cursor.rest() == answer_buffer@.skip(HEADER_LEN as int));
        cursor.read_labels()?;
        cursor.read_u16()?;
        cursor.read_u16()?;
        let ghost start = cursor.offset() as int;
        let mut answers: Vec<DnsAnswer> = Vec::new();
        let mut done: u16 = 0;
        assert(before(records(answers@), answers_at(answer_buffer@, start, ancount as nat))
            == answers_at(answer_buffer@, start, ancount as nat)) by {
            if let Ok(more) = answers_at(answer_buffer@, start, ancount as nat) {
                assert(records(answers@) + more =~= more);
            }
        }
        while done < ancount
            invariant
                done <= ancount,
                cursor.bytes() == answer_buffer@,
                message_answers(answer_buffer@, self@) == answers_at(
                    answer_buffer@,
                    start,
                    ancount as nat,
                ),
                answers_at(answer_buffer@, start, ancount as nat) == before(
                    records(answers@),
                    answers_at(answer_buffer@, cursor.offset() as int, (ancount - done) as nat),
                ),
            decreases ancount - done,
        {
            let ghost found = records(answers@);
            let dns_answer = match create_dnsanswer(&mut cursor) {
                Ok(a) => a,
                Err(e) => return Err(e),
            };
            proof {
                let later = answers_at(
                    answer_buffer@,
                    cursor.offset() as int,
                    (ancount - done - 1) as nat,
                );
                assert(records(answers@.push(dns_answer)) =~= found + seq![dns_answer@]);
                if let Ok(more) = later {
                    assert(found + (seq![dns_answer@] + more) =~= found + seq![dns_answer@] + more);
                }
            }
            answers.push(dns_answer);
            done = done + 1;
        }
        assert(records(answers@) + Seq::<Record>::empty() =~= records(answers@));
        Ok(answers)
    }

    /// Takes one event of the receive loop: appends the answers of a datagram
    /// that parses, drops any other datagram, and ends the loop on a timeout.
    pub fn on_event(&self, collected: &mut Vec<DnsAnswer>, event: &Event) -> (step: Step)
        ensures
            (records(final(collected)@), step) == after_event(
                self@,
                records(old(collected)@),
                *event,
            ),
    {
        match event {
            Event::Timeout => Step::Finish,
            Event::Datagram(datagram) => {
                match self.parse_answers(datagram.as_slice()) {
                    Ok(mut found) => {
                        assert(records(collected@ + found@) =~= records(collected@) + records(
                            found@,
                        ));
                        collected.append(&mut found);
                    },
                    Err(_) => {},
                }
                Step::Listen
            },
        }
    }
}

/// The name of a query is read back from it: behind the header of a query
/// for a valid name stand labels that join to that name, whatever follows.
pub proof fn lemma_query_name_round_trip(id: u16, name: Seq<u8>)
    requires
        valid_name(name),
    ensures
        labels_at(query_bytes(id, name).skip(HEADER_LEN as int)) matches Some((labels, taken))
            && join_dots(labels) == name && taken == wire_name(name).len(),
{
    let tail = u16_bytes(TYPE_PTR) + u16_bytes(CLASS_IN);
    lemma_name_round_trip(name, tail);
    assert(query_bytes(id, name).skip(HEADER_LEN as int) =~= wire_name(name) + tail);
}

/// The data of an answer is as long as the record declares, and the next
/// record starts right behind it.
pub proof fn lemma_answer_data_length(data: Seq<u8>, at: int, record: Record, next: int)
    requires
        0 <= at,
        answer_at(data, at) == Ok::<(Record, int), DnsError>((record, next)),
    ensures
        record.rdata().len() == u16_at(data, at + 10),
        next == at + RECORD_HEAD + record.rdata().len(),
        next <= data.len(),
{
}

/// A record on the wire is read back with its type and its data, whatever
/// stands before and behind it, and whatever its pointer, class and time to
/// live are.
pub proof fn lemma_answer_round_trip(head: Seq<u8>, answer: AnswerFields, tail: Seq<u8>)
    requires
        answer.rdata.len() <= u16::MAX,
    ensures
        answer_at(head + wire_answer(answer) + tail, head.len() as int) == Ok::<
            (Record, int),
            DnsError,
        >((Record::of(answer.rtype, answer.rdata), (head.len() + wire_answer(answer).len()) as int)),
        wire_answer(answer).len() == RECORD_HEAD + answer.rdata.len(),
{
    let wire = wire_answer(answer);
    let data = head + wire + tail;
    let at = head.len() as int;
    assert(wire.len() == RECORD_HEAD + answer.rdata.len());
    assert forall|i: int| 0 <= i < wire.len() implies data[at + i] == wire[i] by {}
    assert(data[at] == wire[0]);
    assert(data[at + 2] == wire[2] && data[at + 3] == wire[3]);
    assert(data[at + 10] == wire[10] && data[at + 11] == wire[11]);
    assert(u16_at(data, at + 2) == answer.rtype);
    assert(u16_at(data, at + 10) == answer.rdata.len());
    assert(data.subrange(at + RECORD_HEAD, at + RECORD_HEAD + answer.rdata.len())
        =~= answer.rdata);
}

/// Records on the wire are read back in their order, whatever stands before
/// and behind them.
pub proof fn lemma_answers_round_trip(head: Seq<u8>, answers: Seq<AnswerFields>, tail: Seq<u8>)
    requires
        data_fits(answers),
    ensures
        answers_at(head + wire_answers(answers) + tail, head.len() as int, answers.len()) == Ok::<
            Seq<Record>,
            DnsError,
        >(records_of(answers)),
    decreases answers.len(),
{
    if answers.len() == 0 {
        assert(records_of(answers) =~= Seq::<Record>::empty());
    } else {
        let first = answers[0];
        let later = answers.drop_first();
        let data = head + wire_answers(answers) + tail;
        assert(data_fits(later)) by {
            assert forall|i: int| 0 <= i < later.len() implies (#[trigger] later[i]).rdata.len()
                <= u16::MAX by {
                assert(later[i] == answers[i + 1]);
            }
        }
        lemma_answer_round_trip(head, first, wire_answers(later) + tail);
        assert(data =~= head + wire_answer(first) + (wire_answers(later) + tail));
        lemma_answers_round_trip(head + wire_answer(first), later, tail);
        assert(data =~= head + wire_answer(first) + wire_answers(later) + tail);
        assert(records_of(answers) =~= seq![Record::of(first.rtype, first.rdata)] + records_of(
            later,
        ));
    }
}

/// A response on the wire is read back as the records of its answers: where
/// the name of the question is valid and the response is read under its own
/// id, neither its flags and counts nor what follows the answers matter.
pub proof fn lemma_response_round_trip(response: ResponseFields, tail: Seq<u8>)
    requires
        valid_name(response.qname),
        response.answers.len() <= u16::MAX,
        data_fits(response.answers),
    ensures
        message_answers(wire_response(response) + tail, response.id) == Ok::<
            Seq<Record>,
            DnsError,
        >(records_of(response.answers)),
{
    let data = wire_response(response) + tail;
    let header = u16_bytes(response.id) + u16_bytes(response.flags) + u16_bytes(response.qdcount)
        + u16_bytes(response.answers.len() as u16) + u16_bytes(response.nscount) + u16_bytes(
        response.arcount,
    );
    let question = u16_bytes(response.qtype) + u16_bytes(response.qclass);
    let records = wire_answers(response.answers);
    let name = wire_name(response.qname);
    assert(data =~= header + name + question + records + tail);
    assert(header.len() == HEADER_LEN);
    assert(data[0] == header[0] && data[1] == header[1]);
    assert(data[6] == header[6] && data[7] == header[7]);
    assert(u16_at(data, 0) == response.id);
    assert(u16_at(data, 6) == response.answers.len());
    lemma_name_round_trip(response.qname, question + records + tail);
    assert(data.skip(HEADER_LEN as int) =~= name + (question + records + tail));
    lemma_answers_round_trip(header + name + question, response.answers, tail);
}

/// On a silent network the receive loop ends with the first timeout, and
/// with no record.
pub proof fn lemma_silence_ends_empty(id: u16)
    ensures
        after_event(id, Seq::empty(), Event::Timeout) == (Seq::<Record>::empty(), Step::Finish),
{
}

/// A response to another query leaves no trace: whatever it carries, the
/// collected records stay as they were and the loop goes on.
pub proof fn lemma_foreign_response_dropped(id: u16, collected: Seq<Record>, datagram: Vec<u8>)
    requires
        datagram@.len() >= 2,
        u16_at(datagram@, 0) != id,
    ensures
        message_answers(datagram@, id) == Err::<Seq<Record>, DnsError>(DnsError::IdMismatch),
        after_event(id, collected, Event::Datagram(datagram)) == (collected, Step::Listen),
{
}

} // verus!
