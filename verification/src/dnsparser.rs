//! From the answers of a resolution to the share they describe.

use crate::dnsresolv::{records, DnsAnswer, Record};
use crate::error::{DnsError, Malformation};
use crate::wire::{u16_at, ByteCursor};
use vstd::prelude::*;
use vstd::slice::slice_subrange;

verus! {

broadcast use vstd::slice::group_slice_axioms;

/// `String::push` of std: the character is appended to the string.
pub assume_specification[ String::push ](text: &mut String, ch: char)
    ensures
        final(text)@ == old(text)@.push(ch),
;

/// The text of raw bytes, one character for each byte.
pub open spec fn latin1(bytes: Seq<u8>) -> Seq<char> {
    bytes.map_values(|b: u8| b as char)
}

/// The character of a decimal digit.
pub open spec fn digit(d: int) -> char {
    ('0' as int + d) as char
}

/// A number in decimal, without leading zeros.
pub open spec fn decimal(n: nat) -> Seq<char>
    decreases n,
{
    if n < 10 {
        seq![digit(n as int)]
    } else {
        decimal(n / 10).push(digit(n as int % 10))
    }
}

/// Four address bytes in dotted decimal.
pub open spec fn dotted_quad(address: Seq<u8>) -> Seq<char> {
    decimal(address[0] as nat) + seq!['.'] + decimal(address[1] as nat) + seq!['.'] + decimal(
        address[2] as nat,
    ) + seq!['.'] + decimal(address[3] as nat)
}

/// The text of `bytes`, one character for each byte.
pub fn text_of(bytes: &[u8]) -> (text: String)
    ensures
        text@ == latin1(bytes@),
{
    let mut text = String::new();
    let mut i: usize = 0;
    while i < bytes.len()
        invariant
            i <= bytes@.len(),
            text@ == latin1(bytes@.take(i as int)),
        decreases bytes@.len() - i,
    {
        text.push(bytes[i] as char);
        assert(latin1(bytes@.take(i + 1)) =~= latin1(bytes@.take(i as int)).push(
            bytes@[i as int] as char,
        ));
        i += 1;
    }
    assert(bytes@.take(i as int) =~= bytes@);
    text
}

/// The character of the digit `d`.
fn digit_char(d: u8) -> (ch: char)
    requires
        d < 10,
    ensures
        ch == digit(d as int),
{
    (0x30u8 + d) as char
}

/// Appends `value` in decimal.
fn push_decimal(text: &mut String, value: u8)
    ensures
        final(text)@ == old(text)@ + decimal(value as nat),
{
    if value >= 100 {
        text.push(digit_char(value / 100));
    }
    if value >= 10 {
        text.push(digit_char(value / 10 % 10));
    }
    text.push(digit_char(value % 10));
    proof {
        reveal_with_fuel(decimal, 3);
        assert(text@ =~= old(text)@ + decimal(value as nat));
    }
}

/// The host of an address record: its four bytes in dotted decimal.
pub fn parse_a(data: &[u8]) -> (r: Result<String, DnsError>)
    ensures
        match r {
            Ok(host) => data@.len() == 4 && host@ == dotted_quad(data@),
            Err(e) => data@.len() != 4 && e == DnsError::Malformed(Malformation::AddressLength),
        },
{
    if data.len() != 4 {
        return Err(DnsError::Malformed(Malformation::AddressLength));
    }
    let mut host = String::new();
    push_decimal(&mut host, data[0]);
    host.push('.');
    push_decimal(&mut host, data[1]);
    host.push('.');
    push_decimal(&mut host, data[2]);
    host.push('.');
    push_decimal(&mut host, data[3]);
    assert(host@ =~= dotted_quad(data@));
    Ok(host)
}

/// The port that a service record names: the big-endian number behind the
/// priority and the weight. What follows it is not looked at.
pub fn parse_srv(data: &[u8]) -> (r: Result<u16, DnsError>)
    ensures
        match r {
            Ok(port) => data@.len() >= 6 && port == u16_at(data@, 4),
            Err(e) => data@.len() < 6 && e == DnsError::Malformed(Malformation::Truncated),
        },
{
    let mut cursor = ByteCursor::new(data);
    cursor.read_u32()?;
    cursor.read_u16()
}

/// The start of a label that marks a share of this application: `miaow`.
pub const MARKER: [u8; 5] = [0x6d, 0x69, 0x61, 0x6f, 0x77];

/// The start of the text string that names the file: `file=`.
pub const FILE_KEY: [u8; 5] = [0x66, 0x69, 0x6c, 0x65, 0x3d];

/// The start of the text string that names the user: `user=`.
pub const USER_KEY: [u8; 5] = [0x75, 0x73, 0x65, 0x72, 0x3d];

/// Whether `text` starts with `prefix`.
pub open spec fn has_prefix(text: Seq<u8>, prefix: Seq<u8>) -> bool {
    prefix.len() <= text.len() && text.take(prefix.len() as int) == prefix
}

/// The length-prefixed strings at the head of `data`, up to the first one
/// that is cut short.
pub open spec fn strings(data: Seq<u8>) -> Seq<Seq<u8>>
    decreases data.len(),
{
    if data.len() == 0 || data.len() < 1 + data[0] {
        Seq::empty()
    } else {
        seq![data.subrange(1, 1 + data[0])] + strings(data.skip(1 + data[0]))
    }
}

/// Whether `data` is made of whole length-prefixed strings.
pub open spec fn framed(data: Seq<u8>) -> bool
    decreases data.len(),
{
    if data.len() == 0 {
        true
    } else if data.len() < 1 + data[0] {
        false
    } else {
        framed(data.skip(1 + data[0]))
    }
}

/// Strings on the wire: each behind its length in one byte.
pub open spec fn wire_strings(texts: Seq<Seq<u8>>) -> Seq<u8>
    decreases texts.len(),
{
    if texts.len() == 0 {
        Seq::empty()
    } else {
        seq![texts[0].len() as u8] + texts[0] + wire_strings(texts.drop_first())
    }
}

/// Strings of up to 255 bytes each are read back from the wire as they were
/// written, and what they were written to is made of whole strings.
pub proof fn lemma_strings_round_trip(texts: Seq<Seq<u8>>)
    requires
        forall|i: int| 0 <= i < texts.len() ==> (#[trigger] texts[i]).len() <= 255,
    ensures
        framed(wire_strings(texts)),
        strings(wire_strings(texts)) == texts,
    decreases texts.len(),
{
    if texts.len() > 0 {
        let data = wire_strings(texts);
        let later = texts.drop_first();
        assert forall|i: int| 0 <= i < later.len() implies (#[trigger] later[i]).len() <= 255 by {
            assert(later[i] == texts[i + 1]);
        }
        lemma_strings_round_trip(later);
        assert(data[0] == texts[0].len());
        assert(data.subrange(1, 1 + data[0]) =~= texts[0]);
        assert(data.skip(1 + data[0]) =~= wire_strings(later));
        assert(seq![texts[0]] + later =~= texts);
    } else {
        assert(strings(wire_strings(texts)) =~= texts);
    }
}

/// Whether one of `texts` starts with `prefix`.
pub open spec fn any_has_prefix(texts: Seq<Seq<u8>>, prefix: Seq<u8>) -> bool {
    exists|i: int| 0 <= i < texts.len() && has_prefix(#[trigger] texts[i], prefix)
}

/// What follows `key` in the last of `texts` that starts with it; empty
/// where none does.
pub open spec fn last_value(texts: Seq<Seq<u8>>, key: Seq<u8>) -> Seq<u8>
    decreases texts.len(),
{
    if texts.len() == 0 {
        Seq::empty()
    } else if has_prefix(texts.last(), key) {
        texts.last().skip(key.len() as int)
    } else {
        last_value(texts.drop_last(), key)
    }
}

/// Whether `data[from..to]` starts with `prefix`.
fn starts_with(data: &[u8], from: usize, to: usize, prefix: &[u8]) -> (found: bool)
    requires
        from <= to <= data@.len(),
    ensures
        found == has_prefix(data@.subrange(from as int, to as int), prefix@),
{
    let ghost text = data@.subrange(from as int, to as int);
    if to - from < prefix.len() {
        return false;
    }
    let mut i: usize = 0;
    while i < prefix.len()
        invariant
            from <= to <= data@.len(),
            prefix@.len() <= to - from,
            i <= prefix@.len(),
            text == data@.subrange(from as int, to as int),
            text.take(i as int) == prefix@.take(i as int),
        decreases prefix@.len() - i,
    {
        if data[from + i] != prefix[i] {
            assert(text.take(prefix@.len() as int)[i as int] != prefix@[i as int]);
            return false;
        }
        assert(text.take(i + 1) =~= text.take(i as int).push(text[i as int]));
        assert(prefix@.take(i + 1) =~= prefix@.take(i as int).push(prefix@[i as int]));
        i += 1;
    }
    assert(prefix@.take(i as int) =~= prefix@);
    true
}

/// Whether one of the labels of a pointer record starts with `miaow`. A label
/// that is cut short does not count, and nothing behind it is looked at.
pub fn is_miaow(data: &[u8]) -> (found: bool)
    ensures
        found == any_has_prefix(strings(data@), MARKER@),
{
    let total = data.len();
    let mut at: usize = 0;
    let ghost mut seen: Seq<Seq<u8>> = Seq::empty();
    assert(data@.skip(0) =~= data@);
    assert(seen + strings(data@) =~= strings(data@));
    while at < total
        invariant
            total == data@.len(),
            at <= total,
            strings(data@) == seen + strings(data@.skip(at as int)),
            !any_has_prefix(seen, MARKER@),
        decreases total - at,
    {
        let ghost unread = data@.skip(at as int);
        let size = data[at] as usize;
        assert(unread[0] == data@[at as int]);
        if total - at - 1 < size {
            assert(seen + Seq::<Seq<u8>>::empty() =~= seen);
            return false;
        }
        let ghost label = data@.subrange(at + 1, at + 1 + size);
        proof {
            assert(unread.subrange(1, 1 + size) =~= label);
            assert(unread.skip(1 + size) =~= data@.skip(at + 1 + size));
            assert(seen + (seq![label] + strings(data@.skip(at + 1 + size))) =~= seen.push(label)
                + strings(data@.skip(at + 1 + size)));
        }
        if starts_with(data, at + 1, at + 1 + size, MARKER.as_slice()) {
            assert(strings(data@)[seen.len() as int] == label);
            return true;
        }
        proof {
            let grown = seen.push(label);
            assert forall|i: int| 0 <= i < grown.len() implies !has_prefix(
                #[trigger] grown[i],
                MARKER@,
            ) by {
                if i < seen.len() {
                    assert(grown[i] == seen[i]);
                }
            }
            seen = grown;
        }
        at = at + 1 + size;
    }
    assert(seen + Seq::<Seq<u8>>::empty() =~= seen);
    false
}

/// The file and the user that a text record names: what follows `file=` and
/// `user=` in the last string that starts with each. Fails where a string is
/// cut short.
pub fn parse_txt(data: &[u8]) -> (r: Result<(String, String), DnsError>)
    ensures
        match r {
            Ok((file, user)) => {
                &&& framed(data@)
                &&& file@ == latin1(last_value(strings(data@), FILE_KEY@))
                &&& user@ == latin1(last_value(strings(data@), USER_KEY@))
            },
            Err(e) => !framed(data@) && e == DnsError::Malformed(Malformation::Truncated),
        },
{
    let total = data.len();
    let mut file = String::new();
    let mut user = String::new();
    let mut at: usize = 0;
    let ghost mut seen: Seq<Seq<u8>> = Seq::empty();
    assert(data@.skip(0) =~= data@);
    assert(seen + strings(data@) =~= strings(data@));
    assert(latin1(Seq::<u8>::empty()) =~= Seq::<char>::empty());
    while at < total
        invariant
            total == data@.len(),
            at <= total,
            strings(data@) == seen + strings(data@.skip(at as int)),
            framed(data@) == framed(data@.skip(at as int)),
            file@ == latin1(last_value(seen, FILE_KEY@)),
            user@ == latin1(last_value(seen, USER_KEY@)),
        decreases total - at,
    {
        let ghost unread = data@.skip(at as int);
        let size = data[at] as usize;
        assert(unread[0] == data@[at as int]);
        if total - at - 1 < size {
            return Err(DnsError::Malformed(Malformation::Truncated));
        }
        let end = at + 1 + size;
        let ghost text = data@.subrange(at + 1, end as int);
        proof {
            assert(unread.subrange(1, 1 + size) =~= text);
            assert(unread.skip(1 + size) =~= data@.skip(end as int));
            assert(seen + (seq![text] + strings(data@.skip(end as int))) =~= seen.push(text)
                + strings(data@.skip(end as int)));
            assert(seen.push(text).drop_last() =~= seen);
        }
        if starts_with(data, at + 1, end, FILE_KEY.as_slice()) {
            file = text_of(slice_subrange(data, at + 1 + FILE_KEY.len(), end));
            assert(text.skip(FILE_KEY@.len() as int) =~= data@.subrange(
                at + 1 + FILE_KEY@.len(),
                end as int,
            ));
            assert(!has_prefix(text, USER_KEY@)) by {
                assert(text.take(5)[0] == text[0]);
            }
        } else if starts_with(data, at + 1, end, USER_KEY.as_slice()) {
            user = text_of(slice_subrange(data, at + 1 + USER_KEY.len(), end));
            assert(text.skip(USER_KEY@.len() as int) =~= data@.subrange(
                at + 1 + USER_KEY@.len(),
                end as int,
            ));
        }
        proof {
            seen = seen.push(text);
        }
        at = end;
    }
    assert(seen + Seq::<Seq<u8>>::empty() =~= seen);
    Ok((file, user))
}

/// Where and how to fetch a shared file.
#[derive(Debug)]
pub struct Resource {
    host: String,
    port: u16,
    user: String,
    file: String,
}

/// A resource as contracts see it.
pub struct Share {
    pub host: Seq<char>,
    pub port: u16,
    pub user: Seq<char>,
    pub file: Seq<char>,
}

impl Share {
    /// The share of which nothing is known yet.
    pub open spec fn blank() -> Share {
        Share { host: Seq::empty(), port: 0, user: Seq::empty(), file: Seq::empty() }
    }
}

impl View for Resource {
    type V = Share;

    closed spec fn view(&self) -> Share {
        Share { host: self.host@, port: self.port, user: self.user@, file: self.file@ }
    }
}

/// Whether a record's data has the layout of its kind: four bytes for an
/// address, six at least for a service, whole strings for a text.
pub open spec fn well_formed(record: Record) -> bool {
    match record {
        Record::A(data) => data.len() == 4,
        Record::SRV(data) => data.len() >= 6,
        Record::TXT(data) => framed(data),
        Record::PTR(_) => true,
        Record::UNKNOWN(_) => true,
    }
}

/// Whether a record is a pointer of which no label starts with `miaow`.
pub open spec fn unmarked_pointer(record: Record) -> bool {
    record matches Record::PTR(data) && !any_has_prefix(strings(data), MARKER@)
}

/// What one record adds to a share: an address sets the host, a service the
/// port, a text the file and the user; a pointer must carry the marker; any
/// other record is passed over.
pub open spec fn merge(share: Share, record: Record) -> Result<Share, DnsError> {
    if !well_formed(record) {
        Err(
            DnsError::Malformed(
                if record is A {
                    Malformation::AddressLength
                } else {
                    Malformation::Truncated
                },
            ),
        )
    } else if unmarked_pointer(record) {
        Err(DnsError::Unverified)
    } else {
        Ok(
            match record {
                Record::A(data) => Share { host: dotted_quad(data), ..share },
                Record::SRV(data) => Share { port: u16_at(data, 4), ..share },
                Record::TXT(data) => Share {
                    file: latin1(last_value(strings(data), FILE_KEY@)),
                    user: latin1(last_value(strings(data), USER_KEY@)),
                    ..share
                },
                Record::PTR(_) => share,
                Record::UNKNOWN(_) => share,
            },
        )
    }
}

/// The share after `records` were merged into `share` one after the other;
/// the first record that cannot be merged decides the failure.
pub open spec fn gather(share: Share, records: Seq<Record>) -> Result<Share, DnsError>
    decreases records.len(),
{
    if records.len() == 0 {
        Ok(share)
    } else {
        match merge(share, records[0]) {
            Err(e) => Err(e),
            Ok(next) => gather(next, records.drop_first()),
        }
    }
}

/// The share that a list of records describes.
pub open spec fn assemble(records: Seq<Record>) -> Result<Share, DnsError> {
    gather(Share::blank(), records)
}

impl Resource {
    /// Reduces the answers of a resolution to the share they describe. The
    /// answers are taken in order, so the last address, service and text
    /// decide; fields that no record sets stay empty or zero.
    pub fn parse_dns(dns_answers: Vec<DnsAnswer>) -> (r: Result<Resource, DnsError>)
        ensures
            match r {
                Ok(resource) => assemble(records(dns_answers@)) == Ok::<Share, DnsError>(
                    resource@,
                ),
                Err(e) => assemble(records(dns_answers@)) == Err::<Share, DnsError>(e),
            },
    {
        let mut host = String::new();
        let mut user = String::new();
        let mut file = String::new();
        let mut port: u16 = 0;
        let ghost all = records(dns_answers@);
        assert(all.skip(0) =~= all);
        let mut i: usize = 0;
        while i < dns_answers.len()
            invariant
                i <= dns_answers@.len(),
                all == records(dns_answers@),
                assemble(all) == gather(
                    Share { host: host@, port, user: user@, file: file@ },
                    all.skip(i as int),
                ),
            decreases dns_answers@.len() - i,
        {
            proof {
                assert(all.skip(i as int)[0] == dns_answers@[i as int]@);
                assert(all.skip(i as int).drop_first() =~= all.skip(i + 1));
            }
            match &dns_answers[i] {
                DnsAnswer::TXT(data) => {
                    let (f, u) = parse_txt(data.as_slice())?;
                    file = f;
                    user = u;
                },
                DnsAnswer::A(data) => {
                    host = parse_a(data.as_slice())?;
                },
                DnsAnswer::SRV(data) => {
                    port = parse_srv(data.as_slice())?;
                },
                DnsAnswer::PTR(data) => {
                    if !is_miaow(data.as_slice()) {
                        return Err(DnsError::Unverified);
                    }
                },
                DnsAnswer::UNKNOWN(_) => {},
            }
            i += 1;
        }
        Ok(Resource { host, port, user, file })
    }

    /// The user who shares the file.
    pub fn user(&self) -> (user: &String)
        ensures
            user@ == self@.user,
    {
        &self.user
    }

    /// The address of the host, in dotted decimal.
    pub fn host(&self) -> (host: &String)
        ensures
            host@ == self@.host,
    {
        &self.host
    }

    /// The port on which the host serves the file.
    pub fn port(&self) -> (port: u16)
        ensures
            port == self@.port,
    {
        self.port
    }

    /// The path of the file on the host.
    pub fn file(&self) -> (file: &String)
        ensures
            file@ == self@.file,
    {
        &self.file
    }
}

/// One pointer without the marker spoils the resolution: where every record
/// has the layout of its kind, the answers are refused as unverified,
/// whatever the addresses, services and texts among them say.
pub proof fn lemma_unmarked_pointer_is_refused(records: Seq<Record>, at: int)
    requires
        0 <= at < records.len(),
        unmarked_pointer(records[at]),
        forall|i: int| 0 <= i < records.len() ==> well_formed(#[trigger] records[i]),
    ensures
        assemble(records) == Err::<Share, DnsError>(DnsError::Unverified),
{
    lemma_gather_refuses(Share::blank(), records, at);
}

/// The same, from any share on.
proof fn lemma_gather_refuses(share: Share, records: Seq<Record>, at: int)
    requires
        0 <= at < records.len(),
        unmarked_pointer(records[at]),
        forall|i: int| 0 <= i < records.len() ==> well_formed(#[trigger] records[i]),
    ensures
        gather(share, records) == Err::<Share, DnsError>(DnsError::Unverified),
    decreases records.len(),
{
    assert(well_formed(records[0]));
    if let Ok(next) = merge(share, records[0]) {
        let later = records.drop_first();
        assert forall|i: int| 0 <= i < later.len() implies well_formed(#[trigger] later[i]) by {
            assert(later[i] == records[i + 1]);
        }
        assert(later[at - 1] == records[at]);
        lemma_gather_refuses(next, later, at - 1);
    }
}

/// Whether two records are of one kind.
pub open spec fn same_kind(one: Record, other: Record) -> bool {
    match one {
        Record::A(_) => other is A,
        Record::SRV(_) => other is SRV,
        Record::TXT(_) => other is TXT,
        Record::PTR(_) => other is PTR,
        Record::UNKNOWN(_) => other is UNKNOWN,
    }
}

/// Whether `share` has what `record` says: the host of an address, the port
/// of a service, the file and the user of a text.
pub open spec fn agrees(share: Share, record: Record) -> bool {
    match record {
        Record::A(data) => share.host == dotted_quad(data),
        Record::SRV(data) => share.port == u16_at(data, 4),
        Record::TXT(data) => {
            &&& share.file == latin1(last_value(strings(data), FILE_KEY@))
            &&& share.user == latin1(last_value(strings(data), USER_KEY@))
        },
        Record::PTR(_) => true,
        Record::UNKNOWN(_) => true,
    }
}

/// Whether `share` and `other` are alike in what no record of `records`
/// sets.
pub open spec fn alike_where_unset(share: Share, other: Share, records: Seq<Record>) -> bool {
    &&& (forall|i: int| 0 <= i < records.len() ==> !(#[trigger] records[i] is A)) ==> share.host
        == other.host
    &&& (forall|i: int| 0 <= i < records.len() ==> !(#[trigger] records[i] is SRV)) ==> share.port
        == other.port
    &&& (forall|i: int| 0 <= i < records.len() ==> !(#[trigger] records[i] is TXT)) ==> share.file
        == other.file && share.user == other.user
}

/// The last record of a kind decides: where the answers are accepted, the
/// share has what the record at `at` says, if no record of its kind follows.
pub proof fn lemma_last_of_a_kind_decides(records: Seq<Record>, at: int, share: Share)
    requires
        assemble(records) == Ok::<Share, DnsError>(share),
        0 <= at < records.len(),
        forall|i: int| at < i < records.len() ==> !same_kind(#[trigger] records[i], records[at]),
    ensures
        agrees(share, records[at]),
{
    lemma_gather_last(Share::blank(), records, at, share);
}

/// Fields that no record sets stay empty or zero: without an address the
/// host is empty, without a service the port is zero, without a text the
/// file and the user are empty.
pub proof fn lemma_unset_fields_stay_blank(records: Seq<Record>, share: Share)
    requires
        assemble(records) == Ok::<Share, DnsError>(share),
    ensures
        alike_where_unset(share, Share::blank(), records),
{
    lemma_gather_keeps(Share::blank(), records, share);
}

/// Merging records leaves alone what none of them sets.
proof fn lemma_gather_keeps(share: Share, records: Seq<Record>, out: Share)
    requires
        gather(share, records) == Ok::<Share, DnsError>(out),
    ensures
        alike_where_unset(out, share, records),
    decreases records.len(),
{
    if records.len() > 0 {
        let later = records.drop_first();
        let next = merge(share, records[0])->Ok_0;
        lemma_gather_keeps(next, later, out);
        assert forall|i: int| 0 <= i < later.len() implies later[i] == records[i + 1] by {}
        if forall|i: int| 0 <= i < records.len() ==> !(#[trigger] records[i] is A) {
            assert(!(records[0] is A));
            assert forall|i: int| 0 <= i < later.len() implies !(#[trigger] later[i] is A) by {
                assert(later[i] == records[i + 1]);
            }
        }
        if forall|i: int| 0 <= i < records.len() ==> !(#[trigger] records[i] is SRV) {
            assert(!(records[0] is SRV));
            assert forall|i: int| 0 <= i < later.len() implies !(#[trigger] later[i] is SRV) by {
                assert(later[i] == records[i + 1]);
            }
        }
        if forall|i: int| 0 <= i < records.len() ==> !(#[trigger] records[i] is TXT) {
            assert(!(records[0] is TXT));
            assert forall|i: int| 0 <= i < later.len() implies !(#[trigger] later[i] is TXT) by {
                assert(later[i] == records[i + 1]);
            }
        }
    }
}

/// After merging, the share has what the last record of each kind says.
proof fn lemma_gather_last(share: Share, records: Seq<Record>, at: int, out: Share)
    requires
        gather(share, records) == Ok::<Share, DnsError>(out),
        0 <= at < records.len(),
        forall|i: int| at < i < records.len() ==> !same_kind(#[trigger] records[i], records[at]),
    ensures
        agrees(out, records[at]),
    decreases records.len(),
{
    let later = records.drop_first();
    let next = merge(share, records[0])->Ok_0;
    assert forall|i: int| 0 <= i < later.len() implies later[i] == records[i + 1] by {}
    if at == 0 {
        lemma_gather_keeps(next, later, out);
        assert forall|i: int| 0 <= i < later.len() implies !same_kind(
            #[trigger] later[i],
            records[0],
        ) by {
            assert(later[i] == records[i + 1]);
        }
    } else {
        assert forall|i: int| at - 1 < i < later.len() implies !same_kind(
            #[trigger] later[i],
            later[at - 1],
        ) by {
            assert(later[i] == records[i + 1]);
        }
        lemma_gather_last(next, later, at - 1, out);
    }
}

} // verus!
