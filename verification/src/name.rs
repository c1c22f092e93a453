//! Domain names: dotted text, and its wire form of length-prefixed labels
//! closed by a zero byte.

use crate::wire::{push_bytes, push_u8};
use vstd::prelude::*;
use vstd::slice::slice_subrange;

verus! {

broadcast use vstd::slice::group_slice_axioms;

/// The byte that separates the labels of a dotted name.
pub const DOT: u8 = 0x2e;

/// Where the first dot of `name` stands, or its length where it has none.
pub open spec fn first_dot(name: Seq<u8>) -> nat
    decreases name.len(),
{
    if name.len() == 0 || name[0] == DOT {
        0
    } else {
        1 + first_dot(name.skip(1))
    }
}

/// The labels of a dotted name: the runs between its dots, empty ones kept.
pub open spec fn split_dots(name: Seq<u8>) -> Seq<Seq<u8>>
    decreases name.len(),
{
    let cut = first_dot(name);
    if cut >= name.len() {
        seq![name]
    } else {
        seq![name.take(cut as int)] + split_dots(name.skip(cut as int + 1))
    }
}

/// The dotted name of a list of labels.
pub open spec fn join_dots(labels: Seq<Seq<u8>>) -> Seq<u8>
    decreases labels.len(),
{
    if labels.len() == 0 {
        Seq::empty()
    } else if labels.len() == 1 {
        labels[0]
    } else {
        join_dots(labels.drop_last()) + seq![DOT] + labels.last()
    }
}

/// One label on the wire: its length in one byte, then its bytes.
pub open spec fn wire_label(label: Seq<u8>) -> Seq<u8> {
    seq![(label.len() % 256) as u8] + label
}

/// A list of labels on the wire, closed by the zero byte.
pub open spec fn wire_labels(labels: Seq<Seq<u8>>) -> Seq<u8>
    decreases labels.len(),
{
    if labels.len() == 0 {
        seq![0u8]
    } else {
        wire_label(labels[0]) + wire_labels(labels.drop_first())
    }
}

/// A dotted name on the wire.
pub open spec fn wire_name(name: Seq<u8>) -> Seq<u8> {
    wire_labels(split_dots(name))
}

/// Labels that the wire form can carry: none empty, none over 255 bytes.
pub open spec fn plain_labels(labels: Seq<Seq<u8>>) -> bool {
    forall|i: int| 0 <= i < labels.len() ==> 1 <= (#[trigger] labels[i]).len() <= 255
}

/// A dotted name whose labels the wire form can carry.
pub open spec fn valid_name(name: Seq<u8>) -> bool {
    plain_labels(split_dots(name))
}

/// The labels at the head of `data`, and how many bytes they take with their
/// terminator; `None` where `data` ends before the terminator.
pub open spec fn labels_at(data: Seq<u8>) -> Option<(Seq<Seq<u8>>, nat)>
    decreases data.len(),
{
    if data.len() == 0 {
        None
    } else if data[0] == 0 {
        Some((Seq::empty(), 1))
    } else if data.len() < 1 + data[0] {
        None
    } else {
        follow(
            seq![data.subrange(1, 1 + data[0])],
            (1 + data[0]) as nat,
            labels_at(data.skip(1 + data[0])),
        )
    }
}

/// `found` put before the labels of `later`, when `taken` bytes were read
/// for it.
pub open spec fn follow(
    found: Seq<Seq<u8>>,
    taken: nat,
    later: Option<(Seq<Seq<u8>>, nat)>,
) -> Option<(Seq<Seq<u8>>, nat)> {
    match later {
        None => None,
        Some((more, count)) => Some((found + more, taken + count)),
    }
}

/// The first dot is where a scan for it stops.
pub proof fn lemma_first_dot_found(name: Seq<u8>, cut: nat)
    requires
        cut <= name.len(),
        forall|k: int| 0 <= k < cut ==> name[k] != DOT,
        cut == name.len() || name[cut as int] == DOT,
    ensures
        first_dot(name) == cut,
    decreases cut,
{
    if cut > 0 {
        lemma_first_dot_found(name.skip(1), (cut - 1) as nat);
    }
}

/// No dot stands before the first one, which lies within the name.
pub proof fn lemma_first_dot_bounds(name: Seq<u8>)
    ensures
        first_dot(name) <= name.len(),
        forall|k: int| 0 <= k < first_dot(name) ==> name[k] != DOT,
        first_dot(name) < name.len() ==> name[first_dot(name) as int] == DOT,
    decreases name.len(),
{
    if name.len() == 0 || name[0] == DOT {
    } else {
        lemma_first_dot_bounds(name.skip(1));
        assert forall|k: int| 0 <= k < first_dot(name) implies name[k] != DOT by {
            if k > 0 {
                assert(name.skip(1)[k - 1] == name[k]);
            }
        }
    }
}

/// Joining with a label put in front.
pub proof fn lemma_join_front(head: Seq<u8>, later: Seq<Seq<u8>>)
    requires
        later.len() > 0,
    ensures
        join_dots(seq![head] + later) == head + seq![DOT] + join_dots(later),
    decreases later.len(),
{
    let all = seq![head] + later;
    assert(all.last() == later.last());
    if later.len() == 1 {
        assert(all.drop_last() =~= seq![head]);
        assert(join_dots(all.drop_last()) == head);
    } else {
        assert(all.drop_last() =~= seq![head] + later.drop_last());
        lemma_join_front(head, later.drop_last());
        assert(join_dots(all) =~= head + seq![DOT] + join_dots(later));
    }
}

/// Splitting a name at its dots and joining the labels gives the name back.
pub proof fn lemma_join_split(name: Seq<u8>)
    ensures
        split_dots(name).len() >= 1,
        join_dots(split_dots(name)) == name,
    decreases name.len(),
{
    let cut = first_dot(name);
    lemma_first_dot_bounds(name);
    if cut >= name.len() {
    } else {
        let later = name.skip(cut as int + 1);
        lemma_join_split(later);
        lemma_join_front(name.take(cut as int), split_dots(later));
        assert(name =~= name.take(cut as int) + seq![DOT] + later);
    }
}

/// Labels written to the wire are read back as they were, whatever follows
/// them, and the reading stops behind their terminator.
pub proof fn lemma_labels_round_trip(labels: Seq<Seq<u8>>, tail: Seq<u8>)
    requires
        plain_labels(labels),
    ensures
        labels_at(wire_labels(labels) + tail) == Some((labels, wire_labels(labels).len())),
    decreases labels.len(),
{
    let data = wire_labels(labels) + tail;
    if labels.len() == 0 {
        assert(data[0] == 0);
    } else {
        let head = labels[0];
        let later = labels.drop_first();
        assert(plain_labels(later)) by {
            assert forall|i: int| 0 <= i < later.len() implies 1 <= (#[trigger] later[i]).len()
                <= 255 by {
                assert(later[i] == labels[i + 1]);
            }
        }
        lemma_labels_round_trip(later, tail);
        assert(data[0] == head.len());
        assert(data.subrange(1, 1 + data[0]) =~= head);
        assert(data.skip(1 + data[0]) =~= wire_labels(later) + tail);
        assert(seq![head] + later =~= labels);
    }
}

/// A valid dotted name, written to the wire and read back, is the name again.
pub proof fn lemma_name_round_trip(name: Seq<u8>, tail: Seq<u8>)
    requires
        valid_name(name),
    ensures
        labels_at(wire_name(name) + tail) matches Some((labels, taken)) && join_dots(labels) == name
            && taken == wire_name(name).len(),
{
    lemma_labels_round_trip(split_dots(name), tail);
    lemma_join_split(name);
}

/// Labels that were read are plain, and the bytes taken for them lie within
/// the buffer and end with the zero byte.
pub proof fn lemma_labels_at_bounds(data: Seq<u8>, labels: Seq<Seq<u8>>, taken: nat)
    requires
        labels_at(data) == Some((labels, taken)),
    ensures
        1 <= taken <= data.len(),
        data[taken - 1] == 0,
        plain_labels(labels),
    decreases data.len(),
{
    if data[0] != 0 {
        let step = 1 + data[0];
        let later = data.skip(step);
        match labels_at(later) {
            Some((more, count)) => {
                lemma_labels_at_bounds(later, more, count);
                assert(data[taken - 1] == later[count - 1]);
                assert forall|i: int| 0 <= i < labels.len() implies 1 <= (#[trigger] labels[i]).len()
                    <= 255 by {
                    if i > 0 {
                        assert(labels[i] == more[i - 1]);
                    }
                }
            },
            None => {},
        }
    }
}

/// Reading labels looks at no byte behind their terminator: any buffer that
/// starts with the bytes that were taken yields the same labels and the same
/// count.
pub proof fn lemma_labels_stop_at_terminator(
    data: Seq<u8>,
    other: Seq<u8>,
    labels: Seq<Seq<u8>>,
    taken: nat,
)
    requires
        labels_at(data) == Some((labels, taken)),
        other.len() >= taken,
        other.take(taken as int) == data.take(taken as int),
    ensures
        labels_at(other) == Some((labels, taken)),
    decreases data.len(),
{
    lemma_labels_at_bounds(data, labels, taken);
    assert forall|i: int| 0 <= i < taken implies other[i] == data[i] by {
        assert(other.take(taken as int)[i] == other[i]);
        assert(data.take(taken as int)[i] == data[i]);
    }
    if data[0] != 0 {
        let step = 1 + data[0];
        let later = data.skip(step);
        let other_later = other.skip(step);
        match labels_at(later) {
            Some((more, count)) => {
                assert(other_later.take(count as int) =~= later.take(count as int));
                lemma_labels_stop_at_terminator(later, other_later, more, count);
                assert(other.subrange(1, step) =~= data.subrange(1, step));
            },
            None => {},
        }
    }
}

/// Appends the wire form of a dotted name: each label behind its length,
/// then the zero byte. A length over 255 is written modulo 256.
pub fn push_name(buffer: &mut Vec<u8>, name: &[u8])
    ensures
        final(buffer)@ == old(buffer)@ + wire_name(name@),
{
    let mut start: usize = 0;
    assert(name@.skip(0) =~= name@);
    loop
        invariant
            start <= name@.len(),
            old(buffer)@ + wire_name(name@) == buffer@ + wire_name(name@.skip(start as int)),
        decreases name@.len() - start,
    {
        let ghost unread = name@.skip(start as int);
        let mut end = start;
        while end < name.len() && name[end] != DOT
            invariant
                start <= end <= name@.len(),
                forall|k: int| start <= k < end ==> name@[k] != DOT,
            decreases name@.len() - end,
        {
            end += 1;
        }
        proof {
            lemma_first_dot_found(unread, (end - start) as nat);
            assert(unread.take(end - start) =~= name@.subrange(start as int, end as int));
        }
        push_u8(buffer, ((end - start) % 256) as u8);
        push_bytes(buffer, slice_subrange(name, start, end));
        if end == name.len() {
            push_u8(buffer, 0);
            proof {
                let label = name@.subrange(start as int, end as int);
                assert(unread =~= label);
                assert(seq![label].drop_first() =~= Seq::<Seq<u8>>::empty());
                assert(wire_labels(seq![label]) =~= wire_label(label) + seq![0u8]) by {
                    reveal_with_fuel(wire_labels, 2);
                }
                assert(buffer@ =~= old(buffer)@ + wire_name(name@));
            }
            return ;
        }
        proof {
            let label = name@.subrange(start as int, end as int);
            let later = unread.skip(end - start + 1);
            assert(later =~= name@.skip(end + 1));
            assert((seq![label] + split_dots(later)).drop_first() =~= split_dots(later));
            assert(wire_name(unread) =~= wire_label(label) + wire_name(later));
        }
        start = end + 1;
    }
}

} // verus!
