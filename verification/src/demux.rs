//! Choosing, among the packets read from the transcoded file, those that
//! belong to the video stream.

use vstd::prelude::*;

verus! {

/// The payloads of the packets of `stream`, in file order; a packet of
/// that stream without data is skipped.
pub open spec fn stream_payloads(packets: Seq<(usize, Option<Vec<u8>>)>, stream: usize) -> Seq<
    Seq<u8>,
>
    decreases packets.len(),
{
    if packets.len() == 0 {
        Seq::empty()
    } else {
        let rest = stream_payloads(packets.drop_last(), stream);
        let last = packets.last();
        if last.0 == stream && last.1 is Some {
            rest.push(last.1.unwrap()@)
        } else {
            rest
        }
    }
}

/// Keeps, in order, the payloads of the packets read from a file (each
/// given with the index of its stream) that belong to `stream` and carry
/// data.
pub fn keep_stream_packets(packets: &Vec<(usize, Option<Vec<u8>>)>, stream: usize) -> (kept: Vec<
    Vec<u8>,
>)
    ensures
        kept@.len() == stream_payloads(packets@, stream).len(),
        forall|i: int|
            0 <= i < kept@.len() ==> #[trigger] kept@[i]@ == stream_payloads(packets@, stream)[i],
        kept@.len() == packets@.filter(carries_stream_data(stream)).len(),
        forall|i: int|
            0 <= i < kept@.len() ==> #[trigger] kept@[i]@ == packets@.filter(
                carries_stream_data(stream),
            )[i].1.unwrap()@,
{
    let mut kept: Vec<Vec<u8>> = Vec::new();
    let mut i: usize = 0;
    while i < packets.len()
        invariant
            i <= packets@.len(),
            kept@.len() == stream_payloads(packets@.subrange(0, i as int), stream).len(),
            forall|j: int|
                0 <= j < kept@.len() ==> #[trigger] kept@[j]@ == stream_payloads(
                    packets@.subrange(0, i as int),
                    stream,
                )[j],
        decreases packets@.len() - i,
    {
        let ghost prefix = packets@.subrange(0, i as int);
        let ghost next = packets@.subrange(0, i + 1);
        assert(next.drop_last() =~= prefix);
        let (s, data) = &packets[i];
        if *s == stream {
            match data {
                Some(bytes) => {
                    let copy = bytes.clone();
                    assert(copy@ =~= bytes@);
                    kept.push(copy);
                },
                None => {},
            }
        }
        i = i + 1;
    }
    assert(packets@.subrange(0, packets@.len() as int) =~= packets@);
    proof {
        lemma_stream_payloads_are_all_its_packets(packets@, stream);
    }
    kept
}

/// Whether a packet read from the file belongs to `stream` and carries data.
pub open spec fn carries_stream_data(stream: usize) -> spec_fn((usize, Option<Vec<u8>>)) -> bool {
    |p: (usize, Option<Vec<u8>>)| p.0 == stream && p.1 is Some
}

/// The data a packet carries.
pub open spec fn packet_data() -> spec_fn((usize, Option<Vec<u8>>)) -> Seq<u8> {
    |p: (usize, Option<Vec<u8>>)| p.1.unwrap()@
}

/// The payloads kept for `stream` are exactly the data of all the packets
/// that belong to it and carry data, every one of them, in file order.
pub proof fn lemma_stream_payloads_are_all_its_packets(
    packets: Seq<(usize, Option<Vec<u8>>)>,
    stream: usize,
)
    ensures
        stream_payloads(packets, stream) == packets.filter(carries_stream_data(stream)).map_values(
            packet_data(),
        ),
        stream_payloads(packets, stream).len() == packets.filter(carries_stream_data(stream)).len(),
    decreases packets.len(),
{
    reveal_with_fuel(Seq::filter, 1);
    let pred = carries_stream_data(stream);
    if packets.len() == 0 {
        assert(packets.filter(pred) =~= Seq::<(usize, Option<Vec<u8>>)>::empty());
        assert(stream_payloads(packets, stream) =~= packets.filter(pred).map_values(packet_data()));
    } else {
        lemma_stream_payloads_are_all_its_packets(packets.drop_last(), stream);
        let rest = packets.drop_last().filter(pred);
        if pred(packets.last()) {
            assert(packets.filter(pred) == rest.push(packets.last()));
            assert(rest.push(packets.last()).map_values(packet_data()) =~= rest.map_values(
                packet_data(),
            ).push(packets.last().1.unwrap()@));
        } else {
            assert(packets.filter(pred) == rest);
        }
        assert(stream_payloads(packets, stream) =~= packets.filter(pred).map_values(packet_data()));
    }
}

} // verus!
