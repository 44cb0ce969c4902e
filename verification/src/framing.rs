//! The byte format of the log, as a mathematical model.
//!
//! A record is `id (1 byte) ++ size (4 bytes, big-endian) ++ payload`.
//! A record with id `0` is an envelope: its payload is itself a run of
//! records, and the parser looks through it.

use vstd::prelude::*;

verus! {

/// The number of bytes in front of a record's payload.
pub const HEADER_LEN: usize = 5;

/// One record as the parser hands it out.
pub struct Record {
    pub table_id: u8,
    pub payload: Seq<u8>,
}

/// What parsing a buffer yields: the records found, and whether the buffer
/// ended in bytes that do not form a whole record.
pub struct Parsed {
    pub records: Seq<Record>,
    pub incomplete: bool,
}

/// The four bytes of a size field, most significant first. Sizes are taken
/// modulo 2^32.
pub open spec fn size_bytes(n: nat) -> Seq<u8> {
    seq![
        ((n / 0x100_0000) % 0x100) as u8,
        ((n / 0x1_0000) % 0x100) as u8,
        ((n / 0x100) % 0x100) as u8,
        (n % 0x100) as u8,
    ]
}

/// The number that four bytes of a size field stand for.
pub open spec fn size_value(b: Seq<u8>) -> nat
    recommends
        b.len() == 4,
{
    (b[0] as nat) * 0x100_0000 + (b[1] as nat) * 0x1_0000 + (b[2] as nat) * 0x100 + (b[3] as nat)
}

/// The header of a record with the given id and payload length.
pub open spec fn header(id: u8, len: nat) -> Seq<u8> {
    seq![id] + size_bytes(len)
}

/// A whole record: header, then payload.
pub open spec fn frame(id: u8, payload: Seq<u8>) -> Seq<u8> {
    header(id, payload.len()) + payload
}

/// Whether a payload's length can be written in a size field.
pub open spec fn fits(payload: Seq<u8>) -> bool {
    payload.len() <= u32::MAX
}

/// The parser. It stops at the first position where fewer bytes remain than
/// the record there needs, reporting the buffer as incomplete; it steps over
/// the header of an envelope whose payload is wholly present and parses that
/// payload in place.
pub open spec fn parse(buf: Seq<u8>) -> Parsed
    decreases buf.len(),
{
    if buf.len() == 0 {
        Parsed { records: Seq::empty(), incomplete: false }
    } else if buf.len() < HEADER_LEN {
        Parsed { records: Seq::empty(), incomplete: true }
    } else {
        let id = buf[0];
        let size = size_value(buf.subrange(1, 5)) as int;
        if buf.len() < HEADER_LEN + size {
            Parsed { records: Seq::empty(), incomplete: true }
        } else if id == 0 {
            parse(buf.skip(5))
        } else {
            let rest = parse(buf.skip(5 + size));
            Parsed {
                records: seq![Record { table_id: id, payload: buf.subrange(5, 5 + size) }]
                    + rest.records,
                incomplete: rest.incomplete,
            }
        }
    }
}

/// The bytes of a run of records, each framed, in order.
pub open spec fn frames(records: Seq<Record>) -> Seq<u8>
    decreases records.len(),
{
    if records.len() == 0 {
        Seq::empty()
    } else {
        frame(records[0].table_id, records[0].payload) + frames(records.skip(1))
    }
}

/// Whether every record of a run can be framed and found again: none uses
/// the reserved id, and every payload's length fits the size field.
pub open spec fn framable(records: Seq<Record>) -> bool {
    forall|i: int|
        0 <= i < records.len() ==> (#[trigger] records[i]).table_id != 0 && fits(records[i].payload)
}

/// Reading back a size field gives the size that was written.
pub proof fn lemma_size_round_trip(n: nat)
    requires
        n <= u32::MAX,
    ensures
        size_bytes(n).len() == 4,
        size_value(size_bytes(n)) == n,
{
}

/// A record followed by anything: the parser hands out the record and goes
/// on with what follows.
pub proof fn lemma_parse_frame(id: u8, payload: Seq<u8>, rest: Seq<u8>)
    requires
        id != 0,
        fits(payload),
    ensures
        parse(frame(id, payload) + rest).records == seq![Record { table_id: id, payload }] + parse(
            rest,
        ).records,
        parse(frame(id, payload) + rest).incomplete == parse(rest).incomplete,
{
    let buf = frame(id, payload) + rest;
    lemma_size_round_trip(payload.len());
    assert(buf.subrange(1, 5) =~= size_bytes(payload.len()));
    assert(buf.subrange(5, 5 + payload.len() as int) =~= payload);
    assert(buf.skip(5 + payload.len() as int) =~= rest);
}

/// Framing distributes over concatenation.
pub proof fn lemma_frames_append(a: Seq<Record>, b: Seq<Record>)
    ensures
        frames(a + b) == frames(a) + frames(b),
    decreases a.len(),
{
    if a.len() == 0 {
        assert(a + b =~= b);
        assert(frames(a) + frames(b) =~= frames(b));
    } else {
        lemma_frames_append(a.skip(1), b);
        assert((a + b).skip(1) =~= a.skip(1) + b);
        assert((a + b)[0] == a[0]);
        assert(frames(a + b) =~= frames(a) + frames(b));
    }
}

/// Framing one more record appends its frame.
pub proof fn lemma_frames_push(a: Seq<Record>, r: Record)
    ensures
        frames(a.push(r)) == frames(a) + frame(r.table_id, r.payload),
{
    lemma_frames_append(a, seq![r]);
    assert(a.push(r) =~= a + seq![r]);
    let one = seq![r];
    assert(one.skip(1) =~= Seq::<Record>::empty());
    assert(frames(one.skip(1)) =~= Seq::<u8>::empty());
    assert(one[0] == r);
    assert(frames(one) =~= frame(r.table_id, r.payload));
}

/// A run of framed records followed by anything: the parser hands out the
/// records and goes on with what follows.
pub proof fn lemma_parse_frames(records: Seq<Record>, rest: Seq<u8>)
    requires
        framable(records),
    ensures
        parse(frames(records) + rest).records == records + parse(rest).records,
        parse(frames(records) + rest).incomplete == parse(rest).incomplete,
    decreases records.len(),
{
    if records.len() == 0 {
        assert(frames(records) + rest =~= rest);
        assert(records + parse(rest).records =~= parse(rest).records);
    } else {
        let r = records[0];
        let tail = records.skip(1);
        assert(framable(tail)) by {
            assert forall|i: int| 0 <= i < tail.len() implies (#[trigger] tail[i]).table_id != 0
                && fits(tail[i].payload) by {
                assert(tail[i] == records[i + 1]);
            }
        }
        lemma_parse_frames(tail, rest);
        lemma_parse_frame(r.table_id, r.payload, frames(tail) + rest);
        assert(frames(records) + rest =~= frame(r.table_id, r.payload) + (frames(tail) + rest));
        assert(seq![r] + (tail + parse(rest).records) =~= records + parse(rest).records);
    }
}

/// Framing round-trip: parsing the frames of a run of records yields exactly
/// those records, and nothing is left over.
pub proof fn lemma_framing_round_trip(records: Seq<Record>)
    requires
        framable(records),
    ensures
        parse(frames(records)) == (Parsed { records, incomplete: false }),
{
    lemma_parse_frames(records, Seq::empty());
    assert(frames(records) + Seq::<u8>::empty() =~= frames(records));
    assert(records + Seq::<Record>::empty() =~= records);
    assert(parse(frames(records)).records =~= records);
}

/// An envelope is transparent: where its payload is a run of framed records,
/// the parser hands out those records and goes on with what follows the
/// envelope.
pub proof fn lemma_parse_envelope(inner: Seq<Record>, rest: Seq<u8>)
    requires
        framable(inner),
        fits(frames(inner)),
    ensures
        parse(frame(0, frames(inner)) + rest).records == inner + parse(rest).records,
        parse(frame(0, frames(inner)) + rest).incomplete == parse(rest).incomplete,
{
    let payload = frames(inner);
    let buf = frame(0, payload) + rest;
    lemma_size_round_trip(payload.len());
    assert(buf.subrange(1, 5) =~= size_bytes(payload.len()));
    assert(buf.skip(5) =~= payload + rest);
    lemma_parse_frames(inner, rest);
}

/// A record cut short is not parsed at all: of any proper, non-empty prefix
/// of a frame the parser hands out nothing and reports an incomplete write.
/// This holds of envelopes too, so a transaction is found whole or not at all.
pub proof fn lemma_parse_cut_frame(id: u8, payload: Seq<u8>, n: int)
    requires
        fits(payload),
        0 < n < frame(id, payload).len(),
    ensures
        parse(frame(id, payload).take(n)) == (Parsed { records: Seq::empty(), incomplete: true }),
{
    let buf = frame(id, payload).take(n);
    if n >= 5 {
        lemma_size_round_trip(payload.len());
        assert(buf.subrange(1, 5) =~= size_bytes(payload.len()));
    }
    assert(parse(buf).records =~= Seq::<Record>::empty());
}

/// One top-level item of a log that the engine wrote: a single record, or
/// an envelope around the records of one transaction or one compaction.
pub enum Item {
    Single(Record),
    Envelope(Seq<Record>),
}

/// The bytes of one item.
pub open spec fn item_bytes(item: Item) -> Seq<u8> {
    match item {
        Item::Single(r) => frame(r.table_id, r.payload),
        Item::Envelope(inner) => frame(0, frames(inner)),
    }
}

/// The records that one item carries.
pub open spec fn item_records(item: Item) -> Seq<Record> {
    match item {
        Item::Single(r) => seq![r],
        Item::Envelope(inner) => inner,
    }
}

/// Whether an item can be written and found again.
pub open spec fn item_well_formed(item: Item) -> bool {
    match item {
        Item::Single(r) => r.table_id != 0 && fits(r.payload),
        Item::Envelope(inner) => framable(inner) && fits(frames(inner)),
    }
}

/// The bytes of a log made of the given items, without its stamp.
pub open spec fn log_bytes(items: Seq<Item>) -> Seq<u8>
    decreases items.len(),
{
    if items.len() == 0 {
        Seq::empty()
    } else {
        item_bytes(items[0]) + log_bytes(items.skip(1))
    }
}

/// The records that the given items carry, in order.
pub open spec fn log_records(items: Seq<Item>) -> Seq<Record>
    decreases items.len(),
{
    if items.len() == 0 {
        Seq::empty()
    } else {
        item_records(items[0]) + log_records(items.skip(1))
    }
}

/// Whether every item of a log is well formed.
pub open spec fn log_well_formed(items: Seq<Item>) -> bool {
    forall|i: int| 0 <= i < items.len() ==> item_well_formed(#[trigger] items[i])
}

/// The number of leading items that lie wholly within the first `n` bytes
/// of the log.
pub open spec fn whole_items(items: Seq<Item>, n: int) -> nat
    decreases items.len(),
{
    if items.len() == 0 || item_bytes(items[0]).len() > n {
        0
    } else {
        1 + whole_items(items.skip(1), n - item_bytes(items[0]).len())
    }
}

/// One item followed by anything: the parser hands out the item's records
/// and goes on with what follows.
pub proof fn lemma_parse_item(item: Item, rest: Seq<u8>)
    requires
        item_well_formed(item),
    ensures
        parse(item_bytes(item) + rest).records == item_records(item) + parse(rest).records,
        parse(item_bytes(item) + rest).incomplete == parse(rest).incomplete,
{
    match item {
        Item::Single(r) => {
            lemma_parse_frame(r.table_id, r.payload, rest);
        },
        Item::Envelope(inner) => {
            lemma_parse_envelope(inner, rest);
        },
    }
}

/// An item cut short is not parsed at all.
pub proof fn lemma_parse_cut_item(item: Item, n: int)
    requires
        item_well_formed(item),
        0 < n < item_bytes(item).len(),
    ensures
        parse(item_bytes(item).take(n)) == (Parsed { records: Seq::empty(), incomplete: true }),
{
    match item {
        Item::Single(r) => {
            lemma_parse_cut_frame(r.table_id, r.payload, n);
        },
        Item::Envelope(inner) => {
            lemma_parse_cut_frame(0, frames(inner), n);
        },
    }
}

/// `whole_items` never counts more items than there are, and the items it
/// counts fit in the bytes given.
pub proof fn lemma_whole_items_bound(items: Seq<Item>, n: int)
    requires
        0 <= n,
    ensures
        whole_items(items, n) <= items.len(),
        log_bytes(items.take(whole_items(items, n) as int)).len() <= n,
    decreases items.len(),
{
    if items.len() == 0 || item_bytes(items[0]).len() > n {
        assert(items.take(0) =~= Seq::<Item>::empty());
    } else {
        let first = item_bytes(items[0]);
        lemma_whole_items_bound(items.skip(1), n - first.len());
        let j = whole_items(items.skip(1), n - first.len());
        assert(items.take(1 + j as int).skip(1) =~= items.skip(1).take(j as int));
        assert(items.take(1 + j as int)[0] == items[0]);
    }
}

/// Replaying a well-formed log: the parser hands out the records of every
/// item, in order, and reports no incomplete write.
pub proof fn lemma_parse_log(items: Seq<Item>)
    requires
        log_well_formed(items),
    ensures
        parse(log_bytes(items)) == (Parsed { records: log_records(items), incomplete: false }),
    decreases items.len(),
{
    if items.len() == 0 {
        assert(parse(log_bytes(items)).records =~= log_records(items));
    } else {
        let tail = items.skip(1);
        assert(log_well_formed(tail)) by {
            assert forall|i: int| 0 <= i < tail.len() implies item_well_formed(
                #[trigger] tail[i],
            ) by {
                assert(tail[i] == items[i + 1]);
            }
        }
        lemma_parse_log(tail);
        lemma_parse_item(items[0], log_bytes(tail));
        assert(parse(log_bytes(items)).records =~= log_records(items));
    }
}

/// Truncation tolerance: of any prefix of a well-formed log the parser hands
/// out exactly the records of the items that lie wholly within the prefix,
/// and it reports an incomplete write if and only if the prefix ends inside
/// an item.
pub proof fn lemma_truncation_tolerance(items: Seq<Item>, n: int)
    requires
        log_well_formed(items),
        0 <= n <= log_bytes(items).len(),
    ensures
        parse(log_bytes(items).take(n)).records == log_records(
            items.take(whole_items(items, n) as int),
        ),
        parse(log_bytes(items).take(n)).incomplete <==> n != log_bytes(
            items.take(whole_items(items, n) as int),
        ).len(),
    decreases items.len(),
{
    let log = log_bytes(items);
    if items.len() == 0 {
        assert(items.take(0) =~= items);
        assert(log.take(n) =~= Seq::<u8>::empty());
        assert(parse(log.take(n)).records =~= log_records(items.take(0)));
    } else {
        let first = item_bytes(items[0]);
        let tail = items.skip(1);
        assert(item_well_formed(items[0]));
        assert(first.len() >= 5);
        if first.len() > n {
            assert(items.take(0) =~= Seq::<Item>::empty());
            assert(log.take(n) =~= first.take(n));
            if n > 0 {
                lemma_parse_cut_item(items[0], n);
            }
            assert(parse(log.take(n)).records =~= log_records(items.take(0)));
        } else {
            assert(log_well_formed(tail)) by {
                assert forall|i: int| 0 <= i < tail.len() implies item_well_formed(
                    #[trigger] tail[i],
                ) by {
                    assert(tail[i] == items[i + 1]);
                }
            }
            let m = n - first.len();
            lemma_truncation_tolerance(tail, m);
            let j = whole_items(tail, m);
            lemma_whole_items_bound(tail, m);
            assert(log.take(n) =~= first + log_bytes(tail).take(m));
            lemma_parse_item(items[0], log_bytes(tail).take(m));
            assert(items.take(1 + j as int).skip(1) =~= tail.take(j as int));
            assert(items.take(1 + j as int)[0] == items[0]);
            assert(log_bytes(items.take(1 + j as int)) == first + log_bytes(tail.take(j as int)));
            assert(log_records(items.take(1 + j as int)) == item_records(items[0]) + log_records(
                tail.take(j as int),
            ));
        }
    }
}


/// The bytes and the records of a log with one more item at its end.
pub proof fn lemma_log_push(items: Seq<Item>, item: Item)
    ensures
        log_bytes(items.push(item)) == log_bytes(items) + item_bytes(item),
        log_records(items.push(item)) == log_records(items) + item_records(item),
    decreases items.len(),
{
    let more = items.push(item);
    if items.len() == 0 {
        assert(more.skip(1) =~= Seq::<Item>::empty());
        assert(more[0] == item);
        assert(log_bytes(more.skip(1)) =~= Seq::<u8>::empty());
        assert(log_records(more.skip(1)) =~= Seq::<Record>::empty());
        assert(log_bytes(more) =~= log_bytes(items) + item_bytes(item));
        assert(log_records(more) =~= log_records(items) + item_records(item));
    } else {
        lemma_log_push(items.skip(1), item);
        assert(more.skip(1) =~= items.skip(1).push(item));
        assert(more[0] == items[0]);
        assert(log_bytes(more) =~= log_bytes(items) + item_bytes(item));
        assert(log_records(more) =~= log_records(items) + item_records(item));
    }
}

/// All or nothing: of a well-formed log that is cut inside its last item,
/// or just in front of it, the parser hands out the records of the items
/// before the last, and none of the last. So a transaction whose envelope
/// was written in part is not seen at all when the log is opened again.
pub proof fn lemma_last_item_all_or_nothing(items: Seq<Item>, last: Item, n: int)
    requires
        log_well_formed(items.push(last)),
        log_bytes(items).len() <= n < log_bytes(items.push(last)).len(),
    ensures
        parse(log_bytes(items.push(last)).take(n)).records == log_records(items),
        parse(log_bytes(items.push(last)).take(n)).incomplete <==> n != log_bytes(items).len(),
{
    let all = items.push(last);
    lemma_log_push(items, last);
    lemma_truncation_tolerance(all, n);
    lemma_whole_items_before_last(items, last, n);
    assert(all.take(items.len() as int) =~= items);
}

/// The items that lie wholly within a log that is cut inside its last item
/// are the items before the last.
proof fn lemma_whole_items_before_last(items: Seq<Item>, last: Item, n: int)
    requires
        log_bytes(items).len() <= n < log_bytes(items).len() + item_bytes(last).len(),
    ensures
        whole_items(items.push(last), n) == items.len(),
    decreases items.len(),
{
    let all = items.push(last);
    if items.len() == 0 {
        assert(all[0] == last);
    } else {
        assert(all[0] == items[0]);
        assert(all.skip(1) =~= items.skip(1).push(last));
        lemma_whole_items_before_last(items.skip(1), last, n - item_bytes(items[0]).len());
    }
}


/// A well-formed log followed by anything: the parser hands out the records
/// of every item, in order, and goes on with what follows the log.
pub proof fn lemma_parse_log_then(items: Seq<Item>, rest: Seq<u8>)
    requires
        log_well_formed(items),
    ensures
        parse(log_bytes(items) + rest).records == log_records(items) + parse(rest).records,
        parse(log_bytes(items) + rest).incomplete == parse(rest).incomplete,
    decreases items.len(),
{
    if items.len() == 0 {
        assert(log_bytes(items) + rest =~= rest);
        assert(log_records(items) + parse(rest).records =~= parse(rest).records);
    } else {
        let tail = items.skip(1);
        assert(log_well_formed(tail)) by {
            assert forall|i: int| 0 <= i < tail.len() implies item_well_formed(
                #[trigger] tail[i],
            ) by {
                assert(tail[i] == items[i + 1]);
            }
        }
        lemma_parse_log_then(tail, rest);
        lemma_parse_item(items[0], log_bytes(tail) + rest);
        assert(log_bytes(items) + rest =~= item_bytes(items[0]) + (log_bytes(tail) + rest));
        assert(item_records(items[0]) + (log_records(tail) + parse(rest).records) =~= log_records(
            items,
        ) + parse(rest).records);
    }
}


/// The bytes at the end of a buffer that the parser does not get through:
/// none, or a record that was cut short with all that follows it.
pub open spec fn unparsed(buf: Seq<u8>) -> Seq<u8>
    decreases buf.len(),
{
    if buf.len() < HEADER_LEN {
        buf
    } else {
        let size = size_value(buf.subrange(1, 5)) as int;
        if buf.len() < HEADER_LEN + size {
            buf
        } else if buf[0] == 0 {
            unparsed(buf.skip(5))
        } else {
            unparsed(buf.skip(5 + size))
        }
    }
}

/// Whether a buffer starts with a record that was cut short: it holds
/// bytes, but fewer than a header, or fewer than the header says.
pub open spec fn cut_short(buf: Seq<u8>) -> bool {
    0 < buf.len() && (buf.len() < HEADER_LEN || buf.len() < HEADER_LEN + size_value(
        buf.subrange(1, 5),
    ))
}

/// Of any buffer, whatever it holds: the parser reports an incomplete write
/// if and only if it does not get through the buffer, and where it stops
/// there is a record that was cut short. A buffer that ends where a record
/// ends is never reported.
pub proof fn lemma_incomplete_write(buf: Seq<u8>)
    ensures
        unparsed(buf).len() <= buf.len(),
        unparsed(buf) == buf.skip(buf.len() - unparsed(buf).len()),
        parse(buf).incomplete <==> unparsed(buf).len() > 0,
        unparsed(buf).len() > 0 ==> cut_short(unparsed(buf)),
    decreases buf.len(),
{
    if buf.len() < HEADER_LEN {
        assert(buf.skip(0) =~= buf);
    } else {
        let size = size_value(buf.subrange(1, 5)) as int;
        if buf.len() < HEADER_LEN + size {
            assert(buf.skip(0) =~= buf);
        } else {
            let step = if buf[0] == 0 {
                5
            } else {
                5 + size
            };
            let rest = buf.skip(step);
            lemma_incomplete_write(rest);
            assert(rest.skip(rest.len() - unparsed(rest).len()) =~= buf.skip(
                buf.len() - unparsed(rest).len(),
            ));
        }
    }
}


/// The frames of a run of records are at least as long as the frames of
/// the run without its last record, and as each payload in the run.
pub proof fn lemma_frames_len(run: Seq<Record>)
    ensures
        run.len() > 0 ==> frames(run).len() == frames(run.drop_last()).len() + HEADER_LEN
            + run.last().payload.len(),
        forall|i: int| 0 <= i < run.len() ==> (#[trigger] run[i]).payload.len() <= frames(run).len(),
    decreases run.len(),
{
    if run.len() > 0 {
        let front = run.drop_last();
        lemma_frames_len(front);
        lemma_frames_push(front, run.last());
        assert(front.push(run.last()) =~= run);
        assert forall|i: int| 0 <= i < run.len() implies (#[trigger] run[i]).payload.len()
            <= frames(run).len() by {
            if i < front.len() {
                assert(front[i] == run[i]);
            }
        }
    }
}

} // verus!
