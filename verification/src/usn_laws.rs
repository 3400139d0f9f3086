//! What the change journal's bytes mean: numbers stand in them byte by byte, the
//! least significant first, and every id that was written is read back whole.
use crate::codec::{i64_of_bits, le_value, lemma_number_of_bytes};
use crate::usn::{journal_of, record_parents, with_id, with_ids, FrnCollector, Journal, ReadStep};
use vstd::prelude::*;

verus! {

/// The two bytes of a number, least significant first.
pub open spec fn two_bytes(n: int) -> Seq<u8> {
    seq![(n % 0x100) as u8, (n / 0x100) as u8]
}

/// The four bytes of a number, least significant first.
pub open spec fn four_bytes(n: int) -> Seq<u8> {
    two_bytes(n % 0x1_0000) + two_bytes(n / 0x1_0000)
}

/// The eight bytes of a number, least significant first.
#[verifier::opaque]
pub open spec fn eight_bytes(n: int) -> Seq<u8> {
    four_bytes(n % 0x1_0000_0000) + four_bytes(n / 0x1_0000_0000)
}

proof fn lemma_two_bytes(n: int)
    requires
        0 <= n < 0x1_0000,
    ensures
        two_bytes(n).len() == 2,
        two_bytes(n)[0] + 0x100 * two_bytes(n)[1] == n,
{
}

proof fn lemma_four_bytes(n: int)
    requires
        0 <= n < 0x1_0000_0000,
    ensures
        four_bytes(n).len() == 4,
        four_bytes(n)[0] + 0x100 * four_bytes(n)[1] + 0x1_0000 * four_bytes(n)[2] + 0x100_0000
            * four_bytes(n)[3] == n,
        le_value(four_bytes(n)) == n,
{
    let s = four_bytes(n);
    let low = two_bytes(n % 0x1_0000);
    let high = two_bytes(n / 0x1_0000);
    lemma_two_bytes(n % 0x1_0000);
    lemma_two_bytes(n / 0x1_0000);
    assert(s[0] == low[0] && s[1] == low[1] && s[2] == high[0] && s[3] == high[1]);
    lemma_number_of_bytes(s);
}

proof fn lemma_eight_bytes(n: int)
    requires
        0 <= n < 0x1_0000_0000_0000_0000,
    ensures
        eight_bytes(n).len() == 8,
        le_value(eight_bytes(n)) == n,
{
    let s = eight_bytes(n);
    reveal(eight_bytes);
    let a = four_bytes(n % 0x1_0000_0000);
    let b = four_bytes(n / 0x1_0000_0000);
    lemma_four_bytes(n % 0x1_0000_0000);
    lemma_four_bytes(n / 0x1_0000_0000);
    assert(s[0] == a[0] && s[1] == a[1] && s[2] == a[2] && s[3] == a[3]);
    assert(s[4] == b[0] && s[5] == b[1] && s[6] == b[2] && s[7] == b[3]);
    lemma_number_of_bytes(s);
}

/// What a record says: the version it is written in, the directory in which
/// something changed, and the rest, which is passed over.
#[verifier::ext_equal]
pub struct JournalRecord {
    pub version: u16,
    /// The minor version and the id of the changed file.
    pub before_parent: Seq<u8>,
    pub parent: u64,
    pub after_parent: Seq<u8>,
}

impl JournalRecord {
    /// The parts have the widths of the format, and the whole fits its length.
    pub open spec fn wf(self) -> bool {
        &&& self.before_parent.len() == 10
        &&& 36 <= self.after_parent.len() < 0x1_0000_0000 - 24
    }

    /// The record as it stands in the journal: its length in bytes, its version,
    /// the file, its parent, the rest.
    pub open spec fn bytes(self) -> Seq<u8> {
        four_bytes((24 + self.after_parent.len()) as int) + two_bytes(self.version as int)
            + self.before_parent + eight_bytes(self.parent as int) + self.after_parent
    }
}

/// Records one after the other.
pub open spec fn written(records: Seq<JournalRecord>) -> Seq<u8>
    decreases records.len(),
{
    if records.len() == 0 {
        Seq::empty()
    } else {
        records[0].bytes() + written(records.skip(1))
    }
}

/// The parents of the records of version 2, in order.
pub open spec fn parents_written(records: Seq<JournalRecord>) -> Seq<u64>
    decreases records.len(),
{
    if records.len() == 0 {
        Seq::empty()
    } else if records[0].version == 2 {
        seq![records[0].parent] + parents_written(records.skip(1))
    } else {
        parents_written(records.skip(1))
    }
}

proof fn lemma_record_read(head: Seq<u8>, r: JournalRecord, tail: Seq<u8>)
    requires
        r.wf(),
    ensures
        record_parents(head + r.bytes() + tail, head.len() as int) == if r.version == 2 {
            seq![r.parent] + record_parents(
                head + r.bytes() + tail,
                (head + r.bytes()).len() as int,
            )
        } else {
            record_parents(head + r.bytes() + tail, (head + r.bytes()).len() as int)
        },
{
    let buf = head + r.bytes() + tail;
    let off = head.len() as int;
    let len = 24 + r.after_parent.len();
    lemma_four_bytes(len as int);
    lemma_two_bytes(r.version as int);
    lemma_eight_bytes(r.parent as int);
    assert(r.bytes().len() == len);
    assert(buf.subrange(off, off + 4) =~= four_bytes(len as int));
    assert(buf.subrange(off + 4, off + 6) =~= two_bytes(r.version as int));
    lemma_number_of_bytes(buf.subrange(off + 4, off + 6));
    assert(buf.subrange(off + 16, off + 24) =~= eight_bytes(r.parent as int));
}

/// Reading gives back what was written: of any records one after the other,
/// whatever stands before them, the parents of those of version 2 come out, each
/// as the whole 64-bit id that was put in.
pub proof fn law_written_parents_are_read_back(head: Seq<u8>, records: Seq<JournalRecord>)
    requires
        forall|i: int| 0 <= i < records.len() ==> (#[trigger] records[i]).wf(),
    ensures
        record_parents(head + written(records), head.len() as int) == parents_written(records),
    decreases records.len(),
{
    if records.len() == 0 {
        assert(head + written(records) =~= head);
    } else {
        let r = records[0];
        let rest = records.skip(1);
        assert forall|i: int| 0 <= i < rest.len() implies (#[trigger] rest[i]).wf() by {
            assert(rest[i] == records[i + 1]);
        }
        law_written_parents_are_read_back(head + r.bytes(), rest);
        lemma_record_read(head, r, written(rest));
        assert(head + written(records) =~= head + r.bytes() + written(rest));
    }
}

/// Different parents stay different: a journal that differs from another in the
/// parent of one record only is read as a different list of ids.
pub proof fn law_different_parents_stay_different(head: Seq<u8>, r: JournalRecord, other: u64)
    requires
        r.wf(),
        r.version == 2,
        r.parent != other,
    ensures
        record_parents(head + r.bytes(), head.len() as int) == seq![r.parent],
        record_parents(head + (JournalRecord { parent: other, ..r }).bytes(), head.len() as int)
            == seq![other],
        record_parents(head + r.bytes(), head.len() as int) != record_parents(
            head + (JournalRecord { parent: other, ..r }).bytes(),
            head.len() as int,
        ),
{
    let o = JournalRecord { parent: other, ..r };
    lemma_one_record(head, r);
    lemma_one_record(head, o);
    assert(seq![r.parent][0] != seq![other][0]);
}

proof fn lemma_one_record(head: Seq<u8>, r: JournalRecord)
    requires
        r.wf(),
        r.version == 2,
    ensures
        record_parents(head + r.bytes(), head.len() as int) == seq![r.parent],
{
    let one = seq![r];
    law_written_parents_are_read_back(head, one);
    assert(one.skip(1) =~= Seq::empty());
    reveal_with_fuel(written, 2);
    reveal_with_fuel(parents_written, 2);
    assert(written(one) =~= r.bytes());
    assert(parents_written(one) =~= seq![r.parent]);
}

/// A list of ids takes in every id once: what it knew stays in front and in
/// order, every new id is in it, and nothing else is.
pub proof fn law_ids_are_collected_once(known: Seq<u64>, ids: Seq<u64>)
    requires
        known.no_duplicates(),
    ensures
        with_ids(known, ids).no_duplicates(),
        known.is_prefix_of(with_ids(known, ids)),
        forall|id: u64| #[trigger]
            with_ids(known, ids).contains(id) <==> known.contains(id) || ids.contains(id),
    decreases ids.len(),
{
    let all = with_ids(known, ids);
    if ids.len() > 0 {
        let id = ids[0];
        let more = with_id(known, id);
        let rest = ids.skip(1);
        assert(more.contains(id)) by {
            if !known.contains(id) {
                assert(more[known.len() as int] == id);
            }
        }
        assert(known.is_prefix_of(more));
        law_ids_are_collected_once(more, rest);
        assert forall|x: u64| #[trigger] all.contains(x) <==> known.contains(x) || ids.contains(
            x,
        ) by {
            if known.contains(x) {
                let j = choose|j: int| 0 <= j < known.len() && known[j] == x;
                assert(more[j] == x);
            }
            if ids.contains(x) {
                let j = choose|j: int| 0 <= j < ids.len() && ids[j] == x;
                if j > 0 {
                    assert(rest[j - 1] == x);
                }
            }
            if rest.contains(x) {
                let j = choose|j: int| 0 <= j < rest.len() && rest[j] == x;
                assert(ids[j + 1] == x);
            }
            if more.contains(x) && !known.contains(x) {
                let j = choose|j: int| 0 <= j < more.len() && more[j] == x;
                assert(j == known.len());
                assert(ids[0] == x);
            }
        }
    }
}

/// The number that a position in the journal is written as: one below zero
/// counts back from the largest.
pub open spec fn position_bits(x: i64) -> int {
    if x >= 0 {
        x as int
    } else {
        x + 0x1_0000_0000_0000_0000
    }
}

proof fn lemma_three_numbers(a: Seq<u8>, b: Seq<u8>, c: Seq<u8>, rest: Seq<u8>)
    requires
        a.len() == 8,
        b.len() == 8,
        c.len() == 8,
    ensures
        (a + b + c + rest).subrange(0, 8) == a,
        (a + b + c + rest).subrange(8, 16) == b,
        (a + b + c + rest).subrange(16, 24) == c,
{
    let out = a + b + c + rest;
    assert(out.subrange(0, 8) =~= a);
    assert(out.subrange(8, 16) =~= b);
    assert(out.subrange(16, 24) =~= c);
}

/// The answer of a query is read as it was written: the id and the two positions
/// of the journal, eight bytes each, whatever follows.
pub proof fn law_written_journal_is_read_back(id: u64, first: i64, next: i64, rest: Seq<u8>)
    ensures
        journal_of(
            eight_bytes(id as int) + eight_bytes(position_bits(first)) + eight_bytes(
                position_bits(next),
            ) + rest,
        ) == Some(Journal { id, first_usn: first, next_usn: next }),
{
    lemma_eight_bytes(id as int);
    lemma_eight_bytes(position_bits(first));
    lemma_eight_bytes(position_bits(next));
    lemma_three_numbers(
        eight_bytes(id as int),
        eight_bytes(position_bits(first)),
        eight_bytes(position_bits(next)),
        rest,
    );
    assert(i64_of_bits(position_bits(first) as nat) == first);
    assert(i64_of_bits(position_bits(next) as nat) == next);
}

/// Reading goes on exactly while the journal moves forward and has not reached the
/// target, from where the answer ended; so it ends.
pub proof fn law_reading_goes_forward_to_the_target(at: i64, end: i64, next: i64)
    ensures
        at < next < end ==> FrnCollector::step_after(at, end, next) == (ReadStep::More { usn: next }),
        next >= end ==> FrnCollector::step_after(at, end, next) is Done,
        next <= at ==> FrnCollector::step_after(at, end, next) is Done,
        FrnCollector::step_after(at, end, next) matches ReadStep::More { usn } ==> at < usn < end,
{
}

proof fn lemma_parent_is_written(records: Seq<JournalRecord>, p: u64)
    ensures
        parents_written(records).contains(p) <==> exists|i: int|
            0 <= i < records.len() && (#[trigger] records[i]).version == 2 && records[i].parent
                == p,
    decreases records.len(),
{
    let all = parents_written(records);
    if records.len() > 0 {
        let rest = records.skip(1);
        let more = parents_written(rest);
        lemma_parent_is_written(rest, p);
        if more.contains(p) {
            let i = choose|i: int|
                0 <= i < rest.len() && (#[trigger] rest[i]).version == 2 && rest[i].parent == p;
            assert(records[i + 1] == rest[i]);
            let k = choose|k: int| 0 <= k < more.len() && more[k] == p;
            if records[0].version == 2 {
                assert(all[k + 1] == p);
            }
        }
        if records[0].version == 2 && records[0].parent == p {
            assert(all[0] == p);
        }
        if all.contains(p) && !more.contains(p) {
            let k = choose|k: int| 0 <= k < all.len() && all[k] == p;
            if k > 0 {
                assert(more[k - 1] == p);
            }
            assert(records[0].version == 2 && records[0].parent == p);
        }
        if exists|i: int|
            0 <= i < records.len() && (#[trigger] records[i]).version == 2 && records[i].parent
                == p {
            let i = choose|i: int|
                0 <= i < records.len() && (#[trigger] records[i]).version == 2 && records[i].parent
                    == p;
            if i > 0 {
                assert(rest[i - 1] == records[i]);
            }
        }
    }
}

/// What a collector holds after an answer of the journal: what it knew, and the
/// parent of every record of version 2 in the answer, each as the whole id that
/// was written; nothing else.
pub proof fn law_collected_ids_are_the_written_ones(
    known: Seq<u64>,
    position: Seq<u8>,
    records: Seq<JournalRecord>,
    p: u64,
)
    requires
        known.no_duplicates(),
        position.len() == 8,
        forall|i: int| 0 <= i < records.len() ==> (#[trigger] records[i]).wf(),
    ensures
        with_ids(known, record_parents(position + written(records), 8)).contains(p) <==> {
            ||| known.contains(p)
            ||| exists|i: int|
                0 <= i < records.len() && (#[trigger] records[i]).version == 2 && records[i].parent
                    == p
        },
{
    law_written_parents_are_read_back(position, records);
    law_ids_are_collected_once(known, parents_written(records));
    lemma_parent_is_written(records, p);
}

} // verus!
