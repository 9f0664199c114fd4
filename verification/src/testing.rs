//! Input for tests: content whose bytes tell where in it they come from.

use vstd::prelude::*;

verus! {

/// The lowest `count` bytes of `value`, most significant byte first.
pub open spec fn be_bytes(value: int, count: nat) -> Seq<u8>
    decreases count,
{
    if count == 0 {
        Seq::empty()
    } else {
        be_bytes(value / 256, (count - 1) as nat).push((value % 256) as u8)
    }
}

/// How many bytes a counter takes up.
pub open spec fn counter_width(counter: int) -> nat {
    if counter < 0xff {
        1
    } else if counter < 0xffff {
        2
    } else if counter < 0xffff_ffff {
        4
    } else {
        8
    }
}

/// The counters below `count`, one after the other.
pub open spec fn counters(count: nat) -> Seq<u8>
    decreases count,
{
    if count == 0 {
        Seq::empty()
    } else {
        let last = count - 1;
        counters(last as nat) + be_bytes(last, counter_width(last))
    }
}

proof fn lemma_be_bytes_len(value: int, count: nat)
    ensures
        be_bytes(value, count).len() == count,
    decreases count,
{
    if count > 0 {
        lemma_be_bytes_len(value / 256, (count - 1) as nat);
    }
}

proof fn lemma_counters_prefix(less: nat, more: nat)
    requires
        less <= more,
    ensures
        counters(less).len() <= counters(more).len(),
        counters(more).take(counters(less).len() as int) == counters(less),
    decreases more,
{
    if less < more {
        let last: int = more - 1;
        lemma_counters_prefix(less, last as nat);
        assert(counters(more).take(counters(less).len() as int) =~= counters(last as nat).take(
            counters(less).len() as int,
        ));
    } else {
        assert(counters(more).take(counters(less).len() as int) =~= counters(less));
    }
}

fn push_be(out: &mut Vec<u8>, value: u64, count: usize)
    ensures
        final(out)@ == old(out)@ + be_bytes(value as int, count as nat),
    decreases count,
{
    let ghost before = out@;
    if count > 0 {
        push_be(out, value / 256, count - 1);
        out.push((value % 256) as u8);
    }
    assert(out@ =~= before + be_bytes(value as int, count as nat));
}

/// Fills the input with incrementing counters, so that reads from different sections are very
/// unlikely to accidentally match.
pub fn make_test_input(len: usize) -> (input: Vec<u8>)
    ensures
        input@.len() == len,
        input@ == counters(len as nat).take(len as int),
{
    let mut input: Vec<u8> = Vec::new();
    let mut counter: u64 = 0;
    while input.len() < len
        invariant
            input@ == counters(counter as nat),
            counter <= input@.len(),
            counter <= len,
        decreases len - counter,
    {
        let width: usize = if counter < 0xff {
            1
        } else if counter < 0xffff {
            2
        } else if counter < 0xffff_ffff {
            4
        } else {
            8
        };
        push_be(&mut input, counter, width);
        proof {
            lemma_be_bytes_len(counter as int, width as nat);
        }
        counter = counter + 1;
    }
    proof {
        lemma_counters_prefix(counter as nat, len as nat);
        assert(counters(counter as nat).take(len as int) =~= counters(len as nat).take(
            len as int,
        ));
    }
    input.truncate(len);
    input
}

/// Where a counter starts: one byte each up to 0xff, two up to 0xffff, four up to 0xffff_ffff, and
/// eight from there on.
pub proof fn law_counters_len(count: nat)
    ensures
        count <= 0xff ==> counters(count).len() == count,
        0xff <= count <= 0xffff ==> counters(count).len() == 0xff + 2 * (count - 0xff),
        0xffff <= count <= 0xffff_ffff ==> counters(count).len() == 0xff + 2 * (0xffff - 0xff) + 4
            * (count - 0xffff),
        0xffff_ffff <= count ==> counters(count).len() == 0xff + 2 * (0xffff - 0xff) + 4 * (
        0xffff_ffff - 0xffff) + 8 * (count - 0xffff_ffff),
    decreases count,
{
    if count > 0 {
        let last: int = count - 1;
        law_counters_len(last as nat);
        lemma_be_bytes_len(last, counter_width(last));
    }
}

/// The number that some bytes stand for, most significant byte first.
pub open spec fn be_value(bytes: Seq<u8>) -> int
    decreases bytes.len(),
{
    if bytes.len() == 0 {
        0
    } else {
        256 * be_value(bytes.drop_last()) + bytes.last()
    }
}

proof fn lemma_be_value(value: int, count: nat)
    requires
        0 <= value < vstd::arithmetic::power::pow(256, count),
    ensures
        be_value(be_bytes(value, count)) == value,
    decreases count,
{
    vstd::arithmetic::power::lemma_pow0(256);
    if count > 0 {
        reveal(vstd::arithmetic::power::pow);
        let shorter = be_bytes(value / 256, (count - 1) as nat);
        lemma_be_value(value / 256, (count - 1) as nat);
        assert(be_bytes(value, count).drop_last() =~= shorter);
    }
}

/// Each counter stands where it starts, most significant byte first.
pub proof fn law_counter_at(counter: nat, count: nat)
    requires
        counter < count,
        counter <= u64::MAX,
    ensures
        ({
            let start = counters(counter).len() as int;
            let end = counters(counter + 1).len() as int;
            &&& start < end <= counters(count).len()
            &&& be_value(counters(count).subrange(start, end)) == counter
        }),
{
    let start: int = counters(counter).len() as int;
    let width: nat = counter_width(counter as int);
    let more: nat = counter + 1;
    lemma_counters_prefix(more, count);
    lemma_be_bytes_len(counter as int, width);
    reveal_with_fuel(vstd::arithmetic::power::pow, 9);
    assert(vstd::arithmetic::power::pow(256, 1) == 0x100);
    assert(vstd::arithmetic::power::pow(256, 2) == 0x1_0000);
    assert(vstd::arithmetic::power::pow(256, 4) == 0x1_0000_0000);
    assert(vstd::arithmetic::power::pow(256, 8) == 0x1_0000_0000_0000_0000);
    lemma_be_value(counter as int, width);
    let end: int = counters(more).len() as int;
    assert(counters(count).subrange(start, end) =~= counters(count).take(end).subrange(
        start,
        end,
    ));
    assert(counters(more).subrange(start, end) =~= be_bytes(counter as int, width));
}

} // verus!
