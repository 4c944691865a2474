//! Reports as bytes: twenty for each line, a `u32` node and two `u64` totals, big-endian.

use vstd::prelude::*;

verus! {

/// One line of a report: a node, what it has acquired, and what it has released.
pub type Line = (u32, u64, u64);

/// Bytes in a line.
pub const LINE_BYTES: usize = 20;

/// The four bytes of `x`, most significant first.
pub open spec fn bytes_of_u32(x: u32) -> Seq<u8> {
    seq![
        (x / 0x100_0000) as u8,
        (x / 0x1_0000 % 0x100) as u8,
        (x / 0x100 % 0x100) as u8,
        (x % 0x100) as u8,
    ]
}

/// The eight bytes of `x`, most significant first.
pub open spec fn bytes_of_u64(x: u64) -> Seq<u8> {
    bytes_of_u32((x / 0x1_0000_0000) as u32) + bytes_of_u32((x % 0x1_0000_0000) as u32)
}

/// The number that four bytes spell, most significant first.
pub open spec fn u32_of_bytes(b: Seq<u8>) -> u32
    recommends
        b.len() == 4,
{
    (b[0] * 0x100_0000 + b[1] * 0x1_0000 + b[2] * 0x100 + b[3]) as u32
}

/// The number that eight bytes spell, most significant first.
pub open spec fn u64_of_bytes(b: Seq<u8>) -> u64
    recommends
        b.len() == 8,
{
    (u32_of_bytes(b.subrange(0, 4)) * 0x1_0000_0000 + u32_of_bytes(b.subrange(4, 8))) as u64
}

/// The bytes of one line.
pub open spec fn bytes_of_line(line: Line) -> Seq<u8> {
    bytes_of_u32(line.0) + bytes_of_u64(line.1) + bytes_of_u64(line.2)
}

/// The line that twenty bytes spell.
pub open spec fn line_of_bytes(b: Seq<u8>) -> Line
    recommends
        b.len() == LINE_BYTES,
{
    (
        u32_of_bytes(b.subrange(0, 4)),
        u64_of_bytes(b.subrange(4, 12)),
        u64_of_bytes(b.subrange(12, 20)),
    )
}

/// The bytes of a report: its lines, one after another.
pub open spec fn bytes_of(report: Seq<Line>) -> Seq<u8>
    decreases report.len(),
{
    if report.len() == 0 {
        Seq::empty()
    } else {
        bytes_of(report.drop_last()) + bytes_of_line(report.last())
    }
}

/// The report that bytes spell: one line for each whole twenty bytes; what is left over at the
/// end is dropped.
pub open spec fn report_of(bytes: Seq<u8>) -> Seq<Line> {
    Seq::new(
        (bytes.len() / LINE_BYTES as nat) as nat,
        |i: int| line_of_bytes(bytes.subrange(i * LINE_BYTES, (i + 1) * LINE_BYTES)),
    )
}

fn push_u32(out: &mut Vec<u8>, x: u32)
    ensures
        final(out)@ == old(out)@ + bytes_of_u32(x),
{
    out.push((x / 0x100_0000) as u8);
    out.push((x / 0x1_0000 % 0x100) as u8);
    out.push((x / 0x100 % 0x100) as u8);
    out.push((x % 0x100) as u8);
    assert(out@ =~= old(out)@ + bytes_of_u32(x));
}

fn push_u64(out: &mut Vec<u8>, x: u64)
    ensures
        final(out)@ == old(out)@ + bytes_of_u64(x),
{
    push_u32(out, (x / 0x1_0000_0000) as u32);
    push_u32(out, (x % 0x1_0000_0000) as u32);
    assert(out@ =~= old(out)@ + bytes_of_u64(x));
}

fn u32_at(bytes: &[u8], at: usize) -> (x: u32)
    requires
        at + 4 <= bytes@.len(),
    ensures
        x == u32_of_bytes(bytes@.subrange(at as int, at + 4)),
{
    (bytes[at] as u32) * 0x100_0000 + (bytes[at + 1] as u32) * 0x1_0000 + (bytes[at + 2] as u32)
        * 0x100 + (bytes[at + 3] as u32)
}

fn u64_at(bytes: &[u8], at: usize) -> (x: u64)
    requires
        at + 8 <= bytes@.len(),
    ensures
        x == u64_of_bytes(bytes@.subrange(at as int, at + 8)),
{
    let ghost b = bytes@.subrange(at as int, at + 8);
    assert(at + 8 <= bytes.len());
    assert(b.subrange(0, 4) =~= bytes@.subrange(at as int, at + 4));
    assert(b.subrange(4, 8) =~= bytes@.subrange(at + 4, at + 8));
    (u32_at(bytes, at) as u64) * 0x1_0000_0000 + (u32_at(bytes, at + 4) as u64)
}

/// Encode a report as bytes.
#[must_use]
pub fn encode(report: &[(u32, u64, u64)]) -> (bytes: Vec<u8>)
    ensures
        bytes@ == bytes_of(report@),
        bytes@.len() == report@.len() * LINE_BYTES,
{
    let mut out: Vec<u8> = Vec::new();
    let mut i: usize = 0;
    while i < report.len()
        invariant
            i <= report@.len(),
            out@ == bytes_of(report@.take(i as int)),
            out@.len() == i * LINE_BYTES,
        decreases report.len() - i,
    {
        let line = report[i];
        push_u32(&mut out, line.0);
        push_u64(&mut out, line.1);
        push_u64(&mut out, line.2);
        proof {
            let done = report@.take(i + 1);
            assert(done.drop_last() =~= report@.take(i as int));
            assert(out@ =~= bytes_of(report@.take(i as int)) + bytes_of_line(line));
        }
        i += 1;
    }
    proof {
        assert(report@.take(i as int) =~= report@);
    }
    out
}

/// Decode bytes as a report.
#[must_use]
pub fn decode(bytes: &[u8]) -> (report: Vec<(u32, u64, u64)>)
    ensures
        report@ == report_of(bytes@),
{
    let count: usize = bytes.len() / LINE_BYTES;
    let mut out: Vec<(u32, u64, u64)> = Vec::new();
    let mut i: usize = 0;
    while i < count
        invariant
            i <= count,
            count == bytes.len() / LINE_BYTES,
            out@.len() == i,
            forall|j: int| 0 <= j < i ==> #[trigger] out@[j] == report_of(bytes@)[j],
        decreases count - i,
    {
        let at: usize = i * LINE_BYTES;
        proof {
            let b = bytes@.subrange(at as int, at + LINE_BYTES);
            assert((i + 1) * LINE_BYTES == at + LINE_BYTES);
            assert(b.subrange(0, 4) =~= bytes@.subrange(at as int, at + 4));
            assert(b.subrange(4, 12) =~= bytes@.subrange(at + 4, at + 12));
            assert(b.subrange(12, 20) =~= bytes@.subrange(at + 12, at + 20));
        }
        out.push((u32_at(bytes, at), u64_at(bytes, at + 4), u64_at(bytes, at + 12)));
        i += 1;
    }
    proof {
        assert(out@ =~= report_of(bytes@));
    }
    out
}

proof fn lemma_u32_round_trip(x: u32)
    ensures
        u32_of_bytes(bytes_of_u32(x)) == x,
{
}

proof fn lemma_u64_round_trip(x: u64)
    ensures
        u64_of_bytes(bytes_of_u64(x)) == x,
{
    let hi = (x / 0x1_0000_0000) as u32;
    let lo = (x % 0x1_0000_0000) as u32;
    assert(bytes_of_u64(x).subrange(0, 4) =~= bytes_of_u32(hi));
    assert(bytes_of_u64(x).subrange(4, 8) =~= bytes_of_u32(lo));
    lemma_u32_round_trip(hi);
    lemma_u32_round_trip(lo);
}

proof fn lemma_line_round_trip(line: Line)
    ensures
        bytes_of_line(line).len() == LINE_BYTES,
        line_of_bytes(bytes_of_line(line)) == line,
{
    let b = bytes_of_line(line);
    assert(b.subrange(0, 4) =~= bytes_of_u32(line.0));
    assert(b.subrange(4, 12) =~= bytes_of_u64(line.1));
    assert(b.subrange(12, 20) =~= bytes_of_u64(line.2));
    lemma_u32_round_trip(line.0);
    lemma_u64_round_trip(line.1);
    lemma_u64_round_trip(line.2);
}

/// Decoding gives back the report that was encoded.
pub proof fn law_decode_undoes_encode(report: Seq<Line>)
    ensures
        bytes_of(report).len() == report.len() * LINE_BYTES,
        report_of(bytes_of(report)) == report,
    decreases report.len(),
{
    let bytes = bytes_of(report);
    if report.len() > 0 {
        let front = report.drop_last();
        let n = front.len() as int;
        law_decode_undoes_encode(front);
        lemma_line_round_trip(report.last());
        assert forall|i: int| 0 <= i < report.len() implies #[trigger] report_of(bytes)[i]
            == report[i] by {
            let part = bytes.subrange(i * LINE_BYTES, (i + 1) * LINE_BYTES);
            if i < n {
                assert(part =~= bytes_of(front).subrange(i * LINE_BYTES, (i + 1) * LINE_BYTES));
                assert(report_of(bytes_of(front))[i] == front[i]);
            } else {
                assert(part =~= bytes_of_line(report.last()));
            }
        }
    }
    assert(report_of(bytes) =~= report);
}

/// Encoding gives back the bytes that were decoded, less what was left over at the end.
pub proof fn law_encode_undoes_decode(bytes: Seq<u8>)
    ensures
        bytes_of(report_of(bytes)) == bytes.take(
            (bytes.len() / LINE_BYTES as nat) * LINE_BYTES as int,
        ),
{
    let count = (bytes.len() / LINE_BYTES as nat) as int;
    lemma_lines_spell_their_bytes(bytes, count);
    assert(report_of(bytes).take(count) =~= report_of(bytes));
}

/// The first `n` lines that bytes spell are spelled by the bytes they came from.
proof fn lemma_lines_spell_their_bytes(bytes: Seq<u8>, n: int)
    requires
        0 <= n <= report_of(bytes).len(),
    ensures
        bytes_of(report_of(bytes).take(n)) == bytes.take(n * LINE_BYTES),
    decreases n,
{
    let report = report_of(bytes);
    if n == 0 {
        assert(bytes_of(report.take(0)) =~= bytes.take(0));
    } else {
        lemma_lines_spell_their_bytes(bytes, n - 1);
        let at = (n - 1) * LINE_BYTES;
        let last = bytes.subrange(at, at + LINE_BYTES);
        lemma_line_bytes_round_trip(last);
        assert(report[n - 1] == line_of_bytes(last));
        assert(report.take(n).drop_last() =~= report.take(n - 1));
        assert(report.take(n).last() == report[n - 1]);
        assert(bytes.take(at) + last =~= bytes.take(at + LINE_BYTES));
    }
}

proof fn lemma_u32_bytes_round_trip(b: Seq<u8>)
    requires
        b.len() == 4,
    ensures
        bytes_of_u32(u32_of_bytes(b)) == b,
{
    let x = u32_of_bytes(b);
    let (b0, b1, b2, b3) = (b[0], b[1], b[2], b[3]);
    assert(x == b0 * 0x100_0000 + b1 * 0x1_0000 + b2 * 0x100 + b3);
    assert((x / 0x100_0000) as u8 == b0 && (x / 0x1_0000 % 0x100) as u8 == b1 && (x / 0x100
        % 0x100) as u8 == b2 && (x % 0x100) as u8 == b3) by (bit_vector)
        requires
            x == b0 * 0x100_0000 + b1 * 0x1_0000 + b2 * 0x100 + b3,
    ;
    assert(bytes_of_u32(x) =~= b);
}

proof fn lemma_u64_bytes_round_trip(b: Seq<u8>)
    requires
        b.len() == 8,
    ensures
        bytes_of_u64(u64_of_bytes(b)) == b,
{
    let x = u64_of_bytes(b);
    let hi = u32_of_bytes(b.subrange(0, 4));
    let lo = u32_of_bytes(b.subrange(4, 8));
    assert(x == hi * 0x1_0000_0000 + lo);
    assert((x / 0x1_0000_0000) as u32 == hi);
    assert((x % 0x1_0000_0000) as u32 == lo);
    lemma_u32_bytes_round_trip(b.subrange(0, 4));
    lemma_u32_bytes_round_trip(b.subrange(4, 8));
    assert(bytes_of_u64(x) =~= b);
}

proof fn lemma_line_bytes_round_trip(b: Seq<u8>)
    requires
        b.len() == LINE_BYTES,
    ensures
        bytes_of_line(line_of_bytes(b)) == b,
{
    lemma_u32_bytes_round_trip(b.subrange(0, 4));
    lemma_u64_bytes_round_trip(b.subrange(4, 12));
    lemma_u64_bytes_round_trip(b.subrange(12, 20));
    assert(bytes_of_line(line_of_bytes(b)) =~= b);
}

/// The number spelled by `n` bytes from `at` on, each byte worth what those after it can spell and
/// one more.
pub open spec fn spelled(bytes: Seq<u8>, at: int, n: nat) -> nat
    decreases n,
{
    if n == 0 {
        0
    } else {
        spelled(bytes, at, (n - 1) as nat) * 256 + bytes[at + n - 1] as nat
    }
}

/// Where a line's figures stand among its bytes: four bytes spell the node, the next eight what it
/// acquired, and the last eight what it released, each most significant first.
proof fn lemma_a_line_spells_its_figures(bytes: Seq<u8>, at: int)
    requires
        0 <= at,
        at + LINE_BYTES <= bytes.len(),
    ensures
        ({
            let line = line_of_bytes(bytes.subrange(at, at + LINE_BYTES));
            &&& spelled(bytes, at, 4) == line.0
            &&& spelled(bytes, at + 4, 8) == line.1
            &&& spelled(bytes, at + 12, 8) == line.2
        }),
{
    reveal_with_fuel(spelled, 9);
    let b = bytes.subrange(at, at + LINE_BYTES);
    assert forall|k: int| 0 <= k < LINE_BYTES implies #[trigger] b[k] == bytes[at + k] by {}
    assert(b.subrange(0, 4)[0] == bytes[at]);
}

/// What an encoded report says, byte by byte: line after line, a node in four bytes, what it
/// acquired in eight and what it released in eight, most significant byte first.
pub proof fn law_a_report_spells_its_lines(report: Seq<Line>, i: int)
    requires
        0 <= i < report.len(),
    ensures
        spelled(bytes_of(report), i * LINE_BYTES, 4) == report[i].0,
        spelled(bytes_of(report), i * LINE_BYTES + 4, 8) == report[i].1,
        spelled(bytes_of(report), i * LINE_BYTES + 12, 8) == report[i].2,
{
    law_decode_undoes_encode(report);
    let bytes = bytes_of(report);
    lemma_a_line_spells_its_figures(bytes, i * LINE_BYTES);
    assert(report_of(bytes)[i] == line_of_bytes(
        bytes.subrange(i * LINE_BYTES, (i + 1) * LINE_BYTES),
    ));
}

/// What is decoded is what the bytes spell, a line for every whole twenty of them.
pub proof fn law_decoding_reads_what_is_spelled(bytes: Seq<u8>, i: int)
    requires
        0 <= i,
        (i + 1) * 20 <= bytes.len(),
    ensures
        i < report_of(bytes).len(),
        report_of(bytes).len() * 20 <= bytes.len() < (report_of(bytes).len() + 1) * 20,
        report_of(bytes)[i].0 == spelled(bytes, i * 20, 4),
        report_of(bytes)[i].1 == spelled(bytes, i * 20 + 4, 8),
        report_of(bytes)[i].2 == spelled(bytes, i * 20 + 12, 8),
{
    lemma_a_line_spells_its_figures(bytes, i * LINE_BYTES);
}

} // verus!
