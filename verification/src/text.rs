//! The text form of a lookup table: one line for each pattern of the
//! table, in ascending order.
//!
//! A line reads `0x8e61 1 X...XXX..XX....X, 7 bits, 3 clusters`: the pattern
//! in four hexadecimal digits, the digit one, a diagram of the wires from
//! wire 15 down to wire 0, the number of wires that fired, and the number of
//! clusters that they make on the ring of wires.

use crate::gen::WirePattern;
use crate::mlu::LookupTable;
use vstd::prelude::*;
use vstd::string::StringExecFns;
use vstd::utf8::is_ascii_chars;

verus! {

/// Whether wire `wire` fired in the pattern `n`.
pub open spec fn wire_fired(n: u16, wire: u16) -> bool {
    n & (1u16 << wire) != 0
}

/// The diagram of the wires: `X` for a wire that fired and `.` for one that
/// did not, wire 15 first and wire 0 last.
pub open spec fn bit_pattern(n: u16) -> Seq<char> {
    Seq::new(
        16,
        |k: int|
            if wire_fired(n, (15 - k) as u16) {
                'X'
            } else {
                '.'
            },
    )
}

/// How many of the wires below `wire` fired.
pub open spec fn fired_below(n: u16, wire: u16) -> nat
    decreases wire,
{
    if wire == 0 {
        0
    } else if wire_fired(n, (wire - 1) as u16) {
        fired_below(n, (wire - 1) as u16) + 1
    } else {
        fired_below(n, (wire - 1) as u16)
    }
}

/// How many wires fired.
pub open spec fn bit_count(n: u16) -> nat {
    fired_below(n, 16)
}

/// Whether a cluster starts at `wire`: the wire fired and the wire before
/// it on the ring did not. Wire 15 stands before wire 0.
pub open spec fn starts_cluster(n: u16, wire: u16) -> bool {
    wire_fired(n, wire) && !wire_fired(
        n,
        if wire == 0 {
            15u16
        } else {
            (wire - 1) as u16
        },
    )
}

/// How many clusters start at a wire below `wire`.
pub open spec fn clusters_below(n: u16, wire: u16) -> nat
    decreases wire,
{
    if wire == 0 {
        0
    } else if starts_cluster(n, (wire - 1) as u16) {
        clusters_below(n, (wire - 1) as u16) + 1
    } else {
        clusters_below(n, (wire - 1) as u16)
    }
}

/// How many clusters the wires that fired make: runs of neighbours on the
/// ring of the 16 wires. If all wires fired they make one cluster.
pub open spec fn cluster_count(n: u16) -> nat {
    if n == 0xffff {
        1
    } else {
        clusters_below(n, 16)
    }
}

/// The character for a digit below 16: `0` to `9`, then `a` to `f`.
pub open spec fn digit_char(digit: nat) -> char {
    if digit == 0 {
        '0'
    } else if digit == 1 {
        '1'
    } else if digit == 2 {
        '2'
    } else if digit == 3 {
        '3'
    } else if digit == 4 {
        '4'
    } else if digit == 5 {
        '5'
    } else if digit == 6 {
        '6'
    } else if digit == 7 {
        '7'
    } else if digit == 8 {
        '8'
    } else if digit == 9 {
        '9'
    } else if digit == 10 {
        'a'
    } else if digit == 11 {
        'b'
    } else if digit == 12 {
        'c'
    } else if digit == 13 {
        'd'
    } else if digit == 14 {
        'e'
    } else {
        'f'
    }
}

/// A number in decimal digits.
pub open spec fn decimal(n: nat) -> Seq<char>
    decreases n,
{
    if n < 10 {
        seq![digit_char(n)]
    } else {
        decimal(n / 10).push(digit_char(n % 10))
    }
}

/// A pattern in four hexadecimal digits.
pub open spec fn hex4(n: u16) -> Seq<char> {
    seq![
        digit_char((n / 4096) as nat),
        digit_char((n / 256 % 16) as nat),
        digit_char((n / 16 % 16) as nat),
        digit_char((n % 16) as nat),
    ]
}

/// The number of wires that fired, in words.
pub open spec fn bits_text(n: u16) -> Seq<char> {
    decimal(bit_count(n)) + seq![' ', 'b', 'i', 't', 's']
}

/// The number of clusters, in words.
pub open spec fn clusters_text(n: u16) -> Seq<char> {
    decimal(cluster_count(n)) + seq![' ', 'c', 'l', 'u', 's', 't', 'e', 'r', 's']
}

/// What follows the hexadecimal digits in the line of pattern `n`.
pub open spec fn line_tail(n: u16) -> Seq<char> {
    seq![' ', '1', ' '] + bit_pattern(n) + seq![',', ' '] + bits_text(n) + seq![',', ' ']
        + clusters_text(n)
}

/// The line of pattern `n`.
pub open spec fn line(n: u16) -> Seq<char> {
    seq!['0', 'x'] + hex4(n) + line_tail(n)
}

/// The patterns of the table below `bound`, in ascending order.
pub open spec fn patterns_below(patterns: Set<u16>, bound: int) -> Seq<u16>
    decreases bound,
{
    if bound <= 0 {
        Seq::empty()
    } else if patterns.contains((bound - 1) as u16) {
        patterns_below(patterns, bound - 1).push((bound - 1) as u16)
    } else {
        patterns_below(patterns, bound - 1)
    }
}

/// The lines of the patterns, with a newline between two lines.
pub open spec fn lines(patterns: Seq<u16>) -> Seq<char>
    decreases patterns.len(),
{
    if patterns.len() == 0 {
        Seq::empty()
    } else if patterns.len() == 1 {
        line(patterns[0])
    } else {
        lines(patterns.drop_last()) + seq!['\n'] + line(patterns.last())
    }
}

/// The text of a lookup table.
pub open spec fn table_text(patterns: Set<u16>) -> Seq<char> {
    lines(patterns_below(patterns, 65536))
}

/// Two ASCII texts make an ASCII text.
pub proof fn lemma_ascii_add(a: Seq<char>, b: Seq<char>)
    requires
        is_ascii_chars(a),
        is_ascii_chars(b),
    ensures
        is_ascii_chars(a + b),
{
    assert forall|i: int| 0 <= i < (a + b).len() implies '\0' <= #[trigger] (a + b)[i]
        <= '\u{7f}' by {
        if i < a.len() {
            assert((a + b)[i] == a[i]);
        } else {
            assert((a + b)[i] == b[i - a.len()]);
        }
    }
}

/// A number in decimal digits is an ASCII text.
pub proof fn lemma_decimal_ascii(n: nat)
    ensures
        is_ascii_chars(decimal(n)),
    decreases n,
{
    if n >= 10 {
        lemma_decimal_ascii(n / 10);
        lemma_ascii_add(decimal(n / 10), seq![digit_char(n % 10)]);
        assert(decimal(n) =~= decimal(n / 10) + seq![digit_char(n % 10)]);
    }
}

/// What follows the hexadecimal digits in a line is an ASCII text.
pub proof fn lemma_line_tail_ascii(n: u16)
    ensures
        is_ascii_chars(line_tail(n)),
{
    lemma_decimal_ascii(bit_count(n));
    lemma_decimal_ascii(cluster_count(n));
    let bits = seq![' ', 'b', 'i', 't', 's'];
    let clusters = seq![' ', 'c', 'l', 'u', 's', 't', 'e', 'r', 's'];
    let one = seq![' ', '1', ' '];
    let comma = seq![',', ' '];
    lemma_ascii_add(decimal(bit_count(n)), bits);
    lemma_ascii_add(decimal(cluster_count(n)), clusters);
    lemma_ascii_add(one, bit_pattern(n));
    lemma_ascii_add(one + bit_pattern(n), comma);
    lemma_ascii_add(one + bit_pattern(n) + comma, bits_text(n));
    lemma_ascii_add(one + bit_pattern(n) + comma + bits_text(n), comma);
    lemma_ascii_add(one + bit_pattern(n) + comma + bits_text(n) + comma, clusters_text(n));
}

/// A line is an ASCII text.
pub proof fn lemma_line_ascii(n: u16)
    ensures
        is_ascii_chars(line(n)),
{
    lemma_line_tail_ascii(n);
    lemma_ascii_add(seq!['0', 'x'], hex4(n));
    lemma_ascii_add(seq!['0', 'x'] + hex4(n), line_tail(n));
}

/// The lines of any patterns are an ASCII text.
pub proof fn lemma_lines_ascii(patterns: Seq<u16>)
    ensures
        is_ascii_chars(lines(patterns)),
    decreases patterns.len(),
{
    if patterns.len() == 1 {
        lemma_line_ascii(patterns[0]);
    } else if patterns.len() > 1 {
        lemma_lines_ascii(patterns.drop_last());
        lemma_line_ascii(patterns.last());
        lemma_ascii_add(lines(patterns.drop_last()), seq!['\n']);
        lemma_ascii_add(lines(patterns.drop_last()) + seq!['\n'], line(patterns.last()));
    }
}

/// Two patterns in which the same wires fired are the same pattern.
proof fn lemma_same_wires(n: u16, m: u16)
    requires
        forall|wire: u16| wire < 16 ==> wire_fired(n, wire) == wire_fired(m, wire),
    ensures
        n == m,
{
    assert(wire_fired(n, 0) == wire_fired(m, 0));
    assert(wire_fired(n, 1) == wire_fired(m, 1));
    assert(wire_fired(n, 2) == wire_fired(m, 2));
    assert(wire_fired(n, 3) == wire_fired(m, 3));
    assert(wire_fired(n, 4) == wire_fired(m, 4));
    assert(wire_fired(n, 5) == wire_fired(m, 5));
    assert(wire_fired(n, 6) == wire_fired(m, 6));
    assert(wire_fired(n, 7) == wire_fired(m, 7));
    assert(wire_fired(n, 8) == wire_fired(m, 8));
    assert(wire_fired(n, 9) == wire_fired(m, 9));
    assert(wire_fired(n, 10) == wire_fired(m, 10));
    assert(wire_fired(n, 11) == wire_fired(m, 11));
    assert(wire_fired(n, 12) == wire_fired(m, 12));
    assert(wire_fired(n, 13) == wire_fired(m, 13));
    assert(wire_fired(n, 14) == wire_fired(m, 14));
    assert(wire_fired(n, 15) == wire_fired(m, 15));
    assert(n == m) by (bit_vector)
        requires
            (n & (1u16 << 0u16) != 0) == (m & (1u16 << 0u16) != 0),
            (n & (1u16 << 1u16) != 0) == (m & (1u16 << 1u16) != 0),
            (n & (1u16 << 2u16) != 0) == (m & (1u16 << 2u16) != 0),
            (n & (1u16 << 3u16) != 0) == (m & (1u16 << 3u16) != 0),
            (n & (1u16 << 4u16) != 0) == (m & (1u16 << 4u16) != 0),
            (n & (1u16 << 5u16) != 0) == (m & (1u16 << 5u16) != 0),
            (n & (1u16 << 6u16) != 0) == (m & (1u16 << 6u16) != 0),
            (n & (1u16 << 7u16) != 0) == (m & (1u16 << 7u16) != 0),
            (n & (1u16 << 8u16) != 0) == (m & (1u16 << 8u16) != 0),
            (n & (1u16 << 9u16) != 0) == (m & (1u16 << 9u16) != 0),
            (n & (1u16 << 10u16) != 0) == (m & (1u16 << 10u16) != 0),
            (n & (1u16 << 11u16) != 0) == (m & (1u16 << 11u16) != 0),
            (n & (1u16 << 12u16) != 0) == (m & (1u16 << 12u16) != 0),
            (n & (1u16 << 13u16) != 0) == (m & (1u16 << 13u16) != 0),
            (n & (1u16 << 14u16) != 0) == (m & (1u16 << 14u16) != 0),
            (n & (1u16 << 15u16) != 0) == (m & (1u16 << 15u16) != 0),
    ;
}

/// The diagram tells the pattern: two patterns with the same diagram are
/// the same pattern.
pub proof fn lemma_bit_pattern_injective(n: u16, m: u16)
    requires
        bit_pattern(n) == bit_pattern(m),
    ensures
        n == m,
{
    assert forall|wire: u16| wire < 16 implies wire_fired(n, wire) == wire_fired(m, wire) by {
        let k: int = 15 - wire;
        assert((15 - k) as u16 == wire);
        assert(bit_pattern(n)[k] == if wire_fired(n, wire) {
            'X'
        } else {
            '.'
        });
        assert(bit_pattern(m)[k] == if wire_fired(m, wire) {
            'X'
        } else {
            '.'
        });
    }
    lemma_same_wires(n, m);
}

/// What follows the digits in a line tells the pattern of the line, so that
/// a line whose digits stand for another pattern does not read.
pub proof fn lemma_line_tail_injective(n: u16, m: u16)
    requires
        line_tail(n) == line_tail(m),
    ensures
        n == m,
{
    assert(line_tail(n).subrange(3, 19) =~= bit_pattern(n));
    assert(line_tail(m).subrange(3, 19) =~= bit_pattern(m));
    lemma_bit_pattern_injective(n, m);
}

/// Whether wire `wire` fired in the pattern `n`.
fn has_wire(n: u16, wire: u16) -> (fired: bool)
    requires
        wire < 16,
    ensures
        fired == wire_fired(n, wire),
{
    n & (1u16 << wire) != 0
}

/// The characters `0` to `9` and `a` to `f`, each as a string.
fn digit_str(digit: u32) -> (s: &'static str)
    requires
        digit < 16,
    ensures
        s@ == seq![digit_char(digit as nat)],
{
    proof {
        reveal_strlit("0");
        reveal_strlit("1");
        reveal_strlit("2");
        reveal_strlit("3");
        reveal_strlit("4");
        reveal_strlit("5");
        reveal_strlit("6");
        reveal_strlit("7");
        reveal_strlit("8");
        reveal_strlit("9");
        reveal_strlit("a");
        reveal_strlit("b");
        reveal_strlit("c");
        reveal_strlit("d");
        reveal_strlit("e");
        reveal_strlit("f");
    }
    let s = match digit {
        0 => "0",
        1 => "1",
        2 => "2",
        3 => "3",
        4 => "4",
        5 => "5",
        6 => "6",
        7 => "7",
        8 => "8",
        9 => "9",
        10 => "a",
        11 => "b",
        12 => "c",
        13 => "d",
        14 => "e",
        _ => "f",
    };
    assert(s@ =~= seq![digit_char(digit as nat)]);
    s
}

/// Appends a number in decimal digits.
fn push_decimal(text: &mut String, n: u32)
    ensures
        final(text)@ == old(text)@ + decimal(n as nat),
    decreases n,
{
    if n >= 10 {
        push_decimal(text, n / 10);
    }
    text.append(digit_str(n % 10));
    assert(text@ =~= old(text)@ + decimal(n as nat));
}

/// The diagram of the wires of a pattern.
pub fn bit_pattern_string(n: u16) -> (text: String)
    ensures
        text@ == bit_pattern(n),
{
    let mut text = String::new();
    let mut k: u16 = 0;
    while k < 16
        invariant
            k <= 16,
            text@ == bit_pattern(n).take(k as int),
        decreases 16 - k,
    {
        let ghost before = text@;
        if has_wire(n, 15 - k) {
            text.append("X");
        } else {
            text.append(".");
        }
        proof {
            reveal_strlit("X");
            reveal_strlit(".");
            assert(text@ =~= before.push(bit_pattern(n)[k as int]));
        }
        k += 1;
        assert(text@ =~= bit_pattern(n).take(k as int));
    }
    assert(bit_pattern(n).take(16) =~= bit_pattern(n));
    text
}

/// How many wires of a pattern fired.
pub fn count_bits(n: u16) -> (count: u32)
    ensures
        count == bit_count(n),
        count <= 16,
{
    let mut count: u32 = 0;
    let mut wire: u16 = 0;
    while wire < 16
        invariant
            wire <= 16,
            count == fired_below(n, wire),
            count <= wire,
        decreases 16 - wire,
    {
        if has_wire(n, wire) {
            count += 1;
        }
        wire += 1;
    }
    count
}

/// How many clusters the wires of a pattern make.
pub fn count_clusters(n: u16) -> (count: u32)
    ensures
        count == cluster_count(n),
        count <= 16,
{
    if n == 0xffff {
        return 1;
    }
    let mut count: u32 = 0;
    let mut in_cluster = has_wire(n, 15);
    let mut wire: u16 = 0;
    while wire < 16
        invariant
            wire <= 16,
            count == clusters_below(n, wire),
            count <= wire,
            in_cluster == wire_fired(
                n,
                if wire == 0 {
                    15u16
                } else {
                    (wire - 1) as u16
                },
            ),
        decreases 16 - wire,
    {
        if has_wire(n, wire) {
            if !in_cluster {
                count += 1;
                in_cluster = true;
            }
        } else {
            in_cluster = false;
        }
        wire += 1;
    }
    count
}

/// The number of wires of a pattern that fired, in words.
pub fn bits_string(n: u16) -> (text: String)
    ensures
        text@ == bits_text(n),
{
    proof {
        reveal_strlit(" bits");
    }
    let mut text = String::new();
    push_decimal(&mut text, count_bits(n));
    text.append(" bits");
    assert(text@ =~= bits_text(n));
    text
}

/// The number of clusters of a pattern, in words.
pub fn clusters_string(n: u16) -> (text: String)
    ensures
        text@ == clusters_text(n),
{
    proof {
        reveal_strlit(" clusters");
    }
    let mut text = String::new();
    push_decimal(&mut text, count_clusters(n));
    text.append(" clusters");
    assert(text@ =~= clusters_text(n));
    text
}

/// What follows the hexadecimal digits in the line of a pattern.
pub fn line_tail_string(n: u16) -> (text: String)
    ensures
        text@ == line_tail(n),
{
    proof {
        reveal_strlit(" 1 ");
        reveal_strlit(", ");
    }
    let mut text = String::new();
    text.append(" 1 ");
    text.append(bit_pattern_string(n).as_str());
    text.append(", ");
    text.append(bits_string(n).as_str());
    text.append(", ");
    text.append(clusters_string(n).as_str());
    assert(text@ =~= line_tail(n));
    text
}

/// The line of a pattern.
pub fn line_string(n: u16) -> (text: String)
    ensures
        text@ == line(n),
{
    proof {
        reveal_strlit("0x");
    }
    let mut text = String::new();
    text.append("0x");
    text.append(digit_str((n / 4096) as u32));
    text.append(digit_str((n / 256 % 16) as u32));
    text.append(digit_str((n / 16 % 16) as u32));
    text.append(digit_str((n % 16) as u32));
    text.append(line_tail_string(n).as_str());
    assert(text@ =~= line(n));
    text
}

impl LookupTable {
    /// The text of the table: the lines of its patterns in ascending order,
    /// with a newline between two lines and none at the end.
    pub fn to_string(&self) -> (text: String)
        ensures
            text@ == table_text(self@),
    {
        let mut text = String::new();
        let mut first = true;
        let mut n: u32 = 0;
        while n < 65536
            invariant
                n <= 65536,
                text@ == lines(patterns_below(self@, n as int)),
                first == (patterns_below(self@, n as int).len() == 0),
            decreases 65536 - n,
        {
            if self.contains(WirePattern::from_bits(n as u16)) {
                let ghost before = patterns_below(self@, n as int);
                if !first {
                    text.append("\n");
                }
                text.append(line_string(n as u16).as_str());
                first = false;
                proof {
                    reveal_strlit("\n");
                    let now = before.push(n as u16);
                    assert(now.drop_last() =~= before);
                    assert(text@ =~= lines(now));
                }
            }
            n += 1;
        }
        text
    }
}

} // verus!
