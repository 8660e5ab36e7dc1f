use crate::buster::BusterPart;
use vstd::prelude::*;
use vstd::string::StringSliceAdditionalSpecFns;
use vstd::utf8::{encode_utf8, encode_utf8_valid_utf8, is_char_boundary_iff_not_is_continuation_byte};

verus! {

pub const COMMA: u8 = 0x2c;

pub const HASH: u8 = 0x23;

pub const SLASH: u8 = 0x2f;

pub const PLUS: u8 = 0x2b;

pub const DIGIT_ZERO: u8 = 0x30;

pub const DIGIT_NINE: u8 = 0x39;

/// What one line of a parts file holds. A part is written
/// `name,attack,energy,range,rapid`.
pub enum PartLine {
    /// A blank line, or a comment starting with `#` or `//`.
    Skip,
    /// A line that does not have exactly five comma-separated fields.
    WrongFieldCount,
    /// Five fields, but a stat that is not a number from 0 to 255.
    BadNumber,
    Part(BusterPart),
}

/// Blank lines and comments carry no part.
pub open spec fn is_skipped(b: Seq<u8>) -> bool {
    b.len() == 0 || b[0] == HASH || (b.len() >= 2 && b[0] == SLASH && b[1] == SLASH)
}

/// Positions of the commas in `b`, in increasing order.
pub open spec fn comma_positions(b: Seq<u8>) -> Seq<int>
    decreases b.len(),
{
    if b.len() == 0 {
        Seq::empty()
    } else if b.last() == COMMA {
        comma_positions(b.drop_last()).push(b.len() - 1)
    } else {
        comma_positions(b.drop_last())
    }
}

/// Field `k` of `b`, where `p` lists the positions of its commas: the bytes
/// between comma `k - 1` (or the start) and comma `k` (or the end).
pub open spec fn field(b: Seq<u8>, p: Seq<int>, k: int) -> Seq<u8> {
    b.subrange(
        if k == 0 {
            0
        } else {
            p[k - 1] + 1
        },
        if k == p.len() {
            b.len() as int
        } else {
            p[k]
        },
    )
}

pub open spec fn is_digit(c: u8) -> bool {
    DIGIT_ZERO <= c <= DIGIT_NINE
}

/// The number written in decimal by the digits `d`.
pub open spec fn digits_value(d: Seq<u8>) -> int
    decreases d.len(),
{
    if d.len() == 0 {
        0
    } else {
        digits_value(d.drop_last()) * 10 + (d.last() - DIGIT_ZERO)
    }
}

pub open spec fn all_digits(d: Seq<u8>) -> bool {
    forall|i: int| 0 <= i < d.len() ==> is_digit(#[trigger] d[i])
}

/// `f` without a leading `+`.
pub open spec fn unsigned_part(f: Seq<u8>) -> Seq<u8> {
    if f.len() > 0 && f[0] == PLUS {
        f.drop_first()
    } else {
        f
    }
}

/// The `u8` that `f` writes: an optional `+`, then one or more decimal
/// digits whose value is at most 255. None for any other text.
pub open spec fn u8_text(f: Seq<u8>) -> Option<u8> {
    let d = unsigned_part(f);
    if d.len() > 0 && all_digits(d) && digits_value(d) <= 255 {
        Some(digits_value(d) as u8)
    } else {
        None
    }
}

/// Reads the `u8` written in `b[lo..hi]`.
fn parse_u8_field(b: &[u8], lo: usize, hi: usize) -> (r: Option<u8>)
    requires
        lo <= hi <= b@.len(),
    ensures
        r == u8_text(b@.subrange(lo as int, hi as int)),
{
    let ghost f = b@.subrange(lo as int, hi as int);
    let start: usize = if hi > lo && b[lo] == PLUS {
        lo + 1
    } else {
        lo
    };
    let ghost d = b@.subrange(start as int, hi as int);
    assert(d == if f.len() > 0 && f[0] == PLUS {
        f.drop_first()
    } else {
        f
    });
    if start == hi {
        return None;
    }
    // The value read so far, held at 256 once it is past any `u8`.
    let mut acc: u32 = 0;
    let mut i: usize = start;
    while i < hi
        invariant
            lo <= start <= i <= hi <= b@.len(),
            d == b@.subrange(start as int, hi as int),
            f == b@.subrange(lo as int, hi as int),
            d == if f.len() > 0 && f[0] == PLUS {
                f.drop_first()
            } else {
                f
            },
            acc <= 256,
            acc as int == if digits_value(b@.subrange(start as int, i as int)) <= 256 {
                digits_value(b@.subrange(start as int, i as int))
            } else {
                256
            },
            forall|j: int| start <= j < i ==> is_digit(#[trigger] b@[j]),
        decreases hi - i,
    {
        let c = b[i];
        if c < DIGIT_ZERO || c > DIGIT_NINE {
            assert(d[i - start] == c);
            assert(!is_digit(d[i - start]));
            assert(!all_digits(unsigned_part(f)));
            return None;
        }
        assert(b@.subrange(start as int, i + 1).drop_last() == b@.subrange(start as int, i as int));
        acc = acc * 10 + (c - DIGIT_ZERO) as u32;
        if acc > 256 {
            acc = 256;
        }
        i += 1;
    }
    assert(b@.subrange(start as int, i as int) == d);
    assert forall|j: int| 0 <= j < d.len() implies is_digit(#[trigger] d[j]) by {
        assert(is_digit(b@[start + j]));
    }
    if acc > 255 {
        None
    } else {
        Some(acc as u8)
    }
}

/// Positions of the commas in `b`.
fn find_commas(b: &[u8]) -> (commas: Vec<usize>)
    ensures
        commas@.map_values(|x: usize| x as int) == comma_positions(b@),
        forall|j: int| 0 <= j < commas@.len() ==> #[trigger] commas@[j] < b@.len() && b@[commas@[j] as int] == COMMA,
        forall|j: int, k: int| 0 <= j < k < commas@.len() ==> #[trigger] commas@[j] < #[trigger] commas@[k],
{
    let n = b.len();
    let mut commas: Vec<usize> = Vec::new();
    let mut i: usize = 0;
    while i < n
        invariant
            n == b@.len(),
            i <= n,
            commas@.map_values(|x: usize| x as int) == comma_positions(b@.take(i as int)),
            forall|j: int| 0 <= j < commas@.len() ==> #[trigger] commas@[j] < i && b@[commas@[j] as int] == COMMA,
            forall|j: int, k: int| 0 <= j < k < commas@.len() ==> #[trigger] commas@[j] < #[trigger] commas@[k],
        decreases n - i,
    {
        assert(b@.take(i + 1).drop_last() == b@.take(i as int));
        if b[i] == COMMA {
            commas.push(i);
            assert(commas@.map_values(|x: usize| x as int) =~= comma_positions(b@.take(i + 1)));
        }
        i += 1;
    }
    assert(b@.take(n as int) == b@);
    commas
}

/// Reads one line of a parts file.
pub fn parse_part_line(line: &str) -> (r: PartLine)
    ensures
        is_skipped(line.spec_bytes()) ==> r is Skip,
        !is_skipped(line.spec_bytes()) && comma_positions(line.spec_bytes()).len() != 4
            ==> r is WrongFieldCount,
        !is_skipped(line.spec_bytes()) && comma_positions(line.spec_bytes()).len() == 4 ==> {
            let b = line.spec_bytes();
            let p = comma_positions(b);
            match r {
                PartLine::Part(part) => {
                    &&& encode_utf8(part.name@) == field(b, p, 0)
                    &&& u8_text(field(b, p, 1)) == Some(part.attack)
                    &&& u8_text(field(b, p, 2)) == Some(part.energy)
                    &&& u8_text(field(b, p, 3)) == Some(part.range)
                    &&& u8_text(field(b, p, 4)) == Some(part.rapid)
                },
                PartLine::BadNumber => {
                    ||| u8_text(field(b, p, 1)) is None
                    ||| u8_text(field(b, p, 2)) is None
                    ||| u8_text(field(b, p, 3)) is None
                    ||| u8_text(field(b, p, 4)) is None
                },
                _ => false,
            }
        },
{
    let b = line.as_bytes();
    let n = b.len();
    if n == 0 || b[0] == HASH || (n >= 2 && b[0] == SLASH && b[1] == SLASH) {
        return PartLine::Skip;
    }
    let commas = find_commas(b);
    let ghost p = comma_positions(b@);
    if commas.len() != 4 {
        return PartLine::WrongFieldCount;
    }
    assert(p[0] == commas@[0] && p[1] == commas@[1] && p[2] == commas@[2] && p[3] == commas@[3]);
    let attack = parse_u8_field(b, commas[0] + 1, commas[1]);
    let energy = parse_u8_field(b, commas[1] + 1, commas[2]);
    let range = parse_u8_field(b, commas[2] + 1, commas[3]);
    let rapid = parse_u8_field(b, commas[3] + 1, n);
    match (attack, energy, range, rapid) {
        (Some(attack), Some(energy), Some(range), Some(rapid)) => {
            proof {
                encode_utf8_valid_utf8(line@);
                is_char_boundary_iff_not_is_continuation_byte(b@, commas@[0] as int);
            }
            let (name, _) = line.split_at(commas[0]);
            let name = name.to_owned();
            PartLine::Part(BusterPart { name, attack, energy, range, rapid })
        },
        _ => PartLine::BadNumber,
    }
}

} // verus!
