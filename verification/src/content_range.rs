//! The `Content-Range` field of a partial response.

use vstd::prelude::*;

use crate::decimal::parse_number;
#[allow(unused_imports)]
use crate::decimal::{
    ascii_bytes, decimal, is_digit, law_decimal_round_trip, law_number_form, lemma_decimal_digits,
    number,
};

verus! {

/// The bytes that a partial response holds, and the size of the whole file.
#[derive(Debug, Clone, Copy, PartialEq, Eq, Structural)]
pub struct Span {
    /// Position of the first byte.
    pub from: u64,
    /// Position of the last byte.
    pub to: u64,
    /// Size of the file.
    pub total: u64,
}

/// Whether `s` begins with `prefix`.
pub open spec fn starts_with(s: Seq<u8>, prefix: Seq<u8>) -> bool {
    prefix.len() <= s.len() && s.take(prefix.len() as int) == prefix
}

/// What a field starts with: the unit `bytes` and a space.
pub open spec fn unit_prefix() -> Seq<u8> {
    seq![0x62, 0x79, 0x74, 0x65, 0x73, 0x20]
}

/// The last position as it is taken: the largest number stands for "one before zero",
/// which some servers send for an empty file, and is taken as zero.
pub open spec fn last_position(to: u64) -> u64 {
    if to == u64::MAX {
        0
    } else {
        to
    }
}

/// The meaning of the field `bytes FROM-TO/TOTAL`: the three numbers stand between the
/// unit, the first dash before the first slash, and that slash.
pub open spec fn content_range(field: Seq<u8>) -> Option<Span> {
    match field.index_of_first(0x2f) {
        Some(slash) => match field.take(slash).index_of_first(0x2d) {
            Some(dash) => if starts_with(field, unit_prefix()) {
                match (
                    number(field.subrange(6, dash)),
                    number(field.subrange(dash + 1, slash)),
                    number(field.skip(slash + 1)),
                ) {
                    (Some(from), Some(to), Some(total)) => Some(
                        Span { from, to: last_position(to), total },
                    ),
                    _ => None,
                }
            } else {
                None
            },
            None => None,
        },
        None => None,
    }
}

/// The position of the first `needle` among the first `end` bytes.
fn find(s: &[u8], needle: u8, end: usize) -> (r: Option<usize>)
    requires
        end <= s@.len(),
    ensures
        r is Some <==> s@.take(end as int).index_of_first(needle) is Some,
        r is Some ==> s@.take(end as int).index_of_first(needle) == Some(r->0 as int),
        r is Some ==> r->0 < end && s@[r->0 as int] == needle,
        r is Some ==> forall|j: int| 0 <= j < r->0 ==> s@[j] != needle,
        r is None ==> forall|j: int| 0 <= j < end ==> s@[j] != needle,
{
    let ghost prefix = s@.take(end as int);
    proof {
        prefix.index_of_first_ensures(needle);
    }
    let mut i: usize = 0;
    while i < end
        invariant
            i <= end <= s@.len(),
            prefix == s@.take(end as int),
            forall|j: int| 0 <= j < i ==> s@[j] != needle,
        decreases end - i,
    {
        if s[i] == needle {
            proof {
                assert(prefix[i as int] == needle);
                prefix.index_of_first_ensures(needle);
                let first = prefix.index_of_first(needle)->0;
                assert(s@[first] == needle);
            }
            return Some(i);
        }
        i = i + 1;
    }
    None
}

/// Whether the field starts with its unit.
fn has_unit(field: &[u8]) -> (r: bool)
    ensures
        r == starts_with(field@, unit_prefix()),
{
    if field.len() < 6 {
        return false;
    }
    let r = field[0] == 0x62 && field[1] == 0x79 && field[2] == 0x74 && field[3] == 0x65
        && field[4] == 0x73 && field[5] == 0x20;
    proof {
        let head = field@.take(6);
        assert(head.len() == 6);
        if r {
            assert(head =~= unit_prefix());
        } else {
            assert(head[0] == field@[0] && head[1] == field@[1] && head[2] == field@[2] && head[3]
                == field@[3] && head[4] == field@[4] && head[5] == field@[5]);
            assert(head != unit_prefix());
        }
    }
    r
}

/// Reads a `Content-Range` field. There is no result for a malformed one.
pub fn parse_content_range(field: &[u8]) -> (r: Option<Span>)
    ensures
        r == content_range(field@),
{
    proof {
        assert(field@.take(field@.len() as int) =~= field@);
    }
    if !has_unit(field) {
        return None;
    }
    let slash: usize = match find(field, 0x2f, field.len()) {
        Some(slash) => slash,
        None => return None,
    };
    let dash: usize = match find(field, 0x2d, slash) {
        Some(dash) => dash,
        None => return None,
    };
    proof {
        let unit = field@.take(6);
        assert(unit == unit_prefix());
        assert(forall|j: int| 0 <= j < 6 ==> field@[j] == #[trigger] unit[j]);
        assert(dash >= 6);
    }
    let from: Option<u64> = parse_number(vstd::slice::slice_subrange(field, 6, dash));
    let to: Option<u64> = parse_number(vstd::slice::slice_subrange(field, dash + 1, slash));
    let total: Option<u64> = parse_number(
        vstd::slice::slice_subrange(field, slash + 1, field.len()),
    );
    assert(field@.skip(slash + 1) =~= field@.subrange(slash + 1, field@.len() as int));
    match (from, to, total) {
        (Some(from), Some(to), Some(total)) => {
            let to: u64 = if to == u64::MAX {
                0
            } else {
                to
            };
            Some(Span { from, to, total })
        },
        _ => None,
    }
}

/// The field that says which bytes a response holds.
pub open spec fn content_range_text(from: u64, to: u64, total: u64) -> Seq<u8> {
    unit_prefix() + ascii_bytes(decimal(from as nat)) + seq![0x2du8] + ascii_bytes(
        decimal(to as nat),
    ) + seq![0x2fu8] + ascii_bytes(decimal(total as nat))
}

/// Where the needle first occurs is what `index_of_first` gives.
proof fn lemma_index_of_first(s: Seq<u8>, needle: u8, at: int)
    requires
        0 <= at < s.len(),
        s[at] == needle,
        forall|j: int| 0 <= j < at ==> s[j] != needle,
    ensures
        s.index_of_first(needle) == Some(at),
{
    s.index_of_first_ensures(needle);
    let first = s.index_of_first(needle)->0;
    assert(s[first] == needle);
}

/// A field written for a span is read back as that span.
pub proof fn law_content_range_round_trip(from: u64, to: u64, total: u64)
    ensures
        content_range(content_range_text(from, to, total)) == Some(
            Span { from, to: last_position(to), total },
        ),
{
    let field = content_range_text(from, to, total);
    let f = ascii_bytes(decimal(from as nat));
    let t = ascii_bytes(decimal(to as nat));
    let n = ascii_bytes(decimal(total as nat));
    law_decimal_round_trip(from);
    law_decimal_round_trip(to);
    law_decimal_round_trip(total);
    lemma_decimal_digits(from as nat);
    lemma_decimal_digits(to as nat);
    let dash = 6 + f.len() as int;
    let slash = dash + 1 + t.len() as int;
    assert forall|j: int| 0 <= j < slash implies field[j] != 0x2f && (j != dash ==> field[j]
        != 0x2d) by {
        if j < 6 {
            assert(field[j] == unit_prefix()[j]);
        } else if j < dash {
            assert(field[j] == f[j - 6]);
            assert(is_digit(f[j - 6]));
        } else if j > dash {
            assert(field[j] == t[j - dash - 1]);
            assert(is_digit(t[j - dash - 1]));
        }
    }
    lemma_index_of_first(field, 0x2f, slash);
    lemma_index_of_first(field.take(slash), 0x2d, dash);
    assert(field.take(6) =~= unit_prefix());
    assert(field.subrange(6, dash) =~= f);
    assert(field.subrange(dash + 1, slash) =~= t);
    assert(field.skip(slash + 1) =~= n);
}

/// No field gives the largest number as last position, so one more always fits.
pub proof fn law_last_position_fits(field: Seq<u8>)
    ensures
        content_range(field) is Some ==> content_range(field)->0.to < u64::MAX,
{
}

/// Numbers between `bytes `, a dash and a slash are what the field says, however they are
/// written. The largest number as last position is taken as zero.
pub proof fn law_content_range_reads_numbers(f: Seq<u8>, t: Seq<u8>, n: Seq<u8>)
    requires
        number(f) is Some,
        number(t) is Some,
        number(n) is Some,
    ensures
        content_range(
            seq![0x62u8, 0x79, 0x74, 0x65, 0x73, 0x20] + f + seq![0x2du8] + t + seq![0x2fu8] + n,
        ) == Some(
            Span {
                from: number(f)->0,
                to: if number(t)->0 == 0xffff_ffff_ffff_ffff {
                    0
                } else {
                    number(t)->0
                },
                total: number(n)->0,
            },
        ),
{
    let unit = seq![0x62u8, 0x79, 0x74, 0x65, 0x73, 0x20];
    let field = unit + f + seq![0x2du8] + t + seq![0x2fu8] + n;
    let dash = 6 + f.len() as int;
    let slash = dash + 1 + t.len() as int;
    law_number_form(f);
    law_number_form(t);
    assert forall|j: int| 0 <= j < slash implies field[j] != 0x2f && (j != dash ==> field[j]
        != 0x2d) by {
        if j < 6 {
            assert(field[j] == unit[j]);
        } else if j < dash {
            assert(field[j] == f[j - 6]);
        } else if j > dash {
            assert(field[j] == t[j - dash - 1]);
        }
    }
    lemma_index_of_first(field, 0x2f, slash);
    lemma_index_of_first(field.take(slash), 0x2d, dash);
    assert(field.take(6) =~= unit_prefix());
    assert(field.subrange(6, dash) =~= f);
    assert(field.subrange(dash + 1, slash) =~= t);
    assert(field.skip(slash + 1) =~= n);
}

/// A field says something only if it is `bytes `, a number, a dash, a number, a slash and a
/// number.
pub proof fn law_content_range_form(field: Seq<u8>)
    requires
        content_range(field) is Some,
    ensures
        exists|dash: int, slash: int|
            6 <= dash < slash < field.len() && field.take(6) == seq![
                0x62u8,
                0x79,
                0x74,
                0x65,
                0x73,
                0x20,
            ] && #[trigger] field[dash] == 0x2d && #[trigger] field[slash] == 0x2f && number(
                field.subrange(6, dash),
            ) is Some && number(field.subrange(dash + 1, slash)) is Some && number(
                field.skip(slash + 1),
            ) is Some,
{
    field.index_of_first_ensures(0x2f);
    let slash = field.index_of_first(0x2f)->0;
    let head = field.take(slash);
    head.index_of_first_ensures(0x2d);
    let dash = head.index_of_first(0x2d)->0;
    let unit = field.take(6);
    assert(unit == unit_prefix());
    assert(forall|j: int| 0 <= j < 6 ==> field[j] == #[trigger] unit[j]);
    assert(head[dash] == 0x2d);
    assert(field[dash] == 0x2d && field[slash] == 0x2f);
}

/// A call of `parse_content_range` on a field made of three numbers gives these numbers, with zero
/// for the largest one as last position.
pub proof fn law_parse_content_range(
    field: &[u8],
    r: Option<Span>,
    f: Seq<u8>,
    t: Seq<u8>,
    n: Seq<u8>,
)
    requires
        call_ensures(parse_content_range, (field,), r),
        field@ == seq![0x62u8, 0x79, 0x74, 0x65, 0x73, 0x20] + f + seq![0x2du8] + t + seq![0x2fu8]
            + n,
        number(f) is Some,
        number(t) is Some,
        number(n) is Some,
    ensures
        r == Some(
            Span {
                from: number(f)->0,
                to: if number(t)->0 == 0xffff_ffff_ffff_ffff {
                    0
                } else {
                    number(t)->0
                },
                total: number(n)->0,
            },
        ),
{
    law_content_range_reads_numbers(f, t, n);
}

} // verus!
