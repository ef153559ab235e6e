//! Whether the numbers that make up the Punycode of a domain fit in 32 bits.
//!
//! Punycode tells the characters of a label beyond ASCII one by one, by rising code point and
//! from left to right. Before each it counts the ways to insert a character that are passed
//! over: for every code point in between, one for each place in what has been told so far.

use vstd::prelude::*;

verus! {

/// The last code point of ASCII.
pub const LAST_ASCII: u32 = 0x7f;

/// One more than the last code point.
pub const CODE_END: u32 = 0x110000;

/// How many characters come before a code point.
pub open spec fn below(label: Seq<char>, code: u32) -> nat
    decreases label.len(),
{
    if label.len() == 0 {
        0
    } else {
        below(label.drop_last(), code) + if (label.last() as u32) < code {
            1nat
        } else {
            0nat
        }
    }
}

/// Whether a code point occurs.
pub open spec fn occurs(label: Seq<char>, code: u32) -> bool {
    exists|i: int| 0 <= i < label.len() && #[trigger] label[i] as u32 == code
}

/// How many characters before a code point come to the left of where it first occurs.
pub open spec fn below_left(label: Seq<char>, code: u32) -> nat
    decreases label.len(),
{
    if label.len() == 0 {
        0
    } else {
        below_left(label.drop_last(), code) + if (label.last() as u32) < code && !occurs(
            label.drop_last(),
            code,
        ) {
            1nat
        } else {
            0nat
        }
    }
}

/// How many characters before a code point come to the right of where it last occurs.
pub open spec fn below_right(label: Seq<char>, code: u32) -> nat
    decreases label.len(),
{
    if label.len() == 0 || label.last() as u32 == code {
        0
    } else {
        below_right(label.drop_last(), code) + if (label.last() as u32) < code {
            1nat
        } else {
            0nat
        }
    }
}

/// The code point told before another one: the greatest beyond ASCII that comes before it, or
/// the last of ASCII.
pub open spec fn previous(label: Seq<char>, code: u32) -> u32
    decreases label.len(),
{
    if label.len() == 0 {
        LAST_ASCII
    } else {
        let earlier = previous(label.drop_last(), code);
        let last = label.last() as u32;
        if earlier < last && last < code {
            last
        } else {
            earlier
        }
    }
}

/// What has been counted already when the last character with a code point has been told.
pub open spec fn carried(label: Seq<char>, code: u32) -> nat {
    if code <= LAST_ASCII {
        0
    } else {
        below_right(label, code) + 1
    }
}

/// The number that tells the first character with a code point.
pub open spec fn distance(label: Seq<char>, code: u32) -> int {
    let earlier = previous(label, code);
    carried(label, earlier) + (code - earlier - 1) * (below(label, code) + 1) + below_left(
        label,
        code,
    )
}

/// Whether all numbers of a label fit in 32 bits. Only those that tell a first character can
/// fail to, as the others are at most the length of the label.
pub open spec fn is_encodable_label(label: Seq<char>) -> bool {
    forall|i: int|
        0 <= i < label.len() && #[trigger] label[i] as u32 > LAST_ASCII ==> distance(
            label,
            label[i] as u32,
        ) <= u32::MAX
}

/// Whether a stretch of a domain is a label: it lies between two dots or the ends.
pub open spec fn is_label(domain: Seq<char>, from: int, to: int) -> bool {
    &&& 0 <= from <= to <= domain.len()
    &&& from > 0 ==> domain[from - 1] == '.'
    &&& to < domain.len() ==> domain[to] == '.'
    &&& forall|i: int| from <= i < to ==> #[trigger] domain[i] != '.'
}

/// Whether all numbers that make up the Punycode of a domain fit in 32 bits.
pub open spec fn is_encodable_domain(domain: Seq<char>) -> bool {
    forall|from: int, to: int| #[trigger]
        is_label(domain, from, to) ==> is_encodable_label(domain.subrange(from, to))
}

/// Characters have code points.
proof fn lemma_code(c: char)
    ensures
        (c as u32) < CODE_END,
{
}

/// A code point after which none occurs before another one is the one told before it.
proof fn lemma_previous(label: Seq<char>, earlier: u32, code: u32)
    requires
        LAST_ASCII <= earlier < code,
        forall|i: int|
            0 <= i < label.len() ==> !(earlier < (#[trigger] label[i] as u32) && (label[i] as u32)
                < code),
    ensures
        LAST_ASCII <= previous(label, code) <= earlier,
        occurs(label, earlier) ==> previous(label, code) == earlier,
    decreases label.len(),
{
    if label.len() > 0 {
        let init = label.drop_last();
        lemma_previous(init, earlier, code);
        assert(label.last() == label[label.len() - 1]);
        if occurs(label, earlier) && label.last() as u32 != earlier {
            let i = choose|i: int| 0 <= i < label.len() && #[trigger] label[i] as u32 == earlier;
            assert(init[i] as u32 == earlier);
        }
    }
}

/// The least code point of a label after another one, or the end of the code points.
fn next_code(domain: &Vec<char>, from: usize, to: usize, after: u32) -> (r: u32)
    requires
        from <= to <= domain.len(),
        after < CODE_END,
    ensures
        after < r <= CODE_END,
        r < CODE_END ==> occurs(domain@.subrange(from as int, to as int), r),
        forall|i: int|
            0 <= i < to - from ==> !(after < (#[trigger] domain@.subrange(
                from as int,
                to as int,
            )[i] as u32) && (domain@.subrange(from as int, to as int)[i] as u32) < r),
{
    let ghost label = domain@.subrange(from as int, to as int);
    let mut r: u32 = CODE_END;
    let mut i: usize = from;
    while i < to
        invariant
            from <= i <= to <= domain.len(),
            label == domain@.subrange(from as int, to as int),
            after < r <= CODE_END,
            r < CODE_END ==> occurs(label, r),
            forall|j: int|
                0 <= j < i - from ==> !(after < (#[trigger] label[j] as u32) && (label[j] as u32)
                    < r),
        decreases to - i,
    {
        let code: u32 = domain[i] as u32;
        assert(label[i - from] as u32 == code);
        if after < code && code < r {
            r = code;
        }
        i += 1;
    }
    r
}

/// How many characters of a label come before a code point, and how many of them to the left
/// of where it first occurs and to the right of where it last occurs.
fn count_below(domain: &Vec<char>, from: usize, to: usize, code: u32) -> (r: (usize, usize, usize))
    requires
        from <= to <= domain.len(),
    ensures
        r.0 == below(domain@.subrange(from as int, to as int), code),
        r.1 == below_left(domain@.subrange(from as int, to as int), code),
        r.2 == below_right(domain@.subrange(from as int, to as int), code),
        r.0 <= to - from,
        r.1 <= to - from,
        r.2 <= to - from,
{
    let ghost label = domain@.subrange(from as int, to as int);
    let mut all: usize = 0;
    let mut left: usize = 0;
    let mut right: usize = 0;
    let mut seen: bool = false;
    let mut i: usize = from;
    assert(label.take(0) =~= Seq::empty());
    while i < to
        invariant
            from <= i <= to <= domain.len(),
            label == domain@.subrange(from as int, to as int),
            all == below(label.take(i - from), code),
            left == below_left(label.take(i - from), code),
            right == below_right(label.take(i - from), code),
            seen == occurs(label.take(i - from), code),
            all <= i - from,
            left <= i - from,
            right <= i - from,
        decreases to - i,
    {
        let c: u32 = domain[i] as u32;
        let ghost head = label.take(i - from);
        let ghost next = label.take(i - from + 1);
        proof {
            assert(next.drop_last() =~= head);
            assert(next.last() as u32 == c);
            assert(occurs(next, code) <==> occurs(head, code) || c == code) by {
                if occurs(head, code) {
                    let j = choose|j: int| 0 <= j < head.len() && #[trigger] head[j] as u32 == code;
                    assert(next[j] as u32 == code);
                }
                if c == code {
                    assert(next[i - from] as u32 == code);
                }
                if occurs(next, code) {
                    let j = choose|j: int| 0 <= j < next.len() && #[trigger] next[j] as u32 == code;
                    if j < head.len() {
                        assert(head[j] as u32 == code);
                    }
                }
            }
        }
        if c == code {
            seen = true;
            right = 0;
        } else if c < code {
            all += 1;
            right += 1;
            if !seen {
                left += 1;
            }
        }
        i += 1;
    }
    assert(label.take(to - from) =~= label);
    (all, left, right)
}

/// Whether all numbers of a label fit in 32 bits.
fn label_fits(domain: &Vec<char>, from: usize, to: usize) -> (r: bool)
    requires
        from <= to <= domain.len(),
    ensures
        r == is_encodable_label(domain@.subrange(from as int, to as int)),
{
    let ghost label = domain@.subrange(from as int, to as int);
    let mut earlier: u32 = LAST_ASCII;
    let mut carry: usize = 0;
    loop
        invariant
            from <= to <= domain.len(),
            label == domain@.subrange(from as int, to as int),
            LAST_ASCII <= earlier < CODE_END,
            earlier == LAST_ASCII ==> carry == 0,
            earlier > LAST_ASCII ==> occurs(label, earlier) && carry == below_right(label, earlier)
                && carry <= to - from,
            forall|i: int|
                0 <= i < label.len() && LAST_ASCII < (#[trigger] label[i] as u32)
                    && label[i] as u32 <= earlier ==> distance(label, label[i] as u32) <= u32::MAX,
        decreases CODE_END - earlier,
    {
        let code: u32 = next_code(domain, from, to, earlier);
        if code == CODE_END {
            assert forall|i: int|
                0 <= i < label.len() && #[trigger] label[i] as u32 > LAST_ASCII implies distance(
                label,
                label[i] as u32,
            ) <= u32::MAX by {
                lemma_code(label[i]);
            }
            return true;
        }
        let (all, left, right): (usize, usize, usize) = count_below(domain, from, to, code);
        let skipped: u128 = (code - earlier - 1) as u128;
        let places: u128 = all as u128 + 1;
        let mut number: u128 = carry as u128 + left as u128;
        if earlier > LAST_ASCII {
            number += 1;
        }
        assert(skipped * places <= 0x110000 * 0x1_0000_0000_0000_0000) by (nonlinear_arith)
            requires
                skipped <= 0x110000,
                places <= 0x1_0000_0000_0000_0000,
        ;
        number += skipped * places;
        proof {
            lemma_previous(label, earlier, code);
            if earlier == LAST_ASCII {
                assert(previous(label, code) == LAST_ASCII);
            }
            assert(number == distance(label, code));
        }
        if number > 0xffff_ffff {
            let ghost i = choose|i: int| 0 <= i < label.len() && #[trigger] label[i] as u32 == code;
            assert(label[i] as u32 > LAST_ASCII);
            return false;
        }
        carry = right;
        earlier = code;
    }
}

/// Tells whether all numbers that make up the Punycode of a domain fit in 32 bits.
pub fn is_encodable(domain: &str) -> (r: bool)
    ensures
        r == is_encodable_domain(domain@),
{
    let mut chars: Vec<char> = Vec::new();
    for c in it: domain.chars()
        invariant
            it.seq() == domain@,
            chars@ == domain@.take(it.index()),
    {
        assert(domain@.take(it.index() + 1) =~= domain@.take(it.index()).push(c));
        chars.push(c);
    }
    assert(chars@ =~= domain@);
    let mut from: usize = 0;
    loop
        invariant
            chars@ == domain@,
            from <= chars.len(),
            from > 0 ==> domain@[from - 1] == '.',
            forall|f: int, t: int| #[trigger]
                is_label(domain@, f, t) && f < from ==> is_encodable_label(domain@.subrange(f, t)),
        decreases chars.len() - from,
    {
        let mut to: usize = from;
        while to < chars.len() && chars[to] != '.'
            invariant
                from <= to <= chars.len(),
                chars@ == domain@,
                forall|i: int| from <= i < to ==> #[trigger] domain@[i] != '.',
            decreases chars.len() - to,
        {
            to += 1;
        }
        assert(is_label(domain@, from as int, to as int));
        if !label_fits(&chars, from, to) {
            return false;
        }
        assert forall|f: int, t: int| #[trigger] is_label(domain@, f, t) && f <= to implies
            is_encodable_label(domain@.subrange(f, t)) by {
            if f > from {
                assert(domain@[f - 1] != '.');
            } else if f == from {
                if t < to {
                    assert(domain@[t] != '.');
                } else if t > to {
                    assert(domain@[to as int] != '.');
                }
            }
        }
        if to == chars.len() {
            return true;
        }
        from = to + 1;
    }
}

/// No count is greater than the label, and that of a code point that occurs is smaller.
proof fn lemma_counts(label: Seq<char>, code: u32)
    ensures
        below(label, code) <= label.len(),
        below_left(label, code) <= below(label, code),
        below_right(label, code) <= below(label, code),
        occurs(label, code) ==> below(label, code) < label.len(),
        LAST_ASCII <= previous(label, code),
        previous(label, code) < code || previous(label, code) == LAST_ASCII,
    decreases label.len(),
{
    if label.len() > 0 {
        let init = label.drop_last();
        lemma_counts(init, code);
        if occurs(label, code) {
            let i = choose|i: int| 0 <= i < label.len() && #[trigger] label[i] as u32 == code;
            if i < init.len() {
                assert(init[i] as u32 == code);
            } else {
                assert(label.last() as u32 == code);
            }
        }
    }
}

/// The Punycode of a label of up to 3855 characters can be computed whatever they are.
pub proof fn law_short_labels_are_encodable(label: Seq<char>)
    requires
        label.len() <= 3855,
    ensures
        is_encodable_label(label),
{
    assert forall|i: int| 0 <= i < label.len() && #[trigger] label[i] as u32
        > LAST_ASCII implies distance(label, label[i] as u32) <= u32::MAX by {
        let code = label[i] as u32;
        let earlier = previous(label, code);
        let len = label.len() as int;
        lemma_code(label[i]);
        assert(occurs(label, code));
        lemma_counts(label, code);
        lemma_counts(label, earlier);
        let skipped = code - earlier - 1;
        let places = below(label, code) + 1;
        assert(skipped * places <= 1_113_983 * 3855) by (nonlinear_arith)
            requires
                0 <= skipped <= 1_113_983,
                0 <= places <= 3855,
        ;
    }
}

/// Letters are below any code point beyond ASCII.
proof fn lemma_letters(letters: Seq<char>, code: u32)
    requires
        forall|i: int| 0 <= i < letters.len() ==> #[trigger] letters[i] as u32 <= 0x7f,
        code > 0x7f,
    ensures
        below(letters, code) == letters.len(),
        below_left(letters, code) == letters.len(),
        below_right(letters, code) == letters.len(),
        !occurs(letters, code),
    decreases letters.len(),
{
    if letters.len() > 0 {
        let init = letters.drop_last();
        assert forall|i: int| 0 <= i < init.len() implies #[trigger] init[i] as u32 <= 0x7f by {
            assert(init[i] == letters[i]);
        }
        lemma_letters(init, code);
        assert(letters[letters.len() - 1] as u32 <= 0x7f);
    }
}

/// Counts of a label that is put together from two parts.
proof fn lemma_parts(a: Seq<char>, b: Seq<char>, code: u32)
    ensures
        occurs(a + b, code) <==> occurs(a, code) || occurs(b, code),
        below(a + b, code) == below(a, code) + below(b, code),
        occurs(a, code) ==> below_left(a + b, code) == below_left(a, code),
        !occurs(a, code) ==> below_left(a + b, code) == below_left(a, code) + below_left(b, code),
        occurs(b, code) ==> below_right(a + b, code) == below_right(b, code),
        !occurs(b, code) ==> below_right(a + b, code) == below_right(a, code) + below(b, code),
    decreases b.len(),
{
    let all = a + b;
    if occurs(a, code) {
        let i = choose|i: int| 0 <= i < a.len() && #[trigger] a[i] as u32 == code;
        assert(all[i] as u32 == code);
    }
    if occurs(b, code) {
        let i = choose|i: int| 0 <= i < b.len() && #[trigger] b[i] as u32 == code;
        assert(all[a.len() + i] as u32 == code);
    }
    if occurs(all, code) {
        let i = choose|i: int| 0 <= i < all.len() && #[trigger] all[i] as u32 == code;
        if i < a.len() {
            assert(a[i] as u32 == code);
        } else {
            assert(b[i - a.len()] as u32 == code);
        }
    }
    if b.len() == 0 {
        assert(all =~= a);
    } else {
        let init = b.drop_last();
        let last = b.last();
        lemma_parts(a, init, code);
        assert(all.drop_last() =~= a + init);
        assert(all.last() == last);
        if occurs(init, code) {
            let i = choose|i: int| 0 <= i < init.len() && #[trigger] init[i] as u32 == code;
            assert(b[i] as u32 == code);
        }
        if last as u32 == code {
            assert(b[b.len() - 1] as u32 == code);
        } else if occurs(b, code) {
            let i = choose|i: int| 0 <= i < b.len() && #[trigger] b[i] as u32 == code;
            assert(init[i] as u32 == code);
        }
    }
}

/// Counts of a single character.
proof fn lemma_one(c: char, code: u32)
    ensures
        occurs(seq![c], code) <==> c as u32 == code,
        below(seq![c], code) == (if (c as u32) < code {
            1nat
        } else {
            0nat
        }),
        below_left(seq![c], code) == below(seq![c], code),
        below_right(seq![c], code) == below(seq![c], code),
{
    let one = seq![c];
    let none = one.drop_last();
    assert(none =~= Seq::empty());
    assert(one.last() == c);
    assert(below(none, code) == 0 && below_left(none, code) == 0 && below_right(none, code) == 0);
    assert(!occurs(none, code));
    if c as u32 == code {
        assert(one[0] as u32 == code);
    }
}

/// Of one character among ASCII ones, the number is that of the code points from 0x80 up to it,
/// each for one place more than there are ASCII ones, and one for each ASCII one in front.
pub proof fn law_one_among_letters(front: Seq<char>, c: char, back: Seq<char>)
    requires
        forall|i: int| 0 <= i < front.len() ==> #[trigger] front[i] as u32 <= 0x7f,
        forall|i: int| 0 <= i < back.len() ==> #[trigger] back[i] as u32 <= 0x7f,
        c as u32 >= 0x80,
    ensures
        is_encodable_label(front + seq![c] + back) <==> (c as u32 - 0x80) * (front.len()
            + back.len() + 1) + front.len() <= 0xffff_ffff,
{
    let label = front + seq![c] + back;
    let at = front.len() as int;
    let code = c as u32;
    lemma_letters(front, code);
    lemma_letters(back, code);
    lemma_one(c, code);
    lemma_parts(front, seq![c], code);
    lemma_parts(front + seq![c], back, code);
    assert(label[at] == c);
    assert forall|i: int| 0 <= i < label.len() && i != at implies #[trigger] label[i] as u32
        <= 0x7f by {
        if i < at {
            assert(label[i] == front[i]);
        } else {
            assert(label[i] == back[i - at - 1]);
        }
    }
    assert forall|i: int| 0 <= i < label.len() implies !(LAST_ASCII < (#[trigger] label[i] as u32)
        && (label[i] as u32) < code) by {}
    lemma_previous(label, LAST_ASCII, code);
    assert(distance(label, code) == (code - 0x80) * (front.len() + back.len() + 1) + front.len());
}

/// With a second one of a greater code point at the end, the way to that counts from the first,
/// for one place more, and from what stands behind the first.
pub proof fn law_two_among_letters(front: Seq<char>, c: char, back: Seq<char>, d: char)
    requires
        forall|i: int| 0 <= i < front.len() ==> #[trigger] front[i] as u32 <= 0x7f,
        forall|i: int| 0 <= i < back.len() ==> #[trigger] back[i] as u32 <= 0x7f,
        0x80 <= c as u32,
        (c as u32) < (d as u32),
    ensures
        is_encodable_label(front + seq![c] + back + seq![d]) <==> {
            let letters = front.len() + back.len();
            &&& (c as u32 - 0x80) * (letters + 1) + front.len() <= 0xffff_ffff
            &&& back.len() + 1 + (d as u32 - c as u32 - 1) * (letters + 2) + letters + 1
                <= 0xffff_ffff
        },
{
    let label = front + seq![c] + back + seq![d];
    let at = front.len() as int;
    let end = at + 1 + back.len() as int;
    let low = c as u32;
    let high = d as u32;
    let letters = front.len() + back.len();
    lemma_letters(front, low);
    lemma_letters(front, high);
    lemma_letters(back, low);
    lemma_letters(back, high);
    lemma_one(c, low);
    lemma_one(c, high);
    lemma_one(d, low);
    lemma_one(d, high);
    lemma_parts(front, seq![c], low);
    lemma_parts(front, seq![c], high);
    lemma_parts(front + seq![c], back, low);
    lemma_parts(front + seq![c], back, high);
    lemma_parts(front + seq![c] + back, seq![d], low);
    lemma_parts(front + seq![c] + back, seq![d], high);
    assert(label[at] == c);
    assert(label[end] == d);
    assert forall|i: int| 0 <= i < label.len() && i != at && i != end implies #[trigger] label[i] as u32
        <= 0x7f by {
        if i < at {
            assert(label[i] == front[i]);
        } else {
            assert(label[i] == back[i - at - 1]);
        }
    }
    assert forall|i: int| 0 <= i < label.len() implies !(LAST_ASCII < (#[trigger] label[i] as u32)
        && (label[i] as u32) < low) by {}
    assert forall|i: int| 0 <= i < label.len() implies !(low < (#[trigger] label[i] as u32) && (
    label[i] as u32) < high) by {}
    lemma_previous(label, LAST_ASCII, low);
    lemma_previous(label, low, high);
    assert(distance(label, low) == (low - 0x80) * (letters + 1) + front.len());
    assert(distance(label, high) == back.len() + 1 + (high - low - 1) * (letters + 2) + letters
        + 1);
}

/// A domain without a dot is one label, and a dot parts the label before it from the rest.
pub proof fn law_labels_are_parted_by_dots(label: Seq<char>, rest: Seq<char>)
    requires
        forall|i: int| 0 <= i < label.len() ==> #[trigger] label[i] != '.',
    ensures
        is_encodable_domain(label) <==> is_encodable_label(label),
        is_encodable_domain(label + seq!['.'] + rest) <==> is_encodable_label(label)
            && is_encodable_domain(rest),
{
    let len = label.len() as int;
    let domain = label + seq!['.'] + rest;
    assert(label.subrange(0, len) =~= label);
    assert(is_label(label, 0, len));
    assert forall|f: int, t: int| #[trigger] is_label(label, f, t) implies f == 0 && t == len by {
        if f > 0 {
            assert(label[f - 1] != '.');
        }
        if t < len {
            assert(label[t] != '.');
        }
    }
    assert(domain[len] == '.');
    assert forall|i: int| 0 <= i < len implies #[trigger] domain[i] == label[i] by {}
    assert forall|i: int| 0 <= i < rest.len() implies #[trigger] rest[i] == domain[len + 1 + i] by {}
    assert(is_label(domain, 0, len));
    assert(domain.subrange(0, len) =~= label);
    assert forall|f: int, t: int| #[trigger] is_label(domain, f, t) implies (f == 0 && t == len) || (f
        > len && is_label(rest, f - len - 1, t - len - 1)) by {
        if 0 < f <= len {
            assert(domain[f - 1] == label[f - 1]);
        }
        if f == 0 && t < len {
            assert(domain[t] == label[t]);
        }
        if f == 0 && t > len {
            assert(domain[len] != '.');
        }
        if f > len {
            assert forall|i: int| f - len - 1 <= i < t - len - 1 implies #[trigger] rest[i] != '.' by {
                assert(rest[i] == domain[len + 1 + i]);
            }
        }
    }
    assert forall|f: int, t: int| #[trigger] is_label(rest, f, t) implies is_label(
        domain,
        f + len + 1,
        t + len + 1,
    ) && domain.subrange(f + len + 1, t + len + 1) == rest.subrange(f, t) by {
        if f > 0 {
            assert(rest[f - 1] == domain[f + len]);
        }
        if t < rest.len() {
            assert(rest[t] == domain[t + len + 1]);
        }
        assert forall|i: int| f + len + 1 <= i < t + len + 1 implies #[trigger] domain[i] != '.' by {
            assert(rest[i - len - 1] == domain[i]);
        }
        assert(domain.subrange(f + len + 1, t + len + 1) =~= rest.subrange(f, t));
    }
    if is_encodable_domain(domain) {
        assert forall|f: int, t: int| #[trigger] is_label(rest, f, t) implies is_encodable_label(
            rest.subrange(f, t),
        ) by {
            assert(is_label(domain, f + len + 1, t + len + 1));
        }
    }
    if is_encodable_label(label) && is_encodable_domain(rest) {
        assert forall|f: int, t: int| #[trigger] is_label(domain, f, t) implies is_encodable_label(
            domain.subrange(f, t),
        ) by {
            if f > len {
                assert(is_label(rest, f - len - 1, t - len - 1));
                assert(domain.subrange(f, t) =~= rest.subrange(f - len - 1, t - len - 1));
            }
        }
    }
}

/// A call of `is_encodable` says yes to every domain whose labels are of up to 3855 characters.
pub proof fn law_is_encodable(domain: &str, r: bool)
    requires
        call_ensures(is_encodable, (domain,), r),
    ensures
        r == is_encodable_domain(domain@),
        (forall|from: int, to: int| #[trigger] is_label(domain@, from, to) ==> to - from <= 3855)
            ==> r,
{
    if forall|from: int, to: int| #[trigger] is_label(domain@, from, to) ==> to - from <= 3855 {
        assert forall|from: int, to: int| #[trigger] is_label(domain@, from, to) implies
            is_encodable_label(domain@.subrange(from, to)) by {
            law_short_labels_are_encodable(domain@.subrange(from, to));
        }
    }
}

} // verus!
