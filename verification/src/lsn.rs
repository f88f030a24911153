//! Log sequence numbers and inclusive ranges of them.

use vstd::prelude::*;

verus! {

/// A log sequence number: the position of an entry in a journal.
pub type Lsn = u64;

/// The larger of two LSNs.
pub open spec fn lsn_max(a: Lsn, b: Lsn) -> Lsn {
    if a >= b {
        a
    } else {
        b
    }
}

/// The smaller of two LSNs.
pub open spec fn lsn_min(a: Lsn, b: Lsn) -> Lsn {
    if a <= b {
        a
    } else {
        b
    }
}

/// A non-empty range of LSNs. Both ends are inclusive: the range holds every
/// `lsn` with `first <= lsn <= last`.
#[derive(Clone, Copy, PartialEq, Eq, Structural, Debug)]
pub struct LsnRange {
    /// first marks the beginning of the range, inclusive.
    first: Lsn,
    /// last marks the end of the range, inclusive.
    last: Lsn,
}

impl LsnRange {
    /// The first LSN of the range.
    pub closed spec fn first_lsn(self) -> Lsn {
        self.first
    }

    /// The last LSN of the range.
    pub closed spec fn last_lsn(self) -> Lsn {
        self.last
    }

    /// A range never ends before it begins. This is the type's invariant:
    /// every `LsnRange` value that code holds meets it, and verified code
    /// learns it of a range `r` by `use_type_invariant(&r)`.
    #[verifier::type_invariant]
    pub open spec fn well_formed(self) -> bool {
        self.first_lsn() <= self.last_lsn()
    }

    /// Whether `lsn` lies in the range.
    pub open spec fn has(self, lsn: int) -> bool {
        self.first_lsn() <= lsn <= self.last_lsn()
    }

    /// The number of LSNs in the range.
    pub open spec fn size(self) -> int {
        self.last_lsn() - self.first_lsn() + 1
    }

    /// Whether the two ranges share at least one LSN.
    pub open spec fn overlaps(self, other: LsnRange) -> bool {
        self.last_lsn() >= other.first_lsn() && self.first_lsn() <= other.last_lsn()
    }

    /// Whether `other` begins right after this range ends, with no gap.
    pub open spec fn directly_before(self, other: LsnRange) -> bool {
        self.last_lsn() + 1 == other.first_lsn()
    }

    /// Whether the two ranges overlap or touch, so that together they cover
    /// one contiguous range.
    pub open spec fn joinable(self, other: LsnRange) -> bool {
        self.overlaps(other) || self.directly_before(other) || other.directly_before(self)
    }

    /// The position of `lsn` relative to the start of the range, if it lies in it.
    pub open spec fn offset_of(self, lsn: int) -> Option<int> {
        if self.has(lsn) {
            Some(lsn - self.first_lsn())
        } else {
            None
        }
    }

    /// The half-open span of positions in this range taken by the LSNs that it
    /// shares with `other`; `(0, 0)` when there are none.
    pub open spec fn shared_offsets(self, other: LsnRange) -> (int, int) {
        if self.overlaps(other) {
            (
                lsn_max(self.first_lsn(), other.first_lsn()) - self.first_lsn(),
                lsn_min(self.last_lsn(), other.last_lsn()) - self.first_lsn() + 1,
            )
        } else {
            (0, 0)
        }
    }

    /// Creates the range `[first, last]`.
    pub fn new(first: Lsn, last: Lsn) -> (r: LsnRange)
        requires
            first <= last,
        ensures
            r.first_lsn() == first,
            r.last_lsn() == last,
            r.well_formed(),
    {
        LsnRange { first, last }
    }

    /// The first LSN of the range.
    pub fn first(&self) -> (r: Lsn)
        ensures
            r == self.first_lsn(),
    {
        self.first
    }

    /// The last LSN of the range.
    pub fn last(&self) -> (r: Lsn)
        ensures
            r == self.last_lsn(),
    {
        self.last
    }

    /// The number of LSNs in the range.
    pub fn len(&self) -> (n: usize)
        requires
            self.size() <= usize::MAX,
        ensures
            n == self.size(),
    {
        proof {
            use_type_invariant(self);
        }
        (self.last - self.first + 1) as usize
    }

    /// Whether `lsn` lies in the range.
    pub fn contains(&self, lsn: Lsn) -> (r: bool)
        ensures
            r == self.has(lsn as int),
    {
        self.first <= lsn && lsn <= self.last
    }

    /// Whether the two ranges share at least one LSN.
    pub fn intersects(&self, other: &Self) -> (r: bool)
        ensures
            r == self.overlaps(*other),
    {
        self.last >= other.first && self.first <= other.last
    }

    /// Whether `other` begins right after this range ends.
    pub fn immediately_preceeds(&self, other: &Self) -> (r: bool)
        ensures
            r == self.directly_before(*other),
    {
        self.last < other.first && other.first - self.last == 1
    }

    /// Whether this range begins right after `other` ends.
    pub fn immediately_follows(&self, other: &Self) -> (r: bool)
        ensures
            r == other.directly_before(*self),
    {
        other.immediately_preceeds(self)
    }

    /// The position of `lsn` relative to the start of the range, or `None`
    /// when the range does not hold it.
    pub fn offset(&self, lsn: Lsn) -> (r: Option<usize>)
        requires
            self.has(lsn as int) ==> lsn - self.first_lsn() <= usize::MAX,
        ensures
            match r {
                Some(i) => self.offset_of(lsn as int) == Some(i as int),
                None => self.offset_of(lsn as int) is None,
            },
    {
        if self.contains(lsn) {
            Some((lsn - self.first) as usize)
        } else {
            None
        }
    }

    /// The positions in this range of the LSNs that it shares with `other`,
    /// as a half-open range; `0..0` when the ranges do not intersect.
    pub fn intersection_offsets(&self, other: &Self) -> (r: core::ops::Range<usize>)
        requires
            self.overlaps(*other) ==> lsn_min(self.last_lsn(), other.last_lsn()) - self.first_lsn()
                + 1 <= usize::MAX,
        ensures
            (r.start as int, r.end as int) == self.shared_offsets(*other),
    {
        proof {
            use_type_invariant(self);
            use_type_invariant(other);
        }
        if self.intersects(other) {
            let hi_first = if self.first >= other.first {
                self.first
            } else {
                other.first
            };
            let lo_last = if self.last <= other.last {
                self.last
            } else {
                other.last
            };
            let start = hi_first - self.first;
            let end = lo_last - self.first + 1;
            start as usize..end as usize
        } else {
            0..0
        }
    }

    /// Drops every LSN `<= up_to` from the range; `None` when nothing is left.
    pub fn trim_prefix(&self, up_to: Lsn) -> (r: Option<LsnRange>)
        ensures
            match r {
                None => up_to >= self.last_lsn(),
                Some(t) => {
                    &&& up_to < self.last_lsn()
                    &&& t.well_formed()
                    &&& t.first_lsn() == (if up_to < self.first_lsn() {
                        self.first_lsn() as int
                    } else {
                        up_to + 1
                    })
                    &&& t.last_lsn() == self.last_lsn()
                },
            },
            forall|lsn: int|
                #![trigger self.has(lsn)]
                (self.has(lsn) && lsn > up_to) <==> (r matches Some(t) && t.has(lsn)),
    {
        proof {
            use_type_invariant(self);
        }
        if up_to >= self.last {
            return None;
        }
        if up_to < self.first {
            return Some(*self);
        }
        Some(LsnRange::new(up_to + 1, self.last))
    }

    /// The range extended by `len` more LSNs past its end.
    pub fn extend_by(&self, len: u64) -> (r: LsnRange)
        requires
            len > 0,
            self.last_lsn() + len <= u64::MAX,
        ensures
            r.first_lsn() == self.first_lsn(),
            r.last_lsn() == self.last_lsn() + len,
            r.well_formed(),
    {
        proof {
            use_type_invariant(self);
        }
        LsnRange::new(self.first, self.last + len)
    }

    /// The LSNs that the two ranges share, as a range; `None` when they share none.
    pub fn intersect(&self, other: &Self) -> (r: Option<LsnRange>)
        ensures
            match r {
                None => !self.overlaps(*other),
                Some(i) => {
                    &&& self.overlaps(*other)
                    &&& i.well_formed()
                    &&& i.first_lsn() == lsn_max(self.first_lsn(), other.first_lsn())
                    &&& i.last_lsn() == lsn_min(self.last_lsn(), other.last_lsn())
                },
            },
            forall|lsn: int|
                #![trigger self.has(lsn), other.has(lsn)]
                (self.has(lsn) && other.has(lsn)) <==> (r matches Some(i) && i.has(lsn)),
    {
        proof {
            use_type_invariant(self);
            use_type_invariant(other);
        }
        if self.intersects(other) {
            let first = if self.first >= other.first {
                self.first
            } else {
                other.first
            };
            let last = if self.last <= other.last {
                self.last
            } else {
                other.last
            };
            Some(LsnRange::new(first, last))
        } else {
            None
        }
    }

    /// The smallest range covering both ranges, which must overlap or touch.
    pub fn union(&self, other: &Self) -> (r: LsnRange)
        requires
            self.joinable(*other),
        ensures
            r.first_lsn() == lsn_min(self.first_lsn(), other.first_lsn()),
            r.last_lsn() == lsn_max(self.last_lsn(), other.last_lsn()),
            r.well_formed(),
            forall|lsn: int|
                #![trigger r.has(lsn)]
                r.has(lsn) <==> (self.has(lsn) || other.has(lsn)),
    {
        proof {
            use_type_invariant(self);
            use_type_invariant(other);
        }
        let first = if self.first <= other.first {
            self.first
        } else {
            other.first
        };
        let last = if self.last >= other.last {
            self.last
        } else {
            other.last
        };
        LsnRange::new(first, last)
    }

    /// The range as text, `[first, last]`.
    pub fn to_string(&self) -> (s: String)
        ensures
            s@ == display_text(self.first_lsn(), self.last_lsn()),
    {
        let mut s = String::new();
        s.append("[");
        push_decimal(&mut s, self.first);
        s.append(", ");
        push_decimal(&mut s, self.last);
        s.append("]");
        proof {
            reveal_strlit("[");
            reveal_strlit(", ");
            reveal_strlit("]");
            assert(s@ =~= display_text(self.first_lsn(), self.last_lsn()));
        }
        s
    }

    /// The range as debugging text, `LsnRange(first, last)`.
    pub fn debug_string(&self) -> (s: String)
        ensures
            s@ == debug_text(self.first_lsn(), self.last_lsn()),
    {
        let mut s = String::new();
        s.append("LsnRange(");
        push_decimal(&mut s, self.first);
        s.append(", ");
        push_decimal(&mut s, self.last);
        s.append(")");
        proof {
            reveal_strlit("LsnRange(");
            reveal_strlit(", ");
            reveal_strlit(")");
            assert(s@ =~= debug_text(self.first_lsn(), self.last_lsn()));
        }
        s
    }
}

/// The decimal digit character for `d < 10`.
pub open spec fn digit_char(d: nat) -> char {
    if d == 0 { '0' } else if d == 1 { '1' } else if d == 2 { '2' } else if d == 3 { '3' }
    else if d == 4 { '4' } else if d == 5 { '5' } else if d == 6 { '6' } else if d == 7 { '7' }
    else if d == 8 { '8' } else { '9' }
}

/// The decimal notation of `n`, without leading zeros.
pub open spec fn decimal(n: nat) -> Seq<char>
    decreases n,
{
    if n < 10 {
        seq![digit_char(n)]
    } else {
        decimal(n / 10).push(digit_char(n % 10))
    }
}

/// The text `[first, last]` by which a range is displayed.
pub open spec fn display_text(first: Lsn, last: Lsn) -> Seq<char> {
    seq!['['] + decimal(first as nat) + seq![',', ' '] + decimal(last as nat) + seq![']']
}

/// The text `LsnRange(first, last)` by which a range is shown when debugging.
pub open spec fn debug_text(first: Lsn, last: Lsn) -> Seq<char> {
    seq!['L', 's', 'n', 'R', 'a', 'n', 'g', 'e', '('] + decimal(first as nat) + seq![',', ' ']
        + decimal(last as nat) + seq![')']
}

/// Appends the decimal notation of `n` to `out`.
fn push_decimal(out: &mut String, n: u64)
    ensures
        final(out)@ == old(out)@ + decimal(n as nat),
    decreases n,
{
    if n >= 10 {
        push_decimal(out, n / 10);
    }
    let d = n % 10;
    let digit = if d == 0 {
        "0"
    } else if d == 1 {
        "1"
    } else if d == 2 {
        "2"
    } else if d == 3 {
        "3"
    } else if d == 4 {
        "4"
    } else if d == 5 {
        "5"
    } else if d == 6 {
        "6"
    } else if d == 7 {
        "7"
    } else if d == 8 {
        "8"
    } else {
        "9"
    };
    proof {
        reveal_strlit("0");
        reveal_strlit("1");
        reveal_strlit("2");
        reveal_strlit("3");
        reveal_strlit("4");
        reveal_strlit("5");
        reveal_strlit("6");
        reveal_strlit("7");
        reveal_strlit("8");
        reveal_strlit("9");
        assert(digit@ =~= seq![digit_char(d as nat)]);
    }
    out.append(digit);
    proof {
        if n >= 10 {
            assert(decimal(n as nat) == decimal((n / 10) as nat).push(digit_char(d as nat)));
        }
        assert(out@ =~= old(out)@ + decimal(n as nat));
    }
}

/// A range is determined by its two ends: ranges with the same first and the
/// same last LSN are the same value.
pub proof fn law_equal_ends_equal_ranges(a: LsnRange, b: LsnRange)
    requires
        a.first_lsn() == b.first_lsn(),
        a.last_lsn() == b.last_lsn(),
    ensures
        a == b,
{
}

/// The length of a range is the number of LSNs that it holds.
pub proof fn law_size_counts_members(r: LsnRange)
    requires
        r.well_formed(),
    ensures
        Set::new(|lsn: int| r.has(lsn)).finite(),
        Set::new(|lsn: int| r.has(lsn)).len() == r.size(),
{
    let lo = r.first_lsn() as int;
    let hi = r.last_lsn() + 1;
    vstd::set_lib::lemma_int_range(lo, hi);
    assert(Set::new(|lsn: int| r.has(lsn)) =~= vstd::set_lib::set_int_range(lo, hi));
}

/// Two ranges intersect exactly when some LSN lies in both, whichever of the
/// two is asked.
pub proof fn law_overlap_is_a_shared_lsn(a: LsnRange, b: LsnRange)
    requires
        a.well_formed(),
        b.well_formed(),
    ensures
        a.overlaps(b) <==> exists|lsn: int| a.has(lsn) && b.has(lsn),
        a.overlaps(b) == b.overlaps(a),
{
    if a.overlaps(b) {
        let lsn = lsn_max(a.first_lsn(), b.first_lsn()) as int;
        assert(a.has(lsn) && b.has(lsn));
    }
}

/// Whether two ranges may be joined by `union` does not depend on their order,
/// and the join covers one gap-free run of LSNs: every LSN between the two
/// lies in one of them.
pub proof fn law_joinable_ranges_leave_no_gap(a: LsnRange, b: LsnRange)
    requires
        a.well_formed(),
        b.well_formed(),
    ensures
        a.joinable(b) == b.joinable(a),
        a.joinable(b) ==> forall|lsn: int|
            #![trigger a.has(lsn), b.has(lsn)]
            lsn_min(a.first_lsn(), b.first_lsn()) <= lsn <= lsn_max(a.last_lsn(), b.last_lsn())
                ==> a.has(lsn) || b.has(lsn),
{
}

/// The offsets that `intersection_offsets` reports are exactly the offsets in
/// `a` of the LSNs that `a` shares with `b`: the span is empty when the ranges
/// do not intersect, and each shared LSN is found at its offset inside it.
pub proof fn law_shared_offsets_locate_shared_lsns(a: LsnRange, b: LsnRange)
    requires
        a.well_formed(),
        b.well_formed(),
    ensures
        (a.shared_offsets(b).0 < a.shared_offsets(b).1) <==> a.overlaps(b),
        forall|i: int|
            #![trigger a.has(a.first_lsn() + i)]
            (a.shared_offsets(b).0 <= i < a.shared_offsets(b).1) <==> (0 <= i && a.has(
                a.first_lsn() + i,
            ) && b.has(a.first_lsn() + i)),
        forall|lsn: int|
            #![trigger a.offset_of(lsn), b.has(lsn)]
            a.has(lsn) && b.has(lsn) ==> (a.offset_of(lsn) matches Some(i) && a.shared_offsets(b).0
                <= i < a.shared_offsets(b).1 && a.first_lsn() + i == lsn),
{
}

/// Whether `c` is one of the ASCII digits `0` to `9`.
pub open spec fn is_ascii_digit(c: char) -> bool {
    48 <= (c as int) <= 57
}

/// The number that a string of ASCII digits denotes in base 10, read from the
/// most significant digit on.
pub open spec fn numeral_value(s: Seq<char>) -> int
    decreases s.len(),
{
    if s.len() == 0 {
        0
    } else {
        numeral_value(s.drop_last()) * 10 + ((s.last() as int) - 48)
    }
}

/// Whether `s` is the usual base-10 numeral of `n`: non-empty, all ASCII
/// digits, no leading zero, and denoting `n`.
pub open spec fn is_numeral_of(s: Seq<char>, n: int) -> bool {
    &&& s.len() > 0
    &&& forall|i: int| 0 <= i < s.len() ==> is_ascii_digit(#[trigger] s[i])
    &&& (s.len() > 1 ==> s[0] != '0')
    &&& numeral_value(s) == n
}

proof fn lemma_digit_char_code(d: nat)
    requires
        d < 10,
    ensures
        digit_char(d) as int == 48 + d,
{
}

/// `decimal(n)` is the base-10 numeral of `n`, for every `n`.
pub proof fn law_decimal_is_the_numeral(n: nat)
    ensures
        is_numeral_of(decimal(n), n as int),
    decreases n,
{
    lemma_digit_char_code(n % 10);
    if n < 10 {
        let d = decimal(n);
        assert(d.drop_last() =~= Seq::<char>::empty());
        assert(numeral_value(d.drop_last()) == 0);
        assert(d.last() == digit_char(n));
        assert(numeral_value(d) == n);
    } else {
        law_decimal_is_the_numeral(n / 10);
        let d = decimal(n);
        assert(d.drop_last() =~= decimal(n / 10));
        assert(d.last() == digit_char(n % 10));
        assert(numeral_value(d) == numeral_value(decimal(n / 10)) * 10 + (n % 10));
        assert(d[0] == decimal(n / 10)[0]);
        if n / 10 < 10 {
            lemma_digit_char_code(n / 10);
            assert(decimal(n / 10)[0] == digit_char(n / 10));
            assert(decimal(n / 10)[0] as int != '0' as int);
        } else {
            assert(decimal(n / 10).len() == decimal(n / 100).len() + 1);
        }
        assert(d[0] != '0');
        assert forall|i: int| 0 <= i < d.len() implies is_ascii_digit(#[trigger] d[i]) by {
            if i < d.len() - 1 {
                assert(d[i] == decimal(n / 10)[i]);
            }
        }
    }
}

/// The display text of a range reads back as its two ends: `[`, the numeral
/// of `first`, `, `, the numeral of `last`, `]`.
pub proof fn law_display_text_reads_back(first: Lsn, last: Lsn)
    ensures
        exists|x: Seq<char>, y: Seq<char>|
            #![trigger is_numeral_of(x, first as int), is_numeral_of(y, last as int)]
            is_numeral_of(x, first as int) && is_numeral_of(y, last as int) && display_text(
                first,
                last,
            ) == seq!['['] + x + seq![',', ' '] + y + seq![']'],
{
    law_decimal_is_the_numeral(first as nat);
    law_decimal_is_the_numeral(last as nat);
    let x = decimal(first as nat);
    let y = decimal(last as nat);
    assert(display_text(first, last) == seq!['['] + x + seq![',', ' '] + y + seq![']']);
}

/// The debugging text of a range reads back as its two ends: `LsnRange(`, the
/// numeral of `first`, `, `, the numeral of `last`, `)`.
pub proof fn law_debug_text_reads_back(first: Lsn, last: Lsn)
    ensures
        exists|x: Seq<char>, y: Seq<char>|
            #![trigger is_numeral_of(x, first as int), is_numeral_of(y, last as int)]
            is_numeral_of(x, first as int) && is_numeral_of(y, last as int) && debug_text(
                first,
                last,
            ) == seq!['L', 's', 'n', 'R', 'a', 'n', 'g', 'e', '('] + x + seq![',', ' '] + y
                + seq![')'],
{
    law_decimal_is_the_numeral(first as nat);
    law_decimal_is_the_numeral(last as nat);
    let x = decimal(first as nat);
    let y = decimal(last as nat);
    assert(debug_text(first, last) == seq!['L', 's', 'n', 'R', 'a', 'n', 'g', 'e', '('] + x
        + seq![',', ' '] + y + seq![')']);
}

/// A range comes directly before another exactly when the other's first LSN is
/// the one right after its last, whatever the lengths of the two.
pub proof fn law_directly_before_is_the_next_lsn(a: LsnRange, b: LsnRange)
    ensures
        a.directly_before(b) <==> a.last_lsn() + 1 == b.first_lsn(),
{
}

/// Two ranges that together leave no gap, so that every LSN from the lower
/// first to the higher last lies in one of them, may be joined by `union`.
pub proof fn law_gap_free_ranges_are_joinable(a: LsnRange, b: LsnRange)
    requires
        a.well_formed(),
        b.well_formed(),
        forall|lsn: int|
            #![trigger a.has(lsn)]
            lsn_min(a.first_lsn(), b.first_lsn()) <= lsn <= lsn_max(a.last_lsn(), b.last_lsn())
                ==> (a.has(lsn) || b.has(lsn)),
    ensures
        a.joinable(b),
{
    if a.last_lsn() < b.first_lsn() {
        let lsn = a.last_lsn() + 1;
        assert(a.has(lsn) || b.has(lsn));
        assert(lsn_min(a.first_lsn(), b.first_lsn()) <= lsn <= lsn_max(a.last_lsn(), b.last_lsn()));
    } else if b.last_lsn() < a.first_lsn() {
        let lsn = b.last_lsn() + 1;
        assert(a.has(lsn) || b.has(lsn));
        assert(lsn_min(a.first_lsn(), b.first_lsn()) <= lsn <= lsn_max(a.last_lsn(), b.last_lsn()));
    }
}

/// `offset` finds an LSN at its distance from the range's first LSN, and finds
/// nothing for an LSN outside the range.
pub proof fn law_offset_is_the_distance_from_first(r: LsnRange, lsn: int)
    ensures
        r.first_lsn() <= lsn <= r.last_lsn() ==> r.offset_of(lsn) == Some(lsn - r.first_lsn()),
        !(r.first_lsn() <= lsn <= r.last_lsn()) ==> r.offset_of(lsn) is None,
        r.offset_of(lsn) matches Some(i) ==> r.first_lsn() + i == lsn,
{
}

/// The span that `intersection_offsets` reports never runs backwards, and it is
/// exactly `0..0` when one range ends before the other begins.
pub proof fn law_shared_offsets_are_empty_when_apart(a: LsnRange, b: LsnRange)
    requires
        a.well_formed(),
        b.well_formed(),
    ensures
        a.shared_offsets(b).0 <= a.shared_offsets(b).1,
        (a.last_lsn() < b.first_lsn() || b.last_lsn() < a.first_lsn()) ==> a.shared_offsets(b)
            == (0int, 0int),
        a.shared_offsets(b).0 >= 0,
{
}

} // verus!

