//! Seven-segment displays: a pattern of lit segments, and the digits whose
//! segment count alone gives them away.
use vstd::prelude::*;

verus! {

use vstd::multiset::Multiset;
use vstd::relations::sorted_by;
use vstd::seq_lib::lemma_sorted_unique;

/// Letter order on segments.
pub open spec fn char_le() -> spec_fn(char, char) -> bool {
    |a: char, b: char| a as u32 <= b as u32
}

/// The canonical (sorted) segment string of each digit.
pub open spec fn canonical(d: int) -> Seq<char> {
    if d == 0 {
        "abcefg"@
    } else if d == 1 {
        "cf"@
    } else if d == 2 {
        "acdeg"@
    } else if d == 3 {
        "acdfg"@
    } else if d == 4 {
        "bcdf"@
    } else if d == 5 {
        "abdfg"@
    } else if d == 6 {
        "abdefg"@
    } else if d == 7 {
        "acf"@
    } else if d == 8 {
        "abcdefg"@
    } else {
        "abcdfg"@
    }
}

/// The digit a set of lit segments displays, if it displays one: the
/// segments, as a multiset, are exactly a digit's canonical segments.
pub open spec fn digit_of(m: Multiset<char>) -> Option<int> {
    if m == canonical(0).to_multiset() {
        Some(0)
    } else if m == canonical(1).to_multiset() {
        Some(1)
    } else if m == canonical(2).to_multiset() {
        Some(2)
    } else if m == canonical(3).to_multiset() {
        Some(3)
    } else if m == canonical(4).to_multiset() {
        Some(4)
    } else if m == canonical(5).to_multiset() {
        Some(5)
    } else if m == canonical(6).to_multiset() {
        Some(6)
    } else if m == canonical(7).to_multiset() {
        Some(7)
    } else if m == canonical(8).to_multiset() {
        Some(8)
    } else if m == canonical(9).to_multiset() {
        Some(9)
    } else {
        None
    }
}

/// The lit segments of one displayed digit, as reported.
#[derive(Debug, Clone, PartialEq, Eq)]
pub struct SevenSegment {
    pub segments: Vec<char>,
}

impl SevenSegment {
    /// A pattern from its reported segment letters.
    pub fn new(letters: &str) -> (s: SevenSegment)
        ensures
            s.segments@ == letters@,
    {
        let n = letters.unicode_len();
        let mut segments: Vec<char> = Vec::new();
        let mut k: usize = 0;
        while k < n
            invariant
                0 <= k <= n,
                n == letters@.len(),
                segments@ =~= letters@.take(k as int),
            decreases n - k,
        {
            segments.push(letters.get_char(k));
            k = k + 1;
        }
        proof {
            assert(letters@.take(n as int) =~= letters@);
        }
        SevenSegment { segments }
    }

    /// Whether the segment count alone identifies the digit: the counts of
    /// one, seven, four and eight.
    pub fn is_unique(&self) -> (r: bool)
        ensures
            r == (self.segments@.len() == 2 || self.segments@.len() == 3 || self.segments@.len()
                == 4 || self.segments@.len() == 7),
    {
        let n = self.segments.len();
        n == 2 || n == 3 || n == 4 || n == 7
    }

    /// How many segments are lit.
    pub fn len(&self) -> (n: usize)
        ensures
            n == self.segments@.len(),
    {
        self.segments.len()
    }

    /// The digit a pattern displays, read off its segment set; `None` for
    /// a scrambled pattern that matches no digit.
    pub fn get_number(segment: SevenSegment) -> (r: Option<usize>)
        ensures
            match digit_of(segment.segments@.to_multiset()) {
                None => r is None,
                Some(d) => r == Some(d as usize),
            },
    {
        let l = sort_chars(&segment.segments);
        proof {
            lemma_canonicals_sorted();
        }
        if vec_is_str(&l, "abcefg") {
            proof {
                lemma_digit_case(segment.segments@, l@, 0);
            }
            Some(0)
        } else if vec_is_str(&l, "cf") {
            proof {
                lemma_digit_case(segment.segments@, l@, 1);
            }
            Some(1)
        } else if vec_is_str(&l, "acdeg") {
            proof {
                lemma_digit_case(segment.segments@, l@, 2);
            }
            Some(2)
        } else if vec_is_str(&l, "acdfg") {
            proof {
                lemma_digit_case(segment.segments@, l@, 3);
            }
            Some(3)
        } else if vec_is_str(&l, "bcdf") {
            proof {
                lemma_digit_case(segment.segments@, l@, 4);
            }
            Some(4)
        } else if vec_is_str(&l, "abdfg") {
            proof {
                lemma_digit_case(segment.segments@, l@, 5);
            }
            Some(5)
        } else if vec_is_str(&l, "abdefg") {
            proof {
                lemma_digit_case(segment.segments@, l@, 6);
            }
            Some(6)
        } else if vec_is_str(&l, "acf") {
            proof {
                lemma_digit_case(segment.segments@, l@, 7);
            }
            Some(7)
        } else if vec_is_str(&l, "abcdefg") {
            proof {
                lemma_digit_case(segment.segments@, l@, 8);
            }
            Some(8)
        } else if vec_is_str(&l, "abcdfg") {
            proof {
                lemma_digit_case(segment.segments@, l@, 9);
            }
            Some(9)
        } else {
            proof {
                assert forall|d: int| 0 <= d < 10 implies segment.segments@.to_multiset()
                    != canonical(d).to_multiset() by {
                    lemma_digit_mismatch(segment.segments@, l@, d);
                }
            }
            None
        }
    }
}

/// When the sorted pattern reads exactly as digit `d`'s canonical string,
/// the pattern's segment set is that digit's.
proof fn lemma_digit_case(orig: Seq<char>, sorted: Seq<char>, d: int)
    requires
        0 <= d < 10,
        sorted.to_multiset() == orig.to_multiset(),
        sorted == canonical(d),
        forall|e: int| 0 <= e < 10 ==> sorted_by(#[trigger] canonical(e), char_le()),
        forall|e: int| 0 <= e < d ==> sorted != canonical(e),
    ensures
        digit_of(orig.to_multiset()) == Some(d),
{
    assert forall|e: int| 0 <= e < d implies orig.to_multiset() != canonical(e).to_multiset() by {
        lemma_digit_mismatch(orig, sorted, e);
    }
}

/// A sorted pattern that does not read as digit `d`'s canonical string
/// has a different segment set.
proof fn lemma_digit_mismatch(orig: Seq<char>, sorted: Seq<char>, d: int)
    requires
        0 <= d < 10,
        sorted.to_multiset() == orig.to_multiset(),
        sorted_by(sorted, char_le()),
        forall|e: int| 0 <= e < 10 ==> sorted_by(#[trigger] canonical(e), char_le()),
        sorted != canonical(d),
    ensures
        orig.to_multiset() != canonical(d).to_multiset(),
{
    if orig.to_multiset() == canonical(d).to_multiset() {
        lemma_char_le_total();
        lemma_sorted_unique(sorted, canonical(d), char_le());
    }
}

proof fn lemma_char_le_total()
    ensures
        vstd::relations::total_ordering(char_le()),
{
    let le = char_le();
    assert forall|a: char, b: char| #[trigger] le(a, b) && #[trigger] le(b, a) implies a == b by {
        assert(a as u32 == b as u32);
        vstd::utf8::char_u32_cast(a, a as u32);
        vstd::utf8::char_u32_cast(b, b as u32);
    }
}

/// Every canonical digit string is in letter order.
proof fn lemma_canonicals_sorted()
    ensures
        forall|e: int| 0 <= e < 10 ==> sorted_by(#[trigger] canonical(e), char_le()),
{
    reveal_strlit("abcefg");
    reveal_strlit("cf");
    reveal_strlit("acdeg");
    reveal_strlit("acdfg");
    reveal_strlit("bcdf");
    reveal_strlit("abdfg");
    reveal_strlit("abdefg");
    reveal_strlit("acf");
    reveal_strlit("abcdefg");
    reveal_strlit("abcdfg");
    assert forall|e: int| 0 <= e < 10 implies sorted_by(#[trigger] canonical(e), char_le()) by {
        if e == 0 {
            assert(sorted_by(canonical(0), char_le()));
        } else if e == 1 {
            assert(sorted_by(canonical(1), char_le()));
        } else if e == 2 {
            assert(sorted_by(canonical(2), char_le()));
        } else if e == 3 {
            assert(sorted_by(canonical(3), char_le()));
        } else if e == 4 {
            assert(sorted_by(canonical(4), char_le()));
        } else if e == 5 {
            assert(sorted_by(canonical(5), char_le()));
        } else if e == 6 {
            assert(sorted_by(canonical(6), char_le()));
        } else if e == 7 {
            assert(sorted_by(canonical(7), char_le()));
        } else if e == 8 {
            assert(sorted_by(canonical(8), char_le()));
        } else {
            assert(sorted_by(canonical(9), char_le()));
        }
    }
}

/// Whether a character vector reads exactly as `lit`.
fn vec_is_str(v: &Vec<char>, lit: &str) -> (r: bool)
    ensures
        r == (v@ == lit@),
{
    let n = lit.unicode_len();
    if v.len() != n {
        return false;
    }
    let mut k: usize = 0;
    while k < n
        invariant
            0 <= k <= n,
            n == lit@.len(),
            n == v@.len(),
            forall|j: int| 0 <= j < k ==> v@[j] == lit@[j],
        decreases n - k,
    {
        if v[k] != lit.get_char(k) {
            return false;
        }
        k = k + 1;
    }
    proof {
        assert(v@ =~= lit@);
    }
    true
}

/// The characters of `v` in letter order: a selection sort.
fn sort_chars(v: &Vec<char>) -> (r: Vec<char>)
    ensures
        r@.to_multiset() == v@.to_multiset(),
        sorted_by(r@, char_le()),
{
    broadcast use vstd::seq_lib::to_multiset_remove;
    broadcast use vstd::seq_lib::to_multiset_build;
    broadcast use vstd::seq_lib::group_to_multiset_ensures;
    broadcast use vstd::multiset::group_multiset_axioms;

    let mut rest = clone_chars(v);
    let mut out: Vec<char> = Vec::new();
    proof {
        assert(out@.to_multiset().add(rest@.to_multiset()) =~= v@.to_multiset()) by {
            assert(out@.to_multiset() =~= Multiset::<char>::empty());
        }
    }
    while rest.len() > 0
        invariant
            out@.to_multiset().add(rest@.to_multiset()) == v@.to_multiset(),
            sorted_by(out@, char_le()),
            forall|i: int, j: int|
                0 <= i < out@.len() && 0 <= j < rest@.len() ==> (out@[i] as u32) <= (
                #[trigger] rest@[j] as u32) || (#[trigger] out@[i] as u32) <= (rest@[j] as u32),
        decreases rest@.len(),
    {
        let mut m: usize = 0;
        let mut k: usize = 1;
        while k < rest.len()
            invariant
                0 <= m < rest@.len(),
                m < k <= rest@.len() || (m == 0 && k <= rest@.len()),
                forall|j: int| 0 <= j < k ==> (rest@[m as int] as u32) <= (
                #[trigger] rest@[j] as u32),
            decreases rest@.len() - k,
        {
            if (rest[k] as u32) < (rest[m] as u32) {
                m = k;
            }
            k = k + 1;
        }
        let ghost out0 = out@;
        let ghost rest0 = rest@;
        let c = rest.remove(m);
        out.push(c);
        proof {
            assert(out@ =~= out0.push(c));
            assert((m as int) < rest0.len());
            assert(rest0[m as int] == c);
            assert(rest@ == rest0.remove(m as int));
            vstd::seq_lib::to_multiset_remove(rest0, m as int);
            assert(rest@.to_multiset() == rest0.to_multiset().remove(c));
            assert(rest0.contains(c));
            rest0.to_multiset_ensures();
            assert(rest0.to_multiset().count(c) > 0);
            vstd::seq_lib::to_multiset_build(out0, c);
            assert(out@.to_multiset() =~= out0.to_multiset().insert(c));
            assert(out@.to_multiset().add(rest@.to_multiset()) =~= out0.to_multiset().add(
                rest0.to_multiset(),
            ));
            assert(sorted_by(out@, char_le())) by {
                assert(forall|i: int| 0 <= i < out0.len() ==> (#[trigger] out0[i] as u32) <= (
                c as u32));
            }
            assert forall|i: int, j: int|
                0 <= i < out@.len() && 0 <= j < rest@.len() implies (#[trigger] out@[i] as u32)
                <= (#[trigger] rest@[j] as u32) by {
                let jj = if j < m as int {
                    j
                } else {
                    j + 1
                };
                assert(rest@[j] == rest0[jj]);
                assert((c as u32) <= (rest0[jj] as u32));
            }
        }
    }
    proof {
        assert(rest@.to_multiset() =~= Multiset::<char>::empty());
        assert(out@.to_multiset() =~= v@.to_multiset());
    }
    out
}

/// The number a run of digits spells in base ten.
pub open spec fn concat_spec(numbers: Seq<usize>) -> int
    decreases numbers.len(),
{
    if numbers.len() == 0 {
        0
    } else {
        10 * concat_spec(numbers.drop_last()) + numbers.last()
    }
}

proof fn lemma_concat_prefix(numbers: Seq<usize>, j: int)
    requires
        0 <= j <= numbers.len(),
    ensures
        0 <= concat_spec(numbers.take(j)) <= concat_spec(numbers),
    decreases numbers.len() - j,
{
    if j == numbers.len() {
        assert(numbers.take(j) =~= numbers);
        lemma_concat_nonneg(numbers);
    } else {
        lemma_concat_prefix(numbers, j + 1);
        assert(numbers.take(j + 1).drop_last() =~= numbers.take(j));
        lemma_concat_nonneg(numbers.take(j));
    }
}

proof fn lemma_concat_nonneg(numbers: Seq<usize>)
    ensures
        concat_spec(numbers) >= 0,
    decreases numbers.len(),
{
    if numbers.len() > 0 {
        lemma_concat_nonneg(numbers.drop_last());
    }
}

/// Joins a run of digits into one base-ten number.
pub fn concat(numbers: &Vec<usize>) -> (r: usize)
    requires
        concat_spec(numbers@) <= usize::MAX as int,
    ensures
        r as int == concat_spec(numbers@),
{
    let mut r: usize = 0;
    let mut k: usize = 0;
    while k < numbers.len()
        invariant
            0 <= k <= numbers@.len(),
            concat_spec(numbers@) <= usize::MAX as int,
            r as int == concat_spec(numbers@.take(k as int)),
        decreases numbers@.len() - k,
    {
        proof {
            lemma_concat_prefix(numbers@, k + 1);
            assert(numbers@.take(k + 1).drop_last() =~= numbers@.take(k as int));
            assert(numbers@.take(k + 1).last() == numbers@[k as int]);
        }
        r = r * 10 + numbers[k];
        k = k + 1;
    }
    proof {
        assert(numbers@.take(numbers@.len() as int) =~= numbers@);
    }
    r
}

/// A copy of a character vector.
fn clone_chars(v: &Vec<char>) -> (r: Vec<char>)
    ensures
        r@ == v@,
{
    let mut r: Vec<char> = Vec::new();
    let mut k: usize = 0;
    while k < v.len()
        invariant
            0 <= k <= v@.len(),
            r@ =~= v@.take(k as int),
        decreases v@.len() - k,
    {
        r.push(v[k]);
        k = k + 1;
    }
    proof {
        assert(v@.take(v@.len() as int) =~= v@);
    }
    r
}

/// How often `c` occurs in one pattern.
pub open spec fn char_occ(row: Seq<char>, c: char) -> int
    decreases row.len(),
{
    if row.len() == 0 {
        0
    } else {
        char_occ(row.drop_last(), c) + if row.last() == c {
            1int
        } else {
            0int
        }
    }
}

/// How often `c` occurs across a list of patterns.
pub open spec fn seg_count(patterns: Seq<SevenSegment>, c: char) -> int
    decreases patterns.len(),
{
    if patterns.len() == 0 {
        0
    } else {
        seg_count(patterns.drop_last(), c) + char_occ(patterns.last().segments@, c)
    }
}

proof fn lemma_char_occ_prefix(row: Seq<char>, c: char, j: int)
    requires
        0 <= j <= row.len(),
    ensures
        0 <= char_occ(row.take(j), c) <= char_occ(row, c),
    decreases row.len() - j,
{
    if j == row.len() {
        assert(row.take(j) =~= row);
        lemma_char_occ_nonneg(row, c);
    } else {
        lemma_char_occ_prefix(row, c, j + 1);
        assert(row.take(j + 1).drop_last() =~= row.take(j));
        lemma_char_occ_nonneg(row.take(j), c);
    }
}

proof fn lemma_char_occ_nonneg(row: Seq<char>, c: char)
    ensures
        char_occ(row, c) >= 0,
    decreases row.len(),
{
    if row.len() > 0 {
        lemma_char_occ_nonneg(row.drop_last(), c);
    }
}

proof fn lemma_seg_count_prefix(patterns: Seq<SevenSegment>, c: char, j: int)
    requires
        0 <= j <= patterns.len(),
    ensures
        0 <= seg_count(patterns.take(j), c) <= seg_count(patterns, c),
    decreases patterns.len() - j,
{
    if j == patterns.len() {
        assert(patterns.take(j) =~= patterns);
        lemma_seg_count_nonneg(patterns, c);
    } else {
        lemma_seg_count_prefix(patterns, c, j + 1);
        assert(patterns.take(j + 1).drop_last() =~= patterns.take(j));
        lemma_seg_count_nonneg(patterns.take(j), c);
        lemma_char_occ_nonneg(patterns[j].segments@, c);
    }
}

proof fn lemma_seg_count_nonneg(patterns: Seq<SevenSegment>, c: char)
    ensures
        seg_count(patterns, c) >= 0,
    decreases patterns.len(),
{
    if patterns.len() > 0 {
        lemma_seg_count_nonneg(patterns.drop_last(), c);
        lemma_char_occ_nonneg(patterns.last().segments@, c);
    }
}

/// One display record: the ten observed patterns, the four output
/// patterns, and the segment unscrambling worked out from them.
#[derive(Debug, Clone, PartialEq, Eq)]
pub struct Entry {
    pub patterns: Vec<SevenSegment>,
    pub outputs: Vec<SevenSegment>,
    pub mappings: Vec<(char, char)>,
}

/// The first mapping pair whose scrambled letter is `c`, if any.
pub open spec fn first_map(mappings: Seq<(char, char)>, c: char, i: int) -> Option<char>
    decreases mappings.len() - i,
{
    if i < 0 || i >= mappings.len() {
        None
    } else if mappings[i].1 == c {
        Some(mappings[i].0)
    } else {
        first_map(mappings, c, i + 1)
    }
}



/// The seven segment letters, in order.
pub open spec fn letters() -> Seq<char> {
    seq!['a', 'b', 'c', 'd', 'e', 'f', 'g']
}

/// The mappings the occurrence counts give away, walking the letters from
/// `i`: a letter seen four times is `e`, six times `b`, nine times `f`.
pub open spec fn phase1_maps(patterns: Seq<SevenSegment>, i: int) -> Seq<(char, char)>
    decreases 7 - i,
{
    if i < 0 || i >= 7 {
        Seq::empty()
    } else {
        let c = letters()[i];
        let n = seg_count(patterns, c);
        (if n == 4 {
            seq![('e', c)]
        } else if n == 6 {
            seq![('b', c)]
        } else if n == 9 {
            seq![('f', c)]
        } else {
            Seq::empty()
        }) + phase1_maps(patterns, i + 1)
    }
}

/// The letters the occurrence counts leave open, walking from `i`.
pub open spec fn phase1_unused(patterns: Seq<SevenSegment>, i: int) -> Seq<char>
    decreases 7 - i,
{
    if i < 0 || i >= 7 {
        Seq::empty()
    } else {
        let c = letters()[i];
        let n = seg_count(patterns, c);
        (if n == 4 || n == 6 || n == 9 {
            Seq::empty()
        } else {
            seq![c]
        }) + phase1_unused(patterns, i + 1)
    }
}

/// The first pattern of exactly `l` segments, at or after `i`.
pub open spec fn first_with_len(patterns: Seq<SevenSegment>, l: int, i: int) -> Option<int>
    decreases patterns.len() - i,
{
    if i < 0 || i >= patterns.len() {
        None
    } else if patterns[i].segments@.len() == l {
        Some(i)
    } else {
        first_with_len(patterns, l, i + 1)
    }
}

/// The open letters of `u`, from `j`, that pattern `p` uses, each mapped
/// to the true segment `tgt`.
pub open spec fn sift_maps(p: Seq<char>, u: Seq<char>, tgt: char, j: int) -> Seq<(char, char)>
    decreases u.len() - j,
{
    if j < 0 || j >= u.len() {
        Seq::empty()
    } else if p.contains(u[j]) {
        seq![(tgt, u[j])] + sift_maps(p, u, tgt, j + 1)
    } else {
        sift_maps(p, u, tgt, j + 1)
    }
}

/// The open letters of `u`, from `j`, that pattern `p` does not use.
pub open spec fn sift_rest(p: Seq<char>, u: Seq<char>, j: int) -> Seq<char>
    decreases u.len() - j,
{
    if j < 0 || j >= u.len() {
        Seq::empty()
    } else if p.contains(u[j]) {
        sift_rest(p, u, j + 1)
    } else {
        seq![u[j]] + sift_rest(p, u, j + 1)
    }
}

/// The deduction has what it needs: the one-, seven- and four-shaped
/// patterns are present, and one letter is left for `g` at the end.
pub open spec fn deducible(patterns: Seq<SevenSegment>) -> bool {
    &&& first_with_len(patterns, 2, 0) is Some
    &&& first_with_len(patterns, 3, 0) is Some
    &&& first_with_len(patterns, 4, 0) is Some
    &&& sift4_rest(patterns).len() >= 1
}

pub open spec fn pat_with_len(patterns: Seq<SevenSegment>, l: int) -> Seq<char> {
    patterns[first_with_len(patterns, l, 0)->0].segments@
}

pub open spec fn sift2_rest(patterns: Seq<SevenSegment>) -> Seq<char> {
    sift_rest(pat_with_len(patterns, 2), phase1_unused(patterns, 0), 0)
}

pub open spec fn sift3_rest(patterns: Seq<SevenSegment>) -> Seq<char> {
    sift_rest(pat_with_len(patterns, 3), sift2_rest(patterns), 0)
}

pub open spec fn sift4_rest(patterns: Seq<SevenSegment>) -> Seq<char> {
    sift_rest(pat_with_len(patterns, 4), sift3_rest(patterns), 0)
}

/// The full deduced mapping: the count-determined letters, then `c` from
/// the one-shaped pattern, `a` from the seven, `d` from the four, and the
/// last open letter as `g`.
pub open spec fn mapping_spec(patterns: Seq<SevenSegment>) -> Seq<(char, char)> {
    phase1_maps(patterns, 0) + sift_maps(pat_with_len(patterns, 2), phase1_unused(patterns, 0), 'c', 0)
        + sift_maps(pat_with_len(patterns, 3), sift2_rest(patterns), 'a', 0) + sift_maps(
        pat_with_len(patterns, 4),
        sift3_rest(patterns),
        'd',
        0,
    ) + seq![('g', sift4_rest(patterns)[0])]
}

/// An output pattern with its letters unscrambled, at the mathematical
/// level.
pub open spec fn fixed_segments(mappings: Seq<(char, char)>, o: SevenSegment) -> Seq<char> {
    Seq::new(o.segments@.len(), |i: int| first_map(mappings, o.segments@[i], 0)->0)
}

/// Every letter of every output pattern has a mapping, and every
/// unscrambled output pattern reads as a digit.
pub open spec fn outputs_readable(e: Entry) -> bool {
    forall|k: int|
        0 <= k < e.outputs@.len() ==> (forall|j: int|
            0 <= j < (#[trigger] e.outputs@[k]).segments@.len() ==> first_map(
                e.mappings@,
                #[trigger] e.outputs@[k].segments@[j],
                0,
            ) is Some) && digit_of(fixed_segments(e.mappings@, e.outputs@[k]).to_multiset())
            is Some
}

/// The digits the entry's four outputs display, in order.
pub open spec fn entry_digits(e: Entry) -> Seq<usize> {
    Seq::new(
        e.outputs@.len(),
        |k: int|
            (digit_of(fixed_segments(e.mappings@, e.outputs@[k]).to_multiset())->0) as usize,
    )
}

impl Entry {
    /// How often segment letter `c` occurs across the patterns.
    pub fn counts(patterns: &Vec<SevenSegment>, c: char) -> (n: usize)
        requires
            seg_count(patterns@, c) <= usize::MAX as int,
        ensures
            n as int == seg_count(patterns@, c),
    {
        let mut n: usize = 0;
        let mut k: usize = 0;
        while k < patterns.len()
            invariant
                0 <= k <= patterns@.len(),
                seg_count(patterns@, c) <= usize::MAX as int,
                n as int == seg_count(patterns@.take(k as int), c),
            decreases patterns@.len() - k,
        {
            proof {
                lemma_seg_count_prefix(patterns@, c, k + 1);
                assert(patterns@.take(k + 1).drop_last() =~= patterns@.take(k as int));
                assert(patterns@.take(k + 1).last() == patterns@[k as int]);
                lemma_char_occ_nonneg(patterns@[k as int].segments@, c);
                lemma_seg_count_nonneg(patterns@.take(k as int), c);
            }
            let row = &patterns[k].segments;
            let ghost rv = row@;
            let mut j: usize = 0;
            while j < row.len()
                invariant
                    0 <= j <= rv.len(),
                    rv == row@,
                    n as int + char_occ(rv, c) - char_occ(rv.take(j as int), c) + seg_count(
                        patterns@,
                        c,
                    ) - seg_count(patterns@.take(k + 1), c) <= usize::MAX as int,
                    0 <= char_occ(rv.take(j as int), c),
                    seg_count(patterns@.take(k + 1), c) <= seg_count(patterns@, c),
                    seg_count(patterns@, c) <= usize::MAX as int,
                    n as int - char_occ(rv.take(j as int), c) == seg_count(
                        patterns@.take(k as int),
                        c,
                    ) - 0,
                decreases rv.len() - j,
            {
                proof {
                    lemma_char_occ_prefix(rv, c, j + 1);
                    assert(rv.take(j + 1).drop_last() =~= rv.take(j as int));
                    assert(rv.take(j + 1).last() == rv[j as int]);
                }
                if row[j] == c {
                    n = n + 1;
                }
                j = j + 1;
            }
            proof {
                assert(rv.take(rv.len() as int) =~= rv);
            }
            k = k + 1;
        }
        proof {
            assert(patterns@.take(patterns@.len() as int) =~= patterns@);
        }
        n
    }

    /// The true segment a scrambled letter stands for.
    pub fn unmap(&self, c: char) -> (r: char)
        requires
            first_map(self.mappings@, c, 0) is Some,
        ensures
            Some(r) == first_map(self.mappings@, c, 0),
    {
        let ghost mv = self.mappings@;
        let mut k: usize = 0;
        while k < self.mappings.len()
            invariant
                0 <= k <= mv.len(),
                mv == self.mappings@,
                first_map(mv, c, 0) is Some,
                first_map(mv, c, 0) == first_map(mv, c, k as int),
            decreases mv.len() - k,
        {
            let m = self.mappings[k];
            if m.1 == c {
                return m.0;
            }
            k = k + 1;
        }
        proof {
            assert(first_map(mv, c, mv.len() as int) is None);
        }
        unreached()
    }



    /// Works the segment unscrambling out of the ten observed patterns:
    /// first the letters the occurrence counts give away, then the rest
    /// from the one-, seven- and four-shaped patterns.
    pub fn create_mapping(patterns: &Vec<SevenSegment>) -> (r: Vec<(char, char)>)
        requires
            forall|i: int| 0 <= i < 7 ==> seg_count(patterns@, letters()[i]) <= usize::MAX as int,
            deducible(patterns@),
        ensures
            r@ == mapping_spec(patterns@),
    {
        let letter_vec = vec!['a', 'b', 'c', 'd', 'e', 'f', 'g'];
        proof {
            assert(letter_vec@ =~= letters());
        }
        let mut mappings: Vec<(char, char)> = Vec::new();
        let mut unused: Vec<char> = Vec::new();
        let mut i: usize = 0;
        while i < 7
            invariant
                0 <= i <= 7,
                letter_vec@ == letters(),
                forall|q: int| 0 <= q < 7 ==> seg_count(patterns@, letters()[q])
                    <= usize::MAX as int,
                mappings@ + phase1_maps(patterns@, i as int) == phase1_maps(patterns@, 0),
                unused@ + phase1_unused(patterns@, i as int) == phase1_unused(patterns@, 0),
            decreases 7 - i,
        {
            let c = letter_vec[i];
            let ghost m0 = mappings@;
            let ghost u0 = unused@;
            let n = Entry::counts(patterns, c);
            if n == 4 {
                mappings.push(('e', c));
            } else if n == 6 {
                mappings.push(('b', c));
            } else if n == 9 {
                mappings.push(('f', c));
            } else {
                unused.push(c);
            }
            proof {
                assert(mappings@ + phase1_maps(patterns@, i + 1) =~= m0 + phase1_maps(
                    patterns@,
                    i as int,
                ));
                assert(unused@ + phase1_unused(patterns@, i + 1) =~= u0 + phase1_unused(
                    patterns@,
                    i as int,
                ));
            }
            i = i + 1;
        }
        proof {
            assert(mappings@ + Seq::<(char, char)>::empty() =~= mappings@);
            assert(unused@ + Seq::<char>::empty() =~= unused@);
        }
        let p2 = Entry::find_with_len(patterns, 2);
        let unused2 = Entry::sift(&mut mappings, p2, &unused, 'c');
        proof {
            assert(unused2@ == sift2_rest(patterns@));
        }
        let p3 = Entry::find_with_len(patterns, 3);
        let unused3 = Entry::sift(&mut mappings, p3, &unused2, 'a');
        proof {
            assert(unused3@ == sift3_rest(patterns@));
        }
        let p4 = Entry::find_with_len(patterns, 4);
        let unused4 = Entry::sift(&mut mappings, p4, &unused3, 'd');
        proof {
            assert(unused4@ == sift4_rest(patterns@));
        }
        mappings.push(('g', unused4[0]));
        proof {
            assert(mappings@ =~= mapping_spec(patterns@));
        }
        mappings
    }

    /// The first pattern of exactly `l` segments.
    fn find_with_len(patterns: &Vec<SevenSegment>, l: usize) -> (p: &SevenSegment)
        requires
            first_with_len(patterns@, l as int, 0) is Some,
        ensures
            p.segments@ == patterns@[first_with_len(patterns@, l as int, 0)->0].segments@,
    {
        let mut k: usize = 0;
        while k < patterns.len()
            invariant
                0 <= k <= patterns@.len(),
                first_with_len(patterns@, l as int, 0) is Some,
                first_with_len(patterns@, l as int, 0) == first_with_len(
                    patterns@,
                    l as int,
                    k as int,
                ),
            decreases patterns@.len() - k,
        {
            if patterns[k].segments.len() == l {
                return &patterns[k];
            }
            k = k + 1;
        }
        proof {
            assert(first_with_len(patterns@, l as int, patterns@.len() as int) is None);
        }
        unreached()
    }

    /// Maps the open letters that `p` uses to the true segment `tgt`,
    /// returning the letters still open.
    fn sift(mappings: &mut Vec<(char, char)>, p: &SevenSegment, unused: &Vec<char>, tgt: char)
        -> (rest: Vec<char>)
        ensures
            final(mappings)@ == old(mappings)@ + sift_maps(p.segments@, unused@, tgt, 0),
            rest@ == sift_rest(p.segments@, unused@, 0),
    {
        let ghost m0 = mappings@;
        let mut rest: Vec<char> = Vec::new();
        let mut j: usize = 0;
        while j < unused.len()
            invariant
                0 <= j <= unused@.len(),
                mappings@ + sift_maps(p.segments@, unused@, tgt, j as int) == m0 + sift_maps(
                    p.segments@,
                    unused@,
                    tgt,
                    0,
                ),
                rest@ + sift_rest(p.segments@, unused@, j as int) == sift_rest(
                    p.segments@,
                    unused@,
                    0,
                ),
            decreases unused@.len() - j,
        {
            let ghost mm = mappings@;
            let ghost rr = rest@;
            let u = unused[j];
            if Entry::has_char(&p.segments, u) {
                mappings.push((tgt, u));
                proof {
                    assert(mappings@ + sift_maps(p.segments@, unused@, tgt, j + 1) =~= mm
                        + sift_maps(p.segments@, unused@, tgt, j as int));
                }
            } else {
                rest.push(u);
                proof {
                    assert(rest@ + sift_rest(p.segments@, unused@, j + 1) =~= rr + sift_rest(
                        p.segments@,
                        unused@,
                        j as int,
                    ));
                }
            }
            j = j + 1;
        }
        proof {
            assert(mappings@ + Seq::<(char, char)>::empty() =~= mappings@);
            assert(rest@ + Seq::<char>::empty() =~= rest@);
        }
        rest
    }

    /// Whether the pattern uses letter `c`.
    fn has_char(p: &Vec<char>, c: char) -> (r: bool)
        ensures
            r == p@.contains(c),
    {
        let mut k: usize = 0;
        while k < p.len()
            invariant
                0 <= k <= p@.len(),
                forall|j: int| 0 <= j < k ==> p@[j] != c,
            decreases p@.len() - k,
        {
            if p[k] == c {
                return true;
            }
            k = k + 1;
        }
        false
    }

    /// The four-digit number the entry's outputs display.
    pub fn number(&self) -> (r: usize)
        requires
            outputs_readable(*self),
            concat_spec(entry_digits(*self)) <= usize::MAX as int,
        ensures
            r as int == concat_spec(entry_digits(*self)),
    {
        let ghost goal = entry_digits(*self);
        let mut digits: Vec<usize> = Vec::new();
        let mut k: usize = 0;
        while k < self.outputs.len()
            invariant
                0 <= k <= self.outputs@.len(),
                outputs_readable(*self),
                goal == entry_digits(*self),
                goal.len() == self.outputs@.len(),
                digits@ =~= goal.take(k as int),
            decreases self.outputs@.len() - k,
        {
            let o = &self.outputs[k];
            proof {
                assert(forall|j: int|
                    0 <= j < o.segments@.len() ==> first_map(
                        self.mappings@,
                        #[trigger] o.segments@[j],
                        0,
                    ) is Some);
            }
            let fixed = self.fix(o);
            proof {
                assert(fixed.segments@ =~= fixed_segments(self.mappings@, self.outputs@[k as int]));
            }
            match SevenSegment::get_number(fixed) {
                Some(d) => {
                    digits.push(d);
                },
                None => {
                    proof {
                        assert(digit_of(
                            fixed_segments(self.mappings@, self.outputs@[k as int]).to_multiset(),
                        ) is Some);
                    }
                    assert(false);
                },
            }
            k = k + 1;
        }
        proof {
            assert(digits@ =~= goal);
        }
        concat(&digits)
    }

    /// A pattern with every scrambled letter replaced by its true segment.
    pub fn fix(&self, segment: &SevenSegment) -> (r: SevenSegment)
        requires
            forall|k: int| 0 <= k < segment.segments@.len() ==> first_map(
                self.mappings@,
                #[trigger] segment.segments@[k],
                0,
            ) is Some,
        ensures
            r.segments@.len() == segment.segments@.len(),
            forall|k: int| 0 <= k < segment.segments@.len() ==> Some(
                #[trigger] r.segments@[k],
            ) == first_map(self.mappings@, segment.segments@[k], 0),
    {
        let mut segments: Vec<char> = Vec::new();
        let mut k: usize = 0;
        while k < segment.segments.len()
            invariant
                0 <= k <= segment.segments@.len(),
                forall|j: int| 0 <= j < segment.segments@.len() ==> first_map(
                    self.mappings@,
                    #[trigger] segment.segments@[j],
                    0,
                ) is Some,
                segments@.len() == k,
                forall|j: int| 0 <= j < k ==> Some(#[trigger] segments@[j]) == first_map(
                    self.mappings@,
                    segment.segments@[j],
                    0,
                ),
            decreases segment.segments@.len() - k,
        {
            segments.push(self.unmap(segment.segments[k]));
            k = k + 1;
        }
        SevenSegment { segments }
    }
}

} // verus!
